use crate::block::{Block, BlockView};
use crate::chain::{chain_valid, Chainy};
use crate::errors::ChainyError;
use crate::digest::{chars_to_string, dec_digits, digit_char, push_chars, push_dec, str_to_chars};
use vstd::prelude::*;
use vstd::string::StrSliceExecFns;

verus! {

// ---------------------------------------------------------------------------
// The serialized shape of a chain: one JSON object with a single `chain`
// field holding the array of blocks, each block an object with the fields
// offset, data, timestamp, hash, previous_hash in that order, numbers in
// canonical decimal and strings escaped as JSON requires. The rendering
// below is the exact text written; the parser accepts exactly these texts.
// ---------------------------------------------------------------------------
/// The character for one hexadecimal digit.
pub open spec fn hex_digit(d: nat) -> char {
    if d == 0 {
        '0'
    } else if d == 1 {
        '1'
    } else if d == 2 {
        '2'
    } else if d == 3 {
        '3'
    } else if d == 4 {
        '4'
    } else if d == 5 {
        '5'
    } else if d == 6 {
        '6'
    } else if d == 7 {
        '7'
    } else if d == 8 {
        '8'
    } else if d == 9 {
        '9'
    } else if d == 10 {
        'a'
    } else if d == 11 {
        'b'
    } else if d == 12 {
        'c'
    } else if d == 13 {
        'd'
    } else if d == 14 {
        'e'
    } else {
        'f'
    }
}

/// How one character appears inside a JSON string: itself, a short escape,
/// or `\u00..` for the remaining control characters.
pub open spec fn escape_char(c: char) -> Seq<char> {
    if c == '"' {
        seq!['\\', '"']
    } else if c == '\\' {
        seq!['\\', '\\']
    } else if c == '\x08' {
        seq!['\\', 'b']
    } else if c == '\t' {
        seq!['\\', 't']
    } else if c == '\n' {
        seq!['\\', 'n']
    } else if c == '\x0c' {
        seq!['\\', 'f']
    } else if c == '\r' {
        seq!['\\', 'r']
    } else if (c as u32) < 0x20 {
        seq!['\\', 'u', '0', '0', hex_digit(((c as u32) / 16) as nat), hex_digit(
            ((c as u32) % 16) as nat,
        )]
    } else {
        seq![c]
    }
}

/// A text with every character escaped as JSON requires.
pub open spec fn escape(s: Seq<char>) -> Seq<char>
    decreases s.len(),
{
    if s.len() == 0 {
        Seq::empty()
    } else {
        escape_char(s[0]) + escape(s.skip(1))
    }
}

/// A JSON string body: the escaped text followed by its closing quote. The
/// opening quote belongs to the literal that precedes it.
pub open spec fn render_jstr(s: Seq<char>) -> Seq<char> {
    escape(s) + seq!['"']
}

pub open spec fn lit_chain_open() -> Seq<char> {
    "{\"chain\":["@
}

pub open spec fn lit_offset() -> Seq<char> {
    "{\"offset\":"@
}

pub open spec fn lit_data() -> Seq<char> {
    ",\"data\":\""@
}

pub open spec fn lit_timestamp() -> Seq<char> {
    ",\"timestamp\":"@
}

pub open spec fn lit_hash() -> Seq<char> {
    ",\"hash\":\""@
}

pub open spec fn lit_previous_hash() -> Seq<char> {
    ",\"previous_hash\":\""@
}

/// The serialized form of one block.
pub open spec fn render_block(b: BlockView) -> Seq<char> {
    lit_offset() + dec_digits(b.offset as nat) + lit_data() + render_jstr(b.data)
        + lit_timestamp() + dec_digits(b.timestamp as nat) + lit_hash() + render_jstr(b.hash)
        + lit_previous_hash() + render_jstr(b.previous_hash) + seq!['}']
}

/// The serialized block array: blocks in order, separated by commas.
pub open spec fn render_blocks(s: Seq<BlockView>) -> Seq<char>
    decreases s.len(),
{
    if s.len() == 0 {
        Seq::empty()
    } else if s.len() == 1 {
        render_block(s[0])
    } else {
        render_block(s[0]) + seq![','] + render_blocks(s.skip(1))
    }
}

/// The serialized form of a whole chain.
pub open spec fn render_chain(s: Seq<BlockView>) -> Seq<char> {
    lit_chain_open() + render_blocks(s) + seq![']', '}']
}

/// Escaping distributes over concatenation.
pub proof fn lemma_escape_append(a: Seq<char>, b: Seq<char>)
    ensures
        escape(a + b) == escape(a) + escape(b),
    decreases a.len(),
{
    if a.len() == 0 {
        assert(a + b =~= b);
        assert(escape(a) + escape(b) =~= escape(b));
    } else {
        lemma_escape_append(a.skip(1), b);
        assert((a + b).skip(1) =~= a.skip(1) + b);
        assert(escape(a + b) =~= escape(a) + escape(b));
    }
}

/// Extending the block array by one block appends a comma (when the array
/// was not empty) and the new block's rendering.
pub proof fn lemma_render_blocks_snoc(s: Seq<BlockView>, b: BlockView)
    ensures
        s.len() == 0 ==> render_blocks(s.push(b)) == render_block(b),
        s.len() > 0 ==> render_blocks(s.push(b)) == render_blocks(s) + seq![','] + render_block(b),
    decreases s.len(),
{
    let t = s.push(b);
    if s.len() == 0 {
        assert(t.len() == 1);
        assert(t[0] == b);
    } else {
        lemma_render_blocks_snoc(s.skip(1), b);
        assert(t.skip(1) =~= s.skip(1).push(b));
        assert(t[0] == s[0]);
        if s.len() == 1 {
            // one block so far: both sides reduce to the two renderings
            assert(render_blocks(t) =~= render_blocks(s) + seq![','] + render_block(b));
        } else {
            assert(render_blocks(t) =~= render_blocks(s) + seq![','] + render_block(b));
        }
    }
}

fn hex_digit_exec(d: u32) -> (c: char)
    requires
        d < 16,
    ensures
        c == hex_digit(d as nat),
{
    if d == 0 {
        '0'
    } else if d == 1 {
        '1'
    } else if d == 2 {
        '2'
    } else if d == 3 {
        '3'
    } else if d == 4 {
        '4'
    } else if d == 5 {
        '5'
    } else if d == 6 {
        '6'
    } else if d == 7 {
        '7'
    } else if d == 8 {
        '8'
    } else if d == 9 {
        '9'
    } else if d == 10 {
        'a'
    } else if d == 11 {
        'b'
    } else if d == 12 {
        'c'
    } else if d == 13 {
        'd'
    } else if d == 14 {
        'e'
    } else {
        'f'
    }
}

/// Appends one character in its escaped form.
fn push_escaped_char(v: &mut Vec<char>, c: char)
    ensures
        final(v)@ == old(v)@ + escape_char(c),
{
    if c == '"' {
        v.push('\\');
        v.push('"');
    } else if c == '\\' {
        v.push('\\');
        v.push('\\');
    } else if c == '\x08' {
        v.push('\\');
        v.push('b');
    } else if c == '\t' {
        v.push('\\');
        v.push('t');
    } else if c == '\n' {
        v.push('\\');
        v.push('n');
    } else if c == '\x0c' {
        v.push('\\');
        v.push('f');
    } else if c == '\r' {
        v.push('\\');
        v.push('r');
    } else if (c as u32) < 0x20 {
        v.push('\\');
        v.push('u');
        v.push('0');
        v.push('0');
        v.push(hex_digit_exec((c as u32) / 16));
        v.push(hex_digit_exec((c as u32) % 16));
    } else {
        v.push(c);
    }
    proof {
        assert(v@ =~= old(v)@ + escape_char(c));
    }
}

/// Appends a JSON string body: the text escaped, then the closing quote.
fn push_jstr(v: &mut Vec<char>, s: &str)
    ensures
        final(v)@ == old(v)@ + render_jstr(s@),
{
    let n: usize = s.unicode_len();
    let mut i: usize = 0;
    while i < n
        invariant
            i <= n,
            n == s@.len(),
            v@ == old(v)@ + escape(s@.take(i as int)),
        decreases n - i,
    {
        push_escaped_char(v, s.get_char(i));
        proof {
            reveal_with_fuel(escape, 2);
            lemma_escape_append(s@.take(i as int), seq![s@[i as int]]);
            assert(s@.take(i as int) + seq![s@[i as int]] =~= s@.take(i as int + 1));
            assert(seq![s@[i as int]].skip(1) =~= Seq::<char>::empty());
            assert(escape(seq![s@[i as int]]) =~= escape_char(s@[i as int]));
            assert(v@ =~= old(v)@ + escape(s@.take(i as int + 1)));
        }
        i = i + 1;
    }
    v.push('"');
    proof {
        assert(s@.take(n as int) =~= s@);
        assert(v@ =~= old(v)@ + render_jstr(s@));
    }
}

/// Appends the serialized form of one block.
fn push_block_json(v: &mut Vec<char>, b: &Block)
    ensures
        final(v)@ == old(v)@ + render_block(b@),
{
    push_chars(v, "{\"offset\":");
    push_dec(v, b.offset);
    push_chars(v, ",\"data\":\"");
    push_jstr(v, b.data.as_str());
    push_chars(v, ",\"timestamp\":");
    push_dec(v, b.timestamp);
    push_chars(v, ",\"hash\":\"");
    push_jstr(v, b.hash.as_str());
    push_chars(v, ",\"previous_hash\":\"");
    push_jstr(v, b.previous_hash.as_str());
    v.push('}');
    proof {
        assert(v@ =~= old(v)@ + render_block(b@));
    }
}

// ---------------------------------------------------------------------------
// The parser. It accepts exactly the canonical texts that `render_chain`
// produces: fields in the fixed order, numbers in canonical decimal,
// strings in canonical escaping, no interleaved whitespace.
// ---------------------------------------------------------------------------
/// A decimal digit.
pub open spec fn is_digit(c: char) -> bool {
    48 <= (c as u32) && (c as u32) <= 57
}

/// The value of a decimal digit.
pub open spec fn digit_val(c: char) -> nat {
    ((c as u32) - 48) as nat
}

/// A lowercase hexadecimal digit.
pub open spec fn is_lhex(c: char) -> bool {
    is_digit(c) || (97 <= (c as u32) && (c as u32) <= 102)
}

/// The value of a lowercase hexadecimal digit.
pub open spec fn hex_val(c: char) -> nat {
    if is_digit(c) {
        digit_val(c)
    } else {
        ((c as u32) - 87) as nat
    }
}

/// How many decimal digits stand at the front of `s`.
pub open spec fn digit_run(s: Seq<char>) -> nat
    decreases s.len(),
{
    if s.len() > 0 && is_digit(s[0]) {
        (1 + digit_run(s.skip(1))) as nat
    } else {
        0
    }
}

/// The number a digit sequence denotes.
pub open spec fn dec_val(ds: Seq<char>) -> nat
    decreases ds.len(),
{
    if ds.len() == 0 {
        0
    } else {
        dec_val(ds.drop_last()) * 10 + digit_val(ds.last())
    }
}

/// Parses the canonical decimal form of a `u64` and returns the rest:
/// a nonempty digit run, no leading zero, value within range.
pub open spec fn parse_num(s: Seq<char>) -> Option<(u64, Seq<char>)> {
    let k: int = digit_run(s) as int;
    if k == 0 {
        None
    } else if k > 1 && s[0] == '0' {
        None
    } else if dec_val(s.take(k)) > u64::MAX {
        None
    } else {
        Some((dec_val(s.take(k)) as u64, s.skip(k)))
    }
}

/// The character a short escape stands for, if the escape exists.
pub open spec fn short_escape_code(e: char) -> Option<char> {
    if e == '"' {
        Some('"')
    } else if e == '\\' {
        Some('\\')
    } else if e == 'b' {
        Some('\x08')
    } else if e == 't' {
        Some('\t')
    } else if e == 'n' {
        Some('\n')
    } else if e == 'f' {
        Some('\x0c')
    } else if e == 'r' {
        Some('\r')
    } else {
        None
    }
}

/// Parses a JSON string body up to and including its closing quote,
/// undoing the canonical escaping, and returns the text and the rest.
pub open spec fn parse_jstr(s: Seq<char>) -> Option<(Seq<char>, Seq<char>)>
    decreases s.len(),
{
    if s.len() == 0 {
        None
    } else if s[0] == '"' {
        Some((Seq::empty(), s.skip(1)))
    } else if s[0] == '\\' {
        if s.len() < 2 {
            None
        } else if s[1] == 'u' {
            if s.len() < 6 {
                None
            } else if s[2] == '0' && s[3] == '0' && is_lhex(s[4]) && is_lhex(s[5]) {
                let v = hex_val(s[4]) * 16 + hex_val(s[5]);
                if v < 0x20 && v != 8 && v != 9 && v != 10 && v != 12 && v != 13 {
                    match parse_jstr(s.skip(6)) {
                        Some(q) => Some((seq![(v as u8) as char] + q.0, q.1)),
                        None => None,
                    }
                } else {
                    None
                }
            } else {
                None
            }
        } else {
            match short_escape_code(s[1]) {
                Some(c) => match parse_jstr(s.skip(2)) {
                    Some(q) => Some((seq![c] + q.0, q.1)),
                    None => None,
                },
                None => None,
            }
        }
    } else if (s[0] as u32) < 0x20 {
        None
    } else {
        match parse_jstr(s.skip(1)) {
            Some(q) => Some((seq![s[0]] + q.0, q.1)),
            None => None,
        }
    }
}

/// Consumes a fixed literal, or fails.
pub open spec fn parse_lit(s: Seq<char>, l: Seq<char>) -> Option<Seq<char>> {
    if l.len() <= s.len() && s.take(l.len() as int) == l {
        Some(s.skip(l.len() as int))
    } else {
        None
    }
}

/// Parses one serialized block and returns it with the rest.
pub open spec fn parse_block(s: Seq<char>) -> Option<(BlockView, Seq<char>)> {
    match parse_lit(s, lit_offset()) {
        None => None,
        Some(s1) => match parse_num(s1) {
            None => None,
            Some((offset, s2)) => match parse_lit(s2, lit_data()) {
                None => None,
                Some(s3) => match parse_jstr(s3) {
                    None => None,
                    Some((data, s4)) => match parse_lit(s4, lit_timestamp()) {
                        None => None,
                        Some(s5) => match parse_num(s5) {
                            None => None,
                            Some((timestamp, s6)) => match parse_lit(s6, lit_hash()) {
                                None => None,
                                Some(s7) => match parse_jstr(s7) {
                                    None => None,
                                    Some((hash, s8)) => match parse_lit(s8, lit_previous_hash()) {
                                        None => None,
                                        Some(s9) => match parse_jstr(s9) {
                                            None => None,
                                            Some((previous_hash, s10)) => match parse_lit(
                                                s10,
                                                seq!['}'],
                                            ) {
                                                None => None,
                                                Some(s11) => Some(
                                                    (
                                                        BlockView {
                                                            offset,
                                                            data,
                                                            timestamp,
                                                            hash,
                                                            previous_hash,
                                                        },
                                                        s11,
                                                    ),
                                                ),
                                            },
                                        },
                                    },
                                },
                            },
                        },
                    },
                },
            },
        },
    }
}

/// Parses one or more comma-separated blocks and returns them with the rest.
pub open spec fn parse_blocks(s: Seq<char>) -> Option<(Seq<BlockView>, Seq<char>)>
    decreases s.len(),
{
    match parse_block(s) {
        None => None,
        Some((b, r)) => if r.len() > 0 && r[0] == ',' && r.len() <= s.len() {
            match parse_blocks(r.skip(1)) {
                Some((bs, r2)) => Some((seq![b] + bs, r2)),
                None => None,
            }
        } else {
            Some((seq![b], r))
        },
    }
}

/// Parses a whole serialized chain; the text must carry nothing else.
pub open spec fn parse_chain(s: Seq<char>) -> Option<Seq<BlockView>> {
    match parse_lit(s, lit_chain_open()) {
        None => None,
        Some(s1) => if s1.len() == 2 && s1[0] == ']' && s1[1] == '}' {
            Some(Seq::empty())
        } else {
            match parse_blocks(s1) {
                Some((bs, r)) => if r.len() == 2 && r[0] == ']' && r[1] == '}' {
                    Some(bs)
                } else {
                    None
                },
                None => None,
            }
        },
    }
}

proof fn lemma_digit_run_le(s: Seq<char>)
    ensures
        digit_run(s) <= s.len(),
    decreases s.len(),
{
    if s.len() > 0 && is_digit(s[0]) {
        lemma_digit_run_le(s.skip(1));
    }
}

proof fn lemma_digit_run_chars(s: Seq<char>, k: int)
    requires
        0 <= k <= s.len(),
        forall|t: int| 0 <= t < k ==> is_digit(#[trigger] s[t]),
        k < s.len() ==> !is_digit(s[k]),
    ensures
        digit_run(s) == k,
    decreases k,
{
    if k == 0 {
    } else {
        assert(is_digit(s[0]));
        assert forall|t: int| 0 <= t < k - 1 implies is_digit(#[trigger] s.skip(1)[t]) by {
            assert(s.skip(1)[t] == s[t + 1]);
        }
        if k - 1 < s.skip(1).len() {
            assert(s.skip(1)[k - 1] == s[k]);
        }
        lemma_digit_run_chars(s.skip(1), k - 1);
    }
}

proof fn lemma_dec_val_prefix_le(ds: Seq<char>, m: int)
    requires
        0 <= m <= ds.len(),
    ensures
        dec_val(ds.take(m)) <= dec_val(ds),
    decreases ds.len() - m,
{
    if m < ds.len() {
        assert(ds.take(m + 1).drop_last() =~= ds.take(m));
        assert(ds.take(m + 1).last() == ds[m]);
        assert(dec_val(ds.take(m)) <= dec_val(ds.take(m)) * 10 + digit_val(ds[m]));
        lemma_dec_val_prefix_le(ds, m + 1);
    } else {
        assert(ds.take(m) =~= ds);
    }
}

proof fn lemma_parse_jstr_lt(s: Seq<char>)
    requires
        parse_jstr(s) is Some,
    ensures
        (parse_jstr(s)->0).1.len() < s.len(),
    decreases s.len(),
{
    if s[0] == '"' {
    } else if s[0] == '\\' {
        if s[1] == 'u' {
            lemma_parse_jstr_lt(s.skip(6));
        } else {
            lemma_parse_jstr_lt(s.skip(2));
        }
    } else {
        lemma_parse_jstr_lt(s.skip(1));
    }
}

proof fn lemma_parse_block_lt(s: Seq<char>)
    requires
        parse_block(s) is Some,
    ensures
        (parse_block(s)->0).1.len() < s.len(),
{
    let s1 = parse_lit(s, lit_offset())->0;
    let s2 = (parse_num(s1)->0).1;
    let s3 = parse_lit(s2, lit_data())->0;
    let s4 = (parse_jstr(s3)->0).1;
    let s5 = parse_lit(s4, lit_timestamp())->0;
    let s6 = (parse_num(s5)->0).1;
    let s7 = parse_lit(s6, lit_hash())->0;
    let s8 = (parse_jstr(s7)->0).1;
    let s9 = parse_lit(s8, lit_previous_hash())->0;
    let s10 = (parse_jstr(s9)->0).1;
    lemma_digit_run_le(s1);
    lemma_digit_run_le(s5);
    lemma_parse_jstr_lt(s3);
    lemma_parse_jstr_lt(s7);
    lemma_parse_jstr_lt(s9);
}

/// What the block-array parser yields when a block has just been consumed,
/// the text that remains is `rem`, and the blocks read so far are `pre`.
spec fn blocks_cont_after(rem: Seq<char>, pre: Seq<BlockView>) -> Option<
    (Seq<BlockView>, Seq<char>),
> {
    if rem.len() > 0 && rem[0] == ',' {
        match parse_blocks(rem.skip(1)) {
            Some(q) => Some((pre + q.0, q.1)),
            None => None,
        }
    } else {
        Some((pre, rem))
    }
}

proof fn lemma_parse_blocks_unfold(s: Seq<char>)
    requires
        parse_block(s) is Some,
    ensures
        parse_blocks(s) == blocks_cont_after((parse_block(s)->0).1, seq![(parse_block(s)->0).0]),
{
    lemma_parse_block_lt(s);
}

proof fn lemma_blocks_inv_step(sfull: Seq<char>, rem: Seq<char>, pre: Seq<BlockView>)
    requires
        rem.len() > 0,
        rem[0] == ',',
        parse_block(rem.skip(1)) is Some,
        parse_blocks(sfull) == blocks_cont_after(rem, pre),
    ensures
        parse_blocks(sfull) == blocks_cont_after(
            (parse_block(rem.skip(1))->0).1,
            pre.push((parse_block(rem.skip(1))->0).0),
        ),
{
    let b = (parse_block(rem.skip(1))->0).0;
    let r = (parse_block(rem.skip(1))->0).1;
    lemma_parse_blocks_unfold(rem.skip(1));
    if r.len() > 0 && r[0] == ',' {
        let q3 = parse_blocks(r.skip(1));
        if q3 is Some {
            assert(pre + (seq![b] + (q3->0).0) =~= pre.push(b) + (q3->0).0);
        }
    } else {
        assert(pre + seq![b] =~= pre.push(b));
    }
}

proof fn lemma_digit_char_facts(d: nat)
    requires
        d < 10,
    ensures
        is_digit(digit_char(d)),
        digit_val(digit_char(d)) == d,
        d != 0 ==> digit_char(d) != '0',
{
}

proof fn lemma_dec_digits_facts(n: nat)
    ensures
        dec_digits(n).len() >= 1,
        forall|t: int| 0 <= t < dec_digits(n).len() ==> is_digit(#[trigger] dec_digits(n)[t]),
        dec_digits(n)[0] == '0' ==> n == 0,
    decreases n,
{
    if n < 10 {
        lemma_digit_char_facts(n);
    } else {
        lemma_dec_digits_facts(n / 10);
        lemma_digit_char_facts(n % 10);
        let ds = dec_digits(n);
        let dp = dec_digits(n / 10);
        assert(ds == dp.push(digit_char(n % 10)));
        assert(ds[0] == dp[0]);
        assert forall|t: int| 0 <= t < ds.len() implies is_digit(#[trigger] ds[t]) by {
            if t < dp.len() {
                assert(ds[t] == dp[t]);
            } else {
                assert(ds[t] == digit_char(n % 10));
            }
        }
    }
}

proof fn lemma_dec_val_of_digits(n: nat)
    ensures
        dec_val(dec_digits(n)) == n,
    decreases n,
{
    if n < 10 {
        lemma_digit_char_facts(n);
        let ds = dec_digits(n);
        assert(ds.drop_last() =~= Seq::<char>::empty());
        assert(ds.last() == digit_char(n));
        assert(dec_val(Seq::<char>::empty()) == 0);
    } else {
        lemma_dec_val_of_digits(n / 10);
        lemma_digit_char_facts(n % 10);
        let ds = dec_digits(n);
        let dp = dec_digits(n / 10);
        assert(ds.drop_last() =~= dp);
        assert(ds.last() == digit_char(n % 10));
    }
}

/// The canonical decimal rendering of a `u64` parses back to the same
/// number, whatever non-digit text follows it.
proof fn lemma_parse_num_render(n: u64, rest: Seq<char>)
    requires
        rest.len() > 0,
        !is_digit(rest[0]),
    ensures
        parse_num(dec_digits(n as nat) + rest) == Some((n, rest)),
{
    let ds = dec_digits(n as nat);
    let s = ds + rest;
    lemma_dec_digits_facts(n as nat);
    lemma_dec_val_of_digits(n as nat);
    let k = ds.len() as int;
    assert forall|t: int| 0 <= t < k implies is_digit(#[trigger] s[t]) by {
        assert(s[t] == ds[t]);
    }
    assert(s[k] == rest[0]);
    lemma_digit_run_chars(s, k);
    assert(s.take(k) =~= ds);
    assert(s.skip(k) =~= rest);
    if k > 1 {
        assert(s[0] == ds[0]);
        assert(ds[0] != '0');
    }
}

proof fn lemma_hex_digit_val(x: nat)
    requires
        x < 16,
    ensures
        is_lhex(hex_digit(x)),
        hex_val(hex_digit(x)) == x,
{
}

/// A canonically escaped text followed by its closing quote parses back to
/// the same text, whatever follows the quote.
proof fn lemma_parse_jstr_render(d: Seq<char>, rest: Seq<char>)
    ensures
        parse_jstr(escape(d) + seq!['"'] + rest) == Some((d, rest)),
    decreases d.len(),
{
    if d.len() == 0 {
        let s = escape(d) + seq!['"'] + rest;
        assert(s =~= seq!['"'] + rest);
        assert(s[0] == '"');
        assert(s.skip(1) =~= rest);
        assert(parse_jstr(s) == Some((Seq::<char>::empty(), rest)));
    } else {
        let c = d[0];
        let inner = escape(d.skip(1)) + seq!['"'] + rest;
        let s = escape(d) + seq!['"'] + rest;
        assert(s =~= escape_char(c) + inner);
        lemma_parse_jstr_render(d.skip(1), rest);
        assert(seq![c] + d.skip(1) =~= d);
        if c == '"' || c == '\\' || c == '\x08' || c == '\t' || c == '\n' || c == '\x0c' || c
            == '\r' {
            assert(s[0] == '\\');
            assert(s[1] == escape_char(c)[1]);
            assert(s[1] != 'u');
            assert(short_escape_code(s[1]) == Some(c));
            assert(s.skip(2) =~= inner);
        } else if (c as u32) < 0x20 {
            let u = c as u32;
            assert(s[0] == '\\');
            assert(s[1] == 'u');
            assert(s[2] == '0');
            assert(s[3] == '0');
            assert(s[4] == hex_digit((u / 16) as nat));
            assert(s[5] == hex_digit((u % 16) as nat));
            lemma_hex_digit_val((u / 16) as nat);
            lemma_hex_digit_val((u % 16) as nat);
            let v = hex_val(s[4]) * 16 + hex_val(s[5]);
            assert(v == u);
            vstd::utf8::char_u32_cast(c, u);
            assert(((v as u8) as char) == c);
            assert(v != 8 && v != 9 && v != 10 && v != 12 && v != 13) by {
                vstd::utf8::char_u32_cast('\x08', 8);
                vstd::utf8::char_u32_cast('\t', 9);
                vstd::utf8::char_u32_cast('\n', 10);
                vstd::utf8::char_u32_cast('\x0c', 12);
                vstd::utf8::char_u32_cast('\r', 13);
            }
            assert(s.skip(6) =~= inner);
        } else {
            assert(s[0] == c);
            assert(s.skip(1) =~= inner);
        }
    }
}

proof fn lemma_parse_lit_prefix(l: Seq<char>, r: Seq<char>)
    ensures
        parse_lit(l + r, l) == Some(r),
{
    let s = l + r;
    assert(s.take(l.len() as int) =~= l);
    assert(s.skip(l.len() as int) =~= r);
}

/// A rendered block parses back to the same block, whatever follows it.
proof fn lemma_parse_block_render(b: BlockView, rest: Seq<char>)
    ensures
        parse_block(render_block(b) + rest) == Some((b, rest)),
{
    reveal_strlit("{\"offset\":");
    reveal_strlit(",\"data\":\"");
    reveal_strlit(",\"timestamp\":");
    reveal_strlit(",\"hash\":\"");
    reveal_strlit(",\"previous_hash\":\"");
    let r10 = seq!['}'] + rest;
    let r9 = render_jstr(b.previous_hash) + r10;
    let r8 = lit_previous_hash() + r9;
    let r7 = render_jstr(b.hash) + r8;
    let r6 = lit_hash() + r7;
    let r5 = dec_digits(b.timestamp as nat) + r6;
    let r4 = lit_timestamp() + r5;
    let r3 = render_jstr(b.data) + r4;
    let r2 = lit_data() + r3;
    let r1 = dec_digits(b.offset as nat) + r2;
    let s = render_block(b) + rest;
    assert(s =~= lit_offset() + r1);
    lemma_parse_lit_prefix(lit_offset(), r1);
    assert(r2[0] == ',');
    lemma_parse_num_render(b.offset, r2);
    lemma_parse_lit_prefix(lit_data(), r3);
    assert(r3 =~= escape(b.data) + seq!['"'] + r4);
    lemma_parse_jstr_render(b.data, r4);
    lemma_parse_lit_prefix(lit_timestamp(), r5);
    assert(r6[0] == ',');
    lemma_parse_num_render(b.timestamp, r6);
    lemma_parse_lit_prefix(lit_hash(), r7);
    assert(r7 =~= escape(b.hash) + seq!['"'] + r8);
    lemma_parse_jstr_render(b.hash, r8);
    lemma_parse_lit_prefix(lit_previous_hash(), r9);
    assert(r9 =~= escape(b.previous_hash) + seq!['"'] + r10);
    lemma_parse_jstr_render(b.previous_hash, r10);
    lemma_parse_lit_prefix(seq!['}'], rest);
    assert(parse_block(s) == Some(
        (
            BlockView {
                offset: b.offset,
                data: b.data,
                timestamp: b.timestamp,
                hash: b.hash,
                previous_hash: b.previous_hash,
            },
            rest,
        ),
    ));
    assert(BlockView {
        offset: b.offset,
        data: b.data,
        timestamp: b.timestamp,
        hash: b.hash,
        previous_hash: b.previous_hash,
    } == b);
}

/// A rendered block array parses back to the same blocks, whatever follows,
/// as long as it does not begin with a comma.
proof fn lemma_parse_blocks_render(s: Seq<BlockView>, rest: Seq<char>)
    requires
        s.len() >= 1,
        rest.len() > 0,
        rest[0] != ',',
    ensures
        parse_blocks(render_blocks(s) + rest) == Some((s, rest)),
    decreases s.len(),
{
    if s.len() == 1 {
        assert(render_blocks(s) + rest =~= render_block(s[0]) + rest);
        lemma_parse_block_render(s[0], rest);
        assert(seq![s[0]] =~= s);
    } else {
        let rest2 = render_blocks(s.skip(1)) + rest;
        let rest1 = seq![','] + rest2;
        let t = render_blocks(s) + rest;
        assert(t =~= render_block(s[0]) + rest1);
        lemma_parse_block_render(s[0], rest1);
        assert(rest1[0] == ',');
        assert(rest1.skip(1) =~= rest2);
        lemma_parse_blocks_render(s.skip(1), rest);
        assert(seq![s[0]] + s.skip(1) =~= s);
    }
}

/// The round trip: every chain's serialized text parses back to exactly the
/// same sequence of blocks, so storing and loading reproduces the chain.
pub proof fn lemma_parse_render_chain(s: Seq<BlockView>)
    ensures
        parse_chain(render_chain(s)) == Some(s),
{
    reveal_strlit("{\"chain\":[");
    reveal_strlit("{\"offset\":");
    let rest = seq![']', '}'];
    let t = render_chain(s);
    assert(t =~= lit_chain_open() + (render_blocks(s) + rest));
    lemma_parse_lit_prefix(lit_chain_open(), render_blocks(s) + rest);
    let s1 = render_blocks(s) + rest;
    if s.len() == 0 {
        assert(s1 =~= rest);
        assert(s1.len() == 2 && s1[0] == ']' && s1[1] == '}');
        assert(Seq::<BlockView>::empty() =~= s);
    } else {
        assert(render_blocks(s).len() > 0 && render_blocks(s)[0] == '{') by {
            if s.len() == 1 {
                assert(render_blocks(s) == render_block(s[0]));
            }
            assert(render_block(s[0])[0] == lit_offset()[0]);
        }
        assert(s1[0] == '{');
        assert(!(s1.len() == 2 && s1[0] == ']' && s1[1] == '}'));
        lemma_parse_blocks_render(s, rest);
    }
}

/// Serialization is injective: two chains with the same serialized text
/// hold the same blocks.
pub proof fn lemma_render_injective(a: Seq<BlockView>, b: Seq<BlockView>)
    requires
        render_chain(a) == render_chain(b),
    ensures
        a == b,
{
    lemma_parse_render_chain(a);
    lemma_parse_render_chain(b);
}

proof fn lemma_char_of_digit(c: char)
    requires
        is_digit(c),
    ensures
        digit_char(digit_val(c)) == c,
        c != '0' ==> digit_val(c) >= 1,
{
    let u = c as u32;
    vstd::utf8::char_u32_cast(c, u);
    vstd::utf8::char_u32_cast('0', 48);
    vstd::utf8::char_u32_cast('1', 49);
    vstd::utf8::char_u32_cast('2', 50);
    vstd::utf8::char_u32_cast('3', 51);
    vstd::utf8::char_u32_cast('4', 52);
    vstd::utf8::char_u32_cast('5', 53);
    vstd::utf8::char_u32_cast('6', 54);
    vstd::utf8::char_u32_cast('7', 55);
    vstd::utf8::char_u32_cast('8', 56);
    vstd::utf8::char_u32_cast('9', 57);
}

proof fn lemma_hex_char_of_val(c: char)
    requires
        is_lhex(c),
    ensures
        hex_val(c) < 16,
        hex_digit(hex_val(c)) == c,
{
    let u = c as u32;
    vstd::utf8::char_u32_cast(c, u);
    if is_digit(c) {
        lemma_char_of_digit(c);
    } else {
        vstd::utf8::char_u32_cast('a', 97);
        vstd::utf8::char_u32_cast('b', 98);
        vstd::utf8::char_u32_cast('c', 99);
        vstd::utf8::char_u32_cast('d', 100);
        vstd::utf8::char_u32_cast('e', 101);
        vstd::utf8::char_u32_cast('f', 102);
    }
}

proof fn lemma_digit_run_digits(s: Seq<char>)
    ensures
        forall|t: int| 0 <= t < digit_run(s) ==> is_digit(#[trigger] s[t]),
    decreases s.len(),
{
    if s.len() > 0 && is_digit(s[0]) {
        lemma_digit_run_digits(s.skip(1));
        lemma_digit_run_le(s.skip(1));
        assert forall|t: int| 0 <= t < digit_run(s) implies is_digit(#[trigger] s[t]) by {
            if t > 0 {
                assert(is_digit(s.skip(1)[t - 1]));
                assert(s.skip(1)[t - 1] == s[t]);
            }
        }
    }
}

/// A canonical digit sequence is the decimal rendering of its own value.
proof fn lemma_dec_digits_of_val(ds: Seq<char>)
    requires
        ds.len() >= 1,
        forall|t: int| 0 <= t < ds.len() ==> is_digit(#[trigger] ds[t]),
        ds.len() > 1 ==> ds[0] != '0',
    ensures
        dec_digits(dec_val(ds)) == ds,
    decreases ds.len(),
{
    if ds.len() == 1 {
        assert(ds.drop_last() =~= Seq::<char>::empty());
        assert(dec_val(Seq::<char>::empty()) == 0);
        lemma_char_of_digit(ds[0]);
        assert(dec_digits(dec_val(ds)) =~= ds);
    } else {
        let pre = ds.drop_last();
        let d = digit_val(ds.last());
        assert forall|t: int| 0 <= t < pre.len() implies is_digit(#[trigger] pre[t]) by {
            assert(pre[t] == ds[t]);
        }
        assert(pre[0] == ds[0]);
        lemma_dec_digits_of_val(pre);
        lemma_char_of_digit(ds.last());
        lemma_char_of_digit(pre[0]);
        lemma_dec_val_prefix_le(pre, 1);
        assert(pre.take(1) =~= seq![pre[0]]);
        assert(dec_val(seq![pre[0]]) == digit_val(pre[0])) by {
            assert(seq![pre[0]].drop_last() =~= Seq::<char>::empty());
            assert(dec_val(Seq::<char>::empty()) == 0);
        }
        assert(dec_val(pre) >= 1);
        let n = dec_val(ds);
        assert(n == dec_val(pre) * 10 + d);
        assert(n >= 10);
        assert(n / 10 == dec_val(pre) && n % 10 == d) by (nonlinear_arith)
            requires
                n == dec_val(pre) * 10 + d && 0 <= d < 10 && dec_val(pre) >= 0,
        ;
        assert(dec_digits(n) == dec_digits(dec_val(pre)).push(digit_char(d)));
        assert(pre.push(ds.last()) =~= ds);
    }
}

/// Only the canonical decimal rendering of the returned number is consumed.
proof fn lemma_parse_num_sound(s: Seq<char>)
    requires
        parse_num(s) is Some,
    ensures
        s == dec_digits(((parse_num(s)->0).0) as nat) + (parse_num(s)->0).1,
{
    let k = digit_run(s) as int;
    lemma_digit_run_le(s);
    lemma_digit_run_digits(s);
    let ds = s.take(k);
    assert forall|t: int| 0 <= t < ds.len() implies is_digit(#[trigger] ds[t]) by {
        assert(ds[t] == s[t]);
    }
    assert(ds.len() > 1 ==> ds[0] != '0') by {
        assert(ds[0] == s[0]);
    }
    lemma_dec_digits_of_val(ds);
    assert(s =~= ds + s.skip(k));
}

/// Only the canonical escaping of the returned text is consumed.
proof fn lemma_parse_jstr_sound(s: Seq<char>)
    requires
        parse_jstr(s) is Some,
    ensures
        s == escape((parse_jstr(s)->0).0) + seq!['"'] + (parse_jstr(s)->0).1,
    decreases s.len(),
{
    let d = (parse_jstr(s)->0).0;
    let r = (parse_jstr(s)->0).1;
    if s[0] == '"' {
        assert(escape(Seq::<char>::empty()) =~= Seq::<char>::empty());
        assert(s =~= seq![s[0]] + s.skip(1));
        assert(s =~= escape(d) + seq!['"'] + r);
    } else if s[0] == '\\' {
        if s[1] == 'u' {
            let v = hex_val(s[4]) * 16 + hex_val(s[5]);
            let c = (v as u8) as char;
            lemma_parse_jstr_sound(s.skip(6));
            let d2 = (parse_jstr(s.skip(6))->0).0;
            assert(d =~= seq![c] + d2);
            assert(d[0] == c);
            assert(d.skip(1) =~= d2);
            assert(c as u32 == v);
            lemma_hex_char_of_val(s[4]);
            lemma_hex_char_of_val(s[5]);
            assert(v / 16 == hex_val(s[4]) && v % 16 == hex_val(s[5])) by (nonlinear_arith)
                requires
                    v == hex_val(s[4]) * 16 + hex_val(s[5]) && 0 <= hex_val(s[5]) < 16 && 0
                        <= hex_val(s[4]),
            ;
            vstd::utf8::char_u32_cast('\x08', 8);
            vstd::utf8::char_u32_cast('\t', 9);
            vstd::utf8::char_u32_cast('\n', 10);
            vstd::utf8::char_u32_cast('\x0c', 12);
            vstd::utf8::char_u32_cast('\r', 13);
            assert(escape_char(c) =~= seq![s[0], s[1], s[2], s[3], s[4], s[5]]);
            assert(escape(d) == escape_char(c) + escape(d2));
            assert(s =~= seq![s[0], s[1], s[2], s[3], s[4], s[5]] + s.skip(6));
            assert(s =~= escape(d) + seq!['"'] + r);
        } else {
            let c = short_escape_code(s[1])->0;
            lemma_parse_jstr_sound(s.skip(2));
            let d2 = (parse_jstr(s.skip(2))->0).0;
            assert(d =~= seq![c] + d2);
            assert(d[0] == c);
            assert(d.skip(1) =~= d2);
            assert(escape_char(c) =~= seq![s[0], s[1]]);
            assert(escape(d) == escape_char(c) + escape(d2));
            assert(s =~= seq![s[0], s[1]] + s.skip(2));
            assert(s =~= escape(d) + seq!['"'] + r);
        }
    } else {
        let c = s[0];
        lemma_parse_jstr_sound(s.skip(1));
        let d2 = (parse_jstr(s.skip(1))->0).0;
        assert(d =~= seq![c] + d2);
        assert(d[0] == c);
        assert(d.skip(1) =~= d2);
        assert(escape_char(c) =~= seq![c]);
        assert(escape(d) == escape_char(c) + escape(d2));
        assert(s =~= seq![s[0]] + s.skip(1));
        assert(s =~= escape(d) + seq!['"'] + r);
    }
}

proof fn lemma_parse_lit_sound(s: Seq<char>, l: Seq<char>)
    requires
        parse_lit(s, l) is Some,
    ensures
        s == l + parse_lit(s, l)->0,
{
    assert(s =~= s.take(l.len() as int) + s.skip(l.len() as int));
}

proof fn lemma_assoc(a: Seq<char>, b: Seq<char>, c: Seq<char>)
    ensures
        (a + b) + c == a + (b + c),
{
    assert((a + b) + c =~= a + (b + c));
}

/// Only the canonical rendering of the returned block is consumed.
#[verifier::rlimit(50)]
proof fn lemma_parse_block_sound(s: Seq<char>)
    requires
        parse_block(s) is Some,
    ensures
        s == render_block((parse_block(s)->0).0) + (parse_block(s)->0).1,
{
    let s1 = parse_lit(s, lit_offset())->0;
    let s2 = (parse_num(s1)->0).1;
    let s3 = parse_lit(s2, lit_data())->0;
    let s4 = (parse_jstr(s3)->0).1;
    let s5 = parse_lit(s4, lit_timestamp())->0;
    let s6 = (parse_num(s5)->0).1;
    let s7 = parse_lit(s6, lit_hash())->0;
    let s8 = (parse_jstr(s7)->0).1;
    let s9 = parse_lit(s8, lit_previous_hash())->0;
    let s10 = (parse_jstr(s9)->0).1;
    let s11 = parse_lit(s10, seq!['}'])->0;
    let b = (parse_block(s)->0).0;
    let n1 = dec_digits(b.offset as nat);
    let j1 = render_jstr(b.data);
    let n2 = dec_digits(b.timestamp as nat);
    let j2 = render_jstr(b.hash);
    let j3 = render_jstr(b.previous_hash);
    lemma_parse_lit_sound(s, lit_offset());
    lemma_parse_num_sound(s1);
    lemma_parse_lit_sound(s2, lit_data());
    lemma_parse_jstr_sound(s3);
    lemma_parse_lit_sound(s4, lit_timestamp());
    lemma_parse_num_sound(s5);
    lemma_parse_lit_sound(s6, lit_hash());
    lemma_parse_jstr_sound(s7);
    lemma_parse_lit_sound(s8, lit_previous_hash());
    lemma_parse_jstr_sound(s9);
    lemma_parse_lit_sound(s10, seq!['}']);
    assert(s1 == n1 + s2);
    assert(s3 == j1 + s4) by {
        lemma_assoc(escape(b.data), seq!['"'], s4);
    }
    assert(s5 == n2 + s6);
    assert(s7 == j2 + s8) by {
        lemma_assoc(escape(b.hash), seq!['"'], s8);
    }
    assert(s9 == j3 + s10) by {
        lemma_assoc(escape(b.previous_hash), seq!['"'], s10);
    }
    let q1 = lit_offset();
    lemma_assoc(q1, n1, s2);
    let q2 = q1 + n1;
    assert(s == q2 + s2);
    lemma_assoc(q2, lit_data(), s3);
    let q3 = q2 + lit_data();
    assert(s == q3 + s3);
    lemma_assoc(q3, j1, s4);
    let q4 = q3 + j1;
    assert(s == q4 + s4);
    lemma_assoc(q4, lit_timestamp(), s5);
    let q5 = q4 + lit_timestamp();
    assert(s == q5 + s5);
    lemma_assoc(q5, n2, s6);
    let q6 = q5 + n2;
    assert(s == q6 + s6);
    lemma_assoc(q6, lit_hash(), s7);
    let q7 = q6 + lit_hash();
    assert(s == q7 + s7);
    lemma_assoc(q7, j2, s8);
    let q8 = q7 + j2;
    assert(s == q8 + s8);
    lemma_assoc(q8, lit_previous_hash(), s9);
    let q9 = q8 + lit_previous_hash();
    assert(s == q9 + s9);
    lemma_assoc(q9, j3, s10);
    let q10 = q9 + j3;
    assert(s == q10 + s10);
    lemma_assoc(q10, seq!['}'], s11);
    let q11 = q10 + seq!['}'];
    assert(s == q11 + s11);
    assert(q11 == render_block(b));
}

/// Only the canonical rendering of the returned blocks is consumed, and the
/// remainder never begins with a comma.
#[verifier::rlimit(50)]
proof fn lemma_parse_blocks_sound(s: Seq<char>)
    requires
        parse_blocks(s) is Some,
    ensures
        s == render_blocks((parse_blocks(s)->0).0) + (parse_blocks(s)->0).1,
        (parse_blocks(s)->0).0.len() >= 1,
        (parse_blocks(s)->0).1.len() > 0 ==> (parse_blocks(s)->0).1[0] != ',',
    decreases s.len(),
{
    let b = (parse_block(s)->0).0;
    let rb = (parse_block(s)->0).1;
    let bs = (parse_blocks(s)->0).0;
    let r = (parse_blocks(s)->0).1;
    lemma_parse_block_sound(s);
    lemma_parse_block_lt(s);
    if rb.len() > 0 && rb[0] == ',' && rb.len() <= s.len() {
        lemma_parse_blocks_sound(rb.skip(1));
        let bs2 = (parse_blocks(rb.skip(1))->0).0;
        let rbs2 = render_blocks(bs2);
        assert(bs =~= seq![b] + bs2);
        assert(bs[0] == b);
        assert(bs.skip(1) =~= bs2);
        assert(bs.len() >= 2);
        assert(rb =~= seq![','] + rb.skip(1));
        assert(rb == seq![','] + (rbs2 + r));
        lemma_assoc(seq![','], rbs2, r);
        assert(s == render_block(b) + ((seq![','] + rbs2) + r));
        lemma_assoc(render_block(b), seq![','] + rbs2, r);
        assert(s == (render_block(b) + (seq![','] + rbs2)) + r);
        lemma_assoc(render_block(b), seq![','], rbs2);
        assert(render_blocks(bs) == render_block(b) + seq![','] + rbs2);
        assert(s == render_blocks(bs) + r);
    } else {
        assert(bs =~= seq![b]);
        assert(render_blocks(bs) == render_block(b));
        assert(s == render_blocks(bs) + r);
    }
}

/// The parser accepts only canonical texts: whenever it returns blocks, the
/// input is exactly their rendering. Together with the round trip below,
/// parsing and rendering are mutually inverse.
pub proof fn lemma_parse_chain_sound(s: Seq<char>)
    requires
        parse_chain(s) is Some,
    ensures
        s == render_chain(parse_chain(s)->0),
{
    let s1 = parse_lit(s, lit_chain_open())->0;
    let bs = parse_chain(s)->0;
    lemma_parse_lit_sound(s, lit_chain_open());
    if s1.len() == 2 && s1[0] == ']' && s1[1] == '}' {
        assert(s1 =~= seq![']', '}']);
        assert(render_blocks(bs) =~= Seq::<char>::empty());
        assert(s =~= render_chain(bs));
    } else {
        let r = (parse_blocks(s1)->0).1;
        lemma_parse_blocks_sound(s1);
        assert(r =~= seq![']', '}']);
        assert(s =~= render_chain(bs));
    }
}

fn is_digit_exec(c: char) -> (r: bool)
    ensures
        r == is_digit(c),
{
    let u: u32 = c as u32;
    48 <= u && u <= 57
}

fn is_lhex_exec(c: char) -> (r: bool)
    ensures
        r == is_lhex(c),
{
    let u: u32 = c as u32;
    (48 <= u && u <= 57) || (97 <= u && u <= 102)
}

fn hex_val_exec(c: char) -> (r: u32)
    requires
        is_lhex(c),
    ensures
        r as nat == hex_val(c),
        r < 16,
{
    let u: u32 = c as u32;
    if u <= 57 {
        u - 48
    } else {
        u - 87
    }
}

/// Consumes the literal `l` at position `i`, or fails as the spec parser
/// does.
#[verifier::loop_isolation(false)]
fn p_lit(v: &Vec<char>, i: usize, l: &str) -> (r: Option<usize>)
    requires
        i <= v@.len(),
    ensures
        match r {
            Some(j) => i <= j <= v@.len() && parse_lit(v@.skip(i as int), l@) == Some(
                v@.skip(j as int),
            ),
            None => parse_lit(v@.skip(i as int), l@) is None,
        },
{
    let lc = str_to_chars(l);
    let m: usize = lc.len();
    if v.len() - i < m {
        return None;
    }
    let mut k: usize = 0;
    while k < m
        invariant
            0 <= k <= m,
            forall|t: int| 0 <= t < k ==> v@[i + t] == l@[t],
        decreases m - k,
    {
        if v[i + k] != lc[k] {
            proof {
                assert(v@.skip(i as int).take(m as int)[k as int] != l@[k as int]);
            }
            return None;
        }
        k = k + 1;
    }
    proof {
        assert(v@.skip(i as int).take(m as int) =~= l@);
        assert(v@.skip(i as int).skip(m as int) =~= v@.skip(i as int + m));
    }
    Some(i + m)
}

/// Parses a canonical decimal `u64` at position `i`, or fails as the spec
/// parser does.
#[verifier::loop_isolation(false)]
fn p_num(v: &Vec<char>, i: usize) -> (r: Option<(u64, usize)>)
    requires
        i <= v@.len(),
    ensures
        match r {
            Some(xj) => i <= xj.1 <= v@.len() && parse_num(v@.skip(i as int)) == Some(
                (xj.0, v@.skip(xj.1 as int)),
            ),
            None => parse_num(v@.skip(i as int)) is None,
        },
{
    let ghost s = v@.skip(i as int);
    let n: usize = v.len();
    let mut j: usize = i;
    while j < n && is_digit_exec(v[j])
        invariant
            i <= j <= n,
            forall|t: int| i <= t < j ==> is_digit(#[trigger] v@[t]),
        decreases n - j,
    {
        j = j + 1;
    }
    let k: usize = j - i;
    proof {
        assert forall|t: int| 0 <= t < k implies is_digit(#[trigger] s[t]) by {
            assert(s[t] == v@[i + t]);
        }
        if k < s.len() {
            assert(s[k as int] == v@[j as int]);
        }
        lemma_digit_run_chars(s, k as int);
    }
    if k == 0 {
        return None;
    }
    if k > 1 && v[i] == '0' {
        return None;
    }
    let mut acc: u64 = 0;
    let mut t: usize = i;
    while t < j
        invariant
            i <= t <= j,
            acc == dec_val(s.take((t - i) as int)),
        decreases j - t,
    {
        let d: u32 = (v[t] as u32) - 48;
        proof {
            assert(is_digit(v@[t as int]));
            assert(s.take((t - i + 1) as int).drop_last() =~= s.take((t - i) as int));
            assert(s.take((t - i + 1) as int).last() == s[(t - i) as int]);
            assert(s[(t - i) as int] == v@[t as int]);
        }
        if acc > (u64::MAX - (d as u64)) / 10 {
            proof {
                lemma_mul10_bound(acc as int, d as int);
                lemma_dec_val_prefix_le(s.take(k as int), (t - i + 1) as int);
                assert(s.take(k as int).take((t - i + 1) as int) =~= s.take((t - i + 1) as int));
            }
            return None;
        }
        proof {
            lemma_mul10_bound(acc as int, d as int);
        }
        acc = acc * 10 + (d as u64);
        t = t + 1;
    }
    proof {
        assert(s.take(k as int).take(k as int) =~= s.take(k as int));
        assert(s.skip(k as int) =~= v@.skip(j as int));
    }
    Some((acc, j))
}

proof fn lemma_mul10_bound(acc: int, d: int)
    requires
        0 <= acc,
        0 <= d < 10,
    ensures
        acc > (u64::MAX - d) / 10 ==> acc * 10 + d > u64::MAX,
        acc <= (u64::MAX - d) / 10 ==> acc * 10 + d <= u64::MAX,
{
    let q = (u64::MAX - d) / 10;
    assert(10 * q <= u64::MAX - d < 10 * q + 10) by (nonlinear_arith)
        requires
            q == (u64::MAX - d) / 10 && 0 <= d < 10,
    ;
    if acc > q {
        assert(acc * 10 >= (q + 1) * 10) by (nonlinear_arith)
            requires
                acc >= q + 1,
        ;
    } else {
        assert(acc * 10 <= q * 10) by (nonlinear_arith)
            requires
                0 <= acc <= q,
        ;
    }
}

/// What the string parser yields once the text read so far is `pre` and the
/// remainder is `s`.
spec fn jstr_cont(s: Seq<char>, pre: Seq<char>) -> Option<(Seq<char>, Seq<char>)> {
    match parse_jstr(s) {
        Some(q) => Some((pre + q.0, q.1)),
        None => None,
    }
}

/// Parses a JSON string body at position `i`, or fails as the spec parser
/// does.
#[verifier::loop_isolation(false)]
fn p_jstr(v: &Vec<char>, i: usize) -> (r: Option<(Vec<char>, usize)>)
    requires
        i <= v@.len(),
    ensures
        match r {
            Some(dj) => i <= dj.1 <= v@.len() && parse_jstr(v@.skip(i as int)) == Some(
                (dj.0@, v@.skip(dj.1 as int)),
            ),
            None => parse_jstr(v@.skip(i as int)) is None,
        },
{
    let mut out: Vec<char> = Vec::new();
    let mut p: usize = i;
    proof {
        let q = parse_jstr(v@.skip(i as int));
        if q is Some {
            assert(Seq::<char>::empty() + (q->0).0 =~= (q->0).0);
        }
    }
    loop
        invariant
            i <= p <= v@.len(),
            parse_jstr(v@.skip(i as int)) == jstr_cont(v@.skip(p as int), out@),
        decreases v@.len() - p,
    {
        let ghost p0 = p as int;
        let ghost out0 = out@;
        let ghost s0 = v@.skip(p0);
        if p == v.len() {
            return None;
        }
        let c = v[p];
        proof {
            assert(s0[0] == c);
        }
        if c == '"' {
            proof {
                assert(s0.skip(1) =~= v@.skip(p0 + 1));
                assert(out0 + Seq::<char>::empty() =~= out0);
            }
            return Some((out, p + 1));
        }
        if c == '\\' {
            if v.len() - p < 2 {
                return None;
            }
            let e = v[p + 1];
            proof {
                assert(s0[1] == e);
            }
            if e == 'u' {
                if v.len() - p < 6 {
                    return None;
                }
                if v[p + 2] != '0' || v[p + 3] != '0' {
                    proof {
                        assert(s0[2] == v@[p0 + 2]);
                        assert(s0[3] == v@[p0 + 3]);
                    }
                    return None;
                }
                let h1 = v[p + 4];
                let h2 = v[p + 5];
                proof {
                    assert(s0[4] == h1);
                    assert(s0[5] == h2);
                }
                if !is_lhex_exec(h1) || !is_lhex_exec(h2) {
                    return None;
                }
                let val: u32 = hex_val_exec(h1) * 16 + hex_val_exec(h2);
                if val >= 0x20 {
                    return None;
                }
                if val == 8 || val == 9 || val == 10 || val == 12 || val == 13 {
                    return None;
                }
                out.push((val as u8) as char);
                p = p + 6;
                proof {
                    assert(s0.skip(6) =~= v@.skip(p as int));
                    let q = parse_jstr(v@.skip(p as int));
                    if q is Some {
                        assert(out0 + (seq![(val as u8) as char] + (q->0).0) =~= (out0 + seq![(
                        val as u8) as char]) + (q->0).0);
                        assert(out@ =~= out0 + seq![(val as u8) as char]);
                    }
                }
            } else {
                let c2opt: Option<char> = if e == '"' {
                    Some('"')
                } else if e == '\\' {
                    Some('\\')
                } else if e == 'b' {
                    Some('\x08')
                } else if e == 't' {
                    Some('\t')
                } else if e == 'n' {
                    Some('\n')
                } else if e == 'f' {
                    Some('\x0c')
                } else if e == 'r' {
                    Some('\r')
                } else {
                    None
                };
                let c2 = match c2opt {
                    Some(x) => x,
                    None => {
                        return None;
                    },
                };
                proof {
                    assert(short_escape_code(e) == Some(c2));
                }
                out.push(c2);
                p = p + 2;
                proof {
                    assert(s0.skip(2) =~= v@.skip(p as int));
                    let q = parse_jstr(v@.skip(p as int));
                    if q is Some {
                        assert(out0 + (seq![c2] + (q->0).0) =~= (out0 + seq![c2]) + (q->0).0);
                        assert(out@ =~= out0 + seq![c2]);
                    }
                }
            }
        } else if (c as u32) < 0x20 {
            return None;
        } else {
            out.push(c);
            p = p + 1;
            proof {
                assert(s0.skip(1) =~= v@.skip(p as int));
                let q = parse_jstr(v@.skip(p as int));
                if q is Some {
                    assert(out0 + (seq![c] + (q->0).0) =~= (out0 + seq![c]) + (q->0).0);
                    assert(out@ =~= out0 + seq![c]);
                }
            }
        }
    }
}

/// Parses one serialized block at position `i`, or fails as the spec parser
/// does.
fn p_block(v: &Vec<char>, i: usize) -> (r: Option<(Block, usize)>)
    requires
        i <= v@.len(),
    ensures
        match r {
            Some(bj) => i <= bj.1 <= v@.len() && parse_block(v@.skip(i as int)) == Some(
                (bj.0@, v@.skip(bj.1 as int)),
            ),
            None => parse_block(v@.skip(i as int)) is None,
        },
{
    let j0 = match p_lit(v, i, "{\"offset\":") {
        Some(j) => j,
        None => {
            return None;
        },
    };
    let on = match p_num(v, j0) {
        Some(x) => x,
        None => {
            return None;
        },
    };
    let offset = on.0;
    let j1 = on.1;
    let j2 = match p_lit(v, j1, ",\"data\":\"") {
        Some(j) => j,
        None => {
            return None;
        },
    };
    let dv = match p_jstr(v, j2) {
        Some(x) => x,
        None => {
            return None;
        },
    };
    let j3 = dv.1;
    let j4 = match p_lit(v, j3, ",\"timestamp\":") {
        Some(j) => j,
        None => {
            return None;
        },
    };
    let tn = match p_num(v, j4) {
        Some(x) => x,
        None => {
            return None;
        },
    };
    let timestamp = tn.0;
    let j5 = tn.1;
    let j6 = match p_lit(v, j5, ",\"hash\":\"") {
        Some(j) => j,
        None => {
            return None;
        },
    };
    let hv = match p_jstr(v, j6) {
        Some(x) => x,
        None => {
            return None;
        },
    };
    let j7 = hv.1;
    let j8 = match p_lit(v, j7, ",\"previous_hash\":\"") {
        Some(j) => j,
        None => {
            return None;
        },
    };
    let pv = match p_jstr(v, j8) {
        Some(x) => x,
        None => {
            return None;
        },
    };
    let j9 = pv.1;
    let j10 = match p_lit(v, j9, "}") {
        Some(j) => j,
        None => {
            proof {
                reveal_strlit("}");
                assert("}"@ =~= seq!['}']);
            }
            return None;
        },
    };
    proof {
        reveal_strlit("}");
        assert("}"@ =~= seq!['}']);
    }
    let b = Block {
        offset,
        data: chars_to_string(&dv.0),
        timestamp,
        hash: chars_to_string(&hv.0),
        previous_hash: chars_to_string(&pv.0),
    };
    Some((b, j10))
}

/// The views of a sequence of blocks.
spec fn blocks_views(s: Seq<Block>) -> Seq<BlockView> {
    s.map_values(|b: Block| b@)
}

/// Parses one or more comma-separated blocks at position `i`, or fails as
/// the spec parser does.
#[verifier::loop_isolation(false)]
fn p_blocks(v: &Vec<char>, i: usize) -> (r: Option<(Vec<Block>, usize)>)
    requires
        i <= v@.len(),
    ensures
        match r {
            Some(bj) => i <= bj.1 <= v@.len() && parse_blocks(v@.skip(i as int)) == Some(
                (blocks_views(bj.0@), v@.skip(bj.1 as int)),
            ),
            None => parse_blocks(v@.skip(i as int)) is None,
        },
{
    let b0j = match p_block(v, i) {
        Some(x) => x,
        None => {
            return None;
        },
    };
    let mut out: Vec<Block> = Vec::new();
    out.push(b0j.0);
    let mut p: usize = b0j.1;
    proof {
        lemma_parse_blocks_unfold(v@.skip(i as int));
        assert(blocks_views(out@) =~= seq![b0j.0@]);
    }
    loop
        invariant
            i <= p <= v@.len(),
            parse_blocks(v@.skip(i as int)) == blocks_cont_after(
                v@.skip(p as int),
                blocks_views(out@),
            ),
        decreases v@.len() - p,
    {
        let ghost p0 = p as int;
        let ghost pre0 = blocks_views(out@);
        if p == v.len() {
            return Some((out, p));
        }
        if v[p] != ',' {
            proof {
                assert(v@.skip(p0)[0] == v@[p0]);
            }
            return Some((out, p));
        }
        proof {
            assert(v@.skip(p0)[0] == ',');
            assert(v@.skip(p0).skip(1) =~= v@.skip(p0 + 1));
        }
        let bj = match p_block(v, p + 1) {
            Some(x) => x,
            None => {
                return None;
            },
        };
        proof {
            lemma_blocks_inv_step(v@.skip(i as int), v@.skip(p0), blocks_views(out@));
        }
        out.push(bj.0);
        p = bj.1;
        proof {
            assert(blocks_views(out@) =~= pre0.push(bj.0@));
        }
    }
}

impl Chainy {
    /// The chain's serialized text: exactly `render_chain` of its blocks.
    /// This is also the textual rendering a caller would persist.
    pub fn to_json(&self) -> (r: String)
        ensures
            r@ == render_chain(self@),
    {
        let mut v: Vec<char> = Vec::new();
        push_chars(&mut v, "{\"chain\":[");
        let n: usize = self.chain.len();
        let mut i: usize = 0;
        while i < n
            invariant
                i <= n,
                n == self.chain@.len(),
                self@.len() == self.chain@.len(),
                v@ == lit_chain_open() + render_blocks(self@.take(i as int)),
            decreases n - i,
        {
            if i > 0 {
                v.push(',');
            }
            proof {
                assert(self@[i as int] == self.chain@[i as int]@);
            }
            push_block_json(&mut v, &self.chain[i]);
            proof {
                lemma_render_blocks_snoc(self@.take(i as int), self@[i as int]);
                assert(self@.take(i as int).push(self@[i as int]) =~= self@.take(i as int + 1));
                assert(v@ =~= lit_chain_open() + render_blocks(self@.take(i as int + 1)));
            }
            i = i + 1;
        }
        v.push(']');
        v.push('}');
        proof {
            assert(self@.take(n as int) =~= self@);
            assert(v@ =~= render_chain(self@));
        }
        chars_to_string(&v)
    }

    /// Decodes a serialized chain without validating it: returns the chain
    /// the text denotes exactly when the canonical parser accepts the text,
    /// and a decode error otherwise.
    pub fn decode_json(s: &str) -> (r: Result<Chainy, ChainyError>)
        ensures
            match parse_chain(s@) {
                Some(bs) => r matches Ok(c) && c@ == bs,
                None => r == Err::<Chainy, ChainyError>(ChainyError::DecodeError),
            },
    {
        let v = str_to_chars(s);
        proof {
            assert(v@.skip(0) =~= s@);
        }
        let i0 = match p_lit(&v, 0, "{\"chain\":[") {
            Some(j) => j,
            None => {
                return Err(ChainyError::DecodeError);
            },
        };
        if v.len() - i0 == 2 && v[i0] == ']' && v[i0 + 1] == '}' {
            let c = Chainy { chain: Vec::new() };
            proof {
                assert(v@.skip(i0 as int)[0] == v@[i0 as int]);
                assert(v@.skip(i0 as int)[1] == v@[i0 as int + 1]);
                assert(c@ =~= Seq::<BlockView>::empty());
            }
            return Ok(c);
        }
        let bj = match p_blocks(&v, i0) {
            Some(x) => x,
            None => {
                proof {
                    if v@.skip(i0 as int).len() == 2 {
                        assert(v@.skip(i0 as int)[0] == v@[i0 as int]);
                        assert(v@.skip(i0 as int)[1] == v@[i0 as int + 1]);
                    }
                }
                return Err(ChainyError::DecodeError);
            },
        };
        let j = bj.1;
        proof {
            if v@.skip(i0 as int).len() == 2 {
                assert(v@.skip(i0 as int)[0] == v@[i0 as int]);
                assert(v@.skip(i0 as int)[1] == v@[i0 as int + 1]);
            }
            assert(v@.skip(j as int).len() == v@.len() - j);
            if v@.skip(j as int).len() == 2 {
                assert(v@.skip(j as int)[0] == v@[j as int]);
                assert(v@.skip(j as int)[1] == v@[j as int + 1]);
            }
        }
        if v.len() - j == 2 && v[j] == ']' && v[j + 1] == '}' {
            let c = Chainy { chain: bj.0 };
            proof {
                assert(c@ =~= blocks_views(c.chain@));
            }
            Ok(c)
        } else {
            Err(ChainyError::DecodeError)
        }
    }

    /// Decodes a serialized chain and validates it, as loading from storage
    /// must: a chain is returned only when the text decodes and the decoded
    /// chain passes validation; a decodable but broken chain is refused as
    /// not valid.
    pub fn from_json(s: &str) -> (r: Result<Chainy, ChainyError>)
        ensures
            match parse_chain(s@) {
                Some(bs) => if chain_valid(bs) {
                    r matches Ok(c) && c@ == bs
                } else {
                    r == Err::<Chainy, ChainyError>(ChainyError::ChainNotValid)
                },
                None => r == Err::<Chainy, ChainyError>(ChainyError::DecodeError),
            },
    {
        let c = match Self::decode_json(s) {
            Ok(c) => c,
            Err(e) => {
                return Err(e);
            },
        };
        match c.validate() {
            Ok(_) => Ok(c),
            Err(_) => Err(ChainyError::ChainNotValid),
        }
    }
}

} // verus!

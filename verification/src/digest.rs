use sha1::Digest;
use vstd::prelude::*;
use vstd::string::StrSliceExecFns;

verus! {

/// The character for one decimal digit.
pub open spec fn digit_char(d: nat) -> char {
    if d == 0 {
        '0'
    } else if d == 1 {
        '1'
    } else if d == 2 {
        '2'
    } else if d == 3 {
        '3'
    } else if d == 4 {
        '4'
    } else if d == 5 {
        '5'
    } else if d == 6 {
        '6'
    } else if d == 7 {
        '7'
    } else if d == 8 {
        '8'
    } else {
        '9'
    }
}

/// The decimal rendering of `n`, most significant digit first, with no
/// leading zero (`0` renders as `"0"`).
pub open spec fn dec_digits(n: nat) -> Seq<char>
    decreases n,
{
    if n < 10 {
        seq![digit_char(n)]
    } else {
        dec_digits(n / 10).push(digit_char(n % 10))
    }
}

/// The lowercase-hex SHA-1 digest of a text. The digest of a text depends on
/// its characters alone, so it can be named without being written out; the
/// trusted wrapper below ties the name to the `sha1` crate.
pub uninterp spec fn sha1_hex_of(s: Seq<char>) -> Seq<char>;

/// The exact text hashed for a block: the decimal form of the offset, the
/// raw payload, the decimal form of the timestamp, and the previous hash,
/// concatenated in that order with no separators.
pub open spec fn digest_input(
    offset: u64,
    data: Seq<char>,
    timestamp: u64,
    previous_hash: Seq<char>,
) -> Seq<char> {
    dec_digits(offset as nat) + data + dec_digits(timestamp as nat) + previous_hash
}

/// A block's hash as a function of its other four fields.
pub open spec fn digest_of(
    offset: u64,
    data: Seq<char>,
    timestamp: u64,
    previous_hash: Seq<char>,
) -> Seq<char> {
    sha1_hex_of(digest_input(offset, data, timestamp, previous_hash))
}

/// Relies on `sha1::Sha1` through the `digest` traits: the digest of a text
/// is a function of its bytes alone, so the result is stated as the named
/// `sha1_hex_of`; `{:x}` renders the 20-byte output in lowercase hex.
#[verifier::external_body]
fn sha1_hex(s: &str) -> (r: String)
    ensures
        r@ == sha1_hex_of(s@),
{
    let mut hasher = sha1::Sha1::new();
    hasher.update(s.as_bytes());
    format!("{:x}", hasher.finalize())
}

/// Relies on `String`'s `FromIterator<char>`: collecting characters yields
/// the string of exactly those characters in order.
#[verifier::external_body]
pub(crate) fn chars_to_string(v: &Vec<char>) -> (s: String)
    ensures
        s@ == v@,
{
    v.iter().collect()
}

fn digit_char_exec(d: u64) -> (c: char)
    requires
        d < 10,
    ensures
        c == digit_char(d as nat),
{
    if d == 0 {
        '0'
    } else if d == 1 {
        '1'
    } else if d == 2 {
        '2'
    } else if d == 3 {
        '3'
    } else if d == 4 {
        '4'
    } else if d == 5 {
        '5'
    } else if d == 6 {
        '6'
    } else if d == 7 {
        '7'
    } else if d == 8 {
        '8'
    } else {
        '9'
    }
}

/// Appends the decimal rendering of `n`.
pub(crate) fn push_dec(v: &mut Vec<char>, n: u64)
    ensures
        final(v)@ == old(v)@ + dec_digits(n as nat),
    decreases n,
{
    if n < 10 {
        v.push(digit_char_exec(n));
        proof {
            assert(v@ =~= old(v)@ + dec_digits(n as nat));
        }
    } else {
        push_dec(v, n / 10);
        v.push(digit_char_exec(n % 10));
        proof {
            assert(v@ =~= old(v)@ + dec_digits(n as nat));
        }
    }
}

/// Appends every character of `s`.
pub(crate) fn push_chars(v: &mut Vec<char>, s: &str)
    ensures
        final(v)@ == old(v)@ + s@,
{
    let n: usize = s.unicode_len();
    let mut i: usize = 0;
    while i < n
        invariant
            i <= n,
            n == s@.len(),
            v@ == old(v)@ + s@.take(i as int),
        decreases n - i,
    {
        v.push(s.get_char(i));
        proof {
            assert(old(v)@ + s@.take(i as int) + seq![s@[i as int]] =~= old(v)@ + s@.take(
                i as int + 1,
            ));
        }
        i = i + 1;
    }
    proof {
        assert(old(v)@ + s@.take(n as int) =~= old(v)@ + s@);
    }
}

/// The characters of `s`, in order.
pub(crate) fn str_to_chars(s: &str) -> (v: Vec<char>)
    ensures
        v@ == s@,
{
    let mut v: Vec<char> = Vec::new();
    push_chars(&mut v, s);
    proof {
        assert(v@ =~= s@);
    }
    v
}

/// The hash a block must carry: the lowercase-hex SHA-1 digest of its other
/// four fields, concatenated as `digest_input` says. Two calls on equal
/// fields always return the same text.
pub fn calculate_hash(offset: &u64, data: &str, timestamp: u64, previous_hash: &str) -> (r: String)
    ensures
        r@ == digest_of(*offset, data@, timestamp, previous_hash@),
{
    let mut v: Vec<char> = Vec::new();
    push_dec(&mut v, *offset);
    push_chars(&mut v, data);
    push_dec(&mut v, timestamp);
    push_chars(&mut v, previous_hash);
    let input = chars_to_string(&v);
    proof {
        assert(input@ =~= digest_input(*offset, data@, timestamp, previous_hash@));
    }
    sha1_hex(input.as_str())
}

} // verus!

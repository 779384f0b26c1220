use chainy::digest::calculate_hash;
use chainy::{Block, Chainy, ChainyError};

const GENESIS_ANCHOR: &str = "ce02dec31ca49f3c8f149b3b931a0155121d2ca0";

#[test]
fn init() {
    let mut c = Chainy::new().unwrap();
    c.entry("foo").unwrap();
    c.validate().unwrap();
    println!("{}", c.to_json());
}

#[test]
fn digest_deterministic() {
    let a = calculate_hash(&3, "abc", 7, "prev");
    let b = calculate_hash(&3, "abc", 7, "prev");
    assert_eq!(a, b);
    let other = calculate_hash(&3, "abd", 7, "prev");
    assert_ne!(a, other);
}

#[test]
fn digest_known_value() {
    let b = Block::with_timestamp(
        0,
        String::from("GENESIS"),
        1700000000,
        String::from(GENESIS_ANCHOR),
    );
    assert_eq!(b.hash, "7e34b63258200ae8a612818ea2e50fa836b669a9");
    assert!(b.validate().is_ok());
}

#[test]
fn genesis_invariant() {
    let c = Chainy::new().unwrap();
    assert_eq!(c.chain.len(), 1);
    assert_eq!(c.chain[0].offset, 0);
    assert_eq!(c.chain[0].data, "GENESIS");
    assert_eq!(c.chain[0].previous_hash, GENESIS_ANCHOR);
    assert!(c.chain[0].timestamp > 0);
    assert!(c.validate().is_ok());
}

#[test]
fn append_then_validate() {
    let mut c = Chainy::new().unwrap();
    for data in ["a", "b", "c"] {
        c.entry(data).unwrap();
        assert!(c.validate().is_ok());
    }
    assert_eq!(c.chain.len(), 4);
    // The offset numbering skips 1: genesis is 0, appends start at 2.
    assert_eq!(c.chain[1].offset, 2);
    assert_eq!(c.chain[2].offset, 3);
    assert_eq!(c.chain[3].offset, 4);
    for i in 1..c.chain.len() {
        assert_eq!(c.chain[i].previous_hash, c.chain[i - 1].hash);
    }
}

#[test]
fn length_boundary() {
    let mut c = Chainy::new().unwrap();
    let ok: String = "a".repeat(64);
    assert!(c.entry(&ok).is_ok());
    assert_eq!(c.chain.len(), 2);
    let too_long: String = "a".repeat(65);
    let r = c.entry(&too_long);
    assert!(matches!(r, Err(ChainyError::DataTooLong)));
    assert_eq!(c.chain.len(), 2);
}

#[test]
fn tamper_data_detected() {
    let mut c = Chainy::new().unwrap();
    c.entry("one").unwrap();
    c.entry("two").unwrap();
    c.chain[1].data = String::from("evil");
    assert!(matches!(c.validate(), Err(ChainyError::BlockNotValid)));
}

#[test]
fn tamper_timestamp_detected() {
    let mut c = Chainy::new().unwrap();
    c.entry("one").unwrap();
    c.chain[1].timestamp += 1;
    assert!(matches!(c.validate(), Err(ChainyError::BlockNotValid)));
}

#[test]
fn tamper_hash_detected() {
    let mut c = Chainy::new().unwrap();
    c.entry("one").unwrap();
    c.entry("two").unwrap();
    c.chain[1].hash = String::from("deadbeefdeadbeefdeadbeefdeadbeefdeadbeef");
    assert!(c.validate().is_err());
}

#[test]
fn broken_link_detected() {
    let mut c = Chainy::new().unwrap();
    c.entry("one").unwrap();
    c.entry("two").unwrap();
    // Reseal block 1 over altered data: the block itself checks out, but
    // block 2 no longer points at its hash.
    c.chain[1].data = String::from("evil");
    c.chain[1].hash = calculate_hash(
        &c.chain[1].offset,
        "evil",
        c.chain[1].timestamp,
        &c.chain[1].previous_hash,
    );
    assert!(matches!(c.validate(), Err(ChainyError::ChainNotValid)));
}

#[test]
fn json_exact_text() {
    let c = Chainy {
        chain: vec![Block {
            offset: 0,
            data: String::from("x"),
            timestamp: 5,
            hash: String::from("h"),
            previous_hash: String::from("p"),
        }],
    };
    assert_eq!(
        c.to_json(),
        "{\"chain\":[{\"offset\":0,\"data\":\"x\",\"timestamp\":5,\"hash\":\"h\",\"previous_hash\":\"p\"}]}"
    );
}

#[test]
fn json_escape_round_trip() {
    let mut c = Chainy::new().unwrap();
    c.entry("quote\" back\\slash\nnew\ttab\u{1}ctrl").unwrap();
    let text = c.to_json();
    let c2 = Chainy::from_json(&text).unwrap();
    assert_eq!(c2, c);
}

#[test]
fn round_trip() {
    let mut c = Chainy::new().unwrap();
    c.entry("alpha").unwrap();
    c.entry("beta").unwrap();
    let text = c.to_json();
    let c2 = Chainy::from_json(&text).unwrap();
    assert_eq!(c2, c);
}

#[test]
fn reject_on_load() {
    let mut c = Chainy::new().unwrap();
    c.entry("one").unwrap();
    // A structurally valid text whose linkage is broken must be refused.
    c.chain[1].previous_hash = String::from("deadbeefdeadbeefdeadbeefdeadbeefdeadbeef");
    let text = c.to_json();
    assert!(Chainy::decode_json(&text).is_ok());
    assert!(matches!(
        Chainy::from_json(&text),
        Err(ChainyError::ChainNotValid)
    ));
}

#[test]
fn end_to_end() {
    let mut c = Chainy::new().unwrap();
    c.entry("foo").unwrap();
    let text = c.to_json();
    let c2 = Chainy::from_json(&text).unwrap();
    assert_eq!(c2.chain.len(), 2);
    assert_eq!(c2.chain[1].data, "foo");
    assert_eq!(c2.chain[1].previous_hash, c2.chain[0].hash);
}

#[test]
fn decode_garbage() {
    assert!(matches!(
        Chainy::from_json("not json"),
        Err(ChainyError::DecodeError)
    ));
    assert!(matches!(
        Chainy::from_json(""),
        Err(ChainyError::DecodeError)
    ));
    assert!(matches!(
        Chainy::from_json("{\"chain\":["),
        Err(ChainyError::DecodeError)
    ));
}

#[test]
fn decode_is_strict() {
    // Only the canonical serialized form is accepted: no extra whitespace,
    // no leading zeros, nothing after the closing brace.
    assert!(matches!(
        Chainy::from_json("{\"chain\": []}"),
        Err(ChainyError::DecodeError)
    ));
    assert!(matches!(
        Chainy::from_json(
            "{\"chain\":[{\"offset\":00,\"data\":\"x\",\"timestamp\":5,\"hash\":\"h\",\"previous_hash\":\"p\"}]}"
        ),
        Err(ChainyError::DecodeError)
    ));
    assert!(matches!(
        Chainy::from_json("{\"chain\":[]} "),
        Err(ChainyError::DecodeError)
    ));
}

#[test]
fn error_messages() {
    assert_eq!(ChainyError::BlockNotValid.message(), "block is not valid");
    assert_eq!(ChainyError::ChainNotValid.message(), "chain is not valid");
    assert_eq!(ChainyError::DataTooLong.message(), "block data is > 64 chars");
}

#[test]
fn empty_chain_is_not_valid() {
    let c = Chainy::decode_json("{\"chain\":[]}").unwrap();
    assert_eq!(c.chain.len(), 0);
    assert!(matches!(
        Chainy::from_json("{\"chain\":[]}"),
        Err(ChainyError::ChainNotValid)
    ));
}

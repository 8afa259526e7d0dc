//! Loading snapshot bytes into a store.
use base64::Engine;

use miniredis::rdb::decode_length;
use miniredis::rdb::Rdb;
use miniredis::rdb::RdbError;

// A clock instant past the one expiry the sample files carry, so the
// expiring key is dropped at load time.
const NOW_MS: u64 = 1_800_000_000_000;

// Snapshot holding a single pair, foo:bar.  Written out as base64.
const SINGLE_KEY_RDB: &str = "UkVESVMwMDEx+glyZWRpcy12ZXIFNy4yLjT6CnJlZGlzLWJpdHPAQPoFY3RpbWXCqywlZvoIdXNlZC1tZW3CwIURAPoIYW9mLWJhc2XAAP4A+wEAAANmb28DYmFy/+CZ/pfpGCmk";

// Snapshot holding foo:123 and bar:456.
const MULTI_KEY_RDB: &str = "UkVESVMwMDEx+glyZWRpcy12ZXIFNy4yLjT6CnJlZGlzLWJpdHPAQPoFY3RpbWXCSlslZvoIdXNlZC1tZW3C8IURAPoIYW9mLWJhc2XAAP4A+wIAAANiYXLByAEAA2Zvb8B7/yfdZT6cKrHT";

// Snapshot holding foo:123, bar:456, and baz:789 with an expiry in the past.
const WITH_EXP_RDB: &str = "UkVESVMwMDEx+glyZWRpcy12ZXIFNy4yLjT6CnJlZGlzLWJpdHPAQPoFY3RpbWXCpWQlZvoIdXNlZC1tZW3CoIYRAPoIYW9mLWJhc2XAAP4A+wMBAANmb2/AewADYmFywcgB/PQ1EQKPAQAAAANiYXrBFQP/emKeCGa6hyo=";

fn single_key_rdb() -> Vec<u8> {
    base64::engine::general_purpose::STANDARD
        .decode(SINGLE_KEY_RDB)
        .unwrap()
}

fn multi_key_rdb() -> Vec<u8> {
    base64::engine::general_purpose::STANDARD
        .decode(MULTI_KEY_RDB)
        .unwrap()
}

fn with_exp_rdb() -> Vec<u8> {
    base64::engine::general_purpose::STANDARD
        .decode(WITH_EXP_RDB)
        .unwrap()
}

fn d(bytes: &[u8]) -> usize {
    decode_length(bytes, 0).unwrap().0.to_usize()
}

#[test]
fn test_decode_length() {
    assert_eq!(d(&[0b0000_0000]), 0);
    assert_eq!(d(&[0b0000_0001]), 1);
    assert_eq!(d(&[0b0000_0010]), 2);
    assert_eq!(d(&[0b0010_0000]), 32);
    assert_eq!(d(&[0b0011_1111]), 63);
    assert_eq!(d(&[0b0100_0000, 0b0000_0001]), 1);
    assert_eq!(d(&[0b0100_0001, 0b0000_0001]), 257);
    assert_eq!(d(&[0b0111_1111, 0b1111_1111]), 16383);
    assert_eq!(d(&[0b1000_0000, 0x80, 0x00, 0x00, 0x00]), 2147483648);
    assert_eq!(d(&[0b1000_0000, 0xff, 0xff, 0xff, 0xff]), 4294967295);

    // Additional bytes doesn't matter
    assert_eq!(d(&[0b1000_0000, 0xff, 0xff, 0xff, 0xff, 0xff]), 4294967295);
}

#[test]
fn test_read() {
    let mut rdb = Rdb::read_from_buf(&single_key_rdb(), NOW_MS).unwrap();
    assert_eq!(rdb.store.data(NOW_MS).len(), 1);
    assert_eq!(
        rdb.store.get(b"foo", NOW_MS).unwrap().to_string().unwrap(),
        "bar"
    );

    let mut rdb = Rdb::read_from_buf(&multi_key_rdb(), NOW_MS).unwrap();
    assert_eq!(rdb.store.data(NOW_MS).len(), 2);
    assert_eq!(
        rdb.store.get(b"foo", NOW_MS).unwrap().to_string().unwrap(),
        "123"
    );
    assert_eq!(
        rdb.store.get(b"bar", NOW_MS).unwrap().to_string().unwrap(),
        "456"
    );
}

#[test]
fn test_read_exp() {
    let mut rdb = Rdb::read_from_buf(&with_exp_rdb(), NOW_MS).unwrap();
    assert_eq!(rdb.store.data(NOW_MS).len(), 2);
    assert_eq!(
        rdb.store.get(b"foo", NOW_MS).unwrap().to_string().unwrap(),
        "123"
    );
    assert_eq!(
        rdb.store.get(b"bar", NOW_MS).unwrap().to_string().unwrap(),
        "456"
    );
}

#[test]
fn bad_magic_is_refused() {
    assert_eq!(
        Rdb::read_from_buf(b"RESP0011\x00", NOW_MS).err(),
        Some(RdbError::BadFormat)
    );
    assert_eq!(
        Rdb::read_from_buf(b"REDIS00", NOW_MS).err(),
        Some(RdbError::Truncated)
    );
    // An unknown special length marker, and one that stops short.
    assert_eq!(decode_length(&[0xc3], 0).err(), Some(RdbError::BadFormat));
    assert_eq!(decode_length(&[0x41], 0).err(), Some(RdbError::Truncated));
}

//! The Castagnoli checksum.

use evedb_core::checksum::{crc32c, Checksum};

#[test]
fn castagnoli_check_vector() {
    assert_eq!(crc32c(b"123456789"), 0xe306_9283);
    assert_eq!(crc32c(b""), 0);
}

#[test]
fn pieces_give_the_checksum_of_the_whole() {
    let mut parts = Checksum::new();
    parts.update(b"1234");
    parts.update(b"");
    parts.update(b"56789");
    assert_eq!(parts.finish(), 0xe306_9283);
}

#[test]
fn one_changed_byte_changes_the_checksum() {
    let data = b"a record of some length".to_vec();
    for at in 0..data.len() {
        let mut changed = data.clone();
        changed[at] ^= 0x10;
        assert_ne!(crc32c(&changed), crc32c(&data));
    }
}

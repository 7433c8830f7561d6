use scicomp::crc::{crc32, make_crc_table};

#[test]
fn main_test_crc32() {
    let table = make_crc_table();
    let test_data = b"123456789";
    let crc = crc32(&table, test_data);
    assert_eq!(crc, 0xCBF43926); // Known CRC-32 value for "123456789"
}

#[test]
fn crc_table_entries() {
    let table = make_crc_table();
    assert_eq!(table[0], 0);
    assert_eq!(table[1], 0x77073096);
    assert_eq!(table[255], 0x2D02EF8D);
}

#[test]
fn crc_of_empty_and_single_bytes() {
    let table = make_crc_table();
    assert_eq!(crc32(&table, b""), 0);
    assert_eq!(crc32(&table, b"a"), 0xE8B7BE43);
    assert_eq!(crc32(&table, b"The quick brown fox jumps over the lazy dog"), 0x414FA339);
}

#[test]
fn crc_with_a_zero_table_is_just_the_shifts() {
    let table = [0u32; 256];
    // with an all-zero table each byte shifts the register right by 8 bits
    assert_eq!(crc32(&table, b"a"), !0x00ff_ffffu32);
}

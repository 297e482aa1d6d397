use ttt_cfr::codec::{encode_records, read_tag, StrategyRecord};
use ttt_cfr::strategy::Strategy;

#[test]
fn test_tag_one_byte() {
    // tag 5 as a delta from 0: one byte, top bits 00
    assert_eq!(read_tag(&[5u8], 0, 0), Some((5u32, 1usize)));
}

#[test]
fn test_tag_two_bytes() {
    // tag 5000 as a delta from 0: two bytes, top bits 01, big-endian
    let bytes = [64 + (5000u32 / 256) as u8, (5000u32 % 256) as u8];
    assert_eq!(bytes, [83, 136]);
    assert_eq!(read_tag(&bytes, 0, 0), Some((5000u32, 2usize)));
}

#[test]
fn test_tag_four_bytes_absolute() {
    // tag 200,000,000: absolute form, top bit 1, 31 bits of tag
    let bytes = [139u8, 235, 194, 0];
    assert_eq!(read_tag(&bytes, 0, 0), Some((200_000_000u32, 4usize)));
    // the absolute form ignores the previous tag
    assert_eq!(read_tag(&bytes, 0, 77), Some((200_000_000u32, 4usize)));
}

#[test]
fn test_tag_truncated() {
    assert_eq!(read_tag(&[83u8], 0, 0), None);
    assert_eq!(read_tag(&[139u8, 235], 0, 0), None);
    assert_eq!(read_tag(&[], 0, 0), None);
}

fn rec(history: u32, private: u32, vals: [u8; 9]) -> StrategyRecord {
    StrategyRecord { history, private, vals }
}

#[test]
fn test_encode_decode_three_widths() {
    // three records whose tags need one, two and four bytes respectively
    let records = vec![
        rec(0, 0, [1, 0, 0, 0, 0, 0, 0, 0, 0]),
        rec(78, 0, [0, 15, 0, 3, 0, 0, 0, 0, 0]),
        rec(3_125_000, 1, [0, 0, 0, 0, 7, 0, 0, 0, 0]),
    ];
    let bytes = encode_records(&records).expect("records are well formed and ascending");

    // first record: tag 1 (one byte), payload one byte 0x01
    assert_eq!(bytes[0], 1);
    assert_eq!(bytes[1], 0x01);

    let strategy = Strategy::load(&bytes).expect("own encoding must decode");
    assert_eq!(strategy.get(0, 0), Some([1, 0, 0, 0, 0, 0, 0, 0, 0]));
    assert_eq!(strategy.get(78, 0), Some([0, 15, 0, 3, 0, 0, 0, 0, 0]));
    assert_eq!(strategy.get(3_125_000, 1), Some([0, 0, 0, 0, 7, 0, 0, 0, 0]));
    // a key that was never exported is absent: the consumer falls back to
    // a uniform distribution over its legal moves
    assert_eq!(strategy.get(5, 1), None);
    assert_eq!(strategy.get(78, 1), None);
}

#[test]
fn test_encode_rejects_bad_records() {
    // no nonzero entry
    assert_eq!(encode_records(&vec![rec(3, 0, [0; 9])]), None);
    // more than seven nonzero entries
    assert_eq!(encode_records(&vec![rec(3, 0, [1; 9])]), None);
    // a palette index out of the 4-bit range
    assert_eq!(encode_records(&vec![rec(3, 0, [16, 0, 0, 0, 0, 0, 0, 0, 0])]), None);
    // history too wide for the tag
    assert_eq!(encode_records(&vec![rec(1 << 26, 0, [1, 0, 0, 0, 0, 0, 0, 0, 0])]), None);
    // tags must ascend
    let descending = vec![
        rec(50, 0, [1, 0, 0, 0, 0, 0, 0, 0, 0]),
        rec(20, 0, [1, 0, 0, 0, 0, 0, 0, 0, 0]),
    ];
    assert_eq!(encode_records(&descending), None);
}

#[test]
fn test_load_strategy() {
    let records = vec![rec(1, 0, [0, 5, 0, 5, 0, 0, 0, 0, 0])];
    let bytes = encode_records(&records).expect("well formed");
    let strategy = Strategy::load(&bytes).expect("must decode");
    assert_eq!(strategy.get(1, 0), Some([0, 5, 0, 5, 0, 0, 0, 0, 0]));
    assert_eq!(strategy.get(0, 0), None);
    assert!(1 == 1);
}

#[test]
fn test_decode_rejects_malformed() {
    // a payload byte naming move index 9 (0x9_ high nibble)
    let records = vec![rec(0, 0, [1, 0, 0, 0, 0, 0, 0, 0, 0])];
    let mut bytes = encode_records(&records).unwrap();
    bytes[1] = 0x91;
    assert!(Strategy::load(&bytes).is_none());
    // a truncated stream
    assert!(Strategy::load(&[5u8]).is_none());
    // the empty blob decodes to the empty table
    assert!(Strategy::load(&[]).is_some());
}

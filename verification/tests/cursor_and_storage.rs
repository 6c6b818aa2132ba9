use extreme_bitmap::utils::bit_writer::BitWriter;
use extreme_bitmap::utils::extend_vec::ExtendBits;
use extreme_bitmap::utils::index_cursor::IndexCursor;

#[test]
fn cursor_starts_at_zero() {
    let cursor = IndexCursor::default();
    assert_eq!(cursor.byte_index, 0);
    assert_eq!(cursor.bit_index, 0);
    assert_eq!(cursor.bit_count(), 0);
    assert_eq!(cursor.byte_count(), 1);
}

#[test]
fn cursor_advances_one_bit_at_a_time() {
    let mut cursor = IndexCursor::default();
    for expected in 1..=20usize {
        cursor.advance();
        assert_eq!(cursor.bit_count(), expected);
        assert_eq!(cursor.byte_index, expected / 8);
        assert_eq!(cursor.bit_index as usize, expected % 8);
    }
}

#[test]
fn cursor_byte_count_adds_one_for_a_partial_byte() {
    let mut cursor = IndexCursor::default();
    for _ in 0..5 {
        cursor.advance();
    }
    assert_eq!(cursor.byte_count(), 2);
    for _ in 5..8 {
        cursor.advance();
    }
    assert_eq!(cursor.bit_count(), 8);
    assert_eq!(cursor.byte_count(), 2);
    for _ in 8..13 {
        cursor.advance();
    }
    assert_eq!(cursor.byte_count(), 3);
}

#[test]
fn extend_adds_zeroed_bytes_and_keeps_the_rest() {
    let mut bytes: Vec<u8> = vec![7, 9];
    bytes.extend_at_least_n_bits(0);
    assert_eq!(bytes, vec![7, 9, 0]);
    bytes.extend_at_least_n_bits(7);
    assert_eq!(bytes, vec![7, 9, 0, 0]);
    bytes.extend_at_least_n_bits(8);
    assert_eq!(bytes, vec![7, 9, 0, 0, 0, 0]);
    bytes.extend_at_least_n_bits(17);
    assert_eq!(bytes.len(), 9);
    assert!(bytes[2..].iter().all(|b| *b == 0));
}

#[test]
fn writer_packs_bits_least_significant_first() {
    let mut writer = BitWriter::new();
    for bit in [true, true, false, true, true] {
        writer.push_bit(bit);
    }
    assert_eq!(writer.cursor.bit_count(), 5);
    assert_eq!(writer.finish(), vec![0b0001_1011, 0]);
}

#[test]
fn writer_grows_when_nothing_was_reserved() {
    let mut writer = BitWriter::new();
    for _ in 0..17 {
        writer.push_bit(false);
    }
    writer.push_bit(true);
    assert_eq!(writer.finish(), vec![0, 0, 0b0000_0010, 0]);
}

#[test]
fn writer_reserve_leaves_the_stream_alone() {
    let mut writer = BitWriter::new();
    writer.push_bit(true);
    writer.reserve(100);
    assert_eq!(writer.cursor.bit_count(), 1);
    writer.push_bit(true);
    assert_eq!(writer.finish(), vec![3, 0]);
}

#[test]
fn writer_of_nothing_is_one_zero_byte() {
    let writer = BitWriter::new();
    assert_eq!(writer.finish(), vec![0]);
}

#[test]
fn writer_of_a_full_byte_reports_one_more() {
    let mut writer = BitWriter::new();
    for _ in 0..8 {
        writer.push_bit(true);
    }
    assert_eq!(writer.finish(), vec![255, 0]);
}

#[test]
fn new_writer_holds_no_storage() {
    let writer = BitWriter::new();
    assert!(writer.bytes.is_empty());
    assert_eq!(writer.cursor.bit_count(), 0);
    assert_eq!(writer.cursor.byte_index, 0);
    assert_eq!(writer.cursor.bit_index, 0);
}

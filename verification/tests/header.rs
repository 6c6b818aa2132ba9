use extreme_bitmap::header::{ExtremeBitmapHeader, HeaderError, SymbolCountByteSizeFlag};

#[test]
fn width_boundaries() {
    assert_eq!(SymbolCountByteSizeFlag::from_max_count(0), Ok(SymbolCountByteSizeFlag::One));
    assert_eq!(SymbolCountByteSizeFlag::from_max_count(255), Ok(SymbolCountByteSizeFlag::One));
    assert_eq!(SymbolCountByteSizeFlag::from_max_count(256), Ok(SymbolCountByteSizeFlag::Two));
    assert_eq!(SymbolCountByteSizeFlag::from_max_count(65_535), Ok(SymbolCountByteSizeFlag::Two));
    assert_eq!(SymbolCountByteSizeFlag::from_max_count(65_536), Ok(SymbolCountByteSizeFlag::Three));
    assert_eq!(
        SymbolCountByteSizeFlag::from_max_count(16_777_215),
        Ok(SymbolCountByteSizeFlag::Three)
    );
    assert_eq!(
        SymbolCountByteSizeFlag::from_max_count(16_777_216),
        Ok(SymbolCountByteSizeFlag::Four)
    );
    assert_eq!(
        SymbolCountByteSizeFlag::from_max_count(u32::MAX as usize),
        Ok(SymbolCountByteSizeFlag::Four)
    );
}

#[test]
fn count_beyond_32_bits_is_refused() {
    let too_many = (u32::MAX as u64 + 1) as usize;
    if too_many as u64 == u32::MAX as u64 + 1 {
        assert_eq!(
            SymbolCountByteSizeFlag::from_max_count(too_many),
            Err(
                "Count of single symbol exceeded what fits in a u32, which is not supported at the moment."
                    .to_string()
            )
        );
        assert!(SymbolCountByteSizeFlag::from_max_count(usize::MAX).is_err());
    }
}

#[test]
fn flag_bytes() {
    assert_eq!(SymbolCountByteSizeFlag::One.as_byte_flag(), 1);
    assert_eq!(SymbolCountByteSizeFlag::Two.as_byte_flag(), 2);
    assert_eq!(SymbolCountByteSizeFlag::Three.as_byte_flag(), 4);
    assert_eq!(SymbolCountByteSizeFlag::Four.as_byte_flag(), 8);
}

#[test]
fn count_fields_are_little_endian() {
    let count: usize = 0x0102_0304;
    assert_eq!(SymbolCountByteSizeFlag::One.convert_count_to_bytes(count), vec![4]);
    assert_eq!(SymbolCountByteSizeFlag::Two.convert_count_to_bytes(count), vec![4, 3]);
    assert_eq!(SymbolCountByteSizeFlag::Three.convert_count_to_bytes(count), vec![4, 3, 2]);
    assert_eq!(SymbolCountByteSizeFlag::Four.convert_count_to_bytes(count), vec![4, 3, 2, 1]);
    assert_eq!(SymbolCountByteSizeFlag::Four.convert_count_to_bytes(0), vec![0, 0, 0, 0]);
    assert_eq!(SymbolCountByteSizeFlag::Two.convert_count_to_bytes(255), vec![255, 0]);
}

#[test]
fn header_of_an_empty_table_is_refused() {
    let r = ExtremeBitmapHeader::new(&[], &[1, 2, 3]);
    assert_eq!(r.err(), Some(HeaderError::EmptyCounts));
}

#[test]
fn header_with_a_count_beyond_32_bits_is_refused() {
    let too_many = (u32::MAX as u64 + 1) as usize;
    if too_many as u64 == u32::MAX as u64 + 1 {
        let r = ExtremeBitmapHeader::new(&[1, too_many, 3], &[0, 1, 2]);
        assert_eq!(r.err(), Some(HeaderError::UnsupportedCountRange));
    }
}

#[test]
fn header_layout_at_width_one() {
    let header = ExtremeBitmapHeader::new(&[3, 0, 255], &[2, 0, 1]).unwrap();
    assert_eq!(Vec::from(header), vec![1, 3, 0, 255, 2, 0, 1]);
}

#[test]
fn header_layout_at_width_two() {
    let header = ExtremeBitmapHeader::new(&[3, 256, 1], &[1, 0, 2]).unwrap();
    assert_eq!(Vec::from(header), vec![2, 3, 0, 0, 1, 1, 0, 1, 0, 2]);
}

#[test]
fn header_layout_at_width_three() {
    let header = ExtremeBitmapHeader::new(&[65_536, 1], &[0, 1]).unwrap();
    assert_eq!(Vec::from(header), vec![4, 0, 0, 1, 1, 0, 0, 0, 1]);
}

#[test]
fn header_layout_at_width_four() {
    let header = ExtremeBitmapHeader::new(&[0x0102_0304, 1], &[0, 1]).unwrap();
    assert_eq!(Vec::from(header), vec![8, 4, 3, 2, 1, 1, 0, 0, 0, 0, 1]);
}

#[test]
fn header_cuts_symbols_to_one_byte() {
    let header = ExtremeBitmapHeader::new(&[1], &[255, 256, 513]).unwrap();
    assert_eq!(Vec::from(header), vec![1, 1, 255, 0, 1]);
}

#[test]
fn order_changes_only_the_order_block() {
    let counts: Vec<usize> = (0..256).map(|s| if s == 7 { 300 } else { s % 5 }).collect();
    let ascending: Vec<usize> = (0..256).collect();
    let descending: Vec<usize> = (0..256).rev().collect();
    let a = Vec::from(ExtremeBitmapHeader::new(&counts, &ascending).unwrap());
    let b = Vec::from(ExtremeBitmapHeader::new(&counts, &descending).unwrap());
    assert_eq!(a.len(), 1 + 256 * 2 + 256);
    assert_eq!(a.len(), b.len());
    assert_eq!(a[..513], b[..513]);
    assert_ne!(a[513..], b[513..]);
    let order_a: Vec<usize> = a[513..].iter().map(|s| *s as usize).collect();
    assert_eq!(order_a, ascending);
}

use extreme_bitmap::extreme_bitmap::ExtremeBitmap;
use extreme_bitmap::header::ExtremeBitmapHeader;
use extreme_bitmap::priority::{by_tally_descending, symbols_by_priority};
use std::cmp::Ordering;
use extreme_bitmap::ranks::RankTable;
use extreme_bitmap::refine::Encoder;
use extreme_bitmap::serialize::ExtremeBitmapSerializer;

fn expected_order(first: &[usize]) -> Vec<usize> {
    let mut order: Vec<usize> = first.to_vec();
    for s in 0..256 {
        if !first.contains(&s) {
            order.push(s);
        }
    }
    order
}

fn header_for(counts: &[(usize, usize)], first: &[usize]) -> Vec<u8> {
    let mut table = vec![0usize; 256];
    for (s, c) in counts {
        table[*s] = *c;
    }
    Vec::from(ExtremeBitmapHeader::new(&table, &expected_order(first)).unwrap())
}

#[test]
fn rank_table_of_three_distinct_symbols() {
    let table = RankTable::build(&[2, 1, 3]);
    assert_eq!(table.counts.len(), 256);
    assert_eq!(table.ranges.len(), 256);
    for s in 0..256usize {
        let count = if (1..=3).contains(&s) { 1 } else { 0 };
        assert_eq!(table.counts[s], count);
        assert_eq!(table.ranges[s], s.min(3));
    }
    assert_eq!(table.home_start(0), 0);
    assert_eq!(table.home_start(2), 1);
    assert_eq!(table.home_end(2), 2);
    assert_eq!(table.home_end(255), 3);
}

#[test]
fn rank_table_counts_add_up() {
    let input: Vec<u8> = (0..1000u32).map(|i| (i * 7 % 251) as u8).collect();
    let table = RankTable::build(&input);
    assert_eq!(table.counts.iter().sum::<usize>(), input.len());
    assert_eq!(table.ranges[255], input.len());
    for s in 1..256 {
        assert!(table.ranges[s - 1] <= table.ranges[s]);
        assert_eq!(table.ranges[s] - table.ranges[s - 1], table.counts[s]);
    }
    assert_eq!(table.ranges[0], table.counts[0]);
}

#[test]
fn rank_table_of_empty_input_is_all_zero() {
    let table = RankTable::build(&[]);
    assert!(table.counts.iter().all(|c| *c == 0));
    assert!(table.ranges.iter().all(|r| *r == 0));
}

#[test]
fn placement_of_three_distinct_symbols() {
    let input = [2u8, 1, 3];
    let table = RankTable::build(&input);
    let (encoder, tallies) = Encoder::initial_placement(&input, &table);
    assert_eq!(encoder.writer.cursor.bit_count(), 3);
    assert_eq!(encoder.resolved.len(), 1);
    assert!(encoder.resolved.contains(&2));
    for s in 0..256 {
        assert_eq!(tallies[s], if s == 1 || s == 2 { 1 } else { 0 });
    }
    assert_eq!(encoder.writer.finish(), vec![0b011, 0]);
}

#[test]
fn priority_order_is_descending_and_stable() {
    let mut tallies = vec![0usize; 256];
    tallies[1] = 5;
    tallies[2] = 3;
    tallies[3] = 5;
    tallies[200] = 9;
    let order = symbols_by_priority(&tallies);
    assert_eq!(order, expected_order(&[200, 1, 3, 2]));
}

#[test]
fn priority_order_of_equal_tallies_is_ascending() {
    let order = symbols_by_priority(&vec![4usize; 256]);
    assert_eq!(order, (0..256).collect::<Vec<usize>>());
}

#[test]
fn three_distinct_symbols_encode_to_known_bytes() {
    let out = ExtremeBitmap::serialize_from_slice(&[2, 1, 3]).unwrap();
    let mut expected = header_for(&[(1, 1), (2, 1), (3, 1)], &[1, 2]);
    assert_eq!(expected.len(), 513);
    expected.extend_from_slice(&[0b0001_1011, 0]);
    assert_eq!(out, expected);
}

#[test]
fn reversed_runs_encode_to_known_bytes() {
    let input = [3u8, 3, 3, 2, 2, 1];
    let table = RankTable::build(&input);
    assert_eq!(table.counts[1], 1);
    assert_eq!(table.counts[2], 2);
    assert_eq!(table.counts[3], 3);
    let (mut encoder, tallies) = Encoder::initial_placement(&input, &table);
    assert_eq!(tallies[1], 1);
    assert_eq!(tallies[2], 2);
    assert_eq!(tallies[3], 3);
    let order = symbols_by_priority(&tallies);
    assert_eq!(order, expected_order(&[3, 2, 1]));
    encoder.refine(&input, &table, &order);
    assert_eq!(encoder.writer.cursor.bit_count(), 13);
    assert_eq!(encoder.resolved.len(), 6);
    let reported = encoder.writer.cursor.byte_count();
    assert_eq!(reported, 3);

    let out = ExtremeBitmap::serialize_from_slice(&input).unwrap();
    assert_eq!(out.len(), 1 + 256 + 256 + reported);
    let mut expected = header_for(&[(1, 1), (2, 2), (3, 3)], &[3, 2, 1]);
    expected.extend_from_slice(&[0b1111_1111, 0b0001_0111, 0]);
    assert_eq!(out, expected);
}

#[test]
fn identical_symbols_need_no_probe() {
    let input = [5u8, 5, 5, 5];
    let table = RankTable::build(&input);
    let (mut encoder, tallies) = Encoder::initial_placement(&input, &table);
    assert!(tallies.iter().all(|t| *t == 0));
    assert_eq!(encoder.resolved.len(), 4);
    assert_eq!(encoder.writer.cursor.bit_count(), 4);
    let order = symbols_by_priority(&tallies);
    encoder.refine(&input, &table, &order);
    assert_eq!(encoder.writer.cursor.bit_count(), 4);
    assert_eq!(encoder.writer.finish(), vec![0, 0]);

    let out = ExtremeBitmap::serialize_from_slice(&input).unwrap();
    let mut expected = header_for(&[(5, 4)], &[]);
    expected.extend_from_slice(&[0, 0]);
    assert_eq!(out, expected);
}

#[test]
fn empty_input_is_header_and_one_byte() {
    let out = ExtremeBitmap::serialize_from_slice(&[]).unwrap();
    let mut expected = header_for(&[], &[]);
    expected.push(0);
    assert_eq!(out.len(), 514);
    assert_eq!(out, expected);
}

#[test]
fn encoding_twice_gives_the_same_bytes() {
    let input: Vec<u8> = (0..500u32).map(|i| (i * i % 17) as u8).collect();
    let a = ExtremeBitmap::serialize_from_slice(&input).unwrap();
    let b = ExtremeBitmap::serialize_from_slice(&input).unwrap();
    assert_eq!(a, b);
}

#[test]
fn every_position_is_resolved() {
    let input: Vec<u8> = (0..300u32).map(|i| (i * 31 % 11) as u8).collect();
    let table = RankTable::build(&input);
    let (mut encoder, tallies) = Encoder::initial_placement(&input, &table);
    let order = symbols_by_priority(&tallies);
    encoder.refine(&input, &table, &order);
    assert_eq!(encoder.resolved.len(), input.len());
    for i in 0..input.len() {
        assert!(encoder.resolved.contains(&i));
    }
}

#[test]
fn bits_are_placement_bits_plus_probes() {
    let input = [0u8, 2, 2, 1, 1];
    let table = RankTable::build(&input);
    let (mut encoder, tallies) = Encoder::initial_placement(&input, &table);
    assert_eq!(encoder.writer.cursor.bit_count(), 5);
    let order = symbols_by_priority(&tallies);
    assert_eq!(order, expected_order(&[1, 2]));
    encoder.refine_symbol(&input, &table, 1);
    assert_eq!(encoder.writer.cursor.bit_count(), 7);
    encoder.refine_symbol(&input, &table, 2);
    assert_eq!(encoder.writer.cursor.bit_count(), 9);
    encoder.refine_symbol(&input, &table, 0);
    encoder.refine_symbol(&input, &table, 3);
    assert_eq!(encoder.writer.cursor.bit_count(), 9);
    assert_eq!(encoder.writer.finish(), vec![0b1111_1110, 0b0000_0001, 0]);
}

#[test]
fn scan_passes_over_resolved_positions() {
    let input = [1u8, 0, 2, 0];
    let table = RankTable::build(&input);
    let (mut encoder, _) = Encoder::initial_placement(&input, &table);
    assert_eq!(encoder.resolved.len(), 1);
    assert!(encoder.resolved.contains(&1));
    encoder.scan_region(&input, 2, 0, 3);
    assert_eq!(encoder.writer.cursor.bit_count(), 6);
    assert!(encoder.resolved.contains(&2));
    assert!(!encoder.resolved.contains(&0));
    encoder.scan_region(&input, 0, 0, 4);
    assert_eq!(encoder.writer.cursor.bit_count(), 8);
    assert_eq!(encoder.resolved.len(), 3);
    assert!(!encoder.resolved.contains(&0));
    assert_eq!(encoder.writer.finish(), vec![0b1010_1101, 0]);
}

#[test]
fn stream_longer_than_the_estimate_is_written_in_full() {
    let mut input: Vec<u8> = vec![0; 1000];
    input.extend(vec![2u8; 500]);
    input.extend(vec![1u8; 500]);
    let out = ExtremeBitmap::serialize_from_slice(&input).unwrap();
    let width = 2;
    let header = 1 + 256 * width + 256;
    assert_eq!(out[0], 2);
    assert_eq!(out.len(), header + 3000 / 8 + 1);
    let stream = &out[header..];
    assert!(stream[..125].iter().all(|b| *b == 0));
    assert!(stream[125..375].iter().all(|b| *b == 255));
    assert_eq!(stream[375], 0);
}

#[test]
fn stream_holds_two_set_bits_per_position_out_of_place() {
    let input: Vec<u8> = (0..200u32).map(|i| (i * 13 % 7) as u8).collect();
    let table = RankTable::build(&input);
    let (mut encoder, tallies) = Encoder::initial_placement(&input, &table);
    let out_of_place = input.len() - encoder.resolved.len();
    assert_eq!(tallies.iter().sum::<usize>(), out_of_place);
    let order = symbols_by_priority(&tallies);
    encoder.refine(&input, &table, &order);
    let bits = encoder.writer.cursor.bit_count();
    let bytes = encoder.writer.finish();
    let set: u32 = bytes.iter().map(|b| b.count_ones()).sum();
    assert_eq!(set as usize, 2 * out_of_place);
    assert!(bits >= input.len());
}

#[test]
fn probes_count_unresolved_positions_outside_the_home_range() {
    let input = [3u8, 3, 3, 2, 2, 1];
    let table = RankTable::build(&input);
    let (mut encoder, _) = Encoder::initial_placement(&input, &table);
    assert_eq!(encoder.writer.cursor.bit_count(), 6);
    encoder.refine_symbol(&input, &table, 3);
    assert_eq!(encoder.writer.cursor.bit_count(), 6 + 3);
    encoder.refine_symbol(&input, &table, 2);
    assert_eq!(encoder.writer.cursor.bit_count(), 9 + 3);
    encoder.refine_symbol(&input, &table, 1);
    assert_eq!(encoder.writer.cursor.bit_count(), 12 + 1);
    encoder.refine_symbol(&input, &table, 0);
    assert_eq!(encoder.writer.cursor.bit_count(), 13);
}

#[test]
fn larger_tally_orders_first() {
    assert_eq!(by_tally_descending(&(0, 5), &(1, 3)), Ordering::Less);
    assert_eq!(by_tally_descending(&(0, 3), &(1, 5)), Ordering::Greater);
    assert_eq!(by_tally_descending(&(7, 4), &(2, 4)), Ordering::Equal);
}

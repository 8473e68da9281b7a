use sail_tracker::rows::assemble_row;
use sail_tracker::rows::build_line;
use sail_tracker::rows::cell_is_blank;
use sail_tracker::rows::csv_header;
use sail_tracker::rows::fill_slots;
use sail_tracker::rows::sort_by_column;
use sail_tracker::rows::Reading;
use sail_tracker::rows::LINE_LENGTH;
use sail_tracker::rows::Q_SIZE;

fn line_of(text: &[u8]) -> [u8; LINE_LENGTH] {
    let mut line = [0u8; LINE_LENGTH];
    line[1..1 + text.len()].copy_from_slice(text);
    line[1 + text.len()] = b'\n';
    line
}

#[test]
fn header_lists_the_columns() {
    assert_eq!(csv_header(), b"Time ,Roll ,Pitch,\n".to_vec());
}

#[test]
fn slots_hold_readings_then_blanks_then_the_time() {
    let received: Vec<Reading> = vec![(2, *b"abcdefgh"), (1, *b"12345678")];
    let time = [0, b'1', 0, b'2', 0, b'5', 0, 0];
    let slots = fill_slots(&received, time);
    assert_eq!(slots.len(), Q_SIZE);
    assert_eq!(slots[0], (2, *b"abcdefgh"));
    assert_eq!(slots[1], (1, *b"12345678"));
    for slot in &slots[2..Q_SIZE - 1] {
        assert_eq!(*slot, (21, [0u8; 8]));
    }
    assert_eq!(slots[Q_SIZE - 1], (0, time));
}

#[test]
fn the_time_takes_the_last_slot_even_when_it_is_used() {
    let received: Vec<Reading> = (0..20).map(|i| (3, [i as u8 + 1; 8])).collect();
    let time = [9u8; 8];
    let slots = fill_slots(&received, time);
    assert_eq!(slots[Q_SIZE - 2], (3, [19u8; 8]));
    assert_eq!(slots[Q_SIZE - 1], (0, time));
}

#[test]
fn sorting_orders_by_column_and_keeps_equal_columns_in_order() {
    let readings: Vec<Reading> = vec![(3, [1; 8]), (1, [2; 8]), (3, [3; 8]), (0, [4; 8]), (1, [5; 8])];
    let sorted = sort_by_column(&readings);
    assert_eq!(
        sorted,
        vec![(0, [4; 8]), (1, [2; 8]), (1, [5; 8]), (3, [1; 8]), (3, [3; 8])]
    );
}

#[test]
fn blank_cells_are_recognised() {
    assert!(cell_is_blank(&[0u8; 8]));
    assert!(!cell_is_blank(&[0, 0, 0, 0, 0, 0, 0, 1]));
}

#[test]
fn builds_a_row_with_separators_up_to_each_column() {
    let received: Vec<Reading> = vec![(2, *b"-3.25000"), (1, *b"10.50000")];
    let line = assemble_row(&received, *b"01:02:05").unwrap();
    assert_eq!(line, line_of(b"01:02:05,10.50000,-3.25000"));
}

#[test]
fn missing_columns_leave_empty_fields() {
    let readings: Vec<Reading> = vec![(3, *b"abc\0\0\0\0\0")];
    let line = build_line(&readings).unwrap();
    assert_eq!(line, line_of(b",,,abc"));
}

#[test]
fn zero_digits_are_kept_and_padding_dropped() {
    let readings: Vec<Reading> = vec![(0, *b"10:05:00"), (1, *b"12.5\0\0\0\0")];
    let line = build_line(&readings).unwrap();
    assert_eq!(line, line_of(b"10:05:00,12.5"));
}

#[test]
fn blank_readings_change_nothing() {
    let with_blank: Vec<Reading> = vec![(1, *b"xy\0\0\0\0\0\0"), (5, [0u8; 8]), (2, *b"z\0\0\0\0\0\0\0")];
    let without: Vec<Reading> = vec![(1, *b"xy\0\0\0\0\0\0"), (2, *b"z\0\0\0\0\0\0\0")];
    assert_eq!(build_line(&with_blank), build_line(&without));
}

#[test]
fn an_empty_row_is_a_zero_byte_and_a_newline() {
    let readings: Vec<Reading> = vec![];
    assert_eq!(build_line(&readings).unwrap(), line_of(b""));
}

#[test]
fn a_row_too_long_for_the_line_is_refused() {
    let readings: Vec<Reading> = vec![(200, *b"abcdefgh")];
    assert_eq!(build_line(&readings), None);
    let received: Vec<Reading> = vec![(141, *b"abcdefgh")];
    assert_eq!(assemble_row(&received, [0u8; 8]), None);
}

#[test]
fn a_row_that_just_fits_is_kept() {
    // 140 separators and 8 bytes: 148 bytes of text, plus the leading zero
    // byte and the newline, fill the line exactly.
    let readings: Vec<Reading> = vec![(140, *b"abcdefgh")];
    let line = build_line(&readings).unwrap();
    assert_eq!(line[0], 0);
    assert_eq!(line[140], b',');
    assert_eq!(line[141], b'a');
    assert_eq!(line[LINE_LENGTH - 1], b'\n');
    let readings: Vec<Reading> = vec![(141, *b"abcdefgh")];
    assert_eq!(build_line(&readings), None);
}

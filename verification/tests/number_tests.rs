use sail_tracker::number::write_number;
use sail_tracker::number::NumberWrite;

#[test]
fn writes_digits_around_the_decimal_point() {
    let mut buf = vec![0u8; 5];
    let r = write_number(&mut buf, 2, 123);
    assert_eq!(r, NumberWrite::Written { leftover: 0 });
    assert_eq!(buf, b"01.23".to_vec());
}

#[test]
fn refuses_a_buffer_too_small_for_the_decimal_places() {
    let mut buf = vec![7u8, 7];
    let r = write_number(&mut buf, 2, 5);
    assert_eq!(r, NumberWrite::BufferTooSmall);
    assert_eq!(buf, vec![7, 7]);
}

#[test]
fn buffer_length_is_taken_modulo_256() {
    let mut buf = vec![0u8; 256];
    let r = write_number(&mut buf, 0, 9);
    assert_eq!(r, NumberWrite::BufferTooSmall);
    assert_eq!(buf, vec![0u8; 256]);
}

#[test]
fn fills_every_position_of_the_buffer() {
    let mut buf = vec![0u8; 4];
    let r = write_number(&mut buf, 1, 254);
    assert_eq!(r, NumberWrite::Written { leftover: 0 });
    assert_eq!(buf, b"25.4".to_vec());
}

#[test]
fn digits_without_a_place_are_leftover() {
    let mut buf = vec![0u8, 0];
    let r = write_number(&mut buf, 0, 123);
    assert_eq!(r, NumberWrite::Written { leftover: 1 });
    assert_eq!(buf, b"23".to_vec());
}

#[test]
fn existing_decimal_points_are_skipped() {
    let mut buf = vec![0u8, b'.', 0];
    let r = write_number(&mut buf, 0, 45);
    assert_eq!(r, NumberWrite::Written { leftover: 0 });
    assert_eq!(buf, b"4.5".to_vec());
}

#[test]
fn short_numbers_are_padded_with_zero_digits() {
    let mut buf = vec![b'x'; 6];
    let r = write_number(&mut buf, 1, 7);
    assert_eq!(r, NumberWrite::Written { leftover: 0 });
    assert_eq!(buf, b"0000.7".to_vec());
}

#[test]
fn digits_and_leftover_give_back_the_value() {
    // 255 in a buffer with two digit places: digits "55", leftover 2.
    let mut buf = vec![0u8; 2];
    let r = write_number(&mut buf, 0, 255);
    assert_eq!(r, NumberWrite::Written { leftover: 2 });
    assert_eq!(buf, b"55".to_vec());
    let digits = ((buf[0] - b'0') as u32) * 10 + (buf[1] - b'0') as u32;
    assert_eq!(2 * 100 + digits, 255);
}

use sail_tracker::gps::gpgga_sentences;
use sail_tracker::gps::gps_readings;
use sail_tracker::gps::is_gpgga;
use sail_tracker::gps::latitude_negated;
use sail_tracker::gps::longitude_negated;
use sail_tracker::gps::parse_gpgga;
use sail_tracker::gps::split;
use sail_tracker::gps::text_cell;
use sail_tracker::gps::utc_time_cell;
use sail_tracker::gps::GPS_BUF_SIZE;

const SENTENCE: &[u8] = b"$GPGGA,113727.00,4303.16727,N,08612.65632,W,1,07,1.43,197.6,M,-34.5,M,,*60\r";

fn fields_of(s: &[u8]) -> Vec<Vec<u8>> {
    split(&s.to_vec(), b',')
}

#[test]
fn splits_into_fifteen_slots() {
    let r = split(&b"a,b,,c".to_vec(), b',');
    assert_eq!(r.len(), 15);
    assert_eq!(r[0], b"a".to_vec());
    assert_eq!(r[1], b"b".to_vec());
    assert_eq!(r[2], Vec::<u8>::new());
    assert_eq!(r[3], b"c".to_vec());
    for piece in &r[4..] {
        assert!(piece.is_empty());
    }
}

#[test]
fn keeps_only_the_first_fifteen_pieces() {
    let r = split(&b"0,1,2,3,4,5,6,7,8,9,10,11,12,13,14,15,16".to_vec(), b',');
    assert_eq!(r.len(), 15);
    assert_eq!(r[14], b"14".to_vec());
}

#[test]
fn recognises_a_complete_gga_sentence() {
    assert!(is_gpgga(&fields_of(SENTENCE)));
    assert!(!is_gpgga(&fields_of(b"$GPRMC,113727.00,A,4303.16727,N,08612.65632,W,0.1,,,,,,,*7A")));
    assert!(!is_gpgga(&fields_of(b"$GPGGA,113727.00,4303.16727,N")));
}

#[test]
fn finds_the_gga_sentences_of_a_read() {
    let mut buffer = vec![0u8; GPS_BUF_SIZE];
    let mut text = b"$GPRMC,1,2\n".to_vec();
    text.extend_from_slice(SENTENCE);
    text.push(b'\n');
    buffer[..text.len()].copy_from_slice(&text);
    let sentences = gpgga_sentences(&buffer);
    assert_eq!(sentences.len(), 1);
    assert_eq!(sentences[0], fields_of(SENTENCE));
    assert_eq!(sentences[0][9], b"197.6".to_vec());
}

#[test]
fn an_empty_read_has_no_sentences() {
    assert!(gpgga_sentences(&vec![0u8; GPS_BUF_SIZE]).is_empty());
}

#[test]
fn time_cell_of_a_fix() {
    assert_eq!(utc_time_cell(&b"113727.00".to_vec()), *b"11:37:27");
}

#[test]
fn text_cells_pad_or_refuse() {
    assert_eq!(text_cell(&b"M".to_vec()), Some(*b"M\0\0\0\0\0\0\0"));
    assert_eq!(text_cell(&b"12345678".to_vec()), Some(*b"12345678"));
    assert_eq!(text_cell(&b"123456789".to_vec()), None);
}

#[test]
fn hemispheres() {
    let north_west = fields_of(SENTENCE);
    assert!(!latitude_negated(&north_west));
    assert!(longitude_negated(&north_west));
    let south = fields_of(b"$GPGGA,113727.00,4303.16727,S,08612.65632,E,1,07,1.43,197.6,M,-34.5,M,,*60");
    assert!(latitude_negated(&south));
    assert!(!longitude_negated(&south));
}

#[test]
fn builds_a_fix_and_its_readings() {
    let fields = fields_of(SENTENCE);
    let lat = Some(*b"43.05279");
    let long = Some(*b"86.21094");
    let fix = parse_gpgga(&fields, lat, long).unwrap();
    assert_eq!(fix.date_time, *b"11:37:27");
    assert_eq!(fix.altitude, b"197.6".to_vec());
    assert_eq!(fix.altitude_units, b"M".to_vec());
    let readings = gps_readings(&fix).unwrap();
    assert_eq!(
        readings,
        vec![
            (0, *b"11:37:27"),
            (4, *b"43.05279"),
            (5, *b"86.21094"),
            (6, *b"197.6\0\0\0"),
            (7, *b"M\0\0\0\0\0\0\0"),
        ]
    );
}

#[test]
fn no_fix_without_coordinates() {
    let fields = fields_of(SENTENCE);
    assert!(parse_gpgga(&fields, None, Some([1; 8])).is_none());
    assert!(parse_gpgga(&fields, Some([1; 8]), None).is_none());
}

#[test]
fn a_long_altitude_is_copied_but_not_queued() {
    let long_altitude =
        fields_of(b"$GPGGA,113727.00,4303.16727,N,08612.65632,W,1,07,1.43,12345.678,M,-34.5,M,,*60");
    let fix = parse_gpgga(&long_altitude, Some([1; 8]), Some([1; 8])).unwrap();
    assert_eq!(fix.altitude, b"12345.678".to_vec());
    assert!(gps_readings(&fix).is_none());
}

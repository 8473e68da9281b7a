use sail_tracker::clock::buf_time_now;
use sail_tracker::clock::sec_to_time;
use sail_tracker::clock::time_buffer;
use sail_tracker::clock::RTCWrapper;
use sail_tracker::clock::Stamp;

#[test]
fn splits_seconds_into_hours_minutes_seconds() {
    assert_eq!(sec_to_time(3725), (1, 2, 5));
    assert_eq!(sec_to_time(0), (0, 0, 0));
    assert_eq!(sec_to_time(3603), (1, 0, 3));
    assert_eq!(sec_to_time(86399), (23, 59, 59));
}

#[test]
fn hours_minutes_seconds_add_back_up_below_256_hours() {
    for s in (0u64..256 * 3600).step_by(7) {
        let (h, m, sec) = sec_to_time(s);
        assert!(m < 60 && sec < 60);
        assert_eq!(h as u64 * 3600 + m as u64 * 60 + sec as u64, s);
    }
}

#[test]
fn later_moments_never_show_an_earlier_time() {
    let mut last = sec_to_time(0);
    for s in 1u64..86_400 {
        let now = sec_to_time(s);
        assert!(now > last);
        last = now;
    }
}

#[test]
fn saturates_past_255_hours() {
    assert_eq!(sec_to_time(256 * 3600), (255, 60, 0));
    assert_eq!(sec_to_time(260 * 3600), (255, 255, 255));
    assert_eq!(sec_to_time(u64::MAX), (255, 255, 255));
}

#[test]
fn time_cell_reads_hh_mm_ss() {
    assert_eq!(time_buffer(3725), *b"01:02:05");
    assert_eq!(time_buffer(13 * 3600 + 47 * 60 + 38), *b"13:47:38");
    assert_eq!(time_buffer(0), *b"00:00:00");
    assert_eq!(time_buffer(10 * 3600 + 5 * 60), *b"10:05:00");
}

#[test]
fn time_cell_keeps_the_last_two_digits_of_long_hours() {
    assert_eq!(time_buffer(123 * 3600 + 4 * 60 + 56), *b"23:04:56");
}

#[test]
fn time_cell_now_has_the_same_shape() {
    let cell = buf_time_now();
    assert_eq!(cell[2], b':');
    assert_eq!(cell[5], b':');
    for i in [0, 1, 3, 4, 6, 7] {
        assert!(cell[i].is_ascii_digit());
    }
}

#[test]
fn stamps_files_with_the_time_since_boot() {
    let clock = RTCWrapper::new();
    assert_eq!(
        clock.timestamp_at(3725),
        Stamp {
            year_since_1970: 55,
            zero_indexed_month: 8,
            zero_indexed_day: 18,
            hours: 1,
            minutes: 2,
            seconds: 5
        }
    );
}

#[test]
fn falls_back_when_the_time_is_no_time_of_day() {
    let clock = RTCWrapper::new();
    let fallback = Stamp {
        year_since_1970: 55,
        zero_indexed_month: 6,
        zero_indexed_day: 27,
        hours: 0,
        minutes: 0,
        seconds: 0,
    };
    assert_eq!(clock.timestamp_at(24 * 3600), fallback);
    assert_eq!(clock.timestamp_at(u64::MAX), fallback);
}

#[test]
fn present_timestamp_is_in_2025() {
    let stamp = RTCWrapper::new().get_timestamp();
    assert_eq!(stamp.year_since_1970, 55);
    assert!(stamp.hours <= 23 && stamp.minutes <= 59 && stamp.seconds <= 59);
}

use time_display::bulk::{file_digit_width, frame_index_text, frame_times};
use time_display::time::Time;

#[test]
fn frame_times_counts_whole_frames() {
    // One second at fifty frames per second: exactly fifty frames.
    let frames = frame_times(Time::from_micros(1_000_000), Time::from_micros(20_000));
    assert_eq!(frames.len(), 50);
    assert_eq!(frames[0].ticks(), 0);
    assert_eq!(frames[1].ticks(), 20_000);
    assert_eq!(frames[49].ticks(), 49 * 20_000);
}

#[test]
fn frame_times_rounds_up() {
    // A step that does not divide the length evenly: the count is the
    // quotient rounded up, and every frame time is strictly below the end.
    let frames = frame_times(Time::from_micros(1_000_000), Time::from_micros(16_666));
    assert_eq!(frames.len(), 61);
    assert!(frames[60].ticks() < 1_000_000);
}

#[test]
fn frame_times_empty_interval() {
    let frames = frame_times(Time::zero(), Time::from_micros(20_000));
    assert_eq!(frames.len(), 0);
}

#[test]
fn digit_width_is_one_plus_floor_log10() {
    assert_eq!(file_digit_width(1), 1);
    assert_eq!(file_digit_width(9), 1);
    assert_eq!(file_digit_width(10), 2);
    assert_eq!(file_digit_width(50), 2);
    assert_eq!(file_digit_width(99), 2);
    assert_eq!(file_digit_width(100), 3);
    assert_eq!(file_digit_width(u64::MAX), 20);
}

#[test]
fn frame_names_are_zero_padded() {
    assert_eq!(frame_index_text(42, 6), "000042");
    assert_eq!(frame_index_text(0, 2), "00");
    assert_eq!(frame_index_text(7, 1), "7");
    // An index wider than the field keeps all its digits.
    assert_eq!(frame_index_text(1234, 2), "1234");
}

#[test]
fn one_second_batch_names() {
    // Fifty frames need two digits each: "00" through "49".
    let frames = frame_times(Time::from_micros(1_000_000), Time::from_micros(20_000));
    let width = file_digit_width(frames.len() as u64);
    assert_eq!(width, 2);
    assert_eq!(frame_index_text(0, width), "00");
    assert_eq!(frame_index_text(49, width), "49");
}

use taffle::duration::{clock, Duration, Seconds};

/// The samples `text` comes to at 48 kHz, where it is a duration at all.
fn samples(text: &str) -> u64 {
    let seconds: Seconds = text.parse().expect("a duration");

    seconds.to_samples_48k()
}

#[test]
fn seconds_are_seconds_and_the_thousandths_behind_them() {
    assert_eq!(samples("0"), 0);
    assert_eq!(samples("4.4"), 211_200);
    assert_eq!(samples("0.5"), 24_000);
    // A whole hour typed as seconds is an hour: what a single component states is not bounded
    // by anything, since there is no component in front of it for it to have run over into.
    assert_eq!(samples("3600"), 172_800_000);
}

#[test]
fn minutes_and_seconds_are_the_clock_they_look_like() {
    assert_eq!(samples("12:34"), 754 * 48_000);
    assert_eq!(samples("0:00"), 0);
    assert_eq!(samples("1:02:10.5"), 179_064_000);
    assert_eq!(samples("0:00:01"), 48_000);
}

#[test]
fn the_component_a_duration_begins_with_counts_as_far_as_it_likes() {
    // 90 minutes is an hour and a half, and nothing in front of the minutes says otherwise: a
    // component is bounded by the one to its left, and the leftmost has none. Which is what
    // lets a chapter list be typed in minutes throughout rather than in hours from 60 on.
    assert_eq!(samples("90:00"), 5_400 * 48_000);
    assert_eq!(samples("100:00:00"), 360_000 * 48_000);
}

#[test]
fn a_component_that_ran_over_into_the_one_in_front_of_it_is_no_duration() {
    // 99 seconds is a minute and 39 seconds, and somebody who typed it into the seconds of a
    // clock meant something else — so it is refused rather than read as either.
    for text in ["1:99", "1:60", "0:00:60", "0:60:00"] {
        assert!(text.parse::<Seconds>().is_err(), "{text} parsed");
    }
}

#[test]
fn what_is_no_clock_and_no_number_is_no_duration() {
    let refused = [
        // One component more than a clock has, and none at all.
        "1:2:3:4",
        "",
        "abc",
        // A component of nothing, which is what a stray colon leaves.
        ":30",
        "1:",
        "1::2",
        // A point with no thousandths behind it, or in a component that has no thousandths.
        "4.",
        ".4",
        "4.4.4",
        "1:2.5:3",
        // Every way a number can be typed that is not the digits of one.
        "-3",
        "+3",
        " 4",
        "4 ",
        "0x10",
        "1e3",
        "inf",
        "NaN",
        "1_000",
        // More seconds than a count of them holds, whichever component states them.
        "99999999999999999999",
        "999999999999999999:00",
        "307445734561825860:16",
    ];

    for text in refused {
        assert!(text.parse::<Seconds>().is_err(), "{text} parsed");
    }
}

#[test]
fn a_duration_that_is_no_duration_says_what_was_typed() {
    let error = "1:99".parse::<Seconds>().expect_err("no duration");

    assert_eq!(error.message(), "invalid duration '1:99'");
}

#[test]
fn a_frame_is_the_nearest_one_to_the_time_that_was_typed() {
    // 4.4 seconds is 211 199.999… frames the way a float holds it, and the frame it means is
    // the one it is a hair short of rather than the one before that.
    assert_eq!(samples("4.4"), 211_200);
    // A time inside a frame is the frame it is nearest to, which is where a duration finer
    // than the audio it is about ends up.
    assert_eq!(samples("0.00001"), 0);
    assert_eq!(samples("0.00002"), 1);
    // Thousandths finer than a float holds are the float they round to, which is a duration
    // like any other and not something to refuse.
    assert_eq!(samples("0.99999999999999999999"), 48_000);
}

#[test]
fn a_clock_shows_the_hours_a_length_has_and_no_more() {
    assert_eq!(clock(Duration::from_secs(0)), "0:00");
    assert_eq!(clock(Duration::from_secs(10)), "0:10");
    assert_eq!(clock(Duration::from_secs(754)), "12:34");
    assert_eq!(clock(Duration::from_secs(3_730)), "1:02:10");
    assert_eq!(clock(Duration::from_secs(360_000)), "100:00:00");
    // What is not a whole second yet has not been played yet.
    assert_eq!(clock(Duration::from_millis(1_999)), "0:01");
}

#[test]
fn what_a_clock_shows_reads_back_as_what_it_shows() {
    for secs in [0, 59, 60, 754, 3_599, 3_600, 3_730, 360_000, 384_307_168_202_282] {
        assert_eq!(samples(&clock(Duration::from_secs(secs))), secs * 48_000);
    }
}

#[test]
fn a_time_longer_than_frames_are_counted_is_as_many_of_them_as_are() {
    assert_eq!(samples("384307168202283"), u64::MAX);
    assert_eq!(samples("18446744073709551615"), u64::MAX);
}

#[test]
fn a_length_is_its_whole_seconds_and_the_nanoseconds_behind_them() {
    let length = Duration::from_millis(61_250);

    assert_eq!((length.as_secs(), length.subsec_nanos()), (61, 250_000_000));
    assert_eq!(length, Duration::new(61, 250_000_000));
}

//! Curve, envelope and clip-splitter behaviour on concrete data.

use tuber::envelope::{
    construct_segments, find_segment, multisample_segments, sample_segments, AutomationPoint,
    KeyframeError, SampleError,
};
use tuber::pattern::{build_patterns, split_envelopes_by_locators, Marker};

fn plain(time: i64, value: i64) -> AutomationPoint {
    AutomationPoint {
        time,
        value,
        curve_control_1x: None,
        curve_control_1y: None,
        curve_control_2x: None,
        curve_control_2y: None,
    }
}

fn with_controls(time: i64, value: i64, c1x: i64, c1y: i64, c2x: i64, c2y: i64) -> AutomationPoint {
    AutomationPoint {
        time,
        value,
        curve_control_1x: Some(c1x),
        curve_control_1y: Some(c1y),
        curve_control_2x: Some(c2x),
        curve_control_2y: Some(c2y),
    }
}

#[test]
fn curve_passes_through_endpoints() {
    let points = vec![plain(0, 0), plain(10, 1000)];
    let curves = construct_segments(&points).unwrap();
    assert_eq!(curves.len(), 1);
    assert_eq!(curves[0].evaluate(0), 0);
    assert_eq!(curves[0].evaluate(1000), 1000);
}

#[test]
fn unit_controls_give_straight_line_midpoint() {
    let points = vec![with_controls(0, 0, 0, 0, 1000, 1000), plain(10, 1000)];
    let curves = construct_segments(&points).unwrap();
    assert_eq!(curves.len(), 1);
    assert_eq!(curves[0].evaluate(500), 500);
}

#[test]
fn endpoints_hold_with_explicit_overshoot_controls() {
    let points = vec![with_controls(0, 100, 500, 2000, 500, -2000), plain(10, 900)];
    let curves = construct_segments(&points).unwrap();
    assert_eq!(curves[0].evaluate(0), 100);
    assert_eq!(curves[0].evaluate(1000), 900);
}

#[test]
fn find_segment_picks_latest_at_or_before() {
    let points = vec![plain(0, 0), plain(10, 100), plain(20, 200), plain(30, 300)];
    let curves = construct_segments(&points).unwrap();
    assert_eq!(curves.len(), 3);
    assert!(find_segment(-5, &curves).is_none());
    assert_eq!(find_segment(0, &curves).unwrap().start_point().time, 0);
    assert_eq!(find_segment(5, &curves).unwrap().start_point().time, 0);
    assert_eq!(find_segment(10, &curves).unwrap().start_point().time, 10);
    assert_eq!(find_segment(15, &curves).unwrap().start_point().time, 10);
    assert_eq!(find_segment(20, &curves).unwrap().start_point().time, 20);
    assert_eq!(find_segment(25, &curves).unwrap().start_point().time, 20);
    assert_eq!(find_segment(35, &curves).unwrap().start_point().time, 20);
}

#[test]
fn sample_round_trip_hits_near_half() {
    // keyframes (0, 0) and (10, 1) in whole units: half way is about 0.5
    let points = vec![plain(0, 0), plain(10, 1000)];
    let curves = construct_segments(&points).unwrap();
    assert_eq!(sample_segments(5, &curves).unwrap(), 496);
}

#[test]
fn sample_outside_coverage_is_an_error() {
    let points = vec![plain(0, 0), plain(10, 1000)];
    let curves = construct_segments(&points).unwrap();
    assert_eq!(sample_segments(-1, &curves), Err(SampleError::OutOfRangeSample));
    assert_eq!(sample_segments(11, &curves), Err(SampleError::OutOfRangeSample));
    assert_eq!(sample_segments(10, &curves).unwrap(), 1000);
    let empty: Vec<tuber::curve::Curve> = Vec::new();
    assert_eq!(sample_segments(0, &empty), Err(SampleError::OutOfRangeSample));
}

#[test]
fn fewer_than_two_keyframes_build_an_empty_envelope() {
    let none: Vec<AutomationPoint> = Vec::new();
    assert_eq!(construct_segments(&none).unwrap().len(), 0);
    let one = vec![plain(3, 700)];
    assert_eq!(construct_segments(&one).unwrap().len(), 0);
}

#[test]
fn mixed_controls_are_invalid() {
    let mut bad = plain(0, 0);
    bad.curve_control_1x = Some(500);
    let points = vec![bad, plain(10, 1000)];
    assert_eq!(
        construct_segments(&points),
        Err(KeyframeError::InvalidKeyframe { index: 0 })
    );
}

#[test]
fn shared_timestamp_is_a_zero_length_segment() {
    let points = vec![plain(5, 0), plain(5, 1000)];
    assert_eq!(
        construct_segments(&points),
        Err(KeyframeError::ZeroLengthSegment { index: 0 })
    );
}

#[test]
fn multisample_visits_each_time() {
    let points = vec![plain(0, 0), plain(10, 1000)];
    let curves = construct_segments(&points).unwrap();
    let samples = multisample_segments(&vec![0, 5, 10], &curves).unwrap();
    assert_eq!(samples.len(), 3);
    assert_eq!((samples[0].time, samples[0].value), (0, 0));
    assert_eq!((samples[1].time, samples[1].value), (5, 496));
    assert_eq!((samples[2].time, samples[2].value), (10, 1000));
    assert_eq!(
        multisample_segments(&vec![0, 99], &curves),
        Err(SampleError::OutOfRangeSample)
    );
}

fn three_markers() -> Vec<Marker> {
    vec![
        Marker { time: 0, name: "0".to_string() },
        Marker { time: 10, name: "10".to_string() },
        Marker { time: 20, name: "20".to_string() },
    ]
}

#[test]
fn split_clip_samples_like_the_unsplit_envelope() {
    let points = vec![plain(0, 0), plain(10, 1000), plain(20, 0)];
    let curves = construct_segments(&points).unwrap();
    let envelopes = vec![("level".to_string(), curves.clone())];
    let patterns = split_envelopes_by_locators(&envelopes, &three_markers());
    let first = patterns.iter().find(|p| p.0 == "0").expect("clip 0 missing");
    let frame = first.1.at_time(5);
    assert_eq!(frame.len(), 1);
    assert_eq!(frame[0].0, "level");
    assert_eq!(frame[0].1, sample_segments(5, &curves).unwrap());
    assert_eq!(frame[0].1, 496);
}

#[test]
fn split_clip_durations_and_names() {
    let points = vec![plain(0, 0), plain(20, 1000)];
    let curves = construct_segments(&points).unwrap();
    let envelopes = vec![("level".to_string(), curves)];
    let patterns = split_envelopes_by_locators(&envelopes, &three_markers());
    assert_eq!(patterns.len(), 2);
    for (name, pattern) in &patterns {
        assert!(name == "0" || name == "10");
        assert_eq!(pattern.length, 10);
    }
}

#[test]
fn split_with_too_few_markers_yields_nothing() {
    let points = vec![plain(0, 0), plain(10, 1000)];
    let curves = construct_segments(&points).unwrap();
    let envelopes = vec![("level".to_string(), curves)];
    let one = vec![Marker { time: 0, name: "only".to_string() }];
    assert_eq!(split_envelopes_by_locators(&envelopes, &one).len(), 0);
    let none: Vec<Marker> = Vec::new();
    assert_eq!(split_envelopes_by_locators(&envelopes, &none).len(), 0);
}

#[test]
fn second_clip_shifts_time_to_zero() {
    let points = vec![plain(0, 0), plain(10, 1000), plain(20, 0)];
    let curves = construct_segments(&points).unwrap();
    let envelopes = vec![("level".to_string(), curves.clone())];
    let patterns = split_envelopes_by_locators(&envelopes, &three_markers());
    let second = patterns.iter().find(|p| p.0 == "10").expect("clip 10 missing");
    let frame = second.1.at_time(5);
    assert_eq!(frame.len(), 1);
    assert_eq!(frame[0].1, sample_segments(15, &curves).unwrap());
}

#[test]
fn build_patterns_composes_builder_and_splitter() {
    let parameters = vec![
        ("level".to_string(), vec![plain(0, 0), plain(10, 1000), plain(20, 0)]),
        ("color".to_string(), vec![plain(0, 500), plain(20, 500)]),
    ];
    let patterns = build_patterns(&parameters, &three_markers()).unwrap();
    assert_eq!(patterns.len(), 2);
    let first = patterns.iter().find(|p| p.0 == "0").unwrap();
    let frame = first.1.at_time(5);
    assert_eq!(frame.len(), 2);
    assert_eq!(frame[0].0, "level");
    assert_eq!(frame[0].1, 496);
    assert_eq!(frame[1].0, "color");
    assert_eq!(frame[1].1, 500);
}

#[test]
fn build_patterns_names_the_faulty_parameter() {
    let parameters = vec![
        ("good".to_string(), vec![plain(0, 0), plain(10, 1000)]),
        ("bad".to_string(), vec![plain(5, 0), plain(5, 1000)]),
    ];
    let err = build_patterns(&parameters, &three_markers()).unwrap_err();
    assert_eq!(err.0, "bad");
    assert_eq!(err.1, KeyframeError::ZeroLengthSegment { index: 0 });
}

#[test]
fn pattern_omits_parameters_outside_coverage() {
    let parameters = vec![
        ("short".to_string(), vec![plain(0, 0), plain(3, 1000)]),
        ("long".to_string(), vec![plain(0, 0), plain(20, 1000)]),
    ];
    let patterns = build_patterns(&parameters, &three_markers()).unwrap();
    let first = patterns.iter().find(|p| p.0 == "0").unwrap();
    let frame = first.1.at_time(7);
    // the short parameter's envelope ends at time 3 and is omitted at 7
    assert_eq!(frame.len(), 1);
    assert_eq!(frame[0].0, "long");
}

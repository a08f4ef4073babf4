//! Frame blending, projection, show merging and rig helpers on concrete
//! data.

use tuber::envelope::construct_segments;
use tuber::envelope::AutomationPoint;
use tuber::frame::{combine, frame_from_values, project_frame, Frame};
use tuber::pattern::{split_envelopes_by_locators, Marker};
use tuber::rig::{fader_to_char, levels_to_graph, set_values_message, EW3_LIGHT_MAP};
use tuber::shows::ShowsManager;

fn frame(entries: &[(&str, u8)]) -> Frame {
    Frame {
        channels: entries.iter().map(|(n, v)| (n.to_string(), *v)).collect(),
    }
}

fn channel(f: &Frame, name: &str) -> Option<u8> {
    f.channels.iter().find(|c| c.0 == name).map(|c| c.1)
}

#[test]
fn combine_adds_matching_channels() {
    let a = frame(&[("a", 100)]);
    let b = frame(&[("a", 100)]);
    let r = combine(Some(&a), Some(&b), 1000, 1000, 500);
    assert_eq!(r.channels.len(), 1);
    assert_eq!(channel(&r, "a"), Some(200));
}

#[test]
fn combine_saturates_at_full_intensity() {
    let a = frame(&[("a", 200)]);
    let b = frame(&[("a", 200)]);
    let r = combine(Some(&a), Some(&b), 1000, 1000, 500);
    assert_eq!(channel(&r, "a"), Some(255));
}

#[test]
fn combine_with_one_side_missing_keeps_the_other() {
    let b = frame(&[("a", 50)]);
    let r = combine(None, Some(&b), 1000, 1000, 1000);
    assert_eq!(r.channels.len(), 1);
    assert_eq!(channel(&r, "a"), Some(50));
}

#[test]
fn combine_with_both_missing_is_empty() {
    let r = combine(None, None, 1000, 1000, 500);
    assert_eq!(r.channels.len(), 0);
}

#[test]
fn crossfader_extremes_silence_the_far_track() {
    let b = frame(&[("a", 100)]);
    let r = combine(None, Some(&b), 1000, 1000, 0);
    assert_eq!(channel(&r, "a"), Some(0));
    let a = frame(&[("a", 100)]);
    let r2 = combine(Some(&a), None, 1000, 1000, 1000);
    assert_eq!(channel(&r2, "a"), Some(0));
    let r3 = combine(Some(&a), None, 1000, 1000, 0);
    assert_eq!(channel(&r3, "a"), Some(100));
}

#[test]
fn combine_unions_disjoint_channels() {
    let a = frame(&[("a", 40)]);
    let b = frame(&[("b", 60)]);
    let r = combine(Some(&a), Some(&b), 1000, 1000, 500);
    assert_eq!(r.channels.len(), 2);
    assert_eq!(channel(&r, "a"), Some(40));
    assert_eq!(channel(&r, "b"), Some(60));
}

#[test]
fn faders_scale_their_own_side() {
    let a = frame(&[("a", 100)]);
    let b = frame(&[("a", 100)]);
    let r = combine(Some(&a), Some(&b), 500, 1000, 500);
    // half fader on the first track: 50 + 100
    assert_eq!(channel(&r, "a"), Some(150));
}

#[test]
fn values_clamp_and_scale_to_channel_space() {
    let values = vec![
        ("full".to_string(), 1000i64),
        ("half".to_string(), 500i64),
        ("low".to_string(), -20i64),
        ("high".to_string(), 1500i64),
    ];
    let f = frame_from_values(&values);
    assert_eq!(channel(&f, "full"), Some(255));
    assert_eq!(channel(&f, "half"), Some(127));
    assert_eq!(channel(&f, "low"), Some(0));
    assert_eq!(channel(&f, "high"), Some(255));
}

#[test]
fn projection_drops_unmapped_names_and_zero_fills() {
    let map = EW3_LIGHT_MAP();
    let f = frame(&[("C1L0", 10), ("T0", 20), ("UNKNOWN", 9)]);
    let out = project_frame(&f, &map);
    assert_eq!(out.len(), 33);
    assert_eq!(out[0], 10);
    assert_eq!(out[32], 20);
    for k in 1..32 {
        assert_eq!(out[k], 0);
    }
}

#[test]
fn projection_of_an_unmapped_frame_is_empty() {
    let map = EW3_LIGHT_MAP();
    let f = frame(&[("NOWHERE", 9)]);
    assert_eq!(project_frame(&f, &map).len(), 0);
}

#[test]
fn rig_map_names_and_channels() {
    let map = EW3_LIGHT_MAP();
    assert_eq!(map.len(), 52);
    assert_eq!(map[0], ("C1L0".to_string(), 0));
    assert_eq!(map[31], ("C4L7".to_string(), 31));
    assert_eq!(map[32], ("T0".to_string(), 32));
    assert_eq!(map[51], ("T19".to_string(), 51));
}

#[test]
fn levels_render_as_block_glyphs() {
    let s = levels_to_graph(&vec![0, 32, 255]);
    assert_eq!(s, " \u{2581}\u{2587}");
}

#[test]
fn fader_positions_render_as_block_glyphs() {
    assert_eq!(fader_to_char(0), ' ');
    assert_eq!(fader_to_char(500), '\u{2584}');
    assert_eq!(fader_to_char(1000), '\u{2588}');
}

#[test]
fn device_message_packs_values_little_endian() {
    let mut values: Vec<u16> = vec![0; 16];
    values[0] = 0x1234;
    values[15] = 0x0aff;
    let msg = set_values_message(&values);
    assert_eq!(msg.len(), 65);
    assert_eq!(msg[0], 0x06);
    assert_eq!(msg[1], 0);
    assert_eq!(msg[2], 0);
    assert_eq!(msg[3], 0x34);
    assert_eq!(msg[4], 0x12);
    assert_eq!(msg[63], 0xff);
    assert_eq!(msg[64], 0x0a);
}

fn plain(time: i64, value: i64) -> AutomationPoint {
    AutomationPoint {
        time,
        value,
        curve_control_1x: None,
        curve_control_1y: None,
        curve_control_2x: None,
        curve_control_2y: None,
    }
}

fn demo_source(clip: &str) -> Vec<(String, tuber::pattern::LightingPattern)> {
    let points = vec![plain(0, 0), plain(10, 1000)];
    let curves = construct_segments(&points).unwrap();
    let envelopes = vec![("level".to_string(), curves)];
    let markers = vec![
        Marker { time: 0, name: clip.to_string() },
        Marker { time: 10, name: format!("{}-end", clip) },
    ];
    split_envelopes_by_locators(&envelopes, &markers)
}

#[test]
fn duplicate_clip_names_across_sources_fail_with_both_sources() {
    let sources = vec![
        ("one.als".to_string(), demo_source("A")),
        ("two.als".to_string(), demo_source("A")),
    ];
    let err = ShowsManager::from_shows(sources).unwrap_err();
    assert_eq!(err.name, "A");
    assert_eq!(err.sources, vec!["one.als".to_string(), "two.als".to_string()]);
}

#[test]
fn disjoint_sources_merge() {
    let sources = vec![
        ("one.als".to_string(), demo_source("A")),
        ("two.als".to_string(), demo_source("B")),
    ];
    let manager = ShowsManager::from_shows(sources).unwrap();
    assert_eq!(manager.shows.len(), 2);
    let frame = manager.get_frame(&"A".to_string(), 5);
    assert_eq!(frame.len(), 1);
    assert_eq!(frame[0].0, "level");
    assert_eq!(frame[0].1, 496);
    assert_eq!(manager.get_frame(&"MISSING".to_string(), 5).len(), 0);
}

#[test]
fn combined_frame_blends_two_playing_tracks() {
    let sources = vec![
        ("one.als".to_string(), demo_source("A")),
        ("two.als".to_string(), demo_source("B")),
    ];
    let manager = ShowsManager::from_shows(sources).unwrap();
    let a = "A".to_string();
    let b = "B".to_string();
    // both tracks at full fader, centre crossfade, both at time 5:
    // each contributes level 496 of 1000, which is 126 in channel space
    let r = manager.get_combined_frame(Some(&a), 5, Some(&b), 5, 1000, 1000, 500);
    assert_eq!(channel(&r, "level"), Some(252));
    // a missing show on one side leaves the other side alone
    let r2 = manager.get_combined_frame(Some(&a), 5, None, 0, 1000, 1000, 0);
    assert_eq!(channel(&r2, "level"), Some(126));
    let r3 = manager.get_combined_frame(None, 0, None, 0, 1000, 1000, 500);
    assert_eq!(r3.channels.len(), 0);
}

#[test]
fn little_endian_decoding() {
    assert_eq!(tuber::decode::le_u32(&vec![0x34, 0x12, 0x00, 0x00]), 0x1234);
    assert_eq!(tuber::decode::le_u32(&vec![0xff, 0xff, 0xff, 0xff]), u32::MAX);
    assert_eq!(
        tuber::decode::le_u64(&vec![0x01, 0x02, 0x03, 0x04, 0x05, 0x06, 0x07, 0x08]),
        0x0807060504030201
    );
    assert_eq!(tuber::decode::le_u64(&vec![0xff; 8]), u64::MAX);
}

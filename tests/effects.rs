use hue_flow_core::effects::{LightEffect, MultiBandEffect, PulseEffect};
use hue_flow_core::models::{parse_channel_id, AudioSpectrum, LightNode, LEVEL_MAX};

fn node(id: &str, x: i32, y: i32, z: i32) -> LightNode {
    LightNode { id: id.to_string(), x, y, z }
}

fn full() -> AudioSpectrum {
    AudioSpectrum { bass: LEVEL_MAX, mids: LEVEL_MAX, highs: LEVEL_MAX, energy: LEVEL_MAX }
}

#[test]
fn multiband_splits_six_channels_two_per_band() {
    let xs = [900_000, -100_000, -900_000, 500_000, 100_000, -500_000];
    let nodes: Vec<LightNode> = xs
        .iter()
        .enumerate()
        .map(|(i, &x)| node(&i.to_string(), x, 0, 0))
        .collect();
    let mut effect = MultiBandEffect::new();
    let colours = effect.update(&full(), &nodes);
    assert_eq!(colours.len(), 6);
    assert_eq!(colours[&2], (255, 0, 0));
    assert_eq!(colours[&5], (255, 0, 0));
    assert_eq!(colours[&1], (0, 255, 0));
    assert_eq!(colours[&4], (0, 255, 0));
    assert_eq!(colours[&3], (0, 0, 255));
    assert_eq!(colours[&0], (0, 0, 255));
}

#[test]
fn multiband_falls_back_to_id_mod_three() {
    let nodes: Vec<LightNode> = (0..4).map(|i| node(&i.to_string(), 0, 0, 0)).collect();
    let mut effect = MultiBandEffect::new();
    let colours = effect.update(&full(), &nodes);
    assert_eq!(colours.len(), 4);
    assert_eq!(colours[&0], (255, 0, 0));
    assert_eq!(colours[&1], (0, 255, 0));
    assert_eq!(colours[&2], (0, 0, 255));
    assert_eq!(colours[&3], (255, 0, 0));
}

#[test]
fn multiband_band_levels_scale_colour() {
    let nodes = vec![node("0", -500_000, 0, 0), node("1", 0, 0, 0), node("2", 500_000, 0, 0)];
    let audio = AudioSpectrum { bass: 5000, mids: 2500, highs: 20000, energy: 0 };
    let mut effect = MultiBandEffect::new();
    let colours = effect.update(&audio, &nodes);
    assert_eq!(colours[&0], (127, 0, 0));
    assert_eq!(colours[&1], (0, 63, 0));
    assert_eq!(colours[&2], (0, 0, 255));
}

#[test]
fn multiband_small_layouts() {
    let mut effect = MultiBandEffect::new();
    let one = vec![node("7", 0, 300_000, 0)];
    assert_eq!(effect.update(&full(), &one)[&7], (255, 0, 0));
    let two = vec![node("1", 200_000, 0, 0), node("2", -200_000, 0, 0)];
    let c = effect.update(&full(), &two);
    assert_eq!(c[&2], (255, 0, 0));
    assert_eq!(c[&1], (0, 255, 0));
    assert!(effect.update(&full(), &[]).is_empty());
}

#[test]
fn multiband_equal_x_keeps_layout_order() {
    let nodes = vec![node("5", 100_000, 0, 0), node("6", 100_000, 0, 0), node("7", 100_000, 0, 0)];
    let mut effect = MultiBandEffect::new();
    let c = effect.update(&full(), &nodes);
    assert_eq!(c[&5], (255, 0, 0));
    assert_eq!(c[&6], (0, 255, 0));
    assert_eq!(c[&7], (0, 0, 255));
}

#[test]
fn multiband_drops_unparsable_ids() {
    let nodes = vec![
        node("abc", -900_000, 0, 0),
        node("256", -500_000, 0, 0),
        node("3", 0, 0, 0),
        node("-1", 500_000, 0, 0),
    ];
    let mut effect = MultiBandEffect::new();
    let c = effect.update(&full(), &nodes);
    assert_eq!(c.len(), 1);
    assert_eq!(c[&3], (0, 255, 0));
}

#[test]
fn multiband_duplicate_id_last_in_x_order_wins() {
    let nodes = vec![node("4", 900_000, 0, 0), node("4", -900_000, 0, 0), node("1", 0, 0, 0)];
    let mut effect = MultiBandEffect::new();
    let c = effect.update(&full(), &nodes);
    assert_eq!(c.len(), 2);
    assert_eq!(c[&4], (0, 0, 255));
}

#[test]
fn pulse_scales_base_colour_by_bass_times_energy() {
    let mut effect = PulseEffect::new((255, 100, 50));
    let audio = AudioSpectrum { bass: LEVEL_MAX, mids: 0, highs: 0, energy: LEVEL_MAX / 2 };
    let nodes = vec![node("1", 0, 0, 0), node("2", 0, 0, 0), node("x", 0, 0, 0)];
    let c = effect.update(&audio, &nodes);
    assert_eq!(c.len(), 2);
    assert_eq!(c[&1], (127, 50, 25));
    assert_eq!(c[&2], (127, 50, 25));
}

#[test]
fn pulse_clamps_brightness() {
    let mut effect = PulseEffect::new((200, 100, 0));
    let audio = AudioSpectrum { bass: 60000, mids: 0, highs: 0, energy: 60000 };
    let c = effect.update(&audio, &[node("0", 0, 0, 0)]);
    assert_eq!(c[&0], (200, 100, 0));
    let dark = AudioSpectrum { bass: 0, mids: 0, highs: 0, energy: LEVEL_MAX };
    assert_eq!(effect.update(&dark, &[node("0", 0, 0, 0)])[&0], (0, 0, 0));
}

#[test]
fn channel_id_parsing() {
    assert_eq!(parse_channel_id("0"), Some(0));
    assert_eq!(parse_channel_id("255"), Some(255));
    assert_eq!(parse_channel_id("007"), Some(7));
    assert_eq!(parse_channel_id("+12"), Some(12));
    assert_eq!(parse_channel_id("256"), None);
    assert_eq!(parse_channel_id("99999999999"), None);
    assert_eq!(parse_channel_id(""), None);
    assert_eq!(parse_channel_id("+"), None);
    assert_eq!(parse_channel_id("-1"), None);
    assert_eq!(parse_channel_id(" 1"), None);
    assert_eq!(parse_channel_id("1a"), None);
}

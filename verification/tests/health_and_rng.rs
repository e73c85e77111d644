use game_of_life::health_color;
use game_of_life::health_color_with;
use game_of_life::health_rgb;
use game_of_life::HealthColor;
use game_of_life::Rng;

#[test]
fn hue_schedule_over_the_piecewise_bands() {
    // large-world midpoint 5000: bands at 833, 5000, 13350, 25000
    assert_eq!(health_color(0, 0).hue, 0);
    assert_eq!(health_color(832, 832).hue, 0);
    // linear climb from red to green
    assert_eq!(health_color(833, 833).hue, 0);
    assert_eq!(health_color(2916, 2916).hue, 39); // (2916 - 833) * 80 / 4167
    assert_eq!(health_color(4999, 4999).hue, 79);
    // thriving band is solid green
    assert_eq!(health_color(5000, 5000).hue, 80);
    assert_eq!(health_color(13349, 13349).hue, 80);
    // linear climb from green to cyan
    assert_eq!(health_color(13350, 13350).hue, 80);
    assert_eq!(health_color(24999, 24999).hue, 139); // 80 + (24999 - 13350) * 60 / 11650
    // overcrowded
    assert_eq!(health_color(25000, 25000).hue, 140);
    assert_eq!(health_color(1_000_000, 0).hue, 140);
}

#[test]
fn hue_is_monotone_in_population() {
    let mut last = 0u8;
    for pop in 0..30000u32 {
        let hue = health_color(pop, pop).hue;
        assert!(hue >= last);
        last = hue;
    }
}

#[test]
fn brightness_follows_the_rate_of_change() {
    // midpoint 5000: moderate above 500, large above 1666
    assert_eq!(health_color(6000, 6000).val, 8);
    assert_eq!(health_color(6000, 5500).val, 8);
    assert_eq!(health_color(6000, 5499).val, 20);
    assert_eq!(health_color(6000, 4334).val, 20);
    assert_eq!(health_color(6000, 4333).val, 40);
    assert_eq!(health_color(0, 50000).val, 40);
    assert_eq!(health_color(6000, 6000).sat, 255);
}

#[test]
fn small_world_midpoint_shifts_the_bands() {
    // midpoint 300: bands at 50, 300, 801, 1500
    assert_eq!(health_color_with(49, 49, 300).hue, 0);
    assert_eq!(health_color_with(300, 300, 300).hue, 80);
    assert_eq!(health_color_with(1500, 1500, 300).hue, 140);
    assert_eq!(
        health_color_with(100, 100, 300),
        HealthColor { hue: 16, sat: 255, val: 8 } // hue (100 - 50) * 80 / 250
    );
}

#[test]
fn led_color_comes_from_hsv_conversion() {
    // hue 80, sat 255, val 8 converts to pure dim green
    assert_eq!(health_rgb(8000, 8000), (0, 8, 0));
    // a grey LED would need zero saturation; with full saturation red stays red
    let (r, g, b) = health_rgb(0, 0); // hue 0, val 8
    assert_eq!((r, g, b), (8, 0, 0));
}

#[test]
fn led_color_matches_the_conversion_crate() {
    let ours = health_rgb(20000, 10000);
    let c = health_color(20000, 10000);
    let theirs = smart_leds::hsv::hsv2rgb(smart_leds::hsv::Hsv {
        hue: c.hue,
        sat: c.sat,
        val: c.val,
    });
    assert_eq!(ours, (theirs.r, theirs.g, theirs.b));
}

#[test]
fn xorshift_sequence_is_deterministic() {
    let mut rng = Rng::from_seed(0);
    // seed 0 is forced to 1; one round of xorshift32 on 1 gives 0x42021
    assert_eq!(rng.next(), 0x42021);
    let mut a = Rng::from_seed(7);
    let mut b = Rng::from_seed(7);
    for _ in 0..100 {
        assert_eq!(a.next(), b.next());
        assert_ne!(a.0, 0);
    }
}

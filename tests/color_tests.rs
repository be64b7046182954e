use softraster::color::{lerp_color, Color};
use softraster::fixed::ONE;
use softraster::geometry::{Fixed3, Fragment};
use softraster::shading::{apply_lambert, smoothstep};

#[test]
fn to_hex_packs_channels() {
    assert_eq!(Color::new(0x12, 0x34, 0x56).to_hex(), 0x123456);
    assert_eq!(Color::new(255, 255, 255).to_hex(), 0xFFFFFF);
    assert_eq!(Color::new(0, 0, 0).to_hex(), 0);
}

#[test]
fn lerp_endpoints() {
    let a = Color::new(10, 200, 30);
    let b = Color::new(250, 0, 31);
    assert_eq!(lerp_color(a, b, 0), a);
    assert_eq!(lerp_color(a, b, ONE), b);
}

#[test]
fn lerp_clamps_parameter() {
    let a = Color::new(10, 200, 30);
    let b = Color::new(250, 0, 31);
    assert_eq!(lerp_color(a, b, -5 * ONE), a);
    assert_eq!(lerp_color(a, b, 3 * ONE), b);
    assert_eq!(lerp_color(a, b, i64::MIN), a);
    assert_eq!(lerp_color(a, b, i64::MAX), b);
}

#[test]
fn lerp_midpoint_rounds() {
    let a = Color::new(0, 100, 255);
    let b = Color::new(255, 101, 0);
    // halfway: 127.5 -> 128, 100.5 -> 101, 127.5 -> 128
    assert_eq!(lerp_color(a, b, ONE / 2), Color::new(128, 101, 128));
    // a quarter of the way: 63.75 -> 64
    assert_eq!(lerp_color(a, b, ONE / 4).r, 64);
}

#[test]
fn scale_rounds_and_clamps() {
    let c = Color::new(100, 200, 3);
    assert_eq!(c.scale(ONE / 2), Color::new(50, 100, 2));
    assert_eq!(c.scale(2 * ONE), Color::new(200, 255, 6));
    assert_eq!(c.scale(-ONE), Color::new(0, 0, 0));
    assert_eq!(c.scale(ONE), c);
}

#[test]
fn from_unit_maps_onto_bytes() {
    assert_eq!(Color::from_unit(0, ONE, ONE / 2), Color::new(0, 255, 128));
    assert_eq!(Color::from_unit(-ONE, 2 * ONE, ONE / 4), Color::new(0, 255, 64));
}

#[test]
fn smoothstep_outside_edges() {
    assert_eq!(smoothstep(ONE / 5, ONE / 2, 0), 0);
    assert_eq!(smoothstep(ONE / 5, ONE / 2, ONE / 5), 0);
    assert_eq!(smoothstep(ONE / 5, ONE / 2, ONE / 2), ONE);
    assert_eq!(smoothstep(ONE / 5, ONE / 2, 7 * ONE), ONE);
}

#[test]
fn smoothstep_midpoint_is_half() {
    assert_eq!(smoothstep(0, ONE, ONE / 2), ONE / 2);
    // t = 1/4: t^2 (3 - 2t) = 5/32
    assert_eq!(smoothstep(0, ONE, ONE / 4), 5 * ONE / 32);
}

#[test]
fn smoothstep_is_monotonic_on_samples() {
    let mut prev = smoothstep(-3 * ONE, 2 * ONE, -4 * ONE);
    let mut x = -4 * ONE;
    while x <= 3 * ONE {
        let v = smoothstep(-3 * ONE, 2 * ONE, x);
        assert!(v >= prev);
        assert!((0..=ONE).contains(&v));
        prev = v;
        x += ONE / 7;
    }
}

fn lit_fragment(position: Fixed3, normal: Fixed3) -> Fragment {
    Fragment::new(0, 0, 0, normal, 0, position)
}

#[test]
fn lambert_ambient_and_full_light() {
    let base = Color::new(100, 50, 250);
    let origin = Fixed3::new(0, 0, 0);
    // facing the light: full color
    assert_eq!(apply_lambert(base, &lit_fragment(origin, Fixed3::new(0, 0, 3 * ONE))), base);
    // facing away or edge-on: the ambient fifth
    assert_eq!(apply_lambert(base, &lit_fragment(origin, Fixed3::new(0, 0, -ONE))), Color::new(20, 10, 50));
    assert_eq!(apply_lambert(base, &lit_fragment(origin, Fixed3::new(ONE, 0, 0))), Color::new(20, 10, 50));
}

#[test]
fn lambert_at_forty_five_degrees() {
    let base = Color::new(100, 50, 250);
    let f = lit_fragment(Fixed3::new(0, 0, 0), Fixed3::new(ONE, 0, ONE));
    assert_eq!(apply_lambert(base, &f), Color::new(77, 38, 191));
}

#[test]
fn lambert_at_the_light_position_is_ambient() {
    // the direction to the light is the zero vector there
    let base = Color::new(100, 50, 250);
    let f = lit_fragment(Fixed3::new(0, 0, 20 * ONE), Fixed3::new(0, 0, ONE));
    assert_eq!(apply_lambert(base, &f), Color::new(20, 10, 50));
}

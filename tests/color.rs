use raytrace::color::{byte_to_channel, channel_to_byte, srgb_channel, Color8, SrgbCorrectable, ToColor8};
use raytrace::fixed::ONE;
use raytrace::float3::Float3;

#[test]
fn byte_conversion_truncates_and_clamps() {
    let c = Float3::new(ONE / 2, -ONE, 2 * ONE).to_color8();
    assert_eq!(c, Color8 { r: 127, g: 0, b: 255 });
    assert_eq!(channel_to_byte(ONE), 255);
    assert_eq!(channel_to_byte(0), 0);
    assert_eq!(channel_to_byte(ONE - 1), 254);
}

#[test]
fn every_byte_survives_a_round_trip() {
    for b in 0..=255u8 {
        assert_eq!(channel_to_byte(byte_to_channel(b)), b);
    }
    let c = Color8 { r: 1, g: 128, b: 255 };
    assert_eq!(c.to_color().to_color8(), c);
    assert_eq!(c.to_color(), Float3::new(258, 32897, ONE));
}

#[test]
fn srgb_passes_through_zero_and_one() {
    assert_eq!(srgb_channel(0), 0);
    assert_eq!(srgb_channel(ONE), ONE);
    assert_eq!(Float3::new(0, ONE, 0).srgb(), Float3::new(0, ONE, 0));
}

#[test]
fn srgb_is_monotonic_on_the_unit_interval() {
    let mut last = srgb_channel(0);
    for v in 1..=ONE {
        let e = srgb_channel(v);
        assert!(e >= last, "at {}", v);
        last = e;
    }
}

#[test]
fn srgb_exact_values() {
    assert_eq!(srgb_channel(100), 1292);
    assert_eq!(srgb_channel(-100), -1292);
    assert_eq!(srgb_channel(ONE / 2), 48191);
    assert_eq!(srgb_channel(ONE / 4), 35197);
    assert_eq!(srgb_channel(2 * ONE), 88685);
    assert_eq!(srgb_channel(3 * ONE), 105672);
}

#[test]
fn srgb_is_close_to_the_real_curve() {
    for v in [206i64, 1000, 5000, 20000, 40000, 60000, 2 * ONE, 100 * ONE] {
        let x = v as f64 / ONE as f64;
        let real = (x.powf(1.0 / 2.4) * 1.055 - 0.055) * ONE as f64;
        let e = srgb_channel(v) as f64;
        assert!((e - real).abs() < 20.0, "at {}: {} vs {}", v, e, real);
    }
}

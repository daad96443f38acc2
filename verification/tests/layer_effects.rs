use psd_great::io::writer::PsdWriter;
use psd_great::layer_effects::{
    write_effects, BevelStyle, EffectBevel, EffectGlow, EffectShadow, EffectSolidFill,
    LayerEffectsInfo, NORMAL_BLEND,
};
use psd_great::types::{Color, Grayscale};

fn none() -> LayerEffectsInfo {
    LayerEffectsInfo {
        drop_shadow: None,
        inner_shadow: None,
        outer_glow: None,
        inner_glow: None,
        bevel: None,
        solid_fill: None,
    }
}

fn gray(k: u16) -> Option<Color> {
    Some(Color::Grayscale(Grayscale { k }))
}

fn written(e: &LayerEffectsInfo) -> Vec<u8> {
    let mut w = PsdWriter::new(64);
    write_effects(&mut w, e).unwrap();
    w.into_buffer()
}

#[test]
fn common_state_alone() {
    assert_eq!(
        written(&none()),
        vec![
            0, 0, 0, 1, b'8', b'B', b'I', b'M', b'c', b'm', b'n', b'S', 0, 0, 0, 7, 0, 0, 0, 0, 1,
            0, 0
        ]
    );
}

#[test]
fn drop_shadow_record() {
    let mut e = none();
    e.drop_shadow = Some(vec![EffectShadow {
        enabled: Some(true),
        blend_mode: None,
        color: gray(5),
        opacity: None,
        angle: Some(120 << 16),
        distance: Some(3 << 16),
        size: Some(5 << 16),
        use_global_light: Some(false),
    }]);
    let out = written(&e);
    assert_eq!(out.len(), 23 + 63);
    assert_eq!(&out[2..4], &[0, 2]);
    let rec = &out[23..];
    assert_eq!(&rec[..8], b"8BIMdsdw");
    assert_eq!(&rec[8..16], &[0, 0, 0, 51, 0, 0, 0, 2]);
    assert_eq!(&rec[16..20], &[0, 5, 0, 0]); // size 5.0
    assert_eq!(&rec[20..24], &[0, 0, 0, 0]); // intensity
    assert_eq!(&rec[24..28], &[0, 120, 0, 0]); // angle
    assert_eq!(&rec[28..32], &[0, 3, 0, 0]); // distance
    assert_eq!(&rec[32..42], &[0, 8, 0, 5, 0, 0, 0, 0, 0, 0]); // color
    assert_eq!(&rec[42..46], b"8BIM");
    assert_eq!(&rec[46..50], &NORMAL_BLEND.to_be_bytes());
    assert_eq!(&rec[50..53], &[1, 0, 255]);
    assert_eq!(&rec[53..63], &[0, 8, 0, 5, 0, 0, 0, 0, 0, 0]);
}

#[test]
fn every_effect_in_order() {
    let mut e = none();
    let shadow = || EffectShadow {
        enabled: None,
        blend_mode: Some(0x6d756c20),
        color: gray(1),
        opacity: Some(128),
        angle: None,
        distance: None,
        size: None,
        use_global_light: None,
    };
    let glow = || EffectGlow { enabled: Some(true), blend_mode: None, color: gray(2), opacity: None, size: None };
    e.drop_shadow = Some(vec![shadow()]);
    e.inner_shadow = Some(vec![shadow()]);
    e.outer_glow = Some(glow());
    e.inner_glow = Some(glow());
    e.bevel = Some(EffectBevel {
        enabled: Some(true),
        style: Some(BevelStyle::Emboss),
        size: None,
        angle: None,
        strength: None,
        highlight_blend_mode: None,
        shadow_blend_mode: None,
        highlight_color: gray(3),
        shadow_color: gray(4),
        highlight_opacity: Some(10),
        shadow_opacity: Some(20),
        use_global_light: None,
        direction_down: Some(true),
    });
    e.solid_fill = Some(vec![EffectSolidFill { enabled: Some(false), blend_mode: None, color: gray(6), opacity: Some(7) }]);
    let out = written(&e);
    assert_eq!(&out[2..4], &[0, 7]);
    assert_eq!(out.len(), 23 + 63 + 63 + 54 + 55 + 90 + 46);
    let keys: Vec<&[u8]> = vec![b"dsdw", b"isdw", b"oglw", b"iglw", b"bevl", b"sofi"];
    let lens = [63usize, 63, 54, 55, 90, 46];
    let mut at = 23;
    for (key, len) in keys.iter().zip(lens.iter()) {
        assert_eq!(&out[at + 4..at + 8], *key);
        at += len;
    }
    // bevel: style index, opacities, switches
    let bevel = 23 + 63 + 63 + 54 + 55;
    assert_eq!(&out[bevel + 64..bevel + 70], &[3, 10, 20, 1, 0, 1]);
}

#[test]
fn effect_without_color_is_refused() {
    let mut e = none();
    e.outer_glow = Some(EffectGlow { enabled: None, blend_mode: None, color: None, opacity: None, size: None });
    let mut w = PsdWriter::new(64);
    let err = write_effects(&mut w, &e).unwrap_err();
    assert!(err.to_string().starts_with("Unsupported feature"));
}

#[test]
fn empty_lists_store_nothing() {
    let mut e = none();
    e.drop_shadow = Some(Vec::new());
    e.solid_fill = Some(Vec::new());
    assert_eq!(written(&e).len(), 23);
}

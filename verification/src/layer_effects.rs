//! The layer effects block (`lrFX`): drop and inner shadows, outer and
//! inner glows, bevel and solid fill, each in a record of its own after a
//! common state record.
//!
//! Fixed-point fields are held as their stored bits: 16.16 values as the
//! signed 32-bit word, opacities as the stored byte (255 for fully opaque).
//! A blend mode is held as its four-character key read as a big-endian
//! 32-bit word (`norm` for normal).

use crate::bytes::{be16, be32, i32_bits};
use crate::error::PsdResult;
use crate::io::writer::{color_bytes, has_color_structure, PsdWriter};
use crate::types::{Color, RGBA};
use vstd::prelude::*;

verus! {

/// The key of the normal blend mode, `norm`.
pub const NORMAL_BLEND: u32 = 0x6e6f726d;

/// A drop or inner shadow.
pub struct EffectShadow {
    pub enabled: Option<bool>,
    pub blend_mode: Option<u32>,
    pub color: Option<Color>,
    pub opacity: Option<u8>,
    pub angle: Option<i32>,
    pub distance: Option<i32>,
    pub size: Option<i32>,
    pub use_global_light: Option<bool>,
}

/// An outer or inner glow.
pub struct EffectGlow {
    pub enabled: Option<bool>,
    pub blend_mode: Option<u32>,
    pub color: Option<Color>,
    pub opacity: Option<u8>,
    pub size: Option<i32>,
}

/// The style of a bevel.
#[derive(Debug, Clone, Copy, PartialEq, Eq, Structural)]
pub enum BevelStyle {
    OuterBevel,
    InnerBevel,
    Emboss,
    PillowEmboss,
    StrokeEmboss,
}

/// A bevel.
pub struct EffectBevel {
    pub enabled: Option<bool>,
    pub style: Option<BevelStyle>,
    pub size: Option<i32>,
    pub angle: Option<i32>,
    pub strength: Option<i32>,
    pub highlight_blend_mode: Option<u32>,
    pub shadow_blend_mode: Option<u32>,
    pub highlight_color: Option<Color>,
    pub shadow_color: Option<Color>,
    pub highlight_opacity: Option<u8>,
    pub shadow_opacity: Option<u8>,
    pub use_global_light: Option<bool>,
    /// `true` for a bevel lit from below.
    pub direction_down: Option<bool>,
}

/// A solid color fill.
pub struct EffectSolidFill {
    pub enabled: Option<bool>,
    pub blend_mode: Option<u32>,
    pub color: Option<Color>,
    pub opacity: Option<u8>,
}

/// The effects of a layer that the effects block stores.  Of each list
/// only the first entry is stored.
pub struct LayerEffectsInfo {
    pub drop_shadow: Option<Vec<EffectShadow>>,
    pub inner_shadow: Option<Vec<EffectShadow>>,
    pub outer_glow: Option<EffectGlow>,
    pub inner_glow: Option<EffectGlow>,
    pub bevel: Option<EffectBevel>,
    pub solid_fill: Option<Vec<EffectSolidFill>>,
}

/// The color written for an effect: its own, or opaque black.
pub open spec fn effect_color(c: Option<Color>) -> Color {
    match c {
        Some(v) => v,
        None => Color::RGBA(RGBA { r: 0, g: 0, b: 0, a: 255 }),
    }
}

/// Whether an effect color can be written as a color structure.
pub open spec fn color_writable(c: Option<Color>) -> bool {
    has_color_structure(Some(effect_color(c)))
}

/// The bytes of an effect color.
pub open spec fn effect_color_bytes(c: Option<Color>) -> Seq<u8> {
    color_bytes(Some(effect_color(c)))
}

pub open spec fn flag(b: Option<bool>) -> u8 {
    if b == Some(true) {
        1
    } else {
        0
    }
}

pub open spec fn fixed(v: Option<i32>) -> Seq<u8> {
    be32(
        i32_bits(
            match v {
                Some(x) => x,
                None => 0,
            },
        ),
    )
}

pub open spec fn blend_key(b: Option<u32>) -> u32 {
    match b {
        Some(k) => k,
        None => NORMAL_BLEND,
    }
}

pub open spec fn opacity_or(o: Option<u8>, d: u8) -> u8 {
    match o {
        Some(v) => v,
        None => d,
    }
}

/// `8BIM` followed by a blend mode key.
pub open spec fn blend_bytes(b: Option<u32>) -> Seq<u8> {
    be32(0x3842494d) + be32(blend_key(b))
}

/// The record of a shadow after its key.
pub open spec fn shadow_bytes(s: EffectShadow) -> Seq<u8> {
    be32(51) + be32(2) + fixed(s.size) + fixed(None) + fixed(s.angle) + fixed(s.distance)
        + effect_color_bytes(s.color) + blend_bytes(s.blend_mode) + seq![
        flag(s.enabled),
        flag(s.use_global_light),
        opacity_or(s.opacity, 255),
    ] + effect_color_bytes(s.color)
}

/// The record of an outer glow after its key.
pub open spec fn outer_glow_bytes(g: EffectGlow) -> Seq<u8> {
    be32(42) + be32(2) + fixed(g.size) + fixed(None) + effect_color_bytes(g.color) + blend_bytes(
        g.blend_mode,
    ) + seq![flag(g.enabled), opacity_or(g.opacity, 0)] + effect_color_bytes(g.color)
}

/// The record of an inner glow after its key.
pub open spec fn inner_glow_bytes(g: EffectGlow) -> Seq<u8> {
    be32(43) + be32(2) + fixed(g.size) + fixed(None) + effect_color_bytes(g.color) + blend_bytes(
        g.blend_mode,
    ) + seq![flag(g.enabled), opacity_or(g.opacity, 0), 0u8] + effect_color_bytes(g.color)
}

/// The index a bevel style is stored with.
pub open spec fn style_index(s: Option<BevelStyle>) -> u8 {
    match s {
        Some(BevelStyle::OuterBevel) => 1,
        Some(BevelStyle::Emboss) => 3,
        Some(BevelStyle::PillowEmboss) => 4,
        Some(BevelStyle::StrokeEmboss) => 5,
        _ => 0,
    }
}

/// The single bytes of a bevel record: style, opacities and switches.
pub open spec fn bevel_flags(b: EffectBevel) -> Seq<u8> {
    seq![
        style_index(b.style),
        opacity_or(b.highlight_opacity, 0),
        opacity_or(b.shadow_opacity, 0),
        flag(b.enabled),
        flag(b.use_global_light),
        flag(b.direction_down),
    ]
}

/// The record of a bevel after its key.
pub open spec fn bevel_bytes(b: EffectBevel) -> Seq<u8> {
    be32(78) + be32(2) + fixed(b.angle) + fixed(b.strength) + fixed(b.size) + blend_bytes(
        b.highlight_blend_mode,
    ) + blend_bytes(b.shadow_blend_mode) + effect_color_bytes(b.highlight_color)
        + effect_color_bytes(b.shadow_color) + seq![
        style_index(b.style),
        opacity_or(b.highlight_opacity, 0),
        opacity_or(b.shadow_opacity, 0),
        flag(b.enabled),
        flag(b.use_global_light),
        flag(b.direction_down),
    ] + effect_color_bytes(b.highlight_color) + effect_color_bytes(b.shadow_color)
}

/// The key and fixed part of a bevel record.
pub open spec fn bevel_head(b: EffectBevel) -> Seq<u8> {
    be32(0x3842494d) + be32(0x6265766c) + be32(78) + be32(2) + fixed(b.angle) + fixed(b.strength)
        + fixed(b.size) + blend_bytes(b.highlight_blend_mode) + blend_bytes(b.shadow_blend_mode)
}

/// The record of a solid fill after its key.
pub open spec fn solid_fill_bytes(f: EffectSolidFill) -> Seq<u8> {
    be32(34) + be32(2) + blend_bytes(f.blend_mode) + effect_color_bytes(f.color) + seq![
        opacity_or(f.opacity, 0),
        flag(f.enabled),
    ] + effect_color_bytes(f.color)
}

/// The first entry of an effect list, if any.
pub open spec fn first_of<T>(v: Option<Vec<T>>) -> Option<T> {
    match v {
        Some(l) => if l@.len() > 0 {
            Some(l@[0])
        } else {
            None
        },
        None => None,
    }
}

/// An effect record: `8BIM`, its key, its bytes.
pub open spec fn keyed(key: u32, body: Seq<u8>) -> Seq<u8> {
    be32(0x3842494d) + be32(key) + body
}

pub open spec fn opt_bytes<T>(v: Option<T>, f: spec_fn(T) -> Seq<u8>) -> Seq<u8> {
    match v {
        Some(x) => f(x),
        None => Seq::empty(),
    }
}

/// The number of records: the common state and one per effect present.
pub open spec fn effects_count(e: LayerEffectsInfo) -> int {
    1 + (if first_of(e.drop_shadow) is Some { 1int } else { 0 }) + (if first_of(e.inner_shadow) is Some {
        1int
    } else {
        0
    }) + (if e.outer_glow is Some { 1int } else { 0 }) + (if e.inner_glow is Some { 1int } else { 0 })
        + (if e.bevel is Some { 1int } else { 0 }) + (if first_of(e.solid_fill) is Some { 1int } else {
        0
    })
}

/// The version, record count and common state record that open the
/// effects block.
pub open spec fn effects_head(e: LayerEffectsInfo) -> Seq<u8> {
    be16(0) + be16(effects_count(e) as u16) + keyed(0x636d6e53, be32(7) + be32(0) + seq![1u8, 0u8, 0u8])
}

/// The bytes of the effects block: the head, then the record of each
/// effect present, in writing order.
pub open spec fn effects_bytes(e: LayerEffectsInfo) -> Seq<u8> {
    effects_head(e) + crate::format::resource_section::blocks_prefix(
        Seq::new(6, |k: int| effect_block(e, k)),
        6,
    )
}

/// Whether every color of the effects present can be written: a missing
/// color is written as opaque black, which has no color structure.
pub open spec fn effects_writable(e: LayerEffectsInfo) -> bool {
    &&& (first_of(e.drop_shadow) matches Some(s) ==> color_writable(s.color))
    &&& (first_of(e.inner_shadow) matches Some(s) ==> color_writable(s.color))
    &&& (e.outer_glow matches Some(g) ==> color_writable(g.color))
    &&& (e.inner_glow matches Some(g) ==> color_writable(g.color))
    &&& (e.bevel matches Some(b) ==> color_writable(b.highlight_color) && color_writable(
        b.shadow_color,
    ))
    &&& (first_of(e.solid_fill) matches Some(f) ==> color_writable(f.color))
}

/// The longest an effects block can be.
pub open spec fn effects_max_len() -> int {
    (23 + 6 * 90) as int
}

fn effect_color_of(c: &Option<Color>) -> (r: Color)
    ensures
        r == effect_color(*c),
{
    match c {
        Some(v) => *v,
        None => Color::RGBA(RGBA { r: 0, g: 0, b: 0, a: 255 }),
    }
}

fn flag_of(b: Option<bool>) -> (r: u8)
    ensures
        r == flag(b),
{
    match b {
        Some(true) => 1,
        _ => 0,
    }
}

fn fixed_of(v: Option<i32>) -> (r: i32)
    ensures
        be32(i32_bits(r)) == fixed(v),
{
    match v {
        Some(x) => x,
        None => 0,
    }
}

proof fn lemma_color_len(c: Option<Color>)
    requires
        color_writable(c),
    ensures
        effect_color_bytes(c).len() == 10,
{
    assert(crate::io::writer::zeros(8).len() == 8);
    assert(crate::io::writer::zeros(6).len() == 6);
}

impl PsdWriter {
    fn write_effect_color(&mut self, c: &Option<Color>) -> (r: PsdResult<()>)
        requires
            old(self).offset + 10 <= usize::MAX,
        ensures
            r is Ok <==> color_writable(*c),
            r is Ok ==> old(self).appended(final(self), effect_color_bytes(*c)),
            r is Ok ==> effect_color_bytes(*c).len() == 10,
            r matches Err(e) ==> e is UnsupportedFeature,
    {
        proof {
            if color_writable(*c) {
                lemma_color_len(*c);
            }
        }
        let color = effect_color_of(c);
        self.write_color(Some(&color))
    }

    fn write_blend(&mut self, b: Option<u32>) -> (r: PsdResult<()>)
        requires
            old(self).offset + 8 <= usize::MAX,
        ensures
            r is Ok,
            old(self).appended(final(self), blend_bytes(b)),
    {
        let ghost w0 = self.written();
        self.write_u32(0x3842494d)?;
        let key = match b {
            Some(k) => k,
            None => NORMAL_BLEND,
        };
        self.write_u32(key)?;
        assert(self.written() =~= w0 + blend_bytes(b));
        Ok(())
    }

    #[verifier::rlimit(100)]
    #[verifier::spinoff_prover]
    fn write_shadow(&mut self, key: u32, s: &EffectShadow) -> (r: PsdResult<()>)
        requires
            old(self).offset + 8 + 67 <= usize::MAX,
        ensures
            r is Ok <==> color_writable(s.color),
            r is Ok ==> old(self).appended(final(self), keyed(key, shadow_bytes(*s))),
            r is Ok ==> keyed(key, shadow_bytes(*s)).len() == 63,
            r matches Err(e) ==> e is UnsupportedFeature,
    {
        let ghost w0 = self.written();
        self.write_u32(0x3842494d)?;
        self.write_u32(key)?;
        self.write_u32(51)?;
        self.write_u32(2)?;
        self.write_i32(fixed_of(s.size))?;
        self.write_i32(0)?;
        self.write_i32(fixed_of(s.angle))?;
        self.write_i32(fixed_of(s.distance))?;
        self.write_effect_color(&s.color)?;
        self.write_blend(s.blend_mode)?;
        self.write_u8(flag_of(s.enabled))?;
        self.write_u8(flag_of(s.use_global_light))?;
        self.write_u8(
            match s.opacity {
                Some(o) => o,
                None => 255,
            },
        )?;
        self.write_effect_color(&s.color)?;
        assert(fixed(None) == be32(i32_bits(0)));
        assert(self.written() =~= w0 + keyed(key, shadow_bytes(*s)));
        Ok(())
    }

    #[verifier::rlimit(100)]
    #[verifier::spinoff_prover]
    fn write_glow(&mut self, key: u32, g: &EffectGlow, inner: bool) -> (r: PsdResult<()>)
        requires
            old(self).offset + 8 + 57 <= usize::MAX,
        ensures
            r is Ok <==> color_writable(g.color),
            r is Ok ==> old(self).appended(
                final(self),
                keyed(
                    key,
                    if inner {
                        inner_glow_bytes(*g)
                    } else {
                        outer_glow_bytes(*g)
                    },
                ),
            ),
            r is Ok ==> inner_glow_bytes(*g).len() == 47 && outer_glow_bytes(*g).len() == 46,
            r matches Err(e) ==> e is UnsupportedFeature,
    {
        let ghost w0 = self.written();
        self.write_u32(0x3842494d)?;
        self.write_u32(key)?;
        self.write_u32(if inner { 43 } else { 42 })?;
        self.write_u32(2)?;
        self.write_i32(fixed_of(g.size))?;
        self.write_i32(0)?;
        self.write_effect_color(&g.color)?;
        self.write_blend(g.blend_mode)?;
        self.write_u8(flag_of(g.enabled))?;
        self.write_u8(
            match g.opacity {
                Some(o) => o,
                None => 0,
            },
        )?;
        if inner {
            self.write_u8(0)?;
        }
        self.write_effect_color(&g.color)?;
        assert(fixed(None) == be32(i32_bits(0)));
        if inner {
            assert(self.written() =~= w0 + keyed(key, inner_glow_bytes(*g)));
        } else {
            assert(self.written() =~= w0 + keyed(key, outer_glow_bytes(*g)));
        }
        Ok(())
    }

    fn write_bevel_head(&mut self, b: &EffectBevel) -> (r: PsdResult<()>)
        requires
            old(self).offset + 44 <= usize::MAX,
        ensures
            r is Ok,
            old(self).appended(final(self), bevel_head(*b)),
    {
        let ghost w0 = self.written();
        self.write_u32(0x3842494d)?;
        self.write_u32(0x6265766c)?;
        self.write_u32(78)?;
        self.write_u32(2)?;
        self.write_i32(fixed_of(b.angle))?;
        self.write_i32(fixed_of(b.strength))?;
        self.write_i32(fixed_of(b.size))?;
        self.write_blend(b.highlight_blend_mode)?;
        self.write_blend(b.shadow_blend_mode)?;
        assert(self.written() =~= w0 + bevel_head(*b));
        Ok(())
    }

    fn write_bevel_flags(&mut self, b: &EffectBevel) -> (r: PsdResult<()>)
        requires
            old(self).offset + 6 <= usize::MAX,
        ensures
            r is Ok,
            old(self).appended(final(self), bevel_flags(*b)),
    {
        let ghost w0 = self.written();
        let style: u8 = match b.style {
            Some(BevelStyle::OuterBevel) => 1,
            Some(BevelStyle::Emboss) => 3,
            Some(BevelStyle::PillowEmboss) => 4,
            Some(BevelStyle::StrokeEmboss) => 5,
            _ => 0,
        };
        let bytes = [
            style,
            match b.highlight_opacity {
                Some(o) => o,
                None => 0,
            },
            match b.shadow_opacity {
                Some(o) => o,
                None => 0,
            },
            flag_of(b.enabled),
            flag_of(b.use_global_light),
            flag_of(b.direction_down),
        ];
        assert(bytes@ =~= bevel_flags(*b));
        self.write_bytes(&bytes)
    }

    #[verifier::rlimit(100)]
    #[verifier::spinoff_prover]
    fn write_bevel(&mut self, b: &EffectBevel) -> (r: PsdResult<()>)
        requires
            old(self).offset + 90 <= usize::MAX,
        ensures
            r is Ok <==> color_writable(b.highlight_color) && color_writable(b.shadow_color),
            r is Ok ==> old(self).appended(final(self), keyed(0x6265766c, bevel_bytes(*b))),
            r is Ok ==> bevel_bytes(*b).len() == 82,
            r matches Err(e) ==> e is UnsupportedFeature,
    {
        let ghost w0 = self.written();
        self.write_bevel_head(b)?;
        self.write_effect_color(&b.highlight_color)?;
        self.write_effect_color(&b.shadow_color)?;
        let ghost w1 = self.written();
        self.write_bevel_flags(b)?;
        self.write_effect_color(&b.highlight_color)?;
        self.write_effect_color(&b.shadow_color)?;
        let ghost p1 = bevel_head(*b) + effect_color_bytes(b.highlight_color) + effect_color_bytes(
            b.shadow_color,
        );
        assert(w1 =~= w0 + p1);
        assert(self.written() =~= w0 + (p1 + bevel_flags(*b) + effect_color_bytes(b.highlight_color)
            + effect_color_bytes(b.shadow_color)));
        assert(keyed(0x6265766c, bevel_bytes(*b)) =~= p1 + bevel_flags(*b) + effect_color_bytes(
            b.highlight_color,
        ) + effect_color_bytes(b.shadow_color));
        Ok(())
    }

    fn write_solid_fill(&mut self, f: &EffectSolidFill) -> (r: PsdResult<()>)
        requires
            old(self).offset + 8 + 48 <= usize::MAX,
        ensures
            r is Ok <==> color_writable(f.color),
            r is Ok ==> old(self).appended(final(self), keyed(0x736f6669, solid_fill_bytes(*f))),
            r is Ok ==> solid_fill_bytes(*f).len() == 38,
            r matches Err(e) ==> e is UnsupportedFeature,
    {
        let ghost w0 = self.written();
        self.write_u32(0x3842494d)?;
        self.write_u32(0x736f6669)?;
        self.write_u32(34)?;
        self.write_u32(2)?;
        self.write_blend(f.blend_mode)?;
        self.write_effect_color(&f.color)?;
        self.write_u8(
            match f.opacity {
                Some(o) => o,
                None => 0,
            },
        )?;
        self.write_u8(flag_of(f.enabled))?;
        self.write_effect_color(&f.color)?;
        assert(self.written() =~= w0 + keyed(0x736f6669, solid_fill_bytes(*f)));
        Ok(())
    }
}

fn first_entry<T>(v: &Option<Vec<T>>) -> (r: Option<&T>)
    ensures
        match first_of(*v) {
            Some(x) => r == Some(&x),
            None => r is None,
        },
{
    match v {
        Some(l) => if l.len() > 0 {
            Some(&l[0])
        } else {
            None
        },
        None => None,
    }
}

/// The record of the effect at position `k` of the writing order, empty
/// when that effect is absent.
pub open spec fn effect_block(e: LayerEffectsInfo, k: int) -> Seq<u8> {
    if k == 0 {
        opt_bytes(first_of(e.drop_shadow), |s: EffectShadow| keyed(0x64736477, shadow_bytes(s)))
    } else if k == 1 {
        opt_bytes(first_of(e.inner_shadow), |s: EffectShadow| keyed(0x69736477, shadow_bytes(s)))
    } else if k == 2 {
        opt_bytes(e.outer_glow, |g: EffectGlow| keyed(0x6f676c77, outer_glow_bytes(g)))
    } else if k == 3 {
        opt_bytes(e.inner_glow, |g: EffectGlow| keyed(0x69676c77, inner_glow_bytes(g)))
    } else if k == 4 {
        opt_bytes(e.bevel, |b: EffectBevel| keyed(0x6265766c, bevel_bytes(b)))
    } else {
        opt_bytes(first_of(e.solid_fill), |f: EffectSolidFill| keyed(0x736f6669, solid_fill_bytes(f)))
    }
}

/// Whether the effect at position `k` can be written.
pub open spec fn effect_writable(e: LayerEffectsInfo, k: int) -> bool {
    if k == 0 {
        first_of(e.drop_shadow) matches Some(s) ==> color_writable(s.color)
    } else if k == 1 {
        first_of(e.inner_shadow) matches Some(s) ==> color_writable(s.color)
    } else if k == 2 {
        e.outer_glow matches Some(g) ==> color_writable(g.color)
    } else if k == 3 {
        e.inner_glow matches Some(g) ==> color_writable(g.color)
    } else if k == 4 {
        e.bevel matches Some(b) ==> color_writable(b.highlight_color) && color_writable(b.shadow_color)
    } else {
        first_of(e.solid_fill) matches Some(f) ==> color_writable(f.color)
    }
}

fn write_effect_at(writer: &mut PsdWriter, effects: &LayerEffectsInfo, k: usize) -> (r: PsdResult<()>)
    requires
        k < 6,
        old(writer).offset + 90 <= usize::MAX,
        old(writer).offset <= old(writer).buffer@.len(),
    ensures
        r is Ok <==> effect_writable(*effects, k as int),
        r is Ok ==> old(writer).appended(final(writer), effect_block(*effects, k as int)),
        r is Ok ==> effect_block(*effects, k as int).len() <= 90,
        r matches Err(e) ==> e is UnsupportedFeature,
{
    let ghost w0 = writer.written();
    if k == 0 {
        match first_entry(&effects.drop_shadow) {
            Some(s) => writer.write_shadow(0x64736477, s),
            None => {
                assert(w0 + Seq::<u8>::empty() =~= w0);
                Ok(())
            },
        }
    } else if k == 1 {
        match first_entry(&effects.inner_shadow) {
            Some(s) => writer.write_shadow(0x69736477, s),
            None => {
                assert(w0 + Seq::<u8>::empty() =~= w0);
                Ok(())
            },
        }
    } else if k == 2 {
        match &effects.outer_glow {
            Some(g) => writer.write_glow(0x6f676c77, g, false),
            None => {
                assert(w0 + Seq::<u8>::empty() =~= w0);
                Ok(())
            },
        }
    } else if k == 3 {
        match &effects.inner_glow {
            Some(g) => writer.write_glow(0x69676c77, g, true),
            None => {
                assert(w0 + Seq::<u8>::empty() =~= w0);
                Ok(())
            },
        }
    } else if k == 4 {
        match &effects.bevel {
            Some(b) => writer.write_bevel(b),
            None => {
                assert(w0 + Seq::<u8>::empty() =~= w0);
                Ok(())
            },
        }
    } else {
        match first_entry(&effects.solid_fill) {
            Some(f) => writer.write_solid_fill(f),
            None => {
                assert(w0 + Seq::<u8>::empty() =~= w0);
                Ok(())
            },
        }
    }
}

fn count_effects(effects: &LayerEffectsInfo) -> (r: u16)
    ensures
        r == effects_count(*effects),
{
    let mut count: u16 = 1;
    if first_entry(&effects.drop_shadow).is_some() {
        count += 1;
    }
    if first_entry(&effects.inner_shadow).is_some() {
        count += 1;
    }
    if effects.outer_glow.is_some() {
        count += 1;
    }
    if effects.inner_glow.is_some() {
        count += 1;
    }
    if effects.bevel.is_some() {
        count += 1;
    }
    if first_entry(&effects.solid_fill).is_some() {
        count += 1;
    }
    count
}

impl PsdWriter {
    fn write_effects_head(&mut self, count: u16) -> (r: PsdResult<()>)
        requires
            old(self).offset + 23 <= usize::MAX,
        ensures
            r is Ok,
            old(self).appended(
                final(self),
                be16(0) + be16(count) + keyed(0x636d6e53, be32(7) + be32(0) + seq![1u8, 0u8, 0u8]),
            ),
    {
        let ghost w0 = self.written();
        self.write_u16(0)?;
        self.write_u16(count)?;
        self.write_u32(0x3842494d)?;
        self.write_u32(0x636d6e53)?;
        self.write_u32(7)?;
        self.write_u32(0)?;
        let common = [1u8, 0u8, 0u8];
        self.write_bytes(&common)?;
        assert(self.written() =~= w0 + (be16(0) + be16(count) + keyed(
            0x636d6e53,
            be32(7) + be32(0) + seq![1u8, 0u8, 0u8],
        )));
        Ok(())
    }
}

/// Writes the effects block: its version and record count, the common
/// state record, then a record for each effect present, in a fixed order.
/// A missing color is written as opaque black, which the color structure
/// cannot hold, so such an effect is refused.
pub fn write_effects(writer: &mut PsdWriter, effects: &LayerEffectsInfo) -> (r: PsdResult<()>)
    requires
        old(writer).offset + effects_max_len() <= usize::MAX,
    ensures
        r is Ok <==> effects_writable(*effects),
        r is Ok ==> old(writer).appended(final(writer), effects_bytes(*effects)),
        r matches Err(e) ==> e is UnsupportedFeature,
{
    let ghost w0 = writer.written();
    let ghost e = *effects;
    let count = count_effects(effects);
    writer.write_effects_head(count)?;
    let ghost head = effects_head(e);
    let ghost blocks = Seq::new(6, |k: int| effect_block(e, k));
    let ghost w1 = writer.written();
    assert(crate::format::resource_section::blocks_prefix(blocks, 0) =~= Seq::<u8>::empty());
    assert(w1 + Seq::<u8>::empty() =~= w1);
    let mut k: usize = 0;
    while k < 6
        invariant
            k <= 6,
            e == *effects,
            blocks == Seq::new(6, |j: int| effect_block(e, j)),
            old(writer).offset + effects_max_len() <= usize::MAX,
            w1 == w0 + head,
            head.len() == 23,
            writer.written() == w1 + crate::format::resource_section::blocks_prefix(blocks, k as int),
            writer.offset == old(writer).offset + 23 + crate::format::resource_section::blocks_prefix(
                blocks,
                k as int,
            ).len(),
            crate::format::resource_section::blocks_prefix(blocks, k as int).len() <= 90 * k,
            writer.offset <= writer.buffer@.len(),
            writer.large == old(writer).large,
            writer.color_mode == old(writer).color_mode,
            writer.global_alpha == old(writer).global_alpha,
            forall|j: int| 0 <= j < k ==> effect_writable(e, j),
        decreases 6 - k,
    {
        write_effect_at(writer, effects, k)?;
        assert(blocks[k as int] == effect_block(e, k as int));
        assert(crate::format::resource_section::blocks_prefix(blocks, k + 1)
            == crate::format::resource_section::blocks_prefix(blocks, k as int) + blocks[k as int]);
        k += 1;
    }
    assert(effect_writable(e, 0) && effect_writable(e, 1) && effect_writable(e, 2) && effect_writable(e, 3)
        && effect_writable(e, 4) && effect_writable(e, 5));
    assert(effects_bytes(e) =~= head + crate::format::resource_section::blocks_prefix(blocks, 6));
    assert(writer.written() =~= w0 + effects_bytes(e));
    Ok(())
}

} // verus!

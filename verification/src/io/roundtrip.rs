//! What the reader gets back from the bytes the writer writes.
//!
//! Each law places the written bytes anywhere in an input (`pre` before
//! them, `post` after them) and states what the reader's contract then
//! yields at that position.

use crate::bytes::{be16, be16_list, be32, i16_bits, i32_bits, read16, read32, u16_as_i16, u32_as_i32};
use crate::io::reader::{code_units, color_from_words, padding_after, utf16_payload};
use crate::io::writer::{
    ascii_or_question, color_bytes, has_color_structure, legacy_name_byte, legacy_name_bytes, zeros,
    pascal_bytes, unicode_bytes, unicode_padded_bytes,
};
use crate::strings::{utf16_encode, utf16_of_char, utf8_text};
use crate::types::Color;
use vstd::prelude::*;
use vstd::utf8::{encode_utf8, is_ascii_chars};

verus! {

broadcast use {vstd::utf8::encode_utf8_decode_utf8, vstd::utf8::encode_utf8_valid_utf8};

/// The color that the reader builds from the ten bytes at `p`.
pub open spec fn color_at(s: Seq<u8>, p: int) -> Color {
    color_from_words(read16(s, p), read16(s, p + 2), read16(s, p + 4), read16(s, p + 6), read16(s, p + 8))
}

/// A 16-bit value written big-endian reads back unchanged.
pub proof fn law_u16_roundtrip(pre: Seq<u8>, v: u16, post: Seq<u8>)
    ensures
        read16(pre + be16(v) + post, pre.len() as int) == v,
{
    let s = pre + be16(v) + post;
    assert(s[pre.len() as int] == be16(v)[0]);
    assert(s[pre.len() as int + 1] == be16(v)[1]);
}

/// A 32-bit value written big-endian reads back unchanged.
pub proof fn law_u32_roundtrip(pre: Seq<u8>, v: u32, post: Seq<u8>)
    ensures
        read32(pre + be32(v) + post, pre.len() as int) == v,
{
    let s = pre + be32(v) + post;
    let p = pre.len() as int;
    assert(s[p] == be32(v)[0]);
    assert(s[p + 1] == be32(v)[1]);
    assert(s[p + 2] == be32(v)[2]);
    assert(s[p + 3] == be32(v)[3]);
}

/// A signed 16-bit value written as its two's-complement pattern reads
/// back unchanged.
pub proof fn law_i16_roundtrip(pre: Seq<u8>, v: i16, post: Seq<u8>)
    ensures
        u16_as_i16(read16(pre + be16(i16_bits(v)) + post, pre.len() as int)) == v,
{
    law_u16_roundtrip(pre, i16_bits(v), post);
}

/// A signed 32-bit value written as its two's-complement pattern reads
/// back unchanged.
pub proof fn law_i32_roundtrip(pre: Seq<u8>, v: i32, post: Seq<u8>)
    ensures
        u32_as_i32(read32(pre + be32(i32_bits(v)) + post, pre.len() as int)) == v,
{
    law_u32_roundtrip(pre, i32_bits(v), post);
}

/// Whether a color comes back from its color structure as the same value:
/// every color with a structure does, except an opaque color space whose
/// code is one the reader interprets.
pub open spec fn color_survives(c: Color) -> bool {
    &&& has_color_structure(Some(c))
    &&& c matches Color::OpaqueColorSpace { color_space, .. } ==> !(color_space == 0
        || color_space == 1 || color_space == 2 || color_space == 7 || color_space == 8)
}

/// A color written as a color structure reads back as the same color.
pub proof fn law_color_roundtrip(pre: Seq<u8>, c: Color, post: Seq<u8>)
    requires
        color_survives(c),
    ensures
        color_bytes(Some(c)).len() == 10,
        color_at(pre + color_bytes(Some(c)) + post, pre.len() as int) == c,
{
    let b = color_bytes(Some(c));
    let s = pre + b + post;
    let p = pre.len() as int;
    assert(b.len() == 10);
    assert forall|k: int| 0 <= k < 10 implies s[p + k] == b[k] by {}
    assert(read16(s, p) == read16(b, 0));
    assert(read16(s, p + 2) == read16(b, 2));
    assert(read16(s, p + 4) == read16(b, 4));
    assert(read16(s, p + 6) == read16(b, 6));
    assert(read16(s, p + 8) == read16(b, 8));
    match c {
        Color::OpaqueColorSpace { color_space, components } => {
            let arr: [u16; 4] = [
                read16(s, p + 2),
                read16(s, p + 4),
                read16(s, p + 6),
                read16(s, p + 8),
            ];
            assert(arr =~= components);
        },
        _ => {},
    }
}

/// The color space codes of a color structure: 0 is RGB, 1 HSB, 2 CMYK,
/// 7 Lab and 8 grayscale, each followed by its components in order.  A
/// structure read with one of these codes gives that kind of color, and
/// each kind of color is written under its code.
pub proof fn law_color_space_codes(s: Seq<u8>, p: int, c: Color)
    requires
        0 <= p,
        p + 10 <= s.len(),
        has_color_structure(Some(c)),
    ensures
        read16(s, p) == 0 ==> color_at(s, p) == (Color::Rgb48 {
            red: read16(s, p + 2),
            green: read16(s, p + 4),
            blue: read16(s, p + 6),
        }),
        read16(s, p) == 1 ==> color_at(s, p) == (Color::Hsb {
            hue: read16(s, p + 2),
            saturation: read16(s, p + 4),
            brightness: read16(s, p + 6),
        }),
        read16(s, p) == 2 ==> color_at(s, p) == Color::CMYK(
            crate::types::CMYK {
                c: read16(s, p + 2),
                m: read16(s, p + 4),
                y: read16(s, p + 6),
                k: read16(s, p + 8),
            },
        ),
        read16(s, p) == 7 ==> color_at(s, p) == (Color::Lab {
            lightness: read16(s, p + 2),
            a: u16_as_i16(read16(s, p + 4)),
            b: u16_as_i16(read16(s, p + 6)),
        }),
        read16(s, p) == 8 ==> color_at(s, p) == Color::Grayscale(
            crate::types::Grayscale { k: read16(s, p + 2) },
        ),
        c is Rgb48 ==> read16(color_bytes(Some(c)), 0) == 0 && read16(color_bytes(Some(c)), 2)
            == c->red && read16(color_bytes(Some(c)), 4) == c->green && read16(
            color_bytes(Some(c)),
            6,
        ) == c->blue,
        c is Hsb ==> read16(color_bytes(Some(c)), 0) == 1 && read16(color_bytes(Some(c)), 2)
            == c->hue && read16(color_bytes(Some(c)), 4) == c->saturation && read16(
            color_bytes(Some(c)),
            6,
        ) == c->brightness,
        c is CMYK ==> read16(color_bytes(Some(c)), 0) == 2 && read16(color_bytes(Some(c)), 2)
            == c->CMYK_0.c && read16(color_bytes(Some(c)), 4) == c->CMYK_0.m && read16(
            color_bytes(Some(c)),
            6,
        ) == c->CMYK_0.y && read16(color_bytes(Some(c)), 8) == c->CMYK_0.k,
        c is Lab ==> read16(color_bytes(Some(c)), 0) == 7 && read16(color_bytes(Some(c)), 2)
            == c->lightness,
        c is Grayscale ==> read16(color_bytes(Some(c)), 0) == 8 && read16(
            color_bytes(Some(c)),
            2,
        ) == c->Grayscale_0.k,
{
    let b = color_bytes(Some(c));
    match c {
        Color::Rgb48 { red, green, blue } => {
            law_u16_roundtrip(seq![], 0, be16(red) + be16(green) + be16(blue) + be16(0));
            law_u16_roundtrip(be16(0), red, be16(green) + be16(blue) + be16(0));
            law_u16_roundtrip(be16(0) + be16(red), green, be16(blue) + be16(0));
            law_u16_roundtrip(be16(0) + be16(red) + be16(green), blue, be16(0));
            assert(b =~= seq![] + be16(0) + (be16(red) + be16(green) + be16(blue) + be16(0)));
            assert(b =~= be16(0) + be16(red) + (be16(green) + be16(blue) + be16(0)));
            assert(b =~= be16(0) + be16(red) + be16(green) + (be16(blue) + be16(0)));
        },
        Color::Hsb { hue, saturation, brightness } => {
            law_u16_roundtrip(seq![], 1, be16(hue) + be16(saturation) + be16(brightness) + be16(0));
            law_u16_roundtrip(be16(1), hue, be16(saturation) + be16(brightness) + be16(0));
            law_u16_roundtrip(be16(1) + be16(hue), saturation, be16(brightness) + be16(0));
            law_u16_roundtrip(be16(1) + be16(hue) + be16(saturation), brightness, be16(0));
            assert(b =~= seq![] + be16(1) + (be16(hue) + be16(saturation) + be16(brightness) + be16(
                0,
            )));
            assert(b =~= be16(1) + be16(hue) + (be16(saturation) + be16(brightness) + be16(0)));
            assert(b =~= be16(1) + be16(hue) + be16(saturation) + (be16(brightness) + be16(0)));
        },
        Color::CMYK(k) => {
            law_u16_roundtrip(seq![], 2, be16(k.c) + be16(k.m) + be16(k.y) + be16(k.k));
            law_u16_roundtrip(be16(2), k.c, be16(k.m) + be16(k.y) + be16(k.k));
            law_u16_roundtrip(be16(2) + be16(k.c), k.m, be16(k.y) + be16(k.k));
            law_u16_roundtrip(be16(2) + be16(k.c) + be16(k.m), k.y, be16(k.k));
            law_u16_roundtrip(be16(2) + be16(k.c) + be16(k.m) + be16(k.y), k.k, seq![]);
            assert(b =~= seq![] + be16(2) + (be16(k.c) + be16(k.m) + be16(k.y) + be16(k.k)));
            assert(b =~= be16(2) + be16(k.c) + (be16(k.m) + be16(k.y) + be16(k.k)));
            assert(b =~= be16(2) + be16(k.c) + be16(k.m) + (be16(k.y) + be16(k.k)));
            assert(b =~= be16(2) + be16(k.c) + be16(k.m) + be16(k.y) + be16(k.k) + seq![]);
        },
        Color::Lab { lightness, a, b: bb } => {
            let rest = be16(i16_bits(a)) + be16(i16_bits(bb)) + be16(0);
            law_u16_roundtrip(seq![], 7, be16(lightness) + rest);
            law_u16_roundtrip(be16(7), lightness, rest);
            assert(b =~= seq![] + be16(7) + (be16(lightness) + rest));
            assert(b =~= be16(7) + be16(lightness) + rest);
        },
        Color::Grayscale(g) => {
            law_u16_roundtrip(seq![], 8, be16(g.k) + zeros(6));
            law_u16_roundtrip(be16(8), g.k, zeros(6));
            assert(b =~= seq![] + be16(8) + (be16(g.k) + zeros(6)));
            assert(b =~= be16(8) + be16(g.k) + zeros(6));
        },
        _ => {},
    }
}

/// The structure written for no color reads back as RGB black.
pub proof fn law_absent_color_reads_black(pre: Seq<u8>, post: Seq<u8>)
    ensures
        color_bytes(None).len() == 10,
        color_at(pre + color_bytes(None) + post, pre.len() as int) == (Color::Rgb48 {
            red: 0,
            green: 0,
            blue: 0,
        }),
{
    let b = color_bytes(None);
    let s = pre + b + post;
    let p = pre.len() as int;
    assert(b.len() == 10);
    assert forall|k: int| 0 <= k < 10 implies s[p + k] == b[k] by {}
}

/// A Pascal string of ASCII text reads back as the text, and the written
/// bytes are exactly what the reader consumes: the length byte, the text
/// and the padding.
pub proof fn law_pascal_string_roundtrip(pre: Seq<u8>, text: Seq<char>, pad_to: int, post: Seq<u8>)
    requires
        is_ascii_chars(text),
        text.len() <= 255,
        pad_to > 0,
    ensures
        ({
            let b = pascal_bytes(encode_utf8(text), pad_to);
            let s = pre + b + post;
            let p = pre.len() as int;
            let len = s[p] as int;
            &&& len == text.len()
            &&& b.len() == 1 + len + padding_after(1 + len, pad_to)
            &&& utf8_text(s.subrange(p + 1, p + 1 + len)) == text
        }),
{
    let bytes = encode_utf8(text);
    vstd::utf8::is_ascii_chars_encode_utf8(text);
    vstd::utf8::is_ascii_chars_nat_bound(text);
    let b = pascal_bytes(bytes, pad_to);
    let s = pre + b + post;
    let p = pre.len() as int;
    let len = text.len() as int;
    assert(s[p] == b[0]);
    assert forall|i: int| 0 <= i < len implies ascii_or_question(bytes[i]) == bytes[i] by {
        assert((text[i] as nat) < 128);
    }
    assert(s.subrange(p + 1, p + 1 + len) =~= bytes);
}

/// The legacy layer name field of an ASCII name reads back as the name,
/// cut to its first 255 characters.
pub proof fn law_legacy_name_roundtrip(pre: Seq<u8>, text: Seq<char>, pad_to: int, post: Seq<u8>)
    requires
        is_ascii_chars(text),
        pad_to > 0,
    ensures
        ({
            let b = legacy_name_bytes(text, pad_to);
            let s = pre + b + post;
            let p = pre.len() as int;
            let len = s[p] as int;
            &&& len == (if text.len() > 255 {
                255
            } else {
                text.len() as int
            })
            &&& b.len() == 1 + len + padding_after(1 + len, pad_to)
            &&& utf8_text(s.subrange(p + 1, p + 1 + len)) == text.take(len)
        }),
{
    let n: int = if text.len() > 255 {
        255
    } else {
        text.len() as int
    };
    let kept = text.take(n);
    assert(is_ascii_chars(kept));
    vstd::utf8::is_ascii_chars_encode_utf8(kept);
    vstd::utf8::is_ascii_chars_nat_bound(text);
    let b = legacy_name_bytes(text, pad_to);
    let s = pre + b + post;
    let p = pre.len() as int;
    assert(s[p] == b[0]);
    assert forall|i: int| 0 <= i < n implies legacy_name_byte(text[i]) == kept[i] as u8 by {
        assert((text[i] as nat) < 128);
    }
    assert(s.subrange(p + 1, p + 1 + n) =~= encode_utf8(kept));
}

/// Byte `2k` and `2k + 1` of a big-endian unit list hold unit `k`.
pub proof fn lemma_be16_list_index(units: Seq<u16>, k: int)
    requires
        0 <= k < units.len(),
    ensures
        be16_list(units).len() == 2 * units.len(),
        be16_list(units)[2 * k] == be16(units[k])[0],
        be16_list(units)[2 * k + 1] == be16(units[k])[1],
    decreases units.len(),
{
    crate::bytes::lemma_be16_list_len(units);
    if k < units.len() - 1 {
        lemma_be16_list_index(units.drop_last(), k);
    }
}

/// The code units stored by a unit list at `p` are the list.
pub proof fn lemma_units_read_back(pre: Seq<u8>, units: Seq<u16>, post: Seq<u8>)
    ensures
        code_units(pre + be16_list(units) + post, pre.len() as int, units.len() as int) == units,
{
    let s = pre + be16_list(units) + post;
    let p = pre.len() as int;
    crate::bytes::lemma_be16_list_len(units);
    assert forall|k: int| 0 <= k < units.len() implies read16(s, p + 2 * k) == units[k] by {
        lemma_be16_list_index(units, k);
        assert(s[p + 2 * k] == be16_list(units)[2 * k]);
        assert(s[p + 2 * k + 1] == be16_list(units)[2 * k + 1]);
    }
    assert(code_units(s, p, units.len() as int) =~= units);
}

/// The last code unit of a non-empty encoding belongs to the last
/// character, and is zero only for a trailing NUL.
pub proof fn lemma_utf16_last_unit(text: Seq<char>)
    requires
        text.len() > 0,
    ensures
        utf16_encode(text).len() > 0,
        utf16_encode(text).last() == 0 <==> text.last() == '\0',
{
    let c = text.last();
    let v = c as u32;
    assert(utf16_encode(text) == utf16_encode(text.drop_last()) + utf16_of_char(c));
    vstd::utf8::char_u32_cast(c, v);
    vstd::utf8::char_u32_cast('\0', 0);
    if v < 0x10000 {
        assert(utf16_of_char(c).last() == v as u16);
    } else {
        assert(utf16_of_char(c).last() == (0xDC00 + (v - 0x10000) % 1024) as u16);
    }
}

/// A UTF-16 string reads back as the text, unless the text ends in NUL:
/// the reader drops one trailing zero unit.
pub proof fn law_unicode_string_roundtrip(pre: Seq<u8>, text: Seq<char>, post: Seq<u8>)
    requires
        utf16_encode(text).len() <= u32::MAX,
        text.len() == 0 || text.last() != '\0',
    ensures
        ({
            let b = unicode_bytes(text);
            let s = pre + b + post;
            let p = pre.len() as int;
            let n = read32(s, p) as int;
            &&& n == utf16_encode(text).len()
            &&& b.len() == 4 + 2 * n
            &&& utf16_payload(s, p + 4, n) == utf16_encode(text)
        }),
{
    let units = utf16_encode(text);
    let n = units.len() as int;
    let s = pre + unicode_bytes(text) + post;
    let p = pre.len() as int;
    crate::bytes::lemma_be16_list_len(units);
    assert(s == pre + be32(n as u32) + be16_list(units) + post);
    assert(pre + be32(n as u32) + be16_list(units) + post == pre + be32(n as u32) + (be16_list(
        units,
    ) + post));
    law_u32_roundtrip(pre, n as u32, be16_list(units) + post);
    assert(pre + be32(n as u32) + be16_list(units) + post == (pre + be32(n as u32)) + be16_list(
        units,
    ) + post);
    lemma_units_read_back(pre + be32(n as u32), units, post);
    if text.len() > 0 {
        lemma_utf16_last_unit(text);
    }
}

/// A UTF-16 string written with its trailing zero unit reads back as the
/// text.
pub proof fn law_unicode_padded_roundtrip(pre: Seq<u8>, text: Seq<char>, post: Seq<u8>)
    requires
        utf16_encode(text).len() + 1 <= u32::MAX,
    ensures
        ({
            let b = unicode_padded_bytes(text);
            let s = pre + b + post;
            let p = pre.len() as int;
            let n = read32(s, p) as int;
            &&& n == utf16_encode(text).len() + 1
            &&& b.len() == 4 + 2 * n
            &&& utf16_payload(s, p + 4, n) == utf16_encode(text)
        }),
{
    let units = utf16_encode(text);
    let all = units.push(0u16);
    let n = all.len() as int;
    let s = pre + unicode_padded_bytes(text) + post;
    crate::bytes::lemma_be16_list_len(all);
    assert(all.drop_last() =~= units);
    assert(be16_list(all) == be16_list(units) + be16(0));
    assert(s == pre + be32(n as u32) + be16_list(all) + post);
    law_u32_roundtrip(pre, n as u32, be16_list(all) + post);
    assert(pre + be32(n as u32) + be16_list(all) + post == (pre + be32(n as u32)) + be16_list(all)
        + post);
    lemma_units_read_back(pre + be32(n as u32), all, post);
}

} // verus!

//! Typed values of layer tagged blocks, and the codecs of their stored
//! forms.

use crate::bytes::{be16, be32, read16, read32};
use crate::compression::{compress_rle, rle_encode};
use crate::io::reader::padding_after;
use crate::io::writer::{pascal_bytes, unicode_padded_bytes, zeros};
use crate::strings::utf16_encode;
use crate::error::PsdResult;
use crate::io::writer::PsdWriter;
use crate::layer::LinkedFileInfo;
use crate::reader::PsdReader;
use crate::strings::{utf8_lossy, utf8_text};
use crate::types::{LayerColor, PixelData, PsdStringCode, RGB};
use vstd::prelude::*;
use vstd::string::StringSliceAdditionalSpecFns;

verus! {

/// Annotation item (Anno).
#[derive(Debug, Clone, PartialEq, Eq)]
pub struct AnnotationItem {
    pub x: i32,
    pub y: i32,
    pub color_l: u16,
    pub color_o: u16,
    pub color_c: u16,
    pub author: String,
    pub text: String,
}

/// Filter effects block (FEid).
#[derive(Debug, Clone, PartialEq, Eq)]
pub struct FilterEffectsBlock {
    pub version: u32,
    pub items: Vec<FilterEffectsItem>,
}

/// Filter effects item.
#[derive(Debug, Clone, PartialEq, Eq)]
pub struct FilterEffectsItem {
    pub id: String,
    pub version: Option<u32>,
    pub rect: Option<FilterEffectsRect>,
    pub depth: Option<u32>,
    pub channel_count: Option<u32>,
    pub slots: Option<Vec<FilterEffectsSlot>>,
    pub preview: Option<FilterEffectsPreview>,
    pub rgba: Option<PixelData>,
}

/// Filter effects rectangle.
#[derive(Debug, Clone, Copy, PartialEq, Eq, Structural)]
pub struct FilterEffectsRect {
    pub left: i32,
    pub top: i32,
    pub right: i32,
    pub bottom: i32,
}

/// Filter effects slot.
#[derive(Debug, Clone, PartialEq, Eq)]
pub struct FilterEffectsSlot {
    pub slot: u32,
    pub channel_data: ChannelImageData,
}

/// Filter effects preview.
#[derive(Debug, Clone, PartialEq, Eq)]
pub struct FilterEffectsPreview {
    pub rect: FilterEffectsRect,
    pub channel_data: ChannelImageData,
    pub rgba: Option<PixelData>,
}

/// Pixel source data block (PxSD).
#[derive(Debug, Clone, PartialEq, Eq)]
pub struct PixelSourceDataBlock {
    pub items: Vec<PixelSourceDataItem>,
}

/// Pixel source data item.
#[derive(Debug, Clone, PartialEq, Eq)]
pub struct PixelSourceDataItem {
    pub key: u32,
    pub images: Option<Vec<PixelSourceDataImage>>,
}

/// Pixel source data image.
#[derive(Debug, Clone, PartialEq, Eq)]
pub struct PixelSourceDataImage {
    pub index: u32,
    pub rect: Option<FilterEffectsRect>,
    pub rgba: Option<PixelData>,
}

/// Raw payload of a filter mask.
#[derive(Debug, Clone, PartialEq, Eq)]
pub struct FilterMaskPayload {
    pub bytes: Vec<u8>,
}

/// One channel's samples with its dimensions.
#[derive(Debug, Clone, PartialEq, Eq)]
pub struct ChannelImageData {
    pub width: usize,
    pub height: usize,
    pub data: Vec<u8>,
}

/// Shape pattern status.
#[derive(Debug, Clone, Copy, PartialEq, Eq, Structural)]
pub struct ShapePatternStatus {
    pub version: u32,
    pub present_count: u32,
}

/// Pattern block (Patt, Pat2, Pat3).
#[derive(Debug, Clone, PartialEq, Eq)]
pub struct PatternBlock {
    pub key: PsdStringCode,
    pub patterns: Vec<PatternBlockEntry>,
}

/// One pattern of a pattern block.
#[derive(Debug, Clone, PartialEq, Eq)]
pub struct PatternBlockEntry {
    pub name: String,
    pub id: String,
    pub version: u32,
    pub mode: u32,
    pub width: u16,
    pub height: u16,
    pub indexed_palette: Option<Vec<RGB>>,
    pub rgba: Option<PixelData>,
}

/// Protected flags (lspf).
#[derive(Debug, Clone, Copy, PartialEq, Eq, Default, Structural)]
pub struct ProtectedFlags {
    pub transparency: bool,
    pub composite: bool,
    pub position: bool,
    pub artboards: Option<bool>,
}

/// Whether a vector path is closed or open.
#[derive(Debug, Clone, Copy, PartialEq, Eq, Structural)]
pub enum PathType {
    Closed,
    Open,
}

/// Reads a string stored as a 32-bit length that counts a trailing NUL,
/// the text, then the NUL; a zero length is the empty string.
pub fn read_pascal_string_with_padding(reader: &mut PsdReader) -> (r: PsdResult<String>)
    requires
        old(reader).offset + 5 + u32::MAX <= u64::MAX,
    ensures
        ({
            let n = read32(old(reader).input(), old(reader).position as int) as int;
            let p = old(reader).position + 4;
            match r {
                Ok(s) => if n == 0 {
                    old(reader).can_read(4) && s@ == Seq::<char>::empty() && old(reader).moved(
                        final(reader),
                        4,
                    )
                } else {
                    old(reader).can_read(4 + n) && s@ == utf8_text(
                        old(reader).input().subrange(p, p + n - 1),
                    ) && old(reader).moved(final(reader), 4 + n)
                },
                Err(e) => e is Io && !old(reader).can_read(if n == 0 {
                    4
                } else {
                    4 + n
                }),
            }
        }),
        r is Err ==> final(reader).same_source(old(reader)),
{
    let length_plus_one = reader.read_u32()?;
    if length_plus_one == 0 {
        return Ok(String::new());
    }
    let length = (length_plus_one - 1) as usize;
    let bytes = reader.read_bytes(length)?;
    reader.read_u8()?;
    Ok(utf8_lossy(bytes.as_slice()))
}

/// The bytes of a string written with a 32-bit length that counts a
/// trailing NUL: that length, the UTF-8 text, the NUL.
pub open spec fn padded_pascal_bytes(text: Seq<u8>) -> Seq<u8> {
    be32((text.len() + 1) as u32) + text + seq![0u8]
}

/// Writes a string as a 32-bit length that counts a trailing NUL, the
/// UTF-8 text, then the NUL.
pub fn write_pascal_string_with_padding(writer: &mut PsdWriter, text: &str) -> (r: PsdResult<()>)
    requires
        old(writer).offset + 5 + text.spec_bytes().len() <= usize::MAX,
    ensures
        r is Ok,
        old(writer).appended(final(writer), padded_pascal_bytes(text.spec_bytes())),
{
    let bytes = text.as_bytes();
    let ghost before = writer.written();
    writer.write_u32((bytes.len() + 1) as u32)?;
    writer.write_bytes(bytes)?;
    writer.write_u8(0)?;
    assert(writer.written() =~= before + padded_pascal_bytes(text.spec_bytes()));
    Ok(())
}

/// Reads a 64-bit value stored as two big-endian 32-bit halves, high
/// half first.
pub fn read_u64_parts(reader: &mut PsdReader) -> (r: PsdResult<u64>)
    requires
        old(reader).offset + 8 <= u64::MAX,
    ensures
        match r {
            Ok(v) => old(reader).can_read(8) && v == read32(old(reader).input(), old(reader).position as int)
                * 0x1_0000_0000 + read32(old(reader).input(), old(reader).position + 4) && old(
                reader,
            ).moved(final(reader), 8),
            Err(e) => e is Io && !old(reader).can_read(8),
        },
        final(reader).same_source(old(reader)),
        final(reader).offset - final(reader).position == old(reader).offset - old(reader).position,
{
    let high = reader.read_u32()? as u64;
    let low = reader.read_u32()? as u64;
    assert((high << 32u64) | low == high * 0x1_0000_0000 + low) by (bit_vector)
        requires
            high <= 0xffff_ffff,
            low <= 0xffff_ffff,
    ;
    Ok((high << 32u64) | low)
}

/// The bytes of a 64-bit value as two big-endian 32-bit halves.
pub open spec fn u64_parts_bytes(value: u64) -> Seq<u8> {
    be32((value / 0x1_0000_0000) as u32) + be32((value % 0x1_0000_0000) as u32)
}

/// Writes a 64-bit value as two big-endian 32-bit halves, high half first.
pub fn write_u64_parts(writer: &mut PsdWriter, value: u64) -> (r: PsdResult<()>)
    requires
        old(writer).offset + 8 <= usize::MAX,
    ensures
        r is Ok,
        old(writer).appended(final(writer), u64_parts_bytes(value)),
{
    let ghost before = writer.written();
    assert((value >> 32u64) as u32 == (value / 0x1_0000_0000) as u32 && value as u32 == (value
        % 0x1_0000_0000) as u32) by (bit_vector);
    writer.write_u32((value >> 32u64) as u32)?;
    writer.write_u32(value as u32)?;
    assert(writer.written() =~= before + u64_parts_bytes(value));
    Ok(())
}

/// A 64-bit value written as two halves reads back unchanged.
pub proof fn law_u64_parts_roundtrip(pre: Seq<u8>, value: u64, post: Seq<u8>)
    ensures
        ({
            let s = pre + u64_parts_bytes(value) + post;
            read32(s, pre.len() as int) * 0x1_0000_0000 + read32(s, pre.len() as int + 4) == value
        }),
{
    let high = (value / 0x1_0000_0000) as u32;
    let low = (value % 0x1_0000_0000) as u32;
    let s = pre + u64_parts_bytes(value) + post;
    crate::io::roundtrip::law_u32_roundtrip(pre, high, be32(low) + post);
    assert(s == pre + be32(high) + (be32(low) + post));
    crate::io::roundtrip::law_u32_roundtrip(pre + be32(high), low, post);
    assert(s == (pre + be32(high)) + be32(low) + post);
}

/// A padded Pascal string of any text reads back as the text: the stored
/// length counts the NUL and the bytes before it are the text's UTF-8.
pub proof fn law_padded_pascal_roundtrip(pre: Seq<u8>, text: Seq<char>, post: Seq<u8>)
    requires
        vstd::utf8::encode_utf8(text).len() + 1 <= u32::MAX,
    ensures
        ({
            let b = vstd::utf8::encode_utf8(text);
            let s = pre + padded_pascal_bytes(b) + post;
            let p = pre.len() as int;
            let n = read32(s, p) as int;
            &&& n == b.len() + 1
            &&& padded_pascal_bytes(b).len() == 4 + n
            &&& utf8_text(s.subrange(p + 4, p + 4 + n - 1)) == text
        }),
{
    let b = vstd::utf8::encode_utf8(text);
    let s = pre + padded_pascal_bytes(b) + post;
    let p = pre.len() as int;
    crate::io::roundtrip::law_u32_roundtrip(pre, (b.len() + 1) as u32, b + seq![0u8] + post);
    assert(s == pre + be32((b.len() + 1) as u32) + (b + seq![0u8] + post));
    assert(s.subrange(p + 4, p + 4 + b.len()) =~= b);
    vstd::utf8::encode_utf8_valid_utf8(text);
    vstd::utf8::encode_utf8_decode_utf8(text);
}

/// Whether any of a linked file's versioned path fields is set.
pub fn linked_file_uses_versioned_paths(info: &LinkedFileInfo) -> (r: bool)
    ensures
        r == (info.name@.len() > 0 || info.full_path@.len() > 0 || info.original_path@.len() > 0
            || info.relative_path@.len() > 0),
{
    !info.name.as_str().is_empty() || !info.full_path.as_str().is_empty()
        || !info.original_path.as_str().is_empty() || !info.relative_path.as_str().is_empty()
}

/// The bytes of a palette: red, green and blue of each color in order.
pub open spec fn palette_bytes(colors: Seq<RGB>) -> Seq<u8> {
    Seq::new(
        3 * colors.len(),
        |i: int|
            {
                let c = colors[i / 3];
                if i % 3 == 0 {
                    c.r
                } else if i % 3 == 1 {
                    c.g
                } else {
                    c.b
                }
            },
    )
}

/// Serializes palette colors as RGB byte triples.
pub fn palette_colors_to_bytes(colors: &[RGB]) -> (r: Vec<u8>)
    ensures
        r@ == palette_bytes(colors@),
{
    let n = colors.len();
    let mut bytes: Vec<u8> = Vec::new();
    let mut k: usize = 0;
    while k < n
        invariant
            n == colors@.len(),
            k <= n,
            bytes@ == palette_bytes(colors@.take(k as int)),
        decreases n - k,
    {
        let c = colors[k];
        bytes.push(c.r);
        bytes.push(c.g);
        bytes.push(c.b);
        k += 1;
        assert(bytes@ =~= palette_bytes(colors@.take(k as int))) by {
            assert forall|i: int| 0 <= i < 3 * k implies bytes@[i] == palette_bytes(
                colors@.take(k as int),
            )[i] by {
                assert(i / 3 < k);
                if i / 3 < k - 1 {
                    assert(colors@.take(k as int)[i / 3] == colors@.take(k - 1)[i / 3]);
                }
            }
        }
    }
    assert(colors@.take(n as int) =~= colors@);
    bytes
}

/// The byte at `i`, or `default` past the end.
pub open spec fn byte_or(bytes: Seq<u8>, i: int, default: u8) -> u8 {
    if 0 <= i < bytes.len() {
        bytes[i]
    } else {
        default
    }
}

/// The 256 colors of a palette stored as RGB triples; missing bytes read
/// as zero.
pub open spec fn palette_of(bytes: Seq<u8>) -> Seq<RGB> {
    Seq::new(
        256,
        |k: int| RGB { r: byte_or(bytes, 3 * k, 0), g: byte_or(bytes, 3 * k + 1, 0), b: byte_or(bytes, 3 * k + 2, 0) },
    )
}

/// The 256-color palette stored as RGB triples in `bytes`.
pub fn palette_bytes_to_colors(bytes: &[u8]) -> (r: Vec<RGB>)
    ensures
        r@ == palette_of(bytes@),
{
    let n = bytes.len();
    let mut colors: Vec<RGB> = Vec::new();
    let mut k: usize = 0;
    while k < 256
        invariant
            n == bytes@.len(),
            k <= 256,
            colors@ == palette_of(bytes@).take(k as int),
        decreases 256 - k,
    {
        let o = 3 * k;
        let r = if o < n {
            bytes[o]
        } else {
            0
        };
        let g = if o + 1 < n {
            bytes[o + 1]
        } else {
            0
        };
        let b = if o + 2 < n {
            bytes[o + 2]
        } else {
            0
        };
        colors.push(RGB { r, g, b });
        k += 1;
        assert(colors@ =~= palette_of(bytes@).take(k as int));
    }
    assert(palette_of(bytes@).take(256) =~= palette_of(bytes@));
    colors
}

/// A 256-color palette serialized as bytes reads back as the same colors.
pub proof fn law_palette_roundtrip(colors: Seq<RGB>)
    requires
        colors.len() == 256,
    ensures
        palette_of(palette_bytes(colors)) == colors,
{
    let b = palette_bytes(colors);
    assert forall|k: int| 0 <= k < 256 implies #[trigger] palette_of(b)[k] == colors[k] by {
        assert((3 * k) / 3 == k && (3 * k) % 3 == 0);
        assert((3 * k + 1) / 3 == k && (3 * k + 1) % 3 == 1);
        assert((3 * k + 2) / 3 == k && (3 * k + 2) % 3 == 2);
    }
    assert(palette_of(b) =~= colors);
}

/// Component `k` of each of `n` RGBA pixels of `buffer`; `default` where
/// the buffer ends early.
pub open spec fn rgba_component(buffer: Seq<u8>, n: int, k: int, default: u8) -> Seq<u8> {
    Seq::new(n as nat, |i: int| byte_or(buffer, 4 * i + k, default))
}

/// The channels a pattern of the given mode stores for an RGBA buffer:
/// gray or index channel from red for modes 1 and 2, red, green and blue
/// otherwise.
pub open spec fn pattern_channels(mode: u32, buffer: Seq<u8>, n: int) -> Seq<Seq<u8>> {
    if mode == 1 || mode == 2 {
        seq![rgba_component(buffer, n, 0, 0)]
    } else {
        seq![
            rgba_component(buffer, n, 0, 0),
            rgba_component(buffer, n, 1, 0),
            rgba_component(buffer, n, 2, 0),
        ]
    }
}

/// Extracts component `k` of `n` RGBA pixels.
fn component_of(buffer: &[u8], n: usize, k: usize, default: u8) -> (r: Vec<u8>)
    requires
        k < 4,
        4 * n <= usize::MAX,
    ensures
        r@ == rgba_component(buffer@, n as int, k as int, default),
{
    let len = buffer.len();
    let mut out: Vec<u8> = Vec::new();
    let mut i: usize = 0;
    while i < n
        invariant
            len == buffer@.len(),
            k < 4,
            4 * n <= usize::MAX,
            i <= n,
            out@ == rgba_component(buffer@, i as int, k as int, default),
        decreases n - i,
    {
        let o = 4 * i + k;
        let v = if o < len {
            buffer[o]
        } else {
            default
        };
        out.push(v);
        i += 1;
        assert(out@ =~= rgba_component(buffer@, i as int, k as int, default));
    }
    out
}

/// Splits an RGBA buffer of `width * height` pixels into the channels a
/// pattern of `mode` stores, and its alpha channel.
pub fn split_pattern_buffer(mode: u32, buffer: &[u8], width: usize, height: usize) -> (r: (
    Vec<Vec<u8>>,
    Vec<u8>,
))
    requires
        4 * width * height <= usize::MAX,
    ensures
        r.0.deep_view() == pattern_channels(mode, buffer@, width * height),
        r.1@ == rgba_component(buffer@, width * height, 3, 255),
{
    assert(width * height <= 4 * width * height) by (nonlinear_arith);
    let n = width * height;
    assert(4 * n <= usize::MAX) by (nonlinear_arith)
        requires
            n == width * height,
            4 * width * height <= usize::MAX,
    ;
    let alpha = component_of(buffer, n, 3, 255);
    let mut channels: Vec<Vec<u8>> = Vec::new();
    if mode == 1 || mode == 2 {
        channels.push(component_of(buffer, n, 0, 0));
    } else {
        channels.push(component_of(buffer, n, 0, 0));
        channels.push(component_of(buffer, n, 1, 0));
        channels.push(component_of(buffer, n, 2, 0));
    }
    let ghost expected = pattern_channels(mode, buffer@, n as int);
    assert forall|k: int| 0 <= k < channels@.len() implies #[trigger] channels.deep_view()[k]
        =~= expected[k] by {
        assert(channels.deep_view()[k] == channels@[k].deep_view());
    }
    assert(channels.deep_view() =~= expected);
    (channels, alpha)
}

/// Alpha of pixel `i`: from the alpha channel when there is one, 255
/// where there is none or it ends early.
pub open spec fn alpha_at(alpha: Option<Seq<u8>>, i: int) -> u8 {
    match alpha {
        Some(a) => byte_or(a, i, 255),
        None => 255,
    }
}

/// Channel `c`, or the first channel when there are fewer.
pub open spec fn channel_or_first(channels: Seq<Seq<u8>>, c: int) -> Seq<u8> {
    if c < channels.len() {
        channels[c]
    } else {
        channels[0]
    }
}

/// The palette color at `index`, black past the palette's end.
pub open spec fn palette_color(palette: Seq<RGB>, index: int) -> RGB {
    if 0 <= index < palette.len() {
        palette[index]
    } else {
        RGB { r: 0, g: 0, b: 0 }
    }
}

/// Component `k` (red, green, blue) of pixel `i` of a pattern of `mode`.
pub open spec fn pattern_color(
    mode: u32,
    palette: Seq<RGB>,
    channels: Seq<Seq<u8>>,
    i: int,
    k: int,
) -> u8 {
    if mode == 3 {
        byte_or(channel_or_first(channels, k), i, 0)
    } else if mode == 1 {
        byte_or(channels[0], i, 0)
    } else {
        let c = palette_color(palette, byte_or(channels[0], i, 0) as int);
        if k == 0 {
            c.r
        } else if k == 1 {
            c.g
        } else {
            c.b
        }
    }
}

/// Whether a pattern of `mode` can be turned into RGBA: RGB and gray
/// patterns need a channel, indexed ones a channel and a palette.
pub open spec fn pattern_interleaves(mode: u32, has_palette: bool, channel_count: int) -> bool {
    &&& channel_count > 0
    &&& (mode == 3 || mode == 1 || (mode == 2 && has_palette))
}

/// The RGBA pixels of a pattern of `n` pixels.
pub open spec fn pattern_rgba(
    mode: u32,
    palette: Seq<RGB>,
    channels: Seq<Seq<u8>>,
    alpha: Option<Seq<u8>>,
    n: int,
) -> Seq<u8> {
    Seq::new(
        (4 * n) as nat,
        |j: int|
            if j % 4 == 3 {
                alpha_at(alpha, j / 4)
            } else {
                pattern_color(mode, palette, channels, j / 4, j % 4)
            },
    )
}

/// Builds the RGBA pixels of a pattern from its channels: RGB (mode 3),
/// gray (mode 1) or palette indices (mode 2), with the alpha channel when
/// present.  `None` for other modes, or without the channel or palette
/// the mode needs.
pub fn interleave_pattern_buffer(
    mode: u32,
    width: usize,
    height: usize,
    palette: Option<&[RGB]>,
    channels: &[Vec<u8>],
    alpha: Option<&[u8]>,
) -> (r: Option<Vec<u8>>)
    requires
        4 * width * height <= usize::MAX,
    ensures
        r is Some <==> pattern_interleaves(mode, palette is Some, channels@.len() as int),
        r matches Some(b) ==> b@ == pattern_rgba(
            mode,
            match palette {
                Some(p) => p@,
                None => Seq::<RGB>::empty(),
            },
            channels.deep_view(),
            match alpha {
                Some(a) => Some(a@),
                None => None,
            },
            width * height,
        ),
{
    assert(width * height <= 4 * width * height) by (nonlinear_arith);
    let n = width * height;
    assert(4 * n <= usize::MAX) by (nonlinear_arith)
        requires
            n == width * height,
            4 * width * height <= usize::MAX,
    ;
    if channels.len() == 0 {
        return None;
    }
    if !(mode == 3 || mode == 1 || (mode == 2 && palette.is_some())) {
        return None;
    }
    let ghost pal = match palette {
        Some(p) => p@,
        None => Seq::<RGB>::empty(),
    };
    let ghost chs = channels.deep_view();
    let ghost al = match alpha {
        Some(a) => Some(a@),
        None => None,
    };
    let first = &channels[0];
    let green = if channels.len() > 1 {
        &channels[1]
    } else {
        first
    };
    let blue = if channels.len() > 2 {
        &channels[2]
    } else {
        first
    };
    let mut rgba: Vec<u8> = Vec::new();
    let mut i: usize = 0;
    while i < n
        invariant
            4 * n <= usize::MAX,
            i <= n,
            channels@.len() > 0,
            chs == channels.deep_view(),
            first@ == chs[0],
            green@ == channel_or_first(chs, 1),
            blue@ == channel_or_first(chs, 2),
            pal == (match palette {
                Some(p) => p@,
                None => Seq::<RGB>::empty(),
            }),
            al == (match alpha {
                Some(a) => Some(a@),
                None => None,
            }),
            mode == 3 || mode == 1 || mode == 2,
            rgba@ == pattern_rgba(mode, pal, chs, al, i as int),
        decreases n - i,
    {
        let a = match alpha {
            Some(a) => if i < a.len() {
                a[i]
            } else {
                255
            },
            None => 255,
        };
        let (r, g, b) = if mode == 3 {
            let r = if i < first.len() {
                first[i]
            } else {
                0
            };
            let g = if i < green.len() {
                green[i]
            } else {
                0
            };
            let b = if i < blue.len() {
                blue[i]
            } else {
                0
            };
            (r, g, b)
        } else if mode == 1 {
            let v = if i < first.len() {
                first[i]
            } else {
                0
            };
            (v, v, v)
        } else {
            let index = if i < first.len() {
                first[i]
            } else {
                0
            };
            let c = match palette {
                Some(p) => if (index as usize) < p.len() {
                    p[index as usize]
                } else {
                    RGB { r: 0, g: 0, b: 0 }
                },
                None => RGB { r: 0, g: 0, b: 0 },
            };
            (c.r, c.g, c.b)
        };
        let ghost before = rgba@;
        rgba.push(r);
        rgba.push(g);
        rgba.push(b);
        rgba.push(a);
        i += 1;
        assert(rgba@ =~= pattern_rgba(mode, pal, chs, al, i as int)) by {
            assert forall|j: int| 0 <= j < 4 * i implies #[trigger] rgba@[j] == pattern_rgba(
                mode,
                pal,
                chs,
                al,
                i as int,
            )[j] by {
                if j < 4 * (i - 1) {
                    assert(rgba@[j] == before[j]);
                } else {
                    assert(j / 4 == i - 1);
                }
            }
        }
    }
    Some(rgba)
}

/// An RGB pattern buffer split into its channels and alpha interleaves
/// back into the same buffer.
pub proof fn law_rgb_pattern_split_roundtrip(buffer: Seq<u8>, n: int)
    requires
        0 <= n,
        buffer.len() == 4 * n,
    ensures
        pattern_rgba(
            3,
            Seq::<RGB>::empty(),
            pattern_channels(3, buffer, n),
            Some(rgba_component(buffer, n, 3, 255)),
            n,
        ) == buffer,
{
    let chs = pattern_channels(3, buffer, n);
    let out = pattern_rgba(3, Seq::<RGB>::empty(), chs, Some(rgba_component(buffer, n, 3, 255)), n);
    assert forall|j: int| 0 <= j < 4 * n implies #[trigger] out[j] == buffer[j] by {
        let i = j / 4;
        let k = j % 4;
        assert(4 * i + k == j);
    }
    assert(out =~= buffer);
}

/// The stored record of one pattern channel: depth 8, its rectangle,
/// RLE compression flag and the RLE encoding of its rows.
pub open spec fn pattern_channel_record(ch: Seq<u8>, w: int, h: int) -> Seq<u8> {
    be32(8) + be32(0) + be32(0) + be32(w as u32) + be32(h as u32) + be16(1) + seq![1u8] + rle_encode(
        ch,
        w,
        h,
    )
}

/// One present channel slot: the flag, the record's length and the record.
pub open spec fn pattern_slot(ch: Seq<u8>, w: int, h: int) -> Seq<u8> {
    be32(1) + be32(pattern_channel_record(ch, w, h).len() as u32) + pattern_channel_record(ch, w, h)
}

/// Channel slots `k` to 25: the pattern's channels first, the alpha
/// channel in slot 25, absent slots as a zero flag.
pub open spec fn pattern_slots(channels: Seq<Seq<u8>>, alpha: Seq<u8>, w: int, h: int, k: int) -> Seq<u8>
    decreases 26 - k,
{
    if k >= 26 {
        Seq::<u8>::empty()
    } else {
        (if k < channels.len() {
            pattern_slot(channels[k], w, h)
        } else if k == 25 {
            pattern_slot(alpha, w, h)
        } else {
            be32(0)
        }) + pattern_slots(channels, alpha, w, h, k + 1)
    }
}

/// The RGBA pixels a pattern entry is written from: its pixels, or
/// transparent black.
pub open spec fn pattern_pixels(rgba: Option<Seq<u8>>, n: int) -> Seq<u8> {
    match rgba {
        Some(d) => d,
        None => zeros(4 * n),
    }
}

/// The palette written for an indexed pattern: its palette, or 256 black
/// entries.
pub open spec fn written_palette(palette: Option<Seq<RGB>>) -> Seq<RGB> {
    match palette {
        Some(p) => p,
        None => Seq::new(256, |i: int| RGB { r: 0, g: 0, b: 0 }),
    }
}

/// The palette part of an indexed pattern's image: 256 colors (black
/// where the entry has none) and a zero word.
pub open spec fn pattern_palette_bytes(palette: Option<Seq<RGB>>) -> Seq<u8> {
    palette_bytes(written_palette(palette)) + be32(0)
}

/// The image rectangle and depth of a pattern: version 3, top, left,
/// bottom and right, depth 24.
pub open spec fn pattern_rect_bytes(w: int, h: int) -> Seq<u8> {
    be32(3) + be32(0) + be32(0) + be32(0) + be32(w as u32) + be32(h as u32) + be32(24)
}

/// The bytes of a pattern entry's image: the palette for indexed
/// patterns, the rectangle and depth, then the channel slots.
pub open spec fn pattern_image_bytes(
    mode: u32,
    palette: Option<Seq<RGB>>,
    rgba: Option<Seq<u8>>,
    w: int,
    h: int,
) -> Seq<u8> {
    let buffer = pattern_pixels(rgba, w * h);
    (if mode == 2 {
        pattern_palette_bytes(palette)
    } else {
        Seq::<u8>::empty()
    }) + pattern_rect_bytes(w, h) + pattern_slots(
        pattern_channels(mode, buffer, w * h),
        rgba_component(buffer, w * h, 3, 255),
        w,
        h,
        0,
    )
}

/// Writes one channel slot.
fn write_pattern_slot(writer: &mut PsdWriter, ch: &[u8], width: usize, height: usize) -> (r: PsdResult<()>)
    requires
        width <= 65535,
        height <= 65535,
        width * height <= ch@.len(),
        old(writer).offset + pattern_slot(ch@, width as int, height as int).len() <= usize::MAX,
    ensures
        r is Ok,
        old(writer).appended(final(writer), pattern_slot(ch@, width as int, height as int)),
{
    let encoded = compress_rle(ch, width, height)?;
    let ghost rec = pattern_channel_record(ch@, width as int, height as int);
    let mut channel_writer = PsdWriter::new(0);
    let ghost empty = channel_writer.written();
    proof {
        assert(rec.len() == 23 + encoded@.len());
    }
    channel_writer.write_u32(8)?;
    channel_writer.write_i32(0)?;
    channel_writer.write_i32(0)?;
    channel_writer.write_i32(width as i32)?;
    channel_writer.write_i32(height as i32)?;
    channel_writer.write_u16(1)?;
    channel_writer.write_u8(1)?;
    channel_writer.write_bytes(encoded.as_slice())?;
    assert(channel_writer.written() =~= rec);
    let bytes = channel_writer.into_buffer();
    let ghost before = writer.written();
    writer.write_u32(1)?;
    writer.write_u32(bytes.len() as u32)?;
    writer.write_bytes(bytes.as_slice())?;
    assert(writer.written() =~= before + pattern_slot(ch@, width as int, height as int));
    Ok(())
}

/// The RGBA pixels of an optional pixel data, as a sequence.
pub open spec fn pixels_of(rgba: Option<PixelData>) -> Option<Seq<u8>> {
    match rgba {
        Some(p) => Some(p.data@),
        None => None,
    }
}

/// The colors of an optional palette, as a sequence.
pub open spec fn palette_seq(palette: Option<Vec<RGB>>) -> Option<Seq<RGB>> {
    match palette {
        Some(p) => Some(p@),
        None => None,
    }
}

/// The bytes of a pattern entry: version, mode, height, width, the name
/// as UTF-16 with a trailing zero, the id as a Pascal string, then the
/// image.
pub open spec fn pattern_entry_bytes(e: PatternBlockEntry) -> Seq<u8> {
    be32(e.version) + be32(e.mode) + be16(e.height) + be16(e.width) + unicode_padded_bytes(e.name@)
        + pascal_bytes(vstd::utf8::encode_utf8(e.id@), 1) + pattern_image_bytes(
        e.mode,
        palette_seq(e.indexed_palette),
        pixels_of(e.rgba),
        e.width as int,
        e.height as int,
    )
}

proof fn lemma_slots_step(channels: Seq<Seq<u8>>, alpha: Seq<u8>, w: int, h: int, k: int)
    requires
        0 <= k < 26,
    ensures
        pattern_slots(channels, alpha, w, h, k) == (if k < channels.len() {
            pattern_slot(channels[k], w, h)
        } else if k == 25 {
            pattern_slot(alpha, w, h)
        } else {
            be32(0)
        }) + pattern_slots(channels, alpha, w, h, k + 1),
{
}

/// The bytes of a pattern entry before its image: version, mode, height,
/// width, the name as UTF-16 with a trailing zero, the id as a Pascal
/// string.
pub open spec fn pattern_header_bytes(e: PatternBlockEntry) -> Seq<u8> {
    be32(e.version) + be32(e.mode) + be16(e.height) + be16(e.width) + unicode_padded_bytes(e.name@)
        + pascal_bytes(vstd::utf8::encode_utf8(e.id@), 1)
}

/// Writes the channel slots of a pattern's image.
fn write_pattern_slots(
    writer: &mut PsdWriter,
    channels: &Vec<Vec<u8>>,
    alpha: &Vec<u8>,
    width: usize,
    height: usize,
) -> (r: PsdResult<()>)
    requires
        width <= 65535,
        height <= 65535,
        forall|c: int| 0 <= c < channels@.len() ==> (#[trigger] channels@[c])@.len() == width * height,
        alpha@.len() == width * height,
        old(writer).offset + pattern_slots(
            channels.deep_view(),
            alpha@,
            width as int,
            height as int,
            0,
        ).len() <= usize::MAX,
    ensures
        r is Ok,
        old(writer).appended(
            final(writer),
            pattern_slots(channels.deep_view(), alpha@, width as int, height as int, 0),
        ),
{
    let ghost chs = channels.deep_view();
    let ghost w = width as int;
    let ghost h = height as int;
    let ghost base = writer.written();
    let ghost all = pattern_slots(chs, alpha@, w, h, 0);
    let mut k: usize = 0;
    while k < 26
        invariant
            k <= 26,
            chs == channels.deep_view(),
            forall|c: int| 0 <= c < channels@.len() ==> (#[trigger] channels@[c])@.len() == w * h,
            alpha@.len() == w * h,
            w == width,
            h == height,
            width <= 65535,
            height <= 65535,
            all == pattern_slots(chs, alpha@, w, h, 0),
            base == old(writer).written(),
            writer.written() + pattern_slots(chs, alpha@, w, h, k as int) == base + all,
            old(writer).offset + all.len() <= usize::MAX,
            writer.offset == writer.written().len(),
            writer.offset <= writer.buffer@.len() || (k == 0 && writer.offset == old(writer).offset
                && writer.buffer@ == old(writer).buffer@),
            writer.large == old(writer).large,
            writer.color_mode == old(writer).color_mode,
            writer.global_alpha == old(writer).global_alpha,
        decreases 26 - k,
    {
        proof {
            lemma_slots_step(chs, alpha@, w, h, k as int);
            assert((writer.written() + pattern_slots(chs, alpha@, w, h, k as int)).len() == (base
                + all).len());
        }
        if k < channels.len() {
            assert(chs[k as int] == channels@[k as int]@);
            write_pattern_slot(writer, channels[k].as_slice(), width, height)?;
        } else if k == 25 {
            write_pattern_slot(writer, alpha.as_slice(), width, height)?;
        } else {
            writer.write_u32(0)?;
        }
        k += 1;
    }
    assert(pattern_slots(chs, alpha@, w, h, 26) =~= Seq::<u8>::empty());
    assert(writer.written() =~= base + all);
    Ok(())
}

/// Writes the palette part of an indexed pattern's image.
fn write_pattern_palette(writer: &mut PsdWriter, palette: &Option<Vec<RGB>>) -> (r: PsdResult<()>)
    requires
        old(writer).offset + pattern_palette_bytes(palette_seq(*palette)).len() <= usize::MAX,
    ensures
        r is Ok,
        old(writer).appended(final(writer), pattern_palette_bytes(palette_seq(*palette))),
{
    let ghost before = writer.written();
    let colors = match palette {
        Some(p) => palette_colors_to_bytes(p.as_slice()),
        None => {
            let mut black: Vec<RGB> = Vec::new();
            let mut i: usize = 0;
            while i < 256
                invariant
                    i <= 256,
                    black@ == Seq::new(i as nat, |j: int| RGB { r: 0, g: 0, b: 0 }),
                decreases 256 - i,
            {
                black.push(RGB { r: 0, g: 0, b: 0 });
                i += 1;
                assert(black@ =~= Seq::new(i as nat, |j: int| RGB { r: 0, g: 0, b: 0 }));
            }
            palette_colors_to_bytes(black.as_slice())
        },
    };
    assert(colors@ == palette_bytes(written_palette(palette_seq(*palette))));
    writer.write_bytes(colors.as_slice())?;
    writer.write_u32(0)?;
    assert(writer.written() =~= before + pattern_palette_bytes(palette_seq(*palette)));
    Ok(())
}

/// Writes the rectangle and depth of a pattern's image.
fn write_pattern_rect(writer: &mut PsdWriter, width: usize, height: usize) -> (r: PsdResult<()>)
    requires
        width <= 65535,
        height <= 65535,
        old(writer).offset + 28 <= usize::MAX,
    ensures
        r is Ok,
        old(writer).appended(final(writer), pattern_rect_bytes(width as int, height as int)),
{
    let ghost before = writer.written();
    writer.write_u32(3)?;
    writer.write_u32(0)?;
    writer.write_i32(0)?;
    writer.write_i32(0)?;
    writer.write_i32(width as i32)?;
    writer.write_i32(height as i32)?;
    writer.write_u32(24)?;
    assert(writer.written() =~= before + pattern_rect_bytes(width as int, height as int));
    Ok(())
}

/// Each channel `pattern_channels` gives holds `n` samples.
proof fn lemma_pattern_channel_lengths(mode: u32, buffer: Seq<u8>, n: int)
    requires
        n >= 0,
    ensures
        forall|c: int|
            0 <= c < pattern_channels(mode, buffer, n).len() ==> (#[trigger] pattern_channels(
                mode,
                buffer,
                n,
            )[c]).len() == n,
{
}

/// Writes the image of a pattern entry (see `pattern_image_bytes`).
fn write_pattern_image(
    writer: &mut PsdWriter,
    mode: u32,
    palette: &Option<Vec<RGB>>,
    rgba: &Option<PixelData>,
    width: usize,
    height: usize,
) -> (r: PsdResult<()>)
    requires
        width <= 65535,
        height <= 65535,
        4 * width * height <= usize::MAX,
        old(writer).offset + pattern_image_bytes(
            mode,
            palette_seq(*palette),
            pixels_of(*rgba),
            width as int,
            height as int,
        ).len() <= usize::MAX,
    ensures
        r is Ok,
        old(writer).appended(
            final(writer),
            pattern_image_bytes(mode, palette_seq(*palette), pixels_of(*rgba), width as int, height as int),
        ),
{
    let ghost w = width as int;
    let ghost h = height as int;
    let ghost before = writer.written();
    let ghost image = pattern_image_bytes(mode, palette_seq(*palette), pixels_of(*rgba), w, h);
    assert(width * height <= 4 * width * height) by (nonlinear_arith);
    assert(4 * (width * height) == 4 * width * height) by (nonlinear_arith);
    let n = width * height;
    let buffer: Vec<u8> = match rgba {
        Some(px) => px.data.clone(),
        None => vec![0u8; n * 4],
    };
    proof {
        assert(buffer@ == pattern_pixels(pixels_of(*rgba), w * h)) by {
            if rgba is None {
                assert(buffer@ =~= zeros(4 * (w * h)));
            }
        }
    }
    let (channels, alpha) = split_pattern_buffer(mode, buffer.as_slice(), width, height);
    let ghost slots = pattern_slots(channels.deep_view(), alpha@, w, h, 0);
    let ghost pal_part = if mode == 2 {
        pattern_palette_bytes(palette_seq(*palette))
    } else {
        Seq::<u8>::empty()
    };
    let ghost rect = pattern_rect_bytes(w, h);
    assert(image == pal_part + rect + slots);
    if mode == 2 {
        write_pattern_palette(writer, palette)?;
    }
    assert(writer.written() =~= before + pal_part);
    write_pattern_rect(writer, width, height)?;
    assert(writer.written() =~= before + pal_part + rect);
    proof {
        lemma_pattern_channel_lengths(mode, buffer@, w * h);
        assert forall|c: int| 0 <= c < channels@.len() implies (#[trigger] channels@[c])@.len()
            == width * height by {
            assert(channels.deep_view()[c] == channels@[c]@);
        }
    }
    write_pattern_slots(writer, &channels, &alpha, width, height)?;
    assert(writer.written() =~= before + image);
    Ok(())
}

impl PsdWriter {
    /// Writes a pattern entry (see `pattern_entry_bytes`); an id longer
    /// than 255 bytes is refused.
    pub fn write_pattern_entry(&mut self, entry: &PatternBlockEntry) -> (r: PsdResult<()>)
        requires
            4 * (entry.width as int) * (entry.height as int) <= usize::MAX,
            old(self).offset + pattern_entry_bytes(*entry).len() + 512 <= usize::MAX,
        ensures
            r is Ok <==> vstd::utf8::encode_utf8(entry.id@).len() <= 255,
            r is Ok ==> old(self).appended(final(self), pattern_entry_bytes(*entry)),
    {
        let ghost before = self.written();
        let ghost head = pattern_header_bytes(*entry);
        let ghost image = pattern_image_bytes(
            entry.mode,
            palette_seq(entry.indexed_palette),
            pixels_of(entry.rgba),
            entry.width as int,
            entry.height as int,
        );
        assert(pattern_entry_bytes(*entry) =~= head + image);
        proof {
            crate::bytes::lemma_be16_list_len(utf16_encode(entry.name@));
        }
        self.write_u32(entry.version)?;
        self.write_u32(entry.mode)?;
        self.write_u16(entry.height)?;
        self.write_u16(entry.width)?;
        self.write_unicode_string_with_padding(entry.name.as_str())?;
        self.write_pascal_string(entry.id.as_str(), 1)?;
        assert(self.written() =~= before + head);
        write_pattern_image(
            self,
            entry.mode,
            &entry.indexed_palette,
            &entry.rgba,
            entry.width as usize,
            entry.height as usize,
        )?;
        assert(self.written() =~= before + pattern_entry_bytes(*entry));
        Ok(())
    }
}


/// An entry as a pattern block stores it: its length, its bytes and zeros
/// up to a multiple of four.
#[verifier::opaque]
pub open spec fn framed_pattern_entry(e: PatternBlockEntry) -> Seq<u8> {
    let b = pattern_entry_bytes(e);
    be32(b.len() as u32) + b + zeros(padding_after(b.len() as int, 4))
}

/// The payload of a pattern block: its entries framed one after another.
pub open spec fn pattern_block_bytes(entries: Seq<PatternBlockEntry>) -> Seq<u8>
    decreases entries.len(),
{
    if entries.len() == 0 {
        Seq::<u8>::empty()
    } else {
        pattern_block_bytes(entries.drop_last()) + framed_pattern_entry(entries.last())
    }
}

/// Whether every entry can be written: its pixel count fits in memory
/// four times over.
pub open spec fn pattern_entries_fit(entries: Seq<PatternBlockEntry>) -> bool {
    forall|i: int|
        0 <= i < entries.len() ==> 4 * ((#[trigger] entries[i]).width as int) * (entries[i].height as int)
            <= usize::MAX
}

/// The payload of the first `k` entries is a prefix of that of all.
proof fn lemma_block_prefix(entries: Seq<PatternBlockEntry>, k: int)
    requires
        0 <= k <= entries.len(),
    ensures
        pattern_block_bytes(entries.take(k)).len() + framed_pattern_entry_len_from(entries, k)
            == pattern_block_bytes(entries).len(),
        framed_pattern_entry_len_from(entries, k) >= 0,
    decreases entries.len() - k,
{
    if k < entries.len() {
        lemma_block_prefix(entries, k + 1);
        assert(entries.take(k + 1).drop_last() =~= entries.take(k));
    } else {
        assert(entries.take(k) =~= entries);
    }
}

/// The total length of the framed entries from `k` on.
pub open spec fn framed_pattern_entry_len_from(entries: Seq<PatternBlockEntry>, k: int) -> int
    decreases entries.len() - k,
{
    if k >= entries.len() {
        0
    } else {
        framed_pattern_entry(entries[k]).len() + framed_pattern_entry_len_from(entries, k + 1)
    }
}

/// Whether every entry's id fits a Pascal string.
pub open spec fn pattern_ids_fit(entries: Seq<PatternBlockEntry>) -> bool {
    forall|i: int|
        0 <= i < entries.len() ==> vstd::utf8::encode_utf8((#[trigger] entries[i]).id@).len() <= 255
}

impl PsdWriter {
    /// Writes one entry of a pattern block (see `framed_pattern_entry`);
    /// an id longer than 255 bytes is refused.
    fn write_framed_pattern_entry(&mut self, entry: &PatternBlockEntry) -> (r: PsdResult<()>)
        requires
            4 * (entry.width as int) * (entry.height as int) <= usize::MAX,
            old(self).offset + framed_pattern_entry(*entry).len() + 512 <= usize::MAX,
        ensures
            r is Ok <==> vstd::utf8::encode_utf8(entry.id@).len() <= 255,
            r is Ok ==> old(self).appended(final(self), framed_pattern_entry(*entry)),
    {
        let ghost b = pattern_entry_bytes(*entry);
        proof {
            reveal(framed_pattern_entry);
        }
        let mut entry_writer = PsdWriter::new(1024);
        match entry_writer.write_pattern_entry(entry) {
            Ok(()) => {},
            Err(e) => {
                return Err(e);
            },
        }
        let bytes = entry_writer.into_buffer();
        assert(bytes@ == b);
        let ghost mid = self.written();
        self.write_u32(bytes.len() as u32)?;
        self.write_bytes(bytes.as_slice())?;
        let remainder = bytes.len() % 4;
        if remainder != 0 {
            self.write_zeros(4 - remainder)?;
        } else {
            assert(zeros(padding_after(b.len() as int, 4)) =~= Seq::<u8>::empty());
        }
        assert(self.written() =~= mid + framed_pattern_entry(*entry));
        Ok(())
    }

    /// Writes the payload of a pattern block (see `pattern_block_bytes`);
    /// an entry whose id is longer than 255 bytes is refused.
    pub fn write_pattern_block(&mut self, block: &PatternBlock) -> (r: PsdResult<()>)
        requires
            pattern_entries_fit(block.patterns@),
            old(self).offset + pattern_block_bytes(block.patterns@).len() + 512 <= usize::MAX,
        ensures
            r is Ok <==> pattern_ids_fit(block.patterns@),
            r is Ok ==> old(self).appended(final(self), pattern_block_bytes(block.patterns@)),
    {
        let ghost all = block.patterns@;
        self.ensure_capacity(0);
        let mut k: usize = 0;
        proof {
            lemma_block_prefix(all, 0);
            assert(all.take(0) =~= Seq::<PatternBlockEntry>::empty());
        }
        while k < block.patterns.len()
            invariant
                all == block.patterns@,
                k <= all.len(),
                pattern_entries_fit(all),
                old(self).offset + pattern_block_bytes(all).len() + 512 <= usize::MAX,
                forall|i: int| 0 <= i < k ==> vstd::utf8::encode_utf8((#[trigger] all[i]).id@).len()
                    <= 255,
                old(self).appended(self, pattern_block_bytes(all.take(k as int))),
            decreases all.len() - k,
        {
            proof {
                lemma_block_prefix(all, k as int);
                lemma_block_prefix(all, k + 1);
                assert(all.take(k + 1).drop_last() =~= all.take(k as int));
                assert(all.take(k + 1).last() == all[k as int]);
                assert(4 * (all[k as int].width as int) * (all[k as int].height as int) <= usize::MAX);
            }
            let ghost mid = self.written();
            match self.write_framed_pattern_entry(&block.patterns[k]) {
                Ok(()) => {},
                Err(e) => {
                    return Err(e);
                },
            }
            assert(self.written() =~= old(self).written() + pattern_block_bytes(all.take(k + 1)));
            k += 1;
        }
        proof {
            assert(all.take(all.len() as int) =~= all);
        }
        Ok(())
    }
}


/// The `j`-th 32-bit value from `p`.
pub open spec fn listed_at(b: Seq<u8>, p: int, j: int) -> u32 {
    read32(b, p + 4 * j)
}

/// Whether some of the `n` 32-bit values from `p` equals `k`.
pub open spec fn lists_index(b: Seq<u8>, p: int, n: int, k: int) -> bool {
    exists|j: int| 0 <= j < n && #[trigger] listed_at(b, p, j) == k
}

/// The blending restrictions of channels 0 to 2 from `n` listed channel
/// indexes at `p`: 0 for a listed channel, 1 otherwise.
pub open spec fn restrictions_of(b: Seq<u8>, p: int, n: int) -> Seq<u8> {
    Seq::new(3, |k: int| if lists_index(b, p, n, k) { 0u8 } else { 1u8 })
}

/// Reads blending restrictions (brst): one 32-bit channel index per four
/// bytes; channels 0 to 2 that are listed are restricted (0), the others
/// not (1).  Indexes of other channels are ignored.
pub fn read_blending_restrictions(reader: &mut PsdReader, length: usize) -> (r: PsdResult<[u8; 3]>)
    requires
        old(reader).offset + length <= u64::MAX,
    ensures
        ({
            let n = (length / 4) as int;
            let b = old(reader).input();
            let p = old(reader).position as int;
            match r {
                Ok(v) => (n == 0 || old(reader).can_read(4 * n)) && v@ == restrictions_of(b, p, n)
                    && old(reader).moved(final(reader), 4 * n),
                Err(e) => e is Io && !old(reader).can_read(4 * n) && final(reader).same_source(
                    old(reader),
                ),
            }
        }),
{
    let ghost s0 = *reader;
    let ghost b = reader.input();
    let ghost p = reader.position as int;
    let count = length / 4;
    let mut open0 = true;
    let mut open1 = true;
    let mut open2 = true;
    let mut k: usize = 0;
    while k < count
        invariant
            k <= count,
            count == length / 4,
            s0 == *old(reader),
            b == s0.input(),
            p == s0.position,
            s0.offset + length <= u64::MAX,
            k > 0 ==> s0.can_read(4 * k),
            s0.moved(reader, 4 * k),
            open0 == !lists_index(b, p, k as int, 0),
            open1 == !lists_index(b, p, k as int, 1),
            open2 == !lists_index(b, p, k as int, 2),
        decreases count - k,
    {
        let index = match reader.read_u32() {
            Ok(v) => v,
            Err(e) => {
                return Err(e);
            },
        };
        assert(index == listed_at(b, p, k as int));
        if index == 0 {
            open0 = false;
        } else if index == 1 {
            open1 = false;
        } else if index == 2 {
            open2 = false;
        }
        k += 1;
        proof {
            assert forall|c: int| 0 <= c < 3 implies lists_index(b, p, k as int, c) == (lists_index(
                b,
                p,
                k - 1,
                c,
            ) || index == c) by {
                if lists_index(b, p, k as int, c) {
                    let j = choose|j: int| 0 <= j < k && #[trigger] listed_at(b, p, j) == c;
                    if j < k - 1 {
                        assert(lists_index(b, p, k - 1, c));
                    }
                }
                if index == c {
                    assert(listed_at(b, p, k - 1) == c);
                }
                if lists_index(b, p, k - 1, c) {
                    let j = choose|j: int| 0 <= j < k - 1 && #[trigger] listed_at(b, p, j) == c;
                    assert(0 <= j < k && listed_at(b, p, j) == c);
                }
            }
        }
    }
    let v = [if open0 {
        1u8
    } else {
        0u8
    }, if open1 {
        1u8
    } else {
        0u8
    }, if open2 {
        1u8
    } else {
        0u8
    }];
    assert(v@ =~= restrictions_of(b, p, count as int));
    Ok(v)
}


/// The stored code of a layer color, 0 to 7.
pub open spec fn layer_color_code(c: LayerColor) -> u16 {
    match c {
        LayerColor::NoColor => 0,
        LayerColor::Red => 1,
        LayerColor::Orange => 2,
        LayerColor::Yellow => 3,
        LayerColor::Green => 4,
        LayerColor::Blue => 5,
        LayerColor::Violet => 6,
        LayerColor::Gray => 7,
    }
}

/// The layer color labels of the layers panel by their stored code: none 0,
/// red 1, orange 2, yellow 3, green 4, blue 5, violet 6, gray 7.
pub proof fn law_layer_color_numbering(c: LayerColor)
    ensures
        layer_color_code(c) == 0 <==> c == LayerColor::NoColor,
        layer_color_code(c) == 1 <==> c == LayerColor::Red,
        layer_color_code(c) == 2 <==> c == LayerColor::Orange,
        layer_color_code(c) == 3 <==> c == LayerColor::Yellow,
        layer_color_code(c) == 4 <==> c == LayerColor::Green,
        layer_color_code(c) == 5 <==> c == LayerColor::Blue,
        layer_color_code(c) == 6 <==> c == LayerColor::Violet,
        layer_color_code(c) == 7 <==> c == LayerColor::Gray,
        layer_color_code(c) <= 7,
{
}

/// Reads a layer color (lclr): a 16-bit code and six padding bytes.  A
/// code above 7 is an invalid format.
pub fn read_layer_color(reader: &mut PsdReader) -> (r: PsdResult<LayerColor>)
    requires
        old(reader).offset + 8 <= u64::MAX,
    ensures
        ({
            let code = read16(old(reader).input(), old(reader).position as int);
            match r {
                Ok(c) => old(reader).can_read(8) && layer_color_code(c) == code && old(reader).moved(
                    final(reader),
                    8,
                ),
                Err(e) => (!old(reader).can_read(8) && e is Io) || (old(reader).can_read(8) && code
                    > 7 && e is InvalidFormat),
            }
        }),
{
    let b = reader.read_bytes(8)?;
    let code = crate::bytes::u16_from_be(b[0], b[1]);
    match code {
        0 => Ok(LayerColor::NoColor),
        1 => Ok(LayerColor::Red),
        2 => Ok(LayerColor::Orange),
        3 => Ok(LayerColor::Yellow),
        4 => Ok(LayerColor::Green),
        5 => Ok(LayerColor::Blue),
        6 => Ok(LayerColor::Violet),
        7 => Ok(LayerColor::Gray),
        _ => Err(crate::error::invalid_format("Invalid layer color")),
    }
}

/// The stored bytes of a layer color: its code and six zero bytes.
pub open spec fn layer_color_bytes(c: LayerColor) -> Seq<u8> {
    be16(layer_color_code(c)) + zeros(6)
}

impl PsdWriter {
    /// Writes a layer color (see `layer_color_bytes`).
    pub fn write_layer_color(&mut self, color: LayerColor) -> (r: PsdResult<()>)
        requires
            old(self).offset + 8 <= usize::MAX,
        ensures
            r is Ok,
            old(self).appended(final(self), layer_color_bytes(color)),
    {
        let ghost before = self.written();
        let code: u16 = match color {
            LayerColor::NoColor => 0,
            LayerColor::Red => 1,
            LayerColor::Orange => 2,
            LayerColor::Yellow => 3,
            LayerColor::Green => 4,
            LayerColor::Blue => 5,
            LayerColor::Violet => 6,
            LayerColor::Gray => 7,
        };
        self.write_u16(code)?;
        self.write_zeros(6)?;
        assert(self.written() =~= before + layer_color_bytes(color));
        Ok(())
    }
}

/// A layer color written as bytes reads back as the same color.
pub proof fn law_layer_color_roundtrip(pre: Seq<u8>, c: LayerColor, post: Seq<u8>)
    ensures
        ({
            let s = pre + layer_color_bytes(c) + post;
            &&& read16(s, pre.len() as int) == layer_color_code(c)
            &&& layer_color_bytes(c).len() == 8
            &&& forall|d: LayerColor| layer_color_code(d) == layer_color_code(c) ==> d == c
        }),
{
    let s = pre + layer_color_bytes(c) + post;
    let p = pre.len() as int;
    assert(s.subrange(p, p + 2) =~= be16(layer_color_code(c)));
    crate::bytes::lemma_read16_at(s, p, layer_color_code(c));
}

} // verus!

//! The color mode data section: the palette of indexed documents, stored
//! as 256 red, then 256 green, then 256 blue bytes, or opaque bytes kept
//! as they are for other color modes.

use crate::bytes::{be32, lemma_read32_at, read32};
use crate::error::{invalid_format, unsupported, PsdResult};
use crate::io::reader::PsdReader;
use crate::io::writer::PsdWriter;
use crate::psd::ColorModeSectionData;
use crate::types::{ColorMode, RGB};
use vstd::prelude::*;

verus! {

/// The 256 colors of a palette stored as planes: reds, greens, blues.
pub open spec fn planar_palette(b: Seq<u8>) -> Seq<RGB> {
    Seq::new(256, |k: int| RGB { r: b[k], g: b[256 + k], b: b[512 + k] })
}

/// The planes of a palette: all reds, then all greens, then all blues.
pub open spec fn palette_planes(p: Seq<RGB>) -> Seq<u8> {
    Seq::new(3 * p.len(), |i: int| {
        let n = p.len() as int;
        if i < n {
            p[i].r
        } else if i < 2 * n {
            p[i - n].g
        } else {
            p[i - 2 * n].b
        }
    })
}

/// Whether a color mode is indexed.
pub open spec fn is_indexed(mode: Option<ColorMode>) -> bool {
    mode == Some(ColorMode::Indexed)
}

/// Whether the color mode data section at the reader's position can be
/// read: its length field and payload lie inside the enclosing section and
/// the input, and an indexed document's non-empty payload is a 768-byte
/// palette.
pub open spec fn color_mode_data_ok(r: PsdReader, mode: Option<ColorMode>) -> bool {
    let len = read32(r.input(), r.offset as int) as int;
    &&& r.can_read(4)
    &&& r.within_section(4 + len)
    &&& r.offset + 4 + len <= r.input().len()
    &&& (is_indexed(mode) && len != 0 ==> len == 768)
}

/// Reads the color mode data section for a document of color mode `mode`:
/// the palette of an indexed document (with empty section data), the
/// section's bytes for other modes, nothing for an empty section.
pub fn read_color_mode_data(reader: &mut PsdReader, mode: Option<ColorMode>) -> (r: PsdResult<
    (Option<Vec<RGB>>, Option<ColorModeSectionData>),
>)
    ensures
        r is Ok <==> color_mode_data_ok(*old(reader), mode),
        r matches Err(e) ==> (e is Io || e is InvalidFormat) && final(reader).same_source(old(reader)),
        r matches Ok((palette, data)) ==> ({
            let b = old(reader).input();
            let o = old(reader).offset as int;
            let len = read32(b, o) as int;
            &&& old(reader).moved(final(reader), 4 + len)
            &&& if len == 0 {
                palette is None && data is None
            } else if is_indexed(mode) {
                &&& palette matches Some(p) && p@ == planar_palette(b.subrange(o + 4, o + 4 + 768))
                &&& data matches Some(d) && d.bytes@.len() == 0
            } else {
                &&& palette is None
                &&& data matches Some(d) && d.bytes@ == b.subrange(o + 4, o + 4 + len)
            }
        }),
{
    let ghost s0 = *reader;
    let input_len = reader.data.len();
    let length = reader.read_u32()? as usize;
    let start = reader.offset;
    let end = match start.checked_add(length as u64) {
        Some(v) => v,
        None => {
            assert(input_len as int <= u64::MAX);
            return Err(invalid_format("Section length overflow"));
        },
    };
    reader.ensure_within_section(length as u64)?;
    if end > reader.data.len() as u64 {
        return Err(invalid_format("Section length exceeds available input"));
    }
    let previous = reader.push_section_bound(end);
    let result: PsdResult<(Option<Vec<RGB>>, Option<ColorModeSectionData>)> = if length == 0 {
        Ok((None, None))
    } else if mode == Some(ColorMode::Indexed) {
        if length != 768 {
            Err(invalid_format("Invalid color palette size"))
        } else {
            let bytes = match reader.read_bytes(768) {
                Ok(b) => b,
                Err(e) => {
                    reader.pop_section_bound(previous);
                    return Err(e);
                },
            };
            let mut palette: Vec<RGB> = Vec::new();
            let mut k: usize = 0;
            while k < 256
                invariant
                    k <= 256,
                    bytes@.len() == 768,
                    palette@ == planar_palette(bytes@).take(k as int),
                decreases 256 - k,
            {
                palette.push(RGB { r: bytes[k], g: bytes[256 + k], b: bytes[512 + k] });
                k += 1;
                assert(palette@ =~= planar_palette(bytes@).take(k as int));
            }
            assert(planar_palette(bytes@).take(256) =~= planar_palette(bytes@));
            Ok((Some(palette), Some(ColorModeSectionData { bytes: Vec::new() })))
        }
    } else {
        match reader.read_bytes(length) {
            Ok(b) => Ok((None, Some(ColorModeSectionData { bytes: b }))),
            Err(e) => {
                reader.pop_section_bound(previous);
                return Err(e);
            },
        }
    };
    reader.pop_section_bound(previous);
    result
}

/// The payload a document's color mode data section holds: the palette
/// planes for an indexed document, its section bytes otherwise.
pub open spec fn color_mode_payload(
    mode: Option<ColorMode>,
    palette: Option<Seq<RGB>>,
    data: Option<Seq<u8>>,
) -> Seq<u8> {
    if is_indexed(mode) {
        palette_planes(palette->0)
    } else {
        match data {
            Some(d) => d,
            None => Seq::<u8>::empty(),
        }
    }
}

/// Whether a document's color mode data can be written: an indexed
/// document needs a palette of 256 colors, other data must fit a 32-bit
/// length.
pub open spec fn color_mode_data_writable(
    mode: Option<ColorMode>,
    palette: Option<Seq<RGB>>,
    data: Option<Seq<u8>>,
) -> bool {
    if is_indexed(mode) {
        palette matches Some(p) && p.len() == 256
    } else {
        color_mode_payload(mode, palette, data).len() <= u32::MAX
    }
}

/// Writes the color mode data section: the payload's 32-bit length, then
/// the payload (see `color_mode_payload`).  An indexed document without a
/// 256-color palette is refused.
pub fn write_color_mode_data(
    writer: &mut PsdWriter,
    mode: Option<ColorMode>,
    palette: Option<&[RGB]>,
    data: Option<&ColorModeSectionData>,
) -> (r: PsdResult<()>)
    requires
        old(writer).offset + 4 + color_mode_payload(
            mode,
            match palette {
                Some(p) => Some(p@),
                None => None,
            },
            match data {
                Some(d) => Some(d.bytes@),
                None => None,
            },
        ).len() <= usize::MAX,
    ensures
        ({
            let pal = match palette {
                Some(p) => Some(p@),
                None => None,
            };
            let dat = match data {
                Some(d) => Some(d.bytes@),
                None => None,
            };
            let payload = color_mode_payload(mode, pal, dat);
            &&& r is Ok <==> color_mode_data_writable(mode, pal, dat)
            &&& r is Ok ==> old(writer).appended(final(writer), be32(payload.len() as u32) + payload)
        }),
{
    let ghost before = writer.written();
    if mode == Some(ColorMode::Indexed) {
        let p = match palette {
            Some(p) => p,
            None => {
                return Err(invalid_format("Indexed color mode requires palette"));
            },
        };
        if p.len() != 256 {
            return Err(invalid_format("Indexed color mode requires 256 palette entries"));
        }
        let mut bytes: Vec<u8> = Vec::new();
        let mut plane: usize = 0;
        while plane < 3
            invariant
                plane <= 3,
                p@.len() == 256,
                bytes@ == palette_planes(p@).take(256 * plane as int),
            decreases 3 - plane,
        {
            let mut k: usize = 0;
            while k < 256
                invariant
                    plane < 3,
                    k <= 256,
                    p@.len() == 256,
                    bytes@ == palette_planes(p@).take(256 * plane + k),
                decreases 256 - k,
            {
                let c = p[k];
                let v = if plane == 0 {
                    c.r
                } else if plane == 1 {
                    c.g
                } else {
                    c.b
                };
                bytes.push(v);
                k += 1;
                assert(bytes@ =~= palette_planes(p@).take(256 * plane + k));
            }
            plane += 1;
        }
        assert(palette_planes(p@).take(768) =~= palette_planes(p@));
        writer.write_u32(768)?;
        writer.write_bytes(bytes.as_slice())?;
        assert(writer.written() =~= before + (be32(768) + bytes@));
        Ok(())
    } else {
        let n = match data {
            Some(d) => d.bytes.len(),
            None => 0,
        };
        if n > 4294967295 {
            return Err(unsupported("Section exceeds the 4GiB wire limit"));
        }
        writer.write_u32(n as u32)?;
        match data {
            Some(d) => {
                writer.write_bytes(d.bytes.as_slice())?;
            },
            None => {},
        }
        assert(writer.written() =~= before + (be32(n as u32) + color_mode_payload(
            mode,
            match palette {
                Some(p) => Some(p@),
                None => None,
            },
            match data {
                Some(d) => Some(d.bytes@),
                None => None,
            },
        )));
        Ok(())
    }
}


/// Color mode data written for a document reads back as what was written:
/// an indexed document's palette, other documents' non-empty data.  Empty
/// data reads back as no data.
pub proof fn law_color_mode_data_roundtrip(
    pre: Seq<u8>,
    mode: Option<ColorMode>,
    palette: Option<Seq<RGB>>,
    data: Option<Seq<u8>>,
    post: Seq<u8>,
)
    requires
        color_mode_data_writable(mode, palette, data),
    ensures
        ({
            let payload = color_mode_payload(mode, palette, data);
            let s = pre + (be32(payload.len() as u32) + payload) + post;
            let p = pre.len() as int;
            &&& read32(s, p) == payload.len()
            &&& is_indexed(mode) ==> payload.len() == 768 && planar_palette(
                s.subrange(p + 4, p + 4 + 768),
            ) == palette->0
            &&& !is_indexed(mode) ==> s.subrange(p + 4, p + 4 + payload.len()) == payload
        }),
{
    let payload = color_mode_payload(mode, palette, data);
    let s = pre + (be32(payload.len() as u32) + payload) + post;
    let p = pre.len() as int;
    assert(s.subrange(p, p + 4) =~= be32(payload.len() as u32));
    lemma_read32_at(s, p, payload.len() as u32);
    assert(s.subrange(p + 4, p + 4 + payload.len()) =~= payload);
    if is_indexed(mode) {
        let pal = palette->0;
        assert(planar_palette(s.subrange(p + 4, p + 4 + 768)) =~= pal) by {
            assert forall|k: int| 0 <= k < 256 implies #[trigger] planar_palette(
                s.subrange(p + 4, p + 4 + 768),
            )[k] == pal[k] by {
                assert(s.subrange(p + 4, p + 4 + 768)[k] == payload[k]);
                assert(s.subrange(p + 4, p + 4 + 768)[256 + k] == payload[256 + k]);
                assert(s.subrange(p + 4, p + 4 + 768)[512 + k] == payload[512 + k]);
            }
        }
    }
}

} // verus!

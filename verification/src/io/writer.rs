//! PSD writer into an in-memory buffer.

use crate::bytes::{be16, be16_list, be32, lemma_be16_list_len, bits_from_i16, bits_from_i32, i16_bits, i32_bits};
use crate::error::{invalid_format, unsupported, PsdResult};
use crate::io::reader::padding_after;
use crate::strings::{utf16_encode, utf16_units};
use crate::layer::{LayerBlendingRangePair, LayerBlendingRangesData, LayerEdges, MaskEdges};
use crate::psd::{GlobalLayerMaskInfo, WriteOptions};
use crate::types::{ChannelID, Color, ColorMode, Compression, PixelData};
use vstd::prelude::*;
use vstd::std_specs::iter::IteratorSpec;
use vstd::string::StringSliceAdditionalSpecFns;

verus! {

/// `n` zero bytes.
pub open spec fn zeros(n: int) -> Seq<u8> {
    Seq::new(n as nat, |i: int| 0u8)
}

/// A byte of text as a Pascal string stores it: ASCII as is, anything else
/// as `?`.
pub open spec fn ascii_or_question(b: u8) -> u8 {
    if b < 128 {
        b
    } else {
        63u8
    }
}

/// The bytes of a Pascal string for text whose UTF-8 bytes are `bytes`:
/// the length byte, the text with non-ASCII bytes as `?`, zeros up to a
/// multiple of `pad_to`.
pub open spec fn pascal_bytes(bytes: Seq<u8>, pad_to: int) -> Seq<u8> {
    seq![bytes.len() as u8] + Seq::new(bytes.len(), |i: int| ascii_or_question(bytes[i])) + zeros(
        (pad_to - ((bytes.len() as int) + 1) % pad_to) % pad_to,
    )
}

/// A character of a layer name as the legacy Pascal field stores it: ASCII
/// as its byte, anything else as `?`.
pub open spec fn legacy_name_byte(c: char) -> u8 {
    if (c as u32) < 128 {
        c as u8
    } else {
        63u8
    }
}

/// The bytes of the legacy Pascal layer name: at most the first 255
/// characters, one byte each, after their count and before zeros up to a
/// multiple of `pad_to`.
pub open spec fn legacy_name_bytes(chars: Seq<char>, pad_to: int) -> Seq<u8> {
    let n: int = if chars.len() > 255 {
        255
    } else {
        chars.len() as int
    };
    seq![n as u8] + Seq::new(n as nat, |i: int| legacy_name_byte(chars[i])) + zeros(
        padding_after(n + 1, pad_to),
    )
}

/// The bytes of a UTF-16 string: its length in code units, then the units.
pub open spec fn unicode_bytes(chars: Seq<char>) -> Seq<u8> {
    be32(utf16_encode(chars).len() as u32) + be16_list(utf16_encode(chars))
}

/// The bytes of a UTF-16 string that counts and carries a trailing zero
/// unit.
pub open spec fn unicode_padded_bytes(chars: Seq<char>) -> Seq<u8> {
    be32((utf16_encode(chars).len() + 1) as u32) + be16_list(utf16_encode(chars)) + be16(0)
}

/// The ten bytes of the Photoshop color structure for a raw color.
pub open spec fn color_bytes(color: Option<Color>) -> Seq<u8> {
    match color {
        None => be16(0) + zeros(8),
        Some(Color::Rgb48 { red, green, blue }) => be16(0) + be16(red) + be16(green) + be16(blue)
            + be16(0),
        Some(Color::Hsb { hue, saturation, brightness }) => be16(1) + be16(hue) + be16(saturation)
            + be16(brightness) + be16(0),
        Some(Color::CMYK(c)) => be16(2) + be16(c.c) + be16(c.m) + be16(c.y) + be16(c.k),
        Some(Color::Lab { lightness, a, b }) => be16(7) + be16(lightness) + be16(i16_bits(a)) + be16(
            i16_bits(b),
        ) + be16(0),
        Some(Color::Grayscale(g)) => be16(8) + be16(g.k) + zeros(6),
        Some(Color::OpaqueColorSpace { color_space, components }) => be16(color_space) + be16(
            components[0],
        ) + be16(components[1]) + be16(components[2]) + be16(components[3]),
        Some(_) => seq![],
    }
}

/// Whether a color has a lossless Photoshop color structure.
pub open spec fn has_color_structure(color: Option<Color>) -> bool {
    match color {
        Some(Color::RGBA(_)) | Some(Color::RGB(_)) => false,
        _ => true,
    }
}

/// `s` with `b` written over it from position `at`.
pub open spec fn patched(s: Seq<u8>, at: int, b: Seq<u8>) -> Seq<u8> {
    s.subrange(0, at) + b + s.subrange(at + b.len(), s.len() as int)
}

/// Whether `fin` is `body` with its section closed: the section's 32-bit
/// length field starts at `at`, the content runs from `at + 4` to the
/// end of what `body` holds, zeros pad it to a multiple of `round`, and
/// the field holds the content length, with the padding when
/// `include_padding`.
pub open spec fn closed_section(
    body: PsdWriter,
    fin: PsdWriter,
    at: int,
    round: int,
    include_padding: bool,
) -> bool {
    let content = body.offset - (at + 4);
    let pad = padding_after(content, round);
    let stored = if include_padding {
        content + pad
    } else {
        content
    };
    &&& 0 <= at
    &&& 0 <= content
    &&& stored <= u32::MAX
    &&& fin.written() == patched(body.written(), at, be32(stored as u32)) + zeros(pad)
    &&& fin.offset <= fin.buffer@.len()
}

/// The bytes a section begins with before its content: its 32-bit
/// length field, after four zero bytes when `large`.
pub open spec fn section_head(large: bool) -> Seq<u8> {
    if large {
        be32(0) + be32(0)
    } else {
        be32(0)
    }
}

/// Whether a section whose length field starts at `at` can be closed once
/// `body` holds its content: the content and its padding to a multiple of
/// `round` fit in the 32-bit field and in memory.
pub open spec fn section_closes(body: PsdWriter, at: int, round: int) -> bool {
    let content = body.offset - (at + 4);
    let pad = padding_after(content, round);
    &&& at + 4 <= body.offset
    &&& content + pad <= u32::MAX
    &&& body.offset + pad <= usize::MAX
}

/// Where the length field of a section begun at `offset` starts.
pub open spec fn section_field(offset: int, large: bool) -> int {
    if large {
        offset + 4
    } else {
        offset
    }
}

/// PSD writer into a growing buffer.
///
/// The first `offset` bytes of `buffer` are the output; bytes between the
/// end of `buffer` and `offset`, if `offset` was moved past it, count as
/// zeros.
pub struct PsdWriter {
    pub buffer: Vec<u8>,
    pub offset: usize,
    pub large: bool,
    pub color_mode: ColorMode,
    pub global_alpha: bool,
}

impl PsdWriter {
    /// The bytes written so far.
    pub open spec fn written(&self) -> Seq<u8> {
        Seq::new(
            self.offset as nat,
            |i: int|
                if i < self.buffer@.len() {
                    self.buffer@[i]
                } else {
                    0u8
                },
        )
    }

    /// Whether `other` is this writer with `bytes` appended.
    pub open spec fn appended(&self, other: &PsdWriter, bytes: Seq<u8>) -> bool {
        &&& other.written() == self.written() + bytes
        &&& other.offset == self.offset + bytes.len()
        &&& other.offset <= other.buffer@.len()
        &&& other.large == self.large
        &&& other.color_mode == self.color_mode
        &&& other.global_alpha == self.global_alpha
    }

    /// Creates an empty writer with room for `capacity` bytes.
    pub fn new(capacity: usize) -> (r: PsdWriter)
        ensures
            r.written() == Seq::<u8>::empty(),
            !r.large,
            r.color_mode == ColorMode::RGB,
            !r.global_alpha,
    {
        let r = PsdWriter {
            buffer: Vec::with_capacity(capacity),
            offset: 0,
            large: false,
            color_mode: ColorMode::RGB,
            global_alpha: false,
        };
        assert(r.written() =~= Seq::<u8>::empty());
        r
    }

    /// Creates an empty writer with room for 4 KiB.
    pub fn with_default_capacity() -> (r: PsdWriter)
        ensures
            r.written() == Seq::<u8>::empty(),
            !r.large,
            r.color_mode == ColorMode::RGB,
            !r.global_alpha,
    {
        Self::new(4096)
    }

    /// The bytes written so far.
    pub fn get_buffer(&self) -> (r: &[u8])
        requires
            self.offset <= self.buffer@.len(),
        ensures
            r@ == self.written(),
    {
        let r = vstd::slice::slice_subrange(self.buffer.as_slice(), 0, self.offset);
        assert(r@ =~= self.written());
        r
    }

    /// The bytes written, as a vector.
    pub fn into_buffer(self) -> (r: Vec<u8>)
        ensures
            self.offset <= self.buffer@.len() ==> r@ == self.written(),
            self.offset > self.buffer@.len() ==> r@ == self.buffer@,
    {
        let mut buffer = self.buffer;
        buffer.truncate(self.offset);
        assert(self.offset <= self.buffer@.len() ==> buffer@ =~= self.written());
        buffer
    }

    /// Grows the buffer so that `additional` bytes fit after `offset`.
    pub(crate) fn ensure_capacity(&mut self, additional: usize)
        requires
            old(self).offset + additional <= usize::MAX,
        ensures
            final(self).offset == old(self).offset,
            final(self).written() == old(self).written(),
            final(self).buffer@.len() >= old(self).offset + additional,
            final(self).large == old(self).large,
            final(self).color_mode == old(self).color_mode,
            final(self).global_alpha == old(self).global_alpha,
    {
        let required = self.offset + additional;
        if self.buffer.len() < required {
            let cap = vec_capacity(&self.buffer);
            let grown = if cap < 64 {
                128
            } else if cap <= usize::MAX / 2 {
                cap * 2
            } else {
                required
            };
            let new_len = if required > grown {
                required
            } else {
                grown
            };
            let ghost before = self.written();
            self.buffer.resize(new_len, 0);
            assert(self.written() =~= before);
        }
    }

    /// Stores one byte at `offset`, which lies inside the buffer.
    fn put_byte(&mut self, value: u8)
        requires
            old(self).offset < old(self).buffer@.len(),
            old(self).offset < usize::MAX,
        ensures
            final(self).written() == old(self).written().push(value),
            final(self).offset == old(self).offset + 1,
            final(self).buffer@.len() == old(self).buffer@.len(),
            final(self).large == old(self).large,
            final(self).color_mode == old(self).color_mode,
            final(self).global_alpha == old(self).global_alpha,
    {
        let ghost prev = self.written();
        self.buffer.set(self.offset, value);
        self.offset = self.offset + 1;
        assert forall|j: int| 0 <= j < self.offset implies self.written()[j] == prev.push(value)[j] by {
            if j < self.offset - 1 {
                assert(self.buffer@[j] == old(self).buffer@[j]);
            }
        }
        assert(self.written() =~= prev.push(value));
    }

    /// Writes an unsigned 8-bit integer.
    pub fn write_u8(&mut self, value: u8) -> (r: PsdResult<()>)
        requires
            old(self).offset + 1 <= usize::MAX,
        ensures
            r is Ok,
            old(self).appended(final(self), seq![value]),
    {
        self.ensure_capacity(1);
        let ghost before = self.written();
        self.put_byte(value);
        assert(self.written() =~= before + seq![value]);
        Ok(())
    }

    /// Writes raw bytes.
    pub fn write_bytes(&mut self, data: &[u8]) -> (r: PsdResult<()>)
        requires
            old(self).offset + data@.len() <= usize::MAX,
        ensures
            r is Ok,
            old(self).appended(final(self), data@),
    {
        self.ensure_capacity(data.len());
        let ghost before = self.written();
        let ghost start = self.offset;
        let mut i: usize = 0;
        while i < data.len()
            invariant
                i <= data@.len(),
                self.offset == start + i,
                start + data@.len() <= self.buffer@.len(),
                start + data@.len() <= usize::MAX,
                self.written() == before + data@.take(i as int),
                self.large == old(self).large,
                self.color_mode == old(self).color_mode,
                self.global_alpha == old(self).global_alpha,
            decreases data@.len() - i,
        {
            self.put_byte(data[i]);
            assert(data@.take(i + 1) =~= data@.take(i as int).push(data@[i as int]));
            i += 1;
            assert(self.written() =~= before + data@.take(i as int));
        }
        assert(data@.take(data@.len() as int) =~= data@);
        Ok(())
    }

    /// Writes a signed 16-bit integer (big-endian).
    pub fn write_i16(&mut self, value: i16) -> (r: PsdResult<()>)
        requires
            old(self).offset + 2 <= usize::MAX,
        ensures
            r is Ok,
            old(self).appended(final(self), be16(i16_bits(value))),
    {
        self.write_u16(bits_from_i16(value))
    }

    /// Writes an unsigned 16-bit integer (big-endian).
    pub fn write_u16(&mut self, value: u16) -> (r: PsdResult<()>)
        requires
            old(self).offset + 2 <= usize::MAX,
        ensures
            r is Ok,
            old(self).appended(final(self), be16(value)),
    {
        let bytes = [(value / 256) as u8, (value % 256) as u8];
        let r = self.write_bytes(&bytes);
        assert(bytes@ =~= be16(value));
        r
    }

    /// Writes a signed 32-bit integer (big-endian).
    pub fn write_i32(&mut self, value: i32) -> (r: PsdResult<()>)
        requires
            old(self).offset + 4 <= usize::MAX,
        ensures
            r is Ok,
            old(self).appended(final(self), be32(i32_bits(value))),
    {
        self.write_u32(bits_from_i32(value))
    }

    /// Writes an unsigned 32-bit integer (big-endian).
    pub fn write_u32(&mut self, value: u32) -> (r: PsdResult<()>)
        requires
            old(self).offset + 4 <= usize::MAX,
        ensures
            r is Ok,
            old(self).appended(final(self), be32(value)),
    {
        let bytes = [
            (value / 16777216) as u8,
            ((value / 65536) % 256) as u8,
            ((value / 256) % 256) as u8,
            (value % 256) as u8,
        ];
        let r = self.write_bytes(&bytes);
        assert(bytes@ =~= be32(value));
        r
    }

    /// Writes `count` zero bytes.
    pub fn write_zeros(&mut self, count: usize) -> (r: PsdResult<()>)
        requires
            old(self).offset + count <= usize::MAX,
        ensures
            r is Ok,
            old(self).appended(final(self), zeros(count as int)),
    {
        self.ensure_capacity(count);
        let ghost before = self.written();
        let ghost start = self.offset;
        let mut i: usize = 0;
        while i < count
            invariant
                i <= count,
                self.offset == start + i,
                start + count <= self.buffer@.len(),
                start + count <= usize::MAX,
                self.written() == before + zeros(i as int),
                self.large == old(self).large,
                self.color_mode == old(self).color_mode,
                self.global_alpha == old(self).global_alpha,
            decreases count - i,
        {
            self.put_byte(0);
            assert(zeros(i + 1) =~= zeros(i as int).push(0u8));
            i += 1;
            assert(self.written() =~= before + zeros(i as int));
        }
        Ok(())
    }

    /// Writes a 4-character signature; it must be four bytes long.
    pub fn write_signature(&mut self, sig: &str) -> (r: PsdResult<()>)
        requires
            old(self).offset + 4 <= usize::MAX,
        ensures
            r is Ok <==> sig.spec_bytes().len() == 4,
            r is Ok ==> old(self).appended(final(self), sig.spec_bytes()),
            r matches Err(e) ==> e is InvalidFormat && *final(self) == *old(self),
    {
        let bytes = sig.as_bytes();
        if bytes.len() != 4 {
            return Err(invalid_format("Invalid signature length"));
        }
        self.write_bytes(bytes)
    }

    /// Writes the UTF-8 bytes of `text`.
    pub fn write_ascii_string(&mut self, text: &str) -> (r: PsdResult<()>)
        requires
            old(self).offset + text.spec_bytes().len() <= usize::MAX,
        ensures
            r is Ok,
            old(self).appended(final(self), text.spec_bytes()),
    {
        self.write_bytes(text.as_bytes())
    }

    /// Writes a Pascal string: a length byte, the text with non-ASCII bytes
    /// as `?`, then zero bytes up to a multiple of `pad_to` counting the
    /// length byte.  Text longer than 255 bytes is refused.
    pub fn write_pascal_string(&mut self, text: &str, pad_to: usize) -> (r: PsdResult<()>)
        requires
            pad_to > 0,
            old(self).offset + 256 + pad_to <= usize::MAX,
        ensures
            r is Ok <==> text.spec_bytes().len() <= 255,
            r is Ok ==> old(self).appended(final(self), pascal_bytes(text.spec_bytes(), pad_to as int)),
            r matches Err(e) ==> e is InvalidFormat && *final(self) == *old(self),
    {
        let bytes = text.as_bytes();
        let length = bytes.len();
        if length > 255 {
            return Err(invalid_format("Pascal string too long"));
        }
        let ghost before = self.written();
        self.write_u8(length as u8)?;
        let mut i: usize = 0;
        while i < length
            invariant
                length == bytes@.len(),
                length <= 255,
                i <= length,
                old(self).offset + 256 + pad_to <= usize::MAX,
                self.offset == old(self).offset + 1 + i,
                self.written() == before + seq![length as u8] + Seq::new(
                    i as nat,
                    |j: int| ascii_or_question(bytes@[j]),
                ),
                self.large == old(self).large,
                self.color_mode == old(self).color_mode,
                self.global_alpha == old(self).global_alpha,
            decreases length - i,
        {
            let byte = bytes[i];
            let byte = if byte < 128 {
                byte
            } else {
                63u8
            };
            self.write_u8(byte)?;
            i += 1;
            assert(self.written() =~= before + seq![length as u8] + Seq::new(
                i as nat,
                |j: int| ascii_or_question(bytes@[j]),
            ));
        }
        let padding = (pad_to - (length + 1) % pad_to) % pad_to;
        self.write_zeros(padding)?;
        assert(self.written() =~= before + pascal_bytes(text.spec_bytes(), pad_to as int));
        Ok(())
    }

    /// Writes UTF-16 code units big-endian.
    pub(crate) fn write_units(&mut self, units: &Vec<u16>) -> (r: PsdResult<()>)
        requires
            old(self).offset + 2 * units@.len() <= usize::MAX,
        ensures
            r is Ok,
            old(self).appended(final(self), be16_list(units@)),
    {
        self.ensure_capacity(2 * units.len());
        let ghost before = self.written();
        let mut i: usize = 0;
        while i < units.len()
            invariant
                i <= units@.len(),
                old(self).offset + 2 * units@.len() <= usize::MAX,
                self.offset == old(self).offset + 2 * i,
                self.offset <= self.buffer@.len(),
                self.written() == before + be16_list(units@.take(i as int)),
                self.large == old(self).large,
                self.color_mode == old(self).color_mode,
                self.global_alpha == old(self).global_alpha,
            decreases units@.len() - i,
        {
            self.write_u16(units[i])?;
            assert(units@.take(i + 1).drop_last() =~= units@.take(i as int));
            i += 1;
        }
        assert(units@.take(units@.len() as int) =~= units@);
        proof {
            lemma_be16_list_len(units@);
        }
        Ok(())
    }

    /// Writes the legacy Pascal layer name: the field holds at most 255
    /// bytes, so longer names are cut to their first 255 characters, and
    /// each non-ASCII character becomes one `?`.
    pub fn write_legacy_pascal_layer_name(&mut self, text: &str, pad_to: usize) -> (r: PsdResult<()>)
        requires
            pad_to > 0,
            old(self).offset + 256 + pad_to <= usize::MAX,
        ensures
            r is Ok,
            old(self).appended(final(self), legacy_name_bytes(text@, pad_to as int)),
    {
        let ghost all = text@;
        let mut units: Vec<u8> = Vec::new();
        let mut chars = text.chars();
        loop
            invariant_except_break
                units@.len() <= 255,
                units@.len() <= all.len(),
                chars.remaining() == all.skip(units@.len() as int),
                units@ == Seq::new(units@.len(), |i: int| legacy_name_byte(all[i])),
            ensures
                units@.len() == (if all.len() > 255 {
                    255
                } else {
                    all.len()
                }),
                units@ == Seq::new(units@.len(), |i: int| legacy_name_byte(all[i])),
            decreases all.len() - units@.len(),
        {
            if units.len() == 255 {
                break;
            }
            match chars.next() {
                Some(ch) => {
                    let mapped: u8 = if (ch as u32) < 128 {
                        ch as u8
                    } else {
                        63u8
                    };
                    proof {
                        assert(all.skip(units@.len() as int)[0] == all[units@.len() as int]);
                    }
                    units.push(mapped);
                    assert(all.skip(units@.len() - 1).drop_first() =~= all.skip(units@.len() as int));
                    assert(units@ =~= Seq::new(units@.len(), |i: int| legacy_name_byte(all[i])));
                },
                None => {
                    break;
                },
            }
        }
        let length = units.len();
        let ghost before = self.written();
        self.write_u8(length as u8)?;
        self.write_bytes(units.as_slice())?;
        let padding = (pad_to - (length + 1) % pad_to) % pad_to;
        self.write_zeros(padding)?;
        assert(self.written() =~= before + legacy_name_bytes(all, pad_to as int));
        Ok(())
    }

    /// Writes a UTF-16 string preceded by its length in code units.
    pub fn write_unicode_string(&mut self, text: &str) -> (r: PsdResult<()>)
        requires
            old(self).offset + 4 + 2 * utf16_encode(text@).len() <= usize::MAX,
        ensures
            r is Ok,
            old(self).appended(final(self), unicode_bytes(text@)),
    {
        let units = utf16_units(text);
        let ghost before = self.written();
        self.write_u32(units.len() as u32)?;
        self.write_units(&units)?;
        assert(self.written() =~= before + unicode_bytes(text@));
        Ok(())
    }

    /// Writes a UTF-16 string whose count and content include a trailing
    /// zero unit.
    pub fn write_unicode_string_with_padding(&mut self, text: &str) -> (r: PsdResult<()>)
        requires
            old(self).offset + 6 + 2 * utf16_encode(text@).len() <= usize::MAX,
        ensures
            r is Ok,
            old(self).appended(final(self), unicode_padded_bytes(text@)),
    {
        let units = utf16_units(text);
        let ghost before = self.written();
        self.write_u32((units.len() + 1) as u32)?;
        self.write_units(&units)?;
        proof {
            lemma_be16_list_len(units@);
        }
        self.write_u16(0)?;
        assert(self.written() =~= before + unicode_padded_bytes(text@));
        Ok(())
    }

    /// Overwrites four already written bytes at `at` with `value`
    /// (big-endian).
    fn patch_u32(&mut self, at: usize, value: u32)
        requires
            at + 4 <= old(self).offset,
            old(self).offset <= old(self).buffer@.len(),
        ensures
            final(self).written() == patched(old(self).written(), at as int, be32(value)),
            final(self).offset == old(self).offset,
            final(self).buffer@.len() == old(self).buffer@.len(),
            final(self).large == old(self).large,
            final(self).color_mode == old(self).color_mode,
            final(self).global_alpha == old(self).global_alpha,
    {
        let ghost prev = self.written();
        self.buffer.set(at, (value / 16777216) as u8);
        self.buffer.set(at + 1, ((value / 65536) % 256) as u8);
        self.buffer.set(at + 2, ((value / 256) % 256) as u8);
        self.buffer.set(at + 3, (value % 256) as u8);
        assert(self.written() =~= patched(prev, at as int, be32(value)));
    }

    /// Closes a section whose length field starts at `length_offset` and
    /// whose content runs from `length_offset + 4` to the current end.
    fn close_section(&mut self, length_offset: usize, round: usize, include_padding: bool) -> (r:
        PsdResult<()>)
        requires
            0 < round <= u32::MAX,
        ensures
            r is Ok <==> ({
                let content = old(self).offset - (length_offset + 4);
                let pad = padding_after(content, round as int);
                &&& length_offset + 4 <= old(self).offset
                &&& content + pad <= u32::MAX
                &&& old(self).offset + pad <= usize::MAX
            }),
            r is Ok ==> closed_section(
                *old(self),
                *final(self),
                length_offset as int,
                round as int,
                include_padding,
            ),
            r matches Err(e) ==> e is UnsupportedFeature,
    {
        if length_offset > usize::MAX - 4 || self.offset < length_offset + 4 {
            return Err(unsupported("Section content ends before its length field"));
        }
        let start_offset = length_offset + 4;
        let content_length = self.offset - start_offset;
        if content_length > 0xffff_ffffusize {
            return Err(unsupported("Section exceeds the 4GiB wire limit"));
        }
        let padding = (round - content_length % round) % round;
        if (content_length as u64) + (padding as u64) > 0xffff_ffffu64 {
            return Err(unsupported("Section exceeds the 4GiB wire limit"));
        }
        if self.offset > usize::MAX - padding {
            return Err(unsupported("Section exceeds the addressable size"));
        }
        let stored = if include_padding {
            (content_length + padding) as u32
        } else {
            content_length as u32
        };
        let ghost body = *self;
        self.ensure_capacity(padding);
        self.patch_u32(length_offset, stored);
        self.write_zeros(padding)?;
        assert(self.written() =~= patched(body.written(), length_offset as int, be32(stored))
            + zeros(padding as int));
        Ok(())
    }

    /// Writes a section: a 32-bit length (after four zero bytes when
    /// `large`), the content that `func` writes, then zeros up to a
    /// multiple of `round`.  The length counts the content alone.
    ///
    /// `func` gets the writer itself, so nothing is promised of the
    /// bytes before the content beyond the length field.
    pub fn write_section<F>(&mut self, round: usize, large: bool, func: F) -> (r: PsdResult<()>)
        where
            F: FnOnce(&mut PsdWriter) -> PsdResult<()>,
        requires
            0 < round <= u32::MAX,
            old(self).offset + 8 <= usize::MAX,
            forall|w: &mut PsdWriter| func.requires((w,)),
        ensures
            exists|w: &mut PsdWriter, res: PsdResult<()>|
                {
                    &&& old(self).appended(&*w, section_head(large))
                    &&& call_ensures(func, (w,), res)
                    &&& (r is Ok <==> (res is Ok && section_closes(
                        *final(w),
                        section_field(old(self).offset as int, large),
                        round as int,
                    )))
                    &&& (r is Ok ==> closed_section(
                        *final(w),
                        *final(self),
                        section_field(old(self).offset as int, large),
                        round as int,
                        false,
                    ))
                    &&& (res is Err ==> r == res)
                    &&& (res is Ok && !section_closes(
                        *final(w),
                        section_field(old(self).offset as int, large),
                        round as int,
                    ) ==> (r matches Err(e) && e is UnsupportedFeature))
                },
    {
        self.write_section_with_length_mode(round, large, false, func)
    }

    /// Writes a section as `write_section` does; with
    /// `include_padding_in_length` the length counts the padding too.
    pub fn write_section_with_length_mode<F>(
        &mut self,
        round: usize,
        large: bool,
        include_padding_in_length: bool,
        func: F,
    ) -> (r: PsdResult<()>)
        where
            F: FnOnce(&mut PsdWriter) -> PsdResult<()>,
        requires
            0 < round <= u32::MAX,
            old(self).offset + 8 <= usize::MAX,
            forall|w: &mut PsdWriter| func.requires((w,)),
        ensures
            exists|w: &mut PsdWriter, res: PsdResult<()>|
                {
                    &&& old(self).appended(&*w, section_head(large))
                    &&& call_ensures(func, (w,), res)
                    &&& (r is Ok <==> (res is Ok && section_closes(
                        *final(w),
                        section_field(old(self).offset as int, large),
                        round as int,
                    )))
                    &&& (r is Ok ==> closed_section(
                        *final(w),
                        *final(self),
                        section_field(old(self).offset as int, large),
                        round as int,
                        include_padding_in_length,
                    ))
                    &&& (res is Err ==> r == res)
                    &&& (res is Ok && !section_closes(
                        *final(w),
                        section_field(old(self).offset as int, large),
                        round as int,
                    ) ==> (r matches Err(e) && e is UnsupportedFeature))
                },
    {
        if large {
            self.write_u32(0)?;
        }
        let length_offset = self.offset;
        assert(length_offset == section_field(old(self).offset as int, large));
        self.write_u32(0)?;
        assert(self.written() =~= old(self).written() + section_head(large));
        assert(old(self).appended(self, section_head(large)));
        match func(self) {
            Ok(()) => {},
            Err(e) => {
                return Err(e);
            },
        }
        let ghost body = *self;
        self.close_section(length_offset, round, include_padding_in_length)
    }

    /// Writes a Photoshop color structure; `None` writes RGB black.  Plain
    /// 8-bit RGB(A) colors have no lossless structure and are refused.
    pub fn write_color(&mut self, color: Option<&Color>) -> (r: PsdResult<()>)
        requires
            old(self).offset + 10 <= usize::MAX,
        ensures
            ({
                let c = match color {
                    Some(c) => Some(*c),
                    None => None,
                };
                &&& r is Ok <==> has_color_structure(c)
                &&& r is Ok ==> old(self).appended(final(self), color_bytes(c))
                &&& r matches Err(e) ==> e is UnsupportedFeature && *final(self) == *old(self)
            }),
    {
        let ghost before = self.written();
        match color {
            None => {
                self.write_u16(0)?;
                self.write_zeros(8)?;
            },
            Some(Color::RGBA(_)) | Some(Color::RGB(_)) => {
                return Err(unsupported("Photoshop color structures require lossless raw color variants"));
            },
            Some(Color::Rgb48 { red, green, blue }) => {
                self.write_u16(0)?;
                self.write_u16(*red)?;
                self.write_u16(*green)?;
                self.write_u16(*blue)?;
                self.write_u16(0)?;
            },
            Some(Color::Hsb { hue, saturation, brightness }) => {
                self.write_u16(1)?;
                self.write_u16(*hue)?;
                self.write_u16(*saturation)?;
                self.write_u16(*brightness)?;
                self.write_u16(0)?;
            },
            Some(Color::CMYK(c)) => {
                self.write_u16(2)?;
                self.write_u16(c.c)?;
                self.write_u16(c.m)?;
                self.write_u16(c.y)?;
                self.write_u16(c.k)?;
            },
            Some(Color::Lab { lightness, a, b }) => {
                self.write_u16(7)?;
                self.write_u16(*lightness)?;
                self.write_i16(*a)?;
                self.write_i16(*b)?;
                self.write_u16(0)?;
            },
            Some(Color::Grayscale(c)) => {
                self.write_u16(8)?;
                self.write_u16(c.k)?;
                self.write_zeros(6)?;
            },
            Some(Color::OpaqueColorSpace { color_space, components }) => {
                self.write_u16(*color_space)?;
                self.write_u16(components[0])?;
                self.write_u16(components[1])?;
                self.write_u16(components[2])?;
                self.write_u16(components[3])?;
            },
        }
        let ghost c = match color {
            Some(c) => Some(*c),
            None => None,
        };
        assert(self.written() =~= before + color_bytes(c));
        Ok(())
    }
}

/// The width of the span from `start` to `end`: `end - start` when that is
/// a non-negative 32-bit value, else 0.
pub open spec fn span(start: i32, end: i32) -> int {
    let d = end - start;
    if 0 <= d <= i32::MAX {
        d
    } else {
        0
    }
}

/// The width of the span from `start` to `end`; 0 when `end` is before
/// `start` or the difference overflows.
pub fn extent(start: i32, end: i32) -> (r: usize)
    ensures
        r == span(start, end),
{
    let d = (end as i64) - (start as i64);
    if 0 <= d && d <= 2147483647 {
        d as usize
    } else {
        0
    }
}

/// `v`, or `d` where it is unset.
pub open spec fn edge_or(v: Option<i32>, d: i32) -> i32 {
    match v {
        Some(x) => x,
        None => d,
    }
}

/// `a`, or `b` where `a` is unset.
pub open spec fn first_set(a: Option<i32>, b: Option<i32>) -> Option<i32> {
    match a {
        Some(x) => Some(x),
        None => b,
    }
}

/// Left, top, width and height of a rectangle whose unset left and top
/// are the layer's and whose unset right and bottom are its own left and
/// top.
pub open spec fn rect_bounds(
    left: Option<i32>,
    top: Option<i32>,
    right: Option<i32>,
    bottom: Option<i32>,
    layer_left: i32,
    layer_top: i32,
) -> (i32, i32, int, int) {
    let l = edge_or(left, layer_left);
    let t = edge_or(top, layer_top);
    (l, t, span(l, edge_or(right, l)), span(t, edge_or(bottom, t)))
}

/// Left, top, width and height of a layer, unset edges at 0.
pub open spec fn layer_rect(layer: LayerEdges) -> (i32, i32, int, int) {
    let l = edge_or(layer.left, 0);
    let t = edge_or(layer.top, 0);
    (l, t, span(l, edge_or(layer.right, 0)), span(t, edge_or(layer.bottom, 0)))
}

/// The rectangle of a mask.
pub open spec fn mask_rect(m: MaskEdges, layer: LayerEdges) -> (i32, i32, int, int) {
    rect_bounds(m.left, m.top, m.right, m.bottom, edge_or(layer.left, 0), edge_or(layer.top, 0))
}

/// The real rectangle of a mask, its plain edges standing in for unset
/// real ones.
pub open spec fn mask_real_rect(m: MaskEdges, layer: LayerEdges) -> (i32, i32, int, int) {
    rect_bounds(
        first_set(m.real_left, m.left),
        first_set(m.real_top, m.top),
        first_set(m.real_right, m.right),
        first_set(m.real_bottom, m.bottom),
        edge_or(layer.left, 0),
        edge_or(layer.top, 0),
    )
}

/// Whether any edge of a mask's rectangle is set.
pub open spec fn any_edge_set(m: MaskEdges) -> bool {
    m.left is Some || m.top is Some || m.right is Some || m.bottom is Some
}

/// Where the data of a channel is written: the user mask's rectangle for
/// the user mask; for the real user mask the real mask's rectangle when
/// it has an edge set, else the user mask's real rectangle; the layer's
/// rectangle otherwise.
pub open spec fn write_channel_rect(
    layer: LayerEdges,
    mask: Option<MaskEdges>,
    real_mask: Option<MaskEdges>,
    id: ChannelID,
) -> (i32, i32, int, int) {
    match id {
        ChannelID::UserMask => match mask {
            Some(m) => mask_rect(m, layer),
            None => layer_rect(layer),
        },
        ChannelID::RealUserMask => if real_mask is Some && any_edge_set(real_mask->0) {
            mask_rect(real_mask->0, layer)
        } else {
            match mask {
                Some(m) => mask_real_rect(m, layer),
                None => layer_rect(layer),
            }
        },
        _ => layer_rect(layer),
    }
}

/// Computes a rectangle (see `rect_bounds`).
pub(crate) fn rect_of(
    left: Option<i32>,
    top: Option<i32>,
    right: Option<i32>,
    bottom: Option<i32>,
    layer_left: i32,
    layer_top: i32,
) -> (r: (i32, i32, usize, usize))
    ensures
        (r.0, r.1, r.2 as int, r.3 as int) == rect_bounds(left, top, right, bottom, layer_left, layer_top),
{
    let l = match left {
        Some(v) => v,
        None => layer_left,
    };
    let t = match top {
        Some(v) => v,
        None => layer_top,
    };
    let r = match right {
        Some(v) => v,
        None => l,
    };
    let b = match bottom {
        Some(v) => v,
        None => t,
    };
    (l, t, extent(l, r), extent(t, b))
}

/// Computes `first_set`.
pub(crate) fn or_edge(a: Option<i32>, b: Option<i32>) -> (r: Option<i32>)
    ensures
        r == first_set(a, b),
{
    match a {
        Some(x) => Some(x),
        None => b,
    }
}

/// Left, top, width and height of the data of a channel when writing
/// (see `write_channel_rect`).
pub fn layer_channel_bounds(
    layer: &LayerEdges,
    mask: Option<&MaskEdges>,
    real_mask: Option<&MaskEdges>,
    channel_id: ChannelID,
) -> (r: (i32, i32, usize, usize))
    ensures
        (r.0, r.1, r.2 as int, r.3 as int) == write_channel_rect(
            *layer,
            match mask {
                Some(m) => Some(*m),
                None => None,
            },
            match real_mask {
                Some(m) => Some(*m),
                None => None,
            },
            channel_id,
        ),
{
    let layer_left = match layer.left {
        Some(v) => v,
        None => 0,
    };
    let layer_top = match layer.top {
        Some(v) => v,
        None => 0,
    };
    let layer_right = match layer.right {
        Some(v) => v,
        None => 0,
    };
    let layer_bottom = match layer.bottom {
        Some(v) => v,
        None => 0,
    };
    match channel_id {
        ChannelID::UserMask => {
            if let Some(m) = mask {
                return rect_of(m.left, m.top, m.right, m.bottom, layer_left, layer_top);
            }
        },
        ChannelID::RealUserMask => {
            if let Some(m) = real_mask {
                if m.left.is_some() || m.top.is_some() || m.right.is_some() || m.bottom.is_some() {
                    return rect_of(m.left, m.top, m.right, m.bottom, layer_left, layer_top);
                }
            }
            if let Some(m) = mask {
                return rect_of(
                    or_edge(m.real_left, m.left),
                    or_edge(m.real_top, m.top),
                    or_edge(m.real_right, m.right),
                    or_edge(m.real_bottom, m.bottom),
                    layer_left,
                    layer_top,
                );
            }
        },
        _ => {},
    }
    (layer_left, layer_top, extent(layer_left, layer_right), extent(layer_top, layer_bottom))
}

/// Width and height of the data of a channel when writing.
pub fn layer_channel_dimensions(
    layer: &LayerEdges,
    mask: Option<&MaskEdges>,
    real_mask: Option<&MaskEdges>,
    channel_id: ChannelID,
) -> (r: (usize, usize))
    ensures
        ({
            let b = write_channel_rect(
                *layer,
                match mask {
                    Some(m) => Some(*m),
                    None => None,
                },
                match real_mask {
                    Some(m) => Some(*m),
                    None => None,
                },
                channel_id,
            );
            r.0 == b.2 && r.1 == b.3
        }),
{
    let (_, _, width, height) = layer_channel_bounds(layer, mask, real_mask, channel_id);
    (width, height)
}

/// Bytes per sample at a bit depth; 1 for depths other than 16 and 32.
pub fn bytes_per_sample(bits_per_channel: u8) -> (r: usize)
    ensures
        r == (if bits_per_channel == 16 {
            2int
        } else if bits_per_channel == 32 {
            4int
        } else {
            1int
        }),
{
    match bits_per_channel {
        8 => 1,
        16 => 2,
        32 => 4,
        _ => 1,
    }
}

/// The compression a channel is written with: raw when compression is
/// switched off, RLE at 8 bits, ZIP with prediction at other depths.
pub fn preferred_channel_compression(bits_per_channel: u8, options: &WriteOptions) -> (r: Compression)
    ensures
        r == (if options.compress == Some(false) {
            Compression::RawData
        } else if bits_per_channel == 8 {
            Compression::RleCompressed
        } else {
            Compression::ZipWithPrediction
        }),
{
    let compress = match options.compress {
        Some(v) => v,
        None => true,
    };
    if !compress {
        return Compression::RawData;
    }
    if bits_per_channel == 8 {
        Compression::RleCompressed
    } else {
        Compression::ZipWithPrediction
    }
}

/// Component `offset` of each of `n` RGBA pixels; where the pixels end
/// early, or there are none, alpha reads 255 and color 0.
pub open spec fn rgba_channel(image: Option<Seq<u8>>, n: int, offset: int) -> Seq<u8> {
    Seq::new(
        n as nat,
        |i: int|
            match image {
                Some(d) => if 4 * i + offset < d.len() {
                    d[4 * i + offset]
                } else if offset == 3 {
                    255u8
                } else {
                    0u8
                },
                None => if offset == 3 {
                    255u8
                } else {
                    0u8
                },
            },
    )
}

/// Extracts component `offset` of `width * height` RGBA pixels.
pub fn extract_channel_data_from_rgba_opt(
    image_data: Option<&[u8]>,
    width: usize,
    height: usize,
    offset: usize,
) -> (r: Vec<u8>)
    requires
        4 * width * height + offset <= usize::MAX,
    ensures
        r@ == rgba_channel(
            match image_data {
                Some(d) => Some(d@),
                None => None,
            },
            width * height,
            offset as int,
        ),
{
    assert(width * height <= 4 * width * height) by (nonlinear_arith);
    let n = width * height;
    assert(4 * n + offset <= usize::MAX) by (nonlinear_arith)
        requires
            n == width * height,
            4 * width * height + offset <= usize::MAX,
    ;
    let ghost img = match image_data {
        Some(d) => Some(d@),
        None => None,
    };
    let mut out: Vec<u8> = Vec::new();
    let mut i: usize = 0;
    while i < n
        invariant
            4 * n + offset <= usize::MAX,
            i <= n,
            img == (match image_data {
                Some(d) => Some(d@),
                None => None,
            }),
            out@ == rgba_channel(img, i as int, offset as int),
        decreases n - i,
    {
        let v = match image_data {
            Some(d) => {
                let src = i * 4 + offset;
                if src < d.len() {
                    d[src]
                } else if offset == 3 {
                    255
                } else {
                    0
                }
            },
            None => if offset == 3 {
                255
            } else {
                0
            },
        };
        out.push(v);
        i += 1;
        assert(out@ =~= rgba_channel(img, i as int, offset as int));
    }
    out
}

/// Extracts component `offset` of a layer's RGBA pixels.
pub fn extract_layer_channel_data(
    image_data: Option<&PixelData>,
    width: usize,
    height: usize,
    offset: usize,
) -> (r: Vec<u8>)
    requires
        4 * width * height + offset <= usize::MAX,
    ensures
        r@ == rgba_channel(
            match image_data {
                Some(p) => Some(p.data@),
                None => None,
            },
            width * height,
            offset as int,
        ),
{
    let data = match image_data {
        Some(p) => Some(p.data.as_slice()),
        None => None,
    };
    extract_channel_data_from_rgba_opt(data, width, height, offset)
}

/// The first `n` bytes of a mask image, zero where it ends early or is
/// absent.
pub open spec fn mask_channel(image: Option<Seq<u8>>, n: int) -> Seq<u8> {
    Seq::new(
        n as nat,
        |i: int|
            match image {
                Some(d) => if i < d.len() {
                    d[i]
                } else {
                    0u8
                },
                None => 0u8,
            },
    )
}

/// The `width * height` mask samples of a mask image.
pub fn extract_mask_channel_data(image_data: Option<&PixelData>, width: usize, height: usize) -> (r:
    Vec<u8>)
    requires
        width * height <= usize::MAX,
    ensures
        r@ == mask_channel(
            match image_data {
                Some(p) => Some(p.data@),
                None => None,
            },
            width * height,
        ),
{
    let n = width * height;
    let ghost img = match image_data {
        Some(p) => Some(p.data@),
        None => None,
    };
    let mut out: Vec<u8> = Vec::new();
    let mut i: usize = 0;
    while i < n
        invariant
            i <= n,
            img == (match image_data {
                Some(p) => Some(p.data@),
                None => None,
            }),
            out@ == mask_channel(img, i as int),
        decreases n - i,
    {
        let v = match image_data {
            Some(p) => if i < p.data.len() {
                p.data[i]
            } else {
                0
            },
            None => 0,
        };
        out.push(v);
        i += 1;
        assert(out@ =~= mask_channel(img, i as int));
    }
    out
}

/// The four bytes of a blending range pair.
pub open spec fn range_pair_bytes(p: LayerBlendingRangePair) -> Seq<u8> {
    seq![p.src_black, p.src_white, p.dst_black, p.dst_white]
}

/// The bytes of a list of blending range pairs, in order.
pub open spec fn range_pairs_bytes(ps: Seq<LayerBlendingRangePair>) -> Seq<u8>
    decreases ps.len(),
{
    if ps.len() == 0 {
        Seq::<u8>::empty()
    } else {
        range_pairs_bytes(ps.drop_last()) + range_pair_bytes(ps.last())
    }
}

/// The bytes of a layer's blending ranges: the composite gray pair when
/// present, then the channel pairs.
pub open spec fn blending_ranges_bytes(r: Option<LayerBlendingRangePair>, channels: Seq<LayerBlendingRangePair>) -> Seq<u8> {
    match r {
        Some(p) => range_pair_bytes(p) + range_pairs_bytes(channels),
        None => range_pairs_bytes(channels),
    }
}

/// Serializes a layer's blending ranges, four bytes per pair.
pub fn serialize_layer_blending_ranges(ranges: &LayerBlendingRangesData) -> (r: Vec<u8>)
    ensures
        r@ == blending_ranges_bytes(ranges.composite_gray, ranges.channels@),
{
    let mut out: Vec<u8> = Vec::new();
    if let Some(p) = ranges.composite_gray {
        out.push(p.src_black);
        out.push(p.src_white);
        out.push(p.dst_black);
        out.push(p.dst_white);
    }
    let ghost head = out@;
    let n = ranges.channels.len();
    let mut k: usize = 0;
    while k < n
        invariant
            n == ranges.channels@.len(),
            k <= n,
            out@ == head + range_pairs_bytes(ranges.channels@.take(k as int)),
        decreases n - k,
    {
        let p = ranges.channels[k];
        out.push(p.src_black);
        out.push(p.src_white);
        out.push(p.dst_black);
        out.push(p.dst_white);
        assert(ranges.channels@.take(k + 1).drop_last() =~= ranges.channels@.take(k as int));
        k += 1;
        assert(out@ =~= head + range_pairs_bytes(ranges.channels@.take(k as int)));
    }
    assert(ranges.channels@.take(n as int) =~= ranges.channels@);
    assert(out@ =~= blending_ranges_bytes(ranges.composite_gray, ranges.channels@));
    out
}

/// Whether a channel carries color or transparency.
pub open spec fn is_color_or_alpha(id: ChannelID) -> bool {
    id == ChannelID::Transparency || id == ChannelID::Color0 || id == ChannelID::Color1 || id
        == ChannelID::Color2 || id == ChannelID::Color3
}

/// How many of the channels carry color or transparency.
pub open spec fn color_channel_count(ids: Seq<ChannelID>) -> int
    decreases ids.len(),
{
    if ids.len() == 0 {
        0
    } else {
        color_channel_count(ids.drop_last()) + if is_color_or_alpha(ids.last()) {
            1int
        } else {
            0int
        }
    }
}

/// The default blending range of one channel: the full source and
/// destination ranges, as 16-bit values.
pub open spec fn default_range_bytes() -> Seq<u8> {
    seq![0x00u8, 0x00, 0xFF, 0xFF, 0x00, 0x00, 0xFF, 0xFF]
}

/// `k` copies of the default blending range.
pub open spec fn default_ranges(k: int) -> Seq<u8>
    decreases k,
{
    if k <= 0 {
        Seq::<u8>::empty()
    } else {
        default_ranges(k - 1) + default_range_bytes()
    }
}

/// Default blending ranges for a layer with the given channels: one full
/// range for the composite and one for each color or transparency
/// channel.
pub fn default_layer_blending_ranges_bytes(channel_ids: &[ChannelID]) -> (r: Vec<u8>)
    requires
        channel_ids@.len() < usize::MAX,
    ensures
        r@ == default_ranges(color_channel_count(channel_ids@) + 1),
{
    let n = channel_ids.len();
    let mut count: usize = 0;
    let mut k: usize = 0;
    while k < n
        invariant
            n == channel_ids@.len(),
            n < usize::MAX,
            k <= n,
            count == color_channel_count(channel_ids@.take(k as int)),
            count <= k,
        decreases n - k,
    {
        assert(channel_ids@.take(k + 1).drop_last() =~= channel_ids@.take(k as int));
        let id = channel_ids[k];
        match id {
            ChannelID::Transparency | ChannelID::Color0 | ChannelID::Color1 | ChannelID::Color2
            | ChannelID::Color3 => {
                count = count + 1;
            },
            _ => {},
        }
        k += 1;
    }
    assert(channel_ids@.take(n as int) =~= channel_ids@);
    let pairs = count + 1;
    let mut out: Vec<u8> = Vec::new();
    let mut j: usize = 0;
    while j < pairs
        invariant
            j <= pairs,
            out@ == default_ranges(j as int),
        decreases pairs - j,
    {
        out.push(0x00);
        out.push(0x00);
        out.push(0xFF);
        out.push(0xFF);
        out.push(0x00);
        out.push(0x00);
        out.push(0xFF);
        out.push(0xFF);
        j += 1;
        assert(out@ =~= default_ranges(j as int));
    }
    out
}

/// The 16-byte record of global layer mask info: overlay color space, four
/// color components, opacity, kind, and three zero bytes.
pub open spec fn mask_info_bytes(info: GlobalLayerMaskInfo) -> Seq<u8> {
    be16(info.overlay_color_space) + be16(info.color_space1) + be16(info.color_space2) + be16(
        info.color_space3,
    ) + be16(info.color_space4) + be16(info.opacity) + seq![info.kind, 0u8, 0u8, 0u8]
}

/// The global layer mask info section: its length, then the record when
/// there is one.
pub open spec fn mask_info_section(info: Option<GlobalLayerMaskInfo>) -> Seq<u8> {
    match info {
        Some(i) => be32(16) + mask_info_bytes(i),
        None => be32(0),
    }
}

/// Writes the global layer mask info section.
pub fn write_global_layer_mask_info(writer: &mut PsdWriter, info: Option<&GlobalLayerMaskInfo>) -> (r:
    PsdResult<()>)
    requires
        old(writer).offset + 20 <= usize::MAX,
    ensures
        r is Ok,
        old(writer).appended(
            final(writer),
            mask_info_section(
                match info {
                    Some(i) => Some(*i),
                    None => None,
                },
            ),
        ),
{
    let ghost before = writer.written();
    match info {
        Some(i) => {
            writer.write_u32(16)?;
            writer.write_u16(i.overlay_color_space)?;
            writer.write_u16(i.color_space1)?;
            writer.write_u16(i.color_space2)?;
            writer.write_u16(i.color_space3)?;
            writer.write_u16(i.color_space4)?;
            writer.write_u16(i.opacity)?;
            writer.write_u8(i.kind)?;
            writer.write_zeros(3)?;
            assert(zeros(3) =~= seq![0u8, 0u8, 0u8]);
            assert(writer.written() =~= before + mask_info_section(Some(*i)));
        },
        None => {
            writer.write_u32(0)?;
        },
    }
    Ok(())
}

/// A layer count as the signed 16-bit field of the layer info stores it;
/// counts above `i16::MAX` are refused.
pub fn layer_count_i16(count: usize) -> (r: PsdResult<i16>)
    ensures
        r is Ok <==> count <= i16::MAX,
        r matches Ok(v) ==> v == count,
        r matches Err(e) ==> e is InvalidFormat,
{
    if count > 32767 {
        return Err(invalid_format("Too many layers (max 32767)"));
    }
    Ok(count as i16)
}

/// The capacity of a byte vector.
///
/// Calls `Vec::capacity`; what it returns depends on the allocator, so the
/// contract claims nothing of it.
#[verifier::external_body]
fn vec_capacity(v: &Vec<u8>) -> usize {
    v.capacity()
}


/// Whether a channel id is a color or transparency channel.
pub open spec fn is_pixel_channel(id: ChannelID) -> bool {
    match id {
        ChannelID::Transparency | ChannelID::Color0 | ChannelID::Color1 | ChannelID::Color2
        | ChannelID::Color3 => true,
        _ => false,
    }
}

/// Whether a layer record gets default blending ranges when it has none:
/// when the layer has image or raw data, or one of its channels is a color
/// or transparency channel.
pub fn should_emit_default_blending_ranges(
    has_image_data: bool,
    has_raw_data: bool,
    channel_ids: &[ChannelID],
) -> (r: bool)
    ensures
        r == (has_image_data || has_raw_data || exists|i: int|
            0 <= i < channel_ids@.len() && is_pixel_channel(#[trigger] channel_ids@[i])),
{
    if has_image_data || has_raw_data {
        return true;
    }
    let mut k: usize = 0;
    while k < channel_ids.len()
        invariant
            k <= channel_ids@.len(),
            forall|i: int| 0 <= i < k ==> !is_pixel_channel(#[trigger] channel_ids@[i]),
        decreases channel_ids@.len() - k,
    {
        let hit = match channel_ids[k] {
            ChannelID::Transparency | ChannelID::Color0 | ChannelID::Color1 | ChannelID::Color2
            | ChannelID::Color3 => true,
            _ => false,
        };
        if hit {
            assert(is_pixel_channel(channel_ids@[k as int]));
            return true;
        }
        k += 1;
    }
    false
}

/// Samples widened to a bit depth: each 8-bit sample repeated in both
/// bytes at depth 16, kept at other depths but 32.
pub open spec fn widened_samples(samples: Seq<u8>, bits: u8) -> Seq<u8> {
    if bits == 16 {
        Seq::new(2 * samples.len(), |i: int| samples[i / 2])
    } else {
        samples
    }
}

/// Widens 8-bit samples to a bit depth (see `widened_samples`); `None` at
/// depth 32, whose samples become floating point.
pub fn expand_integer_samples(samples: &[u8], bits_per_channel: u8) -> (r: Option<Vec<u8>>)
    requires
        2 * samples@.len() <= usize::MAX,
    ensures
        bits_per_channel == 32 <==> r is None,
        r matches Some(v) ==> v@ == widened_samples(samples@, bits_per_channel),
{
    if bits_per_channel == 32 {
        return None;
    }
    let n = samples.len();
    let mut out: Vec<u8> = Vec::new();
    let mut k: usize = 0;
    while k < n
        invariant
            n == samples@.len(),
            2 * n <= usize::MAX,
            k <= n,
            bits_per_channel != 32,
            out@ == widened_samples(samples@.take(k as int), bits_per_channel),
        decreases n - k,
    {
        out.push(samples[k]);
        if bits_per_channel == 16 {
            out.push(samples[k]);
        }
        k += 1;
        proof {
            let t = samples@.take(k as int);
            if bits_per_channel == 16 {
                assert forall|i: int| 0 <= i < 2 * k implies out@[i] == t[i / 2] by {
                    if i < 2 * (k - 1) {
                        assert(samples@.take(k - 1)[i / 2] == t[i / 2]);
                    }
                }
                assert(out@ =~= widened_samples(t, bits_per_channel));
            } else {
                assert(out@ =~= t);
            }
        }
    }
    assert(samples@.take(n as int) =~= samples@);
    Some(out)
}

} // verus!

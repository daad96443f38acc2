//! PSD reader over an in-memory input, with bounded section reads.

use crate::bytes::{i16_from_bits, i32_from_bits, read16, read32, u16_as_i16, u16_from_be, u32_as_i32, u32_from_be};
use crate::error::{decimal, decimal_string, error_detail, signature_mismatch, invalid_format, io_error, unsupported, PsdError, PsdResult};
use crate::psd::ReadOptions;
use crate::strings::{str_equal, utf16_lossy, utf16_text, utf8_lossy, utf8_text};
use crate::types::{ChannelID, Color, ColorMode, Grayscale, CMYK};
use crate::layer::{LayerEdges, MaskEdges};
use crate::io::writer::{extent, layer_rect, mask_real_rect, mask_rect, or_edge, rect_of};
use vstd::prelude::*;
use vstd::string::StringExecFns;

verus! {

/// The color a Photoshop color structure stores: a color-space word and
/// four component words.
pub open spec fn color_from_words(space: u16, c1: u16, c2: u16, c3: u16, c4: u16) -> Color {
    if space == 0 {
        Color::Rgb48 { red: c1, green: c2, blue: c3 }
    } else if space == 1 {
        Color::Hsb { hue: c1, saturation: c2, brightness: c3 }
    } else if space == 2 {
        Color::CMYK(CMYK { c: c1, m: c2, y: c3, k: c4 })
    } else if space == 7 {
        Color::Lab { lightness: c1, a: u16_as_i16(c2), b: u16_as_i16(c3) }
    } else if space == 8 {
        Color::Grayscale(Grayscale { k: c1 })
    } else {
        Color::OpaqueColorSpace { color_space: space, components: [c1, c2, c3, c4] }
    }
}

/// Bytes of alignment padding after a payload of `len` bytes.
pub open spec fn padding_after(len: int, round: int) -> int {
    (round - len % round) % round
}

/// PSD reader over the bytes of a whole input.
///
/// `data` is the whole input and `offset` the read position.  Inside
/// `read_section`, `section_end` confines every read to the section's
/// payload.
pub struct PsdReader {
    pub data: Vec<u8>,
    pub offset: u64,
    pub large: bool,
    pub global_alpha: bool,
    pub color_mode: Option<ColorMode>,
    pub options: ReadOptions,
    pub section_end: Option<u64>,
}

impl PsdReader {
    /// The whole input.
    pub open spec fn input(&self) -> Seq<u8> {
        self.data@
    }

    /// End offset of the innermost section being read, if any.
    pub open spec fn section_bound(&self) -> Option<u64> {
        self.section_end
    }

    /// Whether `n` more bytes stay inside the innermost section.
    pub open spec fn within_section(&self, n: int) -> bool {
        match self.section_bound() {
            None => true,
            Some(end) => self.offset + n <= end,
        }
    }

    /// Whether `n` more bytes can be read: inside the section and present.
    pub open spec fn can_read(&self, n: int) -> bool {
        self.within_section(n) && self.offset + n <= self.input().len()
    }

    /// The `n` bytes at the read position.
    pub open spec fn ahead(&self, n: int) -> Seq<u8> {
        self.input().subrange(self.offset as int, self.offset + n)
    }

    /// The big-endian 16-bit word `k` words past the read position.
    pub open spec fn word(&self, k: int) -> u16 {
        read16(self.input(), self.offset + 2 * k)
    }

    /// Whether `other` reads the same input with the same bound and settings.
    pub open spec fn same_source(&self, other: &PsdReader) -> bool {
        &&& self.input() == other.input()
        &&& self.section_bound() == other.section_bound()
        &&& self.large == other.large
        &&& self.global_alpha == other.global_alpha
        &&& self.color_mode == other.color_mode
        &&& self.options == other.options
    }

    /// Whether `other` is this reader moved on by `n` bytes.
    pub open spec fn moved(&self, other: &PsdReader, n: int) -> bool {
        self.same_source(other) && other.offset == self.offset + n
    }

    /// The failure of reading `n` bytes at once: outside the section is an
    /// invalid format (an overread, or an offset overflow), past the input
    /// an I/O error for the unexpected end.
    pub open spec fn read_failure(&self, n: int, e: PsdError) -> bool {
        &&& !self.can_read(n)
        &&& if self.within_section(n) {
            e is Io && error_detail(e) == "unexpected EOF while reading data"@
        } else {
            e is InvalidFormat && error_detail(e) == if self.offset + n > u64::MAX {
                "Section read overflow"@
            } else {
                "Section overread: read exceeds section end"@
            }
        }
    }

    /// The failure of a read of `n` bytes made of smaller reads: it could
    /// not be done, and the kind of error names a limit that was hit.
    pub open spec fn split_read_failure(&self, n: int, e: PsdError) -> bool {
        &&& !self.can_read(n)
        &&& e is Io ==> self.offset + n > self.input().len()
        &&& e is InvalidFormat ==> !self.within_section(n)
        &&& (e is Io || e is InvalidFormat)
    }

    /// Creates a reader at the start of `data`.
    pub fn new(data: Vec<u8>, options: ReadOptions) -> (r: PsdReader)
        ensures
            r.input() == data@,
            r.offset == 0,
            r.section_bound() is None,
            !r.large,
            !r.global_alpha,
            r.color_mode is None,
            r.options == options,
    {
        PsdReader {
            data,
            offset: 0,
            large: false,
            global_alpha: false,
            color_mode: None,
            options,
            section_end: None,
        }
    }

    /// Checks that reading `extra` more bytes stays inside the innermost
    /// section.
    pub(crate) fn ensure_within_section(&self, extra: u64) -> (r: PsdResult<()>)
        ensures
            r is Ok <==> self.within_section(extra as int),
            r matches Err(e) ==> e is InvalidFormat,
            r matches Err(e) ==> error_detail(e) == if self.offset + extra > u64::MAX {
                "Section read overflow"@
            } else {
                "Section overread: read exceeds section end"@
            },
    {
        if let Some(end) = self.section_end {
            let new_offset = match self.offset.checked_add(extra) {
                Some(v) => v,
                None => {
                    return Err(invalid_format("Section read overflow"));
                },
            };
            if new_offset > end {
                return Err(invalid_format("Section overread: read exceeds section end"));
            }
        }
        Ok(())
    }

    /// Checks that `n` more bytes can be read and gives their start index.
    fn check_read(&self, n: u64) -> (r: PsdResult<usize>)
        ensures
            match r {
                Ok(i) => self.can_read(n as int) && i == self.offset && i + n <= self.input().len()
                    <= usize::MAX,
                Err(e) => self.read_failure(n as int, e),
            },
    {
        self.ensure_within_section(n)?;
        let len = self.data.len() as u64;
        if self.offset > len || n > len - self.offset {
            return Err(io_error("unexpected EOF while reading data"));
        }
        Ok(self.offset as usize)
    }

    /// Whether strict parsing is in effect (`strict` or
    /// `throw_for_missing_features`).
    pub fn strict_enabled(&self) -> (r: bool)
        ensures
            r == (self.options.strict == Some(true) || self.options.throw_for_missing_features
                == Some(true)),
    {
        let strict = match self.options.strict {
            Some(v) => v,
            None => false,
        };
        let throw = match self.options.throw_for_missing_features {
            Some(v) => v,
            None => false,
        };
        strict || throw
    }

    /// Confines reads to end at `end`; returns the previous bound for
    /// `pop_section_bound`.
    pub fn push_section_bound(&mut self, end: u64) -> (previous: Option<u64>)
        ensures
            previous == old(self).section_bound(),
            final(self).section_bound() == Some(end),
            final(self).input() == old(self).input(),
            final(self).offset == old(self).offset,
            final(self).large == old(self).large,
            final(self).global_alpha == old(self).global_alpha,
            final(self).color_mode == old(self).color_mode,
            final(self).options == old(self).options,
    {
        let previous = self.section_end;
        self.section_end = Some(end);
        previous
    }

    /// Restores a bound saved by `push_section_bound`.
    pub fn pop_section_bound(&mut self, previous: Option<u64>)
        ensures
            final(self).section_bound() == previous,
            final(self).input() == old(self).input(),
            final(self).offset == old(self).offset,
            final(self).large == old(self).large,
            final(self).global_alpha == old(self).global_alpha,
            final(self).color_mode == old(self).color_mode,
            final(self).options == old(self).options,
    {
        self.section_end = previous;
    }

    /// Moves the read position to `position`; inside a section, a position
    /// past the section's end is an invalid format.
    pub fn seek_to(&mut self, position: u64) -> (r: PsdResult<()>)
        ensures
            r is Ok <==> (match old(self).section_bound() {
                None => true,
                Some(end) => position <= end,
            }),
            r is Ok ==> final(self).same_source(old(self)) && final(self).offset == position,
            r matches Err(e) ==> e is InvalidFormat && *final(self) == *old(self),
    {
        if let Some(end) = self.section_end {
            if position > end {
                return Err(invalid_format("Section seek past end"));
            }
        }
        self.offset = position;
        Ok(())
    }

    /// Reads an unsigned 8-bit integer.
    pub fn read_u8(&mut self) -> (r: PsdResult<u8>)
        ensures
            match r {
                Ok(v) => old(self).can_read(1) && v == old(self).input()[old(self).offset as int]
                    && old(self).moved(final(self), 1),
                Err(e) => old(self).read_failure(1, e) && *final(self) == *old(self),
            },
    {
        let i = self.check_read(1)?;
        let v = self.data[i];
        self.offset = self.offset + 1;
        Ok(v)
    }

    /// Reads an unsigned 8-bit integer without moving on.
    pub fn peek_u8(&self) -> (r: PsdResult<u8>)
        ensures
            match r {
                Ok(v) => self.can_read(1) && v == self.input()[self.offset as int],
                Err(e) => self.read_failure(1, e),
            },
    {
        let i = self.check_read(1)?;
        Ok(self.data[i])
    }

    /// Reads a signed 16-bit integer (big-endian).
    pub fn read_i16(&mut self) -> (r: PsdResult<i16>)
        ensures
            match r {
                Ok(v) => old(self).can_read(2) && v == u16_as_i16(old(self).word(0)) && old(
                    self,
                ).moved(final(self), 2),
                Err(e) => old(self).read_failure(2, e) && *final(self) == *old(self),
            },
    {
        let v = self.read_u16()?;
        Ok(i16_from_bits(v))
    }

    /// Reads an unsigned 16-bit integer (big-endian).
    pub fn read_u16(&mut self) -> (r: PsdResult<u16>)
        ensures
            match r {
                Ok(v) => old(self).can_read(2) && v == old(self).word(0) && old(self).moved(
                    final(self),
                    2,
                ),
                Err(e) => old(self).read_failure(2, e) && *final(self) == *old(self),
            },
    {
        let i = self.check_read(2)?;
        let v = u16_from_be(self.data[i], self.data[i + 1]);
        self.offset = self.offset + 2;
        Ok(v)
    }

    /// Reads a signed 32-bit integer (big-endian).
    pub fn read_i32(&mut self) -> (r: PsdResult<i32>)
        ensures
            match r {
                Ok(v) => old(self).can_read(4) && v == u32_as_i32(
                    read32(old(self).input(), old(self).offset as int),
                ) && old(self).moved(final(self), 4),
                Err(e) => old(self).read_failure(4, e) && *final(self) == *old(self),
            },
    {
        let v = self.read_u32()?;
        Ok(i32_from_bits(v))
    }

    /// Reads an unsigned 32-bit integer (big-endian).
    pub fn read_u32(&mut self) -> (r: PsdResult<u32>)
        ensures
            match r {
                Ok(v) => old(self).can_read(4) && v == read32(old(self).input(), old(self).offset as int)
                    && old(self).moved(final(self), 4),
                Err(e) => old(self).read_failure(4, e) && *final(self) == *old(self),
            },
    {
        let i = self.check_read(4)?;
        let v = u32_from_be(self.data[i], self.data[i + 1], self.data[i + 2], self.data[i + 3]);
        self.offset = self.offset + 4;
        Ok(v)
    }

    /// Reads `length` raw bytes.
    pub fn read_bytes(&mut self, length: usize) -> (r: PsdResult<Vec<u8>>)
        ensures
            match r {
                Ok(v) => old(self).can_read(length as int) && v@ == old(self).ahead(length as int)
                    && old(self).moved(final(self), length as int),
                Err(e) => old(self).read_failure(length as int, e) && *final(self) == *old(self),
            },
    {
        let i = self.check_read(length as u64)?;
        let v = vstd::slice::slice_to_vec(&self.data.as_slice()[i..i + length]);
        self.offset = self.offset + length as u64;
        Ok(v)
    }

    /// Moves the read position on by `count` bytes, which may pass the end
    /// of the input but not the end of the innermost section.
    pub fn skip_bytes(&mut self, count: usize) -> (r: PsdResult<()>)
        ensures
            r is Ok <==> old(self).within_section(count as int) && count <= i64::MAX && old(self).offset
                + count <= u64::MAX,
            r is Ok ==> old(self).moved(final(self), count as int),
            r matches Err(e) ==> *final(self) == *old(self) && (if old(self).within_section(
                count as int,
            ) {
                e is Io
            } else {
                e is InvalidFormat
            }),
    {
        self.ensure_within_section(count as u64)?;
        if count as u64 > i64::MAX as u64 || self.offset > u64::MAX - count as u64 {
            return Err(io_error("invalid seek to a negative or overflowing position"));
        }
        self.offset = self.offset + count as u64;
        Ok(())
    }

    /// Reads the rest of the innermost section, or of the input when no
    /// section is being read.
    pub fn read_remaining_bytes(&mut self) -> (r: PsdResult<Vec<u8>>)
        ensures
            ({
                let end: int = match old(self).section_bound() {
                    Some(e) => e as int,
                    None => old(self).input().len() as int,
                };
                match r {
                    Ok(v) => old(self).offset <= end && old(self).can_read(end - old(self).offset)
                        && v@ == old(self).ahead(end - old(self).offset) && old(self).moved(
                        final(self),
                        end - old(self).offset,
                    ),
                    Err(e) => *final(self) == *old(self) && (old(self).offset > end && e is InvalidFormat
                        || old(self).offset <= end && old(self).read_failure(
                        end - old(self).offset,
                        e,
                    )),
                }
            }),
    {
        let end = match self.section_end {
            Some(section_end) => section_end,
            None => self.data.len() as u64,
        };
        if end < self.offset {
            return Err(invalid_format("Section end precedes current offset"));
        }
        let remaining = end - self.offset;
        if remaining > self.data.len() as u64 {
            return Err(io_error("unexpected EOF while reading data"));
        }
        self.read_bytes(remaining as usize)
    }

    /// Reads a 4-character signature.
    pub fn read_signature(&mut self) -> (r: PsdResult<String>)
        ensures
            match r {
                Ok(s) => old(self).can_read(4) && s@ == utf8_text(old(self).ahead(4)) && old(
                    self,
                ).moved(final(self), 4),
                Err(e) => old(self).read_failure(4, e) && *final(self) == *old(self),
            },
    {
        let bytes = self.read_bytes(4)?;
        Ok(utf8_lossy(bytes.as_slice()))
    }

    /// Reads a 4-character signature without moving on.
    pub fn peek_signature(&self) -> (r: PsdResult<String>)
        ensures
            match r {
                Ok(s) => self.can_read(4) && s@ == utf8_text(self.ahead(4)),
                Err(e) => self.read_failure(4, e),
            },
    {
        let i = self.check_read(4)?;
        Ok(utf8_lossy(&self.data.as_slice()[i..i + 4]))
    }

    /// Reads a signature and checks that it is `expected`.
    pub fn check_signature(&mut self, expected: &str) -> (r: PsdResult<()>)
        ensures
            r is Ok <==> old(self).can_read(4) && utf8_text(old(self).ahead(4)) == expected@,
            old(self).can_read(4) ==> old(self).moved(final(self), 4),
            r matches Err(e) ==> (old(self).can_read(4) && e is InvalidFormat) || old(
                self,
            ).read_failure(4, e),
            old(self).can_read(4) && utf8_text(old(self).ahead(4)) != expected@ ==> (r matches Err(e)
                && e is InvalidFormat && error_detail(e) == "Invalid signature: expected '"@
                + expected@ + "', got '"@ + utf8_text(old(self).ahead(4)) + "'"@),
            !old(self).can_read(4) ==> *final(self) == *old(self),
    {
        let sig = self.read_signature()?;
        if !str_equal(sig.as_str(), expected) {
            return Err(signature_mismatch(expected, sig.as_str()));
        }
        Ok(())
    }

    /// Reads a Pascal string: a length byte, that many bytes of text, then
    /// zero bytes up to a multiple of `pad_to` counting the length byte.
    pub fn read_pascal_string(&mut self, pad_to: usize) -> (r: PsdResult<String>)
        requires
            pad_to > 0,
        ensures
            ({
                let len = old(self).input()[old(self).offset as int] as int;
                let total = 1 + len + padding_after(1 + len, pad_to as int);
                match r {
                    Ok(s) => old(self).can_read(1 + len) && old(self).within_section(total) && (if len
                        > 0 {
                        s@ == utf8_text(old(self).input().subrange(
                            old(self).offset + 1,
                            old(self).offset + 1 + len,
                        ))
                    } else {
                        s@ == Seq::<char>::empty()
                    }) && old(self).moved(final(self), total),
                    Err(e) => final(self).same_source(old(self)) && (!old(self).can_read(1 + len)
                        || !old(self).within_section(total) || old(self).offset + total > u64::MAX
                        || padding_after(1 + len, pad_to as int) > i64::MAX),
                }
            }),
    {
        let length = self.read_u8()? as usize;
        let text = if length > 0 {
            let bytes = self.read_bytes(length)?;
            utf8_lossy(bytes.as_slice())
        } else {
            String::new()
        };
        let total = length + 1;
        let padding = (pad_to - total % pad_to) % pad_to;
        self.skip_bytes(padding)?;
        Ok(text)
    }

    /// Reads a UTF-16 string preceded by its length in code units.
    pub fn read_unicode_string(&mut self) -> (r: PsdResult<String>)
        ensures
            ({
                let n = read32(old(self).input(), old(self).offset as int) as int;
                match r {
                    Ok(s) => old(self).can_read(4) && (n == 0 || old(self).can_read(4 + 2 * n)) && utf16_text(
                        utf16_payload(old(self).input(), old(self).offset + 4, n),
                        s@,
                    ) && old(self).moved(final(self), 4 + 2 * n),
                    Err(e) => final(self).same_source(old(self)) && (old(self).read_failure(4, e)
                        || old(self).can_read(4) && n > 0 && old(self).split_read_failure(4 + 2 * n, e)),
                }
            }),
    {
        let length = self.read_u32()? as usize;
        self.read_unicode_string_with_length(length)
    }

    /// Reads a UTF-16 string of `length` code units; one trailing zero unit
    /// is dropped.
    pub fn read_unicode_string_with_length(&mut self, length: usize) -> (r: PsdResult<String>)
        ensures
            match r {
                Ok(s) => (length == 0 || old(self).can_read(2 * length)) && utf16_text(
                    utf16_payload(old(self).input(), old(self).offset as int, length as int),
                    s@,
                ) && old(self).moved(final(self), 2 * length),
                Err(e) => length > 0 && final(self).same_source(old(self)) && old(
                    self,
                ).split_read_failure(2 * length, e),
            },
    {
        let ghost start = *self;
        let mut units: Vec<u16> = Vec::new();
        let mut k: usize = 0;
        while k < length
            invariant
                k <= length,
                start == *old(self),
                k > 0 ==> start.can_read(2 * k),
                start.moved(self, 2 * k),
                units@ == code_units(start.input(), start.offset as int, k as int),
            decreases length - k,
        {
            let v = match self.read_u16() {
                Ok(v) => v,
                Err(e) => {
                    assert(start.split_read_failure(2 * length, e));
                    return Err(e);
                },
            };
            proof {
                assert(units@.push(v) =~= code_units(start.input(), start.offset as int, k + 1));
            }
            units.push(v);
            k += 1;
        }
        let ghost all = units@;
        if units.len() > 0 && units[units.len() - 1] == 0 {
            units.pop();
        }
        proof {
            assert(units@ =~= utf16_payload(start.input(), start.offset as int, length as int));
        }
        Ok(utf16_lossy(units.as_slice()))
    }

    /// Reads `length` bytes as text.
    pub fn read_ascii_string(&mut self, length: usize) -> (r: PsdResult<String>)
        ensures
            match r {
                Ok(s) => old(self).can_read(length as int) && s@ == utf8_text(
                    old(self).ahead(length as int),
                ) && old(self).moved(final(self), length as int),
                Err(e) => old(self).read_failure(length as int, e) && *final(self) == *old(self),
            },
    {
        let bytes = self.read_bytes(length)?;
        Ok(utf8_lossy(bytes.as_slice()))
    }

    /// Whether a section header at the read position is acceptable: a
    /// non-zero alignment, a readable length field (eight bytes with a zero
    /// high half when `eight_byte`), and a payload inside the enclosing
    /// section and the input.
    pub open spec fn section_header_ok(&self, round: int, eight_byte: bool) -> bool {
        let hdr = if eight_byte {
            8int
        } else {
            4int
        };
        let length = read32(self.input(), self.offset + hdr - 4) as int;
        &&& round > 0
        &&& self.can_read(hdr)
        &&& eight_byte ==> read32(self.input(), self.offset as int) == 0
        &&& self.within_section(hdr + length)
        &&& self.offset + hdr + length <= self.input().len()
    }

    /// The size of a section's length field.
    pub open spec fn section_hdr(eight_byte: bool) -> int {
        if eight_byte {
            8
        } else {
            4
        }
    }

    /// The payload length that the section header at the read position
    /// declares.
    pub open spec fn section_length(&self, eight_byte: bool) -> int {
        read32(self.input(), self.offset + Self::section_hdr(eight_byte) - 4) as int
    }

    /// Where the payload of the section at the read position ends.
    pub open spec fn payload_end(&self, eight_byte: bool) -> int {
        self.offset + Self::section_hdr(eight_byte) + self.section_length(eight_byte)
    }

    /// Whether `inner` is this reader entered into the section at its read
    /// position: the same input and settings, past the length field, with
    /// reads confined to the payload.
    pub open spec fn entered_section(&self, inner: PsdReader, eight_byte: bool) -> bool {
        &&& inner.input() == self.input()
        &&& inner.large == self.large
        &&& inner.global_alpha == self.global_alpha
        &&& inner.color_mode == self.color_mode
        &&& inner.options == self.options
        &&& inner.offset == self.offset + Self::section_hdr(eight_byte)
        &&& inner.section_end == Some(self.payload_end(eight_byte) as u64)
    }

    /// The reader `h` that a handler left, with this reader's section bound
    /// back in place.
    pub open spec fn restored(&self, h: PsdReader) -> PsdReader {
        PsdReader { section_end: self.section_end, ..h }
    }

    /// The reader `h` that a handler left, with this reader's section bound
    /// back in place and moved on to `end` if it stands before it.
    pub open spec fn left_section(&self, h: PsdReader, end: int) -> PsdReader {
        PsdReader {
            section_end: self.section_end,
            offset: if h.offset < end {
                end as u64
            } else {
                h.offset
            },
            ..h
        }
    }

    /// The message for a section whose payload runs past the input.
    pub open spec fn past_input_message(length: int, end: int, file_end: int) -> Seq<char> {
        "Section length "@ + decimal(length as nat) + " exceeds available input (payload end "@
            + decimal(end as nat) + " > file end "@ + decimal(file_end as nat) + ")"@
    }

    /// Reads a section: a 4-byte big-endian length (8 bytes when
    /// `eight_byte`, whose high half must be zero), a payload, then padding
    /// to a multiple of `round` that is not counted in the length.
    ///
    /// `func` is called once, with the reader entered into the section
    /// and the payload's end offset; its reads are confined to the payload.
    /// Its error is passed on.  Payload bytes it leaves unread are skipped,
    /// and the padding is read, so missing padding is an error.  A header
    /// that does not read, a payload past the enclosing section or the
    /// input, fails before `func` is called.
    pub fn read_section<F, T>(&mut self, round: usize, eight_byte: bool, func: F) -> (r: PsdResult<T>)
        where
            F: FnOnce(&mut PsdReader, u64) -> PsdResult<T>,
        requires
            forall|s: &mut PsdReader, e: u64| func.requires((s, e)),
        ensures
            !old(self).section_header_ok(round as int, eight_byte) ==> {
                &&& r is Err
                &&& final(self).same_source(old(self))
                &&& old(self).offset <= final(self).offset <= old(self).offset
                    + Self::section_hdr(eight_byte)
            },
            round == 0 ==> (r matches Err(e) && e is InvalidFormat),
            round > 0 && old(self).can_read(Self::section_hdr(eight_byte)) && (eight_byte ==> read32(
                old(self).input(),
                old(self).offset as int,
            ) == 0) && old(self).payload_end(eight_byte) > u64::MAX ==> (r matches Err(e)
                && e is InvalidFormat && error_detail(e) == "Section length overflow"@),
            round > 0 && old(self).can_read(Self::section_hdr(eight_byte)) && (eight_byte ==> read32(
                old(self).input(),
                old(self).offset as int,
            ) == 0) && old(self).payload_end(eight_byte) <= u64::MAX && !old(self).within_section(
                Self::section_hdr(eight_byte) + old(self).section_length(eight_byte),
            ) ==> (r matches Err(e) && e is InvalidFormat && error_detail(e)
                == "Section overread: read exceeds section end"@),
            round > 0 && old(self).can_read(Self::section_hdr(eight_byte)) && (eight_byte ==> read32(
                old(self).input(),
                old(self).offset as int,
            ) == 0) && old(self).payload_end(eight_byte) <= u64::MAX && old(self).within_section(
                Self::section_hdr(eight_byte) + old(self).section_length(eight_byte),
            ) && old(self).payload_end(eight_byte) > old(self).input().len() ==> (r matches Err(e)
                && e is InvalidFormat && error_detail(e) == Self::past_input_message(
                old(self).section_length(eight_byte),
                old(self).payload_end(eight_byte),
                old(self).input().len() as int,
            )),
            old(self).section_header_ok(round as int, eight_byte) ==> exists|
                w: &mut PsdReader,
                res: PsdResult<T>,
            |
                {
                    let end = old(self).payload_end(eight_byte);
                    let pad = padding_after(old(self).section_length(eight_byte), round as int);
                    let after = old(self).left_section(*final(w), end);
                    &&& old(self).entered_section(*w, eight_byte)
                    &&& #[trigger] call_ensures(func, (w, old(self).payload_end(eight_byte) as u64), res)
                    &&& (res is Err ==> r == res && *final(self) == old(self).restored(*final(w)))
                    &&& (res matches Ok(v) ==> if pad == 0 {
                        r == Ok::<T, PsdError>(v) && *final(self) == after
                    } else if after.can_read(pad) {
                        r == Ok::<T, PsdError>(v) && after.moved(&*final(self), pad)
                    } else {
                        (r matches Err(e) && after.read_failure(pad, e)) && *final(self) == after
                    })
                },
    {
        if round == 0 {
            return Err(invalid_format("Section alignment must be non-zero"));
        }
        let ghost s0 = *self;
        let length = if eight_byte {
            let high = self.read_u32()?;
            if high != 0 {
                return Err(unsupported("Sizes larger than 4GB are not supported"));
            }
            self.read_u32()? as usize
        } else {
            self.read_u32()? as usize
        };
        let start_offset = self.offset;
        let physical_end = self.data.len() as u64;
        let end_offset = match start_offset.checked_add(length as u64) {
            Some(v) => v,
            None => {
                return Err(invalid_format("Section length overflow"));
            },
        };
        self.ensure_within_section(length as u64)?;
        if end_offset > physical_end {
            let message = String::from_str("Section length ").concat(
                decimal_string(length as u64).as_str(),
            ).concat(" exceeds available input (payload end ").concat(
                decimal_string(end_offset).as_str(),
            ).concat(" > file end ").concat(decimal_string(physical_end).as_str()).concat(")");
            return Err(PsdError::InvalidFormat(message));
        }
        proof {
            assert(s0.section_header_ok(round as int, eight_byte));
        }
        let previous_bound = self.section_end;
        self.section_end = Some(end_offset);
        let result = func(self, end_offset);
        self.section_end = previous_bound;
        let result = match result {
            Ok(v) => v,
            Err(e) => {
                return Err(e);
            },
        };
        if self.offset < end_offset {
            self.offset = end_offset;
        }
        let padding = (round - (length % round)) % round;
        if padding != 0 {
            self.read_bytes(padding)?;
        }
        Ok(result)
    }

    /// Bytes left before `end_offset`.
    pub fn bytes_left(&self, end_offset: u64) -> (r: usize)
        ensures
            r == (if self.offset >= end_offset {
                0
            } else {
                (end_offset - self.offset) as usize
            }),
    {
        if self.offset >= end_offset {
            0
        } else {
            (end_offset - self.offset) as usize
        }
    }

    /// Reads a Photoshop color structure: a color-space word and four
    /// component words.
    pub fn read_color(&mut self) -> (r: PsdResult<Color>)
        ensures
            match r {
                Ok(c) => old(self).can_read(10) && c == color_from_words(
                    old(self).word(0),
                    old(self).word(1),
                    old(self).word(2),
                    old(self).word(3),
                    old(self).word(4),
                ) && old(self).moved(final(self), 10),
                Err(e) => final(self).same_source(old(self)) && old(self).split_read_failure(10, e),
            },
    {
        let ghost s0 = *self;
        let color_space = self.read_u16()?;
        let c1 = self.read_u16()?;
        let c2 = self.read_u16()?;
        let c3 = self.read_u16()?;
        let c4 = self.read_u16()?;
        proof {
            assert(s0.word(1) == read16(s0.input(), s0.offset + 2));
        }
        if color_space == 0 {
            Ok(Color::Rgb48 { red: c1, green: c2, blue: c3 })
        } else if color_space == 1 {
            Ok(Color::Hsb { hue: c1, saturation: c2, brightness: c3 })
        } else if color_space == 2 {
            Ok(Color::CMYK(CMYK { c: c1, m: c2, y: c3, k: c4 }))
        } else if color_space == 7 {
            Ok(Color::Lab { lightness: c1, a: i16_from_bits(c2), b: i16_from_bits(c3) })
        } else if color_space == 8 {
            Ok(Color::Grayscale(Grayscale { k: c1 }))
        } else {
            Ok(Color::OpaqueColorSpace { color_space, components: [c1, c2, c3, c4] })
        }
    }
}

/// The `n` big-endian 16-bit code units stored from `start`.
pub open spec fn code_units(input: Seq<u8>, start: int, n: int) -> Seq<u16> {
    Seq::new(n as nat, |k: int| read16(input, start + 2 * k))
}

/// The code units of a stored UTF-16 string without one trailing zero.
pub open spec fn utf16_payload(input: Seq<u8>, start: int, n: int) -> Seq<u16> {
    let units = code_units(input, start, n);
    if units.len() > 0 && units.last() == 0 {
        units.drop_last()
    } else {
        units
    }
}


/// Where the data of a channel is read from: the user mask's rectangle
/// for the user mask; for the real user mask the real mask's rectangle
/// when there is a real mask, else the user mask's real rectangle; the
/// layer's rectangle otherwise.
pub open spec fn read_channel_rect(
    layer: LayerEdges,
    mask: Option<MaskEdges>,
    real_mask: Option<MaskEdges>,
    id: ChannelID,
) -> (i32, i32, int, int) {
    match id {
        ChannelID::UserMask => match mask {
            Some(m) => mask_rect(m, layer),
            None => layer_rect(layer),
        },
        ChannelID::RealUserMask => match real_mask {
            Some(r) => mask_rect(r, layer),
            None => match mask {
                Some(m) => mask_real_rect(m, layer),
                None => layer_rect(layer),
            },
        },
        _ => layer_rect(layer),
    }
}

/// Left, top, width and height of the data of a channel when reading
/// (see `read_channel_rect`).
pub fn layer_channel_bounds(
    layer: &LayerEdges,
    mask: Option<&MaskEdges>,
    real_mask: Option<&MaskEdges>,
    channel_id: ChannelID,
) -> (r: (i32, i32, usize, usize))
    ensures
        (r.0, r.1, r.2 as int, r.3 as int) == read_channel_rect(
            *layer,
            match mask {
                Some(m) => Some(*m),
                None => None,
            },
            match real_mask {
                Some(m) => Some(*m),
                None => None,
            },
            channel_id,
        ),
{
    let layer_left = match layer.left {
        Some(v) => v,
        None => 0,
    };
    let layer_top = match layer.top {
        Some(v) => v,
        None => 0,
    };
    let layer_right = match layer.right {
        Some(v) => v,
        None => 0,
    };
    let layer_bottom = match layer.bottom {
        Some(v) => v,
        None => 0,
    };
    match channel_id {
        ChannelID::UserMask => {
            if let Some(m) = mask {
                return rect_of(m.left, m.top, m.right, m.bottom, layer_left, layer_top);
            }
        },
        ChannelID::RealUserMask => {
            if let Some(m) = real_mask {
                return rect_of(m.left, m.top, m.right, m.bottom, layer_left, layer_top);
            }
            if let Some(m) = mask {
                return rect_of(
                    or_edge(m.real_left, m.left),
                    or_edge(m.real_top, m.top),
                    or_edge(m.real_right, m.right),
                    or_edge(m.real_bottom, m.bottom),
                    layer_left,
                    layer_top,
                );
            }
        },
        _ => {},
    }
    (layer_left, layer_top, extent(layer_left, layer_right), extent(layer_top, layer_bottom))
}

} // verus!

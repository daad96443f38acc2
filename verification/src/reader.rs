//! Stream-style PSD reader over an in-memory input.
//!
//! The reader keeps a stream position of its own beside the public
//! `offset` field: reads take bytes at the position and advance both,
//! `peek_signature` moves `offset` to the position, and nothing else ties
//! them together.

use crate::bytes::{be16, be32, i16_from_bits, i32_from_bits, read16, read32, u16_as_i16, u16_from_be, u32_as_i32, u32_from_be};
use crate::error::{PsdError, error_detail, signature_mismatch, invalid_format, io_error, unsupported, PsdResult};
use crate::io::reader::{code_units, color_from_words, padding_after};
use crate::psd::{GlobalLayerMaskInfo, ReadOptions};
use crate::strings::{char_from_code, str_equal, string_from_chars, utf8_lossy, utf8_text};
use crate::compression::{decompress_rle, decompress_zip, inflate_stream, planar_decode, reverse_prediction_planar, rle_decode, prediction_depth, sample_bytes};
use crate::types::{ChannelID, Color, ColorMode, Compression, Grayscale, CMYK};
use crate::io::writer::{mask_info_bytes, mask_info_section, blending_ranges_bytes, range_pair_bytes, range_pairs_bytes, zeros};
use crate::layer::{LayerBlendingRangePair, LayerBlendingRangesData};
use vstd::prelude::*;

verus! {

/// Whether a stored UTF-16 unit becomes a character of a legacy Unicode
/// string: zero units and surrogates are dropped.
pub open spec fn kept_unit(u: u16) -> bool {
    u != 0 && !(0xD800 <= u && u <= 0xDFFF)
}

/// The characters of a legacy Unicode string: each kept unit taken as the
/// character with its code.
pub open spec fn legacy_unit_chars(units: Seq<u16>) -> Seq<char>
    decreases units.len(),
{
    if units.len() == 0 {
        seq![]
    } else {
        let rest = legacy_unit_chars(units.drop_last());
        if kept_unit(units.last()) {
            rest.push(units.last() as char)
        } else {
            rest
        }
    }
}

/// Where a reader left by a section's handler as `fw` stands after moving
/// on to the payload end `end` (if it stands before it) and past `pad`
/// padding bytes: its position and offset, or `None` where a skip fails.
pub open spec fn section_finish(fw: PsdReader, end: int, pad: int) -> Option<(int, int)> {
    let rem = if fw.offset < end {
        end - fw.offset
    } else {
        0
    };
    let p1 = fw.position + rem;
    let o1 = fw.offset + rem;
    if rem > usize::MAX || p1 > u64::MAX {
        None
    } else if pad == 0 {
        Some((p1, o1))
    } else if o1 + pad > u64::MAX || pad > i64::MAX || p1 + pad > u64::MAX {
        None
    } else {
        Some((p1 + pad, o1 + pad))
    }
}

/// PSD reader over the bytes of an input, read as a stream.
pub struct PsdReader {
    /// The whole input.
    pub data: Vec<u8>,
    /// The stream position, which may lie past the end after a skip.
    pub position: u64,
    pub offset: u64,
    pub large: bool,
    pub global_alpha: bool,
    pub options: ReadOptions,
}

impl PsdReader {
    /// The whole input.
    pub open spec fn input(&self) -> Seq<u8> {
        self.data@
    }

    /// Whether `n` bytes are present at the stream position.
    pub open spec fn can_read(&self, n: int) -> bool {
        self.position + n <= self.input().len()
    }

    /// The `n` bytes at the stream position.
    pub open spec fn ahead(&self, n: int) -> Seq<u8> {
        self.input().subrange(self.position as int, self.position + n)
    }

    /// Whether `other` reads the same input with the same settings.
    pub open spec fn same_source(&self, other: &PsdReader) -> bool {
        &&& self.input() == other.input()
        &&& self.large == other.large
        &&& self.global_alpha == other.global_alpha
        &&& self.options == other.options
    }

    /// Whether the offset counter, which moves with the position, stays
    /// `extra` below `u64::MAX` wherever the position lies within the
    /// input, now and after moving up to `extra` bytes.
    pub open spec fn has_headroom(&self, extra: int) -> bool {
        &&& self.offset + extra <= u64::MAX
        &&& self.offset - self.position + self.input().len() + extra <= u64::MAX
        &&& self.input().len() + extra <= u64::MAX
    }

    /// Whether `other` is this reader moved on by `n` bytes.
    pub open spec fn moved(&self, other: &PsdReader, n: int) -> bool {
        &&& self.same_source(other)
        &&& other.position == self.position + n
        &&& other.offset == self.offset + n
    }

    /// Creates a reader at the start of `data`.
    pub fn new(data: Vec<u8>, options: ReadOptions) -> (r: PsdReader)
        ensures
            r.input() == data@,
            r.position == 0,
            r.offset == 0,
            !r.large,
            !r.global_alpha,
            r.options == options,
    {
        PsdReader { data, position: 0, offset: 0, large: false, global_alpha: false, options }
    }

    /// Checks that `n` bytes are present and gives the index of the first.
    fn check_read(&self, n: usize) -> (r: PsdResult<usize>)
        ensures
            match r {
                Ok(i) => self.can_read(n as int) && i == self.position && i + n <= self.input().len()
                    <= usize::MAX,
                Err(e) => !self.can_read(n as int) && e is Io,
            },
    {
        let len = self.data.len();
        if self.position > len as u64 || n > len - (self.position as usize) {
            return Err(io_error("failed to fill whole buffer"));
        }
        Ok(self.position as usize)
    }

    /// Reads an unsigned 8-bit integer.
    pub fn read_u8(&mut self) -> (r: PsdResult<u8>)
        requires
            old(self).offset + 1 <= u64::MAX,
        ensures
            match r {
                Ok(v) => old(self).can_read(1) && v == old(self).input()[old(self).position as int]
                    && old(self).moved(final(self), 1),
                Err(e) => !old(self).can_read(1) && e is Io && *final(self) == *old(self),
            },
    {
        let i = self.check_read(1)?;
        let v = self.data[i];
        self.position = self.position + 1;
        self.offset = self.offset + 1;
        Ok(v)
    }

    /// Reads an unsigned 8-bit integer without moving on.
    pub fn peek_u8(&mut self) -> (r: PsdResult<u8>)
        ensures
            *final(self) == *old(self),
            match r {
                Ok(v) => old(self).can_read(1) && v == old(self).input()[old(self).position as int],
                Err(e) => !old(self).can_read(1) && e is Io,
            },
    {
        let i = self.check_read(1)?;
        Ok(self.data[i])
    }

    /// Reads an unsigned 16-bit integer (big-endian).
    pub fn read_u16(&mut self) -> (r: PsdResult<u16>)
        requires
            old(self).offset + 2 <= u64::MAX,
        ensures
            match r {
                Ok(v) => old(self).can_read(2) && v == read16(old(self).input(), old(self).position as int)
                    && old(self).moved(final(self), 2),
                Err(e) => !old(self).can_read(2) && e is Io && *final(self) == *old(self),
            },
    {
        let i = self.check_read(2)?;
        let v = u16_from_be(self.data[i], self.data[i + 1]);
        self.position = self.position + 2;
        self.offset = self.offset + 2;
        Ok(v)
    }

    /// Reads a signed 16-bit integer (big-endian).
    pub fn read_i16(&mut self) -> (r: PsdResult<i16>)
        requires
            old(self).offset + 2 <= u64::MAX,
        ensures
            match r {
                Ok(v) => old(self).can_read(2) && v == u16_as_i16(
                    read16(old(self).input(), old(self).position as int),
                ) && old(self).moved(final(self), 2),
                Err(e) => !old(self).can_read(2) && e is Io && *final(self) == *old(self),
            },
    {
        let v = self.read_u16()?;
        Ok(i16_from_bits(v))
    }

    /// Reads an unsigned 32-bit integer (big-endian).
    pub fn read_u32(&mut self) -> (r: PsdResult<u32>)
        requires
            old(self).offset + 4 <= u64::MAX,
        ensures
            match r {
                Ok(v) => old(self).can_read(4) && v == read32(old(self).input(), old(self).position as int)
                    && old(self).moved(final(self), 4),
                Err(e) => !old(self).can_read(4) && e is Io && *final(self) == *old(self),
            },
    {
        let i = self.check_read(4)?;
        let v = u32_from_be(self.data[i], self.data[i + 1], self.data[i + 2], self.data[i + 3]);
        self.position = self.position + 4;
        self.offset = self.offset + 4;
        Ok(v)
    }

    /// Reads a signed 32-bit integer (big-endian).
    pub fn read_i32(&mut self) -> (r: PsdResult<i32>)
        requires
            old(self).offset + 4 <= u64::MAX,
        ensures
            match r {
                Ok(v) => old(self).can_read(4) && v == u32_as_i32(
                    read32(old(self).input(), old(self).position as int),
                ) && old(self).moved(final(self), 4),
                Err(e) => !old(self).can_read(4) && e is Io && *final(self) == *old(self),
            },
    {
        let v = self.read_u32()?;
        Ok(i32_from_bits(v))
    }

    /// Reads `length` raw bytes.
    pub fn read_bytes(&mut self, length: usize) -> (r: PsdResult<Vec<u8>>)
        requires
            old(self).offset + length <= u64::MAX,
        ensures
            match r {
                Ok(v) => old(self).can_read(length as int) && v@ == old(self).ahead(length as int)
                    && old(self).moved(final(self), length as int),
                Err(e) => !old(self).can_read(length as int) && e is Io && *final(self) == *old(
                    self,
                ),
            },
    {
        let start = self.check_read(length)?;
        let mut out: Vec<u8> = Vec::new();
        let mut k: usize = 0;
        while k < length
            invariant
                k <= length,
                start + length <= self.data@.len() <= usize::MAX,
                out@ == self.data@.subrange(start as int, start + k),
            decreases length - k,
        {
            out.push(self.data[start + k]);
            k += 1;
            assert(out@ =~= self.data@.subrange(start as int, start + k));
        }
        self.position = self.position + length as u64;
        self.offset = self.offset + length as u64;
        Ok(out)
    }

    /// Moves the stream on by `count` bytes; it may pass the end of the
    /// input, where later reads fail.
    pub fn skip_bytes(&mut self, count: usize) -> (r: PsdResult<()>)
        requires
            count <= i64::MAX,
            old(self).offset + count <= u64::MAX,
        ensures
            r is Ok <==> old(self).position + count <= u64::MAX,
            r is Ok ==> old(self).moved(final(self), count as int),
            r matches Err(e) ==> e is Io && *final(self) == *old(self),
    {
        if self.position > u64::MAX - count as u64 {
            return Err(io_error("invalid seek to a negative or overflowing position"));
        }
        self.position = self.position + count as u64;
        self.offset = self.offset + count as u64;
        Ok(())
    }

    /// Reads the rest of the input.
    pub fn read_remaining_bytes(&mut self) -> (r: PsdResult<Vec<u8>>)
        requires
            old(self).position <= old(self).input().len(),
            old(self).offset + old(self).input().len() <= u64::MAX,
        ensures
            match r {
                Ok(v) => {
                    let n = old(self).input().len() - old(self).position;
                    v@ == old(self).ahead(n) && old(self).moved(final(self), n)
                },
                Err(_) => false,
            },
    {
        let remaining = self.data.len() - self.position as usize;
        self.read_bytes(remaining)
    }

    /// Reads a 4-character signature.
    pub fn read_signature(&mut self) -> (r: PsdResult<String>)
        requires
            old(self).offset + 4 <= u64::MAX,
        ensures
            match r {
                Ok(s) => old(self).can_read(4) && s@ == utf8_text(old(self).ahead(4)) && old(
                    self,
                ).moved(final(self), 4),
                Err(e) => !old(self).can_read(4) && e is Io && *final(self) == *old(self),
            },
    {
        let bytes = self.read_bytes(4)?;
        Ok(utf8_lossy(bytes.as_slice()))
    }

    /// Reads a 4-character signature without moving the stream; `offset`
    /// is set to the stream position.
    pub fn peek_signature(&mut self) -> (r: PsdResult<String>)
        requires
            old(self).offset + 4 <= u64::MAX,
        ensures
            match r {
                Ok(s) => old(self).can_read(4) && s@ == utf8_text(old(self).ahead(4))
                    && final(self).same_source(old(self)) && final(self).position == old(
                    self,
                ).position && final(self).offset == old(self).position,
                Err(e) => !old(self).can_read(4) && e is Io && *final(self) == *old(self),
            },
    {
        let pos = self.position;
        let bytes = self.read_bytes(4)?;
        self.position = pos;
        self.offset = pos;
        Ok(utf8_lossy(bytes.as_slice()))
    }

    /// Reads a signature and checks that it is `expected`.
    pub fn check_signature(&mut self, expected: &str) -> (r: PsdResult<()>)
        requires
            old(self).offset + 4 <= u64::MAX,
        ensures
            r is Ok <==> old(self).can_read(4) && utf8_text(old(self).ahead(4)) == expected@,
            old(self).can_read(4) ==> old(self).moved(final(self), 4),
            r matches Err(e) ==> (old(self).can_read(4) && e is InvalidFormat) || (!old(
                self,
            ).can_read(4) && e is Io),
            old(self).can_read(4) && utf8_text(old(self).ahead(4)) != expected@ ==> (r matches Err(e)
                && e is InvalidFormat && error_detail(e) == "Invalid signature: expected '"@
                + expected@ + "', got '"@ + utf8_text(old(self).ahead(4)) + "'"@),
            !old(self).can_read(4) ==> *final(self) == *old(self),
    {
        let sig = self.read_signature()?;
        if !str_equal(sig.as_str(), expected) {
            return Err(signature_mismatch(expected, sig.as_str()));
        }
        Ok(())
    }

    /// Reads a Pascal string: a length byte, that many bytes of text, then
    /// skips up to a multiple of `pad_to` counting the length byte.
    pub fn read_pascal_string(&mut self, pad_to: usize) -> (r: PsdResult<String>)
        requires
            0 < pad_to <= i64::MAX,
            old(self).offset + 256 + pad_to <= u64::MAX,
        ensures
            ({
                let len = old(self).input()[old(self).position as int] as int;
                let total = 1 + len + padding_after(1 + len, pad_to as int);
                match r {
                    Ok(s) => old(self).can_read(1 + len) && s@ == utf8_text(
                        old(self).input().subrange(
                            old(self).position + 1,
                            old(self).position + 1 + len,
                        ),
                    ) && old(self).moved(final(self), total),
                    Err(e) => final(self).same_source(old(self)) && e is Io && (!old(
                        self,
                    ).can_read(1 + len) || old(self).position + total > u64::MAX),
                }
            }),
            final(self).offset - final(self).position == old(self).offset - old(self).position,
    {
        let ghost s0 = *self;
        let length = self.read_u8()? as usize;
        let text = if length > 0 {
            let bytes = self.read_bytes(length)?;
            utf8_lossy(bytes.as_slice())
        } else {
            proof {
                assert(s0.input().subrange(s0.position + 1, s0.position + 1) =~= Seq::<u8>::empty());
                assert(utf8_text(Seq::<u8>::empty()) =~= Seq::<char>::empty()) by {
                    vstd::utf8::encode_utf8_decode_utf8(Seq::<char>::empty());
                    vstd::utf8::encode_utf8_valid_utf8(Seq::<char>::empty());
                    assert(vstd::utf8::encode_utf8(Seq::<char>::empty()) =~= Seq::<u8>::empty());
                }
            }
            String::new()
        };
        let ghost s1 = *self;
        let padding = (pad_to - (length + 1) % pad_to) % pad_to;
        let mut k: usize = 0;
        while k < padding
            invariant
                k <= padding,
                padding <= pad_to <= i64::MAX,
                length <= 255,
                s0.offset + 256 + pad_to <= u64::MAX,
                s1.offset == s0.offset + 1 + length,
                s1.position == s0.position + 1 + length,
                s1.same_source(&s0),
                s0 == *old(self),
                length == s0.input()[s0.position as int],
                padding == padding_after(length + 1, pad_to as int),
                s1.moved(self, k as int),
            decreases padding - k,
        {
            match self.skip_bytes(1) {
                Ok(()) => {},
                Err(e) => {
                    assert(s0.position + 1 + length + padding > u64::MAX);
                    assert(final(self).same_source(&s0));
                    return Err(e);
                },
            }
            k += 1;
        }
        Ok(text)
    }

    /// Reads a UTF-16 string preceded by its length in code units.
    pub fn read_unicode_string(&mut self) -> (r: PsdResult<String>)
        requires
            old(self).offset + 4 + 2 * (u32::MAX as int) <= u64::MAX,
        ensures
            ({
                let n = read32(old(self).input(), old(self).position as int) as int;
                match r {
                    Ok(s) => old(self).can_read(4 + 2 * n) && s@ == legacy_unit_chars(
                        code_units(old(self).input(), old(self).position + 4, n),
                    ) && old(self).moved(final(self), 4 + 2 * n),
                    Err(e) => e is Io && final(self).same_source(old(self)) && !old(self).can_read(
                        4 + 2 * n,
                    ),
                }
            }),
    {
        let length = self.read_u32()?;
        self.read_unicode_string_with_length(length as usize)
    }

    /// Reads `length` UTF-16 code units as text; zero units and units that
    /// are no character (surrogates) are dropped.
    pub fn read_unicode_string_with_length(&mut self, length: usize) -> (r: PsdResult<String>)
        requires
            old(self).offset + 2 * length <= u64::MAX,
        ensures
            match r {
                Ok(s) => (length == 0 || old(self).can_read(2 * length)) && s@ == legacy_unit_chars(
                    code_units(old(self).input(), old(self).position as int, length as int),
                ) && old(self).moved(final(self), 2 * length),
                Err(e) => length > 0 && e is Io && final(self).same_source(old(self)) && !old(
                    self,
                ).can_read(2 * length),
            },
    {
        let ghost s0 = *self;
        let mut chars: Vec<char> = Vec::new();
        let mut k: usize = 0;
        while k < length
            invariant
                k <= length,
                s0 == *old(self),
                s0.offset + 2 * length <= u64::MAX,
                k > 0 ==> s0.can_read(2 * k),
                s0.moved(self, 2 * k),
                chars@ == legacy_unit_chars(code_units(s0.input(), s0.position as int, k as int)),
            decreases length - k,
        {
            let value = match self.read_u16() {
                Ok(v) => v,
                Err(e) => {
                    return Err(e);
                },
            };
            let ghost before = code_units(s0.input(), s0.position as int, k as int);
            proof {
                assert(code_units(s0.input(), s0.position as int, k + 1).drop_last() =~= before);
            }
            if value != 0 {
                if let Some(c) = char_from_code(value as u32) {
                    proof {
                        vstd::utf8::char_u32_cast(c, value as u32);
                    }
                    chars.push(c);
                }
            }
            k += 1;
        }
        Ok(string_from_chars(chars.as_slice()))
    }

    /// Reads `length` bytes as text.
    pub fn read_ascii_string(&mut self, length: usize) -> (r: PsdResult<String>)
        requires
            old(self).offset + length <= u64::MAX,
        ensures
            match r {
                Ok(s) => old(self).can_read(length as int) && s@ == utf8_text(
                    old(self).ahead(length as int),
                ) && old(self).moved(final(self), length as int),
                Err(e) => !old(self).can_read(length as int) && e is Io && *final(self) == *old(
                    self,
                ),
            },
    {
        let bytes = self.read_bytes(length)?;
        Ok(utf8_lossy(bytes.as_slice()))
    }

    /// Reads a section: a 4-byte big-endian length (8 bytes for large
    /// documents, whose high half must be zero), a payload that `func`
    /// reads given the payload's end offset, then, for `round` above 1,
    /// padding to a multiple of `round` that is not counted in the length.
    /// Payload bytes that `func` leaves unread are skipped.
    ///
    /// `func` gets the reader itself, so what follows its call is stated
    /// for whatever state it leaves.
    /// Where the payload of the section at the read position ends, on the
    /// offset counter.
    pub open spec fn section_end(&self) -> int {
        let hdr = if self.large {
            8int
        } else {
            4int
        };
        self.offset + hdr + read32(self.input(), self.position + hdr - 4)
    }

    /// Reads a section's length field: 32 bits, or 64 bits whose high half
    /// must be zero when `large`.
    fn read_section_length(&mut self) -> (r: PsdResult<u32>)
        requires
            old(self).offset + 8 <= u64::MAX,
        ensures
            ({
                let hdr = if old(self).large {
                    8int
                } else {
                    4int
                };
                let high_ok = old(self).large ==> read32(old(self).input(), old(self).position as int)
                    == 0;
                &&& r is Ok <==> old(self).can_read(hdr) && high_ok
                &&& r matches Ok(v) ==> v == read32(old(self).input(), old(self).position + hdr - 4)
                    && old(self).moved(final(self), hdr)
                &&& !old(self).can_read(hdr) && !(old(self).large && old(self).can_read(4)
                    && !high_ok) ==> (r matches Err(e) && e is Io)
                &&& old(self).large && old(self).can_read(4) && !high_ok ==> (r matches Err(e)
                    && e is UnsupportedFeature)
                &&& r is Err ==> final(self).same_source(old(self))
            }),
    {
        if self.large {
            let high = self.read_u32()?;
            if high != 0 {
                return Err(unsupported("Sizes larger than 4GB are not supported"));
            }
            self.read_u32()
        } else {
            self.read_u32()
        }
    }

    #[verifier::loop_isolation(false)]
    #[verifier::spinoff_prover]
    #[verifier::rlimit(60)]
    pub fn read_section<F, T>(&mut self, round: usize, func: F) -> (r: PsdResult<T>)
        where
            F: FnOnce(&mut PsdReader, u64) -> PsdResult<T>,
        requires
            forall|s: &mut PsdReader, e: u64| func.requires((s, e)),
            old(self).offset + 8 + u32::MAX <= i64::MAX,
        ensures
            ({
                let hdr = if old(self).large {
                    8int
                } else {
                    4int
                };
                let length = read32(old(self).input(), old(self).position + hdr - 4) as int;
                &&& !old(self).can_read(hdr) && !(old(self).large && old(self).can_read(4) && read32(
                    old(self).input(),
                    old(self).position as int,
                ) != 0) ==> (r matches Err(e) && e is Io)
                &&& old(self).large && old(self).can_read(4) && read32(
                    old(self).input(),
                    old(self).position as int,
                ) != 0 ==> (r matches Err(e) && e is UnsupportedFeature)
                &&& r is Ok ==> old(self).can_read(hdr) && (old(self).large ==> read32(
                    old(self).input(),
                    old(self).position as int,
                ) == 0)
            }),
            ({
                let hdr = if old(self).large {
                    8int
                } else {
                    4int
                };
                let length = read32(old(self).input(), old(self).position + hdr - 4) as int;
                old(self).can_read(hdr) && (old(self).large ==> read32(
                    old(self).input(),
                    old(self).position as int,
                ) == 0) ==> exists|w: &mut PsdReader, res: PsdResult<T>|
                    {
                        let pad = if round > 1 {
                            padding_after(length, round as int)
                        } else {
                            0
                        };
                        &&& old(self).moved(&*w, hdr)
                        &&& #[trigger] call_ensures(func, (w, old(self).section_end() as u64), res)
                        &&& (res is Err ==> r == res && *final(self) == *final(w))
                        &&& (res matches Ok(v) ==> match section_finish(
                            *final(w),
                            old(self).section_end(),
                            pad,
                        ) {
                            Some((p, o)) => r == Ok::<T, PsdError>(v) && final(self).same_source(
                                &*final(w),
                            ) && final(self).position == p && final(self).offset == o,
                            None => r matches Err(e) && e is Io,
                        })
                    }
            }),
    {
        let ghost s0 = *self;
        let length = self.read_section_length()?;
        let start_offset = self.offset;
        let end_offset = start_offset + length as u64;
        proof {
            let hdr = if s0.large {
                8int
            } else {
                4int
            };
            assert(end_offset == s0.section_end() as u64);
        }
        let called = func(self, end_offset);
        let result = match called {
            Ok(v) => v,
            Err(e) => {
                return Err(e);
            },
        };
        if self.offset < end_offset {
            let remaining = end_offset - self.offset;
            if remaining > usize::MAX as u64 {
                return Err(io_error("Section remainder exceeds the addressable size"));
            }
            self.skip_bytes(remaining as usize)?;
        }
        if round > 1 {
            let padding = (round - (length as usize) % round) % round;
            if self.offset > u64::MAX - padding as u64 || padding as u64 > i64::MAX as u64 {
                return Err(io_error("Section padding exceeds the addressable size"));
            }
            let ghost before = *self;
            let mut k: usize = 0;
            while k < padding
                invariant
                    k <= padding,
                    before.offset + padding <= u64::MAX,
                    padding <= i64::MAX,
                    before.moved(self, k as int),
                    before.position + k <= u64::MAX,
                decreases padding - k,
            {
                match self.skip_bytes(1) {
                    Ok(()) => {},
                    Err(e) => {
                        return Err(e);
                    },
                }
                k += 1;
            }
        }
        Ok(result)
    }

    /// Bytes left before `end_offset`.
    pub fn bytes_left(&self, end_offset: u64) -> (r: usize)
        ensures
            r == (if self.offset >= end_offset {
                0
            } else {
                (end_offset - self.offset) as usize
            }),
    {
        if self.offset >= end_offset {
            0
        } else {
            (end_offset - self.offset) as usize
        }
    }

    /// Reads a Photoshop color structure: a color-space word and four
    /// component words.
    pub fn read_color(&mut self) -> (r: PsdResult<Color>)
        requires
            old(self).offset + 10 <= u64::MAX,
        ensures
            match r {
                Ok(c) => old(self).can_read(10) && c == color_from_words(
                    read16(old(self).input(), old(self).position as int),
                    read16(old(self).input(), old(self).position + 2),
                    read16(old(self).input(), old(self).position + 4),
                    read16(old(self).input(), old(self).position + 6),
                    read16(old(self).input(), old(self).position + 8),
                ) && old(self).moved(final(self), 10),
                Err(e) => e is Io && final(self).same_source(old(self)) && !old(self).can_read(10),
            },
    {
        let color_space = self.read_u16()?;
        let c1 = self.read_u16()?;
        let c2 = self.read_u16()?;
        let c3 = self.read_u16()?;
        let c4 = self.read_u16()?;
        if color_space == 0 {
            Ok(Color::Rgb48 { red: c1, green: c2, blue: c3 })
        } else if color_space == 1 {
            Ok(Color::Hsb { hue: c1, saturation: c2, brightness: c3 })
        } else if color_space == 2 {
            Ok(Color::CMYK(CMYK { c: c1, m: c2, y: c3, k: c4 }))
        } else if color_space == 7 {
            Ok(Color::Lab { lightness: c1, a: i16_from_bits(c2), b: i16_from_bits(c3) })
        } else if color_space == 8 {
            Ok(Color::Grayscale(Grayscale { k: c1 }))
        } else {
            Ok(Color::OpaqueColorSpace { color_space, components: [c1, c2, c3, c4] })
        }
    }
}

/// Extends `data` with zeros, or cuts it, to `n` bytes.
pub open spec fn normalized(data: Seq<u8>, n: int) -> Seq<u8> {
    if data.len() < n {
        data + crate::io::writer::zeros(n - data.len())
    } else {
        data.take(n)
    }
}

/// Extends `data` with zeros, or cuts it, to `expected_len` bytes.
pub fn normalize_channel_data(data: Vec<u8>, expected_len: usize) -> (r: Vec<u8>)
    ensures
        r@ == normalized(data@, expected_len as int),
{
    let mut data = data;
    let ghost orig = data@;
    if data.len() < expected_len {
        data.resize(expected_len, 0);
        assert(data@ =~= normalized(orig, expected_len as int));
        return data;
    }
    if data.len() > expected_len {
        data.truncate(expected_len);
    }
    assert(data@ =~= normalized(orig, expected_len as int));
    data
}

/// Where a layer channel goes among the RGBA (or CMYK plus alpha)
/// components: colors 0 to 2 in order, the fourth color and transparency
/// by color mode, -1 for masks and -2 for other channels.
pub open spec fn channel_slot(id: ChannelID, cmyk: bool) -> i32 {
    match id {
        ChannelID::Color0 => 0i32,
        ChannelID::Color1 => 1,
        ChannelID::Color2 => 2,
        ChannelID::Color3 => if cmyk {
            3
        } else {
            4
        },
        ChannelID::Transparency => if cmyk {
            4
        } else {
            3
        },
        ChannelID::UserMask | ChannelID::RealUserMask => -1i32,
        ChannelID::Other(_) => -2i32,
    }
}

/// Layer channels land on red, green and blue by their color index, on
/// alpha as transparency (in RGB) or as the fourth color (black, in CMYK,
/// whose transparency goes after it); masks and other channels land on
/// no component.
pub proof fn law_channel_slots(id: ChannelID, cmyk: bool)
    ensures
        channel_slot(id, cmyk) == 0 <==> id == ChannelID::Color0,
        channel_slot(id, cmyk) == 1 <==> id == ChannelID::Color1,
        channel_slot(id, cmyk) == 2 <==> id == ChannelID::Color2,
        channel_slot(id, cmyk) == 3 <==> (if cmyk {
            id == ChannelID::Color3
        } else {
            id == ChannelID::Transparency
        }),
        channel_slot(id, cmyk) == 4 <==> (if cmyk {
            id == ChannelID::Transparency
        } else {
            id == ChannelID::Color3
        }),
        channel_slot(id, cmyk) < 0 <==> (id == ChannelID::UserMask || id == ChannelID::RealUserMask
            || id is Other),
{
}

/// The component a layer channel goes to (see `channel_slot`).
pub fn channel_offset(id: ChannelID, cmyk: bool) -> (r: i32)
    ensures
        r == channel_slot(id, cmyk),
{
    match id {
        ChannelID::Color0 => 0,
        ChannelID::Color1 => 1,
        ChannelID::Color2 => 2,
        ChannelID::Color3 => if cmyk {
            3
        } else {
            4
        },
        ChannelID::Transparency => if cmyk {
            4
        } else {
            3
        },
        ChannelID::UserMask | ChannelID::RealUserMask => -1,
        ChannelID::Other(_) => -2,
    }
}

/// The compression method stored as `code`, if any.
pub open spec fn compression_of(code: u16) -> Option<Compression> {
    if code == 0 {
        Some(Compression::RawData)
    } else if code == 1 {
        Some(Compression::RleCompressed)
    } else if code == 2 {
        Some(Compression::ZipWithoutPrediction)
    } else if code == 3 {
        Some(Compression::ZipWithPrediction)
    } else {
        None
    }
}

/// The compression numbering of channel data: raw 0, PackBits 1, ZIP 2,
/// ZIP with prediction 3; no other code names a method.
pub proof fn law_compression_numbering(code: u16)
    ensures
        compression_of(code) == Some(Compression::RawData) <==> code == 0,
        compression_of(code) == Some(Compression::RleCompressed) <==> code == 1,
        compression_of(code) == Some(Compression::ZipWithoutPrediction) <==> code == 2,
        compression_of(code) == Some(Compression::ZipWithPrediction) <==> code == 3,
        compression_of(code) is None <==> code > 3,
{
}

/// The compression method stored as `code`; other codes are an invalid
/// format.
pub fn compression_from_code(code: u16) -> (r: PsdResult<Compression>)
    ensures
        match r {
            Ok(c) => compression_of(code) == Some(c),
            Err(e) => compression_of(code) is None && e is InvalidFormat,
        },
{
    match code {
        0 => Ok(Compression::RawData),
        1 => Ok(Compression::RleCompressed),
        2 => Ok(Compression::ZipWithoutPrediction),
        3 => Ok(Compression::ZipWithPrediction),
        _ => Err(invalid_format("Invalid compression method")),
    }
}

/// The channel planes of the composite image, as stored, before they are
/// combined into pixels.
#[derive(Debug, Clone, PartialEq, Eq)]
pub struct CompositePlanes {
    pub width: usize,
    pub height: usize,
    pub color_mode: ColorMode,
    pub total_channels: usize,
    pub bits_per_channel: u16,
    pub planes: Vec<Vec<u8>>,
}

/// Color modes whose composite image is decoded.
pub open spec fn composite_mode_supported(mode: ColorMode) -> bool {
    mode == ColorMode::RGB || mode == ColorMode::Grayscale || mode == ColorMode::Bitmap || mode
        == ColorMode::Indexed || mode == ColorMode::CMYK
}

/// Color channels of the composite in a color mode.
pub open spec fn base_channels(mode: ColorMode) -> int {
    if mode == ColorMode::Grayscale {
        1
    } else if mode == ColorMode::CMYK {
        4
    } else {
        3
    }
}

/// The number of composite planes: the header's channel count (the mode's
/// color channels when absent or zero), plus one when the document has a
/// global alpha and no extra channel was counted.
pub open spec fn composite_channels(mode: ColorMode, channels: Option<u16>, global_alpha: bool) -> int {
    let base = base_channels(mode);
    let declared = match channels {
        Some(c) => if c == 0 {
            base
        } else {
            c as int
        },
        None => base,
    };
    if global_alpha && declared == base {
        declared + 1
    } else {
        declared
    }
}

/// Bytes per sample of a composite bit depth, if supported.
pub open spec fn composite_sample_bytes(bits: u16) -> Option<int> {
    if bits == 8 {
        Some(1)
    } else if bits == 16 {
        Some(2)
    } else if bits == 32 {
        Some(4)
    } else {
        None
    }
}

/// `n` consecutive planes of `len` bytes stored from `start`.
pub open spec fn stored_planes(input: Seq<u8>, start: int, n: int, len: int) -> Seq<Seq<u8>> {
    Seq::new(n as nat, |c: int| input.subrange(start + c * len, start + c * len + len))
}

/// Reads `n` raw planes of `len` bytes each.
pub fn read_raw_planes(reader: &mut PsdReader, n: usize, len: usize) -> (r: PsdResult<Vec<Vec<u8>>>)
    requires
        old(reader).offset + n * len <= u64::MAX,
        n * len <= usize::MAX,
    ensures
        match r {
            Ok(planes) => (n == 0 || old(reader).can_read(n * len)) && planes.deep_view()
                == stored_planes(old(reader).input(), old(reader).position as int, n as int, len as int)
                && old(reader).moved(final(reader), n * len),
            Err(e) => e is Io && final(reader).same_source(old(reader)) && n > 0 && !old(
                reader,
            ).can_read(n * len),
        },
{
    let ghost s0 = *reader;
    let mut planes: Vec<Vec<u8>> = Vec::new();
    let mut c: usize = 0;
    while c < n
        invariant
            c <= n,
            s0 == *old(reader),
            s0.offset + n * len <= u64::MAX,
            n * len <= usize::MAX,
            s0.moved(reader, c * len),
            c > 0 ==> s0.can_read(c * len),
            planes@.len() == c,
            forall|k: int|
                0 <= k < c ==> (#[trigger] planes@[k])@ == s0.input().subrange(
                    s0.position + k * len,
                    s0.position + k * len + len,
                ),
        decreases n - c,
    {
        proof {
            assert(c * len + len <= n * len) by (nonlinear_arith)
                requires
                    c < n,
            ;
            assert(c * len + len == (c + 1) * len) by (nonlinear_arith);
        }
        let plane = match reader.read_bytes(len) {
            Ok(p) => p,
            Err(e) => {
                proof {
                    assert(n * len >= c * len + len);
                }
                return Err(e);
            },
        };
        planes.push(plane);
        c += 1;
    }
    assert(planes.deep_view() =~= stored_planes(s0.input(), s0.position as int, n as int, len as int))
        by {
        assert forall|k: int| 0 <= k < n implies #[trigger] planes.deep_view()[k] == stored_planes(
            s0.input(),
            s0.position as int,
            n as int,
            len as int,
        )[k] by {
            assert(planes.deep_view()[k] =~= planes@[k]@);
        }
    }
    Ok(planes)
}

/// The `n` row byte counts stored from `start`: 16-bit words, or the low
/// halves of 32-bit words in large documents.
pub open spec fn stored_counts(input: Seq<u8>, start: int, n: int, large: bool) -> Seq<u16> {
    Seq::new(
        n as nat,
        |k: int|
            if large {
                (read32(input, start + 4 * k) % 0x10000) as u16
            } else {
                read16(input, start + 2 * k)
            },
    )
}

/// The sum of row byte counts.
pub open spec fn count_sum(counts: Seq<u16>) -> int
    decreases counts.len(),
{
    if counts.len() == 0 {
        0
    } else {
        count_sum(counts.drop_last()) + counts.last()
    }
}

proof fn lemma_count_sum_bound(counts: Seq<u16>)
    ensures
        0 <= count_sum(counts) <= 65535 * counts.len(),
    decreases counts.len(),
{
    if counts.len() > 0 {
        lemma_count_sum_bound(counts.drop_last());
    }
}

proof fn lemma_count_sum_split(counts: Seq<u16>, a: int, b: int)
    requires
        0 <= a <= b <= counts.len(),
    ensures
        count_sum(counts.take(b)) == count_sum(counts.take(a)) + count_sum(counts.subrange(a, b)),
    decreases b - a,
{
    if a < b {
        lemma_count_sum_split(counts, a, b - 1);
        assert(counts.take(b).drop_last() =~= counts.take(b - 1));
        assert(counts.subrange(a, b).drop_last() =~= counts.subrange(a, b - 1));
    } else {
        assert(counts.subrange(a, b) =~= Seq::<u16>::empty());
    }
}

/// Reads `n` row byte counts.
fn read_counts(reader: &mut PsdReader, n: usize) -> (r: PsdResult<Vec<u16>>)
    requires
        old(reader).offset + 4 * n <= u64::MAX,
    ensures
        ({
            let w: int = if old(reader).large {
                4
            } else {
                2
            };
            match r {
                Ok(counts) => (n == 0 || old(reader).can_read(w * n)) && counts@ == stored_counts(
                    old(reader).input(),
                    old(reader).position as int,
                    n as int,
                    old(reader).large,
                ) && old(reader).moved(final(reader), w * n),
                Err(e) => e is Io && final(reader).same_source(old(reader)) && !old(reader).can_read(
                    w * n,
                ),
            }
        }),
{
    let ghost s0 = *reader;
    let ghost w: int = if s0.large {
        4
    } else {
        2
    };
    let mut counts: Vec<u16> = Vec::new();
    let mut k: usize = 0;
    while k < n
        invariant
            k <= n,
            s0 == *old(reader),
            w == (if s0.large {
                4int
            } else {
                2int
            }),
            s0.offset + 4 * n <= u64::MAX,
            s0.moved(reader, w * k),
            k > 0 ==> s0.can_read(w * k),
            counts@ == stored_counts(s0.input(), s0.position as int, k as int, s0.large),
        decreases n - k,
    {
        let v = if reader.large {
            match reader.read_u32() {
                Ok(v) => (v % 0x10000) as u16,
                Err(e) => {
                    return Err(e);
                },
            }
        } else {
            match reader.read_u16() {
                Ok(v) => v,
                Err(e) => {
                    return Err(e);
                },
            }
        };
        counts.push(v);
        k += 1;
        assert(counts@ =~= stored_counts(s0.input(), s0.position as int, k as int, s0.large));
    }
    Ok(counts)
}

/// Plane `c` of an RLE composite: the PackBits decoding of its rows, whose
/// stored bytes follow those of the planes before it, zero-filled to
/// `len` bytes.
pub open spec fn rle_plane(input: Seq<u8>, data_start: int, counts: Seq<u16>, c: int, h: int, len: int) -> Seq<u8> {
    let own = counts.subrange(c * h, c * h + h);
    let start = data_start + count_sum(counts.take(c * h));
    let d = rle_decode(input.subrange(start, start + count_sum(own)), own, h, len)->0;
    d + zeros(len - d.len())
}

/// Whether plane `c` of an RLE composite decodes: its rows' bytes unpack
/// within `len` bytes.
pub open spec fn rle_plane_decodes(input: Seq<u8>, data_start: int, counts: Seq<u16>, c: int, h: int, len: int) -> bool {
    let own = counts.subrange(c * h, c * h + h);
    let start = data_start + count_sum(counts.take(c * h));
    rle_decode(input.subrange(start, start + count_sum(own)), own, h, len) is Some
}

/// Whether the RLE planes at `p` read: the row byte counts of all planes
/// and the rows they count are present, and every plane decodes.
pub open spec fn rle_planes_readable(input: Seq<u8>, p: int, total: int, height: int, len: int, large: bool) -> bool {
    let w: int = if large {
        4
    } else {
        2
    };
    let n = total * height;
    let counts = stored_counts(input, p, n, large);
    &&& p + w * n <= input.len()
    &&& p + w * n + count_sum(counts) <= input.len()
    &&& forall|c: int|
        0 <= c < total ==> #[trigger] rle_plane_decodes(
            input,
            rle_data_start(p, n, large),
            counts,
            c,
            height,
            len,
        )
}

/// Where the row data of RLE planes with `n` row counts at `p` starts.
pub open spec fn rle_data_start(p: int, n: int, large: bool) -> int {
    p + (if large {
        4int
    } else {
        2int
    }) * n
}

/// In readable RLE planes, plane `c`'s rows lie within the input and
/// decode.
proof fn lemma_rle_plane_fits(
    input: Seq<u8>,
    p: int,
    total: int,
    height: int,
    len: int,
    large: bool,
    all: Seq<u16>,
    c: int,
)
    requires
        rle_planes_readable(input, p, total, height, len, large),
        all == stored_counts(input, p, total * height, large),
        0 <= c < total,
        0 <= height,
    ensures
        ({
            let w: int = if large {
                4
            } else {
                2
            };
            let ds = p + w * (total * height);
            &&& ds + count_sum(all.take(c * height)) + count_sum(all.subrange(c * height, c * height + height))
                <= input.len()
            &&& rle_plane_decodes(input, ds, all, c, height, len)
        }),
{
    let n = total * height;
    assert(c * height + height <= n) by (nonlinear_arith)
        requires
            c < total,
            0 <= height,
            n == total * height,
    ;
    assert(0 <= c * height) by (nonlinear_arith)
        requires
            0 <= c,
            0 <= height,
    ;
    lemma_count_sum_split(all, c * height, c * height + height);
    lemma_count_sum_split(all, c * height + height, n);
    lemma_count_sum_bound(all.subrange(c * height + height, n));
    assert(all.take(n) =~= all);
    let w: int = if large {
        4
    } else {
        2
    };
    assert(rle_plane_decodes(input, rle_data_start(p, total * height, large), all, c, height, len));
}

/// Reads the planes of an RLE composite: the row byte counts of all
/// planes, then each plane's rows.
#[verifier::rlimit(80)]
pub fn read_rle_planes(reader: &mut PsdReader, total: usize, height: usize, len: usize) -> (r: PsdResult<Vec<Vec<u8>>>)
    requires
        total * height * 4 <= usize::MAX,
        height * 65535 <= usize::MAX,
        old(reader).offset + total * height * 4 + total * height * 65535 <= u64::MAX,
    ensures
        ({
            let w: int = if old(reader).large {
                4
            } else {
                2
            };
            let n = total * height;
            let counts = stored_counts(old(reader).input(), old(reader).position as int, n, old(reader).large);
            let data_start = old(reader).position + w * n;
            match r {
                Ok(planes) => planes@.len() == total && (forall|c: int|
                    0 <= c < total ==> (#[trigger] planes@[c])@ == rle_plane(
                        old(reader).input(),
                        data_start,
                        counts,
                        c,
                        height as int,
                        len as int,
                    )) && old(reader).moved(final(reader), w * n + count_sum(counts)),
                Err(e) => (e is Io || e is Compression) && final(reader).same_source(old(reader)),
            }
        }),
        rle_planes_readable(
            old(reader).input(),
            old(reader).position as int,
            total as int,
            height as int,
            len as int,
            old(reader).large,
        ) ==> r is Ok,
{
    let ghost s0 = *reader;
    let ghost ready = rle_planes_readable(
        s0.input(),
        s0.position as int,
        total as int,
        height as int,
        len as int,
        s0.large,
    );
    proof {
        assert(4 * (total * height) == total * height * 4) by (nonlinear_arith);
    }
    let n = total * height;
    let counts = read_counts(reader, n)?;
    let ghost s1 = *reader;
    let ghost all = counts@;
    let mut planes: Vec<Vec<u8>> = Vec::new();
    let mut c: usize = 0;
    let mut start: usize = 0;
    while c < total
        invariant
            c <= total,
            s0 == *old(reader),
            n == total * height,
            height * 65535 <= usize::MAX,
            total * height * 4 <= usize::MAX,
            s0.offset + total * height * 4 + total * height * 65535 <= u64::MAX,
            counts@ == all,
            all.len() == n,
            all == stored_counts(s0.input(), s0.position as int, total * height, s0.large),
            start == c * height,
            s1.same_source(&s0),
            s1.offset <= s0.offset + 4 * n,
            s1.position == s0.position + (if s0.large {
                4int
            } else {
                2int
            }) * n,
            ready == rle_planes_readable(
                s0.input(),
                s0.position as int,
                total as int,
                height as int,
                len as int,
                s0.large,
            ),
            s1.moved(reader, count_sum(all.take(c * height))),
            planes@.len() == c,
            forall|k: int|
                0 <= k < c ==> (#[trigger] planes@[k])@ == rle_plane(
                    s0.input(),
                    s1.position as int,
                    all,
                    k,
                    height as int,
                    len as int,
                ),
        decreases total - c,
    {
        proof {
            assert(c * height + height <= total * height) by (nonlinear_arith)
                requires
                    c < total,
            ;
            assert(c * height + height == (c + 1) * height) by (nonlinear_arith);
            lemma_count_sum_split(all, c * height, c * height + height);
            lemma_count_sum_bound(all.subrange(c * height as int, c * height + height));
            lemma_count_sum_bound(all.take(c * height + height));
            assert(count_sum(all.take(c * height + height)) <= 65535 * (total * height)) by (nonlinear_arith)
                requires
                    count_sum(all.take(c * height + height)) <= 65535 * (c * height + height),
                    c * height + height <= total * height,
            ;
        }
        let own = vstd::slice::slice_subrange(counts.as_slice(), start, start + height);
        let mut compressed_len: usize = 0;
        let mut j: usize = 0;
        while j < height
            invariant
                j <= height,
                own@ == all.subrange(start as int, start + height),
                own@.len() == height,
                height * 65535 <= usize::MAX,
                compressed_len == count_sum(own@.take(j as int)),
                compressed_len <= 65535 * j,
            decreases height - j,
        {
            assert(own@.take(j + 1).drop_last() =~= own@.take(j as int));
            compressed_len = compressed_len + own[j] as usize;
            j += 1;
        }
        assert(own@.take(height as int) =~= own@);
        let ghost before = *reader;
        let compressed = match reader.read_bytes(compressed_len) {
            Ok(b) => b,
            Err(e) => {
                proof {
                    if ready {
                        lemma_rle_plane_fits(s0.input(), s0.position as int, total as int, height as int, len as int, s0.large, all, c as int);
                    }
                }
                return Err(e);
            },
        };
        let mut out: Vec<u8> = vec![0u8; len];
        let ghost zeroed = out@;
        match decompress_rle(compressed.as_slice(), out.as_mut_slice(), len, height, own) {
            Ok(()) => {},
            Err(e) => {
                proof {
                    if ready {
                        lemma_rle_plane_fits(s0.input(), s0.position as int, total as int, height as int, len as int, s0.large, all, c as int);
                        assert(compressed@ == s0.input().subrange(
                            s1.position + count_sum(all.take(c * height)),
                            s1.position + count_sum(all.take(c * height)) + count_sum(own@),
                        ));
                    }
                }
                return Err(e);
            },
        }
        proof {
            let d = rle_decode(compressed@, own@, height as int, len as int)->0;
            assert(zeroed =~= zeros(len as int));
            assert(zeroed.skip(d.len() as int) =~= zeros(len - d.len()));
            assert(compressed@ == s0.input().subrange(
                s1.position + count_sum(all.take(c * height)),
                s1.position + count_sum(all.take(c * height)) + count_sum(own@),
            ));
        }
        planes.push(out);
        c += 1;
        start = start + height;
    }
    proof {
        assert(all.take(total * height) =~= all);
    }
    Ok(planes)
}

/// The plane bytes of a ZIP composite: the inflated stream zero-filled or
/// cut to `expected` bytes, with prediction undone plane by plane when the
/// method predicts.
pub open spec fn zip_plane_data(
    inflated: Seq<u8>,
    expected: int,
    w: int,
    h: int,
    total: int,
    bits: u16,
    predicted: bool,
) -> Seq<u8> {
    let d = normalized(inflated, expected);
    if predicted {
        planar_decode(d, w, h, total, bits)
    } else {
        d
    }
}

/// Cuts `n` consecutive planes of `len` bytes out of `data`.
fn split_planes(data: &[u8], n: usize, len: usize) -> (r: Vec<Vec<u8>>)
    requires
        n * len <= data@.len(),
    ensures
        r.deep_view() == stored_planes(data@, 0, n as int, len as int),
{
    let dl = data.len();
    let mut planes: Vec<Vec<u8>> = Vec::new();
    let mut c: usize = 0;
    let mut start: usize = 0;
    while c < n
        invariant
            c <= n,
            dl == data@.len(),
            n * len <= data@.len(),
            start == c * len,
            planes@.len() == c,
            forall|k: int|
                0 <= k < c ==> (#[trigger] planes@[k])@ == data@.subrange(k * len, k * len + len),
        decreases n - c,
    {
        proof {
            assert(c * len + len <= n * len) by (nonlinear_arith)
                requires
                    c < n,
            ;
            assert(c * len + len == (c + 1) * len) by (nonlinear_arith);
        }
        let plane = vstd::slice::slice_to_vec(vstd::slice::slice_subrange(data, start, start + len));
        planes.push(plane);
        c += 1;
        start = start + len;
    }
    assert(planes.deep_view() =~= stored_planes(data@, 0, n as int, len as int)) by {
        assert forall|k: int| 0 <= k < n implies #[trigger] planes.deep_view()[k] == stored_planes(
            data@,
            0,
            n as int,
            len as int,
        )[k] by {
            assert(planes.deep_view()[k] =~= planes@[k]@);
        }
    }
    planes
}

/// Reads the planes of a ZIP composite: the rest of the input is one
/// DEFLATE stream holding all planes.
pub fn read_zip_planes(
    reader: &mut PsdReader,
    total: usize,
    len: usize,
    width: usize,
    height: usize,
    bits: u16,
    predicted: bool,
) -> (r: PsdResult<Vec<Vec<u8>>>)
    requires
        old(reader).position <= old(reader).input().len(),
        old(reader).offset + old(reader).input().len() <= u64::MAX,
        total * len <= usize::MAX,
        predicted ==> prediction_depth(bits) && width * sample_bytes(bits) <= usize::MAX && len
            == width * height * sample_bytes(bits),
    ensures
        ({
            let rest = old(reader).input().skip(old(reader).position as int);
            match r {
                Ok(planes) => inflate_stream(rest) is Some && planes.deep_view() == stored_planes(
                    zip_plane_data(
                        inflate_stream(rest)->0,
                        total * len,
                        width as int,
                        height as int,
                        total as int,
                        bits,
                        predicted,
                    ),
                    0,
                    total as int,
                    len as int,
                ),
                Err(e) => e is Compression && inflate_stream(rest) is None,
            }
        }),
{
    let ghost rest = reader.input().skip(reader.position as int);
    let compressed = match reader.read_remaining_bytes() {
        Ok(c) => c,
        Err(e) => {
            return Err(e);
        },
    };
    assert(compressed@ =~= rest);
    let expected = total * len;
    let data = decompress_zip(compressed.as_slice(), expected)?;
    let mut data = normalize_channel_data(data, expected);
    if predicted {
        proof {
            assert(width * height * sample_bytes(bits) * total == total * len) by (nonlinear_arith)
                requires
                    len == width * height * sample_bytes(bits),
            ;
            assert(width * height <= width * height * sample_bytes(bits)) by (nonlinear_arith)
                requires
                    sample_bytes(bits) >= 1,
            ;
            if total == 0 {
                assert(width * height * sample_bytes(bits) <= usize::MAX) by (nonlinear_arith)
                    requires
                        len == width * height * sample_bytes(bits),
                        len <= usize::MAX,
                ;
            } else {
                assert(len <= total * len) by (nonlinear_arith)
                    requires
                        total >= 1,
                ;
            }
        }
        reverse_prediction_planar(data.as_mut_slice(), width, height, total, bits);
    }
    Ok(split_planes(data.as_slice(), total, len))
}

/// Whether the byte counts of a composite of `total` planes of `width` by
/// `height` samples of `bps` bytes fit the machine, with the reader's
/// offset `offset` after the compression method and an input of `len`
/// bytes.
pub open spec fn composite_sizes_fit(width: int, height: int, total: int, bps: int, offset: int, len: int) -> bool {
    let clb = width * height * bps;
    &&& width * height <= usize::MAX
    &&& clb <= usize::MAX
    &&& clb * total <= usize::MAX
    &&& total * height <= usize::MAX
    &&& total * height <= 0x100_0000_0000
    &&& total * height <= usize::MAX / 4
    &&& height <= usize::MAX / 65535
    &&& width <= usize::MAX / 4
    &&& offset <= 0x4000_0000_0000_0000
    &&& offset + len <= u64::MAX
    &&& offset + clb * total <= u64::MAX
}

/// Whether the planes stored from `p` under compression `code` read:
/// raw planes present, RLE planes whose counts and rows are present and
/// decode, or a DEFLATE stream that decodes.
pub open spec fn composite_data_ready(
    input: Seq<u8>,
    p: int,
    code: u16,
    total: int,
    height: int,
    clb: int,
    large: bool,
) -> bool {
    match compression_of(code) {
        Some(Compression::RawData) => total == 0 || p + total * clb <= input.len(),
        Some(Compression::RleCompressed) => rle_planes_readable(input, p, total, height, clb, large),
        Some(_) => inflate_stream(input.skip(p)) is Some,
        None => false,
    }
}

/// The byte count of one plane and of all planes of a composite, when
/// its sizes fit the machine (see `composite_sizes_fit`).
fn composite_sizes(w: usize, h: usize, total: usize, bps: usize, offset: u64, len: usize) -> (r: Option<(usize, usize)>)
    requires
        1 <= bps <= 4,
    ensures
        r is Some <==> composite_sizes_fit(w as int, h as int, total as int, bps as int, offset as int, len as int),
        r matches Some((clb, all)) ==> clb == w * h * bps && all == total * clb && offset + all
            <= u64::MAX && all <= usize::MAX,
{
    let pixels = match w.checked_mul(h) {
        Some(v) => v,
        None => {
            return None;
        },
    };
    let clb = match pixels.checked_mul(bps) {
        Some(v) => v,
        None => {
            return None;
        },
    };
    let all = match clb.checked_mul(total) {
        Some(v) => v,
        None => {
            return None;
        },
    };
    let rows = match total.checked_mul(h) {
        Some(v) => v,
        None => {
            return None;
        },
    };
    if rows as u64 > 0x100_0000_0000u64 || rows > usize::MAX / 4 || h > usize::MAX / 65535
        || w > usize::MAX / 4 {
        return None;
    }
    if offset > 0x4000_0000_0000_0000 || offset > u64::MAX - len as u64
        || offset > u64::MAX - all as u64 {
        return None;
    }
    proof {
        assert(clb == w * h * bps) by (nonlinear_arith)
            requires
                pixels == w * h,
                clb == pixels * bps,
        ;
        assert(total * clb == all) by (nonlinear_arith)
            requires
                all == clb * total,
        ;
        assert(rows * 4 + rows * 65535 <= 0x100_0000_0000 * 65539) by (nonlinear_arith)
            requires
                rows <= 0x100_0000_0000,
        ;
        assert(w * bps <= usize::MAX) by (nonlinear_arith)
            requires
                w <= usize::MAX / 4,
                bps <= 4,
        ;
        assert(h * 65535 <= usize::MAX) by (nonlinear_arith)
            requires
                h <= usize::MAX / 65535,
        ;
        assert(rows * 4 <= usize::MAX) by (nonlinear_arith)
            requires
                rows <= usize::MAX / 4,
        ;
    }
    Some((clb, all))
}

/// Reads the composite image section: its compression method, then the
/// planes of every channel.  `None` for an empty document; color modes
/// other than RGB, grayscale, bitmap, indexed and CMYK, and depths other
/// than 8, 16 and 32 bits, are unsupported.  Sizes whose byte counts do
/// not fit the machine are refused as unsupported too.
#[verifier::rlimit(80)]
#[verifier::spinoff_prover]
pub fn read_image_data(
    reader: &mut PsdReader,
    width: u32,
    height: u32,
    color_mode: Option<ColorMode>,
    channels: Option<u16>,
    bits_per_channel: Option<u8>,
) -> (r: PsdResult<Option<CompositePlanes>>)
    requires
        old(reader).offset + 2 <= u64::MAX,
    ensures
        ({
            let p = old(reader).position as int;
            let input = old(reader).input();
            let code = read16(input, p);
            let mode = match color_mode {
                Some(m) => m,
                None => ColorMode::RGB,
            };
            let bits: u16 = match bits_per_channel {
                Some(b) => b as u16,
                None => 8u16,
            };
            let total = composite_channels(mode, channels, old(reader).global_alpha);
            let header_ok = old(reader).can_read(2) && compression_of(code) is Some;
            let present = width > 0 && height > 0;
            &&& !old(reader).can_read(2) ==> (r matches Err(e) && e is Io)
            &&& old(reader).can_read(2) && compression_of(code) is None ==> (r matches Err(e)
                && e is InvalidFormat)
            &&& header_ok && !present ==> (r matches Ok(None))
            &&& header_ok && present && !composite_mode_supported(mode) ==> (r matches Err(e)
                && e is UnsupportedFeature)
            &&& header_ok && present && composite_mode_supported(mode) && composite_sample_bytes(
                bits,
            ) is None ==> (r matches Err(e) && e is UnsupportedFeature)
            &&& header_ok && present && composite_mode_supported(mode) && composite_sample_bytes(
                bits,
            ) is Some && composite_sizes_fit(
                width as int,
                height as int,
                total,
                composite_sample_bytes(bits)->0,
                old(reader).offset + 2,
                input.len() as int,
            ) && composite_data_ready(
                input,
                p + 2,
                code,
                total,
                height as int,
                width * height * composite_sample_bytes(bits)->0,
                old(reader).large,
            ) ==> (r matches Ok(Some(_)))
            &&& r matches Ok(Some(cp)) ==> ({
                let clb = width * height * composite_sample_bytes(bits)->0;
                &&& header_ok && present && composite_mode_supported(mode)
                &&& cp.width == width && cp.height == height
                &&& cp.color_mode == mode
                &&& cp.total_channels == total
                &&& cp.bits_per_channel == bits
                &&& match compression_of(code)->0 {
                    Compression::RawData => cp.planes.deep_view() == stored_planes(
                        input,
                        p + 2,
                        total,
                        clb,
                    ),
                    Compression::RleCompressed => cp.planes@.len() == total && forall|c: int|
                        0 <= c < total ==> (#[trigger] cp.planes@[c])@ == rle_plane(
                            input,
                            p + 2 + (if old(reader).large {
                                4int
                            } else {
                                2int
                            }) * (total * height),
                            stored_counts(input, p + 2, total * height, old(reader).large),
                            c,
                            height as int,
                            clb,
                        ),
                    Compression::ZipWithoutPrediction => cp.planes.deep_view() == stored_planes(
                        zip_plane_data(
                            inflate_stream(input.skip(p + 2))->0,
                            total * clb,
                            width as int,
                            height as int,
                            total,
                            bits,
                            false,
                        ),
                        0,
                        total,
                        clb,
                    ),
                    Compression::ZipWithPrediction => cp.planes.deep_view() == stored_planes(
                        zip_plane_data(
                            inflate_stream(input.skip(p + 2))->0,
                            total * clb,
                            width as int,
                            height as int,
                            total,
                            bits,
                            true,
                        ),
                        0,
                        total,
                        clb,
                    ),
                }
            })
        }),
{
    let code = reader.read_u16()?;
    let compression = compression_from_code(code)?;
    let w = width as usize;
    let h = height as usize;
    if w == 0 || h == 0 {
        return Ok(None);
    }
    let mode = match color_mode {
        Some(m) => m,
        None => ColorMode::RGB,
    };
    let supported = match mode {
        ColorMode::RGB | ColorMode::Grayscale | ColorMode::Bitmap | ColorMode::Indexed
        | ColorMode::CMYK => true,
        _ => false,
    };
    if !supported {
        return Err(unsupported("Color mode not supported for composite image"));
    }
    let base: usize = match mode {
        ColorMode::Grayscale => 1,
        ColorMode::CMYK => 4,
        _ => 3,
    };
    let mut total: usize = match channels {
        Some(c) => c as usize,
        None => base,
    };
    if total == 0 {
        total = base;
    }
    if reader.global_alpha && total == base {
        total = total + 1;
    }
    let bits: u16 = match bits_per_channel {
        Some(b) => b as u16,
        None => 8,
    };
    let bps: usize = match bits {
        8 => 1,
        16 => 2,
        32 => 4,
        _ => {
            return Err(unsupported("Unsupported bits per channel for composite image"));
        },
    };
    let (clb, all) = match composite_sizes(w, h, total, bps, reader.offset, reader.data.len()) {
        Some(v) => v,
        None => {
            return Err(unsupported("Composite image too large"));
        },
    };
    assert(reader.offset + total * clb <= u64::MAX && total * clb <= usize::MAX);
    let planes = match compression {
        Compression::RawData => read_raw_planes(reader, total, clb)?,
        Compression::RleCompressed => read_rle_planes(reader, total, h, clb)?,
        Compression::ZipWithoutPrediction => read_zip_planes(reader, total, clb, w, h, bits, false)?,
        Compression::ZipWithPrediction => read_zip_planes(reader, total, clb, w, h, bits, true)?,
    };
    Ok(
        Some(
            CompositePlanes {
                width: w,
                height: h,
                color_mode: mode,
                total_channels: total,
                bits_per_channel: bits,
                planes,
            },
        ),
    )
}

/// The blending range pair stored at `off`.
pub open spec fn range_pair_at(b: Seq<u8>, off: int) -> LayerBlendingRangePair {
    LayerBlendingRangePair { src_black: b[off], src_white: b[off + 1], dst_black: b[off + 2], dst_white: b[off + 3] }
}

/// The channel pairs stored after the composite gray pair: every whole
/// four-byte pair after the first.
pub open spec fn channel_pairs_of(b: Seq<u8>) -> Seq<LayerBlendingRangePair> {
    let n = b.len() / 4;
    Seq::new(if n > 0 {
        (n - 1) as nat
    } else {
        0
    }, |k: int| range_pair_at(b, 4 * (k + 1)))
}

/// Parses a layer's blending ranges: the composite gray pair, then one
/// pair per channel, four bytes each; a trailing partial pair is ignored.
/// `None` for no bytes.
pub fn parse_layer_blending_ranges(bytes: &[u8]) -> (r: Option<LayerBlendingRangesData>)
    ensures
        r is None <==> bytes@.len() == 0,
        r matches Some(d) ==> d.composite_gray == (if bytes@.len() >= 4 {
            Some(range_pair_at(bytes@, 0))
        } else {
            None
        }) && d.channels@ == channel_pairs_of(bytes@),
{
    let len = bytes.len();
    if len == 0 {
        return None;
    }
    let composite_gray = if 4 <= len {
        Some(LayerBlendingRangePair { src_black: bytes[0], src_white: bytes[1], dst_black: bytes[2], dst_white: bytes[3] })
    } else {
        None
    };
    let n_pairs = len / 4;
    let mut channels: Vec<LayerBlendingRangePair> = Vec::new();
    let mut k: usize = 0;
    while k + 1 < n_pairs
        invariant
            len == bytes@.len(),
            n_pairs == len / 4,
            k + 1 <= n_pairs || k == 0,
            channels@ == Seq::new(k as nat, |j: int| range_pair_at(bytes@, 4 * (j + 1))),
        decreases n_pairs - k,
    {
        let offset = 4 * (k + 1);
        channels.push(LayerBlendingRangePair {
            src_black: bytes[offset],
            src_white: bytes[offset + 1],
            dst_black: bytes[offset + 2],
            dst_white: bytes[offset + 3],
        });
        k += 1;
        assert(channels@ =~= Seq::new(k as nat, |j: int| range_pair_at(bytes@, 4 * (j + 1))));
    }
    assert(channels@ =~= channel_pairs_of(bytes@));
    Some(LayerBlendingRangesData { composite_gray, channels })
}

proof fn lemma_range_pairs_bytes(ps: Seq<LayerBlendingRangePair>, k: int)
    requires
        0 <= k < ps.len(),
    ensures
        range_pairs_bytes(ps).len() == 4 * ps.len(),
        range_pair_at(range_pairs_bytes(ps), 4 * k) == ps[k],
    decreases ps.len(),
{
    let rest = ps.drop_last();
    if rest.len() > 0 {
        lemma_range_pairs_bytes(rest, if k < rest.len() {
            k
        } else {
            0
        });
    }
    assert(range_pairs_bytes(ps) == range_pairs_bytes(rest) + range_pair_bytes(ps.last()));
    if k == ps.len() - 1 {
    } else {
        assert(rest[k] == ps[k]);
    }
}

proof fn lemma_range_pairs_len(ps: Seq<LayerBlendingRangePair>)
    ensures
        range_pairs_bytes(ps).len() == 4 * ps.len(),
    decreases ps.len(),
{
    if ps.len() > 0 {
        lemma_range_pairs_len(ps.drop_last());
    }
}

/// Serialized blending ranges with a composite gray pair parse back to
/// the same ranges.
pub proof fn law_blending_ranges_roundtrip(gray: LayerBlendingRangePair, channels: Seq<LayerBlendingRangePair>)
    ensures
        ({
            let b = blending_ranges_bytes(Some(gray), channels);
            &&& b.len() >= 4
            &&& range_pair_at(b, 0) == gray
            &&& channel_pairs_of(b) == channels
        }),
{
    let b = blending_ranges_bytes(Some(gray), channels);
    let body = range_pairs_bytes(channels);
    lemma_range_pairs_len(channels);
    assert(b.len() / 4 == channels.len() + 1);
    assert forall|k: int| 0 <= k < channels.len() implies #[trigger] channel_pairs_of(b)[k]
        == channels[k] by {
        lemma_range_pairs_bytes(channels, k);
        assert(b[4 * (k + 1)] == body[4 * k]);
        assert(b[4 * (k + 1) + 1] == body[4 * k + 1]);
        assert(b[4 * (k + 1) + 2] == body[4 * k + 2]);
        assert(b[4 * (k + 1) + 3] == body[4 * k + 3]);
    }
    assert(channel_pairs_of(b) =~= channels);
}

/// The global layer mask info stored in the 16 bytes at `p`.
pub open spec fn mask_info_at(s: Seq<u8>, p: int) -> GlobalLayerMaskInfo {
    GlobalLayerMaskInfo {
        overlay_color_space: read16(s, p),
        color_space1: read16(s, p + 2),
        color_space2: read16(s, p + 4),
        color_space3: read16(s, p + 6),
        color_space4: read16(s, p + 8),
        opacity: read16(s, p + 10),
        kind: s[p + 12],
    }
}

/// Reads the global layer mask info section: a length (eight bytes for
/// large documents, whose high half must be zero), then, when the length
/// is not zero, a 16-byte record; the rest of the section is skipped.
pub fn read_global_layer_mask_info(reader: &mut PsdReader) -> (r: PsdResult<Option<GlobalLayerMaskInfo>>)
    requires
        old(reader).offset + 8 + u32::MAX + 16 <= i64::MAX,
    ensures
        ({
            let hdr: int = if old(reader).large {
                8
            } else {
                4
            };
            let input = old(reader).input();
            let p = old(reader).position as int;
            let length = read32(input, p + hdr - 4) as int;
            let high_ok = !old(reader).large || read32(input, p) == 0;
            &&& !old(reader).can_read(4) ==> (r matches Err(e) && e is Io)
            &&& old(reader).can_read(4) && !high_ok ==> (r matches Err(e) && e is UnsupportedFeature)
            &&& old(reader).can_read(hdr) && high_ok && length == 0 ==> ((r matches Ok(None))
                && old(reader).moved(final(reader), hdr))
            &&& old(reader).can_read(hdr) && high_ok && length > 0 && !old(reader).can_read(
                hdr + 16,
            ) ==> (r matches Err(e) && e is Io)
            &&& r matches Ok(Some(info)) ==> (old(reader).can_read(hdr + 16) && high_ok && length > 0
                && info == mask_info_at(input, p + hdr) && old(reader).moved(
                final(reader),
                hdr + if length > 16 {
                    length
                } else {
                    16
                },
            ))
        }),
{
    let ghost s0 = *reader;
    let length = if reader.large {
        let high = reader.read_u32()?;
        if high != 0 {
            return Err(unsupported("Sizes larger than 4GB are not supported"));
        }
        reader.read_u32()?
    } else {
        reader.read_u32()?
    };
    if length == 0 {
        return Ok(None);
    }
    let bytes = reader.read_bytes(16)?;
    let info = GlobalLayerMaskInfo {
        overlay_color_space: u16_from_be(bytes[0], bytes[1]),
        color_space1: u16_from_be(bytes[2], bytes[3]),
        color_space2: u16_from_be(bytes[4], bytes[5]),
        color_space3: u16_from_be(bytes[6], bytes[7]),
        color_space4: u16_from_be(bytes[8], bytes[9]),
        opacity: u16_from_be(bytes[10], bytes[11]),
        kind: bytes[12],
    };
    if length > 16 {
        reader.skip_bytes((length - 16) as usize)?;
    }
    Ok(Some(info))
}

/// A global layer mask info section reads back as what was written.
pub proof fn law_mask_info_roundtrip(pre: Seq<u8>, info: Option<GlobalLayerMaskInfo>, post: Seq<u8>)
    ensures
        ({
            let s = pre + mask_info_section(info) + post;
            let p = pre.len() as int;
            &&& info is None ==> read32(s, p) == 0
            &&& info matches Some(i) ==> read32(s, p) == 16 && mask_info_at(s, p + 4) == i
        }),
{
    let s = pre + mask_info_section(info) + post;
    let p = pre.len() as int;
    match info {
        None => {
            crate::io::roundtrip::law_u32_roundtrip(pre, 0, post);
        },
        Some(i) => {
            let rec = mask_info_bytes(i);
            assert(s.subrange(p, p + 4) =~= be32(16));
            crate::bytes::lemma_read32_at(s, p, 16);
            assert(s.subrange(p + 4, p + 6) =~= be16(i.overlay_color_space));
            crate::bytes::lemma_read16_at(s, p + 4, i.overlay_color_space);
            assert(s.subrange(p + 6, p + 8) =~= be16(i.color_space1));
            crate::bytes::lemma_read16_at(s, p + 6, i.color_space1);
            assert(s.subrange(p + 8, p + 10) =~= be16(i.color_space2));
            crate::bytes::lemma_read16_at(s, p + 8, i.color_space2);
            assert(s.subrange(p + 10, p + 12) =~= be16(i.color_space3));
            crate::bytes::lemma_read16_at(s, p + 10, i.color_space3);
            assert(s.subrange(p + 12, p + 14) =~= be16(i.color_space4));
            crate::bytes::lemma_read16_at(s, p + 12, i.color_space4);
            assert(s.subrange(p + 14, p + 16) =~= be16(i.opacity));
            crate::bytes::lemma_read16_at(s, p + 14, i.opacity);
            assert(s[p + 16] == i.kind);
        },
    }
}


/// Whether the color mode data section at the reader's position reads:
/// its length field (eight bytes with a zero high half for large
/// documents), then, unless empty, a 768-byte palette for indexed
/// documents or its bytes for others.
pub open spec fn legacy_color_mode_data_ok(r: PsdReader, mode: Option<ColorMode>) -> bool {
    let hdr = if r.large {
        8int
    } else {
        4int
    };
    let len = read32(r.input(), r.position + hdr - 4) as int;
    &&& r.can_read(hdr)
    &&& r.large ==> read32(r.input(), r.position as int) == 0
    &&& len != 0 ==> if mode == Some(ColorMode::Indexed) {
        len == 768 && r.can_read(hdr + 768)
    } else {
        r.can_read(hdr + len)
    }
}

/// Reads the color mode data section for a document of color mode `mode`:
/// the palette of an indexed document (with empty section data), the
/// section's bytes for other modes, nothing for an empty section.
pub fn read_color_mode_data(reader: &mut PsdReader, mode: Option<ColorMode>) -> (r: PsdResult<
    (Option<Vec<crate::types::RGB>>, Option<crate::psd::ColorModeSectionData>),
>)
    requires
        old(reader).offset + 8 + u32::MAX <= u64::MAX,
    ensures
        r is Ok <==> legacy_color_mode_data_ok(*old(reader), mode),
        r matches Err(e) ==> (e is Io || e is InvalidFormat || e is UnsupportedFeature),
        r is Err ==> final(reader).same_source(old(reader)),
        r matches Ok((palette, data)) ==> ({
            let b = old(reader).input();
            let hdr = if old(reader).large {
                8int
            } else {
                4int
            };
            let o = old(reader).position + hdr;
            let len = read32(b, o - 4) as int;
            &&& old(reader).moved(final(reader), hdr + len)
            &&& if len == 0 {
                palette is None && data is None
            } else if mode == Some(ColorMode::Indexed) {
                &&& palette matches Some(p) && p@ == crate::io::color_mode::planar_palette(
                    b.subrange(o, o + 768),
                )
                &&& data matches Some(d) && d.bytes@.len() == 0
            } else {
                &&& palette is None
                &&& data matches Some(d) && d.bytes@ == b.subrange(o, o + len)
            }
        }),
{
    let ghost s0 = *reader;
    let length = if reader.large {
        let high = reader.read_u32()?;
        if high != 0 {
            return Err(unsupported("Sizes larger than 4GB are not supported"));
        }
        reader.read_u32()? as usize
    } else {
        reader.read_u32()? as usize
    };
    if length == 0 {
        return Ok((None, None));
    }
    if mode == Some(ColorMode::Indexed) {
        if length != 768 {
            return Err(invalid_format("Invalid color palette size"));
        }
        let bytes = reader.read_bytes(768)?;
        let mut palette: Vec<crate::types::RGB> = Vec::new();
        let mut k: usize = 0;
        while k < 256
            invariant
                k <= 256,
                bytes@.len() == 768,
                palette@ == crate::io::color_mode::planar_palette(bytes@).take(k as int),
            decreases 256 - k,
        {
            palette.push(crate::types::RGB { r: bytes[k], g: bytes[256 + k], b: bytes[512 + k] });
            k += 1;
            assert(palette@ =~= crate::io::color_mode::planar_palette(bytes@).take(k as int));
        }
        assert(crate::io::color_mode::planar_palette(bytes@).take(256)
            =~= crate::io::color_mode::planar_palette(bytes@));
        Ok((Some(palette), Some(crate::psd::ColorModeSectionData { bytes: Vec::new() })))
    } else {
        let bytes = reader.read_bytes(length)?;
        Ok((None, Some(crate::psd::ColorModeSectionData { bytes })))
    }
}

} // verus!

//! Reading of pattern blocks (`Patt`, `Pat2`, `Pat3`): entries with a
//! name, an id, an optional palette and RLE channel records that are
//! turned back into RGBA pixels.

use crate::bytes::{read16, read32};
use crate::compression::{decompress_rle, distance, rle_decode};
use crate::error::{unsupported, PsdResult};
use crate::io::reader::code_units;
use crate::io::writer::zeros;
use crate::reader::{legacy_unit_chars, PsdReader};
use crate::additional_info::{
    interleave_pattern_buffer, palette_bytes_to_colors, palette_of, pattern_interleaves, pattern_rgba,
    PatternBlock, PatternBlockEntry,
};
use crate::types::PsdStringCode;
use vstd::string::StringExecFns;
use crate::strings::utf8_text;
use crate::types::{PixelData, RGB};
use vstd::prelude::*;

verus! {

/// `a - b`, or zero where `b` is larger.
pub open spec fn sat_sub(a: int, b: int) -> int {
    if a > b {
        a - b
    } else {
        0
    }
}

/// Whether a channel of `w` by `h` samples of `depth` bits fits in memory.
pub open spec fn channel_fits(w: int, h: int, depth: int) -> bool {
    w * (depth / 8) <= usize::MAX && w * (depth / 8) * h <= usize::MAX
}

/// The decoding of a pattern channel record of `length` bytes at `p` of
/// `input` for a `w` by `h` pattern, with the position where reading
/// ends.  A zero length gives `w * h` zero samples and reads nothing.
/// Otherwise the record holds the sample depth in bits, a rectangle, the
/// compression (1 for RLE, then a 16-bit byte count per row) and one
/// unused byte; the samples follow.  RLE output is zero-filled to the
/// channel's size, raw data is cut to it.  `None` where the input ends
/// early, the RLE stream is malformed, or the channel would not fit in
/// memory.
pub open spec fn pattern_channel_at(input: Seq<u8>, p: int, w: int, h: int, length: int) -> Option<
    (Seq<u8>, int),
> {
    if length == 0 {
        Some((zeros(w * h), p))
    } else if p + 4 > input.len() {
        None
    } else {
        let depth = read32(input, p) as int;
        let size = w * (depth / 8) * h;
        let q = p + 23;
        let remaining = sat_sub(length, 23);
        if !channel_fits(w, h, depth) || p + 22 > input.len() {
            None
        } else if read16(input, p + 20) == 1 {
            let el = sat_sub(remaining, 2 * h);
            if q + 2 * h + el > input.len() {
                None
            } else {
                match rle_decode(
                    input.subrange(q + 2 * h, q + 2 * h + el),
                    code_units(input, q, h),
                    h,
                    size,
                ) {
                    Some(d) => Some((d + zeros(size - d.len()), q + 2 * h + el)),
                    None => None,
                }
            }
        } else {
            let n = if size < remaining {
                size
            } else {
                remaining
            };
            if q + n > input.len() {
                None
            } else {
                Some((input.subrange(q, q + n), q + n))
            }
        }
    }
}

/// The channel records of a pattern image from slot `k` on, of
/// `count + 2` slots in all.  Each slot is a 32-bit presence flag, and for
/// a present slot a 32-bit record length and, unless that is zero, the
/// record.  The records of the first `count` slots are the pattern's
/// channels, that of the last slot its alpha channel; the one between is
/// read and dropped.  The result is the channels, the alpha channel and
/// the position where reading ends; `None` where a read fails.
pub open spec fn pattern_slots_at(
    input: Seq<u8>,
    pos: int,
    w: int,
    h: int,
    count: int,
    k: int,
    channels: Seq<Seq<u8>>,
    alpha: Option<Seq<u8>>,
) -> Option<(Seq<Seq<u8>>, Option<Seq<u8>>, int)>
    decreases count + 2 - k,
{
    if k >= count + 2 {
        Some((channels, alpha, pos))
    } else if pos + 4 > input.len() {
        None
    } else if read32(input, pos) == 0 {
        pattern_slots_at(input, pos + 4, w, h, count, k + 1, channels, alpha)
    } else if pos + 8 > input.len() {
        None
    } else if read32(input, pos + 4) == 0 {
        pattern_slots_at(input, pos + 8, w, h, count, k + 1, channels, alpha)
    } else {
        match pattern_channel_at(input, pos + 8, w, h, read32(input, pos + 4) as int) {
            None => None,
            Some((d, end)) => pattern_slots_at(
                input,
                end,
                w,
                h,
                count,
                k + 1,
                if k < count {
                    channels.push(d)
                } else {
                    channels
                },
                if k == count + 1 {
                    Some(d)
                } else {
                    alpha
                },
            ),
        }
    }
}

/// Where the name of a pattern entry at `p` ends: after the version,
/// mode, height, width and the name's length and code units.
pub open spec fn entry_name_end(input: Seq<u8>, p: int) -> int {
    p + 16 + 2 * read32(input, p + 12)
}

/// Where the Pascal-string id of a pattern entry at `p` ends.
pub open spec fn entry_id_end(input: Seq<u8>, p: int) -> int {
    entry_name_end(input, p) + 1 + input[entry_name_end(input, p)]
}

/// Where the image of a pattern entry at `p` starts: after the id, and
/// for indexed patterns (mode 2) 768 palette bytes and a 32-bit word.
pub open spec fn entry_image_start(input: Seq<u8>, p: int) -> int {
    entry_id_end(input, p) + if read32(input, p + 4) == 2 {
        772int
    } else {
        0int
    }
}

/// The channel records of a pattern entry at `p`: the image starts with
/// two 32-bit words, a 16-byte rectangle and the channel count.
pub open spec fn entry_slots(input: Seq<u8>, p: int) -> Option<(Seq<Seq<u8>>, Option<Seq<u8>>, int)> {
    let i = entry_image_start(input, p);
    pattern_slots_at(
        input,
        i + 28,
        read16(input, p + 10) as int,
        read16(input, p + 8) as int,
        read32(input, i + 24) as int,
        0,
        seq![],
        None,
    )
}

/// The palette of a pattern entry at `p`: 256 colors for indexed
/// patterns, none otherwise.
pub open spec fn entry_palette(input: Seq<u8>, p: int) -> Option<Seq<RGB>> {
    if read32(input, p + 4) == 2 {
        Some(palette_of(input.subrange(entry_id_end(input, p), entry_id_end(input, p) + 768)))
    } else {
        None
    }
}

/// Where reading a pattern entry of `length` bytes at `p` ends, `None`
/// where a read fails or its pixels would not fit in memory.  The entry is
/// version, mode, height and width, the name as a length and UTF-16 code
/// units, the id as a Pascal string, the palette of an indexed pattern,
/// then the image; bytes the entry leaves unread before `length` are
/// skipped.
#[verifier::opaque]
pub open spec fn pattern_entry_end(input: Seq<u8>, p: int, length: int) -> Option<int> {
    if p + 16 > input.len() || entry_name_end(input, p) + 1 > input.len() || entry_id_end(input, p)
        > input.len() || entry_image_start(input, p) + 28 > input.len() {
        None
    } else if 4 * (read16(input, p + 10) as int) * (read16(input, p + 8) as int) > usize::MAX {
        None
    } else {
        match entry_slots(input, p) {
            None => None,
            Some((c, a, e)) => Some(
                if e - p < length {
                    p + length
                } else {
                    e
                },
            ),
        }
    }
}

/// Whether `e` holds what the pattern entry at `p` stores, its reading
/// having succeeded: the header fields, the name with zero units and
/// surrogates dropped, the id as UTF-8 text, the palette, and the RGBA
/// pixels built from the channels where the mode allows.
#[verifier::opaque]
pub open spec fn pattern_entry_read(e: PatternBlockEntry, input: Seq<u8>, p: int) -> bool {
    let w = read16(input, p + 10);
    let h = read16(input, p + 8);
    let mode = read32(input, p + 4);
    let palette = entry_palette(input, p);
    let (channels, alpha, end) = entry_slots(input, p)->0;
    &&& e.version == read32(input, p)
    &&& e.mode == mode
    &&& e.height == h
    &&& e.width == w
    &&& e.name@ == legacy_unit_chars(code_units(input, p + 16, read32(input, p + 12) as int))
    &&& e.id@ == utf8_text(input.subrange(entry_name_end(input, p) + 1, entry_id_end(input, p)))
    &&& match e.indexed_palette {
        Some(v) => palette == Some(v@),
        None => palette is None,
    }
    &&& match e.rgba {
        Some(px) => pattern_interleaves(mode, palette is Some, channels.len() as int) && px.data@
            == pattern_rgba(
            mode,
            match palette {
                Some(q) => q,
                None => Seq::<RGB>::empty(),
            },
            channels,
            alpha,
            w * h,
        ) && px.width == w && px.height == h,
        None => !pattern_interleaves(mode, palette is Some, channels.len() as int),
    }
}

/// The entries of a pattern block of `length` bytes that starts at
/// `start`, read from `pos` on: while fewer than `length` bytes were read,
/// a 32-bit entry length, the entry, and, unless the block has ended,
/// padding up to a multiple of four of the entry length.  The result is
/// where each entry starts and where reading ends; `None` where a read
/// fails.
pub open spec fn pattern_entries_at(input: Seq<u8>, start: int, length: int, pos: int) -> Option<
    (Seq<int>, int),
>
    decreases distance(pos, start + length),
{
    if pos - start >= length {
        Some((seq![], pos))
    } else if pos + 4 > input.len() {
        None
    } else {
        let el = read32(input, pos) as int;
        match pattern_entry_end(input, pos + 4, el) {
            None => None,
            Some(end) => {
                let next = if el % 4 != 0 && end - start < length {
                    end + 4 - el % 4
                } else {
                    end
                };
                if next <= pos {
                    None
                } else {
                    match pattern_entries_at(input, start, length, next) {
                        None => None,
                        Some((rest, e)) => Some((seq![pos + 4] + rest, e)),
                    }
                }
            },
        }
    }
}

/// Reading the channel slots moves forward and stays within the input.
proof fn lemma_slots_within(
    input: Seq<u8>,
    pos: int,
    w: int,
    h: int,
    count: int,
    k: int,
    channels: Seq<Seq<u8>>,
    alpha: Option<Seq<u8>>,
)
    requires
        pos <= input.len(),
        0 <= w,
        0 <= h,
    ensures
        pattern_slots_at(input, pos, w, h, count, k, channels, alpha) matches Some((c, a, e)) ==> pos
            <= e <= input.len(),
    decreases count + 2 - k,
{
    if k >= count + 2 {
    } else if pos + 4 > input.len() {
    } else if read32(input, pos) == 0 {
        lemma_slots_within(input, pos + 4, w, h, count, k + 1, channels, alpha);
    } else if pos + 8 > input.len() {
    } else if read32(input, pos + 4) == 0 {
        lemma_slots_within(input, pos + 8, w, h, count, k + 1, channels, alpha);
    } else {
        match pattern_channel_at(input, pos + 8, w, h, read32(input, pos + 4) as int) {
            None => {},
            Some((d, end)) => {
                assert(pos + 8 <= end <= input.len());
                lemma_slots_within(
                    input,
                    end,
                    w,
                    h,
                    count,
                    k + 1,
                    if k < count {
                        channels.push(d)
                    } else {
                        channels
                    },
                    if k == count + 1 {
                        Some(d)
                    } else {
                        alpha
                    },
                );
            },
        }
    }
}

/// A pattern entry read from `p` ends within `length` bytes past the
/// input's end.
proof fn lemma_entry_end_within(input: Seq<u8>, p: int, length: int)
    requires
        0 <= length,
    ensures
        pattern_entry_end(input, p, length) matches Some(end) ==> p + length <= end <= input.len()
            + length,
{
    reveal(pattern_entry_end);
    if pattern_entry_end(input, p, length) is Some {
        let i = entry_image_start(input, p);
        lemma_slots_within(
            input,
            i + 28,
            read16(input, p + 10) as int,
            read16(input, p + 8) as int,
            read32(input, i + 24) as int,
            0,
            seq![],
            None,
        );
    }
}

/// One step of reading a pattern block: an entry at `pos` that ends at
/// `end`, then padding.
proof fn lemma_entries_step(input: Seq<u8>, start: int, length: int, pos: int, end: int)
    requires
        pos - start < length,
        pos + 4 <= input.len(),
        pattern_entry_end(input, pos + 4, read32(input, pos) as int) == Some(end),
    ensures
        end >= pos + 4 + read32(input, pos),
        pattern_entries_at(input, start, length, pos) == after_starts(
            seq![pos + 4],
            pattern_entries_at(
                input,
                start,
                length,
                if read32(input, pos) % 4 != 0 && end - start < length {
                    end + 4 - read32(input, pos) % 4
                } else {
                    end
                },
            ),
        ),
{
    lemma_entry_end_within(input, pos + 4, read32(input, pos) as int);
}

/// `found` with `starts` put before its entry starts.
pub open spec fn after_starts(starts: Seq<int>, found: Option<(Seq<int>, int)>) -> Option<(Seq<int>, int)> {
    match found {
        None => None,
        Some((rest, e)) => Some((starts + rest, e)),
    }
}

/// The bytes of an optional channel.
pub open spec fn opt_bytes(a: Option<Vec<u8>>) -> Option<Seq<u8>> {
    match a {
        Some(v) => Some(v@),
        None => None,
    }
}

impl PsdReader {
    /// Reads the `count + 2` channel slots of a pattern image (see
    /// `pattern_slots_at`).
    fn read_pattern_slots(&mut self, width: usize, height: usize, count: u64) -> (r: PsdResult<
        (Vec<Vec<u8>>, Option<Vec<u8>>),
    >)
        requires
            width <= 65535,
            height <= 65535,
            count <= u32::MAX,
            old(self).has_headroom(0x8_0000_0000),
            old(self).position <= old(self).input().len(),
        ensures
            match r {
                Ok((c, a)) => pattern_slots_at(
                    old(self).input(),
                    old(self).position as int,
                    width as int,
                    height as int,
                    count as int,
                    0,
                    seq![],
                    None,
                ) matches Some((cs, al, end)) && c.deep_view() == cs && opt_bytes(a) == al
                    && old(self).position <= end <= old(self).input().len() && old(self).moved(
                    final(self),
                    end - old(self).position,
                ),
                Err(e) => pattern_slots_at(
                    old(self).input(),
                    old(self).position as int,
                    width as int,
                    height as int,
                    count as int,
                    0,
                    seq![],
                    None,
                ) is None && final(self).same_source(old(self)),
            },
    {
        let ghost s0 = *self;
        let ghost input = self.input();
        let ghost w = width as int;
        let ghost h = height as int;
        let ghost target = pattern_slots_at(
            input,
            s0.position as int,
            w,
            h,
            count as int,
            0,
            seq![],
            None,
        );
        let mut channels: Vec<Vec<u8>> = Vec::new();
        let mut alpha: Option<Vec<u8>> = None;
        let mut channel_index: u64 = 0;
        assert(channels.deep_view() =~= Seq::<Seq<u8>>::empty());
        while channel_index < count + 2
            invariant
                width <= 65535,
                height <= 65535,
                w == width,
                h == height,
                count <= u32::MAX,
                channel_index <= count + 2,
                s0 == *old(self),
                input == s0.input(),
                s0.has_headroom(0x8_0000_0000),
                s0.same_source(self),
                self.offset - self.position == s0.offset - s0.position,
                self.position >= s0.position,
                self.position <= input.len(),
                target == pattern_slots_at(
                    input,
                    s0.position as int,
                    w,
                    h,
                    count as int,
                    0,
                    seq![],
                    None,
                ),
                target == pattern_slots_at(
                    input,
                    self.position as int,
                    w,
                    h,
                    count as int,
                    channel_index as int,
                    channels.deep_view(),
                    opt_bytes(alpha),
                ),
            decreases count + 2 - channel_index,
        {
            let ghost pos = self.position as int;
            let present = self.read_u32()?;
            if present == 0 {
                channel_index += 1;
                continue;
            }
            let channel_length = self.read_u32()? as usize;
            if channel_length == 0 {
                channel_index += 1;
                continue;
            }
            let channel = self.decode_pattern_channel(width, height, channel_length)?;
            let ghost d = channel@;
            let ghost before = channels.deep_view();
            if channel_index < count {
                channels.push(channel);
                proof {
                    assert(channels.deep_view() =~= before.push(d)) by {
                        assert(channels.deep_view()[before.len() as int] == d);
                    }
                }
            } else if channel_index == count + 1 {
                alpha = Some(channel);
            }
            channel_index += 1;
        }
        Ok((channels, alpha))
    }
    /// Reads `height` 16-bit row byte counts.
    fn read_row_lengths(&mut self, height: usize) -> (r: PsdResult<Vec<u16>>)
        requires
            height <= 65535,
            old(self).offset + 2 * height <= u64::MAX,
        ensures
            match r {
                Ok(v) => (height == 0 || old(self).can_read(2 * height)) && v@ == code_units(
                    old(self).input(),
                    old(self).position as int,
                    height as int,
                ) && old(self).moved(final(self), 2 * height),
                Err(e) => !old(self).can_read(2 * height) && final(self).same_source(old(self)),
            },
    {
        let ghost s0 = *self;
        let ghost input = self.input();
        let ghost p = self.position as int;
        let mut row_lengths: Vec<u16> = Vec::new();
        let mut k: usize = 0;
        while k < height
            invariant
                k <= height <= 65535,
                s0 == *old(self),
                input == s0.input(),
                p == s0.position,
                s0.moved(self, 2 * k),
                s0.offset + 2 * height <= u64::MAX,
                k > 0 ==> s0.can_read(2 * k),
                row_lengths@ == code_units(input, p, k as int),
            decreases height - k,
        {
            let v = match self.read_u16() {
                Ok(v) => v,
                Err(e) => {
                    return Err(e);
                },
            };
            assert(v == read16(input, p + 2 * k));
            row_lengths.push(v);
            k += 1;
            assert(row_lengths@ =~= code_units(input, p, k as int));
        }
        Ok(row_lengths)
    }

    /// Decodes one pattern channel record of `length` bytes (see
    /// `pattern_channel_at`).
    pub fn decode_pattern_channel(&mut self, width: usize, height: usize, length: usize) -> (r:
        PsdResult<Vec<u8>>)
        requires
            width <= 65535,
            height <= 65535,
            length <= u32::MAX,
            old(self).offset + length + 2 * height + 64 <= u64::MAX,
            old(self).input().len() + 64 <= u64::MAX,
        ensures
            match r {
                Ok(v) => pattern_channel_at(
                    old(self).input(),
                    old(self).position as int,
                    width as int,
                    height as int,
                    length as int,
                ) matches Some((d, end)) && v@ == d && old(self).moved(
                    final(self),
                    end - old(self).position,
                ),
                Err(e) => pattern_channel_at(
                    old(self).input(),
                    old(self).position as int,
                    width as int,
                    height as int,
                    length as int,
                ) is None && final(self).same_source(old(self)),
            },
    {
        let ghost s0 = *self;
        let ghost input = self.input();
        let ghost p = self.position as int;
        if length == 0 {
            assert(width * height <= 65535 * 65535) by (nonlinear_arith)
                requires
                    width <= 65535,
                    height <= 65535,
            ;
            let v = vec![0u8; width * height];
            assert(v@ =~= zeros(width * height));
            return Ok(v);
        }
        let depth = self.read_u32()? as usize;
        self.skip_bytes(16)?;
        let compression = self.read_u16()?;
        self.skip_bytes(1)?;
        let ghost s1 = *self;
        assert(s1.position == p + 23);
        let bytes_per_sample = depth / 8;
        let row_width = match width.checked_mul(bytes_per_sample) {
            Some(v) => v,
            None => {
                return Err(unsupported("Pattern channel too large"));
            },
        };
        let size = match row_width.checked_mul(height) {
            Some(v) => v,
            None => {
                return Err(unsupported("Pattern channel too large"));
            },
        };
        let remaining = length.saturating_sub(23);
        if compression == 1 {
            let row_lengths = self.read_row_lengths(height)?;
            let encoded_length = remaining.saturating_sub(height * 2);
            let encoded = self.read_bytes(encoded_length)?;
            let mut out: Vec<u8> = vec![0u8; size];
            let ghost zeroed = out@;
            decompress_rle(encoded.as_slice(), out.as_mut_slice(), row_width, height, row_lengths.as_slice())?;
            proof {
                let d = rle_decode(encoded@, row_lengths@, height as int, size as int)->0;
                assert(zeroed =~= zeros(size as int));
                assert(zeroed.skip(d.len() as int) =~= zeros(size - d.len()));
            }
            Ok(out)
        } else {
            let n = if size < remaining {
                size
            } else {
                remaining
            };
            self.read_bytes(n)
        }
    }

    /// Reads a pattern entry of `length` bytes (see `pattern_entry_end`
    /// and `pattern_entry_read`).
    pub fn read_pattern_entry(&mut self, length: usize) -> (r: PsdResult<PatternBlockEntry>)
        requires
            length <= u32::MAX,
            old(self).has_headroom(0x10_0000_0000),
        ensures
            match r {
                Ok(e) => pattern_entry_end(old(self).input(), old(self).position as int, length as int)
                    matches Some(end) && pattern_entry_read(
                    e,
                    old(self).input(),
                    old(self).position as int,
                ) && old(self).moved(final(self), end - old(self).position),
                Err(e) => pattern_entry_end(
                    old(self).input(),
                    old(self).position as int,
                    length as int,
                ) is None && final(self).same_source(old(self)),
            },
    {
        let ghost s0 = *self;
        let ghost input = self.input();
        let ghost p = self.position as int;
        proof {
            reveal(pattern_entry_end);
        }
        let start = self.offset;
        let version = self.read_u32()?;
        let mode = self.read_u32()?;
        let height = self.read_u16()?;
        let width = self.read_u16()?;
        let name = self.read_unicode_string()?;
        assert(self.position == entry_name_end(input, p));
        let id = self.read_pascal_string(1)?;
        assert(self.position == entry_id_end(input, p));
        let indexed_palette = if mode == 2 {
            let palette = self.read_bytes(768)?;
            self.read_u32()?;
            Some(palette_bytes_to_colors(palette.as_slice()))
        } else {
            None
        };
        assert(self.position == entry_image_start(input, p));
        self.read_u32()?;
        self.read_u32()?;
        self.skip_bytes(16)?;
        let channel_count = self.read_u32()? as u64;
        let w = width as usize;
        let h = height as usize;
        let (channels, alpha) = self.read_pattern_slots(w, h, channel_count)?;
        assert(self.offset == start + (self.position - p));
        let consumed = self.offset - start;
        if consumed < length as u64 {
            self.skip_bytes((length as u64 - consumed) as usize)?;
        }
        let n = match w.checked_mul(h) {
            Some(v) => v,
            None => {
                assert(4 * (w as int) * (h as int) > usize::MAX) by (nonlinear_arith)
                    requires
                        (w as int) * (h as int) > usize::MAX,
                ;
                return Err(unsupported("Pattern too large"));
            },
        };
        if n > usize::MAX / 4 {
            assert(4 * (w as int) * (h as int) > usize::MAX) by (nonlinear_arith)
                requires
                    n == (w as int) * (h as int),
                    n > usize::MAX / 4,
            ;
            return Err(unsupported("Pattern too large"));
        }
        assert(4 * (w as int) * (h as int) <= usize::MAX) by (nonlinear_arith)
            requires
                n == (w as int) * (h as int),
                n <= usize::MAX / 4,
        ;
        let palette_slice: Option<&[RGB]> = match &indexed_palette {
            Some(v) => Some(v.as_slice()),
            None => None,
        };
        let alpha_slice: Option<&[u8]> = match &alpha {
            Some(v) => Some(v.as_slice()),
            None => None,
        };
        let rgba = match interleave_pattern_buffer(mode, w, h, palette_slice, channels.as_slice(), alpha_slice) {
            Some(data) => Some(PixelData { data, width: w, height: h }),
            None => None,
        };
        let entry = PatternBlockEntry { name, id, version, mode, width, height, indexed_palette, rgba };
        proof {
            reveal(pattern_entry_read);
        }
        Ok(entry)
    }

    /// Reads a pattern block of `length` bytes (see `pattern_entries_at`)
    /// under the tagged-block key `key`.
    pub fn read_pattern_block(&mut self, key: &str, length: usize) -> (r: PsdResult<PatternBlock>)
        requires
            old(self).has_headroom(0x20_0000_0000),
        ensures
            match r {
                Ok(b) => pattern_entries_at(
                    old(self).input(),
                    old(self).position as int,
                    length as int,
                    old(self).position as int,
                ) matches Some((starts, end)) && b.key.code@ == key@ && b.patterns@.len()
                    == starts.len() && (forall|i: int|
                    0 <= i < starts.len() ==> pattern_entry_read(
                        #[trigger] b.patterns@[i],
                        old(self).input(),
                        starts[i],
                    )) && old(self).moved(final(self), end - old(self).position),
                Err(e) => pattern_entries_at(
                    old(self).input(),
                    old(self).position as int,
                    length as int,
                    old(self).position as int,
                ) is None && final(self).same_source(old(self)),
            },
    {
        let ghost s0 = *self;
        let ghost input = self.input();
        let ghost p = self.position as int;
        let ghost target = pattern_entries_at(input, p, length as int, p);
        let ghost mut starts: Seq<int> = seq![];
        let start = self.offset;
        let mut patterns: Vec<PatternBlockEntry> = Vec::new();
        assert(target == after_starts(starts, pattern_entries_at(input, p, length as int, p))) by {
            match pattern_entries_at(input, p, length as int, p) {
                Some((rest, e)) => {
                    assert(starts + rest =~= rest);
                },
                None => {},
            }
        }
        while self.offset - start < length as u64
            invariant
                s0 == *old(self),
                input == s0.input(),
                p == s0.position,
                start == s0.offset,
                s0.has_headroom(0x20_0000_0000),
                s0.same_source(self),
                self.offset - self.position == s0.offset - s0.position,
                self.position >= p,
                self.offset + 0x10_0000_0000 <= u64::MAX,
                target == pattern_entries_at(input, p, length as int, p),
                target == after_starts(starts, pattern_entries_at(input, p, length as int, self.position as int)),
                patterns@.len() == starts.len(),
                forall|i: int| 0 <= i < starts.len() ==> pattern_entry_read(
                    #[trigger] patterns@[i],
                    input,
                    starts[i],
                ),
            decreases distance(self.position as int, p + length),
        {
            let ghost pos = self.position as int;
            let ghost prev = patterns@;
            let entry_length = self.read_u32()? as usize;
            let entry_start = self.offset;
            let entry = self.read_pattern_entry(entry_length)?;
            proof {
                lemma_entry_end_within(input, pos + 4, entry_length as int);
            }
            patterns.push(entry);
            let consumed = self.offset - entry_start;
            if consumed < entry_length as u64 {
                self.skip_bytes((entry_length as u64 - consumed) as usize)?;
            }
            let padding = entry_length % 4;
            if padding != 0 && self.offset - start < length as u64 {
                self.skip_bytes(4 - padding)?;
            }
            proof {
                let end = pattern_entry_end(input, pos + 4, entry_length as int)->0;
                lemma_entries_step(input, p, length as int, pos, end);
                let ghost old_starts = starts;
                starts = starts.push(pos + 4);
                match pattern_entries_at(input, p, length as int, self.position as int) {
                    Some((rest, e)) => {
                        assert(old_starts + (seq![pos + 4] + rest) =~= starts + rest);
                    },
                    None => {},
                }
                assert forall|i: int| 0 <= i < starts.len() implies pattern_entry_read(
                    #[trigger] patterns@[i],
                    input,
                    starts[i],
                ) by {
                    if i < old_starts.len() {
                        assert(patterns@[i] == prev[i]);
                    }
                }
            }
        }
        proof {
            assert(starts + seq![] =~= starts);
        }
        Ok(PatternBlock { key: PsdStringCode { code: String::from_str(key) }, patterns })
    }
}

} // verus!

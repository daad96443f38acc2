//! Filter effects (the `FEid` tagged block): smart-filter buffers, each a
//! rectangle with per-channel sample slots and an optional preview.
//!
//! Samples of 32 bits are floating-point values; turning them into bytes
//! is left to a conversion that the caller supplies, applied to the
//! sample's big-endian bit pattern.

use crate::additional_info::{read_u64_parts, ChannelImageData, FilterEffectsPreview, FilterEffectsRect, FilterEffectsSlot};
use crate::error::{io_error, unsupported, PsdResult};
use crate::pixel_source::{counter_room, read64, rect_at};
use crate::reader::PsdReader;
use crate::additional_info::{FilterEffectsBlock, FilterEffectsItem};
use crate::pixel_source::skip_to;
use crate::strings::utf8_text;
use crate::io::reader::padding_after;
use crate::bytes::{read16, read32};
use crate::compression::{decompress_rle, decompress_zip, decompress_zip_with_prediction, inflate_stream, predict_decode, prediction_depth, rle_decode, sample_bytes};
use crate::io::writer::{pascal_bytes, zeros, PsdWriter};
use crate::bytes::{be16, be32};
use crate::pixel_source::rect_bytes;
use crate::types::PixelData;
use vstd::prelude::*;

verus! {

/// The byte at `i`, zero past the end.
pub open spec fn byte_or_zero(data: Seq<u8>, i: int) -> u8 {
    if 0 <= i < data.len() {
        data[i]
    } else {
        0
    }
}

/// Whether `v` is the 8-bit value of sample `i` of `data` at `depth`: the
/// byte itself at depth 8, the low byte of the big-endian pair at depth
/// 16, what `convert` gives for the sample's bits at depth 32 (zero for a
/// sample past the end), and zero at any other depth.
pub open spec fn sample_gives<F: Fn(u32) -> u8>(
    data: Seq<u8>,
    i: int,
    depth: int,
    convert: F,
    v: u8,
) -> bool {
    if depth == 8 {
        v == byte_or_zero(data, i)
    } else if depth == 16 {
        v == byte_or_zero(data, 2 * i + 1)
    } else if depth == 32 {
        if 4 * i + 3 >= data.len() {
            v == 0
        } else {
            call_ensures(convert, (read32(data, 4 * i),), v)
        }
    } else {
        v == 0
    }
}

/// The 8-bit value of sample `sample_index` of `data` at `depth` bits
/// (see `sample_gives`).
pub fn sample_to_byte<F: Fn(u32) -> u8>(
    data: &[u8],
    sample_index: usize,
    depth: usize,
    float_to_byte: &F,
) -> (r: u8)
    requires
        4 * sample_index + 4 <= usize::MAX,
        forall|bits: u32| call_requires(*float_to_byte, (bits,)),
    ensures
        sample_gives(data@, sample_index as int, depth as int, *float_to_byte, r),
{
    if depth == 8 {
        if sample_index < data.len() {
            data[sample_index]
        } else {
            0
        }
    } else if depth == 16 {
        let offset = sample_index * 2;
        if offset + 1 < data.len() {
            data[offset + 1]
        } else {
            0
        }
    } else if depth == 32 {
        let offset = sample_index * 4;
        if offset + 3 >= data.len() {
            return 0;
        }
        let bits = ((data[offset] as u32) * 16777216 + (data[offset + 1] as u32) * 65536 + (
        data[offset + 2] as u32) * 256 + data[offset + 3] as u32) as u32;
        float_to_byte(bits)
    } else {
        0
    }
}

/// The index of the first slot numbered `id`; the slot count where there
/// is none.
pub open spec fn first_slot_index(slots: Seq<FilterEffectsSlot>, id: u32) -> int
    decreases slots.len(),
{
    if slots.len() == 0 {
        0
    } else if slots[0].slot == id {
        0
    } else {
        1 + first_slot_index(slots.drop_first(), id)
    }
}

/// `first_slot_index` is the first match, or the count when none matches.
proof fn lemma_first_slot(slots: Seq<FilterEffectsSlot>, id: u32, j: int)
    requires
        0 <= j <= slots.len(),
        forall|k: int| 0 <= k < j ==> (#[trigger] slots[k]).slot != id,
        j == slots.len() || slots[j].slot == id,
    ensures
        first_slot_index(slots, id) == j,
    decreases slots.len(),
{
    if slots.len() > 0 && j > 0 {
        assert forall|k: int| 0 <= k < j - 1 implies (#[trigger] slots.drop_first()[k]).slot != id by {
            assert(slots.drop_first()[k] == slots[k + 1]);
        }
        lemma_first_slot(slots.drop_first(), id, j - 1);
    }
}

/// The slot that feeds channel `c` of the interleaved buffer: red, green,
/// blue and alpha are slots 0, 1, 2 and 25.
pub open spec fn channel_slot_id(c: int) -> u32 {
    if c == 0 {
        0
    } else if c == 1 {
        1
    } else if c == 2 {
        2
    } else {
        25
    }
}

/// Bytes per sample at `depth` bits: the depth (at least 1) divided by
/// eight, rounded up.
pub open spec fn depth_bytes(depth: int) -> int {
    if depth > 1 {
        (depth + 7) / 8
    } else {
        1
    }
}

/// Whether `v` is byte `k` of the interleaved buffer: for pixel `k / 4`
/// and channel `k % 4`, the sample of the first slot feeding the channel
/// while that slot holds samples, and 255 elsewhere.
pub open spec fn rgba_byte_ok<F: Fn(u32) -> u8>(
    v: u8,
    slots: Seq<FilterEffectsSlot>,
    k: int,
    depth: int,
    convert: F,
) -> bool {
    let j = first_slot_index(slots, channel_slot_id(k % 4));
    if j < slots.len() && k / 4 < (slots[j].channel_data.data@.len() as int) / depth_bytes(depth) {
        sample_gives(slots[j].channel_data.data@, k / 4, depth, convert, v)
    } else {
        v == 255
    }
}

/// Whether `out` is the interleaved RGBA buffer of `n` pixels built from
/// `slots` (see `rgba_byte_ok`).
pub open spec fn interleaved_ok<F: Fn(u32) -> u8>(
    out: Seq<u8>,
    slots: Seq<FilterEffectsSlot>,
    n: int,
    depth: int,
    convert: F,
) -> bool {
    &&& out.len() == 4 * n
    &&& forall|k: int| 0 <= k < 4 * n ==> #[trigger] rgba_byte_ok(out[k], slots, k, depth, convert)
}

/// The width or height between two edges, zero when they are reversed.
pub open spec fn edge_span(low: i32, high: i32) -> int {
    if high > low {
        high - low
    } else {
        0
    }
}

/// Whether both spans of `rect` can be computed in 32 bits.
pub open spec fn rect_spans_fit(rect: FilterEffectsRect) -> bool {
    &&& i32::MIN <= rect.right - rect.left <= i32::MAX
    &&& i32::MIN <= rect.bottom - rect.top <= i32::MAX
}

/// The span between two edges, zero when they are reversed.
pub fn span_of(low: i32, high: i32) -> (r: usize)
    requires
        i32::MIN <= high - low <= i32::MAX,
    ensures
        r == edge_span(low, high),
{
    let diff = high - low;
    if diff > 0 {
        diff as usize
    } else {
        0
    }
}

/// Fills channel `c` of `rgba` from the first slot numbered
/// `channel_slot_id(c)`, leaving the other channels as they are.
fn fill_channel<F: Fn(u32) -> u8>(
    rgba: &mut Vec<u8>,
    c: usize,
    slots: &[FilterEffectsSlot],
    pixel_count: usize,
    depth: usize,
    float_to_byte: &F,
)
    requires
        c < 4,
        old(rgba)@.len() == 4 * pixel_count,
        4 * pixel_count + 4 <= usize::MAX,
        forall|k: int| 0 <= k < 4 * pixel_count && k % 4 == c ==> old(rgba)@[k] == 255,
        forall|bits: u32| call_requires(*float_to_byte, (bits,)),
    ensures
        final(rgba)@.len() == old(rgba)@.len(),
        forall|k: int|
            0 <= k < 4 * pixel_count && k % 4 != c ==> final(rgba)@[k] == old(rgba)@[k],
        forall|k: int|
            0 <= k < 4 * pixel_count && k % 4 == c ==> #[trigger] rgba_byte_ok(
                final(rgba)@[k],
                slots@,
                k,
                depth as int,
                *float_to_byte,
            ),
{
    let id: u32 = if c == 0 {
        0
    } else if c == 1 {
        1
    } else if c == 2 {
        2
    } else {
        25
    };
    let mut j: usize = 0;
    while j < slots.len() && slots[j].slot != id
        invariant
            j <= slots.len(),
            forall|k: int| 0 <= k < j ==> (#[trigger] slots@[k]).slot != id,
        decreases slots.len() - j,
    {
        j = j + 1;
    }
    proof {
        lemma_first_slot(slots@, id, j as int);
    }
    if j == slots.len() {
        return;
    }
    let data = &slots[j].channel_data.data;
    let per_sample: usize = if depth > 1 {
        (depth - 1) / 8 + 1
    } else {
        1
    };
    let available = data.len() / per_sample;
    let count = if available < pixel_count {
        available
    } else {
        pixel_count
    };
    let ghost before = rgba@;
    let mut i: usize = 0;
    while i < count
        invariant
            i <= count <= pixel_count,
            count <= (data@.len() as int) / (per_sample as int),
            count == pixel_count || count == (data@.len() as int) / (per_sample as int),
            per_sample == depth_bytes(depth as int),
            c < 4,
            j < slots@.len(),
            first_slot_index(slots@, channel_slot_id(c as int)) == j,
            data == slots@[j as int].channel_data.data,
            rgba@.len() == 4 * pixel_count,
            4 * pixel_count + 4 <= usize::MAX,
            before.len() == 4 * pixel_count,
            forall|k: int| 0 <= k < 4 * pixel_count && k % 4 == c ==> before[k] == 255,
            forall|bits: u32| call_requires(*float_to_byte, (bits,)),
            forall|k: int| 0 <= k < 4 * pixel_count && (k % 4 != c || k / 4 >= i) ==> rgba@[k] == before[k],
            forall|k: int|
                0 <= k < 4 * pixel_count && k % 4 == c && k / 4 < i ==> #[trigger] rgba_byte_ok(
                    rgba@[k],
                    slots@,
                    k,
                    depth as int,
                    *float_to_byte,
                ),
        decreases count - i,
    {
        let v = sample_to_byte(data.as_slice(), i, depth, float_to_byte);
        rgba.set(4 * i + c, v);
        proof {
            assert((4 * i + c) % 4 == c && (4 * i + c) / 4 == i) by (nonlinear_arith)
                requires
                    c < 4,
            ;
            assert forall|k: int|
                0 <= k < 4 * pixel_count && k % 4 == c && k / 4 < i + 1 implies #[trigger] rgba_byte_ok(
                rgba@[k],
                slots@,
                k,
                depth as int,
                *float_to_byte,
            ) by {
                if k / 4 == i {
                    assert(k == 4 * i + c);
                }
            }
        }
        i = i + 1;
    }
    proof {
        assert forall|k: int|
            0 <= k < 4 * pixel_count && k % 4 == c implies #[trigger] rgba_byte_ok(
            rgba@[k],
            slots@,
            k,
            depth as int,
            *float_to_byte,
        ) by {
            if k / 4 >= count {
                assert(k / 4 >= i);
                assert(rgba@[k] == before[k]);
                assert(before[k] == 255);
            }
        }
    }
}

/// Interleaves the red, green, blue and alpha slots (0, 1, 2 and 25) of
/// a filter-effects buffer into RGBA pixels over its rectangle (see
/// `interleaved_ok`); channels without a slot are 255.
pub fn interleave_feid_buffer<F: Fn(u32) -> u8>(
    rect: FilterEffectsRect,
    slots: &[FilterEffectsSlot],
    depth: usize,
    float_to_byte: &F,
) -> (r: PixelData)
    requires
        rect_spans_fit(rect),
        4 * edge_span(rect.left, rect.right) * edge_span(rect.top, rect.bottom) + 4 <= usize::MAX,
        forall|bits: u32| call_requires(*float_to_byte, (bits,)),
    ensures
        r.width == edge_span(rect.left, rect.right),
        r.height == edge_span(rect.top, rect.bottom),
        interleaved_ok(r.data@, slots@, r.width * r.height, depth as int, *float_to_byte),
{
    let width = span_of(rect.left, rect.right);
    let height = span_of(rect.top, rect.bottom);
    assert(width * height <= 4 * width * height + 4 <= usize::MAX && 4 * (width * height) == 4
        * width * height) by (nonlinear_arith)
        requires
            4 * width * height + 4 <= usize::MAX,
    ;
    let pixel_count = width * height;
    let mut rgba = vec![255u8; pixel_count * 4];
    let mut c: usize = 0;
    while c < 4
        invariant
            c <= 4,
            rgba@.len() == 4 * pixel_count,
            4 * pixel_count + 4 <= usize::MAX,
            forall|bits: u32| call_requires(*float_to_byte, (bits,)),
            forall|k: int| 0 <= k < 4 * pixel_count && k % 4 >= c ==> rgba@[k] == 255,
            forall|k: int|
                0 <= k < 4 * pixel_count && k % 4 < c ==> #[trigger] rgba_byte_ok(
                    rgba@[k],
                    slots@,
                    k,
                    depth as int,
                    *float_to_byte,
                ),
        decreases 4 - c,
    {
        fill_channel(&mut rgba, c, slots, pixel_count, depth, float_to_byte);
        c = c + 1;
    }
    PixelData { data: rgba, width, height }
}

/// The payload of a stored slot after its two compression bytes (none
/// when it is shorter).
pub open spec fn slot_tail(bytes: Seq<u8>) -> Seq<u8> {
    if bytes.len() >= 2 {
        bytes.skip(2)
    } else {
        seq![]
    }
}

/// The compression code of a stored slot: its first two bytes, zero when
/// it is shorter.
pub open spec fn slot_compression(bytes: Seq<u8>) -> u16 {
    if bytes.len() >= 2 {
        read16(bytes, 0)
    } else {
        0
    }
}

/// Bytes per sample of a slot: the depth (at least 8) divided by eight.
pub open spec fn slot_sample_bytes(depth: u32) -> int {
    if depth > 8 {
        (depth / 8) as int
    } else {
        1
    }
}

/// Bytes a decoded slot of `width` by `height` samples holds.
pub open spec fn slot_output_size(width: int, height: int, depth: u32) -> int {
    width * slot_sample_bytes(depth) * height
}

/// The row byte counts of a PackBits slot.
pub open spec fn slot_row_counts(bytes: Seq<u8>, height: int) -> Seq<u16> {
    Seq::new(height as nat, |r: int| read16(bytes, 2 + 2 * r))
}

/// The samples of a stored slot: the payload as it stands (code 0, and any
/// unknown code); PackBits rows after a table of row byte counts (code 1),
/// zero-filled to the output size; a DEFLATE stream (code 2); a DEFLATE
/// stream with prediction at the slot's depth (code 3).  A compressed
/// payload that does not decode is kept as it stands, and so is a PackBits
/// payload too short for its table.  `None` where PackBits decoding fails:
/// the samples are then not determined beyond their count.
pub open spec fn decoded_slot(bytes: Seq<u8>, width: int, height: int, depth: u32) -> Option<
    Seq<u8>,
> {
    let out_size = slot_output_size(width, height, depth);
    let tail = slot_tail(bytes);
    let code = slot_compression(bytes);
    if code == 1 {
        if bytes.len() >= 2 + 2 * height {
            match rle_decode(bytes.skip(2 + 2 * height), slot_row_counts(bytes, height), height, out_size) {
                Some(d) => Some(d + zeros(out_size - d.len())),
                None => None,
            }
        } else {
            Some(tail)
        }
    } else if code == 2 {
        match inflate_stream(tail) {
            Some(v) => Some(v),
            None => Some(tail),
        }
    } else if code == 3 {
        let d16 = depth as u16;
        match inflate_stream(tail) {
            Some(v) => if prediction_depth(d16) && v.len() >= width * height * sample_bytes(d16) {
                Some(predict_decode(v, width, height, d16))
            } else {
                Some(tail)
            },
            None => Some(tail),
        }
    } else {
        Some(tail)
    }
}

/// The bytes of `bytes` from `start` on.
fn copy_from(bytes: &[u8], start: usize) -> (r: Vec<u8>)
    requires
        start <= bytes@.len(),
    ensures
        r@ == bytes@.skip(start as int),
{
    let mut out: Vec<u8> = Vec::new();
    let mut k: usize = start;
    while k < bytes.len()
        invariant
            start <= k <= bytes@.len(),
            out@ == bytes@.subrange(start as int, k as int),
        decreases bytes.len() - k,
    {
        out.push(bytes[k]);
        k = k + 1;
        assert(out@ =~= bytes@.subrange(start as int, k as int));
    }
    assert(bytes@.subrange(start as int, k as int) =~= bytes@.skip(start as int));
    out
}

/// The payload of a slot after its compression bytes.
fn slot_payload(bytes: &[u8]) -> (r: Vec<u8>)
    ensures
        r@ == slot_tail(bytes@),
{
    if bytes.len() >= 2 {
        copy_from(bytes, 2)
    } else {
        Vec::new()
    }
}

/// Decodes a stored slot of `width` by `height` samples at `depth` bits
/// (see `decoded_slot`).
pub fn decode_feid_slot(slot_bytes: &[u8], width: usize, height: usize, depth: u32) -> (r: Vec<u8>)
    requires
        slot_output_size(width as int, height as int, depth) <= usize::MAX,
        width * slot_sample_bytes(depth) <= usize::MAX,
        2 * height + 2 <= usize::MAX,
    ensures
        match decoded_slot(slot_bytes@, width as int, height as int, depth) {
            Some(d) => r@ == d,
            None => r@.len() == slot_output_size(width as int, height as int, depth),
        },
{
    let code: u16 = if slot_bytes.len() >= 2 {
        (slot_bytes[0] as u16) * 256 + slot_bytes[1] as u16
    } else {
        0
    };
    let per_sample: usize = if depth > 8 {
        (depth / 8) as usize
    } else {
        1
    };
    proof {
        assert(width * per_sample <= width * per_sample * height || height == 0) by (nonlinear_arith);
        assert(width * per_sample * height == slot_output_size(width as int, height as int, depth));
        if height == 0 {
            assert(width * per_sample * height == 0) by (nonlinear_arith)
                requires
                    height == 0,
            ;
        }
    }
    if code == 1 {
        let row_width = width * per_sample;
        let output_size = row_width * height;
        let table = height * 2;
        if slot_bytes.len() >= 2 + table {
            let mut counts: Vec<u16> = Vec::new();
            let mut r: usize = 0;
            while r < height
                invariant
                    r <= height,
                    table == 2 * height,
                    slot_bytes@.len() >= 2 + table,
                    counts@ == slot_row_counts(slot_bytes@, height as int).take(r as int),
                decreases height - r,
            {
                let v = (slot_bytes[2 + 2 * r] as u16) * 256 + slot_bytes[3 + 2 * r] as u16;
                counts.push(v);
                r = r + 1;
                assert(counts@ =~= slot_row_counts(slot_bytes@, height as int).take(r as int));
            }
            assert(counts@ =~= slot_row_counts(slot_bytes@, height as int));
            let encoded = copy_from(slot_bytes, 2 + table);
            let mut out: Vec<u8> = vec![0u8; output_size];
            let _ = decompress_rle(encoded.as_slice(), out.as_mut_slice(), row_width, height, counts.as_slice());
            proof {
                if let Some(d) = rle_decode(encoded@, counts@, height as int, output_size as int) {
                    assert(out@ =~= d + zeros(output_size - d.len()));
                }
            }
            out
        } else {
            slot_payload(slot_bytes)
        }
    } else if code == 2 {
        let tail = slot_payload(slot_bytes);
        let output_size = width * per_sample * height;
        match decompress_zip(tail.as_slice(), output_size) {
            Ok(v) => v,
            Err(_) => tail,
        }
    } else if code == 3 {
        let tail = slot_payload(slot_bytes);
        let d16 = depth as u16;
        proof {
            if prediction_depth(d16) {
                assert(sample_bytes(d16) <= per_sample) by {
                    assert(d16 == depth % 65536) by (bit_vector)
                        requires
                            d16 == depth as u16,
                    ;
                }
                assert(width * sample_bytes(d16) <= width * per_sample) by (nonlinear_arith)
                    requires
                        sample_bytes(d16) <= per_sample,
                ;
                assert(width * height * sample_bytes(d16) <= width * per_sample * height) by (nonlinear_arith)
                    requires
                        sample_bytes(d16) <= per_sample,
                ;
            }
        }
        match decompress_zip_with_prediction(tail.as_slice(), width, height, d16) {
            Ok(v) => v,
            Err(_) => tail,
        }
    } else {
        slot_payload(slot_bytes)
    }
}

/// Whether slots over `rect` at `depth` can be decoded in memory: the
/// spans compute in 32 bits and the sizes fit in `usize`.
pub open spec fn slot_sizes_fit(rect: FilterEffectsRect, depth: u32) -> bool {
    let w = edge_span(rect.left, rect.right);
    let h = edge_span(rect.top, rect.bottom);
    &&& rect_spans_fit(rect)
    &&& slot_output_size(w, h, depth) <= usize::MAX
    &&& w * slot_sample_bytes(depth) <= usize::MAX
    &&& 2 * h + 2 <= usize::MAX
}

/// How far offset `o` stands before offset `end`, zero past it.
pub open spec fn room_before(o: int, end: int) -> int {
    if end > o {
        end - o
    } else {
        0
    }
}

/// The slots of an item from `p` on, the `k`-th of `n`, in a chunk ending
/// at offset `ce`: each a presence word and, when present with room for
/// it, a 64-bit length and that many stored bytes if they fit in the
/// chunk.  Reading stops at the count or where fewer than four bytes of
/// the chunk are left.  The result is each read slot's number and decoded
/// samples (see `decoded_slot`), and where reading ends.
pub open spec fn feid_slots_from(
    b: Seq<u8>,
    p: int,
    d: int,
    ce: int,
    k: int,
    n: int,
    rect: FilterEffectsRect,
    depth: u32,
) -> Option<(Seq<(u32, Option<Seq<u8>>)>, int)>
    decreases n - k,
{
    if k >= n || p + d + 4 > ce {
        Some((seq![], p))
    } else if p + 4 > b.len() {
        None
    } else {
        let p1 = p + 4;
        if read32(b, p) != 0 && p1 + d + 8 <= ce {
            if p1 + 8 > b.len() {
                None
            } else {
                let slen = read64(b, p1);
                let p2 = p1 + 8;
                if slen <= room_before(p2 + d, ce) {
                    if slen > usize::MAX || p2 + slen > b.len() || !slot_sizes_fit(rect, depth) {
                        None
                    } else {
                        let w = edge_span(rect.left, rect.right);
                        let h = edge_span(rect.top, rect.bottom);
                        let slot = (k as u32, decoded_slot(b.subrange(p2, p2 + slen), w, h, depth));
                        match feid_slots_from(b, p2 + slen, d, ce, k + 1, n, rect, depth) {
                            Some((rest, e)) => Some((seq![slot] + rest, e)),
                            None => None,
                        }
                    }
                } else {
                    feid_slots_from(b, p2, d, ce, k + 1, n, rect, depth)
                }
            }
        } else {
            feid_slots_from(b, p1, d, ce, k + 1, n, rect, depth)
        }
    }
}

/// Whether `slot` is the slot described by `found` over `rect`.
pub open spec fn feid_slot_match(
    slot: FilterEffectsSlot,
    found: (u32, Option<Seq<u8>>),
    rect: FilterEffectsRect,
    depth: u32,
) -> bool {
    let w = edge_span(rect.left, rect.right);
    let h = edge_span(rect.top, rect.bottom);
    &&& slot.slot == found.0
    &&& slot.channel_data.width == w
    &&& slot.channel_data.height == h
    &&& match found.1 {
        Some(data) => slot.channel_data.data@ == data,
        None => slot.channel_data.data@.len() == slot_output_size(w, h, depth),
    }
}

/// Whether `stored` holds the slots described by `slots` over `rect`.
pub open spec fn feid_slots_match(
    stored: Seq<FilterEffectsSlot>,
    slots: Seq<(u32, Option<Seq<u8>>)>,
    rect: FilterEffectsRect,
    depth: u32,
) -> bool {
    &&& stored.len() == slots.len()
    &&& forall|i: int|
        0 <= i < slots.len() ==> feid_slot_match(#[trigger] stored[i], slots[i], rect, depth)
}

/// Reads the slots of an item (see `feid_slots_from`).
#[verifier::rlimit(40)]
fn read_feid_slots(
    reader: &mut PsdReader,
    chunk_end: u64,
    slot_count: u32,
    rect: FilterEffectsRect,
    depth: u32,
) -> (r: PsdResult<Vec<FilterEffectsSlot>>)
    requires
        old(reader).position <= old(reader).input().len(),
        counter_room(*old(reader), 0x100_0000_0000),
    ensures
        final(reader).same_source(old(reader)),
        final(reader).offset - final(reader).position == old(reader).offset - old(reader).position,
        match feid_slots_from(
            old(reader).input(),
            old(reader).position as int,
            old(reader).offset - old(reader).position,
            chunk_end as int,
            0,
            slot_count as int,
            rect,
            depth,
        ) {
            Some((found, e)) => r matches Ok(slots) && slots@.len() == found.len() && (forall|i: int|
                0 <= i < found.len() ==> feid_slot_match(#[trigger] slots@[i], found[i], rect, depth))
                && final(reader).position == e,
            None => r is Err,
        },
        r is Ok ==> final(reader).position <= final(reader).input().len(),
{
    let ghost b = reader.input();
    let ghost d = reader.offset - reader.position;
    let ghost s0 = *reader;
    let ghost target = feid_slots_from(b, reader.position as int, d, chunk_end as int, 0, slot_count as int, rect, depth);
    let ghost mut found: Seq<(u32, Option<Seq<u8>>)> = seq![];
    let mut slots: Vec<FilterEffectsSlot> = Vec::new();
    let mut k: u32 = 0;
    assert(found + seq![] =~= found);
    while k < slot_count
        invariant
            k <= slot_count,
            s0.same_source(reader),
            s0 == *old(reader),
            b == s0.input(),
            d == reader.offset - reader.position,
            d == s0.offset - s0.position,
            reader.position <= b.len(),
            counter_room(s0, 0x100_0000_0000),
            target == feid_slots_from(b, s0.position as int, d, chunk_end as int, 0, slot_count as int, rect, depth),
            target matches Some((tf, te)) ==> (feid_slots_from(
                b,
                reader.position as int,
                d,
                chunk_end as int,
                k as int,
                slot_count as int,
                rect,
                depth,
            ) matches Some((rf, re)) && tf == found + rf && te == re),
            target is None ==> feid_slots_from(
                b,
                reader.position as int,
                d,
                chunk_end as int,
                k as int,
                slot_count as int,
                rect,
                depth,
            ) is None,
            slots@.len() == found.len(),
            forall|i: int| 0 <= i < found.len() ==> feid_slot_match(#[trigger] slots@[i], found[i], rect, depth),
        ensures
            feid_slots_from(b, reader.position as int, d, chunk_end as int, k as int, slot_count as int, rect, depth)
                == Some((Seq::<(u32, Option<Seq<u8>>)>::empty(), reader.position as int)),
        decreases slot_count - k,
    {
        if reader.offset > chunk_end || chunk_end - reader.offset < 4 {
            break;
        }
        let ghost p = reader.position as int;
        let ghost prev = slots@;
        let present = reader.read_u32()?;
        if present != 0 && reader.offset <= chunk_end && chunk_end - reader.offset >= 8 {
            let slot_length = read_u64_parts(reader)?;
            let room = chunk_end - reader.offset;
            if reader.offset <= chunk_end && slot_length <= room {
                if slot_length > usize::MAX as u64 {
                    return Err(unsupported("Filter effects slot is too large"));
                }
                let slot_bytes = reader.read_bytes(slot_length as usize)?;
                if !(rect.right as i64 - rect.left as i64 <= i32::MAX as i64 && rect.right as i64 - rect.left as i64 >= i32::MIN as i64
                    && rect.bottom as i64 - rect.top as i64 <= i32::MAX as i64 && rect.bottom as i64 - rect.top as i64 >= i32::MIN as i64) {
                    return Err(unsupported("Filter effects rectangle is too large"));
                }
                let width = span_of(rect.left, rect.right);
                let height = span_of(rect.top, rect.bottom);
                let per_sample: usize = if depth > 8 {
                    (depth / 8) as usize
                } else {
                    1
                };
                assert(per_sample == slot_sample_bytes(depth));
                if width > usize::MAX / per_sample {
                    proof {
                        assert(width * per_sample > usize::MAX) by (nonlinear_arith)
                            requires
                                width > usize::MAX / per_sample,
                                per_sample >= 1,
                        ;
                    }
                    return Err(unsupported("Filter effects slot is too large"));
                }
                proof {
                    assert(width * per_sample <= usize::MAX) by (nonlinear_arith)
                        requires
                            width <= usize::MAX / per_sample,
                            per_sample >= 1,
                    ;
                }
                let row_width = width * per_sample;
                if height > 0 && row_width > usize::MAX / height {
                    proof {
                        assert(row_width * height > usize::MAX) by (nonlinear_arith)
                            requires
                                height > 0,
                                row_width > usize::MAX / height,
                        ;
                    }
                    return Err(unsupported("Filter effects slot is too large"));
                }
                if height > (usize::MAX - 2) / 2 {
                    return Err(unsupported("Filter effects slot is too large"));
                }
                proof {
                    assert(row_width * height <= usize::MAX) by (nonlinear_arith)
                        requires
                            height == 0 || row_width <= usize::MAX / height,
                    ;
                    assert(slot_sizes_fit(rect, depth));
                }
                let data = decode_feid_slot(slot_bytes.as_slice(), width, height, depth);
                let slot = FilterEffectsSlot {
                    slot: k,
                    channel_data: ChannelImageData { width, height, data },
                };
                proof {
                    let old_found = found;
                    let entry = (k as u32, decoded_slot(slot_bytes@, width as int, height as int, depth));
                    found = found.push(entry);
                    if let Some((rest, e)) = feid_slots_from(b, reader.position as int, d, chunk_end as int, k + 1, slot_count as int, rect, depth) {
                        assert(old_found + (seq![entry] + rest) =~= found + rest);
                    }
                }
                slots.push(slot);
                proof {
                    assert forall|i: int| 0 <= i < found.len() implies feid_slot_match(#[trigger] slots@[i], found[i], rect, depth) by {
                        if i < found.len() - 1 {
                            assert(slots@[i] == prev[i]);
                        }
                    }
                }
            }
        }
        k = k + 1;
    }
    proof {
        assert(found + Seq::<(u32, Option<Seq<u8>>)>::empty() =~= found);
    }
    Ok(slots)
}

/// The preview of an item from `p` on, in a chunk ending at offset `ce`:
/// while the chunk has bytes left, a flag byte; when set with room for
/// them, a rectangle, a 64-bit length and, if it is positive and fits in
/// the chunk, that many raw bytes.  The result is the preview's rectangle
/// and bytes, and where reading ends.
pub open spec fn feid_preview(b: Seq<u8>, p: int, d: int, ce: int) -> Option<
    (Option<(FilterEffectsRect, Seq<u8>)>, int),
> {
    let p1 = p + 1;
    let p2 = p1 + 24;
    if p + d >= ce {
        Some((None, p))
    } else if p + 1 > b.len() {
        None
    } else if b[p] != 0 && p1 + d + 24 <= ce {
        let plen = read64(b, p1 + 16);
        if p1 + 24 > b.len() {
            None
        } else if plen > 0 && plen <= room_before(p2 + d, ce) {
            if plen > usize::MAX || p2 + plen > b.len() || !rect_spans_fit(rect_at(b, p1)) {
                None
            } else {
                Some((Some((rect_at(b, p1), b.subrange(p2, p2 + plen))), p2 + plen))
            }
        } else if !rect_spans_fit(rect_at(b, p1)) {
            None
        } else {
            Some((Some((rect_at(b, p1), seq![])), p2))
        }
    } else {
        Some((None, p1))
    }
}

/// Whether `preview` holds the rectangle and raw bytes of `found`, as its
/// channel data and as its pixels.
pub open spec fn feid_preview_match(
    preview: Option<FilterEffectsPreview>,
    found: Option<(FilterEffectsRect, Seq<u8>)>,
) -> bool {
    match found {
        None => preview is None,
        Some((rect, raw)) => match preview {
            Some(pv) => {
                &&& pv.rect == rect
                &&& pv.channel_data.width == edge_span(rect.left, rect.right)
                &&& pv.channel_data.height == edge_span(rect.top, rect.bottom)
                &&& pv.channel_data.data@ == raw
                &&& match pv.rgba {
                    Some(px) => px.data@ == raw && px.width == pv.channel_data.width && px.height
                        == pv.channel_data.height,
                    None => false,
                }
            },
            None => false,
        },
    }
}

/// A copy of `bytes`.
fn copy_bytes(bytes: &Vec<u8>) -> (r: Vec<u8>)
    ensures
        r@ == bytes@,
{
    let r = copy_from(bytes.as_slice(), 0);
    assert(bytes@.skip(0) =~= bytes@);
    r
}

/// Reads the preview of an item (see `feid_preview`).
fn read_feid_preview(reader: &mut PsdReader, chunk_end: u64) -> (r: PsdResult<
    Option<FilterEffectsPreview>,
>)
    requires
        old(reader).position <= old(reader).input().len(),
        counter_room(*old(reader), 0x100_0000_0000),
    ensures
        final(reader).same_source(old(reader)),
        final(reader).offset - final(reader).position == old(reader).offset - old(reader).position,
        match feid_preview(
            old(reader).input(),
            old(reader).position as int,
            old(reader).offset - old(reader).position,
            chunk_end as int,
        ) {
            Some((found, e)) => r matches Ok(preview) && feid_preview_match(preview, found)
                && final(reader).position == e,
            None => r is Err,
        },
{
    if reader.offset >= chunk_end {
        return Ok(None);
    }
    let has_preview = reader.read_u8()?;
    if has_preview != 0 && reader.offset <= chunk_end && chunk_end - reader.offset >= 24 {
        let left = reader.read_i32()?;
        let top = reader.read_i32()?;
        let right = reader.read_i32()?;
        let bottom = reader.read_i32()?;
        let rect = FilterEffectsRect { left, top, right, bottom };
        let preview_len = read_u64_parts(reader)?;
        let remaining = if chunk_end > reader.offset {
            chunk_end - reader.offset
        } else {
            0
        };
        let raw: Vec<u8> = if preview_len > 0 && preview_len <= remaining {
            if preview_len > usize::MAX as u64 {
                return Err(unsupported("Filter effects preview is too large"));
            }
            reader.read_bytes(preview_len as usize)?
        } else {
            Vec::new()
        };
        if !(right as i64 - left as i64 <= i32::MAX as i64 && right as i64 - left as i64
            >= i32::MIN as i64 && bottom as i64 - top as i64 <= i32::MAX as i64 && bottom as i64
            - top as i64 >= i32::MIN as i64) {
            return Err(unsupported("Filter effects rectangle is too large"));
        }
        let width = span_of(left, right);
        let height = span_of(top, bottom);
        let copy = copy_bytes(&raw);
        Ok(
            Some(
                FilterEffectsPreview {
                    rect,
                    channel_data: ChannelImageData { width, height, data: copy },
                    rgba: Some(PixelData { data: raw, width, height }),
                },
            ),
        )
    } else {
        Ok(None)
    }
}

/// Where an item whose chunk of `clen` bytes ends at offset `ce` stops,
/// from position `q`: at the chunk's end if it lies ahead, then past the
/// padding to a multiple of four bytes.
pub open spec fn feid_item_end(q: int, d: int, ce: int, clen: int) -> Option<int> {
    match skip_to(q, d, ce) {
        None => None,
        Some(q6) => if clen % 4 != 0 {
            let c = 4 - clen % 4;
            if q6 + d + c > u64::MAX || q6 + c > u64::MAX {
                None
            } else {
                Some(q6 + c)
            }
        } else {
            Some(q6)
        },
    }
}

/// What an item stores: its id, its version, its geometry (rectangle,
/// depth and channel count), its slots and its preview.
pub type FeidItemSpec = (
    Seq<char>,
    Option<u32>,
    Option<(FilterEffectsRect, u32, u32)>,
    Seq<(u32, Option<Seq<u8>>)>,
    Option<(FilterEffectsRect, Seq<u8>)>,
);

/// The head of the item whose 64-bit chunk length stands at `p`: a
/// Pascal id, then a version and a word, each while the chunk has room
/// for it.  The result is the id, the version, the chunk's length, the
/// offset where it ends, and where the head ends.
pub open spec fn feid_head(b: Seq<u8>, p: int, d: int) -> Option<
    (Seq<char>, Option<u32>, int, int, int),
> {
    let clen = read64(b, p);
    let cs = p + 8;
    let ce = cs + d + clen;
    if p + 8 > b.len() || ce > u64::MAX || cs + 1 > b.len() || cs + 1 + b[cs] > b.len() {
        None
    } else {
        let q0 = cs + 1 + b[cs];
        let has_version = q0 + d + 4 <= ce;
        let q1 = if has_version {
            q0 + 4
        } else {
            q0
        };
        let has_word = q1 + d + 4 <= ce;
        let q2 = if has_word {
            q1 + 4
        } else {
            q1
        };
        if (has_version && q0 + 4 > b.len()) || (has_word && q1 + 4 > b.len()) {
            None
        } else {
            Some(
                (
                    utf8_text(b.subrange(cs + 1, q0)),
                    if has_version {
                        Some(read32(b, q0))
                    } else {
                        None
                    },
                    clen,
                    ce,
                    q2,
                ),
            )
        }
    }
}

/// The body of an item from `q` on, in a chunk ending at offset `ce`:
/// when the chunk has room for them, a rectangle, a depth and a channel
/// count, then `count + 2` slots and a preview.  The result is the
/// geometry, the slots, the preview and where reading ends.
pub open spec fn feid_body(b: Seq<u8>, q: int, d: int, ce: int) -> Option<
    (
        Option<(FilterEffectsRect, u32, u32)>,
        Seq<(u32, Option<Seq<u8>>)>,
        Option<(FilterEffectsRect, Seq<u8>)>,
        int,
    ),
> {
    if q + d + 24 <= ce {
        let rect = rect_at(b, q);
        let depth = read32(b, q + 16);
        let count = read32(b, q + 20);
        if q + 24 > b.len() || count + 2 > u32::MAX {
            None
        } else {
            match feid_slots_from(b, q + 24, d, ce, 0, count + 2, rect, depth) {
                None => None,
                Some((slots, q4)) => match feid_preview(b, q4, d, ce) {
                    None => None,
                    Some((preview, q5)) => Some((Some((rect, depth, count)), slots, preview, q5)),
                },
            }
        }
    } else {
        Some((None, seq![], None, q))
    }
}

/// Whether the pixels of an item with this geometry can be interleaved in
/// memory.
pub open spec fn geometry_fits(geometry: Option<(FilterEffectsRect, u32, u32)>) -> bool {
    match geometry {
        None => true,
        Some((rect, _, _)) => rect_spans_fit(rect) && 4 * edge_span(rect.left, rect.right)
            * edge_span(rect.top, rect.bottom) + 4 <= usize::MAX,
    }
}

/// The item whose 64-bit chunk length stands at `p` (see `feid_head` and
/// `feid_body`); reading ends at the chunk's end, padded to four bytes.
/// The result is what the item stores and where reading ends; `None`
/// where a read fails or a size does not fit.
pub open spec fn feid_item(b: Seq<u8>, p: int, d: int) -> Option<(FeidItemSpec, int)> {
    match feid_head(b, p, d) {
        None => None,
        Some((id, version, clen, ce, q2)) => match feid_body(b, q2, d, ce) {
            None => None,
            Some((geometry, slots, preview, q5)) => match feid_item_end(q5, d, ce, clen) {
                None => None,
                Some(q7) => if geometry_fits(geometry) {
                    Some(((id, version, geometry, slots, preview), q7))
                } else {
                    None
                },
            },
        },
    }
}

/// Whether `item` holds what `found` describes, its slots only when there
/// are some, and its pixels interleaved from its slots with `convert` for
/// 32-bit samples.
pub open spec fn feid_item_match<F: Fn(u32) -> u8>(
    item: FilterEffectsItem,
    found: FeidItemSpec,
    convert: F,
) -> bool {
    let (id, version, geometry, slots, preview) = found;
    &&& item.id@ == id
    &&& item.version == version
    &&& match geometry {
        None => {
            &&& item.rect is None
            &&& item.depth is None
            &&& item.channel_count is None
            &&& item.slots is None
            &&& item.preview is None
            &&& item.rgba is None
        },
        Some((rect, depth, count)) => {
            let stored = match item.slots {
                Some(v) => v@,
                None => seq![],
            };
            &&& item.rect == Some(rect)
            &&& item.depth == Some(depth)
            &&& item.channel_count == Some(count)
            &&& (slots.len() == 0 <==> item.slots is None)
            &&& feid_slots_match(stored, slots, rect, depth)
            &&& feid_preview_match(item.preview, preview)
            &&& match item.rgba {
                Some(px) => {
                    &&& px.width == edge_span(rect.left, rect.right)
                    &&& px.height == edge_span(rect.top, rect.bottom)
                    &&& interleaved_ok(px.data@, stored, px.width * px.height, depth as int, convert)
                },
                None => false,
            }
        },
    }
}

impl PsdReader {
    /// Skips the padding after an item whose chunk holds `chunk_length`
    /// bytes, up to a multiple of four.
    fn skip_item_padding(&mut self, chunk_length: u64) -> (r: PsdResult<()>)
        ensures
            final(self).same_source(old(self)),
            final(self).offset - final(self).position == old(self).offset - old(self).position,
            ({
                let c = 4 - chunk_length % 4;
                if chunk_length % 4 == 0 {
                    r is Ok && *final(self) == *old(self)
                } else if old(self).offset + c > u64::MAX || old(self).position + c > u64::MAX {
                    r is Err
                } else {
                    r is Ok && final(self).position == old(self).position + c
                }
            }),
    {
        let rem = chunk_length % 4;
        if rem != 0 {
            let c = (4 - rem) as usize;
            if self.offset > u64::MAX - c as u64 {
                return Err(unsupported("Filter effects chunk runs past the offset range"));
            }
            self.skip_bytes(c)
        } else {
            Ok(())
        }
    }
}

/// Reads the head of an item (see `feid_head`); gives the id, the
/// version, the chunk's length and the offset where it ends.
fn read_feid_head(reader: &mut PsdReader) -> (r: PsdResult<(String, Option<u32>, u64, u64)>)
    requires
        old(reader).offset + 8 <= u64::MAX,
        counter_room(*old(reader), 0x100_0000_0000),
    ensures
        final(reader).same_source(old(reader)),
        final(reader).offset - final(reader).position == old(reader).offset - old(reader).position,
        match feid_head(
            old(reader).input(),
            old(reader).position as int,
            old(reader).offset - old(reader).position,
        ) {
            Some((id, version, clen, ce, q)) => r matches Ok((rid, rversion, rclen, rce)) && rid@
                == id && rversion == version && rclen == clen && rce == ce
                && final(reader).position == q,
            None => r is Err,
        },
        r is Ok ==> final(reader).position <= final(reader).input().len(),
{
    let ghost b = reader.input();
    let ghost p = reader.position as int;
    let chunk_length = read_u64_parts(reader)?;
    let chunk_start = reader.offset;
    if chunk_length > u64::MAX - chunk_start {
        return Err(unsupported("Filter effects chunk runs past the offset range"));
    }
    let chunk_end = chunk_start + chunk_length;
    let id = reader.read_pascal_string(1)?;
    proof {
        assert(padding_after(1 + b[p + 8] as int, 1) == 0);
    }
    let version = if reader.offset <= chunk_end && chunk_end - reader.offset >= 4 {
        Some(reader.read_u32()?)
    } else {
        None
    };
    if reader.offset <= chunk_end && chunk_end - reader.offset >= 4 {
        let _constant = reader.read_u32()?;
    }
    Ok((id, version, chunk_length, chunk_end))
}

/// Reads the body of an item (see `feid_body`); gives the geometry, the
/// slots and the preview.
fn read_feid_body(reader: &mut PsdReader, chunk_end: u64) -> (r: PsdResult<
    (Option<(FilterEffectsRect, u32, u32)>, Vec<FilterEffectsSlot>, Option<FilterEffectsPreview>),
>)
    requires
        old(reader).position <= old(reader).input().len(),
        counter_room(*old(reader), 0x100_0000_0000),
    ensures
        final(reader).same_source(old(reader)),
        final(reader).offset - final(reader).position == old(reader).offset - old(reader).position,
        match feid_body(
            old(reader).input(),
            old(reader).position as int,
            old(reader).offset - old(reader).position,
            chunk_end as int,
        ) {
            Some((geometry, slots, preview, e)) => r matches Ok((rg, rs, rp)) && rg == geometry
                && match geometry {
                Some((rect, depth, _)) => feid_slots_match(rs@, slots, rect, depth),
                None => rs@.len() == 0 && slots.len() == 0,
            } && feid_preview_match(rp, preview) && final(reader).position == e,
            None => r is Err,
        },
{
    if reader.offset <= chunk_end && chunk_end - reader.offset >= 24 {
        let left = reader.read_i32()?;
        let top = reader.read_i32()?;
        let right = reader.read_i32()?;
        let bottom = reader.read_i32()?;
        let rect = FilterEffectsRect { left, top, right, bottom };
        let depth = reader.read_u32()?;
        let count = reader.read_u32()?;
        if count > u32::MAX - 2 {
            return Err(unsupported("Filter effects channel count is too large"));
        }
        let slots = read_feid_slots(reader, chunk_end, count + 2, rect, depth)?;
        let preview = read_feid_preview(reader, chunk_end)?;
        Ok((Some((rect, depth, count)), slots, preview))
    } else {
        Ok((None, Vec::new(), None))
    }
}

/// Reads one item (see `feid_item` and `feid_item_match`).
fn read_feid_item<F: Fn(u32) -> u8>(reader: &mut PsdReader, float_to_byte: &F) -> (r: PsdResult<
    FilterEffectsItem,
>)
    requires
        old(reader).offset + 8 <= u64::MAX,
        counter_room(*old(reader), 0x100_0000_0000),
        forall|bits: u32| call_requires(*float_to_byte, (bits,)),
    ensures
        final(reader).same_source(old(reader)),
        final(reader).offset - final(reader).position == old(reader).offset - old(reader).position,
        match feid_item(
            old(reader).input(),
            old(reader).position as int,
            old(reader).offset - old(reader).position,
        ) {
            Some((found, e)) => r matches Ok(item) && feid_item_match(item, found, *float_to_byte)
                && final(reader).position == e,
            None => r is Err,
        },
{
    let (id, version, chunk_length, chunk_end) = read_feid_head(reader)?;
    let (geometry, slots, preview) = read_feid_body(reader, chunk_end)?;
    reader.skip_to_offset(chunk_end)?;
    reader.skip_item_padding(chunk_length)?;
    match geometry {
        Some((rect, depth, count)) => {
            if !(rect.right as i64 - rect.left as i64 <= i32::MAX as i64 && rect.right as i64
                - rect.left as i64 >= i32::MIN as i64 && rect.bottom as i64 - rect.top as i64
                <= i32::MAX as i64 && rect.bottom as i64 - rect.top as i64 >= i32::MIN as i64) {
                return Err(unsupported("Filter effects rectangle is too large"));
            }
            let width = span_of(rect.left, rect.right);
            let height = span_of(rect.top, rect.bottom);
            let limit: usize = (usize::MAX - 4) / 4;
            if width > 0 && height > limit / width {
                proof {
                    assert(4 * width * height + 4 > usize::MAX) by (nonlinear_arith)
                        requires
                            width > 0,
                            height > limit / width,
                            limit == (usize::MAX - 4) / 4,
                    ;
                }
                return Err(unsupported("Filter effects buffer is too large"));
            }
            proof {
                assert(4 * width * height + 4 <= usize::MAX) by (nonlinear_arith)
                    requires
                        width == 0 || height <= limit / width,
                        limit == (usize::MAX - 4) / 4,
                ;
            }
            let rgba = interleave_feid_buffer(rect, slots.as_slice(), depth as usize, float_to_byte);
            assert(slots.len() == 0 ==> slots@ =~= Seq::<FilterEffectsSlot>::empty());
            let stored = if slots.len() == 0 {
                None
            } else {
                Some(slots)
            };
            Ok(
                FilterEffectsItem {
                    id,
                    version,
                    rect: Some(rect),
                    depth: Some(depth),
                    channel_count: Some(count),
                    slots: stored,
                    preview,
                    rgba: Some(rgba),
                },
            )
        },
        None => Ok(
            FilterEffectsItem {
                id,
                version,
                rect: None,
                depth: None,
                channel_count: None,
                slots: None,
                preview: None,
                rgba: None,
            },
        ),
    }
}

/// Reading slots never moves back.
proof fn lemma_slots_advance(
    b: Seq<u8>,
    p: int,
    d: int,
    ce: int,
    k: int,
    n: int,
    rect: FilterEffectsRect,
    depth: u32,
)
    ensures
        feid_slots_from(b, p, d, ce, k, n, rect, depth) matches Some((_, e)) ==> p <= e,
    decreases n - k,
{
    if !(k >= n || p + d + 4 > ce) && p + 4 <= b.len() {
        let p1 = p + 4;
        if read32(b, p) != 0 && p1 + d + 8 <= ce {
            if p1 + 8 <= b.len() {
                let slen = read64(b, p1);
                let p2 = p1 + 8;
                if slen <= room_before(p2 + d, ce) {
                    lemma_slots_advance(b, p2 + slen, d, ce, k + 1, n, rect, depth);
                } else {
                    lemma_slots_advance(b, p2, d, ce, k + 1, n, rect, depth);
                }
            }
        } else {
            lemma_slots_advance(b, p1, d, ce, k + 1, n, rect, depth);
        }
    }
}

/// Reading an item moves past its chunk length and the length byte of its id.
proof fn lemma_item_advances(b: Seq<u8>, p: int, d: int)
    ensures
        feid_item(b, p, d) matches Some((_, e)) ==> p + 9 <= e,
{
    if let Some((id, version, clen, ce, q2)) = feid_head(b, p, d) {
        if q2 + d + 24 <= ce && q2 + 24 <= b.len() {
            let count = read32(b, q2 + 20);
            lemma_slots_advance(b, q2 + 24, d, ce, 0, count + 2, rect_at(b, q2), read32(b, q2 + 16));
        }
    }
}

/// The items of a block from `p` on, while its end offset `end` lies
/// ahead (see `feid_item`): what each stores, and where reading ends.
pub open spec fn feid_items_from(b: Seq<u8>, p: int, d: int, end: int) -> Option<
    (Seq<FeidItemSpec>, int),
>
    decreases end - p - d,
{
    if p + d >= end {
        Some((seq![], p))
    } else {
        match feid_item(b, p, d) {
            None => None,
            Some((item, e)) => if e <= p {
                None
            } else if e + d >= end {
                Some((seq![item], e))
            } else {
                match feid_items_from(b, e, d, end) {
                    Some((rest, f)) => Some((seq![item] + rest, f)),
                    None => None,
                }
            },
        }
    }
}

/// Reads filter effects (FEid) of `length` bytes: a version, then items
/// while the block's end lies ahead (see `feid_items_from` and
/// `feid_item_match`).  32-bit samples become bytes through
/// `float_to_byte`, applied to their bits.
pub fn read_filter_effects<F: Fn(u32) -> u8>(
    reader: &mut PsdReader,
    length: usize,
    float_to_byte: &F,
) -> (r: PsdResult<FilterEffectsBlock>)
    requires
        old(reader).has_headroom(0x100_0000_0000),
        forall|bits: u32| call_requires(*float_to_byte, (bits,)),
    ensures
        final(reader).same_source(old(reader)),
        ({
            let b = old(reader).input();
            let p = old(reader).position as int;
            let d = old(reader).offset - old(reader).position;
            let end = old(reader).offset + length;
            if end > u64::MAX || p + 4 > b.len() {
                r is Err
            } else {
                match feid_items_from(b, p + 4, d, end) {
                    Some((found, e)) => r matches Ok(block) && block.version == read32(b, p)
                        && block.items@.len() == found.len() && (forall|i: int|
                        0 <= i < found.len() ==> feid_item_match(
                            #[trigger] block.items@[i],
                            found[i],
                            *float_to_byte,
                        )) && final(reader).position == e,
                    None => r is Err,
                }
            }
        }),
{
    let ghost b = reader.input();
    let ghost d = reader.offset - reader.position;
    let ghost s0 = *reader;
    let start = reader.offset;
    if length as u64 > u64::MAX - start {
        return Err(unsupported("Filter effects block runs past the offset range"));
    }
    let block_end = start + length as u64;
    let version = reader.read_u32()?;
    let ghost target = feid_items_from(b, reader.position as int, d, block_end as int);
    let ghost mut found: Seq<FeidItemSpec> = seq![];
    let mut items: Vec<FilterEffectsItem> = Vec::new();
    assert(found + seq![] =~= found);
    while reader.offset < block_end
        invariant
            s0.same_source(reader),
            s0 == *old(reader),
            b == s0.input(),
            d == reader.offset - reader.position,
            d == s0.offset - s0.position,
            counter_room(s0, 0x100_0000_0000),
            forall|bits: u32| call_requires(*float_to_byte, (bits,)),
            block_end == s0.offset + length,
            target == feid_items_from(b, s0.position + 4, d, block_end as int),
            target matches Some((tf, te)) ==> (feid_items_from(
                b,
                reader.position as int,
                d,
                block_end as int,
            ) matches Some((rf, re)) && tf == found + rf && te == re),
            target is None ==> feid_items_from(b, reader.position as int, d, block_end as int)
                is None,
            items@.len() == found.len(),
            forall|i: int|
                0 <= i < found.len() ==> feid_item_match(
                    #[trigger] items@[i],
                    found[i],
                    *float_to_byte,
                ),
        ensures
            feid_items_from(b, reader.position as int, d, block_end as int) == Some(
                (Seq::<FeidItemSpec>::empty(), reader.position as int),
            ),
        decreases block_end - reader.offset,
    {
        let ghost p = reader.position as int;
        let ghost prev = items@;
        if reader.offset > u64::MAX - 8 {
            return Err(io_error("failed to fill whole buffer"));
        }
        let item = read_feid_item(reader, float_to_byte)?;
        proof {
            lemma_item_advances(b, p, d);
            let spec_item = feid_item(b, p, d)->0;
            let old_found = found;
            found = found.push(spec_item.0);
            if reader.position + d >= block_end {
                assert(old_found + seq![spec_item.0] =~= found);
                assert(found + Seq::<FeidItemSpec>::empty() =~= found);
            } else if let Some((rest, f)) = feid_items_from(b, reader.position as int, d, block_end as int) {
                assert(old_found + (seq![spec_item.0] + rest) =~= found + rest);
            }
        }
        items.push(item);
        proof {
            assert forall|i: int| 0 <= i < found.len() implies feid_item_match(
                #[trigger] items@[i],
                found[i],
                *float_to_byte,
            ) by {
                if i < found.len() - 1 {
                    assert(items@[i] == prev[i]);
                }
            }
        }
        if reader.offset >= block_end {
            break;
        }
    }
    proof {
        assert(found + Seq::<FeidItemSpec>::empty() =~= found);
    }
    Ok(FilterEffectsBlock { version, items })
}

/// The index of the last slot numbered `id`; -1 where there is none.
pub open spec fn last_slot_index(slots: Seq<FilterEffectsSlot>, id: u32) -> int
    decreases slots.len(),
{
    if slots.len() == 0 {
        -1
    } else if slots.last().slot == id {
        slots.len() - 1
    } else {
        last_slot_index(slots.drop_last(), id)
    }
}

/// A written slot: present, a 64-bit length counting two compression
/// bytes, raw compression, then the samples.
pub open spec fn slot_record_bytes(data: Seq<u8>) -> Seq<u8> {
    be32(1) + be32(0) + be32((2 + (data.len() as u32)) as u32) + be16(0) + data
}

/// The written slot records for slot numbers `0..n`: for each number the
/// last slot carrying it, or an absent record.
pub open spec fn slot_records_bytes(slots: Seq<FilterEffectsSlot>, n: int) -> Seq<u8>
    decreases n,
{
    if n <= 0 {
        seq![]
    } else {
        let j = last_slot_index(slots, (n - 1) as u32);
        slot_records_bytes(slots, n - 1) + if j >= 0 {
            slot_record_bytes(slots[j].channel_data.data@)
        } else {
            be32(0)
        }
    }
}

/// Whether every slot's samples leave room for the two compression bytes
/// in a 32-bit length.
pub open spec fn slot_lengths_fit(slots: Seq<FilterEffectsSlot>) -> bool {
    forall|k: int|
        0 <= k < slots.len() ==> (#[trigger] slots[k]).channel_data.data@.len() as u32 + 2
            <= u32::MAX
}

/// A written item: its id as a Pascal string, its version (1 when
/// absent), 8 with a rectangle and 0 without; with a rectangle, the
/// rectangle, the depth (8 when absent) and the channel count (24 when
/// absent); without one, the depth when present.  Then the slot records
/// for numbers `0..count + 2`, and the preview (a flag, its rectangle, a
/// 64-bit length and its bytes), or a clear flag with a rectangle.
pub open spec fn feid_item_bytes(item: FilterEffectsItem) -> Seq<u8> {
    feid_head_bytes(item) + feid_slot_part(item) + feid_preview_part(item)
}

/// The slot count that a written item announces: its own, or 24.
pub open spec fn written_count(item: FilterEffectsItem) -> u32 {
    match item.channel_count {
        Some(c) => c,
        None => 24,
    }
}

/// The head of a written item: id, version, flag, and with a rectangle
/// the rectangle, depth and count (see `feid_item_bytes`).
pub open spec fn feid_head_bytes(item: FilterEffectsItem) -> Seq<u8> {
    pascal_bytes(vstd::utf8::encode_utf8(item.id@), 1) + be32(
        match item.version {
            Some(v) => v,
            None => 1,
        },
    ) + be32(
        if item.rect is Some {
            8
        } else {
            0
        },
    ) + match item.rect {
        Some(r) => rect_bytes(r),
        None => seq![],
    } + match item.depth {
        Some(dp) => be32(dp),
        None => if item.rect is Some {
            be32(8)
        } else {
            seq![]
        },
    } + if item.rect is Some {
        be32(written_count(item))
    } else {
        seq![]
    }
}

/// The slot records of a written item.
pub open spec fn feid_slot_part(item: FilterEffectsItem) -> Seq<u8> {
    match item.slots {
        Some(v) => slot_records_bytes(v@, written_count(item) + 2),
        None => seq![],
    }
}

/// The preview part of a written item.
pub open spec fn feid_preview_part(item: FilterEffectsItem) -> Seq<u8> {
    match item.preview {
        Some(pv) => seq![1u8] + rect_bytes(pv.rect) + be32(0) + be32(
            pv.channel_data.data@.len() as u32,
        ) + pv.channel_data.data@,
        None => if item.rect is Some {
            seq![0u8]
        } else {
            seq![]
        },
    }
}

/// Whether `item` can be written without an arithmetic overflow: its
/// slot count and slot lengths fit in 32 bits.
pub open spec fn feid_item_writable(item: FilterEffectsItem) -> bool {
    match item.slots {
        Some(v) => {
            &&& (match item.channel_count {
                Some(c) => c,
                None => 24u32,
            }) + 2 <= u32::MAX
            &&& slot_lengths_fit(v@)
        },
        None => true,
    }
}

impl PsdWriter {
    /// Writes the slot records for slot numbers `0..n` (see
    /// `slot_records_bytes`).
    fn write_feid_slots(&mut self, slots: &Vec<FilterEffectsSlot>, n: u32) -> (r: PsdResult<()>)
        requires
            slot_lengths_fit(slots@),
            old(self).offset + slot_records_bytes(slots@, n as int).len() + 64 <= usize::MAX,
        ensures
            r is Ok,
            old(self).appended(final(self), slot_records_bytes(slots@, n as int)),
    {
        self.ensure_capacity(0);
        let ghost start = self.written();
        let mut k: u32 = 0;
        proof {
            lemma_records_prefix(slots@, n as int, n as int);
        }
        while k < n
            invariant
                k <= n,
                slot_lengths_fit(slots@),
                old(self).offset + slot_records_bytes(slots@, n as int).len() + 64 <= usize::MAX,
                old(self).appended(self, slot_records_bytes(slots@, k as int)),
                start == old(self).written(),
            decreases n - k,
        {
            proof {
                lemma_records_prefix(slots@, k + 1, n as int);
            }
            let mut j: usize = slots.len();
            let mut found = false;
            while j > 0 && !found
                invariant
                    j <= slots@.len(),
                    found ==> j < slots@.len() && slots@[j as int].slot == k
                        && j == last_slot_index(slots@, k),
                    !found ==> forall|t: int| j <= t < slots@.len() ==> (#[trigger] slots@[t]).slot != k,
                decreases j + (if found { 0int } else { 1int }),
            {
                if slots[j - 1].slot == k {
                    j = j - 1;
                    found = true;
                    proof {
                        lemma_last_index_is(slots@, k, j as int);
                    }
                } else {
                    j = j - 1;
                }
            }
            proof {
                if !found {
                    lemma_last_index_none(slots@, k);
                }
            }
            let ghost before = self.written();
            if found {
                let data = &slots[j].channel_data.data;
                assert(data@.len() as u32 + 2 <= u32::MAX);
                self.write_u32(1)?;
                self.write_u32(0)?;
                self.write_u32(2 + data.len() as u32)?;
                self.write_u16(0)?;
                self.write_bytes(data.as_slice())?;
                assert(self.written() =~= before + slot_record_bytes(data@));
            } else {
                self.write_u32(0)?;
            }
            assert(self.written() =~= start + slot_records_bytes(slots@, k + 1));
            k = k + 1;
        }
        Ok(())
    }
}

/// The last slot numbered `id` is at `j` when it carries that number and
/// no later slot does.
proof fn lemma_last_index_is(slots: Seq<FilterEffectsSlot>, id: u32, j: int)
    requires
        0 <= j < slots.len(),
        slots[j].slot == id,
        forall|t: int| j < t < slots.len() ==> (#[trigger] slots[t]).slot != id,
    ensures
        last_slot_index(slots, id) == j,
    decreases slots.len(),
{
    if j < slots.len() - 1 {
        assert forall|t: int| j < t < slots.len() - 1 implies (#[trigger] slots.drop_last()[t]).slot != id by {
            assert(slots.drop_last()[t] == slots[t]);
        }
        lemma_last_index_is(slots.drop_last(), id, j);
    }
}

/// No slot numbered `id` means no last one.
proof fn lemma_last_index_none(slots: Seq<FilterEffectsSlot>, id: u32)
    requires
        forall|t: int| 0 <= t < slots.len() ==> (#[trigger] slots[t]).slot != id,
    ensures
        last_slot_index(slots, id) == -1,
    decreases slots.len(),
{
    if slots.len() > 0 {
        assert forall|t: int| 0 <= t < slots.len() - 1 implies (#[trigger] slots.drop_last()[t]).slot != id by {
            assert(slots.drop_last()[t] == slots[t]);
        }
        lemma_last_index_none(slots.drop_last(), id);
    }
}

/// The records for fewer slot numbers take no more bytes.
proof fn lemma_records_prefix(slots: Seq<FilterEffectsSlot>, k: int, n: int)
    requires
        0 <= k <= n,
    ensures
        slot_records_bytes(slots, k).len() <= slot_records_bytes(slots, n).len(),
    decreases n - k,
{
    if k < n {
        lemma_records_prefix(slots, k + 1, n);
    }
}

impl PsdWriter {
    /// Writes the head of an item (see `feid_head_bytes`); an id longer
    /// than 255 bytes is refused.
    fn write_feid_head(&mut self, item: &FilterEffectsItem) -> (r: PsdResult<()>)
        requires
            old(self).offset + feid_head_bytes(*item).len() + 512 <= usize::MAX,
        ensures
            r is Ok <==> vstd::utf8::encode_utf8(item.id@).len() <= 255,
            r is Ok ==> old(self).appended(final(self), feid_head_bytes(*item)),
    {
        let ghost start = self.written();
        let id = item.id.as_str();
        match self.write_pascal_string(id, 1) {
            Ok(()) => {},
            Err(e) => {
                return Err(e);
            },
        }
        let version = match item.version {
            Some(v) => v,
            None => 1,
        };
        self.write_u32(version)?;
        let has_rect = item.rect.is_some();
        self.write_u32(if has_rect { 8 } else { 0 })?;
        if let Some(rect) = &item.rect {
            self.write_rect(rect)?;
        }
        match item.depth {
            Some(dp) => {
                self.write_u32(dp)?;
            },
            None => {
                if has_rect {
                    self.write_u32(8)?;
                }
            },
        }
        let count = match item.channel_count {
            Some(c) => c,
            None => 24,
        };
        if has_rect {
            self.write_u32(count)?;
        }
        assert(self.written() =~= start + feid_head_bytes(*item));
        Ok(())
    }

    /// Writes the preview part of an item (see `feid_preview_part`).
    fn write_feid_preview(&mut self, item: &FilterEffectsItem) -> (r: PsdResult<()>)
        requires
            old(self).offset + feid_preview_part(*item).len() + 64 <= usize::MAX,
        ensures
            r is Ok,
            old(self).appended(final(self), feid_preview_part(*item)),
    {
        self.ensure_capacity(0);
        let ghost start = self.written();
        match &item.preview {
            Some(preview) => {
                self.write_u8(1)?;
                self.write_rect(&preview.rect)?;
                self.write_u32(0)?;
                self.write_u32(preview.channel_data.data.len() as u32)?;
                self.write_bytes(preview.channel_data.data.as_slice())?;
            },
            None => {
                if item.rect.is_some() {
                    self.write_u8(0)?;
                }
            },
        }
        assert(self.written() =~= start + feid_preview_part(*item));
        Ok(())
    }

    /// Writes one item (see `feid_item_bytes`); an id longer than 255
    /// bytes is refused.
    fn write_feid_item(&mut self, item: &FilterEffectsItem) -> (r: PsdResult<()>)
        requires
            feid_item_writable(*item),
            old(self).offset + feid_item_bytes(*item).len() + 512 <= usize::MAX,
        ensures
            r is Ok <==> vstd::utf8::encode_utf8(item.id@).len() <= 255,
            r is Ok ==> old(self).appended(final(self), feid_item_bytes(*item)),
    {
        let ghost start = self.written();
        match self.write_feid_head(item) {
            Ok(()) => {},
            Err(e) => {
                return Err(e);
            },
        }
        let count = match item.channel_count {
            Some(c) => c,
            None => 24,
        };
        if let Some(slots) = &item.slots {
            self.write_feid_slots(slots, count + 2)?;
        }
        self.write_feid_preview(item)?;
        assert(self.written() =~= start + feid_item_bytes(*item));
        Ok(())
    }

    /// Writes one item framed in its block (see `framed_feid_item`); an id
    /// longer than 255 bytes is refused.
    fn write_framed_feid_item(&mut self, item: &FilterEffectsItem) -> (r: PsdResult<()>)
        requires
            feid_item_writable(*item),
            old(self).offset + framed_feid_item(*item).len() + 512 <= usize::MAX,
        ensures
            r is Ok <==> vstd::utf8::encode_utf8(item.id@).len() <= 255,
            r is Ok ==> old(self).appended(final(self), framed_feid_item(*item)),
    {
        let mut item_writer = PsdWriter::new(512);
        assert(item_writer.written().len() == 0);
        match item_writer.write_feid_item(item) {
            Ok(()) => {},
            Err(e) => {
                return Err(e);
            },
        }
        let bytes = item_writer.into_buffer();
        let ghost mid = self.written();
        self.write_u32(0)?;
        self.write_u32(bytes.len() as u32)?;
        self.write_bytes(bytes.as_slice())?;
        let remainder = bytes.len() % 4;
        if remainder != 0 {
            self.write_zeros(4 - remainder)?;
        } else {
            assert(zeros(padding_after(bytes@.len() as int, 4)) =~= Seq::<u8>::empty());
        }
        assert(self.written() =~= mid + framed_feid_item(*item));
        Ok(())
    }
}

/// A written item in its block: a 64-bit length, the item, and zeros up to
/// a multiple of four bytes.
pub open spec fn framed_feid_item(item: FilterEffectsItem) -> Seq<u8> {
    let bytes = feid_item_bytes(item);
    be32(0) + be32(bytes.len() as u32) + bytes + zeros(padding_after(bytes.len() as int, 4))
}

/// The written items of a block, in order.
pub open spec fn feid_items_bytes(items: Seq<FilterEffectsItem>) -> Seq<u8>
    decreases items.len(),
{
    if items.len() == 0 {
        seq![]
    } else {
        feid_items_bytes(items.drop_last()) + framed_feid_item(items.last())
    }
}

/// A written block: its version, then the items.
pub open spec fn feid_block_bytes(block: FilterEffectsBlock) -> Seq<u8> {
    be32(block.version) + feid_items_bytes(block.items@)
}

/// Whether every item of `items` can be written.
pub open spec fn feid_items_writable(items: Seq<FilterEffectsItem>) -> bool {
    forall|k: int| 0 <= k < items.len() ==> feid_item_writable(#[trigger] items[k])
}

/// Whether every item's id fits a Pascal string.
pub open spec fn feid_ids_fit(items: Seq<FilterEffectsItem>) -> bool {
    forall|k: int| 0 <= k < items.len() ==> vstd::utf8::encode_utf8((#[trigger] items[k]).id@).len() <= 255
}

/// The items before `k` take no more bytes than all of them.
proof fn lemma_items_prefix(items: Seq<FilterEffectsItem>, k: int)
    requires
        0 <= k <= items.len(),
    ensures
        feid_items_bytes(items.take(k)).len() <= feid_items_bytes(items).len(),
        k > 0 ==> feid_items_bytes(items.take(k - 1)).len() + framed_feid_item(items[k - 1]).len()
            == feid_items_bytes(items.take(k)).len(),
    decreases items.len() - k,
{
    if k > 0 {
        assert(items.take(k).drop_last() =~= items.take(k - 1));
    }
    if k < items.len() {
        lemma_items_prefix(items, k + 1);
        assert(items.take(k + 1).drop_last() =~= items.take(k));
    } else {
        assert(items.take(k) =~= items);
    }
}

impl PsdWriter {
    /// Writes filter effects (FEid) (see `feid_block_bytes`); an item whose
    /// id is longer than 255 bytes is refused.
    #[verifier::rlimit(60)]
    pub fn write_filter_effects(&mut self, block: &FilterEffectsBlock) -> (r: PsdResult<()>)
        requires
            feid_items_writable(block.items@),
            old(self).offset + feid_block_bytes(*block).len() + 512 <= usize::MAX,
        ensures
            r is Ok <==> feid_ids_fit(block.items@),
            r is Ok ==> old(self).appended(final(self), feid_block_bytes(*block)),
    {
        self.ensure_capacity(0);
        let ghost start = self.written();
        let ghost all = block.items@;
        self.write_u32(block.version)?;
        let mut k: usize = 0;
        proof {
            assert(all.take(0) =~= Seq::<FilterEffectsItem>::empty());
            lemma_items_prefix(all, all.len() as int);
        }
        while k < block.items.len()
            invariant
                k <= all.len(),
                all == block.items@,
                feid_items_writable(all),
                old(self).offset + feid_block_bytes(*block).len() + 512 <= usize::MAX,
                old(self).appended(self, be32(block.version) + feid_items_bytes(all.take(k as int))),
                forall|i: int| 0 <= i < k ==> vstd::utf8::encode_utf8((#[trigger] all[i]).id@).len() <= 255,
                start == old(self).written(),
            decreases all.len() - k,
        {
            proof {
                assert(all.take(k + 1).drop_last() =~= all.take(k as int));
                lemma_items_prefix(all, k + 1);
                assert(feid_item_writable(all[k as int]));
            }
            let ghost mid = self.written();
            match self.write_framed_feid_item(&block.items[k]) {
                Ok(()) => {},
                Err(e) => {
                    return Err(e);
                },
            }
            assert(self.written() =~= mid + framed_feid_item(all[k as int]));
            assert(self.written() =~= start + (be32(block.version) + feid_items_bytes(all.take(k + 1))));
            k = k + 1;
        }
        assert(all.take(all.len() as int) =~= all);
        Ok(())
    }
}

} // verus!

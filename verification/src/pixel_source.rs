//! Pixel source data (the `PxSD` tagged block): items keyed by a number,
//! each listing images with the rectangle of their first channel.
//!
//! Lengths are 64-bit, stored as two big-endian halves.  Positions in the
//! specifications are stream positions; `d` is how far the reader's offset
//! counter stands from the position, since the stored lengths are measured
//! against that counter.

use crate::additional_info::{
    read_u64_parts, FilterEffectsRect, PixelSourceDataBlock, PixelSourceDataImage,
    PixelSourceDataItem,
};
use crate::bytes::{be32, i32_bits, read32, u32_as_i32};
use crate::io::writer::PsdWriter;
use crate::error::{unsupported, PsdResult};
use crate::reader::PsdReader;
use vstd::prelude::*;

verus! {

/// The 64-bit value stored at `p` as two big-endian halves.
pub open spec fn read64(b: Seq<u8>, p: int) -> int {
    read32(b, p) * 0x1_0000_0000 + read32(b, p + 4)
}

/// The rectangle stored at `p`: left, top, right, bottom.
pub open spec fn rect_at(b: Seq<u8>, p: int) -> FilterEffectsRect {
    FilterEffectsRect {
        left: u32_as_i32(read32(b, p)),
        top: u32_as_i32(read32(b, p + 4)),
        right: u32_as_i32(read32(b, p + 8)),
        bottom: u32_as_i32(read32(b, p + 12)),
    }
}

/// Where a reader at position `p` (offset `p + d`) stands after moving on
/// to offset `target`, if it lies ahead; `None` where the distance is too
/// large to skip.
pub open spec fn skip_to(p: int, d: int, target: int) -> Option<int> {
    let c = if target > p + d {
        target - (p + d)
    } else {
        0
    };
    if c > i64::MAX || c > usize::MAX || p + c > u64::MAX {
        None
    } else {
        Some(p + c)
    }
}

/// Whether the offset counter of a reader at a position within its input
/// keeps `extra` below `u64::MAX`.
pub open spec fn counter_room(r: PsdReader, extra: int) -> bool {
    &&& r.offset - r.position + r.input().len() + extra <= u64::MAX
    &&& r.input().len() + extra <= u64::MAX
}

impl PsdReader {
    /// Moves on to offset `target` when it lies ahead (see `skip_to`).
    pub fn skip_to_offset(&mut self, target: u64) -> (r: PsdResult<()>)
        ensures
            final(self).same_source(old(self)),
            final(self).offset - final(self).position == old(self).offset - old(self).position,
            match skip_to(
                old(self).position as int,
                old(self).offset - old(self).position,
                target as int,
            ) {
                Some(q) => r is Ok && final(self).position == q,
                None => r is Err,
            },
    {
        if target > self.offset {
            let count = target - self.offset;
            if count > i64::MAX as u64 || count > usize::MAX as u64 {
                return Err(unsupported("Skip distance is too large"));
            }
            self.skip_bytes(count as usize)
        } else {
            Ok(())
        }
    }
}

/// One image record whose 64-bit length `ilen` has been read, from `s`
/// on: its index, what it skips, and, when the record has room for a
/// channel entry, the rectangle of the first channel.  The image ends at
/// `s + ilen` counted on the offset, or where its fixed part ends if
/// that is later.  The result is the index, the rectangle and where
/// reading ends.
pub open spec fn pxsd_image(b: Seq<u8>, s: int, d: int, ilen: int) -> Option<
    (u32, Option<FilterEffectsRect>, int),
> {
    let ie = s + d + ilen;
    let has_rect = s + d + 48 <= ie;
    let q = if has_rect {
        s + 48
    } else {
        s + 20
    };
    let pl = read32(b, s + 44) as int;
    let q1 = if has_rect && pl > 0 && q + d + pl <= ie {
        q + pl
    } else {
        q
    };
    if ie > u64::MAX || s + 20 > b.len() || (has_rect && s + 48 > b.len()) {
        None
    } else {
        match skip_to(q1, d, ie) {
            Some(e) => Some(
                (
                    read32(b, s),
                    if has_rect {
                        Some(rect_at(b, s + 24))
                    } else {
                        None
                    },
                    e,
                ),
            ),
            None => None,
        }
    }
}

/// Reads an image record whose length `img_length` has just been read
/// (see `pxsd_image`).
#[verifier::rlimit(40)]
fn read_pxsd_image(reader: &mut PsdReader, img_length: u64) -> (r: PsdResult<PixelSourceDataImage>)
    requires
        old(reader).position <= old(reader).input().len(),
        counter_room(*old(reader), 0x100_0000_0000),
    ensures
        final(reader).same_source(old(reader)),
        final(reader).offset - final(reader).position == old(reader).offset - old(reader).position,
        match pxsd_image(
            old(reader).input(),
            old(reader).position as int,
            old(reader).offset - old(reader).position,
            img_length as int,
        ) {
            Some((index, rect, e)) => r matches Ok(img) && img.index == index && img.rect == rect
                && img.rgba is None && final(reader).position == e,
            None => r is Err,
        },
{
    let ghost b = reader.input();
    let ghost s = reader.position as int;
    let ghost d = reader.offset - reader.position;
    let img_start = reader.offset;
    if img_length > u64::MAX - img_start {
        return Err(unsupported("Image length runs past the offset range"));
    }
    let img_end = img_start + img_length;
    let index = reader.read_u32()?;
    let _top = reader.read_i32()?;
    let _left = reader.read_i32()?;
    let _a = reader.read_u32()?;
    let _b = reader.read_u32()?;
    let mut rect: Option<FilterEffectsRect> = None;
    if reader.offset <= img_end && img_end - reader.offset >= 28 {
        let _c = reader.read_u32()?;
        let left = reader.read_i32()?;
        let top = reader.read_i32()?;
        let right = reader.read_i32()?;
        let bottom = reader.read_i32()?;
        rect = Some(FilterEffectsRect { left, top, right, bottom });
        let _e = reader.read_u32()?;
        let payload_len = reader.read_u32()? as usize;
        if payload_len > 0 && reader.offset <= img_end && img_end - reader.offset >= payload_len as u64 {
            reader.skip_bytes(payload_len)?;
        }
    }
    reader.skip_to_offset(img_end)?;
    Ok(PixelSourceDataImage { index, rect, rgba: None })
}

/// The image records of an item from `p` on, the `k`-th of `n`, in a
/// chunk ending at offset `ce`: reading stops at the count, where fewer
/// than eight bytes of the chunk are left, or at a zero length.  The
/// result is each image's index and rectangle, and where reading ends.
pub open spec fn pxsd_images_from(b: Seq<u8>, p: int, d: int, ce: int, k: int, n: int) -> Option<
    (Seq<(u32, Option<FilterEffectsRect>)>, int),
>
    decreases n - k,
{
    if k >= n || p + d + 8 > ce {
        Some((seq![], p))
    } else if p + 8 > b.len() {
        None
    } else if read64(b, p) == 0 {
        Some((seq![], p + 8))
    } else {
        match pxsd_image(b, p + 8, d, read64(b, p)) {
            None => None,
            Some((index, rect, e)) => match pxsd_images_from(b, e, d, ce, k + 1, n) {
                Some((rest, f)) => Some((seq![(index, rect)] + rest, f)),
                None => None,
            },
        }
    }
}

/// Whether `images` holds the images described by `found`, none of them
/// with pixels.
pub open spec fn pxsd_images_match(
    images: Seq<PixelSourceDataImage>,
    found: Seq<(u32, Option<FilterEffectsRect>)>,
) -> bool {
    &&& images.len() == found.len()
    &&& forall|i: int|
        0 <= i < found.len() ==> (#[trigger] images[i]).index == found[i].0 && images[i].rect
            == found[i].1 && images[i].rgba is None
}

/// Reads the image records of an item (see `pxsd_images_from`).
fn read_pxsd_images(reader: &mut PsdReader, chunk_end: u64, count: u32) -> (r: PsdResult<
    Vec<PixelSourceDataImage>,
>)
    requires
        old(reader).position <= old(reader).input().len(),
        counter_room(*old(reader), 0x100_0000_0000),
    ensures
        final(reader).same_source(old(reader)),
        final(reader).offset - final(reader).position == old(reader).offset - old(reader).position,
        match pxsd_images_from(
            old(reader).input(),
            old(reader).position as int,
            old(reader).offset - old(reader).position,
            chunk_end as int,
            0,
            count as int,
        ) {
            Some((found, e)) => r matches Ok(images) && pxsd_images_match(images@, found)
                && final(reader).position == e,
            None => r is Err,
        },
{
    let ghost b = reader.input();
    let ghost d = reader.offset - reader.position;
    let ghost s0 = *reader;
    let ghost target = pxsd_images_from(b, reader.position as int, d, chunk_end as int, 0, count as int);
    let ghost mut found: Seq<(u32, Option<FilterEffectsRect>)> = seq![];
    let mut images: Vec<PixelSourceDataImage> = Vec::new();
    let mut k: u32 = 0;
    assert(found + seq![] =~= found);
    while k < count
        invariant
            k <= count,
            s0.same_source(reader),
            s0 == *old(reader),
            b == s0.input(),
            d == reader.offset - reader.position,
            d == s0.offset - s0.position,
            counter_room(s0, 0x100_0000_0000),
            target == pxsd_images_from(b, s0.position as int, d, chunk_end as int, 0, count as int),
            target matches Some((tf, te)) ==> (pxsd_images_from(
                b,
                reader.position as int,
                d,
                chunk_end as int,
                k as int,
                count as int,
            ) matches Some((rf, re)) && tf == found + rf && te == re),
            target is None ==> pxsd_images_from(
                b,
                reader.position as int,
                d,
                chunk_end as int,
                k as int,
                count as int,
            ) is None,
            pxsd_images_match(images@, found),
        ensures
            pxsd_images_from(b, reader.position as int, d, chunk_end as int, k as int, count as int)
                == Some((Seq::<(u32, Option<FilterEffectsRect>)>::empty(), reader.position as int)),
        decreases count - k,
    {
        if reader.offset > chunk_end || chunk_end - reader.offset < 8 {
            break;
        }
        let ghost p = reader.position as int;
        let img_length = match read_u64_parts(reader) {
            Ok(v) => v,
            Err(e) => {
                return Err(e);
            },
        };
        if img_length == 0 {
            proof {
                assert(found + Seq::<(u32, Option<FilterEffectsRect>)>::empty() =~= found);
            }
            return Ok(images);
        }
        let image = read_pxsd_image(reader, img_length)?;
        proof {
            let old_found = found;
            found = found.push((image.index, image.rect));
            if let Some((rest, f)) = pxsd_images_from(b, reader.position as int, d, chunk_end as int, k + 1, count as int) {
                assert(old_found + (seq![(image.index, image.rect)] + rest) =~= found + rest);
            }
        }
        images.push(image);
        k = k + 1;
    }
    proof {
        assert(found + Seq::<(u32, Option<FilterEffectsRect>)>::empty() =~= found);
    }
    Ok(images)
}

/// The item whose 64-bit chunk length stands at `p`: a key, a kind, and
/// for kind 2 with room in the chunk, four words whose last counts the
/// image records.  Reading ends at the end of the chunk, or where the
/// records end if that is later.  The result is the key, the images and
/// where reading ends.
pub open spec fn pxsd_item(b: Seq<u8>, p: int, d: int) -> Option<
    (u32, Seq<(u32, Option<FilterEffectsRect>)>, int),
> {
    let cs = p + 8;
    let ce = cs + d + read64(b, p);
    let q = cs + 8;
    if p + 8 > b.len() || ce > u64::MAX || cs + 8 > b.len() {
        None
    } else {
        let images = if read32(b, cs + 4) == 2 && q + d + 12 <= ce {
            if q + 16 > b.len() {
                None
            } else {
                pxsd_images_from(b, q + 16, d, ce, 0, read32(b, q + 12) as int)
            }
        } else {
            Some((seq![], q))
        };
        match images {
            None => None,
            Some((found, e)) => match skip_to(e, d, ce) {
                None => None,
                Some(f) => Some((read32(b, cs), found, f)),
            },
        }
    }
}

/// Reading image records never moves back.
proof fn lemma_images_advance(b: Seq<u8>, p: int, d: int, ce: int, k: int, n: int)
    ensures
        pxsd_images_from(b, p, d, ce, k, n) matches Some((_, e)) ==> p <= e,
    decreases n - k,
{
    if !(k >= n || p + d + 8 > ce) && p + 8 <= b.len() && read64(b, p) != 0 {
        if let Some((_, _, e1)) = pxsd_image(b, p + 8, d, read64(b, p)) {
            lemma_images_advance(b, e1, d, ce, k + 1, n);
        }
    }
}

/// Whether `item` holds the key and images described by `key` and `found`:
/// no image list where there are none.
pub open spec fn pxsd_item_match(
    item: PixelSourceDataItem,
    key: u32,
    found: Seq<(u32, Option<FilterEffectsRect>)>,
) -> bool {
    &&& item.key == key
    &&& if found.len() == 0 {
        item.images is None
    } else {
        item.images matches Some(v) && pxsd_images_match(v@, found)
    }
}

/// Reads one item (see `pxsd_item`).
fn read_pxsd_item(reader: &mut PsdReader) -> (r: PsdResult<PixelSourceDataItem>)
    requires
        old(reader).offset + 8 <= u64::MAX,
        counter_room(*old(reader), 0x100_0000_0000),
    ensures
        final(reader).same_source(old(reader)),
        final(reader).offset - final(reader).position == old(reader).offset - old(reader).position,
        match pxsd_item(
            old(reader).input(),
            old(reader).position as int,
            old(reader).offset - old(reader).position,
        ) {
            Some((key, found, e)) => r matches Ok(item) && pxsd_item_match(item, key, found)
                && final(reader).position == e,
            None => r is Err,
        },
{
    let chunk_length = read_u64_parts(reader)?;
    let chunk_start = reader.offset;
    if chunk_length > u64::MAX - chunk_start {
        return Err(unsupported("Pixel source chunk runs past the offset range"));
    }
    let chunk_end = chunk_start + chunk_length;
    let key = reader.read_u32()?;
    let kind = reader.read_u32()?;
    let mut images: Vec<PixelSourceDataImage> = Vec::new();
    if kind == 2 && reader.offset <= chunk_end && chunk_end - reader.offset >= 12 {
        let _reserved = reader.read_u32()?;
        let _high = reader.read_u32()?;
        let _low = reader.read_u32()?;
        let image_count = reader.read_u32()?;
        images = read_pxsd_images(reader, chunk_end, image_count)?;
    }
    reader.skip_to_offset(chunk_end)?;
    let images = if images.len() == 0 {
        None
    } else {
        Some(images)
    };
    Ok(PixelSourceDataItem { key, images })
}

/// Reading an item moves past its chunk length, key and kind.
proof fn lemma_item_advances(b: Seq<u8>, p: int, d: int)
    ensures
        pxsd_item(b, p, d) matches Some((_, _, e)) ==> p + 16 <= e,
{
    let cs = p + 8;
    let ce = cs + d + read64(b, p);
    let q = cs + 8;
    if read32(b, cs + 4) == 2 && q + d + 12 <= ce && q + 16 <= b.len() {
        lemma_images_advance(b, q + 16, d, ce, 0, read32(b, q + 12) as int);
    }
}

/// The items of a block from `p` on, while eight bytes remain before the
/// block's end offset `end`; the result is each item's key and images,
/// and where reading ends.
pub open spec fn pxsd_items_from(b: Seq<u8>, p: int, d: int, end: int) -> Option<
    (Seq<(u32, Seq<(u32, Option<FilterEffectsRect>)>)>, int),
>
    decreases end - p - d,
{
    if p + d + 8 > end {
        Some((seq![], p))
    } else {
        match pxsd_item(b, p, d) {
            None => None,
            Some((key, found, e)) => if e <= p {
                None
            } else if e + d + 8 > end {
                Some((seq![(key, found)], e))
            } else {
                match pxsd_items_from(b, e, d, end) {
                    Some((rest, f)) => Some((seq![(key, found)] + rest, f)),
                    None => None,
                }
            },
        }
    }
}

/// Reads pixel source data (PxSD) of `length` bytes: items while eight
/// bytes of the block remain (see `pxsd_items_from` and `pxsd_item`).
pub fn read_pixel_source_data(reader: &mut PsdReader, length: usize) -> (r: PsdResult<
    PixelSourceDataBlock,
>)
    requires
        counter_room(*old(reader), 0x100_0000_0000),
    ensures
        final(reader).same_source(old(reader)),
        ({
            let b = old(reader).input();
            let p = old(reader).position as int;
            let d = old(reader).offset - old(reader).position;
            let end = old(reader).offset + length;
            if end > u64::MAX {
                r is Err
            } else {
            match pxsd_items_from(b, p, d, end) {
                Some((found, e)) => r matches Ok(block) && block.items@.len() == found.len() && (
                forall|i: int|
                    0 <= i < found.len() ==> pxsd_item_match(
                        #[trigger] block.items@[i],
                        found[i].0,
                        found[i].1,
                    )) && final(reader).position == e,
                None => r is Err,
            }
            }
        }),
{
    let ghost b = reader.input();
    let ghost d = reader.offset - reader.position;
    let ghost s0 = *reader;
    let start = reader.offset;
    if length as u64 > u64::MAX - start {
        return Err(unsupported("Pixel source block runs past the offset range"));
    }
    let block_end = start + length as u64;
    let ghost target = pxsd_items_from(b, reader.position as int, d, block_end as int);
    let ghost mut found: Seq<(u32, Seq<(u32, Option<FilterEffectsRect>)>)> = seq![];
    let mut items: Vec<PixelSourceDataItem> = Vec::new();
    assert(found + seq![] =~= found);
    while reader.offset <= block_end && block_end - reader.offset >= 8
        invariant
            s0.same_source(reader),
            s0 == *old(reader),
            b == s0.input(),
            d == reader.offset - reader.position,
            d == s0.offset - s0.position,
            counter_room(s0, 0x100_0000_0000),
            block_end == s0.offset + length,
            target == pxsd_items_from(b, s0.position as int, d, block_end as int),
            target matches Some((tf, te)) ==> (pxsd_items_from(
                b,
                reader.position as int,
                d,
                block_end as int,
            ) matches Some((rf, re)) && tf == found + rf && te == re),
            target is None ==> pxsd_items_from(b, reader.position as int, d, block_end as int)
                is None,
            items@.len() == found.len(),
            forall|i: int|
                0 <= i < found.len() ==> pxsd_item_match(
                    #[trigger] items@[i],
                    found[i].0,
                    found[i].1,
                ),
        decreases (if reader.offset <= block_end {
            block_end - reader.offset
        } else {
            0
        }),
    {
        let ghost p = reader.position as int;
        let ghost prev = items@;
        let item = read_pxsd_item(reader)?;
        proof {
            lemma_item_advances(b, p, d);
            let imgs = match pxsd_item(b, p, d) {
                Some((_, f, _)) => f,
                None => seq![],
            };
            let old_found = found;
            found = found.push((item.key, imgs));
            assert(found[found.len() - 1].0 == item.key);
            if reader.position + d + 8 > block_end {
                assert(old_found + seq![(item.key, imgs)] =~= found);
                assert(found + Seq::<(u32, Seq<(u32, Option<FilterEffectsRect>)>)>::empty() =~= found);
            } else if let Some((rest, f)) = pxsd_items_from(b, reader.position as int, d, block_end as int) {
                assert(old_found + (seq![(item.key, imgs)] + rest) =~= found + rest);
            }
        }
        items.push(item);
        proof {
            assert forall|i: int| 0 <= i < found.len() implies pxsd_item_match(
                #[trigger] items@[i],
                found[i].0,
                found[i].1,
            ) by {
                if i < found.len() - 1 {
                    assert(items@[i] == prev[i]);
                }
            }
        }
    }
    proof {
        assert(found + Seq::<(u32, Seq<(u32, Option<FilterEffectsRect>)>)>::empty() =~= found);
    }
    Ok(PixelSourceDataBlock { items })
}

/// The rectangle with all edges zero.
pub open spec fn zero_rect() -> FilterEffectsRect {
    FilterEffectsRect { left: 0, top: 0, right: 0, bottom: 0 }
}

/// A rectangle's edges as stored: left, top, right, bottom.
pub open spec fn rect_bytes(r: FilterEffectsRect) -> Seq<u8> {
    be32(i32_bits(r.left)) + be32(i32_bits(r.top)) + be32(i32_bits(r.right)) + be32(
        i32_bits(r.bottom),
    )
}

/// One channel entry of a written image: depth 8, the rectangle, no
/// payload.
pub open spec fn pxsd_channel_bytes(r: FilterEffectsRect) -> Seq<u8> {
    be32(8) + rect_bytes(r) + be32(0) + be32(0)
}

/// A written image record: its index, the top and left of its rectangle
/// (zero without one), two words 3, and six channel entries.
pub open spec fn pxsd_image_bytes(img: PixelSourceDataImage) -> Seq<u8> {
    let r = match img.rect {
        Some(r) => r,
        None => zero_rect(),
    };
    be32(img.index) + be32(i32_bits(r.top)) + be32(i32_bits(r.left)) + be32(3) + be32(3)
        + repeated(pxsd_channel_bytes(r), 6)
}

/// `n` copies of `s`, one after another.
pub open spec fn repeated(s: Seq<u8>, n: nat) -> Seq<u8>
    decreases n,
{
    if n == 0 {
        seq![]
    } else {
        repeated(s, (n - 1) as nat) + s
    }
}

/// The written image records, each after its 64-bit length.
pub open spec fn pxsd_images_bytes(images: Seq<PixelSourceDataImage>) -> Seq<u8>
    decreases images.len(),
{
    if images.len() == 0 {
        seq![]
    } else {
        let last = pxsd_image_bytes(images.last());
        pxsd_images_bytes(images.drop_last()) + be32(0) + be32(last.len() as u32) + last
    }
}

/// A written item: its key, kind 2, a word 2, a zero 64-bit length, then
/// the image count (its low 32 bits) and the images, or a zero count.
pub open spec fn pxsd_item_bytes(item: PixelSourceDataItem) -> Seq<u8> {
    be32(item.key) + be32(2) + be32(2) + be32(0) + be32(0) + match item.images {
        Some(v) => be32(v@.len() as u32) + pxsd_images_bytes(v@),
        None => be32(0),
    }
}

/// A written block: each item after its 64-bit length.
pub open spec fn pxsd_block_bytes(items: Seq<PixelSourceDataItem>) -> Seq<u8>
    decreases items.len(),
{
    if items.len() == 0 {
        seq![]
    } else {
        let last = pxsd_item_bytes(items.last());
        pxsd_block_bytes(items.drop_last()) + be32(0) + be32(last.len() as u32) + last
    }
}

/// A written image record is 188 bytes long.
proof fn lemma_image_len(img: PixelSourceDataImage)
    ensures
        pxsd_image_bytes(img).len() == 188,
{
    let r = match img.rect {
        Some(r) => r,
        None => zero_rect(),
    };
    reveal_with_fuel(repeated, 7);
    assert(repeated(pxsd_channel_bytes(r), 6).len() == 168);
}

/// The written image records take 196 bytes each.
proof fn lemma_images_len(images: Seq<PixelSourceDataImage>)
    ensures
        pxsd_images_bytes(images).len() == 196 * images.len(),
    decreases images.len(),
{
    if images.len() > 0 {
        lemma_images_len(images.drop_last());
        lemma_image_len(images.last());
    }
}

impl PsdWriter {
    /// Writes a rectangle (see `rect_bytes`).
    pub(crate) fn write_rect(&mut self, rect: &FilterEffectsRect) -> (r: PsdResult<()>)
        requires
            old(self).offset + 16 <= usize::MAX,
        ensures
            r is Ok,
            old(self).appended(final(self), rect_bytes(*rect)),
    {
        let ghost start = self.written();
        self.write_i32(rect.left)?;
        self.write_i32(rect.top)?;
        self.write_i32(rect.right)?;
        self.write_i32(rect.bottom)?;
        assert(self.written() =~= start + rect_bytes(*rect));
        Ok(())
    }

    /// Writes one image record (see `pxsd_image_bytes`).
    fn write_pxsd_image(&mut self, image: &PixelSourceDataImage) -> (r: PsdResult<()>)
        requires
            old(self).offset + 188 <= usize::MAX,
        ensures
            r is Ok,
            old(self).appended(final(self), pxsd_image_bytes(*image)),
    {
        let ghost start = self.written();
        let rect = match image.rect {
            Some(r) => r,
            None => FilterEffectsRect { left: 0, top: 0, right: 0, bottom: 0 },
        };
        self.write_u32(image.index)?;
        self.write_i32(rect.top)?;
        self.write_i32(rect.left)?;
        self.write_u32(3)?;
        self.write_u32(3)?;
        let ghost head = self.written();
        let mut k: usize = 0;
        while k < 6
            invariant
                k <= 6,
                self.offset == old(self).offset + 20 + 28 * k,
                old(self).offset + 188 <= usize::MAX,
                self.offset <= self.buffer@.len(),
                self.large == old(self).large,
                self.color_mode == old(self).color_mode,
                self.global_alpha == old(self).global_alpha,
                self.written() == head + repeated(pxsd_channel_bytes(rect), k as nat),
            decreases 6 - k,
        {
            let ghost before = self.written();
            self.write_u32(8)?;
            self.write_rect(&rect)?;
            self.write_u32(0)?;
            self.write_u32(0)?;
            assert(self.written() =~= before + pxsd_channel_bytes(rect));
            k = k + 1;
        }
        assert(self.written() =~= start + pxsd_image_bytes(*image));
        Ok(())
    }
}

impl PsdWriter {
    /// Writes the image records of an item (see `pxsd_images_bytes`).
    #[verifier::rlimit(40)]
    fn write_pxsd_images(&mut self, images: &Vec<PixelSourceDataImage>) -> (r: PsdResult<()>)
        requires
            old(self).offset + 196 * images@.len() + 512 <= usize::MAX,
        ensures
            r is Ok,
            old(self).appended(final(self), pxsd_images_bytes(images@)),
    {
        self.ensure_capacity(0);
        let ghost start = self.written();
        let mut k: usize = 0;
        proof {
            assert(images@.take(0) =~= Seq::<PixelSourceDataImage>::empty());
            lemma_images_len(images@);
        }
        while k < images.len()
            invariant
                k <= images@.len(),
                old(self).offset + 196 * images@.len() + 512 <= usize::MAX,
                old(self).appended(self, pxsd_images_bytes(images@.take(k as int))),
                start == old(self).written(),
            decreases images.len() - k,
        {
            proof {
                lemma_images_len(images@.take(k as int));
                assert(images@.take(k + 1).drop_last() =~= images@.take(k as int));
                lemma_image_len(images@[k as int]);
            }
            let ghost before = self.written();
            let mut image_writer = PsdWriter::new(256);
            assert(image_writer.written().len() == 0);
            image_writer.write_pxsd_image(&images[k])?;
            let image_bytes = image_writer.into_buffer();
            self.write_u32(0)?;
            self.write_u32(image_bytes.len() as u32)?;
            self.write_bytes(image_bytes.as_slice())?;
            assert(self.written() =~= start + pxsd_images_bytes(images@.take(k + 1)));
            k = k + 1;
        }
        assert(images@.take(images@.len() as int) =~= images@);
        Ok(())
    }

    /// Writes one item (see `pxsd_item_bytes`).
    fn write_pxsd_item(&mut self, item: &PixelSourceDataItem) -> (r: PsdResult<()>)
        requires
            old(self).offset + pxsd_item_bytes(*item).len() + 512 <= usize::MAX,
        ensures
            r is Ok,
            old(self).appended(final(self), pxsd_item_bytes(*item)),
    {
        let ghost start = self.written();
        self.write_u32(item.key)?;
        self.write_u32(2)?;
        self.write_u32(2)?;
        self.write_u32(0)?;
        self.write_u32(0)?;
        match &item.images {
            Some(images) => {
                proof {
                    lemma_images_len(images@);
                }
                self.write_u32(images.len() as u32)?;
                self.write_pxsd_images(images)?;
            },
            None => {
                self.write_u32(0)?;
            },
        }
        assert(self.written() =~= start + pxsd_item_bytes(*item));
        Ok(())
    }

    /// Writes pixel source data (PxSD): each item after its length as a
    /// 64-bit value of two halves (see `pxsd_block_bytes`).
    pub fn write_pixel_source_data(&mut self, block: &PixelSourceDataBlock) -> (r: PsdResult<()>)
        requires
            old(self).offset + pxsd_block_bytes(block.items@).len() + 512 <= usize::MAX,
        ensures
            r is Ok,
            old(self).appended(final(self), pxsd_block_bytes(block.items@)),
    {
        self.ensure_capacity(0);
        let ghost start = self.written();
        let ghost all = block.items@;
        let mut k: usize = 0;
        proof {
            assert(all.take(0) =~= Seq::<PixelSourceDataItem>::empty());
            lemma_block_prefix_len(all, all.len() as int);
        }
        while k < block.items.len()
            invariant
                k <= all.len(),
                all == block.items@,
                old(self).offset + pxsd_block_bytes(all).len() + 512 <= usize::MAX,
                old(self).appended(self, pxsd_block_bytes(all.take(k as int))),
                start == old(self).written(),
            decreases all.len() - k,
        {
            proof {
                assert(all.take(k + 1).drop_last() =~= all.take(k as int));
                lemma_block_prefix_len(all, k + 1);
                assert(pxsd_item_bytes(all[k as int]).len() + 512 <= usize::MAX);
            }
            let mut item_writer = PsdWriter::new(512);
            assert(item_writer.written().len() == 0);
            item_writer.write_pxsd_item(&block.items[k])?;
            let item_bytes = item_writer.into_buffer();
            self.write_u32(0)?;
            self.write_u32(item_bytes.len() as u32)?;
            self.write_bytes(item_bytes.as_slice())?;
            assert(self.written() =~= start + pxsd_block_bytes(all.take(k + 1)));
            k = k + 1;
        }
        assert(all.take(all.len() as int) =~= all);
        Ok(())
    }
}

/// A block's first `k` items take no more bytes than the whole block.
proof fn lemma_block_prefix_len(items: Seq<PixelSourceDataItem>, k: int)
    requires
        0 <= k <= items.len(),
    ensures
        pxsd_block_bytes(items.take(k)).len() <= pxsd_block_bytes(items).len(),
        k > 0 ==> pxsd_block_bytes(items.take(k - 1)).len() + 8 + pxsd_item_bytes(items[k - 1]).len()
            == pxsd_block_bytes(items.take(k)).len(),
    decreases items.len() - k,
{
    if k > 0 {
        assert(items.take(k).drop_last() =~= items.take(k - 1));
    }
    if k < items.len() {
        lemma_block_prefix_len(items, k + 1);
        assert(items.take(k + 1).drop_last() =~= items.take(k));
    } else {
        assert(items.take(k) =~= items);
    }
}

} // verus!

//! What a pattern entry reader gives back of an entry the writer wrote.

use crate::additional_info::{
    pattern_channel_record, pattern_channels, pattern_entry_bytes, pattern_header_bytes,
    pattern_image_bytes, pattern_pixels, pattern_rect_bytes, pattern_rgba, pattern_slot,
    pattern_slots, rgba_component, law_rgb_pattern_split_roundtrip, PatternBlockEntry,
};
use crate::bytes::{be16, be16_list, be32, lemma_read16_at, lemma_read32_at, read16, read32};
use crate::compression::{image_row, law_rle_roundtrip, pack_row, rle_decode, rle_encode, row_counts_from};
use crate::io::reader::code_units;
use crate::io::writer::zeros;
use crate::patterns::{
    entry_id_end, entry_image_start, entry_name_end, entry_palette, entry_slots, pattern_channel_at,
    pattern_entry_end, pattern_entry_read, pattern_slots_at, sat_sub,
};
use crate::additional_info::{framed_pattern_entry, palette_seq, pattern_block_bytes, pattern_interleaves, pixels_of};
use crate::io::reader::padding_after;
use crate::patterns::pattern_entries_at;
use crate::io::roundtrip::{law_pascal_string_roundtrip, law_u16_roundtrip, law_u32_roundtrip, lemma_units_read_back};
use crate::io::writer::{pascal_bytes, unicode_padded_bytes};
use crate::types::RGB;
use vstd::utf8::{encode_utf8, is_ascii_chars};
use crate::reader::{kept_unit, legacy_unit_chars};
use crate::strings::{utf16_encode, utf16_of_char};
use vstd::prelude::*;

verus! {

/// Whether every character of a text is one UTF-16 unit that the legacy
/// reader keeps: no NUL, no character outside the basic plane.
pub open spec fn plain_bmp_text(text: Seq<char>) -> bool {
    forall|i: int|
        0 <= i < text.len() ==> 0 < (#[trigger] text[i]) as u32 && (text[i] as u32) < 0x10000
}

/// Plain text encodes as one unit per character and reads back unchanged.
proof fn lemma_plain_text_units(text: Seq<char>)
    requires
        plain_bmp_text(text),
    ensures
        utf16_encode(text).len() == text.len(),
        legacy_unit_chars(utf16_encode(text)) == text,
    decreases text.len(),
{
    if text.len() > 0 {
        let rest = text.drop_last();
        assert(plain_bmp_text(rest)) by {
            assert forall|i: int| 0 <= i < rest.len() implies 0 < (#[trigger] rest[i]) as u32 && (
            rest[i] as u32) < 0x10000 by {
                assert(rest[i] == text[i]);
            }
        }
        lemma_plain_text_units(rest);
        let c = text.last();
        assert(0 < c as u32 && (c as u32) < 0x10000) by {
            assert(text[text.len() - 1] == c);
        }
        let u = (c as u32) as u16;
        assert(utf16_of_char(c) =~= seq![u]);
        let enc = utf16_encode(text);
        assert(enc == utf16_encode(rest) + seq![u]);
        assert(enc.drop_last() =~= utf16_encode(rest));
        assert(enc.last() == u);
        vstd::utf8::char_is_scalar(c);
        vstd::utf8::char_u32_cast(c, c as u32);
        assert(u as u32 == c as u32);
        assert(kept_unit(u));
        assert(u as char == (c as u32) as char);
        assert(legacy_unit_chars(enc) =~= text);
    }
}

/// A trailing zero unit adds no character.
proof fn lemma_trailing_zero_unit(units: Seq<u16>)
    ensures
        legacy_unit_chars(units.push(0)) == legacy_unit_chars(units),
{
    assert(units.push(0).drop_last() =~= units);
}


/// Whether every row of a `w` by `h` channel packs into at most 65535
/// bytes, the most a row byte count holds.
pub open spec fn rows_pack_small(ch: Seq<u8>, w: int, h: int) -> bool {
    forall|r: int| 0 <= r < h ==> #[trigger] pack_row(image_row(ch, w, r)).len() <= 65535
}

/// A channel record the writer stored decodes to the channel.
proof fn lemma_channel_record_decodes(b: Seq<u8>, q: int, ch: Seq<u8>, w: int, h: int)
    requires
        0 <= q,
        0 <= w <= 65535,
        0 <= h <= 65535,
        ch.len() == w * h,
        rows_pack_small(ch, w, h),
        q + pattern_channel_record(ch, w, h).len() <= b.len(),
        b.subrange(q, q + pattern_channel_record(ch, w, h).len()) == pattern_channel_record(ch, w, h),
    ensures
        pattern_channel_at(b, q, w, h, pattern_channel_record(ch, w, h).len() as int) == Some(
            (ch, q + pattern_channel_record(ch, w, h).len()),
        ),
{
    let rec = pattern_channel_record(ch, w, h);
    let l = rec.len() as int;
    let enc = rle_encode(ch, w, h);
    let counts = row_counts_from(ch, w, 0, h);
    law_rle_roundtrip(ch, w, h);
    crate::bytes::lemma_be16_list_len(counts);
    assert(l == 23 + enc.len());
    assert(enc.len() >= 2 * h);
    assert(b.subrange(q, q + 4) =~= be32(8)) by {
        assert(b.subrange(q, q + 4) =~= rec.subrange(0, 4));
    }
    lemma_read32_at(b, q, 8);
    assert(b.subrange(q + 20, q + 22) =~= be16(1)) by {
        assert(b.subrange(q + 20, q + 22) =~= rec.subrange(20, 22));
    }
    lemma_read16_at(b, q + 20, 1);
    assert(w * h <= 65535 * 65535) by (nonlinear_arith)
        requires
            0 <= w <= 65535,
            0 <= h <= 65535,
    ;
    assert(w * (8int / 8) * h == w * h && w * (8int / 8) == w) by (nonlinear_arith);
    assert(read32(b, q) as int == 8int);
    assert(sat_sub(l, 23) == enc.len());
    assert(sat_sub(enc.len() as int, 2 * h) == enc.len() - 2 * h);
    assert forall|r: int| 0 <= r < h implies #[trigger] code_units(b, q + 23, h)[r] == counts[r] by {
        assert(b[q + 23 + 2 * r] == enc[2 * r]) by {
            assert(b[q + 23 + 2 * r] == rec[23 + 2 * r]);
        }
        assert(b[q + 23 + 2 * r + 1] == enc[2 * r + 1]) by {
            assert(b[q + 23 + 2 * r + 1] == rec[23 + 2 * r + 1]);
        }
        assert(read16(enc, 2 * r) == counts[r]);
        assert(read16(b, q + 23 + 2 * r) == read16(enc, 2 * r));
    }
    assert(code_units(b, q + 23, h) =~= counts);
    assert(b.subrange(q + 23 + 2 * h, q + 23 + 2 * h + (enc.len() - 2 * h)) =~= enc.skip(2 * h)) by {
        assert forall|i: int| 0 <= i < enc.len() - 2 * h implies #[trigger] b.subrange(
            q + 23 + 2 * h,
            q + 23 + 2 * h + (enc.len() - 2 * h),
        )[i] == enc.skip(2 * h)[i] by {
            assert(b[q + 23 + 2 * h + i] == rec[23 + 2 * h + i]);
        }
    }
    assert(ch.subrange(0, w * h) =~= ch);
    assert(ch + zeros(w * h - ch.len()) =~= ch);
}


/// Whether a channel can be written and read back: `w * h` samples whose
/// rows pack small enough, and a record whose length fits 32 bits.
pub open spec fn channel_storable(ch: Seq<u8>, w: int, h: int) -> bool {
    &&& ch.len() == w * h
    &&& rows_pack_small(ch, w, h)
    &&& pattern_channel_record(ch, w, h).len() <= u32::MAX
}

/// The channels read before slot `k`.
pub open spec fn channels_before(chs: Seq<Seq<u8>>, k: int) -> Seq<Seq<u8>> {
    if k < chs.len() {
        chs.take(k)
    } else {
        chs
    }
}

/// A present slot the writer stored decodes to its channel.
proof fn lemma_slot_decodes(b: Seq<u8>, pos: int, ch: Seq<u8>, w: int, h: int)
    requires
        0 <= pos,
        0 <= w <= 65535,
        0 <= h <= 65535,
        channel_storable(ch, w, h),
        pos + pattern_slot(ch, w, h).len() <= b.len(),
        b.subrange(pos, pos + pattern_slot(ch, w, h).len()) == pattern_slot(ch, w, h),
    ensures
        pos + 8 <= b.len(),
        read32(b, pos) == 1,
        read32(b, pos + 4) == pattern_channel_record(ch, w, h).len(),
        pattern_channel_at(b, pos + 8, w, h, read32(b, pos + 4) as int) == Some(
            (ch, pos + pattern_slot(ch, w, h).len()),
        ),
{
    let rec = pattern_channel_record(ch, w, h);
    let slot = pattern_slot(ch, w, h);
    assert(b.subrange(pos, pos + 4) =~= be32(1)) by {
        assert(b.subrange(pos, pos + 4) =~= slot.subrange(0, 4));
    }
    lemma_read32_at(b, pos, 1);
    assert(b.subrange(pos + 4, pos + 8) =~= be32(rec.len() as u32)) by {
        assert(b.subrange(pos + 4, pos + 8) =~= slot.subrange(4, 8));
    }
    lemma_read32_at(b, pos + 4, rec.len() as u32);
    assert(b.subrange(pos + 8, pos + 8 + rec.len()) =~= rec) by {
        assert(b.subrange(pos + 8, pos + 8 + rec.len()) =~= slot.subrange(8, 8 + rec.len() as int));
    }
    lemma_channel_record_decodes(b, pos + 8, ch, w, h);
}

/// The slots the writer stored from slot `k` on decode to the channels
/// and the alpha channel.
proof fn lemma_slots_decode(
    b: Seq<u8>,
    pos: int,
    chs: Seq<Seq<u8>>,
    alpha: Seq<u8>,
    w: int,
    h: int,
    k: int,
)
    requires
        chs.len() == 3,
        0 <= k <= 26,
        0 <= pos,
        0 <= w <= 65535,
        0 <= h <= 65535,
        forall|c: int| 0 <= c < 3 ==> channel_storable(#[trigger] chs[c], w, h),
        channel_storable(alpha, w, h),
        pos + pattern_slots(chs, alpha, w, h, k).len() <= b.len(),
        b.subrange(pos, pos + pattern_slots(chs, alpha, w, h, k).len()) == pattern_slots(
            chs,
            alpha,
            w,
            h,
            k,
        ),
    ensures
        pattern_slots_at(
            b,
            pos,
            w,
            h,
            24,
            k,
            channels_before(chs, k),
            if k == 26 {
                Some(alpha)
            } else {
                None
            },
        ) == Some((chs, Some(alpha), pos + pattern_slots(chs, alpha, w, h, k).len())),
    decreases 26 - k,
{
    if k < 26 {
        let rest = pattern_slots(chs, alpha, w, h, k + 1);
        let all = pattern_slots(chs, alpha, w, h, k);
        if k < 3 {
            let x = pattern_slot(chs[k], w, h);
            assert(all == x + rest);
            assert(b.subrange(pos, pos + x.len()) =~= x) by {
                assert(b.subrange(pos, pos + x.len()) =~= all.subrange(0, x.len() as int));
            }
            lemma_slot_decodes(b, pos, chs[k], w, h);
            assert(b.subrange(pos + x.len(), pos + x.len() + rest.len()) =~= rest) by {
                assert(b.subrange(pos + x.len(), pos + x.len() + rest.len()) =~= all.subrange(
                    x.len() as int,
                    all.len() as int,
                ));
            }
            lemma_slots_decode(b, pos + x.len(), chs, alpha, w, h, k + 1);
            assert(channels_before(chs, k).push(chs[k]) =~= channels_before(chs, k + 1));
        } else if k == 25 {
            let x = pattern_slot(alpha, w, h);
            assert(all == x + rest);
            assert(b.subrange(pos, pos + x.len()) =~= x) by {
                assert(b.subrange(pos, pos + x.len()) =~= all.subrange(0, x.len() as int));
            }
            lemma_slot_decodes(b, pos, alpha, w, h);
            assert(b.subrange(pos + x.len(), pos + x.len() + rest.len()) =~= rest) by {
                assert(b.subrange(pos + x.len(), pos + x.len() + rest.len()) =~= all.subrange(
                    x.len() as int,
                    all.len() as int,
                ));
            }
            lemma_slots_decode(b, pos + x.len(), chs, alpha, w, h, k + 1);
        } else {
            assert(all == be32(0) + rest);
            assert(b.subrange(pos, pos + 4) =~= be32(0)) by {
                assert(b.subrange(pos, pos + 4) =~= all.subrange(0, 4));
            }
            lemma_read32_at(b, pos, 0);
            assert(b.subrange(pos + 4, pos + 4 + rest.len()) =~= rest) by {
                assert(b.subrange(pos + 4, pos + 4 + rest.len()) =~= all.subrange(4, all.len() as int));
            }
            lemma_slots_decode(b, pos + 4, chs, alpha, w, h, k + 1);
        }
    }
}


/// Whether a pattern entry is one whose reading gives it back: an RGB
/// pattern (mode 3) without palette whose pixels are `width * height`
/// RGBA quadruples, a name of basic-plane characters other than NUL, an
/// ASCII id of at most 255 bytes, and channels whose rows pack small
/// enough and whose records fit 32-bit lengths.
pub open spec fn pattern_entry_storable(e: PatternBlockEntry) -> bool {
    let w = e.width as int;
    let h = e.height as int;
    let n = w * h;
    &&& e.mode == 3
    &&& e.indexed_palette is None
    &&& e.rgba matches Some(px) && px.data@.len() == 4 * n && px.width == e.width && px.height
        == e.height
    &&& 4 * n <= usize::MAX
    &&& plain_bmp_text(e.name@)
    &&& e.name@.len() + 1 <= u32::MAX
    &&& is_ascii_chars(e.id@)
    &&& e.id@.len() <= 255
    &&& forall|c: int|
        0 <= c < 3 ==> channel_storable(
            #[trigger] rgba_component(pixels_of(e.rgba)->0, n, c, 0),
            w,
            h,
        )
    &&& channel_storable(rgba_component(pixels_of(e.rgba)->0, n, 3, 255), w, h)
}

/// Whether `e2` holds the same pattern as `e`.
pub open spec fn same_pattern(e2: PatternBlockEntry, e: PatternBlockEntry) -> bool {
    &&& e2.version == e.version
    &&& e2.mode == e.mode
    &&& e2.width == e.width
    &&& e2.height == e.height
    &&& e2.name@ == e.name@
    &&& e2.id@ == e.id@
    &&& e2.indexed_palette is None
    &&& e2.rgba matches Some(px2) && px2.data@ == pixels_of(e.rgba)->0 && px2.width
        == e.width && px2.height == e.height
}

/// Big-endian units stored at `q` read back.
proof fn lemma_units_at(s: Seq<u8>, q: int, units: Seq<u16>)
    requires
        0 <= q,
        q + 2 * units.len() <= s.len(),
        s.subrange(q, q + 2 * units.len()) == be16_list(units),
    ensures
        code_units(s, q, units.len() as int) == units,
{
    crate::bytes::lemma_be16_list_len(units);
    assert forall|k: int| 0 <= k < units.len() implies #[trigger] code_units(s, q, units.len() as int)[k]
        == units[k] by {
        crate::io::roundtrip::lemma_be16_list_index(units, k);
        assert(s[q + 2 * k] == be16_list(units)[2 * k]);
        assert(s[q + 2 * k + 1] == be16_list(units)[2 * k + 1]);
        crate::bytes::lemma_be16_roundtrip(units[k]);
    }
    assert(code_units(s, q, units.len() as int) =~= units);
}

/// The version, mode and size of a stored pattern entry read back.
proof fn lemma_head_fixed(s: Seq<u8>, p: int, e: PatternBlockEntry)
    requires
        0 <= p,
        p + 12 <= s.len(),
        s.subrange(p, p + 12) == be32(e.version) + be32(e.mode) + be16(e.height) + be16(e.width),
    ensures
        read32(s, p) == e.version,
        read32(s, p + 4) == e.mode,
        read16(s, p + 8) == e.height,
        read16(s, p + 10) == e.width,
{
    let hdr = be32(e.version) + be32(e.mode) + be16(e.height) + be16(e.width);
    assert(s.subrange(p, p + 4) =~= be32(e.version)) by {
        assert(s.subrange(p, p + 4) =~= hdr.subrange(0, 4));
    }
    lemma_read32_at(s, p, e.version);
    assert(s.subrange(p + 4, p + 8) =~= be32(e.mode)) by {
        assert(s.subrange(p + 4, p + 8) =~= hdr.subrange(4, 8));
    }
    lemma_read32_at(s, p + 4, e.mode);
    assert(s.subrange(p + 8, p + 10) =~= be16(e.height)) by {
        assert(s.subrange(p + 8, p + 10) =~= hdr.subrange(8, 10));
    }
    lemma_read16_at(s, p + 8, e.height);
    assert(s.subrange(p + 10, p + 12) =~= be16(e.width)) by {
        assert(s.subrange(p + 10, p + 12) =~= hdr.subrange(10, 12));
    }
    lemma_read16_at(s, p + 10, e.width);
}

/// A stored name of plain characters reads back.
proof fn lemma_head_name(s: Seq<u8>, q: int, name: Seq<char>)
    requires
        0 <= q,
        plain_bmp_text(name),
        name.len() + 1 <= u32::MAX,
        q + unicode_padded_bytes(name).len() <= s.len(),
        s.subrange(q, q + unicode_padded_bytes(name).len()) == unicode_padded_bytes(name),
    ensures
        read32(s, q) == name.len() + 1,
        unicode_padded_bytes(name).len() == 4 + 2 * (name.len() + 1),
        legacy_unit_chars(code_units(s, q + 4, read32(s, q) as int)) == name,
{
    let units = utf16_encode(name);
    lemma_plain_text_units(name);
    let nb = unicode_padded_bytes(name);
    let all_units = units.push(0u16);
    crate::bytes::lemma_be16_list_len(all_units);
    assert(be16_list(all_units) == be16_list(units) + be16(0)) by {
        assert(all_units.drop_last() =~= units);
    }
    assert(nb =~= be32(all_units.len() as u32) + be16_list(all_units));
    assert(s.subrange(q, q + 4) =~= be32(all_units.len() as u32)) by {
        assert(s.subrange(q, q + 4) =~= nb.subrange(0, 4));
    }
    lemma_read32_at(s, q, all_units.len() as u32);
    assert(s.subrange(q + 4, q + 4 + 2 * all_units.len()) =~= be16_list(all_units)) by {
        assert(s.subrange(q + 4, q + 4 + 2 * all_units.len()) =~= nb.subrange(4, nb.len() as int));
    }
    lemma_units_at(s, q + 4, all_units);
    lemma_trailing_zero_unit(units);
}

/// A stored ASCII id reads back.
proof fn lemma_head_id(s: Seq<u8>, q: int, id: Seq<char>)
    requires
        0 <= q,
        is_ascii_chars(id),
        id.len() <= 255,
        q + pascal_bytes(encode_utf8(id), 1).len() <= s.len(),
        s.subrange(q, q + pascal_bytes(encode_utf8(id), 1).len()) == pascal_bytes(encode_utf8(id), 1),
    ensures
        s[q] == id.len(),
        pascal_bytes(encode_utf8(id), 1).len() == 1 + id.len(),
        utf8_text_of(s, q + 1, q + 1 + id.len()) == id,
{
    let ib = pascal_bytes(encode_utf8(id), 1);
    let pre = s.subrange(0, q);
    let post = s.subrange(q + ib.len(), s.len() as int);
    assert(s =~= pre + ib + post);
    law_pascal_string_roundtrip(pre, id, 1, post);
}

/// The fields before a stored pattern entry's image read back.
proof fn lemma_entry_head_reads(pre: Seq<u8>, e: PatternBlockEntry, tail: Seq<u8>)
    requires
        plain_bmp_text(e.name@),
        e.name@.len() + 1 <= u32::MAX,
        is_ascii_chars(e.id@),
        e.id@.len() <= 255,
    ensures
        ({
            let s = pre + pattern_header_bytes(e) + tail;
            let p = pre.len() as int;
            &&& read32(s, p) == e.version
            &&& read32(s, p + 4) == e.mode
            &&& read16(s, p + 8) == e.height
            &&& read16(s, p + 10) == e.width
            &&& legacy_unit_chars(code_units(s, p + 16, read32(s, p + 12) as int)) == e.name@
            &&& entry_name_end(s, p) + 1 <= s.len()
            &&& entry_id_end(s, p) == p + pattern_header_bytes(e).len()
            &&& utf8_text_of(s, entry_name_end(s, p) + 1, entry_id_end(s, p)) == e.id@
        }),
{
    let hdr = be32(e.version) + be32(e.mode) + be16(e.height) + be16(e.width);
    let nb = unicode_padded_bytes(e.name@);
    let ib = pascal_bytes(encode_utf8(e.id@), 1);
    let head = pattern_header_bytes(e);
    assert(head =~= hdr + nb + ib);
    let s = pre + head + tail;
    let p = pre.len() as int;
    assert(s.subrange(p, p + 12) =~= hdr) by {
        assert(s.subrange(p, p + 12) =~= head.subrange(0, 12));
    }
    lemma_head_fixed(s, p, e);
    assert(s.subrange(p + 12, p + 12 + nb.len()) =~= nb) by {
        assert(s.subrange(p + 12, p + 12 + nb.len()) =~= head.subrange(12, 12 + nb.len() as int));
    }
    lemma_head_name(s, p + 12, e.name@);
    let q = p + 12 + nb.len();
    assert(s.subrange(q, q + ib.len()) =~= ib) by {
        assert(s.subrange(q, q + ib.len()) =~= head.subrange(12 + nb.len() as int, head.len() as int));
    }
    lemma_head_id(s, q, e.id@);
}

/// The text of bytes `a` to `b` of `s`.
pub open spec fn utf8_text_of(s: Seq<u8>, a: int, b: int) -> Seq<char> {
    crate::strings::utf8_text(s.subrange(a, b))
}

/// The channel records of a stored RGB pattern image read back as its
/// channels and alpha channel.
proof fn lemma_entry_image_reads(s: Seq<u8>, i: int, data: Seq<u8>, w: int, h: int)
    requires
        0 <= i,
        0 <= w <= 65535,
        0 <= h <= 65535,
        forall|c: int| 0 <= c < 3 ==> channel_storable(#[trigger] rgba_component(data, w * h, c, 0), w, h),
        channel_storable(rgba_component(data, w * h, 3, 255), w, h),
        i + pattern_rect_bytes(w, h).len() + pattern_slots(
            pattern_channels(3, data, w * h),
            rgba_component(data, w * h, 3, 255),
            w,
            h,
            0,
        ).len() <= s.len(),
        s.subrange(
            i,
            i + pattern_rect_bytes(w, h).len() + pattern_slots(
                pattern_channels(3, data, w * h),
                rgba_component(data, w * h, 3, 255),
                w,
                h,
                0,
            ).len(),
        ) == pattern_rect_bytes(w, h) + pattern_slots(
            pattern_channels(3, data, w * h),
            rgba_component(data, w * h, 3, 255),
            w,
            h,
            0,
        ),
    ensures
        read32(s, i + 24) == 24,
        i + 28 <= s.len(),
        pattern_slots_at(s, i + 28, w, h, 24, 0, seq![], None) == Some(
            (
                pattern_channels(3, data, w * h),
                Some(rgba_component(data, w * h, 3, 255)),
                i + 28 + pattern_slots(
                    pattern_channels(3, data, w * h),
                    rgba_component(data, w * h, 3, 255),
                    w,
                    h,
                    0,
                ).len(),
            ),
        ),
{
    let n = w * h;
    let chs = pattern_channels(3, data, n);
    let alpha = rgba_component(data, n, 3, 255);
    let rect = pattern_rect_bytes(w, h);
    let slots = pattern_slots(chs, alpha, w, h, 0);
    let img = rect + slots;
    assert(rect.len() == 28);
    assert(s.subrange(i + 24, i + 28) =~= be32(24)) by {
        assert(s.subrange(i + 24, i + 28) =~= img.subrange(24, 28));
        assert(img.subrange(24, 28) =~= rect.subrange(24, 28));
    }
    lemma_read32_at(s, i + 24, 24);
    assert forall|c: int| 0 <= c < 3 implies channel_storable(#[trigger] chs[c], w, h) by {
        assert(chs[c] == rgba_component(data, n, c, 0));
    }
    assert(s.subrange(i + 28, i + 28 + slots.len()) =~= slots) by {
        assert(s.subrange(i + 28, i + 28 + slots.len()) =~= img.subrange(28, img.len() as int));
    }
    lemma_slots_decode(s, i + 28, chs, alpha, w, h, 0);
    assert(channels_before(chs, 0) =~= Seq::<Seq<u8>>::empty());
}

/// Where a stored RGB pattern entry's reading ends.
proof fn lemma_entry_end(s: Seq<u8>, p: int, l: int, e: PatternBlockEntry, e_end: int)
    requires
        0 <= p,
        p + 16 <= s.len(),
        entry_name_end(s, p) + 1 <= s.len(),
        entry_id_end(s, p) <= s.len(),
        entry_image_start(s, p) + 28 <= s.len(),
        read16(s, p + 10) == e.width,
        read16(s, p + 8) == e.height,
        4 * ((e.width as int) * (e.height as int)) <= usize::MAX,
        entry_slots(s, p) matches Some((c, a, end)) && end == e_end,
        e_end - p == l,
    ensures
        pattern_entry_end(s, p, l) == Some(e_end),
{
    reveal(pattern_entry_end);
    let w = e.width as int;
    let h = e.height as int;
    assert(4 * w * h <= usize::MAX) by (nonlinear_arith)
        requires
            4 * (w * h) <= usize::MAX,
    ;
}

/// What reading a stored RGB pattern entry gives holds the entry.
proof fn lemma_entry_fields(e2: PatternBlockEntry, s: Seq<u8>, p: int, e: PatternBlockEntry)
    requires
        pattern_entry_read(e2, s, p),
        pattern_entry_storable(e),
        read32(s, p) == e.version,
        read32(s, p + 4) == e.mode,
        read16(s, p + 8) == e.height,
        read16(s, p + 10) == e.width,
        legacy_unit_chars(code_units(s, p + 16, read32(s, p + 12) as int)) == e.name@,
        utf8_text_of(s, entry_name_end(s, p) + 1, entry_id_end(s, p)) == e.id@,
        entry_slots(s, p) matches Some((c, a, end)) && c == pattern_channels(
            3,
            pixels_of(e.rgba)->0,
            (e.width as int) * (e.height as int),
        ) && a == Some(
            rgba_component(pixels_of(e.rgba)->0, (e.width as int) * (e.height as int), 3, 255),
        ),
    ensures
        same_pattern(e2, e),
{
    reveal(pattern_entry_read);
    let n = (e.width as int) * (e.height as int);
    law_rgb_pattern_split_roundtrip(pixels_of(e.rgba)->0, n);
    assert(entry_palette(s, p) is None);
    assert(pattern_interleaves(3, false, 3));
}

/// An RGB pattern entry the writer stored is read back whole: reading
/// stops right after its bytes and gives the same version, mode, size,
/// name, id and pixels.
#[verifier::rlimit(60)]
pub proof fn law_pattern_entry_roundtrip(pre: Seq<u8>, e: PatternBlockEntry, post: Seq<u8>)
    requires
        pattern_entry_storable(e),
    ensures
        ({
            let s = pre + pattern_entry_bytes(e) + post;
            let p = pre.len() as int;
            let l = pattern_entry_bytes(e).len() as int;
            &&& pattern_entry_end(s, p, l) == Some(p + l)
            &&& forall|e2: PatternBlockEntry| pattern_entry_read(e2, s, p) ==> same_pattern(e2, e)
        }),
{
    let w = e.width as int;
    let h = e.height as int;
    let n = w * h;
    let data = pixels_of(e.rgba)->0;
    let head = pattern_header_bytes(e);
    let rect = pattern_rect_bytes(w, h);
    let slots = pattern_slots(pattern_channels(3, data, n), rgba_component(data, n, 3, 255), w, h, 0);
    assert(palette_seq(e.indexed_palette) == None::<Seq<RGB>>);
    assert(pattern_pixels(pixels_of(e.rgba), n) == data);
    assert(pattern_entry_bytes(e) =~= head + (rect + slots));
    let s = pre + pattern_entry_bytes(e) + post;
    let p = pre.len() as int;
    let l = pattern_entry_bytes(e).len() as int;
    assert(s == pre + head + ((rect + slots) + post));
    lemma_entry_head_reads(pre, e, (rect + slots) + post);
    let i = p + head.len();
    assert(s.subrange(i, i + rect.len() + slots.len()) =~= rect + slots);
    lemma_entry_image_reads(s, i, data, w, h);
    assert(entry_image_start(s, p) == i);
    lemma_entry_end(s, p, l, e, p + l);
    assert forall|e2: PatternBlockEntry| pattern_entry_read(e2, s, p) implies same_pattern(e2, e) by {
        lemma_entry_fields(e2, s, p, e);
    }
}


/// The framed entries from entry `k` on.
pub open spec fn framed_from(entries: Seq<PatternBlockEntry>, k: int) -> Seq<u8>
    decreases entries.len() - k,
{
    if k >= entries.len() {
        Seq::<u8>::empty()
    } else {
        framed_pattern_entry(entries[k]) + framed_from(entries, k + 1)
    }
}

proof fn lemma_framed_from_drop_last(entries: Seq<PatternBlockEntry>, k: int)
    requires
        0 <= k < entries.len(),
    ensures
        framed_from(entries, k) == framed_from(entries.drop_last(), k) + framed_pattern_entry(
            entries.last(),
        ),
    decreases entries.len() - k,
{
    if k + 1 < entries.len() {
        lemma_framed_from_drop_last(entries, k + 1);
        assert(entries.drop_last()[k] == entries[k]);
        assert(framed_from(entries, k) =~= framed_from(entries.drop_last(), k) + framed_pattern_entry(
            entries.last(),
        ));
    } else {
        assert(framed_from(entries.drop_last(), k) =~= Seq::<u8>::empty());
        assert(framed_from(entries, k + 1) =~= Seq::<u8>::empty());
        assert(framed_from(entries, k) =~= framed_pattern_entry(entries.last()));
    }
}

/// A block's payload is its framed entries from the first on.
proof fn lemma_block_bytes_front(entries: Seq<PatternBlockEntry>)
    ensures
        pattern_block_bytes(entries) == framed_from(entries, 0),
    decreases entries.len(),
{
    if entries.len() > 0 {
        lemma_block_bytes_front(entries.drop_last());
        lemma_framed_from_drop_last(entries, 0);
    }
}

/// Every entry of a list can be stored and read back, and fits a 32-bit
/// length.
pub open spec fn pattern_entries_storable(entries: Seq<PatternBlockEntry>) -> bool {
    forall|i: int|
        0 <= i < entries.len() ==> pattern_entry_storable(#[trigger] entries[i])
            && pattern_entry_bytes(entries[i]).len() <= u32::MAX
}

/// One stored entry of a block read back: its length, the entry, its
/// padding.
#[verifier::rlimit(60)]
proof fn lemma_entry_step(
    s: Seq<u8>,
    start: int,
    length: int,
    pos: int,
    entries: Seq<PatternBlockEntry>,
    k: int,
)
    requires
        0 <= start <= pos,
        0 <= k < entries.len(),
        pattern_entries_storable(entries),
        pos + framed_from(entries, k).len() == start + length,
        start + length <= s.len(),
        s.subrange(pos, start + length) == framed_from(entries, k),
    ensures
        ({
            let eb = pattern_entry_bytes(entries[k]);
            let next = pos + framed_pattern_entry(entries[k]).len();
            &&& pos + 4 + eb.len() <= s.len()
            &&& s.subrange(pos + 4, pos + 4 + eb.len()) == eb
            &&& pos < next
            &&& next + framed_from(entries, k + 1).len() == start + length
            &&& s.subrange(next, start + length) == framed_from(entries, k + 1)
            &&& pattern_entries_at(s, start, length, pos) == crate::patterns::after_starts(
                seq![pos + 4],
                pattern_entries_at(s, start, length, next),
            )
        }),
{
    reveal(framed_pattern_entry);
    let e = entries[k];
    let eb = pattern_entry_bytes(e);
    let l = eb.len() as int;
    let pad = padding_after(l, 4);
    let fr = framed_pattern_entry(e);
    let all = framed_from(entries, k);
    let rest = framed_from(entries, k + 1);
    assert(fr =~= be32(l as u32) + eb + zeros(pad));
    assert(all == fr + rest);
    assert(s.subrange(pos, pos + 4) =~= be32(l as u32)) by {
        assert(s.subrange(pos, pos + 4) =~= all.subrange(0, 4));
    }
    lemma_read32_at(s, pos, l as u32);
    let q = pos + 4;
    assert(s.subrange(q, q + l) =~= eb) by {
        assert(s.subrange(q, q + l) =~= all.subrange(4, 4 + l));
    }
    let pre2 = s.subrange(0, q);
    let post2 = s.subrange(q + l, s.len() as int);
    assert(s =~= pre2 + eb + post2);
    law_pattern_entry_roundtrip(pre2, e, post2);
    let next = pos + fr.len();
    assert(s.subrange(next, start + length) =~= rest) by {
        assert(s.subrange(next, start + length) =~= all.subrange(fr.len() as int, all.len() as int));
    }
}

/// The entries stored from `pos` on read back, each where it stands.
#[verifier::rlimit(60)]
proof fn lemma_entries_read(
    s: Seq<u8>,
    start: int,
    length: int,
    pos: int,
    entries: Seq<PatternBlockEntry>,
    k: int,
)
    requires
        0 <= start <= pos,
        0 <= k <= entries.len(),
        pattern_entries_storable(entries),
        pos + framed_from(entries, k).len() == start + length,
        start + length <= s.len(),
        s.subrange(pos, start + length) == framed_from(entries, k),
    ensures
        pattern_entries_at(s, start, length, pos) matches Some((st, end)) && end == start + length
            && st.len() == entries.len() - k && (forall|j: int|
            0 <= j < st.len() ==> #[trigger] s.subrange(
                st[j],
                st[j] + pattern_entry_bytes(entries[k + j]).len(),
            ) == pattern_entry_bytes(entries[k + j]) && st[j] + pattern_entry_bytes(
                entries[k + j],
            ).len() <= s.len() && 0 <= st[j]),
    decreases entries.len() - k,
{
    if k < entries.len() {
        lemma_entry_step(s, start, length, pos, entries, k);
        let next = pos + framed_pattern_entry(entries[k]).len();
        lemma_entries_read(s, start, length, next, entries, k + 1);
        let (found_starts, found_end) = pattern_entries_at(s, start, length, next)->0;
        let st = seq![pos + 4] + found_starts;
        assert forall|j: int| 0 <= j < st.len() implies #[trigger] s.subrange(
            st[j],
            st[j] + pattern_entry_bytes(entries[k + j]).len(),
        ) == pattern_entry_bytes(entries[k + j]) && st[j] + pattern_entry_bytes(entries[k + j]).len()
            <= s.len() && 0 <= st[j] by {
            if j > 0 {
                assert(st[j] == found_starts[j - 1]);
                assert(entries[k + j] == entries[(k + 1) + (j - 1)]);
            }
        }
    } else {
        assert(framed_from(entries, k).len() == 0);
    }
}

/// Reading where an entry is stored gives the same pattern.
proof fn lemma_read_where_stored(s: Seq<u8>, q: int, e: PatternBlockEntry, e2: PatternBlockEntry)
    requires
        0 <= q,
        q + pattern_entry_bytes(e).len() <= s.len(),
        s.subrange(q, q + pattern_entry_bytes(e).len()) == pattern_entry_bytes(e),
        pattern_entry_storable(e),
        pattern_entry_read(e2, s, q),
    ensures
        same_pattern(e2, e),
{
    let eb = pattern_entry_bytes(e);
    let pre2 = s.subrange(0, q);
    let post2 = s.subrange(q + eb.len(), s.len() as int);
    assert(s =~= pre2 + eb + post2);
    law_pattern_entry_roundtrip(pre2, e, post2);
}

/// A pattern block the writer stored is read back whole: reading ends
/// right after its payload, gives one entry per stored entry, and each
/// holds the same pattern.
#[verifier::rlimit(60)]
pub proof fn law_pattern_block_roundtrip(pre: Seq<u8>, entries: Seq<PatternBlockEntry>, post: Seq<u8>)
    requires
        pattern_entries_storable(entries),
    ensures
        ({
            let b = pattern_block_bytes(entries);
            let s = pre + b + post;
            let p = pre.len() as int;
            pattern_entries_at(s, p, b.len() as int, p) matches Some((st, end)) && end == p + b.len()
                && st.len() == entries.len() && forall|j: int, e2: PatternBlockEntry|
                0 <= j < st.len() && #[trigger] pattern_entry_read(e2, s, st[j]) ==> same_pattern(
                    e2,
                    entries[j],
                )
        }),
{
    let b = pattern_block_bytes(entries);
    let s = pre + b + post;
    let p = pre.len() as int;
    lemma_block_bytes_front(entries);
    assert(s.subrange(p, p + b.len()) =~= b);
    lemma_entries_read(s, p, b.len() as int, p, entries, 0);
    let (st, end) = pattern_entries_at(s, p, b.len() as int, p)->0;
    lemma_block_entries_same(s, st, entries);
}

/// Reading where each entry of a list is stored gives its pattern.
proof fn lemma_block_entries_same(s: Seq<u8>, st: Seq<int>, entries: Seq<PatternBlockEntry>)
    requires
        st.len() == entries.len(),
        pattern_entries_storable(entries),
        forall|j: int|
            0 <= j < st.len() ==> #[trigger] s.subrange(
                st[j],
                st[j] + pattern_entry_bytes(entries[0 + j]).len(),
            ) == pattern_entry_bytes(entries[0 + j]) && st[j] + pattern_entry_bytes(
                entries[0 + j],
            ).len() <= s.len() && 0 <= st[j],
    ensures
        forall|j: int, e2: PatternBlockEntry|
            0 <= j < st.len() && #[trigger] pattern_entry_read(e2, s, st[j]) ==> same_pattern(
                e2,
                entries[j],
            ),
{
    assert forall|j: int, e2: PatternBlockEntry|
        0 <= j < st.len() && #[trigger] pattern_entry_read(e2, s, st[j]) implies same_pattern(
            e2,
            entries[j],
        ) by {
        assert(entries[0 + j] == entries[j]);
        assert(s.subrange(st[j], st[j] + pattern_entry_bytes(entries[0 + j]).len()) == pattern_entry_bytes(
            entries[0 + j],
        ));
        assert(pattern_entry_storable(entries[j]));
        lemma_read_where_stored(s, st[j], entries[j], e2);
    }
}

} // verus!

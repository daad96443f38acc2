//! Annotations (the `Anno` tagged block): text notes placed on the
//! canvas, each with a position, a color, an author and its text.

use crate::additional_info::{
    padded_pascal_bytes, read_pascal_string_with_padding, write_pascal_string_with_padding,
    AnnotationItem,
};
use crate::bytes::{be16, be16_list, be32, i32_bits, lemma_be16_list_len};
use crate::io::writer::PsdWriter;
use vstd::std_specs::iter::IteratorSpec;
use crate::bytes::{read16, read32, u32_as_i32};
use crate::patterns::after_starts;
use crate::error::{invalid_format, PsdResult};
use crate::io::reader::code_units;
use crate::reader::{legacy_unit_chars, PsdReader};
use crate::strings::{str_equal, utf8_text};
use vstd::prelude::*;

verus! {

/// Where a string stored with a 32-bit length that counts a trailing NUL
/// ends.
pub open spec fn padded_end(b: Seq<u8>, p: int) -> int {
    p + 4 + read32(b, p)
}

/// The text of such a string: empty for a zero length, else the bytes
/// before the NUL as UTF-8.
pub open spec fn padded_text(b: Seq<u8>, p: int) -> Seq<char> {
    let n = read32(b, p) as int;
    if n == 0 {
        Seq::<char>::empty()
    } else {
        utf8_text(b.subrange(p + 4, p + 4 + n - 1))
    }
}

/// A stored 16-bit color component scaled to 8 bits, rounded.
pub open spec fn component_to_byte(v: u16) -> u16 {
    ((v * 255 + 32767) / 65535) as u16
}

/// Where the author of an annotation whose item starts at `s` begins.
pub open spec fn anno_author_at(s: int) -> int {
    s + 50
}

/// Where the text block of an annotation whose item starts at `s`
/// begins: after the author, an empty string and the date.
pub open spec fn anno_text_block_at(b: Seq<u8>, s: int) -> int {
    padded_end(b, padded_end(b, padded_end(b, anno_author_at(s))))
}

/// How many code units of text an annotation's text block announces:
/// half its byte count.
pub open spec fn anno_unit_count(b: Seq<u8>, s: int) -> int {
    read32(b, anno_text_block_at(b, s) + 8) as int / 2
}

/// Where the text of an annotation item ends.
pub open spec fn anno_text_end(b: Seq<u8>, s: int) -> int {
    anno_text_block_at(b, s) + 14 + 2 * anno_unit_count(b, s)
}

/// Whether the annotation item at `s` reads: its `txtA` signature, its
/// fixed fields, the three strings, the text block's length, its `txtC`
/// signature and byte count, and the text's code units are present, and
/// the signatures match.
pub open spec fn anno_item_reads(b: Seq<u8>, s: int) -> bool {
    let t = anno_text_block_at(b, s);
    let a1 = padded_end(b, anno_author_at(s));
    let a2 = padded_end(b, a1);
    &&& s + 50 <= b.len()
    &&& utf8_text(b.subrange(s, s + 4)) == "txtA"@
    &&& a1 <= b.len()
    &&& a2 <= b.len()
    &&& t <= b.len()
    &&& t + 12 <= b.len()
    &&& utf8_text(b.subrange(t + 4, t + 8)) == "txtC"@
    &&& (anno_unit_count(b, s) == 0 || anno_text_end(b, s) <= b.len())
}

/// Where reading an annotation item of `length` bytes at `s` ends: bytes
/// it leaves unread before `length` are skipped.
pub open spec fn anno_item_end(b: Seq<u8>, s: int, length: int) -> int {
    if anno_text_end(b, s) - s < length {
        s + length
    } else {
        anno_text_end(b, s)
    }
}

/// Whether `item` holds what the annotation item at `s` stores: its
/// position, its color scaled to 8 bits, its author and its text, whose
/// zero units and surrogates are dropped.
pub open spec fn anno_item_read(item: AnnotationItem, b: Seq<u8>, s: int) -> bool {
    &&& item.x == u32_as_i32(read32(b, s + 8))
    &&& item.y == u32_as_i32(read32(b, s + 12))
    &&& item.color_l == component_to_byte(read16(b, s + 42))
    &&& item.color_o == component_to_byte(read16(b, s + 44))
    &&& item.color_c == component_to_byte(read16(b, s + 46))
    &&& item.author@ == padded_text(b, anno_author_at(s))
    &&& item.text@ == legacy_unit_chars(
        code_units(b, anno_text_block_at(b, s) + 14, anno_unit_count(b, s)),
    )
}

/// Scales a stored 16-bit color component to 8 bits.
fn scale_component(v: u16) -> (r: u16)
    ensures
        r == component_to_byte(v),
{
    (((v as u32) * 255 + 32767) / 65535) as u8 as u16
}

/// Reads the 32-bit length of a string that counts its NUL, then the
/// string; see `padded_text`.
fn read_padded(reader: &mut PsdReader) -> (r: PsdResult<String>)
    requires
        old(reader).offset + 5 + u32::MAX <= u64::MAX,
    ensures
        ({
            let b = old(reader).input();
            let p = old(reader).position as int;
            match r {
                Ok(s) => old(reader).can_read(4 + read32(b, p)) && s@ == padded_text(b, p) && old(
                    reader,
                ).moved(final(reader), 4 + read32(b, p)),
                Err(e) => e is Io && !old(reader).can_read(4 + read32(b, p)),
            }
        }),
        r is Err ==> final(reader).same_source(old(reader)),
{
    read_pascal_string_with_padding(reader)
}

/// Reads the fixed part of an annotation item: the `txtA` signature,
/// four bytes, the position, 24 bytes, then the color.
fn read_annotation_head(reader: &mut PsdReader) -> (r: PsdResult<(i32, i32, u16, u16, u16)>)
    requires
        old(reader).has_headroom(0x8_0000_0000),
        old(reader).position <= old(reader).input().len(),
    ensures
        ({
            let b = old(reader).input();
            let s = old(reader).position as int;
            let ok = s + 50 <= b.len() && utf8_text(b.subrange(s, s + 4)) == "txtA"@;
            match r {
                Ok((x, y, cr, cg, cb)) => ok && x == u32_as_i32(read32(b, s + 8)) && y == u32_as_i32(
                    read32(b, s + 12),
                ) && cr == component_to_byte(read16(b, s + 42)) && cg == component_to_byte(
                    read16(b, s + 44),
                ) && cb == component_to_byte(read16(b, s + 46)) && old(reader).moved(
                    final(reader),
                    50,
                ),
                Err(e) => !ok && (e is Io || e is InvalidFormat),
            }
        }),
        r is Err ==> final(reader).same_source(old(reader)),
{
    let signature = reader.read_signature()?;
    if !str_equal(signature.as_str(), "txtA") {
        return Err(invalid_format("Unexpected annotation signature"));
    }
    reader.skip_bytes(4)?;
    let x = reader.read_i32()?;
    let y = reader.read_i32()?;
    reader.skip_bytes(24)?;
    let _color_space = reader.read_u16()?;
    let color_r = scale_component(reader.read_u16()?);
    let color_g = scale_component(reader.read_u16()?);
    let color_b = scale_component(reader.read_u16()?);
    let _color_pad = reader.read_u16()?;
    Ok((x, y, color_r, color_g, color_b))
}

/// Reads the author, an empty string and the date of an annotation item;
/// gives the author.
fn read_annotation_strings(reader: &mut PsdReader) -> (r: PsdResult<String>)
    requires
        old(reader).has_headroom(0x8_0000_0000),
        old(reader).position <= old(reader).input().len(),
    ensures
        ({
            let b = old(reader).input();
            let a0 = old(reader).position as int;
            let a1 = padded_end(b, a0);
            let a2 = padded_end(b, a1);
            let a3 = padded_end(b, a2);
            let ok = a1 <= b.len() && a2 <= b.len() && a3 <= b.len();
            match r {
                Ok(author) => ok && author@ == padded_text(b, a0) && old(reader).moved(
                    final(reader),
                    a3 - a0,
                ),
                Err(e) => !ok && e is Io,
            }
        }),
        r is Err ==> final(reader).same_source(old(reader)),
{
    let author = read_padded(reader)?;
    let _empty = read_padded(reader)?;
    let _date = read_padded(reader)?;
    Ok(author)
}

/// Reads the text block of an annotation item: its length, the `txtC`
/// signature, the byte count, two bytes, then half the byte count of
/// code units.
fn read_annotation_text(reader: &mut PsdReader) -> (r: PsdResult<String>)
    requires
        old(reader).has_headroom(0x8_0000_0000),
        old(reader).position <= old(reader).input().len(),
    ensures
        ({
            let b = old(reader).input();
            let t = old(reader).position as int;
            let count = read32(b, t + 8) as int / 2;
            let ok = t + 12 <= b.len() && utf8_text(b.subrange(t + 4, t + 8)) == "txtC"@ && (count
                == 0 || t + 14 + 2 * count <= b.len());
            match r {
                Ok(text) => ok && text@ == legacy_unit_chars(code_units(b, t + 14, count)) && old(
                    reader,
                ).moved(final(reader), 14 + 2 * count),
                Err(e) => !ok && (e is Io || e is InvalidFormat),
            }
        }),
        r is Err ==> final(reader).same_source(old(reader)),
{
    let _text_len = reader.read_u32()?;
    let block = reader.read_signature()?;
    if !str_equal(block.as_str(), "txtC") {
        return Err(invalid_format("Unexpected annotation text block"));
    }
    let chars_len = reader.read_u32()? as usize;
    reader.skip_bytes(2)?;
    reader.read_unicode_string_with_length(chars_len / 2)
}

/// Reads an annotation item of `length` bytes (see `anno_item_read`).
pub fn read_annotation_item(reader: &mut PsdReader, length: usize) -> (r: PsdResult<AnnotationItem>)
    requires
        length <= u32::MAX,
        old(reader).has_headroom(0x8_0000_0000),
        old(reader).position <= old(reader).input().len(),
    ensures
        ({
            let b = old(reader).input();
            let s = old(reader).position as int;
            match r {
                Ok(item) => anno_item_reads(b, s) && anno_item_read(item, b, s) && old(reader).moved(
                    final(reader),
                    anno_item_end(b, s, length as int) - s,
                ),
                Err(e) => !anno_item_reads(b, s) && (e is Io || e is InvalidFormat),
            }
        }),
        r is Err ==> final(reader).same_source(old(reader)),
{
    let ghost b = reader.input();
    let ghost s = reader.position as int;
    let item_start = reader.offset;
    let (x, y, color_r, color_g, color_b) = read_annotation_head(reader)?;
    let author = read_annotation_strings(reader)?;
    assert(reader.position == anno_text_block_at(b, s));
    let text = read_annotation_text(reader)?;
    assert(reader.offset == item_start + (reader.position - s));
    let consumed = reader.offset - item_start;
    if consumed < length as u64 {
        reader.skip_bytes((length as u64 - consumed) as usize)?;
    }
    Ok(AnnotationItem { x, y, color_l: color_r, color_o: color_g, color_c: color_b, author, text })
}


/// The annotation items from item `k` on, of `count`, read from `pos`:
/// each a 32-bit length and the item.  The result is where each item
/// starts and where reading ends; `None` where an item does not read.
pub open spec fn annotations_from(b: Seq<u8>, pos: int, count: int, k: int) -> Option<
    (Seq<int>, int),
>
    decreases count - k,
{
    if k >= count {
        Some((seq![], pos))
    } else if pos + 4 > b.len() || !anno_item_reads(b, pos + 4) {
        None
    } else {
        after_starts(
            seq![pos + 4],
            annotations_from(b, anno_item_end(b, pos + 4, read32(b, pos) as int), count, k + 1),
        )
    }
}

/// An annotation item that reads ends past its start and at most two
/// bytes past the input, or where its length says.
proof fn lemma_anno_end(b: Seq<u8>, s: int, length: int)
    requires
        anno_item_reads(b, s),
        0 <= length,
    ensures
        s <= anno_item_end(b, s, length) <= b.len() + 2 + length,
{
}

/// Reads annotations (Anno): a 16-bit major and minor version, a 32-bit
/// item count, then the items (see `annotations_from` and
/// `anno_item_read`).
pub fn read_annotations(reader: &mut PsdReader) -> (r: PsdResult<Vec<AnnotationItem>>)
    requires
        old(reader).has_headroom(0x10_0000_0000),
    ensures
        ({
            let b = old(reader).input();
            let p = old(reader).position as int;
            let found = annotations_from(b, p + 8, read32(b, p + 4) as int, 0);
            match r {
                Ok(items) => {
                    &&& p + 8 <= b.len()
                    &&& found matches Some((starts, end)) && items@.len() == starts.len() && (forall|
                        i: int,
                    |
                        0 <= i < starts.len() ==> anno_item_read(#[trigger] items@[i], b, starts[i]))
                        && old(reader).moved(final(reader), end - p)
                },
                Err(e) => (p + 8 > b.len() || found is None) && (e is Io || e is InvalidFormat),
            }
        }),
        r is Err ==> final(reader).same_source(old(reader)),
{
    let ghost s0 = *reader;
    let ghost b = reader.input();
    let ghost p = reader.position as int;
    let _major = reader.read_u16()?;
    let _minor = reader.read_u16()?;
    let count = reader.read_u32()?;
    let ghost target = annotations_from(b, p + 8, count as int, 0);
    let ghost mut starts: Seq<int> = seq![];
    let mut items: Vec<AnnotationItem> = Vec::new();
    let mut k: u32 = 0;
    assert(target == after_starts(starts, annotations_from(b, p + 8, count as int, 0))) by {
        if let Some((rest, e)) = target {
            assert(starts + rest =~= rest);
        }
    }
    while k < count
        invariant
            k <= count,
            count == read32(b, p + 4),
            s0 == *old(reader),
            b == s0.input(),
            p == s0.position,
            s0.has_headroom(0x10_0000_0000),
            s0.same_source(reader),
            reader.offset - reader.position == s0.offset - s0.position,
            reader.position >= p + 8,
            reader.offset + 0x8_0000_0000 <= u64::MAX,
            p + 8 <= b.len(),
            target == annotations_from(b, p + 8, count as int, 0),
            target == after_starts(
                starts,
                annotations_from(b, reader.position as int, count as int, k as int),
            ),
            items@.len() == starts.len(),
            forall|i: int| 0 <= i < starts.len() ==> anno_item_read(#[trigger] items@[i], b, starts[i]),
        decreases count - k,
    {
        let ghost pos = reader.position as int;
        let ghost prev = items@;
        let item_length = reader.read_u32()? as usize;
        let item = match read_annotation_item(reader, item_length) {
            Ok(item) => item,
            Err(e) => {
                return Err(e);
            },
        };
        proof {
            lemma_anno_end(b, pos + 4, item_length as int);
        }
        items.push(item);
        proof {
            let old_starts = starts;
            starts = starts.push(pos + 4);
            match annotations_from(b, reader.position as int, count as int, k + 1) {
                Some((rest, e)) => {
                    assert(old_starts + (seq![pos + 4] + rest) =~= starts + rest);
                },
                None => {},
            }
            assert forall|i: int| 0 <= i < starts.len() implies anno_item_read(
                #[trigger] items@[i],
                b,
                starts[i],
            ) by {
                if i < old_starts.len() {
                    assert(items@[i] == prev[i]);
                }
            }
        }
        k += 1;
    }
    proof {
        assert(starts + seq![] =~= starts);
    }
    Ok(items)
}


/// The date every written annotation carries: `D:20211012120233+01'00'`.
pub open spec fn anno_date_bytes() -> Seq<u8> {
    seq![68u8, 58, 50, 48, 50, 49, 49, 48, 49, 50, 49, 50, 48, 50, 51, 51, 43, 48, 49, 39, 48, 48, 39]
}

/// An 8-bit color component stored as 16 bits, rounded (the low 16 bits
/// for values above 255).
pub open spec fn component_to_stored(v: u16) -> u16 {
    ((v * 65535 + 127) / 255) as u16
}

/// The code units written for a text: each character's low 16 bits.
pub open spec fn truncated_units(text: Seq<char>) -> Seq<u16> {
    Seq::new(text.len(), |i: int| (text[i] as u32 % 65536) as u16)
}

/// The fixed part of an annotation item: `txtA`, a version, the
/// position, the icon and popup rectangles and the color.
pub open spec fn anno_head_bytes(item: AnnotationItem) -> Seq<u8> {
    seq![116u8, 120, 116, 65, 1, 28] + be16(1) + be32(i32_bits(item.x)) + be32(i32_bits(item.y))
        + be32(17) + be32(21) + be32(i32_bits((item.x + 8) as i32)) + be32(
        i32_bits((item.y + 10) as i32),
    ) + be32(241) + be32(141) + be16(0) + be16(component_to_stored(item.color_l)) + be16(
        component_to_stored(item.color_o),
    ) + be16(component_to_stored(item.color_c)) + be16(0)
}

/// The strings of an annotation item: the author, an empty string and
/// the date.
pub open spec fn anno_strings_bytes(item: AnnotationItem) -> Seq<u8> {
    padded_pascal_bytes(vstd::utf8::encode_utf8(item.author@)) + padded_pascal_bytes(
        Seq::<u8>::empty(),
    ) + padded_pascal_bytes(anno_date_bytes())
}

/// The text block of an annotation item: its length, `txtC`, the text's
/// byte count (twice its UTF-8 length, plus two), a byte-order mark and
/// the text's units.
pub open spec fn anno_text_bytes(item: AnnotationItem) -> Seq<u8> {
    let l = vstd::utf8::encode_utf8(item.text@).len();
    be32((14 + 2 * l) as u32) + seq![116u8, 120, 116, 67] + be32((2 + 2 * l) as u32) + seq![
        254u8,
        255,
    ] + be16_list(truncated_units(item.text@))
}

/// The bytes of an annotation item: its fixed part, its strings, its text
/// block.
pub open spec fn anno_item_bytes(item: AnnotationItem) -> Seq<u8> {
    anno_head_bytes(item) + anno_strings_bytes(item) + anno_text_bytes(item)
}

/// Whether an annotation item can be written: its popup corner and the
/// text's byte count stay in range.
pub open spec fn anno_item_writable(item: AnnotationItem) -> bool {
    &&& item.x + 8 <= i32::MAX
    &&& item.y + 10 <= i32::MAX
    &&& 14 + 2 * vstd::utf8::encode_utf8(item.text@).len() <= usize::MAX
}

/// An item as the block stores it: its length, then its bytes.
pub open spec fn framed_anno_item(item: AnnotationItem) -> Seq<u8> {
    be32(anno_item_bytes(item).len() as u32) + anno_item_bytes(item)
}

/// The framed items, one after another.
pub open spec fn anno_items_bytes(items: Seq<AnnotationItem>) -> Seq<u8>
    decreases items.len(),
{
    if items.len() == 0 {
        Seq::<u8>::empty()
    } else {
        anno_items_bytes(items.drop_last()) + framed_anno_item(items.last())
    }
}

/// The bytes of an annotations block: version 2.1, the item count, then
/// the framed items.
pub open spec fn annotations_bytes(items: Seq<AnnotationItem>) -> Seq<u8> {
    be16(2) + be16(1) + be32(items.len() as u32) + anno_items_bytes(items)
}

/// The low 16 bits of each character of a text.
fn text_units(text: &str) -> (r: Vec<u16>)
    ensures
        r@ == truncated_units(text@),
{
    let ghost all = text@;
    let mut units: Vec<u16> = Vec::new();
    let mut chars = text.chars();
    loop
        invariant_except_break
            units@.len() <= all.len(),
            chars.remaining() == all.skip(units@.len() as int),
            units@ == truncated_units(all.take(units@.len() as int)),
        ensures
            units@ == truncated_units(all),
        decreases all.len() - units@.len(),
    {
        match chars.next() {
            Some(ch) => {
                proof {
                    assert(all.skip(units@.len() as int)[0] == all[units@.len() as int]);
                }
                units.push(((ch as u32) % 65536) as u16);
                assert(all.skip(units@.len() - 1).drop_first() =~= all.skip(units@.len() as int));
                assert(units@ =~= truncated_units(all.take(units@.len() as int)));
            },
            None => {
                assert(all.take(units@.len() as int) =~= all);
                break;
            },
        }
    }
    units
}

impl PsdWriter {
    /// Writes the fixed part of an annotation item.
    fn write_annotation_head(&mut self, item: &AnnotationItem) -> (r: PsdResult<()>)
        requires
            anno_item_writable(*item),
            old(self).offset + 50 <= usize::MAX,
        ensures
            r is Ok,
            old(self).appended(final(self), anno_head_bytes(*item)),
    {
        let ghost before = self.written();
        self.write_bytes(&[116u8, 120, 116, 65, 1, 28])?;
        self.write_u16(1)?;
        self.write_i32(item.x)?;
        self.write_i32(item.y)?;
        self.write_i32(17)?;
        self.write_i32(21)?;
        self.write_i32(item.x + 8)?;
        self.write_i32(item.y + 10)?;
        self.write_i32(241)?;
        self.write_i32(141)?;
        self.write_u16(0)?;
        self.write_u16(((item.color_l as u32 * 65535 + 127) / 255) as u16)?;
        self.write_u16(((item.color_o as u32 * 65535 + 127) / 255) as u16)?;
        self.write_u16(((item.color_c as u32 * 65535 + 127) / 255) as u16)?;
        self.write_u16(0)?;
        assert(self.written() =~= before + anno_head_bytes(*item));
        Ok(())
    }

    /// Writes the strings of an annotation item.
    fn write_annotation_strings(&mut self, item: &AnnotationItem) -> (r: PsdResult<()>)
        requires
            old(self).offset + anno_strings_bytes(*item).len() <= usize::MAX,
        ensures
            r is Ok,
            old(self).appended(final(self), anno_strings_bytes(*item)),
    {
        let ghost before = self.written();
        let date: [u8; 23] = [
            68,
            58,
            50,
            48,
            50,
            49,
            49,
            48,
            49,
            50,
            49,
            50,
            48,
            50,
            51,
            51,
            43,
            48,
            49,
            39,
            48,
            48,
            39,
        ];
        write_pascal_string_with_padding(self, item.author.as_str())?;
        let ghost mid = self.written();
        self.write_u32(1)?;
        self.write_u8(0)?;
        assert(self.written() =~= mid + padded_pascal_bytes(Seq::<u8>::empty()));
        let ghost mid2 = self.written();
        self.write_u32(24)?;
        self.write_bytes(&date)?;
        self.write_u8(0)?;
        assert(date@ =~= anno_date_bytes());
        assert(self.written() =~= mid2 + padded_pascal_bytes(anno_date_bytes()));
        assert(self.written() =~= before + anno_strings_bytes(*item));
        Ok(())
    }

    /// Writes the text block of an annotation item.
    fn write_annotation_text(&mut self, item: &AnnotationItem) -> (r: PsdResult<()>)
        requires
            anno_item_writable(*item),
            old(self).offset + anno_text_bytes(*item).len() <= usize::MAX,
        ensures
            r is Ok,
            old(self).appended(final(self), anno_text_bytes(*item)),
    {
        let ghost before = self.written();
        let units = text_units(item.text.as_str());
        let l = item.text.as_str().as_bytes().len();
        proof {
            lemma_be16_list_len(units@);
        }
        self.write_u32((12 + 2 + l * 2) as u32)?;
        self.write_bytes(&[116u8, 120, 116, 67])?;
        self.write_u32((2 + l * 2) as u32)?;
        self.write_u8(254)?;
        self.write_u8(255)?;
        self.write_units(&units)?;
        assert(self.written() =~= before + anno_text_bytes(*item));
        Ok(())
    }

    /// Writes the bytes of an annotation item (see `anno_item_bytes`).
    fn write_annotation_item(&mut self, item: &AnnotationItem) -> (r: PsdResult<()>)
        requires
            anno_item_writable(*item),
            old(self).offset + anno_item_bytes(*item).len() <= usize::MAX,
        ensures
            r is Ok,
            old(self).appended(final(self), anno_item_bytes(*item)),
    {
        let ghost before = self.written();
        self.write_annotation_head(item)?;
        self.write_annotation_strings(item)?;
        self.write_annotation_text(item)?;
        assert(self.written() =~= before + anno_item_bytes(*item));
        Ok(())
    }
}


/// Whether every item of a list can be written.
pub open spec fn anno_items_writable(items: Seq<AnnotationItem>) -> bool {
    forall|i: int| 0 <= i < items.len() ==> anno_item_writable(#[trigger] items[i])
}

/// The framed items of the first `k` items are a prefix of all of them.
proof fn lemma_anno_items_prefix(items: Seq<AnnotationItem>, k: int)
    requires
        0 <= k < items.len(),
    ensures
        anno_items_bytes(items.take(k)).len() + framed_anno_item(items[k]).len() <= anno_items_bytes(
            items,
        ).len(),
        anno_items_bytes(items.take(k + 1)) == anno_items_bytes(items.take(k)) + framed_anno_item(
            items[k],
        ),
    decreases items.len() - k,
{
    assert(items.take(k + 1).drop_last() =~= items.take(k));
    if k + 1 < items.len() {
        lemma_anno_items_prefix(items, k + 1);
    } else {
        assert(items.take(k + 1) =~= items);
    }
}

impl PsdWriter {
    /// Writes one item of an annotations block: its length and its bytes.
    fn write_framed_annotation(&mut self, item: &AnnotationItem) -> (r: PsdResult<()>)
        requires
            anno_item_writable(*item),
            old(self).offset + framed_anno_item(*item).len() <= usize::MAX,
        ensures
            r is Ok,
            old(self).appended(final(self), framed_anno_item(*item)),
    {
        let mut item_writer = PsdWriter::new(256);
        item_writer.write_annotation_item(item)?;
        let bytes = item_writer.into_buffer();
        let ghost before = self.written();
        self.write_u32(bytes.len() as u32)?;
        self.write_bytes(bytes.as_slice())?;
        assert(self.written() =~= before + framed_anno_item(*item));
        Ok(())
    }

    /// Writes an annotations block (see `annotations_bytes`).
    pub fn write_annotations(&mut self, items: &[AnnotationItem]) -> (r: PsdResult<()>)
        requires
            anno_items_writable(items@),
            old(self).offset + annotations_bytes(items@).len() <= usize::MAX,
        ensures
            r is Ok,
            old(self).appended(final(self), annotations_bytes(items@)),
    {
        let ghost before = self.written();
        let n = items.len();
        self.write_u16(2)?;
        self.write_u16(1)?;
        self.write_u32(n as u32)?;
        let ghost head = self.written();
        assert(head =~= before + (be16(2) + be16(1) + be32(n as u32)));
        assert(items@.take(0) =~= Seq::<AnnotationItem>::empty());
        let mut k: usize = 0;
        while k < n
            invariant
                n == items@.len(),
                k <= n,
                anno_items_writable(items@),
                old(self).offset + annotations_bytes(items@).len() <= usize::MAX,
                head == before + (be16(2) + be16(1) + be32(n as u32)),
                self.offset == old(self).offset + 8 + anno_items_bytes(items@.take(k as int)).len(),
                self.offset <= self.buffer@.len(),
                self.written() == head + anno_items_bytes(items@.take(k as int)),
                self.large == old(self).large,
                self.color_mode == old(self).color_mode,
                self.global_alpha == old(self).global_alpha,
                before == old(self).written(),
            decreases n - k,
        {
            proof {
                lemma_anno_items_prefix(items@, k as int);
            }
            self.write_framed_annotation(&items[k])?;
            k += 1;
            assert(self.written() =~= head + anno_items_bytes(items@.take(k as int)));
        }
        assert(items@.take(n as int) =~= items@);
        assert(self.written() =~= before + annotations_bytes(items@));
        Ok(())
    }
}


/// An 8-bit color component stored as 16 bits reads back unchanged.
pub proof fn law_annotation_color_roundtrip(v: u16)
    requires
        v <= 255,
    ensures
        component_to_stored(v) == 257 * v,
        component_to_byte(component_to_stored(v)) == v,
{
    assert((v * 65535 + 127) / 255 == 257 * v) by (nonlinear_arith)
        requires
            v <= 255,
    ;
    assert((257 * v * 255 + 32767) / 65535 == v) by (nonlinear_arith)
        requires
            v <= 255,
    ;
}

} // verus!

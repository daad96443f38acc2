//! Compression and decompression of PSD channel data: PackBits (RLE) and
//! ZIP with and without prediction.

use crate::bytes::{be16, be16_list, push_be16, read16};
use crate::error::{compression_error, decimal, error_detail, unsupported_depth, PsdError, PsdResult};
use vstd::prelude::*;

verus! {

// ---------------------------------------------------------------------
// PackBits decoding
// ---------------------------------------------------------------------

/// Distance from `pos` to `end`, or zero once `pos` has reached it.
pub open spec fn distance(pos: int, end: int) -> int {
    if pos < end {
        end - pos
    } else {
        0
    }
}

/// Decodes the PackBits packets of one row, starting at `pos` in `input`,
/// until `row_end` is reached or `cap` output bytes exist.  `None` when a
/// packet runs past the input or would write past `cap`.  The result is the
/// input position reached (never before `row_end`) and the output so far.
pub open spec fn unpack_row(input: Seq<u8>, pos: int, row_end: int, out: Seq<u8>, cap: int) -> Option<
    (int, Seq<u8>),
>
    decreases distance(pos, row_end),
{
    if pos >= row_end || out.len() >= cap {
        Some((if pos < row_end { row_end } else { pos }, out))
    } else if pos < 0 || pos >= input.len() {
        None
    } else if input[pos] == 128 {
        unpack_row(input, pos + 1, row_end, out, cap)
    } else if input[pos] > 128 {
        let count = 257 - input[pos];
        if pos + 1 >= input.len() || out.len() + count > cap {
            None
        } else {
            unpack_row(input, pos + 2, row_end, out + Seq::new(count as nat, |k: int| input[pos + 1]), cap)
        }
    } else {
        let count = input[pos] + 1;
        if pos + 1 + count > input.len() || out.len() + count > cap {
            None
        } else {
            unpack_row(input, pos + 1 + count, row_end, out + input.subrange(pos + 1, pos + 1 + count), cap)
        }
    }
}

/// The PackBits packets: a header below 128 is followed by that many bytes
/// plus one, copied as they are; a header above 128 by one byte repeated
/// 257 minus the header times; the header 128 is skipped.
pub proof fn law_packbits_packets(input: Seq<u8>, pos: int, row_end: int, out: Seq<u8>, cap: int)
    requires
        0 <= pos < row_end,
        pos < input.len(),
        out.len() < cap,
    ensures
        input[pos] < 128 && pos + 2 + input[pos] <= input.len() && out.len() + input[pos] + 1 <= cap
            ==> unpack_row(input, pos, row_end, out, cap) == unpack_row(
            input,
            pos + 2 + input[pos],
            row_end,
            out + input.subrange(pos + 1, pos + 2 + input[pos]),
            cap,
        ),
        input[pos] > 128 && pos + 1 < input.len() && out.len() + 257 - input[pos] <= cap ==> unpack_row(
            input,
            pos,
            row_end,
            out,
            cap,
        ) == unpack_row(
            input,
            pos + 2,
            row_end,
            out + Seq::new((257 - input[pos]) as nat, |k: int| input[pos + 1]),
            cap,
        ),
        input[pos] == 128 ==> unpack_row(input, pos, row_end, out, cap) == unpack_row(
            input,
            pos + 1,
            row_end,
            out,
            cap,
        ),
        input[pos] < 128 && pos + 2 + input[pos] > input.len() ==> unpack_row(input, pos, row_end, out, cap) is None,
        input[pos] > 128 && pos + 1 >= input.len() ==> unpack_row(input, pos, row_end, out, cap) is None,
{
}

/// Decodes rows `row..height`; row `r` spans `counts[r]` input bytes from
/// where the previous row's packets ended.
pub open spec fn unpack_rows(
    input: Seq<u8>,
    pos: int,
    counts: Seq<u16>,
    row: int,
    height: int,
    out: Seq<u8>,
    cap: int,
) -> Option<Seq<u8>>
    decreases distance(row, height),
{
    if row >= height {
        Some(out)
    } else if pos + counts[row] > input.len() {
        None
    } else {
        match unpack_row(input, pos, pos + counts[row], out, cap) {
            None => None,
            Some((p, o)) => unpack_rows(input, p, counts, row + 1, height, o, cap),
        }
    }
}

/// The bytes PackBits decoding of `height` rows produces into a buffer of
/// `cap` bytes, or `None` when the stream is malformed.
pub open spec fn rle_decode(input: Seq<u8>, counts: Seq<u16>, height: int, cap: int) -> Option<
    Seq<u8>,
> {
    if counts.len() < height {
        None
    } else {
        unpack_rows(input, 0, counts, 0, height, seq![], cap)
    }
}

/// What remains of the decoding of the current row and the rows after it.
pub open spec fn finish_rows(
    input: Seq<u8>,
    pos: int,
    row_end: int,
    counts: Seq<u16>,
    next_row: int,
    height: int,
    out: Seq<u8>,
    cap: int,
) -> Option<Seq<u8>> {
    match unpack_row(input, pos, row_end, out, cap) {
        None => None,
        Some((p, o)) => unpack_rows(input, p, counts, next_row, height, o, cap),
    }
}

proof fn lemma_unpack_row_len(input: Seq<u8>, pos: int, row_end: int, out: Seq<u8>, cap: int)
    requires
        out.len() <= cap,
    ensures
        unpack_row(input, pos, row_end, out, cap) matches Some((p, o)) ==> o.len() <= cap && p
            >= row_end && out.is_prefix_of(o),
    decreases distance(pos, row_end),
{
    if pos >= row_end || out.len() >= cap {
    } else if pos < 0 || pos >= input.len() {
    } else if input[pos] == 128 {
        lemma_unpack_row_len(input, pos + 1, row_end, out, cap);
    } else if input[pos] > 128 {
        let count = 257 - input[pos];
        if pos + 1 >= input.len() || out.len() + count > cap {
        } else {
            let o2 = out + Seq::new(count as nat, |k: int| input[pos + 1]);
            lemma_unpack_row_len(input, pos + 2, row_end, o2, cap);
            if let Some((p, o)) = unpack_row(input, pos + 2, row_end, o2, cap) {
                assert(out.is_prefix_of(o2));
                assert(out.is_prefix_of(o));
            }
        }
    } else {
        let count = input[pos] + 1;
        if pos + 1 + count > input.len() || out.len() + count > cap {
        } else {
            let o2 = out + input.subrange(pos + 1, pos + 1 + count);
            lemma_unpack_row_len(input, pos + 1 + count, row_end, o2, cap);
            if let Some((p, o)) = unpack_row(input, pos + 1 + count, row_end, o2, cap) {
                assert(out.is_prefix_of(o2));
                assert(out.is_prefix_of(o));
            }
        }
    }
}

proof fn lemma_unpack_rows_len(
    input: Seq<u8>,
    pos: int,
    counts: Seq<u16>,
    row: int,
    height: int,
    out: Seq<u8>,
    cap: int,
)
    requires
        out.len() <= cap,
    ensures
        unpack_rows(input, pos, counts, row, height, out, cap) matches Some(o) ==> o.len() <= cap,
    decreases distance(row, height),
{
    if row < height && pos + counts[row] <= input.len() {
        lemma_unpack_row_len(input, pos, pos + counts[row], out, cap);
        if let Some((p, o)) = unpack_row(input, pos, pos + counts[row], out, cap) {
            lemma_unpack_rows_len(input, p, counts, row + 1, height, o, cap);
        }
    }
}

/// Decompresses PackBits (RLE) data row by row into `output`.
///
/// Row `r` of the input spans `byte_counts[r]` bytes; decoding stops early
/// when `output` is full, and unread bytes of a row are skipped.
pub fn decompress_rle(
    input: &[u8],
    output: &mut [u8],
    _width: usize,
    height: usize,
    byte_counts: &[u16],
) -> (r: PsdResult<()>)
    ensures
        final(output)@.len() == old(output)@.len(),
        r is Ok <==> rle_decode(input@, byte_counts@, height as int, old(output)@.len() as int) is Some,
        byte_counts@.len() < height ==> final(output)@ == old(output)@,
        byte_counts@.len() < height ==> (r matches Err(e) && error_detail(e)
            == "RLE: missing row byte counts"@),
        r is Ok ==> ({
            let d = rle_decode(input@, byte_counts@, height as int, old(output)@.len() as int)->0;
            d.len() <= old(output)@.len() && final(output)@ == d + old(output)@.skip(d.len() as int)
        }),
        r matches Err(e) ==> e is Compression,
{
    let ghost out0 = old(output)@;
    let ghost cap = old(output)@.len() as int;
    let ghost target = rle_decode(input@, byte_counts@, height as int, cap);
    let ghost mut og: Seq<u8> = seq![];
    let mut input_pos: usize = 0;
    let mut output_pos: usize = 0;

    if byte_counts.len() < height {
        return Err(compression_error("RLE: missing row byte counts"));
    }
    let mut row: usize = 0;
    while row < height
        invariant
            row <= height,
            byte_counts@.len() >= height,
            cap == out0.len(),
                out0 == old(output)@,
            output@.len() == out0.len(),
            output_pos == og.len(),
            og.len() <= cap,
            output@ == og + out0.skip(og.len() as int),
            input_pos <= input@.len(),
            target == rle_decode(input@, byte_counts@, height as int, cap),
            unpack_rows(input@, input_pos as int, byte_counts@, row as int, height as int, og, cap)
                == target,
        decreases height - row,
    {
        let byte_count = byte_counts[row] as usize;
        let row_end = match input_pos.checked_add(byte_count) {
            Some(v) => v,
            None => {
                assert(input_pos + byte_count > usize::MAX);
                assert(byte_count == byte_counts@[row as int]);
                let input_len = input.len();
                assert(input@.len() <= usize::MAX);
                assert(input_pos + byte_counts@[row as int] > input@.len());
                assert(unpack_rows(input@, input_pos as int, byte_counts@, row as int, height as int, og, cap) is None);
                return Err(compression_error("RLE: row size overflow"));
            },
        };
        if row_end > input.len() {
            assert(unpack_rows(input@, input_pos as int, byte_counts@, row as int, height as int, og, cap) is None);
            return Err(compression_error("RLE: row exceeds input length"));
        }
        assert(finish_rows(
            input@,
            input_pos as int,
            row_end as int,
            byte_counts@,
            row + 1,
            height as int,
            og,
            cap,
        ) == target);

        while input_pos < row_end && output_pos < output.len()
            invariant
                row < height,
                byte_counts@.len() >= height,
                cap == out0.len(),
                out0 == old(output)@,
                output@.len() == out0.len(),
                output_pos == og.len(),
                og.len() <= cap,
                output@ == og + out0.skip(og.len() as int),
                row_end <= input@.len(),
                input_pos <= input@.len(),
                target == rle_decode(input@, byte_counts@, height as int, cap),
                finish_rows(
                    input@,
                    input_pos as int,
                    row_end as int,
                    byte_counts@,
                    row + 1,
                    height as int,
                    og,
                    cap,
                ) == target,
            decreases distance(input_pos as int, row_end as int),
        {
            let header = input[input_pos];
            input_pos += 1;

            if header == 128 {
                continue;
            } else if header > 128 {
                let count = 257usize - header as usize;
                if input_pos >= input.len() {
                    assert(unpack_row(input@, input_pos - 1, row_end as int, og, cap) is None);
                    return Err(compression_error("RLE: unexpected end of input"));
                }
                let value = input[input_pos];
                input_pos += 1;
                let ghost og_start = og;
                let ghost hdr = (input_pos - 2) as int;
                let mut k: usize = 0;
                while k < count
                    invariant
                        k <= count,
                        byte_counts@.len() >= height,
                        output@.len() == out0.len(),
                        cap == out0.len(),
                out0 == old(output)@,
                        og_start.len() < cap,
                        output_pos == og_start.len() + k,
                        output@ == og_start + Seq::new(k as nat, |j: int| value) + out0.skip(
                            og_start.len() + k,
                        ),
                        0 <= hdr < row_end <= input@.len(),
                        hdr + 1 < input@.len(),
                        input@[hdr] == header,
                        header > 128,
                        count == 257 - header,
                        value == input@[hdr + 1],
                        target == rle_decode(input@, byte_counts@, height as int, cap),
                        finish_rows(input@, hdr, row_end as int, byte_counts@, row + 1, height as int, og_start, cap) == target,
                    decreases count - k,
                {
                    if output_pos >= output.len() {
                        assert(unpack_row(input@, hdr, row_end as int, og_start, cap) is None);
                        return Err(compression_error("RLE: output overflow"));
                    }
                    output[output_pos] = value;
                    output_pos += 1;
                    k += 1;
                    assert(output@ =~= og_start + Seq::new(k as nat, |j: int| value) + out0.skip(
                        og_start.len() + k,
                    ));
                }
                proof {
                    og = og_start + Seq::new(count as nat, |j: int| value);
                }
            } else {
                let count = header as usize + 1;
                let ghost og_start = og;
                let ghost in_start = input_pos as int;
                let ghost hdr = (input_pos - 1) as int;
                let mut k: usize = 0;
                while k < count
                    invariant
                        k <= count,
                        byte_counts@.len() >= height,
                        output@.len() == out0.len(),
                        cap == out0.len(),
                out0 == old(output)@,
                        og_start.len() < cap,
                        output_pos == og_start.len() + k,
                        input_pos == in_start + k,
                        in_start <= input@.len(),
                        in_start + k <= input@.len(),
                        output@ == og_start + input@.subrange(in_start, in_start + k) + out0.skip(
                            og_start.len() + k,
                        ),
                        hdr == in_start - 1,
                        0 <= hdr < row_end <= input@.len(),
                        input@[hdr] == header,
                        header < 128,
                        count == header + 1,
                        target == rle_decode(input@, byte_counts@, height as int, cap),
                        finish_rows(input@, hdr, row_end as int, byte_counts@, row + 1, height as int, og_start, cap) == target,
                    decreases count - k,
                {
                    if input_pos >= input.len() {
                        assert(unpack_row(input@, hdr, row_end as int, og_start, cap) is None);
                        return Err(compression_error("RLE: unexpected end of input"));
                    }
                    if output_pos >= output.len() {
                        assert(unpack_row(input@, hdr, row_end as int, og_start, cap) is None);
                        return Err(compression_error("RLE: output overflow"));
                    }
                    output[output_pos] = input[input_pos];
                    input_pos += 1;
                    output_pos += 1;
                    k += 1;
                    assert(output@ =~= og_start + input@.subrange(in_start, in_start + k)
                        + out0.skip(og_start.len() + k));
                }
                proof {
                    og = og_start + input@.subrange(in_start, in_start + count);
                }
            }
        }

        if input_pos < row_end {
            input_pos = row_end;
        }
        row += 1;
    }
    proof {
        lemma_unpack_rows_len(input@, 0, byte_counts@, 0, height as int, seq![], cap);
    }
    Ok(())
}


// ---------------------------------------------------------------------
// PackBits encoding
// ---------------------------------------------------------------------

/// Length of the run of bytes equal to `row[i]` that starts at `i`,
/// counted on from `k` and capped at 128.
pub open spec fn run_len_from(row: Seq<u8>, i: int, k: int) -> int
    decreases 128 - k,
{
    if 0 <= k < 128 && 0 <= i && i + k < row.len() && row[i + k] == row[i] {
        run_len_from(row, i, k + 1)
    } else {
        k
    }
}

/// Whether three equal bytes start at `j`.
pub open spec fn starts_triple(row: Seq<u8>, j: int) -> bool {
    0 <= j && j + 2 < row.len() && row[j] == row[j + 1] && row[j] == row[j + 2]
}

/// Length of the literal block that starts at `i`, counted on from `n`: it
/// grows up to 128 bytes and stops at the end of the row or in front of
/// three equal bytes.
pub open spec fn literal_len(row: Seq<u8>, i: int, n: int) -> int
    decreases 128 - n,
{
    if 0 <= n < 128 && i + n < row.len() && !starts_triple(row, i + n) {
        literal_len(row, i, n + 1)
    } else {
        n
    }
}

/// PackBits packets for `row[i..]`: runs of three to 128 equal bytes become
/// a header `257 - run` and the byte; other bytes go out in literal blocks
/// of at most 128, headed by their length minus one.
pub open spec fn pack_from(row: Seq<u8>, i: int) -> Seq<u8>
    decreases distance(i, row.len() as int),
{
    if i < 0 || i >= row.len() {
        seq![]
    } else {
        let r = run_len_from(row, i, 1);
        if r >= 3 {
            seq![(257 - r) as u8, row[i]] + pack_from(row, i + r)
        } else {
            let l0 = literal_len(row, i, 0);
            let l = if l0 <= 0 {
                1
            } else {
                l0
            };
            seq![(l - 1) as u8] + row.subrange(i, i + l) + pack_from(row, i + l)
        }
    }
}

/// PackBits encoding of a whole row.
pub open spec fn pack_row(row: Seq<u8>) -> Seq<u8> {
    pack_from(row, 0)
}

/// Row `y` of an image `w` bytes wide.
pub open spec fn image_row(data: Seq<u8>, w: int, y: int) -> Seq<u8> {
    data.subrange(y * w, y * w + w)
}

/// Packed rows `y..h`, concatenated.
pub open spec fn packed_rows_from(data: Seq<u8>, w: int, y: int, h: int) -> Seq<u8>
    decreases distance(y, h),
{
    if y >= h {
        seq![]
    } else {
        pack_row(image_row(data, w, y)) + packed_rows_from(data, w, y + 1, h)
    }
}

/// Byte counts of packed rows `y..h` as the 16-bit values written out.
pub open spec fn row_counts_from(data: Seq<u8>, w: int, y: int, h: int) -> Seq<u16>
    decreases distance(y, h),
{
    if y >= h {
        seq![]
    } else {
        seq![pack_row(image_row(data, w, y)).len() as u16] + row_counts_from(data, w, y + 1, h)
    }
}

/// The output of `compress_rle`: the big-endian byte count of every packed
/// row, then the packed rows.
pub open spec fn rle_encode(data: Seq<u8>, w: int, h: int) -> Seq<u8> {
    be16_list(row_counts_from(data, w, 0, h)) + packed_rows_from(data, w, 0, h)
}

proof fn lemma_run_len(row: Seq<u8>, i: int, k: int)
    requires
        0 <= i < row.len(),
        1 <= k <= 128,
        i + k <= row.len(),
        forall|j: int| 0 <= j < k ==> #[trigger] row[i + j] == row[i],
    ensures
        k <= run_len_from(row, i, k) <= 128,
        i + run_len_from(row, i, k) <= row.len(),
        forall|j: int| 0 <= j < run_len_from(row, i, k) ==> #[trigger] row[i + j] == row[i],
    decreases 128 - k,
{
    if k < 128 && i + k < row.len() && row[i + k] == row[i] {
        lemma_run_len(row, i, k + 1);
    }
}

proof fn lemma_literal_len(row: Seq<u8>, i: int, n: int)
    requires
        0 <= i,
        0 <= n <= 128,
        i + n <= row.len(),
    ensures
        n <= literal_len(row, i, n) <= 128,
        i + literal_len(row, i, n) <= row.len(),
    decreases 128 - n,
{
    if n < 128 && i + n < row.len() && !starts_triple(row, i + n) {
        lemma_literal_len(row, i, n + 1);
    }
}

/// Decoding the packets of `pack_from(row, i)` gives back `row[i..]`.
proof fn lemma_unpack_pack_from(row: Seq<u8>, i: int, input: Seq<u8>, p: int, out: Seq<u8>, cap: int)
    requires
        0 <= i <= row.len(),
        0 <= p,
        p + pack_from(row, i).len() <= input.len(),
        input.subrange(p, p + pack_from(row, i).len()) == pack_from(row, i),
        out.len() + (row.len() - i) <= cap,
    ensures
        unpack_row(input, p, p + pack_from(row, i).len(), out, cap) == Some(
            (p + pack_from(row, i).len(), out + row.subrange(i, row.len() as int)),
        ),
    decreases row.len() - i,
{
    let packed = pack_from(row, i);
    let end = p + packed.len();
    if i >= row.len() {
        assert(row.subrange(i, row.len() as int) =~= seq![]);
        assert(out + seq![] =~= out);
    } else {
        let r = run_len_from(row, i, 1);
        lemma_run_len(row, i, 1);
        if r >= 3 {
            let rest = pack_from(row, i + r);
            assert(packed == seq![(257 - r) as u8, row[i]] + rest);
            assert(input[p] == packed[0]);
            assert(input[p + 1] == packed[1]);
            assert(input.subrange(p + 2, p + 2 + rest.len()) =~= rest) by {
                assert forall|j: int| 0 <= j < rest.len() implies #[trigger] input.subrange(
                    p + 2,
                    p + 2 + rest.len(),
                )[j] == rest[j] by {
                    assert(input.subrange(p, end)[j + 2] == packed[j + 2]);
                }
            }
            assert(packed[1] == row[i]);
            let run = Seq::new(r as nat, |k: int| input[p + 1]);
            assert forall|j: int| 0 <= j < r implies #[trigger] run[j] == row.subrange(i, i + r)[j] by {
                assert(row[i + j] == row[i]);
            }
            assert(run =~= row.subrange(i, i + r));
            lemma_unpack_pack_from(row, i + r, input, p + 2, out + run, cap);
            assert(out + run + row.subrange(i + r, row.len() as int) =~= out + row.subrange(
                i,
                row.len() as int,
            ));
        } else {
            let l0 = literal_len(row, i, 0);
            lemma_literal_len(row, i, 0);
            let l = if l0 <= 0 {
                1
            } else {
                l0
            };
            let rest = pack_from(row, i + l);
            assert(packed == seq![(l - 1) as u8] + row.subrange(i, i + l) + rest);
            assert(input[p] == packed[0]);
            assert(input.subrange(p + 1, p + 1 + l) =~= row.subrange(i, i + l)) by {
                assert forall|j: int| 0 <= j < l implies #[trigger] input.subrange(p + 1, p + 1 + l)[j] == row[i
                    + j] by {
                    assert(input.subrange(p, end)[j + 1] == packed[j + 1]);
                }
            }
            assert(input.subrange(p + 1 + l, p + 1 + l + rest.len()) =~= rest) by {
                assert forall|j: int| 0 <= j < rest.len() implies #[trigger] input.subrange(
                    p + 1 + l,
                    p + 1 + l + rest.len(),
                )[j] == rest[j] by {
                    assert(input.subrange(p, end)[j + 1 + l] == packed[j + 1 + l]);
                }
            }
            lemma_unpack_pack_from(row, i + l, input, p + 1 + l, out + row.subrange(i, i + l), cap);
            assert(out + row.subrange(i, i + l) + row.subrange(i + l, row.len() as int)
                =~= out + row.subrange(i, row.len() as int));
        }
    }
}

/// Compresses one row with PackBits.
fn compress_rle_row(row: &[u8]) -> (r: PsdResult<Vec<u8>>)
    ensures
        r matches Ok(v) && v@ == pack_row(row@),
{
    let mut result: Vec<u8> = Vec::new();
    let mut i: usize = 0;
    let n = row.len();

    while i < n
        invariant
            n == row@.len(),
            i <= n,
            result@ + pack_from(row@, i as int) == pack_row(row@),
        decreases n - i,
    {
        let mut run_len: usize = 1;
        while i + run_len < n && row[i + run_len] == row[i] && run_len < 128
            invariant
                n == row@.len(),
                i < n,
                1 <= run_len <= 128,
                i + run_len <= n,
                run_len_from(row@, i as int, run_len as int) == run_len_from(row@, i as int, 1),
            decreases 128 - run_len,
        {
            run_len += 1;
        }
        if run_len >= 3 {
            proof {
                lemma_run_len(row@, i as int, 1);
            }
            result.push((257 - run_len) as u8);
            result.push(row[i]);
            proof {
                assert(pack_from(row@, i as int) == seq![(257 - run_len) as u8, row@[i as int]]
                    + pack_from(row@, i + run_len));
            }
            assert(result@ + pack_from(row@, i + run_len) =~= pack_row(row@));
            i += run_len;
            continue;
        }
        let lit_start = i;
        let mut lit_len: usize = 0;
        let mut stop = false;
        while !stop && i < n && lit_len < 128
            invariant
                n == row@.len(),
                lit_start < n,
                i == lit_start + lit_len,
                lit_len <= 128,
                i <= n,
                stop ==> starts_triple(row@, i as int),
                literal_len(row@, lit_start as int, lit_len as int) == literal_len(
                    row@,
                    lit_start as int,
                    0,
                ),
            decreases 128 - lit_len + (if stop { 0int } else { 1int }),
        {
            if n - i > 2 && row[i] == row[i + 1] && row[i] == row[i + 2] {
                stop = true;
            } else {
                i += 1;
                lit_len += 1;
            }
        }
        if lit_len == 0 {
            lit_len = 1;
            i += 1;
        }
        proof {
            lemma_literal_len(row@, lit_start as int, 0);
            assert(pack_from(row@, lit_start as int) == seq![(lit_len - 1) as u8]
                + row@.subrange(lit_start as int, lit_start + lit_len) + pack_from(
                row@,
                lit_start + lit_len,
            ));
        }
        result.push((lit_len - 1) as u8);
        let ghost before = result@;
        let mut k: usize = lit_start;
        while k < lit_start + lit_len
            invariant
                lit_start <= k <= lit_start + lit_len <= n,
                n == row@.len(),
                result@ == before + row@.subrange(lit_start as int, k as int),
            decreases lit_start + lit_len - k,
        {
            result.push(row[k]);
            k += 1;
            assert(result@ =~= before + row@.subrange(lit_start as int, k as int));
        }
        assert(result@ + pack_from(row@, i as int) =~= pack_row(row@));
    }
    assert(pack_from(row@, n as int) =~= seq![]);
    assert(result@ =~= pack_row(row@));
    Ok(result)
}

proof fn lemma_row_bounds(y: int, w: int, h: int)
    requires
        0 <= y < h,
        0 <= w,
    ensures
        y * w + w <= w * h,
        y * w + w == (y + 1) * w,
        0 <= y * w,
        w * h == h * w,
{
    assert(y * w + w == (y + 1) * w) by (nonlinear_arith);
    assert((y + 1) * w <= h * w) by (nonlinear_arith)
        requires
            y + 1 <= h,
            0 <= w,
    ;
    assert(h * w == w * h) by (nonlinear_arith);
    assert(0 <= y * w) by (nonlinear_arith)
        requires
            0 <= y,
            0 <= w,
    ;
}

/// Compresses `height` rows of `width` bytes with PackBits.
///
/// The result holds the 16-bit big-endian byte count of every compressed
/// row, then the compressed rows.
pub fn compress_rle(data: &[u8], width: usize, height: usize) -> (r: PsdResult<Vec<u8>>)
    requires
        width * height <= data@.len(),
    ensures
        r matches Ok(v) && v@ == rle_encode(data@, width as int, height as int),
{
    let mut result: Vec<u8> = Vec::new();
    let mut byte_counts: Vec<u16> = Vec::new();
    let ghost w = width as int;
    let ghost h = height as int;
    let data_len = data.len();

    let mut y: usize = 0;
    while y < height
        invariant
            y <= height,
            width * height <= data@.len(),
            data_len == data@.len(),
            w == width,
            h == height,
            result@ + packed_rows_from(data@, w, y as int, h) == packed_rows_from(data@, w, 0, h),
            byte_counts@ + row_counts_from(data@, w, y as int, h) == row_counts_from(data@, w, 0, h),
        decreases height - y,
    {
        proof {
            lemma_row_bounds(y as int, w, h);
        }
        let row_start = y * width;
        let row_end = row_start + width;
        let row = &data[row_start..row_end];

        let compressed_row = compress_rle_row(row)?;
        proof {
            assert(row@ == image_row(data@, w, y as int));
            assert(packed_rows_from(data@, w, y as int, h) == compressed_row@ + packed_rows_from(
                data@,
                w,
                y + 1,
                h,
            ));
            assert(row_counts_from(data@, w, y as int, h) == seq![compressed_row@.len() as u16]
                + row_counts_from(data@, w, y + 1, h));
        }
        byte_counts.push(compressed_row.len() as u16);
        let ghost before = result@;
        result.extend_from_slice(compressed_row.as_slice());
        assert(result@ =~= before + compressed_row@);
        assert(result@ + packed_rows_from(data@, w, y + 1, h) =~= packed_rows_from(data@, w, 0, h));
        assert(byte_counts@ + row_counts_from(data@, w, y + 1, h) =~= row_counts_from(
            data@,
            w,
            0,
            h,
        ));
        y += 1;
    }
    assert(result@ =~= packed_rows_from(data@, w, 0, h));
    assert(byte_counts@ =~= row_counts_from(data@, w, 0, h));

    let mut output: Vec<u8> = Vec::new();
    let mut i: usize = 0;
    while i < byte_counts.len()
        invariant
            i <= byte_counts@.len(),
            output@ == be16_list(byte_counts@.take(i as int)),
        decreases byte_counts@.len() - i,
    {
        push_be16(&mut output, byte_counts[i]);
        assert(byte_counts@.take(i + 1).drop_last() =~= byte_counts@.take(i as int));
        i += 1;
    }
    assert(byte_counts@.take(byte_counts@.len() as int) =~= byte_counts@);
    let ghost counts_bytes = output@;
    output.extend_from_slice(result.as_slice());
    assert(output@ =~= counts_bytes + result@);
    Ok(output)
}


proof fn lemma_row_counts_index(data: Seq<u8>, w: int, y0: int, h: int, k: int)
    requires
        0 <= y0 <= h,
        0 <= k < h - y0,
    ensures
        row_counts_from(data, w, y0, h).len() == h - y0,
        row_counts_from(data, w, y0, h)[k] == pack_row(image_row(data, w, y0 + k)).len() as u16,
    decreases h - y0,
{
    if k > 0 {
        lemma_row_counts_index(data, w, y0 + 1, h, k - 1);
    } else if y0 + 1 < h {
        lemma_row_counts_index(data, w, y0 + 1, h, 0);
    } else {
        assert(row_counts_from(data, w, y0 + 1, h) =~= seq![]);
    }
}

proof fn lemma_be16_list_read(vals: Seq<u16>, k: int)
    requires
        0 <= k < vals.len(),
    ensures
        be16_list(vals).len() == 2 * vals.len(),
        read16(be16_list(vals), 2 * k) == vals[k],
    decreases vals.len(),
{
    crate::bytes::lemma_be16_list_len(vals);
    crate::bytes::lemma_be16_list_len(vals.drop_last());
    let prefix = be16_list(vals.drop_last());
    if k < vals.len() - 1 {
        lemma_be16_list_read(vals.drop_last(), k);
        assert(be16_list(vals)[2 * k] == prefix[2 * k]);
        assert(be16_list(vals)[2 * k + 1] == prefix[2 * k + 1]);
    } else {
        crate::bytes::lemma_be16_roundtrip(vals.last());
        assert(be16_list(vals)[2 * k] == be16(vals.last())[0]);
        assert(be16_list(vals)[2 * k + 1] == be16(vals.last())[1]);
    }
}

proof fn lemma_unpack_packed_rows(
    data: Seq<u8>,
    w: int,
    h: int,
    y: int,
    input: Seq<u8>,
    p: int,
    out: Seq<u8>,
)
    requires
        0 <= y <= h,
        0 <= w,
        w * h <= data.len(),
        0 <= p <= input.len(),
        input.skip(p) == packed_rows_from(data, w, y, h),
        out == data.subrange(0, y * w),
        forall|r: int| 0 <= r < h ==> #[trigger] pack_row(image_row(data, w, r)).len() <= 65535,
    ensures
        unpack_rows(input, p, row_counts_from(data, w, 0, h), y, h, out, w * h) == Some(
            data.subrange(0, w * h),
        ),
    decreases h - y,
{
    let counts = row_counts_from(data, w, 0, h);
    if y >= h {
        assert(y * w == w * h) by (nonlinear_arith)
            requires
                y == h,
        ;
    } else {
        lemma_row_bounds(y, w, h);
        let row = image_row(data, w, y);
        let pk = pack_row(row);
        lemma_row_counts_index(data, w, 0, h, y);
        assert(counts[y] == pk.len());
        assert(packed_rows_from(data, w, y, h) == pk + packed_rows_from(data, w, y + 1, h));
        assert(input.subrange(p, p + pk.len()) =~= pk) by {
            assert forall|j: int| 0 <= j < pk.len() implies #[trigger] input.subrange(
                p,
                p + pk.len(),
            )[j] == pk[j] by {
                assert(input.skip(p)[j] == input[p + j]);
            }
        }
        assert(row.len() == w);
        lemma_unpack_pack_from(row, 0, input, p, out, w * h);
        assert(row.subrange(0, row.len() as int) =~= row);
        assert(out + row =~= data.subrange(0, (y + 1) * w));
        assert(input.skip(p + pk.len()) =~= packed_rows_from(data, w, y + 1, h)) by {
            assert forall|j: int| 0 <= j < input.len() - (p + pk.len()) implies #[trigger] input.skip(
                p + pk.len(),
            )[j] == packed_rows_from(data, w, y + 1, h)[j] by {
                assert(input.skip(p)[pk.len() + j] == input[p + pk.len() + j]);
            }
        }
        lemma_unpack_packed_rows(data, w, h, y + 1, input, p + pk.len(), out + row);
    }
}

/// PackBits round trip: the output of `compress_rle` starts with the byte
/// count of every packed row, and decoding the packed rows with those counts
/// into a `width * height` buffer yields exactly the first `width * height`
/// bytes of the input.  Rows whose packets exceed 65535 bytes are left out:
/// their counts do not fit the 16-bit field.
pub proof fn law_rle_roundtrip(data: Seq<u8>, width: int, height: int)
    requires
        0 <= width,
        0 <= height,
        width * height <= data.len(),
        forall|r: int| 0 <= r < height ==> #[trigger] pack_row(image_row(data, width, r)).len() <= 65535,
    ensures
        ({
            let enc = rle_encode(data, width, height);
            let counts = row_counts_from(data, width, 0, height);
            &&& counts.len() == height
            &&& forall|r: int| 0 <= r < height ==> #[trigger] read16(enc, 2 * r) == counts[r]
            &&& rle_decode(enc.skip(2 * height), counts, height, width * height) == Some(
                data.subrange(0, width * height),
            )
        }),
{
    let enc = rle_encode(data, width, height);
    let counts = row_counts_from(data, width, 0, height);
    crate::bytes::lemma_be16_list_len(counts);
    if height > 0 {
        lemma_row_counts_index(data, width, 0, height, 0);
    } else {
        assert(counts =~= seq![]);
    }
    assert forall|r: int| 0 <= r < height implies #[trigger] read16(enc, 2 * r) == counts[r] by {
        lemma_be16_list_read(counts, r);
        assert(enc[2 * r] == be16_list(counts)[2 * r]);
        assert(enc[2 * r + 1] == be16_list(counts)[2 * r + 1]);
    }
    let body = enc.skip(2 * height);
    assert(body =~= packed_rows_from(data, width, 0, height));
    assert(body.skip(0) =~= body);
    assert(data.subrange(0, 0 * width) =~= seq![]);
    lemma_unpack_packed_rows(data, width, height, 0, body, 0, seq![]);
}

proof fn lemma_triple_run(row: Seq<u8>, j: int)
    requires
        starts_triple(row, j),
    ensures
        3 <= run_len_from(row, j, 1) <= 128,
        j + run_len_from(row, j, 1) <= row.len(),
{
    assert(row[j + 1] == row[j] && row[j + 2] == row[j]);
    assert(run_len_from(row, j, 1) == run_len_from(row, j, 2));
    assert(run_len_from(row, j, 2) == run_len_from(row, j, 3));
    assert forall|q: int| 0 <= q < 3 implies #[trigger] row[j + q] == row[j] by {
        if q == 1 {
        } else if q == 2 {
        }
    }
    lemma_run_len(row, j, 3);
}

/// The packets of `row[i..]` take at most one header byte per 128 input
/// bytes beyond the input itself.
proof fn lemma_pack_from_len(row: Seq<u8>, i: int)
    requires
        0 <= i <= row.len(),
    ensures
        pack_from(row, i).len() <= (row.len() - i) + (row.len() - i + 127) / 128,
    decreases row.len() - i,
{
    let n = row.len() as int;
    if i < n {
        let r = run_len_from(row, i, 1);
        lemma_run_len(row, i, 1);
        if r >= 3 {
            lemma_pack_from_len(row, i + r);
            assert((n - i - r + 127) / 128 <= (n - i + 127) / 128);
        } else {
            lemma_literal_len(row, i, 0);
            let l0 = literal_len(row, i, 0);
            if l0 <= 0 {
                if !starts_triple(row, i) {
                    lemma_literal_len(row, i, 1);
                }
                assert(starts_triple(row, i));
                lemma_triple_run(row, i);
            } else {
                let l = l0;
                lemma_pack_from_len(row, i + l);
                if l < 128 && i + l < n {
                    assert(literal_len(row, i, l) == l) by {
                        lemma_literal_fixed(row, i, 0, l);
                    }
                    if !starts_triple(row, i + l) {
                        lemma_literal_len(row, i, l + 1);
                    }
                    assert(starts_triple(row, i + l));
                    lemma_triple_run(row, i + l);
                    let r2 = run_len_from(row, i + l, 1);
                    lemma_pack_from_len(row, i + l + r2);
                    assert(pack_from(row, i + l) == seq![(257 - r2) as u8, row[i + l]] + pack_from(
                        row,
                        i + l + r2,
                    ));
                    assert((n - i - l - r2 + 127) / 128 <= (n - i + 127) / 128);
                } else if l == 128 {
                    assert((n - i - 128 + 127) / 128 + 1 == (n - i + 127) / 128);
                } else {
                    assert(i + l == n);
                    assert(pack_from(row, i + l) =~= seq![]);
                }
            }
        }
    }
}

proof fn lemma_literal_fixed(row: Seq<u8>, i: int, m: int, l: int)
    requires
        0 <= m <= l <= 128,
        literal_len(row, i, m) == l,
    ensures
        literal_len(row, i, l) == l,
    decreases l - m,
{
    if m < l {
        assert(0 <= m < 128 && i + m < row.len() && !starts_triple(row, i + m));
        lemma_literal_fixed(row, i, m + 1, l);
    }
}

/// A packed row takes at most one header byte per 128 bytes of the row
/// beyond the row itself, and decoding it gives the row back.
pub proof fn law_pack_row(row: Seq<u8>)
    ensures
        pack_row(row).len() <= row.len() + (row.len() + 127) / 128,
        unpack_row(pack_row(row), 0, pack_row(row).len() as int, seq![], row.len() as int) == Some(
            (pack_row(row).len() as int, row),
        ),
{
    lemma_pack_from_len(row, 0);
    let packed = pack_row(row);
    assert(packed.subrange(0, packed.len() as int) =~= packed);
    lemma_unpack_pack_from(row, 0, packed, 0, seq![], row.len() as int);
    assert(Seq::<u8>::empty() + row.subrange(0, row.len() as int) =~= row);
}

/// PackBits round trip for any image whose width, plus one header byte per
/// 128 bytes of a row, fits the 16-bit byte count: every packed row then
/// fits it.
pub proof fn law_rle_roundtrip_narrow(data: Seq<u8>, width: int, height: int)
    requires
        0 <= width,
        width + (width + 127) / 128 <= 65535,
        0 <= height,
        width * height <= data.len(),
    ensures
        ({
            let enc = rle_encode(data, width, height);
            let counts = row_counts_from(data, width, 0, height);
            &&& counts.len() == height
            &&& forall|r: int| 0 <= r < height ==> #[trigger] read16(enc, 2 * r) == counts[r]
            &&& rle_decode(enc.skip(2 * height), counts, height, width * height) == Some(
                data.subrange(0, width * height),
            )
        }),
{
    assert forall|r: int| 0 <= r < height implies #[trigger] pack_row(image_row(data, width, r)).len()
        <= 65535 by {
        lemma_row_bounds(r, width, height);
        let row = image_row(data, width, r);
        assert(row.len() == width);
        law_pack_row(row);
    }
    law_rle_roundtrip(data, width, height);
}


// ---------------------------------------------------------------------
// ZIP and prediction
// ---------------------------------------------------------------------

/// The raw DEFLATE stream that flate2 produces for `data` at the default
/// compression level.
pub uninterp spec fn deflate_stream(data: Seq<u8>) -> Seq<u8>;

/// What decoding `data` as a raw DEFLATE stream yields, `None` when the
/// decoder reports an error.
pub uninterp spec fn inflate_stream(data: Seq<u8>) -> Option<Seq<u8>>;

/// Decompresses ZIP data (raw DEFLATE, no zlib header).
///
/// Calls flate2's `DeflateDecoder` and reads it to the end.  The contract
/// claims only that the outcome is the decoder's, by name: the bytes read on
/// success, an error exactly where the decoder reports one.
#[verifier::external_body]
pub fn decompress_zip(input: &[u8], output_size: usize) -> (r: PsdResult<Vec<u8>>)
    ensures
        match r {
            Ok(v) => inflate_stream(input@) == Some(v@),
            Err(e) => inflate_stream(input@) is None && e is Compression,
        },
{
    let mut decoder = flate2::read::DeflateDecoder::new(input);
    let mut output = Vec::new();
    match std::io::Read::read_to_end(&mut decoder, &mut output) {
        Ok(_) => Ok(output),
        Err(e) => Err(PsdError::Compression(format!("ZIP decompression failed: {}", e))),
    }
}

/// Compresses data with ZIP (raw DEFLATE, no zlib header).
///
/// Calls flate2's `DeflateEncoder` at the default level over a `Vec`, writes
/// all of `input` and finishes the stream.  The contract claims that a
/// successful result is the encoder's stream for `input` and that DEFLATE
/// decoding gives `input` back (the format is lossless), and that the call
/// succeeds: the encoder writes into a `Vec`, whose writes do not fail, so
/// `write_all` and `finish` return `Ok`.
#[verifier::external_body]
pub fn compress_zip(input: &[u8]) -> (r: PsdResult<Vec<u8>>)
    ensures
        r matches Ok(c) ==> c@ == deflate_stream(input@) && inflate_stream(c@) == Some(input@),
        r is Ok,
{
    let mut encoder = flate2::write::DeflateEncoder::new(Vec::new(), flate2::Compression::default());
    if let Err(e) = std::io::Write::write_all(&mut encoder, input) {
        return Err(PsdError::Compression(format!("ZIP compression failed: {}", e)));
    }
    match encoder.finish() {
        Ok(v) => Ok(v),
        Err(e) => Err(PsdError::Compression(format!("ZIP compression finish failed: {}", e))),
    }
}

/// Sum of two bytes modulo 256.
pub open spec fn add8(a: u8, b: u8) -> u8 {
    if a + b > 255 {
        (a + b - 256) as u8
    } else {
        (a + b) as u8
    }
}

/// Difference of two bytes modulo 256.
pub open spec fn sub8(a: u8, b: u8) -> u8 {
    if a - b < 0 {
        (a - b + 256) as u8
    } else {
        (a - b) as u8
    }
}

/// Horizontal prediction: the first byte, then each byte minus the one
/// before it.
pub open spec fn delta(s: Seq<u8>) -> Seq<u8> {
    Seq::new(s.len(), |i: int| if i == 0 { s[0] } else { sub8(s[i], s[i - 1]) })
}

/// Undoing horizontal prediction: running sums modulo 256.
pub open spec fn undelta(s: Seq<u8>) -> Seq<u8>
    decreases s.len(),
{
    if s.len() == 0 {
        s
    } else {
        let p = undelta(s.drop_last());
        if p.len() == 0 {
            seq![s.last()]
        } else {
            p.push(add8(p.last(), s.last()))
        }
    }
}

/// Byte plane `k` (0..4) of a row of `w` four-byte samples.
pub open spec fn byte_plane(row: Seq<u8>, w: int, k: int) -> Seq<u8> {
    Seq::new(w as nat, |x: int| row[x * 4 + k])
}

/// Prediction for a row of 32-bit samples: the row split into its four byte
/// planes, each horizontally predicted, planes one after the other.
pub open spec fn encode_row32(row: Seq<u8>, w: int) -> Seq<u8> {
    delta(byte_plane(row, w, 0)) + delta(byte_plane(row, w, 1)) + delta(byte_plane(row, w, 2))
        + delta(byte_plane(row, w, 3))
}

/// Undoing prediction for a row of 32-bit samples: each of the four planes
/// summed up, then the planes interleaved back into samples.
pub open spec fn decode_row32(row: Seq<u8>, w: int) -> Seq<u8> {
    let q0 = undelta(row.subrange(0, w));
    let q1 = undelta(row.subrange(w, 2 * w));
    let q2 = undelta(row.subrange(2 * w, 3 * w));
    let q3 = undelta(row.subrange(3 * w, 4 * w));
    Seq::new(
        (4 * w) as nat,
        |i: int|
            if i % 4 == 0 {
                q0[i / 4]
            } else if i % 4 == 1 {
                q1[i / 4]
            } else if i % 4 == 2 {
                q2[i / 4]
            } else {
                q3[i / 4]
            },
    )
}

/// `f` applied to rows `r..n` of length `len`, followed by the bytes after
/// row `n`.
pub open spec fn map_rows_from(
    d: Seq<u8>,
    len: int,
    r: int,
    n: int,
    f: spec_fn(Seq<u8>) -> Seq<u8>,
) -> Seq<u8>
    decreases distance(r, n),
{
    if r >= n {
        d.skip(r * len)
    } else {
        f(d.subrange(r * len, r * len + len)) + map_rows_from(d, len, r + 1, n, f)
    }
}

/// Bytes per sample at a bit depth ZIP prediction supports.
pub open spec fn sample_bytes(depth: u16) -> int {
    if depth == 8 {
        1
    } else if depth == 16 {
        2
    } else {
        4
    }
}

/// Bit depths ZIP prediction supports.
pub open spec fn prediction_depth(depth: u16) -> bool {
    depth == 8 || depth == 16 || depth == 32
}

/// The prediction applied to one row at a bit depth.
pub open spec fn row_encoder(depth: u16, w: int) -> spec_fn(Seq<u8>) -> Seq<u8> {
    if depth == 32 {
        |row: Seq<u8>| encode_row32(row, w)
    } else {
        |row: Seq<u8>| delta(row)
    }
}

/// Undoing the prediction of one row at a bit depth.
pub open spec fn row_decoder(depth: u16, w: int) -> spec_fn(Seq<u8>) -> Seq<u8> {
    if depth == 32 {
        |row: Seq<u8>| decode_row32(row, w)
    } else {
        |row: Seq<u8>| undelta(row)
    }
}

/// The data after prediction: 8- and 16-bit rows are predicted byte by
/// byte, 32-bit rows plane by plane; bytes after the last row stay.
pub open spec fn predict_encode(d: Seq<u8>, w: int, h: int, depth: u16) -> Seq<u8> {
    map_rows_from(d, sample_bytes(depth) * w, 0, h, row_encoder(depth, w))
}

/// The data with prediction undone, row by row.
pub open spec fn predict_decode(d: Seq<u8>, w: int, h: int, depth: u16) -> Seq<u8> {
    map_rows_from(d, sample_bytes(depth) * w, 0, h, row_decoder(depth, w))
}

proof fn lemma_undelta_len(s: Seq<u8>)
    ensures
        undelta(s).len() == s.len(),
    decreases s.len(),
{
    if s.len() > 0 {
        lemma_undelta_len(s.drop_last());
    }
}

proof fn lemma_undelta_index(s: Seq<u8>, i: int)
    requires
        0 <= i < s.len(),
    ensures
        undelta(s).len() == s.len(),
        i == 0 ==> undelta(s)[i] == s[0],
        i > 0 ==> undelta(s)[i] == add8(undelta(s)[i - 1], s[i]),
        forall|j: int| 0 <= j <= i ==> #[trigger] undelta(s)[j] == undelta(s.take(i + 1))[j],
    decreases s.len(),
{
    lemma_undelta_len(s);
    lemma_undelta_len(s.drop_last());
    if i < s.len() - 1 {
        lemma_undelta_index(s.drop_last(), i);
        assert(s.drop_last().take(i + 1) =~= s.take(i + 1));
        assert forall|j: int| 0 <= j <= i implies #[trigger] undelta(s)[j] == undelta(s.take(i + 1))[j] by {
            assert(undelta(s)[j] == undelta(s.drop_last())[j]);
        }
        assert(s.drop_last()[i] == s[i]);
    } else {
        assert(s.take(i + 1) =~= s);
    }
}

/// Horizontal prediction of bytes: the first byte stays, each later byte
/// becomes its difference from the byte before, modulo 256; undoing it
/// sums the bytes up, modulo 256.
pub proof fn law_byte_prediction(s: Seq<u8>, x: int)
    requires
        0 <= x < s.len(),
    ensures
        delta(s).len() == s.len(),
        undelta(s).len() == s.len(),
        x == 0 ==> delta(s)[x] == s[0] && undelta(s)[x] == s[0],
        x > 0 ==> delta(s)[x] as int == (s[x] - s[x - 1] + 256) % 256,
        x > 0 ==> undelta(s)[x] as int == (undelta(s)[x - 1] + s[x]) % 256,
{
    lemma_undelta_index(s, x);
}

/// Prediction of a row of `w` 32-bit samples splits it into byte planes:
/// byte `k` of every sample goes to plane `k`, stored at `k * w`, and each
/// plane is predicted on its own: sample `x` of plane `k` is byte `k` of
/// sample `x` minus byte `k` of sample `x - 1`, modulo 256.  Undoing it
/// gives byte `k` of sample `x` as the running sum, modulo 256, of plane
/// `k` up to `x`.
pub proof fn law_row32_planes(row: Seq<u8>, stored: Seq<u8>, w: int, k: int, x: int)
    requires
        row.len() == 4 * w,
        stored.len() == 4 * w,
        0 <= k < 4,
        0 <= x < w,
    ensures
        encode_row32(row, w).len() == 4 * w,
        x == 0 ==> encode_row32(row, w)[k * w + x] == row[4 * x + k],
        x > 0 ==> encode_row32(row, w)[k * w + x] as int == (row[4 * x + k] - row[4 * (x - 1) + k]
            + 256) % 256,
        decode_row32(stored, w).len() == 4 * w,
        x == 0 ==> decode_row32(stored, w)[4 * x + k] == stored[k * w],
        x > 0 ==> decode_row32(stored, w)[4 * x + k] as int == (decode_row32(stored, w)[4 * (x - 1)
            + k] + stored[k * w + x]) % 256,
{
    let planes = seq![byte_plane(row, w, 0), byte_plane(row, w, 1), byte_plane(row, w, 2), byte_plane(row, w, 3)];
    let e = encode_row32(row, w);
    assert(e =~= delta(planes[0]) + delta(planes[1]) + delta(planes[2]) + delta(planes[3]));
    assert(e.len() == 4 * w);
    let pk = byte_plane(row, w, k);
    assert(e[k * w + x] == delta(pk)[x]) by {
        if k == 0 {
        } else if k == 1 {
        } else if k == 2 {
        } else {
        }
    }
    assert(pk[x] == row[x * 4 + k]);
    if x > 0 {
        assert(pk[x - 1] == row[(x - 1) * 4 + k]);
        assert((x - 1) * 4 + k == 4 * (x - 1) + k);
    }
    assert(x * 4 + k == 4 * x + k);
    let sk = stored.subrange(k * w, k * w + w);
    lemma_undelta_index(sk, x);
    lemma_undelta_len(stored.subrange(0, w));
    lemma_undelta_len(stored.subrange(w, 2 * w));
    lemma_undelta_len(stored.subrange(2 * w, 3 * w));
    lemma_undelta_len(stored.subrange(3 * w, 4 * w));
    let d = decode_row32(stored, w);
    assert((4 * x + k) / 4 == x && (4 * x + k) % 4 == k);
    assert(d[4 * x + k] == undelta(sk)[x]) by {
        if k == 0 {
        } else if k == 1 {
        } else if k == 2 {
        } else {
        }
    }
    if x > 0 {
        assert((4 * (x - 1) + k) / 4 == x - 1 && (4 * (x - 1) + k) % 4 == k);
        assert(d[4 * (x - 1) + k] == undelta(sk)[x - 1]) by {
            if k == 0 {
            } else if k == 1 {
            } else if k == 2 {
            } else {
            }
        }
    }
    assert(sk[x] == stored[k * w + x]);
}

/// Removing prediction from predicted bytes gives the bytes back.
proof fn lemma_undelta_delta(s: Seq<u8>)
    ensures
        undelta(delta(s)) == s,
{
    let d = delta(s);
    lemma_undelta_len(d);
    assert forall|i: int| 0 <= i < s.len() implies #[trigger] undelta(d)[i] == s[i] by {
        lemma_undelta_delta_at(s, i);
    }
    assert(undelta(d) =~= s);
}

proof fn lemma_undelta_delta_at(s: Seq<u8>, i: int)
    requires
        0 <= i < s.len(),
    ensures
        undelta(delta(s))[i] == s[i],
    decreases i,
{
    lemma_undelta_index(delta(s), i);
    if i > 0 {
        lemma_undelta_delta_at(s, i - 1);
    }
}

proof fn lemma_decode_encode_row32(row: Seq<u8>, w: int)
    requires
        0 <= w,
        row.len() == 4 * w,
    ensures
        decode_row32(encode_row32(row, w), w) == row,
{
    let e = encode_row32(row, w);
    let p0 = byte_plane(row, w, 0);
    let p1 = byte_plane(row, w, 1);
    let p2 = byte_plane(row, w, 2);
    let p3 = byte_plane(row, w, 3);
    assert(e.subrange(0, w) =~= delta(p0));
    assert(e.subrange(w, 2 * w) =~= delta(p1));
    assert(e.subrange(2 * w, 3 * w) =~= delta(p2));
    assert(e.subrange(3 * w, 4 * w) =~= delta(p3));
    lemma_undelta_delta(p0);
    lemma_undelta_delta(p1);
    lemma_undelta_delta(p2);
    lemma_undelta_delta(p3);
    let d = decode_row32(e, w);
    assert forall|i: int| 0 <= i < row.len() implies #[trigger] d[i] == row[i] by {
        assert((i / 4) * 4 + i % 4 == i);
    }
    assert(d =~= row);
}

proof fn lemma_map_rows_roundtrip(
    d: Seq<u8>,
    len: int,
    r: int,
    n: int,
    f: spec_fn(Seq<u8>) -> Seq<u8>,
    g: spec_fn(Seq<u8>) -> Seq<u8>,
    e: Seq<u8>,
)
    requires
        0 <= r <= n,
        0 <= len,
        n * len <= d.len(),
        forall|row: Seq<u8>| row.len() == len ==> (#[trigger] f(row)).len() == len && g(f(row))
            == row,
        e.skip(r * len) == map_rows_from(d, len, r, n, f),
        e.len() == d.len(),
    ensures
        map_rows_from(e, len, r, n, g) == d.skip(r * len),
    decreases n - r,
{
    lemma_row_bounds_le(r, len, n);
    if r < n {
        lemma_row_bounds(r, len, n);
        let row = d.subrange(r * len, r * len + len);
        let rest = map_rows_from(d, len, r + 1, n, f);
        assert(map_rows_from(d, len, r, n, f) == f(row) + rest);
        assert(e.subrange(r * len, r * len + len) =~= f(row)) by {
            assert forall|j: int| 0 <= j < len implies #[trigger] e.subrange(r * len, r * len + len)[j]
                == f(row)[j] by {
                assert(e.skip(r * len)[j] == e[r * len + j]);
            }
        }
        assert(e.skip((r + 1) * len) =~= rest) by {
            assert forall|j: int| 0 <= j < e.len() - (r + 1) * len implies #[trigger] e.skip(
                (r + 1) * len,
            )[j] == rest[j] by {
                assert(e.skip(r * len)[len + j] == e[r * len + len + j]);
            }
        }
        lemma_map_rows_roundtrip(d, len, r + 1, n, f, g, e);
        assert(d.skip(r * len) =~= row + d.skip((r + 1) * len));
    }
}

proof fn lemma_row_bounds_le(y: int, w: int, h: int)
    requires
        0 <= y <= h,
        0 <= w,
    ensures
        0 <= y * w <= h * w,
{
    assert(0 <= y * w <= h * w) by (nonlinear_arith)
        requires
            0 <= y <= h,
            0 <= w,
    ;
}

/// ZIP prediction round trip: undoing the prediction of predicted data gives
/// the data back, for every supported depth, when the data covers all
/// `h` rows.
pub proof fn law_prediction_roundtrip(d: Seq<u8>, w: int, h: int, depth: u16)
    requires
        prediction_depth(depth),
        0 <= w,
        0 <= h,
        w * h * sample_bytes(depth) <= d.len(),
    ensures
        predict_encode(d, w, h, depth).len() == d.len(),
        predict_decode(predict_encode(d, w, h, depth), w, h, depth) == d,
{
    let len = sample_bytes(depth) * w;
    assert(h * len == w * h * sample_bytes(depth)) by (nonlinear_arith)
        requires
            len == sample_bytes(depth) * w,
    ;
    let f = row_encoder(depth, w);
    let g = row_decoder(depth, w);
    assert forall|row: Seq<u8>| row.len() == len implies (#[trigger] f(row)).len() == len && g(f(row))
        == row by {
        if depth == 32 {
            lemma_decode_encode_row32(row, w);
        } else {
            lemma_undelta_delta(row);
        }
    }
    let e = map_rows_from(d, len, 0, h, f);
    lemma_map_rows_len(d, len, 0, h, f);
    assert(e.skip(0) =~= e);
    lemma_map_rows_roundtrip(d, len, 0, h, f, g, e);
    assert(d.skip(0) =~= d);
}

proof fn lemma_map_rows_len(d: Seq<u8>, len: int, r: int, n: int, f: spec_fn(Seq<u8>) -> Seq<u8>)
    requires
        0 <= r <= n,
        0 <= len,
        n * len <= d.len(),
        forall|row: Seq<u8>| row.len() == len ==> (#[trigger] f(row)).len() == len,
    ensures
        map_rows_from(d, len, r, n, f).len() == d.len() - r * len,
    decreases n - r,
{
    lemma_row_bounds_le(r, len, n);
    if r < n {
        lemma_row_bounds(r, len, n);
        lemma_map_rows_len(d, len, r + 1, n, f);
    }
}


proof fn lemma_map_rows_index(
    d: Seq<u8>,
    len: int,
    a: int,
    n: int,
    f: spec_fn(Seq<u8>) -> Seq<u8>,
    r: int,
    j: int,
)
    requires
        0 <= a <= r < n,
        0 <= j < len,
        n * len <= d.len(),
        forall|row: Seq<u8>| row.len() == len ==> (#[trigger] f(row)).len() == len,
    ensures
        0 <= r * len,
        r * len + len <= d.len(),
        map_rows_from(d, len, a, n, f)[(r - a) * len + j] == f(d.subrange(r * len, r * len + len))[j],
    decreases r - a,
{
    lemma_row_bounds(r, len, n);
    lemma_row_bounds(a, len, n);
    let row = d.subrange(a * len, a * len + len);
    assert(row.len() == len);
    assert(f(row).len() == len);
    let m = map_rows_from(d, len, a, n, f);
    let rest = map_rows_from(d, len, a + 1, n, f);
    assert(m == f(row) + rest);
    if a == r {
        assert((r - a) * len + j == j) by (nonlinear_arith)
            requires
                r == a,
        ;
        assert(m[j] == f(row)[j]);
    } else {
        lemma_map_rows_index(d, len, a + 1, n, f, r, j);
        assert((r - a) * len + j == (r - (a + 1)) * len + j + len) by (nonlinear_arith);
        assert((r - (a + 1)) * len + j >= 0) by (nonlinear_arith)
            requires
                r > a,
                j >= 0,
                len > 0,
        ;
        lemma_map_rows_len(d, len, a + 1, n, f);
        assert(r * len + len <= n * len) by (nonlinear_arith)
            requires
                r < n,
                len >= 0,
        ;
        assert((r - (a + 1)) * len + (a + 1) * len == r * len) by (nonlinear_arith);
        assert(m[(r - a) * len + j] == rest[(r - (a + 1)) * len + j]);
    }
}

/// The prediction of ZIP-with-prediction data, row by row, for every
/// supported depth: 8- and 16-bit rows are predicted byte by byte, each
/// byte becoming its difference from the byte before modulo 256; a 32-bit
/// row of `w` samples is split into byte planes, byte `k` of sample `x`
/// going to position `k * w + x` as its difference from byte `k` of sample
/// `x - 1`.  Bytes are taken from row `r` of the input.
pub proof fn law_prediction_layout(d: Seq<u8>, w: int, h: int, depth: u16, r: int, k: int, x: int)
    requires
        prediction_depth(depth),
        0 <= w,
        h * (sample_bytes(depth) * w) <= d.len(),
        0 <= r < h,
        0 <= k < sample_bytes(depth),
        0 <= x < w,
    ensures
        ({
            let len = sample_bytes(depth) * w;
            let base = r * len;
            let e = predict_encode(d, w, h, depth);
            let dec = predict_decode(d, w, h, depth);
            &&& depth != 32 ==> ({
                let j = sample_bytes(depth) * x + k;
                &&& j == 0 ==> e[base + j] == d[base]
                &&& j > 0 ==> e[base + j] as int == (d[base + j] - d[base + j - 1] + 256) % 256
                &&& j == 0 ==> dec[base + j] == d[base]
                &&& j > 0 ==> dec[base + j] as int == (dec[base + j - 1] + d[base + j]) % 256
            })
            &&& depth == 32 ==> ({
                &&& x == 0 ==> e[base + k * w] == d[base + k]
                &&& x > 0 ==> e[base + k * w + x] as int == (d[base + 4 * x + k] - d[base + 4 * (x
                    - 1) + k] + 256) % 256
                &&& x == 0 ==> dec[base + 4 * x + k] == d[base + k * w]
                &&& x > 0 ==> dec[base + 4 * x + k] as int == (dec[base + 4 * (x - 1) + k] + d[base
                    + k * w + x]) % 256
            })
        }),
{
    let len = sample_bytes(depth) * w;
    let base = r * len;
    let fe = row_encoder(depth, w);
    let fd = row_decoder(depth, w);
    assert forall|row: Seq<u8>| row.len() == len implies (#[trigger] fe(row)).len() == len by {
        if depth == 32 {
            assert(encode_row32(row, w).len() == 4 * w);
        }
    }
    assert forall|row: Seq<u8>| row.len() == len implies (#[trigger] fd(row)).len() == len by {
        if depth == 32 {
            lemma_undelta_len(row.subrange(0, w));
            lemma_undelta_len(row.subrange(w, 2 * w));
            lemma_undelta_len(row.subrange(2 * w, 3 * w));
            lemma_undelta_len(row.subrange(3 * w, 4 * w));
        } else {
            lemma_undelta_len(row);
        }
    }
    let row = d.subrange(base, base + len);
    if depth != 32 {
        let j = sample_bytes(depth) * x + k;
        assert(0 <= j < len) by (nonlinear_arith)
            requires
                j == sample_bytes(depth) * x + k,
                len == sample_bytes(depth) * w,
                0 <= k < sample_bytes(depth),
                0 <= x < w,
        ;
        lemma_map_rows_index(d, len, 0, h, fe, r, j);
        lemma_map_rows_index(d, len, 0, h, fd, r, j);
        law_byte_prediction(row, j);
        if j > 0 {
            lemma_map_rows_index(d, len, 0, h, fd, r, j - 1);
        }
    } else {
        assert(len == 4 * w);
        assert(0 <= k * w + x < len) by (nonlinear_arith)
            requires
                0 <= k < 4,
                0 <= x < w,
                len == 4 * w,
        ;
        assert(0 <= 4 * x + k < len);
        lemma_map_rows_index(d, len, 0, h, fe, r, k * w + x);
        lemma_map_rows_index(d, len, 0, h, fd, r, 4 * x + k);
        law_row32_planes(row, row, w, k, x);
        if x > 0 {
            lemma_map_rows_index(d, len, 0, h, fd, r, 4 * (x - 1) + k);
        }
    }
}

/// `data` with `data[start..start + len]` replaced by `mid`.
pub open spec fn splice(data: Seq<u8>, start: int, len: int, mid: Seq<u8>) -> Seq<u8> {
    data.take(start) + mid + data.skip(start + len)
}

/// Writes `src` over `data[off..off + src.len()]`.
fn copy_into(data: &mut [u8], off: usize, src: &[u8])
    requires
        off + src@.len() <= old(data)@.len(),
    ensures
        final(data)@ == splice(old(data)@, off as int, src@.len() as int, src@),
{
    let ghost orig = old(data)@;
    let n = src.len();
    let dn = data.len();
    let mut i: usize = 0;
    while i < n
        invariant
            n == src@.len(),
            dn == orig.len(),
            off + n <= orig.len(),
            i <= n,
            data@ == splice(orig, off as int, i as int, src@.take(i as int)),
        decreases n - i,
    {
        data[off + i] = src[i];
        i += 1;
        assert(data@ =~= splice(orig, off as int, i as int, src@.take(i as int)));
    }
    assert(src@.take(n as int) =~= src@);
}

/// Running sums modulo 256 of `src`.
fn undelta_copy(src: &[u8]) -> (r: Vec<u8>)
    ensures
        r@ == undelta(src@),
{
    let n = src.len();
    let mut out: Vec<u8> = Vec::new();
    proof {
        lemma_undelta_len(src@);
    }
    let mut x: usize = 0;
    while x < n
        invariant
            n == src@.len(),
            x <= n,
            undelta(src@).len() == n,
            out@.len() == x,
            forall|j: int| 0 <= j < x ==> #[trigger] out@[j] == undelta(src@)[j],
        decreases n - x,
    {
        proof {
            lemma_undelta_index(src@, x as int);
        }
        if x == 0 {
            out.push(src[0]);
        } else {
            let prev = out[x - 1];
            out.push(src[x].wrapping_add(prev));
        }
        x += 1;
    }
    assert(out@ =~= undelta(src@));
    out
}

/// Horizontal prediction of `src`.
fn delta_copy(src: &[u8]) -> (r: Vec<u8>)
    ensures
        r@ == delta(src@),
{
    let n = src.len();
    let mut out: Vec<u8> = Vec::new();
    let mut x: usize = 0;
    while x < n
        invariant
            n == src@.len(),
            x <= n,
            out@ == delta(src@).take(x as int),
        decreases n - x,
    {
        if x == 0 {
            out.push(src[0]);
        } else {
            out.push(src[x].wrapping_sub(src[x - 1]));
        }
        x += 1;
        assert(out@ =~= delta(src@).take(x as int));
    }
    assert(delta(src@).take(n as int) =~= delta(src@));
    out
}

/// Undoes horizontal prediction of `data[start..start + len]` in place.
fn undelta_in_place(data: &mut [u8], start: usize, len: usize)
    requires
        start + len <= old(data)@.len(),
    ensures
        final(data)@ == splice(
            old(data)@,
            start as int,
            len as int,
            undelta(old(data)@.subrange(start as int, start + len)),
        ),
{
    let _dn = data.len();
    let row = undelta_copy(&data[start..start + len]);
    proof {
        lemma_undelta_len(old(data)@.subrange(start as int, start + len));
    }
    copy_into(data, start, row.as_slice());
}

/// Applies horizontal prediction to `data[start..start + len]` in place.
fn delta_in_place(data: &mut [u8], start: usize, len: usize)
    requires
        start + len <= old(data)@.len(),
    ensures
        final(data)@ == splice(
            old(data)@,
            start as int,
            len as int,
            delta(old(data)@.subrange(start as int, start + len)),
        ),
{
    let _dn = data.len();
    let row = delta_copy(&data[start..start + len]);
    copy_into(data, start, row.as_slice());
}

/// Undoes the plane-wise prediction of one row of `width` 32-bit samples at
/// `row_off`.
fn decode_row32_in_place(data: &mut [u8], row_off: usize, width: usize)
    requires
        row_off + 4 * width <= old(data)@.len(),
    ensures
        final(data)@ == splice(
            old(data)@,
            row_off as int,
            4 * width,
            decode_row32(old(data)@.subrange(row_off as int, row_off + 4 * width), width as int),
        ),
{
    let ghost orig = old(data)@;
    let ghost row = orig.subrange(row_off as int, row_off + 4 * width);
    let _dn = data.len();
    let q0 = undelta_copy(&data[row_off..row_off + width]);
    let q1 = undelta_copy(&data[row_off + width..row_off + width * 2]);
    let q2 = undelta_copy(&data[row_off + width * 2..row_off + width * 3]);
    let q3 = undelta_copy(&data[row_off + width * 3..row_off + width * 4]);
    proof {
        assert(orig.subrange(row_off as int, row_off + width) =~= row.subrange(0, width as int));
        assert(orig.subrange(row_off + width, row_off + width * 2) =~= row.subrange(
            width as int,
            2 * width,
        ));
        assert(orig.subrange(row_off + width * 2, row_off + width * 3) =~= row.subrange(
            2 * width,
            3 * width,
        ));
        assert(orig.subrange(row_off + width * 3, row_off + width * 4) =~= row.subrange(
            3 * width,
            4 * width,
        ));
        lemma_undelta_len(row.subrange(0, width as int));
        lemma_undelta_len(row.subrange(width as int, 2 * width));
        lemma_undelta_len(row.subrange(2 * width, 3 * width));
        lemma_undelta_len(row.subrange(3 * width, 4 * width));
    }
    let ghost target = decode_row32(row, width as int);
    let mut out: Vec<u8> = Vec::new();
    let mut pixel: usize = 0;
    while pixel < width
        invariant
            pixel <= width,
            q0@.len() == width && q1@.len() == width && q2@.len() == width && q3@.len() == width,
            q0@ == undelta(row.subrange(0, width as int)),
            q1@ == undelta(row.subrange(width as int, 2 * width)),
            q2@ == undelta(row.subrange(2 * width, 3 * width)),
            q3@ == undelta(row.subrange(3 * width, 4 * width)),
            target == decode_row32(row, width as int),
            out@ == target.take(4 * pixel),
        decreases width - pixel,
    {
        out.push(q0[pixel]);
        out.push(q1[pixel]);
        out.push(q2[pixel]);
        out.push(q3[pixel]);
        proof {
            assert((pixel * 4) / 4 == pixel && (pixel * 4) % 4 == 0);
            assert((pixel * 4 + 1) / 4 == pixel && (pixel * 4 + 1) % 4 == 1);
            assert((pixel * 4 + 2) / 4 == pixel && (pixel * 4 + 2) % 4 == 2);
            assert((pixel * 4 + 3) / 4 == pixel && (pixel * 4 + 3) % 4 == 3);
        }
        pixel += 1;
        assert(out@ =~= target.take(4 * pixel));
    }
    assert(out@ =~= target);
    copy_into(data, row_off, out.as_slice());
}

/// Byte plane `k` of the row of `width` 32-bit samples at `row_off`.
fn gather_plane(data: &[u8], row_off: usize, width: usize, k: usize) -> (r: Vec<u8>)
    requires
        row_off + 4 * width <= data@.len(),
        k < 4,
    ensures
        r@ == byte_plane(data@.subrange(row_off as int, row_off + 4 * width), width as int, k as int),
{
    let ghost row = data@.subrange(row_off as int, row_off + 4 * width);
    let dn = data.len();
    let mut out: Vec<u8> = Vec::new();
    let mut pixel: usize = 0;
    while pixel < width
        invariant
            row_off + 4 * width <= data@.len(),
            dn == data@.len(),
            k < 4,
            row == data@.subrange(row_off as int, row_off + 4 * width),
            pixel <= width,
            out@ == byte_plane(row, width as int, k as int).take(pixel as int),
        decreases width - pixel,
    {
        out.push(data[row_off + pixel * 4 + k]);
        pixel += 1;
        assert(out@ =~= byte_plane(row, width as int, k as int).take(pixel as int));
    }
    assert(out@ =~= byte_plane(row, width as int, k as int));
    out
}

/// Applies plane-wise prediction to one row of `width` 32-bit samples at
/// `row_off`.
fn encode_row32_in_place(data: &mut [u8], row_off: usize, width: usize)
    requires
        row_off + 4 * width <= old(data)@.len(),
    ensures
        final(data)@ == splice(
            old(data)@,
            row_off as int,
            4 * width,
            encode_row32(old(data)@.subrange(row_off as int, row_off + 4 * width), width as int),
        ),
{
    let p0 = gather_plane(data, row_off, width, 0);
    let p1 = gather_plane(data, row_off, width, 1);
    let p2 = gather_plane(data, row_off, width, 2);
    let p3 = gather_plane(data, row_off, width, 3);
    let mut out = delta_copy(p0.as_slice());
    let d1 = delta_copy(p1.as_slice());
    let d2 = delta_copy(p2.as_slice());
    let d3 = delta_copy(p3.as_slice());
    out.extend_from_slice(d1.as_slice());
    out.extend_from_slice(d2.as_slice());
    out.extend_from_slice(d3.as_slice());
    assert(out@ =~= encode_row32(old(data)@.subrange(row_off as int, row_off + 4 * width), width as int));
    copy_into(data, row_off, out.as_slice());
}


proof fn lemma_rows_step(
    orig: Seq<u8>,
    base: int,
    d: Seq<u8>,
    len: int,
    r: int,
    h: int,
    g: spec_fn(Seq<u8>) -> Seq<u8>,
    done: Seq<u8>,
    before: Seq<u8>,
    after: Seq<u8>,
)
    requires
        0 <= base <= orig.len(),
        d == orig.skip(base),
        0 <= len,
        0 <= r < h,
        h * len <= d.len(),
        done.len() == r * len,
        forall|row: Seq<u8>| row.len() == len ==> (#[trigger] g(row)).len() == len,
        before == orig.take(base) + done + d.skip(r * len),
        done + map_rows_from(d, len, r, h, g) == map_rows_from(d, len, 0, h, g),
        after == splice(before, base + r * len, len, g(d.subrange(r * len, r * len + len))),
    ensures
        ({
            let done2 = done + g(d.subrange(r * len, r * len + len));
            &&& done2.len() == (r + 1) * len
            &&& after == orig.take(base) + done2 + d.skip((r + 1) * len)
            &&& done2 + map_rows_from(d, len, r + 1, h, g) == map_rows_from(d, len, 0, h, g)
        }),
{
    lemma_row_bounds(r, len, h);
    let row = d.subrange(r * len, r * len + len);
    assert(g(row).len() == len);
    let done2 = done + g(row);
    assert(map_rows_from(d, len, r, h, g) == g(row) + map_rows_from(d, len, r + 1, h, g));
    assert(after =~= orig.take(base) + done2 + d.skip((r + 1) * len));
    assert(done2 + map_rows_from(d, len, r + 1, h, g) =~= map_rows_from(d, len, 0, h, g));
}

/// Applies prediction (`decode == false`) or undoes it (`decode == true`)
/// on `height` rows of `width` samples stored from `base`.
#[verifier::spinoff_prover]
fn transform_rows(data: &mut [u8], base: usize, width: usize, height: usize, depth: u16, decode: bool)
    requires
        prediction_depth(depth),
        width * sample_bytes(depth) <= usize::MAX,
        base + width * height * sample_bytes(depth) <= old(data)@.len(),
    ensures
        final(data)@ == old(data)@.take(base as int) + map_rows_from(
            old(data)@.skip(base as int),
            sample_bytes(depth) * width,
            0,
            height as int,
            if decode {
                row_decoder(depth, width as int)
            } else {
                row_encoder(depth, width as int)
            },
        ),
{
    let ghost orig = old(data)@;
    let ghost d = orig.skip(base as int);
    let ghost g = if decode {
        row_decoder(depth, width as int)
    } else {
        row_encoder(depth, width as int)
    };
    let bps: usize = if depth == 8 {
        1
    } else if depth == 16 {
        2
    } else {
        4
    };
    let row_bytes = width * bps;
    let ghost len = row_bytes as int;
    proof {
        assert(height * len == width * height * sample_bytes(depth)) by (nonlinear_arith)
            requires
                len == width * sample_bytes(depth),
        ;
        assert forall|row: Seq<u8>| row.len() == len implies (#[trigger] g(row)).len() == len by {
            if depth == 32 {
                lemma_undelta_len(row.subrange(0, width as int));
                lemma_undelta_len(row.subrange(width as int, 2 * width));
                lemma_undelta_len(row.subrange(2 * width, 3 * width));
                lemma_undelta_len(row.subrange(3 * width, 4 * width));
            } else {
                lemma_undelta_len(row);
            }
        }
    }
    let ghost mut done: Seq<u8> = seq![];
    let dn = data.len();
    let mut off = base;
    let mut r: usize = 0;
    while r < height
        invariant
            r <= height,
            prediction_depth(depth),
            bps == sample_bytes(depth),
            row_bytes == len,
            len == width * sample_bytes(depth),
            height * len <= d.len(),
            dn == orig.len(),
            d == orig.skip(base as int),
            base <= orig.len(),
            off == base + r * len,
            done.len() == r * len,
            g == (if decode {
                row_decoder(depth, width as int)
            } else {
                row_encoder(depth, width as int)
            }),
            forall|row: Seq<u8>| row.len() == len ==> (#[trigger] g(row)).len() == len,
            data@ == orig.take(base as int) + done + d.skip(r * len),
            done + map_rows_from(d, len, r as int, height as int, g) == map_rows_from(
                d,
                len,
                0,
                height as int,
                g,
            ),
        decreases height - r,
    {
        proof {
            lemma_row_bounds(r as int, len, height as int);
        }
        let ghost before = data@;
        let ghost row = d.subrange(r * len, r * len + len);
        assert(before.subrange(off as int, off + len) =~= row);
        if depth == 32 {
            if decode {
                decode_row32_in_place(data, off, width);
            } else {
                encode_row32_in_place(data, off, width);
            }
        } else {
            if decode {
                undelta_in_place(data, off, row_bytes);
            } else {
                delta_in_place(data, off, row_bytes);
            }
        }
        proof {
            assert(data@ == splice(before, off as int, len, g(row)));
            lemma_rows_step(orig, base as int, d, len, r as int, height as int, g, done, before, data@);
            done = done + g(row);
        }
        off = off + row_bytes;
        r += 1;
    }
}

/// Undoes ZIP prediction on data that DEFLATE decoding produced: `height`
/// rows of `width` samples at `depth` bits.
pub fn undo_zip_prediction(data: Vec<u8>, width: usize, height: usize, depth: u16) -> (r: Vec<u8>)
    requires
        prediction_depth(depth),
        width * sample_bytes(depth) <= usize::MAX,
        width * height * sample_bytes(depth) <= data@.len(),
    ensures
        r@ == predict_decode(data@, width as int, height as int, depth),
{
    let mut data = data;
    let ghost orig = data@;
    transform_rows(data.as_mut_slice(), 0, width, height, depth, true);
    assert(orig.take(0) + predict_decode(orig, width as int, height as int, depth) =~= predict_decode(
        orig,
        width as int,
        height as int,
        depth,
    ));
    assert(orig.skip(0) =~= orig);
    data
}

/// Decompresses one PSD channel stored as ZIP with prediction.
///
/// `depth` is bits per sample: 8, 16 or 32.  The channel must decompress to
/// at least `width * height` samples.
pub fn decompress_zip_with_prediction(input: &[u8], width: usize, height: usize, depth: u16) -> (r:
    PsdResult<Vec<u8>>)
    requires
        prediction_depth(depth) ==> width * height * sample_bytes(depth) <= usize::MAX && width
            * sample_bytes(depth) <= usize::MAX,
    ensures
        r is Ok <==> prediction_depth(depth) && inflate_stream(input@) is Some && inflate_stream(
            input@,
        )->0.len() >= width * height * sample_bytes(depth),
        r matches Ok(v) ==> v@ == predict_decode(
            inflate_stream(input@)->0,
            width as int,
            height as int,
            depth,
        ),
        r matches Err(e) ==> e is Compression,
        !prediction_depth(depth) ==> (r matches Err(e) && error_detail(e) == "Unsupported depth: "@
            + decimal(depth as nat)),
{
    let bytes_per_sample: usize = match depth {
        8 => 1,
        16 => 2,
        32 => 4,
        _ => {
            return Err(unsupported_depth(depth));
        },
    };
    let expected = width * height * bytes_per_sample;
    let data = decompress_zip(input, expected)?;
    if data.len() < expected {
        return Err(compression_error("ZIP: decompressed channel is shorter than the image"));
    }
    Ok(undo_zip_prediction(data, width, height, depth))
}

/// Compresses one PSD channel as ZIP with prediction.
///
/// `depth` is bits per sample: 8, 16 or 32.
pub fn compress_zip_with_prediction(input: &[u8], width: usize, height: usize, depth: u16) -> (r:
    PsdResult<Vec<u8>>)
    requires
        prediction_depth(depth) ==> width * height * sample_bytes(depth) <= input@.len() && width
            * sample_bytes(depth) <= usize::MAX,
    ensures
        r is Ok <==> prediction_depth(depth),
        !prediction_depth(depth) ==> (r matches Err(e) && error_detail(e) == "Unsupported depth: "@
            + decimal(depth as nat)),
        r matches Ok(c) ==> c@ == deflate_stream(
            predict_encode(input@, width as int, height as int, depth),
        ) && inflate_stream(c@) == Some(predict_encode(input@, width as int, height as int, depth)),
        r matches Err(e) ==> e is Compression,
{
    match depth {
        8 | 16 | 32 => {},
        _ => {
            return Err(unsupported_depth(depth));
        },
    }
    let mut predicted = vstd::slice::slice_to_vec(input);
    let ghost orig = predicted@;
    transform_rows(predicted.as_mut_slice(), 0, width, height, depth, false);
    assert(orig.skip(0) =~= orig);
    assert(predicted@ =~= predict_encode(input@, width as int, height as int, depth));
    compress_zip(predicted.as_slice())
}

/// ZIP-with-prediction round trip: a stream that DEFLATE-decodes to the
/// predicted form of `x` (as the output of `compress_zip_with_prediction`
/// does) decompresses with `decompress_zip_with_prediction` to `x` itself.
pub proof fn law_zip_prediction_roundtrip(x: Seq<u8>, c: Seq<u8>, w: int, h: int, depth: u16)
    requires
        prediction_depth(depth),
        0 <= w,
        0 <= h,
        w * h * sample_bytes(depth) <= x.len(),
        inflate_stream(c) == Some(predict_encode(x, w, h, depth)),
    ensures
        inflate_stream(c) matches Some(d) && d.len() >= w * h * sample_bytes(depth) && predict_decode(
            d,
            w,
            h,
            depth,
        ) == x,
{
    law_prediction_roundtrip(x, w, h, depth);
}

/// The prediction undoing of one plane of `h` rows of `w` samples.
pub open spec fn plane_decoder(w: int, h: int, depth: u16) -> spec_fn(Seq<u8>) -> Seq<u8> {
    |plane: Seq<u8>| predict_decode(plane, w, h, depth)
}

/// Data of `channels` consecutive planes of `h` rows of `w` samples with
/// ZIP prediction undone plane by plane; unchanged at depths without
/// prediction.
pub open spec fn planar_decode(d: Seq<u8>, w: int, h: int, channels: int, depth: u16) -> Seq<u8> {
    if prediction_depth(depth) {
        map_rows_from(d, sample_bytes(depth) * w * h, 0, channels, plane_decoder(w, h, depth))
    } else {
        d
    }
}

/// Only the first `h` rows take part in a row mapping; what follows is
/// kept.
proof fn lemma_map_rows_prefix(d: Seq<u8>, len: int, r: int, h: int, f: spec_fn(Seq<u8>) -> Seq<u8>)
    requires
        0 <= r <= h,
        0 <= len,
        h * len <= d.len(),
    ensures
        map_rows_from(d, len, r, h, f) == map_rows_from(d.take(h * len), len, r, h, f) + d.skip(
            h * len,
        ),
    decreases h - r,
{
    lemma_row_bounds_le(r, len, h);
    let t = d.take(h * len);
    if r >= h {
        assert(t.skip(r * len) =~= Seq::<u8>::empty());
        assert(d.skip(r * len) =~= t.skip(r * len) + d.skip(h * len));
    } else {
        lemma_row_bounds(r, len, h);
        assert(d.subrange(r * len, r * len + len) =~= t.subrange(r * len, r * len + len));
        lemma_map_rows_prefix(d, len, r + 1, h, f);
    }
}

/// One plane of a planar decode: `after` is `before` with the rows of
/// plane `c` decoded in place.
#[verifier::rlimit(100)]
#[verifier::spinoff_prover]
proof fn lemma_plane_step(
    orig: Seq<u8>,
    before: Seq<u8>,
    after: Seq<u8>,
    done: Seq<u8>,
    c: int,
    channels: int,
    plen: int,
    row_len: int,
    w: int,
    h: int,
    depth: u16,
)
    requires
        prediction_depth(depth),
        0 <= c < channels,
        0 <= row_len,
        0 <= h,
        h * row_len == plen,
        row_len == sample_bytes(depth) * w,
        channels * plen <= orig.len(),
        done.len() == c * plen,
        forall|plane: Seq<u8>|
            plane.len() == plen ==> (#[trigger] plane_decoder(w, h, depth)(plane)).len() == plen,
        before == orig.take(0) + done + orig.skip(c * plen),
        done + map_rows_from(orig, plen, c, channels, plane_decoder(w, h, depth)) == map_rows_from(
            orig,
            plen,
            0,
            channels,
            plane_decoder(w, h, depth),
        ),
        after == before.take(c * plen) + map_rows_from(
            before.skip(c * plen),
            row_len,
            0,
            h,
            row_decoder(depth, w),
        ),
    ensures
        ({
            let done2 = done + plane_decoder(w, h, depth)(orig.subrange(c * plen, c * plen + plen));
            &&& done2.len() == (c + 1) * plen
            &&& after == orig.take(0) + done2 + orig.skip((c + 1) * plen)
            &&& done2 + map_rows_from(orig, plen, c + 1, channels, plane_decoder(w, h, depth))
                == map_rows_from(orig, plen, 0, channels, plane_decoder(w, h, depth))
        }),
{
    lemma_row_bounds(c, plen, channels);
    let g = plane_decoder(w, h, depth);
    let d2 = before.skip(c * plen);
    assert(d2 =~= orig.skip(c * plen));
    lemma_map_rows_prefix(d2, row_len, 0, h, row_decoder(depth, w));
    assert(d2.take(h * row_len) =~= orig.subrange(c * plen, c * plen + plen));
    assert(d2.skip(h * row_len) =~= orig.skip(c * plen + plen));
    assert(after =~= splice(before, c * plen, plen, g(orig.subrange(c * plen, c * plen + plen))));
    assert(orig == orig.skip(0));
    lemma_rows_step(orig, 0, orig, plen, c, channels, g, done, before, after);
}

/// Undoes ZIP prediction in each of `channels` consecutive planes of
/// `height` rows of `width` samples; depths without prediction leave the
/// data as it is.
pub fn reverse_prediction_planar(data: &mut [u8], width: usize, height: usize, channels: usize, depth: u16)
    requires
        prediction_depth(depth) ==> width * sample_bytes(depth) <= usize::MAX && width * height
            * sample_bytes(depth) <= usize::MAX && width * height * sample_bytes(depth) * channels
            <= old(data)@.len(),
    ensures
        final(data)@ == planar_decode(old(data)@, width as int, height as int, channels as int, depth),
        final(data)@.len() == old(data)@.len(),
{
    let bps: usize = match depth {
        8 => 1,
        16 => 2,
        32 => 4,
        _ => {
            return;
        },
    };
    let ghost orig = old(data)@;
    let ghost row_len = sample_bytes(depth) * width;
    let ghost plen = sample_bytes(depth) * width * height;
    let ghost g = plane_decoder(width as int, height as int, depth);
    let ghost dec = row_decoder(depth, width as int);
    proof {
        assert(plen == width * height * sample_bytes(depth)) by (nonlinear_arith)
            requires
                plen == sample_bytes(depth) * width * height,
        ;
        assert(channels * plen == width * height * sample_bytes(depth) * channels) by (nonlinear_arith)
            requires
                plen == width * height * sample_bytes(depth),
        ;
        assert(height * row_len == plen) by (nonlinear_arith)
            requires
                row_len == sample_bytes(depth) * width,
                plen == sample_bytes(depth) * width * height,
        ;
        assert(0 <= row_len) by (nonlinear_arith)
            requires
                row_len == sample_bytes(depth) * width,
                sample_bytes(depth) > 0,
        ;
        assert forall|row: Seq<u8>| row.len() == row_len implies (#[trigger] dec(row)).len()
            == row_len by {
            if depth == 32 {
                lemma_undelta_len(row.subrange(0, width as int));
                lemma_undelta_len(row.subrange(width as int, 2 * width));
                lemma_undelta_len(row.subrange(2 * width, 3 * width));
                lemma_undelta_len(row.subrange(3 * width, 4 * width));
            } else {
                lemma_undelta_len(row);
            }
        }
        assert forall|plane: Seq<u8>| plane.len() == plen implies (#[trigger] g(plane)).len()
            == plen by {
            lemma_map_rows_len(plane, row_len, 0, height as int, dec);
        }
        assert(orig.take(0) + Seq::<u8>::empty() + orig.skip(0) =~= orig);
    }
    assert(width * height <= width * height * sample_bytes(depth)) by (nonlinear_arith)
        requires
            sample_bytes(depth) >= 1,
    ;
    let plane_len = width * height * bps;
    let dlen = data.len();
    let ghost mut done: Seq<u8> = seq![];
    let mut c: usize = 0;
    let mut base: usize = 0;
    while c < channels
        invariant
            c <= channels,
            prediction_depth(depth),
            bps == sample_bytes(depth),
            width * sample_bytes(depth) <= usize::MAX,
            plane_len == plen,
            plen == width * height * sample_bytes(depth),
            row_len == sample_bytes(depth) * width,
            height * row_len == plen,
            0 <= row_len,
            channels * plen <= orig.len(),
            dlen == orig.len(),
            base == c * plen,
            done.len() == c * plen,
            g == plane_decoder(width as int, height as int, depth),
            forall|plane: Seq<u8>| plane.len() == plen ==> (#[trigger] g(plane)).len() == plen,
            data@ == orig.take(0) + done + orig.skip(c * plen),
            done + map_rows_from(orig, plen, c as int, channels as int, g) == map_rows_from(
                orig,
                plen,
                0,
                channels as int,
                g,
            ),
        decreases channels - c,
    {
        proof {
            lemma_row_bounds(c as int, plen, channels as int);
        }
        let ghost before = data@;
        transform_rows(data, base, width, height, depth, true);
        proof {
            lemma_plane_step(
                orig,
                before,
                data@,
                done,
                c as int,
                channels as int,
                plen,
                row_len,
                width as int,
                height as int,
                depth,
            );
            done = done + g(orig.subrange(c * plen, c * plen + plen));
        }
        base = base + plane_len;
        c += 1;
    }
    assert(map_rows_from(orig, plen, channels as int, channels as int, g) == orig.skip(channels * plen));
    assert(orig.take(0) + done + orig.skip(channels * plen) =~= done + orig.skip(channels * plen));
}

} // verus!

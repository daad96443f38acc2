//! Path resources (resources 2000 to 2997): records of a type word and
//! four points in 8.24 fixed point, each point vertical first.

use crate::bytes::{be16, be32, i32_bits, lemma_read16_at, lemma_read32_at, read16, read32, u32_as_i32};
use crate::io::writer::PsdWriter;
use crate::error::PsdResult;
use crate::io::reader::PsdReader;
use vstd::prelude::*;

verus! {

/// A point of a path record as stored: 8.24 fixed-point coordinates.
#[derive(Debug, Clone, Copy, PartialEq, Eq, Structural)]
pub struct StoredPathPoint {
    pub y: i32,
    pub x: i32,
}

/// A path record as stored: its type, its four points, and whether the
/// type marks a closed subpath (types 1 to 3).
#[derive(Debug, Clone, PartialEq, Eq)]
pub struct StoredPathRecord {
    pub record_type: u16,
    pub points: Vec<StoredPathPoint>,
    pub closed: bool,
}

/// Point `j` of the record at `o`.
pub open spec fn path_point_at(b: Seq<u8>, o: int, j: int) -> StoredPathPoint {
    StoredPathPoint {
        y: u32_as_i32(read32(b, o + 2 + 8 * j)),
        x: u32_as_i32(read32(b, o + 2 + 8 * j + 4)),
    }
}

/// Whether a record type marks a closed subpath.
pub open spec fn closed_type(t: u16) -> bool {
    t == 1 || t == 2 || t == 3
}

/// Whether the record at `o` holds `rec`: records are read 36 bytes apart,
/// a type word followed by four points.
pub open spec fn path_record_at(rec: StoredPathRecord, b: Seq<u8>, o: int) -> bool {
    &&& rec.record_type == read16(b, o)
    &&& rec.closed == closed_type(read16(b, o))
    &&& rec.points@ == Seq::new(4, |j: int| path_point_at(b, o, j))
}

/// How many records a path resource of `len` bytes gives: one for each
/// 36-byte step whose first 26 bytes are present.
pub open spec fn path_record_count(len: int) -> int {
    if len >= 26 {
        (len - 26) / 36 + 1
    } else {
        0
    }
}

/// Whether the records of a path resource of `len` bytes can be read:
/// a record whose first 26 bytes are present has all its 34 bytes.
pub open spec fn path_records_fit(len: int) -> bool {
    !(26 <= len % 36 && len % 36 <= 33)
}

impl PsdReader {
    /// Reads the records of a path resource of `length` bytes (see
    /// `path_record_at` and `path_record_count`).
    pub fn read_path_resource_records(&mut self, length: usize) -> (r: PsdResult<Vec<StoredPathRecord>>)
        requires
            path_records_fit(length as int),
        ensures
            match r {
                Ok(v) => old(self).can_read(length as int) && v@.len() == path_record_count(
                    length as int,
                ) && (forall|i: int|
                    0 <= i < v@.len() ==> path_record_at(
                        #[trigger] v@[i],
                        old(self).ahead(length as int),
                        36 * i,
                    )) && old(self).moved(final(self), length as int),
                Err(e) => old(self).read_failure(length as int, e) && *final(self) == *old(self),
            },
    {
        let bytes = self.read_bytes(length)?;
        let ghost b = bytes@;
        let n = bytes.len();
        let count: usize = if n >= 26 {
            (n - 26) / 36 + 1
        } else {
            0
        };
        let mut records: Vec<StoredPathRecord> = Vec::new();
        let mut k: usize = 0;
        while k < count
            invariant
                n == b.len(),
                b == bytes@,
                path_records_fit(n as int),
                count == path_record_count(n as int),
                k <= count,
                records@.len() == k,
                forall|i: int|
                    0 <= i < records@.len() ==> path_record_at(#[trigger] records@[i], b, 36 * i),
            decreases count - k,
        {
            assert(36 * k + 34 <= n) by (nonlinear_arith)
                requires
                    n >= 26,
                    k <= (n - 26) / 36,
                    !(26 <= n % 36 && n % 36 <= 33),
            ;
            let offset = 36 * k;
            let record_type = crate::bytes::u16_from_be(bytes[offset], bytes[offset + 1]);
            let mut points: Vec<StoredPathPoint> = Vec::new();
            let mut j: usize = 0;
            while j < 4
                invariant
                    j <= 4,
                    offset + 34 <= n,
                    n == b.len(),
                    b == bytes@,
                    points@ == Seq::new(j as nat, |q: int| path_point_at(b, offset as int, q)),
                decreases 4 - j,
            {
                let o = offset + 2 + 8 * j;
                let y = crate::bytes::i32_from_bits(
                    crate::bytes::u32_from_be(bytes[o], bytes[o + 1], bytes[o + 2], bytes[o + 3]),
                );
                let x = crate::bytes::i32_from_bits(
                    crate::bytes::u32_from_be(bytes[o + 4], bytes[o + 5], bytes[o + 6], bytes[o + 7]),
                );
                points.push(StoredPathPoint { y, x });
                j += 1;
                assert(points@ =~= Seq::new(j as nat, |q: int| path_point_at(b, offset as int, q)));
            }
            let closed = record_type == 1 || record_type == 2 || record_type == 3;
            records.push(StoredPathRecord { record_type, points, closed });
            k += 1;
        }
        Ok(records)
    }
}


/// The stored bytes of a point.
pub open spec fn path_point_bytes(p: StoredPathPoint) -> Seq<u8> {
    be32(i32_bits(p.y)) + be32(i32_bits(p.x))
}

/// A path point is stored vertical coordinate first, then horizontal, each
/// as a signed big-endian 32-bit value; point `j` of a record starts after
/// the record's two-byte type and the `j` points before it; types 1 to 3
/// mark closed subpaths.
pub proof fn law_path_point_layout(b: Seq<u8>, o: int, j: int, p: StoredPathPoint, t: u16)
    requires
        0 <= o,
        0 <= j < 4,
        o + 2 + 8 * j + 8 <= b.len(),
    ensures
        path_point_at(b, o, j).y == u32_as_i32(
            (b[o + 2 + 8 * j] * 16777216 + b[o + 3 + 8 * j] * 65536 + b[o + 4 + 8 * j] * 256 + b[o
                + 5 + 8 * j]) as u32,
        ),
        path_point_at(b, o, j).x == u32_as_i32(
            (b[o + 6 + 8 * j] * 16777216 + b[o + 7 + 8 * j] * 65536 + b[o + 8 + 8 * j] * 256 + b[o
                + 9 + 8 * j]) as u32,
        ),
        path_point_bytes(p) == be32(i32_bits(p.y)) + be32(i32_bits(p.x)),
        closed_type(t) <==> 1 <= t <= 3,
{
}

/// Point `j` of a record as written: its own, zero past its fourth.
pub open spec fn written_point(points: Seq<StoredPathPoint>, j: int) -> StoredPathPoint {
    if j < points.len() {
        points[j]
    } else {
        StoredPathPoint { y: 0, x: 0 }
    }
}

/// The stored bytes of a record: its type, four points (missing ones as
/// zero, extra ones dropped) and a zero word.
pub open spec fn path_record_bytes(rec: StoredPathRecord) -> Seq<u8> {
    be16(rec.record_type) + points_bytes_upto(rec.points@, 4) + be16(0)
}

/// The stored bytes of a list of records.
pub open spec fn path_records_bytes(recs: Seq<StoredPathRecord>) -> Seq<u8>
    decreases recs.len(),
{
    if recs.len() == 0 {
        Seq::<u8>::empty()
    } else {
        path_records_bytes(recs.drop_last()) + path_record_bytes(recs.last())
    }
}

impl PsdWriter {
    /// Writes one path record (see `path_record_bytes`).
    fn write_path_record(&mut self, rec: &StoredPathRecord) -> (r: PsdResult<()>)
        requires
            old(self).offset + 36 <= usize::MAX,
        ensures
            r is Ok,
            old(self).appended(final(self), path_record_bytes(*rec)),
    {
        let ghost before = self.written();
        self.write_u16(rec.record_type)?;
        let mut j: usize = 0;
        while j < 4
            invariant
                j <= 4,
                old(self).offset + 36 <= usize::MAX,
                self.offset == old(self).offset + 2 + 8 * j,
                self.offset <= self.buffer@.len(),
                self.written() == before + be16(rec.record_type) + points_bytes_upto(rec.points@, j as int),
                self.large == old(self).large,
                self.color_mode == old(self).color_mode,
                self.global_alpha == old(self).global_alpha,
                before == old(self).written(),
            decreases 4 - j,
        {
            let p = if j < rec.points.len() {
                rec.points[j]
            } else {
                StoredPathPoint { y: 0, x: 0 }
            };
            self.write_i32(p.y)?;
            self.write_i32(p.x)?;
            j += 1;
            assert(self.written() =~= before + be16(rec.record_type) + points_bytes_upto(
                rec.points@,
                j as int,
            ));
        }
        self.write_u16(0)?;
        assert(self.written() =~= before + path_record_bytes(*rec));
        Ok(())
    }

    /// Writes the records of a path resource (see `path_records_bytes`).
    pub fn write_path_resource_records(&mut self, records: &[StoredPathRecord]) -> (r: PsdResult<()>)
        requires
            old(self).offset + 36 * records@.len() <= usize::MAX,
        ensures
            r is Ok,
            old(self).appended(final(self), path_records_bytes(records@)),
    {
        let ghost before = self.written();
        self.ensure_capacity(0);
        let n = records.len();
        let mut k: usize = 0;
        while k < n
            invariant
                n == records@.len(),
                k <= n,
                old(self).offset + 36 * n <= usize::MAX,
                before == old(self).written(),
                old(self).appended(self, path_records_bytes(records@.take(k as int))),
            decreases n - k,
        {
            proof {
                lemma_path_records_len(records@.take(k as int));
            }
            self.write_path_record(&records[k])?;
            assert(records@.take(k + 1).drop_last() =~= records@.take(k as int));
            k += 1;
            assert(self.written() =~= before + path_records_bytes(records@.take(k as int)));
        }
        assert(records@.take(n as int) =~= records@);
        Ok(())
    }
}

/// The bytes of points `0..j` of a record as written.
pub open spec fn points_bytes_upto(points: Seq<StoredPathPoint>, j: int) -> Seq<u8>
    decreases j,
{
    if j <= 0 {
        Seq::<u8>::empty()
    } else {
        points_bytes_upto(points, j - 1) + path_point_bytes(written_point(points, j - 1))
    }
}

/// The first `j` written points take eight bytes each.
proof fn lemma_points_bytes(points: Seq<StoredPathPoint>, j: int, i: int)
    requires
        0 <= i < j,
    ensures
        points_bytes_upto(points, j).len() == 8 * j,
        points_bytes_upto(points, j).subrange(8 * i, 8 * i + 8) == path_point_bytes(
            written_point(points, i),
        ),
    decreases j,
{
    lemma_points_len(points, j);
    lemma_points_len(points, j - 1);
    if i < j - 1 {
        lemma_points_bytes(points, j - 1, i);
        assert(points_bytes_upto(points, j).subrange(8 * i, 8 * i + 8) =~= points_bytes_upto(
            points,
            j - 1,
        ).subrange(8 * i, 8 * i + 8));
    } else {
        assert(points_bytes_upto(points, j).subrange(8 * i, 8 * i + 8) =~= path_point_bytes(
            written_point(points, i),
        ));
    }
}

/// The first `j` written points take eight bytes each.
proof fn lemma_points_len(points: Seq<StoredPathPoint>, j: int)
    requires
        0 <= j,
    ensures
        points_bytes_upto(points, j).len() == 8 * j,
    decreases j,
{
    if j > 0 {
        lemma_points_len(points, j - 1);
    }
}

/// Stored records are 36 bytes each.
pub proof fn lemma_path_records_len(recs: Seq<StoredPathRecord>)
    ensures
        path_records_bytes(recs).len() == 36 * recs.len(),
    decreases recs.len(),
{
    if recs.len() > 0 {
        lemma_path_records_len(recs.drop_last());
        lemma_points_len(recs.last().points@, 4);
    }
}

/// Record `k` is stored in bytes `36k` to `36k + 36`.
proof fn lemma_path_records_at(recs: Seq<StoredPathRecord>, k: int)
    requires
        0 <= k < recs.len(),
    ensures
        path_records_bytes(recs).subrange(36 * k, 36 * k + 36) == path_record_bytes(recs[k]),
    decreases recs.len(),
{
    lemma_path_records_len(recs);
    let rest = recs.drop_last();
    lemma_path_records_len(rest);
    if k < recs.len() - 1 {
        lemma_path_records_at(rest, k);
        assert(path_records_bytes(recs).subrange(36 * k, 36 * k + 36) =~= path_records_bytes(
            rest,
        ).subrange(36 * k, 36 * k + 36));
    } else {
        assert(path_records_bytes(recs).subrange(36 * k, 36 * k + 36) =~= path_record_bytes(
            recs[k],
        ));
    }
}

/// The fields of a record read where its bytes stand.
proof fn lemma_record_fields(b: Seq<u8>, o: int, rec: StoredPathRecord)
    requires
        0 <= o,
        o + 36 <= b.len(),
        b.subrange(o, o + 36) == path_record_bytes(rec),
    ensures
        read16(b, o) == rec.record_type,
        forall|j: int| 0 <= j < 4 ==> #[trigger] path_point_at(b, o, j) == written_point(rec.points@, j),
{
    let pts = points_bytes_upto(rec.points@, 4);
    lemma_points_len(rec.points@, 4);
    assert(b.subrange(o, o + 2) =~= be16(rec.record_type)) by {
        assert(b.subrange(o, o + 2) =~= b.subrange(o, o + 36).subrange(0, 2));
    }
    lemma_read16_at(b, o, rec.record_type);
    assert forall|j: int| 0 <= j < 4 implies #[trigger] path_point_at(b, o, j) == written_point(
        rec.points@,
        j,
    ) by {
        lemma_points_bytes(rec.points@, 4, j);
        let pt = written_point(rec.points@, j);
        let q = o + 2 + 8 * j;
        assert(b.subrange(q, q + 8) =~= pts.subrange(8 * j, 8 * j + 8)) by {
            assert(b.subrange(q, q + 8) =~= b.subrange(o, o + 36).subrange(2 + 8 * j, 2 + 8 * j + 8));
        }
        assert(b.subrange(q, q + 4) =~= be32(i32_bits(pt.y))) by {
            assert(b.subrange(q, q + 4) =~= b.subrange(q, q + 8).subrange(0, 4));
        }
        assert(b.subrange(q + 4, q + 8) =~= be32(i32_bits(pt.x))) by {
            assert(b.subrange(q + 4, q + 8) =~= b.subrange(q, q + 8).subrange(4, 8));
        }
        lemma_read32_at(b, q, i32_bits(pt.y));
        lemma_read32_at(b, q + 4, i32_bits(pt.x));
        crate::bytes::lemma_i32_bits_roundtrip(pt.y);
        crate::bytes::lemma_i32_bits_roundtrip(pt.x);
    }
}

/// Path records written as bytes read back with their type, their closed
/// flag set from the type, and their points padded or cut to four.
pub proof fn law_path_records_roundtrip(recs: Seq<StoredPathRecord>, k: int)
    requires
        0 <= k < recs.len(),
    ensures
        ({
            let b = path_records_bytes(recs);
            &&& b.len() == 36 * recs.len()
            &&& path_records_fit(b.len() as int)
            &&& path_record_count(b.len() as int) == recs.len()
            &&& read16(b, 36 * k) == recs[k].record_type
            &&& forall|j: int| 0 <= j < 4 ==> #[trigger] path_point_at(b, 36 * k, j) == written_point(
                recs[k].points@,
                j,
            )
        }),
{
    let b = path_records_bytes(recs);
    lemma_path_records_len(recs);
    lemma_path_records_at(recs, k);
    let n = recs.len() as int;
    assert(path_records_fit(b.len() as int)) by {
        assert((36 * n) % 36 == 0) by (nonlinear_arith);
    }
    assert(path_record_count(b.len() as int) == n) by {
        assert((36 * n - 26) / 36 == n - 1) by (nonlinear_arith)
            requires
                n >= 1,
        ;
    }
    let o = 36 * k;
    lemma_record_fields(b, o, recs[k]);
}

} // verus!

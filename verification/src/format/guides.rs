//! Grid and guides (resource 1032): a header with the grid spacing and a
//! guide count, then each guide's location in 1/32 pixel and direction.

use crate::bytes::{be32, lemma_read32_at, read32};
use crate::error::{invalid_format, PsdResult};
use crate::format::image_resources::{Grid, GuideDirection};
use crate::io::reader::PsdReader;
use crate::io::writer::PsdWriter;
use vstd::prelude::*;

verus! {

/// A guide as stored: its location in 1/32 pixel and its direction.
#[derive(Debug, Clone, Copy, PartialEq, Eq, Structural)]
pub struct StoredGuide {
    pub location_times_32: u32,
    pub direction: GuideDirection,
}

/// Grid and guides as stored, guide locations in 1/32 pixel.
#[derive(Debug, Clone, PartialEq, Eq)]
pub struct StoredGridAndGuides {
    pub grid: Grid,
    pub guides: Vec<StoredGuide>,
}

/// The guide stored at `p`: a 32-bit location, then a direction byte that
/// is 1 for horizontal guides.
pub open spec fn guide_at(b: Seq<u8>, p: int) -> StoredGuide {
    StoredGuide {
        location_times_32: read32(b, p),
        direction: if b[p + 4] == 1 {
            GuideDirection::Horizontal
        } else {
            GuideDirection::Vertical
        },
    }
}

/// A guide's direction byte: 1 is a horizontal guide, any other value a
/// vertical one; a horizontal guide is stored with 1, a vertical one with
/// 0, each after its big-endian location.
pub proof fn law_guide_direction_byte(b: Seq<u8>, p: int, g: StoredGuide)
    requires
        0 <= p,
        p + 5 <= b.len(),
    ensures
        guide_at(b, p).direction == GuideDirection::Horizontal <==> b[p + 4] == 1,
        guide_at(b, p).direction == GuideDirection::Vertical <==> b[p + 4] != 1,
        guide_at(b, p).location_times_32 == b[p] * 16777216 + b[p + 1] * 65536 + b[p + 2] * 256
            + b[p + 3],
        guide_bytes(g).len() == 5,
        g.direction == GuideDirection::Horizontal ==> guide_bytes(g)[4] == 1,
        g.direction == GuideDirection::Vertical ==> guide_bytes(g)[4] == 0,
        guide_bytes(g)[0] * 16777216 + guide_bytes(g)[1] * 65536 + guide_bytes(g)[2] * 256
            + guide_bytes(g)[3] == g.location_times_32,
{
    assert(guide_bytes(g).subrange(0, 4) =~= be32(g.location_times_32));
    crate::bytes::lemma_read32_at(guide_bytes(g), 0, g.location_times_32);
}

/// The `n` guides stored from `p` on.
pub open spec fn guides_at(b: Seq<u8>, p: int, n: int) -> Seq<StoredGuide> {
    Seq::new(n as nat, |k: int| guide_at(b, p + 5 * k))
}

/// The stored bytes of a guide.
pub open spec fn guide_bytes(g: StoredGuide) -> Seq<u8> {
    be32(g.location_times_32) + seq![
        if g.direction == GuideDirection::Horizontal {
            1u8
        } else {
            0u8
        },
    ]
}

/// The stored bytes of a list of guides.
pub open spec fn guides_bytes(gs: Seq<StoredGuide>) -> Seq<u8>
    decreases gs.len(),
{
    if gs.len() == 0 {
        Seq::<u8>::empty()
    } else {
        guides_bytes(gs.drop_last()) + guide_bytes(gs.last())
    }
}

/// The stored bytes of grid and guides: version 1, the grid spacing, the
/// guide count, then the guides.
pub open spec fn grid_and_guides_bytes(g: Grid, gs: Seq<StoredGuide>) -> Seq<u8> {
    be32(1) + be32(g.horizontal) + be32(g.vertical) + be32(gs.len() as u32) + guides_bytes(gs)
}

impl PsdReader {
    /// Reads grid and guides (resource 1032); a version other than 1 is an
    /// invalid format.
    pub fn read_grid_and_guides(&mut self) -> (r: PsdResult<StoredGridAndGuides>)
        ensures
            ({
                let b = old(self).input();
                let o = old(self).offset as int;
                let count = read32(b, o + 12) as int;
                match r {
                    Ok(g) => old(self).can_read(16) && read32(b, o) == 1 && old(self).can_read(
                        16 + 5 * count,
                    ) && g.grid == Grid { horizontal: read32(b, o + 4), vertical: read32(b, o + 8) }
                        && g.guides@ == guides_at(b, o + 16, count) && old(self).moved(
                        final(self),
                        16 + 5 * count,
                    ),
                    Err(e) => final(self).same_source(old(self)) && (old(self).read_failure(16, e)
                        || (old(self).can_read(16) && read32(b, o) != 1 && e is InvalidFormat) || (
                    old(self).can_read(16) && read32(b, o) == 1 && count > 0 && old(
                        self,
                    ).split_read_failure(16 + 5 * count, e))),
                }
            }),
    {
        let ghost s0 = *self;
        let ghost b = self.input();
        let ghost o = self.offset as int;
        let header = self.read_bytes(16)?;
        let version = crate::bytes::u32_from_be(header[0], header[1], header[2], header[3]);
        if version != 1 {
            return Err(invalid_format("Invalid grid/guides version"));
        }
        let horizontal = crate::bytes::u32_from_be(header[4], header[5], header[6], header[7]);
        let vertical = crate::bytes::u32_from_be(header[8], header[9], header[10], header[11]);
        let count = crate::bytes::u32_from_be(header[12], header[13], header[14], header[15]);
        let ghost s1 = *self;
        let mut guides: Vec<StoredGuide> = Vec::new();
        let mut k: u32 = 0;
        while k < count
            invariant
                k <= count,
                count == read32(b, o + 12),
                s0 == *old(self),
                b == s0.input(),
                o == s0.offset,
                s0.can_read(16),
                read32(b, o) == 1,
                s0.moved(&s1, 16),
                k > 0 ==> s1.can_read(5 * k),
                s1.moved(self, 5 * k),
                guides@ == guides_at(b, o + 16, k as int),
            decreases count - k,
        {
            let g = match self.read_bytes(5) {
                Ok(g) => g,
                Err(e) => {
                    assert(s0.split_read_failure(16 + 5 * count, e));
                    return Err(e);
                },
            };
            let location_times_32 = crate::bytes::u32_from_be(g[0], g[1], g[2], g[3]);
            let direction = if g[4] == 1 {
                GuideDirection::Horizontal
            } else {
                GuideDirection::Vertical
            };
            guides.push(StoredGuide { location_times_32, direction });
            k += 1;
            assert(guides@ =~= guides_at(b, o + 16, k as int));
        }
        Ok(StoredGridAndGuides { grid: Grid { horizontal, vertical }, guides })
    }
}

impl PsdWriter {
    /// Writes grid and guides (see `grid_and_guides_bytes`).
    pub fn write_grid_and_guides(&mut self, grid_guides: &StoredGridAndGuides) -> (r: PsdResult<()>)
        requires
            old(self).offset + 16 + 5 * grid_guides.guides@.len() <= usize::MAX,
        ensures
            r is Ok,
            old(self).appended(
                final(self),
                grid_and_guides_bytes(grid_guides.grid, grid_guides.guides@),
            ),
    {
        let ghost before = self.written();
        let gs = &grid_guides.guides;
        let n = gs.len();
        self.write_u32(1)?;
        self.write_u32(grid_guides.grid.horizontal)?;
        self.write_u32(grid_guides.grid.vertical)?;
        self.write_u32(n as u32)?;
        let ghost head = self.written();
        assert(head =~= before + (be32(1) + be32(grid_guides.grid.horizontal) + be32(
            grid_guides.grid.vertical,
        ) + be32(n as u32)));
        let mut k: usize = 0;
        while k < n
            invariant
                n == gs@.len(),
                k <= n,
                old(self).offset + 16 + 5 * n <= usize::MAX,
                self.offset == old(self).offset + 16 + 5 * k,
                self.offset <= self.buffer@.len(),
                self.written() == head + guides_bytes(gs@.take(k as int)),
                self.large == old(self).large,
                self.color_mode == old(self).color_mode,
                self.global_alpha == old(self).global_alpha,
            decreases n - k,
        {
            let g = gs[k];
            self.write_u32(g.location_times_32)?;
            let d: u8 = match g.direction {
                GuideDirection::Horizontal => 1,
                GuideDirection::Vertical => 0,
            };
            self.write_u8(d)?;
            assert(gs@.take(k + 1).drop_last() =~= gs@.take(k as int));
            k += 1;
            assert(self.written() =~= head + guides_bytes(gs@.take(k as int)));
        }
        assert(gs@.take(n as int) =~= gs@);
        proof {
            lemma_guides_bytes_len(gs@);
        }
        assert(self.written() =~= before + grid_and_guides_bytes(grid_guides.grid, gs@));
        Ok(())
    }
}

/// The stored guides are five bytes each.
pub proof fn lemma_guides_bytes_len(gs: Seq<StoredGuide>)
    ensures
        guides_bytes(gs).len() == 5 * gs.len(),
    decreases gs.len(),
{
    if gs.len() > 0 {
        lemma_guides_bytes_len(gs.drop_last());
    }
}

/// Guide `k` is stored in bytes `5k` to `5k + 5`.
proof fn lemma_guides_bytes_at(gs: Seq<StoredGuide>, k: int)
    requires
        0 <= k < gs.len(),
    ensures
        guides_bytes(gs).subrange(5 * k, 5 * k + 5) == guide_bytes(gs[k]),
    decreases gs.len(),
{
    lemma_guides_bytes_len(gs);
    let rest = gs.drop_last();
    lemma_guides_bytes_len(rest);
    if k < gs.len() - 1 {
        lemma_guides_bytes_at(rest, k);
        assert(guides_bytes(gs).subrange(5 * k, 5 * k + 5) =~= guides_bytes(rest).subrange(
            5 * k,
            5 * k + 5,
        ));
    } else {
        assert(guides_bytes(gs).subrange(5 * k, 5 * k + 5) =~= guide_bytes(gs[k]));
    }
}

/// Grid and guides written as bytes read back unchanged, when there are
/// fewer than 2^32 guides.
pub proof fn law_grid_and_guides_roundtrip(pre: Seq<u8>, g: Grid, gs: Seq<StoredGuide>, post: Seq<u8>)
    requires
        gs.len() <= u32::MAX,
    ensures
        ({
            let s = pre + grid_and_guides_bytes(g, gs) + post;
            let p = pre.len() as int;
            &&& read32(s, p) == 1
            &&& read32(s, p + 4) == g.horizontal
            &&& read32(s, p + 8) == g.vertical
            &&& read32(s, p + 12) == gs.len()
            &&& guides_at(s, p + 16, gs.len() as int) == gs
            &&& grid_and_guides_bytes(g, gs).len() == 16 + 5 * gs.len()
        }),
{
    let body = grid_and_guides_bytes(g, gs);
    let s = pre + body + post;
    let p = pre.len() as int;
    lemma_guides_bytes_len(gs);
    assert(s.subrange(p, p + 4) =~= be32(1));
    lemma_read32_at(s, p, 1);
    assert(s.subrange(p + 4, p + 8) =~= be32(g.horizontal));
    lemma_read32_at(s, p + 4, g.horizontal);
    assert(s.subrange(p + 8, p + 12) =~= be32(g.vertical));
    lemma_read32_at(s, p + 8, g.vertical);
    assert(s.subrange(p + 12, p + 16) =~= be32(gs.len() as u32));
    lemma_read32_at(s, p + 12, gs.len() as u32);
    assert forall|k: int| 0 <= k < gs.len() implies #[trigger] guides_at(s, p + 16, gs.len() as int)[k]
        == gs[k] by {
        lemma_guides_bytes_at(gs, k);
        let q = p + 16 + 5 * k;
        assert(s.subrange(q, q + 4) =~= guide_bytes(gs[k]).subrange(0, 4));
        assert(guide_bytes(gs[k]).subrange(0, 4) =~= be32(gs[k].location_times_32));
        lemma_read32_at(s, q, gs[k].location_times_32);
        assert(s[q + 4] == guide_bytes(gs[k])[4]);
    }
    assert(guides_at(s, p + 16, gs.len() as int) =~= gs);
}

} // verus!

//! The offset/size table: where a tile slot's two eight-byte entries live.
//!
//! A level with more than one tile keeps its entries in an external table
//! after the directory region: all tile offsets of the level, then all tile
//! sizes.  A level with exactly one tile keeps both entries inline, inside
//! its directory record, at the value slots of the tile-offsets and
//! tile-byte-counts tags.  Everything here is pure address arithmetic.

use vstd::prelude::*;
use crate::TILE_SIZE;
use crate::geometry::level_dims;
use crate::geometry::tile_count_of;
use crate::geometry::tiles_along;

verus! {

/// Number of tags in every directory record.
pub const NUM_TAGS: u32 = 12;

/// Tag position of the tile-offsets reference within a directory record.
pub const OFFSETS_TAG_INDEX: u64 = 9;

/// Tag position of the tile-byte-counts reference within a directory record.
pub const LENGTHS_TAG_INDEX: u64 = 10;

/// Sum of the tile counts of the levels before `upto`.
pub open spec fn sum_counts(counts: Seq<u32>, upto: int) -> int
    decreases upto,
{
    if upto <= 0 {
        0
    } else {
        sum_counts(counts, upto - 1) + counts[upto - 1]
    }
}

/// Tiles in the whole pyramid.
pub open spec fn total_tiles(counts: Seq<u32>) -> int {
    sum_counts(counts, counts.len() as int)
}

/// Size in bytes of the header-plus-table region: one 1024-byte directory
/// slot per level (the first sharing its slot with the 16-byte header),
/// then 16 bytes of external table per tile.
pub open spec fn region_size(counts: Seq<u32>) -> int {
    1024 * counts.len() + 16 * total_tiles(counts)
}

/// Byte position of level `level`'s directory record.  The first record sits
/// right after the 16-byte header; each later one starts a 1024-byte slot.
pub open spec fn ifd_start(level: int) -> int {
    if level == 0 {
        16
    } else {
        1024 * level
    }
}

/// Byte position of the inline tile-offset entry of a single-tile level.
pub open spec fn inline_offset_loc(level: int) -> int {
    ifd_start(level) + 8 + 20 * (OFFSETS_TAG_INDEX as int) + 12
}

/// Byte position of the inline tile-size entry of a single-tile level.
pub open spec fn inline_size_loc(level: int) -> int {
    ifd_start(level) + 8 + 20 * (LENGTHS_TAG_INDEX as int) + 12
}

/// Byte position of level `level`'s external offset array.
pub open spec fn table_base(counts: Seq<u32>, level: int) -> int {
    1024 * counts.len() + 16 * sum_counts(counts, level)
}

/// Byte position of the eight-byte offset entry of slot `(level, index)`.
pub open spec fn offset_loc(counts: Seq<u32>, level: int, index: int) -> int {
    if counts[level] > 1 {
        table_base(counts, level) + 8 * index
    } else {
        inline_offset_loc(level)
    }
}

/// Byte position of the eight-byte size entry of slot `(level, index)`.
pub open spec fn size_loc(counts: Seq<u32>, level: int, index: int) -> int {
    if counts[level] > 1 {
        table_base(counts, level) + 8 * counts[level] + 8 * index
    } else {
        inline_size_loc(level)
    }
}

/// At most one level has exactly one tile, and it is the last.
pub open spec fn lone_tile_only_last(counts: Seq<u32>) -> bool {
    forall|k: int| 0 <= k < counts.len() && (#[trigger] counts[k]) == 1 ==> k == counts.len() - 1
}

/// Prefix sums of tile counts grow with the prefix.
pub proof fn lemma_sum_counts_monotonic(counts: Seq<u32>, a: int, b: int)
    requires
        a <= b,
    ensures
        sum_counts(counts, a) <= sum_counts(counts, b),
    decreases b - a,
{
    if a < b {
        lemma_sum_counts_monotonic(counts, a, b - 1);
        if b - 1 >= 0 {
            assert(counts[b - 1] >= 0);
        }
    }
}

/// A prefix sum of 32-bit tile counts is bounded by the prefix length times
/// the largest 32-bit value.
pub proof fn lemma_sum_counts_bound(counts: Seq<u32>, k: int)
    requires
        0 <= k <= counts.len(),
    ensures
        sum_counts(counts, k) <= k * 0xFFFFFFFF,
    decreases k,
{
    if k > 0 {
        lemma_sum_counts_bound(counts, k - 1);
    }
}

/// Both entries of a valid slot lie inside the header-plus-table region,
/// after the magic header, and the offset entry lies wholly before the size
/// entry.  A multi-tile level's entries lie in the external table, past the
/// directory region; a single-tile level's lie inside its directory record.
pub proof fn lemma_entry_locs_in_region(counts: Seq<u32>, level: int, index: int)
    requires
        0 <= level < counts.len(),
        0 <= index < counts[level],
    ensures
        16 <= offset_loc(counts, level, index),
        offset_loc(counts, level, index) + 8 <= size_loc(counts, level, index),
        size_loc(counts, level, index) + 8 <= region_size(counts),
        counts[level] > 1 ==> 1024 * counts.len() <= offset_loc(counts, level, index),
        counts[level] <= 1 ==> size_loc(counts, level, index) + 8 <= 1024 * counts.len(),
{
    lemma_sum_counts_monotonic(counts, 0, level);
    assert(sum_counts(counts, level + 1) == sum_counts(counts, level) + counts[level]);
    lemma_sum_counts_monotonic(counts, level + 1, counts.len() as int);
    if counts[level] <= 1 {
        if level == 0 {
            assert(inline_size_loc(level) + 8 <= 1024 * counts.len());
        } else {
            assert(inline_size_loc(level) + 8 <= 1024 * (level + 1) <= 1024 * counts.len());
        }
    }
}

/// Distinct slots keep their four entry windows pairwise disjoint, provided
/// only the last level may hold a single tile (which pyramid geometry
/// guarantees).
pub proof fn lemma_entry_windows_disjoint(counts: Seq<u32>, l1: int, i1: int, l2: int, i2: int)
    requires
        0 <= l1 < counts.len(),
        0 <= i1 < counts[l1],
        0 <= l2 < counts.len(),
        0 <= i2 < counts[l2],
        !(l1 == l2 && i1 == i2),
        lone_tile_only_last(counts),
    ensures
        disjoint8(offset_loc(counts, l1, i1), offset_loc(counts, l2, i2)),
        disjoint8(size_loc(counts, l1, i1), size_loc(counts, l2, i2)),
        disjoint8(offset_loc(counts, l1, i1), size_loc(counts, l2, i2)),
        disjoint8(size_loc(counts, l1, i1), offset_loc(counts, l2, i2)),
{
    lemma_entry_locs_in_region(counts, l1, i1);
    lemma_entry_locs_in_region(counts, l2, i2);
    if l1 != l2 {
        let (lo, hi) = if l1 < l2 {
            (l1, l2)
        } else {
            (l2, l1)
        };
        lemma_sum_counts_monotonic(counts, lo + 1, hi);
        assert(sum_counts(counts, lo + 1) == sum_counts(counts, lo) + counts[lo]);
        assert(sum_counts(counts, hi + 1) == sum_counts(counts, hi) + counts[hi]);
        if counts[l1] > 1 && counts[l2] > 1 {
            // distinct external blocks: each level's entries fit in
            // [table_base(l), table_base(l) + 16 * counts[l])
        } else {
            // a single-tile level keeps its entries inside the directory
            // region, and only the last level can be such a level, so the
            // other level's entries sit either in the external table or in a
            // different directory record
        }
    }
}

/// Byte `p` of the freshly initialized external-table region: each level
/// contributes its tile offsets (the unwritten sentinel, 1) and then its
/// tile sizes (0), sixteen bytes per tile in all.
pub open spec fn sentinel_byte(counts: Seq<u32>, p: int) -> u8
    decreases counts.len(),
{
    if counts.len() == 0 {
        0
    } else if p < 16 * counts[0] {
        if 0 <= p < 8 * counts[0] && p % 8 == 0 {
            1
        } else {
            0
        }
    } else {
        sentinel_byte(counts.skip(1), p - 16 * counts[0])
    }
}

/// Dropping the first level shifts prefix sums by that level's tile count.
pub proof fn lemma_sum_counts_skip(counts: Seq<u32>, m: int)
    requires
        counts.len() >= 1,
        0 <= m <= counts.len() - 1,
    ensures
        sum_counts(counts.skip(1), m) == sum_counts(counts, m + 1) - counts[0],
    decreases m,
{
    assert(sum_counts(counts, 0) == 0);
    assert(sum_counts(counts.skip(1), 0) == 0);
    if m > 0 {
        lemma_sum_counts_skip(counts, m - 1);
        assert(counts.skip(1)[m - 1] == counts[m]);
    }
}

/// Inside level `l`'s block of the sentinel region, byte `q` is 1 exactly at
/// the start of each eight-byte offset entry and 0 everywhere else.
pub proof fn lemma_sentinel_byte_at(counts: Seq<u32>, l: int, q: int)
    requires
        0 <= l < counts.len(),
        0 <= q < 16 * counts[l],
    ensures
        sentinel_byte(counts, 16 * sum_counts(counts, l) + q) == if q < 8 * counts[l] && q % 8
            == 0 {
            1u8
        } else {
            0u8
        },
    decreases l,
{
    if l == 0 {
        assert(sum_counts(counts, 0) == 0);
    } else {
        lemma_sentinel_byte_at(counts.skip(1), l - 1, q);
        lemma_sum_counts_skip(counts, l - 1);
        lemma_sum_counts_monotonic(counts, 1, l);
        assert(counts.skip(1)[l - 1] == counts[l]);
        assert(sum_counts(counts, 0) == 0);
        assert(sum_counts(counts, 1) == counts[0]);
        assert(16 * sum_counts(counts, l) + q - 16 * counts[0] == 16 * sum_counts(
            counts.skip(1),
            l - 1,
        ) + q);
    }
}

/// Windows of eight bytes starting at `a` and `b` do not overlap.
pub open spec fn disjoint8(a: int, b: int) -> bool {
    a + 8 <= b || b + 8 <= a
}

/// Tile counts derived from pyramid geometry give a single tile to the last
/// level alone: any earlier level exceeds the tile edge in some dimension,
/// so it has at least two tiles or covers an empty axis.
pub proof fn lemma_geometry_lone_tile(w: u32, h: u32, counts: Seq<u32>)
    requires
        counts.len() == level_dims(w, h).len(),
        forall|k: int|
            0 <= k < counts.len() ==> (#[trigger] counts[k]) == tile_count_of(
                level_dims(w, h)[k].0,
                level_dims(w, h)[k].1,
            ),
    ensures
        lone_tile_only_last(counts),
{
    assert forall|k: int|
        0 <= k < counts.len() && (#[trigger] counts[k]) == 1 implies k == counts.len() - 1 by {
        crate::geometry::lemma_level_dims_index(w, h, k);
        let wk = level_dims(w, h)[k].0;
        let hk = level_dims(w, h)[k].1;
        assert(tiles_along(wk) >= 0 && tiles_along(hk) >= 0);
        assert(tiles_along(wk) == 1 && tiles_along(hk) == 1) by (nonlinear_arith)
            requires
                tiles_along(wk) * tiles_along(hk) == 1 && tiles_along(wk) >= 0 && tiles_along(hk)
                    >= 0,
        ;
        assert(wk <= TILE_SIZE) by {
            if wk > TILE_SIZE {
                assert((wk + TILE_SIZE - 1) / (TILE_SIZE as int) >= 2) by {
                    vstd::arithmetic::div_mod::lemma_div_is_ordered(
                        2 * (TILE_SIZE as int),
                        wk + TILE_SIZE - 1,
                        TILE_SIZE as int,
                    );
                    assert(2 * (TILE_SIZE as int) / (TILE_SIZE as int) == 2);
                };
            }
        };
        assert(hk <= TILE_SIZE) by {
            if hk > TILE_SIZE {
                assert((hk + TILE_SIZE - 1) / (TILE_SIZE as int) >= 2) by {
                    vstd::arithmetic::div_mod::lemma_div_is_ordered(
                        2 * (TILE_SIZE as int),
                        hk + TILE_SIZE - 1,
                        TILE_SIZE as int,
                    );
                    assert(2 * (TILE_SIZE as int) / (TILE_SIZE as int) == 2);
                };
            }
        };
    }
}

} // verus!

//! Laws of the container store: what its operations guarantee in
//! combination, proved once and for all over the byte model.

use vstd::prelude::*;
use crate::bytes_le::le64_at;
use crate::store::ContainerV;
use crate::store::meta_encoded;
use crate::store::open_post;
use crate::store::seed_off;
use crate::store::seed_size;
use crate::store::write_nodata_post;
use crate::store::write_tile_post;
use crate::table::inline_offset_loc;
use crate::table::inline_size_loc;
use crate::table::lemma_entry_locs_in_region;
use crate::table::lemma_entry_windows_disjoint;
use crate::table::lemma_sentinel_byte_at;
use crate::table::offset_loc;
use crate::table::region_size;
use crate::table::sentinel_byte;
use crate::table::size_loc;
use crate::table::sum_counts;

verus! {

/// Writing a tile and reading the same slot back round-trips: after a
/// successful `write_tile` of a non-empty payload, the slot reports valid
/// and a read returns exactly the written bytes, while every other slot's
/// entries are untouched.
///
/// An empty payload is the one exception: a zero size entry is
/// indistinguishable from an unwritten slot, so reading it back yields
/// absent.
pub proof fn lemma_write_round_trip(
    pre: ContainerV,
    post: ContainerV,
    level: int,
    index: int,
    tile: Seq<u8>,
)
    requires
        pre.wf(),
        0 <= level < pre.level_count(),
        0 <= index < pre.tile_counts[level],
        tile.len() > 0,
        write_tile_post(pre, post, level, index, tile),
    ensures
        post.slot_valid(level, index),
        post.spec_read(level, index) == Ok::<Option<Seq<u8>>, crate::CogError>(Some(tile)),
        forall|l2: int, i2: int|
            0 <= l2 < pre.level_count() && 0 <= i2 < pre.tile_counts[l2] && !(l2 == level && i2
                == index) ==> #[trigger] post.entry_offset(l2, i2) == pre.entry_offset(l2, i2)
                && post.entry_size(l2, i2) == pre.entry_size(l2, i2),
{
    let counts = pre.tile_counts;
    lemma_entry_locs_in_region(counts, level, index);
    crate::table::lemma_sum_counts_monotonic(counts, 0, counts.len() as int);
    assert(region_size(counts) >= 1024 * counts.len());
    assert(post.entry_offset(level, index) == pre.bytes.len() >= region_size(counts));
    assert(post.spec_read(level, index) == Ok::<Option<Seq<u8>>, crate::CogError>(Some(tile)))
        by {
        let off = post.entry_offset(level, index);
        let sz = post.entry_size(level, index);
        assert(off == pre.bytes.len() && sz == tile.len());
        assert(post.bytes.subrange(off, off + sz) == tile);
    };
    assert forall|l2: int, i2: int|
        0 <= l2 < pre.level_count() && 0 <= i2 < pre.tile_counts[l2] && !(l2 == level && i2
            == index) implies #[trigger] post.entry_offset(l2, i2) == pre.entry_offset(l2, i2)
        && post.entry_size(l2, i2) == pre.entry_size(l2, i2) by {
        lemma_entry_windows_disjoint(counts, l2, i2, level, index);
        lemma_entry_locs_in_region(counts, l2, i2);
    };
}

/// Marking a slot explicitly empty makes it valid while a read still
/// reports absent, and leaves every other slot's entries untouched.
///
/// The absence claim asks that the slot's size entry is zero beforehand,
/// as it is for every slot that was never written: marking a
/// previously-written slot empty leaves its stale size entry behind.
pub proof fn lemma_nodata_absent(pre: ContainerV, post: ContainerV, level: int, index: int)
    requires
        pre.wf(),
        0 <= level < pre.level_count(),
        0 <= index < pre.tile_counts[level],
        pre.entry_size(level, index) == 0,
        write_nodata_post(pre, post, level, index),
    ensures
        post.slot_valid(level, index),
        post.spec_read(level, index) == Ok::<Option<Seq<u8>>, crate::CogError>(
            None::<Seq<u8>>,
        ),
        forall|l2: int, i2: int|
            0 <= l2 < pre.level_count() && 0 <= i2 < pre.tile_counts[l2] && !(l2 == level && i2
                == index) ==> #[trigger] post.entry_offset(l2, i2) == pre.entry_offset(l2, i2)
                && post.entry_size(l2, i2) == pre.entry_size(l2, i2),
{
    let counts = pre.tile_counts;
    lemma_entry_locs_in_region(counts, level, index);
    assert(post.entry_size(level, index) == pre.entry_size(level, index)) by {
        crate::ifd::lemma_le64_transfer(
            pre.bytes,
            post.bytes,
            size_loc(counts, level, index),
        );
    };
    assert forall|l2: int, i2: int|
        0 <= l2 < pre.level_count() && 0 <= i2 < pre.tile_counts[l2] && !(l2 == level && i2
            == index) implies #[trigger] post.entry_offset(l2, i2) == pre.entry_offset(l2, i2)
        && post.entry_size(l2, i2) == pre.entry_size(l2, i2) by {
        lemma_entry_windows_disjoint(counts, l2, i2, level, index);
        lemma_entry_locs_in_region(counts, l2, i2);
    };
}

/// The presence query is idempotent: its contract pins each flag to the
/// slot's stored offset entry alone, so any two results obtained from the
/// same container state, with no intervening writes, are equal.
pub proof fn lemma_valid_mask_idempotent(c: ContainerV, level: int, m1: Seq<bool>, m2: Seq<bool>)
    requires
        m1.len() == c.tile_counts[level],
        forall|i: int| 0 <= i < m1.len() ==> m1[i] == c.slot_valid(level, i),
        m2.len() == c.tile_counts[level],
        forall|i: int| 0 <= i < m2.len() ==> m2[i] == c.slot_valid(level, i),
    ensures
        m1 == m2,
{
    assert(m1 =~= m2);
}

/// A freshly created container — one built over no prior content — reports
/// every slot unwritten: presence queries answer false and reads answer
/// absent everywhere.
pub proof fn lemma_fresh_all_unwritten(
    width: u32,
    height: u32,
    bpp: Seq<u8>,
    signed: bool,
    c: ContainerV,
)
    requires
        open_post(Seq::<u8>::empty(), width, height, bpp, signed, c),
    ensures
        forall|l: int, i: int|
            0 <= l < c.level_count() && 0 <= i < c.tile_counts[l] ==> !(
            #[trigger] c.slot_valid(l, i)) && c.entry_size(l, i) == 0,
{
    reveal(crate::store::meta_encoded);
    reveal(crate::store::tail_sentinel);
    let counts = c.tile_counts;
    let n = c.level_count();
    assert forall|l: int, i: int|
        0 <= l < n && 0 <= i < counts[l] implies !(#[trigger] c.slot_valid(l, i))
        && c.entry_size(l, i) == 0 by {
        lemma_entry_locs_in_region(counts, l, i);
        if counts[l] > 1 {
            lemma_table_entries_sentinel(c, l, i);
        } else {
            assert(i == 0);
            assert(meta_encoded(
                c.bytes,
                c.widths,
                c.heights,
                counts,
                bpp,
                signed,
                seed_off(Seq::<u8>::empty(), counts) as u64,
                seed_size(Seq::<u8>::empty(), counts) as u64,
            ));
            assert(seed_off(Seq::<u8>::empty(), counts) == 1);
            assert(seed_size(Seq::<u8>::empty(), counts) == 0);
            assert(c.entry_offset(l, i) == le64_at(c.bytes, inline_offset_loc(l)));
            assert(le64_at(c.bytes, crate::table::ifd_start(l) + 200) == 1);
            assert(inline_offset_loc(l) == crate::table::ifd_start(l) + 200);
            assert(inline_size_loc(l) == crate::table::ifd_start(l) + 220);
        }
    };
}

/// In a container whose external table region carries the untouched
/// sentinel pattern, a multi-tile slot's entries read as unwritten.
proof fn lemma_table_entries_sentinel(c: ContainerV, level: int, index: int)
    requires
        c.wf(),
        0 <= level < c.level_count(),
        0 <= index < c.tile_counts[level],
        c.tile_counts[level] > 1,
        forall|j: int|
            1024 * c.level_count() <= j < c.bytes.len() ==> c.bytes[j] == sentinel_byte(
                c.tile_counts,
                j - 1024 * c.level_count(),
            ),
    ensures
        c.entry_offset(level, index) == 1,
        c.entry_size(level, index) == 0,
{
    let counts = c.tile_counts;
    let n = c.level_count();
    lemma_entry_locs_in_region(counts, level, index);
    let ol = offset_loc(counts, level, index);
    let sl = size_loc(counts, level, index);
    assert forall|j: int| ol <= j < ol + 8 implies #[trigger] c.bytes[j] == (if j == ol {
        1u8
    } else {
        0u8
    }) by {
        let t = j - ol;
        let q = 8 * index + t;
        lemma_sentinel_byte_at(counts, level, q);
        assert(j - 1024 * n == 16 * sum_counts(counts, level) + q);
        vstd::arithmetic::div_mod::lemma_mod_multiples_vanish(index, t, 8);
        vstd::arithmetic::div_mod::lemma_small_mod(t as nat, 8);
    };
    assert forall|j: int| sl <= j < sl + 8 implies #[trigger] c.bytes[j] == 0u8 by {
        let q = 8 * counts[level] + 8 * index + (j - sl);
        lemma_sentinel_byte_at(counts, level, q);
        assert(j - 1024 * n == 16 * sum_counts(counts, level) + q);
    };
}

/// Reopening a container with the same construction parameters preserves
/// every slot: the derived geometry is identical, each slot's offset and
/// size entries are unchanged, and the payload bytes of every written tile
/// that lay past the directory region are carried over byte for byte.
#[verifier::rlimit(100)]
#[verifier::spinoff_prover]
pub proof fn lemma_reopen_preserves(
    pre: ContainerV,
    post: ContainerV,
    width: u32,
    height: u32,
    bpp: Seq<u8>,
    signed: bool,
)
    requires
        pre.wf(),
        pre.widths[0] == width,
        pre.heights[0] == height,
        open_post(pre.bytes, width, height, bpp, signed, post),
    ensures
        post.tile_counts == pre.tile_counts,
        post.widths == pre.widths,
        post.heights == pre.heights,
        post.bytes.len() == pre.bytes.len(),
        forall|l: int, i: int|
            0 <= l < pre.level_count() && 0 <= i < pre.tile_counts[l]
                ==> #[trigger] post.entry_offset(l, i) == pre.entry_offset(l, i)
                && post.entry_size(l, i) == pre.entry_size(l, i),
        forall|l: int, i: int|
            0 <= l < pre.level_count() && 0 <= i < pre.tile_counts[l] && (
            #[trigger] pre.entry_size(l, i) == 0 || pre.entry_offset(l, i) >= 1024
                * pre.level_count()) ==> post.spec_read(l, i) == pre.spec_read(l, i),
{
    let counts = pre.tile_counts;
    let n = pre.level_count();
    let ghost dims = crate::geometry::level_dims(width, height);
    assert forall|k: int| 0 <= k < pre.widths.len() implies post.widths[k] == pre.widths[k]
        && post.heights[k] == pre.heights[k] && post.tile_counts[k] == pre.tile_counts[k] by {
        assert(pre.widths[k] == (#[trigger] dims[k]).0 && pre.heights[k] == dims[k].1);
        assert(post.widths[k] == dims[k].0 && post.heights[k] == dims[k].1);
    };
    assert(post.widths =~= pre.widths);
    assert(post.heights =~= pre.heights);
    assert(post.tile_counts =~= pre.tile_counts);
    crate::table::lemma_sum_counts_monotonic(counts, 0, counts.len() as int);
    assert(pre.bytes.len() >= region_size(counts) >= 1024 * n);
    assert(post.bytes.len() == pre.bytes.len());
    let io = seed_off(pre.bytes, counts) as u64;
    let isz = seed_size(pre.bytes, counts) as u64;
    assert(meta_encoded(post.bytes, post.widths, post.heights, post.tile_counts, bpp, signed,
        io, isz));
    if counts[n - 1] == 1 {
        crate::store::lemma_meta_inline_entries(
            post.bytes,
            post.widths,
            post.heights,
            post.tile_counts,
            bpp,
            signed,
            io,
            isz,
        );
        assert(io == le64_at(pre.bytes, inline_offset_loc(n - 1)));
        assert(isz == le64_at(pre.bytes, inline_size_loc(n - 1)));
    }
    lemma_reopen_worker(pre, post);
}

/// Entry and payload preservation across a reopen, from the byte-level
/// facts alone: the external table and payload region are untouched, and a
/// single-tile level's inline entries were rewritten with their prior
/// values.
proof fn lemma_reopen_worker(pre: ContainerV, post: ContainerV)
    requires
        pre.wf(),
        post.tile_counts == pre.tile_counts,
        post.bytes.len() == pre.bytes.len(),
        crate::store::tail_preserved(post, pre.bytes),
        pre.tile_counts[pre.level_count() - 1] == 1 ==> le64_at(
            post.bytes,
            inline_offset_loc(pre.level_count() - 1),
        ) == le64_at(pre.bytes, inline_offset_loc(pre.level_count() - 1)) && le64_at(
            post.bytes,
            inline_size_loc(pre.level_count() - 1),
        ) == le64_at(pre.bytes, inline_size_loc(pre.level_count() - 1)),
    ensures
        forall|l: int, i: int|
            0 <= l < pre.level_count() && 0 <= i < pre.tile_counts[l]
                ==> #[trigger] post.entry_offset(l, i) == pre.entry_offset(l, i)
                && post.entry_size(l, i) == pre.entry_size(l, i),
        forall|l: int, i: int|
            0 <= l < pre.level_count() && 0 <= i < pre.tile_counts[l] && (
            #[trigger] pre.entry_size(l, i) == 0 || pre.entry_offset(l, i) >= 1024
                * pre.level_count()) ==> post.spec_read(l, i) == pre.spec_read(l, i),
{
    reveal(crate::store::tail_preserved);
    let counts = pre.tile_counts;
    let n = pre.level_count();
    assert forall|l: int, i: int|
        0 <= l < n && 0 <= i < counts[l] implies #[trigger] post.entry_offset(l, i)
        == pre.entry_offset(l, i) && post.entry_size(l, i) == pre.entry_size(l, i) by {
        lemma_entry_locs_in_region(counts, l, i);
        if counts[l] > 1 {
            lemma_reopen_entries_multi(pre, post, l, i);
        } else {
            assert(i == 0);
            assert(l == n - 1);
        }
    };
    assert forall|l: int, i: int|
        0 <= l < n && 0 <= i < counts[l] && (#[trigger] pre.entry_size(l, i) == 0
            || pre.entry_offset(l, i) >= 1024 * n) implies post.spec_read(l, i) == pre.spec_read(
        l,
        i,
    ) by {
        let off = pre.entry_offset(l, i);
        let sz = pre.entry_size(l, i);
        if sz != 0 && off + sz <= pre.bytes.len() {
            assert(post.bytes.subrange(off, off + sz) =~= pre.bytes.subrange(off, off + sz));
        }
    };
}

/// A multi-tile slot's entries live in the external table, which reopening
/// leaves byte for byte intact.
proof fn lemma_reopen_entries_multi(pre: ContainerV, post: ContainerV, l: int, i: int)
    requires
        pre.wf(),
        post.tile_counts == pre.tile_counts,
        0 <= l < pre.level_count(),
        0 <= i < pre.tile_counts[l],
        pre.tile_counts[l] > 1,
        post.bytes.len() == pre.bytes.len(),
        forall|j: int|
            1024 * pre.level_count() <= j < pre.bytes.len() ==> post.bytes[j] == pre.bytes[j],
    ensures
        post.entry_offset(l, i) == pre.entry_offset(l, i),
        post.entry_size(l, i) == pre.entry_size(l, i),
{
    let counts = pre.tile_counts;
    lemma_entry_locs_in_region(counts, l, i);
    crate::ifd::lemma_le64_transfer(pre.bytes, post.bytes, offset_loc(counts, l, i));
    crate::ifd::lemma_le64_transfer(pre.bytes, post.bytes, size_loc(counts, l, i));
}

} // verus!

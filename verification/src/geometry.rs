//! Pyramid geometry: the sequence of level dimensions derived from a base
//! width and height by ceiling-halving, and the tile count of each level.
//!
//! Level 0 is full resolution.  Halving continues while either dimension of
//! the current level exceeds the tile edge; the first level with both
//! dimensions at most the tile edge is the last.

use vstd::prelude::*;
use crate::CogError;
use crate::TILE_SIZE;

verus! {

/// Number of tiles along one axis of a level `d` pixels long:
/// `ceil(d / TILE_SIZE)`.
pub open spec fn tiles_along(d: u32) -> int {
    (d + TILE_SIZE - 1) / (TILE_SIZE as int)
}

/// Number of tiles in a level of the given dimensions.
pub open spec fn tile_count_of(w: u32, h: u32) -> int {
    tiles_along(w) * tiles_along(h)
}

/// One ceiling-halving step: `ceil(d / 2)`.
pub open spec fn ceil_half(d: u32) -> u32 {
    ((d + 1) / 2) as u32
}

/// The (width, height) of every pyramid level, finest first.
pub open spec fn level_dims(w: u32, h: u32) -> Seq<(u32, u32)>
    decreases w + h,
{
    if w > TILE_SIZE || h > TILE_SIZE {
        seq![(w, h)] + level_dims(ceil_half(w), ceil_half(h))
    } else {
        seq![(w, h)]
    }
}

/// Structure of the level sequence: it starts at the base dimensions, each
/// level before the last exceeds the tile edge in some dimension and is
/// followed by its ceiling-halved successor, and the last level fits within
/// one tile edge in both dimensions.
pub proof fn lemma_level_dims_index(w: u32, h: u32, k: int)
    requires
        0 <= k < level_dims(w, h).len(),
    ensures
        level_dims(w, h)[0] == (w, h),
        k < level_dims(w, h).len() - 1 ==> (level_dims(w, h)[k].0 > TILE_SIZE || level_dims(
            w,
            h,
        )[k].1 > TILE_SIZE) && level_dims(w, h)[k + 1] == (
            ceil_half(level_dims(w, h)[k].0),
            ceil_half(level_dims(w, h)[k].1),
        ),
        k == level_dims(w, h).len() - 1 ==> level_dims(w, h)[k].0 <= TILE_SIZE && level_dims(
            w,
            h,
        )[k].1 <= TILE_SIZE,
    decreases w + h,
{
    if w > TILE_SIZE || h > TILE_SIZE {
        let rest = level_dims(ceil_half(w), ceil_half(h));
        if k == 0 {
            lemma_level_dims_index(ceil_half(w), ceil_half(h), 0);
        } else {
            lemma_level_dims_index(ceil_half(w), ceil_half(h), k - 1);
        }
    }
}

/// The derived pyramid strictly shrinks: every step ceiling-halves both
/// dimensions, any dimension above one strictly decreases, each level before
/// the last exceeds the tile edge somewhere, and the last level fits within
/// it entirely.
pub proof fn lemma_pyramid_shrinks(w: u32, h: u32)
    ensures
        level_dims(w, h).len() >= 1,
        level_dims(w, h)[0] == (w, h),
        level_dims(w, h).last().0 <= TILE_SIZE && level_dims(w, h).last().1 <= TILE_SIZE,
        forall|k: int|
            0 <= k < level_dims(w, h).len() - 1 ==> #[trigger] level_dims(w, h)[k + 1] == (
                ceil_half(level_dims(w, h)[k].0),
                ceil_half(level_dims(w, h)[k].1),
            ) && (level_dims(w, h)[k].0 > TILE_SIZE || level_dims(w, h)[k].1 > TILE_SIZE),
        forall|k: int|
            0 <= k < level_dims(w, h).len() - 1 && level_dims(w, h)[k].0 > 1
                ==> #[trigger] level_dims(w, h)[k + 1].0 < level_dims(w, h)[k].0,
        forall|k: int|
            0 <= k < level_dims(w, h).len() - 1 && level_dims(w, h)[k].1 > 1
                ==> #[trigger] level_dims(w, h)[k + 1].1 < level_dims(w, h)[k].1,
{
    lemma_level_dims_index(w, h, 0);
    assert forall|k: int| 0 <= k < level_dims(w, h).len() - 1 implies #[trigger] level_dims(
        w,
        h,
    )[k + 1] == (ceil_half(level_dims(w, h)[k].0), ceil_half(level_dims(w, h)[k].1)) && (
    level_dims(w, h)[k].0 > TILE_SIZE || level_dims(w, h)[k].1 > TILE_SIZE) by {
        lemma_level_dims_index(w, h, k);
    }
    lemma_level_dims_index(w, h, level_dims(w, h).len() - 1);
}

/// `tiles_along` is exactly the ceiling of `d / TILE_SIZE`: for a non-empty
/// axis the covered span reaches `d` but overshoots by less than one tile.
pub proof fn lemma_tiles_along_is_ceil(d: u32)
    ensures
        tiles_along(d) >= 0,
        d == 0 ==> tiles_along(d) == 0,
        d > 0 ==> d <= TILE_SIZE * tiles_along(d) < d + TILE_SIZE,
{
    vstd::arithmetic::div_mod::lemma_fundamental_div_mod(d + TILE_SIZE - 1, TILE_SIZE as int);
}

/// Derive the width, height and tile count of every pyramid level for a base
/// image of `width` by `height` pixels.
///
/// Fails exactly when some level's tile count overflows the 32-bit tile
/// index space.
pub fn derive_levels(width: u32, height: u32) -> (r: Result<
    (Vec<u32>, Vec<u32>, Vec<u32>),
    CogError,
>)
    ensures
        match r {
            Ok(v) => {
                let dims = level_dims(width, height);
                &&& v.0@.len() == dims.len()
                &&& v.1@.len() == dims.len()
                &&& v.2@.len() == dims.len()
                &&& forall|k: int|
                    0 <= k < dims.len() ==> v.0@[k] == dims[k].0 && v.1@[k] == dims[k].1
                        && v.2@[k] == tile_count_of(dims[k].0, dims[k].1)
            },
            Err(e) => {
                let dims = level_dims(width, height);
                &&& e == CogError::TileCountOverflow
                &&& exists|k: int|
                    0 <= k < dims.len() && tile_count_of((#[trigger] dims[k]).0, dims[k].1)
                        > u32::MAX
            },
        },
{
    let ghost dims = level_dims(width, height);
    let mut widths: Vec<u32> = Vec::new();
    let mut heights: Vec<u32> = Vec::new();
    let mut tile_counts: Vec<u32> = Vec::new();
    let mut w = width;
    let mut h = height;
    proof {
        lemma_level_dims_index(width, height, 0);
    }
    match tile_count_checked(w, h) {
        Some(c) => tile_counts.push(c),
        None => {
            return Err(CogError::TileCountOverflow);
        },
    }
    widths.push(w);
    heights.push(h);
    while w > TILE_SIZE || h > TILE_SIZE
        invariant
            1 <= widths@.len() <= dims.len(),
            heights@.len() == widths@.len(),
            tile_counts@.len() == widths@.len(),
            dims == level_dims(width, height),
            forall|k: int|
                0 <= k < widths@.len() ==> widths@[k] == dims[k].0 && heights@[k] == dims[k].1
                    && tile_counts@[k] == tile_count_of(dims[k].0, dims[k].1),
            (w, h) == dims[widths@.len() - 1],
            w <= TILE_SIZE && h <= TILE_SIZE ==> widths@.len() == dims.len(),
        decreases w + h,
    {
        proof {
            lemma_level_dims_index(width, height, widths@.len() - 1);
        }
        w = ceil_half_exec(w);
        h = ceil_half_exec(h);
        proof {
            if w <= TILE_SIZE && h <= TILE_SIZE {
                lemma_level_dims_index(width, height, widths@.len() as int);
            }
        }
        match tile_count_checked(w, h) {
            Some(c) => tile_counts.push(c),
            None => {
                return Err(CogError::TileCountOverflow);
            },
        }
        widths.push(w);
        heights.push(h);
    }
    Ok((widths, heights, tile_counts))
}

/// Halving from 32-bit dimensions reaches the tile edge within 22 steps, so
/// a pyramid never has more than 23 levels.
pub proof fn lemma_level_count_bound(w: u32, h: u32)
    ensures
        level_dims(w, h).len() <= 23,
{
    vstd::arithmetic::power2::lemma2_to64();
    lemma_level_count_pow(w, h, 22);
}

proof fn lemma_level_count_pow(w: u32, h: u32, k: nat)
    requires
        w <= 1024 * vstd::arithmetic::power2::pow2(k),
        h <= 1024 * vstd::arithmetic::power2::pow2(k),
    ensures
        level_dims(w, h).len() <= k + 1,
    decreases k,
{
    if w > TILE_SIZE || h > TILE_SIZE {
        assert(k >= 1) by {
            if k == 0 {
                assert(vstd::arithmetic::power2::pow2(0) == 1) by {
                    vstd::arithmetic::power2::lemma2_to64();
                };
            }
        };
        let m: int = (1024 * vstd::arithmetic::power2::pow2((k - 1) as nat)) as int;
        assert(1024 * vstd::arithmetic::power2::pow2(k) == 2 * m) by {
            vstd::arithmetic::power2::lemma_pow2_unfold(k);
        };
        assert(ceil_half(w) <= m && ceil_half(h) <= m) by {
            vstd::arithmetic::power2::lemma_pow2_pos((k - 1) as nat);
            vstd::arithmetic::div_mod::lemma_div_is_ordered(w + 1, 2 * m + 1, 2);
            vstd::arithmetic::div_mod::lemma_div_is_ordered(h + 1, 2 * m + 1, 2);
            assert((2 * m + 1) / 2 == m) by {
                vstd::arithmetic::div_mod::lemma_fundamental_div_mod_converse(
                    2 * m + 1,
                    2,
                    m as int,
                    1,
                );
            };
        };
        lemma_level_count_pow(ceil_half(w), ceil_half(h), (k - 1) as nat);
    }
}

/// `ceil(d / 2)` on machine integers.
fn ceil_half_exec(d: u32) -> (r: u32)
    ensures
        r == ceil_half(d),
{
    d / 2 + d % 2
}

/// The tile count of a level, or `None` when it overflows the 32-bit tile
/// index space.
fn tile_count_checked(w: u32, h: u32) -> (r: Option<u32>)
    ensures
        match r {
            Some(c) => c == tile_count_of(w, h),
            None => tile_count_of(w, h) > u32::MAX,
        },
{
    let tw = (w as u64 + (TILE_SIZE as u64 - 1)) / (TILE_SIZE as u64);
    let th = (h as u64 + (TILE_SIZE as u64 - 1)) / (TILE_SIZE as u64);
    proof {
        assert(tw == tiles_along(w) && th == tiles_along(h));
        assert(tw <= 0x400000 && th <= 0x400000) by {
            vstd::arithmetic::div_mod::lemma_div_is_ordered(
                w as int + (TILE_SIZE - 1),
                u32::MAX as int + (TILE_SIZE - 1),
                TILE_SIZE as int,
            );
            vstd::arithmetic::div_mod::lemma_div_is_ordered(
                h as int + (TILE_SIZE - 1),
                u32::MAX as int + (TILE_SIZE - 1),
                TILE_SIZE as int,
            );
        };
        assert(tw * th <= 0x400000 * 0x400000) by (nonlinear_arith)
            requires
                0 <= tw <= 0x400000 && 0 <= th <= 0x400000,
        ;
    }
    let c = tw * th;
    if c > u32::MAX as u64 {
        None
    } else {
        Some(c as u32)
    }
}

} // verus!

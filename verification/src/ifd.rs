//! Directory records: the fixed 12-tag metadata block of one pyramid level,
//! and the generic tag scan used when reopening an existing container.
//!
//! Each record is 256 bytes: an eight-byte tag count, twelve 20-byte tags
//! (two-byte identifier, two-byte type, eight-byte count, eight-byte value)
//! and an eight-byte link to the next record.  Records occupy 1024-byte
//! slots; the first shares its slot with the 16-byte magic header.

use vstd::prelude::*;
use crate::TILE_SIZE;
use crate::bytes_le::le16_at;
use crate::bytes_le::le64_at;
use crate::bytes_le::push_u64_le;
use crate::bytes_le::read_u16_at;
use crate::bytes_le::read_u64_at;
use crate::table::NUM_TAGS;
use crate::table::ifd_start;
use crate::table::inline_offset_loc;
use crate::table::inline_size_loc;
use crate::table::lone_tile_only_last;

verus! {

/// Identifier of the `j`th tag of every directory record: subfile type,
/// width, height, bits per sample, compression, photometric interpretation,
/// samples per pixel, tile width, tile height, tile offsets, tile byte
/// counts, sample format.
pub open spec fn tag_kind(j: int) -> int {
    if j == 0 {
        0xFE
    } else if j == 1 {
        0x100
    } else if j == 2 {
        0x101
    } else if j == 3 {
        0x102
    } else if j == 4 {
        0x103
    } else if j == 5 {
        0x106
    } else if j == 6 {
        0x115
    } else if j == 7 {
        0x142
    } else if j == 8 {
        0x143
    } else if j == 9 {
        0x144
    } else if j == 10 {
        0x145
    } else {
        0x153
    }
}

/// The record at `base` carries the fixed tag count and tag identifiers.
pub open spec fn ifd_record_wf(data: Seq<u8>, base: int) -> bool {
    &&& 0 <= base
    &&& base + 256 <= data.len()
    &&& le64_at(data, base) == NUM_TAGS
    &&& forall|j: int|
        0 <= j < NUM_TAGS ==> le16_at(data, base + 8 + 20 * j) == #[trigger] tag_kind(j)
}

/// Every level's directory record carries the fixed tag layout.
pub open spec fn ifd_region_wf(data: Seq<u8>, nlevels: int) -> bool {
    &&& nlevels >= 1
    &&& 1024 * nlevels <= data.len()
    &&& forall|l: int| 0 <= l < nlevels ==> ifd_record_wf(data, #[trigger] ifd_start(l))
}

/// The 16-byte magic header of the container: the little-endian big-variant
/// identification followed by the byte position (16) of the first directory.
pub open spec fn header_wf(data: Seq<u8>) -> bool {
    &&& data.len() >= 16
    &&& data[0] == 73u8
    &&& data[1] == 73u8
    &&& data[2] == 43u8
    &&& data[3] == 0u8
    &&& data[4] == 8u8
    &&& data[5] == 0u8
    &&& data[6] == 0u8
    &&& data[7] == 0u8
    &&& le64_at(data, 8) == 16
}

/// The raw value bytes of the bits-per-sample tag: the per-channel depths,
/// zero-padded to eight bytes.
pub open spec fn bps_bytes(data: Seq<u8>, base: int, bpp: Seq<u8>) -> bool {
    &&& forall|j: int|
        base + 80 <= j < base + 80 + bpp.len() ==> #[trigger] data[j] == bpp[j - (base + 80)]
    &&& forall|j: int| base + 80 + bpp.len() <= j < base + 88 ==> #[trigger] data[j] == 0
}

/// Tag values of the record at `base`, for level `level` of `nlevels`:
/// reduced-resolution flag, dimensions, channel depths, LZW compression,
/// photometric interpretation, channel count, tile edges, the tile-offset
/// and tile-size references (external table addresses when the level has
/// more than one tile, otherwise the inline entry values), sample format,
/// and the link to the next record.
pub open spec fn ifd_values(
    data: Seq<u8>,
    base: int,
    level: int,
    nlevels: int,
    width: u32,
    height: u32,
    bpp: Seq<u8>,
    signed: bool,
    count: u32,
    table_off: int,
    inline_off: u64,
    inline_size: u64,
) -> bool {
    &&& le64_at(data, base + 20) == if level == 0 {
        0int
    } else {
        1int
    }
    &&& le64_at(data, base + 40) == width
    &&& le64_at(data, base + 60) == height
    &&& le64_at(data, base + 100) == 5
    &&& le64_at(data, base + 120) == if bpp.len() == 3 {
        2int
    } else {
        1int
    }
    &&& le64_at(data, base + 140) == bpp.len()
    &&& le64_at(data, base + 160) == TILE_SIZE
    &&& le64_at(data, base + 180) == TILE_SIZE
    &&& le64_at(data, base + 192) == count
    &&& le64_at(data, base + 200) == if count > 1 {
        table_off
    } else {
        inline_off as int
    }
    &&& le64_at(data, base + 212) == count
    &&& le64_at(data, base + 220) == if count > 1 {
        table_off + 8 * count
    } else {
        inline_size as int
    }
    &&& le64_at(data, base + 240) == if signed {
        2int
    } else {
        1int
    }
    &&& le64_at(data, base + 248) == if level + 1 < nlevels {
        1024 * (level + 1)
    } else {
        0int
    }
}

/// Append the 16-byte magic header.
pub fn push_header(out: &mut Vec<u8>)
    requires
        old(out)@.len() == 0,
    ensures
        final(out)@.len() == 16,
        header_wf(final(out)@),
{
    out.push(73u8);
    out.push(73u8);
    out.push(43u8);
    out.push(0u8);
    out.push(8u8);
    out.push(0u8);
    out.push(0u8);
    out.push(0u8);
    push_u64_le(out, 16);
}

/// Append `n` zero bytes.
pub fn push_zeros(out: &mut Vec<u8>, n: usize)
    ensures
        final(out)@.len() == old(out)@.len() + n,
        forall|j: int| 0 <= j < old(out)@.len() ==> final(out)@[j] == old(out)@[j],
        forall|j: int| old(out)@.len() <= j < final(out)@.len() ==> final(out)@[j] == 0,
{
    let mut k: usize = 0;
    while k < n
        invariant
            k <= n,
            out@.len() == old(out)@.len() + k,
            forall|j: int| 0 <= j < old(out)@.len() ==> out@[j] == old(out)@[j],
            forall|j: int| old(out)@.len() <= j < out@.len() ==> out@[j] == 0,
        decreases n - k,
    {
        out.push(0u8);
        k = k + 1;
    }
}

/// Append one 12-byte tag head: identifier, type, and a count whose value
/// fits in one byte.
fn push_tag12(out: &mut Vec<u8>, k0: u8, k1: u8, typ: u8, cnt: u8)
    ensures
        final(out)@.len() == old(out)@.len() + 12,
        forall|j: int| 0 <= j < old(out)@.len() ==> final(out)@[j] == old(out)@[j],
        le16_at(final(out)@, old(out)@.len() as int) == k0 + 0x100 * k1,
        le64_at(final(out)@, old(out)@.len() as int + 4) == cnt,
{
    out.push(k0);
    out.push(k1);
    out.push(typ);
    out.push(0u8);
    out.push(cnt);
    out.push(0u8);
    out.push(0u8);
    out.push(0u8);
    out.push(0u8);
    out.push(0u8);
    out.push(0u8);
    out.push(0u8);
}

/// Append one 20-byte reference tag: identifier, the eight-byte array type,
/// an eight-byte count and an eight-byte value.
fn push_ref_tag(out: &mut Vec<u8>, k0: u8, k1: u8, cnt: u64, val: u64)
    ensures
        final(out)@.len() == old(out)@.len() + 20,
        forall|j: int| 0 <= j < old(out)@.len() ==> final(out)@[j] == old(out)@[j],
        le16_at(final(out)@, old(out)@.len() as int) == k0 + 0x100 * k1,
        le64_at(final(out)@, old(out)@.len() as int + 4) == cnt,
        le64_at(final(out)@, old(out)@.len() as int + 12) == val,
{
    out.push(k0);
    out.push(k1);
    out.push(16u8);
    out.push(0u8);
    push_u64_le(out, cnt);
    push_u64_le(out, val);
}

/// Append the 256-byte directory record of one level.
///
/// `table_off` is the byte position of the level's external table; it is
/// referenced only when the level has more than one tile.  `inline_off` and
/// `inline_size` are the entry values stored inline when the level has at
/// most one tile.
#[verifier::rlimit(100)]
#[verifier::spinoff_prover]
pub fn append_ifd(
    out: &mut Vec<u8>,
    level: u32,
    nlevels: u32,
    width: u32,
    height: u32,
    bpp: &Vec<u8>,
    signed: bool,
    count: u32,
    table_off: u64,
    inline_off: u64,
    inline_size: u64,
)
    requires
        1 <= bpp@.len() <= 8,
        level < nlevels,
        count > 1 ==> table_off + 8 * count <= u64::MAX,
    ensures
        final(out)@.len() == old(out)@.len() + 256,
        forall|j: int| 0 <= j < old(out)@.len() ==> final(out)@[j] == old(out)@[j],
        le64_at(final(out)@, old(out)@.len() as int) == NUM_TAGS,
        forall|j: int|
            0 <= j < NUM_TAGS ==> le16_at(final(out)@, old(out)@.len() + 8 + 20 * j)
                == #[trigger] tag_kind(j),
        ifd_values(
            final(out)@,
            old(out)@.len() as int,
            level as int,
            nlevels as int,
            width,
            height,
            bpp@,
            signed,
            count,
            table_off as int,
            inline_off,
            inline_size,
        ),
        bps_bytes(final(out)@, old(out)@.len() as int, bpp@),
{
    let ghost base = out@.len() as int;
    push_u64_le(out, NUM_TAGS as u64);
    // new subfile type
    push_tag12(out, 0xFE, 0, 4, 1);
    push_u64_le(out, if level == 0 { 0 } else { 1 });
    // width
    push_tag12(out, 0, 1, 4, 1);
    push_u64_le(out, width as u64);
    // height
    push_tag12(out, 1, 1, 4, 1);
    push_u64_le(out, height as u64);
    // bits per sample
    push_tag12(out, 2, 1, 1, bpp.len() as u8);
    let ghost pre = out@;
    let mut i: usize = 0;
    while i < bpp.len()
        invariant
            i <= bpp@.len() <= 8,
            pre.len() == base + 80,
            out@.len() == pre.len() + i,
            forall|j: int| 0 <= j < pre.len() ==> out@[j] == pre[j],
            forall|j: int| pre.len() <= j < out@.len() ==> out@[j] == bpp@[j - pre.len()],
        decreases bpp@.len() - i,
    {
        let b = bpp[i];
        out.push(b);
        i = i + 1;
    }
    push_zeros(out, 8 - bpp.len());
    // compression: LZW
    push_tag12(out, 3, 1, 4, 1);
    push_u64_le(out, 5);
    // photometric interpretation
    push_tag12(out, 6, 1, 4, 1);
    push_u64_le(out, if bpp.len() == 3 { 2 } else { 1 });
    // samples per pixel
    push_tag12(out, 0x15, 1, 4, 1);
    push_u64_le(out, bpp.len() as u64);
    // tile width
    push_tag12(out, 0x42, 1, 4, 1);
    push_u64_le(out, TILE_SIZE as u64);
    // tile height
    push_tag12(out, 0x43, 1, 4, 1);
    push_u64_le(out, TILE_SIZE as u64);
    // tile offsets
    push_ref_tag(out, 0x44, 1, count as u64, if count > 1 { table_off } else { inline_off });
    // tile byte counts
    push_ref_tag(
        out,
        0x45,
        1,
        count as u64,
        if count > 1 {
            table_off + 8 * (count as u64)
        } else {
            inline_size
        },
    );
    // sample format
    push_tag12(out, 0x53, 1, 3, 1);
    push_u64_le(out, if signed { 2 } else { 1 });
    // next directory
    push_u64_le(
        out,
        if level + 1 < nlevels {
            1024 * (level as u64 + 1)
        } else {
            0
        },
    );
}

/// A directory record's tag structure carries over to any byte image that
/// agrees with the original on the record's 256 bytes.
pub proof fn lemma_record_wf_transfer(a: Seq<u8>, b: Seq<u8>, base: int)
    requires
        ifd_record_wf(a, base),
        base + 256 <= b.len(),
        forall|j: int| base <= j < base + 256 ==> b[j] == a[j],
    ensures
        ifd_record_wf(b, base),
{
    assert forall|j: int| 0 <= j < NUM_TAGS implies le16_at(b, base + 8 + 20 * j)
        == #[trigger] tag_kind(j) by {
        assert(le16_at(a, base + 8 + 20 * j) == tag_kind(j));
    };
    lemma_le64_transfer(a, b, base);
}

/// Every eight-byte field of a record carries over to any byte image that
/// agrees with the original on the record's 256 bytes.
pub proof fn lemma_record_fields_transfer(a: Seq<u8>, b: Seq<u8>, base: int)
    requires
        0 <= base,
        base + 256 <= b.len(),
        forall|j: int| base <= j < base + 256 ==> b[j] == a[j],
    ensures
        forall|x: int|
            0 <= x && x + 8 <= 256 ==> #[trigger] le64_at(b, base + x) == le64_at(a, base + x),
        forall|j: int|
            base <= j < base + 80 + 8 ==> #[trigger] b[j] == a[j],
{
    assert forall|x: int| 0 <= x && x + 8 <= 256 implies #[trigger] le64_at(b, base + x)
        == le64_at(a, base + x) by {
        lemma_le64_transfer(a, b, base + x);
    };
}

/// An eight-byte field reads the same out of two byte images that agree on
/// its window.
pub proof fn lemma_le64_transfer(a: Seq<u8>, b: Seq<u8>, pos: int)
    requires
        forall|j: int| pos <= j < pos + 8 ==> b[j] == a[j],
    ensures
        le64_at(b, pos) == le64_at(a, pos),
{
}

/// A record's tag values carry over to any byte image that agrees with the
/// original on the record's 256 bytes.
pub proof fn lemma_values_transfer(
    a: Seq<u8>,
    b: Seq<u8>,
    base: int,
    level: int,
    nlevels: int,
    width: u32,
    height: u32,
    bpp: Seq<u8>,
    signed: bool,
    count: u32,
    table_off: int,
    inline_off: u64,
    inline_size: u64,
)
    requires
        ifd_values(a, base, level, nlevels, width, height, bpp, signed, count, table_off,
            inline_off, inline_size),
        0 <= base,
        base + 256 <= b.len(),
        forall|j: int| base <= j < base + 256 ==> b[j] == a[j],
    ensures
        ifd_values(b, base, level, nlevels, width, height, bpp, signed, count, table_off,
            inline_off, inline_size),
{
    lemma_record_fields_transfer(a, b, base);
}

/// The bits-per-sample value bytes carry over to any byte image that agrees
/// with the original on the record's 256 bytes.
pub proof fn lemma_bps_transfer(a: Seq<u8>, b: Seq<u8>, base: int, bpp: Seq<u8>)
    requires
        bps_bytes(a, base, bpp),
        bpp.len() <= 8,
        0 <= base,
        base + 256 <= b.len(),
        forall|j: int| base <= j < base + 256 ==> b[j] == a[j],
    ensures
        bps_bytes(b, base, bpp),
{
}

/// Recover the inline offset/size entry values of the single-tile level of
/// an existing directory region by scanning each record's tag list for the
/// tile-offsets and tile-byte-counts identifiers.
///
/// The scan is generic: it walks whatever tag count the record declares
/// (bounded by what fits in the 1024-byte slot), so it also reads records
/// written with a different tag layout.  Its result is pinned down when the
/// region carries this crate's layout: the values come from the last
/// level's inline entries when that level holds a single tile, and remain
/// the unwritten sentinel otherwise.
pub fn scan_inline_entries(existing: &Vec<u8>, tile_counts: &Vec<u32>) -> (r: (u64, u64))
    requires
        tile_counts@.len() >= 1,
        1024 * tile_counts@.len() <= existing.len(),
        lone_tile_only_last(tile_counts@),
    ensures
        ifd_region_wf(existing@, tile_counts@.len() as int) ==> {
            let last = tile_counts@.len() - 1;
            if tile_counts@[last] == 1 {
                r.0 == le64_at(existing@, inline_offset_loc(last)) && r.1 == le64_at(
                    existing@,
                    inline_size_loc(last),
                )
            } else {
                r == (1u64, 0u64)
            }
        },
{
    let ghost n = tile_counts@.len() as int;
    let ghost wf = ifd_region_wf(existing@, n);
    let mut off: u64 = 1;
    let mut sz: u64 = 0;
    let mut i: usize = 0;
    while i < tile_counts.len()
        invariant
            0 <= i <= n,
            n == tile_counts@.len(),
            1024 * n <= existing.len(),
            lone_tile_only_last(tile_counts@),
            wf == ifd_region_wf(existing@, n),
            wf ==> {
                if i == n && tile_counts@[n - 1] == 1 {
                    off == le64_at(existing@, inline_offset_loc(n - 1)) && sz == le64_at(
                        existing@,
                        inline_size_loc(n - 1),
                    )
                } else {
                    off == 1 && sz == 0
                }
            },
        decreases n - i,
    {
        let base: usize = if i == 0 {
            16
        } else {
            1024 * i
        };
        proof {
            assert(base == ifd_start(i as int));
            assert(base + 1008 <= 1024 * n) by {
                if i == 0 {
                } else {
                    assert(1024 * (i + 1) <= 1024 * n);
                }
            };
        }
        let num_tags = read_u64_at(existing, base);
        let single = tile_counts[i] == 1;
        let mut tag: u64 = 0;
        while tag < num_tags && tag < 49
            invariant
                0 <= tag <= 49,
                0 <= i < n,
                n == tile_counts@.len(),
                1024 * n <= existing.len(),
                base == ifd_start(i as int),
                base + 1008 <= 1024 * n,
                num_tags == le64_at(existing@, base as int),
                single == (tile_counts@[i as int] == 1),
                lone_tile_only_last(tile_counts@),
                wf == ifd_region_wf(existing@, n),
                wf ==> num_tags == NUM_TAGS,
                wf && !(single && i == n - 1) ==> off == 1 && sz == 0,
                wf && single && i == n - 1 ==> {
                    &&& off == if tag > 9 {
                        le64_at(existing@, inline_offset_loc(n - 1)) as u64
                    } else {
                        1u64
                    }
                    &&& sz == if tag > 10 {
                        le64_at(existing@, inline_size_loc(n - 1)) as u64
                    } else {
                        0u64
                    }
                },
            decreases 50 - tag,
        {
            let t = tag as usize;
            let kind = read_u16_at(existing, base + 8 + 20 * t);
            let value = read_u64_at(existing, base + 8 + 20 * t + 12);
            proof {
                if wf {
                    assert(ifd_record_wf(existing@, ifd_start(i as int)));
                    assert(le16_at(existing@, base + 8 + 20 * (tag as int)) == tag_kind(
                        tag as int,
                    ));
                    if single && i == n - 1 {
                        assert(inline_offset_loc(n - 1) == base + 200);
                        assert(inline_size_loc(n - 1) == base + 220);
                    }
                    if single && i < n - 1 {
                        assert(false);
                    }
                }
            }
            if kind == 0x144 && single {
                off = value;
            }
            if kind == 0x145 && single {
                sz = value;
            }
            tag = tag + 1;
        }
        i = i + 1;
    }
    (off, sz)
}

} // verus!

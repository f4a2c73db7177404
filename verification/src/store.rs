//! The container store: creation and resumption of a container, tile writes,
//! explicitly-empty (nodata) writes, presence queries and tile reads.
//!
//! The store owns the container's byte image.  Every operation is specified
//! against that image: the tri-state of a slot is decided by its two
//! eight-byte entries (offset sentinel 1 = unwritten, offset 0 with size 0 =
//! explicitly empty, otherwise a payload position and length), and payloads
//! are appended at the end of the image.

use vstd::prelude::*;
use crate::CogError;
use crate::bytes_le::le64_at;
use crate::bytes_le::read_u64_at;
use crate::bytes_le::write_u64_at;
use crate::geometry::level_dims;
use crate::geometry::tile_count_of;
use crate::geometry::tiles_along;
use crate::ifd::header_wf;
use crate::ifd::ifd_region_wf;
use crate::ifd::ifd_record_wf;
use crate::ifd::ifd_values;
use crate::ifd::tag_kind;
use crate::table::NUM_TAGS;
use crate::table::ifd_start;
use crate::table::inline_offset_loc;
use crate::table::inline_size_loc;
use crate::table::lemma_entry_locs_in_region;
use crate::table::lone_tile_only_last;
use crate::table::offset_loc;
use crate::table::region_size;
use crate::table::size_loc;
use crate::table::table_base;

verus! {

/// Ghost image of a container: the file bytes and the pyramid geometry
/// computed at open time.
pub struct ContainerV {
    /// The container's bytes, header first, payloads last.
    pub bytes: Seq<u8>,
    /// Width in pixels of each level.
    pub widths: Seq<u32>,
    /// Height in pixels of each level.
    pub heights: Seq<u32>,
    /// Number of tiles of each level.
    pub tile_counts: Seq<u32>,
}

impl ContainerV {
    /// Number of pyramid levels.
    pub open spec fn level_count(self) -> int {
        self.tile_counts.len() as int
    }

    /// The geometry fields are exactly the pyramid derived from the base
    /// dimensions.
    pub open spec fn geometry_ok(self) -> bool {
        let dims = level_dims(self.widths[0], self.heights[0]);
        &&& self.widths.len() >= 1
        &&& self.heights.len() == self.widths.len()
        &&& self.tile_counts.len() == self.widths.len()
        &&& self.widths.len() == dims.len()
        &&& forall|k: int|
            0 <= k < dims.len() ==> self.widths[k] == (#[trigger] dims[k]).0 && self.heights[k]
                == dims[k].1 && self.tile_counts[k] == tile_count_of(dims[k].0, dims[k].1)
    }

    /// Internal invariant of an open container: derived geometry, a byte
    /// image at least as large as the header-plus-table region, the magic
    /// header, one well-formed directory record per level, a single-tile
    /// level only at the end, and few enough levels for 32-bit level
    /// numbers.
    pub open spec fn wf(self) -> bool {
        &&& self.geometry_ok()
        &&& lone_tile_only_last(self.tile_counts)
        &&& self.level_count() <= 23
        &&& region_size(self.tile_counts) <= self.bytes.len()
        &&& header_wf(self.bytes)
        &&& ifd_region_wf(self.bytes, self.level_count())
    }

    /// The stored offset entry of slot `(level, index)`.
    pub open spec fn entry_offset(self, level: int, index: int) -> int {
        le64_at(self.bytes, offset_loc(self.tile_counts, level, index))
    }

    /// The stored size entry of slot `(level, index)`.
    pub open spec fn entry_size(self, level: int, index: int) -> int {
        le64_at(self.bytes, size_loc(self.tile_counts, level, index))
    }

    /// A slot is valid once its offset entry differs from the unwritten
    /// sentinel: it was either written or explicitly marked empty.
    pub open spec fn slot_valid(self, level: int, index: int) -> bool {
        self.entry_offset(level, index) != 1
    }

    /// What reading slot `(level, index)` yields: absent for an
    /// out-of-range index or a zero size entry, the recorded payload bytes
    /// for a written slot, and a corrupt-entry fault when the entries point
    /// beyond the container.
    pub open spec fn spec_read(self, level: int, index: int) -> Result<Option<Seq<u8>>, CogError> {
        let off = self.entry_offset(level, index);
        let sz = self.entry_size(level, index);
        if index >= self.tile_counts[level] {
            Ok(None)
        } else if sz == 0 {
            Ok(None)
        } else if off + sz <= self.bytes.len() {
            Ok(Some(self.bytes.subrange(off, off + sz)))
        } else {
            Err(CogError::CorruptEntry)
        }
    }
}

/// How a successful `write_tile` changes the container: the payload is
/// appended at the old end of the image, the slot's size and offset entries
/// now record it, and every other byte is unchanged.
pub open spec fn write_tile_post(
    pre: ContainerV,
    post: ContainerV,
    level: int,
    index: int,
    tile: Seq<u8>,
) -> bool {
    &&& post.widths == pre.widths
    &&& post.heights == pre.heights
    &&& post.tile_counts == pre.tile_counts
    &&& post.bytes.len() == pre.bytes.len() + tile.len()
    &&& post.entry_offset(level, index) == pre.bytes.len()
    &&& post.entry_size(level, index) == tile.len()
    &&& post.bytes.subrange(pre.bytes.len() as int, post.bytes.len() as int) == tile
    &&& forall|j: int|
        0 <= j < pre.bytes.len() && !(offset_loc(pre.tile_counts, level, index) <= j < offset_loc(
            pre.tile_counts,
            level,
            index,
        ) + 8) && !(size_loc(pre.tile_counts, level, index) <= j < size_loc(
            pre.tile_counts,
            level,
            index,
        ) + 8) ==> post.bytes[j] == pre.bytes[j]
}

/// How `write_nodata_tile` changes the container: the slot's offset entry
/// becomes 0 and every byte outside that entry is unchanged; nothing is
/// appended.
pub open spec fn write_nodata_post(
    pre: ContainerV,
    post: ContainerV,
    level: int,
    index: int,
) -> bool {
    &&& post.widths == pre.widths
    &&& post.heights == pre.heights
    &&& post.tile_counts == pre.tile_counts
    &&& post.bytes.len() == pre.bytes.len()
    &&& post.entry_offset(level, index) == 0
    &&& forall|j: int|
        0 <= j < pre.bytes.len() && !(offset_loc(pre.tile_counts, level, index) <= j < offset_loc(
            pre.tile_counts,
            level,
            index,
        ) + 8) ==> post.bytes[j] == pre.bytes[j]
}

/// Patching a valid slot's entry windows (and appending) leaves the magic
/// header and every directory record's tag structure intact: the windows
/// lie either in the external table, past the directory region, or at the
/// value slots of the tile-offsets and tile-byte-counts tags, which no
/// record's tag count, tag identifier or header byte occupies.
proof fn lemma_meta_survives_patch(
    pre: Seq<u8>,
    post: Seq<u8>,
    counts: Seq<u32>,
    level: int,
    index: int,
)
    requires
        header_wf(pre),
        ifd_region_wf(pre, counts.len() as int),
        lone_tile_only_last(counts),
        0 <= level < counts.len(),
        0 <= index < counts[level],
        post.len() >= pre.len(),
        forall|j: int|
            0 <= j < pre.len() && !(offset_loc(counts, level, index) <= j < offset_loc(
                counts,
                level,
                index,
            ) + 8) && !(size_loc(counts, level, index) <= j < size_loc(counts, level, index) + 8)
                ==> post[j] == pre[j],
    ensures
        header_wf(post),
        ifd_region_wf(post, counts.len() as int),
{
    let n = counts.len() as int;
    let ol = offset_loc(counts, level, index);
    let sl = size_loc(counts, level, index);
    lemma_entry_locs_in_region(counts, level, index);
    assert forall|l: int| 0 <= l < n implies ifd_record_wf(post, #[trigger] ifd_start(l)) by {
        let b = ifd_start(l);
        assert(ifd_record_wf(pre, b));
        assert(b + 256 <= 1024 * n) by {
            if l == 0 {
            } else {
                assert(1024 * l + 256 <= 1024 * (l + 1) <= 1024 * n);
            }
        };
        assert(le64_at(post, b) == le64_at(pre, b)) by {
            assert forall|p: int| b <= p < b + 8 implies post[p] == pre[p] by {
                lemma_head_byte_outside_windows(counts, level, index, l, p);
            };
        };
        assert forall|j: int| 0 <= j < NUM_TAGS implies crate::bytes_le::le16_at(
            post,
            b + 8 + 20 * j,
        ) == #[trigger] tag_kind(j) by {
            lemma_head_byte_outside_windows(counts, level, index, l, b + 8 + 20 * j);
            lemma_head_byte_outside_windows(counts, level, index, l, b + 8 + 20 * j + 1);
        };
    };
    assert(header_wf(post)) by {
        assert forall|p: int| 0 <= p < 16 implies post[p] == pre[p] by {
            lemma_16_outside_windows(counts, level, index, p);
        };
    };
}

/// A byte of a directory record's head fields (tag count, tag identifiers,
/// or anything before a value slot of the two reference tags) never falls
/// in a valid slot's entry windows.
proof fn lemma_head_byte_outside_windows(
    counts: Seq<u32>,
    level: int,
    index: int,
    l: int,
    p: int,
)
    requires
        lone_tile_only_last(counts),
        0 <= level < counts.len(),
        0 <= index < counts[level],
        0 <= l < counts.len(),
        ifd_start(l) <= p < ifd_start(l) + 200 || inline_offset_loc(l) + 8 <= p < inline_size_loc(
            l,
        ) || inline_size_loc(l) + 8 <= p < ifd_start(l) + 256,
    ensures
        !(offset_loc(counts, level, index) <= p < offset_loc(counts, level, index) + 8),
        !(size_loc(counts, level, index) <= p < size_loc(counts, level, index) + 8),
{
    let n = counts.len() as int;
    lemma_entry_locs_in_region(counts, level, index);
    if counts[level] > 1 {
        // the windows are in the external table, past the directory region
        assert(ifd_start(l) + 256 <= 1024 * n) by {
            if l == 0 {
            } else {
                assert(1024 * l + 256 <= 1024 * (l + 1) <= 1024 * n);
            }
        };
    } else {
        // the windows are the value slots of record `level`
        if l != level {
            lemma_records_disjoint(l, level, n);
        }
    }
}

/// A byte of the first 16 (the magic header) never falls in a valid slot's
/// entry windows.
proof fn lemma_16_outside_windows(counts: Seq<u32>, level: int, index: int, p: int)
    requires
        0 <= level < counts.len(),
        0 <= index < counts[level],
        0 <= p < 16,
    ensures
        !(offset_loc(counts, level, index) <= p < offset_loc(counts, level, index) + 8),
        !(size_loc(counts, level, index) <= p < size_loc(counts, level, index) + 8),
{
    lemma_entry_locs_in_region(counts, level, index);
}

/// Directory records of different levels occupy disjoint byte ranges.
proof fn lemma_records_disjoint(l1: int, l2: int, n: int)
    requires
        0 <= l1 < n,
        0 <= l2 < n,
        l1 != l2,
    ensures
        ifd_start(l1) + 256 <= ifd_start(l2) || ifd_start(l2) + 256 <= ifd_start(l1),
{
    if l1 < l2 {
        assert(ifd_start(l1) + 256 <= 1024 * (l1 + 1) <= 1024 * l2);
    } else {
        assert(ifd_start(l2) + 256 <= 1024 * (l2 + 1) <= 1024 * l1);
    }
}

/// Builder of a tiled multi-resolution container.  It owns the container's
/// byte image and the pyramid geometry computed at open time.
pub struct CogBuilder {
    data: Vec<u8>,
    widths: Vec<u32>,
    heights: Vec<u32>,
    tile_counts: Vec<u32>,
}

impl View for CogBuilder {
    type V = ContainerV;

    closed spec fn view(&self) -> ContainerV {
        ContainerV {
            bytes: self.data@,
            widths: self.widths@,
            heights: self.heights@,
            tile_counts: self.tile_counts@,
        }
    }
}

impl CogBuilder {
    /// Width in pixels of the given level.
    pub fn width(&self, level: u32) -> (r: u32)
        requires
            self@.wf(),
            level < self@.level_count(),
        ensures
            r == self@.widths[level as int],
    {
        self.widths[level as usize]
    }

    /// Height in pixels of the given level.
    pub fn height(&self, level: u32) -> (r: u32)
        requires
            self@.wf(),
            level < self@.level_count(),
        ensures
            r == self@.heights[level as int],
    {
        self.heights[level as usize]
    }

    /// Number of tile columns of the given level.
    pub fn tiles_across(&self, level: u32) -> (r: u32)
        requires
            self@.wf(),
            level < self@.level_count(),
        ensures
            r == tiles_along(self@.widths[level as int]),
    {
        let w = self.widths[level as usize];
        let t = (w as u64 + (crate::TILE_SIZE as u64 - 1)) / (crate::TILE_SIZE as u64);
        proof {
            vstd::arithmetic::div_mod::lemma_div_is_ordered(
                w as int + (crate::TILE_SIZE - 1),
                u32::MAX as int + (crate::TILE_SIZE - 1),
                crate::TILE_SIZE as int,
            );
        }
        t as u32
    }

    /// Number of tile rows of the given level.
    pub fn tiles_down(&self, level: u32) -> (r: u32)
        requires
            self@.wf(),
            level < self@.level_count(),
        ensures
            r == tiles_along(self@.heights[level as int]),
    {
        let h = self.heights[level as usize];
        let t = (h as u64 + (crate::TILE_SIZE as u64 - 1)) / (crate::TILE_SIZE as u64);
        proof {
            vstd::arithmetic::div_mod::lemma_div_is_ordered(
                h as int + (crate::TILE_SIZE - 1),
                u32::MAX as int + (crate::TILE_SIZE - 1),
                crate::TILE_SIZE as int,
            );
        }
        t as u32
    }

    /// Number of pyramid levels.
    pub fn levels(&self) -> (r: u32)
        requires
            self@.wf(),
        ensures
            r == self@.level_count(),
    {
        self.tile_counts.len() as u32
    }

    /// The container's byte image.
    pub fn bytes(&self) -> (r: &Vec<u8>)
        ensures
            r@ == self@.bytes,
    {
        &self.data
    }

    /// Byte positions of the offset and size entries of slot
    /// `(level, tile_index)` within the container.
    pub fn offset_size_locations(&self, level: u32, tile_index: u32) -> (r: (u64, u64))
        requires
            self@.wf(),
            level < self@.level_count(),
            tile_index < self@.tile_counts[level as int],
        ensures
            r.0 == offset_loc(self@.tile_counts, level as int, tile_index as int),
            r.1 == size_loc(self@.tile_counts, level as int, tile_index as int),
    {
        let dlen = self.data.len();
        proof {
            lemma_entry_locs_in_region(self@.tile_counts, level as int, tile_index as int);
        }
        let n = self.tile_counts.len();
        if self.tile_counts[level as usize] > 1 {
            let mut sum: u64 = 0;
            let mut k: usize = 0;
            while k < level as usize
                invariant
                    k <= level < self@.tile_counts.len(),
                    self@.wf(),
                    sum == crate::table::sum_counts(self@.tile_counts, k as int),
                    dlen == self@.bytes.len(),
                decreases level as int - k,
            {
                proof {
                    crate::table::lemma_sum_counts_monotonic(
                        self@.tile_counts,
                        k + 1,
                        self@.tile_counts.len() as int,
                    );
                    assert(region_size(self@.tile_counts) <= dlen);
                }
                sum = sum + (self.tile_counts[k] as u64);
                k = k + 1;
            }
            proof {
                lemma_entry_locs_in_region(self@.tile_counts, level as int, tile_index as int);
            }
            let offset_location = (n as u64) * 1024 + sum * 16 + (tile_index as u64) * 8;
            let size_location = offset_location + (self.tile_counts[level as usize] as u64) * 8;
            (offset_location, size_location)
        } else if level == 0 {
            (
                16 + 8 + crate::table::OFFSETS_TAG_INDEX * 20 + 12,
                16 + 8 + crate::table::LENGTHS_TAG_INDEX * 20 + 12,
            )
        } else {
            (
                1024 * (level as u64) + 8 + crate::table::OFFSETS_TAG_INDEX * 20 + 12,
                1024 * (level as u64) + 8 + crate::table::LENGTHS_TAG_INDEX * 20 + 12,
            )
        }
    }

    /// One flag per tile of the level, true once the slot was written or
    /// explicitly marked empty.  The result is a function of the container
    /// state alone.
    pub fn valid_mask(&self, level: u32) -> (r: Result<Vec<bool>, CogError>)
        requires
            self@.wf(),
            level < self@.level_count(),
        ensures
            r matches Ok(m) && m@.len() == self@.tile_counts[level as int] && forall|i: int|
                0 <= i < m@.len() ==> m@[i] == self@.slot_valid(level as int, i),
    {
        let count = self.tile_counts[level as usize];
        let mut m: Vec<bool> = Vec::new();
        let mut i: u32 = 0;
        while i < count
            invariant
                i <= count,
                self@.wf(),
                level < self@.level_count(),
                count == self@.tile_counts[level as int],
                m@.len() == i,
                forall|k: int| 0 <= k < m@.len() ==> m@[k] == self@.slot_valid(level as int, k),
            decreases count - i,
        {
            let (ol, _sl) = self.offset_size_locations(level, i);
            let dlen = self.data.len();
            proof {
                lemma_entry_locs_in_region(self@.tile_counts, level as int, i as int);
                assert(ol + 8 <= dlen as u64);
            }
            let off = read_u64_at(&self.data, ol as usize);
            m.push(off != 1);
            i = i + 1;
        }
        Ok(m)
    }

    /// Read back the payload of slot `(level, index)`: absent for an
    /// out-of-range index or an unwritten or explicitly-empty slot, the
    /// recorded bytes for a written one, and a corrupt-entry fault when the
    /// entries point beyond the container.
    pub fn read_tile(&self, level: u32, index: u32) -> (r: Result<Option<Vec<u8>>, CogError>)
        requires
            self@.wf(),
            level < self@.level_count(),
        ensures
            match r {
                Ok(Some(b)) => self@.spec_read(level as int, index as int) == Ok::<
                    Option<Seq<u8>>,
                    CogError,
                >(Some(b@)),
                Ok(None) => self@.spec_read(level as int, index as int) == Ok::<
                    Option<Seq<u8>>,
                    CogError,
                >(None),
                Err(e) => self@.spec_read(level as int, index as int) == Err::<
                    Option<Seq<u8>>,
                    CogError,
                >(e),
            },
    {
        let count = self.tile_counts[level as usize];
        if index >= count {
            return Ok(None);
        }
        let (ol, sl) = self.offset_size_locations(level, index);
        let dlen0 = self.data.len();
        proof {
            lemma_entry_locs_in_region(self@.tile_counts, level as int, index as int);
            assert(sl + 8 <= dlen0 as u64);
        }
        let size = read_u64_at(&self.data, sl as usize);
        let offset = read_u64_at(&self.data, ol as usize);
        if size == 0 {
            return Ok(None);
        }
        let dlen = self.data.len();
        if offset > dlen as u64 || size > dlen as u64 - offset {
            return Err(CogError::CorruptEntry);
        }
        let start = offset as usize;
        let sz = size as usize;
        let mut tile: Vec<u8> = Vec::new();
        let mut k: usize = 0;
        while k < sz
            invariant
                k <= sz,
                dlen0 == self@.bytes.len(),
                start + sz <= dlen0,
                tile@.len() == k,
                forall|j: int| 0 <= j < k ==> tile@[j] == self@.bytes[start + j],
            decreases sz - k,
        {
            let b = self.data[start + k];
            tile.push(b);
            k = k + 1;
        }
        proof {
            assert(tile@ =~= self@.bytes.subrange(offset as int, offset + size));
        }
        Ok(Some(tile))
    }

    /// Append `tile` to the container and record its position and length in
    /// the slot's entries: size first, then offset, so an interruption
    /// between the two leaves the slot unwritten.
    pub fn write_tile(&mut self, level: u32, index: u32, tile: &[u8]) -> (r: Result<(), CogError>)
        requires
            old(self)@.wf(),
            level < old(self)@.level_count(),
            index < old(self)@.tile_counts[level as int],
        ensures
            final(self)@.wf(),
            r is Ok,
            write_tile_post(old(self)@, final(self)@, level as int, index as int, tile@),
    {
        let file_end = self.data.len() as u64;
        let (ol, sl) = self.offset_size_locations(level, index);
        proof {
            lemma_entry_locs_in_region(old(self)@.tile_counts, level as int, index as int);
            assert(sl + 8 <= file_end);
        }
        let mut k: usize = 0;
        while k < tile.len()
            invariant
                k <= tile@.len(),
                self.widths@ == old(self).widths@,
                self.heights@ == old(self).heights@,
                self.tile_counts@ == old(self).tile_counts@,
                self.data@.len() == old(self).data@.len() + k,
                forall|j: int| 0 <= j < old(self).data@.len() ==> self.data@[j] == old(
                    self,
                ).data@[j],
                forall|j: int|
                    old(self).data@.len() <= j < self.data@.len() ==> self.data@[j] == tile@[j
                        - old(self).data@.len()],
            decreases tile@.len() - k,
    {
            let b = tile[k];
            self.data.push(b);
            k = k + 1;
        }
        write_u64_at(&mut self.data, sl as usize, tile.len() as u64);
        write_u64_at(&mut self.data, ol as usize, file_end);
        proof {
            let pre = old(self)@;
            let post = self@;
            assert(post.bytes.subrange(pre.bytes.len() as int, post.bytes.len() as int)
                =~= tile@);
            lemma_meta_survives_patch(
                pre.bytes,
                post.bytes,
                pre.tile_counts,
                level as int,
                index as int,
            );
        }
        Ok(())
    }

    /// Mark slot `(level, index)` explicitly empty: its offset entry becomes
    /// 0 and nothing is appended.
    pub fn write_nodata_tile(&mut self, level: u32, index: u32) -> (r: Result<(), CogError>)
        requires
            old(self)@.wf(),
            level < old(self)@.level_count(),
            index < old(self)@.tile_counts[level as int],
        ensures
            final(self)@.wf(),
            r is Ok,
            write_nodata_post(old(self)@, final(self)@, level as int, index as int),
    {
        let (ol, _sl) = self.offset_size_locations(level, index);
        let dlen = self.data.len();
        proof {
            lemma_entry_locs_in_region(old(self)@.tile_counts, level as int, index as int);
            assert(ol + 8 <= dlen as u64);
        }
        write_u64_at(&mut self.data, ol as usize, 0);
        proof {
            lemma_meta_survives_patch(
                old(self)@.bytes,
                self@.bytes,
                old(self)@.tile_counts,
                level as int,
                index as int,
            );
        }
        Ok(())
    }
}

/// Tile counts of the pyramid derived from the given base dimensions.
pub open spec fn pyramid_counts(w: u32, h: u32) -> Seq<u32> {
    Seq::new(
        level_dims(w, h).len(),
        |k: int| tile_count_of(level_dims(w, h)[k].0, level_dims(w, h)[k].1) as u32,
    )
}

/// The inline offset entry that creation carries over: the value stored in
/// an existing directory region when its last level holds a single tile,
/// and the unwritten sentinel otherwise.
pub open spec fn seed_off(existing: Seq<u8>, counts: Seq<u32>) -> int {
    let n = counts.len() as int;
    if existing.len() >= 1024 * n && counts[n - 1] == 1 {
        le64_at(existing, inline_offset_loc(n - 1))
    } else {
        1
    }
}

/// The inline size entry that creation carries over, like [`seed_off`].
pub open spec fn seed_size(existing: Seq<u8>, counts: Seq<u32>) -> int {
    let n = counts.len() as int;
    if existing.len() >= 1024 * n && counts[n - 1] == 1 {
        le64_at(existing, inline_size_loc(n - 1))
    } else {
        0
    }
}

/// Every level's directory record is encoded with the fixed tag layout and
/// the level's dimensions, channel layout, table references and inline
/// entries.
#[verifier::opaque]
pub open spec fn meta_encoded(
    bytes: Seq<u8>,
    widths: Seq<u32>,
    heights: Seq<u32>,
    counts: Seq<u32>,
    bpp: Seq<u8>,
    signed: bool,
    io: u64,
    isz: u64,
) -> bool {
    forall|l: int|
        0 <= l < counts.len() ==> ifd_values(
            bytes,
            #[trigger] ifd_start(l),
            l,
            counts.len() as int,
            widths[l],
            heights[l],
            bpp,
            signed,
            counts[l],
            table_base(counts, l),
            io,
            isz,
        ) && crate::ifd::bps_bytes(bytes, ifd_start(l), bpp)
}

/// The inline entry values that an encoded directory region carries for a
/// level with at most one tile: the tile-offsets and tile-byte-counts tag
/// values of the last record.
pub proof fn lemma_meta_inline_entries(
    bytes: Seq<u8>,
    widths: Seq<u32>,
    heights: Seq<u32>,
    counts: Seq<u32>,
    bpp: Seq<u8>,
    signed: bool,
    io: u64,
    isz: u64,
)
    requires
        meta_encoded(bytes, widths, heights, counts, bpp, signed, io, isz),
        counts.len() >= 1,
        counts[counts.len() - 1] <= 1,
    ensures
        le64_at(bytes, ifd_start(counts.len() - 1) + 200) == io,
        le64_at(bytes, ifd_start(counts.len() - 1) + 220) == isz,
{
    reveal(crate::store::meta_encoded);
    assert(ifd_values(
        bytes,
        ifd_start(counts.len() - 1),
        counts.len() - 1,
        counts.len() as int,
        widths[counts.len() - 1],
        heights[counts.len() - 1],
        bpp,
        signed,
        counts[counts.len() - 1],
        table_base(counts, counts.len() - 1),
        io,
        isz,
    ));
}

/// Bytes past the directory region that the prior content covered are
/// carried over unchanged.
#[verifier::opaque]
pub open spec fn tail_preserved(c: ContainerV, existing: Seq<u8>) -> bool {
    forall|j: int| 1024 * c.level_count() <= j < existing.len() ==> c.bytes[j] == existing[j]
}

/// Bytes past the directory region that the prior content did not cover
/// hold the freshly initialized sentinel pattern.
#[verifier::opaque]
pub open spec fn tail_sentinel(c: ContainerV, existing_len: int) -> bool {
    forall|j: int|
        1024 * c.level_count() <= j < c.bytes.len() && existing_len <= j ==> c.bytes[j]
            == crate::table::sentinel_byte(c.tile_counts, j - 1024 * c.level_count())
}

/// What a successful creation or reopening guarantees: a well-formed
/// container over the derived pyramid, an image exactly as long as the
/// header-plus-table region or the prior content (whichever is longer),
/// prior bytes past the directory region preserved, table entries beyond
/// the prior content initialized to the unwritten sentinel, and — whenever
/// the prior content is absent, short, or itself a well-formed directory
/// region — directories encoded with the carried-over inline entries.
pub open spec fn open_post(
    existing: Seq<u8>,
    width: u32,
    height: u32,
    bpp: Seq<u8>,
    signed: bool,
    c: ContainerV,
) -> bool {
    let n = c.level_count();
    &&& c.wf()
    &&& c.widths[0] == width
    &&& c.heights[0] == height
    &&& c.bytes.len() == if region_size(c.tile_counts) >= existing.len() {
        region_size(c.tile_counts)
    } else {
        existing.len() as int
    }
    &&& tail_preserved(c, existing)
    &&& tail_sentinel(c, existing.len() as int)
    &&& (existing.len() < 1024 * n || ifd_region_wf(existing, n)) ==> meta_encoded(
        c.bytes,
        c.widths,
        c.heights,
        c.tile_counts,
        bpp,
        signed,
        seed_off(existing, c.tile_counts) as u64,
        seed_size(existing, c.tile_counts) as u64,
    )
}

/// Build the freshly initialized external-table region: for each level in
/// order, one eight-byte unwritten sentinel per tile, then one eight-byte
/// zero size per tile.
fn make_sentinel_table(counts: &Vec<u32>) -> (r: Vec<u8>)
    requires
        1024 * counts@.len() + 16 * crate::table::total_tiles(counts@) <= usize::MAX,
    ensures
        r@.len() == 16 * crate::table::total_tiles(counts@),
        forall|p: int|
            0 <= p < r@.len() ==> r@[p] == crate::table::sentinel_byte(counts@, p),
{
    let ghost cs = counts@;
    let mut out: Vec<u8> = Vec::new();
    let mut l: usize = 0;
    while l < counts.len()
        invariant
            cs == counts@,
            l <= cs.len(),
            1024 * cs.len() + 16 * crate::table::total_tiles(cs) <= usize::MAX,
            out@.len() == 16 * crate::table::sum_counts(cs, l as int),
            forall|p: int|
                0 <= p < out@.len() ==> out@[p] == crate::table::sentinel_byte(cs, p),
        decreases cs.len() - l,
    {
        proof {
            crate::table::lemma_sum_counts_monotonic(cs, l + 1, cs.len() as int);
            assert(crate::table::sum_counts(cs, l + 1) == crate::table::sum_counts(cs, l as int)
                + cs[l as int]);
        }
        let ghost base = out@.len() as int;
        let c = counts[l];
        let mut i: u32 = 0;
        while i < c
            invariant
                i <= c,
                c == cs[l as int],
                0 <= l < cs.len(),
                base == 16 * crate::table::sum_counts(cs, l as int),
                base + 16 * c <= usize::MAX,
                out@.len() == base + 8 * i,
                forall|p: int| 0 <= p < out@.len() ==> out@[p] == crate::table::sentinel_byte(cs, p),
            decreases c - i,
        {
            out.push(1u8);
            crate::ifd::push_zeros(&mut out, 7);
            proof {
                assert forall|p: int|
                    base + 8 * (i as int) <= p < base + 8 * (i as int) + 8 implies #[trigger] out@[p]
                    == crate::table::sentinel_byte(cs, p) by {
                    let t = p - base - 8 * (i as int);
                    vstd::arithmetic::div_mod::lemma_mod_multiples_vanish(i as int, t, 8);
                    vstd::arithmetic::div_mod::lemma_small_mod(t as nat, 8);
                    assert((p - base) % 8 == t);
                    crate::table::lemma_sentinel_byte_at(cs, l as int, p - base);
                };
            }
            i = i + 1;
        }
        let sz_zeros: usize = 8 * (c as usize);
        crate::ifd::push_zeros(&mut out, sz_zeros);
        proof {
            assert forall|p: int| base + 8 * (c as int) <= p < out@.len() implies #[trigger] out@[p]
                == crate::table::sentinel_byte(cs, p) by {
                crate::table::lemma_sentinel_byte_at(cs, l as int, p - base);
            };
        }
        l = l + 1;
    }
    out
}


impl CogBuilder {
    /// Create a container for an image of `width` by `height` pixels with
    /// the given per-channel bit depths, or resume one whose prior bytes are
    /// `existing`: the header and directory region is rebuilt, bytes past it
    /// are preserved, and table entries beyond the prior content are
    /// initialized to the unwritten sentinel.  A single-tile level's inline
    /// entries are recovered from the prior directory region, by tag
    /// identifier, before that region is overwritten.
    ///
    /// Fails exactly when the channel list is empty or longer than eight,
    /// a level's tile count overflows the 32-bit index space, or the
    /// header-plus-table region does not fit in the address space.  The
    /// nodata parameter is reserved and not emitted.
    #[verifier::rlimit(100)]
    #[verifier::spinoff_prover]
    pub fn new(
        existing: Vec<u8>,
        width: u32,
        height: u32,
        bpp: Vec<u8>,
        signed: bool,
        _nodata: &str,
    ) -> (r: Result<CogBuilder, CogError>)
        ensures
            ({
                let dims = level_dims(width, height);
                let counts_ok = forall|k: int|
                    0 <= k < dims.len() ==> tile_count_of((#[trigger] dims[k]).0, dims[k].1)
                        <= u32::MAX;
                &&& (r is Ok <==> (1 <= bpp@.len() <= 8 && counts_ok && region_size(
                    pyramid_counts(width, height),
                ) <= usize::MAX))
                &&& (r matches Ok(c) ==> open_post(existing@, width, height, bpp@, signed, c@))
                &&& (r matches Err(e) ==> {
                    &&& !(1 <= bpp@.len() <= 8) ==> e == CogError::InvalidChannelCount
                    &&& (1 <= bpp@.len() <= 8 && !counts_ok) ==> e == CogError::TileCountOverflow
                    &&& (1 <= bpp@.len() <= 8 && counts_ok) ==> e == CogError::RegionOverflow
                })
            }),
    {
        if bpp.len() < 1 || bpp.len() > 8 {
            return Err(CogError::InvalidChannelCount);
        }
        let (widths, heights, tile_counts) = match crate::geometry::derive_levels(width, height) {
            Ok(v) => v,
            Err(e) => {
                return Err(e);
            },
        };
        let ghost cs = tile_counts@;
        let nlevels = tile_counts.len();
        proof {
            assert(cs =~= pyramid_counts(width, height));
            crate::table::lemma_geometry_lone_tile(width, height, cs);
            crate::geometry::lemma_level_count_bound(width, height);
            assert forall|k: int| 0 <= k < level_dims(width, height).len() implies tile_count_of(
                (#[trigger] level_dims(width, height)[k]).0,
                level_dims(width, height)[k].1,
            ) <= u32::MAX by {
                assert(cs[k] == tile_count_of(
                    level_dims(width, height)[k].0,
                    level_dims(width, height)[k].1,
                ));
            };
        }
        // total size of the header-plus-table region, with overflow checked
        let mut region: u64 = 1024 * (nlevels as u64);
        let mut k: usize = 0;
        while k < nlevels
            invariant
                k <= nlevels,
                cs == tile_counts@,
                nlevels == cs.len() <= 23,
                region == 1024 * (nlevels as int) + 16 * crate::table::sum_counts(cs, k as int),
            decreases nlevels - k,
        {
            proof {
                crate::table::lemma_sum_counts_bound(cs, k as int);
                assert(crate::table::sum_counts(cs, k + 1) == crate::table::sum_counts(
                    cs,
                    k as int,
                ) + cs[k as int]);
            }
            region = region + 16 * (tile_counts[k] as u64);
            k = k + 1;
        }
        if region > usize::MAX as u64 {
            return Err(CogError::RegionOverflow);
        }
        let htl: usize = 1024 * nlevels;
        proof {
            crate::table::lemma_sum_counts_bound(cs, cs.len() as int);
            crate::table::lemma_sum_counts_monotonic(cs, 0, cs.len() as int);
        }
        // recover a single-tile level's inline entries from prior content
        let exlen = existing.len();
        let seed: (u64, u64) = if exlen >= htl {
            crate::ifd::scan_inline_entries(&existing, &tile_counts)
        } else {
            (1, 0)
        };
        let ghost hyp = exlen < 1024 * cs.len() || ifd_region_wf(existing@, cs.len() as int);
        proof {
            if hyp {
                assert(seed.0 == seed_off(existing@, cs) && seed.1 == seed_size(existing@, cs));
            }
        }
        // header and one directory record per level
        let mut data: Vec<u8> = Vec::new();
        crate::ifd::push_header(&mut data);
        let mut table_off: u64 = 1024 * (nlevels as u64);
        let mut level: usize = 0;
        while level < nlevels
            invariant
                level <= nlevels,
                cs == tile_counts@,
                widths@.len() == nlevels,
                heights@.len() == nlevels,
                1 <= nlevels == cs.len() <= 23,
                1 <= bpp@.len() <= 8,
                region == region_size(cs),
                region <= usize::MAX as u64,
                data@.len() == (if level == 0 {
                    16int
                } else {
                    1024 * level as int
                }),
                table_off == crate::table::table_base(cs, level as int),
                header_wf(data@),
                forall|l2: int|
                    0 <= l2 < level ==> ifd_record_wf(data@, #[trigger] ifd_start(l2))
                        && ifd_values(
                        data@,
                        ifd_start(l2),
                        l2,
                        cs.len() as int,
                        widths@[l2],
                        heights@[l2],
                        bpp@,
                        signed,
                        cs[l2],
                        crate::table::table_base(cs, l2),
                        seed.0,
                        seed.1,
                    ) && crate::ifd::bps_bytes(data@, ifd_start(l2), bpp@),
            decreases nlevels - level,
        {
            let ghost pre = data@;
            proof {
                crate::table::lemma_sum_counts_monotonic(cs, level + 1, cs.len() as int);
                assert(crate::table::sum_counts(cs, level + 1) == crate::table::sum_counts(
                    cs,
                    level as int,
                ) + cs[level as int]);
            }
            crate::ifd::append_ifd(
                &mut data,
                level as u32,
                nlevels as u32,
                widths[level],
                heights[level],
                &bpp,
                signed,
                tile_counts[level],
                table_off,
                seed.0,
                seed.1,
            );
            let pad: usize = if level == 0 {
                752
            } else {
                768
            };
            crate::ifd::push_zeros(&mut data, pad);
            proof {
                assert forall|l2: int| 0 <= l2 < level implies ifd_record_wf(
                    data@,
                    #[trigger] ifd_start(l2),
                ) && ifd_values(
                    data@,
                    ifd_start(l2),
                    l2,
                    cs.len() as int,
                    widths@[l2],
                    heights@[l2],
                    bpp@,
                    signed,
                    cs[l2],
                    crate::table::table_base(cs, l2),
                    seed.0,
                    seed.1,
                ) && crate::ifd::bps_bytes(data@, ifd_start(l2), bpp@) by {
                    assert(ifd_start(l2) + 256 <= pre.len()) by {
                        if l2 == 0 {
                        } else {
                            assert(1024 * l2 + 256 <= 1024 * (l2 + 1) <= 1024 * level as int);
                        }
                    };
                    crate::ifd::lemma_record_wf_transfer(pre, data@, ifd_start(l2));
                    crate::ifd::lemma_values_transfer(
                        pre,
                        data@,
                        ifd_start(l2),
                        l2,
                        cs.len() as int,
                        widths@[l2],
                        heights@[l2],
                        bpp@,
                        signed,
                        cs[l2],
                        crate::table::table_base(cs, l2),
                        seed.0,
                        seed.1,
                    );
                    crate::ifd::lemma_bps_transfer(pre, data@, ifd_start(l2), bpp@);
                };
                assert(header_wf(data@)) by {
                    crate::ifd::lemma_le64_transfer(pre, data@, 8);
                };
            }
            table_off = table_off + 16 * (tile_counts[level] as u64);
            level = level + 1;
        }
        // prior content past the directory region is preserved
        let ghost meta = data@;
        let mut j: usize = htl;
        while j < exlen
            invariant
                htl <= j,
                exlen > htl ==> j <= exlen,
                exlen <= htl ==> j == htl,
                exlen == existing@.len(),
                data@.len() == (if exlen > htl {
                    j as int
                } else {
                    htl as int
                }),
                meta.len() == htl,
                forall|p: int| 0 <= p < htl ==> data@[p] == meta[p],
                forall|p: int| htl <= p < data@.len() ==> data@[p] == existing@[p],
            decreases exlen - j,
        {
            let b = existing[j];
            data.push(b);
            j = j + 1;
        }
        // table entries beyond the prior content start as unwritten
        let pattern = make_sentinel_table(&tile_counts);
        let mut p: usize = data.len() - htl;
        while p < pattern.len()
            invariant
                cs == tile_counts@,
                meta.len() == htl,
                htl == 1024 * cs.len(),
                exlen == existing@.len(),
                pattern@.len() == 16 * crate::table::total_tiles(cs),
                region == region_size(cs),
                p > pattern@.len() ==> data@.len() == exlen,
                forall|q: int|
                    0 <= q < pattern@.len() ==> pattern@[q] == crate::table::sentinel_byte(cs, q),
                data@.len() == htl + p,
                exlen <= data@.len(),
                forall|q: int| 0 <= q < htl ==> data@[q] == meta[q],
                forall|q: int| htl <= q < data@.len() && q < exlen ==> data@[q] == existing@[q],
                forall|q: int|
                    htl <= q < data@.len() && exlen <= q ==> data@[q]
                        == crate::table::sentinel_byte(cs, q - htl),
            decreases pattern@.len() - p,
        {
            let b = pattern[p];
            data.push(b);
            p = p + 1;
        }
        let c = CogBuilder { data, widths, heights, tile_counts };
        proof {
            reveal(crate::store::meta_encoded);
            reveal(crate::store::tail_preserved);
            reveal(crate::store::tail_sentinel);
            let v = c@;
            assert(v.bytes.len() == (if region_size(cs) >= exlen {
                region_size(cs)
            } else {
                exlen as int
            }));
            assert forall|l2: int| 0 <= l2 < cs.len() implies ifd_record_wf(
                v.bytes,
                #[trigger] ifd_start(l2),
            ) && ifd_values(
                v.bytes,
                ifd_start(l2),
                l2,
                cs.len() as int,
                v.widths[l2],
                v.heights[l2],
                bpp@,
                signed,
                cs[l2],
                crate::table::table_base(cs, l2),
                seed.0,
                seed.1,
            ) && crate::ifd::bps_bytes(v.bytes, ifd_start(l2), bpp@) by {
                assert(ifd_start(l2) + 256 <= htl) by {
                    if l2 == 0 {
                    } else {
                        assert(1024 * l2 + 256 <= 1024 * (l2 + 1) <= 1024 * cs.len());
                    }
                };
                crate::ifd::lemma_record_wf_transfer(meta, v.bytes, ifd_start(l2));
                crate::ifd::lemma_values_transfer(
                    meta,
                    v.bytes,
                    ifd_start(l2),
                    l2,
                    cs.len() as int,
                    v.widths[l2],
                    v.heights[l2],
                    bpp@,
                    signed,
                    cs[l2],
                    crate::table::table_base(cs, l2),
                    seed.0,
                    seed.1,
                );
                crate::ifd::lemma_bps_transfer(meta, v.bytes, ifd_start(l2), bpp@);
            };
            assert(header_wf(v.bytes)) by {
                crate::ifd::lemma_le64_transfer(meta, v.bytes, 8);
            };
            assert(v.wf());
            if hyp {
                assert(meta_encoded(
                    v.bytes,
                    v.widths,
                    v.heights,
                    v.tile_counts,
                    bpp@,
                    signed,
                    seed_off(existing@, cs) as u64,
                    seed_size(existing@, cs) as u64,
                ));
            }
            assert(open_post(existing@, width, height, bpp@, signed, v));
        }
        Ok(c)
    }
}

} // verus!

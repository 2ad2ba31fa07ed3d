//! Boundary-tag free-chunk manager: the substrate of a dynamic memory
//! allocator for embedded contexts.
//!
//! A `Heap` owns one contiguous byte region and partitions it into a
//! doubly-threaded list of variable-sized chunks.  Every chunk starts with a
//! two-field header: `prev_size` (low 15 bits: size of the preceding chunk in
//! alignment units, high bit: LAST flag) followed by `size` (low 15 bits:
//! size of this chunk, high bit: ALLOCATED flag).  Neighbor links are
//! implicit: a chunk's successor starts `size` alignment units after it, its
//! predecessor `prev_size` units before it.
//!
//! Chunks are addressed by their offset from the start of the region,
//! counted in alignment units; the header view of a chunk is materialized
//! only at the moment of an access or a mutation.

use vstd::prelude::*;
use vstd::seq_lib::*;

verus! {

/// Minimum payload of a chunk, excluding the header, in alignment units.
pub const MIN_PAYLOAD_LEN: usize = 1;

/// Maximum chunk size, header and payload together, in alignment units:
/// the 15-bit limit of the packed size fields.
pub const MAX_CHUNK_SIZE: usize = 0x7FFF;

/// Bytes in one alignment unit: one machine word on the 64-bit targets this
/// crate serves.
pub const ALIGN_BYTES: usize = 8;

/// Bytes in a chunk header: two 16-bit fields.
pub const HDR_BYTES: usize = 4;

/// Chunk header size in alignment units: `ceil(HDR_BYTES / ALIGN_BYTES)`.
pub const HDR_CSIZE: usize = 1;

/// Minimum chunk size, header and payload together, in alignment units.
pub const MIN_CHUNK_SIZE: usize = 2;

const FLAG_ALLOCATED: u16 = 0x8000;

const FLAG_LAST: u16 = 0x8000;

/// One boundary-tag header: the first `HDR_CSIZE` alignment units of every
/// chunk.  The two status flags share storage with the two size fields.
#[derive(Clone, Copy, Debug, PartialEq, Eq, Structural)]
pub struct Chunk {
    /// Size of the preceding chunk in alignment units (low 15 bits); the
    /// high bit is the LAST flag.
    prev_size: u16,
    /// Size of this chunk in alignment units (low 15 bits); the high bit is
    /// the ALLOCATED flag.
    size: u16,
}

impl Chunk {
    /// Size of this chunk in alignment units, with the ALLOCATED flag
    /// masked off.
    pub closed spec fn spec_size(self) -> int {
        (self.size & 0x7FFF) as int
    }

    /// Size of the preceding chunk in alignment units, with the LAST flag
    /// masked off.
    pub closed spec fn spec_prev_size(self) -> int {
        (self.prev_size & 0x7FFF) as int
    }

    /// The ALLOCATED flag: high bit of `size`.
    pub closed spec fn spec_allocated(self) -> bool {
        self.size & 0x8000 == 0x8000
    }

    /// The LAST flag: high bit of `prev_size`.
    pub closed spec fn spec_last(self) -> bool {
        self.prev_size & 0x8000 == 0x8000
    }

    /// A header with both fields zero: size 0, previous size 0, neither
    /// flag set.  This is what a zeroed region reads as.
    pub fn new() -> (c: Chunk)
        ensures
            c.spec_size() == 0,
            c.spec_prev_size() == 0,
            !c.spec_allocated(),
            !c.spec_last(),
    {
        let c = Chunk { prev_size: 0, size: 0 };
        proof {
            assert(0u16 & 0x7FFF == 0) by (bit_vector);
            assert(0u16 & 0x8000 == 0) by (bit_vector);
        }
        c
    }

    /// Bytes in one alignment unit.
    pub fn alignment() -> (r: usize)
        ensures
            r == ALIGN_BYTES,
    {
        ALIGN_BYTES
    }

    /// Rounds a byte count up to whole alignment units.
    pub fn to_padded_csize(size: usize) -> (r: usize)
        requires
            size + ALIGN_BYTES - 1 <= usize::MAX,
        ensures
            r == (size + ALIGN_BYTES - 1) / (ALIGN_BYTES as int),
    {
        (size + (ALIGN_BYTES - 1)) / ALIGN_BYTES
    }

    /// Chunk size, in alignment units, needed for a payload of `size` bytes.
    pub fn to_csize(size: usize) -> (r: usize)
        requires
            size + ALIGN_BYTES - 1 <= usize::MAX,
        ensures
            r == HDR_CSIZE + (size + ALIGN_BYTES - 1) / (ALIGN_BYTES as int),
    {
        Chunk::hdr_csize() + Chunk::to_padded_csize(size)
    }

    /// Header size in alignment units.
    pub fn hdr_csize() -> (r: usize)
        ensures
            r == HDR_CSIZE,
    {
        Chunk::to_padded_csize(HDR_BYTES)
    }

    /// Smallest legal chunk size: header plus minimum payload.
    pub fn min_size() -> (r: usize)
        ensures
            r == MIN_CHUNK_SIZE,
    {
        Chunk::hdr_csize() + MIN_PAYLOAD_LEN
    }

    /// Largest legal chunk size: the 15-bit limit.
    pub fn max_size() -> (r: usize)
        ensures
            r == MAX_CHUNK_SIZE,
    {
        MAX_CHUNK_SIZE
    }

    /// Stored size with the ALLOCATED flag masked off.
    pub fn size(&self) -> (r: usize)
        ensures
            r == self.spec_size(),
    {
        let s = self.size;
        proof {
            assert(s & !0x8000u16 == s & 0x7FFF) by (bit_vector);
        }
        (s & !FLAG_ALLOCATED) as usize
    }

    /// Writes the low 15 bits of `size`, preserving the ALLOCATED flag.
    /// Sizes outside `min_size()..=max_size()` are the caller's error.
    pub fn set_size(&mut self, size: usize)
        requires
            MIN_CHUNK_SIZE <= size <= MAX_CHUNK_SIZE,
        ensures
            final(self).spec_size() == size,
            final(self).spec_allocated() == old(self).spec_allocated(),
            final(self).spec_prev_size() == old(self).spec_prev_size(),
            final(self).spec_last() == old(self).spec_last(),
    {
        let s0 = self.size;
        let size16 = size as u16;
        self.size = (size16 & !FLAG_ALLOCATED) | (s0 & FLAG_ALLOCATED);
        proof {
            assert(size16 & 0x8000 == 0 && size16 == size) by (bit_vector)
                requires size <= 0x7FFF && size16 == size as u16;
            assert(((size16 & !0x8000u16) | (s0 & 0x8000)) & 0x7FFF == size16
                && ((size16 & !0x8000u16) | (s0 & 0x8000)) & 0x8000 == s0 & 0x8000)
                by (bit_vector)
                requires size16 & 0x8000 == 0;
        }
    }

    /// Stored previous size with the LAST flag masked off.
    pub fn prev_size(&self) -> (r: usize)
        ensures
            r == self.spec_prev_size(),
    {
        let p = self.prev_size;
        proof {
            assert(p & !0x8000u16 == p & 0x7FFF) by (bit_vector);
        }
        (p & !FLAG_LAST) as usize
    }

    /// Writes the low 15 bits of `prev_size`, preserving the LAST flag.
    /// Zero is allowed: it marks the first chunk; any other value below
    /// `min_size()` or above `max_size()` is the caller's error.
    pub fn set_prev_size(&mut self, prev_size: usize)
        requires
            prev_size == 0 || MIN_CHUNK_SIZE <= prev_size <= MAX_CHUNK_SIZE,
        ensures
            final(self).spec_prev_size() == prev_size,
            final(self).spec_last() == old(self).spec_last(),
            final(self).spec_size() == old(self).spec_size(),
            final(self).spec_allocated() == old(self).spec_allocated(),
    {
        let p0 = self.prev_size;
        let prev16 = prev_size as u16;
        self.prev_size = (prev16 & !FLAG_LAST) | (p0 & FLAG_LAST);
        proof {
            assert(prev16 & 0x8000 == 0 && prev16 == prev_size) by (bit_vector)
                requires prev_size <= 0x7FFF && prev16 == prev_size as u16;
            assert(((prev16 & !0x8000u16) | (p0 & 0x8000)) & 0x7FFF == prev16
                && ((prev16 & !0x8000u16) | (p0 & 0x8000)) & 0x8000 == p0 & 0x8000)
                by (bit_vector)
                requires prev16 & 0x8000 == 0;
        }
    }

    /// Reads the ALLOCATED flag.
    pub fn is_allocated(&self) -> (r: bool)
        ensures
            r == self.spec_allocated(),
    {
        (self.size & FLAG_ALLOCATED) == FLAG_ALLOCATED
    }

    /// Writes the ALLOCATED flag, preserving the stored size.
    pub fn set_is_allocated(&mut self, allocated: bool)
        ensures
            final(self).spec_allocated() == allocated,
            final(self).spec_size() == old(self).spec_size(),
            final(self).spec_prev_size() == old(self).spec_prev_size(),
            final(self).spec_last() == old(self).spec_last(),
    {
        let s0 = self.size;
        if allocated {
            self.size = s0 | FLAG_ALLOCATED;
            proof {
                assert((s0 | 0x8000) & 0x8000 == 0x8000
                    && (s0 | 0x8000) & 0x7FFF == s0 & 0x7FFF) by (bit_vector);
            }
        } else {
            self.size = s0 & !FLAG_ALLOCATED;
            proof {
                assert((s0 & !0x8000u16) & 0x8000 == 0
                    && (s0 & !0x8000u16) & 0x7FFF == s0 & 0x7FFF) by (bit_vector);
            }
        }
    }

    /// Reads the LAST flag.
    pub fn is_last(&self) -> (r: bool)
        ensures
            r == self.spec_last(),
    {
        (self.prev_size & FLAG_LAST) == FLAG_LAST
    }

    /// Writes the LAST flag, preserving the stored previous size.
    pub fn set_is_last(&mut self, is_last: bool)
        ensures
            final(self).spec_last() == is_last,
            final(self).spec_prev_size() == old(self).spec_prev_size(),
            final(self).spec_size() == old(self).spec_size(),
            final(self).spec_allocated() == old(self).spec_allocated(),
    {
        let p0 = self.prev_size;
        if is_last {
            self.prev_size = p0 | FLAG_LAST;
            proof {
                assert((p0 | 0x8000) & 0x8000 == 0x8000
                    && (p0 | 0x8000) & 0x7FFF == p0 & 0x7FFF) by (bit_vector);
            }
        } else {
            self.prev_size = p0 & !FLAG_LAST;
            proof {
                assert((p0 & !0x8000u16) & 0x8000 == 0
                    && (p0 & !0x8000u16) & 0x7FFF == p0 & 0x7FFF) by (bit_vector);
            }
        }
    }

    /// Handle of the preceding chunk, given this chunk's own handle `off`
    /// (its offset from the region start in alignment units): `None` iff
    /// the stored previous size is zero, which marks the first chunk.
    pub fn previous(&self, off: usize) -> (r: Option<usize>)
        requires
            self.spec_prev_size() <= off,
        ensures
            r == if self.spec_prev_size() == 0 {
                Option::<usize>::None
            } else {
                Option::Some((off - self.spec_prev_size()) as usize)
            },
    {
        let p = self.prev_size();
        if p == 0 {
            None
        } else {
            Some(off - p)
        }
    }

    /// Handle of the following chunk, given this chunk's own handle `off`:
    /// `None` iff the LAST flag is set.
    pub fn next(&self, off: usize) -> (r: Option<usize>)
        requires
            off + self.spec_size() <= usize::MAX,
        ensures
            r == if self.spec_last() {
                Option::<usize>::None
            } else {
                Option::Some((off + self.spec_size()) as usize)
            },
    {
        if self.is_last() {
            None
        } else {
            Some(off + self.size())
        }
    }
}

/// The 16-bit little-endian value stored at byte position `p`.
pub open spec fn u16_le(s: Seq<u8>, p: int) -> u16 {
    (s[p] + 256 * s[p + 1]) as u16
}

/// Whether byte position `p` falls inside the header of a chunk that
/// starts at alignment-unit offset `off`.
pub open spec fn in_hdr(off: int, p: int) -> bool {
    ALIGN_BYTES * off <= p < ALIGN_BYTES * off + HDR_BYTES
}

/// A contiguous byte region partitioned into a list of chunks.  The chunk
/// headers live inside the region itself; a ghost list of the chunks' start
/// offsets (in alignment units) names where they are.
pub struct Heap {
    data: Vec<u8>,
    chunk_count: usize,
    offs: Ghost<Seq<int>>,
}

impl Heap {
    /// The backing byte region.
    pub closed spec fn bytes(self) -> Seq<u8> {
        self.data@
    }

    /// Start offsets of the chunks, in alignment units, in address order.
    pub closed spec fn offsets(self) -> Seq<int> {
        self.offs@
    }

    /// Number of chunks in the list.
    pub open spec fn n_chunks(self) -> int {
        self.offsets().len() as int
    }

    /// The stored chunk counter.
    pub closed spec fn spec_chunk_count(self) -> int {
        self.chunk_count as int
    }

    /// The header read from the region at alignment-unit offset `off`:
    /// `prev_size` first, then `size`, each 16 bits little-endian.
    pub closed spec fn hdr(self, off: int) -> Chunk {
        Chunk {
            prev_size: u16_le(self.bytes(), ALIGN_BYTES * off),
            size: u16_le(self.bytes(), ALIGN_BYTES * off + 2),
        }
    }

    /// The header of the `i`-th chunk of the list.
    pub open spec fn chunk(self, i: int) -> Chunk {
        self.hdr(self.offsets()[i])
    }

    /// Alignment units covered by the chunk list: end offset of the last
    /// chunk.  Established at initialization and preserved by `split` and
    /// `absorb_next`.
    pub open spec fn capacity(self) -> int {
        self.offsets()[self.n_chunks() - 1] + self.chunk(self.n_chunks() - 1).spec_size()
    }

    /// The boundary tags agree between the `i`-th chunk and its successor:
    /// the successor starts where the `i`-th chunk ends and records the
    /// `i`-th chunk's size as its previous size.
    pub open spec fn linked(self, i: int) -> bool {
        &&& self.offsets()[i + 1] == self.offsets()[i] + self.chunk(i).spec_size()
        &&& self.chunk(i + 1).spec_prev_size() == self.chunk(i).spec_size()
    }

    /// Well-formedness of the chunk list: the offsets are consecutive, the
    /// boundary tags agree, sizes are in range, exactly the final chunk
    /// carries the LAST flag, the first chunk starts at offset zero with
    /// `prev_size` zero, and the list fits the region.
    pub closed spec fn wf(self) -> bool {
        let n = self.n_chunks();
        &&& n >= 1
        &&& self.spec_chunk_count() == n
        &&& self.offsets()[0] == 0
        &&& forall|i: int|
            0 <= i < n ==> MIN_CHUNK_SIZE <= (#[trigger] self.chunk(i)).spec_size()
                <= MAX_CHUNK_SIZE
        &&& forall|i: int| 0 <= i < n - 1 ==> #[trigger] self.linked(i)
        &&& self.chunk(0).spec_prev_size() == 0
        &&& forall|i: int|
            0 <= i < n ==> ((#[trigger] self.chunk(i)).spec_last() <==> i == n - 1)
        &&& self.capacity() * ALIGN_BYTES <= self.bytes().len()
    }

    /// Whether `off` is the start offset of some chunk of the list.
    pub closed spec fn valid_off(self, off: int) -> bool {
        exists|i: int| 0 <= i < self.n_chunks() && self.offsets()[i] == off
    }

    /// The list index of the chunk that starts at `off`.
    pub closed spec fn idx_of(self, off: int) -> int {
        choose|i: int| 0 <= i < self.n_chunks() && self.offsets()[i] == off
    }

    fn load_u16(&self, p: usize) -> (r: u16)
        requires
            p + 2 <= self.bytes().len(),
        ensures
            r == u16_le(self.bytes(), p as int),
    {
        let n = self.data.len();
        assert(p + 2 <= n);
        let b0 = self.data[p];
        let b1 = self.data[p + 1];
        proof {
            let x = b0 as u16;
            let y = b1 as u16;
            assert((x | (y << 8)) == (x + 256 * y) as u16) by (bit_vector)
                requires x < 256 && y < 256;
        }
        (b0 as u16) | ((b1 as u16) << 8)
    }

    fn store_u16(&mut self, p: usize, v: u16)
        requires
            p + 2 <= old(self).bytes().len(),
        ensures
            final(self).bytes().len() == old(self).bytes().len(),
            u16_le(final(self).bytes(), p as int) == v,
            forall|q: int|
                0 <= q < old(self).bytes().len() && q != p && q != p + 1
                    ==> final(self).bytes()[q] == old(self).bytes()[q],
            final(self).offsets() == old(self).offsets(),
            final(self).spec_chunk_count() == old(self).spec_chunk_count(),
    {
        proof {
            assert(v & 0xFF < 256 && v >> 8 < 256 && (v & 0xFF) + 256 * (v >> 8) == v)
                by (bit_vector);
        }
        let n = self.data.len();
        assert(p + 2 <= n);
        let lo = (v & 0xFF) as u8;
        let hi = (v >> 8) as u8;
        self.data.set(p, lo);
        self.data.set(p + 1, hi);
    }

    /// Materializes the header stored at alignment-unit offset `off`.
    pub fn chunk_at(&self, off: usize) -> (c: Chunk)
        requires
            ALIGN_BYTES * (off as int) + HDR_BYTES <= self.bytes().len(),
        ensures
            c == self.hdr(off as int),
    {
        let n = self.data.len();
        assert(ALIGN_BYTES * (off as int) + HDR_BYTES <= n);
        let base = ALIGN_BYTES * off;
        let prev_size = self.load_u16(base);
        let size = self.load_u16(base + 2);
        Chunk { prev_size, size }
    }

    /// Writes header `c` back to the region at alignment-unit offset `off`.
    /// Touches the four header bytes there and nothing else.
    pub fn store_chunk(&mut self, off: usize, c: Chunk)
        requires
            ALIGN_BYTES * (off as int) + HDR_BYTES <= old(self).bytes().len(),
        ensures
            final(self).bytes().len() == old(self).bytes().len(),
            final(self).hdr(off as int) == c,
            forall|p: int|
                0 <= p < old(self).bytes().len() && !in_hdr(off as int, p)
                    ==> final(self).bytes()[p] == old(self).bytes()[p],
            final(self).offsets() == old(self).offsets(),
            final(self).spec_chunk_count() == old(self).spec_chunk_count(),
    {
        let n = self.data.len();
        assert(ALIGN_BYTES * (off as int) + HDR_BYTES <= n);
        let base = ALIGN_BYTES * off;
        self.store_u16(base, c.prev_size);
        self.store_u16(base + 2, c.size);
    }

    /// Reads the byte at absolute byte position `p` of the region.
    pub fn read_byte(&self, p: usize) -> (r: u8)
        requires
            p < self.bytes().len(),
        ensures
            r == self.bytes()[p as int],
    {
        self.data[p]
    }

    /// Overwrites the byte at absolute byte position `p` of the region.
    /// Writing inside a payload leaves the chunk list as it was; writing
    /// inside a header is the caller's error.
    pub fn write_byte(&mut self, p: usize, b: u8)
        requires
            p < old(self).bytes().len(),
        ensures
            final(self).bytes() == old(self).bytes().update(p as int, b),
            final(self).offsets() == old(self).offsets(),
            final(self).spec_chunk_count() == old(self).spec_chunk_count(),
    {
        self.data.set(p, b);
    }

    /// The stored number of chunks.
    pub fn chunk_count(&self) -> (r: usize)
        ensures
            r as int == self.spec_chunk_count(),
            self.wf() ==> r as int == self.n_chunks(),
    {
        self.chunk_count
    }

    /// Handle of the chunk at the start of the region.
    pub fn first_chunk(&self) -> (r: usize)
        ensures
            r == 0,
            self.wf() ==> self.valid_off(0),
    {
        proof {
            if self.wf() {
                assert(self.offsets()[0] == 0);
            }
        }
        0
    }

    /// Payload handle for the chunk with handle `off`: the payload starts
    /// one header past the chunk start, in alignment units.
    pub fn to_ptr(&self, off: usize) -> (r: usize)
        requires
            off + HDR_CSIZE <= usize::MAX,
        ensures
            r == off + HDR_CSIZE,
    {
        off + Chunk::hdr_csize()
    }

    /// Chunk handle for the payload handle `p`: steps back over the header.
    pub fn from_ptr(&self, p: usize) -> (r: usize)
        requires
            p >= HDR_CSIZE,
        ensures
            r == p - HDR_CSIZE,
    {
        p - Chunk::hdr_csize()
    }
}

/// A header is unchanged when its four bytes are.
proof fn lemma_hdr_preserved(h1: Heap, h2: Heap, off: int)
    requires
        h1.bytes().len() == h2.bytes().len(),
        0 <= off,
        ALIGN_BYTES * off + HDR_BYTES <= h1.bytes().len(),
        forall|p: int|
            ALIGN_BYTES * off <= p < ALIGN_BYTES * off + HDR_BYTES ==> h2.bytes()[p]
                == h1.bytes()[p],
    ensures
        h2.hdr(off) == h1.hdr(off),
{
    assert(h2.bytes()[8 * off] == h1.bytes()[8 * off]);
    assert(h2.bytes()[8 * off + 1] == h1.bytes()[8 * off + 1]);
    assert(h2.bytes()[8 * off + 2] == h1.bytes()[8 * off + 2]);
    assert(h2.bytes()[8 * off + 3] == h1.bytes()[8 * off + 3]);
}

/// When the boundary tags of a chunk list agree and its sizes are positive,
/// its start offsets strictly increase: a whole chunk lies between any two
/// of them.
proof fn lemma_linked_monotone(h: Heap, i: int, j: int)
    requires
        0 <= i < j < h.offsets().len(),
        forall|t: int| 0 <= t < h.offsets().len() - 1 ==> #[trigger] h.linked(t),
        forall|t: int|
            0 <= t < h.offsets().len() ==> MIN_CHUNK_SIZE <= (#[trigger] h.chunk(t)).spec_size()
                <= MAX_CHUNK_SIZE,
    ensures
        h.offsets()[i] + h.chunk(i).spec_size() <= h.offsets()[j],
    decreases j - i,
{
    if j == i + 1 {
        assert(h.linked(i));
    } else {
        lemma_linked_monotone(h, i, j - 1);
        assert(h.linked(j - 1));
    }
}

/// In a well-formed heap the start offsets strictly increase.
proof fn lemma_offsets_monotone(h: Heap, i: int, j: int)
    requires
        h.wf(),
        0 <= i < j < h.n_chunks(),
    ensures
        h.offsets()[i] + h.chunk(i).spec_size() <= h.offsets()[j],
{
    lemma_linked_monotone(h, i, j);
}

/// Every start offset sits at or above twice its index.
proof fn lemma_offset_lower(h: Heap, i: int)
    requires
        h.wf(),
        0 <= i < h.n_chunks(),
    ensures
        MIN_CHUNK_SIZE * i <= h.offsets()[i],
    decreases i,
{
    if i > 0 {
        lemma_offset_lower(h, i - 1);
        assert(h.linked(i - 1));
    }
}

/// Every chunk lies inside the capacity established at initialization.
proof fn lemma_offset_upper(h: Heap, i: int)
    requires
        h.wf(),
        0 <= i < h.n_chunks(),
    ensures
        0 <= h.offsets()[i],
        h.offsets()[i] + h.chunk(i).spec_size() <= h.capacity(),
    decreases h.n_chunks() - i,
{
    lemma_offset_lower(h, i);
    if i < h.n_chunks() - 1 {
        assert(h.linked(i));
        lemma_offset_upper(h, i + 1);
    }
}

/// A header outside two rewritten headers and one rewritten byte interval
/// is unchanged.
proof fn lemma_hdr_outside(pre: Heap, post: Heap, a: int, b: int, lo: int, hi: int, o: int)
    requires
        pre.bytes().len() == post.bytes().len(),
        0 <= o,
        ALIGN_BYTES * o + HDR_BYTES <= pre.bytes().len(),
        o != a,
        o != b,
        ALIGN_BYTES * o + HDR_BYTES <= lo || hi <= ALIGN_BYTES * o,
        forall|p: int|
            0 <= p < pre.bytes().len() && !in_hdr(a, p) && !in_hdr(b, p) && !(lo <= p < hi)
                ==> post.bytes()[p] == pre.bytes()[p],
    ensures
        post.hdr(o) == pre.hdr(o),
{
    assert forall|p: int|
        ALIGN_BYTES * o <= p < ALIGN_BYTES * o + HDR_BYTES implies post.bytes()[p]
        == pre.bytes()[p] by {
        assert(!in_hdr(a, p) && !in_hdr(b, p) && !(lo <= p < hi));
    }
    lemma_hdr_preserved(pre, post, o);
}

/// `idx_of` names the one index whose chunk starts at `off`.
proof fn lemma_idx_of(h: Heap, off: int)
    requires
        h.wf(),
        h.valid_off(off),
    ensures
        0 <= h.idx_of(off) < h.n_chunks(),
        h.offsets()[h.idx_of(off)] == off,
        forall|i: int|
            0 <= i < h.n_chunks() && h.offsets()[i] == off ==> i == h.idx_of(off),
{
    let j = h.idx_of(off);
    assert(0 <= j < h.n_chunks() && h.offsets()[j] == off);
    assert forall|i: int|
        0 <= i < h.n_chunks() && h.offsets()[i] == off implies i == j by {
        if i < j {
            lemma_offsets_monotone(h, i, j);
        } else if j < i {
            lemma_offsets_monotone(h, j, i);
        }
    }
}

/// The greedy slicing of `n` alignment units into chunk sizes: each chunk
/// takes `min(n, MAX_CHUNK_SIZE)` units; a residual too small to form one
/// more chunk is discarded.
pub open spec fn init_sizes(n: int) -> Seq<int>
    decreases n,
{
    if n < MIN_CHUNK_SIZE {
        Seq::empty()
    } else {
        let size = if n <= MAX_CHUNK_SIZE {
            n
        } else {
            MAX_CHUNK_SIZE as int
        };
        let rest = n - size;
        if rest < MIN_CHUNK_SIZE {
            seq![size]
        } else {
            seq![size] + init_sizes(rest)
        }
    }
}

impl Heap {
    /// The sizes of the chunks of the list, in address order.
    pub open spec fn sizes(self) -> Seq<int> {
        Seq::new(self.offsets().len(), |i: int| self.chunk(i).spec_size())
    }

    /// Partitions the byte region into a list of free chunks: each chunk
    /// takes `min(remaining, max_size())` alignment units until the rest is
    /// too small to form another chunk; the final chunk gets the LAST flag.
    /// A region under `min_size()` alignment units is the caller's error.
    #[verifier::rlimit(100)]
    pub fn new(data: Vec<u8>) -> (h: Heap)
        requires
            data@.len() as int / (ALIGN_BYTES as int) >= MIN_CHUNK_SIZE,
        ensures
            h.wf(),
            h.bytes().len() == data@.len(),
            h.sizes() == init_sizes(data@.len() as int / (ALIGN_BYTES as int)),
            forall|i: int| 0 <= i < h.n_chunks() ==> !(#[trigger] h.chunk(i)).spec_allocated(),
    {
        let ghost l = data@.len() as int;
        let total_units = data.len() / Chunk::alignment();
        let ghost total = total_units as int;
        assert(total * 8 <= l);
        let mut h = Heap { data, chunk_count: 0, offs: Ghost(Seq::empty()) };
        let mut remaining = total_units;
        let mut prev_size: usize = 0;
        let mut off: usize = 0;
        loop
            invariant_except_break
                off as int == total - remaining,
                remaining >= MIN_CHUNK_SIZE,
            invariant
                h.bytes().len() == l,
                total == total_units as int,
                MIN_CHUNK_SIZE <= total,
                total * 8 <= l,
                remaining <= total,
                h.spec_chunk_count() == h.offsets().len(),
                h.spec_chunk_count() * MIN_CHUNK_SIZE <= total - remaining,
                h.offsets().len() == 0 ==> remaining == total && prev_size == 0,
                h.offsets().len() >= 1 ==> h.offsets()[0] == 0,
                forall|i: int|
                    0 <= i < h.offsets().len()
                        ==> MIN_CHUNK_SIZE <= (#[trigger] h.chunk(i)).spec_size()
                            <= MAX_CHUNK_SIZE
                        && !h.chunk(i).spec_allocated()
                        && !h.chunk(i).spec_last(),
                forall|i: int| 0 <= i < h.offsets().len() - 1 ==> #[trigger] h.linked(i),
                h.offsets().len() >= 1 ==> h.chunk(0).spec_prev_size() == 0,
                forall|i: int|
                    0 <= i < h.offsets().len() ==> 0 <= #[trigger] h.offsets()[i]
                        && h.offsets()[i] + h.chunk(i).spec_size() <= total - remaining,
                h.offsets().len() >= 1 ==> h.offsets()[h.offsets().len() - 1]
                    + h.chunk(h.offsets().len() as int - 1).spec_size() == total - remaining,
                h.offsets().len() >= 1 ==> prev_size
                    == h.chunk(h.offsets().len() as int - 1).spec_size(),
                if remaining >= MIN_CHUNK_SIZE {
                    h.sizes() + init_sizes(remaining as int) == init_sizes(total)
                } else {
                    h.sizes() == init_sizes(total)
                },
            ensures
                remaining < MIN_CHUNK_SIZE,
                h.offsets().len() >= 1,
                off as int == h.offsets()[h.offsets().len() - 1],
            decreases remaining,
        {
            let ghost h0 = h;
            let ghost k = h.offs@.len() as int;
            let size = if remaining < MAX_CHUNK_SIZE {
                remaining
            } else {
                MAX_CHUNK_SIZE
            };
            let mut c = Chunk::new();
            c.set_size(size);
            c.set_prev_size(prev_size);
            h.store_chunk(off, c);
            assert(h.chunk_count as int * MIN_CHUNK_SIZE <= total);
            h.chunk_count = h.chunk_count + 1;
            proof {
                h.offs@ = h.offs@.push(off as int);
            }
            proof {
                assert forall|i: int| 0 <= i < k implies #[trigger] h.chunk(i) == h0.chunk(i) by {
                    assert(h.offsets()[i] == h0.offsets()[i]);
                    let o = h0.offsets()[i];
                    assert(o + h0.chunk(i).spec_size() <= off as int);
                    assert forall|p: int|
                        ALIGN_BYTES * o <= p < ALIGN_BYTES * o + HDR_BYTES implies h.bytes()[p]
                        == h0.bytes()[p] by {
                        assert(!in_hdr(off as int, p));
                        assert(0 <= p < h0.bytes().len());
                    }
                    lemma_hdr_preserved(h0, h, o);
                }
                assert(h.chunk(k) == c);
                assert forall|i: int| 0 <= i < k implies #[trigger] h.linked(i) by {
                    if i < k - 1 {
                        assert(h0.linked(i));
                    }
                }
                assert(h.sizes() =~= h0.sizes().push(size as int));
                let rest = remaining - size;
                assert(init_sizes(remaining as int) == seq![size as int] + (
                if rest >= MIN_CHUNK_SIZE {
                    init_sizes(rest as int)
                } else {
                    Seq::<int>::empty()
                }));
                if rest >= MIN_CHUNK_SIZE {
                    assert(h.sizes() + init_sizes(rest as int) =~= h0.sizes() + init_sizes(
                        remaining as int,
                    ));
                } else {
                    assert(h.sizes() =~= h0.sizes() + init_sizes(remaining as int));
                }
            }
            prev_size = size;
            remaining = remaining - size;
            if remaining < Chunk::min_size() {
                break;
            }
            off = off + size;
        }
        let ghost h1 = h;
        let mut c = h.chunk_at(off);
        c.set_is_last(true);
        h.store_chunk(off, c);
        proof {
            let k = h.offs@.len() as int;
            assert forall|i: int| 0 <= i < k - 1 implies #[trigger] h.chunk(i) == h1.chunk(i) by {
                assert(h.offsets()[i] == h1.offsets()[i]);
                let o = h1.offsets()[i];
                lemma_linked_monotone(h1, i, k - 1);
                assert(o + h1.chunk(i).spec_size() <= off as int);
                assert forall|p: int|
                    ALIGN_BYTES * o <= p < ALIGN_BYTES * o + HDR_BYTES implies h.bytes()[p]
                    == h1.bytes()[p] by {
                    assert(!in_hdr(off as int, p));
                    assert(0 <= p < h1.bytes().len());
                }
                lemma_hdr_preserved(h1, h, o);
            }
            assert(h.chunk(k - 1) == c);
            assert forall|i: int| 0 <= i < k - 1 implies #[trigger] h.linked(i) by {
                assert(h1.linked(i));
            }
            assert(h.sizes() =~= h1.sizes());
        }
        h
    }
}

/// What a successful `split` of the `j`-th chunk at `size` does: the chunk
/// keeps its first `size` units, its flags and its left boundary tag; a new
/// free chunk takes the remaining units and the LAST role; the old
/// successor, if any, records the new neighbor size; every other chunk and
/// every byte outside the three rewritten headers is untouched.
pub open spec fn split_performed(pre: Heap, post: Heap, j: int, size: int) -> bool {
    let off = pre.offsets()[j];
    let c0 = pre.chunk(j);
    let new_size = c0.spec_size() - size;
    &&& post.offsets() == pre.offsets().insert(j + 1, off + size)
    &&& post.spec_chunk_count() == pre.spec_chunk_count() + 1
    &&& post.chunk(j).spec_size() == size
    &&& post.chunk(j).spec_prev_size() == c0.spec_prev_size()
    &&& post.chunk(j).spec_allocated() == c0.spec_allocated()
    &&& !post.chunk(j).spec_last()
    &&& post.chunk(j + 1).spec_size() == new_size
    &&& post.chunk(j + 1).spec_prev_size() == size
    &&& !post.chunk(j + 1).spec_allocated()
    &&& post.chunk(j + 1).spec_last() == c0.spec_last()
    &&& forall|k: int| 0 <= k < j ==> post.chunk(k) == pre.chunk(k)
    &&& forall|k: int|
        j + 2 <= k < post.offsets().len() ==> (#[trigger] post.chunk(k)).spec_size()
            == pre.chunk(k - 1).spec_size() && post.chunk(k).spec_allocated() == pre.chunk(
            k - 1,
        ).spec_allocated() && post.chunk(k).spec_last() == pre.chunk(k - 1).spec_last()
            && post.chunk(k).spec_prev_size() == if k == j + 2 {
                new_size
            } else {
                pre.chunk(k - 1).spec_prev_size()
            }
    &&& post.capacity() == pre.capacity()
    &&& post.bytes().len() == pre.bytes().len()
    &&& forall|p: int|
        0 <= p < pre.bytes().len() && !in_hdr(off, p) && !in_hdr(off + size, p) && !in_hdr(
            off + c0.spec_size(),
            p,
        ) ==> post.bytes()[p] == pre.bytes()[p]
}

impl Heap {
    /// Splits the chunk with handle `off` so that it keeps `size` alignment
    /// units; the rest becomes a new free chunk, whose handle is returned.
    /// Returns `None`, changing nothing, when either part would be smaller
    /// than `min_size()`.  The split chunk keeps its ALLOCATED flag.
    #[verifier::rlimit(100)]
    pub fn split(&mut self, off: usize, size: usize) -> (r: Option<usize>)
        requires
            old(self).wf(),
            old(self).valid_off(off as int),
        ensures
            final(self).wf(),
            ({
                let j = old(self).idx_of(off as int);
                let c0 = old(self).chunk(j);
                if size < MIN_CHUNK_SIZE || c0.spec_size() < size + MIN_CHUNK_SIZE {
                    r is None && *final(self) == *old(self)
                } else {
                    r == Some((off + size) as usize) && split_performed(
                        *old(self),
                        *final(self),
                        j,
                        size as int,
                    )
                }
            }),
    {
        let ghost pre = *self;
        let ghost j = self.idx_of(off as int);
        let ghost n = pre.offsets().len() as int;
        proof {
            lemma_idx_of(pre, off as int);
            lemma_offset_upper(pre, j);
            lemma_offset_lower(pre, n - 1);
        }
        let total_bytes = self.data.len();
        let mut c0 = self.chunk_at(off);
        let c0_size = c0.size();
        if size < Chunk::min_size() || c0_size < size || c0_size - size < Chunk::min_size() {
            return None;
        }
        let new_size = c0_size - size;
        let c0_last = c0.is_last();
        let off1 = off + size;
        let off2 = off + c0_size;
        proof {
            if j < n - 1 {
                assert(pre.linked(j));
                lemma_offset_upper(pre, j + 1);
            }
        }
        c0.set_size(size);
        c0.set_is_last(false);
        self.store_chunk(off, c0);
        let mut c1 = Chunk::new();
        c1.set_size(new_size);
        c1.set_prev_size(size);
        c1.set_is_last(c0_last);
        let ghost s1 = *self;
        self.store_chunk(off1, c1);
        let ghost s2 = *self;
        proof {
            assert forall|p: int|
                0 <= p < pre.bytes().len() && !in_hdr(off as int, p) && !in_hdr(
                    off1 as int,
                    p,
                ) implies s2.bytes()[p] == pre.bytes()[p] by {
                assert(s1.bytes()[p] == pre.bytes()[p]);
            }
            assert forall|p: int|
                ALIGN_BYTES * (off as int) <= p < ALIGN_BYTES * (off as int)
                    + HDR_BYTES implies s2.bytes()[p] == s1.bytes()[p] by {
                assert(!in_hdr(off1 as int, p));
            }
            lemma_hdr_preserved(s1, s2, off as int);
        }
        if !c0_last {
            let mut c2 = self.chunk_at(off2);
            proof {
                lemma_hdr_outside(pre, s2, off as int, off1 as int, 0, 0, off2 as int);
                assert(c2 == pre.chunk(j + 1));
            }
            c2.set_prev_size(new_size);
            let ghost s3 = *self;
            self.store_chunk(off2, c2);
            proof {
                assert forall|p: int|
                    0 <= p < pre.bytes().len() && !in_hdr(off as int, p) && !in_hdr(
                        off1 as int,
                        p,
                    ) && !in_hdr(off2 as int, p) implies self.bytes()[p] == pre.bytes()[p] by {
                    assert(s3.bytes()[p] == pre.bytes()[p]);
                }
                assert forall|p: int|
                    ALIGN_BYTES * (off as int) <= p < ALIGN_BYTES * (off as int)
                        + HDR_BYTES implies self.bytes()[p] == s3.bytes()[p] by {
                    assert(!in_hdr(off2 as int, p));
                }
                lemma_hdr_preserved(s3, *self, off as int);
                assert forall|p: int|
                    ALIGN_BYTES * (off1 as int) <= p < ALIGN_BYTES * (off1 as int)
                        + HDR_BYTES implies self.bytes()[p] == s3.bytes()[p] by {
                    assert(!in_hdr(off2 as int, p));
                }
                lemma_hdr_preserved(s3, *self, off1 as int);
            }
        } else {
            proof {
                assert forall|p: int|
                    0 <= p < pre.bytes().len() && !in_hdr(off as int, p) && !in_hdr(
                        off1 as int,
                        p,
                    ) && !in_hdr(off2 as int, p) implies self.bytes()[p] == pre.bytes()[p] by {}
            }
        }
        self.chunk_count = self.chunk_count + 1;
        proof {
            self.offs@ = self.offs@.insert(j + 1, off1 as int);
        }
        proof {
            let post = *self;
            pre.offs@.insert_ensures(j + 1, off1 as int);
            assert forall|p: int|
                0 <= p < pre.bytes().len() && !in_hdr(off as int, p) && !in_hdr(off1 as int, p)
                    && !in_hdr(off2 as int, p) implies post.bytes()[p] == pre.bytes()[p] by {}
            assert(post.chunk(j) == c0);
            assert(post.chunk(j + 1) == c1);
            assert forall|k: int| 0 <= k < j implies #[trigger] post.chunk(k) == pre.chunk(k) by {
                lemma_offsets_monotone(pre, k, j);
                let o = pre.offsets()[k];
                lemma_offset_upper(pre, k);
                lemma_hdr_outside(
                    pre,
                    post,
                    off as int,
                    off1 as int,
                    ALIGN_BYTES * off2 as int,
                    ALIGN_BYTES * off2 as int + HDR_BYTES,
                    o,
                );
            }
            if j < n - 1 {
                assert(post.chunk(j + 2) == post.hdr(off2 as int));
            }
            assert forall|k: int|
                j + 3 <= k < n + 1 implies #[trigger] post.chunk(k) == pre.chunk(k - 1) by {
                let o = pre.offsets()[k - 1];
                lemma_offsets_monotone(pre, j + 1, k - 1);
                lemma_offset_upper(pre, k - 1);
                lemma_hdr_outside(
                    pre,
                    post,
                    off as int,
                    off1 as int,
                    ALIGN_BYTES * off2 as int,
                    ALIGN_BYTES * off2 as int + HDR_BYTES,
                    o,
                );
            }
            assert forall|i: int| 0 <= i < n + 1 - 1 implies #[trigger] post.linked(i) by {
                if i < j - 1 {
                    assert(pre.linked(i));
                } else if i == j - 1 {
                    assert(pre.linked(i));
                } else if i == j {
                } else if i == j + 1 {
                    assert(pre.linked(j));
                } else {
                    assert(pre.linked(i - 1));
                    if i == j + 2 && j + 2 < n {
                        assert(pre.linked(j + 1));
                    }
                }
            }
            assert forall|i: int|
                0 <= i < n + 1 implies ((#[trigger] post.chunk(i)).spec_last() <==> i == n)
                by {}
            if c0_last {
                assert(post.capacity() == pre.capacity());
            } else {
                assert(post.capacity() == pre.capacity());
            }
        }
        Some(off1)
    }

    fn copy_bytes(&mut self, dst: usize, src: usize, count: usize)
        requires
            dst <= src,
            src + count <= old(self).bytes().len(),
        ensures
            final(self).bytes().len() == old(self).bytes().len(),
            forall|q: int|
                0 <= q < count ==> #[trigger] final(self).bytes()[dst + q] == old(self).bytes()[src
                    + q],
            forall|p: int|
                0 <= p < old(self).bytes().len() && !(dst <= p < dst + count)
                    ==> final(self).bytes()[p] == old(self).bytes()[p],
            final(self).offsets() == old(self).offsets(),
            final(self).spec_chunk_count() == old(self).spec_chunk_count(),
    {
        let n = self.data.len();
        assert(src + count <= n);
        let mut i: usize = 0;
        while i < count
            invariant
                i <= count,
                dst <= src,
                src + count <= n,
                src + count <= old(self).bytes().len(),
                self.bytes().len() == old(self).bytes().len(),
                forall|q: int|
                    0 <= q < i ==> #[trigger] self.bytes()[dst + q] == old(self).bytes()[src + q],
                forall|p: int|
                    0 <= p < old(self).bytes().len() && !(dst <= p < dst + i)
                        ==> self.bytes()[p] == old(self).bytes()[p],
                self.offsets() == old(self).offsets(),
                self.spec_chunk_count() == old(self).spec_chunk_count(),
            decreases count - i,
        {
            let b = self.read_byte(src + i);
            self.write_byte(dst + i, b);
            i = i + 1;
        }
    }
}

/// What `absorb_next` on the `j`-th chunk does when it merges: the chunk
/// takes over its successor's units, the OR of the two ALLOCATED flags and
/// the successor's LAST role; the chunk after that, if any, records the
/// merged size; when the successor was the allocated one, its payload bytes
/// move to the start of the merged payload; every other chunk and every
/// byte outside the two rewritten headers and the merged payload is
/// untouched.
pub open spec fn absorb_performed(pre: Heap, post: Heap, j: int) -> bool {
    let off = pre.offsets()[j];
    let off1 = pre.offsets()[j + 1];
    let c0 = pre.chunk(j);
    let c1 = pre.chunk(j + 1);
    let new_size = c0.spec_size() + c1.spec_size();
    &&& post.offsets() == pre.offsets().remove(j + 1)
    &&& post.spec_chunk_count() == pre.spec_chunk_count() - 1
    &&& post.chunk(j).spec_size() == new_size
    &&& post.chunk(j).spec_prev_size() == c0.spec_prev_size()
    &&& post.chunk(j).spec_allocated() == (c0.spec_allocated() || c1.spec_allocated())
    &&& post.chunk(j).spec_last() == c1.spec_last()
    &&& forall|k: int| 0 <= k < j ==> post.chunk(k) == pre.chunk(k)
    &&& forall|k: int|
        j + 1 <= k < post.offsets().len() ==> (#[trigger] post.chunk(k)).spec_size() == pre.chunk(
            k + 1,
        ).spec_size() && post.chunk(k).spec_allocated() == pre.chunk(k + 1).spec_allocated()
            && post.chunk(k).spec_last() == pre.chunk(k + 1).spec_last() && post.chunk(
            k,
        ).spec_prev_size() == if k == j + 1 {
            new_size
        } else {
            pre.chunk(k + 1).spec_prev_size()
        }
    &&& post.capacity() == pre.capacity()
    &&& post.bytes().len() == pre.bytes().len()
    &&& (c1.spec_allocated() ==> forall|q: int|
        0 <= q < (c1.spec_size() - HDR_CSIZE) * ALIGN_BYTES ==> #[trigger] post.bytes()[ALIGN_BYTES
            * (off + HDR_CSIZE) + q] == pre.bytes()[ALIGN_BYTES * (off1 + HDR_CSIZE) + q])
    &&& forall|p: int|
        0 <= p < pre.bytes().len() && !in_hdr(off, p) && !in_hdr(off + new_size, p) && !(
        ALIGN_BYTES * (off + HDR_CSIZE) <= p < ALIGN_BYTES * (off + c1.spec_size()))
            ==> post.bytes()[p] == pre.bytes()[p]
}

impl Heap {
    /// Merges the chunk with handle `off` with its immediate successor.
    /// Does nothing when the chunk is last, or when the merged size would
    /// exceed `max_size()`.  Two allocated neighbors must never be merged:
    /// that is the caller's error.  When the successor is the allocated
    /// one, its payload bytes survive at the merged chunk's payload start.
    #[verifier::rlimit(100)]
    pub fn absorb_next(&mut self, off: usize)
        requires
            old(self).wf(),
            old(self).valid_off(off as int),
            ({
                let j = old(self).idx_of(off as int);
                j < old(self).offsets().len() - 1 ==> !(old(self).chunk(j).spec_allocated()
                    && old(self).chunk(j + 1).spec_allocated())
            }),
        ensures
            final(self).wf(),
            ({
                let j = old(self).idx_of(off as int);
                if j == old(self).offsets().len() - 1 {
                    *final(self) == *old(self)
                } else if old(self).chunk(j).spec_size() + old(self).chunk(j + 1).spec_size()
                    > MAX_CHUNK_SIZE {
                    *final(self) == *old(self)
                } else {
                    absorb_performed(*old(self), *final(self), j)
                }
            }),
    {
        let ghost pre = *self;
        let ghost j = self.idx_of(off as int);
        let ghost n = pre.offsets().len() as int;
        proof {
            lemma_idx_of(pre, off as int);
            lemma_offset_upper(pre, j);
            lemma_offset_lower(pre, n - 1);
        }
        let total_bytes = self.data.len();
        let mut c0 = self.chunk_at(off);
        if c0.is_last() {
            return ;
        }
        proof {
            assert(j < n - 1);
            assert(pre.linked(j));
            lemma_offset_upper(pre, j + 1);
            if j + 1 < n - 1 {
                assert(pre.linked(j + 1));
                lemma_offset_upper(pre, j + 2);
            }
        }
        let c0_size = c0.size();
        let off1 = off + c0_size;
        let c1 = self.chunk_at(off1);
        let c1_size = c1.size();
        let new_size = c0_size + c1_size;
        if new_size > Chunk::max_size() {
            return ;
        }
        self.chunk_count = self.chunk_count - 1;
        c0.set_size(new_size);
        let c1_last = c1.is_last();
        let c1_allocated = c1.is_allocated();
        c0.set_is_last(c1_last);
        let new_allocated = c0.is_allocated() || c1_allocated;
        c0.set_is_allocated(new_allocated);
        self.store_chunk(off, c0);
        let ghost s1 = *self;
        let off2 = off + new_size;
        if !c1_last {
            proof {
                assert(j + 1 < n - 1);
                assert(pre.offsets()[j + 2] == off2 as int);
                assert forall|p: int|
                    ALIGN_BYTES * (off2 as int) <= p < ALIGN_BYTES * (off2 as int)
                        + HDR_BYTES implies s1.bytes()[p] == pre.bytes()[p] by {
                    assert(!in_hdr(off as int, p));
                }
                lemma_hdr_preserved(pre, s1, off2 as int);
            }
            let mut c2 = self.chunk_at(off2);
            proof {
                assert(c2 == pre.chunk(j + 2));
            }
            c2.set_prev_size(new_size);
            let ghost s1b = *self;
            self.store_chunk(off2, c2);
            proof {
                assert forall|p: int|
                    0 <= p < pre.bytes().len() && !in_hdr(off as int, p) && !in_hdr(
                        off2 as int,
                        p,
                    ) implies self.bytes()[p] == pre.bytes()[p] by {
                    assert(s1b.bytes()[p] == pre.bytes()[p]);
                }
                assert forall|p: int|
                    ALIGN_BYTES * (off as int) <= p < ALIGN_BYTES * (off as int)
                        + HDR_BYTES implies self.bytes()[p] == s1b.bytes()[p] by {
                    assert(!in_hdr(off2 as int, p));
                }
                lemma_hdr_preserved(s1b, *self, off as int);
            }
        } else {
            proof {
                assert forall|p: int|
                    0 <= p < pre.bytes().len() && !in_hdr(off as int, p) && !in_hdr(
                        off2 as int,
                        p,
                    ) implies self.bytes()[p] == pre.bytes()[p] by {}
            }
        }
        let ghost s2 = *self;
        proof {
            assert(s2.hdr(off as int) == c0);
            assert(s2.bytes().len() == pre.bytes().len());
        }
        if c1_allocated {
            let dst = ALIGN_BYTES * (off + HDR_CSIZE);
            let src = ALIGN_BYTES * (off1 + HDR_CSIZE);
            let cnt = ALIGN_BYTES * (c1_size - HDR_CSIZE);
            self.copy_bytes(dst, src, cnt);
            proof {
                assert forall|q: int|
                    0 <= q < cnt implies #[trigger] self.bytes()[dst + q] == pre.bytes()[src
                    + q] by {
                    assert(s2.bytes()[src + q] == pre.bytes()[src + q]) by {
                        assert(!in_hdr(off as int, src + q) && !in_hdr(off2 as int, src + q));
                    }
                }
                assert forall|p: int|
                    0 <= p < pre.bytes().len() && !in_hdr(off as int, p) && !in_hdr(
                        off2 as int,
                        p,
                    ) && !(dst <= p < dst + cnt) implies self.bytes()[p] == pre.bytes()[p] by {
                    assert(s2.bytes()[p] == pre.bytes()[p]);
                }
                assert forall|p: int|
                    ALIGN_BYTES * (off as int) <= p < ALIGN_BYTES * (off as int)
                        + HDR_BYTES implies self.bytes()[p] == s2.bytes()[p] by {
                    assert(!(dst <= p < dst + cnt));
                }
                lemma_hdr_preserved(s2, *self, off as int);
                if !c1_last {
                    assert forall|p: int|
                        ALIGN_BYTES * (off2 as int) <= p < ALIGN_BYTES * (off2 as int)
                            + HDR_BYTES implies self.bytes()[p] == s2.bytes()[p] by {
                        assert(!(dst <= p < dst + cnt));
                    }
                    lemma_hdr_preserved(s2, *self, off2 as int);
                }
            }
        }
        proof {
            self.offs@ = self.offs@.remove(j + 1);
        }
        proof {
            let post = *self;
            pre.offs@.remove_ensures(j + 1);
            let ghost dst = ALIGN_BYTES * (off as int + HDR_CSIZE);
            let ghost cnt = ALIGN_BYTES * (c1_size as int - HDR_CSIZE);
            assert forall|p: int|
                0 <= p < pre.bytes().len() && !in_hdr(off as int, p) && !in_hdr(off2 as int, p)
                    && !(dst <= p < dst + cnt) implies post.bytes()[p] == pre.bytes()[p] by {}
            assert(post.chunk(j) == c0);
            assert forall|k: int| 0 <= k < j implies #[trigger] post.chunk(k) == pre.chunk(k) by {
                lemma_offsets_monotone(pre, k, j);
                let o = pre.offsets()[k];
                lemma_offset_upper(pre, k);
                lemma_hdr_outside(pre, post, off as int, off2 as int, dst, dst + cnt, o);
            }
            assert forall|k: int|
                j + 2 <= k < n - 1 implies #[trigger] post.chunk(k) == pre.chunk(k + 1) by {
                let o = pre.offsets()[k + 1];
                lemma_offsets_monotone(pre, j + 2, k + 1);
                lemma_offset_upper(pre, k + 1);
                lemma_hdr_outside(pre, post, off as int, off2 as int, dst, dst + cnt, o);
            }
            assert forall|i: int| 0 <= i < n - 1 - 1 implies #[trigger] post.linked(i) by {
                if i < j - 1 {
                    assert(pre.linked(i));
                } else if i == j - 1 {
                    assert(pre.linked(i));
                } else if i == j {
                    assert(pre.linked(j));
                    assert(pre.linked(j + 1));
                } else if i == j + 1 {
                    assert(pre.linked(j + 2));
                } else {
                    assert(pre.linked(i + 1));
                }
            }
            assert forall|i: int|
                0 <= i < n - 1 implies ((#[trigger] post.chunk(i)).spec_last() <==> i == n - 2)
                by {}
            assert(post.capacity() == pre.capacity());
        }
    }

    /// First-fit search: the handle of the first chunk in address order
    /// that is free and at least `size` alignment units, or `None` when
    /// there is none.
    pub fn find(&self, size: usize) -> (r: Option<usize>)
        requires
            self.wf(),
        ensures
            match r {
                Some(o) => {
                    &&& self.valid_off(o as int)
                    &&& !self.chunk(self.idx_of(o as int)).spec_allocated()
                    &&& self.chunk(self.idx_of(o as int)).spec_size() >= size
                    &&& forall|k: int|
                        0 <= k < self.idx_of(o as int) ==> (
                        #[trigger] self.chunk(k)).spec_allocated() || self.chunk(k).spec_size()
                            < size
                },
                None => forall|k: int|
                    0 <= k < self.offsets().len() ==> (#[trigger] self.chunk(k)).spec_allocated()
                        || self.chunk(k).spec_size() < size,
            },
    {
        let total_bytes = self.data.len();
        let mut cur: usize = 0;
        let ghost mut i: int = 0;
        loop
            invariant
                self.wf(),
                total_bytes == self.bytes().len(),
                0 <= i < self.offsets().len(),
                self.offsets()[i] == cur as int,
                forall|k: int|
                    0 <= k < i ==> (#[trigger] self.chunk(k)).spec_allocated() || self.chunk(
                        k,
                    ).spec_size() < size,
            decreases self.offsets().len() - i,
        {
            proof {
                lemma_offset_upper(*self, i);
            }
            let c = self.chunk_at(cur);
            if !c.is_allocated() && c.size() >= size {
                proof {
                    lemma_idx_of(*self, cur as int);
                }
                return Some(cur);
            }
            if c.is_last() {
                return None;
            }
            proof {
                assert(self.linked(i));
                lemma_offset_upper(*self, i + 1);
            }
            cur = cur + c.size();
            proof {
                i = i + 1;
            }
        }
    }
}

/// The sum of a sequence of chunk sizes.
pub open spec fn sum_sizes(s: Seq<int>) -> int
    decreases s.len(),
{
    if s.len() == 0 {
        0
    } else {
        sum_sizes(s.drop_last()) + s.last()
    }
}

proof fn lemma_sum_prefix(h: Heap, k: int)
    requires
        h.wf(),
        0 <= k <= h.offsets().len(),
    ensures
        sum_sizes(h.sizes().take(k)) == if k == 0 {
            0
        } else {
            h.offsets()[k - 1] + h.chunk(k - 1).spec_size()
        },
    decreases k,
{
    if k > 0 {
        lemma_sum_prefix(h, k - 1);
        assert(h.sizes().take(k).drop_last() =~= h.sizes().take(k - 1));
        if k - 1 > 0 {
            assert(h.linked(k - 2));
        }
        assert(h.sizes().take(k).last() == h.chunk(k - 1).spec_size());
    }
}

/// The chunk sizes sum to the capacity established at initialization;
/// `split` and `absorb_next` both keep the capacity, so the sum is
/// conserved across them.
pub proof fn lemma_sizes_sum_to_capacity(h: Heap)
    requires
        h.wf(),
    ensures
        sum_sizes(h.sizes()) == h.capacity(),
{
    lemma_sum_prefix(h, h.offsets().len() as int);
    assert(h.sizes().take(h.offsets().len() as int) =~= h.sizes());
}

/// For every chunk except the first, its recorded previous size is the size
/// of its predecessor.
pub proof fn lemma_boundary_tags_agree(h: Heap, i: int)
    requires
        h.wf(),
        1 <= i < h.n_chunks(),
    ensures
        h.chunk(i).spec_prev_size() == h.chunk(i - 1).spec_size(),
{
    assert(h.linked(i - 1));
}

/// Exactly the final chunk carries the LAST flag, so it alone has no
/// successor.
pub proof fn lemma_last_is_unique(h: Heap, i: int)
    requires
        h.wf(),
        0 <= i < h.n_chunks(),
    ensures
        h.chunk(i).spec_last() <==> i == h.n_chunks() - 1,
{
}

/// Every chunk's size is within bounds, and a zero previous size marks
/// exactly the first chunk.
pub proof fn lemma_chunk_bounds(h: Heap, i: int)
    requires
        h.wf(),
        0 <= i < h.n_chunks(),
    ensures
        MIN_CHUNK_SIZE <= h.chunk(i).spec_size() <= MAX_CHUNK_SIZE,
        h.chunk(i).spec_prev_size() == 0 <==> i == 0,
{
    if i > 0 {
        assert(h.linked(i - 1));
    }
}

/// Walking forward by a chunk's size lands on its successor's offset, and
/// walking back by the successor's recorded previous size returns: the
/// `next()` traversal from the first chunk and the `previous()` traversal
/// from the last one visit the same offsets in reverse order.
pub proof fn lemma_traversal_inverse(h: Heap, i: int)
    requires
        h.wf(),
        0 <= i < h.n_chunks() - 1,
    ensures
        h.offsets()[i + 1] == h.offsets()[i] + h.chunk(i).spec_size(),
        h.offsets()[i + 1] - h.chunk(i + 1).spec_prev_size() == h.offsets()[i],
        h.chunk(i + 1).spec_prev_size() > 0,
{
    assert(h.linked(i));
}

/// Stepping from a chunk handle to its payload handle and back is the
/// identity, as `to_ptr` and `from_ptr` promise.
pub proof fn lemma_ptr_round_trip(off: int)
    ensures
        off + HDR_CSIZE - HDR_CSIZE == off,
{
}

/// Splitting a chunk and then absorbing its successor restores the chunk's
/// size, its ALLOCATED flag, the chunk count and the whole offset list.
pub proof fn lemma_split_absorb_round_trip(h0: Heap, h1: Heap, h2: Heap, j: int, size: int)
    requires
        h0.wf(),
        h1.wf(),
        0 <= j < h0.n_chunks(),
        split_performed(h0, h1, j, size),
        absorb_performed(h1, h2, j),
    ensures
        h2.chunk(j).spec_size() == h0.chunk(j).spec_size(),
        h2.chunk(j).spec_allocated() == h0.chunk(j).spec_allocated(),
        h2.spec_chunk_count() == h0.spec_chunk_count(),
        h2.offsets() == h0.offsets(),
{
    h0.offs@.insert_ensures(j + 1, h0.offsets()[j] + size);
    h1.offs@.remove_ensures(j + 1);
    assert(h2.offsets() =~= h0.offsets());
}

/// A freshly initialized heap whose region holds at most `max_size()`
/// alignment units is a single free chunk covering all of them.
pub proof fn lemma_init_single_chunk(h: Heap, n: int)
    requires
        h.wf(),
        h.sizes() == init_sizes(n),
        MIN_CHUNK_SIZE <= n <= MAX_CHUNK_SIZE,
    ensures
        h.n_chunks() == 1,
        h.chunk(0).spec_size() == n,
        h.chunk(0).spec_last(),
{
    assert(init_sizes(n) =~= seq![n]);
    assert(h.chunk(0).spec_size() == h.sizes()[0]);
}

} // verus!

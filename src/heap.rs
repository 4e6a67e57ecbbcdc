//! The allocation engine: a table of chunks tiling the arena in address
//! order, best-fit reuse of free chunks, splitting, coalescing, and a top
//! chunk that is grown from the backing memory a page at a time.
use vstd::prelude::*;
use crate::chunk::{
    Chunk, ALIGNMENT, HEADER, MIN_CHUNK, PAGE, MAX_FOOTPRINT, round_up,
    chunk_size_for, is_power_of_two, lemma_round_up, lemma_chunk_size_for,
    lemma_small_powers, lemma_large_power_multiple, lemma_align_up, lemma_fits, request_chunk_size, round_to_pages,
};

verus! {

/// A region acquired from the backing memory: `[base, base + size)` of the arena.
#[derive(Clone, Copy, Debug, PartialEq, Eq)]
pub struct Segment {
    pub base: usize,
    pub size: usize,
}

/// One allocator engine. Addresses are offsets into its arena; a payload
/// address is never 0, so 0 reports a failed request.
pub struct Dlmalloc {
    chunks: Vec<Chunk>,
    mem: Vec<u8>,
    segments: Vec<Segment>,
    limit: usize,
}

impl Dlmalloc {
    /// The chunk table, in address order.
    pub closed spec fn chunks(&self) -> Seq<Chunk> {
        self.chunks@
    }

    /// Bytes of backing memory acquired so far.
    pub closed spec fn footprint(&self) -> int {
        self.mem@.len() as int
    }

    /// Most bytes of backing memory the provider will hand out.
    pub closed spec fn limit(&self) -> int {
        self.limit as int
    }

    /// Regions acquired from the provider, oldest first.
    pub closed spec fn segments(&self) -> Seq<Segment> {
        self.segments@
    }

    /// Number of acquisitions made from the provider.
    pub open spec fn acquisitions(&self) -> int {
        self.segments().len() as int
    }

    /// The byte at arena offset `k`.
    pub closed spec fn byte(&self, k: int) -> u8 {
        self.mem@[k]
    }

    /// One past the last byte of chunk `c`.
    pub open spec fn chunk_end(c: Chunk) -> int {
        c.addr + c.size
    }

    /// Chunk `i + 1` starts where chunk `i` ends, and one of them is in use.
    pub open spec fn linked(c: Seq<Chunk>, i: int) -> bool {
        &&& Self::chunk_end(c[i]) == c[i + 1].addr
        &&& (c[i].inuse || c[i + 1].inuse)
    }

    /// Segment `i + 1` starts where segment `i` ends.
    pub open spec fn seg_linked(s: Seq<Segment>, i: int) -> bool {
        s[i].base + s[i].size == s[i + 1].base
    }

    /// The engine's invariant: chunks tile the arena contiguously from 0,
    /// each aligned and at least the minimum size, no two free chunks are
    /// neighbours, and the segments tile the same arena.
    pub open spec fn wf(&self) -> bool {
        let c = self.chunks();
        let s = self.segments();
        &&& self.footprint() <= self.limit() <= MAX_FOOTPRINT
        &&& (c.len() == 0 <==> self.footprint() == 0)
        &&& (c.len() > 0 ==> c[0].addr == 0 && Self::chunk_end(c.last()) == self.footprint())
        &&& forall|i: int|
            0 <= i < c.len() ==> #[trigger] c[i].size >= MIN_CHUNK && c[i].size % 16 == 0
                && c[i].addr % 16 == 0
        &&& forall|i: int| 0 <= i < c.len() - 1 ==> #[trigger] Self::linked(c, i)
        &&& (s.len() == 0 <==> self.footprint() == 0)
        &&& (s.len() > 0 ==> s[0].base == 0 && s.last().base + s.last().size == self.footprint())
        &&& forall|i: int| 0 <= i < s.len() - 1 ==> #[trigger] Self::seg_linked(s, i)
    }

    /// `p` is the payload address of an in-use chunk.
    pub open spec fn live(&self, p: int) -> bool {
        exists|i: int|
            0 <= i < self.chunks().len() && (#[trigger] self.chunks()[i]).inuse
                && self.chunks()[i].addr + HEADER == p
    }

    /// Index of the in-use chunk whose payload starts at `p`.
    pub open spec fn index_of(&self, p: int) -> int {
        choose|i: int|
            0 <= i < self.chunks().len() && (#[trigger] self.chunks()[i]).inuse
                && self.chunks()[i].addr + HEADER == p
    }

    /// Payload bytes available at live address `p`.
    pub open spec fn usable(&self, p: int) -> int {
        self.chunks()[self.index_of(p)].size - HEADER
    }

    /// Some free chunk (the top chunk included) has at least `need` bytes.
    pub open spec fn has_fit(&self, need: int) -> bool {
        exists|k: int|
            0 <= k < self.chunks().len() && !(#[trigger] self.chunks()[k]).inuse
                && self.chunks()[k].size >= need
    }

    /// A chunk larger than the provider could ever hold cannot be served,
    /// neither from free space nor in place.
    pub proof fn lemma_too_big(&self, need: int)
        requires
            self.wf(),
            need > MAX_FOOTPRINT,
        ensures
            !self.can_serve(need),
            forall|p: int| self.live(p) ==> !#[trigger] self.grows_in_place(p, need),
    {
        if self.has_fit(need) {
            let k = choose|k: int|
                0 <= k < self.chunks().len() && !(#[trigger] self.chunks()[k]).inuse
                    && self.chunks()[k].size >= need;
            self.lemma_in_arena(k);
        }
        lemma_round_up(need, PAGE as int);
        assert forall|p: int| self.live(p) implies !#[trigger] self.grows_in_place(p, need) by {
            self.lemma_live(p);
            let i = self.index_of(p);
            self.lemma_in_arena(i);
            if i + 1 < self.chunks().len() {
                self.lemma_in_arena(i + 1);
                assert(Self::linked(self.chunks(), i));
            }
        }
    }

    /// Size of the free top chunk, 0 where the last chunk is in use.
    pub open spec fn top_free(&self) -> int {
        if self.chunks().len() > 0 && !self.chunks().last().inuse {
            self.chunks().last().size as int
        } else {
            0
        }
    }

    /// Bytes acquired from the provider to serve a chunk of `need` bytes when
    /// no free chunk fits: the chunk rounded up to whole pages.
    pub open spec fn growth(&self, need: int) -> int {
        round_up(need, PAGE as int)
    }

    /// The segments of `self` are kept, in order, at the start of `new`'s.
    pub open spec fn segments_extend(&self, new: Self) -> bool {
        &&& new.segments().len() >= self.segments().len()
        &&& forall|k: int| 0 <= k < self.segments().len() ==> #[trigger] new.segments()[k] == self.segments()[k]
    }

    /// Payload address for a request aligned to `align` served from a chunk
    /// carved at `base`: right after the header, or, for alignments above the
    /// native one, at the first aligned address that leaves either no gap or
    /// a gap of at least `MIN_CHUNK` bytes in front.
    pub open spec fn payload_at(base: int, align: int) -> int {
        let off = base + HEADER;
        if align <= ALIGNMENT || off % align == 0 {
            off
        } else if align - off % align < MIN_CHUNK {
            off + (align - off % align) + align
        } else {
            off + (align - off % align)
        }
    }

    /// A chunk of `need` bytes can be served: from a free chunk, or by
    /// growing the top within the provider's limit.
    pub open spec fn can_serve(&self, need: int) -> bool {
        self.has_fit(need) || self.footprint() + self.growth(need) <= self.limit()
    }

    /// Chunk `k` is the smallest free chunk other than the top chunk with at
    /// least `need` bytes, and the first of equal ones.
    pub open spec fn is_best_fit(&self, k: int, need: int) -> bool {
        let c = self.chunks();
        &&& 0 <= k < c.len() - 1
        &&& !c[k].inuse
        &&& c[k].size >= need
        &&& forall|j: int|
            0 <= j < c.len() - 1 && !(#[trigger] c[j]).inuse && c[j].size >= need ==> c[k].size
                <= c[j].size && (c[k].size == c[j].size ==> k <= j)
    }

    /// Where a chunk of `need` bytes is carved: the best fit, else the top
    /// chunk, else the start of the top grown from the provider.
    pub open spec fn placement(&self, need: int) -> int {
        if exists|k: int| self.is_best_fit(k, need) {
            self.chunks()[choose|k: int| self.is_best_fit(k, need)].addr as int
        } else if self.top_free() > 0 {
            self.chunks().last().addr as int
        } else {
            self.footprint()
        }
    }

    /// The best fit is unique.
    pub proof fn lemma_best_fit_unique(&self, k: int, need: int)
        requires
            self.is_best_fit(k, need),
        ensures
            self.placement(need) == self.chunks()[k].addr,
    {
        let m = choose|m: int| self.is_best_fit(m, need);
        assert(self.is_best_fit(m, need));
        assert(self.chunks()[k].size <= self.chunks()[m].size);
        assert(self.chunks()[m].size <= self.chunks()[k].size);
    }

    /// Every allocation live in `self` but `p` is live in `new`, same size.
    pub open spec fn keeps_others(&self, new: Self, p: int) -> bool {
        forall|q: int| #[trigger] self.live(q) && q != p ==> new.live(q) && new.usable(q) == self.usable(q)
    }

    /// Every allocation live in `new` but `r` was live in `self`.
    pub open spec fn adds_only(&self, new: Self, r: int) -> bool {
        forall|q: int| #[trigger] new.live(q) ==> q == r || self.live(q)
    }

    /// The contents of every allocation live in `self` but `p` are the same in `new`.
    pub open spec fn contents_kept(&self, new: Self, p: int) -> bool {
        forall|q: int, k: int|
            #![trigger self.live(q), new.byte(q + k)]
            self.live(q) && q != p && 0 <= k < self.usable(q) ==> new.byte(q + k) == self.byte(q + k)
    }

    /// Every byte of `self`'s arena is the same in `new`.
    pub open spec fn bytes_kept(&self, new: Self) -> bool {
        &&& new.footprint() >= self.footprint()
        &&& forall|k: int| 0 <= k < self.footprint() ==> #[trigger] new.byte(k) == self.byte(k)
    }

    /// `new` is `self` after a request for `size` bytes aligned to `align`
    /// that returned `r`.
    pub open spec fn allocated(&self, size: int, align: int, r: int, new: Self) -> bool {
        if r == 0 {
            new == *self
        } else {
            &&& new.live(r)
            &&& !self.live(r)
            &&& new.usable(r) >= size
            &&& r % align == 0
            &&& r == Self::payload_at(self.placement(Self::request_need(size, align)), align)
            &&& self.keeps_others(new, r)
            &&& self.adds_only(new, r)
            &&& self.contents_kept(new, r)
            &&& new.limit() == self.limit()
            &&& self.segments_extend(new)
            &&& self.has_fit(Self::request_need(size, align)) ==> new.footprint() == self.footprint()
                && new.segments() == self.segments()
            &&& !self.has_fit(Self::request_need(size, align)) ==> new.footprint() == self.footprint()
                + self.growth(Self::request_need(size, align)) && new.acquisitions()
                == self.acquisitions() + 1
        }
    }

    /// Start of the free chunk that freeing live `p` leaves behind.
    pub open spec fn merged_start(&self, p: int) -> int {
        let i = self.index_of(p);
        if i > 0 && !self.chunks()[i - 1].inuse {
            self.chunks()[i - 1].addr as int
        } else {
            self.chunks()[i].addr as int
        }
    }

    /// End of the free chunk that freeing live `p` leaves behind.
    pub open spec fn merged_end(&self, p: int) -> int {
        let i = self.index_of(p);
        if i + 1 < self.chunks().len() && !self.chunks()[i + 1].inuse {
            Self::chunk_end(self.chunks()[i + 1])
        } else {
            Self::chunk_end(self.chunks()[i])
        }
    }

    /// There is a free chunk spanning exactly `[a, b)`.
    pub open spec fn has_free_chunk(&self, a: int, b: int) -> bool {
        exists|k: int|
            0 <= k < self.chunks().len() && !(#[trigger] self.chunks()[k]).inuse
                && self.chunks()[k].addr == a && Self::chunk_end(self.chunks()[k]) == b
    }

    /// `new` is `self` after freeing live `p`: `p`'s chunk and its free
    /// neighbours became one free chunk, nothing else changed.
    pub open spec fn freed(&self, p: int, new: Self) -> bool {
        &&& !new.live(p)
        &&& self.keeps_others(new, p)
        &&& forall|q: int| #[trigger] new.live(q) ==> self.live(q)
        &&& new.footprint() == self.footprint()
        &&& new.segments() == self.segments()
        &&& new.limit() == self.limit()
        &&& self.bytes_kept(new)
        &&& new.has_free_chunk(self.merged_start(p), self.merged_end(p))
    }

    /// Live `p`'s chunk can be brought to `need` bytes where it stands.
    pub open spec fn grows_in_place(&self, p: int, need: int) -> bool {
        let i = self.index_of(p);
        ||| self.chunks()[i].size >= need
        ||| (i + 1 < self.chunks().len() && !self.chunks()[i + 1].inuse
            && self.chunks()[i].size + self.chunks()[i + 1].size >= need)
    }

    /// `new` is `self` after resizing live `p` to `n` bytes, keeping its
    /// first `keep` bytes, which returned `r`.
    pub open spec fn reallocated(&self, p: int, n: int, keep: int, r: int, new: Self) -> bool {
        if r == 0 {
            new == *self
        } else {
            &&& new.live(r)
            &&& r == p || !self.live(r)
            &&& new.usable(r) >= n
            &&& r == p ==> new.usable(r) < chunk_size_for(n) + MIN_CHUNK - HEADER
            &&& r % ALIGNMENT as int == 0
            &&& self.segments_extend(new)
            &&& forall|k: int|
                0 <= k < keep && k < n ==> #[trigger] new.byte(r + k) == self.byte(p + k)
            &&& self.keeps_others(new, p)
            &&& forall|q: int| #[trigger] new.live(q) ==> q == r || (self.live(q) && q != p)
            &&& self.contents_kept(new, p)
            &&& new.limit() == self.limit()
        }
    }

    /// Chunks lie in address order without overlap.
    pub proof fn lemma_ordered(&self, i: int, j: int)
        requires
            self.wf(),
            0 <= i < j < self.chunks().len(),
        ensures
            Self::chunk_end(self.chunks()[i]) <= self.chunks()[j].addr,
        decreases j - i,
    {
        let c = self.chunks();
        assert(Self::linked(c, j - 1));
        if i < j - 1 {
            self.lemma_ordered(i, j - 1);
        }
    }

    /// Every chunk lies inside the arena.
    pub proof fn lemma_in_arena(&self, i: int)
        requires
            self.wf(),
            0 <= i < self.chunks().len(),
        ensures
            Self::chunk_end(self.chunks()[i]) <= self.footprint(),
    {
        if i < self.chunks().len() - 1 {
            self.lemma_ordered(i, self.chunks().len() - 1);
        }
    }

    /// Live address of in-use chunk `i`, and its index.
    pub proof fn lemma_live_at(&self, i: int)
        requires
            self.wf(),
            0 <= i < self.chunks().len(),
            self.chunks()[i].inuse,
        ensures
            self.live(self.chunks()[i].addr + HEADER),
            self.index_of(self.chunks()[i].addr + HEADER) == i,
            self.usable(self.chunks()[i].addr + HEADER) == self.chunks()[i].size - HEADER,
    {
        let p = self.chunks()[i].addr + HEADER;
        assert(self.live(p));
        let k = self.index_of(p);
        if k < i {
            self.lemma_ordered(k, i);
        } else if k > i {
            self.lemma_ordered(i, k);
        }
    }

    /// Two distinct live allocations occupy disjoint spans of the arena,
    /// headers included.
    pub proof fn lemma_no_overlap(&self, p: int, q: int)
        requires
            self.wf(),
            self.live(p),
            self.live(q),
            p != q,
        ensures
            p + self.usable(p) + HEADER <= q || q + self.usable(q) + HEADER <= p,
    {
        self.lemma_live(p);
        self.lemma_live(q);
        let i = self.index_of(p);
        let j = self.index_of(q);
        if i < j {
            self.lemma_ordered(i, j);
        } else {
            self.lemma_ordered(j, i);
        }
    }

    /// Facts about a live address: where its chunk is and that it lies in the arena.
    pub proof fn lemma_live(&self, p: int)
        requires
            self.wf(),
            self.live(p),
        ensures
            0 <= self.index_of(p) < self.chunks().len(),
            self.chunks()[self.index_of(p)].inuse,
            self.chunks()[self.index_of(p)].addr + HEADER == p,
            p >= HEADER,
            p % ALIGNMENT as int == 0,
            self.usable(p) >= MIN_CHUNK - HEADER,
            p + self.usable(p) <= self.footprint(),
    {
        let i = self.index_of(p);
        self.lemma_in_arena(i);
    }

    /// New chunk table is old one with old chunks `[i, j]` replaced by new
    /// chunks `[i, j + d]`, `d` the change of length; the rest kept or shifted.
    pub open spec fn edited(old: Self, new: Self, i: int, j: int) -> bool {
        let d = new.chunks().len() - old.chunks().len();
        &&& 0 <= i <= j + 1 <= old.chunks().len()
        &&& i <= j + d < new.chunks().len()
        &&& forall|k: int| 0 <= k < i ==> #[trigger] new.chunks()[k] == old.chunks()[k]
        &&& forall|k: int|
            j < k < old.chunks().len() ==> #[trigger] new.chunks()[k + d] == old.chunks()[k]
    }

    /// An edit keeps the invariant when the new chunks fit their place.
    pub proof fn lemma_edit(old: Self, new: Self, i: int, j: int)
        requires
            old.wf(),
            Self::edited(old, new, i, j),
            new.footprint() <= new.limit() <= MAX_FOOTPRINT,
            new.footprint() > 0,
            new.segments().len() > 0,
            new.segments()[0].base == 0,
            new.segments().last().base + new.segments().last().size == new.footprint(),
            forall|k: int|
                0 <= k < new.segments().len() - 1 ==> #[trigger] Self::seg_linked(new.segments(), k),
            j + 1 < old.chunks().len() ==> new.footprint() == old.footprint(),
            forall|k: int|
                i <= k <= j + (new.chunks().len() - old.chunks().len()) ==> #[trigger] new.chunks()[k].size
                    >= MIN_CHUNK && new.chunks()[k].size % 16 == 0,
            forall|k: int|
                i <= k < j + (new.chunks().len() - old.chunks().len()) ==> #[trigger] Self::linked(
                    new.chunks(), k),
            i == 0 ==> new.chunks()[0].addr == 0,
            i > 0 ==> new.chunks()[i].addr == Self::chunk_end(old.chunks()[i - 1]),
            i > 0 ==> old.chunks()[i - 1].inuse || new.chunks()[i].inuse,
            j + 1 < old.chunks().len() ==> Self::chunk_end(
                new.chunks()[j + (new.chunks().len() - old.chunks().len())]) == old.chunks()[j + 1].addr,
            j + 1 < old.chunks().len() ==> new.chunks()[j + (new.chunks().len()
                - old.chunks().len())].inuse || old.chunks()[j + 1].inuse,
            j + 1 == old.chunks().len() ==> Self::chunk_end(new.chunks().last()) == new.footprint(),
        ensures
            new.wf(),
    {
        let d = new.chunks().len() - old.chunks().len();
        let nc = new.chunks();
        let oc = old.chunks();
        assert forall|k: int| 0 <= k < nc.len() implies #[trigger] nc[k].size >= MIN_CHUNK
            && nc[k].size % 16 == 0 && nc[k].addr % 16 == 0 by {
            if k < i {
                assert(nc[k] == oc[k]);
            } else if k > j + d {
                assert(nc[(k - d) + d] == oc[k - d]);
            } else {
                Self::lemma_edit_addr(old, new, i, j, k);
            }
        }
        assert forall|k: int| 0 <= k < nc.len() - 1 implies #[trigger] Self::linked(nc, k) by {
            if k < i - 1 {
                assert(nc[k] == oc[k]);
                assert(nc[k + 1] == oc[k + 1]);
                assert(Self::linked(oc, k));
            } else if k == i - 1 {
                assert(nc[k] == oc[k]);
            } else if k > j + d {
                assert(nc[(k - d) + d] == oc[k - d]);
                assert(nc[(k + 1 - d) + d] == oc[k + 1 - d]);
                assert(Self::linked(oc, k - d));
            } else if k == j + d {
                assert(nc[(j + 1) + d] == oc[j + 1]);
            } else {
                assert(Self::linked(nc, k));
            }
        }
        if j + 1 < oc.len() {
            assert(nc[(oc.len() - 1) + d] == oc[oc.len() - 1]);
        }
    }

    /// Addresses inside an edited region stay 16-aligned.
    #[verifier::rlimit(40)]
    proof fn lemma_edit_addr(old: Self, new: Self, i: int, j: int, k: int)
        requires
            old.wf(),
            Self::edited(old, new, i, j),
            i <= k <= j + (new.chunks().len() - old.chunks().len()),
            forall|m: int|
                i <= m <= j + (new.chunks().len() - old.chunks().len()) ==> #[trigger] new.chunks()[m].size
                    % 16 == 0,
            forall|m: int|
                i <= m < j + (new.chunks().len() - old.chunks().len()) ==> #[trigger] Self::linked(
                    new.chunks(), m),
            i == 0 ==> new.chunks()[0].addr == 0,
            i > 0 ==> new.chunks()[i].addr == Self::chunk_end(old.chunks()[i - 1]),
        ensures
            new.chunks()[k].addr % 16 == 0,
        decreases k - i,
    {
        if k > i {
            Self::lemma_edit_addr(old, new, i, j, k - 1);
            assert(Self::linked(new.chunks(), k - 1));
        } else if i > 0 {
            assert(old.chunks()[i - 1].size % 16 == 0);
            assert(old.chunks()[i - 1].addr % 16 == 0);
        }
    }

    /// The chunk the engine carves for such a request: for alignments above
    /// the native one, room to place the payload and give the slack back.
    pub open spec fn request_need(size: int, align: int) -> int {
        if align <= ALIGNMENT {
            chunk_size_for(size)
        } else {
            chunk_size_for(size + align + MIN_CHUNK)
        }
    }

    /// `new` has the same chunks, segments and limit as `self`; only bytes may differ.
    pub open spec fn same_layout(&self, new: Self) -> bool {
        &&& new.chunks() == self.chunks()
        &&& new.segments() == self.segments()
        &&& new.footprint() == self.footprint()
        &&& new.limit() == self.limit()
    }

    /// `new` is `self` after writing `v` at offset `k` of live `p`.
    pub open spec fn wrote(&self, p: int, k: int, v: u8, new: Self) -> bool {
        &&& self.same_layout(new)
        &&& new.byte(p + k) == v
        &&& forall|x: int| 0 <= x < self.footprint() && x != p + k ==> #[trigger] new.byte(x) == self.byte(x)
    }

    /// Chunk `f` ends where chunk `j` starts only when it is chunk `j - 1`.
    pub proof fn lemma_predecessor(&self, f: int, j: int)
        requires
            self.wf(),
            0 <= f < self.chunks().len(),
            0 <= j < self.chunks().len(),
            Self::chunk_end(self.chunks()[f]) == self.chunks()[j].addr,
        ensures
            f == j - 1,
    {
        if f >= j {
            if f > j {
                self.lemma_ordered(j, f);
            }
        } else if f < j - 1 {
            self.lemma_ordered(f, j - 1);
            assert(Self::linked(self.chunks(), j - 1));
        }
    }

    /// The free chunk left by freeing live `p` covers `p`'s chunk.
    pub proof fn lemma_merged_covers(&self, p: int)
        requires
            self.wf(),
            self.live(p),
        ensures
            self.merged_start(p) <= p - HEADER,
            self.merged_end(p) >= p + self.usable(p),
    {
        self.lemma_live(p);
        let i = self.index_of(p);
        if i > 0 {
            assert(Self::linked(self.chunks(), i - 1));
        }
        if i + 1 < self.chunks().len() {
            assert(Self::linked(self.chunks(), i));
        }
    }

    /// Contents kept byte for byte imply contents kept for every allocation.
    pub proof fn lemma_contents_kept(old: Self, new: Self, p: int)
        requires
            old.wf(),
            old.bytes_kept(new),
        ensures
            old.contents_kept(new, p),
    {
        assert forall|q: int, k: int|
            #![trigger old.live(q), new.byte(q + k)]
            old.live(q) && q != p && 0 <= k < old.usable(q) implies new.byte(q + k) == old.byte(q + k) by {
            old.lemma_live(q);
        }
    }

    /// An in-place edit of the chunk table: old chunks `[i, j]` became new
    /// chunks `[i, j + d]`, where `d` is the change of length; the rest is
    /// unchanged or shifted.
    pub proof fn lemma_frame(old: Self, new: Self, i: int, j: int, p: int, r: int)
        requires
            old.wf(),
            new.wf(),
            0 <= i <= j + 1 <= old.chunks().len(),
            i <= j + 1 + (new.chunks().len() - old.chunks().len()) <= new.chunks().len(),
            forall|k: int| 0 <= k < i ==> #[trigger] new.chunks()[k] == old.chunks()[k],
            forall|k: int|
                j < k < old.chunks().len() ==> #[trigger] new.chunks()[k + (new.chunks().len()
                    - old.chunks().len())] == old.chunks()[k],
            forall|k: int|
                i <= k <= j && (#[trigger] old.chunks()[k]).inuse ==> old.chunks()[k].addr + HEADER
                    == p,
            forall|k: int|
                i <= k <= j + (new.chunks().len() - old.chunks().len()) && (
                #[trigger] new.chunks()[k]).inuse ==> new.chunks()[k].addr + HEADER == r,
        ensures
            old.keeps_others(new, p),
            old.adds_only(new, r),
            r != p && (old.live(p) ==> i <= old.index_of(p) <= j) ==> !new.live(p),
            p != r ==> (forall|k: int|
                i <= k <= j + (new.chunks().len() - old.chunks().len()) && (
                #[trigger] new.chunks()[k]).inuse ==> !old.live(new.chunks()[k].addr + HEADER)),
    {
        let d = new.chunks().len() - old.chunks().len();
        assert forall|q: int| #[trigger] old.live(q) && q != p implies new.live(q) && new.usable(q)
            == old.usable(q) by {
            let m = old.index_of(q);
            old.lemma_live(q);
            let m2 = if m < i { m } else { m + d };
            assert(new.chunks()[m2] == old.chunks()[m]);
            new.lemma_live_at(m2);
        }
        assert forall|q: int| #[trigger] new.live(q) implies q == r || old.live(q) by {
            let m = new.index_of(q);
            new.lemma_live(q);
            if m < i {
                old.lemma_live_at(m);
            } else if m > j + d {
                assert(new.chunks()[(m - d) + d] == old.chunks()[m - d]);
                old.lemma_live_at(m - d);
            }
        }
        if r != p && (old.live(p) ==> i <= old.index_of(p) <= j) {
            if new.live(p) {
                let m = new.index_of(p);
                new.lemma_live(p);
                if m < i {
                    old.lemma_live_at(m);
                } else {
                    assert(new.chunks()[(m - d) + d] == old.chunks()[m - d]);
                    old.lemma_live_at(m - d);
                }
                assert(old.live(p));
            }
        }
        if p != r {
            assert forall|k: int|
                i <= k <= j + d && (#[trigger] new.chunks()[k]).inuse implies !old.live(
                new.chunks()[k].addr + HEADER) by {
                let q = new.chunks()[k].addr + HEADER;
                if old.live(q) {
                    old.lemma_live(q);
                    let m = old.index_of(q);
                    let m2 = if m < i { m } else { m + d };
                    assert(new.chunks()[m2] == old.chunks()[m]);
                    new.lemma_live_at(m2);
                    new.lemma_live_at(k);
                }
            }
        }
    }
}


impl Dlmalloc {
    /// An empty engine whose provider hands out at most `limit` bytes in
    /// all (capped at `MAX_FOOTPRINT`).
    pub fn new(limit: usize) -> (r: Self)
        ensures
            r.wf(),
            r.chunks().len() == 0,
            r.footprint() == 0,
            r.acquisitions() == 0,
            r.limit() == if limit <= MAX_FOOTPRINT { limit as int } else { MAX_FOOTPRINT as int },
    {
        let cap = if limit <= MAX_FOOTPRINT { limit } else { MAX_FOOTPRINT };
        Dlmalloc { chunks: Vec::new(), mem: Vec::new(), segments: Vec::new(), limit: cap }
    }

    /// The alignment every payload has without asking.
    pub fn malloc_alignment(&self) -> (r: usize)
        ensures
            r == ALIGNMENT,
    {
        ALIGNMENT
    }

    /// Index of the chunk of live address `p`.
    fn find_chunk(&self, p: usize) -> (i: usize)
        requires
            self.wf(),
            self.live(p as int),
        ensures
            i == self.index_of(p as int),
            i < self.chunks().len(),
    {
        proof {
            self.lemma_live(p as int);
        }
        let ghost target = self.index_of(p as int);
        let mut i: usize = 0;
        while i < self.chunks.len()
            invariant
                self.wf(),
                0 <= i <= target,
                target == self.index_of(p as int),
                0 <= target < self.chunks().len(),
                self.chunks()[target].inuse,
                self.chunks()[target].addr + HEADER == p,
            decreases self.chunks().len() - i,
        {
            proof {
                self.lemma_in_arena(i as int);
            }
            let c = self.chunks[i];
            if c.inuse && c.addr + HEADER == p {
                proof {
                    self.lemma_live_at(i as int);
                }
                return i;
            }
            i = i + 1;
        }
        i
    }

    /// The smallest free chunk, other than the top chunk, of at least
    /// `need` bytes; the first of equal ones.
    fn find_best_fit(&self, need: usize) -> (r: Option<usize>)
        requires
            self.wf(),
        ensures
            match r {
                Some(i) => {
                    &&& i + 1 < self.chunks().len()
                    &&& !self.chunks()[i as int].inuse
                    &&& self.chunks()[i as int].size >= need
                    &&& self.is_best_fit(i as int, need as int)
                },
                None => forall|k: int|
                    0 <= k < self.chunks().len() - 1 ==> (#[trigger] self.chunks()[k]).inuse
                        || self.chunks()[k].size < need,
            },
    {
        let n = self.chunks.len();
        if n == 0 {
            return None;
        }
        let mut best: Option<usize> = None;
        let mut i: usize = 0;
        while i + 1 < n
            invariant
                n == self.chunks().len(),
                n > 0,
                0 <= i < n,
                match best {
                    Some(b) => {
                        &&& b < i
                        &&& !self.chunks()[b as int].inuse
                        &&& self.chunks()[b as int].size >= need
                        &&& forall|k: int|
                            0 <= k < i && !(#[trigger] self.chunks()[k]).inuse
                                && self.chunks()[k].size >= need ==> self.chunks()[b as int].size
                                <= self.chunks()[k].size && (self.chunks()[b as int].size
                                == self.chunks()[k].size ==> b <= k)
                    },
                    None => forall|k: int|
                        0 <= k < i ==> (#[trigger] self.chunks()[k]).inuse || self.chunks()[k].size
                            < need,
                },
            decreases n - i,
        {
            let c = self.chunks[i];
            if !c.inuse && c.size >= need {
                match best {
                    Some(b) => {
                        if c.size < self.chunks[b].size {
                            best = Some(i);
                        }
                    },
                    None => {
                        best = Some(i);
                    },
                }
            }
            i = i + 1;
        }
        best
    }

    /// Marks free chunk `i` in use, splitting off a free remainder when it
    /// is at least `MIN_CHUNK` bytes.
    #[verifier::rlimit(60)]
    fn carve(&mut self, i: usize, need: usize)
        requires
            old(self).wf(),
            i < old(self).chunks().len(),
            !old(self).chunks()[i as int].inuse,
            old(self).chunks()[i as int].size >= need,
            need >= MIN_CHUNK,
            need % 16 == 0,
        ensures
            final(self).wf(),
            final(self).chunks().len() >= old(self).chunks().len(),
            final(self).chunks()[i as int].inuse,
            final(self).chunks()[i as int].addr == old(self).chunks()[i as int].addr,
            need <= final(self).chunks()[i as int].size < need + MIN_CHUNK,
            old(self).keeps_others(*final(self), -1),
            old(self).adds_only(*final(self), final(self).chunks()[i as int].addr + HEADER),
            !old(self).live(final(self).chunks()[i as int].addr + HEADER),
            final(self).mem == old(self).mem,
            final(self).segments == old(self).segments,
            final(self).limit == old(self).limit,
    {
        let ghost pre = *self;
        proof {
            pre.lemma_in_arena(i as int);
        }
        let c = self.chunks[i];
        let mut d: usize = 0;
        if c.size - need >= MIN_CHUNK {
            self.chunks.set(i, Chunk { addr: c.addr, size: need, inuse: true });
            assert(i < self.chunks.len());
            self.chunks.insert(i + 1, Chunk { addr: c.addr + need, size: c.size - need, inuse: false });
            d = 1;
        } else {
            self.chunks.set(i, Chunk { addr: c.addr, size: c.size, inuse: true });
        }
        proof {
            let nc = self.chunks();
            let oc = pre.chunks();
            assert forall|k: int| i < k < oc.len() implies #[trigger] nc[k + d] == oc[k] by {}
            assert(Self::edited(pre, *self, i as int, i as int));
            if i + 1 < oc.len() {
                assert(Self::linked(oc, i as int));
            } else {
                assert(nc.last() == nc[i + d]);
            }
            if i > 0 {
                assert(nc[i - 1] == oc[i - 1]);
                assert(Self::linked(oc, i - 1));
            }
            Self::lemma_edit(pre, *self, i as int, i as int);
            Self::lemma_frame(pre, *self, i as int, i as int, -1, c.addr + HEADER);
        }
    }
    /// Acquires whole pages from the provider so that the top chunk holds at
    /// least `need` bytes; fails, changing nothing, beyond the limit.
    #[verifier::rlimit(100)]
    fn grow(&mut self, need: usize) -> (ok: bool)
        requires
            old(self).wf(),
            need >= MIN_CHUNK,
            need % 16 == 0,
            need <= MAX_FOOTPRINT,
            need > old(self).top_free(),
        ensures
            ok == (old(self).footprint() + old(self).growth(need as int) <= old(self).limit()),
            !ok ==> *final(self) == *old(self),
            ok ==> {
                &&& final(self).wf()
                &&& final(self).chunks().len() > 0
                &&& !final(self).chunks().last().inuse
                &&& final(self).chunks().last().size >= need
                &&& final(self).chunks().last().addr == if old(self).top_free() > 0 {
                    old(self).chunks().last().addr as int
                } else {
                    old(self).footprint()
                }
                &&& final(self).footprint() == old(self).footprint() + old(self).growth(need as int)
                &&& final(self).acquisitions() == old(self).acquisitions() + 1
                &&& final(self).segments() == old(self).segments().push(
                    Segment { base: old(self).footprint() as usize, size: old(self).growth(need as int) as usize },
                )
                &&& old(self).keeps_others(*final(self), -1)
                &&& old(self).adds_only(*final(self), -1)
                &&& old(self).bytes_kept(*final(self))
                &&& final(self).limit() == old(self).limit()
            },
    {
        let ghost pre = *self;
        let n = self.chunks.len();
        proof {
            if n > 0 {
                self.lemma_in_arena(n - 1);
            }
        }
        let top: usize = if n > 0 && !self.chunks[n - 1].inuse {
            self.chunks[n - 1].size
        } else {
            0
        };
        let g = round_to_pages(need);
        let base = self.mem.len();
        if g > self.limit - base {
            return false;
        }
        let mut k: usize = 0;
        while k < g
            invariant
                self.mem@.len() == base + k,
                k <= g,
                base + g <= self.limit <= MAX_FOOTPRINT,
                forall|x: int| 0 <= x < base ==> #[trigger] self.mem@[x] == pre.mem@[x],
                self.chunks@ == pre.chunks@,
                self.segments@ == pre.segments@,
                self.limit == pre.limit,
            decreases g - k,
        {
            self.mem.push(0u8);
            k = k + 1;
        }
        self.segments.push(Segment { base, size: g });
        proof {
            let ns = self.segments();
            let os = pre.segments();
            assert forall|k: int| 0 <= k < ns.len() - 1 implies #[trigger] Self::seg_linked(ns, k) by {
                assert(ns[k] == os[k]);
                if k < os.len() - 1 {
                    assert(Self::seg_linked(os, k));
                    assert(ns[k + 1] == os[k + 1]);
                }
            }
        }
        if top > 0 {
            let c = self.chunks[n - 1];
            self.chunks.set(n - 1, Chunk { addr: c.addr, size: c.size + g, inuse: false });
            proof {
                if n > 1 {
                    assert(Self::linked(pre.chunks(), n - 2));
                    assert(self.chunks()[n - 2] == pre.chunks()[n - 2]);
                }
                assert(Self::edited(pre, *self, n - 1, n - 1));
                Self::lemma_edit(pre, *self, n - 1, n - 1);
                Self::lemma_frame(pre, *self, n - 1, n - 1, -1, -1);
            }
        } else {
            self.chunks.push(Chunk { addr: base, size: g, inuse: false });
            proof {
                assert(Self::edited(pre, *self, n as int, n - 1));
                Self::lemma_edit(pre, *self, n as int, n - 1);
                Self::lemma_frame(pre, *self, n as int, n - 1, -1, -1);
            }
        }
        true
    }

    /// Serves a chunk of `need` bytes: the best-fitting free chunk, else the
    /// top chunk, else the top grown from the provider. Returns its index.
    #[verifier::rlimit(100)]
    fn alloc_chunk(&mut self, need: usize) -> (r: Option<usize>)
        requires
            old(self).wf(),
            need >= MIN_CHUNK,
            need % 16 == 0,
            need <= MAX_FOOTPRINT,
        ensures
            r.is_some() == old(self).can_serve(need as int),
            r.is_none() ==> *final(self) == *old(self),
            r.is_some() ==> {
                let i = r.unwrap() as int;
                let p = final(self).chunks()[i].addr + HEADER;
                &&& final(self).wf()
                &&& i < final(self).chunks().len()
                &&& final(self).chunks()[i].inuse
                &&& final(self).chunks()[i].addr == old(self).placement(need as int)
                &&& need <= final(self).chunks()[i].size < need + MIN_CHUNK
                &&& old(self).keeps_others(*final(self), -1)
                &&& old(self).adds_only(*final(self), p)
                &&& !old(self).live(p)
                &&& old(self).bytes_kept(*final(self))
                &&& final(self).limit() == old(self).limit()
                &&& old(self).has_fit(need as int) ==> final(self).footprint() == old(self).footprint()
                    && final(self).segments() == old(self).segments()
                &&& !old(self).has_fit(need as int) ==> final(self).segments() == old(self).segments().push(
                    Segment { base: old(self).footprint() as usize, size: old(self).growth(need as int) as usize },
                )
                &&& !old(self).has_fit(need as int) ==> final(self).footprint() == old(self).footprint()
                    + old(self).growth(need as int) && final(self).acquisitions()
                    == old(self).acquisitions() + 1
            },
    {
        let ghost pre = *self;
        match self.find_best_fit(need) {
            Some(i) => {
                self.carve(i, need);
                proof {
                    assert(pre.has_fit(need as int));
                    pre.lemma_best_fit_unique(i as int, need as int);
                }
                return Some(i);
            },
            None => {},
        }
        let n = self.chunks.len();
        proof {
            assert(!exists|k: int| pre.is_best_fit(k, need as int));
        }
        if n > 0 && !self.chunks[n - 1].inuse && self.chunks[n - 1].size >= need {
            self.carve(n - 1, need);
            proof {
                assert(pre.has_fit(need as int));
            }
            return Some(n - 1);
        }
        proof {
            if pre.has_fit(need as int) {
                let k = choose|k: int|
                    0 <= k < pre.chunks().len() && !(#[trigger] pre.chunks()[k]).inuse
                        && pre.chunks()[k].size >= need;
                assert(k != n - 1);
                assert(false);
            }
        }
        if !self.grow(need) {
            return None;
        }
        let ghost mid = *self;
        let l = self.chunks.len() - 1;
        self.carve(l, need);
        proof {
            let p = self.chunks()[l as int].addr + HEADER;
            assert forall|q: int| #[trigger] self.live(q) implies q == p || pre.live(q) by {
                if q != p {
                    assert(mid.live(q));
                    mid.lemma_live(q);
                }
            }
            if pre.live(p) {
                assert(mid.live(p));
            }
            assert forall|q: int| #[trigger] pre.live(q) && q != -1 implies self.live(q)
                && self.usable(q) == pre.usable(q) by {
                assert(mid.live(q));
            }
            assert(pre.keeps_others(*self, -1));
            assert(pre.adds_only(*self, p));
            assert(self.mem@ == mid.mem@);
            assert forall|k: int| 0 <= k < pre.footprint() implies #[trigger] self.byte(k) == pre.byte(k) by {
                assert(mid.byte(k) == pre.byte(k));
            }
            assert(self.footprint() == pre.footprint() + pre.growth(need as int));
            assert(self.acquisitions() == pre.acquisitions() + 1);
        }
        Some(l)
    }
    /// Releases live `p`: its chunk merges with any free neighbour into one
    /// free chunk.
    #[verifier::rlimit(100)]
    pub fn release(&mut self, p: usize)
        requires
            old(self).wf(),
            old(self).live(p as int),
        ensures
            final(self).wf(),
            old(self).freed(p as int, *final(self)),
    {
        let ghost pre = *self;
        let i = self.find_chunk(p);
        proof {
            pre.lemma_live(p as int);
        }
        let n = self.chunks.len();
        let merge_next = i + 1 < n && !self.chunks[i + 1].inuse;
        let merge_prev = i > 0 && !self.chunks[i - 1].inuse;
        let lo = if merge_prev { i - 1 } else { i };
        let hi = if merge_next { i + 1 } else { i };
        proof {
            pre.lemma_in_arena(hi as int);
            if lo < hi {
                pre.lemma_ordered(lo as int, hi as int);
            }
        }
        let start = self.chunks[lo].addr;
        let end = self.chunks[hi].addr + self.chunks[hi].size;
        self.chunks.set(lo, Chunk { addr: start, size: end - start, inuse: false });
        if hi > lo {
            self.chunks.remove(lo + 1);
        }
        if hi > lo + 1 {
            self.chunks.remove(lo + 1);
        }
        proof {
            let oc = pre.chunks();
            let nc = self.chunks();
            let d = nc.len() - oc.len();
            assert(d == lo - hi);
            assert forall|k: int| hi < k < oc.len() implies #[trigger] nc[k + d] == oc[k] by {}
            assert forall|k: int| 0 <= k < lo implies #[trigger] nc[k] == oc[k] by {}
            assert(Self::edited(pre, *self, lo as int, hi as int));
            Self::lemma_release(pre, *self, p as int, i as int, lo as int, hi as int);
        }
    }

    /// The merged free chunk that `release` writes over old chunks
    /// `[lo, hi]` leaves a well-formed engine in which `p` is freed.
    #[verifier::rlimit(100)]
    proof fn lemma_release(pre: Self, post: Self, p: int, i: int, lo: int, hi: int)
        requires
            pre.wf(),
            pre.live(p),
            i == pre.index_of(p),
            lo == if i > 0 && !pre.chunks()[i - 1].inuse { i - 1 } else { i },
            hi == if i + 1 < pre.chunks().len() && !pre.chunks()[i + 1].inuse { i + 1 } else { i },
            Self::edited(pre, post, lo, hi),
            post.chunks().len() == pre.chunks().len() - (hi - lo),
            post.chunks()[lo] == (Chunk {
                addr: pre.chunks()[lo].addr,
                size: (Self::chunk_end(pre.chunks()[hi]) - pre.chunks()[lo].addr) as usize,
                inuse: false,
            }),
            post.mem == pre.mem,
            post.segments == pre.segments,
            post.limit == pre.limit,
        ensures
            post.wf(),
            pre.freed(p, post),
    {
        let oc = pre.chunks();
        let nc = post.chunks();
        pre.lemma_live(p);
        pre.lemma_in_arena(hi);
        if lo < i {
            pre.lemma_ordered(lo, i);
            assert(Self::linked(oc, lo));
        }
        if hi > i {
            assert(Self::linked(oc, i));
        }
        if lo > 0 {
            assert(Self::linked(oc, lo - 1));
        }
        if hi + 1 < oc.len() {
            assert(Self::linked(oc, hi));
        } else {
            assert(nc.last() == nc[lo]);
        }
        Self::lemma_edit(pre, post, lo, hi);
        Self::lemma_frame(pre, post, lo, hi, p, -1);
        assert forall|q: int| #[trigger] post.live(q) implies pre.live(q) by {
            post.lemma_live(q);
        }
        assert(post.has_free_chunk(pre.merged_start(p), pre.merged_end(p))) by {
            assert(nc[lo].addr == pre.merged_start(p));
        }
    }

    /// Shrinks in-use chunk `j` toward `need` bytes, handing a tail of at
    /// least `MIN_CHUNK` bytes back as free space.
    #[verifier::rlimit(100)]
    fn trim(&mut self, j: usize, need: usize)
        requires
            old(self).wf(),
            j < old(self).chunks().len(),
            old(self).chunks()[j as int].inuse,
            old(self).chunks()[j as int].size >= need,
            need >= MIN_CHUNK,
            need % 16 == 0,
        ensures
            final(self).wf(),
            j < final(self).chunks().len(),
            final(self).chunks()[j as int].inuse,
            final(self).chunks()[j as int].addr == old(self).chunks()[j as int].addr,
            need <= final(self).chunks()[j as int].size < need + MIN_CHUNK,
            final(self).chunks()[j as int].size <= old(self).chunks()[j as int].size,
            old(self).keeps_others(*final(self), old(self).chunks()[j as int].addr + HEADER),
            old(self).adds_only(*final(self), old(self).chunks()[j as int].addr + HEADER),
            final(self).mem == old(self).mem,
            final(self).segments == old(self).segments,
            final(self).limit == old(self).limit,
    {
        let ghost pre = *self;
        proof {
            pre.lemma_in_arena(j as int);
        }
        let c = self.chunks[j];
        if c.size - need < MIN_CHUNK {
            proof {
                Self::lemma_frame(pre, *self, j as int, j as int, c.addr + HEADER, c.addr + HEADER);
            }
            return;
        }
        let n = self.chunks.len();
        let tail_addr = c.addr + need;
        let tail = c.size - need;
        if j + 1 < n && !self.chunks[j + 1].inuse {
            proof {
                pre.lemma_in_arena(j + 1);
                assert(Self::linked(pre.chunks(), j as int));
            }
            let nx = self.chunks[j + 1];
            self.chunks.set(j, Chunk { addr: c.addr, size: need, inuse: true });
            self.chunks.set(j + 1, Chunk { addr: tail_addr, size: tail + nx.size, inuse: false });
            proof {
                let oc = pre.chunks();
                let nc = self.chunks();
                assert(Self::edited(pre, *self, j as int, j + 1));
                if j > 0 {
                    assert(Self::linked(oc, j - 1));
                }
                if j + 2 < oc.len() {
                    assert(Self::linked(oc, j + 1));
                } else {
                    assert(nc.last() == nc[j + 1]);
                }
                assert(Self::linked(nc, j as int));
                Self::lemma_edit(pre, *self, j as int, j + 1);
                Self::lemma_frame(pre, *self, j as int, j + 1, c.addr + HEADER, c.addr + HEADER);
            }
        } else {
            self.chunks.set(j, Chunk { addr: c.addr, size: need, inuse: true });
            assert(j < self.chunks.len());
            self.chunks.insert(j + 1, Chunk { addr: tail_addr, size: tail, inuse: false });
            proof {
                let oc = pre.chunks();
                let nc = self.chunks();
                assert forall|k: int| j < k < oc.len() implies #[trigger] nc[k + 1] == oc[k] by {}
                assert(Self::edited(pre, *self, j as int, j as int));
                if j > 0 {
                    assert(Self::linked(oc, j - 1));
                }
                if j + 1 < oc.len() {
                    assert(Self::linked(oc, j as int));
                } else {
                    assert(nc.last() == nc[j + 1]);
                }
                assert(Self::linked(nc, j as int));
                Self::lemma_edit(pre, *self, j as int, j as int);
                Self::lemma_frame(pre, *self, j as int, j as int, c.addr + HEADER, c.addr + HEADER);
            }
        }
    }
    /// Allocates `size` bytes aligned to `align`; 0 exactly when no free
    /// chunk fits and the provider cannot supply the growth.
    #[verifier::rlimit(100)]
    pub fn malloc(&mut self, size: usize, align: usize) -> (r: usize)
        requires
            old(self).wf(),
            is_power_of_two(align as int),
        ensures
            final(self).wf(),
            old(self).allocated(size as int, align as int, r as int, *final(self)),
            old(self).bytes_kept(*final(self)),
            r != 0 <==> old(self).can_serve(Self::request_need(size as int, align as int)),
    {
        if align > ALIGNMENT {
            return self.memalign(align, size);
        }
        if size > MAX_FOOTPRINT {
            proof {
                lemma_chunk_size_for(size as int);
                self.lemma_too_big(chunk_size_for(size as int));
            }
            return 0;
        }
        let ghost pre = *self;
        let need = request_chunk_size(size);
        proof {
            lemma_chunk_size_for(size as int);
        }
        if need > MAX_FOOTPRINT {
            proof {
                self.lemma_too_big(need as int);
            }
            return 0;
        }
        match self.alloc_chunk(need) {
            None => 0,
            Some(i) => {
                proof {
                    self.lemma_in_arena(i as int);
                }
                let r = self.chunks[i].addr + HEADER;
                proof {
                    self.lemma_live_at(i as int);
                    lemma_small_powers(align as int);
                    Self::lemma_contents_kept(pre, *self, r as int);
                    assert(pre.segments_extend(*self));
                }
                r
            },
        }
    }

    /// Gives the first `lead` bytes of in-use chunk `i` back as free space,
    /// merged into a free predecessor if there is one. Returns the index of
    /// the in-use rest.
    #[verifier::rlimit(100)]
    fn give_back_front(&mut self, i: usize, lead: usize) -> (j: usize)
        requires
            old(self).wf(),
            i < old(self).chunks().len(),
            old(self).chunks()[i as int].inuse,
            lead == 0 || (lead >= MIN_CHUNK && old(self).chunks()[i as int].size - lead >= MIN_CHUNK),
            lead % 16 == 0,
        ensures
            final(self).wf(),
            j < final(self).chunks().len(),
            final(self).chunks()[j as int].inuse,
            final(self).chunks()[j as int].addr == old(self).chunks()[i as int].addr + lead,
            final(self).chunks()[j as int].size == old(self).chunks()[i as int].size - lead,
            old(self).keeps_others(*final(self), old(self).chunks()[i as int].addr + HEADER),
            old(self).adds_only(*final(self), old(self).chunks()[i as int].addr + HEADER + lead),
            lead > 0 ==> !old(self).live(old(self).chunks()[i as int].addr + HEADER + lead),
            lead > 0 ==> !final(self).live(old(self).chunks()[i as int].addr + HEADER),
            final(self).mem == old(self).mem,
            final(self).segments == old(self).segments,
            final(self).limit == old(self).limit,
    {
        let ghost mid = *self;
        proof {
            mid.lemma_in_arena(i as int);
            mid.lemma_live_at(i as int);
        }
        let c = self.chunks[i];
        let off = c.addr + HEADER;
        if lead == 0 {
            proof {
                Self::lemma_frame(mid, *self, i as int, i as int, off as int, off as int);
            }
            return i;
        }
        if i > 0 && !self.chunks[i - 1].inuse {
            let pc = self.chunks[i - 1];
            proof {
                assert(Self::linked(mid.chunks(), i - 1));
            }
            self.chunks.set(i - 1, Chunk { addr: pc.addr, size: pc.size + lead, inuse: false });
            self.chunks.set(i, Chunk { addr: c.addr + lead, size: c.size - lead, inuse: true });
            proof {
                let oc = mid.chunks();
                let nc = self.chunks();
                assert(Self::edited(mid, *self, i - 1, i as int));
                if i > 1 {
                    assert(Self::linked(oc, i - 2));
                }
                if i + 1 < oc.len() {
                    assert(Self::linked(oc, i as int));
                } else {
                    assert(nc.last() == nc[i as int]);
                }
                assert(Self::linked(nc, i - 1));
                Self::lemma_edit(mid, *self, i - 1, i as int);
                Self::lemma_frame(mid, *self, i - 1, i as int, off as int, off + lead);
            }
            i
        } else {
            self.chunks.set(i, Chunk { addr: c.addr, size: lead, inuse: false });
            assert(i < self.chunks.len());
            self.chunks.insert(i + 1, Chunk { addr: c.addr + lead, size: c.size - lead, inuse: true });
            proof {
                let oc = mid.chunks();
                let nc = self.chunks();
                assert forall|k: int| i < k < oc.len() implies #[trigger] nc[k + 1] == oc[k] by {}
                assert(Self::edited(mid, *self, i as int, i as int));
                if i > 0 {
                    assert(Self::linked(oc, i - 1));
                }
                if i + 1 < oc.len() {
                    assert(Self::linked(oc, i as int));
                } else {
                    assert(nc.last() == nc[i + 1]);
                }
                assert(Self::linked(nc, i as int));
                Self::lemma_edit(mid, *self, i as int, i as int);
                Self::lemma_frame(mid, *self, i as int, i as int, off as int, off + lead);
            }
            i + 1
        }
    }

    /// Allocation for alignments above the native one: over-allocates, gives
    /// the slack in front of the aligned payload back as free space, and
    /// trims the tail.
    #[verifier::rlimit(100)]
    fn memalign(&mut self, align: usize, size: usize) -> (r: usize)
        requires
            old(self).wf(),
            is_power_of_two(align as int),
            align > ALIGNMENT,
        ensures
            final(self).wf(),
            old(self).allocated(size as int, align as int, r as int, *final(self)),
            old(self).bytes_kept(*final(self)),
            r != 0 <==> old(self).can_serve(Self::request_need(size as int, align as int)),
    {
        let ghost pre = *self;
        if size > MAX_FOOTPRINT || align > MAX_FOOTPRINT {
            proof {
                lemma_chunk_size_for(size as int + align as int + MIN_CHUNK as int);
                self.lemma_too_big(chunk_size_for(size as int + align as int + MIN_CHUNK as int));
            }
            return 0;
        }
        if size + align + MIN_CHUNK > MAX_FOOTPRINT {
            proof {
                lemma_chunk_size_for(size as int + align as int + MIN_CHUNK as int);
                self.lemma_too_big(chunk_size_for(size as int + align as int + MIN_CHUNK as int));
            }
            return 0;
        }
        let need = request_chunk_size(size + align + MIN_CHUNK);
        proof {
            lemma_chunk_size_for((size + align + MIN_CHUNK) as int);
            lemma_chunk_size_for(size as int);
        }
        if need > MAX_FOOTPRINT {
            proof {
                self.lemma_too_big(need as int);
            }
            return 0;
        }
        let i = match self.alloc_chunk(need) {
            None => {
                return 0;
            },
            Some(i) => i,
        };
        let ghost mid = *self;
        proof {
            self.lemma_in_arena(i as int);
            lemma_large_power_multiple(align as int);
        }
        let c = self.chunks[i];
        let off = c.addr + HEADER;
        proof {
            lemma_align_up(off as int, align as int);
            mid.lemma_live_at(i as int);
        }
        let rem = off % align;
        let mut lead: usize = if rem == 0 {
            0
        } else {
            align - rem
        };
        if lead > 0 && lead < MIN_CHUNK {
            lead = lead + align;
        }
        assert((off + lead) % (align as int) == 0);
        let j = self.give_back_front(i, lead);
        let ghost placed = *self;
        let small = request_chunk_size(size);
        proof {
            lemma_round_up(size + HEADER, 16);
        }
        self.trim(j, small);
        let r = self.chunks[j].addr + HEADER;
        proof {
            let rr = r as int;
            assert(rr == off + lead);
            self.lemma_live_at(j as int);
            if pre.live(rr) {
                assert(mid.live(rr));
            }
            assert forall|q: int| #[trigger] pre.live(q) && q != rr implies self.live(q)
                && self.usable(q) == pre.usable(q) by {
                assert(mid.live(q));
                if q == off {
                    assert(pre.live(off as int));
                }
                assert(placed.live(q));
            }
            assert forall|q: int| #[trigger] self.live(q) implies q == rr || pre.live(q) by {
                if q != rr {
                    assert(placed.live(q));
                    assert(mid.live(q));
                    mid.lemma_live(q);
                }
            }
            assert forall|k: int| 0 <= k < pre.footprint() implies #[trigger] self.byte(k)
                == pre.byte(k) by {
                assert(mid.byte(k) == pre.byte(k));
            }
            Self::lemma_contents_kept(pre, *self, rr);
            assert(pre.segments_extend(*self));
        }
        r
    }

    /// Merges the free successor of in-use chunk `i` into it.
    #[verifier::rlimit(100)]
    fn absorb_next(&mut self, i: usize)
        requires
            old(self).wf(),
            i + 1 < old(self).chunks().len(),
            old(self).chunks()[i as int].inuse,
            !old(self).chunks()[i + 1].inuse,
        ensures
            final(self).wf(),
            i < final(self).chunks().len(),
            final(self).chunks()[i as int].inuse,
            final(self).chunks()[i as int].addr == old(self).chunks()[i as int].addr,
            final(self).chunks()[i as int].size == old(self).chunks()[i as int].size + old(
                self).chunks()[i + 1].size,
            old(self).keeps_others(*final(self), old(self).chunks()[i as int].addr + HEADER),
            old(self).adds_only(*final(self), old(self).chunks()[i as int].addr + HEADER),
            final(self).mem == old(self).mem,
            final(self).segments == old(self).segments,
            final(self).limit == old(self).limit,
    {
        let ghost pre = *self;
        proof {
            pre.lemma_in_arena(i + 1);
            assert(Self::linked(pre.chunks(), i as int));
        }
        let n = self.chunks.len();
        assert(i + 1 < n);
        let c = self.chunks[i];
        let nx = self.chunks[i + 1];
        self.chunks.set(i, Chunk { addr: c.addr, size: c.size + nx.size, inuse: true });
        self.chunks.remove(i + 1);
        proof {
            let oc = pre.chunks();
            let nc = self.chunks();
            assert forall|k: int| i + 1 < k < oc.len() implies #[trigger] nc[k + (-1)] == oc[k] by {}
            assert forall|k: int| 0 <= k < i implies #[trigger] nc[k] == oc[k] by {}
            assert(Self::edited(pre, *self, i as int, i + 1));
            if i > 0 {
                assert(Self::linked(oc, i - 1));
            }
            if i + 2 < oc.len() {
                assert(Self::linked(oc, i + 1));
            } else {
                assert(nc.last() == nc[i as int]);
            }
            Self::lemma_edit(pre, *self, i as int, i + 1);
            Self::lemma_frame(pre, *self, i as int, i + 1, c.addr + HEADER, c.addr + HEADER);
        }
    }

    /// Resizes live `p` to `new_size` bytes, keeping its first `keep` bytes:
    /// in place where its chunk, or its chunk and a free successor, suffice;
    /// else moves the contents to a new allocation and frees `p`. Returns 0,
    /// changing nothing, on failure.
    #[verifier::rlimit(100)]
    fn resize(&mut self, p: usize, keep: usize, new_size: usize) -> (r: usize)
        requires
            old(self).wf(),
            old(self).live(p as int),
            keep <= old(self).usable(p as int),
        ensures
            final(self).wf(),
            old(self).reallocated(p as int, new_size as int, keep as int, r as int, *final(self)),
            r != 0 <==> old(self).grows_in_place(p as int, chunk_size_for(new_size as int))
                || old(self).can_serve(chunk_size_for(new_size as int)),
            old(self).grows_in_place(p as int, chunk_size_for(new_size as int)) ==> r == p
                && final(self).footprint() == old(self).footprint(),
    {
        let ghost pre = *self;
        proof {
            lemma_chunk_size_for(new_size as int);
            pre.lemma_live(p as int);
        }
        if new_size > MAX_FOOTPRINT {
            proof {
                self.lemma_too_big(chunk_size_for(new_size as int));
            }
            return 0;
        }
        let need = request_chunk_size(new_size);
        if need > MAX_FOOTPRINT {
            proof {
                self.lemma_too_big(need as int);
            }
            return 0;
        }
        let i = self.find_chunk(p);
        let c = self.chunks[i];
        let n = self.chunks.len();
        if c.size >= need {
            self.trim(i, need);
            proof {
                self.lemma_live_at(i as int);
                Self::lemma_contents_kept(pre, *self, p as int);
                assert(pre.segments_extend(*self));
            }
            return p;
        }
        let absorbs = if i + 1 < n && !self.chunks[i + 1].inuse {
            proof {
                pre.lemma_in_arena(i + 1);
            }
            c.size + self.chunks[i + 1].size >= need
        } else {
            false
        };
        if !absorbs {
            return self.relocate(p, keep, new_size, need);
        }
        self.absorb_next(i);
        let ghost s1 = *self;
        self.trim(i, need);
        proof {
            self.lemma_live_at(i as int);
            assert forall|q: int| #[trigger] self.live(q) implies q == p || (pre.live(q) && q != p) by {
                if q != p {
                    assert(s1.live(q));
                }
            }
            assert forall|q: int| #[trigger] pre.live(q) && q != p implies self.live(q) && self.usable(q)
                == pre.usable(q) by {
                assert(s1.live(q));
            }
            Self::lemma_contents_kept(pre, *self, p as int);
            assert(pre.segments_extend(*self));
        }
        p
    }

    /// Moves live `p` to a new allocation of `new_size` bytes, copying its
    /// first `keep` bytes as far as they fit, and frees `p`.
    #[verifier::rlimit(100)]
    fn relocate(&mut self, p: usize, keep: usize, new_size: usize, need: usize) -> (r: usize)
        requires
            old(self).wf(),
            old(self).live(p as int),
            keep <= old(self).usable(p as int),
            need == chunk_size_for(new_size as int),
            need <= MAX_FOOTPRINT,
        ensures
            final(self).wf(),
            old(self).reallocated(p as int, new_size as int, keep as int, r as int, *final(self)),
            r != 0 <==> old(self).can_serve(need as int),
    {
        let ghost pre = *self;
        proof {
            lemma_chunk_size_for(new_size as int);
            pre.lemma_live(p as int);
        }
        let j = match self.alloc_chunk(need) {
            None => {
                return 0;
            },
            Some(j) => j,
        };
        let ghost mid = *self;
        proof {
            mid.lemma_in_arena(j as int);
            mid.lemma_live_at(j as int);
        }
        let r = self.chunks[j].addr + HEADER;
        let len = if keep < new_size {
            keep
        } else {
            new_size
        };
        proof {
            assert(mid.live(p as int));
            mid.lemma_no_overlap(p as int, r as int);
            mid.lemma_live(p as int);
            mid.lemma_live(r as int);
        }
        proof {
            assert(mid.usable(p as int) == pre.usable(p as int));
        }
        self.copy_between(p, r, len);
        let ghost copied = *self;
        proof {
            assert(copied.live(p as int));
        }
        self.release(p);
        proof {
            let rr = r as int;
            let pp = p as int;
            assert(copied.live(rr));
            assert(self.live(rr));
            assert(copied.usable(rr) == mid.usable(rr));
            assert forall|x: int| 0 <= x < keep && x < new_size implies #[trigger] self.byte(
                rr + x) == pre.byte(pp + x) by {
                pre.lemma_live(pp);
                assert(copied.byte(rr + x) == mid.byte(pp + x));
                assert(mid.byte(pp + x) == pre.byte(pp + x));
            }
            assert forall|q: int| #[trigger] pre.live(q) && q != pp implies self.live(q) && self.usable(q)
                == pre.usable(q) by {
                assert(mid.live(q));
                assert(copied.live(q));
            }
            assert(!self.live(pp));
            assert forall|q: int| #[trigger] self.live(q) implies q == rr || (pre.live(q) && q != pp) by {
                assert(copied.live(q));
                assert(mid.live(q));
                if q != rr {
                    assert(pre.live(q));
                }
            }
            assert forall|q: int, x: int|
                #![trigger pre.live(q), self.byte(q + x)]
                pre.live(q) && q != pp && 0 <= x < pre.usable(q) implies self.byte(q + x) == pre.byte(
                q + x) by {
                pre.lemma_live(q);
                assert(mid.live(q));
                mid.lemma_no_overlap(q, rr);
                assert(copied.byte(q + x) == mid.byte(q + x));
                assert(mid.byte(q + x) == pre.byte(q + x));
            }
            assert(self.segments() == mid.segments());
            assert(pre.segments_extend(*self));
        }
        r
    }

    /// Copies the first `len` bytes of live `p` to live `r`.
    fn copy_between(&mut self, p: usize, r: usize, len: usize)
        requires
            old(self).wf(),
            old(self).live(p as int),
            old(self).live(r as int),
            p != r,
            len <= old(self).usable(p as int),
            len <= old(self).usable(r as int),
        ensures
            final(self).wf(),
            old(self).same_layout(*final(self)),
            forall|x: int| 0 <= x < len ==> #[trigger] final(self).byte(r + x) == old(self).byte(p + x),
            forall|x: int|
                0 <= x < old(self).footprint() && !(r <= x < r + len) ==> #[trigger] final(self).byte(x)
                    == old(self).byte(x),
    {
        let ghost mid = *self;
        proof {
            mid.lemma_no_overlap(p as int, r as int);
            mid.lemma_live(p as int);
            mid.lemma_live(r as int);
        }
        let mut k: usize = 0;
        while k < len
            invariant
                self.chunks@ == mid.chunks@,
                self.segments@ == mid.segments@,
                self.limit == mid.limit,
                self.mem@.len() == mid.mem@.len(),
                mid.mem@.len() <= MAX_FOOTPRINT,
                k <= len,
                len <= mid.usable(p as int),
                len <= mid.usable(r as int),
                p + mid.usable(p as int) + HEADER <= r || r + mid.usable(r as int) + HEADER <= p,
                p + mid.usable(p as int) <= mid.mem@.len(),
                r + mid.usable(r as int) <= mid.mem@.len(),
                forall|x: int|
                    0 <= x < mid.mem@.len() && !(r <= x < r + k) ==> #[trigger] self.mem@[x]
                        == mid.mem@[x],
                forall|x: int| 0 <= x < k ==> #[trigger] self.mem@[r + x] == mid.mem@[p + x],
            decreases len - k,
        {
            let ghost before = self.mem@;
            let b = self.mem[p + k];
            self.mem.set(r + k, b);
            proof {
                assert forall|x: int| 0 <= x < k + 1 implies #[trigger] self.mem@[r + x] == mid.mem@[p
                    + x] by {
                    if x < k {
                        assert(self.mem@[r + x] == before[r + x]);
                    }
                }
            }
            k = k + 1;
        }
    }

    /// Releases live `p`, allocated with `size` bytes aligned to `align`.
    /// The chunk is found from `p` alone; `size` and `align` are not needed.
    pub fn free(&mut self, p: usize, size: usize, align: usize)
        requires
            old(self).wf(),
            old(self).live(p as int),
        ensures
            final(self).wf(),
            old(self).freed(p as int, *final(self)),
    {
        self.release(p)
    }

    /// Resizes live `p`, allocated with `old_size` bytes aligned to
    /// `old_align`, to `new_size` bytes with the same alignment, keeping its
    /// first `min(old_size, new_size)` bytes. A shrink stays in place.
    /// Returns 0, changing nothing, on failure.
    #[verifier::rlimit(100)]
    pub fn realloc(&mut self, p: usize, old_size: usize, old_align: usize, new_size: usize) -> (r: usize)
        requires
            old(self).wf(),
            old(self).live(p as int),
            old_size <= old(self).usable(p as int),
            is_power_of_two(old_align as int),
            (p as int) % (old_align as int) == 0,
        ensures
            final(self).wf(),
            old(self).reallocated(p as int, new_size as int, old_size as int, r as int, *final(self)),
            (r as int) % (old_align as int) == 0,
            new_size <= old_size ==> r == p && final(self).footprint() == old(self).footprint(),
            old_align <= ALIGNMENT ==> (r != 0 <==> old(self).grows_in_place(
                p as int,
                chunk_size_for(new_size as int),
            ) || old(self).can_serve(chunk_size_for(new_size as int))),
            old_align <= ALIGNMENT && old(self).grows_in_place(p as int, chunk_size_for(new_size as int))
                ==> r == p && final(self).footprint() == old(self).footprint(),
            old_align > ALIGNMENT ==> (r != 0 <==> new_size <= old_size || old(self).can_serve(
                Self::request_need(new_size as int, old_align as int))),
    {
        proof {
            self.lemma_live(p as int);
            if new_size <= old_size {
                lemma_fits(self.chunks()[self.index_of(p as int)].size as int, new_size as int);
            }
        }
        if old_align <= ALIGNMENT || new_size <= old_size {
            let r = self.resize(p, old_size, new_size);
            proof {
                if r != 0 && r != p {
                    lemma_small_powers(old_align as int);
                    self.lemma_live(r as int);
                }
            }
            return r;
        }
        let ghost pre = *self;
        let r = self.malloc(new_size, old_align);
        if r == 0 {
            return 0;
        }
        let ghost mid = *self;
        proof {
            assert(mid.live(p as int));
            mid.lemma_live(r as int);
        }
        let len = if old_size < new_size {
            old_size
        } else {
            new_size
        };
        self.copy_between(p, r, len);
        let ghost copied = *self;
        proof {
            assert(copied.live(p as int));
        }
        self.release(p);
        proof {
            let rr = r as int;
            let pp = p as int;
            assert(copied.live(rr));
            assert(self.live(rr));
            assert forall|x: int| 0 <= x < old_size && x < new_size implies #[trigger] self.byte(rr + x)
                == pre.byte(pp + x) by {
                pre.lemma_live(pp);
                assert(copied.byte(rr + x) == mid.byte(pp + x));
                assert(mid.byte(pp + x) == pre.byte(pp + x));
            }
            assert forall|q: int| #[trigger] pre.live(q) && q != pp implies self.live(q) && self.usable(q)
                == pre.usable(q) by {
                assert(mid.live(q));
                assert(copied.live(q));
            }
            assert(!self.live(pp));
            assert forall|q: int| #[trigger] self.live(q) implies q == rr || (pre.live(q) && q != pp) by {
                assert(copied.live(q));
                assert(mid.live(q));
                if q != rr {
                    assert(pre.live(q));
                }
            }
            assert forall|q: int, x: int|
                #![trigger pre.live(q), self.byte(q + x)]
                pre.live(q) && q != pp && 0 <= x < pre.usable(q) implies self.byte(q + x) == pre.byte(
                q + x) by {
                pre.lemma_live(q);
                assert(mid.live(q));
                mid.lemma_no_overlap(q, rr);
                assert(copied.byte(q + x) == mid.byte(q + x));
                assert(mid.byte(q + x) == pre.byte(q + x));
            }
            assert(self.segments() == mid.segments());
            assert(pre.segments_extend(*self));
        }
        r
    }

    /// Like `malloc`, and the `size` bytes of a returned allocation are zero.
    pub fn calloc(&mut self, size: usize, align: usize) -> (r: usize)
        requires
            old(self).wf(),
            is_power_of_two(align as int),
        ensures
            final(self).wf(),
            old(self).allocated(size as int, align as int, r as int, *final(self)),
            r != 0 ==> forall|k: int| 0 <= k < size ==> #[trigger] final(self).byte(r + k) == 0,
            r != 0 <==> old(self).can_serve(Self::request_need(size as int, align as int)),
    {
        let ghost pre = *self;
        let r = self.malloc(size, align);
        if r == 0 {
            return 0;
        }
        let ghost mid = *self;
        proof {
            mid.lemma_live(r as int);
        }
        let mut k: usize = 0;
        while k < size
            invariant
                self.chunks@ == mid.chunks@,
                self.segments@ == mid.segments@,
                self.limit == mid.limit,
                self.mem@.len() == mid.mem@.len(),
                mid.mem@.len() <= MAX_FOOTPRINT,
                k <= size,
                size <= mid.usable(r as int),
                r + mid.usable(r as int) <= mid.mem@.len(),
                forall|x: int|
                    0 <= x < mid.mem@.len() && !(r <= x < r + k) ==> #[trigger] self.mem@[x]
                        == mid.mem@[x],
                forall|x: int| 0 <= x < k ==> #[trigger] self.mem@[r + x] == 0,
            decreases size - k,
        {
            let ghost before = self.mem@;
            self.mem.set(r + k, 0u8);
            proof {
                assert forall|x: int| 0 <= x < k + 1 implies #[trigger] self.mem@[r + x] == 0 by {
                    if x < k {
                        assert(self.mem@[r + x] == before[r + x]);
                    }
                }
            }
            k = k + 1;
        }
        proof {
            let rr = r as int;
            assert(self.chunks() == mid.chunks());
            assert forall|q: int| #[trigger] pre.live(q) && q != rr implies self.live(q) && self.usable(q)
                == pre.usable(q) by {
                assert(mid.live(q));
            }
            assert forall|q: int| #[trigger] self.live(q) implies q == rr || pre.live(q) by {
                assert(mid.live(q));
            }
            assert forall|q: int, x: int|
                #![trigger pre.live(q), self.byte(q + x)]
                pre.live(q) && q != rr && 0 <= x < pre.usable(q) implies self.byte(q + x) == pre.byte(
                q + x) by {
                pre.lemma_live(q);
                assert(mid.live(q));
                mid.lemma_no_overlap(q, rr);
                assert(self.mem@[q + x] == mid.mem@[q + x]);
                assert(mid.byte(q + x) == pre.byte(q + x));
            }
            assert forall|x: int| 0 <= x < size implies #[trigger] self.byte(rr + x) == 0 by {
                assert(self.mem@[rr + x] == 0);
            }
        }
        r
    }

    /// Writes `v` at offset `k` of live `p`.
    pub fn write(&mut self, p: usize, k: usize, v: u8)
        requires
            old(self).wf(),
            old(self).live(p as int),
            k < old(self).usable(p as int),
        ensures
            final(self).wf(),
            old(self).wrote(p as int, k as int, v, *final(self)),
    {
        proof {
            self.lemma_live(p as int);
        }
        self.mem.set(p + k, v);
    }

    /// The byte at offset `k` of live `p`.
    pub fn read(&self, p: usize, k: usize) -> (r: u8)
        requires
            self.wf(),
            self.live(p as int),
            k < self.usable(p as int),
        ensures
            r == self.byte(p + k),
    {
        proof {
            self.lemma_live(p as int);
        }
        self.mem[p + k]
    }

    /// Whether `p` is the address of a live allocation.
    pub fn is_live(&self, p: usize) -> (r: bool)
        requires
            self.wf(),
        ensures
            r == self.live(p as int),
    {
        let mut i: usize = 0;
        while i < self.chunks.len()
            invariant
                self.wf(),
                i <= self.chunks().len(),
                forall|k: int|
                    0 <= k < i ==> !(#[trigger] self.chunks()[k]).inuse || self.chunks()[k].addr
                        + HEADER != p,
            decreases self.chunks().len() - i,
        {
            proof {
                self.lemma_in_arena(i as int);
            }
            let c = self.chunks[i];
            if c.inuse && c.addr + HEADER == p {
                return true;
            }
            i = i + 1;
        }
        false
    }

    /// Payload bytes available at live `p` (at least what was asked for).
    pub fn usable_size(&self, p: usize) -> (r: usize)
        requires
            self.wf(),
            self.live(p as int),
        ensures
            r == self.usable(p as int),
    {
        let i = self.find_chunk(p);
        self.chunks[i].size - HEADER
    }

    /// Bytes of backing memory acquired so far.
    pub fn footprint_bytes(&self) -> (r: usize)
        ensures
            r == self.footprint(),
    {
        self.mem.len()
    }

    /// Number of acquisitions made from the provider.
    pub fn segment_count(&self) -> (r: usize)
        ensures
            r == self.acquisitions(),
    {
        self.segments.len()
    }
}

} // verus!

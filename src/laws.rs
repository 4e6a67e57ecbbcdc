//! Properties of the engine across operations, proved from the operations'
//! own postconditions.
use vstd::prelude::*;
use crate::chunk::{chunk_size_for, lemma_chunk_size_for, lemma_round_up, ALIGNMENT, HEADER};
use crate::heap::Dlmalloc;

verus! {

/// The contents of live `p` survive an allocation made elsewhere.
pub proof fn lemma_allocation_keeps_contents(
    s0: Dlmalloc,
    size: int,
    align: int,
    r: int,
    s1: Dlmalloc,
    p: int,
    k: int,
)
    requires
        s0.wf(),
        s0.live(p),
        0 <= k < s0.usable(p),
        s0.allocated(size, align, r, s1),
    ensures
        s1.live(p),
        s1.usable(p) == s0.usable(p),
        s1.byte(p + k) == s0.byte(p + k),
{
    if r != 0 {
        assert(p != r);
    }
}

/// The contents of live `p` survive freeing another allocation `q`.
pub proof fn lemma_free_keeps_contents(s0: Dlmalloc, q: int, s1: Dlmalloc, p: int, k: int)
    requires
        s0.wf(),
        s0.live(p),
        s0.live(q),
        p != q,
        0 <= k < s0.usable(p),
        s0.freed(q, s1),
    ensures
        s1.live(p),
        s1.usable(p) == s0.usable(p),
        s1.byte(p + k) == s0.byte(p + k),
{
    s0.lemma_live(p);
}

/// A byte written into live `p` reads back, and survives a write into
/// another allocation `q`.
pub proof fn lemma_write_round_trip(
    s0: Dlmalloc,
    p: int,
    k: int,
    v: u8,
    s1: Dlmalloc,
    q: int,
    j: int,
    w: u8,
    s2: Dlmalloc,
)
    requires
        s0.wf(),
        s0.live(p),
        0 <= k < s0.usable(p),
        s0.wrote(p, k, v, s1),
        s1.live(q),
        q != p,
        0 <= j < s1.usable(q),
        s1.wrote(q, j, w, s2),
    ensures
        s1.byte(p + k) == v,
        s2.byte(p + k) == v,
{
    assert(s1.wf());
    s1.lemma_no_overlap(p, q);
    s0.lemma_live(p);
}

/// Freeing two neighbouring allocations, in either order, leaves one free
/// chunk spanning both, which serves a request for their combined size.
pub proof fn lemma_coalescing(s0: Dlmalloc, a: int, b: int, s1: Dlmalloc, s2: Dlmalloc)
    requires
        s0.wf(),
        s0.live(a),
        s0.live(b),
        a + s0.usable(a) + HEADER == b,
        s1.wf(),
        (s0.freed(a, s1) && s1.freed(b, s2)) || (s0.freed(b, s1) && s1.freed(a, s2)),
    ensures
        exists|k: int|
            0 <= k < s2.chunks().len() && !(#[trigger] s2.chunks()[k]).inuse && s2.chunks()[k].addr
                <= a - HEADER && Dlmalloc::chunk_end(s2.chunks()[k]) >= b + s0.usable(b),
        s2.has_fit(s0.usable(a) + s0.usable(b) + 2 * HEADER),
        chunk_size_for(s0.usable(a) + s0.usable(b) + HEADER) == s0.usable(a) + s0.usable(b) + 2
            * HEADER,
{
    s0.lemma_live(a);
    s0.lemma_live(b);
    let ia = s0.index_of(a);
    let ib = s0.index_of(b);
    s0.lemma_predecessor(ia, ib);
    let c0 = s0.chunks();
    assert(Dlmalloc::linked(c0, ia));
    lemma_round_up(s0.usable(a) + s0.usable(b) + 2 * HEADER, 16);
    if s0.freed(a, s1) && s1.freed(b, s2) {
        s0.lemma_merged_covers(a);
        assert(s0.merged_end(a) == b - HEADER);
        let f = choose|k: int|
            0 <= k < s1.chunks().len() && !(#[trigger] s1.chunks()[k]).inuse && s1.chunks()[k].addr
                == s0.merged_start(a) && Dlmalloc::chunk_end(s1.chunks()[k]) == s0.merged_end(a);
        s1.lemma_live(b);
        let jb = s1.index_of(b);
        s1.lemma_predecessor(f, jb);
        s1.lemma_merged_covers(b);
        assert(s1.merged_start(b) == s0.merged_start(a));
        let g = choose|k: int|
            0 <= k < s2.chunks().len() && !(#[trigger] s2.chunks()[k]).inuse && s2.chunks()[k].addr
                == s1.merged_start(b) && Dlmalloc::chunk_end(s2.chunks()[k]) == s1.merged_end(b);
        assert(!s2.chunks()[g].inuse && s2.chunks()[g].size >= s0.usable(a) + s0.usable(b) + 2
            * HEADER);
        assert(s2.chunks()[g].addr <= a - HEADER);
    } else {
        s0.lemma_merged_covers(b);
        assert(Dlmalloc::linked(c0, ia));
        assert(s0.merged_start(b) == a + s0.usable(a));
        let f = choose|k: int|
            0 <= k < s1.chunks().len() && !(#[trigger] s1.chunks()[k]).inuse && s1.chunks()[k].addr
                == s0.merged_start(b) && Dlmalloc::chunk_end(s1.chunks()[k]) == s0.merged_end(b);
        s1.lemma_live(a);
        let ja = s1.index_of(a);
        s1.lemma_predecessor(ja, f);
        s1.lemma_merged_covers(a);
        assert(s1.merged_end(a) == s0.merged_end(b));
        let g = choose|k: int|
            0 <= k < s2.chunks().len() && !(#[trigger] s2.chunks()[k]).inuse && s2.chunks()[k].addr
                == s1.merged_start(a) && Dlmalloc::chunk_end(s2.chunks()[k]) == s1.merged_end(a);
        assert(!s2.chunks()[g].inuse && s2.chunks()[g].size >= s0.usable(a) + s0.usable(b) + 2
            * HEADER);
        assert(s2.chunks()[g].addr <= a - HEADER);
    }
}

/// Allocating `n` bytes and freeing them leaves a free chunk that serves
/// the same request again, without more backing memory.
pub proof fn lemma_churn(s0: Dlmalloc, n: int, align: int, r: int, s1: Dlmalloc, s2: Dlmalloc)
    requires
        s0.wf(),
        n >= 0,
        align <= ALIGNMENT,
        r != 0,
        s0.allocated(n, align, r, s1),
        s1.wf(),
        s1.freed(r, s2),
        s2.wf(),
    ensures
        s2.has_fit(Dlmalloc::request_need(n, align)),
        s2.footprint() == s1.footprint(),
        s2.acquisitions() == s1.acquisitions(),
{
    s1.lemma_live(r);
    s1.lemma_merged_covers(r);
    lemma_chunk_size_for(n);
    lemma_round_up(n + HEADER, 16);
    let g = choose|k: int|
        0 <= k < s2.chunks().len() && !(#[trigger] s2.chunks()[k]).inuse && s2.chunks()[k].addr
            == s1.merged_start(r) && Dlmalloc::chunk_end(s2.chunks()[k]) == s1.merged_end(r);
    assert(s2.chunks()[g].size >= s1.usable(r) + HEADER);
    assert(s2.chunks()[g].size % 16 == 0);
    assert(s2.chunks()[g].size >= chunk_size_for(n));
}

/// Rounds of allocating a request and freeing it again: `states[2 * i]`
/// allocates `rs[i]`, `states[2 * i + 1]` frees it.
pub open spec fn churn_rounds(states: Seq<Dlmalloc>, rs: Seq<int>, n: int, align: int) -> bool {
    &&& states.len() == 2 * rs.len() + 1
    &&& forall|i: int| 0 <= i < states.len() ==> (#[trigger] states[i]).wf()
    &&& forall|i: int|
        0 <= i < rs.len() ==> #[trigger] rs[i] != 0 && states[2 * i].allocated(
            n,
            align,
            rs[i],
            states[2 * i + 1],
        ) && states[2 * i + 1].freed(rs[i], states[2 * i + 2])
}

/// However many rounds of allocating `n` bytes and freeing them run, no
/// backing memory is acquired after the first allocation.
pub proof fn lemma_churn_rounds(states: Seq<Dlmalloc>, rs: Seq<int>, n: int, align: int, j: int)
    requires
        n >= 0,
        align <= ALIGNMENT,
        churn_rounds(states, rs, n, align),
        1 <= j < states.len(),
    ensures
        states[j].footprint() == states[1].footprint(),
        states[j].segments() == states[1].segments(),
    decreases j,
{
    if j > 1 {
        lemma_churn_rounds(states, rs, n, align, j - 1);
        let i = j / 2;
        if j % 2 == 0 {
            assert(rs[i - 1] != 0);
            assert(2 * (i - 1) + 2 == j);
        } else {
            assert(rs[i - 1] != 0);
            assert(rs[i] != 0);
            assert(2 * i == j - 1);
            assert(states[j - 2].wf() && states[j - 1].wf() && states[j - 3].wf());
            lemma_churn(states[j - 3], n, align, rs[i - 1], states[j - 2], states[j - 1]);
        }
    }
}

/// Two resizes in a row keep every byte that each of them keeps: growing
/// and then shrinking an allocation preserves its common prefix.
pub proof fn lemma_realloc_prefix(
    s0: Dlmalloc,
    p: int,
    n1: int,
    m1: int,
    q: int,
    s1: Dlmalloc,
    n2: int,
    m2: int,
    r: int,
    s2: Dlmalloc,
    k: int,
)
    requires
        s0.wf(),
        s0.live(p),
        s0.reallocated(p, n1, m1, q, s1),
        q != 0,
        s1.reallocated(q, n2, m2, r, s2),
        r != 0,
        0 <= k,
        k < m1 && k < n1,
        k < m2 && k < n2,
    ensures
        s2.byte(r + k) == s0.byte(p + k),
{
    assert(s1.byte(q + k) == s0.byte(p + k));
    assert(s2.byte(r + k) == s1.byte(q + k));
}

} // verus!

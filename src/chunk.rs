//! Chunk layer: the unit of memory the engine tracks and the size arithmetic
//! that turns a request into a chunk size.
use vstd::prelude::*;
use vstd::arithmetic::div_mod::{lemma_fundamental_div_mod, lemma_mod_multiples_basic};

verus! {

/// Granularity of every chunk address and size; also the engine's native alignment.
pub const ALIGNMENT: usize = 16;

/// Bytes of bookkeeping in front of each payload.
pub const HEADER: usize = 16;

/// Smallest chunk that can stand on its own (header plus a free-list node).
pub const MIN_CHUNK: usize = 32;

/// Granularity in which backing memory is acquired.
pub const PAGE: usize = 4096;

/// Largest arena the engine ever manages.
pub const MAX_FOOTPRINT: usize = 0x4000_0000;

/// One chunk: a span `[addr, addr + size)` of the arena, free or in use.
#[derive(Clone, Copy, Debug, PartialEq, Eq)]
pub struct Chunk {
    pub addr: usize,
    pub size: usize,
    pub inuse: bool,
}

/// `n` rounded up to the next multiple of `g`.
pub open spec fn round_up(n: int, g: int) -> int {
    ((n + g - 1) / g) * g
}

/// The chunk size that serves a payload of `size` bytes.
pub open spec fn chunk_size_for(size: int) -> int {
    let r = round_up(size + HEADER, ALIGNMENT as int);
    if r < MIN_CHUNK {
        MIN_CHUNK as int
    } else {
        r
    }
}

/// `a` is a power of two.
pub open spec fn is_power_of_two(a: int) -> bool
    decreases a,
{
    if a <= 1 {
        a == 1
    } else {
        a % 2 == 0 && is_power_of_two(a / 2)
    }
}

pub proof fn lemma_round_up(n: int, g: int)
    requires
        n >= 0,
        g == 16 || g == 4096,
    ensures
        n <= round_up(n, g) < n + g,
        round_up(n, g) % g == 0,
{
}

pub proof fn lemma_chunk_size_for(size: int)
    requires
        size >= 0,
    ensures
        chunk_size_for(size) >= MIN_CHUNK,
        chunk_size_for(size) % 16 == 0,
        chunk_size_for(size) >= size + HEADER,
        chunk_size_for(size) <= size + HEADER + MIN_CHUNK,
{
    lemma_round_up(size + HEADER, 16);
}

/// A chunk of `c` bytes, 16-aligned in size and at least the minimum, that
/// holds `n` payload bytes is at least the chunk size for `n`.
pub proof fn lemma_fits(c: int, n: int)
    requires
        n >= 0,
        c % 16 == 0,
        c >= MIN_CHUNK,
        c >= n + HEADER,
    ensures
        c >= chunk_size_for(n),
{
    lemma_round_up(n + HEADER, 16);
}

/// The powers of two up to the native alignment.
pub proof fn lemma_small_powers(a: int)
    requires
        is_power_of_two(a),
        a <= ALIGNMENT,
    ensures
        a == 1 || a == 2 || a == 4 || a == 8 || a == 16,
    decreases a,
{
    if a > 1 {
        lemma_small_powers(a / 2);
    }
}

/// A power of two above the native alignment is a multiple of it.
pub proof fn lemma_large_power_multiple(a: int)
    requires
        is_power_of_two(a),
        a >= ALIGNMENT,
    ensures
        a % (ALIGNMENT as int) == 0,
    decreases a,
{
    if a > 16 {
        let h = a / 2;
        if h >= 16 {
            lemma_large_power_multiple(h);
            assert(a == 2 * h);
        } else {
            lemma_small_powers(h);
        }
    }
}

/// Rounding a 16-aligned offset up to a larger alignment `a` moves it by a
/// multiple of 16, and one more step of `a` keeps it aligned.
pub proof fn lemma_align_up(off: int, a: int)
    requires
        off >= 0,
        off % 16 == 0,
        a % 16 == 0,
        a > 16,
    ensures
        0 <= off % a < a,
        (off % a) % 16 == 0,
        off % a > 0 ==> (off + (a - off % a)) % a == 0 && (off + (a - off % a) + a) % a == 0,
{
    let q = off / a;
    let rem = off % a;
    lemma_fundamental_div_mod(off, a);
    let a2 = a / 16;
    let o2 = off / 16;
    assert(a == 16 * a2);
    assert(off == 16 * o2);
    assert(rem == 16 * (o2 - a2 * q)) by (nonlinear_arith)
        requires
            off == a * q + rem,
            a == 16 * a2,
            off == 16 * o2,
    ;
    assert(off + (a - rem) == (q + 1) * a) by (nonlinear_arith)
        requires
            off == a * q + rem,
    ;
    assert(off + (a - rem) + a == (q + 2) * a) by (nonlinear_arith)
        requires
            off == a * q + rem,
    ;
    lemma_mod_multiples_basic(q + 1, a);
    lemma_mod_multiples_basic(q + 2, a);
}

/// The chunk size for a request of `size` bytes.
pub fn request_chunk_size(size: usize) -> (r: usize)
    requires
        size <= MAX_FOOTPRINT,
    ensures
        r as int == chunk_size_for(size as int),
{
    let r: usize = (size + HEADER + ALIGNMENT - 1) / ALIGNMENT * ALIGNMENT;
    if r < MIN_CHUNK {
        MIN_CHUNK
    } else {
        r
    }
}

/// `n` rounded up to whole pages.
pub fn round_to_pages(n: usize) -> (r: usize)
    requires
        n <= MAX_FOOTPRINT,
    ensures
        r as int == round_up(n as int, PAGE as int),
        n <= r < n + PAGE,
        r % PAGE == 0,
{
    proof {
        lemma_round_up(n as int, 4096);
    }
    (n + PAGE - 1) / PAGE * PAGE
}

} // verus!

//! A chunk allocator engine. Its heap is an arena of bytes that grows page
//! by page from a backing provider, up to a limit; addresses are offsets into
//! that arena. Chunk metadata (address, size, in-use flag) is kept in a table
//! beside the arena, in address order.
//!
//! - `chunk`: chunk layout constants and request-size arithmetic.
//! - `heap`: the engine: best-fit reuse of free chunks, splitting,
//!   coalescing of free neighbours, a top chunk grown from the provider,
//!   aligned allocation, resizing in place or by moving, and byte access.
//! - `laws`: properties that hold across sequences of operations.
pub mod chunk;
pub mod heap;
pub mod laws;

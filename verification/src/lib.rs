//! Architectural-state substrate for a CPU emulator: an x86-style register
//! file with bit-accurate aliasing between overlapping register views, and a
//! byte-addressable sparse memory with lazily allocated, self-merging
//! segments.

pub mod bits;
pub mod codec;
pub mod wide;
pub mod cell;
pub mod registers;
pub mod selector;
pub mod memory;

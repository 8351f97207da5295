//! A gap buffer: a growable container that keeps its contents in two
//! contiguous regions (front and back) separated by spare capacity (the
//! "gap"), giving cheap insertion and removal next to the gap.
//!
//! The crate is layered bottom-up:
//! - [`raw::RawBuf`] owns the single backing allocation and knows nothing
//!   about which bytes are live;
//! - [`buffer::GapBuffer`] splits that allocation into front region, gap and
//!   back region, and offers double-ended pushes and pops, random access,
//!   gap repositioning and a growth policy;
//! - [`gap_vec::GapVec`] is the element-generic counterpart of the byte
//!   buffer;
//! - [`string::GapString`] wraps a byte gap buffer and maintains the
//!   invariant that both live regions are valid UTF-8.

pub mod buffer;
pub mod codec;
pub mod gap_vec;
pub mod raw;
pub mod string;

//! A Huffman coder whose behaviour is proved: a frequency table, a greedy
//! tree builder with a fixed tie-break rule, a code generator, a bit packer
//! and its decoder, and a stored form for a tree with its packed stream.
//! Beside it, readers for the fixed-layout records of an archive directory.
use vstd::prelude::*;

pub mod bits;
pub mod frequency;
pub mod huffman;
pub mod bitstream;
pub mod coder;
pub mod container;
pub mod ziparchive;

verus! {

} // verus!

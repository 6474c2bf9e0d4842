//! Pairwise sequence alignment (Smith-Waterman and Needleman-Wunsch with affine
//! gaps) and nucleotide-to-protein translation, with verified contracts.

pub mod alignment;
pub mod fna2faa;
pub mod scoring;
pub mod text;
pub mod translation;

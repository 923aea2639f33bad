//! A small laboratory for Ligero-style tests over a tiny prime field:
//! field arithmetic, Reed–Solomon encoding and decoding, and the
//! proximity, multiplication and linear tests on a tableau of codewords.

pub mod field;
pub mod rs_code;
mod elimination;
mod roots;
pub mod ligero_mini;
pub mod experiment;

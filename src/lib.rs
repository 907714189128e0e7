//! Strided arrays of rank zero to four over borrowed or owned buffers, with
//! broadcasting element-wise arithmetic, strided copy and matrix product that
//! route their inner loops through a BLAS-style capability.
//!
//! - `dim`, `shape_stride`: the dimension vector and the shape/stride model.
//! - `layout`: what an in-place pass over a strided layout does to a buffer.
//! - `blas`: the BLAS capability and its CPU implementation.
//! - `matrix`: owned arrays and the views the operations work on.
//! - `copy_from`: the strided-copy engine.
//! - `elementwise`, `add`, `mul`: the broadcast engine, element-wise addition
//!   and multiplication, and the matrix product.
//! - `clip`: clamping and its mask.
//! - `theorems`: facts that follow from the operations' contracts.
pub mod num;
pub mod dim;
pub mod shape_stride;
pub mod blas;
pub mod layout;
pub mod matrix;
pub mod copy_from;
pub mod elementwise;
pub mod add;
pub mod mul;
pub mod clip;
pub mod theorems;

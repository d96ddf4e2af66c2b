//! Dense row-major matrices whose element arithmetic is supplied by the caller.
//!
//! `DMat` carries its shape at run time and checks it on every binary
//! operation; `Mat` carries its shape in its type.
pub mod dmat;
pub mod error;
pub mod mat;
pub mod scalar;

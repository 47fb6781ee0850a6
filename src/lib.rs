//! Erasure coding of files by exact polynomial interpolation over big integers.
//!
//! A file is split into data fragments; each fragment, framed by the codec,
//! is one evaluation of an implicit integer polynomial, and erasure fragments
//! are further evaluations of it. Any missing fragment is recomputed from
//! enough known ones by Lagrange interpolation.

pub mod bignum;
pub mod block;
pub mod cli;
pub mod codec;
pub mod error;
pub mod fitter;
pub mod interp;
pub mod manifest;
pub mod manager;
pub mod names;
pub mod ratio;
pub mod sign_serde;

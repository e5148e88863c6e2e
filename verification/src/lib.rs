//! Threshold secret sharing over GF(256): splitting a byte string into
//! shares, recovering it from a quorum, share authentication, and a
//! versioned envelope that carries a MIME type next to the secret.
//!
//! The arithmetic is in [`gf256`] and [`polynomial`]. A share and its text
//! form are in [`share`] and [`codec`], its signature in [`auth`]. [`split`]
//! and [`recover`] work on shares; [`sss`], [`wrapped`] and [`dss`] are the
//! operations on secrets: plain, in an envelope, and reproducible. What
//! holds of splitting and recovery together is stated and proved in
//! [`laws`].

pub mod auth;
pub mod codec;
pub mod digest;
pub mod dss;
pub mod entropy;
pub mod error;
pub mod gf256;
pub mod laws;
pub mod polynomial;
pub mod recover;
pub mod share;
pub mod split;
pub mod sss;
pub mod util;
pub mod wire;
pub mod wrapped;

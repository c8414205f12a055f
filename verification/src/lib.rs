//! Verified core of a small telemetry uploader: public-key cache and
//! credential verification pipeline, plus derivation of a stable document
//! identifier from a timestamp.
//!
//! The modules hold the logic only; reading files, talking to the network
//! and the process entry point live outside the library and hand plain
//! values in and out.

pub mod cache;
pub mod codec;
pub mod credential;
pub mod docid;
pub mod keyset;

//! A reliable, ordered byte-stream transport over an unreliable datagram
//! channel: a KCP-style ARQ engine with stream multiplexing and an optional
//! AEAD layer. Every item of this crate is verified; time, randomness and I/O
//! are handed in by the caller as plain values.
//!
//! The modules, from the wire up:
//! - `wire`, `segment`: the byte layout of integers and segments;
//! - `config`, `rtt`: the options of an engine and its round-trip estimate;
//! - `receiver`, `sender`, `schedule`, `packer`: the two halves of an
//!   engine, what a flush sends, and how it fills datagrams;
//! - `kcp`: the engine of one stream, with the stream's life;
//! - `stream`, `mux`: the byte-stream view of an engine, and the streams of
//!   one peer by conversation id;
//! - `crypto`: the sealing and opening of datagrams;
//! - `session`: the peers of a socket that serves many;
//! - `laws`: what holds across these, proved.

pub mod error;
pub mod wire;
pub mod segment;
pub mod config;
pub mod rtt;
pub mod packer;
pub mod receiver;
pub mod sender;
pub mod schedule;
pub mod kcp;
pub mod laws;
pub mod crypto;
pub mod stream;
pub mod mux;
pub mod session;

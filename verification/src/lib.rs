//! Aster: a peer-to-peer group with a shared music library.
//!
//! This crate is the decision logic of the program: vector clocks,
//! authenticated causal broadcast, decentralized group membership, the join
//! and sync protocols, file streaming, and what the terminal interface shows.

pub mod acb;
pub mod app;
pub mod audio;
pub mod bytes;
pub mod clock;
pub mod codec;
pub mod convergence;
pub mod delivery;
pub mod dgm;
pub mod join;
pub mod join_code;
pub mod key;
pub mod library;
pub mod order;
pub mod profile;
pub mod proto;
pub mod session;
pub mod sort;
pub mod stream;
pub mod sync;
pub mod system;
pub mod text;
pub mod time;
pub mod ui;

//! A local inference engine for mixture-of-experts models.
use vstd::prelude::*;

pub mod compact;
pub mod digest;
pub mod expert;
pub mod format;
pub mod gguf;
pub mod grid;
pub mod hardware;
pub mod hub;
pub mod json;
pub mod message;
pub mod placement;
pub mod rocm;
pub mod runner;
pub mod scale;
pub mod server;
pub mod setup;
pub mod stream;
pub mod text;
pub mod tune;

verus! {

} // verus!

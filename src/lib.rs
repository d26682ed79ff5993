use vstd::prelude::*;

pub mod agent;
pub mod chunkio;
pub mod controller;
pub mod dashboard;
pub mod drives;
pub mod fsmeta;
pub mod natclass;
pub mod paths;
pub mod placement;
pub mod requests;
pub mod table;
pub mod text;
pub mod wgconf;

verus! {

/// Size of every chunk of a file: 64 KiB.
pub const CHUNK_SIZE: u64 = 65536;

} // verus!

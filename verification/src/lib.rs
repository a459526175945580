use vstd::prelude::*;

pub mod order;
pub mod text;
pub mod turns;
pub mod alignment;
pub mod run_assembly;
pub mod run_engine;
pub mod commands;
pub mod repository;
pub mod hallucination;
pub mod devices;

verus! {

} // verus!

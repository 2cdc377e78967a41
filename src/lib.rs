//! A layered keyboard remapping engine: a decision table from modifier state
//! and key event to output, and a tracker that retracts stale key presses
//! when a layer changes while keys are held.
pub mod keys;
pub mod remap;
pub mod engine;

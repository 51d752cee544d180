//! A small push-based reactive value-propagation graph.
//!
//! Sources live in a [`rudoku::Graph`]; values derived from them are pulled
//! through handles, and every mutation of a source notifies the observers
//! that subscribed to it.
pub mod laws;
pub mod rudoku;
pub mod text;

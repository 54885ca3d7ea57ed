//! An online engine that abstracts a stream of events into a hierarchy of
//! discrete symbols, each level working at a coarser timescale than the one
//! below.
//!
//! This crate is the symbolic side of the engine. It counts categories and
//! their successions, assigns each event to the rarest category it falls
//! into, decides where a segment ends, keeps the episodic memory of each
//! level, resamples the trajectory of a finished segment, and orders the
//! levels. Where the categories lie in feature space, and what point stands
//! for a finished segment, is numerical work that the caller does: the crate
//! is told which categories an event falls into and tells which one it chose.

pub mod abstraction;
pub mod categorization;
pub mod concept_symbol;
pub mod dimension;
pub mod loader;
pub mod markov_model;
pub mod perception;
pub mod segmentation;

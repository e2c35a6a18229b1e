//! A text-processing pipeline runtime.
//!
//! A pipeline is a tree that alternates serial and parallel composition of
//! commands. Commands are dispatched to modules held by a registry; every
//! byte buffer that crosses a stage boundary lives in an arena owned by the
//! host allocator; named resources are reference counted and materialized
//! on first claim.

pub mod allocator;
pub mod bytes;
pub mod engine;
pub mod file;
pub mod interface;
pub mod json;
pub mod module;
pub mod pipeline;
pub mod registry;
pub mod resources;
pub mod run;

//! Core logic for keeping URLs archived in a public web archive.
//!
//! The crate decides whether an existing snapshot of a URL is fresh enough,
//! classifies the archive service's responses to snapshot requests, drives
//! retry and fallback policy as a state machine, and maintains a durable
//! URL-to-outcome cache with periodic checkpoints.  All network and file
//! traffic is performed by the surrounding application; this crate holds the
//! policy and the data formats, verified.

pub mod availability;
pub mod cache;
pub mod codec;
pub mod outcome;
pub mod pipeline;
pub mod requester;
pub mod resolver;
pub mod text;
pub mod timestamp;
pub mod url;

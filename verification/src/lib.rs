//! Core engine of a concurrent TCP port scanner.
//!
//! The engine statically partitions the port space across a fixed pool of
//! workers (every N-th port, offset by worker index), lets each worker probe
//! its slice in increasing order, funnels every open port through one shared
//! multi-producer single-consumer channel, and has a single collector drain
//! the channel and produce the final sorted report.
//!
//! The modules hold, in order of the data flow: the validated configuration
//! ([`config`]), the partition and each worker's probe sequence
//! ([`partition`]), the classification of one connect attempt ([`connector`]),
//! the channel lifecycle and the collector ([`collector`]), and the engine
//! run end to end against a modeled endpoint ([`scan`]).

pub mod collector;
pub mod config;
pub mod connector;
pub mod partition;
pub mod scan;

//! Discrete-event simulation of component flow networks.
//!
//! A network is a directed graph of actors: sources make tokens,
//! transformers keep them for a while, broadcasts split them among
//! clients in the ratio of integer weights, sinks keep them for good.
//! Every token records the queues it entered.  A scheduler makes the
//! deliveries in the order of time; the analyzer folds the records of the
//! tokens into statistics per actor and product.
//!
//! - [`engine`]: tokens, queues, the scheduler, the actors, and the
//!   simulation as a whole with what holds of every run.
//! - [`parser`]: from the description of a network to actors that can run.
//! - [`analyzer`]: from timelines to lifetimes, entries and occupancy.
//! - [`utils`]: cyclic samplers and the Halton sequence.

pub mod analyzer;
pub mod engine;
pub mod parser;
pub mod utils;

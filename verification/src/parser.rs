//! From a described network to a network that can run: the codes of
//! products and actors, the actors themselves and the edges between them.

pub mod actors_parser;
pub mod codes;
pub mod time_distribution_parser;
pub mod yaml_parser;

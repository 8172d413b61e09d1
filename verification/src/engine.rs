//! The simulation engine: tokens, queues, the scheduler and the actors.

pub mod actors;
pub mod driver;
pub mod fifo;
pub mod histories;
pub mod scheduler;
pub mod simulation;
pub mod tokens;

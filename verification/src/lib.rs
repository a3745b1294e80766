//! A verified core for a data loader that turns game files into chess positions:
//! reading the games in batches, sharing out their decoding among workers, mixing
//! the positions in a bounded buffer and shuffling each full buffer.
//!
//! Every decision of the loader is a function with a contract, and [`pipeline`]
//! states what holds of the stages together. Opening files, spawning threads and
//! passing messages is left to the caller.
pub mod args;
pub mod board;
pub mod buffer;
pub mod convert;
pub mod loader;
pub mod pipeline;
pub mod read;
pub mod rng;
pub mod shuffle;
pub mod stages;

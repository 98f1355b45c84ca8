//! A pipeline that turns time-use survey records into a per-day, per-time-block
//! activity encoding, persists the encoding in a compact binary format, and
//! builds a Markov-style transition model over activity categories from it.

pub mod blocks;
pub mod category;
pub mod codec;
pub mod error;
pub mod pipeline;
pub mod records;
pub mod state_space;
pub mod timeparse;

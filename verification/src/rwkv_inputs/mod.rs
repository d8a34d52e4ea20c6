//! The inputs of the RWKV model: the review history replayed in order, each
//! review encoded as the model reads it, and the history's hash chain.

pub mod bytes;
pub mod lookup;
pub mod stream;
pub mod published;
pub mod history_hash;
pub mod replay;
pub mod columns;
pub mod inputs;
pub mod job;

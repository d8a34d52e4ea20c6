//! The study queue: which cards are shown today, and in what order.

pub mod model;
pub mod limits;
pub mod rwkv;
pub mod builder;
pub mod gathering;
pub mod collect;
pub mod new_cards;
pub mod merge;
pub mod assemble;

//! The scheduling core of a spaced-repetition collection: review logs,
//! due dates, study queues, and the replay encoding of review histories.

pub mod card;
pub mod collection;
pub mod memory;
pub mod due_date;
pub mod fsrs_reviews;
pub mod auto_optimize;
pub mod predictions;
pub mod revlog;
pub mod sort;
pub mod queue;
pub mod rwkv_inputs;
pub mod rwkv_curve_recall;
pub mod fsrs_batch;
pub mod params_progress;
pub mod grade_now;
pub mod stale_presets;

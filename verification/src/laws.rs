//! What the operations are for, stated over the fields of the state.

pub mod creation;
pub mod fair;
pub mod progress;
pub mod reporting;
pub mod selection;
pub mod sharing;
pub mod timing;
pub mod waiting;

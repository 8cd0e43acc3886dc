//! What most users of the library need.

pub use crate::brain::Brain;
pub use crate::config::{BrainConfig, ReplyRate};
pub use crate::error::{Error, Result};
pub use crate::stats::BrainStats;

//! Data handling for a dinghy sail tracker: turning sensor and GPS readings
//! into the rows of a CSV log, and keeping time since boot.

pub mod clock;
pub mod number;
pub mod rows;
pub mod gps;

//! Core logic of a temperature-driven lighting controller: a fixed-capacity
//! moving average over sensor samples, threshold-ordered level matching, and
//! the hysteresis that avoids re-applying an unchanged level.
//!
//! Temperatures are carried as integer millidegrees (the raw unit of hwmon
//! `temp*_input` files), so every computation here is exact integer
//! arithmetic; averages are kept as an exact (sum, count) pair.

pub mod applier;
pub mod average;
pub mod level;
pub mod temp;

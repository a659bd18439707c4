//! Work and idle tracking with break reminders.
//!
//! The crate holds the decision logic of a personal break reminder: a codec
//! for short human-readable durations, the reminder rules with their
//! thresholds, and the scheduler that turns a stream of idle-time samples
//! into a working/idle status, accumulated screen time and prompts.
//! Everything here works on plain values; clocks, the operating system and
//! the user interface belong to the caller.

pub mod decimal;
pub mod hours;
pub mod meeting;
pub mod number;
pub mod rules;
pub mod scheduler;
pub mod text;
pub mod time;

//! Deciding whether one line is selected, and what of it is kept.
pub mod relaxed;
pub mod strict;

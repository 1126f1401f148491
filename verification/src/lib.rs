//! A line-oriented text searcher: finds the lines of a text that hold a
//! pattern (as a plain substring or as a whole word), optionally ignoring
//! ASCII case, inverting the selection, capping the number of hits and
//! widening each hit with the lines around it.
pub mod args;
pub mod errors;
pub mod text;
pub mod matching;
pub mod intervals;
pub mod fileprocessing;
pub mod report;
pub mod laws;

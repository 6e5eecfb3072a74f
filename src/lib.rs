//! A small glob-like pattern engine: patterns are compiled into tokens that
//! borrow from the pattern text, and candidates are matched against those
//! tokens greedily, from left to right, without backtracking.

pub mod token;
pub mod matcher;
pub mod vector;

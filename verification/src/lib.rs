//! Verified solvers for a series of small puzzles.
//!
//! The centrepiece is [`days::sixteen`], a bit-granular decoder and evaluator
//! for a hex-encoded stream of nested, self-describing packets.  The other
//! day modules each solve one self-contained puzzle over a plain text input.
//! Every solver takes the puzzle input as a string and returns either the
//! answer rendered in decimal or a typed error; none of them panics.

pub mod aoc_error;
pub mod days;
pub mod text;

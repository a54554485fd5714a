//! One module per puzzle day.  Each module exposes `part_one` and `part_two`,
//! taking the raw puzzle input and returning the answer rendered in decimal,
//! or a typed [`crate::aoc_error::AocError`].

pub mod one;
pub mod two;
pub mod three;
pub mod four;
pub mod five;
pub mod six;
pub mod seven;
pub mod eight;
pub mod nine;
pub mod ten;
pub mod eleven;
pub mod thirteen;
pub mod sixteen;

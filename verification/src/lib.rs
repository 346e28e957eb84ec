//! Simai (maimai) chart syntax: the lexer and fragment parser for chart
//! bodies, the `&KEY=VALUE` block structure of `maidata.txt` files, and the
//! text renderer used when charts are written back out.
//!
//! The library works on the text itself: byte positions, buttons, pattern
//! characters, modifiers and the exact output characters. Timing (measures,
//! BPM values, fractional durations) is carried as the source text of each
//! number, so that a caller can evaluate it with whatever numeric type it uses.

use vstd::prelude::*;

pub mod arith;
pub mod chart_text;
pub mod error;
pub mod fragment;
pub mod fragment_round_trip;
pub mod lexer;
pub mod locate;
pub mod maidata;
pub mod maidata_round_trip;
pub mod pattern;
pub mod render;
pub mod text;

pub use error::{err, ParseError};
pub use pattern::SlidePattern;

verus! {

/// `String::push` appends one `char` to the end of the string, as its
/// documentation says; nothing else about the string changes.
pub assume_specification[ String::push ](string: &mut String, ch: char)
    ensures
        final(string)@ == old(string)@.push(ch),
;

} // verus!

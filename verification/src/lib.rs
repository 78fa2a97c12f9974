//! A small line matcher in the manner of `grep -E`: a pattern string is
//! compiled into lists of single-character matchers (one list per
//! alternative), and a line is searched for a place where one list matches.

pub mod matcher;
pub mod alternatives;
pub mod compile;
pub mod search;
pub mod laws;
pub mod sequences;

use vstd::prelude::*;
use crate::compile::{compile_pattern, compiled_alternatives, is_anchored};
use crate::search::{SearchError, search, test_pattern};

verus! {

/// Whether the line `input_line` matches the pattern `raw_pattern`: the
/// pattern is compiled, then the line is searched for it.
pub fn match_line(raw_pattern: &str, input_line: &str) -> (r: Result<bool, SearchError>)
    ensures
        r == search(compiled_alternatives(raw_pattern@), input_line@, is_anchored(raw_pattern@)),
{
    let compiled = compile_pattern(raw_pattern);
    test_pattern(input_line, compiled.alternatives.as_slice(), compiled.on_start)
}

} // verus!

//! Recognize local path text under a terminal display column, without
//! filesystem I/O.

use vstd::prelude::*;
use vstd::string::*;
use crate::scan::{path_match_chars, path_match_spec};
use crate::text::{byte_offset, byte_offset_of, chars_of};

pub use crate::file_uri::path_from_file_uri;

verus! {

/// A recognized path and its visible byte range in the input logical line.
#[derive(Debug, PartialEq, Eq)]
pub struct PathMatch {
    pub path: String,
    pub byte_range: std::ops::Range<usize>,
}

impl Clone for PathMatch {
    fn clone(&self) -> (res: Self)
        ensures
            res == *self,
    {
        PathMatch {
            path: self.path.clone(),
            byte_range: std::ops::Range { start: self.byte_range.start, end: self.byte_range.end },
        }
    }
}

/// Find a path and the exact byte span to underline at a display column.
/// Source location suffixes remain in the span; prose punctuation and quotes do
/// not. Markdown matches span the entire link, including its label.
pub fn path_match_at_column(line: &str, col: u16) -> (res: Option<PathMatch>)
    ensures
        res is Some <==> path_match_spec(line@, col as int) is Some,
        res matches Some(m) ==> {
            let (p, s, e) = path_match_spec(line@, col as int)->0;
            &&& m.path@ == p
            &&& m.byte_range.start == byte_offset(line@, s)
            &&& m.byte_range.end == byte_offset(line@, e)
        },
{
    let cs = chars_of(line);
    match path_match_chars(cs.as_slice(), col) {
        None => None,
        Some((pa, pe, s, e)) => {
            let path = line.substring_char(pa, pe).to_owned();
            let start = byte_offset_of(line, cs.as_slice(), s);
            let end = byte_offset_of(line, cs.as_slice(), e);
            Some(PathMatch { path, byte_range: std::ops::Range { start, end } })
        },
    }
}

/// Find a local path under a zero-based terminal display column.
///
/// Quoted paths may contain spaces. Markdown links also match clicks on their
/// label. Input must be one logical line, without ANSI escape sequences.
pub fn path_at_column(line: &str, col: u16) -> (res: Option<String>)
    ensures
        res is Some <==> path_match_spec(line@, col as int) is Some,
        res matches Some(p) ==> p@ == (path_match_spec(line@, col as int)->0).0,
{
    match path_match_at_column(line, col) {
        Some(matched) => Some(matched.path),
        None => None,
    }
}

} // verus!

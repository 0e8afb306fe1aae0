use vstd::prelude::*;

use crate::strtok::split_around;
use crate::text::{find_char, first_occurrence};

verus! {

/// Splits `s` at the first `sep` into the text before it and the text
/// after it; `None` where `s` holds no `sep`.
pub fn split(s: &str, sep: char) -> (r: Option<(&str, &str)>)
    ensures
        match first_occurrence(s@, sep) {
            Some(k) => r matches Some(p) && p.0@ == s@.take(k) && p.1@ == s@.skip(k + 1),
            None => r is None,
        },
{
    match find_char(s, sep) {
        Some(pos) => Some(split_around(s, sep, pos)),
        None => None,
    }
}

} // verus!

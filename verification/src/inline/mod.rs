pub mod temp_str;
pub mod text;

use vstd::prelude::*;

use crate::types::{Inline, NoMatch};

verus! {

/// The inline recognizer. Of the inline grammar this library carries only
/// the plain-text recognizer, which takes the whole remaining input as one
/// text node; richer inline markup is the concern of a separate recognizer.
pub fn inline<'a>(input: &'a str) -> (r: Result<(&'a str, Inline), NoMatch>)
    ensures
        r matches Ok(p) ==> ({
            &&& p.0@ == Seq::<char>::empty()
            &&& p.1 matches Inline::Text(t) && t@ == input@
        }),
        r is Ok,
{
    text::text(input)
}

} // verus!

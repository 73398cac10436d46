use vstd::prelude::*;

use crate::types::{Inline, NoMatch};

verus! {

/// A stand-in text recognizer: takes the whole remaining input as one
/// `Inline::Text` node. Never fails and never leaves input behind.
pub fn temp_str<'a>(input: &'a str) -> (r: Result<(&'a str, Inline), NoMatch>)
    ensures
        r matches Ok(p) ==> ({
            &&& p.0@ == Seq::<char>::empty()
            &&& p.1 matches Inline::Text(t) && t@ == input@
        }),
        r is Ok,
{
    let len = input.unicode_len();
    let rest = input.substring_char(len, len);
    proof {
        assert(rest@ =~= Seq::<char>::empty());
    }
    Ok((rest, Inline::Text(String::from_str(input))))
}

} // verus!

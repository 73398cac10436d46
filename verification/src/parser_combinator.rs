use vstd::prelude::*;

verus! {

/// There is a suffix value of `s` starting at `i` on which the terminator
/// `f` can return `false`. The scanner's contract states this of every
/// position it skipped, so a terminator with an exact postcondition lets the
/// caller conclude that no earlier position matched.
pub open spec fn scan_miss<'a, F: Fn(&'a str) -> bool>(s: Seq<char>, i: int, f: F) -> bool {
    exists|t: &'a str|
        t@ == s.subrange(i, s.len() as int) && call_ensures(f, (t,), false)
}

/// The bounded backtracking scanner: consumes the minimal prefix of `input`
/// such that `terminator` succeeds at the position immediately after it, and
/// returns `(remainder, consumed_prefix)` without consuming the terminator's
/// own match. Candidate split positions `0, 1, ..., len - 1` are tried in
/// increasing order; if the terminator never succeeds the whole input is
/// consumed and the remainder is empty.
///
/// The scanner itself never fails, always terminates (the loop has an
/// explicit `decreases`), and the two returned slices concatenate back to
/// exactly the original input.
pub fn take_except<'a, F: Fn(&'a str) -> bool>(input: &'a str, terminator: F) -> (r: (
    &'a str,
    &'a str,
))
    requires
        forall|s: &'a str| #[trigger] call_requires(terminator, (s,)),
    ensures
        ({
            let k = r.1@.len() as int;
            &&& k <= input@.len()
            &&& r.1@ == input@.subrange(0, k)
            &&& r.0@ == input@.subrange(k, input@.len() as int)
            &&& r.1@ + r.0@ == input@
            &&& forall|i: int| 0 <= i < k ==> #[trigger] scan_miss(input@, i, terminator)
            &&& k < input@.len() ==> call_ensures(terminator, (r.0,), true)
        }),
{
    let len = input.unicode_len();
    let mut i: usize = 0;
    while i < len
        invariant
            i <= len,
            len == input@.len(),
            forall|s: &'a str| #[trigger] call_requires(terminator, (s,)),
            forall|j: int| 0 <= j < i ==> #[trigger] scan_miss(input@, j, terminator),
        decreases len - i,
    {
        let rest = input.substring_char(i, len);
        if terminator(rest) {
            let front = input.substring_char(0, i);
            proof {
                assert(front@ + rest@ =~= input@);
            }
            return (rest, front);
        }
        proof {
            assert(scan_miss(input@, i as int, terminator));
        }
        i += 1;
    }
    let front = input.substring_char(0, len);
    let rest = input.substring_char(len, len);
    proof {
        assert(front@ + rest@ =~= input@);
    }
    (rest, front)
}

} // verus!

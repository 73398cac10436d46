use vstd::prelude::*;

verus! {

/// Length of the run of the character `ch` in `s` starting at position `i`
/// (0 when `i` is out of bounds or `s[i]` is another character).
pub open spec fn run_len(s: Seq<char>, i: int, ch: char) -> nat
    decreases s.len() - i,
{
    if i < 0 || i >= s.len() || s[i] != ch {
        0
    } else {
        1 + run_len(s, i + 1, ch)
    }
}

/// Number of characters from position `i` up to (not including) the next
/// line break, or up to the end of `s` if no line break follows.
pub open spec fn line_len(s: Seq<char>, i: int) -> nat
    decreases s.len() - i,
{
    if i < 0 || i >= s.len() || s[i] == '\n' {
        0
    } else {
        1 + line_len(s, i + 1)
    }
}

pub proof fn lemma_run_len_bounds(s: Seq<char>, i: int, ch: char)
    requires
        0 <= i <= s.len(),
    ensures
        i + run_len(s, i, ch) <= s.len(),
        forall|j: int| i <= j < i + run_len(s, i, ch) ==> s[j] == ch,
        i + run_len(s, i, ch) < s.len() ==> s[i + run_len(s, i, ch)] != ch,
    decreases s.len() - i,
{
    if i < s.len() && s[i] == ch {
        lemma_run_len_bounds(s, i + 1, ch);
    }
}

pub proof fn lemma_line_len_bounds(s: Seq<char>, i: int)
    requires
        0 <= i <= s.len(),
    ensures
        i + line_len(s, i) <= s.len(),
        forall|j: int| i <= j < i + line_len(s, i) ==> s[j] != '\n',
        i + line_len(s, i) < s.len() ==> s[i + line_len(s, i)] == '\n',
    decreases s.len() - i,
{
    if i < s.len() && s[i] != '\n' {
        lemma_line_len_bounds(s, i + 1);
    }
}

/// A run of exactly `k` characters `ch` at `a`, ended by a different
/// character or the end of `s`, has `run_len` exactly `k`.
pub proof fn lemma_run_len_exact(s: Seq<char>, a: int, k: int, ch: char)
    requires
        0 <= a,
        0 <= k,
        a + k <= s.len(),
        forall|j: int| a <= j < a + k ==> s[j] == ch,
        a + k == s.len() || s[a + k] != ch,
    ensures
        run_len(s, a, ch) == k,
    decreases k,
{
    if k > 0 {
        lemma_run_len_exact(s, a + 1, k - 1, ch);
    }
}

/// A line of exactly `k` characters at `a`, ended by a line break or the end
/// of `s`, has `line_len` exactly `k`.
pub proof fn lemma_line_len_exact(s: Seq<char>, a: int, k: int)
    requires
        0 <= a,
        0 <= k,
        a + k <= s.len(),
        forall|j: int| a <= j < a + k ==> s[j] != '\n',
        a + k == s.len() || s[a + k] == '\n',
    ensures
        line_len(s, a) == k,
    decreases k,
{
    if k > 0 {
        lemma_line_len_exact(s, a + 1, k - 1);
    }
}

/// Skipping `k` characters of a run shortens it by exactly `k`.
pub proof fn lemma_run_len_skip(s: Seq<char>, i: int, k: int, ch: char)
    requires
        0 <= i,
        0 <= k <= run_len(s, i, ch),
    ensures
        run_len(s, i + k, ch) == run_len(s, i, ch) - k,
    decreases k,
{
    if k > 0 {
        lemma_run_len_skip(s, i + 1, k - 1, ch);
    }
}

/// A run measured inside a suffix of `s` is the run at the shifted position.
pub proof fn lemma_run_len_suffix(s: Seq<char>, a: int, j: int, ch: char)
    requires
        0 <= a <= s.len(),
        0 <= j,
    ensures
        run_len(s.subrange(a, s.len() as int), j, ch) == run_len(s, a + j, ch),
    decreases s.len() - a - j,
{
    let sub = s.subrange(a, s.len() as int);
    if j < sub.len() && sub[j] == ch {
        lemma_run_len_suffix(s, a, j + 1, ch);
    }
}

/// Exact run length of `ch` in `s` starting at char position `i`.
pub fn run_len_exec(s: &str, i: usize, ch: char) -> (n: usize)
    requires
        i <= s@.len(),
    ensures
        n == run_len(s@, i as int, ch),
        i + n <= s@.len(),
{
    let len = s.unicode_len();
    let mut j: usize = i;
    while j < len && s.get_char(j) == ch
        invariant
            i <= j <= len,
            len == s@.len(),
            run_len(s@, i as int, ch) == (j - i) + run_len(s@, j as int, ch),
        decreases len - j,
    {
        j += 1;
    }
    j - i
}

/// Exact distance from char position `i` to the next line break or the end.
pub fn line_len_exec(s: &str, i: usize) -> (n: usize)
    requires
        i <= s@.len(),
    ensures
        n == line_len(s@, i as int),
        i + n <= s@.len(),
{
    let len = s.unicode_len();
    let mut j: usize = i;
    while j < len && s.get_char(j) != '\n'
        invariant
            i <= j <= len,
            len == s@.len(),
            line_len(s@, i as int) == (j - i) + line_len(s@, j as int),
        decreases len - j,
    {
        j += 1;
    }
    j - i
}

} // verus!

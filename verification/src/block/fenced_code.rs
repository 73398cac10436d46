use vstd::prelude::*;

use crate::chars::{lemma_run_len_bounds, lemma_run_len_exact, lemma_run_len_suffix, line_len, line_len_exec, run_len, run_len_exec};
use crate::parser_combinator::{scan_miss, take_except};
use crate::types::{Block, NoMatch};

verus! {

// ---------------------------------------------------------------------------
// The closing-fence terminator
// ---------------------------------------------------------------------------
/// A closing fence stands at position `i` of `s`: a line break, then at most
/// three spaces, then a run of the fence character `c` of length at least
/// `n`, then only spaces up to a line break or the end of the input.
pub open spec fn fence_close_at(s: Seq<char>, i: int, c: char, n: int) -> bool {
    &&& 0 <= i < s.len()
    &&& s[i] == '\n'
    &&& ({
        let sp = if run_len(s, i + 1, ' ') < 3 {
            run_len(s, i + 1, ' ') as int
        } else {
            3
        };
        let run = run_len(s, i + 1 + sp, c) as int;
        &&& run >= n
        &&& ({
            let e = i + 1 + sp + run + run_len(s, i + 1 + sp + run, ' ');
            e == s.len() || s[e] == '\n'
        })
    })
}

/// Position just after the closing fence at `i`, its trailing spaces, and
/// its trailing line break (when one is present). Meaningful only when
/// `fence_close_at(s, i, c, n)` holds.
pub open spec fn fence_close_end(s: Seq<char>, i: int, c: char, n: int) -> int {
    let sp = if run_len(s, i + 1, ' ') < 3 {
        run_len(s, i + 1, ' ') as int
    } else {
        3
    };
    let run = run_len(s, i + 1 + sp, c) as int;
    let e = i + 1 + sp + run + run_len(s, i + 1 + sp + run, ' ');
    if e == s.len() {
        e
    } else {
        e + 1
    }
}

/// First position in `i .. s.len()` where a closing fence stands, or
/// `s.len()` when none does.
pub open spec fn close_scan_pos(s: Seq<char>, i: int, c: char, n: int) -> int
    decreases s.len() - i,
{
    if i < 0 || i >= s.len() {
        s.len() as int
    } else if fence_close_at(s, i, c, n) {
        i
    } else {
        close_scan_pos(s, i + 1, c, n)
    }
}

/// Whether a closing fence for fence character `c` and opening length `n`
/// stands at the start of `s`.
pub fn fence_close_here(s: &str, c: char, n: usize) -> (b: bool)
    ensures
        b == fence_close_at(s@, 0, c, n as int),
{
    let len = s.unicode_len();
    if len == 0 || s.get_char(0) != '\n' {
        return false;
    }
    let spr = run_len_exec(s, 1, ' ');
    let sp = if spr < 3 {
        spr
    } else {
        3
    };
    let run = run_len_exec(s, 1 + sp, c);
    if run < n {
        return false;
    }
    let tail = run_len_exec(s, 1 + sp + run, ' ');
    let e = 1 + sp + run + tail;
    e == len || s.get_char(e) == '\n'
}

/// Number of characters the closing fence at the start of `s` occupies,
/// its trailing line break included.
fn fence_close_end_exec(s: &str, c: char, n: usize) -> (e: usize)
    requires
        fence_close_at(s@, 0, c, n as int),
    ensures
        e == fence_close_end(s@, 0, c, n as int),
        e <= s@.len(),
{
    let len = s.unicode_len();
    let spr = run_len_exec(s, 1, ' ');
    let sp = if spr < 3 {
        spr
    } else {
        3
    };
    let run = run_len_exec(s, 1 + sp, c);
    let tail = run_len_exec(s, 1 + sp + run, ' ');
    let e = 1 + sp + run + tail;
    if e == len {
        e
    } else {
        e + 1
    }
}

/// A closing fence seen in a suffix of `s` is a closing fence of `s` at the
/// shifted position, and occupies the same characters.
pub proof fn lemma_fence_close_suffix(s: Seq<char>, a: int, j: int, c: char, n: int)
    requires
        0 <= a <= s.len(),
        0 <= j,
    ensures
        fence_close_at(s.subrange(a, s.len() as int), j, c, n) == fence_close_at(s, a + j, c, n),
        fence_close_at(s, a + j, c, n) ==> fence_close_end(s.subrange(a, s.len() as int), j, c, n)
            == fence_close_end(s, a + j, c, n) - a,
{
    let sub = s.subrange(a, s.len() as int);
    if 0 <= a + j < s.len() {
        lemma_run_len_suffix(s, a, j + 1, ' ');
        let sp = if run_len(s, a + j + 1, ' ') < 3 {
            run_len(s, a + j + 1, ' ') as int
        } else {
            3
        };
        lemma_run_len_suffix(s, a, j + 1 + sp, c);
        let run = run_len(s, a + j + 1 + sp, c) as int;
        lemma_run_len_suffix(s, a, j + 1 + sp + run, ' ');
        let tail = run_len(s, a + j + 1 + sp + run, ' ') as int;
        let e = a + j + 1 + sp + run + tail;
        lemma_run_len_bounds(s, a + j + 1, ' ');
        lemma_run_len_bounds(s, a + j + 1 + sp, c);
        lemma_run_len_bounds(s, a + j + 1 + sp + run, ' ');
        assert(e <= s.len());
        assert(sub[j] == s[a + j]);
        if e - a < sub.len() {
            assert(sub[e - a] == s[e]);
        }
    }
}

/// Fence-length monotonicity. A candidate closing line — a line break, `sp`
/// spaces of indentation (at most three), a run of `m` characters `d`, and
/// `t` trailing spaces up to a line break or the end of the input — closes a
/// block opened by `n` characters `c` exactly when the character matches and
/// the run is at least as long as the opening fence: a longer run of the
/// same character also closes the block, while a shorter run or a different
/// character does not (the scanner then treats the line as content).
pub proof fn lemma_fence_length_monotonicity(
    s: Seq<char>,
    i: int,
    c: char,
    n: int,
    d: char,
    sp: int,
    m: int,
    t: int,
)
    requires
        0 <= i,
        i + 1 + sp + m + t <= s.len(),
        s[i] == '\n',
        0 <= sp <= 3,
        m >= 1,
        t >= 0,
        n >= 1,
        d != ' ' && d != '\n',
        c != ' ' && c != '\n',
        forall|j: int| i + 1 <= j < i + 1 + sp ==> s[j] == ' ',
        forall|j: int| i + 1 + sp <= j < i + 1 + sp + m ==> s[j] == d,
        forall|j: int| i + 1 + sp + m <= j < i + 1 + sp + m + t ==> s[j] == ' ',
        i + 1 + sp + m + t == s.len() || s[i + 1 + sp + m + t] == '\n',
    ensures
        fence_close_at(s, i, c, n) <==> (d == c && m >= n),
{
    lemma_run_len_exact(s, i + 1, sp, ' ');
    if d == c {
        lemma_run_len_exact(s, i + 1 + sp, m, c);
        lemma_run_len_exact(s, i + 1 + sp + m, t, ' ');
    } else {
        lemma_run_len_exact(s, i + 1 + sp, 0, c);
    }
}

/// `close_scan_pos` returns `k` exactly when no closing fence stands before
/// `k` and one stands at `k` (or `k` is the end of the input).
pub proof fn lemma_close_scan_pos_is(s: Seq<char>, lo: int, k: int, c: char, n: int)
    requires
        0 <= lo <= k <= s.len(),
        forall|i: int| lo <= i < k ==> !fence_close_at(s, i, c, n),
        k < s.len() ==> fence_close_at(s, k, c, n),
    ensures
        close_scan_pos(s, lo, c, n) == k,
    decreases k - lo,
{
    if lo < k {
        lemma_close_scan_pos_is(s, lo + 1, k, c, n);
    }
}

// ---------------------------------------------------------------------------
// Info-string trimming
// ---------------------------------------------------------------------------
/// A character trimmed off the ends of the info string: a space, or the
/// fence character itself (tolerating fence characters at the end of the
/// opening line, as in an opening line whose info text is followed by more
/// fence characters).
pub open spec fn info_trim_char(ch: char, c: char) -> bool {
    ch == ' ' || ch == c
}

pub open spec fn trim_start_matching(s: Seq<char>, c: char) -> Seq<char>
    decreases s.len(),
{
    if s.len() > 0 && info_trim_char(s[0], c) {
        trim_start_matching(s.subrange(1, s.len() as int), c)
    } else {
        s
    }
}

pub open spec fn trim_end_matching(s: Seq<char>, c: char) -> Seq<char>
    decreases s.len(),
{
    if s.len() > 0 && info_trim_char(s[s.len() - 1], c) {
        trim_end_matching(s.subrange(0, s.len() - 1), c)
    } else {
        s
    }
}

/// The info string as recorded: the raw text after the opening fence with
/// spaces and fence characters trimmed from both ends.
pub open spec fn trim_info(s: Seq<char>, c: char) -> Seq<char> {
    trim_end_matching(trim_start_matching(s, c), c)
}

pub proof fn lemma_trim_start_idx(s: Seq<char>, c: char, a: int)
    requires
        0 <= a <= s.len(),
        forall|j: int| 0 <= j < a ==> info_trim_char(s[j], c),
        a < s.len() ==> !info_trim_char(s[a], c),
    ensures
        trim_start_matching(s, c) == s.subrange(a, s.len() as int),
    decreases a,
{
    if a == 0 {
        assert(s.subrange(0, s.len() as int) =~= s);
    } else {
        let tail = s.subrange(1, s.len() as int);
        lemma_trim_start_idx(tail, c, a - 1);
        assert(tail.subrange(a - 1, tail.len() as int) =~= s.subrange(a, s.len() as int));
    }
}

pub proof fn lemma_trim_end_idx(s: Seq<char>, c: char, b: int)
    requires
        0 <= b <= s.len(),
        forall|j: int| b <= j < s.len() ==> info_trim_char(s[j], c),
        b > 0 ==> !info_trim_char(s[b - 1], c),
    ensures
        trim_end_matching(s, c) == s.subrange(0, b),
    decreases s.len(),
{
    if b == s.len() {
        assert(s.subrange(0, b) =~= s);
    } else {
        let head = s.subrange(0, s.len() - 1);
        lemma_trim_end_idx(head, c, b);
        assert(head.subrange(0, b) =~= s.subrange(0, b));
    }
}

// ---------------------------------------------------------------------------
// Per-line indentation stripping
// ---------------------------------------------------------------------------
/// One stripping pass over `s` from position `i`: each line break keeps its
/// place, and one space immediately following a line break is removed.
pub open spec fn strip_from(s: Seq<char>, i: int) -> Seq<char>
    decreases s.len() - i,
{
    if i < 0 || i >= s.len() {
        Seq::empty()
    } else if s[i] == '\n' && i + 1 < s.len() && s[i + 1] == ' ' {
        seq!['\n'] + strip_from(s, i + 2)
    } else {
        seq![s[i]] + strip_from(s, i + 1)
    }
}

/// One stripping pass over the whole of `s`.
pub open spec fn strip_one(s: Seq<char>) -> Seq<char> {
    strip_from(s, 0)
}

/// `k` stripping passes: each pass removes one leading space, where present,
/// from every line after a line break.
pub open spec fn strip_indent(s: Seq<char>, k: nat) -> Seq<char>
    decreases k,
{
    if k == 0 {
        s
    } else {
        strip_indent(strip_one(s), (k - 1) as nat)
    }
}

/// One executable stripping pass.
fn strip_one_pass(s: &str) -> (r: String)
    ensures
        r@ == strip_one(s@),
{
    let len = s.unicode_len();
    let mut out = String::new();
    let mut i: usize = 0;
    while i < len
        invariant
            i <= len,
            len == s@.len(),
            strip_one(s@) == out@ + strip_from(s@, i as int),
        decreases len - i,
    {
        let ghost out0 = out@;
        if s.get_char(i) == '\n' && i + 1 < len && s.get_char(i + 1) == ' ' {
            out.append("\n");
            proof {
                reveal_strlit("\n");
                assert("\n"@ =~= seq!['\n']);
                assert(out0 + (seq!['\n'] + strip_from(s@, i + 2)) =~= (out0 + seq!['\n'])
                    + strip_from(s@, i + 2));
            }
            i += 2;
        } else {
            out.append(s.substring_char(i, i + 1));
            proof {
                assert(s@.subrange(i as int, i + 1) =~= seq![s@[i as int]]);
                assert(out0 + (seq![s@[i as int]] + strip_from(s@, i + 1)) =~= (out0 + seq![
                    s@[i as int],
                ]) + strip_from(s@, i + 1));
            }
            i += 1;
        }
    }
    proof {
        assert(out@ + strip_from(s@, len as int) =~= out@);
    }
    out
}

/// Runs `count` stripping passes over `content`, one pass per column of the
/// opening fence's indentation.
fn remove_spaces(count: usize, content: &str) -> (r: String)
    ensures
        r@ == strip_indent(content@, count as nat),
{
    let mut out = String::from_str(content);
    let mut p: usize = 0;
    while p < count
        invariant
            p <= count,
            strip_indent(content@, count as nat) == strip_indent(out@, (count - p) as nat),
        decreases count - p,
    {
        out = strip_one_pass(out.as_str());
        p += 1;
    }
    out
}

// ---------------------------------------------------------------------------
// The round trip of indentation
// ---------------------------------------------------------------------------
/// `l` is a single line: it contains no line break.
pub open spec fn no_newline(l: Seq<char>) -> bool {
    forall|j: int| 0 <= j < l.len() ==> l[j] != '\n'
}

pub open spec fn wf_lines(ls: Seq<Seq<char>>) -> bool {
    forall|i: int| 0 <= i < ls.len() ==> no_newline(#[trigger] ls[i])
}

/// The document made of the lines `ls`, joined with line breaks.
pub open spec fn unlines(ls: Seq<Seq<char>>) -> Seq<char>
    decreases ls.len(),
{
    if ls.len() == 0 {
        Seq::empty()
    } else if ls.len() == 1 {
        ls[0]
    } else {
        ls[0] + seq!['\n'] + unlines(ls.subrange(1, ls.len() as int))
    }
}

/// One leading space removed from `l`, where present.
pub open spec fn drop_sp(l: Seq<char>) -> Seq<char> {
    if l.len() > 0 && l[0] == ' ' {
        l.subrange(1, l.len() as int)
    } else {
        l
    }
}

/// `k` leading spaces removed from `l`, each where present.
pub open spec fn drop_sp_k(l: Seq<char>, k: nat) -> Seq<char>
    decreases k,
{
    if k == 0 {
        l
    } else {
        drop_sp_k(drop_sp(l), (k - 1) as nat)
    }
}

/// A stripping pass walks unchanged through the line that starts at `i`.
proof fn lemma_strip_from_line(s: Seq<char>, i: int)
    requires
        0 <= i <= s.len(),
    ensures
        strip_from(s, i) == s.subrange(i, i + line_len(s, i)) + strip_from(
            s,
            i + line_len(s, i),
        ),
    decreases line_len(s, i),
{
    crate::chars::lemma_line_len_bounds(s, i);
    if i >= s.len() || s[i] == '\n' {
        assert(s.subrange(i, i) + strip_from(s, i) =~= strip_from(s, i));
    } else {
        lemma_strip_from_line(s, i + 1);
        let j = i + line_len(s, i);
        assert(seq![s[i]] + (s.subrange(i + 1, j) + strip_from(s, j)) =~= s.subrange(i, j)
            + strip_from(s, j));
    }
}

/// A stripping pass over a suffix is the suffix of the stripping pass.
proof fn lemma_strip_from_suffix(s: Seq<char>, a: int, j: int)
    requires
        0 <= a <= s.len(),
        0 <= j,
    ensures
        strip_from(s, a + j) == strip_from(s.subrange(a, s.len() as int), j),
    decreases s.len() - a - j,
{
    let sub = s.subrange(a, s.len() as int);
    if 0 <= a + j < s.len() {
        assert(sub[j] == s[a + j]);
        if j + 1 < sub.len() {
            assert(sub[j + 1] == s[a + j + 1]);
        }
        if s[a + j] == '\n' && a + j + 1 < s.len() && s[a + j + 1] == ' ' {
            lemma_strip_from_suffix(s, a, j + 2);
        } else {
            lemma_strip_from_suffix(s, a, j + 1);
        }
    }
}

/// One stripping pass over a document removes one leading space, where
/// present, from every line after the first.
proof fn lemma_strip_one_unlines(ls: Seq<Seq<char>>)
    requires
        wf_lines(ls),
    ensures
        strip_one(unlines(ls)) == unlines(
            Seq::new(
                ls.len(),
                |i: int|
                    if i == 0 {
                        ls[i]
                    } else {
                        drop_sp(ls[i])
                    },
            ),
        ),
    decreases ls.len(),
{
    let s = unlines(ls);
    let mapped = Seq::new(
        ls.len(),
        |i: int|
            if i == 0 {
                ls[i]
            } else {
                drop_sp(ls[i])
            },
    );
    if ls.len() == 0 {
        assert(mapped =~= Seq::<Seq<char>>::empty());
        assert(strip_one(s) =~= Seq::<char>::empty());
    } else if ls.len() == 1 {
        let l0 = ls[0];
        crate::chars::lemma_line_len_exact(s, 0, l0.len() as int);
        lemma_strip_from_line(s, 0);
        assert(s.subrange(0, l0.len() as int) =~= l0);
        assert(l0 + strip_from(s, l0.len() as int) =~= l0);
        assert(unlines(mapped) == mapped[0]);
    } else {
        let l0 = ls[0];
        let rest = ls.subrange(1, ls.len() as int);
        let p = l0.len() as int;
        assert(s == l0 + seq!['\n'] + unlines(rest));
        assert forall|j: int| 0 <= j < p implies s[j] != '\n' by {
            assert(s[j] == l0[j]);
        }
        assert(s[p] == '\n');
        crate::chars::lemma_line_len_exact(s, 0, p);
        lemma_strip_from_line(s, 0);
        assert(s.subrange(0, p) =~= l0);
        // the suffix after the line break is the rest of the document
        assert(s.subrange(p + 1, s.len() as int) =~= unlines(rest));
        let r0 = rest[0];
        // does a space follow the line break?
        let dropped: bool = p + 1 < s.len() && s[p + 1] == ' ';
        let d: int = if dropped {
            1
        } else {
            0
        };
        if dropped {
            assert(s[p + 1] == unlines(rest)[0]);
            if r0.len() == 0 {
                // an empty first line of the rest is followed by a line
                // break, never by a space
                assert(rest.len() >= 2);
                assert(unlines(rest) == r0 + seq!['\n'] + unlines(
                    rest.subrange(1, rest.len() as int),
                ));
                assert(unlines(rest)[0] == '\n');
                assert(false);
            }
            assert(r0[0] == ' ');
        }
        let ls2 = seq![drop_sp(r0)] + rest.subrange(1, rest.len() as int);
        assert(wf_lines(ls2)) by {
            assert forall|i: int| 0 <= i < ls2.len() implies no_newline(#[trigger] ls2[i]) by {
                if i == 0 {
                    assert(no_newline(r0));
                    assert(forall|j: int| 0 <= j < drop_sp(r0).len() ==> drop_sp(r0)[j] == r0[j
                        + (r0.len() - drop_sp(r0).len())]);
                } else {
                    assert(ls2[i] == ls[i + 1]);
                }
            }
        }
        // the suffix after the (possibly dropped) space is the rest with its
        // first line shortened
        assert(s.subrange(p + 1 + d, s.len() as int) =~= unlines(ls2)) by {
            if rest.len() == 1 {
                assert(unlines(rest) == r0);
                assert(ls2.len() == 1);
                assert(unlines(ls2) == ls2[0]);
            }
            if rest.len() >= 2 {
                assert(unlines(rest) == r0 + seq!['\n'] + unlines(
                    rest.subrange(1, rest.len() as int),
                ));
                assert(ls2.subrange(1, ls2.len() as int) =~= rest.subrange(1, rest.len() as int));
                assert(unlines(ls2) == ls2[0] + seq!['\n'] + unlines(
                    rest.subrange(1, rest.len() as int),
                ));
            }
            if dropped {
                assert(drop_sp(r0) == r0.subrange(1, r0.len() as int));
            } else {
                assert(drop_sp(r0) == r0);
            }
        }
        // one pass over the whole document: the first line, the line break,
        // then one pass over the shortened rest
        lemma_strip_from_suffix(s, p + 1 + d, 0);
        assert(strip_from(s, p + 1 + d) == strip_one(unlines(ls2)));
        lemma_strip_one_unlines(ls2);
        let mapped2 = Seq::new(
            ls2.len(),
            |i: int|
                if i == 0 {
                    ls2[i]
                } else {
                    drop_sp(ls2[i])
                },
        );
        assert(strip_from(s, p) == seq!['\n'] + strip_from(s, p + 1 + d));
        assert(strip_one(s) == l0 + (seq!['\n'] + unlines(mapped2)));
        // the target document has the same shape
        assert(mapped.subrange(1, mapped.len() as int) =~~= mapped2) by {
            assert forall|i: int|
                0 <= i < mapped2.len() implies mapped.subrange(1, mapped.len() as int)[i]
                == mapped2[i] by {
                if i == 0 {
                    assert(mapped[1] == drop_sp(ls[1]) && ls[1] == r0);
                } else {
                    assert(mapped[i + 1] == drop_sp(ls[i + 1]));
                    assert(ls2[i] == rest[i] && rest[i] == ls[i + 1]);
                }
            }
        }
        assert(unlines(mapped) == mapped[0] + seq!['\n'] + unlines(
            mapped.subrange(1, mapped.len() as int),
        ));
        assert(strip_one(s) =~= unlines(mapped));
    }
}

/// `k` stripping passes over a document remove up to `k` leading spaces,
/// each where present, from every line after the first.
proof fn lemma_strip_indent_unlines(ls: Seq<Seq<char>>, k: nat)
    requires
        wf_lines(ls),
    ensures
        strip_indent(unlines(ls), k) == unlines(
            Seq::new(
                ls.len(),
                |i: int|
                    if i == 0 {
                        ls[i]
                    } else {
                        drop_sp_k(ls[i], k)
                    },
            ),
        ),
    decreases k,
{
    let mapped = Seq::new(
        ls.len(),
        |i: int|
            if i == 0 {
                ls[i]
            } else {
                drop_sp_k(ls[i], k)
            },
    );
    if k == 0 {
        assert(mapped =~~= ls);
    } else {
        lemma_strip_one_unlines(ls);
        let one = Seq::new(
            ls.len(),
            |i: int|
                if i == 0 {
                    ls[i]
                } else {
                    drop_sp(ls[i])
                },
        );
        assert(wf_lines(one)) by {
            assert forall|i: int| 0 <= i < one.len() implies no_newline(#[trigger] one[i]) by {
                assert(no_newline(ls[i]));
                assert(forall|j: int| 0 <= j < one[i].len() ==> one[i][j] == ls[i][j + (ls[i].len()
                    - one[i].len())]);
            }
        }
        lemma_strip_indent_unlines(one, (k - 1) as nat);
        let prev = Seq::new(
            one.len(),
            |i: int|
                if i == 0 {
                    one[i]
                } else {
                    drop_sp_k(one[i], (k - 1) as nat)
                },
        );
        assert(prev =~~= mapped);
    }
}

/// Dropping a space `k` times from a line indented by at least `k` spaces
/// removes exactly its first `k` characters.
proof fn lemma_drop_sp_k_exact(l: Seq<char>, k: nat)
    requires
        run_len(l, 0, ' ') >= k,
    ensures
        drop_sp_k(l, k) == l.subrange(k as int, l.len() as int),
    decreases k,
{
    crate::chars::lemma_run_len_bounds(l, 0, ' ');
    if k == 0 {
        assert(l.subrange(0, l.len() as int) =~= l);
    } else {
        assert(l[0] == ' ');
        let t = l.subrange(1, l.len() as int);
        crate::chars::lemma_run_len_suffix(l, 1, 0, ' ');
        lemma_drop_sp_k_exact(t, (k - 1) as nat);
        assert(t.subrange(k - 1, t.len() as int) =~= l.subrange(k as int, l.len() as int));
    }
}

/// Round trip of indentation. For a document whose lines after the first are
/// all indented by at least `k` spaces, `k` stripping passes — what the
/// fenced-code recognizer runs for an opening fence indented by `k` columns,
/// with the raw content's first line standing before the first line break —
/// remove exactly `k` spaces from every such line and leave the rest of each
/// line unchanged: a line indented by `j >= k` spaces comes out indented by
/// exactly `j - k` spaces.
pub proof fn lemma_indent_round_trip(ls: Seq<Seq<char>>, k: nat)
    requires
        wf_lines(ls),
        forall|i: int| 1 <= i < ls.len() ==> run_len(#[trigger] ls[i], 0, ' ') >= k,
    ensures
        strip_indent(unlines(ls), k) == unlines(
            Seq::new(
                ls.len(),
                |i: int|
                    if i == 0 {
                        ls[i]
                    } else {
                        ls[i].subrange(k as int, ls[i].len() as int)
                    },
            ),
        ),
        forall|i: int|
            1 <= i < ls.len() ==> run_len(
                #[trigger] ls[i].subrange(k as int, ls[i].len() as int),
                0,
                ' ',
            ) == run_len(ls[i], 0, ' ') - k,
{
    lemma_strip_indent_unlines(ls, k);
    let a = Seq::new(
        ls.len(),
        |i: int|
            if i == 0 {
                ls[i]
            } else {
                drop_sp_k(ls[i], k)
            },
    );
    let b = Seq::new(
        ls.len(),
        |i: int|
            if i == 0 {
                ls[i]
            } else {
                ls[i].subrange(k as int, ls[i].len() as int)
            },
    );
    assert forall|i: int| 0 <= i < ls.len() implies a[i] == b[i] by {
        if i > 0 {
            lemma_drop_sp_k_exact(ls[i], k);
        }
    }
    assert(a =~~= b);
    assert forall|i: int|
        1 <= i < ls.len() implies run_len(
        #[trigger] ls[i].subrange(k as int, ls[i].len() as int),
        0,
        ' ',
    ) == run_len(ls[i], 0, ' ') - k by {
        crate::chars::lemma_run_len_bounds(ls[i], 0, ' ');
        crate::chars::lemma_run_len_suffix(ls[i], k as int, 0, ' ');
        crate::chars::lemma_run_len_skip(ls[i], 0, k as int, ' ');
    }
}

// ---------------------------------------------------------------------------
// The fenced-code recognizer
// ---------------------------------------------------------------------------
/// Columns of indentation recorded for the opening fence: the leading run of
/// spaces, capped at three.
pub open spec fn open_spaces(s: Seq<char>) -> int {
    if run_len(s, 0, ' ') < 3 {
        run_len(s, 0, ' ') as int
    } else {
        3
    }
}

/// `s` begins with a valid opening fence: after at most three spaces of
/// indentation, a run of at least three identical fence characters.
pub open spec fn fenced_open_ok(s: Seq<char>) -> bool {
    let sp = open_spaces(s);
    &&& sp < s.len()
    &&& (s[sp] == '`' || s[sp] == '~')
    &&& run_len(s, sp, s[sp]) >= 3
}

/// The fence character of the opening fence (backtick or tilde).
pub open spec fn fence_char(s: Seq<char>) -> char {
    s[open_spaces(s)]
}

/// The opening fence's length: the whole run of the fence character.
pub open spec fn fence_len(s: Seq<char>) -> int {
    run_len(s, open_spaces(s), fence_char(s)) as int
}

pub open spec fn info_start(s: Seq<char>) -> int {
    open_spaces(s) + fence_len(s)
}

pub open spec fn info_end(s: Seq<char>) -> int {
    info_start(s) + line_len(s, info_start(s))
}

/// The recognized info string: the rest of the opening line, trimmed.
pub open spec fn fenced_info(s: Seq<char>) -> Seq<char> {
    trim_info(s.subrange(info_start(s), info_end(s)), fence_char(s))
}

/// Where the block's raw content ends: the first position after the opening
/// line where a closing fence stands, or the end of the input when the block
/// is unterminated.
pub open spec fn content_end(s: Seq<char>) -> int {
    close_scan_pos(s, info_end(s), fence_char(s), fence_len(s))
}

/// The recognized content: the text between the opening line and the closing
/// fence, de-indented once per column of the opening fence's indentation,
/// with the line break that introduced the first content line dropped.
pub open spec fn fenced_content(s: Seq<char>) -> Seq<char> {
    let c1 = strip_indent(s.subrange(info_end(s), content_end(s)), open_spaces(s) as nat);
    if c1.len() > 0 && c1[0] == '\n' {
        c1.subrange(1, c1.len() as int)
    } else {
        c1
    }
}

/// The input left after the block: what follows the closing fence line, or
/// nothing when the block ran to the end of the input.
pub open spec fn fenced_rest(s: Seq<char>) -> Seq<char> {
    if content_end(s) < s.len() {
        s.subrange(fence_close_end(s, content_end(s), fence_char(s), fence_len(s)), s.len() as int)
    } else {
        Seq::empty()
    }
}

/// A document that begins with an empty line reads as a line break followed
/// by the remaining lines.
proof fn lemma_unlines_head_empty(ls: Seq<Seq<char>>)
    requires
        ls.len() >= 1,
    ensures
        unlines(seq![Seq::<char>::empty()] + ls) == seq!['\n'] + unlines(ls),
{
    let whole = seq![Seq::<char>::empty()] + ls;
    assert(whole.len() >= 2);
    assert(whole.subrange(1, whole.len() as int) =~= ls);
    assert(whole[0] + seq!['\n'] + unlines(ls) =~= seq!['\n'] + unlines(ls));
}

/// Round trip of indentation at the recognizer. For a block whose opening
/// fence is indented by `open_spaces(s)` columns and whose raw content is
/// the lines `ls`, each indented by at least that many spaces, the
/// recognized content is exactly those lines with the opening indentation
/// removed from each.
pub proof fn lemma_fenced_content_round_trip(s: Seq<char>, ls: Seq<Seq<char>>)
    requires
        wf_lines(ls),
        ls.len() >= 1,
        s.subrange(info_end(s), content_end(s)) == unlines(seq![Seq::<char>::empty()] + ls),
        forall|i: int|
            0 <= i < ls.len() ==> run_len(#[trigger] ls[i], 0, ' ') >= open_spaces(s),
    ensures
        fenced_content(s) == unlines(
            Seq::new(
                ls.len(),
                |i: int| ls[i].subrange(open_spaces(s), ls[i].len() as int),
            ),
        ),
{
    let k = open_spaces(s) as nat;
    let lsx = seq![Seq::<char>::empty()] + ls;
    assert(wf_lines(lsx)) by {
        assert forall|i: int| 0 <= i < lsx.len() implies no_newline(#[trigger] lsx[i]) by {
            if i > 0 {
                assert(lsx[i] == ls[i - 1]);
            }
        }
    }
    assert forall|i: int| 1 <= i < lsx.len() implies run_len(#[trigger] lsx[i], 0, ' ')
        >= k by {
        assert(lsx[i] == ls[i - 1]);
    }
    lemma_indent_round_trip(lsx, k);
    let mapped_x = Seq::new(
        lsx.len(),
        |i: int|
            if i == 0 {
                lsx[i]
            } else {
                lsx[i].subrange(k as int, lsx[i].len() as int)
            },
    );
    let mapped = Seq::new(ls.len(), |i: int| ls[i].subrange(open_spaces(s), ls[i].len() as int));
    assert(mapped_x =~~= seq![Seq::<char>::empty()] + mapped) by {
        assert forall|i: int| 0 <= i < mapped_x.len() implies mapped_x[i] == (seq![
            Seq::<char>::empty(),
        ] + mapped)[i] by {
            if i == 0 {
                assert(mapped_x[0] == lsx[0]);
                assert(lsx[0] =~= Seq::<char>::empty());
            } else {
                assert(lsx[i] == ls[i - 1]);
            }
        }
    }
    lemma_unlines_head_empty(mapped);
    let c1 = strip_indent(s.subrange(info_end(s), content_end(s)), k);
    assert(c1 == seq!['\n'] + unlines(mapped));
    assert(c1.len() > 0 && c1[0] == '\n');
    assert(c1.subrange(1, c1.len() as int) =~= unlines(mapped));
}

fn is_trim_char(ch: char, c: char) -> (b: bool)
    ensures
        b == info_trim_char(ch, c),
{
    ch == ' ' || ch == c
}

/// Recognizes a fenced code block at the start of `input`.
///
/// On success the returned pair holds the input remaining after the block
/// and a `Block::CodeBlock` whose info string is the trimmed rest of the
/// opening line and whose content is the text up to the closing fence (or
/// the end of the input when no closing fence follows), de-indented by the
/// opening fence's indentation. `NoMatch` is returned exactly when `input`
/// does not begin with a valid opening fence; nothing is consumed then, so
/// the caller can retry another recognizer on the same input.
#[verifier::rlimit(100)]
#[verifier::spinoff_prover]
pub fn code_block<'a>(input: &'a str) -> (r: Result<(&'a str, Block), NoMatch>)
    ensures
        r is Ok <==> fenced_open_ok(input@),
        r matches Ok(p) ==> ({
            &&& p.0@ == fenced_rest(input@)
            &&& p.1 matches Block::CodeBlock(info, content) && info matches Some(iv) && iv@
                == fenced_info(input@) && content@ == fenced_content(input@)
        }),
{
    let ghost si = input@;
    let len = input.unicode_len();
    let spr = run_len_exec(input, 0, ' ');
    let sp = if spr < 3 {
        spr
    } else {
        3
    };
    assert(open_spaces(si) == sp);
    if sp >= len {
        return Err(NoMatch);
    }
    let c = input.get_char(sp);
    if c != '`' && c != '~' {
        return Err(NoMatch);
    }
    let n = run_len_exec(input, sp, c);
    if n < 3 {
        return Err(NoMatch);
    }
    assert(fenced_open_ok(si) && fence_char(si) == c && fence_len(si) == n);
    let is = sp + n;
    let il = line_len_exec(input, is);
    let ie = is + il;
    assert(info_start(si) == is && info_end(si) == ie);
    // trim the info string in place: find its first and last kept positions
    let mut a = is;
    while a < ie && is_trim_char(input.get_char(a), c)
        invariant
            is <= a <= ie <= si.len(),
            si == input@,
            forall|j: int| is <= j < a ==> info_trim_char(si[j], c),
        decreases ie - a,
    {
        a += 1;
    }
    let mut b = ie;
    while b > a && is_trim_char(input.get_char(b - 1), c)
        invariant
            a <= b <= ie <= si.len(),
            si == input@,
            forall|j: int| b <= j < ie ==> info_trim_char(si[j], c),
        decreases b,
    {
        b -= 1;
    }
    let info_str = String::from_str(input.substring_char(a, b));
    proof {
        let subi = si.subrange(is as int, ie as int);
        assert forall|j: int| 0 <= j < a - is implies info_trim_char(subi[j], c) by {
            assert(subi[j] == si[is + j]);
        }
        if a - is < subi.len() {
            assert(subi[a - is] == si[a as int]);
        }
        lemma_trim_start_idx(subi, c, a - is);
        let s2 = si.subrange(a as int, ie as int);
        assert(subi.subrange(a - is, subi.len() as int) =~= s2);
        assert forall|j: int| b - a <= j < s2.len() implies info_trim_char(s2[j], c) by {
            assert(s2[j] == si[a + j]);
        }
        if b - a > 0 {
            assert(s2[b - a - 1] == si[b - 1]);
        }
        lemma_trim_end_idx(s2, c, b - a);
        assert(s2.subrange(0, b - a) =~= si.subrange(a as int, b as int));
        assert(info_str@ == fenced_info(si));
    }
    // scan for the closing fence with the backtracking scanner
    let rest_slice = input.substring_char(ie, len);
    let cl = |t: &'a str| -> (bb: bool)
        ensures
            bb == fence_close_at(t@, 0, c, n as int),
        { fence_close_here(t, c, n) };
    let (after, front) = take_except(rest_slice, cl);
    let ghost rs = rest_slice@;
    let ghost k_rel = front@.len() as int;
    let ghost k_abs = ie + k_rel;
    proof {
        assert forall|i: int| ie <= i < k_abs implies !fence_close_at(si, i, c, n as int) by {
            let ir = i - ie;
            assert(scan_miss(rs, ir, cl));
            let t = choose|t: &'a str|
                t@ == rs.subrange(ir, rs.len() as int) && call_ensures(cl, (t,), false);
            assert(!fence_close_at(t@, 0, c, n as int));
            assert(rs.subrange(ir, rs.len() as int) =~= si.subrange(i, si.len() as int));
            lemma_fence_close_suffix(si, i, 0, c, n as int);
        }
        if k_rel < rs.len() {
            assert(call_ensures(cl, (after,), true));
            assert(after@ =~= si.subrange(k_abs, si.len() as int));
            lemma_fence_close_suffix(si, k_abs, 0, c, n as int);
            assert(fence_close_at(si, k_abs, c, n as int));
        }
        lemma_close_scan_pos_is(si, ie as int, k_abs, c, n as int);
        assert(content_end(si) == k_abs);
    }
    // consume the closing fence, when one is present
    let after_len = after.unicode_len();
    let remainder: &'a str = if after_len > 0 {
        proof {
            assert(after@ =~= si.subrange(k_abs, si.len() as int));
            assert(fence_close_at(after@, 0, c, n as int));
        }
        let m = fence_close_end_exec(after, c, n);
        let rem = after.substring_char(m, after_len);
        proof {
            lemma_fence_close_suffix(si, k_abs, 0, c, n as int);
            assert(after@.subrange(m as int, after_len as int) =~= si.subrange(
                k_abs + m,
                si.len() as int,
            ));
            assert(rem@ == fenced_rest(si));
        }
        rem
    } else {
        proof {
            assert(after@ =~= Seq::<char>::empty());
            assert(after@ == fenced_rest(si));
        }
        after
    };
    // de-indent the raw content and drop the line break before its first line
    proof {
        assert(front@ =~= si.subrange(ie as int, k_abs));
    }
    let stripped = remove_spaces(sp, front);
    let sl = stripped.unicode_len();
    let content = if sl > 0 && stripped.as_str().get_char(0) == '\n' {
        String::from_str(stripped.as_str().substring_char(1, sl))
    } else {
        stripped
    };
    proof {
        assert(content@ == fenced_content(si));
    }
    Ok((remainder, Block::CodeBlock(Some(info_str), content)))
}

} // verus!

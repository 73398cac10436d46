use vstd::prelude::*;

use crate::chars::{line_len, line_len_exec, run_len, run_len_exec};
use crate::types::{Block, NoMatch};

verus! {

// ---------------------------------------------------------------------------
// The pieces of an indented code block
// ---------------------------------------------------------------------------
/// A chunk line stands at position `i`: at least four literal space columns.
pub open spec fn chunk_line_at(s: Seq<char>, i: int) -> bool {
    run_len(s, i, ' ') >= 4
}

/// A blank line stands at position `i`: only spaces up to a line break.
pub open spec fn blank_line_at(s: Seq<char>, i: int) -> bool {
    let sp = run_len(s, i, ' ') as int;
    i + sp < s.len() && s[i + sp] == '\n'
}

/// The maximal chunk starting at `i`: consecutive chunk lines, each with its
/// first four space columns stripped, joined with their original line
/// breaks. Returns the position after the chunk and the de-indented text.
pub open spec fn chunk_scan(s: Seq<char>, i: int) -> (int, Seq<char>)
    decreases s.len() - i,
{
    if !(0 <= i < s.len() && chunk_line_at(s, i)) {
        (i, Seq::empty())
    } else {
        let le = i + 4 + line_len(s, i + 4);
        let line = s.subrange(i + 4, le);
        if le < s.len() {
            let r = chunk_scan(s, le + 1);
            (r.0, line + seq!['\n'] + r.1)
        } else {
            (s.len() as int, line)
        }
    }
}

/// The maximal run of blank lines starting at `i`: returns the position
/// after the run and how many blank lines it holds.
pub open spec fn blank_run(s: Seq<char>, i: int) -> (int, int)
    decreases s.len() - i,
{
    if 0 <= i && blank_line_at(s, i) {
        let r = blank_run(s, i + run_len(s, i, ' ') + 1);
        (r.0, r.1 + 1)
    } else {
        (i, 0)
    }
}

/// `k` line-break characters.
pub open spec fn newlines(k: int) -> Seq<char>
    decreases k,
{
    if k <= 0 {
        Seq::empty()
    } else {
        seq!['\n'] + newlines(k - 1)
    }
}

pub proof fn lemma_chunk_scan_pos(s: Seq<char>, i: int)
    ensures
        chunk_scan(s, i).0 >= i,
        i <= s.len() ==> chunk_scan(s, i).0 <= s.len(),
        (0 <= i < s.len() && chunk_line_at(s, i)) ==> chunk_scan(s, i).0 > i,
    decreases s.len() - i,
{
    if 0 <= i < s.len() && chunk_line_at(s, i) {
        let le = i + 4 + line_len(s, i + 4);
        if le < s.len() {
            lemma_chunk_scan_pos(s, le + 1);
        }
    }
}

pub proof fn lemma_blank_run_pos(s: Seq<char>, i: int)
    ensures
        blank_run(s, i).0 >= i,
        i <= s.len() ==> blank_run(s, i).0 <= s.len(),
    decreases s.len() - i,
{
    if 0 <= i && blank_line_at(s, i) {
        lemma_blank_run_pos(s, i + run_len(s, i, ' ') + 1);
    }
}

/// The whole recognizer from position `i`, which must begin a chunk:
/// alternating chunks and blank-line runs. A blank run is committed to the
/// content (one line break per blank line) when another chunk follows it or
/// when it reaches the end of the input; a blank run followed by anything
/// else is left unconsumed, and the block ends at the preceding chunk.
pub open spec fn indented_scan(s: Seq<char>, i: int) -> (int, Seq<char>)
    decreases s.len() - i,
    via indented_scan_dec
{
    let cr = chunk_scan(s, i);
    let br = blank_run(s, cr.0);
    if br.0 < s.len() && chunk_line_at(s, br.0) {
        let r = indented_scan(s, br.0);
        (r.0, cr.1 + newlines(br.1) + r.1)
    } else if br.0 >= s.len() {
        (br.0, cr.1 + newlines(br.1))
    } else {
        (cr.0, cr.1)
    }
}

#[via_fn]
proof fn indented_scan_dec(s: Seq<char>, i: int) {
    lemma_chunk_scan_pos(s, i);
    lemma_blank_run_pos(s, chunk_scan(s, i).0);
    let br = blank_run(s, chunk_scan(s, i).0);
    if br.0 < s.len() && chunk_line_at(s, br.0) && chunk_scan(s, i).0 == i {
        assert(0 <= i < s.len());
    }
}

proof fn lemma_newlines_snoc(k: int)
    requires
        k >= 0,
    ensures
        newlines(k + 1) == newlines(k) + seq!['\n'],
    decreases k,
{
    if k == 0 {
        assert(newlines(1) =~= newlines(0) + seq!['\n']);
    } else {
        lemma_newlines_snoc(k - 1);
        assert(seq!['\n'] + (newlines(k - 1) + seq!['\n']) =~= (seq!['\n'] + newlines(k - 1))
            + seq!['\n']);
    }
}

// ---------------------------------------------------------------------------
// Executable recognizers
// ---------------------------------------------------------------------------
/// Consumes the maximal chunk at position `i` of `s`.
fn chunk_exec(s: &str, i: usize) -> (r: (usize, String))
    requires
        i <= s@.len(),
    ensures
        r.0 == chunk_scan(s@, i as int).0,
        r.1@ == chunk_scan(s@, i as int).1,
        i <= r.0 <= s@.len(),
        (i < s@.len() && chunk_line_at(s@, i as int)) ==> r.0 > i,
    {
    let len = s.unicode_len();
    let mut pos = i;
    let mut out = String::new();
    while run_len_exec(s, pos, ' ') >= 4
        invariant
            i <= pos <= len,
            len == s@.len(),
            chunk_scan(s@, i as int).0 == chunk_scan(s@, pos as int).0,
            chunk_scan(s@, i as int).1 == out@ + chunk_scan(s@, pos as int).1,
        decreases len - pos,
    {
        let ghost out0 = out@;
        let ll = line_len_exec(s, pos + 4);
        let le = pos + 4 + ll;
        out.append(s.substring_char(pos + 4, le));
        let ghost line = s@.subrange(pos + 4, le as int);
        if le < len {
            out.append("\n");
            proof {
                reveal_strlit("\n");
                assert("\n"@ =~= seq!['\n']);
                let tail = chunk_scan(s@, le + 1).1;
                assert(out0 + (line + seq!['\n'] + tail) =~= ((out0 + line) + seq!['\n']) + tail);
            }
            pos = le + 1;
        } else {
            proof {
                assert(chunk_scan(s@, len as int).1 =~= Seq::<char>::empty());
                assert(out0 + line =~= (out0 + line) + Seq::<char>::empty());
            }
            pos = len;
        }
    }
    proof {
        assert(out@ + Seq::<char>::empty() =~= out@);
        lemma_chunk_scan_pos(s@, i as int);
    }
    (pos, out)
}

/// Whether a blank line stands at position `i` of `s`.
fn blank_line_here(s: &str, i: usize) -> (b: bool)
    requires
        i <= s@.len(),
    ensures
        b == blank_line_at(s@, i as int),
{
    let len = s.unicode_len();
    let sp = run_len_exec(s, i, ' ');
    i + sp < len && s.get_char(i + sp) == '\n'
}

/// Consumes the maximal run of blank lines at position `i` of `s`.
fn blank_run_exec(s: &str, i: usize) -> (r: (usize, usize))
    requires
        i <= s@.len(),
    ensures
        r.0 == blank_run(s@, i as int).0,
        r.1 == blank_run(s@, i as int).1,
        i <= r.0 <= s@.len(),
{
    let len = s.unicode_len();
    let mut pos = i;
    let mut cnt: usize = 0;
    while blank_line_here(s, pos)
        invariant
            i <= pos <= len,
            len == s@.len(),
            cnt <= pos,
            blank_run(s@, i as int).0 == blank_run(s@, pos as int).0,
            blank_run(s@, i as int).1 == cnt + blank_run(s@, pos as int).1,
        decreases len - pos,
    {
        let sp = run_len_exec(s, pos, ' ');
        pos = pos + sp + 1;
        cnt = cnt + 1;
    }
    (pos, cnt)
}

/// Appends `cnt` line breaks to `out`.
fn append_newlines(out: &mut String, cnt: usize)
    ensures
        final (out)@ == old(out)@ + newlines(cnt as int),
{
    let ghost start = out@;
    let mut p: usize = 0;
    while p < cnt
        invariant
            p <= cnt,
            out@ == start + newlines(p as int),
        decreases cnt - p,
    {
        out.append("\n");
        proof {
            reveal_strlit("\n");
            assert("\n"@ =~= seq!['\n']);
            lemma_newlines_snoc(p as int);
            assert((start + newlines(p as int)) + seq!['\n'] =~= start + (newlines(p as int)
                + seq!['\n']));
        }
        p += 1;
    }
}

/// Recognizes one chunk at the start of `input`: one or more consecutive
/// lines each indented by exactly four space columns, the four columns
/// stripped from each line. Fails, consuming nothing, exactly when the first
/// line is not indented by at least four columns.
pub fn indented_chunk<'a>(input: &'a str) -> (r: Result<(&'a str, String), NoMatch>)
    ensures
        r is Ok <==> chunk_line_at(input@, 0),
        r matches Ok(p) ==> ({
            &&& p.0@ == input@.subrange(chunk_scan(input@, 0).0, input@.len() as int)
            &&& p.1@ == chunk_scan(input@, 0).1
        }),
{
    let rl = run_len_exec(input, 0, ' ');
    if rl < 4 {
        return Err(NoMatch);
    }
    let (j, content) = chunk_exec(input, 0);
    let rest = input.substring_char(j, input.unicode_len());
    Ok((rest, content))
}

/// Counts the blank (whitespace-only) lines at the start of `input` and
/// returns the remaining input after them. Never fails.
pub fn blanklines<'a>(input: &'a str) -> (r: (&'a str, usize))
    ensures
        r.0@ == input@.subrange(blank_run(input@, 0).0, input@.len() as int),
        r.1 == blank_run(input@, 0).1,
{
    let (b, cnt) = blank_run_exec(input, 0);
    let rest = input.substring_char(b, input.unicode_len());
    (rest, cnt)
}

/// Recognizes an indented code block at the start of `input`: alternating
/// chunks of four-space-indented lines and blank-line runs, reassembled with
/// the indentation stripped and interior blank runs preserved as line
/// breaks. A trailing blank run is kept only when it reaches the end of the
/// input; before a non-indented line it is left unconsumed. `NoMatch` is
/// returned exactly when the very first line is not indented by at least
/// four columns; nothing is consumed then.
pub fn indented_code_block<'a>(input: &'a str) -> (r: Result<(&'a str, Block), NoMatch>)
    ensures
        r is Ok <==> chunk_line_at(input@, 0),
        r matches Ok(p) ==> ({
            &&& p.0@ == input@.subrange(indented_scan(input@, 0).0, input@.len() as int)
            &&& p.1 matches Block::CodeBlock(info, content) && info is None && content@
                == indented_scan(input@, 0).1
        }),
{
    let len = input.unicode_len();
    let rl0 = run_len_exec(input, 0, ' ');
    if rl0 < 4 {
        return Err(NoMatch);
    }
    let mut pos: usize = 0;
    let mut out = String::new();
    loop
        invariant
            pos < len,
            len == input@.len(),
            chunk_line_at(input@, 0),
            chunk_line_at(input@, pos as int),
            indented_scan(input@, 0).0 == indented_scan(input@, pos as int).0,
            indented_scan(input@, 0).1 == out@ + indented_scan(input@, pos as int).1,
        decreases len - pos,
    {
        let ghost out0 = out@;
        let (j, chunk) = chunk_exec(input, pos);
        out.append(chunk.as_str());
        let (b, cnt) = blank_run_exec(input, j);
        let ghost cs = chunk_scan(input@, pos as int);
        let ghost br = blank_run(input@, j as int);
        if b < len && run_len_exec(input, b, ' ') >= 4 {
            append_newlines(&mut out, cnt);
            proof {
                let r = indented_scan(input@, b as int);
                assert(indented_scan(input@, pos as int).1 == cs.1 + newlines(br.1) + r.1);
                assert(out0 + (cs.1 + newlines(br.1) + r.1) =~= ((out0 + cs.1) + newlines(br.1))
                    + r.1);
            }
            pos = b;
        } else if b >= len {
            append_newlines(&mut out, cnt);
            let rest = input.substring_char(len, len);
            proof {
                assert(indented_scan(input@, pos as int).1 == cs.1 + newlines(br.1));
                assert(out0 + (cs.1 + newlines(br.1)) =~= (out0 + cs.1) + newlines(br.1));
                assert(rest@ =~= input@.subrange(indented_scan(input@, 0).0, input@.len() as int));
            }
            return Ok((rest, Block::CodeBlock(None, out)));
        } else {
            let rest = input.substring_char(j, len);
            proof {
                assert(indented_scan(input@, pos as int).1 == cs.1);
                assert(out0 + cs.1 =~= out@);
            }
            return Ok((rest, Block::CodeBlock(None, out)));
        }
    }
}

} // verus!

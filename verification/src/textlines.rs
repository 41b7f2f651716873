//! Lines and whitespace-separated words of a text, as `str::lines` and
//! `str::split_whitespace` give them.
use vstd::prelude::*;
use crate::text::{find_from, is_ws, is_ws_exec, lead_from, lemma_find_bounds, lemma_lead_bounds};

verus! {

/// A line without its `\n` ending loses a `\r` before it too.
pub open spec fn line_piece(p: Seq<char>) -> Seq<char> {
    if p.len() > 0 && p.last() == '\r' { p.drop_last() } else { p }
}

/// The lines from index `i` on: split at `\n`, with `\r\n` endings
/// removed and no empty line after a final `\n`.
pub open spec fn lines_from(s: Seq<char>, i: int) -> Seq<Seq<char>>
    decreases s.len() - i,
{
    if i < 0 || i >= s.len() {
        Seq::empty()
    } else {
        let j = find_from(s, '\n', i);
        if j < s.len() {
            proof {
                lemma_find_bounds(s, '\n', i);
            }
            seq![line_piece(s.subrange(i, j))] + lines_from(s, j + 1)
        } else {
            seq![s.subrange(i, s.len() as int)]
        }
    }
}

pub open spec fn lines_of(s: Seq<char>) -> Seq<Seq<char>> {
    lines_from(s, 0)
}

/// First index at or after `j` that holds whitespace (or the length).
pub open spec fn next_ws(s: Seq<char>, j: int) -> int
    decreases s.len() - j,
{
    if 0 <= j < s.len() && !is_ws(s[j]) {
        next_ws(s, j + 1)
    } else {
        j
    }
}

pub proof fn lemma_next_ws_bounds(s: Seq<char>, j: int)
    requires
        0 <= j <= s.len(),
    ensures
        j <= next_ws(s, j) <= s.len(),
        next_ws(s, j) < s.len() ==> is_ws(s[next_ws(s, j)]),
        forall|k: int| j <= k < next_ws(s, j) ==> !is_ws(s[k]),
    decreases s.len() - j,
{
    if j < s.len() && !is_ws(s[j]) {
        lemma_next_ws_bounds(s, j + 1);
    }
}

/// The maximal runs of non-whitespace from index `i` on.
pub open spec fn words_from(s: Seq<char>, i: int) -> Seq<Seq<char>>
    decreases s.len() - i,
{
    if i < 0 || i >= s.len() {
        Seq::empty()
    } else {
        let j = lead_from(s, i);
        if j >= s.len() {
            Seq::empty()
        } else {
            let k = next_ws(s, j);
            proof {
                lemma_lead_bounds(s, i);
                lemma_next_ws_bounds(s, j);
                lemma_next_ws_bounds(s, j + 1);
            }
            seq![s.subrange(j, k)] + words_from(s, k)
        }
    }
}

pub open spec fn words_of(s: Seq<char>) -> Seq<Seq<char>> {
    words_from(s, 0)
}

pub open spec fn chars_view(v: Seq<Vec<char>>) -> Seq<Seq<char>> {
    v.map_values(|x: Vec<char>| x@)
}

fn strip_cr(p: Vec<char>) -> (r: Vec<char>)
    ensures
        r@ == line_piece(p@),
{
    let mut p = p;
    if p.len() > 0 && p[p.len() - 1] == '\r' {
        p.pop();
    }
    p
}

/// The lines of a text (`str::lines`).
pub fn split_lines(s: &[char]) -> (r: Vec<Vec<char>>)
    ensures
        chars_view(r@) == lines_of(s@),
{
    let mut out: Vec<Vec<char>> = Vec::new();
    let mut i: usize = 0;
    while i < s.len()
        invariant
            i <= s.len(),
            chars_view(out@) + lines_from(s@, i as int) == lines_of(s@),
        decreases s.len() - i,
    {
        let j = crate::text::find_from_exec(s, '\n', i);
        proof {
            lemma_find_bounds(s@, '\n', i as int);
        }
        let ghost o0 = out@;
        if j < s.len() {
            let piece = strip_cr(crate::text::subvec(s, i, j));
            let ghost pv = piece@;
            out.push(piece);
            assert(chars_view(out@) =~= chars_view(o0).push(pv));
            assert(chars_view(out@) + lines_from(s@, j + 1) =~= chars_view(o0) + lines_from(s@, i as int));
            i = j + 1;
        } else {
            let piece = crate::text::subvec(s, i, s.len());
            let ghost pv = piece@;
            out.push(piece);
            assert(chars_view(out@) =~= chars_view(o0).push(pv));
            assert(chars_view(out@) + lines_from(s@, s.len() as int) =~= chars_view(o0) + lines_from(s@, i as int));
            i = s.len();
        }
    }
    assert(chars_view(out@) =~= lines_of(s@));
    out
}

/// The whitespace-separated words of a text (`str::split_whitespace`).
pub fn split_words(s: &[char]) -> (r: Vec<Vec<char>>)
    ensures
        chars_view(r@) == words_of(s@),
{
    let mut out: Vec<Vec<char>> = Vec::new();
    let mut i: usize = 0;
    while i < s.len()
        invariant
            i <= s.len(),
            chars_view(out@) + words_from(s@, i as int) == words_of(s@),
        decreases s.len() - i,
    {
        let mut j: usize = i;
        while j < s.len() && is_ws_exec(s[j])
            invariant
                i <= j <= s.len(),
                lead_from(s@, j as int) == lead_from(s@, i as int),
            decreases s.len() - j,
        {
            j = j + 1;
        }
        let ghost o0 = out@;
        if j >= s.len() {
            assert(words_from(s@, i as int) =~= Seq::<Seq<char>>::empty());
            i = s.len();
        } else {
            let mut k: usize = j;
            while k < s.len() && !is_ws_exec(s[k])
                invariant
                    j <= k <= s.len(),
                    next_ws(s@, k as int) == next_ws(s@, j as int),
                decreases s.len() - k,
            {
                k = k + 1;
            }
            proof {
                lemma_next_ws_bounds(s@, j as int);
            }
            let w = crate::text::subvec(s, j, k);
            let ghost wv = w@;
            out.push(w);
            assert(chars_view(out@) =~= chars_view(o0).push(wv));
            assert(chars_view(out@) + words_from(s@, k as int) =~= chars_view(o0) + words_from(s@, i as int));
            i = k;
        }
    }
    assert(chars_view(out@) =~= words_of(s@));
    out
}

} // verus!

//! Sentence segmentation.
use crate::text::{chars_of, is_space, is_space_char, runs, runs_state, string_of, texts};
use vstd::prelude::*;

verus! {

/// A character that the pattern class `\w` takes here: an ASCII letter or digit, or `_`.
pub open spec fn is_word_char(c: char) -> bool {
    ('a' <= c && c <= 'z') || ('A' <= c && c <= 'Z') || ('0' <= c && c <= '9') || c == '_'
}

/// Whether the whitespace at index `p` of `s` ends a sentence: it follows `.` or `?`, and the text
/// before it does not look like an initialism (`e.g.`) or a short abbreviation (`Mr.`).
pub open spec fn is_boundary(s: Seq<char>, p: int) -> bool {
    &&& 1 <= p < s.len()
    &&& is_space(s[p])
    &&& s[p - 1] == '.' || s[p - 1] == '?'
    &&& !(p >= 4 && is_word_char(s[p - 4]) && s[p - 3] == '.' && is_word_char(s[p - 2]) && s[p - 1]
        != '\n')
    &&& !(p >= 3 && 'A' <= s[p - 3] && s[p - 3] <= 'Z' && 'a' <= s[p - 2] && s[p - 2] <= 'z' && s[p
        - 1] == '.')
}

/// Cut the text at its sentence boundaries.
pub open spec fn boundary_cut(s: Seq<char>) -> spec_fn(int) -> bool {
    |p: int| is_boundary(s, p)
}

/// `s` without leading whitespace.
pub open spec fn trim_start(s: Seq<char>) -> Seq<char>
    decreases s.len(),
{
    if s.len() > 0 && is_space(s[0]) {
        trim_start(s.drop_first())
    } else {
        s
    }
}

/// `s` without trailing whitespace.
pub open spec fn trim_end(s: Seq<char>) -> Seq<char>
    decreases s.len(),
{
    if s.len() > 0 && is_space(s.last()) {
        trim_end(s.drop_last())
    } else {
        s
    }
}

/// `s` without leading and trailing whitespace, as `str::trim` returns it.
pub open spec fn trim(s: Seq<char>) -> Seq<char> {
    trim_end(trim_start(s))
}

/// The pieces trimmed, those left empty dropped.
pub open spec fn trimmed_nonempty(ps: Seq<Seq<char>>) -> Seq<Seq<char>>
    decreases ps.len(),
{
    if ps.len() == 0 {
        Seq::empty()
    } else if trim(ps.last()).len() > 0 {
        trimmed_nonempty(ps.drop_last()).push(trim(ps.last()))
    } else {
        trimmed_nonempty(ps.drop_last())
    }
}

/// The sentences of a text: the pieces between boundaries, trimmed, the empty ones dropped.
pub open spec fn sentences(s: Seq<char>) -> Seq<Seq<char>> {
    trimmed_nonempty(runs(s, boundary_cut(s)))
}

proof fn lemma_trim_start(s: Seq<char>, lo: int)
    requires
        0 <= lo <= s.len(),
        forall|k: int| 0 <= k < lo ==> is_space(s[k]),
        lo == s.len() || !is_space(s[lo]),
    ensures
        trim_start(s) == s.skip(lo),
    decreases lo,
{
    if lo == 0 {
        assert(s.skip(0) =~= s);
    } else {
        assert(s.drop_first().skip(lo - 1) =~= s.skip(lo));
        lemma_trim_start(s.drop_first(), lo - 1);
    }
}

proof fn lemma_trim_end(s: Seq<char>, hi: int)
    requires
        0 <= hi <= s.len(),
        forall|k: int| hi <= k < s.len() ==> is_space(s[k]),
        hi == 0 || !is_space(s[hi - 1]),
    ensures
        trim_end(s) == s.take(hi),
    decreases s.len() - hi,
{
    if hi == s.len() {
        assert(s.take(hi) =~= s);
    } else {
        assert(s.drop_last().take(hi) =~= s.take(hi));
        lemma_trim_end(s.drop_last(), hi);
    }
}

/// `s` without leading and trailing whitespace.
pub fn trim_chars(s: &Vec<char>) -> (r: Vec<char>)
    ensures
        r@ == trim(s@),
{
    let mut lo: usize = 0;
    while lo < s.len() && is_space_char(s[lo])
        invariant
            lo <= s.len(),
            forall|k: int| 0 <= k < lo ==> is_space(s@[k]),
        decreases s.len() - lo,
    {
        lo = lo + 1;
    }
    proof {
        lemma_trim_start(s@, lo as int);
    }
    let ghost t = s@.skip(lo as int);
    let mut hi: usize = s.len();
    while hi > lo && is_space_char(s[hi - 1])
        invariant
            lo <= hi <= s.len(),
            t == s@.skip(lo as int),
            forall|k: int| hi <= k < s.len() ==> is_space(s@[k]),
        decreases hi,
    {
        hi = hi - 1;
    }
    proof {
        lemma_trim_end(t, hi - lo);
    }
    let mut out: Vec<char> = Vec::new();
    let mut k: usize = lo;
    while k < hi
        invariant
            lo <= k <= hi,
            hi <= s.len(),
            out@ == s@.subrange(lo as int, k as int),
        decreases hi - k,
    {
        out.push(s[k]);
        k = k + 1;
        assert(out@ =~= s@.subrange(lo as int, k as int));
    }
    assert(out@ =~= t.take(hi - lo));
    out
}

/// Whether index `p` of `s` is a sentence boundary.
pub fn is_boundary_at(s: &Vec<char>, p: usize) -> (r: bool)
    ensures
        r == is_boundary(s@, p as int),
{
    if p < 1 || p >= s.len() || !is_space_char(s[p]) {
        return false;
    }
    let end = s[p - 1];
    if end != '.' && end != '?' {
        return false;
    }
    if p >= 4 {
        let (a, b, c) = (s[p - 4], s[p - 3], s[p - 2]);
        let aw = ('a' <= a && a <= 'z') || ('A' <= a && a <= 'Z') || ('0' <= a && a <= '9') || a == '_';
        let cw = ('a' <= c && c <= 'z') || ('A' <= c && c <= 'Z') || ('0' <= c && c <= '9') || c == '_';
        if aw && b == '.' && cw && end != '\n' {
            return false;
        }
    }
    if p >= 3 {
        let (a, b) = (s[p - 3], s[p - 2]);
        if 'A' <= a && a <= 'Z' && 'a' <= b && b <= 'z' && end == '.' {
            return false;
        }
    }
    true
}

/// Splits a text into its sentences, in order, trimmed and non-empty.
pub fn split_sentences(text: &str) -> (r: Vec<String>)
    ensures
        texts(r@) == sentences(text@),
{
    let s = chars_of(text);
    let ghost cut = boundary_cut(s@);
    let mut done: Vec<String> = Vec::new();
    let mut open: Vec<char> = Vec::new();
    let mut i: usize = 0;
    while i < s.len()
        invariant
            i <= s.len(),
            s@ == text@,
            cut == boundary_cut(s@),
            texts(done@) == trimmed_nonempty(runs_state(s@.take(i as int), cut).0),
            open@ == runs_state(s@.take(i as int), cut).1,
        decreases s.len() - i,
    {
        let ghost pre = s@.take(i as int);
        let ghost st = runs_state(pre, cut);
        assert(s@.take(i + 1).drop_last() =~= pre);
        if is_boundary_at(&s, i) {
            if open.len() > 0 {
                assert(st.0.push(st.1).drop_last() =~= st.0);
                let t = trim_chars(&open);
                if t.len() > 0 {
                    let ghost before = done@;
                    done.push(string_of(&t));
                    assert(texts(done@) =~= texts(before).push(t@));
                }
            }
            open = Vec::new();
        } else {
            open.push(s[i]);
        }
        i = i + 1;
    }
    assert(s@.take(s@.len() as int) =~= s@);
    let ghost st = runs_state(s@, cut);
    if open.len() > 0 {
        assert(st.0.push(st.1).drop_last() =~= st.0);
        let t = trim_chars(&open);
        if t.len() > 0 {
            let ghost before = done@;
            done.push(string_of(&t));
            assert(texts(done@) =~= texts(before).push(t@));
        }
    }
    done
}

} // verus!

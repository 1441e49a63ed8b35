//! Characters, whitespace splitting and tokenisation.
use vstd::prelude::*;

verus! {

/// The characters that `char::is_whitespace` accepts (Unicode White_Space).
pub open spec fn is_space(c: char) -> bool {
    let u = c as u32;
    u == 0x20 || (0x09 <= u && u <= 0x0d) || u == 0x85 || u == 0xa0 || u == 0x1680 || (0x2000 <= u
        && u <= 0x200a) || u == 0x2028 || u == 0x2029 || u == 0x202f || u == 0x205f || u == 0x3000
}

/// The marks removed from the text before it is split into tokens.
pub open spec fn is_mark(c: char) -> bool {
    c == '.' || c == ',' || c == ';' || c == '!' || c == '?' || c == '(' || c == ')' || c == '['
        || c == ']' || c == '"' || c == '\n'
}

/// The views of a sequence of strings.
pub open spec fn texts(v: Seq<String>) -> Seq<Seq<char>> {
    v.map_values(|w: String| w@)
}

/// Closes a run: a non-empty run joins the finished ones, an empty one is dropped.
pub open spec fn close_run<A>(done: Seq<Seq<A>>, open: Seq<A>) -> Seq<Seq<A>> {
    if open.len() > 0 {
        done.push(open)
    } else {
        done
    }
}

/// Scanning `s` from the left and cutting at every index where `cut` holds (the element at a
/// cut belongs to no run): the finished non-empty runs, and the run still open.
pub open spec fn runs_state<A>(s: Seq<A>, cut: spec_fn(int) -> bool) -> (Seq<Seq<A>>, Seq<A>)
    decreases s.len(),
{
    if s.len() == 0 {
        (Seq::empty(), Seq::empty())
    } else {
        let prev = runs_state(s.drop_last(), cut);
        if cut(s.len() - 1) {
            (close_run(prev.0, prev.1), Seq::empty())
        } else {
            (prev.0, prev.1.push(s.last()))
        }
    }
}

/// The maximal non-empty runs of `s` between cut indices, in order.
pub open spec fn runs<A>(s: Seq<A>, cut: spec_fn(int) -> bool) -> Seq<Seq<A>> {
    close_run(runs_state(s, cut).0, runs_state(s, cut).1)
}

/// Cut at the whitespace characters of `s`.
pub open spec fn space_cut(s: Seq<char>) -> spec_fn(int) -> bool {
    |i: int| is_space(s[i])
}

/// The whitespace-delimited words of `s`, as `str::split_whitespace` yields them.
pub open spec fn words(s: Seq<char>) -> Seq<Seq<char>> {
    runs(s, space_cut(s))
}

/// `s` without the marks of `is_mark`.
pub open spec fn strip_marks(s: Seq<char>) -> Seq<char>
    decreases s.len(),
{
    if s.len() == 0 {
        s
    } else if is_mark(s.last()) {
        strip_marks(s.drop_last())
    } else {
        strip_marks(s.drop_last()).push(s.last())
    }
}

/// What `str::to_lowercase` returns for a string; it depends on the characters alone.
pub uninterp spec fn lower_of(s: Seq<char>) -> Seq<char>;

/// Each word lowercased.
pub open spec fn lower_each(ws: Seq<Seq<char>>) -> Seq<Seq<char>> {
    ws.map_values(|w: Seq<char>| lower_of(w))
}

/// The tokens of a text: marks removed, split on whitespace, each word lowercased.
pub open spec fn tokens(s: Seq<char>) -> Seq<Seq<char>> {
    lower_each(words(strip_marks(s)))
}

/// Relies on `str::chars`: the characters of the string, in order.
#[verifier::external_body]
pub(crate) fn chars_of(s: &str) -> (r: Vec<char>)
    ensures
        r@ == s@,
{
    s.chars().collect()
}

/// Relies on `String`'s `FromIterator<&char>`: the string of exactly these characters.
#[verifier::external_body]
pub(crate) fn string_of(v: &Vec<char>) -> (r: String)
    ensures
        r@ == v@,
{
    v.iter().collect()
}

/// Relies on `str::to_lowercase`: its result is a function of the characters alone.
#[verifier::external_body]
fn lowercase(s: &str) -> (r: String)
    ensures
        r@ == lower_of(s@),
{
    s.to_lowercase()
}

/// Tests for whitespace as `char::is_whitespace` does.
pub fn is_space_char(c: char) -> (r: bool)
    ensures
        r == is_space(c),
{
    let u = c as u32;
    u == 0x20 || (0x09 <= u && u <= 0x0d) || u == 0x85 || u == 0xa0 || u == 0x1680 || (0x2000 <= u
        && u <= 0x200a) || u == 0x2028 || u == 0x2029 || u == 0x202f || u == 0x205f || u == 0x3000
}

/// Tests for one of the marks removed before tokenising.
pub fn is_mark_char(c: char) -> (r: bool)
    ensures
        r == is_mark(c),
{
    c == '.' || c == ',' || c == ';' || c == '!' || c == '?' || c == '(' || c == ')' || c == '['
        || c == ']' || c == '"' || c == '\n'
}

/// The characters of `s` with the marks removed.
pub fn remove_marks(s: &Vec<char>) -> (r: Vec<char>)
    ensures
        r@ == strip_marks(s@),
{
    let mut out: Vec<char> = Vec::new();
    let mut i: usize = 0;
    while i < s.len()
        invariant
            i <= s.len(),
            out@ == strip_marks(s@.take(i as int)),
        decreases s.len() - i,
    {
        assert(s@.take(i + 1).drop_last() =~= s@.take(i as int));
        if !is_mark_char(s[i]) {
            out.push(s[i]);
        }
        i = i + 1;
    }
    assert(s@.take(s@.len() as int) =~= s@);
    out
}

/// The whitespace-delimited words of `s`.
pub fn split_words(s: &Vec<char>) -> (r: Vec<String>)
    ensures
        texts(r@) == words(s@),
{
    let ghost cut = space_cut(s@);
    let mut done: Vec<String> = Vec::new();
    let mut open: Vec<char> = Vec::new();
    let mut i: usize = 0;
    while i < s.len()
        invariant
            i <= s.len(),
            cut == space_cut(s@),
            texts(done@) == runs_state(s@.take(i as int), cut).0,
            open@ == runs_state(s@.take(i as int), cut).1,
        decreases s.len() - i,
    {
        let ghost pre = s@.take(i as int);
        assert(s@.take(i + 1).drop_last() =~= pre);
        if is_space_char(s[i]) {
            if open.len() > 0 {
                let ghost before = done@;
                let w = string_of(&open);
                done.push(w);
                assert(texts(done@) =~= texts(before).push(open@));
            }
            open = Vec::new();
        } else {
            open.push(s[i]);
        }
        i = i + 1;
    }
    assert(s@.take(s@.len() as int) =~= s@);
    if open.len() > 0 {
        let ghost before = done@;
        let w = string_of(&open);
        done.push(w);
        assert(texts(done@) =~= texts(before).push(open@));
    }
    done
}

/// The tokens of `text`: marks removed, split on whitespace, lowercased word by word.
pub fn tokenize(text: &str) -> (r: Vec<String>)
    ensures
        texts(r@) == tokens(text@),
{
    let chars = chars_of(text);
    let stripped = remove_marks(&chars);
    let ws = split_words(&stripped);
    let mut out: Vec<String> = Vec::new();
    let mut i: usize = 0;
    while i < ws.len()
        invariant
            i <= ws.len(),
            texts(ws@) == words(strip_marks(text@)),
            out@.len() == i,
            texts(out@) == lower_each(words(strip_marks(text@)).take(i as int)),
        decreases ws.len() - i,
    {
        let low = lowercase(ws[i].as_str());
        let ghost before = out@;
        out.push(low);
        let ghost all = words(strip_marks(text@));
        assert(texts(ws@)[i as int] == ws@[i as int]@);
        assert(texts(out@)[i as int] == lower_of(all[i as int]));
        assert forall|k: int| 0 <= k < i implies texts(out@)[k] == lower_each(all.take(i + 1))[k] by {
            assert(texts(out@)[k] == texts(before)[k]);
            assert(texts(before)[k] == lower_each(all.take(i as int))[k]);
        }
        assert(texts(out@) =~= lower_each(all.take(i + 1)));
        i = i + 1;
    }
    assert(words(strip_marks(text@)).take(i as int) =~= words(strip_marks(text@)));
    out
}

/// Whether `t` is one of the strings of `list`.
pub fn contains_string(list: &Vec<String>, t: &String) -> (r: bool)
    ensures
        r == texts(list@).contains(t@),
{
    let mut i: usize = 0;
    while i < list.len()
        invariant
            i <= list.len(),
            forall|k: int| 0 <= k < i ==> list@[k]@ != t@,
        decreases list.len() - i,
    {
        if list[i] == *t {
            assert(texts(list@)[i as int] == t@);
            return true;
        }
        i = i + 1;
    }
    assert forall|k: int| 0 <= k < texts(list@).len() implies texts(list@)[k] != t@ by {
        assert(texts(list@)[k] == list@[k]@);
    }
    false
}

} // verus!

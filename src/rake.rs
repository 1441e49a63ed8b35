//! RAKE keyword extraction: stopword-delimited phrases scored by word degree and frequency.
use crate::rank::{first_n, rank_desc, ranked, Scored};
use crate::text::{
    chars_of, contains_string, runs, runs_state, string_of, strip_marks, texts, tokenize,
    tokens, words,
};
use vstd::prelude::*;

verus! {

/// A phrase candidate: a run of tokens, none of them a stopword.
pub type Phrase = Seq<Seq<char>>;

/// The views of a list of phrases.
pub open spec fn phrase_views(v: Seq<Vec<String>>) -> Seq<Phrase> {
    v.map_values(|p: Vec<String>| texts(p@))
}

/// Cut the token sequence at its stopwords.
pub open spec fn stop_cut(toks: Seq<Seq<char>>, stop: Seq<Seq<char>>) -> spec_fn(int) -> bool {
    |i: int| stop.contains(toks[i])
}

/// The phrase candidates of a token sequence: maximal runs of tokens that are not stopwords.
pub open spec fn phrases(toks: Seq<Seq<char>>, stop: Seq<Seq<char>>) -> Seq<Phrase> {
    runs(toks, stop_cut(toks, stop))
}

/// Whether `t` is one of the stopwords.
pub fn is_stopword(t: &String, stop: &Vec<String>) -> (r: bool)
    ensures
        r == texts(stop@).contains(t@),
{
    contains_string(stop, t)
}

/// Splits a token sequence into its phrase candidates.
pub fn split_phrases(toks: &Vec<String>, stop: &Vec<String>) -> (r: Vec<Vec<String>>)
    ensures
        phrase_views(r@) == phrases(texts(toks@), texts(stop@)),
{
    let ghost ts = texts(toks@);
    let ghost cut = stop_cut(ts, texts(stop@));
    let mut done: Vec<Vec<String>> = Vec::new();
    let mut open: Vec<String> = Vec::new();
    let mut i: usize = 0;
    while i < toks.len()
        invariant
            i <= toks.len(),
            ts == texts(toks@),
            cut == stop_cut(ts, texts(stop@)),
            phrase_views(done@) == runs_state(ts.take(i as int), cut).0,
            texts(open@) == runs_state(ts.take(i as int), cut).1,
        decreases toks.len() - i,
    {
        assert(ts.take(i + 1).drop_last() =~= ts.take(i as int));
        assert(ts[i as int] == toks@[i as int]@);
        if is_stopword(&toks[i], stop) {
            if open.len() > 0 {
                let ghost before = done@;
                let ghost cur = texts(open@);
                done.push(open);
                assert(phrase_views(done@) =~= phrase_views(before).push(cur));
            }
            open = Vec::new();
            assert(texts(open@) =~= Seq::<Seq<char>>::empty());
        } else {
            let ghost before = open@;
            open.push(toks[i].clone());
            assert(texts(open@) =~= texts(before).push(ts[i as int]));
        }
        i = i + 1;
    }
    assert(ts.take(ts.len() as int) =~= ts);
    if open.len() > 0 {
        let ghost before = done@;
        let ghost cur = texts(open@);
        done.push(open);
        assert(phrase_views(done@) =~= phrase_views(before).push(cur));
    }
    done
}

} // verus!

verus! {

/// The tokens of one phrase, each tagged with the phrase's degree increment: its length less one.
pub open spec fn tagged(p: Phrase) -> Seq<(Seq<char>, int)> {
    p.map_values(|t: Seq<char>| (t, p.len() - 1))
}

/// Every word occurrence of the phrases, in order, tagged with its phrase's degree increment.
pub open spec fn occurrences(ps: Seq<Phrase>) -> Seq<(Seq<char>, int)>
    decreases ps.len(),
{
    if ps.len() == 0 {
        Seq::empty()
    } else {
        occurrences(ps.drop_last()) + tagged(ps.last())
    }
}

/// The words of a sequence of occurrences.
pub open spec fn occ_words(occ: Seq<(Seq<char>, int)>) -> Seq<Seq<char>> {
    occ.map_values(|o: (Seq<char>, int)| o.0)
}

/// How many of the occurrences are of `w`.
pub open spec fn frequency(occ: Seq<(Seq<char>, int)>, w: Seq<char>) -> nat
    decreases occ.len(),
{
    if occ.len() == 0 {
        0
    } else {
        frequency(occ.drop_last(), w) + if occ.last().0 == w {
            1nat
        } else {
            0nat
        }
    }
}

/// The sum of the degree increments over the occurrences of `w`.
pub open spec fn degree(occ: Seq<(Seq<char>, int)>, w: Seq<char>) -> int
    decreases occ.len(),
{
    if occ.len() == 0 {
        0
    } else {
        degree(occ.drop_last(), w) + if occ.last().0 == w {
            occ.last().1
        } else {
            0
        }
    }
}

/// The distinct elements of `s`, in order of first appearance.
pub open spec fn distinct<A>(s: Seq<A>) -> Seq<A>
    decreases s.len(),
{
    if s.len() == 0 {
        s
    } else if distinct(s.drop_last()).contains(s.last()) {
        distinct(s.drop_last())
    } else {
        distinct(s.drop_last()).push(s.last())
    }
}

/// The frequency and degree of one distinct word of the phrase candidates.
pub struct WordStat {
    pub word: String,
    pub frequency: usize,
    pub degree: u128,
}

/// `table` holds, for each distinct word of `occ` in order of first appearance, its tallies.
pub open spec fn tallies_of(table: Seq<WordStat>, occ: Seq<(Seq<char>, int)>) -> bool {
    &&& table.len() == distinct(occ_words(occ)).len()
    &&& forall|j: int|
        #![trigger table[j]]
        0 <= j < table.len() ==> {
            &&& table[j].word@ == distinct(occ_words(occ))[j]
            &&& table[j].frequency == frequency(occ, table[j].word@)
            &&& table[j].degree == degree(occ, table[j].word@)
            &&& table[j].degree <= table[j].frequency * usize::MAX
        }
}

proof fn lemma_distinct_push<A>(s: Seq<A>, x: A)
    ensures
        distinct(s.push(x)) == if distinct(s).contains(x) {
            distinct(s)
        } else {
            distinct(s).push(x)
        },
{
    assert(s.push(x).drop_last() =~= s);
}

/// A word that does not occur has no tallies.
proof fn lemma_absent_word(occ: Seq<(Seq<char>, int)>, w: Seq<char>)
    requires
        !distinct(occ_words(occ)).contains(w),
    ensures
        frequency(occ, w) == 0,
        degree(occ, w) == 0,
    decreases occ.len(),
{
    if occ.len() > 0 {
        let d = occ.drop_last();
        assert(occ_words(occ) =~= occ_words(d).push(occ.last().0));
        lemma_distinct_push(occ_words(d), occ.last().0);
        if distinct(occ_words(d)).contains(w) {
            let k = choose|k: int| 0 <= k < distinct(occ_words(d)).len() && distinct(occ_words(d))[k] == w;
            if !distinct(occ_words(d)).contains(occ.last().0) {
                assert(distinct(occ_words(occ))[k] == w);
            }
        }
        if occ.last().0 == w {
            if !distinct(occ_words(d)).contains(occ.last().0) {
                assert(distinct(occ_words(occ)).last() == w);
            }
        }
        lemma_absent_word(d, w);
    }
}

proof fn lemma_occurrences_step(ps: Seq<Phrase>, a: int)
    requires
        0 <= a < ps.len(),
    ensures
        occurrences(ps.take(a + 1)) == occurrences(ps.take(a)) + tagged(ps[a]),
{
    assert(ps.take(a + 1).drop_last() =~= ps.take(a));
}

proof fn lemma_occurrences_prefix(ps: Seq<Phrase>, a: int)
    requires
        0 <= a <= ps.len(),
    ensures
        occurrences(ps.take(a)).len() <= occurrences(ps).len(),
    decreases ps.len() - a,
{
    if a == ps.len() {
        assert(ps.take(a) =~= ps);
    } else {
        lemma_occurrences_step(ps, a);
        lemma_occurrences_prefix(ps, a + 1);
    }
}

/// Looks up the entry of `w` in a table of distinct words; `table.len()` when there is none.
fn find_word(table: &Vec<WordStat>, w: &String) -> (r: usize)
    ensures
        r <= table.len(),
        r < table.len() ==> table@[r as int].word@ == w@,
        r == table.len() ==> forall|j: int| 0 <= j < table.len() ==> table@[j].word@ != w@,
{
    let mut j: usize = 0;
    while j < table.len()
        invariant
            j <= table.len(),
            forall|k: int| 0 <= k < j ==> table@[k].word@ != w@,
        decreases table.len() - j,
    {
        if table[j].word == *w {
            return j;
        }
        j = j + 1;
    }
    j
}

/// Tallies the frequency and degree of every distinct word of the phrase candidates.
pub fn word_stats(ps: &Vec<Vec<String>>) -> (r: Vec<WordStat>)
    requires
        occurrences(phrase_views(ps@)).len() <= usize::MAX,
    ensures
        tallies_of(r@, occurrences(phrase_views(ps@))),
{
    let ghost pv = phrase_views(ps@);
    let mut table: Vec<WordStat> = Vec::new();
    let mut a: usize = 0;
    while a < ps.len()
        invariant
            a <= ps.len(),
            pv == phrase_views(ps@),
            occurrences(pv).len() <= usize::MAX,
            tallies_of(table@, occurrences(pv.take(a as int))),
        decreases ps.len() - a,
    {
        let p = &ps[a];
        let ghost tg = tagged(pv[a as int]);
        let wgt: usize = if p.len() > 0 { p.len() - 1 } else { 0 };
        proof {
            lemma_occurrences_step(pv, a as int);
            lemma_occurrences_prefix(pv, a + 1);
            assert(pv[a as int] == texts(p@));
        }
        let mut b: usize = 0;
        while b < p.len()
            invariant
                a < ps.len(),
                b <= p.len(),
                p == &ps@[a as int],
                pv == phrase_views(ps@),
                pv[a as int] == texts(p@),
                tg == tagged(pv[a as int]),
                wgt as int == p.len() - 1 || p.len() == 0,
                occurrences(pv.take(a + 1)) == occurrences(pv.take(a as int)) + tg,
                occurrences(pv.take(a + 1)).len() <= usize::MAX,
                tallies_of(table@, occurrences(pv.take(a as int)) + tg.take(b as int)),
            decreases p.len() - b,
        {
            let ghost pre = occurrences(pv.take(a as int)) + tg.take(b as int);
            let ghost t = p@[b as int]@;
            let ghost nxt = pre.push((t, wgt as int));
            assert(tg[b as int] == (t, wgt as int));
            assert(occurrences(pv.take(a as int)) + tg.take(b + 1) =~= nxt);
            assert(nxt.drop_last() =~= pre);
            assert(occ_words(nxt) =~= occ_words(pre).push(t));
            proof {
                lemma_distinct_push(occ_words(pre), t);
            }
            assert(pre.len() < occurrences(pv.take(a + 1)).len()) by {
                assert(tg.len() == p.len());
            }
            let j = find_word(&table, &p[b]);
            if j < table.len() {
                let ghost old_table = table@;
                assert(distinct(occ_words(pre)).contains(t)) by {
                    assert(distinct(occ_words(pre))[j as int] == t);
                }
                let f = table[j].frequency;
                let d = table[j].degree;
                assert(d + wgt <= (f + 1) * usize::MAX) by (nonlinear_arith)
                    requires
                        d <= f * usize::MAX,
                        wgt <= usize::MAX,
                ;
                assert(f < usize::MAX) by {
                    assert(frequency(pre, t) <= pre.len()) by {
                        lemma_frequency_bound(pre, t);
                    }
                }
                let w = p[b].clone();
                table.set(j, WordStat { word: w, frequency: f + 1, degree: d + wgt as u128 });
                assert forall|k: int| 0 <= k < table.len() implies {
                    &&& #[trigger] table@[k].word@ == distinct(occ_words(nxt))[k]
                    &&& table@[k].frequency == frequency(nxt, table@[k].word@)
                    &&& table@[k].degree == degree(nxt, table@[k].word@)
                    &&& table@[k].degree <= table@[k].frequency * usize::MAX
                } by {
                    if k != j {
                        assert(table@[k] == old_table[k]);
                        assert(old_table[k].word@ != t) by {
                            assert(distinct(occ_words(pre)).no_duplicates()) by {
                                lemma_distinct_unique(occ_words(pre));
                            }
                        }
                    }
                }
            } else {
                proof {
                    assert(!distinct(occ_words(pre)).contains(t)) by {
                        if distinct(occ_words(pre)).contains(t) {
                            let k = choose|k: int| 0 <= k < distinct(occ_words(pre)).len() && distinct(occ_words(pre))[k] == t;
                            assert(table@[k].word@ == t);
                        }
                    }
                    lemma_absent_word(pre, t);
                }
                let ghost old_table = table@;
                let w = p[b].clone();
                table.push(WordStat { word: w, frequency: 1, degree: wgt as u128 });
                assert forall|k: int| 0 <= k < table.len() implies {
                    &&& #[trigger] table@[k].word@ == distinct(occ_words(nxt))[k]
                    &&& table@[k].frequency == frequency(nxt, table@[k].word@)
                    &&& table@[k].degree == degree(nxt, table@[k].word@)
                    &&& table@[k].degree <= table@[k].frequency * usize::MAX
                } by {
                    if k < old_table.len() {
                        assert(table@[k] == old_table[k]);
                    }
                }
            }
            b = b + 1;
        }
        assert(tg.take(b as int) =~= tg);
        a = a + 1;
    }
    assert(pv.take(a as int) =~= pv);
    table
}

proof fn lemma_frequency_bound(occ: Seq<(Seq<char>, int)>, w: Seq<char>)
    ensures
        frequency(occ, w) <= occ.len(),
    decreases occ.len(),
{
    if occ.len() > 0 {
        lemma_frequency_bound(occ.drop_last(), w);
    }
}

/// The distinct elements of a sequence hold no repeats and are exactly its elements.
pub proof fn lemma_distinct_unique<A>(s: Seq<A>)
    ensures
        distinct(s).no_duplicates(),
        distinct(s).to_set() == s.to_set(),
    decreases s.len(),
{
    if s.len() > 0 {
        let d = s.drop_last();
        lemma_distinct_unique(d);
        assert(s =~= d.push(s.last()));
        d.lemma_push_to_set_commute(s.last());
        if distinct(d).contains(s.last()) {
            assert(distinct(d).to_set().contains(s.last()));
            assert(d.to_set().insert(s.last()) =~= d.to_set());
        } else {
            distinct(d).lemma_push_to_set_commute(s.last());
        }
    }
}


/// The fixed-point unit of scores: a score of 1 is `SCALE`.
pub const SCALE: u128 = 1_000_000;

/// The most keywords returned.
pub const KEYWORD_LIMIT: usize = 10;

/// A word's score `(degree + frequency) / frequency`, in units of `1 / SCALE`, rounded down.
pub open spec fn word_score(frequency: int, degree: int) -> int {
    if frequency > 0 {
        (degree + frequency) * SCALE / frequency
    } else {
        0
    }
}

/// `x`, or the largest `u128` when it is larger.
pub open spec fn saturate(x: int) -> int {
    if x > u128::MAX {
        u128::MAX as int
    } else {
        x
    }
}

/// The score of a phrase: the sum of the scores of its tokens, once per token, saturating.
pub open spec fn phrase_score(occ: Seq<(Seq<char>, int)>, p: Phrase) -> int
    decreases p.len(),
{
    if p.len() == 0 {
        0
    } else {
        saturate(
            phrase_score(occ, p.drop_last()) + word_score(
                frequency(occ, p.last()) as int,
                degree(occ, p.last()),
            ),
        )
    }
}

/// Each distinct phrase's index with its score.
pub open spec fn scored_phrases(uniq: Seq<Phrase>, occ: Seq<(Seq<char>, int)>) -> Seq<Scored> {
    Seq::new(uniq.len(), |i: int| (i as usize, phrase_score(occ, uniq[i]) as u128))
}

/// The tokens of a phrase joined by single spaces.
pub open spec fn join_words(p: Phrase) -> Seq<char>
    decreases p.len(),
{
    if p.len() == 0 {
        Seq::empty()
    } else if p.len() == 1 {
        p[0]
    } else {
        join_words(p.drop_last()) + seq![' '] + p.last()
    }
}

/// The keywords of a list of phrase candidates: the distinct phrases ranked by descending score
/// (ties in order of first appearance), at most `KEYWORD_LIMIT` of them, each joined by spaces.
pub open spec fn keywords_from(ps: Seq<Phrase>) -> Seq<Seq<char>> {
    let uniq = distinct(ps);
    first_n(ranked(scored_phrases(uniq, occurrences(ps))), KEYWORD_LIMIT as int).map_values(
        |x: Scored| join_words(uniq[x.0 as int]),
    )
}

/// The keywords of a text for a stopword list.
pub open spec fn keywords_of(text: Seq<char>, stop: Seq<Seq<char>>) -> Seq<Seq<char>> {
    keywords_from(phrases(tokens(text), stop))
}

/// The score of a word from its tallies.
pub fn word_score_of(frequency: usize, degree: u128) -> (r: u128)
    requires
        degree <= frequency * usize::MAX,
    ensures
        r == word_score(frequency as int, degree as int),
{
    if frequency == 0 {
        return 0;
    }
    let f = frequency as u128;
    let q = degree / f;
    let m = degree % f;
    proof {
        vstd::arithmetic::div_mod::lemma_fundamental_div_mod(degree as int, f as int);
        assert(q <= usize::MAX) by {
            vstd::arithmetic::div_mod::lemma_div_is_ordered(
                degree as int,
                (f * usize::MAX) as int,
                f as int,
            );
            vstd::arithmetic::div_mod::lemma_div_by_multiple(usize::MAX as int, f as int);
        }
        assert(q * SCALE <= usize::MAX * SCALE) by (nonlinear_arith)
            requires
                q <= usize::MAX,
        ;
        assert(m * SCALE < f * SCALE) by (nonlinear_arith)
            requires
                m < f,
        ;
        assert(f * SCALE <= usize::MAX * SCALE) by (nonlinear_arith)
            requires
                f <= usize::MAX,
        ;
        assert((degree + f) * SCALE == f * (SCALE + q * SCALE) + m * SCALE) by (nonlinear_arith)
            requires
                degree == f * q + m,
        ;
        vstd::arithmetic::div_mod::lemma_hoist_over_denominator(
            (m * SCALE) as int,
            (SCALE + q * SCALE) as int,
            f as nat,
        );
        assert((SCALE + q * SCALE) * f == f * (SCALE + q * SCALE)) by (nonlinear_arith);
    }
    SCALE + q * SCALE + (m * SCALE) / f
}

/// The score of a phrase, from the tallies of the words of `occ`.
fn phrase_score_of(p: &Vec<String>, table: &Vec<WordStat>, Ghost(occ): Ghost<Seq<(Seq<char>, int)>>) -> (r: u128)
    requires
        tallies_of(table@, occ),
    ensures
        r == phrase_score(occ, texts(p@)),
{
    let mut acc: u128 = 0;
    let mut k: usize = 0;
    while k < p.len()
        invariant
            k <= p.len(),
            tallies_of(table@, occ),
            acc == phrase_score(occ, texts(p@).take(k as int)),
        decreases p.len() - k,
    {
        let ghost t = p@[k as int]@;
        assert(texts(p@).take(k + 1).drop_last() =~= texts(p@).take(k as int));
        assert(texts(p@).take(k + 1).last() == t);
        let j = find_word(table, &p[k]);
        let ws: u128 = if j < table.len() {
            assert(table@[j as int].word@ == t);
            word_score_of(table[j].frequency, table[j].degree)
        } else {
            proof {
                assert(!distinct(occ_words(occ)).contains(t)) by {
                    if distinct(occ_words(occ)).contains(t) {
                        let i = choose|i: int| 0 <= i < distinct(occ_words(occ)).len() && distinct(occ_words(occ))[i] == t;
                        assert(table@[i].word@ == t);
                    }
                }
                lemma_absent_word(occ, t);
            }
            0
        };
        acc = acc.saturating_add(ws);
        k = k + 1;
    }
    assert(texts(p@).take(k as int) =~= texts(p@));
    acc
}

/// Whether two phrases hold the same tokens.
fn same_phrase(a: &Vec<String>, b: &Vec<String>) -> (r: bool)
    ensures
        r == (texts(a@) == texts(b@)),
{
    if a.len() != b.len() {
        assert(texts(a@).len() != texts(b@).len());
        return false;
    }
    let mut k: usize = 0;
    while k < a.len()
        invariant
            k <= a.len(),
            a.len() == b.len(),
            forall|i: int| 0 <= i < k ==> a@[i]@ == b@[i]@,
        decreases a.len() - k,
    {
        if a[k] != b[k] {
            assert(texts(a@)[k as int] != texts(b@)[k as int]);
            return false;
        }
        k = k + 1;
    }
    assert(texts(a@) =~= texts(b@));
    true
}

/// The index of the first phrase of `list` equal to `p`; `list.len()` when there is none.
fn find_phrase(list: &Vec<Vec<String>>, p: &Vec<String>) -> (r: usize)
    ensures
        r <= list.len(),
        r < list.len() ==> texts(list@[r as int]@) == texts(p@),
        r == list.len() ==> forall|k: int| 0 <= k < list.len() ==> texts(list@[k]@) != texts(p@),
{
    let mut j: usize = 0;
    while j < list.len()
        invariant
            j <= list.len(),
            forall|k: int| 0 <= k < j ==> texts(list@[k]@) != texts(p@),
        decreases list.len() - j,
    {
        if same_phrase(&list[j], p) {
            return j;
        }
        j = j + 1;
    }
    j
}

/// The distinct phrases of `ps`, in order of first appearance.
pub fn distinct_phrases(ps: &Vec<Vec<String>>) -> (r: Vec<Vec<String>>)
    ensures
        phrase_views(r@) == distinct(phrase_views(ps@)),
{
    let ghost pv = phrase_views(ps@);
    let mut out: Vec<Vec<String>> = Vec::new();
    let mut i: usize = 0;
    while i < ps.len()
        invariant
            i <= ps.len(),
            pv == phrase_views(ps@),
            phrase_views(out@) == distinct(pv.take(i as int)),
        decreases ps.len() - i,
    {
        assert(pv.take(i + 1).drop_last() =~= pv.take(i as int));
        assert(pv.take(i + 1).last() == texts(ps@[i as int]@));
        let j = find_phrase(&out, &ps[i]);
        let seen = j < out.len();
        if seen {
            assert(phrase_views(out@)[j as int] == texts(ps@[i as int]@));
        } else {
            assert(!phrase_views(out@).contains(texts(ps@[i as int]@))) by {
                if phrase_views(out@).contains(texts(ps@[i as int]@)) {
                    let k = choose|k: int| 0 <= k < phrase_views(out@).len() && phrase_views(out@)[k] == texts(ps@[i as int]@);
                    assert(texts(out@[k]@) == texts(ps@[i as int]@));
                }
            }
            let ghost before = out@;
            out.push(ps[i].clone());
            assert(phrase_views(out@) =~= phrase_views(before).push(texts(ps@[i as int]@)));
        }
        i = i + 1;
    }
    assert(pv.take(i as int) =~= pv);
    out
}

/// The tokens of a phrase joined by single spaces.
pub fn join_phrase(p: &Vec<String>) -> (r: String)
    ensures
        r@ == join_words(texts(p@)),
{
    let ghost tp = texts(p@);
    let mut out: Vec<char> = Vec::new();
    let mut k: usize = 0;
    while k < p.len()
        invariant
            k <= p.len(),
            tp == texts(p@),
            out@ == join_words(tp.take(k as int)),
        decreases p.len() - k,
    {
        assert(tp.take(k + 1).drop_last() =~= tp.take(k as int));
        assert(tp.take(k + 1).last() == p@[k as int]@);
        let mut cs = chars_of(p[k].as_str());
        if k > 0 {
            out.push(' ');
        } else {
            assert(tp.take(1)[0] == p@[0]@);
        }
        out.append(&mut cs);
        k = k + 1;
    }
    assert(tp.take(k as int) =~= tp);
    string_of(&out)
}

proof fn lemma_runs_state_size(s: Seq<Seq<char>>, cut: spec_fn(int) -> bool)
    ensures
        occurrences(runs_state(s, cut).0).len() + runs_state(s, cut).1.len() <= s.len(),
    decreases s.len(),
{
    if s.len() > 0 {
        let prev = runs_state(s.drop_last(), cut);
        lemma_runs_state_size(s.drop_last(), cut);
        if cut(s.len() - 1) && prev.1.len() > 0 {
            assert(prev.0.push(prev.1).drop_last() =~= prev.0);
        }
    }
}

/// The phrase candidates hold no more word occurrences than there are tokens.
proof fn lemma_phrases_size(toks: Seq<Seq<char>>, stop: Seq<Seq<char>>)
    ensures
        occurrences(phrases(toks, stop)).len() <= toks.len(),
{
    let cut = stop_cut(toks, stop);
    lemma_runs_state_size(toks, cut);
    let st = runs_state(toks, cut);
    if st.1.len() > 0 {
        assert(st.0.push(st.1).drop_last() =~= st.0);
    }
}

/// The keywords of a list of phrase candidates.
pub fn keywords_of_phrases(ps: &Vec<Vec<String>>) -> (r: Vec<String>)
    requires
        occurrences(phrase_views(ps@)).len() <= usize::MAX,
    ensures
        texts(r@) == keywords_from(phrase_views(ps@)),
        r.len() <= KEYWORD_LIMIT,
{
    let ghost pv = phrase_views(ps@);
    let ghost occ = occurrences(pv);
    let table = word_stats(ps);
    let uniq = distinct_phrases(ps);
    let ghost uv = phrase_views(uniq@);
    let mut items: Vec<Scored> = Vec::new();
    let mut i: usize = 0;
    while i < uniq.len()
        invariant
            i <= uniq.len(),
            uv == phrase_views(uniq@),
            tallies_of(table@, occ),
            items@ == scored_phrases(uv, occ).take(i as int),
        decreases uniq.len() - i,
    {
        let sc = phrase_score_of(&uniq[i], &table, Ghost(occ));
        assert(uv[i as int] == texts(uniq@[i as int]@));
        items.push((i, sc));
        assert(items@ =~= scored_phrases(uv, occ).take(i + 1));
        i = i + 1;
    }
    assert(items@ =~= scored_phrases(uv, occ));
    let order = rank_desc(&items);
    let ghost top = first_n(ranked(scored_phrases(uv, occ)), KEYWORD_LIMIT as int);
    let n: usize = if order.len() < KEYWORD_LIMIT { order.len() } else { KEYWORD_LIMIT };
    proof {
        crate::rank::lemma_ranked_sorted(items@);
        assert forall|m: int| 0 <= m < order.len() implies (#[trigger] order@[m]).0 < uniq.len() by {
            vstd::seq_lib::to_multiset_contains(order@, order@[m]);
            vstd::seq_lib::to_multiset_contains(items@, order@[m]);
            assert(order@.contains(order@[m]));
        }
    }
    let mut out: Vec<String> = Vec::new();
    let mut m: usize = 0;
    while m < n
        invariant
            m <= n,
            n <= order.len(),
            n <= KEYWORD_LIMIT,
            n == top.len(),
            top == first_n(order@, KEYWORD_LIMIT as int),
            uv == phrase_views(uniq@),
            forall|q: int| 0 <= q < order.len() ==> (#[trigger] order@[q]).0 < uniq.len(),
            out@.len() == m,
            forall|q: int| 0 <= q < m ==> (#[trigger] out@[q])@ == join_words(uv[top[q].0 as int]),
        decreases n - m,
    {
        let idx = order[m].0;
        assert(top[m as int] == order@[m as int]);
        assert(uv[idx as int] == texts(uniq@[idx as int]@));
        let w = join_phrase(&uniq[idx]);
        out.push(w);
        m = m + 1;
    }
    assert(texts(out@) =~= top.map_values(|x: Scored| join_words(uv[x.0 as int])));
    out
}

/// The keywords of `text` for the stopword list `stop`: RAKE phrase candidates ranked by score.
pub fn rake_keywords(text: &str, stop: &Vec<String>) -> (r: Vec<String>)
    ensures
        texts(r@) == keywords_of(text@, texts(stop@)),
        r.len() <= KEYWORD_LIMIT,
{
    let toks = tokenize(text);
    let ps = split_phrases(&toks, stop);
    proof {
        lemma_phrases_size(texts(toks@), texts(stop@));
        assert(texts(toks@).len() == toks@.len());
        assert(toks@.len() == toks.len());
        assert(phrase_views(ps@) == phrases(texts(toks@), texts(stop@)));
        assert(occurrences(phrase_views(ps@)).len() <= toks.len());
    }
    keywords_of_phrases(&ps)
}

/// A word's score is at least 1, exactly 1 when it only ever stands alone in a phrase, and never
/// lower for a word with a higher degree at the same frequency.
pub proof fn lemma_word_score_monotone(frequency: int, d1: int, d2: int)
    requires
        frequency > 0,
        0 <= d1 <= d2,
    ensures
        word_score(frequency, 0) == SCALE,
        SCALE <= word_score(frequency, d1) <= word_score(frequency, d2),
{
    vstd::arithmetic::div_mod::lemma_div_by_multiple(SCALE as int, frequency);
    assert((0 + frequency) * SCALE == SCALE * frequency) by (nonlinear_arith);
    assert(SCALE * frequency <= (d1 + frequency) * SCALE) by (nonlinear_arith)
        requires
            d1 >= 0,
    ;
    assert((d1 + frequency) * SCALE <= (d2 + frequency) * SCALE) by (nonlinear_arith)
        requires
            d1 <= d2,
    ;
    vstd::arithmetic::div_mod::lemma_div_is_ordered(
        SCALE * frequency,
        (d1 + frequency) * SCALE,
        frequency,
    );
    vstd::arithmetic::div_mod::lemma_div_is_ordered(
        (d1 + frequency) * SCALE,
        (d2 + frequency) * SCALE,
        frequency,
    );
}

/// Of two phrases of equal length, the one whose every word scores at least as high scores at
/// least as high.
pub proof fn lemma_phrase_score_monotone(occ: Seq<(Seq<char>, int)>, p: Phrase, q: Phrase)
    requires
        p.len() == q.len(),
        forall|i: int|
            0 <= i < p.len() ==> word_score(frequency(occ, #[trigger] p[i]) as int, degree(occ, p[i]))
                <= word_score(frequency(occ, q[i]) as int, degree(occ, q[i])),
    ensures
        phrase_score(occ, p) <= phrase_score(occ, q),
    decreases p.len(),
{
    if p.len() > 0 {
        let (pd, qd) = (p.drop_last(), q.drop_last());
        assert forall|i: int|
            0 <= i < pd.len() implies word_score(frequency(occ, #[trigger] pd[i]) as int, degree(occ, pd[i]))
                <= word_score(frequency(occ, qd[i]) as int, degree(occ, qd[i])) by {
            assert(pd[i] == p[i] && qd[i] == q[i]);
        }
        lemma_phrase_score_monotone(occ, pd, qd);
    }
}

proof fn lemma_occurrences_append(a: Seq<Phrase>, b: Seq<Phrase>)
    ensures
        occurrences(a + b) == occurrences(a) + occurrences(b),
    decreases b.len(),
{
    if b.len() == 0 {
        assert(a + b =~= a);
        assert(occurrences(a) + occurrences(b) =~= occurrences(a));
    } else {
        assert((a + b).drop_last() =~= a + b.drop_last());
        lemma_occurrences_append(a, b.drop_last());
        assert(occurrences(a + b) =~= occurrences(a) + occurrences(b));
    }
}

proof fn lemma_tallies_append(a: Seq<(Seq<char>, int)>, b: Seq<(Seq<char>, int)>, w: Seq<char>)
    ensures
        frequency(a + b, w) == frequency(a, w) + frequency(b, w),
        degree(a + b, w) == degree(a, w) + degree(b, w),
    decreases b.len(),
{
    if b.len() == 0 {
        assert(a + b =~= a);
    } else {
        assert((a + b).drop_last() =~= a + b.drop_last());
        lemma_tallies_append(a, b.drop_last(), w);
    }
}

/// The tallies of a word over two lists of phrases together are the sums of its tallies over
/// each, so they do not depend on the order in which the phrases are counted.
pub proof fn lemma_tallies_additive(a: Seq<Phrase>, b: Seq<Phrase>, w: Seq<char>)
    ensures
        frequency(occurrences(a + b), w) == frequency(occurrences(a), w) + frequency(
            occurrences(b),
            w,
        ),
        degree(occurrences(a + b), w) == degree(occurrences(a), w) + degree(occurrences(b), w),
        frequency(occurrences(a + b), w) == frequency(occurrences(b + a), w),
        degree(occurrences(a + b), w) == degree(occurrences(b + a), w),
{
    lemma_occurrences_append(a, b);
    lemma_occurrences_append(b, a);
    lemma_tallies_append(occurrences(a), occurrences(b), w);
    lemma_tallies_append(occurrences(b), occurrences(a), w);
}

proof fn lemma_runs_all_cut<A>(s: Seq<A>, cut: spec_fn(int) -> bool)
    requires
        forall|i: int| 0 <= i < s.len() ==> #[trigger] cut(i),
    ensures
        runs_state(s, cut).0.len() == 0,
        runs_state(s, cut).1.len() == 0,
    decreases s.len(),
{
    if s.len() > 0 {
        lemma_runs_all_cut(s.drop_last(), cut);
    }
}

proof fn lemma_no_phrases_no_keywords(ps: Seq<Phrase>)
    requires
        ps.len() == 0,
    ensures
        keywords_from(ps).len() == 0,
{
    assert(distinct(ps).len() == 0);
    assert(ranked(scored_phrases(distinct(ps), occurrences(ps))).len() == 0);
}

/// A text whose every token is a stopword, the empty text among them, has no keywords.
pub proof fn lemma_all_stopwords(text: Seq<char>, stop: Seq<Seq<char>>)
    requires
        forall|i: int| 0 <= i < tokens(text).len() ==> stop.contains(#[trigger] tokens(text)[i]),
    ensures
        keywords_of(text, stop).len() == 0,
{
    let toks = tokens(text);
    let cut = stop_cut(toks, stop);
    assert forall|i: int| 0 <= i < toks.len() implies #[trigger] cut(i) by {
        assert(stop.contains(toks[i]));
    }
    lemma_runs_all_cut(toks, cut);
    lemma_no_phrases_no_keywords(phrases(toks, stop));
}

/// The empty text has no keywords.
pub proof fn lemma_empty_text_keywords(stop: Seq<Seq<char>>)
    ensures
        keywords_of(Seq::empty(), stop).len() == 0,
{
    assert(strip_marks(Seq::empty()).len() == 0);
    assert(words(Seq::<char>::empty()).len() == 0);
    lemma_all_stopwords(Seq::empty(), stop);
}

} // verus!

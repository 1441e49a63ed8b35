//! TextRank summarisation: damped centrality over a sentence-similarity graph.
use crate::rake::{distinct, lemma_distinct_unique, SCALE};
use crate::rank::{first_n, rank_desc, ranked, slot, Scored};
use crate::sentences::{boundary_cut, sentences};
use crate::text::{chars_of, contains_string, runs, split_words, texts, words};
use vstd::prelude::*;

verus! {

/// The number of update rounds.
pub const ROUNDS: usize = 20;

/// The damping factor, in percent.
pub const DAMPING_PERCENT: u128 = 85;

/// The part of every new score that does not flow along edges: `(1 - damping) * SCALE`.
pub const BASE: u128 = 150_000;

/// The integers of a sequence of `u128`.
pub open spec fn ints(s: Seq<u128>) -> Seq<int> {
    s.map_values(|x: u128| x as int)
}

/// The rows of a matrix of `u128`, as integers.
pub open spec fn int_rows(m: Seq<Vec<u128>>) -> Seq<Seq<int>> {
    m.map_values(|r: Vec<u128>| ints(r@))
}

/// The sum of a sequence.
pub open spec fn total(s: Seq<int>) -> int
    decreases s.len(),
{
    if s.len() == 0 {
        0
    } else {
        total(s.drop_last()) + s.last()
    }
}

/// How many elements of `a` occur in `b`.
pub open spec fn shared(a: Seq<Seq<char>>, b: Seq<Seq<char>>) -> int
    decreases a.len(),
{
    if a.len() == 0 {
        0
    } else {
        shared(a.drop_last(), b) + if b.contains(a.last()) {
            1int
        } else {
            0int
        }
    }
}

/// The overlap of two word sets `|a ∩ b| / ((|a| + |b|) / 2)`, in units of `1 / SCALE`, rounded down.
pub open spec fn overlap(a: Seq<Seq<char>>, b: Seq<Seq<char>>) -> int {
    if shared(a, b) == 0 {
        0
    } else {
        2 * shared(a, b) * SCALE / ((a.len() + b.len()) as int)
    }
}

/// The similarity of two sentences: the overlap of their sets of whitespace-delimited words.
pub open spec fn similarity(a: Seq<char>, b: Seq<char>) -> int {
    overlap(distinct(words(a)), distinct(words(b)))
}

/// The similarity graph: the weight of the edge from sentence `j` to sentence `k`, zero when `j == k`.
pub open spec fn weight_matrix(ss: Seq<Seq<char>>) -> Seq<Seq<int>> {
    Seq::new(
        ss.len(),
        |j: int|
            Seq::new(
                ss.len(),
                |k: int|
                    if j == k {
                        0
                    } else {
                        similarity(ss[j], ss[k])
                    },
            ),
    )
}

/// For a word list without repeats, `shared` is the size of the intersection of the two word sets.
pub proof fn lemma_shared_is_intersection(a: Seq<Seq<char>>, b: Seq<Seq<char>>)
    requires
        a.no_duplicates(),
    ensures
        shared(a, b) == a.to_set().intersect(b.to_set()).len(),
    decreases a.len(),
{
    if a.len() == 0 {
        assert(a.to_set().intersect(b.to_set()) =~= Set::empty());
    } else {
        let d = a.drop_last();
        let x = a.last();
        assert(d.no_duplicates());
        lemma_shared_is_intersection(d, b);
        assert(a =~= d.push(x));
        d.lemma_push_to_set_commute(x);
        let i0 = d.to_set().intersect(b.to_set());
        assert(!d.contains(x)) by {
            if d.contains(x) {
                let k = choose|k: int| 0 <= k < d.len() && d[k] == x;
                assert(a[k] == a[a.len() - 1]);
            }
        }
        vstd::seq_lib::seq_to_set_is_finite(d);
        if b.contains(x) {
            assert(a.to_set().intersect(b.to_set()) =~= i0.insert(x));
            assert(!i0.contains(x));
        } else {
            assert(a.to_set().intersect(b.to_set()) =~= i0);
        }
    }
}

/// The overlap of two finite sets `|a ∩ b| / ((|a| + |b|) / 2)`, in units of `1 / SCALE`.
pub open spec fn set_overlap(a: Set<Seq<char>>, b: Set<Seq<char>>) -> int {
    if a.intersect(b).len() == 0 {
        0
    } else {
        2 * a.intersect(b).len() * SCALE / ((a.len() + b.len()) as int)
    }
}

/// The similarity of two sentences is the overlap of the sets of their words.
pub proof fn lemma_similarity_of_sets(a: Seq<char>, b: Seq<char>)
    ensures
        similarity(a, b) == set_overlap(words(a).to_set(), words(b).to_set()),
{
    let (da, db) = (distinct(words(a)), distinct(words(b)));
    lemma_distinct_unique(words(a));
    lemma_distinct_unique(words(b));
    da.unique_seq_to_set();
    db.unique_seq_to_set();
    lemma_shared_is_intersection(da, db);
}

/// The distinct strings of `ws`, in order of first appearance.
pub fn distinct_strings(ws: &Vec<String>) -> (r: Vec<String>)
    ensures
        texts(r@) == distinct(texts(ws@)),
{
    let ghost tv = texts(ws@);
    let mut out: Vec<String> = Vec::new();
    let mut i: usize = 0;
    while i < ws.len()
        invariant
            i <= ws.len(),
            tv == texts(ws@),
            texts(out@) == distinct(tv.take(i as int)),
        decreases ws.len() - i,
    {
        assert(tv.take(i + 1).drop_last() =~= tv.take(i as int));
        assert(tv.take(i + 1).last() == ws@[i as int]@);
        if !contains_string(&out, &ws[i]) {
            let ghost before = out@;
            out.push(ws[i].clone());
            assert(texts(out@) =~= texts(before).push(ws@[i as int]@));
        }
        i = i + 1;
    }
    assert(tv.take(i as int) =~= tv);
    out
}

/// The overlap of two word sets, each given without repeats.
pub fn overlap_of(a: &Vec<String>, b: &Vec<String>) -> (r: u128)
    ensures
        r == overlap(texts(a@), texts(b@)),
        r <= 2 * SCALE,
{
    let ghost ta = texts(a@);
    let ghost tb = texts(b@);
    let mut c: usize = 0;
    let mut i: usize = 0;
    while i < a.len()
        invariant
            i <= a.len(),
            ta == texts(a@),
            tb == texts(b@),
            c == shared(ta.take(i as int), tb),
            c <= i,
        decreases a.len() - i,
    {
        assert(ta.take(i + 1).drop_last() =~= ta.take(i as int));
        assert(ta.take(i + 1).last() == a@[i as int]@);
        if contains_string(b, &a[i]) {
            c = c + 1;
        }
        i = i + 1;
    }
    assert(ta.take(i as int) =~= ta);
    if c == 0 {
        return 0;
    }
    let n = a.len() as u128 + b.len() as u128;
    proof {
        assert(2 * c * SCALE <= 2 * SCALE * n) by (nonlinear_arith)
            requires
                c <= n,
        ;
        assert(n > 0);
        vstd::arithmetic::div_mod::lemma_div_is_ordered(
            (2 * c * SCALE) as int,
            (2 * SCALE * n) as int,
            n as int,
        );
        vstd::arithmetic::div_mod::lemma_div_by_multiple((2 * SCALE) as int, n as int);
    }
    (2 * (c as u128) * SCALE) / n
}

/// The similarity graph of a list of sentences.
pub fn similarity_graph(ss: &Vec<String>) -> (r: Vec<Vec<u128>>)
    ensures
        int_rows(r@) == weight_matrix(texts(ss@)),
        forall|j: int, k: int|
            0 <= j < r.len() && 0 <= k < r@[j].len() ==> #[trigger] r@[j]@[k] <= 2 * SCALE,
{
    let ghost tv = texts(ss@);
    let n = ss.len();
    let mut sets: Vec<Vec<String>> = Vec::new();
    let mut i: usize = 0;
    while i < n
        invariant
            i <= n,
            n == ss.len(),
            tv == texts(ss@),
            sets.len() == i,
            forall|k: int| 0 <= k < i ==> texts(#[trigger] sets@[k]@) == distinct(words(tv[k])),
        decreases n - i,
    {
        let cs = chars_of(ss[i].as_str());
        let ws = split_words(&cs);
        let d = distinct_strings(&ws);
        sets.push(d);
        i = i + 1;
    }
    let mut m: Vec<Vec<u128>> = Vec::new();
    let mut j: usize = 0;
    while j < n
        invariant
            j <= n,
            n == ss.len(),
            tv == texts(ss@),
            sets.len() == n,
            forall|k: int| 0 <= k < n ==> texts(#[trigger] sets@[k]@) == distinct(words(tv[k])),
            m.len() == j,
            forall|q: int| 0 <= q < j ==> ints(#[trigger] m@[q]@) == weight_matrix(tv)[q],
            forall|q: int, k: int|
                0 <= q < j && 0 <= k < m@[q].len() ==> #[trigger] m@[q]@[k] <= 2 * SCALE,
        decreases n - j,
    {
        let mut row: Vec<u128> = Vec::new();
        let mut k: usize = 0;
        while k < n
            invariant
                j < n,
                k <= n,
                n == ss.len(),
                tv == texts(ss@),
                sets.len() == n,
                forall|q: int| 0 <= q < n ==> texts(#[trigger] sets@[q]@) == distinct(words(tv[q])),
                row.len() == k,
                forall|q: int| 0 <= q < k ==> (#[trigger] row@[q]) as int == weight_matrix(tv)[j as int][q],
                forall|q: int| 0 <= q < k ==> #[trigger] row@[q] <= 2 * SCALE,
            decreases n - k,
        {
            let x = if j == k {
                0
            } else {
                overlap_of(&sets[j], &sets[k])
            };
            row.push(x);
            k = k + 1;
        }
        assert(ints(row@) =~= weight_matrix(tv)[j as int]);
        m.push(row);
        j = j + 1;
    }
    assert(int_rows(m@) =~= weight_matrix(tv));
    m
}

/// What sentence `j` passes to sentence `i` in one round: its score split in proportion to the
/// weights of its edges; nothing from itself or from a sentence without edges.
pub open spec fn share(w: Seq<Seq<int>>, s: Seq<int>, j: int, i: int) -> int {
    if j != i && total(w[j]) > 0 {
        w[j][i] * s[j] / total(w[j])
    } else {
        0
    }
}

/// What sentence `i` receives from sentences `0..m`.
pub open spec fn inbound(w: Seq<Seq<int>>, s: Seq<int>, i: int, m: int) -> int
    decreases m,
{
    if m <= 0 {
        0
    } else {
        inbound(w, s, i, m - 1) + share(w, s, m - 1, i)
    }
}

/// One synchronous round: `new[i] = (1 - damping) + damping * inbound[i]`, in fixed point.
pub open spec fn rank_step(w: Seq<Seq<int>>, s: Seq<int>) -> Seq<int> {
    Seq::new(s.len(), |i: int| BASE + DAMPING_PERCENT * inbound(w, s, i, s.len() as int) / 100)
}

/// The scores after `rounds` rounds, every score starting at 1.
pub open spec fn rank_scores(w: Seq<Seq<int>>, rounds: nat) -> Seq<int>
    decreases rounds,
{
    if rounds == 0 {
        Seq::new(w.len(), |i: int| SCALE as int)
    } else {
        rank_step(w, rank_scores(w, (rounds - 1) as nat))
    }
}

/// `w` is an `n` by `n` matrix of weights from zero to `2 * SCALE`.
pub open spec fn square(w: Seq<Seq<int>>, n: int) -> bool {
    &&& w.len() == n
    &&& forall|j: int| 0 <= j < n ==> (#[trigger] w[j]).len() == n
    &&& forall|j: int, k: int| 0 <= j < n && 0 <= k < n ==> 0 <= #[trigger] w[j][k] <= 2 * SCALE
}

proof fn lemma_total_take(s: Seq<int>, k: int)
    requires
        0 <= k < s.len(),
    ensures
        total(s.take(k + 1)) == total(s.take(k)) + s[k],
{
    assert(s.take(k + 1).drop_last() =~= s.take(k));
}

proof fn lemma_total_update(s: Seq<int>, i: int, v: int)
    requires
        0 <= i < s.len(),
    ensures
        total(s.update(i, v)) == total(s) - s[i] + v,
    decreases s.len(),
{
    if i < s.len() - 1 {
        assert(s.update(i, v).drop_last() =~= s.drop_last().update(i, v));
        lemma_total_update(s.drop_last(), i, v);
    } else {
        assert(s.update(i, v).drop_last() =~= s.drop_last());
    }
}

proof fn lemma_total_bounds(s: Seq<int>, hi: int)
    requires
        forall|k: int| 0 <= k < s.len() ==> 0 <= #[trigger] s[k] <= hi,
    ensures
        0 <= total(s) <= s.len() * hi,
        forall|k: int| 0 <= k < s.len() ==> #[trigger] s[k] <= total(s),
        forall|k: int| 0 <= k <= s.len() ==> #[trigger] total(s.take(k)) <= total(s),
    decreases s.len(),
{
    if s.len() > 0 {
        let d = s.drop_last();
        lemma_total_bounds(d, hi);
        assert(d.len() * hi + hi == s.len() * hi) by (nonlinear_arith)
            requires
                d.len() + 1 == s.len(),
        ;
        assert forall|k: int| 0 <= k < s.len() implies #[trigger] s[k] <= total(s) by {
            if k < d.len() {
                assert(s[k] == d[k]);
            }
        }
        assert forall|k: int| 0 <= k <= s.len() implies #[trigger] total(s.take(k)) <= total(s) by {
            if k < s.len() {
                assert(s.take(k) =~= d.take(k));
            } else {
                assert(s.take(k) =~= s);
            }
        }
    }
}

/// The total weight of each row of `w`.
fn row_totals(w: &Vec<Vec<u128>>) -> (r: Vec<u128>)
    requires
        square(int_rows(w@), w.len() as int),
    ensures
        r.len() == w.len(),
        forall|j: int| 0 <= j < w.len() ==> (#[trigger] r@[j]) as int == total(int_rows(w@)[j]),
{
    let ghost wm = int_rows(w@);
    let n = w.len();
    let mut r: Vec<u128> = Vec::new();
    let mut j: usize = 0;
    while j < n
        invariant
            j <= n,
            n == w.len(),
            wm == int_rows(w@),
            square(wm, n as int),
            r.len() == j,
            forall|q: int| 0 <= q < j ==> (#[trigger] r@[q]) as int == total(wm[q]),
        decreases n - j,
    {
        let ghost row = wm[j as int];
        assert(row == ints(w@[j as int]@));
        let mut acc: u128 = 0;
        let mut k: usize = 0;
        while k < n
            invariant
                j < n,
                k <= n,
                n == w.len(),
                wm == int_rows(w@),
                square(wm, n as int),
                row == wm[j as int],
                row == ints(w@[j as int]@),
                acc as int == total(row.take(k as int)),
                acc <= k * (2 * SCALE),
            decreases n - k,
        {
            proof {
                lemma_total_take(row, k as int);
                assert(row[k as int] == w@[j as int]@[k as int] as int);
                assert(wm[j as int][k as int] <= 2 * SCALE);
                assert(k * (2 * SCALE) + 2 * SCALE == (k + 1) * (2 * SCALE)) by (nonlinear_arith);
                assert(k * (2 * SCALE) <= usize::MAX * (2 * SCALE)) by (nonlinear_arith)
                    requires
                        k <= usize::MAX,
                ;
            }
            acc = acc + w[j][k];
            k = k + 1;
        }
        assert(row.take(n as int) =~= row);
        r.push(acc);
        j = j + 1;
    }
    r
}

/// One round of the centrality update.
fn rank_round(w: &Vec<Vec<u128>>, rt: &Vec<u128>, s: &Vec<u128>) -> (r: Vec<u128>)
    requires
        square(int_rows(w@), s.len() as int),
        rt.len() == s.len(),
        forall|j: int| 0 <= j < s.len() ==> (#[trigger] rt@[j]) as int == total(int_rows(w@)[j]),
        total(ints(s@)) <= s.len() * SCALE,
    ensures
        ints(r@) == rank_step(int_rows(w@), ints(s@)),
        total(ints(r@)) <= s.len() * SCALE,
{
    let ghost wm = int_rows(w@);
    let ghost sv = ints(s@);
    let n = s.len();
    proof {
        assert forall|k: int| 0 <= k < sv.len() implies 0 <= #[trigger] sv[k] <= n * SCALE by {
            lemma_total_bounds(sv, u128::MAX as int);
        }
        lemma_total_bounds(sv, (n * SCALE) as int);
    }
    let mut acc: Vec<u128> = Vec::new();
    let mut i: usize = 0;
    while i < n
        invariant
            i <= n,
            acc.len() == i,
            forall|q: int| 0 <= q < i ==> #[trigger] acc@[q] == 0,
        decreases n - i,
    {
        acc.push(0);
        i = i + 1;
    }
    assert(total(ints(acc@)) == 0) by {
        lemma_total_bounds(ints(acc@), 0);
    }
    let mut j: usize = 0;
    while j < n
        invariant
            j <= n,
            n == s.len(),
            wm == int_rows(w@),
            sv == ints(s@),
            square(wm, n as int),
            rt.len() == n,
            forall|q: int| 0 <= q < n ==> (#[trigger] rt@[q]) as int == total(wm[q]),
            forall|k: int| 0 <= k < n ==> 0 <= #[trigger] sv[k] <= n * SCALE,
            forall|k: int| 0 <= k <= n ==> #[trigger] total(sv.take(k)) <= total(sv),
            total(sv) <= n * SCALE,
            acc.len() == n,
            forall|q: int| 0 <= q < n ==> (#[trigger] acc@[q]) as int == inbound(wm, sv, q, j as int),
            total(ints(acc@)) <= total(sv.take(j as int)),
        decreases n - j,
    {
        let ghost t0 = total(ints(acc@));
        let rj = rt[j];
        let sj = s[j];
        proof {
            lemma_total_take(sv, j as int);
            assert(sv[j as int] == sj as int);
        }
        if rj > 0 {
            let ghost row = wm[j as int];
            proof {
                assert(row == ints(w@[j as int]@));
                lemma_total_bounds(row, 2 * SCALE);
            }
            let mut i: usize = 0;
            while i < n
                invariant
                    j < n,
                    i <= n,
                    n == s.len(),
                    wm == int_rows(w@),
                    sv == ints(s@),
                    square(wm, n as int),
                    row == wm[j as int],
                    row == ints(w@[j as int]@),
                    rj as int == total(row),
                    rj > 0,
                    sj as int == sv[j as int],
                    sj <= n * SCALE,
                    forall|k: int| 0 <= k <= n ==> #[trigger] total(row.take(k)) <= total(row),
                    total(sv.take(j as int)) + sj <= total(sv),
                    total(sv) <= n * SCALE,
                    acc.len() == n,
                    forall|q: int|
                        0 <= q < i ==> (#[trigger] acc@[q]) as int == inbound(wm, sv, q, j + 1),
                    forall|q: int|
                        i <= q < n ==> (#[trigger] acc@[q]) as int == inbound(wm, sv, q, j as int),
                    t0 <= total(sv.take(j as int)),
                    total(ints(acc@)) >= t0,
                    (total(ints(acc@)) - t0) * rj <= total(row.take(i as int)) * sj,
                decreases n - i,
            {
                proof {
                    lemma_total_take(row, i as int);
                    assert(row[i as int] == w@[j as int]@[i as int] as int);
                }
                if i != j {
                    let wji = w[j][i];
                    assert(wji * sj <= 2 * SCALE * (n * SCALE)) by (nonlinear_arith)
                        requires
                            wji <= 2 * SCALE,
                            sj <= n * SCALE,
                    ;
                    assert(2 * SCALE * (n * SCALE) <= 2 * SCALE * (usize::MAX * SCALE))
                        by (nonlinear_arith)
                        requires
                            n <= usize::MAX,
                    ;
                    let c = wji * sj / rj;
                    let ghost before = ints(acc@);
                    let ghost tot = total(before);
                    let ghost pre = total(row.take(i as int));
                    proof {
                        vstd::arithmetic::div_mod::lemma_fundamental_div_mod((wji * sj) as int, rj as int);
                        assert(c * rj <= wji * sj) by (nonlinear_arith)
                            requires
                                c == (wji * sj) / (rj as int),
                                rj > 0,
                        ;
                        assert((tot - t0 + c) * rj <= (pre + wji) * sj) by (nonlinear_arith)
                            requires
                                (tot - t0) * rj <= pre * sj,
                                c * rj <= wji * sj,
                        ;
                        assert(pre + wji <= rj);
                        assert((pre + wji) * sj <= rj * sj) by (nonlinear_arith)
                            requires
                                pre + wji <= rj,
                                sj >= 0,
                        ;
                        assert(tot - t0 + c <= sj) by (nonlinear_arith)
                            requires
                                (tot - t0 + c) * rj <= rj * sj,
                                rj > 0,
                        ;
                        lemma_total_bounds(before, u128::MAX as int);
                        assert(before[i as int] == acc@[i as int] as int);
                    }
                    let v = acc[i] + c;
                    acc.set(i, v);
                    proof {
                        lemma_total_update(before, i as int, v as int);
                        assert(ints(acc@) =~= before.update(i as int, v as int));
                    }
                } else {
                    proof {
                        let pre = total(row.take(i as int));
                        let tot = total(ints(acc@));
                        assert(row[i as int] >= 0);
                        assert((tot - t0) * rj <= (pre + row[i as int]) * sj) by (nonlinear_arith)
                            requires
                                (tot - t0) * rj <= pre * sj,
                                row[i as int] >= 0,
                                sj >= 0,
                        ;
                    }
                }
                i = i + 1;
            }
            proof {
                assert(row.take(n as int) =~= row);
                assert(total(ints(acc@)) - t0 <= sj) by (nonlinear_arith)
                    requires
                        (total(ints(acc@)) - t0) * rj <= rj * sj,
                        rj > 0,
                ;
            }
        } else {
            assert forall|q: int| 0 <= q < n implies (#[trigger] acc@[q]) as int == inbound(wm, sv, q, j + 1) by {
                assert(share(wm, sv, j as int, q) == 0);
            }
        }
        j = j + 1;
    }
    assert(sv.take(n as int) =~= sv);
    let ghost av = ints(acc@);
    let mut out: Vec<u128> = Vec::new();
    let mut i: usize = 0;
    while i < n
        invariant
            i <= n,
            n == s.len(),
            acc.len() == n,
            av == ints(acc@),
            forall|q: int| 0 <= q < n ==> (#[trigger] acc@[q]) as int == inbound(wm, sv, q, n as int),
            total(av) <= n * SCALE,
            out.len() == i,
            forall|q: int|
                0 <= q < i ==> (#[trigger] out@[q]) as int == BASE + DAMPING_PERCENT * inbound(wm, sv, q, n as int) / 100,
            100 * total(ints(out@)) <= 100 * i * BASE + DAMPING_PERCENT * total(av.take(i as int)),
        decreases n - i,
    {
        let a = acc[i];
        proof {
            lemma_total_take(av, i as int);
            lemma_total_bounds(av, u128::MAX as int);
            assert(av[i as int] == a as int);
            assert(a <= n * SCALE);
            assert(DAMPING_PERCENT * a <= DAMPING_PERCENT * (usize::MAX * SCALE)) by (nonlinear_arith)
                requires
                    a <= n * SCALE,
                    n <= usize::MAX,
            ;
        }
        let v = BASE + DAMPING_PERCENT * a / 100;
        let ghost before = ints(out@);
        out.push(v);
        proof {
            assert(ints(out@) =~= before.push(v as int));
            assert(ints(out@).drop_last() =~= before);
            assert(100 * (DAMPING_PERCENT * a / 100) <= DAMPING_PERCENT * a) by (nonlinear_arith);
        }
        i = i + 1;
    }
    proof {
        assert(av.take(n as int) =~= av);
        assert(100 * n * BASE + DAMPING_PERCENT * (n * SCALE) == 100 * (n * SCALE)) by (nonlinear_arith);
        assert(ints(out@) =~= rank_step(wm, sv));
    }
    out
}

/// Each sentence's index with its score.
pub open spec fn scored_sentences(sc: Seq<int>) -> Seq<Scored> {
    Seq::new(sc.len(), |i: int| (i as usize, sc[i] as u128))
}

/// The summary of a text: its `k` best-scoring sentences, best first, ties in reading order.
pub open spec fn summary_of(text: Seq<char>, k: int) -> Seq<Seq<char>> {
    let ss = sentences(text);
    first_n(ranked(scored_sentences(rank_scores(weight_matrix(ss), ROUNDS as nat))), k).map_values(
        |x: Scored| ss[x.0 as int],
    )
}

/// The score of every sentence after the fixed number of rounds.
pub fn rank_sentences(ss: &Vec<String>) -> (r: Vec<u128>)
    ensures
        r.len() == ss.len(),
        ints(r@) == rank_scores(weight_matrix(texts(ss@)), ROUNDS as nat),
{
    let ghost tv = texts(ss@);
    let w = similarity_graph(ss);
    let n = ss.len();
    proof {
        assert(int_rows(w@).len() == n);
        assert forall|j: int| 0 <= j < n implies (#[trigger] int_rows(w@)[j]).len() == n by {
            assert(int_rows(w@)[j] == weight_matrix(tv)[j]);
        }
        assert forall|j: int, k: int| 0 <= j < n && 0 <= k < n implies 0 <= #[trigger] int_rows(
            w@,
        )[j][k] <= 2 * SCALE by {
            assert(int_rows(w@)[j] == ints(w@[j]@));
            assert(int_rows(w@)[j].len() == n);
            assert(int_rows(w@)[j][k] == w@[j]@[k] as int);
        }
    }
    let rt = row_totals(&w);
    let mut s: Vec<u128> = Vec::new();
    let mut i: usize = 0;
    while i < n
        invariant
            i <= n,
            s.len() == i,
            forall|q: int| 0 <= q < i ==> #[trigger] s@[q] == SCALE,
        decreases n - i,
    {
        s.push(SCALE);
        i = i + 1;
    }
    proof {
        lemma_total_bounds(ints(s@), SCALE as int);
        assert(ints(s@) =~= rank_scores(weight_matrix(tv), 0));
    }
    let mut round: usize = 0;
    while round < ROUNDS
        invariant
            round <= ROUNDS,
            n == ss.len(),
            s.len() == n,
            int_rows(w@) == weight_matrix(tv),
            square(int_rows(w@), n as int),
            rt.len() == n,
            forall|j: int| 0 <= j < n ==> (#[trigger] rt@[j]) as int == total(int_rows(w@)[j]),
            ints(s@) == rank_scores(weight_matrix(tv), round as nat),
            total(ints(s@)) <= n * SCALE,
        decreases ROUNDS - round,
    {
        let next = rank_round(&w, &rt, &s);
        s = next;
        round = round + 1;
    }
    s
}

/// The `k` best-scoring strings of `ss`, best first; equal scores keep their order in `ss`.
pub fn select_top(ss: &Vec<String>, scores: &Vec<u128>, k: usize) -> (r: Vec<String>)
    requires
        scores.len() == ss.len(),
    ensures
        texts(r@) == first_n(ranked(scored_sentences(ints(scores@))), k as int).map_values(
            |x: Scored| texts(ss@)[x.0 as int],
        ),
        r.len() <= k,
{
    let ghost tv = texts(ss@);
    let mut items: Vec<Scored> = Vec::new();
    let mut i: usize = 0;
    while i < ss.len()
        invariant
            i <= ss.len(),
            scores.len() == ss.len(),
            items@ == scored_sentences(ints(scores@)).take(i as int),
        decreases ss.len() - i,
    {
        items.push((i, scores[i]));
        assert(items@ =~= scored_sentences(ints(scores@)).take(i + 1));
        i = i + 1;
    }
    assert(items@ =~= scored_sentences(ints(scores@)));
    let order = rank_desc(&items);
    let ghost top = first_n(order@, k as int);
    let n: usize = if order.len() < k { order.len() } else { k };
    proof {
        crate::rank::lemma_ranked_sorted(items@);
        assert forall|m: int| 0 <= m < order.len() implies (#[trigger] order@[m]).0 < ss.len() by {
            vstd::seq_lib::to_multiset_contains(order@, order@[m]);
            vstd::seq_lib::to_multiset_contains(items@, order@[m]);
            assert(order@.contains(order@[m]));
        }
    }
    let mut out: Vec<String> = Vec::new();
    let mut m: usize = 0;
    while m < n
        invariant
            m <= n,
            n <= order.len(),
            n <= k,
            n == top.len(),
            top == first_n(order@, k as int),
            tv == texts(ss@),
            forall|q: int| 0 <= q < order.len() ==> (#[trigger] order@[q]).0 < ss.len(),
            out@.len() == m,
            forall|q: int| 0 <= q < m ==> (#[trigger] out@[q])@ == tv[top[q].0 as int],
        decreases n - m,
    {
        let idx = order[m].0;
        assert(top[m as int] == order@[m as int]);
        out.push(ss[idx].clone());
        m = m + 1;
    }
    assert(texts(out@) =~= top.map_values(|x: Scored| tv[x.0 as int]));
    out
}

proof fn lemma_rank_scores_len(w: Seq<Seq<int>>, rounds: nat)
    ensures
        rank_scores(w, rounds).len() == w.len(),
    decreases rounds,
{
    if rounds > 0 {
        lemma_rank_scores_len(w, (rounds - 1) as nat);
    }
}

/// A text of one sentence is summarised by that sentence, whatever the number asked for.
pub proof fn lemma_single_sentence(text: Seq<char>, k: int)
    requires
        sentences(text).len() == 1,
        k >= 1,
    ensures
        summary_of(text, k) == sentences(text),
{
    let ss = sentences(text);
    let sc = rank_scores(weight_matrix(ss), ROUNDS as nat);
    lemma_rank_scores_len(weight_matrix(ss), ROUNDS as nat);
    let items = scored_sentences(sc);
    assert(items.drop_last() =~= Seq::<Scored>::empty());
    assert(ranked(items.drop_last()) == Seq::<Scored>::empty());
    assert(slot(Seq::<Scored>::empty(), items.last()) == 0);
    assert(Seq::<Scored>::empty().insert(0, items.last()) =~= seq![items[0]]);
    assert(ranked(items) =~= seq![items[0]]);
    assert(summary_of(text, k) =~= ss);
}

/// The empty text has an empty summary.
pub proof fn lemma_empty_text_summary(k: int)
    requires
        k >= 0,
    ensures
        summary_of(Seq::empty(), k).len() == 0,
{
    let e = Seq::<char>::empty();
    assert(runs(e, boundary_cut(e)).len() == 0);
    assert(sentences(e).len() == 0);
    lemma_rank_scores_len(weight_matrix(sentences(e)), ROUNDS as nat);
    let items = scored_sentences(rank_scores(weight_matrix(sentences(e)), ROUNDS as nat));
    assert(items.len() == 0);
    assert(ranked(items).len() == 0);
    assert(first_n(ranked(items), k).len() == 0);
}

} // verus!

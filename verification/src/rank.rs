//! Ranking: scores every document of a model against a query, keeps the
//! documents with a strictly positive score, and sorts them by descending
//! score with a stable tie-break.
use vstd::prelude::*;

use crate::lexer::tokenize_spec;
use crate::model::DocEntry;
use crate::model::Model;
use crate::score::compute_score;
use crate::score::sat64;
use crate::score::score_num;
use crate::score::tf_count;
use crate::score::df_of;
use crate::score::spec_idf_micro;
use crate::score::lemma_idf_zero_iff;
use crate::score::total_of;
use crate::score::Score;

verus! {

/// One ranked document: its identifier and its score.
pub struct Hit {
    pub doc: String,
    pub score: Score,
}

/// `a` ranks strictly below `b`: the exact rational comparison
/// `a.num / a.den < b.num / b.den` by cross-multiplication.
pub open spec fn score_lt(a: Score, b: Score) -> bool {
    (a.num as int) * (b.den as int) < (b.num as int) * (a.den as int)
}

/// The two scores rank equal.
pub open spec fn score_eq(a: Score, b: Score) -> bool {
    !score_lt(a, b) && !score_lt(b, a)
}

/// Decides `score_lt`; the products fit in twice a machine word.
pub fn score_below(a: Score, b: Score) -> (r: bool)
    ensures
        r == score_lt(a, b),
{
    proof {
        assert((a.num as int) * (b.den as int) < 0x1_0000_0000_0000_0000 * 0x1_0000_0000_0000_0000)
            by (nonlinear_arith)
            requires
                0 <= a.num as int && (a.num as int) < 0x1_0000_0000_0000_0000,
                0 <= b.den as int && (b.den as int) < 0x1_0000_0000_0000_0000,
        ;
        assert((b.num as int) * (a.den as int) < 0x1_0000_0000_0000_0000 * 0x1_0000_0000_0000_0000)
            by (nonlinear_arith)
            requires
                0 <= b.num as int && (b.num as int) < 0x1_0000_0000_0000_0000,
                0 <= a.den as int && (a.den as int) < 0x1_0000_0000_0000_0000,
        ;
    }
    (a.num as u128) * (b.den as u128) < (b.num as u128) * (a.den as u128)
}

/// The documents with a strictly positive score, in model order, each
/// with its score.
pub open spec fn candidates(
    docs: Seq<DocEntry>,
    toks: Seq<Seq<char>>,
    n: int,
    df: Map<Seq<char>, nat>,
) -> Seq<Hit>
    decreases docs.len(),
{
    if docs.len() == 0 {
        Seq::empty()
    } else {
        let rest = candidates(docs.drop_last(), toks, n, df);
        let h = Hit {
            doc: docs.last().path,
            score: Score {
                num: sat64(score_num(toks, docs.last().tf@, n, df)),
                den: sat64(total_of(docs.last().tf.entries@)),
            },
        };
        if h.score.num >= 1 {
            rest.push(h)
        } else {
            rest
        }
    }
}

/// Inserts `h` into a descending list, after every element that does not
/// rank strictly below it: ties keep the earlier element first.
pub open spec fn insert_desc(sorted: Seq<Hit>, h: Hit) -> Seq<Hit>
    decreases sorted.len(),
{
    if sorted.len() == 0 {
        seq![h]
    } else if score_lt(sorted[0].score, h.score) {
        seq![h] + sorted
    } else {
        seq![sorted[0]] + insert_desc(sorted.drop_first(), h)
    }
}

/// Stable insertion sort into descending order.
pub open spec fn sort_desc(s: Seq<Hit>) -> Seq<Hit>
    decreases s.len(),
{
    if s.len() == 0 {
        Seq::empty()
    } else {
        insert_desc(sort_desc(s.drop_last()), s.last())
    }
}

/// The full ranked result of a query against a model.
pub open spec fn rank_spec(q: Seq<char>, docs: Seq<DocEntry>, df: Map<Seq<char>, nat>) -> Seq<
    Hit,
> {
    sort_desc(candidates(docs, tokenize_spec(q), docs.len() as int, df))
}

/// Where `insert_desc` places the new element: right after the last
/// element not ranking strictly below it.
pub open spec fn ins_pos(sorted: Seq<Hit>, h: Hit) -> int
    decreases sorted.len(),
{
    if sorted.len() == 0 {
        0
    } else if score_lt(sorted[0].score, h.score) {
        0
    } else {
        1 + ins_pos(sorted.drop_first(), h)
    }
}

/// `insert_desc` splits the list at `ins_pos`: everything before stays,
/// `h` goes in, everything after follows.
pub proof fn lemma_insert_desc_split(sorted: Seq<Hit>, h: Hit)
    ensures
        0 <= ins_pos(sorted, h) <= sorted.len(),
        insert_desc(sorted, h) == sorted.take(ins_pos(sorted, h)) + seq![h] + sorted.skip(
            ins_pos(sorted, h),
        ),
        forall|q: int|
            0 <= q < ins_pos(sorted, h) ==> !score_lt((#[trigger] sorted[q]).score, h.score),
        ins_pos(sorted, h) < sorted.len() ==> score_lt(
            sorted[ins_pos(sorted, h)].score,
            h.score,
        ),
    decreases sorted.len(),
{
    let p = ins_pos(sorted, h);
    if sorted.len() == 0 {
        assert(insert_desc(sorted, h) =~= sorted.take(p) + seq![h] + sorted.skip(p));
    } else if score_lt(sorted[0].score, h.score) {
        assert(insert_desc(sorted, h) =~= sorted.take(p) + seq![h] + sorted.skip(p));
    } else {
        lemma_insert_desc_split(sorted.drop_first(), h);
        assert forall|q: int| 0 <= q < p implies !score_lt(
            (#[trigger] sorted[q]).score,
            h.score,
        ) by {
            if q > 0 {
                assert(sorted.drop_first()[q - 1] == sorted[q]);
            }
        }
        if p < sorted.len() {
            assert(sorted.drop_first()[p - 1] == sorted[p]);
        }
        assert(insert_desc(sorted, h) =~= sorted.take(p) + seq![h] + sorted.skip(p));
    }
}

/// The exact position where the scan of an insertion stops is where
/// `insert_desc` splits.
pub proof fn lemma_ins_pos_is(sorted: Seq<Hit>, h: Hit, p: int)
    requires
        0 <= p <= sorted.len(),
        forall|q: int| 0 <= q < p ==> !score_lt((#[trigger] sorted[q]).score, h.score),
        p < sorted.len() ==> score_lt(sorted[p].score, h.score),
    ensures
        ins_pos(sorted, h) == p,
    decreases sorted.len(),
{
    if sorted.len() > 0 && !score_lt(sorted[0].score, h.score) {
        assert forall|q: int| 0 <= q < p - 1 implies !score_lt(
            (#[trigger] sorted.drop_first()[q]).score,
            h.score,
        ) by {
            assert(sorted.drop_first()[q] == sorted[q + 1]);
        }
        if p - 1 < sorted.drop_first().len() {
            assert(sorted.drop_first()[p - 1] == sorted[p]);
        }
        lemma_ins_pos_is(sorted.drop_first(), h, p - 1);
    }
}

/// Every denominator in the list is positive.
pub open spec fn all_dens_pos(s: Seq<Hit>) -> bool {
    forall|i: int| 0 <= i < s.len() ==> (#[trigger] s[i]).score.den >= 1
}

/// Sorted by descending score: no earlier element ranks strictly below a
/// later one.
pub open spec fn sorted_desc(s: Seq<Hit>) -> bool {
    forall|i: int, j: int|
        0 <= i < j < s.len() ==> !score_lt((#[trigger] s[i]).score, (#[trigger] s[j]).score)
}

/// Ranking strictly below something at least as low is still strictly
/// below.
proof fn lemma_lt_ge_trans(a: Score, b: Score, h: Score)
    requires
        score_lt(a, h),
        !score_lt(a, b),
        a.den >= 1,
        b.den >= 1,
    ensures
        score_lt(b, h),
{
    let an = a.num as int;
    let ad = a.den as int;
    let bn = b.num as int;
    let bd = b.den as int;
    let hn = h.num as int;
    let hd = h.den as int;
    assert(bn * ad * hd <= an * bd * hd) by (nonlinear_arith)
        requires
            bn * ad <= an * bd,
            hd >= 0,
    ;
    assert(an * bd * hd < hn * bd * ad) by (nonlinear_arith)
        requires
            an * hd < hn * ad,
            bd >= 1,
    ;
    assert(bn * hd * ad < hn * bd * ad) by (nonlinear_arith)
        requires
            bn * ad * hd <= an * bd * hd,
            an * bd * hd < hn * bd * ad,
    ;
    assert(bn * hd < hn * bd) by (nonlinear_arith)
        requires
            bn * hd * ad < hn * bd * ad,
            ad >= 1,
    ;
}

/// What inserting preserves: length, membership, positivity and order.
pub proof fn lemma_insert_desc_props(s: Seq<Hit>, h: Hit)
    requires
        sorted_desc(s),
        all_dens_pos(s),
        h.score.den >= 1,
    ensures
        insert_desc(s, h).len() == s.len() + 1,
        all_dens_pos(insert_desc(s, h)),
        sorted_desc(insert_desc(s, h)),
        forall|x: Hit| #[trigger] insert_desc(s, h).contains(x) ==> s.contains(x) || x == h,
        forall|x: Hit| #[trigger] s.contains(x) ==> insert_desc(s, h).contains(x),
        insert_desc(s, h).contains(h),
{
    let r = insert_desc(s, h);
    let p = ins_pos(s, h);
    lemma_insert_desc_split(s, h);
    assert forall|x: Hit| r.contains(x) implies s.contains(x) || x == h by {
        let k = choose|k: int| 0 <= k < r.len() && r[k] == x;
        if k < p {
            assert(s[k] == x);
        } else if k > p {
            assert(s[k - 1] == x);
        }
    }
    assert forall|x: Hit| s.contains(x) || x == h implies r.contains(x) by {
        if s.contains(x) {
            let k = choose|k: int| 0 <= k < s.len() && s[k] == x;
            if k < p {
                assert(r[k] == x);
            } else {
                assert(r[k + 1] == x);
            }
        } else {
            assert(r[p] == x);
        }
    }
    assert forall|i: int| 0 <= i < r.len() implies (#[trigger] r[i]).score.den >= 1 by {
        if i < p {
            assert(r[i] == s[i]);
        } else if i > p {
            assert(r[i] == s[i - 1]);
        }
    }
    assert forall|i: int, j: int| 0 <= i < j < r.len() implies !score_lt(
        (#[trigger] r[i]).score,
        (#[trigger] r[j]).score,
    ) by {
        if i < p && j < p {
            assert(r[i] == s[i] && r[j] == s[j]);
        } else if i < p && j == p {
            // an element before the split does not rank below `h`
            assert(r[i] == s[i]);
        } else if i < p && j > p {
            assert(r[i] == s[i] && r[j] == s[j - 1]);
        } else if i == p && j > p {
            // `h` ranks above the element at the split, which ranks at
            // least as high as everything after it
            assert(r[j] == s[j - 1]);
            assert(score_lt(s[p].score, h.score));
            if j - 1 > p {
                assert(!score_lt(s[p].score, s[j - 1].score));
                lemma_lt_ge_trans(s[p].score, s[j - 1].score, h.score);
            }
        } else if i > p {
            assert(r[i] == s[i - 1] && r[j] == s[j - 1]);
        }
    }
}

/// What sorting preserves and guarantees: length, membership, positivity
/// and descending order.
pub proof fn lemma_sort_desc_props(s: Seq<Hit>)
    requires
        all_dens_pos(s),
    ensures
        sort_desc(s).len() == s.len(),
        all_dens_pos(sort_desc(s)),
        sorted_desc(sort_desc(s)),
        forall|x: Hit| sort_desc(s).contains(x) <==> s.contains(x),
    decreases s.len(),
{
    if s.len() > 0 {
        let dl = s.drop_last();
        let h = s.last();
        let r0 = sort_desc(dl);
        assert forall|i: int| 0 <= i < dl.len() implies (#[trigger] dl[i]).score.den >= 1 by {
            assert(dl[i] == s[i]);
        }
        lemma_sort_desc_props(dl);
        assert(s[s.len() - 1].score.den >= 1);
        lemma_insert_desc_props(r0, h);
        assert(sort_desc(s) == insert_desc(r0, h));
        assert forall|x: Hit| sort_desc(s).contains(x) implies s.contains(x) by {
            assert(insert_desc(r0, h).contains(x));
            if r0.contains(x) {
                assert(dl.contains(x));
                let k = choose|k: int| 0 <= k < dl.len() && dl[k] == x;
                assert(s[k] == x);
            } else {
                assert(x == h);
                assert(s[s.len() - 1] == x);
            }
        }
        assert forall|x: Hit| s.contains(x) implies sort_desc(s).contains(x) by {
            let k = choose|k: int| 0 <= k < s.len() && s[k] == x;
            if k < s.len() - 1 {
                assert(dl[k] == x);
                assert(dl.contains(x));
                assert(r0.contains(x));
            } else {
                assert(x == h);
            }
            assert(r0.contains(x) || x == h);
            assert(insert_desc(r0, h).contains(x));
        }
    }
}

/// Ranking stability: when two ranked results tie in score, they stand
/// in the same relative order as before sorting.
pub proof fn lemma_sort_desc_stable(s: Seq<Hit>)
    requires
        all_dens_pos(s),
        forall|i: int, j: int| 0 <= i < j < s.len() ==> s[i] != s[j],
    ensures
        forall|i: int, j: int|
            0 <= i < j < sort_desc(s).len() && score_eq(
                (#[trigger] sort_desc(s)[i]).score,
                (#[trigger] sort_desc(s)[j]).score,
            ) ==> exists|i0: int, j0: int|
                0 <= i0 < j0 < s.len() && s[i0] == sort_desc(s)[i] && s[j0] == sort_desc(s)[j],
    decreases s.len(),
{
    if s.len() > 0 {
        let dl = s.drop_last();
        let h = s.last();
        let r0 = sort_desc(dl);
        let r = sort_desc(s);
        lemma_sort_desc_props(dl);
        lemma_sort_desc_stable(dl);
        lemma_insert_desc_props(r0, h);
        let p = ins_pos(r0, h);
        lemma_insert_desc_split(r0, h);
        assert forall|i: int, j: int|
            0 <= i < j < r.len() && score_eq((#[trigger] r[i]).score, (#[trigger] r[j]).score)
                implies exists|i0: int, j0: int|
            0 <= i0 < j0 < s.len() && s[i0] == r[i] && s[j0] == r[j] by {
            let a = r[i];
            let b = r[j];
            if i == p {
                // everything after the inserted element ranks strictly
                // below it, so the pair cannot tie
                assert(b == r0[j - 1]);
                assert(score_lt(r0[p].score, h.score));
                if j - 1 > p {
                    assert(!score_lt(r0[p].score, r0[j - 1].score));
                    lemma_lt_ge_trans(r0[p].score, r0[j - 1].score, h.score);
                }
                assert(false);
            } else if j == p {
                // the earlier element comes from the unsorted list, the
                // later one is its last element
                let a0 = if i < p {
                    r0[i]
                } else {
                    r0[i - 1]
                };
                assert(a == a0);
                assert(r0.contains(a0));
                assert(dl.contains(a0));
                let i0 = choose|i0: int| 0 <= i0 < dl.len() && dl[i0] == a0;
                assert(s[i0] == a0);
                assert(s[s.len() - 1] == b);
                assert(0 <= i0 < s.len() - 1 < s.len() && s[i0] == a && s[s.len() - 1] == b);
            } else {
                // both come from the sorted rest: its stability carries
                // over, and its witnesses stand at the same places
                let i1 = if i < p {
                    i
                } else {
                    i - 1
                };
                let j1 = if j < p {
                    j
                } else {
                    j - 1
                };
                assert(a == r0[i1] && b == r0[j1]);
                assert(i1 < j1);
                let (i0, j0) = choose|i0: int, j0: int|
                    0 <= i0 < j0 < dl.len() && dl[i0] == r0[i1] && dl[j0] == r0[j1];
                assert(s[i0] == a && s[j0] == b);
            }
        }
    }
}

/// A token sequence none of whose tokens a document contains scores zero
/// against that document.
proof fn lemma_score_num_zero(
    toks: Seq<Seq<char>>,
    tf: Map<Seq<char>, nat>,
    n: int,
    df: Map<Seq<char>, nat>,
)
    requires
        forall|j: int| 0 <= j < toks.len() ==> !tf.contains_key(#[trigger] toks[j]),
    ensures
        score_num(toks, tf, n, df) == 0,
    decreases toks.len(),
{
    if toks.len() > 0 {
        assert forall|j: int| 0 <= j < toks.drop_last().len() implies !tf.contains_key(
            #[trigger] toks.drop_last()[j],
        ) by {
            assert(toks.drop_last()[j] == toks[j]);
        }
        lemma_score_num_zero(toks.drop_last(), tf, n, df);
        assert(toks[toks.len() - 1] == toks.last());
        assert(tf_count(tf, toks.last()) == 0);
    }
}

/// Zero-score filtering: a query whose tokens occur in no document of the
/// model yields an empty ranked result.
pub proof fn lemma_zero_score_empty(q: Seq<char>, docs: Seq<DocEntry>, df: Map<Seq<char>, nat>)
    requires
        forall|i: int, j: int|
            0 <= i < docs.len() && 0 <= j < tokenize_spec(q).len() ==> !(
            #[trigger] docs[i]).tf@.contains_key(#[trigger] tokenize_spec(q)[j]),
    ensures
        rank_spec(q, docs, df) == Seq::<Hit>::empty(),
{
    lemma_candidates_empty(docs, tokenize_spec(q), docs.len() as int, df);
    assert(sort_desc(Seq::<Hit>::empty()) == Seq::<Hit>::empty());
}

proof fn lemma_candidates_empty(
    docs: Seq<DocEntry>,
    toks: Seq<Seq<char>>,
    n: int,
    df: Map<Seq<char>, nat>,
)
    requires
        forall|i: int, j: int|
            0 <= i < docs.len() && 0 <= j < toks.len() ==> !(#[trigger] docs[i]).tf@.contains_key(
                #[trigger] toks[j],
            ),
    ensures
        candidates(docs, toks, n, df) == Seq::<Hit>::empty(),
    decreases docs.len(),
{
    if docs.len() > 0 {
        assert forall|i: int, j: int|
            0 <= i < docs.drop_last().len() && 0 <= j < toks.len() implies !(
        #[trigger] docs.drop_last()[i]).tf@.contains_key(#[trigger] toks[j]) by {
            assert(docs.drop_last()[i] == docs[i]);
        }
        lemma_candidates_empty(docs.drop_last(), toks, n, df);
        assert(docs[docs.len() - 1] == docs.last());
        lemma_score_num_zero(toks, docs.last().tf@, n, df);
    }
}

/// Scoring monotonicity for a one-term query: with the corpus size, the
/// document-frequency table and the document's total occurrence count
/// fixed, a strictly higher occurrence count of the query's only term
/// gives a strictly higher score — provided the term is missing from at
/// least one document, since a term contained in every document weighs
/// zero and scores zero however often it occurs. The numerators must fit
/// a machine word, as the stored score saturates there.
pub proof fn lemma_score_monotonic(
    t: Seq<char>,
    tf1: Map<Seq<char>, nat>,
    tf2: Map<Seq<char>, nat>,
    n: int,
    df: Map<Seq<char>, nat>,
    den: u64,
)
    requires
        df_of(df, t) < n,
        tf_count(tf1, t) < tf_count(tf2, t),
        score_num(seq![t], tf2, n, df) < 0xFFFF_FFFF_FFFF_FFFF,
        den >= 1,
    ensures
        score_num(seq![t], tf1, n, df) < score_num(seq![t], tf2, n, df),
        score_lt(
            Score { num: sat64(score_num(seq![t], tf1, n, df)), den },
            Score { num: sat64(score_num(seq![t], tf2, n, df)), den },
        ),
{
    let q = seq![t];
    assert(q.drop_last() =~= Seq::<Seq<char>>::empty());
    assert(q.last() == t);
    assert(score_num(Seq::<Seq<char>>::empty(), tf1, n, df) == 0);
    assert(score_num(Seq::<Seq<char>>::empty(), tf2, n, df) == 0);
    let m = df_of(df, t);
    let w = spec_idf_micro(n, m);
    lemma_idf_zero_iff(n, m);
    assert(w >= 1);
    let c1 = tf_count(tf1, t);
    let c2 = tf_count(tf2, t);
    assert(score_num(q, tf1, n, df) == c1 * w);
    assert(score_num(q, tf2, n, df) == c2 * w);
    assert(c1 * w < c2 * w) by (nonlinear_arith)
        requires
            c1 < c2,
            w >= 1,
    ;
    assert(c1 * w >= 0) by (nonlinear_arith)
        requires
            c1 >= 0,
            w >= 0,
    ;
    let n1 = sat64(c1 * w);
    let n2 = sat64(c2 * w);
    assert(n1 as int == c1 * w && n2 as int == c2 * w);
    assert((n1 as int) * (den as int) < (n2 as int) * (den as int)) by (nonlinear_arith)
        requires
            (n1 as int) < n2 as int,
            den >= 1,
    ;
}

/// A positive score numerator means some query token occurs in the
/// document.
proof fn lemma_score_num_pos_has_term(
    toks: Seq<Seq<char>>,
    tf: Map<Seq<char>, nat>,
    n: int,
    df: Map<Seq<char>, nat>,
)
    requires
        score_num(toks, tf, n, df) >= 1,
    ensures
        exists|j: int| 0 <= j < toks.len() && tf.contains_key(#[trigger] toks[j]),
    decreases toks.len(),
{
    let rest = score_num(toks.drop_last(), tf, n, df);
    let t = toks.last();
    let c = tf_count(tf, t);
    let w = spec_idf_micro(n, df_of(df, t));
    crate::score::lemma_score_num_nonneg(toks.drop_last(), tf, n, df);
    lemma_idf_zero_iff(n, df_of(df, t));
    if rest >= 1 {
        lemma_score_num_pos_has_term(toks.drop_last(), tf, n, df);
        let j = choose|j: int|
            0 <= j < toks.drop_last().len() && tf.contains_key(#[trigger] toks.drop_last()[j]);
        assert(toks[j] == toks.drop_last()[j]);
        assert(tf.contains_key(toks[j]));
    } else {
        assert(c * w >= 1);
        assert(c >= 1) by (nonlinear_arith)
            requires
                c * w >= 1,
                c >= 0,
                w >= 0,
        ;
        assert(tf.contains_key(toks[toks.len() - 1]));
    }
}

/// Every ranked candidate's denominator is positive: a document scores
/// only through a term it contains, and that term's count is in the
/// total.
pub proof fn lemma_candidates_dens_pos(
    docs: Seq<DocEntry>,
    toks: Seq<Seq<char>>,
    n: int,
    df: Map<Seq<char>, nat>,
)
    requires
        forall|i: int| 0 <= i < docs.len() ==> (#[trigger] docs[i]).tf.wf(),
        forall|i: int, k: Seq<char>|
            0 <= i < docs.len() && #[trigger] docs[i].tf@.contains_key(k) ==> docs[i].tf@[k] >= 1,
    ensures
        all_dens_pos(candidates(docs, toks, n, df)),
    decreases docs.len(),
{
    if docs.len() > 0 {
        assert forall|i: int| 0 <= i < docs.drop_last().len() implies (
        #[trigger] docs.drop_last()[i]).tf.wf() && (forall|k: Seq<char>|
            #[trigger] docs.drop_last()[i].tf@.contains_key(k) ==> docs.drop_last()[i].tf@[k]
                >= 1) by {
            assert(docs.drop_last()[i] == docs[i]);
        }
        lemma_candidates_dens_pos(docs.drop_last(), toks, n, df);
        let rest = candidates(docs.drop_last(), toks, n, df);
        let last = docs.last();
        assert(docs[docs.len() - 1] == last);
        let num = sat64(score_num(toks, last.tf@, n, df));
        if num >= 1 {
            crate::score::lemma_score_num_nonneg(toks, last.tf@, n, df);
            assert(score_num(toks, last.tf@, n, df) >= 1);
            lemma_score_num_pos_has_term(toks, last.tf@, n, df);
            let j = choose|j: int| 0 <= j < toks.len() && last.tf@.contains_key(#[trigger] toks[j]);
            crate::table::lemma_map_of_keys(last.tf.entries@, toks[j]);
            let e = choose|e: int|
                0 <= e < last.tf.entries@.len() && (#[trigger] last.tf.entries@[e]).0@ == toks[j];
            crate::table::lemma_map_of_entry(last.tf.entries@, e);
            assert(last.tf.entries@[e].1 >= 1);
            crate::score::lemma_total_of_ge_entry(last.tf.entries@, e);
            let r = candidates(docs, toks, n, df);
            assert forall|i: int| 0 <= i < r.len() implies (#[trigger] r[i]).score.den >= 1 by {
                if i < rest.len() {
                    assert(r[i] == rest[i]);
                }
            }
        }
    }
}

/// Every ranked candidate carries the identifier of some document.
proof fn lemma_candidates_docs(
    docs: Seq<DocEntry>,
    toks: Seq<Seq<char>>,
    n: int,
    df: Map<Seq<char>, nat>,
)
    ensures
        forall|k: int|
            0 <= k < candidates(docs, toks, n, df).len() ==> exists|i: int|
                0 <= i < docs.len() && (#[trigger] candidates(docs, toks, n, df)[k]).doc == (
                #[trigger] docs[i]).path,
    decreases docs.len(),
{
    if docs.len() > 0 {
        lemma_candidates_docs(docs.drop_last(), toks, n, df);
        let rest = candidates(docs.drop_last(), toks, n, df);
        let r = candidates(docs, toks, n, df);
        assert forall|k: int| 0 <= k < r.len() implies exists|i: int|
            0 <= i < docs.len() && (#[trigger] r[k]).doc == (#[trigger] docs[i]).path by {
            if k < rest.len() {
                assert(r[k] == rest[k]);
                let i = choose|i: int|
                    0 <= i < docs.drop_last().len() && (#[trigger] rest[k]).doc == (
                    #[trigger] docs.drop_last()[i]).path;
                assert(docs[i] == docs.drop_last()[i]);
                assert(r[k].doc == docs[i].path);
            } else {
                assert(r[k].doc == docs[docs.len() - 1].path);
            }
        }
    }
}

/// With distinct document identifiers the ranked candidates are pairwise
/// distinct.
pub proof fn lemma_candidates_distinct(
    docs: Seq<DocEntry>,
    toks: Seq<Seq<char>>,
    n: int,
    df: Map<Seq<char>, nat>,
)
    requires
        forall|p: int, q: int|
            0 <= p < q < docs.len() ==> (#[trigger] docs[p]).path@ != (#[trigger] docs[q]).path@,
    ensures
        forall|p: int, q: int|
            0 <= p < q < candidates(docs, toks, n, df).len() ==> (
            #[trigger] candidates(docs, toks, n, df)[p]).doc@ != (
            #[trigger] candidates(docs, toks, n, df)[q]).doc@,
    decreases docs.len(),
{
    if docs.len() > 0 {
        assert forall|p: int, q: int|
            0 <= p < q < docs.drop_last().len() implies (
        #[trigger] docs.drop_last()[p]).path@ != (#[trigger] docs.drop_last()[q]).path@ by {
            assert(docs.drop_last()[p] == docs[p] && docs.drop_last()[q] == docs[q]);
        }
        lemma_candidates_distinct(docs.drop_last(), toks, n, df);
        lemma_candidates_docs(docs.drop_last(), toks, n, df);
        let rest = candidates(docs.drop_last(), toks, n, df);
        let r = candidates(docs, toks, n, df);
        assert forall|p: int, q: int| 0 <= p < q < r.len() implies (#[trigger] r[p]).doc@ != (
        #[trigger] r[q]).doc@ by {
            if q < rest.len() {
                assert(r[p] == rest[p] && r[q] == rest[q]);
            } else if q == rest.len() && r.len() > rest.len() {
                assert(r[p] == rest[p]);
                assert(r[q].doc == docs[docs.len() - 1].path);
                let i = choose|i: int|
                    0 <= i < docs.drop_last().len() && (#[trigger] rest[p]).doc == (
                    #[trigger] docs.drop_last()[i]).path;
                assert(docs.drop_last()[i] == docs[i]);
                assert(docs[i].path@ != docs[docs.len() - 1].path@);
            }
        }
    }
}

/// What the ranked result of a well-formed model guarantees, put
/// together: as many results as positive-scoring documents, exactly those
/// documents, in descending score order; and ties stand in the order the
/// model lists the documents, since the sort is stable and the candidates
/// are distinct.
pub proof fn lemma_rank_properties(q: Seq<char>, docs: Seq<DocEntry>, df: Map<Seq<char>, nat>)
    requires
        forall|i: int| 0 <= i < docs.len() ==> (#[trigger] docs[i]).tf.wf(),
        forall|i: int, k: Seq<char>|
            0 <= i < docs.len() && #[trigger] docs[i].tf@.contains_key(k) ==> docs[i].tf@[k] >= 1,
        forall|p: int, q2: int|
            0 <= p < q2 < docs.len() ==> (#[trigger] docs[p]).path@ != (#[trigger] docs[q2]).path@,
    ensures
        ({
            let cands = candidates(docs, tokenize_spec(q), docs.len() as int, df);
            let r = rank_spec(q, docs, df);
            &&& r.len() == cands.len()
            &&& forall|x: Hit| r.contains(x) <==> cands.contains(x)
            &&& sorted_desc(r)
            &&& forall|i: int, j: int|
                0 <= i < j < r.len() && score_eq((#[trigger] r[i]).score, (#[trigger] r[j]).score)
                    ==> exists|i0: int, j0: int|
                    0 <= i0 < j0 < cands.len() && cands[i0] == r[i] && cands[j0] == r[j]
        }),
{
    let toks = tokenize_spec(q);
    let n = docs.len() as int;
    let cands = candidates(docs, toks, n, df);
    lemma_candidates_dens_pos(docs, toks, n, df);
    lemma_sort_desc_props(cands);
    lemma_candidates_distinct(docs, toks, n, df);
    assert forall|p: int, q2: int| 0 <= p < q2 < cands.len() implies cands[p] != cands[q2] by {
        assert(cands[p].doc@ != cands[q2].doc@);
    }
    lemma_sort_desc_stable(cands);
}

impl Model {
    /// The number of indexed documents.
    pub fn doc_count(&self) -> (n: usize)
        ensures
            n == self.docs@.len(),
    {
        self.docs.len()
    }
}

/// Ranks every document of the model against the query: exactly the
/// documents with a strictly positive score, sorted by descending score,
/// ties keeping model order.
pub fn rank(query: &str, model: &Model) -> (r: Vec<Hit>)
    requires
        model.wf(),
    ensures
        r@ == rank_spec(query@, model.docs@, model.df@),
{
    let ghost toks = tokenize_spec(query@);
    let ghost n = model.docs@.len() as int;
    let mut cands: Vec<Hit> = Vec::new();
    let mut i: usize = 0;
    proof {
        assert(candidates(model.docs@.take(0), toks, n, model.df@) =~= Seq::<Hit>::empty());
    }
    while i < model.docs.len()
        invariant
            model.wf(),
            i <= model.docs@.len(),
            n == model.docs@.len() as int,
            toks == tokenize_spec(query@),
            cands@ == candidates(model.docs@.take(i as int), toks, n, model.df@),
        decreases model.docs@.len() - i,
    {
        let s = compute_score(query, &model.docs[i].tf, model);
        proof {
            assert(model.docs@.take(i + 1).drop_last() =~= model.docs@.take(i as int));
            assert(model.docs@.take(i + 1).last() == model.docs@[i as int]);
        }
        if s.num >= 1 {
            cands.push(Hit { doc: model.docs[i].path.clone(), score: s });
        }
        i += 1;
    }
    proof {
        assert(model.docs@.take(model.docs@.len() as int) =~= model.docs@);
    }
    let ghost full = cands@;
    let mut out: Vec<Hit> = Vec::new();
    let ghost mut done: Seq<Hit> = Seq::empty();
    while cands.len() > 0
        invariant
            out@ == sort_desc(done),
            done + cands@ == full,
        decreases cands@.len(),
    {
        let ghost remaining = cands@;
        let c = cands.remove(0);
        let mut pos: usize = 0;
        while pos < out.len() && !score_below(out[pos].score, c.score)
            invariant
                pos <= out@.len(),
                forall|q: int|
                    0 <= q < pos ==> !score_lt((#[trigger] out@[q]).score, c.score),
            decreases out@.len() - pos,
        {
            pos += 1;
        }
        let ghost before = out@;
        proof {
            lemma_ins_pos_is(before, c, pos as int);
            lemma_insert_desc_split(before, c);
        }
        out.insert(pos, c);
        proof {
            assert(out@ =~= before.take(pos as int) + seq![c] + before.skip(pos as int));
            let prev = done;
            done = done.push(c);
            assert(done.drop_last() =~= prev);
            assert(done.last() == c);
            assert(out@ == sort_desc(done));
            assert(done + cands@ =~= full);
        }
    }
    proof {
        assert(done =~= full);
    }
    out
}

} // verus!

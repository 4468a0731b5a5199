//! TF-IDF scoring.
//!
//! A document's score for a query is the exact rational `num / den`, where
//! `den` is the document's total occurrence count and `num` adds, for each
//! query token, the token's occurrence count in the document times the
//! token's inverse document frequency. The inverse document frequency is
//! `log10(N / M)` in fixed-point micro units (`N` documents in the corpus,
//! `M` of them containing the term, defaulting to one for unseen terms),
//! computed exactly by `idf_micro`; a term contained in every document
//! weighs zero, a term contained in fewer weighs at least one micro unit.
use vstd::prelude::*;
use vstd::arithmetic::div_mod::lemma_div_is_ordered;
use vstd::arithmetic::div_mod::lemma_div_multiples_vanish;
use vstd::arithmetic::div_mod::lemma_multiply_divide_lt;
use vstd::arithmetic::mul::lemma_mul_inequality;

use crate::model::Model;
use crate::table::Table;

verus! {

/// One whole unit of inverse document frequency, in micro units.
pub const MICRO: u64 = 1_000_000;

pub open spec fn pow2(k: nat) -> int
    decreases k,
{
    if k == 0 {
        1
    } else {
        2 * pow2((k - 1) as nat)
    }
}

pub open spec fn pow10(k: nat) -> int
    decreases k,
{
    if k == 0 {
        1
    } else {
        10 * pow10((k - 1) as nat)
    }
}

/// The whole part of `log10` of the fixed-point value `x` (scaled by
/// two to the thirty-second power): how often `x` divides by ten before
/// falling below ten.
pub open spec fn decades(x: int) -> nat
    decreases x,
{
    if x >= 0xA_0000_0000 {
        1 + decades(x / 10)
    } else {
        0
    }
}

/// The fixed-point value `x` brought into the range `[1, 10)` by
/// repeated division by ten.
pub open spec fn norm(x: int) -> int
    decreases x,
{
    if x >= 0xA_0000_0000 {
        norm(x / 10)
    } else {
        x
    }
}

/// The first `k` binary digits of the fractional part of `log10(x)`,
/// read off by repeated squaring of the fixed-point value `x`, as one
/// integer with the first digit highest.
pub open spec fn frac_steps(x: int, k: nat) -> int
    decreases k,
{
    if k == 0 {
        0
    } else {
        let y = (x * x) / 0x1_0000_0000;
        if y >= 0xA_0000_0000 {
            pow2((k - 1) as nat) + frac_steps(y / 10, (k - 1) as nat)
        } else {
            frac_steps(y, (k - 1) as nat)
        }
    }
}

/// `log10(n / m)` in micro units: zero when `n <= m`, else the whole
/// decades plus twenty binary digits of the fraction, and at least one.
pub open spec fn spec_idf_micro(n: int, m: int) -> int {
    if n <= m {
        0
    } else {
        let x0 = (n * 0x1_0000_0000) / m;
        let r = decades(x0) * 1_000_000 + (frac_steps(norm(x0), 20) * 1_000_000) / pow2(20);
        if r == 0 {
            1
        } else {
            r
        }
    }
}

pub proof fn lemma_pow2_mono(a: nat, b: nat)
    requires
        a <= b,
    ensures
        pow2(a) <= pow2(b),
    decreases b,
{
    if a < b {
        lemma_pow2_mono(a, (b - 1) as nat);
        lemma_pow2_pos((b - 1) as nat);
    }
}

pub proof fn lemma_pow2_pos(k: nat)
    ensures
        pow2(k) >= 1,
    decreases k,
{
    if k > 0 {
        lemma_pow2_pos((k - 1) as nat);
    }
}

pub proof fn lemma_pow10_pos(k: nat)
    ensures
        pow10(k) >= 1,
    decreases k,
{
    if k > 0 {
        lemma_pow10_pos((k - 1) as nat);
    }
}

pub proof fn lemma_frac_steps_bounds(x: int, k: nat)
    ensures
        0 <= frac_steps(x, k) < pow2(k),
    decreases k,
{
    if k == 0 {
    } else {
        let y = (x * x) / 0x1_0000_0000;
        assert(x * x >= 0) by (nonlinear_arith);
        if y >= 0xA_0000_0000 {
            lemma_frac_steps_bounds(y / 10, (k - 1) as nat);
        } else {
            lemma_frac_steps_bounds(y, (k - 1) as nat);
        }
    }
}

pub proof fn lemma_decades_le(x: int, k: nat)
    requires
        0 <= x,
        x < 0xA_0000_0000 * pow10(k),
    ensures
        decades(x) <= k,
    decreases k,
{
    if x >= 0xA_0000_0000 {
        lemma_pow10_pos(k);
        if k == 0 {
            assert(false);
        } else {
            lemma_pow10_pos((k - 1) as nat);
            assert(pow10(k) == 10 * pow10((k - 1) as nat));
            assert(0xA_0000_0000 * pow10(k) == 10 * (0xA_0000_0000 * pow10((k - 1) as nat)))
                by (nonlinear_arith)
                requires
                    pow10(k) == 10 * pow10((k - 1) as nat),
            ;
            lemma_multiply_divide_lt(x, 10, 0xA_0000_0000 * pow10((k - 1) as nat));
            lemma_decades_le(x / 10, (k - 1) as nat);
        }
    }
}

/// The inverse document frequency is never negative, and is zero exactly
/// when the term occurs in every document (or more): a rarer term always
/// carries at least one micro unit of weight.
pub proof fn lemma_idf_zero_iff(n: int, m: int)
    ensures
        spec_idf_micro(n, m) >= 0,
        spec_idf_micro(n, m) == 0 <==> n <= m,
{
    if n > m {
        let x0 = (n * 0x1_0000_0000) / m;
        lemma_frac_steps_bounds(norm(x0), 20);
        lemma_pow2_pos(20);
        assert(frac_steps(norm(x0), 20) * 1_000_000 >= 0) by (nonlinear_arith)
            requires
                frac_steps(norm(x0), 20) >= 0,
        ;
        assert((frac_steps(norm(x0), 20) * 1_000_000) / pow2(20) >= 0);
    }
}

/// For counts that fit a machine word the weight stays under twenty-one
/// whole units.
pub proof fn lemma_idf_bound(n: int, m: int)
    requires
        1 <= m,
        n <= 0xFFFF_FFFF_FFFF_FFFF,
    ensures
        spec_idf_micro(n, m) < 21_000_000,
{
    lemma_idf_zero_iff(n, m);
    if n > m {
        let x0 = (n * 0x1_0000_0000) / m;
        assert(n * 0x1_0000_0000 <= 0xFFFF_FFFF_FFFF_FFFF * 0x1_0000_0000) by (nonlinear_arith)
            requires
                n <= 0xFFFF_FFFF_FFFF_FFFF,
        ;
        lemma_div_is_ordered(n * 0x1_0000_0000, (0xFFFF_FFFF_FFFF_FFFF as int) * 0x1_0000_0000, m);
        lemma_div_is_ordered_by_denominator_one(n * 0x1_0000_0000, m);
        assert(x0 <= n * 0x1_0000_0000);
        reveal_with_fuel(pow10, 21);
        assert(pow10(20) == 0x56BC75E2D63100000);
        assert(x0 < 0xA_0000_0000 * pow10(20)) by (nonlinear_arith)
            requires
                x0 <= 0xFFFF_FFFF_FFFF_FFFF * 0x1_0000_0000,
                pow10(20) == 0x56BC75E2D63100000,
        ;
        lemma_decades_le(x0, 20);
        lemma_frac_steps_bounds(norm(x0), 20);
        lemma_pow2_pos(20);
        let f = frac_steps(norm(x0), 20);
        assert(f * 1_000_000 < pow2(20) * 1_000_000) by (nonlinear_arith)
            requires
                0 <= f < pow2(20),
        ;
        lemma_multiply_divide_lt(f * 1_000_000, pow2(20), 1_000_000);
        assert((f * 1_000_000) / pow2(20) < 1_000_000);
    }
}

/// Division by a denominator of at least one cannot grow a non-negative
/// value.
proof fn lemma_div_is_ordered_by_denominator_one(x: int, m: int)
    requires
        0 <= x,
        1 <= m,
    ensures
        x / m <= x,
{
    vstd::arithmetic::div_mod::lemma_div_is_ordered_by_denominator(x, 1, m);
    assert(x / 1 == x);
}

/// `log10(n / m)` in micro units, computed exactly as `spec_idf_micro`
/// describes: the whole part by division by ten, the fractional part by
/// twenty squaring steps in 32-bit fixed point.
pub fn idf_micro(n: u64, m: u64) -> (r: u64)
    requires
        1 <= m,
    ensures
        r as int == spec_idf_micro(n as int, m as int),
{
    if n <= m {
        return 0;
    }
    let x0: u128 = (n as u128) * 0x1_0000_0000u128 / (m as u128);
    let ghost gx0: int = (n as int * 0x1_0000_0000) / (m as int);
    proof {
        assert(x0 as int == gx0);
        lemma_mul_inequality(m as int, n as int, 0x1_0000_0000);
        lemma_div_is_ordered((m as int) * 0x1_0000_0000, (n as int) * 0x1_0000_0000, m as int);
        lemma_div_multiples_vanish(0x1_0000_0000, m as int);
        assert((m as int) * 0x1_0000_0000 == 0x1_0000_0000 * (m as int)) by (nonlinear_arith);
        assert(gx0 >= 0x1_0000_0000);
        lemma_div_is_ordered_by_denominator_one((n as int) * 0x1_0000_0000, m as int);
        assert((n as int) * 0x1_0000_0000 <= 0xFFFF_FFFF_FFFF_FFFF * 0x1_0000_0000)
            by (nonlinear_arith)
            requires
                n <= 0xFFFF_FFFF_FFFF_FFFF,
        ;
        reveal_with_fuel(pow10, 21);
        assert(pow10(20) == 0x56BC75E2D63100000);
        assert(gx0 < 0xA_0000_0000 * pow10(20)) by (nonlinear_arith)
            requires
                gx0 <= 0xFFFF_FFFF_FFFF_FFFF * 0x1_0000_0000,
                pow10(20) == 0x56BC75E2D63100000,
        ;
        lemma_decades_le(gx0, 20);
    }
    let mut x: u128 = x0;
    let mut int_part: u64 = 0;
    while x >= 0xA_0000_0000u128
        invariant
            0x1_0000_0000 <= x as int,
            decades(gx0) == int_part + decades(x as int),
            norm(gx0) == norm(x as int),
            decades(gx0) <= 20,
        decreases x,
    {
        proof {
            lemma_div_is_ordered(0xA_0000_0000, x as int, 10);
        }
        x = x / 10;
        int_part = int_part + 1;
    }
    proof {
        assert(decades(x as int) == 0);
        assert(norm(x as int) == x as int);
        assert(int_part == decades(gx0));
    }
    let ghost xn: int = x as int;
    let mut bits: u64 = 0;
    let mut i: usize = 0;
    proof {
        lemma_pow2_pos(20);
        reveal_with_fuel(pow2, 21);
        assert(pow2(20) == 0x10_0000);
    }
    while i < 20
        invariant
            i <= 20,
            0x1_0000_0000 <= x as int && (x as int) < 0xA_0000_0000,
            pow2(i as nat) > bits as int,
            pow2(20) == 0x10_0000,
            frac_steps(xn, 20) == (bits as int) * pow2((20 - i) as nat) + frac_steps(
                x as int,
                (20 - i) as nat,
            ),
        decreases 20 - i,
    {
        let ghost xi: int = x as int;
        let ghost k: nat = (20 - i) as nat;
        proof {
            assert((x as int) * (x as int) < 0xA_0000_0000 * 0xA_0000_0000) by (nonlinear_arith)
                requires
                    0 <= x as int && (x as int) < 0xA_0000_0000,
            ;
            assert((x as int) * (x as int) >= 0x1_0000_0000 * 0x1_0000_0000) by (nonlinear_arith)
                requires
                    x as int >= 0x1_0000_0000,
            ;
            lemma_div_is_ordered(
                (0x1_0000_0000 as int) * 0x1_0000_0000,
                (x as int) * (x as int),
                0x1_0000_0000,
            );
            lemma_div_multiples_vanish(0x1_0000_0000, 0x1_0000_0000);
            assert((0x1_0000_0000 as int) * 0x64_0000_0000 == 0xA_0000_0000 * 0xA_0000_0000)
                by (nonlinear_arith);
            lemma_multiply_divide_lt((x as int) * (x as int), 0x1_0000_0000, 0x64_0000_0000);
        }
        let y: u128 = x * x / 0x1_0000_0000u128;
        proof {
            assert(y as int == (xi * xi) / 0x1_0000_0000);
            assert(0x1_0000_0000 <= y as int && (y as int) < 0x64_0000_0000);
            assert(pow2(k) == 2 * pow2((k - 1) as nat));
            lemma_pow2_pos((k - 1) as nat);
            assert(pow2(20) == 2 * pow2(19));
            lemma_pow2_mono(i as nat, 19);
            assert((bits as int) < 0x8_0000);
        }
        if y >= 0xA_0000_0000u128 {
            proof {
                lemma_div_is_ordered(0xA_0000_0000, y as int, 10);
                lemma_multiply_divide_lt(y as int, 10, 0xA_0000_0000);
                assert(frac_steps(xi, k) == pow2((k - 1) as nat) + frac_steps(
                    (y as int) / 10,
                    (k - 1) as nat,
                ));
                assert((bits as int) * pow2(k) + pow2((k - 1) as nat) == (2 * (bits as int) + 1)
                    * pow2((k - 1) as nat)) by (nonlinear_arith)
                    requires
                        pow2(k) == 2 * pow2((k - 1) as nat),
                ;
            }
            x = y / 10;
            bits = bits * 2 + 1;
        } else {
            proof {
                assert(frac_steps(xi, k) == frac_steps(y as int, (k - 1) as nat));
                assert((bits as int) * pow2(k) == (2 * (bits as int)) * pow2((k - 1) as nat))
                    by (nonlinear_arith)
                    requires
                        pow2(k) == 2 * pow2((k - 1) as nat),
                ;
            }
            x = y;
            bits = bits * 2;
        }
        i = i + 1;
    }
    proof {
        assert(pow2(0) == 1);
        assert(frac_steps(x as int, 0) == 0);
        assert((bits as int) * 1 == bits as int) by (nonlinear_arith);
        assert(frac_steps(xn, 20) == bits as int);
        lemma_frac_steps_bounds(xn, 20);
        assert((bits as int) * 1_000_000 < pow2(20) * 1_000_000) by (nonlinear_arith)
            requires
                0 <= bits as int && (bits as int) < 0x10_0000,
                pow2(20) == 0x10_0000,
        ;
        lemma_multiply_divide_lt((bits as int) * 1_000_000, pow2(20), 1_000_000);
    }
    let frac: u64 = ((bits as u128) * 1_000_000u128 / 0x10_0000u128) as u64;
    proof {
        assert(frac as int == ((bits as int) * 1_000_000) / pow2(20));
        assert(frac < 1_000_000);
    }
    let r = int_part * 1_000_000 + frac;
    if r == 0 {
        1
    } else {
        r
    }
}

/// A document's occurrence count of a term, zero when absent.
pub open spec fn tf_count(tf: Map<Seq<char>, nat>, t: Seq<char>) -> int {
    if tf.contains_key(t) {
        tf[t] as int
    } else {
        0
    }
}

/// The number of documents charged to a term: its document frequency,
/// floored at one so the weight stays defined for unseen terms.
pub open spec fn df_of(df: Map<Seq<char>, nat>, t: Seq<char>) -> int {
    if df.contains_key(t) && df[t] >= 1 {
        df[t] as int
    } else {
        1
    }
}

/// The sum of all counts in a table's entries.
pub open spec fn total_of(entries: Seq<(String, u64)>) -> int
    decreases entries.len(),
{
    if entries.len() == 0 {
        0
    } else {
        total_of(entries.drop_last()) + entries.last().1
    }
}

pub proof fn lemma_total_of_nonneg(entries: Seq<(String, u64)>)
    ensures
        total_of(entries) >= 0,
    decreases entries.len(),
{
    if entries.len() > 0 {
        lemma_total_of_nonneg(entries.drop_last());
    }
}

/// The total is at least any single entry's count.
pub proof fn lemma_total_of_ge_entry(entries: Seq<(String, u64)>, j: int)
    requires
        0 <= j < entries.len(),
    ensures
        total_of(entries) >= entries[j].1,
    decreases entries.len(),
{
    if j == entries.len() - 1 {
        lemma_total_of_nonneg(entries.drop_last());
    } else {
        assert(entries.drop_last()[j] == entries[j]);
        lemma_total_of_ge_entry(entries.drop_last(), j);
    }
}

/// The score numerator of a token sequence against one document, in
/// micro units: each token adds its count times its weight.
pub open spec fn score_num(
    toks: Seq<Seq<char>>,
    tf: Map<Seq<char>, nat>,
    n: int,
    df: Map<Seq<char>, nat>,
) -> int
    decreases toks.len(),
{
    if toks.len() == 0 {
        0
    } else {
        score_num(toks.drop_last(), tf, n, df) + tf_count(tf, toks.last()) * spec_idf_micro(
            n,
            df_of(df, toks.last()),
        )
    }
}

pub proof fn lemma_score_num_nonneg(
    toks: Seq<Seq<char>>,
    tf: Map<Seq<char>, nat>,
    n: int,
    df: Map<Seq<char>, nat>,
)
    ensures
        score_num(toks, tf, n, df) >= 0,
    decreases toks.len(),
{
    if toks.len() > 0 {
        lemma_score_num_nonneg(toks.drop_last(), tf, n, df);
        let t = toks.last();
        lemma_idf_zero_iff(n, df_of(df, t));
        assert(tf_count(tf, t) * spec_idf_micro(n, df_of(df, t)) >= 0) by (nonlinear_arith)
            requires
                tf_count(tf, t) >= 0,
                spec_idf_micro(n, df_of(df, t)) >= 0,
        ;
    }
}

/// A non-negative value clamped to a machine word.
pub open spec fn sat64(x: int) -> u64 {
    if x >= 0xFFFF_FFFF_FFFF_FFFF {
        0xFFFF_FFFF_FFFF_FFFFu64
    } else if x <= 0 {
        0u64
    } else {
        x as u64
    }
}

/// Saturating addition.
fn sat_add(a: u64, b: u64) -> (r: u64)
    ensures
        r == sat64(a as int + b as int),
{
    if a > u64::MAX - b {
        u64::MAX
    } else {
        a + b
    }
}

/// An exact rational relevance score: `num` micro units over `den` total
/// occurrences. Either side saturates at the largest machine word.
#[derive(Clone, Copy, Debug, PartialEq, Eq, Structural)]
pub struct Score {
    pub num: u64,
    pub den: u64,
}

/// Term frequency as an exact fraction: the term's occurrence count in
/// the document over the document's total occurrence count.
pub fn compute_tf(term: &String, doc: &Table) -> (r: (u64, u64))
    requires
        doc.wf(),
    ensures
        r.0 as int == tf_count(doc@, term@),
        r.1 == sat64(total_of(doc.entries@)),
{
    let f = match doc.get(term) {
        Some(v) => v,
        None => 0,
    };
    (f, total(doc))
}

/// The total occurrence count of a document, saturating.
pub fn total(doc: &Table) -> (r: u64)
    ensures
        r == sat64(total_of(doc.entries@)),
{
    let ghost s = doc.entries@;
    let mut sum: u64 = 0;
    let mut i: usize = 0;
    while i < doc.entries.len()
        invariant
            s == doc.entries@,
            i <= s.len(),
            sum == sat64(total_of(s.take(i as int))),
        decreases s.len() - i,
    {
        proof {
            lemma_total_of_nonneg(s.take(i as int));
            assert(s.take(i + 1).drop_last() =~= s.take(i as int));
            assert(s.take(i + 1).last() == s[i as int]);
        }
        sum = sat_add(sum, doc.entries[i].1);
        i += 1;
    }
    proof {
        assert(s.take(s.len() as int) =~= s);
    }
    sum
}

/// The inverse document frequency of a term, in micro units, from the
/// corpus size and the document-frequency table.
pub fn compute_idf(term: &String, n: u64, df: &Table) -> (r: u64)
    requires
        df.wf(),
    ensures
        r as int == spec_idf_micro(n as int, df_of(df@, term@)),
{
    let m = match df.get(term) {
        Some(v) => v,
        None => 1,
    };
    let m = if m == 0 {
        1
    } else {
        m
    };
    idf_micro(n, m)
}

/// Scores one document against a query phrase: the numerator adds, for
/// each query token (repeated tokens each counting), the token's
/// occurrence count times its weight; the denominator is the document's
/// total occurrence count.
pub fn compute_score(phrase: &str, doc: &Table, model: &Model) -> (s: Score)
    requires
        doc.wf(),
        model.wf(),
    ensures
        s.num == sat64(
            score_num(
                crate::lexer::tokenize_spec(phrase@),
                doc@,
                model.docs@.len() as int,
                model.df@,
            ),
        ),
        s.den == sat64(total_of(doc.entries@)),
{
    let cs = crate::lexer::str_to_chars(phrase);
    let toks = crate::lexer::tokenize(cs.as_slice());
    let ghost tv = crate::lexer::tokenize_spec(phrase@);
    let n = model.docs.len() as u64;
    let mut num: u64 = 0;
    let mut i: usize = 0;
    proof {
        assert(model.docs@.len() <= usize::MAX);
    }
    while i < toks.len()
        invariant
            toks.deep_view() == tv,
            i <= toks@.len(),
            doc.wf(),
            model.df.wf(),
            n as int == model.docs@.len() as int,
            num == sat64(score_num(tv.take(i as int), doc@, n as int, model.df@)),
        decreases toks@.len() - i,
    {
        proof {
            assert(toks.deep_view()[i as int] == toks@[i as int]@);
        }
        let f = match doc.get(&toks[i]) {
            Some(v) => v,
            None => 0,
        };
        let w = compute_idf(&toks[i], n, &model.df);
        let ghost t = tv[i as int];
        proof {
            lemma_idf_zero_iff(n as int, df_of(model.df@, t));
            lemma_idf_bound(n as int, df_of(model.df@, t));
            lemma_score_num_nonneg(tv.take(i as int), doc@, n as int, model.df@);
            assert((f as int) * (w as int) < 0x1_0000_0000_0000_0000 * 0x1406F40)
                by (nonlinear_arith)
                requires
                    0 <= f as int && (f as int) < 0x1_0000_0000_0000_0000,
                    0 <= w as int && (w as int) < 0x1406F40,
            ;
            assert(tv.take(i + 1).drop_last() =~= tv.take(i as int));
            assert(tv.take(i + 1).last() == t);
        }
        let prod: u128 = (f as u128) * (w as u128);
        let prod64: u64 = if prod > 0xFFFF_FFFF_FFFF_FFFFu128 {
            u64::MAX
        } else {
            prod as u64
        };
        proof {
            assert(prod64 == sat64((f as int) * (w as int)));
        }
        num = sat_add(num, prod64);
        proof {
            lemma_sat_add_assoc(
                score_num(tv.take(i as int), doc@, n as int, model.df@),
                (f as int) * (w as int),
            );
        }
        i += 1;
    }
    proof {
        assert(tv.take(toks@.len() as int) =~= tv);
    }
    Score { num, den: total(doc) }
}

/// Clamping the second addend before a clamped addition loses nothing.
proof fn lemma_sat_add_assoc(a: int, b: int)
    requires
        a >= 0,
        b >= 0,
    ensures
        sat64(sat64(a) as int + sat64(b) as int) == sat64(a + b),
{
}

} // verus!

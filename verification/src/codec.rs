//! The persistence codec: serializes a model to characters and parses it
//! back.
//!
//! The format is a single flat text: every number is exactly twenty
//! decimal digits, every string is its length followed by its characters,
//! a table is its entry count followed by its (term, count) entries, and
//! the model is its document count, the documents (identifier, then term
//! table), and finally the document-frequency table. Parsing validates
//! what well-formedness needs — distinct keys, distinct identifiers,
//! positive counts — and recomputes the document-frequency table from the
//! parsed documents, so a loaded model is well formed or refused.
use vstd::prelude::*;
use vstd::arithmetic::div_mod::lemma_fundamental_div_mod;
use vstd::arithmetic::div_mod::lemma_multiply_divide_lt;
use vstd::arithmetic::div_mod::lemma_mod_bound;

use crate::lexer::str_to_chars;
use crate::model::compute_df;
use crate::model::DocEntry;
use crate::model::Model;
use crate::table::str_eq;
use crate::table::Table;

verus! {

pub open spec fn digit_char(d: int) -> char {
    (48 + d) as char
}

pub open spec fn digit_val(c: char) -> int {
    c as int - 48
}

pub open spec fn is_digit_char(c: char) -> bool {
    48 <= c as int <= 57
}

/// `n` written as exactly `k` decimal digits, highest first.
pub open spec fn fixed_digits(n: int, k: nat) -> Seq<char>
    decreases k,
{
    if k == 0 {
        Seq::empty()
    } else {
        fixed_digits(n / 10, (k - 1) as nat).push(digit_char(n % 10))
    }
}

/// A number is twenty digits.
pub open spec fn emit_num(n: int) -> Seq<char> {
    fixed_digits(n, 20)
}

/// A string is its length, then its characters.
pub open spec fn emit_str(s: Seq<char>) -> Seq<char> {
    emit_num(s.len() as int) + s
}

/// A table's entries, in order: term, then count.
pub open spec fn emit_entries(s: Seq<(String, u64)>) -> Seq<char>
    decreases s.len(),
{
    if s.len() == 0 {
        Seq::empty()
    } else {
        emit_str(s[0].0@) + emit_num(s[0].1 as int) + emit_entries(s.drop_first())
    }
}

/// A table is its entry count, then its entries.
pub open spec fn emit_table(entries: Seq<(String, u64)>) -> Seq<char> {
    emit_num(entries.len() as int) + emit_entries(entries)
}

/// The documents, in order: identifier, then term table.
pub open spec fn emit_docs(docs: Seq<DocEntry>) -> Seq<char>
    decreases docs.len(),
{
    if docs.len() == 0 {
        Seq::empty()
    } else {
        emit_str(docs[0].path@) + emit_table(docs[0].tf.entries@) + emit_docs(docs.drop_first())
    }
}

/// The whole model: document count, documents, document-frequency table.
pub open spec fn emit_model(m: &Model) -> Seq<char> {
    emit_num(m.docs@.len() as int) + emit_docs(m.docs@) + emit_table(m.df.entries@)
}

/// The value of a digit string, highest digit first.
pub open spec fn digits_val(ds: Seq<char>) -> int
    decreases ds.len(),
{
    if ds.len() == 0 {
        0
    } else {
        digits_val(ds.drop_last()) * 10 + digit_val(ds.last())
    }
}

pub proof fn lemma_fixed_digits_len(n: int, k: nat)
    ensures
        fixed_digits(n, k).len() == k,
    decreases k,
{
    if k > 0 {
        lemma_fixed_digits_len(n / 10, (k - 1) as nat);
    }
}

pub proof fn lemma_fixed_digits_are_digits(n: int, k: nat)
    requires
        0 <= n,
    ensures
        forall|i: int|
            0 <= i < fixed_digits(n, k).len() ==> is_digit_char(#[trigger] fixed_digits(n, k)[i]),
    decreases k,
{
    if k > 0 {
        lemma_mod_bound(n, 10);
        lemma_fixed_digits_are_digits(n / 10, (k - 1) as nat);
        lemma_fixed_digits_len(n / 10, (k - 1) as nat);
        let prev = fixed_digits(n / 10, (k - 1) as nat);
        assert forall|i: int| 0 <= i < fixed_digits(n, k).len() implies is_digit_char(
            #[trigger] fixed_digits(n, k)[i],
        ) by {
            if i < k - 1 {
                assert(fixed_digits(n, k)[i] == prev[i]);
            } else {
                assert(fixed_digits(n, k)[i] == digit_char(n % 10));
            }
        }
    }
}

/// Writing `n` in `k` digits and reading the digits back gives `n`, as
/// long as `n` fits.
pub proof fn lemma_digits_val_of_fixed(n: int, k: nat)
    requires
        0 <= n < crate::score::pow10(k),
    ensures
        digits_val(fixed_digits(n, k)) == n,
    decreases k,
{
    if k == 0 {
        assert(crate::score::pow10(0) == 1);
    } else {
        lemma_mod_bound(n, 10);
        assert(crate::score::pow10(k) == 10 * crate::score::pow10((k - 1) as nat));
        lemma_multiply_divide_lt(n, 10, crate::score::pow10((k - 1) as nat));
        lemma_digits_val_of_fixed(n / 10, (k - 1) as nat);
        let ds = fixed_digits(n, k);
        assert(ds.drop_last() =~= fixed_digits(n / 10, (k - 1) as nat));
        assert(ds.last() == digit_char(n % 10));
        assert(digit_val(digit_char(n % 10)) == n % 10);
        lemma_fundamental_div_mod(n, 10);
    }
}

/// Parses `k` digits starting at `i`, folding them onto `acc`.
pub open spec fn spec_parse_digits(s: Seq<char>, i: int, k: nat, acc: int) -> Option<(int, int)>
    decreases k,
{
    if k == 0 {
        Some((acc, i))
    } else if 0 <= i < s.len() && is_digit_char(s[i]) {
        spec_parse_digits(s, i + 1, (k - 1) as nat, acc * 10 + digit_val(s[i]))
    } else {
        None
    }
}

/// Parses one number: twenty digits whose value fits a machine word.
pub open spec fn spec_parse_num(s: Seq<char>, i: int) -> Option<(int, int)> {
    match spec_parse_digits(s, i, 20, 0) {
        None => None,
        Some((v, j)) => if v <= 0xFFFF_FFFF_FFFF_FFFF {
            Some((v, j))
        } else {
            None
        },
    }
}

/// Parses one string: a length, then that many characters.
pub open spec fn spec_parse_str(s: Seq<char>, i: int) -> Option<(Seq<char>, int)> {
    match spec_parse_num(s, i) {
        None => None,
        Some((len, j)) => if j + len <= s.len() {
            Some((s.subrange(j, j + len), j + len))
        } else {
            None
        },
    }
}

/// Parses `k` table entries.
pub open spec fn spec_parse_entries(s: Seq<char>, i: int, k: nat) -> Option<
    (Seq<(Seq<char>, int)>, int),
>
    decreases k,
{
    if k == 0 {
        Some((Seq::empty(), i))
    } else {
        match spec_parse_str(s, i) {
            None => None,
            Some((key, i1)) => match spec_parse_num(s, i1) {
                None => None,
                Some((v, i2)) => match spec_parse_entries(s, i2, (k - 1) as nat) {
                    None => None,
                    Some((rest, i3)) => Some((seq![(key, v)] + rest, i3)),
                },
            },
        }
    }
}

/// Parses one table: an entry count, then the entries.
pub open spec fn spec_parse_table(s: Seq<char>, i: int) -> Option<(Seq<(Seq<char>, int)>, int)> {
    match spec_parse_num(s, i) {
        None => None,
        Some((k, j)) => spec_parse_entries(s, j, k as nat),
    }
}

/// Parses `k` documents: identifier, then table, each.
pub open spec fn spec_parse_docs(s: Seq<char>, i: int, k: nat) -> Option<
    (Seq<(Seq<char>, Seq<(Seq<char>, int)>)>, int),
>
    decreases k,
{
    if k == 0 {
        Some((Seq::empty(), i))
    } else {
        match spec_parse_str(s, i) {
            None => None,
            Some((path, i1)) => match spec_parse_table(s, i1) {
                None => None,
                Some((tab, i2)) => match spec_parse_docs(s, i2, (k - 1) as nat) {
                    None => None,
                    Some((rest, i3)) => Some((seq![(path, tab)] + rest, i3)),
                },
            },
        }
    }
}

/// Parses the whole model text: document count, documents, DF table,
/// and nothing after.
pub open spec fn spec_parse_model(s: Seq<char>) -> Option<
    (Seq<(Seq<char>, Seq<(Seq<char>, int)>)>, Seq<(Seq<char>, int)>),
> {
    match spec_parse_num(s, 0) {
        None => None,
        Some((k, i1)) => match spec_parse_docs(s, i1, k as nat) {
            None => None,
            Some((docs, i2)) => match spec_parse_table(s, i2) {
                None => None,
                Some((df, i3)) => if i3 == s.len() {
                    Some((docs, df))
                } else {
                    None
                },
            },
        },
    }
}

/// The abstract content of a table's entries.
pub open spec fn entries_av(s: Seq<(String, u64)>) -> Seq<(Seq<char>, int)> {
    s.map(|i: int, e: (String, u64)| (e.0@, e.1 as int))
}

/// The abstract content of a document list.
pub open spec fn docs_av(docs: Seq<DocEntry>) -> Seq<(Seq<char>, Seq<(Seq<char>, int)>)> {
    docs.map(|i: int, d: DocEntry| (d.path@, entries_av(d.tf.entries@)))
}

proof fn lemma_digits_val_front(ds: Seq<char>)
    requires
        ds.len() > 0,
    ensures
        digits_val(ds) == digit_val(ds[0]) * crate::score::pow10((ds.len() - 1) as nat)
            + digits_val(ds.drop_first()),
    decreases ds.len(),
{
    if ds.len() == 1 {
        assert(ds.drop_last() =~= Seq::<char>::empty());
        assert(ds.drop_first() =~= Seq::<char>::empty());
        assert(crate::score::pow10(0) == 1);
    } else {
        let dl = ds.drop_last();
        lemma_digits_val_front(dl);
        let k = (ds.len() - 2) as nat;
        assert(crate::score::pow10((ds.len() - 1) as nat) == 10 * crate::score::pow10(k));
        assert(dl[0] == ds[0]);
        assert(ds.drop_first().drop_last() =~= dl.drop_first());
        assert(ds.drop_first().last() == ds.last());
        assert((digit_val(ds[0]) * crate::score::pow10(k) + digits_val(dl.drop_first())) * 10
            == digit_val(ds[0]) * (10 * crate::score::pow10(k)) + digits_val(dl.drop_first())
            * 10) by (nonlinear_arith);
    }
}

proof fn lemma_parse_digits_at(s: Seq<char>, i: int, k: nat, acc: int)
    requires
        0 <= i,
        i + k <= s.len(),
        forall|j: int| i <= j < i + k ==> is_digit_char(#[trigger] s[j]),
    ensures
        spec_parse_digits(s, i, k, acc) == Some(
            (acc * crate::score::pow10(k) + digits_val(s.subrange(i, i + k)), i + k),
        ),
    decreases k,
{
    if k == 0 {
        assert(s.subrange(i, i) =~= Seq::<char>::empty());
        assert(acc * crate::score::pow10(0) == acc) by (nonlinear_arith)
            requires
                crate::score::pow10(0) == 1,
        ;
    } else {
        assert(is_digit_char(s[i]));
        let d = digit_val(s[i]);
        lemma_parse_digits_at(s, i + 1, (k - 1) as nat, acc * 10 + d);
        let sub = s.subrange(i, i + k);
        assert(sub.len() == k);
        lemma_digits_val_front(sub);
        assert(sub[0] == s[i]);
        assert(sub.drop_first() =~= s.subrange(i + 1, i + k));
        assert(crate::score::pow10(k) == 10 * crate::score::pow10((k - 1) as nat));
        assert((acc * 10 + d) * crate::score::pow10((k - 1) as nat) == acc * (10
            * crate::score::pow10((k - 1) as nat)) + d * crate::score::pow10((k - 1) as nat))
            by (nonlinear_arith);
    }
}

/// Twenty emitted digits parse back to the number they were written
/// from.
pub proof fn lemma_parse_num_of_emit(s: Seq<char>, i: int, n: int)
    requires
        0 <= i,
        i + 20 <= s.len(),
        0 <= n <= 0xFFFF_FFFF_FFFF_FFFF,
        s.subrange(i, i + 20) == emit_num(n),
    ensures
        spec_parse_num(s, i) == Some((n, i + 20)),
{
    lemma_fixed_digits_len(n, 20);
    lemma_fixed_digits_are_digits(n, 20);
    assert forall|j: int| i <= j < i + 20 implies is_digit_char(#[trigger] s[j]) by {
        assert(s[j] == emit_num(n)[j - i]);
    }
    lemma_parse_digits_at(s, i, 20, 0);
    reveal_with_fuel(crate::score::pow10, 21);
    assert(crate::score::pow10(20) == 0x56BC75E2D63100000);
    lemma_digits_val_of_fixed(n, 20);
    assert(0 * crate::score::pow10(20) == 0) by (nonlinear_arith);
}

/// An emitted string parses back to itself.
pub proof fn lemma_parse_str_of_emit(s: Seq<char>, i: int, t: Seq<char>)
    requires
        0 <= i,
        t.len() <= 0xFFFF_FFFF_FFFF_FFFF,
        i + 20 + t.len() <= s.len(),
        s.subrange(i, i + 20 + t.len()) == emit_str(t),
    ensures
        spec_parse_str(s, i) == Some((t, i + 20 + t.len())),
{
    lemma_fixed_digits_len(t.len() as int, 20);
    assert(s.subrange(i, i + 20) =~= emit_num(t.len() as int)) by {
        assert forall|j: int| 0 <= j < 20 implies s.subrange(i, i + 20)[j] == emit_num(
            t.len() as int,
        )[j] by {
            assert(s.subrange(i, i + 20)[j] == s.subrange(i, i + 20 + t.len())[j]);
        }
    }
    lemma_parse_num_of_emit(s, i, t.len() as int);
    assert(s.subrange(i + 20, i + 20 + t.len()) =~= t) by {
        assert forall|j: int| 0 <= j < t.len() implies s.subrange(i + 20, i + 20 + t.len())[j]
            == t[j] by {
            assert(s.subrange(i, i + 20 + t.len())[j + 20] == emit_str(t)[j + 20]);
        }
    }
}

/// Every string in the entries is short enough to encode its length.
pub open spec fn encodable_entries(s: Seq<(String, u64)>) -> bool {
    s.len() <= 0xFFFF_FFFF_FFFF_FFFF && forall|j: int|
        0 <= j < s.len() ==> (#[trigger] s[j]).0@.len() <= 0xFFFF_FFFF_FFFF_FFFF
}

/// Every count and length in the model fits the fixed-width encoding.
pub open spec fn encodable(m: &Model) -> bool {
    &&& m.docs@.len() <= 0xFFFF_FFFF_FFFF_FFFF
    &&& encodable_entries(m.df.entries@)
    &&& forall|i: int|
        0 <= i < m.docs@.len() ==> (#[trigger] m.docs@[i]).path@.len()
            <= 0xFFFF_FFFF_FFFF_FFFF && encodable_entries(m.docs@[i].tf.entries@)
}

/// A run of emitted entries parses back to its abstract content.
pub proof fn lemma_parse_entries_of_emit(s: Seq<char>, i: int, entries: Seq<(String, u64)>)
    requires
        0 <= i,
        encodable_entries(entries),
        i + emit_entries(entries).len() <= s.len(),
        s.subrange(i, i + emit_entries(entries).len()) == emit_entries(entries),
    ensures
        spec_parse_entries(s, i, entries.len() as nat) == Some(
            (entries_av(entries), i + emit_entries(entries).len()),
        ),
    decreases entries.len(),
{
    if entries.len() == 0 {
        assert(entries_av(entries) =~= Seq::<(Seq<char>, int)>::empty());
    } else {
        let whole = emit_entries(entries);
        let key = entries[0].0@;
        let cnt = entries[0].1 as int;
        let rest = entries.drop_first();
        let a = emit_str(key);
        let b = emit_num(cnt);
        let c = emit_entries(rest);
        assert(whole == a + b + c);
        lemma_fixed_digits_len(key.len() as int, 20);
        lemma_fixed_digits_len(cnt, 20);
        let la = a.len() as int;
        assert(la == 20 + key.len());
        assert(s.subrange(i, i + la) =~= a) by {
            assert forall|j: int| 0 <= j < la implies s.subrange(i, i + la)[j] == a[j] by {
                assert(s.subrange(i, i + whole.len())[j] == whole[j]);
            }
        }
        lemma_parse_str_of_emit(s, i, key);
        let i1 = i + la;
        assert(s.subrange(i1, i1 + 20) =~= b) by {
            assert forall|j: int| 0 <= j < 20 implies s.subrange(i1, i1 + 20)[j] == b[j] by {
                assert(s.subrange(i, i + whole.len())[la + j] == whole[la + j]);
            }
        }
        lemma_parse_num_of_emit(s, i1, cnt);
        let i2 = i1 + 20;
        assert(s.subrange(i2, i2 + c.len()) =~= c) by {
            assert forall|j: int| 0 <= j < c.len() implies s.subrange(i2, i2 + c.len())[j]
                == c[j] by {
                assert(s.subrange(i, i + whole.len())[la + 20 + j] == whole[la + 20 + j]);
            }
        }
        assert forall|j: int| 0 <= j < rest.len() implies (#[trigger] rest[j]).0@.len()
            <= 0xFFFF_FFFF_FFFF_FFFF by {
            assert(rest[j] == entries[j + 1]);
        }
        lemma_parse_entries_of_emit(s, i2, rest);
        assert(entries_av(entries) =~= seq![(key, cnt)] + entries_av(rest));
    }
}

/// A run of emitted documents parses back to its abstract content.
pub proof fn lemma_parse_docs_of_emit(s: Seq<char>, i: int, docs: Seq<DocEntry>)
    requires
        0 <= i,
        docs.len() <= 0xFFFF_FFFF_FFFF_FFFF,
        forall|j: int|
            0 <= j < docs.len() ==> (#[trigger] docs[j]).path@.len() <= 0xFFFF_FFFF_FFFF_FFFF
                && encodable_entries(docs[j].tf.entries@),
        i + emit_docs(docs).len() <= s.len(),
        s.subrange(i, i + emit_docs(docs).len()) == emit_docs(docs),
    ensures
        spec_parse_docs(s, i, docs.len() as nat) == Some(
            (docs_av(docs), i + emit_docs(docs).len()),
        ),
    decreases docs.len(),
{
    if docs.len() == 0 {
        assert(docs_av(docs) =~= Seq::<(Seq<char>, Seq<(Seq<char>, int)>)>::empty());
    } else {
        let whole = emit_docs(docs);
        let path = docs[0].path@;
        let entries = docs[0].tf.entries@;
        let rest = docs.drop_first();
        let a = emit_str(path);
        let b = emit_num(entries.len() as int);
        let c = emit_entries(entries);
        let d = emit_docs(rest);
        assert(whole == a + (b + c) + d);
        lemma_fixed_digits_len(path.len() as int, 20);
        lemma_fixed_digits_len(entries.len() as int, 20);
        let la = a.len() as int;
        assert(la == 20 + path.len());
        assert(s.subrange(i, i + la) =~= a) by {
            assert forall|j: int| 0 <= j < la implies s.subrange(i, i + la)[j] == a[j] by {
                assert(s.subrange(i, i + whole.len())[j] == whole[j]);
            }
        }
        lemma_parse_str_of_emit(s, i, path);
        let i1 = i + la;
        assert(s.subrange(i1, i1 + 20) =~= b) by {
            assert forall|j: int| 0 <= j < 20 implies s.subrange(i1, i1 + 20)[j] == b[j] by {
                assert(s.subrange(i, i + whole.len())[la + j] == whole[la + j]);
            }
        }
        lemma_parse_num_of_emit(s, i1, entries.len() as int);
        let i2 = i1 + 20;
        assert(s.subrange(i2, i2 + c.len()) =~= c) by {
            assert forall|j: int| 0 <= j < c.len() implies s.subrange(i2, i2 + c.len())[j]
                == c[j] by {
                assert(s.subrange(i, i + whole.len())[la + 20 + j] == whole[la + 20 + j]);
            }
        }
        lemma_parse_entries_of_emit(s, i2, entries);
        let i3 = i2 + c.len() as int;
        assert(s.subrange(i3, i3 + d.len()) =~= d) by {
            assert forall|j: int| 0 <= j < d.len() implies s.subrange(i3, i3 + d.len())[j]
                == d[j] by {
                assert(s.subrange(i, i + whole.len())[la + 20 + c.len() + j] == whole[la + 20
                    + c.len() + j]);
            }
        }
        assert forall|j: int| 0 <= j < rest.len() implies (#[trigger] rest[j]).path@.len()
            <= 0xFFFF_FFFF_FFFF_FFFF && encodable_entries(rest[j].tf.entries@) by {
            assert(rest[j] == docs[j + 1]);
        }
        lemma_parse_docs_of_emit(s, i3, rest);
        assert(docs_av(docs) =~= seq![(path, entries_av(entries))] + docs_av(rest));
    }
}

/// Round trip: the serialized text of an encodable model parses back to
/// exactly the model's abstract content.
pub proof fn lemma_parse_model_of_emit(m: &Model)
    requires
        encodable(m),
    ensures
        spec_parse_model(emit_model(m)) == Some((docs_av(m.docs@), entries_av(m.df.entries@))),
{
    let s = emit_model(m);
    let a = emit_num(m.docs@.len() as int);
    let b = emit_docs(m.docs@);
    let c = emit_num(m.df.entries@.len() as int);
    let d = emit_entries(m.df.entries@);
    assert(s == a + b + (c + d));
    lemma_fixed_digits_len(m.docs@.len() as int, 20);
    lemma_fixed_digits_len(m.df.entries@.len() as int, 20);
    assert(s.subrange(0, 20) =~= a);
    lemma_parse_num_of_emit(s, 0, m.docs@.len() as int);
    assert(s.subrange(20, 20 + b.len() as int) =~= b);
    lemma_parse_docs_of_emit(s, 20, m.docs@);
    let i2 = 20 + b.len() as int;
    assert(s.subrange(i2, i2 + 20) =~= c);
    lemma_parse_num_of_emit(s, i2, m.df.entries@.len() as int);
    let i3 = i2 + 20;
    assert(s.subrange(i3, i3 + d.len()) =~= d);
    lemma_parse_entries_of_emit(s, i3, m.df.entries@);
    assert(i3 + d.len() == s.len());
}

fn push_digits(out: &mut Vec<char>, n: u64, k: usize)
    ensures
        final(out)@ == old(out)@ + fixed_digits(n as int, k as nat),
    decreases k,
{
    if k == 0 {
        proof {
            assert(old(out)@ + fixed_digits(n as int, 0) =~= old(out)@);
        }
        return ;
    }
    push_digits(out, n / 10, k - 1);
    let d: u8 = (n % 10) as u8;
    out.push((48 + d) as char);
    proof {
        assert((48 + d) as char == digit_char((n as int) % 10));
        assert(old(out)@ + fixed_digits((n as int) / 10, (k - 1) as nat).push(
            digit_char((n as int) % 10),
        ) =~= (old(out)@ + fixed_digits((n as int) / 10, (k - 1) as nat)).push(
            digit_char((n as int) % 10),
        ));
    }
}

fn push_num(out: &mut Vec<char>, n: u64)
    ensures
        final(out)@ == old(out)@ + emit_num(n as int),
{
    push_digits(out, n, 20)
}

fn push_chars(out: &mut Vec<char>, cs: &Vec<char>)
    ensures
        final(out)@ == old(out)@ + cs@,
{
    let mut i: usize = 0;
    proof {
        assert(old(out)@ + cs@.take(0) =~= old(out)@);
    }
    while i < cs.len()
        invariant
            i <= cs@.len(),
            out@ == old(out)@ + cs@.take(i as int),
        decreases cs@.len() - i,
    {
        out.push(cs[i]);
        proof {
            assert((old(out)@ + cs@.take(i as int)).push(cs@[i as int]) =~= old(out)@ + cs@.take(
                i + 1,
            ));
        }
        i += 1;
    }
    proof {
        assert(old(out)@ + cs@.take(cs@.len() as int) =~= old(out)@ + cs@);
    }
}

fn push_str_item(out: &mut Vec<char>, s: &String)
    ensures
        final(out)@ == old(out)@ + emit_str(s@),
{
    let cs = str_to_chars(s.as_str());
    push_num(out, cs.len() as u64);
    push_chars(out, &cs);
    proof {
        assert(old(out)@ + emit_num(s@.len() as int) + s@ =~= old(out)@ + emit_str(s@));
    }
}

proof fn lemma_emit_entries_push(s: Seq<(String, u64)>, e: (String, u64))
    ensures
        emit_entries(s.push(e)) == emit_entries(s) + emit_str(e.0@) + emit_num(e.1 as int),
    decreases s.len(),
{
    if s.len() == 0 {
        assert(s.push(e)[0] == e);
        assert(s.push(e).drop_first() =~= Seq::<(String, u64)>::empty());
        assert(emit_entries(Seq::<(String, u64)>::empty()) == Seq::<char>::empty());
        assert(emit_entries(s.push(e)) =~= emit_entries(s) + emit_str(e.0@) + emit_num(
            e.1 as int,
        ));
    } else {
        assert(s.push(e)[0] == s[0]);
        assert(s.push(e).drop_first() =~= s.drop_first().push(e));
        lemma_emit_entries_push(s.drop_first(), e);
        assert(emit_entries(s.push(e)) =~= emit_entries(s) + emit_str(e.0@) + emit_num(
            e.1 as int,
        ));
    }
}

proof fn lemma_emit_docs_push(s: Seq<DocEntry>, e: DocEntry)
    ensures
        emit_docs(s.push(e)) == emit_docs(s) + emit_str(e.path@) + emit_table(e.tf.entries@),
    decreases s.len(),
{
    if s.len() == 0 {
        assert(s.push(e)[0] == e);
        assert(s.push(e).drop_first() =~= Seq::<DocEntry>::empty());
        assert(emit_docs(Seq::<DocEntry>::empty()) == Seq::<char>::empty());
        assert(emit_docs(s.push(e)) =~= emit_docs(s) + emit_str(e.path@) + emit_table(
            e.tf.entries@,
        ));
    } else {
        assert(s.push(e)[0] == s[0]);
        assert(s.push(e).drop_first() =~= s.drop_first().push(e));
        lemma_emit_docs_push(s.drop_first(), e);
        assert(emit_docs(s.push(e)) =~= emit_docs(s) + emit_str(e.path@) + emit_table(
            e.tf.entries@,
        ));
    }
}

fn push_table(out: &mut Vec<char>, t: &Table)
    ensures
        final(out)@ == old(out)@ + emit_table(t.entries@),
{
    push_num(out, t.len() as u64);
    let ghost es = t.entries@;
    let mut i: usize = 0;
    proof {
        assert(emit_entries(es.take(0)) == Seq::<char>::empty());
        assert(old(out)@ + emit_num(es.len() as int) + emit_entries(es.take(0)) =~= old(out)@
            + emit_num(es.len() as int));
    }
    while i < t.entries.len()
        invariant
            es == t.entries@,
            i <= es.len(),
            out@ == old(out)@ + emit_num(es.len() as int) + emit_entries(es.take(i as int)),
        decreases es.len() - i,
    {
        push_str_item(out, &t.entries[i].0);
        push_num(out, t.entries[i].1);
        proof {
            assert(es.take(i + 1) =~= es.take(i as int).push(es[i as int]));
            lemma_emit_entries_push(es.take(i as int), es[i as int]);
        }
        i += 1;
    }
    proof {
        assert(es.take(es.len() as int) =~= es);
        assert(old(out)@ + emit_num(es.len() as int) + emit_entries(es) =~= old(out)@
            + emit_table(es));
    }
}

/// Serializes a model to its persisted text.
pub fn serialize_model(m: &Model) -> (out: Vec<char>)
    ensures
        out@ == emit_model(m),
{
    let mut out: Vec<char> = Vec::new();
    push_num(&mut out, m.docs.len() as u64);
    let ghost ds = m.docs@;
    let mut i: usize = 0;
    proof {
        assert(emit_docs(ds.take(0)) == Seq::<char>::empty());
        assert(Seq::<char>::empty() + emit_num(ds.len() as int) + emit_docs(ds.take(0))
            =~= emit_num(ds.len() as int));
    }
    while i < m.docs.len()
        invariant
            ds == m.docs@,
            i <= ds.len(),
            out@ == emit_num(ds.len() as int) + emit_docs(ds.take(i as int)),
        decreases ds.len() - i,
    {
        push_str_item(&mut out, &m.docs[i].path);
        push_table(&mut out, &m.docs[i].tf);
        proof {
            assert(ds.take(i + 1) =~= ds.take(i as int).push(ds[i as int]));
            lemma_emit_docs_push(ds.take(i as int), ds[i as int]);
            assert(emit_num(ds.len() as int) + emit_docs(ds.take(i as int)) + emit_str(
                ds[i as int].path@,
            ) + emit_table(ds[i as int].tf.entries@) =~= emit_num(ds.len() as int) + (emit_docs(
                ds.take(i as int),
            ) + emit_str(ds[i as int].path@) + emit_table(ds[i as int].tf.entries@)));
        }
        i += 1;
    }
    proof {
        assert(ds.take(ds.len() as int) =~= ds);
    }
    push_table(&mut out, &m.df);
    proof {
        assert(emit_num(ds.len() as int) + emit_docs(ds) + emit_table(m.df.entries@)
            =~= emit_model(m));
    }
    out
}

proof fn lemma_pow10_mono(a: nat, b: nat)
    requires
        a <= b,
    ensures
        crate::score::pow10(a) <= crate::score::pow10(b),
    decreases b,
{
    if a < b {
        lemma_pow10_mono(a, (b - 1) as nat);
        crate::score::lemma_pow10_pos((b - 1) as nat);
    }
}

fn parse_num(s: &[char], i: usize) -> (r: Option<(u64, usize)>)
    requires
        i <= s@.len(),
    ensures
        match r {
            Some(p) => spec_parse_num(s@, i as int) == Some((p.0 as int, p.1 as int)) && i <= p.1
                <= s@.len(),
            None => spec_parse_num(s@, i as int) is None,
        },
{
    let mut acc: u128 = 0;
    let mut j: usize = 0;
    proof {
        reveal_with_fuel(crate::score::pow10, 21);
        assert(crate::score::pow10(20) == 0x56BC75E2D63100000);
    }
    while j < 20
        invariant
            i <= s@.len(),
            j <= 20,
            i + j <= s@.len(),
            acc as int >= 0,
            (acc as int) < crate::score::pow10(j as nat),
            crate::score::pow10(20) == 0x56BC75E2D63100000,
            spec_parse_digits(s@, i as int, 20, 0) == spec_parse_digits(
                s@,
                i + j as int,
                (20 - j) as nat,
                acc as int,
            ),
        decreases 20 - j,
    {
        if s.len() - i <= j {
            return None;
        }
        let c = s[i + j];
        if c < '0' || c > '9' {
            proof {
                assert(c == s@[i + j as int]);
            }
            return None;
        }
        let d: u128 = (c as u8 - 48) as u128;
        proof {
            assert(c == s@[i + j as int]);
            assert(is_digit_char(s@[i + j as int]));
            assert(digit_val(s@[i + j as int]) == d as int);
            lemma_pow10_mono((j + 1) as nat, 20);
            assert(crate::score::pow10((j + 1) as nat) == 10 * crate::score::pow10(j as nat));
            assert((acc as int) * 10 + d < 10 * crate::score::pow10(j as nat))
                by (nonlinear_arith)
                requires
                    (acc as int) < crate::score::pow10(j as nat),
                    0 <= d < 10,
                    acc as int >= 0,
            ;
        }
        acc = acc * 10 + d;
        j += 1;
    }
    if acc > 0xFFFF_FFFF_FFFF_FFFFu128 {
        return None;
    }
    let sl = s.len();
    proof {
        assert(i + 20 <= sl);
    }
    Some((acc as u64, i + 20))
}

fn parse_str(s: &[char], i: usize) -> (r: Option<(String, usize)>)
    requires
        i <= s@.len(),
    ensures
        match r {
            Some(p) => spec_parse_str(s@, i as int) == Some((p.0@, p.1 as int)) && i <= p.1
                <= s@.len(),
            None => spec_parse_str(s@, i as int) is None,
        },
{
    match parse_num(s, i) {
        None => None,
        Some((len, j)) => {
            if len > (s.len() - j) as u64 {
                return None;
            }
            let l = len as usize;
            let sub = &s[j..j + l];
            let st = crate::lexer::chars_to_string(sub);
            Some((st, j + l))
        },
    }
}

fn parse_entries(s: &[char], i: usize, k: u64) -> (r: Option<(Vec<(String, u64)>, usize)>)
    requires
        i <= s@.len(),
    ensures
        match r {
            Some(p) => spec_parse_entries(s@, i as int, k as nat) == Some(
                (entries_av(p.0@), p.1 as int),
            ) && i <= p.1 <= s@.len(),
            None => spec_parse_entries(s@, i as int, k as nat) is None,
        },
    decreases k,
{
    if k == 0 {
        proof {
            assert(entries_av(Seq::<(String, u64)>::empty()) =~= Seq::<(Seq<char>, int)>::empty());
        }
        let empty: Vec<(String, u64)> = Vec::new();
        proof {
            assert(empty@ =~= Seq::<(String, u64)>::empty());
        }
        return Some((empty, i));
    }
    match parse_str(s, i) {
        None => None,
        Some((key, i1)) => match parse_num(s, i1) {
            None => None,
            Some((v, i2)) => match parse_entries(s, i2, k - 1) {
                None => None,
                Some((rest, i3)) => {
                    let ghost pre = rest@;
                    let mut rest = rest;
                    rest.insert(0, (key, v));
                    proof {
                        assert(entries_av(rest@) =~= seq![(rest@[0].0@, rest@[0].1 as int)]
                            + entries_av(pre));
                    }
                    Some((rest, i3))
                },
            },
        },
    }
}

fn parse_table(s: &[char], i: usize) -> (r: Option<(Vec<(String, u64)>, usize)>)
    requires
        i <= s@.len(),
    ensures
        match r {
            Some(p) => spec_parse_table(s@, i as int) == Some((entries_av(p.0@), p.1 as int)) && i
                <= p.1 <= s@.len(),
            None => spec_parse_table(s@, i as int) is None,
        },
{
    match parse_num(s, i) {
        None => None,
        Some((k, j)) => parse_entries(s, j, k),
    }
}

fn parse_docs(s: &[char], i: usize, k: u64) -> (r: Option<(Vec<DocEntry>, usize)>)
    requires
        i <= s@.len(),
    ensures
        match r {
            Some(p) => spec_parse_docs(s@, i as int, k as nat) == Some(
                (docs_av(p.0@), p.1 as int),
            ) && i <= p.1 <= s@.len(),
            None => spec_parse_docs(s@, i as int, k as nat) is None,
        },
    decreases k,
{
    if k == 0 {
        proof {
            assert(docs_av(Seq::<DocEntry>::empty()) =~= Seq::<
                (Seq<char>, Seq<(Seq<char>, int)>),
            >::empty());
        }
        let empty: Vec<DocEntry> = Vec::new();
        proof {
            assert(empty@ =~= Seq::<DocEntry>::empty());
        }
        return Some((empty, i));
    }
    match parse_str(s, i) {
        None => None,
        Some((path, i1)) => match parse_table(s, i1) {
            None => None,
            Some((entries, i2)) => match parse_docs(s, i2, k - 1) {
                None => None,
                Some((rest, i3)) => {
                    let ghost pre = rest@;
                    let mut rest = rest;
                    rest.insert(0, DocEntry { path, tf: Table { entries } });
                    proof {
                        assert(docs_av(rest@) =~= seq![
                            (rest@[0].path@, entries_av(rest@[0].tf.entries@)),
                        ] + docs_av(pre));
                    }
                    Some((rest, i3))
                },
            },
        },
    }
}

/// The keys of a table's entries are pairwise distinct and every count
/// is positive.
pub open spec fn entries_ok_spec(s: Seq<(String, u64)>) -> bool {
    &&& forall|p: int, q: int|
        0 <= p < q < s.len() ==> (#[trigger] s[p]).0@ != (#[trigger] s[q]).0@
    &&& forall|j: int| 0 <= j < s.len() ==> (#[trigger] s[j]).1 >= 1
}

fn entries_ok(entries: &Vec<(String, u64)>) -> (r: bool)
    ensures
        r == entries_ok_spec(entries@),
{
    let ghost es = entries@;
    let mut q: usize = 0;
    while q < entries.len()
        invariant
            es == entries@,
            q <= es.len(),
            forall|a: int, b: int|
                0 <= a < b < q ==> (#[trigger] es[a]).0@ != (#[trigger] es[b]).0@,
            forall|j: int| 0 <= j < q ==> (#[trigger] es[j]).1 >= 1,
        decreases es.len() - q,
    {
        if entries[q].1 == 0 {
            return false;
        }
        let mut p: usize = 0;
        while p < q
            invariant
                es == entries@,
                p <= q < es.len(),
                forall|a: int| 0 <= a < p ==> (#[trigger] es[a]).0@ != es[q as int].0@,
            decreases q - p,
        {
            if str_eq(entries[p].0.as_str(), entries[q].0.as_str()) {
                return false;
            }
            p += 1;
        }
        proof {
            assert forall|a: int, b: int| 0 <= a < b < q + 1 implies (#[trigger] es[a]).0@ != (
            #[trigger] es[b]).0@ by {}
        }
        q += 1;
    }
    true
}

fn docs_ok(docs: &Vec<DocEntry>) -> (r: bool)
    ensures
        r == {
            &&& forall|p: int, q: int|
                0 <= p < q < docs@.len() ==> (#[trigger] docs@[p]).path@ != (
                #[trigger] docs@[q]).path@
            &&& forall|j: int| 0 <= j < docs@.len() ==> entries_ok_spec(
                (#[trigger] docs@[j]).tf.entries@,
            )
        },
{
    let ghost dsq = docs@;
    let mut q: usize = 0;
    while q < docs.len()
        invariant
            dsq == docs@,
            q <= dsq.len(),
            forall|a: int, b: int|
                0 <= a < b < q ==> (#[trigger] dsq[a]).path@ != (#[trigger] dsq[b]).path@,
            forall|j: int| 0 <= j < q ==> entries_ok_spec((#[trigger] dsq[j]).tf.entries@),
        decreases dsq.len() - q,
    {
        if !entries_ok(&docs[q].tf.entries) {
            return false;
        }
        let mut p: usize = 0;
        while p < q
            invariant
                dsq == docs@,
                p <= q < dsq.len(),
                forall|a: int| 0 <= a < p ==> (#[trigger] dsq[a]).path@ != dsq[q as int].path@,
            decreases q - p,
        {
            if str_eq(docs[p].path.as_str(), docs[q].path.as_str()) {
                return false;
            }
            p += 1;
        }
        q += 1;
    }
    true
}

/// What a parsed corpus must satisfy to stand in a model: distinct
/// identifiers, distinct terms per document, positive counts.
pub open spec fn valid_av(av: Seq<(Seq<char>, Seq<(Seq<char>, int)>)>) -> bool {
    &&& forall|p: int, q: int| 0 <= p < q < av.len() ==> (#[trigger] av[p]).0 != (#[trigger] av[q]).0
    &&& forall|j: int, p: int, q: int|
        0 <= j < av.len() && 0 <= p < q < av[j].1.len() ==> (#[trigger] av[j].1[p]).0 != (
        #[trigger] av[j].1[q]).0
    &&& forall|j: int, p: int|
        0 <= j < av.len() && 0 <= p < av[j].1.len() ==> (#[trigger] av[j].1[p]).1 >= 1
}

/// Parses a serialized model. The documents must parse in full, carry
/// distinct identifiers and well-formed tables; the document-frequency
/// table is read for format but recomputed from the parsed documents, so
/// a stale or tampered table cannot make a loaded model inconsistent.
pub fn parse_model(s: &[char]) -> (r: Option<Model>)
    ensures
        match r {
            Some(m) => {
                &&& m.wf()
                &&& spec_parse_model(s@) matches Some(ab) && docs_av(m.docs@) == ab.0
            },
            None => spec_parse_model(s@) is None || (spec_parse_model(s@) matches Some(ab)
                && !valid_av(ab.0)),
        },
{
    let docs = match parse_num(s, 0) {
        None => {
            return None;
        },
        Some((k, i1)) => match parse_docs(s, i1, k) {
            None => {
                return None;
            },
            Some((docs, i2)) => match parse_table(s, i2) {
                None => {
                    return None;
                },
                Some((_df_entries, i3)) => {
                    if i3 != s.len() {
                        return None;
                    }
                    docs
                },
            },
        },
    };
    if !docs_ok(&docs) {
        proof {
            let ab = spec_parse_model(s@).unwrap();
            assert(ab.0 == docs_av(docs@));
            if valid_av(ab.0) {
                assert forall|p: int, q: int|
                    0 <= p < q < docs@.len() implies (#[trigger] docs@[p]).path@ != (
                #[trigger] docs@[q]).path@ by {
                    assert(ab.0[p].0 == docs@[p].path@ && ab.0[q].0 == docs@[q].path@);
                }
                assert forall|j: int| 0 <= j < docs@.len() implies entries_ok_spec(
                    (#[trigger] docs@[j]).tf.entries@,
                ) by {
                    let es = docs@[j].tf.entries@;
                    assert(ab.0[j].1 == entries_av(es));
                    assert forall|p: int, q: int| 0 <= p < q < es.len() implies (
                    #[trigger] es[p]).0@ != (#[trigger] es[q]).0@ by {
                        assert(ab.0[j].1[p].0 == es[p].0@ && ab.0[j].1[q].0 == es[q].0@);
                    }
                    assert forall|p: int| 0 <= p < es.len() implies (#[trigger] es[p]).1 >= 1 by {
                        assert(ab.0[j].1[p].1 == es[p].1 as int);
                    }
                }
            }
        }
        return None;
    }
    proof {
        assert forall|j: int, k: Seq<char>|
            0 <= j < docs@.len() && #[trigger] docs@[j].tf@.contains_key(k) implies docs@[j].tf@[k]
            >= 1 by {
            crate::table::lemma_map_of_keys(docs@[j].tf.entries@, k);
            let e = choose|e: int|
                0 <= e < docs@[j].tf.entries@.len() && (#[trigger] docs@[j].tf.entries@[e]).0@
                    == k;
            crate::table::lemma_map_of_entry(docs@[j].tf.entries@, e);
        }
    }
    let df = compute_df(&docs);
    Some(Model { docs, df })
}

/// Serializes a model to one owned string, for writing to storage.
pub fn model_to_string(m: &Model) -> (r: String)
    ensures
        r@ == emit_model(m),
{
    let cs = serialize_model(m);
    crate::lexer::chars_to_string(cs.as_slice())
}

/// Parses a persisted model from one string, as `parse_model` does.
pub fn model_from_str(s: &str) -> (r: Option<Model>)
    ensures
        match r {
            Some(m) => {
                &&& m.wf()
                &&& spec_parse_model(s@) matches Some(ab) && docs_av(m.docs@) == ab.0
            },
            None => spec_parse_model(s@) is None || (spec_parse_model(s@) matches Some(ab)
                && !valid_av(ab.0)),
        },
{
    let cs = str_to_chars(s);
    parse_model(cs.as_slice())
}

/// The map a table holds is a function of its abstract content.
proof fn lemma_entries_av_same_map(a: Seq<(String, u64)>, b: Seq<(String, u64)>)
    requires
        entries_av(a) == entries_av(b),
    ensures
        crate::table::map_of(a) == crate::table::map_of(b),
    decreases a.len(),
{
    assert(entries_av(a).len() == a.len());
    assert(entries_av(b).len() == b.len());
    assert(a.len() == b.len());
    if a.len() > 0 {
        assert(entries_av(a.drop_last()) =~= entries_av(b.drop_last())) by {
            assert forall|j: int| 0 <= j < a.len() - 1 implies entries_av(a.drop_last())[j]
                == entries_av(b.drop_last())[j] by {
                assert(entries_av(a)[j] == entries_av(b)[j]);
            }
        }
        lemma_entries_av_same_map(a.drop_last(), b.drop_last());
        assert(entries_av(a)[a.len() - 1] == entries_av(b)[b.len() - 1]);
        assert(a.last().0@ == b.last().0@ && a.last().1 == b.last().1);
    }
}

/// The corpus index is a function of the documents' abstract content.
pub proof fn lemma_docs_av_same_tf(a: Seq<DocEntry>, b: Seq<DocEntry>)
    requires
        docs_av(a) == docs_av(b),
    ensures
        crate::model::tf_map_of(a) == crate::model::tf_map_of(b),
    decreases a.len(),
{
    assert(docs_av(a).len() == a.len());
    assert(docs_av(b).len() == b.len());
    assert(a.len() == b.len());
    if a.len() > 0 {
        assert(docs_av(a.drop_last()) =~= docs_av(b.drop_last())) by {
            assert forall|j: int| 0 <= j < a.len() - 1 implies docs_av(a.drop_last())[j]
                == docs_av(b.drop_last())[j] by {
                assert(docs_av(a)[j] == docs_av(b)[j]);
            }
        }
        lemma_docs_av_same_tf(a.drop_last(), b.drop_last());
        assert(docs_av(a)[a.len() - 1] == docs_av(b)[b.len() - 1]);
        assert(a.last().path@ == b.last().path@);
        lemma_entries_av_same_map(a.last().tf.entries@, b.last().tf.entries@);
    }
}

/// Round trip, closed: a well-formed model serialized and parsed back
/// (any well-formed model whose documents carry the same abstract
/// content) has the same corpus index and the same document-frequency
/// table, each as a mapping.
pub proof fn lemma_round_trip(m1: &Model, m2: &Model)
    requires
        m1.wf(),
        m2.wf(),
        docs_av(m2.docs@) == docs_av(m1.docs@),
    ensures
        crate::model::tf_map_of(m2.docs@) == crate::model::tf_map_of(m1.docs@),
        m2.df@ == m1.df@,
{
    lemma_docs_av_same_tf(m2.docs@, m1.docs@);
    crate::model::lemma_model_determined(m1, m2);
}

} // verus!

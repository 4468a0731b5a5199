//! The frequency model: per-document term counts, the corpus index, and
//! the document-frequency table, together with the indexer that builds a
//! complete model from a corpus of plain-text documents.
use vstd::prelude::*;

use crate::lexer::tokenize;
use crate::lexer::tokenize_spec;
use crate::lexer::str_to_chars;
use crate::table::lemma_map_of_keys;
use crate::table::str_eq;
use crate::table::Table;

verus! {

/// The term counts a token sequence induces: each token adds one to its
/// own count.
pub open spec fn counts_of(toks: Seq<Seq<char>>) -> Map<Seq<char>, nat>
    decreases toks.len(),
{
    if toks.len() == 0 {
        Map::empty()
    } else {
        let m = counts_of(toks.drop_last());
        let t = toks.last();
        m.insert(t, if m.contains_key(t) { m[t] + 1 } else { 1 as nat })
    }
}

/// Counts are at least one and at most the number of tokens.
pub proof fn lemma_counts_of_bounds(toks: Seq<Seq<char>>)
    ensures
        forall|k: Seq<char>| #[trigger]
            counts_of(toks).contains_key(k) ==> 1 <= counts_of(toks)[k] <= toks.len(),
    decreases toks.len(),
{
    if toks.len() > 0 {
        lemma_counts_of_bounds(toks.drop_last());
        let m = counts_of(toks.drop_last());
        let t = toks.last();
        assert forall|k: Seq<char>| #[trigger] counts_of(toks).contains_key(k) implies 1
            <= counts_of(toks)[k] <= toks.len() by {
            if k != t {
                assert(m.contains_key(k));
            }
        }
    }
}

/// Builds the per-document term-count table of one document's text.
pub fn index_text(text: &[char]) -> (t: Table)
    ensures
        t.wf(),
        t@ == counts_of(tokenize_spec(text@)),
{
    let toks = tokenize(text);
    let ghost tv = tokenize_spec(text@);
    let mut tab = Table::new();
    let mut i: usize = 0;
    proof {
        assert(counts_of(tv.take(0)) =~= Map::<Seq<char>, nat>::empty());
    }
    while i < toks.len()
        invariant
            toks.deep_view() == tv,
            i <= toks@.len(),
            tab.wf(),
            tab@ == counts_of(tv.take(i as int)),
        decreases toks@.len() - i,
    {
        proof {
            assert(toks.deep_view()[i as int] == toks@[i as int]@);
            lemma_counts_of_bounds(tv.take(i as int));
            assert(tv.take(i as int).len() <= usize::MAX);
        }
        tab.bump(toks[i].clone());
        proof {
            assert(tv.take(i + 1).drop_last() =~= tv.take(i as int));
            assert(tv.take(i + 1).last() == tv[i as int]);
        }
        i += 1;
    }
    proof {
        assert(tv.take(toks@.len() as int) =~= tv);
    }
    tab
}

/// One indexed document: its identifier (in practice a path) and its
/// term-count table.
pub struct DocEntry {
    pub path: String,
    pub tf: Table,
}

/// The corpus index a document sequence stands for: identifier to term
/// counts, later entries overriding earlier ones.
pub open spec fn tf_map_of(docs: Seq<DocEntry>) -> Map<Seq<char>, Map<Seq<char>, nat>>
    decreases docs.len(),
{
    if docs.len() == 0 {
        Map::empty()
    } else {
        tf_map_of(docs.drop_last()).insert(docs.last().path@, docs.last().tf@)
    }
}

/// In how many of the documents the term `t` occurs.
pub open spec fn df_count(docs: Seq<DocEntry>, t: Seq<char>) -> nat
    decreases docs.len(),
{
    if docs.len() == 0 {
        0
    } else {
        df_count(docs.drop_last(), t) + if docs.last().tf@.contains_key(t) {
            1 as nat
        } else {
            0 as nat
        }
    }
}

pub proof fn lemma_df_count_le(docs: Seq<DocEntry>, t: Seq<char>)
    ensures
        df_count(docs, t) <= docs.len(),
    decreases docs.len(),
{
    if docs.len() > 0 {
        lemma_df_count_le(docs.drop_last(), t);
    }
}

/// The complete model: the corpus index and the document-frequency table.
pub struct Model {
    pub docs: Vec<DocEntry>,
    pub df: Table,
}

impl Model {
    /// Well-formedness: tables have distinct keys, stored counts are
    /// positive, document identifiers are unique, and the DF table is
    /// consistent with the corpus index: it holds exactly the terms that
    /// occur in at least one document, each mapped to the number of
    /// documents containing it.
    pub open spec fn wf(&self) -> bool {
        &&& forall|i: int| 0 <= i < self.docs@.len() ==> (#[trigger] self.docs@[i]).tf.wf()
        &&& forall|i: int, k: Seq<char>|
            0 <= i < self.docs@.len() && #[trigger] self.docs@[i].tf@.contains_key(k)
                ==> self.docs@[i].tf@[k] >= 1
        &&& forall|i: int, j: int|
            0 <= i < j < self.docs@.len() ==> (#[trigger] self.docs@[i]).path@ != (
            #[trigger] self.docs@[j]).path@
        &&& self.df.wf()
        &&& forall|t: Seq<char>| #[trigger]
            self.df@.contains_key(t) ==> self.df@[t] == df_count(self.docs@, t) && self.df@[t]
                >= 1
        &&& forall|t: Seq<char>| #[trigger] df_count(self.docs@, t) >= 1 ==> self.df@.contains_key(t)
    }
}

/// The DF consistency invariant, stated on its own: a well-formed model
/// lists a term in its DF table exactly when some document contains it,
/// with the number of documents containing it as its count.
pub proof fn lemma_df_consistent(m: &Model, t: Seq<char>)
    requires
        m.wf(),
    ensures
        m.df@.contains_key(t) <==> df_count(m.docs@, t) >= 1,
        m.df@.contains_key(t) ==> m.df@[t] == df_count(m.docs@, t),
{
}

/// What a corpus of (identifier, text) pairs indexes to: each text
/// tokenized and counted, later texts overriding earlier ones under the
/// same identifier.
pub open spec fn corpus_tf(input: Seq<(Seq<char>, Seq<char>)>) -> Map<
    Seq<char>,
    Map<Seq<char>, nat>,
>
    decreases input.len(),
{
    if input.len() == 0 {
        Map::empty()
    } else {
        corpus_tf(input.drop_last()).insert(
            input.last().0,
            counts_of(tokenize_spec(input.last().1)),
        )
    }
}

/// The view of an owned corpus.
pub open spec fn input_view(s: Seq<(String, String)>) -> Seq<(Seq<char>, Seq<char>)> {
    s.map(|i: int, p: (String, String)| (p.0@, p.1@))
}

/// A term appears among the first `e` entries of a table.
spec fn key_in_prefix(s: Seq<(String, u64)>, e: int, t: Seq<char>) -> bool {
    exists|j: int| 0 <= j < e && (#[trigger] s[j]).0@ == t
}

/// Replacing one document by another under the same identifier updates
/// the corpus index at that identifier alone.
proof fn lemma_tf_map_of_update(docs: Seq<DocEntry>, i: int, e: DocEntry)
    requires
        0 <= i < docs.len(),
        e.path@ == docs[i].path@,
        forall|p: int, q: int|
            0 <= p < q < docs.len() ==> (#[trigger] docs[p]).path@ != (#[trigger] docs[q]).path@,
    ensures
        tf_map_of(docs.update(i, e)) == tf_map_of(docs).insert(e.path@, e.tf@),
    decreases docs.len(),
{
    let u = docs.update(i, e);
    if i == docs.len() - 1 {
        assert(u.drop_last() =~= docs.drop_last());
        assert(u.last() == e);
        assert(tf_map_of(u) =~= tf_map_of(docs).insert(e.path@, e.tf@));
    } else {
        assert(u.drop_last() =~= docs.drop_last().update(i, e));
        assert(docs.drop_last()[i] == docs[i]);
        lemma_tf_map_of_update(docs.drop_last(), i, e);
        assert(u.last() == docs.last());
        assert(tf_map_of(u) =~= tf_map_of(docs).insert(e.path@, e.tf@));
    }
}

/// An identifier is in the corpus index exactly when some document
/// carries it.
pub proof fn lemma_tf_map_of_keys(docs: Seq<DocEntry>, d: Seq<char>)
    ensures
        tf_map_of(docs).contains_key(d) <==> exists|i: int|
            0 <= i < docs.len() && (#[trigger] docs[i]).path@ == d,
    decreases docs.len(),
{
    if docs.len() > 0 {
        lemma_tf_map_of_keys(docs.drop_last(), d);
        if tf_map_of(docs).contains_key(d) {
            if docs.last().path@ == d {
                assert(docs[docs.len() - 1].path@ == d);
            } else {
                let i = choose|i: int|
                    0 <= i < docs.drop_last().len() && (#[trigger] docs.drop_last()[i]).path@ == d;
                assert(docs[i].path@ == d);
            }
        }
        if exists|i: int| 0 <= i < docs.len() && (#[trigger] docs[i]).path@ == d {
            let i = choose|i: int| 0 <= i < docs.len() && (#[trigger] docs[i]).path@ == d;
            if i < docs.len() - 1 {
                assert(docs.drop_last()[i].path@ == d);
            }
        }
    }
}

/// With distinct identifiers, the corpus index sends each document's
/// identifier to its term counts.
pub proof fn lemma_tf_map_of_entry(docs: Seq<DocEntry>, i: int)
    requires
        0 <= i < docs.len(),
        forall|p: int, q: int|
            0 <= p < q < docs.len() ==> (#[trigger] docs[p]).path@ != (#[trigger] docs[q]).path@,
    ensures
        tf_map_of(docs).contains_key(docs[i].path@),
        tf_map_of(docs)[docs[i].path@] == docs[i].tf@,
    decreases docs.len(),
{
    if i < docs.len() - 1 {
        lemma_tf_map_of_entry(docs.drop_last(), i);
        assert(docs.drop_last()[i] == docs[i]);
        assert(docs.last().path@ != docs[i].path@);
    }
}

/// Removing one document removes its identifier from the corpus index
/// and changes nothing else, when identifiers are distinct.
proof fn lemma_tf_map_of_remove(docs: Seq<DocEntry>, j: int)
    requires
        0 <= j < docs.len(),
        forall|p: int, q: int|
            0 <= p < q < docs.len() ==> (#[trigger] docs[p]).path@ != (#[trigger] docs[q]).path@,
    ensures
        tf_map_of(docs.remove(j)) == tf_map_of(docs).remove(docs[j].path@),
    decreases docs.len(),
{
    let p = docs[j].path@;
    if j == docs.len() - 1 {
        assert(docs.remove(j) =~= docs.drop_last());
        lemma_tf_map_of_keys(docs.drop_last(), p);
        assert forall|i: int| 0 <= i < docs.drop_last().len() implies (
        #[trigger] docs.drop_last()[i]).path@ != p by {
            assert(docs.drop_last()[i] == docs[i]);
        }
        assert(!tf_map_of(docs.drop_last()).contains_key(p));
        assert(tf_map_of(docs.remove(j)) =~= tf_map_of(docs).remove(p));
    } else {
        assert(docs.remove(j).drop_last() =~= docs.drop_last().remove(j));
        assert(docs.remove(j).last() == docs.last());
        assert(docs.drop_last()[j] == docs[j]);
        lemma_tf_map_of_remove(docs.drop_last(), j);
        assert(docs.last().path@ != p);
        assert(tf_map_of(docs.remove(j)) =~= tf_map_of(docs).remove(p));
    }
}

/// Removing one document lowers the document count of `t` by one exactly
/// when that document contains `t`.
proof fn lemma_df_count_remove(docs: Seq<DocEntry>, j: int, t: Seq<char>)
    requires
        0 <= j < docs.len(),
    ensures
        df_count(docs, t) == df_count(docs.remove(j), t) + if docs[j].tf@.contains_key(t) {
            1 as nat
        } else {
            0 as nat
        },
    decreases docs.len(),
{
    if j == docs.len() - 1 {
        assert(docs.remove(j) =~= docs.drop_last());
    } else {
        assert(docs.remove(j).drop_last() =~= docs.drop_last().remove(j));
        assert(docs.remove(j).last() == docs.last());
        assert(docs.drop_last()[j] == docs[j]);
        lemma_df_count_remove(docs.drop_last(), j, t);
    }
}

/// Two corpora of documents with distinct identifiers and the same corpus
/// index contain any term in the same number of documents: the document
/// count is a function of the index as a mapping, not of its order.
pub proof fn lemma_df_count_determined(a: Seq<DocEntry>, b: Seq<DocEntry>, t: Seq<char>)
    requires
        forall|p: int, q: int|
            0 <= p < q < a.len() ==> (#[trigger] a[p]).path@ != (#[trigger] a[q]).path@,
        forall|p: int, q: int|
            0 <= p < q < b.len() ==> (#[trigger] b[p]).path@ != (#[trigger] b[q]).path@,
        tf_map_of(a) == tf_map_of(b),
    ensures
        df_count(a, t) == df_count(b, t),
    decreases a.len(),
{
    if a.len() == 0 {
        if b.len() > 0 {
            lemma_tf_map_of_keys(b, b.last().path@);
            assert(b[b.len() - 1].path@ == b.last().path@);
            assert(tf_map_of(b).contains_key(b.last().path@));
        }
    } else {
        let la = a.last();
        let p = la.path@;
        lemma_tf_map_of_entry(a, a.len() - 1);
        lemma_tf_map_of_keys(b, p);
        let j = choose|j: int| 0 <= j < b.len() && (#[trigger] b[j]).path@ == p;
        lemma_tf_map_of_entry(b, j);
        assert(la.tf@ == b[j].tf@);
        let a2 = a.drop_last();
        let b2 = b.remove(j);
        assert forall|x: int, y: int|
            0 <= x < y < b2.len() implies (#[trigger] b2[x]).path@ != (#[trigger] b2[y]).path@ by {
            if y < j {
                assert(b2[x] == b[x] && b2[y] == b[y]);
            } else if x < j {
                assert(b2[x] == b[x] && b2[y] == b[y + 1]);
            } else {
                assert(b2[x] == b[x + 1] && b2[y] == b[y + 1]);
            }
        }
        assert(a.remove(a.len() - 1) =~= a2);
        lemma_tf_map_of_remove(a, a.len() - 1);
        lemma_tf_map_of_remove(b, j);
        lemma_df_count_determined(a2, b2, t);
        lemma_df_count_remove(b, j, t);
        assert(df_count(a, t) == df_count(a2, t) + if la.tf@.contains_key(t) {
            1 as nat
        } else {
            0 as nat
        });
    }
}

/// An identifier is in the indexed corpus exactly when some input pair
/// carries it.
pub proof fn lemma_corpus_tf_keys(input: Seq<(Seq<char>, Seq<char>)>, d: Seq<char>)
    ensures
        corpus_tf(input).contains_key(d) <==> exists|i: int|
            0 <= i < input.len() && (#[trigger] input[i]).0 == d,
    decreases input.len(),
{
    if input.len() > 0 {
        lemma_corpus_tf_keys(input.drop_last(), d);
        if corpus_tf(input).contains_key(d) {
            if input.last().0 == d {
                assert(input[input.len() - 1].0 == d);
            } else {
                let i = choose|i: int|
                    0 <= i < input.drop_last().len() && (#[trigger] input.drop_last()[i]).0 == d;
                assert(input[i].0 == d);
            }
        }
        if exists|i: int| 0 <= i < input.len() && (#[trigger] input[i]).0 == d {
            let i = choose|i: int| 0 <= i < input.len() && (#[trigger] input[i]).0 == d;
            if i < input.len() - 1 {
                assert(input.drop_last()[i].0 == d);
            }
        }
    }
}

/// With distinct identifiers, indexing sends each input pair's identifier
/// to the term counts of its tokenized text.
pub proof fn lemma_corpus_tf_entry(input: Seq<(Seq<char>, Seq<char>)>, i: int)
    requires
        0 <= i < input.len(),
        forall|p: int, q: int|
            0 <= p < q < input.len() ==> (#[trigger] input[p]).0 != (#[trigger] input[q]).0,
    ensures
        corpus_tf(input).contains_key(input[i].0),
        corpus_tf(input)[input[i].0] == counts_of(tokenize_spec(input[i].1)),
    decreases input.len(),
{
    if i < input.len() - 1 {
        lemma_corpus_tf_entry(input.drop_last(), i);
        assert(input.drop_last()[i] == input[i]);
        assert(input.last().0 != input[i].0);
    }
}

/// Indexing is order-independent: two corpora that list the same
/// documents, each with distinct identifiers and in any order, index to
/// the same corpus mapping.
pub proof fn lemma_index_order_independent(
    a: Seq<(Seq<char>, Seq<char>)>,
    b: Seq<(Seq<char>, Seq<char>)>,
)
    requires
        forall|p: int, q: int|
            0 <= p < q < a.len() ==> (#[trigger] a[p]).0 != (#[trigger] a[q]).0,
        forall|p: int, q: int|
            0 <= p < q < b.len() ==> (#[trigger] b[p]).0 != (#[trigger] b[q]).0,
        forall|p: (Seq<char>, Seq<char>)| a.contains(p) <==> b.contains(p),
    ensures
        corpus_tf(a) == corpus_tf(b),
{
    assert forall|d: Seq<char>| #[trigger] corpus_tf(a).contains_key(d)
        implies corpus_tf(b).contains_key(d) && corpus_tf(b)[d] == corpus_tf(a)[d] by {
        lemma_corpus_tf_keys(a, d);
        let i = choose|i: int| 0 <= i < a.len() && (#[trigger] a[i]).0 == d;
        assert(a.contains(a[i]));
        assert(b.contains(a[i]));
        let j = choose|j: int| 0 <= j < b.len() && b[j] == a[i];
        lemma_corpus_tf_keys(b, d);
        assert(b[j].0 == d);
        lemma_corpus_tf_entry(a, i);
        lemma_corpus_tf_entry(b, j);
    }
    assert forall|d: Seq<char>| #[trigger] corpus_tf(b).contains_key(d)
        implies corpus_tf(a).contains_key(d) by {
        lemma_corpus_tf_keys(b, d);
        let j = choose|j: int| 0 <= j < b.len() && (#[trigger] b[j]).0 == d;
        assert(b.contains(b[j]));
        assert(a.contains(b[j]));
        let i = choose|i: int| 0 <= i < a.len() && a[i] == b[j];
        lemma_corpus_tf_keys(a, d);
        assert(a[i].0 == d);
    }
    assert(corpus_tf(a) =~= corpus_tf(b));
}

/// Re-indexing an unchanged corpus is idempotent in content: two
/// well-formed models with the same corpus index as a mapping carry the
/// same document-frequency table as a mapping, whatever the order their
/// documents were discovered in.
pub proof fn lemma_model_determined(m1: &Model, m2: &Model)
    requires
        m1.wf(),
        m2.wf(),
        tf_map_of(m1.docs@) == tf_map_of(m2.docs@),
    ensures
        m1.df@ == m2.df@,
{
    assert forall|t: Seq<char>| #[trigger] m1.df@.contains_key(t) implies m2.df@.contains_key(t)
        && m2.df@[t] == m1.df@[t] by {
        lemma_df_count_determined(m1.docs@, m2.docs@, t);
        assert(df_count(m2.docs@, t) >= 1);
    }
    assert forall|t: Seq<char>| #[trigger] m2.df@.contains_key(t) implies m1.df@.contains_key(
        t,
    ) by {
        lemma_df_count_determined(m1.docs@, m2.docs@, t);
        assert(df_count(m1.docs@, t) >= 1);
    }
    assert(m1.df@ =~= m2.df@);
}

/// Builds the complete model of a corpus: every document's text is
/// tokenized and counted, and the document-frequency table is computed
/// alongside. When two corpus entries share an identifier the later one
/// wins, as re-indexing a document overwrites its earlier entry.
pub fn build_index(input: &Vec<(String, String)>) -> (m: Model)
    ensures
        m.wf(),
        tf_map_of(m.docs@) == corpus_tf(input_view(input@)),
{
    let ghost iv = input_view(input@);
    let mut docs: Vec<DocEntry> = Vec::new();
    let mut i: usize = 0;
    proof {
        assert(corpus_tf(iv.take(0)) =~= Map::<Seq<char>, Map<Seq<char>, nat>>::empty());
    }
    while i < input.len()
        invariant
            iv == input_view(input@),
            iv.len() == input@.len(),
            i <= input@.len(),
            forall|p: int, q: int|
                0 <= p < q < docs@.len() ==> (#[trigger] docs@[p]).path@ != (
                #[trigger] docs@[q]).path@,
            forall|j: int| 0 <= j < docs@.len() ==> (#[trigger] docs@[j]).tf.wf(),
            forall|j: int, k: Seq<char>|
                0 <= j < docs@.len() && #[trigger] docs@[j].tf@.contains_key(k)
                    ==> docs@[j].tf@[k] >= 1,
            tf_map_of(docs@) == corpus_tf(iv.take(i as int)),
        decreases input@.len() - i,
    {
        proof {
            assert(iv[i as int] == (input@[i as int].0@, input@[i as int].1@));
        }
        let cs = str_to_chars(input[i].1.as_str());
        let tf = index_text(cs.as_slice());
        proof {
            lemma_counts_of_bounds(tokenize_spec(iv[i as int].1));
        }
        let entry = DocEntry { path: input[i].0.clone(), tf };
        let ghost pre = docs@;
        let mut j: usize = 0;
        let mut replaced = false;
        while j < docs.len()
            invariant_except_break
                !replaced,
            invariant
                docs@ == pre,
                j <= pre.len(),
                forall|q: int| 0 <= q < j ==> (#[trigger] pre[q]).path@ != entry.path@,
            ensures
                replaced ==> j < pre.len() && pre[j as int].path@ == entry.path@,
                !replaced ==> j == pre.len(),
            decreases pre.len() - j,
        {
            if str_eq(docs[j].path.as_str(), entry.path.as_str()) {
                replaced = true;
                break ;
            }
            j += 1;
        }
        let ghost epath = entry.path@;
        let ghost etf = entry.tf@;
        if replaced {
            proof {
                lemma_tf_map_of_update(pre, j as int, entry);
            }
            docs[j] = entry;
            proof {
                assert(docs@ =~= pre.update(j as int, docs@[j as int]));
                assert forall|p: int, q: int|
                    0 <= p < q < docs@.len() implies (#[trigger] docs@[p]).path@ != (
                #[trigger] docs@[q]).path@ by {
                    assert(docs@[p].path@ == pre[p].path@ || p == j);
                    assert(docs@[q].path@ == pre[q].path@ || q == j);
                }
            }
        } else {
            docs.push(entry);
            proof {
                assert(docs@.drop_last() =~= pre);
                assert(docs@.last() == docs@[pre.len() as int]);
                assert forall|p: int, q: int|
                    0 <= p < q < docs@.len() implies (#[trigger] docs@[p]).path@ != (
                #[trigger] docs@[q]).path@ by {
                    if q < pre.len() {
                        assert(docs@[p] == pre[p] && docs@[q] == pre[q]);
                    } else {
                        assert(docs@[p] == pre[p] && docs@[q].path@ == epath);
                    }
                }
            }
        }
        proof {
            assert(iv.take(i + 1).drop_last() =~= iv.take(i as int));
            assert(iv.take(i + 1).last() == iv[i as int]);
        }
        i += 1;
    }
    proof {
        assert(iv.take(iv.len() as int) =~= iv);
    }
    let df = compute_df(&docs);
    Model { docs, df }
}

/// The document-frequency pass: for every document, add one to the count
/// of each distinct term it contains.
pub fn compute_df(docs: &Vec<DocEntry>) -> (df: Table)
    requires
        forall|p: int, q: int|
            0 <= p < q < docs@.len() ==> (#[trigger] docs@[p]).path@ != (
            #[trigger] docs@[q]).path@,
        forall|j: int| 0 <= j < docs@.len() ==> (#[trigger] docs@[j]).tf.wf(),
    ensures
        df.wf(),
        forall|t: Seq<char>| #[trigger]
            df@.contains_key(t) ==> df@[t] == df_count(docs@, t) && df@[t] >= 1,
        forall|t: Seq<char>| #[trigger] df_count(docs@, t) >= 1 ==> df@.contains_key(t),
{
    let mut df = Table::new();
    let mut d: usize = 0;
    let ghost ds = docs@;
    while d < docs.len()
        invariant
            ds == docs@,
            d <= ds.len(),
            forall|p: int, q: int|
                0 <= p < q < ds.len() ==> (#[trigger] ds[p]).path@ != (#[trigger] ds[q]).path@,
            forall|j: int| 0 <= j < ds.len() ==> (#[trigger] ds[j]).tf.wf(),
            df.wf(),
            forall|t: Seq<char>| #[trigger]
                df@.contains_key(t) ==> df@[t] == df_count(ds.take(d as int), t) && df@[t] >= 1,
            forall|t: Seq<char>| #[trigger]
                df_count(ds.take(d as int), t) >= 1 ==> df@.contains_key(t),
        decreases ds.len() - d,
    {
        let ghost taken = ds.take(d as int);
        let ghost tfs = ds[d as int].tf.entries@;
        let n = docs[d].tf.len();
        let mut e: usize = 0;
        while e < n
            invariant
                ds == docs@,
                d < ds.len(),
                n == tfs.len(),
                tfs == ds[d as int].tf.entries@,
                taken == ds.take(d as int),
                e <= n,
                ds[d as int].tf.wf(),
                forall|p: int, q: int|
                    0 <= p < q < tfs.len() ==> (#[trigger] tfs[p]).0@ != (#[trigger] tfs[q]).0@,
                df.wf(),
                forall|t: Seq<char>| #[trigger]
                    df@.contains_key(t) ==> df@[t] == df_count(taken, t) + (
                    if key_in_prefix(tfs, e as int, t) {
                        1 as nat
                    } else {
                        0 as nat
                    }) && df@[t] >= 1,
                forall|t: Seq<char>| #[trigger]
                    df_count(taken, t) >= 1 ==> df@.contains_key(t),
                forall|t: Seq<char>|
                    key_in_prefix(tfs, e as int, t) ==> df@.contains_key(t),
            decreases n - e,
        {
            let term = docs[d].tf.entries[e].0.clone();
            proof {
                lemma_df_count_le(taken, term@);
                assert(!key_in_prefix(tfs, e as int, term@));
                assert(taken.len() == d);
                assert(docs.len() == ds.len());
                if df@.contains_key(term@) {
                    assert(df@[term@] == df_count(taken, term@));
                    assert(df@[term@] <= d);
                    assert(d < usize::MAX);
                }
            }
            let ghost dfpre = df@;
            df.bump(term);
            proof {
                assert forall|t: Seq<char>| #[trigger] df@.contains_key(t) implies df@[t]
                    == df_count(taken, t) + (if key_in_prefix(tfs, e + 1, t) {
                    1 as nat
                } else {
                    0 as nat
                }) && df@[t] >= 1 by {
                    if t == term@ {
                        assert(tfs[e as int].0@ == t);
                        assert(key_in_prefix(tfs, e + 1, t));
                        if dfpre.contains_key(t) {
                            assert(df@[t] == dfpre[t] + 1);
                        } else {
                            assert(df_count(taken, t) == 0);
                            assert(df@[t] == 1);
                        }
                    } else {
                        assert(key_in_prefix(tfs, e + 1, t) == key_in_prefix(tfs, e as int, t));
                    }
                }
                assert forall|t: Seq<char>| key_in_prefix(tfs, e + 1, t) implies df@.contains_key(
                    t,
                ) by {
                    if t != term@ {
                        assert(key_in_prefix(tfs, e as int, t));
                    }
                }
            }
            e += 1;
        }
        proof {
            assert(ds.take(d + 1).drop_last() =~= taken);
            assert(ds.take(d + 1).last() == ds[d as int]);
            lemma_map_of_keys(tfs, arbitrary());
            assert forall|t: Seq<char>| #[trigger] df@.contains_key(t) implies df@[t] == df_count(
                ds.take(d + 1),
                t,
            ) && df@[t] >= 1 by {
                lemma_map_of_keys(tfs, t);
                assert(key_in_prefix(tfs, n as int, t) == ds[d as int].tf@.contains_key(t));
            }
            assert forall|t: Seq<char>| #[trigger] df_count(ds.take(d + 1), t) >= 1 implies
                df@.contains_key(t) by {
                lemma_map_of_keys(tfs, t);
                assert(key_in_prefix(tfs, n as int, t) == ds[d as int].tf@.contains_key(t));
                if df_count(taken, t) >= 1 {
                    assert(df@.contains_key(t));
                } else {
                    assert(ds[d as int].tf@.contains_key(t));
                    assert(key_in_prefix(tfs, n as int, t));
                }
            }
        }
        d += 1;
    }
    proof {
        assert(ds.take(ds.len() as int) =~= ds);
    }
    df
}

} // verus!

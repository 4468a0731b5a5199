//! A small string-keyed counting table, the building block of the index.
//!
//! Entries are kept in insertion order in a vector with pairwise-distinct
//! keys; the table is viewed as a finite map from key to count.
use vstd::prelude::*;
use vstd::string::StrSliceExecFns;

verus! {

/// Character-by-character string equality.
pub fn str_eq(a: &str, b: &str) -> (r: bool)
    ensures
        r == (a@ == b@),
{
    let na = a.unicode_len();
    let nb = b.unicode_len();
    if na != nb {
        return false;
    }
    let mut i: usize = 0;
    while i < na
        invariant
            na == a@.len(),
            na == b@.len(),
            i <= na,
            forall|j: int| 0 <= j < i ==> a@[j] == b@[j],
        decreases na - i,
    {
        if a.get_char(i) != b.get_char(i) {
            return false;
        }
        i += 1;
    }
    proof {
        assert(a@ =~= b@);
    }
    true
}

/// The map a sequence of entries stands for: later entries override
/// earlier ones (they never do in a well-formed table, whose keys are
/// distinct).
pub open spec fn map_of(s: Seq<(String, u64)>) -> Map<Seq<char>, nat>
    decreases s.len(),
{
    if s.len() == 0 {
        Map::empty()
    } else {
        map_of(s.drop_last()).insert(s.last().0@, s.last().1 as nat)
    }
}

/// A table from term to count, with pairwise-distinct keys.
pub struct Table {
    pub entries: Vec<(String, u64)>,
}

impl Table {
    /// The finite map this table holds.
    pub open spec fn view(&self) -> Map<Seq<char>, nat> {
        map_of(self.entries@)
    }

    /// Keys are pairwise distinct.
    pub open spec fn wf(&self) -> bool {
        forall|i: int, j: int|
            0 <= i < j < self.entries@.len() ==> (#[trigger] self.entries@[i]).0@ != (
            #[trigger] self.entries@[j]).0@
    }

    pub fn new() -> (r: Table)
        ensures
            r.wf(),
            r@ == Map::<Seq<char>, nat>::empty(),
    {
        Table { entries: Vec::new() }
    }

    /// How many entries the table holds; under `wf` this is also the
    /// cardinality of its map's domain.
    pub fn len(&self) -> (n: usize)
        ensures
            n == self.entries@.len(),
    {
        self.entries.len()
    }

    /// Looks a key up.
    pub fn get(&self, key: &String) -> (r: Option<u64>)
        requires
            self.wf(),
        ensures
            match r {
                Some(v) => self@.contains_key(key@) && self@[key@] == v as nat,
                None => !self@.contains_key(key@),
            },
    {
        let ghost s = self.entries@;
        let mut i: usize = 0;
        while i < self.entries.len()
            invariant
                self.wf(),
                s == self.entries@,
                i <= s.len(),
                forall|j: int| 0 <= j < i ==> (#[trigger] s[j]).0@ != key@,
            decreases s.len() - i,
        {
            if str_eq(self.entries[i].0.as_str(), key.as_str()) {
                proof {
                    lemma_map_of_entry(s, i as int);
                }
                return Some(self.entries[i].1);
            }
            i += 1;
        }
        proof {
            lemma_map_of_keys(s, key@);
        }
        None
    }

    /// Adds one to the key's count, or inserts it with count one.
    pub fn bump(&mut self, key: String)
        requires
            old(self).wf(),
            old(self)@.contains_key(key@) ==> old(self)@[key@] < u64::MAX,
        ensures
            final(self).wf(),
            final(self)@ == old(self)@.insert(
                key@,
                if old(self)@.contains_key(key@) {
                    old(self)@[key@] + 1
                } else {
                    1 as nat
                },
            ),
    {
        let ghost s = self.entries@;
        let mut i: usize = 0;
        while i < self.entries.len()
            invariant
                self.wf(),
                s == self.entries@,
                old(self).entries@ == s,
                old(self)@.contains_key(key@) ==> old(self)@[key@] < u64::MAX,
                i <= s.len(),
                forall|j: int| 0 <= j < i ==> (#[trigger] s[j]).0@ != key@,
            decreases s.len() - i,
        {
            if str_eq(self.entries[i].0.as_str(), key.as_str()) {
                proof {
                    lemma_map_of_entry(s, i as int);
                    assert(key@ == s[i as int].0@);
                    assert(old(self).entries@ == s);
                    assert(old(self)@ == map_of(s));
                    assert(old(self)@[key@] == s[i as int].1 as nat);
                }
                let c = self.entries[i].1;
                self.entries[i] = (key, c + 1);
                proof {
                    lemma_map_of_update(s, i as int, self.entries@[i as int].0, (c + 1) as u64);
                    assert(self.entries@ =~= s.update(i as int, self.entries@[i as int]));
                }
                return ;
            }
            i += 1;
        }
        proof {
            lemma_map_of_keys(s, key@);
        }
        self.entries.push((key, 1));
        proof {
            assert(self.entries@.drop_last() =~= s);
        }
    }

    /// Inserts a key that is not yet present, with the given count.
    pub fn insert_new(&mut self, key: String, count: u64)
        requires
            old(self).wf(),
            !old(self)@.contains_key(key@),
        ensures
            final(self).wf(),
            final(self)@ == old(self)@.insert(key@, count as nat),
            final(self).entries@ == old(self).entries@.push((key, count)),
    {
        proof {
            lemma_map_of_keys(self.entries@, key@);
        }
        let ghost s = self.entries@;
        self.entries.push((key, count));
        proof {
            assert(self.entries@.drop_last() =~= s);
        }
    }
}

/// A key is in the map exactly when some entry carries it.
pub proof fn lemma_map_of_keys(s: Seq<(String, u64)>, k: Seq<char>)
    ensures
        map_of(s).contains_key(k) <==> exists|i: int| 0 <= i < s.len() && (#[trigger] s[i]).0@ == k,
    decreases s.len(),
{
    if s.len() > 0 {
        lemma_map_of_keys(s.drop_last(), k);
        if map_of(s).contains_key(k) {
            if s.last().0@ == k {
                assert(s[s.len() - 1].0@ == k);
            } else {
                let i = choose|i: int| 0 <= i < s.drop_last().len() && (#[trigger] s.drop_last()[i]).0@
                    == k;
                assert(s[i].0@ == k);
            }
        }
        if exists|i: int| 0 <= i < s.len() && (#[trigger] s[i]).0@ == k {
            let i = choose|i: int| 0 <= i < s.len() && (#[trigger] s[i]).0@ == k;
            if i < s.len() - 1 {
                assert(s.drop_last()[i].0@ == k);
            }
        }
    }
}

/// With distinct keys, the map sends each entry's key to its count.
pub proof fn lemma_map_of_entry(s: Seq<(String, u64)>, i: int)
    requires
        0 <= i < s.len(),
        forall|p: int, q: int|
            0 <= p < q < s.len() ==> (#[trigger] s[p]).0@ != (#[trigger] s[q]).0@,
    ensures
        map_of(s).contains_key(s[i].0@),
        map_of(s)[s[i].0@] == s[i].1 as nat,
    decreases s.len(),
{
    if i < s.len() - 1 {
        lemma_map_of_entry(s.drop_last(), i);
        assert(s.drop_last()[i] == s[i]);
        assert(s.last().0@ != s[i].0@);
    }
}

/// Overwriting one entry with an equal key updates the map at that key
/// alone.
pub proof fn lemma_map_of_update(s: Seq<(String, u64)>, i: int, k: String, c: u64)
    requires
        0 <= i < s.len(),
        k@ == s[i].0@,
        forall|p: int, q: int|
            0 <= p < q < s.len() ==> (#[trigger] s[p]).0@ != (#[trigger] s[q]).0@,
    ensures
        map_of(s.update(i, (k, c))) == map_of(s).insert(k@, c as nat),
    decreases s.len(),
{
    let t = s.update(i, (k, c));
    if i == s.len() - 1 {
        assert(t.drop_last() =~= s.drop_last());
        assert(t.last() == (k, c));
        assert(map_of(t) =~= map_of(s).insert(k@, c as nat));
    } else {
        assert(t.drop_last() =~= s.drop_last().update(i, (k, c)));
        assert(s.drop_last()[i] == s[i]);
        lemma_map_of_update(s.drop_last(), i, k, c);
        assert(t.last() == s.last());
        assert(map_of(t) =~= map_of(s).insert(k@, c as nat));
    }
}

} // verus!

//! The tokenizer: turns a slice of characters into a sequence of normalized
//! terms.
//!
//! A term is either a maximal run of numeric characters, a maximal run of
//! alphanumeric characters starting with an alphabetic one, or a single
//! character of any other non-whitespace class. Every term is folded to
//! upper case. Whitespace separates terms and never appears inside one.
use vstd::prelude::*;
use vstd::string::StrSliceExecFns;

use crate::chars::is_alphabetic_char;
use crate::chars::is_numeric_char;
use crate::chars::is_whitespace_char;
use crate::chars::to_upper_char;
use crate::chars::alphabetic;
use crate::chars::alphanumeric;
use crate::chars::numeric;
use crate::chars::upper;
use crate::chars::whitespace;

verus! {

/// The character classes whose maximal runs form multi-character tokens.
#[derive(Clone, Copy)]
pub enum CharClass {
    Numeric,
    Alphanumeric,
}

impl CharClass {
    /// What it means for a character to belong to this class.
    pub open spec fn holds(self, c: char) -> bool {
        match self {
            CharClass::Numeric => is_numeric_char(c),
            CharClass::Alphanumeric => is_alphabetic_char(c) || is_numeric_char(c),
        }
    }

    /// Decides membership; members are never whitespace.
    pub fn check(self, c: char) -> (r: bool)
        ensures
            r == self.holds(c),
            r ==> !is_whitespace_char(c),
    {
        match self {
            CharClass::Numeric => numeric(c),
            CharClass::Alphanumeric => alphanumeric(c),
        }
    }
}

/// Length of the whitespace prefix of `s`.
pub open spec fn ws_len(s: Seq<char>) -> nat
    decreases s.len(),
{
    if s.len() > 0 && is_whitespace_char(s[0]) {
        1 + ws_len(s.drop_first())
    } else {
        0
    }
}

/// Length of the prefix of `s` whose characters all belong to `class`.
pub open spec fn run_len(s: Seq<char>, class: CharClass) -> nat
    decreases s.len(),
{
    if s.len() > 0 && class.holds(s[0]) {
        1 + run_len(s.drop_first(), class)
    } else {
        0
    }
}

pub proof fn lemma_ws_len(s: Seq<char>)
    ensures
        ws_len(s) <= s.len(),
        forall|i: int| 0 <= i < ws_len(s) ==> is_whitespace_char(#[trigger] s[i]),
        ws_len(s) < s.len() ==> !is_whitespace_char(s[ws_len(s) as int]),
    decreases s.len(),
{
    if s.len() > 0 && is_whitespace_char(s[0]) {
        lemma_ws_len(s.drop_first());
        assert forall|i: int| 0 <= i < ws_len(s) implies is_whitespace_char(#[trigger] s[i]) by {
            if i > 0 {
                assert(s.drop_first()[i - 1] == s[i]);
            }
        }
        if ws_len(s) < s.len() {
            assert(s.drop_first()[ws_len(s) - 1] == s[ws_len(s) as int]);
        }
    }
}

pub proof fn lemma_ws_len_is(s: Seq<char>, k: nat)
    requires
        k <= s.len(),
        forall|i: int| 0 <= i < k ==> is_whitespace_char(#[trigger] s[i]),
        k < s.len() ==> !is_whitespace_char(s[k as int]),
    ensures
        ws_len(s) == k,
    decreases s.len(),
{
    if s.len() > 0 && is_whitespace_char(s[0]) {
        assert(s[0] == s[0int]);
        lemma_ws_len_is(s.drop_first(), (k - 1) as nat);
    }
}

pub proof fn lemma_run_len(s: Seq<char>, class: CharClass)
    ensures
        run_len(s, class) <= s.len(),
        forall|i: int| 0 <= i < run_len(s, class) ==> class.holds(#[trigger] s[i]),
        run_len(s, class) < s.len() ==> !class.holds(s[run_len(s, class) as int]),
    decreases s.len(),
{
    if s.len() > 0 && class.holds(s[0]) {
        lemma_run_len(s.drop_first(), class);
        assert forall|i: int| 0 <= i < run_len(s, class) implies class.holds(#[trigger] s[i]) by {
            if i > 0 {
                assert(s.drop_first()[i - 1] == s[i]);
            }
        }
        if run_len(s, class) < s.len() {
            assert(s.drop_first()[run_len(s, class) - 1] == s[run_len(s, class) as int]);
        }
    }
}

pub proof fn lemma_run_len_is(s: Seq<char>, class: CharClass, k: nat)
    requires
        k <= s.len(),
        forall|i: int| 0 <= i < k ==> class.holds(#[trigger] s[i]),
        k < s.len() ==> !class.holds(s[k as int]),
    ensures
        run_len(s, class) == k,
    decreases s.len(),
{
    if s.len() > 0 && class.holds(s[0]) {
        lemma_run_len_is(s.drop_first(), class, (k - 1) as nat);
    }
}

/// One tokenizing step on `s`: `None` when only whitespace remains, else
/// the raw token text, the normalized token, and how many characters of
/// `s` the step consumes (skipped whitespace included).
pub open spec fn next_token_spec(s: Seq<char>) -> Option<(Seq<char>, Seq<char>, nat)> {
    let w = ws_len(s);
    let t = s.skip(w as int);
    if t.len() == 0 {
        None
    } else if is_numeric_char(t[0]) {
        let n = run_len(t, CharClass::Numeric);
        Some((t.take(n as int), t.take(n as int), w + n))
    } else if is_alphabetic_char(t[0]) {
        let n = run_len(t, CharClass::Alphanumeric);
        Some((t.take(n as int), t.take(n as int).map(|i: int, c: char| to_upper_char(c)), w + n))
    } else {
        Some((t.take(1), t.take(1).map(|i: int, c: char| to_upper_char(c)), w + 1))
    }
}

pub proof fn lemma_next_token_consumes(s: Seq<char>)
    ensures
        next_token_spec(s) matches Some(t) ==> 1 <= t.2 <= s.len(),
{
    lemma_ws_len(s);
    let w = ws_len(s);
    let t = s.skip(w as int);
    if t.len() > 0 {
        lemma_run_len(t, CharClass::Numeric);
        lemma_run_len(t, CharClass::Alphanumeric);
        if is_numeric_char(t[0]) {
            assert(run_len(t, CharClass::Numeric) >= 1);
        } else if is_alphabetic_char(t[0]) {
            assert(run_len(t, CharClass::Alphanumeric) >= 1);
        }
    }
}

/// The sequence of (raw, normalized) tokens of `s`, in order.
pub open spec fn tokens_from(s: Seq<char>) -> Seq<(Seq<char>, Seq<char>)>
    decreases s.len(),
    via tokens_from_dec
{
    match next_token_spec(s) {
        None => Seq::empty(),
        Some(t) => seq![(t.0, t.1)] + tokens_from(s.skip(t.2 as int)),
    }
}

#[via_fn]
proof fn tokens_from_dec(s: Seq<char>) {
    lemma_next_token_consumes(s);
}

/// The normalized terms of `s`: what the tokenizer hands to its callers.
pub open spec fn tokenize_spec(s: Seq<char>) -> Seq<Seq<char>> {
    tokens_from(s).map(|i: int, t: (Seq<char>, Seq<char>)| t.1)
}

/// A forward-only cursor over a caller-owned character buffer. One
/// instance serves one tokenization pass; it never copies the buffer.
pub struct Lexer<'a> {
    pub content: &'a [char],
}

impl<'a> Lexer<'a> {
    /// The characters not yet consumed.
    pub open spec fn remaining(self) -> Seq<char> {
        self.content@
    }

    pub fn new(content: &'a [char]) -> (r: Self)
        ensures
            r.remaining() == content@,
    {
        Self { content }
    }

    pub fn is_empty(&self) -> (r: bool)
        ensures
            r == (self.remaining().len() == 0),
    {
        self.content.len() == 0
    }

    /// Skips the whitespace prefix of the remaining input.
    pub fn trim_start(&mut self)
        ensures
            final(self).remaining() == old(self).remaining().skip(
                ws_len(old(self).remaining()) as int,
            ),
    {
        let ghost orig: Seq<char> = self.content@;
        let ghost mut k: int = 0;
        while self.content.len() > 0 && whitespace(self.content[0])
            invariant
                0 <= k <= orig.len(),
                self.content@ == orig.skip(k),
                forall|i: int| 0 <= i < k ==> is_whitespace_char(#[trigger] orig[i]),
            decreases self.content@.len(),
        {
            assert(orig[k] == self.content@[0]);
            self.content = &self.content[1..self.content.len()];
            proof {
                assert(orig.skip(k).subrange(1, orig.skip(k).len() as int) =~= orig.skip(k + 1));
                k = k + 1;
            }
        }
        proof {
            if self.content@.len() > 0 {
                assert(orig[k] == orig.skip(k)[0]);
            }
            lemma_ws_len_is(orig, k as nat);
        }
    }

    /// Hands out the next `n` remaining characters and consumes them.
    pub fn take(&mut self, n: usize) -> (token: &'a [char])
        requires
            n <= old(self).remaining().len(),
        ensures
            token@ == old(self).remaining().take(n as int),
            final(self).remaining() == old(self).remaining().skip(n as int),
    {
        let token = &self.content[0..n];
        self.content = &self.content[n..self.content.len()];
        proof {
            assert(token@ =~= old(self).remaining().take(n as int));
            assert(self.content@ =~= old(self).remaining().skip(n as int));
        }
        token
    }

    /// Consumes and hands out the maximal prefix of characters in `class`.
    pub fn take_while(&mut self, class: CharClass) -> (token: &'a [char])
        ensures
            token@ == old(self).remaining().take(run_len(old(self).remaining(), class) as int),
            final(self).remaining() == old(self).remaining().skip(
                run_len(old(self).remaining(), class) as int,
            ),
            forall|i: int|
                0 <= i < token@.len() ==> !is_whitespace_char(#[trigger] token@[i]),
    {
        let mut n: usize = 0;
        while n < self.content.len() && class.check(self.content[n])
            invariant
                n <= self.content@.len(),
                forall|i: int| 0 <= i < n ==> class.holds(#[trigger] self.content@[i]),
                forall|i: int|
                    0 <= i < n ==> !is_whitespace_char(#[trigger] self.content@[i]),
            decreases self.content@.len() - n,
        {
            n += 1;
        }
        proof {
            lemma_run_len_is(self.content@, class, n as nat);
        }
        self.take(n)
    }

    /// Produces the next normalized term, or `None` when only whitespace
    /// remains. Exactly `next_token_spec` on the remaining input. The extra
    /// clauses record that a raw token never contains whitespace and is
    /// precisely the non-whitespace content of the consumed segment.
    pub fn next_token(&mut self) -> (r: Option<String>)
        ensures
            match next_token_spec(old(self).remaining()) {
                None => {
                    &&& r is None
                    &&& final(self).remaining().len() == 0
                    &&& non_ws_filter(old(self).remaining()) == Seq::<char>::empty()
                },
                Some(t) => {
                    &&& r matches Some(tok) && tok@ == t.1
                    &&& final(self).remaining() == old(self).remaining().skip(t.2 as int)
                    &&& forall|i: int|
                        0 <= i < t.0.len() ==> !is_whitespace_char(#[trigger] t.0[i])
                    &&& non_ws_filter(old(self).remaining().take(t.2 as int)) == t.0
                },
            },
    {
        let ghost s = old(self).remaining();
        self.trim_start();
        let ghost w = ws_len(s);
        let ghost t = s.skip(w as int);
        proof {
            lemma_ws_len(s);
            lemma_all_ws_filter_empty(s.take(w as int));
        }
        if self.is_empty() {
            proof {
                assert(s.take(w as int) =~= s);
            }
            None
        } else if numeric(self.content[0]) {
            let raw = self.take_while(CharClass::Numeric);
            proof {
                let n = run_len(t, CharClass::Numeric);
                lemma_run_len(t, CharClass::Numeric);
                assert(s.skip((w + n) as int) =~= t.skip(n as int));
                lemma_consumed_filters_to_raw(s, w, n);
            }
            Some(chars_to_string(raw))
        } else if alphabetic(self.content[0]) {
            let raw = self.take_while(CharClass::Alphanumeric);
            proof {
                let n = run_len(t, CharClass::Alphanumeric);
                lemma_run_len(t, CharClass::Alphanumeric);
                assert(s.skip((w + n) as int) =~= t.skip(n as int));
                lemma_consumed_filters_to_raw(s, w, n);
            }
            Some(chars_to_upper_string(raw))
        } else {
            let raw = self.take(1);
            proof {
                assert(s.skip((w + 1) as int) =~= t.skip(1));
                lemma_consumed_filters_to_raw(s, w, 1);
            }
            Some(chars_to_upper_string(raw))
        }
    }
}

/// The non-whitespace characters of `s`, in order.
pub open spec fn non_ws_filter(s: Seq<char>) -> Seq<char> {
    s.filter(|c: char| !is_whitespace_char(c))
}

pub proof fn lemma_all_ws_filter_empty(s: Seq<char>)
    requires
        forall|i: int| 0 <= i < s.len() ==> is_whitespace_char(#[trigger] s[i]),
    ensures
        non_ws_filter(s) == Seq::<char>::empty(),
{
    s.lemma_all_neg_filter_empty(|c: char| !is_whitespace_char(c));
    assert(non_ws_filter(s) =~= Seq::<char>::empty());
}

pub proof fn lemma_no_ws_filter_id(s: Seq<char>)
    requires
        forall|i: int| 0 <= i < s.len() ==> !is_whitespace_char(#[trigger] s[i]),
    ensures
        non_ws_filter(s) == s,
    decreases s.len(),
{
    reveal(Seq::filter);
    if s.len() > 0 {
        lemma_no_ws_filter_id(s.drop_last());
        assert(non_ws_filter(s) =~= s);
    } else {
        assert(non_ws_filter(s) =~= s);
    }
}

/// The consumed segment of one tokenizing step (whitespace prefix of
/// length `w`, then a token of `n` non-whitespace characters) filters to
/// exactly the raw token.
proof fn lemma_consumed_filters_to_raw(s: Seq<char>, w: nat, n: nat)
    requires
        w + n <= s.len(),
        forall|i: int| 0 <= i < w ==> is_whitespace_char(#[trigger] s[i]),
        forall|i: int|
            0 <= i < n ==> !is_whitespace_char(#[trigger] s.skip(w as int).take(n as int)[i]),
    ensures
        non_ws_filter(s.take((w + n) as int)) == s.skip(w as int).take(n as int),
{
    let pre = s.take(w as int);
    let raw = s.skip(w as int).take(n as int);
    assert(s.take((w + n) as int) =~= pre + raw);
    Seq::filter_distributes_over_add(pre, raw, |c: char| !is_whitespace_char(c));
    lemma_all_ws_filter_empty(pre);
    lemma_no_ws_filter_id(raw);
    assert(non_ws_filter(s.take((w + n) as int)) =~= raw);
}

/// Relies on `String::push`: appends the character to the end of the string.
#[verifier::external_body]
fn push_char(s: &mut String, c: char)
    ensures
        final(s)@ == old(s)@.push(c),
{
    s.push(c)
}

/// The raw tokens of a token sequence, concatenated in order.
pub open spec fn concat_raw(ts: Seq<(Seq<char>, Seq<char>)>) -> Seq<char>
    decreases ts.len(),
{
    if ts.len() == 0 {
        Seq::empty()
    } else {
        ts[0].0 + concat_raw(ts.drop_first())
    }
}

proof fn lemma_concat_raw_push(ts: Seq<(Seq<char>, Seq<char>)>, t: (Seq<char>, Seq<char>))
    ensures
        concat_raw(ts.push(t)) == concat_raw(ts) + t.0,
    decreases ts.len(),
{
    if ts.len() == 0 {
        assert(ts.push(t)[0] == t);
        assert(ts.push(t).drop_first() =~= Seq::<(Seq<char>, Seq<char>)>::empty());
        assert(concat_raw(Seq::<(Seq<char>, Seq<char>)>::empty()) == Seq::<char>::empty());
        assert(concat_raw(ts.push(t)) =~= concat_raw(ts) + t.0);
    } else {
        assert(ts.push(t)[0] == ts[0]);
        assert(ts.push(t).drop_first() =~= ts.drop_first().push(t));
        lemma_concat_raw_push(ts.drop_first(), t);
        assert(concat_raw(ts.push(t)) =~= concat_raw(ts) + t.0);
    }
}

/// Tokenizes a whole buffer into its sequence of normalized terms.
///
/// The last two clauses state that the tokenizer never builds a token
/// across a whitespace boundary: no raw token contains a whitespace
/// character, and the raw tokens concatenated in order are exactly the
/// non-whitespace characters of the input, in their original order.
pub fn tokenize(text: &[char]) -> (toks: Vec<String>)
    ensures
        toks.deep_view() == tokenize_spec(text@),
        forall|i: int, j: int|
            0 <= i < tokens_from(text@).len() && 0 <= j < tokens_from(text@)[i].0.len()
                ==> !is_whitespace_char(#[trigger] tokens_from(text@)[i].0[j]),
        concat_raw(tokens_from(text@)) == non_ws_filter(text@),
{
    let mut lexer = Lexer::new(text);
    let mut toks: Vec<String> = Vec::new();
    let ghost mut done: Seq<(Seq<char>, Seq<char>)> = Seq::empty();
    loop
        invariant
            tokens_from(text@) == done + tokens_from(lexer.remaining()),
            toks.deep_view() == done.map(|i: int, t: (Seq<char>, Seq<char>)| t.1),
            non_ws_filter(text@) == concat_raw(done) + non_ws_filter(lexer.remaining()),
            forall|i: int, j: int|
                0 <= i < done.len() && 0 <= j < done[i].0.len() ==> !is_whitespace_char(
                    #[trigger] done[i].0[j],
                ),
        ensures
            toks.deep_view() == tokenize_spec(text@),
            forall|i: int, j: int|
                0 <= i < tokens_from(text@).len() && 0 <= j < tokens_from(text@)[i].0.len()
                    ==> !is_whitespace_char(#[trigger] tokens_from(text@)[i].0[j]),
            concat_raw(tokens_from(text@)) == non_ws_filter(text@),
        decreases lexer.remaining().len(),
    {
        let ghost rem = lexer.remaining();
        let next = lexer.next_token();
        match next {
            None => {
                proof {
                    assert(tokens_from(rem) =~= Seq::<(Seq<char>, Seq<char>)>::empty());
                    assert(done + tokens_from(rem) =~= done);
                    assert(tokens_from(text@) == done);
                    assert(concat_raw(done) + non_ws_filter(rem) =~= concat_raw(done));
                    assert(toks.deep_view() =~= tokenize_spec(text@));
                }
                break ;
            },
            Some(tok) => {
                let ghost t = next_token_spec(rem).unwrap();
                proof {
                    lemma_next_token_consumes(rem);
                    assert(rem =~= rem.take(t.2 as int) + rem.skip(t.2 as int));
                    Seq::filter_distributes_over_add(
                        rem.take(t.2 as int),
                        rem.skip(t.2 as int),
                        |c: char| !is_whitespace_char(c),
                    );
                    lemma_concat_raw_push(done, (t.0, t.1));
                    assert(done + tokens_from(rem) =~= done.push((t.0, t.1)) + tokens_from(
                        rem.skip(t.2 as int),
                    ));
                    assert((concat_raw(done) + t.0) + non_ws_filter(rem.skip(t.2 as int))
                        =~= concat_raw(done) + non_ws_filter(rem));
                }
                toks.push(tok);
                proof {
                    let prev = done;
                    done = done.push((t.0, t.1));
                    assert(toks.deep_view() =~= prev.map(
                        |i: int, t: (Seq<char>, Seq<char>)| t.1,
                    ).push(t.1));
                    assert(prev.map(|i: int, t: (Seq<char>, Seq<char>)| t.1).push(t.1) =~= done.map(
                        |i: int, t: (Seq<char>, Seq<char>)| t.1,
                    ));
                }
            },
        }
    }
    toks
}

/// Copies a string into a vector of its characters.
pub fn str_to_chars(s: &str) -> (v: Vec<char>)
    ensures
        v@ == s@,
{
    let n = s.unicode_len();
    let mut v: Vec<char> = Vec::new();
    let mut i: usize = 0;
    while i < n
        invariant
            n == s@.len(),
            i <= n,
            v@ == s@.take(i as int),
        decreases n - i,
    {
        v.push(s.get_char(i));
        proof {
            assert(s@.take(i as int).push(s@[i as int]) =~= s@.take(i + 1));
        }
        i += 1;
    }
    proof {
        assert(s@.take(n as int) =~= s@);
    }
    v
}

/// Copies a character slice into an owned string.
pub fn chars_to_string(cs: &[char]) -> (r: String)
    ensures
        r@ == cs@,
{
    let mut out = String::new();
    let mut i: usize = 0;
    while i < cs.len()
        invariant
            i <= cs@.len(),
            out@ == cs@.take(i as int),
        decreases cs@.len() - i,
    {
        push_char(&mut out, cs[i]);
        proof {
            assert(cs@.take(i as int).push(cs@[i as int]) =~= cs@.take(i + 1));
        }
        i += 1;
    }
    proof {
        assert(cs@.take(cs@.len() as int) =~= cs@);
    }
    out
}

/// Copies a character slice into an owned string, folding to upper case.
pub fn chars_to_upper_string(cs: &[char]) -> (r: String)
    ensures
        r@ == cs@.map(|i: int, c: char| to_upper_char(c)),
{
    let ghost goal = cs@.map(|i: int, c: char| to_upper_char(c));
    let mut out = String::new();
    let mut i: usize = 0;
    while i < cs.len()
        invariant
            i <= cs@.len(),
            goal == cs@.map(|i: int, c: char| to_upper_char(c)),
            out@ == goal.take(i as int),
        decreases cs@.len() - i,
    {
        push_char(&mut out, upper(cs[i]));
        proof {
            assert(goal.take(i as int).push(goal[i as int]) =~= goal.take(i + 1));
        }
        i += 1;
    }
    proof {
        assert(goal.take(goal.len() as int) =~= goal);
    }
    out
}

} // verus!

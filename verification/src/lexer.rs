//! The lexer: turns a character slice into index tokens.
//!
//! Tokens are maximal runs: digits form a numeric token, a letter opens an
//! alphanumeric run that is stemmed with the English (Porter2) algorithm,
//! and any other non-whitespace character stands alone.  Whitespace only
//! separates.  `get_tokens` yields every token in order and then drops the
//! caller's stop words.

use vstd::prelude::*;
use crate::order::str_eq;
use crate::order::str_views;

verus! {

/// Whether `char::is_whitespace` accepts the character.
pub uninterp spec fn is_whitespace_char(c: char) -> bool;

/// Whether `char::is_numeric` accepts the character.
pub uninterp spec fn is_numeric_char(c: char) -> bool;

/// Whether `char::is_alphabetic` accepts the character.
pub uninterp spec fn is_alphabetic_char(c: char) -> bool;

/// What the English (Porter2) Snowball stemmer returns for a word.
pub uninterp spec fn english_stem_of(s: Seq<char>) -> Seq<char>;

/// Relies on `char::is_whitespace` from std: a pure predicate on the
/// character.
#[verifier::external_body]
fn char_is_whitespace(c: char) -> (r: bool)
    ensures
        r == is_whitespace_char(c),
{
    c.is_whitespace()
}

/// Relies on `char::is_numeric` from std: a pure predicate on the
/// character.
#[verifier::external_body]
fn char_is_numeric(c: char) -> (r: bool)
    ensures
        r == is_numeric_char(c),
{
    c.is_numeric()
}

/// Relies on `char::is_alphabetic` from std: a pure predicate on the
/// character.
#[verifier::external_body]
fn char_is_alphabetic(c: char) -> (r: bool)
    ensures
        r == is_alphabetic_char(c),
{
    c.is_alphabetic()
}

/// Relies on `char::is_alphanumeric` from std, whose documentation defines
/// it as `is_alphabetic() || is_numeric()`.
#[verifier::external_body]
fn char_is_alphanumeric(c: char) -> (r: bool)
    ensures
        r == (is_alphabetic_char(c) || is_numeric_char(c)),
{
    c.is_alphanumeric()
}

/// Relies on `rust_stemmers::Stemmer::create` with `Algorithm::English`
/// and `Stemmer::stem`: the Snowball English (Porter2) stemmer, a pure
/// table-driven function of the input characters.
#[verifier::external_body]
fn stem_english(token: &str) -> (r: String)
    ensures
        r@ == english_stem_of(token@),
{
    let stemmer = rust_stemmers::Stemmer::create(rust_stemmers::Algorithm::English);
    stemmer.stem(token).to_string()
}

/// Relies on `Iterator::collect` from std: gathers the slice's characters
/// into a string, in order.
#[verifier::external_body]
fn slice_to_string(s: &[char]) -> (r: String)
    ensures
        r@ == s@,
{
    s.iter().collect()
}

/// An alphanumeric character: a letter or a digit.
pub open spec fn is_alnum_char(c: char) -> bool {
    is_alphabetic_char(c) || is_numeric_char(c)
}

/// The character classes a token run can be chopped by.  (The run
/// predicate is a closed set of classes rather than a closure.)
#[derive(Clone, Copy, PartialEq, Eq, Structural, Debug)]
pub enum CharKind {
    Numeric,
    Alphanumeric,
}

/// Whether a character belongs to the class.
pub open spec fn spec_kind_matches(kind: CharKind, c: char) -> bool {
    match kind {
        CharKind::Numeric => is_numeric_char(c),
        CharKind::Alphanumeric => is_alnum_char(c),
    }
}

/// Decides class membership.
fn kind_matches(kind: CharKind, c: char) -> (r: bool)
    ensures
        r == spec_kind_matches(kind, c),
{
    match kind {
        CharKind::Numeric => char_is_numeric(c),
        CharKind::Alphanumeric => char_is_alphanumeric(c),
    }
}

/// The first position at or after `i` that holds no whitespace.
pub open spec fn skip_ws(s: Seq<char>, i: int) -> int
    decreases s.len() - i,
{
    if i < 0 || i >= s.len() {
        i
    } else if is_whitespace_char(s[i]) {
        skip_ws(s, i + 1)
    } else {
        i
    }
}

/// The end of the run of class `kind` starting at `i`.
pub open spec fn run_end(kind: CharKind, s: Seq<char>, i: int) -> int
    decreases s.len() - i,
{
    if i < 0 || i >= s.len() {
        i
    } else if spec_kind_matches(kind, s[i]) {
        run_end(kind, s, i + 1)
    } else {
        i
    }
}

/// The next token from position `i` and the position after it: `None` when
/// only whitespace remains.
pub open spec fn spec_next_token(s: Seq<char>, i: int) -> Option<(Seq<char>, int)> {
    let j = skip_ws(s, i);
    if j >= s.len() {
        None
    } else if is_numeric_char(s[j]) {
        Some(
            (
                s.subrange(j, run_end(CharKind::Numeric, s, j)),
                run_end(CharKind::Numeric, s, j),
            ),
        )
    } else if is_alphabetic_char(s[j]) {
        Some(
            (
                english_stem_of(s.subrange(j, run_end(CharKind::Alphanumeric, s, j))),
                run_end(CharKind::Alphanumeric, s, j),
            ),
        )
    } else {
        Some((s.subrange(j, j + 1), j + 1))
    }
}

/// `skip_ws` stays within `[i, s.len()]`.
pub proof fn lemma_skip_ws_bounds(s: Seq<char>, i: int)
    requires
        0 <= i <= s.len(),
    ensures
        i <= skip_ws(s, i) <= s.len(),
    decreases s.len() - i,
{
    if i < s.len() && is_whitespace_char(s[i]) {
        lemma_skip_ws_bounds(s, i + 1);
    }
}

/// `run_end` stays within `[i, s.len()]`.
pub proof fn lemma_run_end_bounds(kind: CharKind, s: Seq<char>, i: int)
    requires
        0 <= i <= s.len(),
    ensures
        i <= run_end(kind, s, i) <= s.len(),
    decreases s.len() - i,
{
    if i < s.len() && spec_kind_matches(kind, s[i]) {
        lemma_run_end_bounds(kind, s, i + 1);
    }
}

/// A token ends strictly after the position it starts from.
pub proof fn lemma_next_token_advances(s: Seq<char>, i: int)
    requires
        0 <= i <= s.len(),
    ensures
        match spec_next_token(s, i) {
            Some((tok, e)) => i < e <= s.len(),
            None => skip_ws(s, i) >= s.len(),
        },
{
    lemma_skip_ws_bounds(s, i);
    let j = skip_ws(s, i);
    if j < s.len() {
        if is_numeric_char(s[j]) {
            lemma_run_end_bounds(CharKind::Numeric, s, j + 1);
            assert(run_end(CharKind::Numeric, s, j) == run_end(CharKind::Numeric, s, j + 1));
        } else if is_alphabetic_char(s[j]) {
            lemma_run_end_bounds(CharKind::Alphanumeric, s, j + 1);
            assert(run_end(CharKind::Alphanumeric, s, j) == run_end(
                CharKind::Alphanumeric,
                s,
                j + 1,
            ));
        }
    }
}

/// All tokens of `s` from position `i` on, in order.
pub open spec fn spec_tokens(s: Seq<char>, i: int) -> Seq<Seq<char>>
    decreases s.len() - i,
{
    match spec_next_token(s, i) {
        Some((tok, e)) => if i < e <= s.len() {
            seq![tok] + spec_tokens(s, e)
        } else {
            seq![tok]
        },
        None => Seq::<Seq<char>>::empty(),
    }
}

/// True when `w` is one of `ws`.
pub open spec fn word_among(ws: Seq<Seq<char>>, w: Seq<char>) -> bool {
    exists|k: int| 0 <= k < ws.len() && ws[k] == w
}

/// The tokens that survive stop-word removal, in order.
pub open spec fn remove_stops(toks: Seq<Seq<char>>, stops: Seq<Seq<char>>) -> Seq<Seq<char>>
    decreases toks.len(),
{
    if toks.len() == 0 {
        Seq::<Seq<char>>::empty()
    } else {
        remove_stops(toks.drop_last(), stops) + (if word_among(stops, toks.last()) {
            Seq::<Seq<char>>::empty()
        } else {
            seq![toks.last()]
        })
    }
}

/// A lexer over a character slice: the input and the read position.
pub struct Lexer<'a> {
    pub input: &'a [char],
    pub pos: usize,
}

impl<'a> Lexer<'a> {
    /// A lexer at the start of `input`.
    pub fn new(input: &'a [char]) -> (r: Lexer<'a>)
        ensures
            r.input@ == input@,
            r.pos == 0,
    {
        Lexer { input, pos: 0 }
    }

    /// Skips the whitespace under the read position.
    fn trim_left(&mut self)
        requires
            old(self).pos <= old(self).input@.len(),
        ensures
            final(self).input@ == old(self).input@,
            final(self).pos == skip_ws(old(self).input@, old(self).pos as int),
            final(self).pos <= final(self).input@.len(),
    {
        proof {
            lemma_skip_ws_bounds(self.input@, self.pos as int);
        }
        while self.pos < self.input.len() && char_is_whitespace(self.input[self.pos])
            invariant
                self.input@ == old(self).input@,
                self.pos <= self.input@.len(),
                skip_ws(self.input@, self.pos as int) == skip_ws(
                    old(self).input@,
                    old(self).pos as int,
                ),
            decreases self.input@.len() - self.pos,
        {
            self.pos = self.pos + 1;
        }
    }

    /// Takes the next `n` characters as a token.
    fn chop(&mut self, n: usize) -> (r: &'a [char])
        requires
            old(self).pos + n <= old(self).input@.len(),
        ensures
            final(self).input@ == old(self).input@,
            final(self).pos == old(self).pos + n,
            r@ == old(self).input@.subrange(old(self).pos as int, old(self).pos + n),
            final(self).pos <= final(self).input@.len(),
    {
        let len = self.input.len();
        proof {
            assert(self.pos + n <= len);
        }
        let token = vstd::slice::slice_subrange(self.input, self.pos, self.pos + n);
        self.pos = self.pos + n;
        token
    }

    /// Takes the run of class `kind` under the read position.
    fn chop_while(&mut self, kind: CharKind) -> (r: &'a [char])
        requires
            old(self).pos <= old(self).input@.len(),
        ensures
            final(self).input@ == old(self).input@,
            final(self).pos == run_end(kind, old(self).input@, old(self).pos as int),
            r@ == old(self).input@.subrange(old(self).pos as int, final(self).pos as int),
            final(self).pos <= final(self).input@.len(),
    {
        proof {
            lemma_run_end_bounds(kind, self.input@, self.pos as int);
        }
        let start = self.pos;
        let mut n: usize = 0;
        while n < self.input.len() - start && kind_matches(kind, self.input[start + n])
            invariant
                self.input@ == old(self).input@,
                self.pos == start,
                start == old(self).pos,
                start <= self.input@.len(),
                start + n <= self.input@.len(),
                run_end(kind, self.input@, (start + n) as int) == run_end(
                    kind,
                    self.input@,
                    start as int,
                ),
                forall|k: int| start <= k < start + n ==> spec_kind_matches(kind, self.input@[k]),
            decreases self.input@.len() - start - n,
        {
            n = n + 1;
        }
        proof {
            assert(run_end(kind, self.input@, (start + n) as int) == start + n);
        }
        self.chop(n)
    }

    /// Stems one raw alphabetic token.
    fn stem_token(&self, token: &str) -> (r: String)
        ensures
            r@ == english_stem_of(token@),
    {
        stem_english(token)
    }

    /// Reads the next token, or `None` when only whitespace remains.
    fn next_token(&mut self) -> (r: Option<String>)
        requires
            old(self).pos <= old(self).input@.len(),
        ensures
            final(self).input@ == old(self).input@,
            final(self).pos <= final(self).input@.len(),
            match r {
                Some(tok) => spec_next_token(old(self).input@, old(self).pos as int) == Some(
                    (tok@, final(self).pos as int),
                ),
                None => spec_next_token(old(self).input@, old(self).pos as int) is None
                    && final(self).pos == final(self).input@.len(),
            },
    {
        self.trim_left();
        if self.pos >= self.input.len() {
            return None;
        }
        let c = self.input[self.pos];
        if char_is_numeric(c) {
            let run = self.chop_while(CharKind::Numeric);
            return Some(slice_to_string(run));
        }
        if char_is_alphabetic(c) {
            let run = self.chop_while(CharKind::Alphanumeric);
            let raw = slice_to_string(run);
            let stemmed = self.stem_token(raw.as_str());
            return Some(stemmed);
        }
        let run = self.chop(1);
        Some(slice_to_string(run))
    }

    /// Reads every token and removes the stop words.
    pub fn get_tokens(&mut self, stop_words: &[String]) -> (r: Vec<String>)
        requires
            old(self).pos <= old(self).input@.len(),
        ensures
            final(self).input@ == old(self).input@,
            str_views(r@) == remove_stops(
                spec_tokens(old(self).input@, old(self).pos as int),
                str_views(stop_words@),
            ),
    {
        let mut tokens: Vec<String> = Vec::new();
        proof {
            assert(str_views(tokens@) =~= Seq::<Seq<char>>::empty());
        }
        loop
            invariant
                self.input@ == old(self).input@,
                self.pos <= self.input@.len(),
                spec_tokens(old(self).input@, old(self).pos as int) == str_views(tokens@)
                    + spec_tokens(self.input@, self.pos as int),
            ensures
                self.input@ == old(self).input@,
                str_views(tokens@) == spec_tokens(old(self).input@, old(self).pos as int),
            decreases self.input@.len() - self.pos,
        {
            let ghost pre_pos = self.pos;
            proof {
                lemma_next_token_advances(self.input@, self.pos as int);
            }
            match self.next_token() {
                Some(tok) => {
                    proof {
                        assert(str_views(tokens@.push(tok)) =~= str_views(tokens@).push(tok@));
                        assert(spec_tokens(self.input@, pre_pos as int) == seq![tok@]
                            + spec_tokens(self.input@, self.pos as int));
                        assert(str_views(tokens@).push(tok@) + spec_tokens(
                            self.input@,
                            self.pos as int,
                        ) =~= str_views(tokens@) + (seq![tok@] + spec_tokens(
                            self.input@,
                            self.pos as int,
                        )));
                    }
                    tokens.push(tok);
                },
                None => {
                    proof {
                        assert(spec_tokens(self.input@, pre_pos as int)
                            =~= Seq::<Seq<char>>::empty());
                        assert(str_views(tokens@) + Seq::<Seq<char>>::empty() =~= str_views(
                            tokens@,
                        ));
                    }
                    break ;
                },
            }
        }
        self.remove_stop_words(&mut tokens, stop_words);
        tokens
    }

    /// Drops every token that equals a stop word, keeping the rest in order.
    pub fn remove_stop_words(&self, tokens: &mut Vec<String>, stop_words: &[String])
        ensures
            str_views(final(tokens)@) == remove_stops(
                str_views(old(tokens)@),
                str_views(stop_words@),
            ),
    {
        let ghost toks0 = str_views(tokens@);
        let ghost stops = str_views(stop_words@);
        let mut kept: Vec<String> = Vec::new();
        let n = tokens.len();
        let mut i: usize = 0;
        proof {
            assert(toks0.take(0) =~= Seq::<Seq<char>>::empty());
            assert(str_views(kept@) =~= remove_stops(toks0.take(0), stops));
        }
        while i < n
            invariant
                i <= n,
                n == tokens@.len(),
                toks0 == str_views(tokens@),
                stops == str_views(stop_words@),
                str_views(kept@) == remove_stops(toks0.take(i as int), stops),
            decreases n - i,
        {
            proof {
                assert(toks0.take(i + 1) =~= toks0.take(i as int).push(toks0[i as int]));
                assert(toks0.take(i + 1).drop_last() =~= toks0.take(i as int));
                assert(toks0[i as int] == tokens@[i as int]@);
            }
            let mut stopped = false;
            let mut k: usize = 0;
            while k < stop_words.len()
                invariant
                    k <= stop_words@.len(),
                    i < n,
                    n == tokens@.len(),
                    toks0 == str_views(tokens@),
                    stops == str_views(stop_words@),
                    stopped == (exists|m: int| 0 <= m < k && stops[m] == toks0[i as int]),
                decreases stop_words@.len() - k,
            {
                proof {
                    assert(stops[k as int] == stop_words@[k as int]@);
                    assert(toks0[i as int] == tokens@[i as int]@);
                }
                if str_eq(stop_words[k].as_str(), tokens[i].as_str()) {
                    stopped = true;
                    proof {
                        assert(stops[k as int] == toks0[i as int]);
                    }
                } else {
                    proof {
                        assert forall|m: int| 0 <= m < k + 1 && stops[m] == toks0[i as int]
                            implies exists|m2: int|
                            0 <= m2 < k && stops[m2] == toks0[i as int] by {
                            assert(m != k);
                        }
                    }
                }
                k = k + 1;
            }
            proof {
                assert(stopped == word_among(stops, toks0[i as int]));
            }
            if !stopped {
                let ghost kept0 = str_views(kept@);
                let tok = clone_token(&tokens[i]);
                kept.push(tok);
                proof {
                    assert(str_views(kept@) =~= kept0.push(toks0[i as int]));
                    assert(remove_stops(toks0.take(i + 1), stops) =~= kept0.push(
                        toks0[i as int],
                    ));
                }
            } else {
                proof {
                    assert(remove_stops(toks0.take(i + 1), stops) =~= str_views(kept@));
                }
            }
            i = i + 1;
        }
        proof {
            assert(toks0.take(n as int) =~= toks0);
        }
        *tokens = kept;
    }
}

/// Relies on `String::clone` via vstd's specification: copies the
/// characters.
fn clone_token(s: &String) -> (r: String)
    ensures
        r@ == s@,
{
    s.clone()
}

} // verus!

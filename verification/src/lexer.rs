//! The tokenizer.
//!
//! A `Lexer` walks a character slice and hands out normalized tokens:
//! maximal digit runs, case-folded alphanumeric runs that start with a
//! letter, and single non-alphanumeric characters; whitespace separates
//! tokens and is discarded. The spec-level model is `spec_tokenize`,
//! a pure function of the input character sequence.

use vstd::prelude::*;

use crate::text::{
    fold_char, is_alnum, is_alpha, is_digit, is_space, push_char, spec_fold, spec_is_alnum,
    spec_is_alpha, spec_is_digit, spec_is_space,
};

verus! {

/// The two character classes whose maximal runs form multi-character
/// tokens.
#[derive(Clone, Copy, PartialEq, Eq, Structural)]
pub enum CharKind {
    Digit,
    Alphanumeric,
}

pub open spec fn spec_in_kind(c: char, kind: CharKind) -> bool {
    match kind {
        CharKind::Digit => spec_is_digit(c),
        CharKind::Alphanumeric => spec_is_alnum(c),
    }
}

/// Length of the maximal prefix of `s` whose characters all belong to
/// `kind`.
pub open spec fn spec_run_len(s: Seq<char>, kind: CharKind) -> nat
    decreases s.len(),
{
    if s.len() > 0 && spec_in_kind(s[0], kind) {
        1 + spec_run_len(s.drop_first(), kind)
    } else {
        0
    }
}

/// `s` with its leading whitespace removed.
pub open spec fn spec_trim(s: Seq<char>) -> Seq<char>
    decreases s.len(),
{
    if s.len() > 0 && spec_is_space(s[0]) {
        spec_trim(s.drop_first())
    } else {
        s
    }
}

/// The next token of `s` and the characters that remain after it, or
/// `None` when only whitespace is left.
pub open spec fn spec_next_token(s: Seq<char>) -> Option<(Seq<char>, Seq<char>)> {
    let t = spec_trim(s);
    if t.len() == 0 {
        None
    } else if spec_is_digit(t[0]) {
        let n = spec_run_len(t, CharKind::Digit) as int;
        Some((t.subrange(0, n), t.skip(n)))
    } else if spec_is_alpha(t[0]) {
        let n = spec_run_len(t, CharKind::Alphanumeric) as int;
        Some((spec_fold(t.subrange(0, n)), t.skip(n)))
    } else {
        Some((t.subrange(0, 1), t.skip(1)))
    }
}

/// The full token sequence of `s`.
pub open spec fn spec_tokenize(s: Seq<char>) -> Seq<Seq<char>>
    decreases s.len(),
    via spec_tokenize_decreases
{
    match spec_next_token(s) {
        None => Seq::empty(),
        Some(p) => seq![p.0] + spec_tokenize(p.1),
    }
}

proof fn lemma_run_len_le(s: Seq<char>, kind: CharKind)
    ensures
        spec_run_len(s, kind) <= s.len(),
    decreases s.len(),
{
    if s.len() > 0 && spec_in_kind(s[0], kind) {
        lemma_run_len_le(s.drop_first(), kind);
    }
}

proof fn lemma_trim_le(s: Seq<char>)
    ensures
        spec_trim(s).len() <= s.len(),
    decreases s.len(),
{
    if s.len() > 0 && spec_is_space(s[0]) {
        lemma_trim_le(s.drop_first());
    }
}

/// Producing a token always consumes at least one character.
pub proof fn lemma_next_token_shrinks(s: Seq<char>)
    ensures
        (match spec_next_token(s) {
            None => true,
            Some(p) => p.1.len() < s.len(),
        }),
{
    let t = spec_trim(s);
    lemma_trim_le(s);
    if t.len() > 0 {
        if spec_is_digit(t[0]) {
            lemma_run_len_le(t, CharKind::Digit);
        } else if spec_is_alpha(t[0]) {
            lemma_run_len_le(t, CharKind::Alphanumeric);
        }
    }
}

#[via_fn]
proof fn spec_tokenize_decreases(s: Seq<char>) {
    lemma_next_token_shrinks(s);
}

/// A cursor over the text being tokenized. It holds nothing beyond the
/// characters it has not consumed yet, so tokenizing is restartable:
/// a fresh `Lexer` over the same input yields the same tokens.
pub struct Lexer<'a> {
    content: &'a [char],
}

impl<'a> View for Lexer<'a> {
    type V = Seq<char>;

    closed spec fn view(&self) -> Seq<char> {
        self.content@
    }
}

impl<'a> Lexer<'a> {
    pub fn new(content: &'a [char]) -> (l: Self)
        ensures
            l@ == content@,
    {
        Self { content }
    }

    /// Consumes the first `n` characters and returns them.
    pub fn chop(&mut self, n: usize) -> (token: &'a [char])
        requires
            n <= old(self)@.len(),
        ensures
            token@ == old(self)@.subrange(0, n as int),
            final(self)@ == old(self)@.skip(n as int),
    {
        let token = vstd::slice::slice_subrange(self.content, 0, n);
        self.content = vstd::slice::slice_subrange(self.content, n, self.content.len());
        token
    }

    /// Consumes the maximal prefix of characters of class `kind` and
    /// returns it.
    pub fn chop_while(&mut self, kind: CharKind) -> (token: &'a [char])
        ensures
            token@ == old(self)@.subrange(0, spec_run_len(old(self)@, kind) as int),
            final(self)@ == old(self)@.skip(spec_run_len(old(self)@, kind) as int),
    {
        let ghost s = self.content@;
        let mut n: usize = 0;
        while n < self.content.len() && in_kind(self.content[n], kind)
            invariant
                n <= s.len(),
                self.content@ == s,
                forall|j: int| 0 <= j < n ==> spec_in_kind(s[j], kind),
            decreases s.len() - n,
        {
            n = n + 1;
        }
        proof {
            lemma_run_len_value(s, kind, n as int);
        }
        self.chop(n)
    }

    /// Discards leading whitespace.
    pub fn trim(&mut self)
        ensures
            final(self)@ == spec_trim(old(self)@),
    {
        while self.content.len() > 0 && is_space(self.content[0])
            invariant
                spec_trim(self.content@) == spec_trim(old(self)@),
            decreases self.content@.len(),
        {
            proof {
                assert(self.content@.drop_first() == self.content@.skip(1));
            }
            self.content = vstd::slice::slice_subrange(self.content, 1, self.content.len());
        }
    }

    /// Produces the next token, or `None` when the remaining input is
    /// all whitespace. Digit runs are kept as they are; alphanumeric
    /// runs that start with a letter are case-folded; any other
    /// character is a token by itself.
    pub fn next_token(&mut self) -> (t: Option<String>)
        ensures
            (match spec_next_token(old(self)@) {
                None => t is None && final(self)@ == spec_trim(old(self)@),
                Some(p) => t matches Some(tok) && tok@ == p.0 && final(self)@ == p.1,
            }),
    {
        self.trim();

        if self.content.len() == 0 {
            return None;
        }

        let c = self.content[0];
        if is_digit(c) {
            let run = self.chop_while(CharKind::Digit);
            Some(string_of(run))
        } else if is_alpha(c) {
            let run = self.chop_while(CharKind::Alphanumeric);
            Some(string_of_folded(run))
        } else {
            let run = self.chop(1);
            Some(string_of(run))
        }
    }
}

fn in_kind(c: char, kind: CharKind) -> (b: bool)
    ensures
        b == spec_in_kind(c, kind),
{
    match kind {
        CharKind::Digit => is_digit(c),
        CharKind::Alphanumeric => is_alnum(c),
    }
}

pub(crate) proof fn lemma_run_len_value(s: Seq<char>, kind: CharKind, n: int)
    requires
        0 <= n <= s.len(),
        forall|j: int| 0 <= j < n ==> spec_in_kind(s[j], kind),
        n == s.len() || !spec_in_kind(s[n], kind),
    ensures
        spec_run_len(s, kind) == n,
    decreases n,
{
    if n == 0 {
    } else {
        let s2 = s.drop_first();
        assert(forall|j: int| 0 <= j < n - 1 ==> spec_in_kind(#[trigger] s2[j], kind));
        lemma_run_len_value(s2, kind, n - 1);
    }
}

pub(crate) fn string_of(chars: &[char]) -> (s: String)
    ensures
        s@ == chars@,
{
    let mut s = String::new();
    let mut i: usize = 0;
    while i < chars.len()
        invariant
            i <= chars@.len(),
            s@ == chars@.subrange(0, i as int),
        decreases chars@.len() - i,
    {
        push_char(&mut s, chars[i]);
        i = i + 1;
        proof {
            assert(s@ =~= chars@.subrange(0, i as int));
        }
    }
    proof {
        assert(s@ =~= chars@);
    }
    s
}

fn string_of_folded(chars: &[char]) -> (s: String)
    ensures
        s@ == spec_fold(chars@),
{
    let mut s = String::new();
    let mut i: usize = 0;
    while i < chars.len()
        invariant
            i <= chars@.len(),
            s@ == spec_fold(chars@.subrange(0, i as int)),
        decreases chars@.len() - i,
    {
        push_char(&mut s, fold_char(chars[i]));
        i = i + 1;
        proof {
            assert(s@ =~= spec_fold(chars@.subrange(0, i as int)));
        }
    }
    proof {
        assert(s@ =~= spec_fold(chars@));
    }
    s
}

/// Tokenizes a whole character slice.
pub fn tokenize(content: &[char]) -> (tokens: Vec<String>)
    ensures
        tokens.deep_view() == spec_tokenize(content@),
{
    let mut lexer = Lexer::new(content);
    let mut tokens: Vec<String> = Vec::new();
    loop
        invariant
            spec_tokenize(content@) == tokens.deep_view() + spec_tokenize(lexer@),
        ensures
            spec_tokenize(content@) == tokens.deep_view(),
        decreases lexer@.len(),
    {
        let ghost before = lexer@;
        proof {
            lemma_next_token_shrinks(before);
        }
        match lexer.next_token() {
            Some(tok) => {
                let ghost prev = tokens.deep_view();
                tokens.push(tok);
                proof {
                    assert(tokens.deep_view() =~= prev.push(tok@));
                    assert(prev.push(tok@) + spec_tokenize(lexer@) =~= prev + (seq![tok@]
                        + spec_tokenize(lexer@)));
                }
            },
            None => {
                proof {
                    assert(spec_tokenize(before) =~= Seq::<Seq<char>>::empty());
                    assert(tokens.deep_view() + spec_tokenize(before) =~= tokens.deep_view());
                }
                break;
            },
        }
    }
    tokens
}

/// Tokenizer determinism: any two tokenizations of the same character
/// sequence agree, because both equal the one token sequence
/// `spec_tokenize` assigns to that input.
pub proof fn lemma_tokenizer_deterministic(s: Seq<char>, t1: Seq<Seq<char>>, t2: Seq<Seq<char>>)
    requires
        t1 == spec_tokenize(s),
        t2 == spec_tokenize(s),
    ensures
        t1 == t2,
{
}

/// A token is all digits.
pub open spec fn digit_token(t: Seq<char>) -> bool {
    t.len() > 0 && forall|i: int| 0 <= i < t.len() ==> spec_is_digit(t[i])
}

/// A token is alphanumeric and starts with a letter.
pub open spec fn alpha_token(t: Seq<char>) -> bool {
    t.len() > 0 && spec_is_alpha(t[0]) && forall|i: int| 0 <= i < t.len() ==> spec_is_alnum(t[i])
}

/// A token is exactly one non-alphanumeric, non-whitespace character.
pub open spec fn symbol_token(t: Seq<char>) -> bool {
    t.len() == 1 && !spec_is_alnum(t[0]) && !spec_is_space(t[0])
}

proof fn lemma_run_len_chars(s: Seq<char>, kind: CharKind)
    ensures
        spec_run_len(s, kind) <= s.len(),
        forall|j: int| 0 <= j < spec_run_len(s, kind) ==> #[trigger] spec_in_kind(s[j], kind),
    decreases s.len(),
{
    if s.len() > 0 && spec_in_kind(s[0], kind) {
        let s2 = s.drop_first();
        lemma_run_len_chars(s2, kind);
        assert forall|j: int| 0 <= j < spec_run_len(s, kind) implies #[trigger] spec_in_kind(
            s[j],
            kind,
        ) by {
            if j > 0 {
                assert(s2[j - 1] == s[j]);
                assert(spec_in_kind(s2[j - 1], kind));
            }
        }
    }
}

proof fn lemma_trim_head(s: Seq<char>)
    ensures
        spec_trim(s).len() > 0 ==> !spec_is_space(spec_trim(s)[0]),
    decreases s.len(),
{
    if s.len() > 0 && spec_is_space(s[0]) {
        lemma_trim_head(s.drop_first());
    }
}

/// Digit/alpha partition: every token the tokenizer produces is a digit
/// run, a folded alphanumeric run starting with a letter, or a single
/// non-alphanumeric character; never a mixture.
pub proof fn lemma_token_partition(s: Seq<char>)
    ensures
        forall|k: int|
            0 <= k < spec_tokenize(s).len() ==> digit_token(#[trigger] spec_tokenize(s)[k])
                || alpha_token(spec_tokenize(s)[k]) || symbol_token(spec_tokenize(s)[k]),
    decreases s.len(),
{
    lemma_next_token_shrinks(s);
    match spec_next_token(s) {
        None => {},
        Some(p) => {
            let t = spec_trim(s);
            lemma_trim_head(s);
            if spec_is_digit(t[0]) {
                let n = spec_run_len(t, CharKind::Digit) as int;
                lemma_run_len_chars(t, CharKind::Digit);
                assert(n >= 1);
                assert forall|i: int| 0 <= i < p.0.len() implies spec_is_digit(
                    #[trigger] p.0[i],
                ) by {
                    assert(p.0[i] == t[i]);
                    assert(spec_in_kind(t[i], CharKind::Digit));
                }
                assert(digit_token(p.0));
            } else if spec_is_alpha(t[0]) {
                let n = spec_run_len(t, CharKind::Alphanumeric) as int;
                lemma_run_len_chars(t, CharKind::Alphanumeric);
                assert(n >= 1);
                let raw = t.subrange(0, n);
                assert forall|i: int| 0 <= i < p.0.len() implies spec_is_alnum(
                    #[trigger] p.0[i],
                ) by {
                    assert(raw[i] == t[i]);
                    assert(spec_in_kind(t[i], CharKind::Alphanumeric));
                    crate::text::lemma_fold_char_classes(raw[i]);
                    assert(p.0[i] == crate::text::spec_fold_char(raw[i]));
                }
                assert(raw[0] == t[0]);
                crate::text::lemma_fold_char_classes(raw[0]);
                assert(p.0[0] == crate::text::spec_fold_char(raw[0]));
                assert(alpha_token(p.0));
            } else {
                assert(symbol_token(p.0));
            }
            lemma_token_partition(p.1);
            assert forall|k: int|
                1 <= k < spec_tokenize(s).len() implies digit_token(
                #[trigger] spec_tokenize(s)[k],
            ) || alpha_token(spec_tokenize(s)[k]) || symbol_token(spec_tokenize(s)[k]) by {
                assert(spec_tokenize(s)[k] == spec_tokenize(p.1)[k - 1]);
            }
        },
    }
}

} // verus!

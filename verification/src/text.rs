//! Character classification and case folding for the tokenizer.
//!
//! Classification is over the ASCII range: digits `0`..`9`, letters
//! `a`..`z` and `A`..`Z`, and the ASCII whitespace characters. Folding
//! maps a lowercase letter to its uppercase form and leaves every other
//! character unchanged, so folded tokens are in a single canonical case.

use vstd::prelude::*;
use vstd::std_specs::iter::IteratorSpec;

verus! {

pub open spec fn spec_is_digit(c: char) -> bool {
    '0' <= c && c <= '9'
}

pub open spec fn spec_is_alpha(c: char) -> bool {
    ('a' <= c && c <= 'z') || ('A' <= c && c <= 'Z')
}

pub open spec fn spec_is_alnum(c: char) -> bool {
    spec_is_digit(c) || spec_is_alpha(c)
}

pub open spec fn spec_is_space(c: char) -> bool {
    c == ' ' || c == '\t' || c == '\n' || c == '\r' || c == '\x0c'
}

/// Case folding of one character: lowercase letters go to uppercase,
/// everything else is unchanged.
pub open spec fn spec_fold_char(c: char) -> char {
    match c {
        'a' => 'A',
        'b' => 'B',
        'c' => 'C',
        'd' => 'D',
        'e' => 'E',
        'f' => 'F',
        'g' => 'G',
        'h' => 'H',
        'i' => 'I',
        'j' => 'J',
        'k' => 'K',
        'l' => 'L',
        'm' => 'M',
        'n' => 'N',
        'o' => 'O',
        'p' => 'P',
        'q' => 'Q',
        'r' => 'R',
        's' => 'S',
        't' => 'T',
        'u' => 'U',
        'v' => 'V',
        'w' => 'W',
        'x' => 'X',
        'y' => 'Y',
        'z' => 'Z',
        _ => c,
    }
}

/// Case folding of a whole token, character by character.
pub open spec fn spec_fold(t: Seq<char>) -> Seq<char> {
    t.map_values(|c: char| spec_fold_char(c))
}

pub fn is_digit(c: char) -> (b: bool)
    ensures
        b == spec_is_digit(c),
{
    '0' <= c && c <= '9'
}

pub fn is_alpha(c: char) -> (b: bool)
    ensures
        b == spec_is_alpha(c),
{
    ('a' <= c && c <= 'z') || ('A' <= c && c <= 'Z')
}

pub fn is_alnum(c: char) -> (b: bool)
    ensures
        b == spec_is_alnum(c),
{
    is_digit(c) || is_alpha(c)
}

pub fn is_space(c: char) -> (b: bool)
    ensures
        b == spec_is_space(c),
{
    c == ' ' || c == '\t' || c == '\n' || c == '\r' || c == '\x0c'
}

pub fn fold_char(c: char) -> (r: char)
    ensures
        r == spec_fold_char(c),
{
    if 'a' <= c && c <= 'z' {
        match c {
            'a' => 'A',
            'b' => 'B',
            'c' => 'C',
            'd' => 'D',
            'e' => 'E',
            'f' => 'F',
            'g' => 'G',
            'h' => 'H',
            'i' => 'I',
            'j' => 'J',
            'k' => 'K',
            'l' => 'L',
            'm' => 'M',
            'n' => 'N',
            'o' => 'O',
            'p' => 'P',
            'q' => 'Q',
            'r' => 'R',
            's' => 'S',
            't' => 'T',
            'u' => 'U',
            'v' => 'V',
            'w' => 'W',
            'x' => 'X',
            'y' => 'Y',
            _ => 'Z',
        }
    } else {
        c
    }
}

/// Relies on `String::push`: appends exactly the given character at the
/// end of the string.
#[verifier::external_body]
pub(crate) fn push_char(s: &mut String, c: char)
    ensures
        final(s)@ == old(s)@.push(c),
{
    s.push(c)
}

/// The characters of a string, in order, as a vector.
pub fn chars_of(s: &str) -> (v: Vec<char>)
    ensures
        v@ == s@,
{
    broadcast use vstd::string::axiom_spec_iter;
    broadcast use vstd::string::next_postcondition;

    let mut v: Vec<char> = Vec::new();
    let mut it = s.chars();
    loop
        invariant
            it.obeys_prophetic_iter_laws(),
            v@ + it.remaining() == s@,
        ensures
            v@ == s@,
        decreases s@.len() - v@.len(),
    {
        match it.next() {
            Some(c) => {
                let ghost prev = v@;
                v.push(c);
                proof {
                    assert(v@ + it.remaining() =~= s@);
                }
            },
            None => {
                proof {
                    assert(v@ + it.remaining() =~= v@);
                }
                break;
            },
        }
    }
    v
}

/// Folding one character twice is the same as folding it once.
pub proof fn lemma_fold_char_idempotent(c: char)
    ensures
        spec_fold_char(spec_fold_char(c)) == spec_fold_char(c),
{
}

/// Folding preserves the character classes the tokenizer separates by:
/// a folded character is a letter, a digit, or whitespace exactly when
/// the original one is.
pub proof fn lemma_fold_char_classes(c: char)
    ensures
        spec_is_alpha(spec_fold_char(c)) == spec_is_alpha(c),
        spec_is_digit(spec_fold_char(c)) == spec_is_digit(c),
        spec_is_alnum(spec_fold_char(c)) == spec_is_alnum(c),
{
}

/// Case-fold idempotence on whole tokens: folding a token twice yields
/// the same token as folding it once.
pub proof fn lemma_fold_idempotent(t: Seq<char>)
    ensures
        spec_fold(spec_fold(t)) == spec_fold(t),
{
    assert forall|i: int| 0 <= i < t.len() implies spec_fold(spec_fold(t))[i] == spec_fold(t)[i] by {
        lemma_fold_char_idempotent(t[i]);
    }
    assert(spec_fold(spec_fold(t)) =~= spec_fold(t));
}

} // verus!

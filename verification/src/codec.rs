//! Persistence: a text codec for the index.
//!
//! The index is written as a character stream built from decimal
//! numbers, length-prefixed strings, and `;` markers:
//! an index is `<doc count>;` followed by its documents, a document is
//! `<id length>:<id><entry count>;` followed by its entries, and an
//! entry is `<token length>:<token><count>;`. Parsing is the exact
//! inverse of encoding (`lemma_round_trip`), so a saved index loads
//! back with identifiers, tokens and counts preserved.

use vstd::prelude::*;
use vstd::string::StringExecFns;

use crate::index::{spec_distinct_ids, Index};
use crate::lexer::{lemma_run_len_value, spec_in_kind, spec_run_len, string_of, CharKind};
use crate::model::{spec_distinct_keys, spec_positive_counts, spec_total, TermFreq};
use crate::text::{is_digit, push_char, spec_is_digit};

verus! {

/// The decimal digit character of a value below ten.
pub open spec fn spec_digit_char(d: nat) -> char {
    if d == 0 {
        '0'
    } else if d == 1 {
        '1'
    } else if d == 2 {
        '2'
    } else if d == 3 {
        '3'
    } else if d == 4 {
        '4'
    } else if d == 5 {
        '5'
    } else if d == 6 {
        '6'
    } else if d == 7 {
        '7'
    } else if d == 8 {
        '8'
    } else {
        '9'
    }
}

/// The value of a decimal digit character.
pub open spec fn spec_digit_val(c: char) -> nat {
    (c as int - 48) as nat
}

/// The decimal digits of `n`, most significant first.
pub open spec fn spec_digits(n: nat) -> Seq<char>
    decreases n,
{
    if n < 10 {
        seq![spec_digit_char(n)]
    } else {
        spec_digits(n / 10).push(spec_digit_char(n % 10))
    }
}

/// The value of a digit sequence read in decimal.
pub open spec fn spec_digits_val(ds: Seq<char>) -> nat
    decreases ds.len(),
{
    if ds.len() == 0 {
        0
    } else {
        spec_digits_val(ds.drop_last()) * 10 + spec_digit_val(ds.last())
    }
}

/// A length-prefixed string: `<length>:<characters>`.
pub open spec fn spec_enc_str(s: Seq<char>) -> Seq<char> {
    spec_digits(s.len()) + seq![':'] + s
}

/// One model entry: `<token length>:<token><count>;`.
pub open spec fn spec_enc_entry(e: (Seq<char>, nat)) -> Seq<char> {
    spec_enc_str(e.0) + spec_digits(e.1) + seq![';']
}

pub open spec fn spec_enc_entries(m: Seq<(Seq<char>, nat)>) -> Seq<char>
    decreases m.len(),
{
    if m.len() == 0 {
        Seq::empty()
    } else {
        spec_enc_entry(m[0]) + spec_enc_entries(m.drop_first())
    }
}

/// One model: `<entry count>;` followed by its entries.
pub open spec fn spec_enc_model(m: Seq<(Seq<char>, nat)>) -> Seq<char> {
    spec_digits(m.len()) + seq![';'] + spec_enc_entries(m)
}

/// One document: its identifier, then its model.
pub open spec fn spec_enc_doc(d: (Seq<char>, Seq<(Seq<char>, nat)>)) -> Seq<char> {
    spec_enc_str(d.0) + spec_enc_model(d.1)
}

pub open spec fn spec_enc_docs(ds: Seq<(Seq<char>, Seq<(Seq<char>, nat)>)>) -> Seq<char>
    decreases ds.len(),
{
    if ds.len() == 0 {
        Seq::empty()
    } else {
        spec_enc_doc(ds[0]) + spec_enc_docs(ds.drop_first())
    }
}

/// The whole index: `<document count>;` followed by its documents.
pub open spec fn spec_enc_index(ds: Seq<(Seq<char>, Seq<(Seq<char>, nat)>)>) -> Seq<char> {
    spec_digits(ds.len()) + seq![';'] + spec_enc_docs(ds)
}

/// Reads the maximal leading digit run as a decimal number; fails on a
/// leading non-digit or empty input.
pub open spec fn spec_parse_nat(s: Seq<char>) -> Option<(nat, Seq<char>)> {
    let k = spec_run_len(s, CharKind::Digit) as int;
    if k == 0 {
        None
    } else {
        Some((spec_digits_val(s.take(k)), s.skip(k)))
    }
}

/// Reads one marker character.
pub open spec fn spec_parse_mark(s: Seq<char>, c: char) -> Option<Seq<char>> {
    if s.len() >= 1 && s[0] == c {
        Some(s.skip(1))
    } else {
        None
    }
}

/// Reads a length-prefixed string.
pub open spec fn spec_parse_str(s: Seq<char>) -> Option<(Seq<char>, Seq<char>)> {
    match spec_parse_nat(s) {
        None => None,
        Some((n, r)) => match spec_parse_mark(r, ':') {
            None => None,
            Some(r2) => if r2.len() >= n {
                Some((r2.take(n as int), r2.skip(n as int)))
            } else {
                None
            },
        },
    }
}

/// Reads one model entry.
pub open spec fn spec_parse_entry(s: Seq<char>) -> Option<((Seq<char>, nat), Seq<char>)> {
    match spec_parse_str(s) {
        None => None,
        Some((tok, r)) => match spec_parse_nat(r) {
            None => None,
            Some((c, r2)) => match spec_parse_mark(r2, ';') {
                None => None,
                Some(r3) => Some(((tok, c), r3)),
            },
        },
    }
}

/// Reads exactly `k` model entries.
pub open spec fn spec_parse_entries(s: Seq<char>, k: nat) -> Option<(
    Seq<(Seq<char>, nat)>,
    Seq<char>,
)>
    decreases k,
{
    if k == 0 {
        Some((Seq::empty(), s))
    } else {
        match spec_parse_entry(s) {
            None => None,
            Some((e, r)) => match spec_parse_entries(r, (k - 1) as nat) {
                None => None,
                Some((m, r2)) => Some((seq![e] + m, r2)),
            },
        }
    }
}

/// Reads one model.
pub open spec fn spec_parse_model(s: Seq<char>) -> Option<(Seq<(Seq<char>, nat)>, Seq<char>)> {
    match spec_parse_nat(s) {
        None => None,
        Some((k, r)) => match spec_parse_mark(r, ';') {
            None => None,
            Some(r2) => spec_parse_entries(r2, k),
        },
    }
}

/// Reads one document.
pub open spec fn spec_parse_doc(s: Seq<char>) -> Option<(
    (Seq<char>, Seq<(Seq<char>, nat)>),
    Seq<char>,
)> {
    match spec_parse_str(s) {
        None => None,
        Some((id, r)) => match spec_parse_model(r) {
            None => None,
            Some((m, r2)) => Some(((id, m), r2)),
        },
    }
}

/// Reads exactly `k` documents.
pub open spec fn spec_parse_docs(s: Seq<char>, k: nat) -> Option<(
    Seq<(Seq<char>, Seq<(Seq<char>, nat)>)>,
    Seq<char>,
)>
    decreases k,
{
    if k == 0 {
        Some((Seq::empty(), s))
    } else {
        match spec_parse_doc(s) {
            None => None,
            Some((d, r)) => match spec_parse_docs(r, (k - 1) as nat) {
                None => None,
                Some((ds, r2)) => Some((seq![d] + ds, r2)),
            },
        }
    }
}

/// Reads a whole index stream; fails unless every character is used.
pub open spec fn spec_parse_index(s: Seq<char>) -> Option<
    Seq<(Seq<char>, Seq<(Seq<char>, nat)>)>,
> {
    match spec_parse_nat(s) {
        None => None,
        Some((k, r)) => match spec_parse_mark(r, ';') {
            None => None,
            Some(r2) => match spec_parse_docs(r2, k) {
                None => None,
                Some((ds, r3)) => if r3.len() == 0 {
                    Some(ds)
                } else {
                    None
                },
            },
        },
    }
}

proof fn lemma_digit_char_roundtrip(d: nat)
    requires
        d < 10,
    ensures
        spec_is_digit(spec_digit_char(d)),
        spec_digit_val(spec_digit_char(d)) == d,
{
}

proof fn lemma_digits_shape(n: nat)
    ensures
        spec_digits(n).len() >= 1,
        forall|i: int| 0 <= i < spec_digits(n).len() ==> spec_is_digit(#[trigger] spec_digits(n)[i]),
    decreases n,
{
    if n < 10 {
        lemma_digit_char_roundtrip(n);
    } else {
        assert(n / 10 < n) by (nonlinear_arith)
            requires
                n >= 10,
        ;
        assert(n % 10 < 10) by (nonlinear_arith)
            requires
                n >= 10,
        ;
        lemma_digits_shape(n / 10);
        lemma_digit_char_roundtrip(n % 10);
        assert forall|i: int| 0 <= i < spec_digits(n).len() implies spec_is_digit(
            #[trigger] spec_digits(n)[i],
        ) by {
            if i < spec_digits(n / 10).len() {
                assert(spec_digits(n)[i] == spec_digits(n / 10)[i]);
            } else {
                assert(spec_digits(n)[i] == spec_digit_char(n % 10));
            }
        }
    }
}

proof fn lemma_digits_val_of_digits(n: nat)
    ensures
        spec_digits_val(spec_digits(n)) == n,
    decreases n,
{
    if n < 10 {
        lemma_digit_char_roundtrip(n);
        assert(spec_digits(n).len() == 1);
        assert(spec_digits(n).last() == spec_digit_char(n));
        assert(spec_digits(n).drop_last() =~= Seq::<char>::empty());
        assert(spec_digits_val(spec_digits(n)) == spec_digits_val(Seq::<char>::empty()) * 10
            + spec_digit_val(spec_digit_char(n)));
    } else {
        assert(n / 10 < n && n % 10 < 10 && n == (n / 10) * 10 + n % 10) by (nonlinear_arith)
            requires
                n >= 10,
        ;
        lemma_digits_val_of_digits(n / 10);
        lemma_digit_char_roundtrip(n % 10);
        assert(spec_digits(n).drop_last() =~= spec_digits(n / 10));
        assert(spec_digits(n).last() == spec_digit_char(n % 10));
        assert(spec_digits(n).len() == spec_digits(n / 10).len() + 1);
        assert(spec_digits_val(spec_digits(n)) == spec_digits_val(spec_digits(n).drop_last()) * 10
            + spec_digit_val(spec_digits(n).last()));
        assert(spec_digits_val(spec_digits(n)) == (n / 10) * 10 + (n % 10));
    }
}

proof fn lemma_run_len_concat(a: Seq<char>, rest: Seq<char>, kind: CharKind)
    requires
        forall|i: int| 0 <= i < a.len() ==> spec_in_kind(#[trigger] a[i], kind),
        rest.len() == 0 || !spec_in_kind(rest[0], kind),
    ensures
        spec_run_len(a + rest, kind) == a.len(),
    decreases a.len(),
{
    if a.len() == 0 {
        assert(a + rest =~= rest);
    } else {
        assert((a + rest)[0] == a[0]);
        let a2 = a.drop_first();
        assert(forall|i: int| 0 <= i < a2.len() ==> #[trigger] a2[i] == a[i + 1]);
        lemma_run_len_concat(a2, rest, kind);
        assert((a + rest).drop_first() =~= a2 + rest);
    }
}

/// Parsing a number reads back exactly what was encoded, whatever
/// follows it, as long as what follows does not begin with a digit.
proof fn lemma_parse_nat_enc(n: nat, rest: Seq<char>)
    requires
        rest.len() == 0 || !spec_is_digit(rest[0]),
    ensures
        spec_parse_nat(spec_digits(n) + rest) == Some((n, rest)),
{
    let ds = spec_digits(n);
    lemma_digits_shape(n);
    assert forall|i: int| 0 <= i < ds.len() implies spec_in_kind(#[trigger] ds[i], CharKind::Digit) by {}
    lemma_run_len_concat(ds, rest, CharKind::Digit);
    lemma_digits_val_of_digits(n);
    assert((ds + rest).take(ds.len() as int) =~= ds);
    assert((ds + rest).skip(ds.len() as int) =~= rest);
}

/// Parsing a length-prefixed string reads back exactly what was
/// encoded.
proof fn lemma_parse_str_enc(t: Seq<char>, rest: Seq<char>)
    ensures
        spec_parse_str(spec_enc_str(t) + rest) == Some((t, rest)),
{
    let ds = spec_digits(t.len());
    let tail = seq![':'] + t + rest;
    assert(spec_enc_str(t) + rest =~= ds + tail);
    assert(!spec_is_digit(':'));
    lemma_parse_nat_enc(t.len(), tail);
    assert(tail.skip(1) =~= t + rest);
    assert((t + rest).take(t.len() as int) =~= t);
    assert((t + rest).skip(t.len() as int) =~= rest);
}

/// Parsing an entry reads back exactly what was encoded.
proof fn lemma_parse_entry_enc(e: (Seq<char>, nat), rest: Seq<char>)
    ensures
        spec_parse_entry(spec_enc_entry(e) + rest) == Some((e, rest)),
{
    let tail = spec_digits(e.1) + seq![';'] + rest;
    assert(spec_enc_entry(e) + rest =~= spec_enc_str(e.0) + tail);
    lemma_parse_str_enc(e.0, tail);
    lemma_digits_shape(e.1);
    assert(tail =~= spec_digits(e.1) + (seq![';'] + rest));
    assert(!spec_is_digit(';'));
    assert((seq![';'] + rest)[0] == ';');
    lemma_parse_nat_enc(e.1, seq![';'] + rest);
    assert((seq![';'] + rest).skip(1) =~= rest);
}

/// Parsing `k` entries reads back exactly the `k` entries encoded.
proof fn lemma_parse_entries_enc(m: Seq<(Seq<char>, nat)>, rest: Seq<char>)
    ensures
        spec_parse_entries(spec_enc_entries(m) + rest, m.len()) == Some((m, rest)),
    decreases m.len(),
{
    if m.len() == 0 {
        assert(spec_enc_entries(m) + rest =~= rest);
        assert(spec_parse_entries(rest, 0) == Some((Seq::<(Seq<char>, nat)>::empty(), rest)));
        assert(m =~= Seq::<(Seq<char>, nat)>::empty());
    } else {
        let m2 = m.drop_first();
        assert(spec_enc_entries(m) + rest =~= spec_enc_entry(m[0]) + (spec_enc_entries(m2) + rest));
        lemma_parse_entry_enc(m[0], spec_enc_entries(m2) + rest);
        lemma_parse_entries_enc(m2, rest);
        assert(seq![m[0]] + m2 =~= m);
    }
}

/// Parsing a model reads back exactly what was encoded.
proof fn lemma_parse_model_enc(m: Seq<(Seq<char>, nat)>, rest: Seq<char>)
    ensures
        spec_parse_model(spec_enc_model(m) + rest) == Some((m, rest)),
{
    let tail = seq![';'] + (spec_enc_entries(m) + rest);
    assert(spec_enc_model(m) + rest =~= spec_digits(m.len()) + tail);
    assert(!spec_is_digit(';'));
    lemma_parse_nat_enc(m.len(), tail);
    assert(tail.skip(1) =~= spec_enc_entries(m) + rest);
    lemma_parse_entries_enc(m, rest);
}

/// Parsing a document reads back exactly what was encoded.
proof fn lemma_parse_doc_enc(d: (Seq<char>, Seq<(Seq<char>, nat)>), rest: Seq<char>)
    ensures
        spec_parse_doc(spec_enc_doc(d) + rest) == Some((d, rest)),
{
    let tail = spec_enc_model(d.1) + rest;
    assert(spec_enc_doc(d) + rest =~= spec_enc_str(d.0) + tail);
    lemma_parse_str_enc(d.0, tail);
    lemma_parse_model_enc(d.1, rest);
}

/// Parsing `k` documents reads back exactly the `k` documents encoded.
proof fn lemma_parse_docs_enc(ds: Seq<(Seq<char>, Seq<(Seq<char>, nat)>)>, rest: Seq<char>)
    ensures
        spec_parse_docs(spec_enc_docs(ds) + rest, ds.len()) == Some((ds, rest)),
    decreases ds.len(),
{
    if ds.len() == 0 {
        assert(spec_enc_docs(ds) + rest =~= rest);
        assert(ds =~= Seq::<(Seq<char>, Seq<(Seq<char>, nat)>)>::empty());
    } else {
        let d2 = ds.drop_first();
        assert(spec_enc_docs(ds) + rest =~= spec_enc_doc(ds[0]) + (spec_enc_docs(d2) + rest));
        lemma_parse_doc_enc(ds[0], spec_enc_docs(d2) + rest);
        lemma_parse_docs_enc(d2, rest);
        assert(seq![ds[0]] + d2 =~= ds);
    }
}

/// Round-trip fidelity: parsing the encoding of any index contents
/// yields exactly those contents — document identifiers, token
/// strings and counts are preserved.
pub proof fn lemma_round_trip(ds: Seq<(Seq<char>, Seq<(Seq<char>, nat)>)>)
    ensures
        spec_parse_index(spec_enc_index(ds)) == Some(ds),
{
    let tail = seq![';'] + spec_enc_docs(ds);
    assert(spec_enc_index(ds) =~= spec_digits(ds.len()) + tail);
    assert(!spec_is_digit(';'));
    lemma_parse_nat_enc(ds.len(), tail);
    assert(tail.skip(1) =~= spec_enc_docs(ds) + Seq::<char>::empty());
    lemma_parse_docs_enc(ds, Seq::empty());
}

/// A model the deserializer may accept: distinct keys, positive
/// counts, and a total that fits the machine word.
pub open spec fn spec_model_valid(m: Seq<(Seq<char>, nat)>) -> bool {
    &&& spec_distinct_keys(m)
    &&& spec_positive_counts(m)
    &&& spec_total(m) <= usize::MAX
}

/// An index stream the deserializer may accept: distinct document
/// identifiers and valid models throughout.
pub open spec fn spec_index_valid(ds: Seq<(Seq<char>, Seq<(Seq<char>, nat)>)>) -> bool {
    &&& spec_distinct_ids(ds)
    &&& forall|i: int| 0 <= i < ds.len() ==> spec_model_valid(#[trigger] ds[i].1)
}

proof fn lemma_parse_nat_consumes(s: Seq<char>)
    ensures
        (match spec_parse_nat(s) {
            Some(p) => p.1.len() < s.len(),
            None => true,
        }),
{
    if spec_run_len(s, CharKind::Digit) > 0 {
        lemma_run_len_le(s);
    }
}

proof fn lemma_run_len_le(s: Seq<char>)
    ensures
        spec_run_len(s, CharKind::Digit) <= s.len(),
    decreases s.len(),
{
    if s.len() > 0 && spec_in_kind(s[0], CharKind::Digit) {
        lemma_run_len_le(s.drop_first());
    }
}

proof fn lemma_parse_str_consumes(s: Seq<char>)
    ensures
        (match spec_parse_str(s) {
            Some(p) => p.1.len() < s.len(),
            None => true,
        }),
{
    lemma_parse_nat_consumes(s);
}

proof fn lemma_parse_entry_consumes(s: Seq<char>)
    ensures
        (match spec_parse_entry(s) {
            Some(p) => p.1.len() < s.len(),
            None => true,
        }),
{
    lemma_parse_str_consumes(s);
    match spec_parse_str(s) {
        None => {},
        Some((tok, r)) => {
            lemma_parse_nat_consumes(r);
        },
    }
}

proof fn lemma_parse_entries_consumes(s: Seq<char>, k: nat)
    ensures
        (match spec_parse_entries(s, k) {
            Some(p) => p.0.len() == k && p.1.len() + k <= s.len(),
            None => true,
        }),
    decreases k,
{
    if k > 0 {
        lemma_parse_entry_consumes(s);
        match spec_parse_entry(s) {
            None => {},
            Some((e, r)) => {
                lemma_parse_entries_consumes(r, (k - 1) as nat);
            },
        }
    }
}

proof fn lemma_parse_doc_consumes(s: Seq<char>)
    ensures
        (match spec_parse_doc(s) {
            Some(p) => p.1.len() < s.len(),
            None => true,
        }),
{
    lemma_parse_str_consumes(s);
    match spec_parse_str(s) {
        None => {},
        Some((id, r)) => {
            lemma_parse_nat_consumes(r);
            match spec_parse_nat(r) {
                None => {},
                Some((k, r2)) => {
                    if r2.len() >= 1 && r2[0] == ';' {
                        lemma_parse_entries_consumes(r2.skip(1), k);
                    }
                },
            }
        },
    }
}

proof fn lemma_parse_docs_consumes(s: Seq<char>, k: nat)
    ensures
        (match spec_parse_docs(s, k) {
            Some(p) => p.0.len() == k && p.1.len() + k <= s.len(),
            None => true,
        }),
    decreases k,
{
    if k > 0 {
        lemma_parse_doc_consumes(s);
        match spec_parse_doc(s) {
            None => {},
            Some((d, r)) => {
                lemma_parse_docs_consumes(r, (k - 1) as nat);
            },
        }
    }
}

proof fn lemma_digits_val_prefix(ds: Seq<char>, j: int)
    requires
        0 <= j <= ds.len(),
    ensures
        spec_digits_val(ds.take(j)) <= spec_digits_val(ds),
    decreases ds.len() - j,
{
    if j == ds.len() {
        assert(ds.take(j) =~= ds);
    } else {
        lemma_digits_val_prefix(ds, j + 1);
        assert(ds.take(j + 1).drop_last() =~= ds.take(j));
        assert(spec_digits_val(ds.take(j + 1)) == spec_digits_val(ds.take(j)) * 10
            + spec_digit_val(ds.take(j + 1).last()));
        assert(spec_digits_val(ds.take(j)) <= spec_digits_val(ds.take(j)) * 10) by (nonlinear_arith);
    }
}

fn digit_val(c: char) -> (d: usize)
    requires
        spec_is_digit(c),
    ensures
        d == spec_digit_val(c),
        d <= 9,
{
    ((c as u32) - 48) as usize
}

/// Reads a decimal number; `None` on a missing digit or a value that
/// does not fit the machine word.
fn parse_nat_ex<'a>(s: &'a [char]) -> (r: Option<(usize, &'a [char])>)
    ensures
        (match spec_parse_nat(s@) {
            Some(p) => match r {
                Some(q) => q.0 as nat == p.0 && q.1@ == p.1,
                None => p.0 > usize::MAX,
            },
            None => r is None,
        }),
{
    let len = s.len();
    let mut e: usize = 0;
    while e < len && is_digit(s[e])
        invariant
            len == s@.len(),
            e <= len,
            forall|t: int| 0 <= t < e ==> spec_is_digit(#[trigger] s@[t]),
        decreases len - e,
    {
        e = e + 1;
    }
    proof {
        assert forall|t: int| 0 <= t < e implies spec_in_kind(s@[t], CharKind::Digit) by {}
        lemma_run_len_value(s@, CharKind::Digit, e as int);
    }
    if e == 0 {
        return None;
    }
    let ghost run = s@.take(e as int);
    let mut acc: u128 = 0;
    let mut j: usize = 0;
    proof {
        assert(run.take(0) =~= Seq::<char>::empty());
    }
    while j < e
        invariant
            e <= s@.len(),
            j <= e,
            run == s@.take(e as int),
            1 <= e,
            spec_run_len(s@, CharKind::Digit) == e as nat,
            forall|t: int| 0 <= t < e ==> spec_is_digit(#[trigger] s@[t]),
            acc == spec_digits_val(run.take(j as int)),
            acc <= usize::MAX as u128,
        decreases e - j,
    {
        let d = digit_val(s[j]);
        proof {
            assert(run.take(j + 1).drop_last() =~= run.take(j as int));
            assert(run.take(j + 1).last() == s@[j as int]);
            assert(acc * 10 + d < u128::MAX) by (nonlinear_arith)
                requires
                    acc <= usize::MAX as u128,
                    usize::MAX as int <= u64::MAX as int,
                    d <= 9,
            ;
        }
        acc = acc * 10 + (d as u128);
        if acc > (usize::MAX as u128) {
            proof {
                lemma_digits_val_prefix(run, j + 1);
            }
            return None;
        }
        j = j + 1;
    }
    proof {
        assert(run.take(e as int) =~= run);
        assert(s@.subrange(e as int, len as int) =~= s@.skip(e as int));
    }
    Some((acc as usize, vstd::slice::slice_subrange(s, e, len)))
}

/// Reads one expected marker character.
fn parse_mark_ex<'a>(s: &'a [char], c: char) -> (r: Option<&'a [char]>)
    ensures
        (match spec_parse_mark(s@, c) {
            Some(p) => r matches Some(q) && q@ == p,
            None => r is None,
        }),
{
    if s.len() >= 1 && s[0] == c {
        Some(vstd::slice::slice_subrange(s, 1, s.len()))
    } else {
        None
    }
}

/// Reads a length-prefixed string.
fn parse_str_ex<'a>(s: &'a [char]) -> (r: Option<(String, &'a [char])>)
    ensures
        (match spec_parse_str(s@) {
            Some(p) => r matches Some(q) && q.0@ == p.0 && q.1@ == p.1,
            None => r is None,
        }),
{
    let len = s.len();
    match parse_nat_ex(s) {
        None => {
            proof {
                if spec_parse_nat(s@) is Some {
                    let p = spec_parse_nat(s@).unwrap();
                    assert(p.0 > usize::MAX);
                    lemma_parse_nat_consumes(s@);
                    if spec_parse_mark(p.1, ':') is Some {
                        assert(spec_parse_mark(p.1, ':').unwrap().len() < s@.len());
                    }
                }
            }
            None
        },
        Some((n, rest)) => {
            match parse_mark_ex(rest, ':') {
                None => None,
                Some(rest2) => {
                    if rest2.len() < n {
                        None
                    } else {
                        let tok = string_of(vstd::slice::slice_subrange(rest2, 0, n));
                        Some((tok, vstd::slice::slice_subrange(rest2, n, rest2.len())))
                    }
                },
            }
        },
    }
}


/// Reads one model entry; `None` also on a count that does not fit the
/// machine word.
fn parse_entry_ex<'a>(s: &'a [char]) -> (r: Option<((String, usize), &'a [char])>)
    ensures
        (match spec_parse_entry(s@) {
            Some(p) => match r {
                Some(q) => q.0.0@ == p.0.0 && q.0.1 as nat == p.0.1 && q.1@ == p.1,
                None => p.0.1 > usize::MAX,
            },
            None => r is None,
        }),
{
    match parse_str_ex(s) {
        None => None,
        Some((tok, rest)) => match parse_nat_ex(rest) {
            None => None,
            Some((c, rest2)) => match parse_mark_ex(rest2, ';') {
                None => None,
                Some(rest3) => Some(((tok, c), rest3)),
            },
        },
    }
}

/// Reads exactly `k` model entries.
fn parse_entries_ex<'a>(s: &'a [char], k: usize) -> (r: Option<(Vec<(String, usize)>, &'a [char])>)
    ensures
        (match spec_parse_entries(s@, k as nat) {
            Some(p) => match r {
                Some(q) => q.0@.map_values(|e: (String, usize)| (e.0@, e.1 as nat)) == p.0 && q.1@
                    == p.1,
                None => exists|t: int| 0 <= t < p.0.len() && (#[trigger] p.0[t]).1 > usize::MAX,
            },
            None => r is None,
        }),
    decreases k,
{
    if k == 0 {
        let v: Vec<(String, usize)> = Vec::new();
        proof {
            assert(v@.map_values(|e: (String, usize)| (e.0@, e.1 as nat)) =~= Seq::<(
                Seq<char>,
                nat,
            )>::empty());
        }
        Some((v, s))
    } else {
        match parse_entry_ex(s) {
            None => {
                proof {
                    if spec_parse_entries(s@, k as nat) is Some {
                        let p = spec_parse_entries(s@, k as nat).unwrap();
                        let e = spec_parse_entry(s@).unwrap();
                        assert(p.0[0] == e.0);
                    }
                }
                None
            },
            Some((e, rest)) => {
                match parse_entries_ex(rest, k - 1) {
                    None => {
                        proof {
                            if spec_parse_entries(s@, k as nat) is Some {
                                let p = spec_parse_entries(s@, k as nat).unwrap();
                                let ep = spec_parse_entry(s@).unwrap();
                                let m = spec_parse_entries(ep.1, (k - 1) as nat).unwrap().0;
                                let t = choose|t: int|
                                    0 <= t < m.len() && (#[trigger] m[t]).1 > usize::MAX;
                                assert(p.0 == seq![ep.0] + m);
                                assert(p.0[t + 1] == m[t]);
                            }
                        }
                        None
                    },
                    Some((tail, rest2)) => {
                        let mut v = tail;
                        let ghost vm = v@.map_values(|q: (String, usize)| (q.0@, q.1 as nat));
                        v.insert(0, e);
                        proof {
                            assert(v@.map_values(|q: (String, usize)| (q.0@, q.1 as nat))
                                =~= seq![(e.0@, e.1 as nat)] + vm);
                        }
                        Some((v, rest2))
                    },
                }
            },
        }
    }
}

/// Reads one model and rebuilds it; `None` on an entry list that no
/// well-formed model can carry.
fn parse_model_ex<'a>(s: &'a [char]) -> (r: Option<(TermFreq, &'a [char])>)
    ensures
        (match spec_parse_model(s@) {
            Some(p) => match r {
                Some(q) => q.0.wf() && q.0.model() == p.0 && q.1@ == p.1,
                None => !spec_model_valid(p.0),
            },
            None => r is None,
        }),
{
    let len = s.len();
    match parse_nat_ex(s) {
        None => {
            proof {
                if spec_parse_nat(s@) is Some {
                    let np = spec_parse_nat(s@).unwrap();
                    lemma_parse_nat_consumes(s@);
                    if spec_parse_mark(np.1, ';') is Some {
                        let r2 = spec_parse_mark(np.1, ';').unwrap();
                        lemma_parse_entries_consumes(r2, np.0);
                    }
                }
            }
            None
        },
        Some((k, rest)) => match parse_mark_ex(rest, ';') {
            None => None,
            Some(rest2) => match parse_entries_ex(rest2, k) {
                None => {
                    proof {
                        if spec_parse_model(s@) is Some {
                            let p = spec_parse_model(s@).unwrap();
                            let t = choose|t: int|
                                0 <= t < p.0.len() && (#[trigger] p.0[t]).1 > usize::MAX;
                            crate::model::lemma_total_count_le(p.0, t);
                            assert(spec_total(p.0) > usize::MAX);
                        }
                    }
                    None
                },
                Some((entries, rest3)) => match TermFreq::from_entries(entries) {
                    None => None,
                    Some(tf) => Some((tf, rest3)),
                },
            },
        },
    }
}

/// Reads one document.
fn parse_doc_ex<'a>(s: &'a [char]) -> (r: Option<((String, TermFreq), &'a [char])>)
    ensures
        (match spec_parse_doc(s@) {
            Some(p) => match r {
                Some(q) => q.0.0@ == p.0.0 && q.0.1.wf() && q.0.1.model() == p.0.1 && q.1@ == p.1,
                None => !spec_model_valid(p.0.1),
            },
            None => r is None,
        }),
{
    match parse_str_ex(s) {
        None => None,
        Some((id, rest)) => match parse_model_ex(rest) {
            None => None,
            Some((m, rest2)) => Some(((id, m), rest2)),
        },
    }
}

/// Reads exactly `k` documents.
fn parse_docs_ex<'a>(s: &'a [char], k: usize) -> (r: Option<(Vec<(String, TermFreq)>, &'a [char])>)
    ensures
        (match spec_parse_docs(s@, k as nat) {
            Some(p) => match r {
                Some(q) => q.0@.map_values(|d: (String, TermFreq)| (d.0@, d.1.model())) == p.0
                    && (forall|t: int| 0 <= t < q.0@.len() ==> (#[trigger] q.0@[t].1).wf()) && q.1@
                    == p.1,
                None => exists|t: int|
                    0 <= t < p.0.len() && !spec_model_valid((#[trigger] p.0[t]).1),
            },
            None => r is None,
        }),
    decreases k,
{
    if k == 0 {
        let v: Vec<(String, TermFreq)> = Vec::new();
        proof {
            assert(v@.map_values(|d: (String, TermFreq)| (d.0@, d.1.model())) =~= Seq::<(
                Seq<char>,
                Seq<(Seq<char>, nat)>,
            )>::empty());
        }
        Some((v, s))
    } else {
        match parse_doc_ex(s) {
            None => {
                proof {
                    if spec_parse_docs(s@, k as nat) is Some {
                        let p = spec_parse_docs(s@, k as nat).unwrap();
                        let d = spec_parse_doc(s@).unwrap();
                        assert(p.0[0] == d.0);
                    }
                }
                None
            },
            Some((d, rest)) => {
                match parse_docs_ex(rest, k - 1) {
                    None => {
                        proof {
                            if spec_parse_docs(s@, k as nat) is Some {
                                let p = spec_parse_docs(s@, k as nat).unwrap();
                                let dp = spec_parse_doc(s@).unwrap();
                                let m = spec_parse_docs(dp.1, (k - 1) as nat).unwrap().0;
                                let t = choose|t: int|
                                    0 <= t < m.len() && !spec_model_valid((#[trigger] m[t]).1);
                                assert(p.0 == seq![dp.0] + m);
                                assert(p.0[t + 1] == m[t]);
                            }
                        }
                        None
                    },
                    Some((tail, rest2)) => {
                        let mut v = tail;
                        let ghost vm = v@.map_values(|q: (String, TermFreq)| (q.0@, q.1.model()));
                        v.insert(0, d);
                        proof {
                            assert(v@.map_values(|q: (String, TermFreq)| (q.0@, q.1.model()))
                                =~= seq![(d.0@, d.1.model())] + vm);
                        }
                        Some((v, rest2))
                    },
                }
            },
        }
    }
}

/// Reads back an index from a character stream. Succeeds exactly on a
/// complete, well-shaped stream whose contents pass the validity
/// checks: distinct document identifiers, and in every model distinct
/// keys, positive counts and a total that fits the machine word.
pub fn deserialize(input: &str) -> (r: Option<Index>)
    ensures
        (match spec_parse_index(input@) {
            Some(ds) => match r {
                Some(ix) => ix.wf() && ix.models() == ds,
                None => !spec_index_valid(ds),
            },
            None => r is None,
        }),
{
    let cs = crate::text::chars_of(input);
    let s = cs.as_slice();
    let len = s.len();
    match parse_nat_ex(s) {
        None => {
            proof {
                if spec_parse_nat(input@) is Some {
                    let np = spec_parse_nat(input@).unwrap();
                    lemma_parse_nat_consumes(input@);
                    if spec_parse_mark(np.1, ';') is Some {
                        let r2 = spec_parse_mark(np.1, ';').unwrap();
                        lemma_parse_docs_consumes(r2, np.0);
                    }
                }
            }
            None
        },
        Some((k, rest)) => match parse_mark_ex(rest, ';') {
            None => None,
            Some(rest2) => match parse_docs_ex(rest2, k) {
                None => {
                    proof {
                        if spec_parse_index(input@) is Some {
                            let ds = spec_parse_index(input@).unwrap();
                            let t = choose|t: int|
                                0 <= t < ds.len() && !spec_model_valid((#[trigger] ds[t]).1);
                            assert(!spec_index_valid(ds));
                        }
                    }
                    None
                },
                Some((docs, rest3)) => {
                    if rest3.len() > 0 {
                        return None;
                    }
                    match Index::from_docs(docs) {
                        None => None,
                        Some(ix) => Some(ix),
                    }
                },
            },
        },
    }
}

/// Round-trip fidelity at the boundary: a well-formed index encodes to
/// a stream that parses back to exactly its contents and passes every
/// validity check, so deserializing a serialized index succeeds and
/// restores equal document identifiers, token sets and counts.
pub proof fn lemma_serialize_deserialize(ix: &Index)
    requires
        ix.wf(),
    ensures
        spec_parse_index(spec_enc_index(ix.models())) == Some(ix.models()),
        spec_index_valid(ix.models()),
{
    lemma_round_trip(ix.models());
    ix.lemma_wf_facts();
}


fn digit_char(d: usize) -> (c: char)
    requires
        d < 10,
    ensures
        c == spec_digit_char(d as nat),
{
    if d == 0 {
        '0'
    } else if d == 1 {
        '1'
    } else if d == 2 {
        '2'
    } else if d == 3 {
        '3'
    } else if d == 4 {
        '4'
    } else if d == 5 {
        '5'
    } else if d == 6 {
        '6'
    } else if d == 7 {
        '7'
    } else if d == 8 {
        '8'
    } else {
        '9'
    }
}

/// Appends the decimal digits of `n`.
fn push_digits(out: &mut String, n: usize)
    ensures
        final(out)@ == old(out)@ + spec_digits(n as nat),
    decreases n,
{
    if n >= 10 {
        proof {
            assert(n / 10 < n && n % 10 < 10) by (nonlinear_arith)
                requires
                    n >= 10,
            ;
        }
        push_digits(out, n / 10);
        push_char(out, digit_char(n % 10));
        proof {
            assert(spec_digits(n as nat) =~= spec_digits((n / 10) as nat).push(
                spec_digit_char((n % 10) as nat),
            ));
            assert(final(out)@ =~= old(out)@ + spec_digits(n as nat));
        }
    } else {
        push_char(out, digit_char(n));
        proof {
            assert(final(out)@ =~= old(out)@ + spec_digits(n as nat));
        }
    }
}

/// Appends a length-prefixed string field.
fn push_str_field(out: &mut String, t: &String)
    ensures
        final(out)@ == old(out)@ + spec_enc_str(t@),
{
    let cs = crate::text::chars_of(t.as_str());
    push_digits(out, cs.len());
    push_char(out, ':');
    out.append(t.as_str());
    proof {
        assert(final(out)@ =~= old(out)@ + spec_enc_str(t@));
    }
}

proof fn lemma_enc_entries_snoc(m: Seq<(Seq<char>, nat)>, i: int)
    requires
        0 <= i < m.len(),
    ensures
        spec_enc_entries(m.take(i + 1)) =~= spec_enc_entries(m.take(i)) + spec_enc_entry(m[i]),
    decreases i,
{
    if i == 0 {
        assert(m.take(0) =~= Seq::<(Seq<char>, nat)>::empty());
        assert(m.take(1)[0] == m[0]);
        assert(m.take(1).len() == 1);
        assert(m.take(1).drop_first() =~= Seq::<(Seq<char>, nat)>::empty());
        assert(spec_enc_entries(m.take(1)) == spec_enc_entry(m.take(1)[0]) + spec_enc_entries(
            m.take(1).drop_first(),
        ));
        assert(spec_enc_entries(m.take(1).drop_first()) == Seq::<char>::empty());
        assert(spec_enc_entry(m[0]) + Seq::<char>::empty() =~= spec_enc_entry(m[0]));
        assert(spec_enc_entries(m.take(0)) == Seq::<char>::empty());
        assert(Seq::<char>::empty() + spec_enc_entry(m[0]) =~= spec_enc_entry(m[0]));
    } else {
        let m2 = m.drop_first();
        lemma_enc_entries_snoc(m2, i - 1);
        assert(m.take(i + 1)[0] == m[0]);
        assert(m.take(i + 1).drop_first() =~= m2.take(i));
        assert(m.take(i).drop_first() =~= m2.take(i - 1));
        assert(m2[i - 1] == m[i]);
        assert(spec_enc_entries(m.take(i + 1)) =~= spec_enc_entry(m[0]) + spec_enc_entries(
            m2.take(i),
        ));
        assert(spec_enc_entries(m.take(i)) =~= spec_enc_entry(m[0]) + spec_enc_entries(
            m2.take(i - 1),
        ));
    }
}

proof fn lemma_enc_docs_snoc(ds: Seq<(Seq<char>, Seq<(Seq<char>, nat)>)>, i: int)
    requires
        0 <= i < ds.len(),
    ensures
        spec_enc_docs(ds.take(i + 1)) =~= spec_enc_docs(ds.take(i)) + spec_enc_doc(ds[i]),
    decreases i,
{
    if i == 0 {
        assert(ds.take(0) =~= Seq::<(Seq<char>, Seq<(Seq<char>, nat)>)>::empty());
        assert(ds.take(1)[0] == ds[0]);
        assert(ds.take(1).len() == 1);
        assert(ds.take(1).drop_first() =~= Seq::<(Seq<char>, Seq<(Seq<char>, nat)>)>::empty());
        assert(spec_enc_docs(ds.take(1)) == spec_enc_doc(ds.take(1)[0]) + spec_enc_docs(
            ds.take(1).drop_first(),
        ));
        assert(spec_enc_docs(ds.take(1).drop_first()) == Seq::<char>::empty());
        assert(spec_enc_doc(ds[0]) + Seq::<char>::empty() =~= spec_enc_doc(ds[0]));
        assert(spec_enc_docs(ds.take(0)) == Seq::<char>::empty());
        assert(Seq::<char>::empty() + spec_enc_doc(ds[0]) =~= spec_enc_doc(ds[0]));
    } else {
        let d2 = ds.drop_first();
        lemma_enc_docs_snoc(d2, i - 1);
        assert(ds.take(i + 1)[0] == ds[0]);
        assert(ds.take(i + 1).drop_first() =~= d2.take(i));
        assert(ds.take(i).drop_first() =~= d2.take(i - 1));
        assert(d2[i - 1] == ds[i]);
        assert(spec_enc_docs(ds.take(i + 1)) =~= spec_enc_doc(ds[0]) + spec_enc_docs(d2.take(i)));
        assert(spec_enc_docs(ds.take(i)) =~= spec_enc_doc(ds[0]) + spec_enc_docs(d2.take(i - 1)));
    }
}

/// Writes an index as a character stream: exactly `spec_enc_index` of
/// its contents.
pub fn serialize(index: &Index) -> (out: String)
    ensures
        out@ == spec_enc_index(index.models()),
{
    let ghost ds = index.models();
    let docs = index.docs();
    let mut out = String::new();
    push_digits(&mut out, docs.len());
    push_char(&mut out, ';');
    let n = docs.len();
    let mut i: usize = 0;
    proof {
        assert(ds.take(0) =~= Seq::<(Seq<char>, Seq<(Seq<char>, nat)>)>::empty());
        assert(out@ =~= spec_digits(ds.len()) + seq![';'] + spec_enc_docs(ds.take(0)));
    }
    while i < n
        invariant
            n == docs@.len(),
            i <= n,
            ds == docs@.map_values(|p: (String, TermFreq)| (p.0@, p.1.model())),
            ds.len() == n,
            out@ == spec_digits(ds.len()) + seq![';'] + spec_enc_docs(ds.take(i as int)),
        decreases n - i,
    {
        let ghost out0 = out@;
        push_str_field(&mut out, &docs[i].0);
        let entries = docs[i].1.entries();
        let ghost m = ds[i as int].1;
        proof {
            assert(entries@.map_values(|q: (String, usize)| (q.0@, q.1 as nat)) == docs@[i as int].1.model());
            assert(m == docs@[i as int].1.model());
        }
        let en = entries.len();
        push_digits(&mut out, en);
        push_char(&mut out, ';');
        let mut j: usize = 0;
        proof {
            assert(m.take(0) =~= Seq::<(Seq<char>, nat)>::empty());
            assert(out@ =~= out0 + spec_enc_str(ds[i as int].0) + spec_digits(m.len()) + seq![';']
                + spec_enc_entries(m.take(0)));
        }
        while j < en
            invariant
                en == entries@.len(),
                j <= en,
                m == entries@.map_values(|q: (String, usize)| (q.0@, q.1 as nat)),
                m.len() == en,
                out@ == out0 + spec_enc_str(ds[i as int].0) + spec_digits(m.len()) + seq![';']
                    + spec_enc_entries(m.take(j as int)),
            decreases en - j,
        {
            push_str_field(&mut out, &entries[j].0);
            push_digits(&mut out, entries[j].1);
            push_char(&mut out, ';');
            proof {
                lemma_enc_entries_snoc(m, j as int);
                assert(m[j as int] == (entries@[j as int].0@, entries@[j as int].1 as nat));
                assert(out@ =~= out0 + spec_enc_str(ds[i as int].0) + spec_digits(m.len())
                    + seq![';'] + spec_enc_entries(m.take(j + 1)));
            }
            j = j + 1;
        }
        proof {
            assert(m.take(en as int) =~= m);
            lemma_enc_docs_snoc(ds, i as int);
            assert(spec_enc_doc(ds[i as int]) =~= spec_enc_str(ds[i as int].0) + spec_digits(
                m.len(),
            ) + seq![';'] + spec_enc_entries(m));
            assert(out@ =~= spec_digits(ds.len()) + seq![';'] + spec_enc_docs(ds.take(i + 1)));
        }
        i = i + 1;
    }
    proof {
        assert(ds.take(n as int) =~= ds);
        assert(out@ =~= spec_enc_index(ds));
    }
    out
}

} // verus!

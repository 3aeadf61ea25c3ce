//! The per-document term-frequency model.
//!
//! A `TermFreq` maps each token of a document to the number of times it
//! occurs, and carries the document's total token count. It is stored as
//! an association vector with pairwise-distinct keys; a token absent
//! from it has count zero. The spec-level model is an association
//! sequence of `(token, count)` pairs, built by `spec_model_of`.

use vstd::prelude::*;

verus! {

/// The count of token `t` in the association sequence `m` (the count of
/// its first entry, or zero when absent).
pub open spec fn spec_count(m: Seq<(Seq<char>, nat)>, t: Seq<char>) -> nat
    decreases m.len(),
{
    if m.len() == 0 {
        0
    } else if m[0].0 == t {
        m[0].1
    } else {
        spec_count(m.drop_first(), t)
    }
}

/// The sum of all counts in `m`.
pub open spec fn spec_total(m: Seq<(Seq<char>, nat)>) -> nat
    decreases m.len(),
{
    if m.len() == 0 {
        0
    } else {
        m[0].1 + spec_total(m.drop_first())
    }
}

/// `m` with one more occurrence of token `t`: the first entry for `t`
/// is incremented, or a fresh entry with count one is appended.
pub open spec fn spec_add_token(m: Seq<(Seq<char>, nat)>, t: Seq<char>) -> Seq<(Seq<char>, nat)>
    decreases m.len(),
{
    if m.len() == 0 {
        seq![(t, 1nat)]
    } else if m[0].0 == t {
        seq![(m[0].0, (m[0].1 + 1) as nat)] + m.drop_first()
    } else {
        seq![m[0]] + spec_add_token(m.drop_first(), t)
    }
}

/// The term-frequency model of a token sequence: every token recorded
/// once, in order. Building is deterministic: the model is a pure
/// function of the token sequence.
pub open spec fn spec_model_of(tokens: Seq<Seq<char>>) -> Seq<(Seq<char>, nat)>
    decreases tokens.len(),
{
    if tokens.len() == 0 {
        Seq::empty()
    } else {
        spec_add_token(spec_model_of(tokens.drop_last()), tokens.last())
    }
}

/// The number of occurrences of `t` in `tokens`.
pub open spec fn spec_occurrences(tokens: Seq<Seq<char>>, t: Seq<char>) -> nat
    decreases tokens.len(),
{
    if tokens.len() == 0 {
        0
    } else {
        spec_occurrences(tokens.drop_last(), t) + if tokens.last() == t {
            1nat
        } else {
            0nat
        }
    }
}

/// Keys of `m` are pairwise distinct.
pub open spec fn spec_distinct_keys(m: Seq<(Seq<char>, nat)>) -> bool {
    forall|i: int, j: int| 0 <= i < j < m.len() ==> m[i].0 != m[j].0
}

/// All counts in `m` are positive.
pub open spec fn spec_positive_counts(m: Seq<(Seq<char>, nat)>) -> bool {
    forall|i: int| 0 <= i < m.len() ==> (#[trigger] m[i].1) >= 1
}

proof fn lemma_add_token_total(m: Seq<(Seq<char>, nat)>, t: Seq<char>)
    ensures
        spec_total(spec_add_token(m, t)) == spec_total(m) + 1,
    decreases m.len(),
{
    let a = spec_add_token(m, t);
    if m.len() == 0 {
        assert(a.len() == 1);
        assert(a[0] == (t, 1nat));
        assert(a.drop_first() =~= Seq::<(Seq<char>, nat)>::empty());
        assert(spec_total(a) == a[0].1 + spec_total(a.drop_first()));
    } else if m[0].0 == t {
        assert(a[0] == (m[0].0, (m[0].1 + 1) as nat));
        assert(a.drop_first() =~= m.drop_first());
        assert(spec_total(a) == a[0].1 + spec_total(a.drop_first()));
    } else {
        lemma_add_token_total(m.drop_first(), t);
        assert(a[0] == m[0]);
        assert(a.drop_first() =~= spec_add_token(m.drop_first(), t));
        assert(spec_total(a) == a[0].1 + spec_total(a.drop_first()));
    }
}

proof fn lemma_add_token_count(m: Seq<(Seq<char>, nat)>, t: Seq<char>, x: Seq<char>)
    ensures
        spec_count(spec_add_token(m, t), x) == spec_count(m, x) + if x == t {
            1nat
        } else {
            0nat
        },
    decreases m.len(),
{
    let a = spec_add_token(m, t);
    if m.len() == 0 {
        assert(a.len() == 1);
        assert(a[0] == (t, 1nat));
        assert(a.drop_first() =~= Seq::<(Seq<char>, nat)>::empty());
        assert(spec_count(a, x) == if a[0].0 == x { a[0].1 } else { spec_count(a.drop_first(), x) });
    } else if m[0].0 == t {
        assert(a[0] == (m[0].0, (m[0].1 + 1) as nat));
        assert(a.drop_first() =~= m.drop_first());
        assert(spec_count(a, x) == if a[0].0 == x { a[0].1 } else { spec_count(a.drop_first(), x) });
    } else {
        lemma_add_token_count(m.drop_first(), t, x);
        assert(a[0] == m[0]);
        assert(a.drop_first() =~= spec_add_token(m.drop_first(), t));
        assert(spec_count(a, x) == if a[0].0 == x { a[0].1 } else { spec_count(a.drop_first(), x) });
    }
}

/// Term count conservation: the counts of the model of a token sequence
/// sum to the length of that sequence.
pub proof fn lemma_term_count_conservation(tokens: Seq<Seq<char>>)
    ensures
        spec_total(spec_model_of(tokens)) == tokens.len(),
    decreases tokens.len(),
{
    if tokens.len() > 0 {
        lemma_term_count_conservation(tokens.drop_last());
        lemma_add_token_total(spec_model_of(tokens.drop_last()), tokens.last());
    }
}

/// The model of a token sequence counts exactly the occurrences of each
/// token in it.
pub proof fn lemma_model_counts_occurrences(tokens: Seq<Seq<char>>, t: Seq<char>)
    ensures
        spec_count(spec_model_of(tokens), t) == spec_occurrences(tokens, t),
    decreases tokens.len(),
{
    if tokens.len() > 0 {
        lemma_model_counts_occurrences(tokens.drop_last(), t);
        lemma_add_token_count(spec_model_of(tokens.drop_last()), tokens.last(), t);
    }
}

proof fn lemma_add_token_found(m: Seq<(Seq<char>, nat)>, t: Seq<char>, i: int)
    requires
        0 <= i < m.len(),
        m[i].0 == t,
        forall|j: int| 0 <= j < i ==> m[j].0 != t,
    ensures
        spec_add_token(m, t) =~= m.update(i, (t, (m[i].1 + 1) as nat)),
    decreases i,
{
    if i == 0 {
        assert(spec_add_token(m, t) =~= m.update(0, (t, (m[0].1 + 1) as nat)));
    } else {
        let m2 = m.drop_first();
        assert(forall|j: int| 0 <= j < i - 1 ==> #[trigger] m2[j].0 == m[j + 1].0);
        lemma_add_token_found(m2, t, i - 1);
        assert(spec_add_token(m, t) =~= m.update(i, (t, (m[i].1 + 1) as nat)));
    }
}

proof fn lemma_add_token_absent(m: Seq<(Seq<char>, nat)>, t: Seq<char>)
    requires
        forall|j: int| 0 <= j < m.len() ==> m[j].0 != t,
    ensures
        spec_add_token(m, t) =~= m.push((t, 1nat)),
    decreases m.len(),
{
    if m.len() > 0 {
        let m2 = m.drop_first();
        assert(forall|j: int| 0 <= j < m2.len() ==> #[trigger] m2[j].0 == m[j + 1].0);
        lemma_add_token_absent(m2, t);
        assert(spec_add_token(m, t) =~= m.push((t, 1nat)));
    }
}

proof fn lemma_distinct_update(m: Seq<(Seq<char>, nat)>, i: int, e: (Seq<char>, nat))
    requires
        0 <= i < m.len(),
        spec_distinct_keys(m),
        spec_positive_counts(m),
        e.0 == m[i].0,
        e.1 >= 1,
    ensures
        spec_distinct_keys(m.update(i, e)),
        spec_positive_counts(m.update(i, e)),
{
    let u = m.update(i, e);
    assert forall|a: int, b: int| 0 <= a < b < u.len() implies u[a].0 != u[b].0 by {
        assert(m[a].0 != m[b].0);
    }
    assert forall|a: int| 0 <= a < u.len() implies (#[trigger] u[a].1) >= 1 by {
        assert(m[a].1 >= 1);
    }
}

proof fn lemma_distinct_push(m: Seq<(Seq<char>, nat)>, e: (Seq<char>, nat))
    requires
        spec_distinct_keys(m),
        spec_positive_counts(m),
        forall|j: int| 0 <= j < m.len() ==> m[j].0 != e.0,
        e.1 >= 1,
    ensures
        spec_distinct_keys(m.push(e)),
        spec_positive_counts(m.push(e)),
{
    let u = m.push(e);
    assert forall|a: int, b: int| 0 <= a < b < u.len() implies u[a].0 != u[b].0 by {
        if b < m.len() {
            assert(m[a].0 != m[b].0);
        } else {
            assert(u[b] == e);
            assert(m[a].0 != e.0);
        }
    }
    assert forall|a: int| 0 <= a < u.len() implies (#[trigger] u[a].1) >= 1 by {
        if a < m.len() {
            assert(m[a].1 >= 1);
        }
    }
}

/// A per-document term-frequency model: each token of the document with
/// its occurrence count, plus the document's total token count.
pub struct TermFreq {
    entries: Vec<(String, usize)>,
    total: usize,
}

impl TermFreq {
    /// The association sequence this model stands for.
    pub closed spec fn model(&self) -> Seq<(Seq<char>, nat)> {
        self.entries@.map_values(|e: (String, usize)| (e.0@, e.1 as nat))
    }

    /// Well-formed: distinct keys, positive counts, and a total equal to
    /// the sum of all counts.
    pub closed spec fn wf(&self) -> bool {
        &&& spec_distinct_keys(self.model())
        &&& spec_positive_counts(self.model())
        &&& self.total == spec_total(self.model())
    }

    /// The document's total token count.
    pub closed spec fn spec_total_count(&self) -> nat {
        self.total as nat
    }

    /// What well-formedness guarantees about the model.
    pub proof fn lemma_wf_facts(&self)
        requires
            self.wf(),
        ensures
            spec_distinct_keys(self.model()),
            spec_positive_counts(self.model()),
            self.spec_total_count() == spec_total(self.model()),
            spec_total(self.model()) <= usize::MAX,
    {
    }

    pub fn new() -> (m: TermFreq)
        ensures
            m.wf(),
            m.model() == Seq::<(Seq<char>, nat)>::empty(),
            m.spec_total_count() == 0,
    {
        let m = TermFreq { entries: Vec::new(), total: 0 };
        proof {
            assert(m.model() =~= Seq::<(Seq<char>, nat)>::empty());
        }
        m
    }

    /// Records one more occurrence of `token`.
    pub fn add(&mut self, token: &String)
        requires
            old(self).wf(),
            old(self).spec_total_count() < usize::MAX,
        ensures
            final(self).wf(),
            final(self).model() == spec_add_token(old(self).model(), token@),
            final(self).spec_total_count() == old(self).spec_total_count() + 1,
    {
        let ghost m0 = self.model();
        let mut i: usize = 0;
        let n = self.entries.len();
        proof {
            assert(m0.len() == self.entries@.len());
        }
        while i < n
            invariant
                n == self.entries.len(),
                i <= n,
                *self == *old(self),
                m0 == self.model(),
                m0.len() == n,
                old(self).wf(),
                old(self).spec_total_count() < usize::MAX,
                forall|j: int| 0 <= j < i ==> #[trigger] m0[j].0 != token@,
            decreases n - i,
        {
            if string_eq(&self.entries[i].0, token) {
                proof {
                    assert(m0[i as int].0 == self.entries@[i as int].0@);
                    lemma_add_token_found(m0, token@, i as int);
                    lemma_total_update(m0, i as int, (m0[i as int].1 + 1) as nat);
                    lemma_total_count_le(m0, i as int);
                }
                let count = self.entries[i].1;
                let key = self.entries.remove(i);
                self.entries.insert(i, (key.0, count + 1));
                self.total = self.total + 1;
                proof {
                    assert(self.entries@ =~= old(self).entries@.update(
                        i as int,
                        (old(self).entries@[i as int].0, (count + 1) as usize),
                    ));
                    assert(self.model() =~= m0.update(
                        i as int,
                        (token@, (m0[i as int].1 + 1) as nat),
                    ));
                    lemma_distinct_update(m0, i as int, (token@, (m0[i as int].1 + 1) as nat));
                }
                return;
            }
            i = i + 1;
        }
        proof {
            lemma_add_token_absent(m0, token@);
            lemma_total_push(m0, (token@, 1nat));
        }
        self.entries.push((clone_string(token), 1));
        self.total = self.total + 1;
        proof {
            assert(self.model() =~= m0.push((token@, 1nat)));
            lemma_distinct_push(m0, (token@, 1nat));
        }
    }

    /// Builds the model of a token sequence, counting every occurrence.
    pub fn from_tokens(tokens: &Vec<String>) -> (m: TermFreq)
        ensures
            m.wf(),
            m.model() == spec_model_of(tokens.deep_view()),
            m.spec_total_count() == tokens@.len(),
    {
        let mut m = TermFreq::new();
        let mut i: usize = 0;
        proof {
            assert(tokens.deep_view().take(0) =~= Seq::<Seq<char>>::empty());
        }
        while i < tokens.len()
            invariant
                i <= tokens@.len(),
                m.wf(),
                m.model() == spec_model_of(tokens.deep_view().take(i as int)),
                m.spec_total_count() == i,
            decreases tokens@.len() - i,
        {
            proof {
                let tv = tokens.deep_view();
                assert(tv.take(i + 1).drop_last() =~= tv.take(i as int));
                assert(tv.take(i + 1).last() == tv[i as int]);
            }
            m.add(&tokens[i]);
            i = i + 1;
        }
        proof {
            assert(tokens.deep_view().take(tokens@.len() as int) =~= tokens.deep_view());
        }
        m
    }

    /// The count recorded for `token`, zero when absent.
    pub fn count(&self, token: &String) -> (c: usize)
        ensures
            c == spec_count(self.model(), token@),
    {
        let n = self.entries.len();
        let mut i: usize = 0;
        proof {
            assert(self.model().skip(0) =~= self.model());
        }
        while i < n
            invariant
                n == self.entries.len(),
                i <= n,
                spec_count(self.model(), token@) == spec_count(
                    self.model().skip(i as int),
                    token@,
                ),
            decreases n - i,
        {
            proof {
                assert(self.model().skip(i as int).drop_first() =~= self.model().skip(i + 1));
            }
            if string_eq(&self.entries[i].0, token) {
                assert(self.model().skip(i as int)[0] == self.model()[i as int]);
                return self.entries[i].1;
            }
            i = i + 1;
        }
        proof {
            assert(self.model().skip(n as int) =~= Seq::<(Seq<char>, nat)>::empty());
        }
        0
    }

    /// The document's total token count.
    pub fn total_count(&self) -> (t: usize)
        ensures
            t == self.spec_total_count(),
    {
        self.total
    }

    /// The underlying `(token, count)` entries, in insertion order.
    pub fn entries(&self) -> (e: &Vec<(String, usize)>)
        ensures
            e@.map_values(|p: (String, usize)| (p.0@, p.1 as nat)) == self.model(),
            self.wf() ==> spec_total(self.model()) == self.spec_total_count(),
    {
        &self.entries
    }

    /// Rebuilds a model from raw entries, as a deserializer must.
    /// Succeeds exactly when the entries have distinct keys, positive
    /// counts, and a total that fits the machine word.
    pub fn from_entries(entries: Vec<(String, usize)>) -> (r: Option<TermFreq>)
        ensures
            (match r {
                Some(m) => {
                    &&& m.wf()
                    &&& m.model() == entries@.map_values(|p: (String, usize)| (p.0@, p.1 as nat))
                },
                None => {
                    let model = entries@.map_values(|p: (String, usize)| (p.0@, p.1 as nat));
                    !(spec_distinct_keys(model) && spec_positive_counts(model) && spec_total(model)
                        <= usize::MAX)
                },
            }),
    {
        let ghost model = entries@.map_values(|p: (String, usize)| (p.0@, p.1 as nat));
        let n = entries.len();
        let mut total: usize = 0;
        let mut i: usize = 0;
        while i < n
            invariant
                n == entries@.len(),
                i <= n,
                model == entries@.map_values(|p: (String, usize)| (p.0@, p.1 as nat)),
                total == spec_total(model.take(i as int)),
                spec_positive_counts(model.take(i as int)),
                spec_distinct_keys(model.take(i as int)),
                forall|a: int, b: int|
                    0 <= a < i && a < b < n ==> model[a].0 != model[b].0,
            decreases n - i,
        {
            let c = entries[i].1;
            if c == 0 {
                proof {
                    lemma_positive_counts_violation(model, i as int);
                }
                return None;
            }
            if c > usize::MAX - total {
                proof {
                    lemma_total_prefix_le(model, i as int);
                }
                return None;
            }
            let mut j: usize = i + 1;
            while j < n
                invariant
                    n == entries@.len(),
                    i < n,
                    i + 1 <= j <= n,
                    model == entries@.map_values(|p: (String, usize)| (p.0@, p.1 as nat)),
                    forall|b: int| i < b < j ==> model[i as int].0 != model[b].0,
                decreases n - j,
            {
                if string_eq(&entries[i].0, &entries[j].0) {
                    proof {
                        lemma_distinct_keys_violation(model, i as int, j as int);
                    }
                    return None;
                }
                j = j + 1;
            }
            proof {
                lemma_total_take_step(model, i as int);
            }
            total = total + c;
            i = i + 1;
        }
        proof {
            assert(model.take(n as int) =~= model);
        }
        Some(TermFreq { entries, total })
    }
}

proof fn lemma_positive_counts_violation(m: Seq<(Seq<char>, nat)>, i: int)
    requires
        0 <= i < m.len(),
        m[i].1 == 0,
    ensures
        !spec_positive_counts(m),
{
}

proof fn lemma_distinct_keys_violation(m: Seq<(Seq<char>, nat)>, i: int, j: int)
    requires
        0 <= i < j < m.len(),
        m[i].0 == m[j].0,
    ensures
        !spec_distinct_keys(m),
{
}

proof fn lemma_total_take_step(m: Seq<(Seq<char>, nat)>, i: int)
    requires
        0 <= i < m.len(),
    ensures
        spec_total(m.take(i + 1)) == spec_total(m.take(i)) + m[i].1,
    decreases i,
{
    if i == 0 {
        assert(m.take(1).drop_first() =~= Seq::<(Seq<char>, nat)>::empty());
        assert(m.take(0) =~= Seq::<(Seq<char>, nat)>::empty());
    } else {
        let m2 = m.drop_first();
        lemma_total_take_step(m2, i - 1);
        assert(m.take(i + 1).drop_first() =~= m2.take(i));
        assert(m.take(i).drop_first() =~= m2.take(i - 1));
    }
}

proof fn lemma_total_prefix_le(m: Seq<(Seq<char>, nat)>, i: int)
    requires
        0 <= i < m.len(),
    ensures
        spec_total(m) >= spec_total(m.take(i)) + m[i].1,
    decreases m.len(),
{
    lemma_total_take_step(m, i);
    lemma_total_take_le(m, i + 1);
}

proof fn lemma_total_take_le(m: Seq<(Seq<char>, nat)>, i: int)
    requires
        0 <= i <= m.len(),
    ensures
        spec_total(m.take(i)) <= spec_total(m),
    decreases m.len() - i,
{
    if i < m.len() {
        lemma_total_take_step(m, i);
        lemma_total_take_le(m, i + 1);
    } else {
        assert(m.take(i) =~= m);
    }
}

proof fn lemma_total_update(m: Seq<(Seq<char>, nat)>, i: int, v: nat)
    requires
        0 <= i < m.len(),
    ensures
        spec_total(m.update(i, (m[i].0, v))) == spec_total(m) - m[i].1 + v,
    decreases i,
{
    let u = m.update(i, (m[i].0, v));
    if i == 0 {
        assert(u.drop_first() =~= m.drop_first());
    } else {
        lemma_total_update(m.drop_first(), i - 1, v);
        assert(u.drop_first() =~= m.drop_first().update(i - 1, (m[i].0, v)));
        assert(m.drop_first()[i - 1] == m[i]);
    }
}

pub(crate) proof fn lemma_total_count_le(m: Seq<(Seq<char>, nat)>, i: int)
    requires
        0 <= i < m.len(),
    ensures
        m[i].1 <= spec_total(m),
    decreases i,
{
    if i == 0 {
    } else {
        lemma_total_count_le(m.drop_first(), i - 1);
    }
}

proof fn lemma_total_push(m: Seq<(Seq<char>, nat)>, e: (Seq<char>, nat))
    ensures
        spec_total(m.push(e)) == spec_total(m) + e.1,
    decreases m.len(),
{
    let a = m.push(e);
    if m.len() == 0 {
        assert(a.len() == 1);
        assert(a[0] == e);
        assert(a.drop_first() =~= Seq::<(Seq<char>, nat)>::empty());
        assert(spec_total(a) == a[0].1 + spec_total(a.drop_first()));
    } else {
        lemma_total_push(m.drop_first(), e);
        assert(a[0] == m[0]);
        assert(a.drop_first() =~= m.drop_first().push(e));
        assert(spec_total(a) == a[0].1 + spec_total(a.drop_first()));
    }
}

/// String equality, compared by contents.
pub fn string_eq(a: &String, b: &String) -> (r: bool)
    ensures
        r == (a@ == b@),
{
    a.eq(b)
}

/// A copy of a string with the same contents.
pub fn clone_string(s: &String) -> (r: String)
    ensures
        r@ == s@,
{
    s.clone()
}

} // verus!

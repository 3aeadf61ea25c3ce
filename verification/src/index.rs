//! The index: one term-frequency model per document identifier.
//!
//! An index is built once over a document collection and only read
//! afterwards. Document identifiers are pairwise distinct; querying
//! never mutates the index.

use vstd::prelude::*;

use crate::lexer::{spec_tokenize, tokenize};
use crate::model::{
    clone_string, spec_distinct_keys, spec_model_of, spec_positive_counts, spec_total, TermFreq,
};
use crate::text::chars_of;

verus! {

/// An identified document whose text could not be obtained from the
/// text-extraction collaborator; building aborts on the first one.
#[derive(Debug)]
pub struct DocumentReadError {
    pub doc_id: String,
}

/// Identifiers of `docs` are pairwise distinct.
pub open spec fn spec_distinct_ids(docs: Seq<(Seq<char>, Seq<(Seq<char>, nat)>)>) -> bool {
    forall|i: int, j: int| 0 <= i < j < docs.len() ==> docs[i].0 != docs[j].0
}

/// A mapping from document identifier to that document's
/// term-frequency model.
pub struct Index {
    docs: Vec<(String, TermFreq)>,
}

impl Index {
    /// The association sequence of documents this index stands for.
    pub closed spec fn models(&self) -> Seq<(Seq<char>, Seq<(Seq<char>, nat)>)> {
        self.docs@.map_values(|d: (String, TermFreq)| (d.0@, d.1.model()))
    }

    /// Well-formed: distinct identifiers, and every model well-formed.
    pub closed spec fn wf(&self) -> bool {
        &&& spec_distinct_ids(self.models())
        &&& forall|i: int| 0 <= i < self.docs@.len() ==> (#[trigger] self.docs@[i].1).wf()
    }

    /// What well-formedness guarantees about the documents.
    pub proof fn lemma_wf_facts(&self)
        requires
            self.wf(),
        ensures
            spec_distinct_ids(self.models()),
            forall|i: int|
                0 <= i < self.models().len() ==> spec_distinct_keys(
                    (#[trigger] self.models()[i]).1,
                ) && spec_positive_counts(self.models()[i].1) && spec_total(self.models()[i].1)
                    <= usize::MAX,
    {
        assert forall|i: int|
            0 <= i < self.models().len() implies spec_distinct_keys(
            (#[trigger] self.models()[i]).1,
        ) && spec_positive_counts(self.models()[i].1) && spec_total(self.models()[i].1)
            <= usize::MAX by {
            self.docs@[i].1.lemma_wf_facts();
            assert(self.models()[i].1 == self.docs@[i].1.model());
        }
    }

    pub fn new() -> (ix: Index)
        ensures
            ix.wf(),
            ix.models() == Seq::<(Seq<char>, Seq<(Seq<char>, nat)>)>::empty(),
    {
        let ix = Index { docs: Vec::new() };
        proof {
            assert(ix.models() =~= Seq::<(Seq<char>, Seq<(Seq<char>, nat)>)>::empty());
        }
        ix
    }

    /// Adds a document under a fresh identifier.
    pub fn insert(&mut self, doc_id: String, model: TermFreq)
        requires
            old(self).wf(),
            model.wf(),
            forall|i: int| 0 <= i < old(self).models().len() ==> old(self).models()[i].0 != doc_id@,
        ensures
            final(self).wf(),
            final(self).models() == old(self).models().push((doc_id@, model.model())),
    {
        let ghost m0 = self.models();
        self.docs.push((doc_id, model));
        proof {
            assert(self.models() =~= m0.push((doc_id@, model.model())));
            assert forall|i: int| 0 <= i < self.docs@.len() implies (
            #[trigger] self.docs@[i].1).wf() by {
                if i < self.docs@.len() - 1 {
                    assert(self.docs@[i] == old(self).docs@[i]);
                }
            }
        }
    }

    /// The number of documents in the index.
    pub fn doc_count(&self) -> (n: usize)
        ensures
            n == self.models().len(),
    {
        self.docs.len()
    }

    /// The `(identifier, model)` pairs of the index, in insertion order.
    pub fn docs(&self) -> (d: &Vec<(String, TermFreq)>)
        ensures
            d@.map_values(|p: (String, TermFreq)| (p.0@, p.1.model())) == self.models(),
            forall|i: int| 0 <= i < d@.len() ==> self.wf() ==> (#[trigger] d@[i].1).wf(),
    {
        &self.docs
    }

    /// Rebuilds an index from raw documents, as a deserializer must.
    /// Succeeds exactly when the identifiers are pairwise distinct.
    pub fn from_docs(docs: Vec<(String, TermFreq)>) -> (r: Option<Index>)
        requires
            forall|i: int| 0 <= i < docs@.len() ==> (#[trigger] docs@[i].1).wf(),
        ensures
            (match r {
                Some(ix) => {
                    &&& ix.wf()
                    &&& ix.models() == docs@.map_values(
                        |p: (String, TermFreq)| (p.0@, p.1.model()),
                    )
                },
                None => !spec_distinct_ids(
                    docs@.map_values(|p: (String, TermFreq)| (p.0@, p.1.model())),
                ),
            }),
    {
        let ghost model = docs@.map_values(|p: (String, TermFreq)| (p.0@, p.1.model()));
        let n = docs.len();
        let mut i: usize = 0;
        while i < n
            invariant
                n == docs@.len(),
                i <= n,
                model == docs@.map_values(|p: (String, TermFreq)| (p.0@, p.1.model())),
                forall|a: int, b: int| 0 <= a < i && a < b < n ==> model[a].0 != model[b].0,
            decreases n - i,
        {
            let mut j: usize = i + 1;
            while j < n
                invariant
                    n == docs@.len(),
                    i < n,
                    i + 1 <= j <= n,
                    model == docs@.map_values(|p: (String, TermFreq)| (p.0@, p.1.model())),
                    forall|b: int| i < b < j ==> model[i as int].0 != model[b].0,
                decreases n - j,
            {
                if crate::model::string_eq(&docs[i].0, &docs[j].0) {
                    proof {
                        assert(model[i as int].0 == model[j as int].0);
                    }
                    return None;
                }
                j = j + 1;
            }
            i = i + 1;
        }
        Some(Index { docs })
    }
}

/// Builds an index over a document collection: each document's text is
/// tokenized and counted independently, and the result is recorded
/// under that document's identifier. A source whose text could not be
/// read (`None`) aborts the whole pass with a `DocumentReadError`
/// naming the first such identifier.
pub fn build_index(sources: &Vec<(String, Option<String>)>) -> (r: Result<Index, DocumentReadError>)
    requires
        forall|i: int, j: int|
            0 <= i < j < sources@.len() ==> sources@[i].0@ != sources@[j].0@,
    ensures
        (match r {
            Ok(ix) => {
                &&& ix.wf()
                &&& ix.models().len() == sources@.len()
                &&& forall|k: int|
                    0 <= k < sources@.len() ==> ((#[trigger] sources@[k].1) matches Some(text)
                        && ix.models()[k] == (
                        sources@[k].0@,
                        spec_model_of(spec_tokenize(text@)),
                    ))
            },
            Err(e) => exists|k: int|
                0 <= k < sources@.len() && (#[trigger] sources@[k].1) is None && e.doc_id@
                    == sources@[k].0@ && (forall|j: int| 0 <= j < k ==> sources@[j].1 is Some),
        }),
{
    let mut ix = Index::new();
    let n = sources.len();
    let mut i: usize = 0;
    while i < n
        invariant
            n == sources@.len(),
            i <= n,
            ix.wf(),
            ix.models().len() == i,
            forall|a: int, b: int| 0 <= a < b < n ==> sources@[a].0@ != sources@[b].0@,
            forall|k: int|
                0 <= k < i ==> ((#[trigger] sources@[k].1) matches Some(text) && ix.models()[k]
                    == (sources@[k].0@, spec_model_of(spec_tokenize(text@)))),
        decreases n - i,
    {
        let doc_id = clone_string(&sources[i].0);
        match &sources[i].1 {
            None => {
                return Err(DocumentReadError { doc_id });
            },
            Some(text) => {
                let content = chars_of(text.as_str());
                let tokens = tokenize(content.as_slice());
                let model = TermFreq::from_tokens(&tokens);
                proof {
                    assert forall|k: int| 0 <= k < ix.models().len() implies (
                    #[trigger] ix.models()[k]).0 != doc_id@ by {
                        assert(sources@[k].1 is Some);
                        assert(ix.models()[k].0 == sources@[k].0@);
                        assert(sources@[k].0@ != sources@[i as int].0@);
                    }
                }
                ix.insert(doc_id, model);
            },
        }
        i = i + 1;
    }
    Ok(ix)
}

} // verus!

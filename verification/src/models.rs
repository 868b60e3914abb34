//! The embedding models that texts can be embedded with.

use vstd::prelude::*;

use crate::error::PrimdError;
use crate::text::{decimal, decimal_text, joined};

verus! {

/// A model that runs in process.
#[derive(Debug, Clone, Copy, PartialEq, Eq, Structural)]
pub enum LocalModel {
    AllMiniLM,
    BgeSmallEn,
    BgeBaseEn,
}

impl LocalModel {
    /// Number of components of an embedding.
    pub fn dim(self) -> (n: usize)
        ensures
            n == match self {
                LocalModel::AllMiniLM => 384usize,
                LocalModel::BgeSmallEn => 384,
                LocalModel::BgeBaseEn => 768,
            },
    {
        match self {
            LocalModel::AllMiniLM => 384,
            LocalModel::BgeSmallEn => 384,
            LocalModel::BgeBaseEn => 768,
        }
    }

    pub fn name(self) -> (name: &'static str)
        ensures
            name@ == match self {
                LocalModel::AllMiniLM => "all-MiniLM-L6-v2"@,
                LocalModel::BgeSmallEn => "bge-small-en-v1.5"@,
                LocalModel::BgeBaseEn => "bge-base-en-v1.5"@,
            },
    {
        match self {
            LocalModel::AllMiniLM => "all-MiniLM-L6-v2",
            LocalModel::BgeSmallEn => "bge-small-en-v1.5",
            LocalModel::BgeBaseEn => "bge-base-en-v1.5",
        }
    }
}

/// The local models as they are named on the command line.
#[derive(Debug, Clone, Copy, PartialEq, Eq, Structural)]
pub enum LocalModelKind {
    AllMinilm,
    BgeSmallEn,
    BgeBaseEn,
}

impl LocalModelKind {
    pub fn into_local(self) -> (m: LocalModel)
        ensures
            m == match self {
                LocalModelKind::AllMinilm => LocalModel::AllMiniLM,
                LocalModelKind::BgeSmallEn => LocalModel::BgeSmallEn,
                LocalModelKind::BgeBaseEn => LocalModel::BgeBaseEn,
            },
    {
        match self {
            LocalModelKind::AllMinilm => LocalModel::AllMiniLM,
            LocalModelKind::BgeSmallEn => LocalModel::BgeSmallEn,
            LocalModelKind::BgeBaseEn => LocalModel::BgeBaseEn,
        }
    }
}

/// The ways to embed a text.
#[derive(Debug, Clone, Copy, PartialEq, Eq, Structural)]
pub enum EmbedderKind {
    Hashed,
    Openai,
    Local,
}

/// The settings of an embedder behind the OpenAI API, and what it makes of a
/// response.
#[derive(Clone, Debug)]
pub struct OpenAIEmbedder {
    api_key: String,
    model: String,
    dim: usize,
    base_url: String,
}

/// One embedding of a response, with the place of its input.
pub struct EmbeddingDatum<T> {
    pub index: usize,
    pub embedding: Vec<T>,
}

/// The data with `d` behind everything of no greater index.
pub open spec fn with_datum<T>(
    s: Seq<EmbeddingDatum<T>>,
    d: EmbeddingDatum<T>,
) -> Seq<EmbeddingDatum<T>>
    decreases s.len(),
{
    if s.len() > 0 && s.last().index > d.index {
        with_datum(s.drop_last(), d).push(s.last())
    } else {
        s.push(d)
    }
}

/// The data by ascending index, data of one index in the order in which they
/// came.
pub open spec fn by_index<T>(s: Seq<EmbeddingDatum<T>>) -> Seq<EmbeddingDatum<T>>
    decreases s.len(),
{
    if s.len() == 0 {
        Seq::empty()
    } else {
        with_datum(by_index(s.drop_last()), s.last())
    }
}

/// The indices ascend.
pub open spec fn indices_ascend<T>(s: Seq<EmbeddingDatum<T>>) -> bool {
    forall|i: int, j: int|
        0 <= i < j < s.len() ==> (#[trigger] s[i]).index <= (#[trigger] s[j]).index
}

proof fn lemma_with_datum<T>(s: Seq<EmbeddingDatum<T>>, d: EmbeddingDatum<T>)
    requires
        indices_ascend(s),
    ensures
        indices_ascend(with_datum(s, d)),
        with_datum(s, d).len() == s.len() + 1,
        with_datum(s, d).to_multiset() == s.to_multiset().insert(d),
        forall|i: int|
            0 <= i < with_datum(s, d).len() ==> (#[trigger] with_datum(s, d)[i]) == d
                || s.contains(with_datum(s, d)[i]),
    decreases s.len(),
{
    let r = with_datum(s, d);
    s.to_multiset_ensures();
    if s.len() > 0 && s.last().index > d.index {
        let init = s.drop_last();
        let rest = with_datum(init, d);
        lemma_with_datum(init, d);
        rest.to_multiset_ensures();
        init.to_multiset_ensures();
        assert(s =~= init.push(s.last()));
        assert(r.to_multiset() =~= s.to_multiset().insert(d));
        assert forall|i: int| 0 <= i < r.len() implies (#[trigger] r[i]) == d || s.contains(
            r[i],
        ) by {
            if i < rest.len() {
                assert(r[i] == rest[i]);
                if rest[i] != d {
                    let k = choose|k: int| 0 <= k < init.len() && init[k] == rest[i];
                    assert(s[k] == r[i]);
                }
            } else {
                assert(s[s.len() - 1] == r[i]);
            }
        }
        assert forall|i: int, j: int| 0 <= i < j < r.len() implies (#[trigger] r[i]).index <= (
        #[trigger] r[j]).index by {
            assert(r[i] == rest[i]);
            if j < rest.len() {
                assert(r[j] == rest[j]);
            } else if rest[i] != d {
                let k = choose|k: int| 0 <= k < init.len() && init[k] == rest[i];
                assert(s[k] == r[i]);
            }
        }
    } else {
        assert forall|i: int| 0 <= i < r.len() implies (#[trigger] r[i]) == d || s.contains(
            r[i],
        ) by {
            if i < s.len() {
                assert(s[i] == r[i]);
            }
        }
        assert forall|i: int, j: int| 0 <= i < j < r.len() implies (#[trigger] r[i]).index <= (
        #[trigger] r[j]).index by {
            assert(r[i] == s[i]);
            if j < s.len() {
                assert(r[j] == s[j]);
            } else if i < s.len() - 1 {
                assert(s[i].index <= s[s.len() - 1].index);
            }
        }
    }
}

/// Ordering by index keeps the data and puts the indices in ascending order.
pub proof fn lemma_by_index<T>(s: Seq<EmbeddingDatum<T>>)
    ensures
        indices_ascend(by_index(s)),
        by_index(s).len() == s.len(),
        by_index(s).to_multiset() == s.to_multiset(),
    decreases s.len(),
{
    if s.len() == 0 {
        assert(s =~= Seq::empty());
    } else {
        lemma_by_index(s.drop_last());
        lemma_with_datum(by_index(s.drop_last()), s.last());
        s.drop_last().to_multiset_ensures();
        assert(s =~= s.drop_last().push(s.last()));
    }
}

/// The message for a response of the wrong length.
pub open spec fn wrong_count_text(got: nat, inputs: nat) -> Seq<char> {
    "OpenAI returned "@ + decimal_text(got) + " embeddings for "@ + decimal_text(inputs)
        + " inputs"@
}

/// The first datum whose embedding is not of the wanted dimension.
pub open spec fn first_of_wrong_dim<T>(
    s: Seq<EmbeddingDatum<T>>,
    dim: nat,
    i: int,
) -> bool {
    &&& 0 <= i < s.len()
    &&& s[i].embedding@.len() != dim
    &&& forall|j: int| 0 <= j < i ==> (#[trigger] s[j]).embedding@.len() == dim
}

impl OpenAIEmbedder {
    pub closed spec fn spec_key(&self) -> Seq<char> {
        self.api_key@
    }

    pub closed spec fn spec_model(&self) -> Seq<char> {
        self.model@
    }

    pub closed spec fn spec_dim(&self) -> nat {
        self.dim as nat
    }

    pub closed spec fn spec_base_url(&self) -> Seq<char> {
        self.base_url@
    }

    /// The default model with 256 dimensions at the public address.
    pub fn with_api_key(api_key: &str) -> (e: Self)
        ensures
            e.spec_key() == api_key@,
            e.spec_model() == "text-embedding-3-small"@,
            e.spec_dim() == 256,
            e.spec_base_url() == "https://api.openai.com/v1"@,
    {
        OpenAIEmbedder {
            api_key: api_key.to_owned(),
            model: "text-embedding-3-small".to_owned(),
            dim: 256,
            base_url: "https://api.openai.com/v1".to_owned(),
        }
    }

    pub fn with_model(self, model: &str) -> (e: Self)
        ensures
            e.spec_model() == model@,
            e.spec_key() == self.spec_key(),
            e.spec_dim() == self.spec_dim(),
            e.spec_base_url() == self.spec_base_url(),
    {
        OpenAIEmbedder { model: model.to_owned(), ..self }
    }

    pub fn with_dim(self, dim: usize) -> (e: Self)
        ensures
            e.spec_dim() == dim,
            e.spec_key() == self.spec_key(),
            e.spec_model() == self.spec_model(),
            e.spec_base_url() == self.spec_base_url(),
    {
        OpenAIEmbedder { dim, ..self }
    }

    pub fn with_base_url(self, url: &str) -> (e: Self)
        ensures
            e.spec_base_url() == url@,
            e.spec_key() == self.spec_key(),
            e.spec_model() == self.spec_model(),
            e.spec_dim() == self.spec_dim(),
    {
        OpenAIEmbedder { base_url: url.to_owned(), ..self }
    }

    pub fn model(&self) -> (model: &str)
        ensures
            model@ == self.spec_model(),
    {
        self.model.as_str()
    }

    pub fn dim(&self) -> (n: usize)
        ensures
            n == self.spec_dim(),
    {
        self.dim
    }

    pub fn base_url(&self) -> (url: &str)
        ensures
            url@ == self.spec_base_url(),
    {
        self.base_url.as_str()
    }

    /// Where a request goes.
    pub fn endpoint(&self) -> (url: String)
        ensures
            url@ == self.spec_base_url() + "/embeddings"@,
    {
        joined(self.base_url.as_str(), "/embeddings")
    }

    /// The authorization of a request.
    pub fn authorization(&self) -> (header: String)
        ensures
            header@ == "Bearer "@ + self.spec_key(),
    {
        joined("Bearer ", self.api_key.as_str())
    }

    /// The embeddings of a response in the order of the inputs. There must be
    /// one for each input, and each must be of the wanted dimension.
    pub fn accept_response<T>(&self, data: Vec<EmbeddingDatum<T>>, inputs: usize) -> (r: Result<
        Vec<Vec<T>>,
        PrimdError,
    >)
        ensures
            ({
                let sorted = by_index(data@);
                let right = forall|i: int|
                    0 <= i < sorted.len() ==> (#[trigger] sorted[i]).embedding@.len()
                        == self.spec_dim();
                match r {
                    Ok(embeddings) => {
                        &&& data@.len() == inputs
                        &&& right
                        &&& embeddings@.len() == inputs
                        &&& forall|i: int|
                            0 <= i < inputs ==> (#[trigger] embeddings@[i]) == sorted[i].embedding
                    },
                    Err(PrimdError::Embedder(why)) => {
                        &&& data@.len() != inputs
                        &&& why@ == wrong_count_text(data@.len(), inputs as nat)
                    },
                    Err(e) => {
                        &&& data@.len() == inputs
                        &&& exists|i: int|
                            #[trigger] first_of_wrong_dim(sorted, self.spec_dim(), i) && e == (
                            PrimdError::InvalidDimension {
                                expected: self.spec_dim() as usize,
                                got: sorted[i].embedding@.len() as usize,
                            })
                    },
                }
            }),
    {
        let ghost all = data@;
        let ghost sorted = by_index(all);
        proof {
            lemma_by_index(all);
        }
        let count: usize = data.len();
        if count != inputs {
            let mut why = joined("OpenAI returned ", decimal(count as u64).as_str());
            why.append(" embeddings for ");
            why.append(decimal(inputs as u64).as_str());
            why.append(" inputs");
            return Err(PrimdError::Embedder(why));
        }
        let ordered = order_by_index(data);
        if let Some(i) = find_wrong_dim(&ordered, self.dim) {
            let got: usize = ordered[i].embedding.len();
            assert(first_of_wrong_dim(sorted, self.spec_dim(), i as int));
            return Err(PrimdError::InvalidDimension { expected: self.dim, got });
        }
        let mut embeddings: Vec<Vec<T>> = Vec::new();
        for d in it: ordered
            invariant
                it.seq() == sorted,
                embeddings@.len() == it.index(),
                forall|j: int|
                    0 <= j < it.index() ==> (#[trigger] embeddings@[j]) == sorted[j].embedding,
        {
            embeddings.push(d.embedding);
        }
        Ok(embeddings)
    }
}

/// The place of the first embedding that is not of the wanted dimension.
fn find_wrong_dim<T>(data: &Vec<EmbeddingDatum<T>>, dim: usize) -> (place: Option<usize>)
    ensures
        match place {
            Some(i) => first_of_wrong_dim(data@, dim as nat, i as int),
            None => forall|i: int|
                0 <= i < data@.len() ==> (#[trigger] data@[i]).embedding@.len() == dim,
        },
{
    let mut i: usize = 0;
    while i < data.len()
        invariant
            i <= data@.len(),
            forall|j: int| 0 <= j < i ==> (#[trigger] data@[j]).embedding@.len() == dim,
        decreases data@.len() - i,
    {
        if data[i].embedding.len() != dim {
            return Some(i);
        }
        i = i + 1;
    }
    None
}

/// Put the data in the order of their indices.
fn order_by_index<T>(data: Vec<EmbeddingDatum<T>>) -> (ordered: Vec<EmbeddingDatum<T>>)
    ensures
        ordered@ == by_index(data@),
{
    let ghost all = data@;
    let mut ordered: Vec<EmbeddingDatum<T>> = Vec::new();
    assert(all.take(0) =~= Seq::empty());
    for d in it: data
        invariant
            it.seq() == all,
            ordered@ == by_index(all.take(it.index())),
    {
        let ghost before = ordered@;
        let mut j: usize = ordered.len();
        proof {
            let i = it.index();
            assert(all.take(i + 1).drop_last() =~= all.take(i));
            assert(before.take(before.len() as int) =~= before);
            assert(with_datum(before, d) =~= with_datum(before, d) + before.skip(
                before.len() as int,
            ));
        }
        while j > 0 && ordered[j - 1].index > d.index
            invariant
                j <= before.len(),
                ordered@ == before,
                with_datum(before, d) == with_datum(before.take(j as int), d) + before.skip(
                    j as int,
                ),
            decreases j,
        {
            proof {
                let (head, tail) = (before.take(j as int), before.skip(j as int));
                assert(head.drop_last() =~= before.take(j - 1));
                assert(with_datum(before.take(j - 1), d).push(before[j - 1]) + tail =~= with_datum(
                    before.take(j - 1),
                    d,
                ) + before.skip(j - 1));
            }
            j = j - 1;
        }
        let ghost added = d;
        ordered.insert(j, d);
        assert(ordered@ =~= with_datum(before, added));
    }
    assert(all.take(all.len() as int) =~= all);
    ordered
}

spec fn of_index<T>(s: Seq<EmbeddingDatum<T>>, index: usize) -> Seq<EmbeddingDatum<T>> {
    s.filter(|d: EmbeddingDatum<T>| d.index == index)
}

proof fn lemma_of_index_pushed<T>(
    s: Seq<EmbeddingDatum<T>>,
    d: EmbeddingDatum<T>,
    index: usize,
)
    ensures
        of_index(s.push(d), index) == if d.index == index {
            of_index(s, index).push(d)
        } else {
            of_index(s, index)
        },
{
    reveal(Seq::filter);
    assert(s.push(d).drop_last() =~= s);
}

proof fn lemma_index_kept<T>(s: Seq<EmbeddingDatum<T>>, d: EmbeddingDatum<T>, index: usize)
    ensures
        of_index(with_datum(s, d), index) == if d.index == index {
            of_index(s, index).push(d)
        } else {
            of_index(s, index)
        },
    decreases s.len(),
{
    if s.len() > 0 && s.last().index > d.index {
        let init = s.drop_last();
        lemma_index_kept(init, d, index);
        lemma_of_index_pushed(with_datum(init, d), s.last(), index);
        lemma_of_index_pushed(init, s.last(), index);
        assert(init.push(s.last()) =~= s);
    } else {
        lemma_of_index_pushed(s, d, index);
    }
}

proof fn lemma_each_index_kept<T>(s: Seq<EmbeddingDatum<T>>, index: usize)
    ensures
        of_index(by_index(s), index) == of_index(s, index),
    decreases s.len(),
{
    if s.len() > 0 {
        lemma_each_index_kept(s.drop_last(), index);
        lemma_index_kept(by_index(s.drop_last()), s.last(), index);
        lemma_of_index_pushed(s.drop_last(), s.last(), index);
        assert(s.drop_last().push(s.last()) =~= s);
    } else {
        assert(by_index(s) =~= s);
    }
}

/// The data of one index keep their order, and the indices ascend: that fixes the whole
/// order.
pub proof fn lemma_order_by_index<T>(s: Seq<EmbeddingDatum<T>>, index: usize)
    ensures
        by_index(s).filter(|d: EmbeddingDatum<T>| d.index == index) == s.filter(
            |d: EmbeddingDatum<T>| d.index == index,
        ),
        forall|i: int, j: int|
            0 <= i < j < by_index(s).len() ==> (#[trigger] by_index(s)[i]).index <= (
            #[trigger] by_index(s)[j]).index,
{
    lemma_by_index(s);
    assert(of_index(by_index(s), index) == of_index(s, index)) by {
        lemma_each_index_kept(s, index);
    }
}

/// The message for a response of the wrong length tells both lengths.
pub proof fn lemma_wrong_count_text(got: nat, inputs: nat)
    ensures
        wrong_count_text(got, inputs) == seq![
            "OpenAI returned "@,
            decimal_text(got),
            " embeddings for "@,
            decimal_text(inputs),
            " inputs"@,
        ].flatten(),
{
    let head = "OpenAI returned "@;
    let middle = " embeddings for "@;
    let end = " inputs"@;
    let parts = seq![head, decimal_text(got), middle, decimal_text(inputs), end];
    let four = seq![head, decimal_text(got), middle, decimal_text(inputs)];
    let three = seq![head, decimal_text(got), middle];
    let two = seq![head, decimal_text(got)];
    let one = seq![head];
    assert(parts =~= four.push(end));
    assert(four =~= three.push(decimal_text(inputs)));
    assert(three =~= two.push(middle));
    assert(two =~= one.push(decimal_text(got)));
    assert(one =~= Seq::<Seq<char>>::empty().push(head));
    four.lemma_flatten_push(end);
    three.lemma_flatten_push(decimal_text(inputs));
    two.lemma_flatten_push(middle);
    one.lemma_flatten_push(decimal_text(got));
    Seq::<Seq<char>>::empty().lemma_flatten_push(head);
    assert(Seq::<Seq<char>>::empty().flatten() =~= Seq::<char>::empty());
    assert(Seq::<char>::empty() + head =~= head);
}

} // verus!

//! Embeddings: the fixed-point vectors the provider returns for one
//! document node or query, and their exact cosine similarity.

use vstd::prelude::*;

use crate::errors::IndexError;
use crate::similarity::{
    admissible, dot, dot_product, ints, lemma_cauchy_schwarz, lemma_dot_self_nonneg,
    SimilarityValue, COMPONENT_LIMIT, DIMENSION_LIMIT, NORM_PRODUCT_LIMIT,
};

verus! {

/// The view of an embedding.
#[verifier::ext_equal]
pub struct EmbeddingView {
    pub data: Seq<Seq<int>>,
    pub tokens_used: nat,
    pub document_id: Seq<char>,
    pub document_node_id: Seq<char>,
}

impl EmbeddingView {
    /// The flattened vector: the stored vectors concatenated in order.
    pub open spec fn flat(self) -> Seq<int> {
        self.data.flatten()
    }

    /// The flattened vector is within the index's fixed-point bounds.
    pub open spec fn wf(self) -> bool {
        admissible(self.flat())
    }
}

/// The embedding of one document node (or of a query): one or more
/// fixed-point vectors plus the token usage the provider reported.
#[derive(Debug)]
pub struct Embedding {
    pub data: Vec<Vec<i64>>,
    pub tokens_used: u64,
    pub document_id: String,
    pub document_node_id: String,
}

impl View for Embedding {
    type V = EmbeddingView;

    open spec fn view(&self) -> EmbeddingView {
        EmbeddingView {
            data: self.data@.map_values(|v: Vec<i64>| ints(v@)),
            tokens_used: self.tokens_used as nat,
            document_id: self.document_id@,
            document_node_id: self.document_node_id@,
        }
    }
}

/// Mapping components to mathematical integers commutes with
/// flattening.
proof fn lemma_ints_flatten(ds: Seq<Seq<i64>>)
    ensures
        ints(ds.flatten()) == ds.map_values(|s: Seq<i64>| ints(s)).flatten(),
    decreases ds.len(),
{
    let mapped = ds.map_values(|s: Seq<i64>| ints(s));
    if ds.len() == 0 {
        assert(ints(ds.flatten()) =~= mapped.flatten());
    } else {
        lemma_ints_flatten(ds.drop_first());
        assert(mapped.drop_first() =~= ds.drop_first().map_values(|s: Seq<i64>| ints(s)));
        assert(ds.flatten() == ds.first() + ds.drop_first().flatten());
        assert(ints(ds.first() + ds.drop_first().flatten()) =~= ints(ds.first()) + ints(
            ds.drop_first().flatten()));
        assert(mapped.first() == ints(ds.first()));
        assert(mapped.flatten() == mapped.first() + mapped.drop_first().flatten());
    }
}

/// Relies on itertools::concat: it extends the first inner vector with
/// each of the following ones, yielding the in-order concatenation.
#[verifier::external_body]
fn concat_vectors(data: &Vec<Vec<i64>>) -> (r: Vec<i64>)
    ensures
        r@ == data@.map_values(|v: Vec<i64>| v@).flatten(),
{
    itertools::concat(data.clone())
}

/// The views of a vector of component vectors.
proof fn lemma_view_map_flatten(data: &Vec<Vec<i64>>, r: &Vec<i64>)
    requires
        r@ == data@.map_values(|v: Vec<i64>| v@).flatten(),
    ensures
        ints(r@) == data@.map_values(|v: Vec<i64>| ints(v@)).flatten(),
{
    lemma_ints_flatten(data@.map_values(|v: Vec<i64>| v@));
    assert(data@.map_values(|v: Vec<i64>| v@).map_values(|s: Seq<i64>| ints(s)) =~= data@
        .map_values(|v: Vec<i64>| ints(v@)));
}

impl Embedding {
    /// Assembles the embedding of one document node from the vectors
    /// and token usage the provider returned for its text.
    pub fn from_parts(
        document_id: String,
        document_node_id: String,
        data: Vec<Vec<i64>>,
        tokens_used: u64,
    ) -> (r: Embedding)
        ensures
            r@ == (EmbeddingView {
                data: data@.map_values(|v: Vec<i64>| ints(v@)),
                tokens_used: tokens_used as nat,
                document_id: document_id@,
                document_node_id: document_node_id@,
            }),
    {
        Embedding { data, tokens_used, document_id, document_node_id }
    }

    /// The flattened fixed-point vector of this embedding.
    pub fn flat_components(&self) -> (r: Vec<i64>)
        ensures
            ints(r@) == self@.flat(),
    {
        let r = concat_vectors(&self.data);
        proof {
            lemma_view_map_flatten(&self.data, &r);
        }
        r
    }

    /// Whether this embedding is within the index's fixed-point bounds
    /// (flattened length and component magnitude).
    pub fn is_admissible(&self) -> (r: bool)
        ensures
            r == self@.wf(),
    {
        let f = self.flat_components();
        if f.len() > DIMENSION_LIMIT {
            proof {
                assert(!admissible(self@.flat()));
            }
            return false;
        }
        let mut i: usize = 0;
        while i < f.len()
            invariant
                0 <= i <= f@.len(),
                ints(f@) == self@.flat(),
                f@.len() <= DIMENSION_LIMIT,
                forall|j: int|
                    0 <= j < i ==> -(COMPONENT_LIMIT as int) <= (#[trigger] ints(f@)[j])
                        <= COMPONENT_LIMIT as int,
            decreases f@.len() - i,
        {
            let c = f[i];
            if c < -COMPONENT_LIMIT || c > COMPONENT_LIMIT {
                proof {
                    assert(ints(f@)[i as int] == f@[i as int] as int);
                    assert(!admissible(self@.flat()));
                }
                return false;
            }
            proof {
                assert(ints(f@)[i as int] == f@[i as int] as int);
            }
            i = i + 1;
        }
        proof {
            assert(admissible(self@.flat()));
        }
        true
    }

    /// The exact cosine similarity of two embeddings over their
    /// flattened vectors: an error if the flattened lengths differ or
    /// if either vector has zero magnitude, the exact value otherwise.
    pub fn cosine_similarity(&self, other: &Embedding) -> (r: Result<
        SimilarityValue,
        IndexError,
    >)
        requires
            self@.wf(),
            other@.wf(),
        ensures
            ({
                let a = self@.flat();
                let b = other@.flat();
                match r {
                    Ok(s) => a.len() == b.len() && dot(a, a) != 0 && dot(b, b) != 0 && s.dot
                        as int == dot(a, b) && s.norm_sq_product as int == dot(a, a) * dot(b, b)
                        && s.wf(),
                    Err(e) => (e == IndexError::DimensionMismatch && a.len() != b.len()) || (e
                        == IndexError::ZeroMagnitude && a.len() == b.len() && (dot(a, a) == 0
                        || dot(b, b) == 0)),
                }
            }),
    {
        let fa = self.flat_components();
        let fb = other.flat_components();
        if fa.len() != fb.len() {
            return Err(IndexError::DimensionMismatch);
        }
        let d = dot_product(&fa, &fb);
        let na = dot_product(&fa, &fa);
        let nb = dot_product(&fb, &fb);
        if na == 0 || nb == 0 {
            return Err(IndexError::ZeroMagnitude);
        }
        proof {
            lemma_dot_self_nonneg(ints(fa@));
            lemma_dot_self_nonneg(ints(fb@));
            lemma_cauchy_schwarz(ints(fa@), ints(fb@));
            assert(0x8000_0000int == (DIMENSION_LIMIT as int) * (COMPONENT_LIMIT as int) * (
            COMPONENT_LIMIT as int)) by (nonlinear_arith)
                requires
                    DIMENSION_LIMIT == 2048,
                    COMPONENT_LIMIT == 1024,
            ;
            assert(0 < (na as int) * (nb as int) <= NORM_PRODUCT_LIMIT as int)
                by (nonlinear_arith)
                requires
                    0 < na as int <= 0x8000_0000,
                    0 < nb as int <= 0x8000_0000,
                    NORM_PRODUCT_LIMIT == 0x4000_0000_0000_0000,
            ;
        }
        let np = na * nb;
        Ok(SimilarityValue { dot: d, norm_sq_product: np })
    }
}

/// The provider's reply for one embedding request, as plain values: the
/// fixed-point vectors and the token usage it reported.
#[derive(Debug)]
pub struct EmbeddingData {
    pub vectors: Vec<Vec<i64>>,
    pub tokens_used: u64,
}

/// The request sent to the embedding provider for one text.
#[derive(Debug)]
pub struct GPTEmbeddingRequest {
    pub model: String,
    pub input: String,
}

impl GPTEmbeddingRequest {
    /// The request for one chunk or query text: the fixed provider
    /// model name together with the input text.
    pub fn new(input: String) -> (r: Self)
        ensures
            r.model@ == "text-embedding-ada-002"@,
            r.input@ == input@,
    {
        GPTEmbeddingRequest { model: String::from_str("text-embedding-ada-002"), input }
    }
}

/// What embedding a document yields: one embedding for an unchunked
/// document, or one per chunk node.
pub enum EmbeddingResult {
    Single(Embedding),
    Multiple(Vec<Embedding>),
}

} // verus!

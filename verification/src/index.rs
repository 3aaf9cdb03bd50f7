//! The vector index: owns the chunked documents and their embeddings,
//! commits a build all-or-nothing, and answers similarity searches.

use vstd::prelude::*;

use crate::document::{
    chunk_nodes, join_all_words, join_words, split_words, words, DocView, Document,
    DocumentNode, NodeView,
};
use crate::embedding::{Embedding, EmbeddingData, EmbeddingView};
use crate::errors::IndexError;
use crate::ranking::{
    all_wf, bounded_indices, filter_threshold, keep_meeting, lemma_floor_threshold_keeps_all,
    lemma_high_threshold_keeps_nothing, lemma_keep_meeting, lemma_keep_meeting_complete,
    lemma_sort_desc, sort_desc, sort_scored, sorted_desc, Scored,
};
use crate::similarity::{
    admissible, dot, ints, lemma_cauchy_schwarz, lemma_dot_bound, lemma_dot_self_nonneg,
    spec_meets_threshold, spec_similarity_ge, SimilarityValue, COMPONENT_LIMIT, DIMENSION_LIMIT,
    NORM_PRODUCT_LIMIT, SCALE, THRESHOLD_LIMIT,
};
use crate::text::str_eq;

verus! {

/// Build-time configuration: chunk granularity and telemetry.
#[derive(Clone, Copy, Debug, PartialEq, Eq, Structural)]
pub struct IndexConfig {
    pub document_chunk_size: Option<usize>,
    pub verbose: bool,
}

impl IndexConfig {
    /// A chunk size, if given, is positive.
    pub open spec fn wf(self) -> bool {
        match self.document_chunk_size {
            Some(n) => n >= 1,
            None => true,
        }
    }
}

impl Default for IndexConfig {
    /// No chunk size (whole document as one chunk), quiet.
    fn default() -> (r: Self)
        ensures
            r.document_chunk_size is None,
            !r.verbose,
    {
        Self { document_chunk_size: None, verbose: false }
    }
}

/// The view of a vector index.
#[verifier::ext_equal]
pub struct IndexView {
    pub documents: Seq<DocView>,
    pub embeddings: Option<Seq<EmbeddingView>>,
    pub config: IndexConfig,
}

/// A flat, linearly scanned store of documents and their chunk
/// embeddings.
#[derive(Debug)]
pub struct VectorIndex {
    pub documents: Vec<Document>,
    pub embeddings: Option<Vec<Embedding>>,
    pub config: IndexConfig,
}

impl View for VectorIndex {
    type V = IndexView;

    open spec fn view(&self) -> IndexView {
        IndexView {
            documents: self.documents@.map_values(|d: Document| d@),
            embeddings: match self.embeddings {
                Some(es) => Some(es@.map_values(|e: Embedding| e@)),
                None => None,
            },
            config: self.config,
        }
    }
}

impl IndexView {
    /// Every stored embedding is within the fixed-point bounds the
    /// similarity arithmetic accepts.
    pub open spec fn embeddings_wf(self) -> bool {
        match self.embeddings {
            Some(es) => forall|i: int| 0 <= i < es.len() ==> (#[trigger] es[i]).wf(),
            None => true,
        }
    }
}

/// The nodes a build embeds for a document (its chunk nodes, or one
/// implicit whole-text node with id `"0"`), as document-level views.
pub open spec fn doc_units(d: DocView) -> Seq<NodeView> {
    crate::document::spec_embeddable_nodes(d)
}

/// The document id of every build unit, in document-then-node order.
pub open spec fn unit_doc_ids(docs: Seq<DocView>) -> Seq<Seq<char>>
    decreases docs.len(),
{
    if docs.len() == 0 {
        Seq::empty()
    } else {
        unit_doc_ids(docs.drop_last()) + doc_units(docs.last()).map_values(
            |n: NodeView| docs.last().id,
        )
    }
}

/// The node id of every build unit, in document-then-node order.
pub open spec fn unit_node_ids(docs: Seq<DocView>) -> Seq<Seq<char>>
    decreases docs.len(),
{
    if docs.len() == 0 {
        Seq::empty()
    } else {
        unit_node_ids(docs.drop_last()) + doc_units(docs.last()).map_values(
            |n: NodeView| n.id,
        )
    }
}

/// The text of every build unit, in document-then-node order.
pub open spec fn unit_texts(docs: Seq<DocView>) -> Seq<Seq<char>>
    decreases docs.len(),
{
    if docs.len() == 0 {
        Seq::empty()
    } else {
        unit_texts(docs.drop_last()) + doc_units(docs.last()).map_values(
            |n: NodeView| n.text,
        )
    }
}

/// The view of the provider data for one unit.
pub open spec fn data_view(d: EmbeddingData) -> Seq<Seq<int>> {
    d.vectors@.map_values(|v: Vec<i64>| ints(v@))
}

/// Whether one provider reply is usable: a successful reply whose
/// flattened vector is within the index's fixed-point bounds.
pub open spec fn entry_usable(r: Result<EmbeddingData, IndexError>) -> bool {
    match r {
        Ok(d) => crate::similarity::admissible(data_view(d).flatten()),
        Err(_) => false,
    }
}

/// The first problem at or after position `j` in the provider replies:
/// a reply's own error, or a malformed (out-of-bounds) reply.
pub open spec fn scan_results(rs: Seq<Result<EmbeddingData, IndexError>>, j: int) -> Option<
    IndexError,
>
    decreases rs.len() - j
    when 0 <= j <= rs.len()
{
    if j >= rs.len() {
        None
    } else {
        match rs[j] {
            Err(e) => Some(e),
            Ok(d) => if !entry_usable(rs[j]) {
                Some(IndexError::MalformedResponse)
            } else {
                scan_results(rs, j + 1)
            },
        }
    }
}

/// The embedding set a successful build commits.
pub open spec fn built_embeddings(
    docs: Seq<DocView>,
    rs: Seq<Result<EmbeddingData, IndexError>>,
) -> Seq<EmbeddingView> {
    Seq::new(
        rs.len(),
        |j: int|
            EmbeddingView {
                data: data_view(rs[j]->Ok_0),
                tokens_used: rs[j]->Ok_0.tokens_used as nat,
                document_id: unit_doc_ids(docs)[j],
                document_node_id: unit_node_ids(docs)[j],
            },
    )
}

impl VectorIndex {
    /// Builds the document side of an index: every document is chunked
    /// to the configured size, or, when no size is configured, given one
    /// implicit whole-text node holding the single-space join of its
    /// words.  No embeddings are committed yet.
    pub fn new(documents: Vec<Document>, config: Option<IndexConfig>) -> (r: VectorIndex)
        requires
            match config {
                Some(c) => c.wf(),
                None => true,
            },
        ensures
            r@.embeddings is None,
            r@.config == match config {
                Some(c) => c,
                None => IndexConfig { document_chunk_size: None, verbose: false },
            },
            r@.config.wf(),
            r@.documents.len() == documents@.len(),
            forall|i: int|
                0 <= i < documents@.len() ==> (#[trigger] r@.documents[i]) == (DocView {
                    text: documents@[i]@.text,
                    id: documents@[i]@.id,
                    nodes: Some(
                        match r@.config.document_chunk_size {
                            Some(n) => chunk_nodes(documents@[i]@.text, n as int),
                            None => seq![
                                NodeView {
                                    text: join_words(words(documents@[i]@.text)),
                                    id: "0"@,
                                },
                            ],
                        },
                    ),
                }),
    {
        let cfg = match config {
            Some(c) => c,
            None => IndexConfig::default(),
        };
        let ghost orig = documents@;
        let mut rest = documents;
        let mut docs: Vec<Document> = Vec::new();
        while rest.len() > 0
            invariant
                cfg.wf(),
                docs@.len() + rest@.len() == orig.len(),
                rest@ == orig.skip(docs@.len() as int),
                forall|i: int|
                    0 <= i < docs@.len() ==> (#[trigger] docs@[i])@ == (DocView {
                        text: orig[i]@.text,
                        id: orig[i]@.id,
                        nodes: Some(
                            match cfg.document_chunk_size {
                                Some(n) => chunk_nodes(orig[i]@.text, n as int),
                                None => seq![
                                    NodeView {
                                        text: join_words(words(orig[i]@.text)),
                                        id: "0"@,
                                    },
                                ],
                            },
                        ),
                    }),
            decreases rest@.len(),
        {
            let mut d = rest.remove(0);
            let ghost pos = docs@.len() as int;
            proof {
                assert(orig.skip(pos)[0] == orig[pos]);
            }
            match cfg.document_chunk_size {
                Some(size) => {
                    d.chunk(size);
                },
                None => {
                    let ws = split_words(d.text.as_str());
                    let t = join_all_words(&ws);
                    let mut ns: Vec<DocumentNode> = Vec::new();
                    ns.push(DocumentNode { text: t, id: String::from_str("0") });
                    d.nodes = Some(ns);
                    proof {
                        assert(ns@.map_values(|n: DocumentNode| n@) =~= seq![
                            NodeView { text: join_words(words(d.text@)), id: "0"@ },
                        ]);
                    }
                },
            }
            docs.push(d);
            proof {
                assert(rest@ =~= orig.skip(docs@.len() as int));
            }
        }
        proof {
            assert(docs@.map_values(|d: Document| d@).len() == orig.len());
        }
        VectorIndex { documents: docs, embeddings: None, config: cfg }
    }

    /// Enumerates the build units: for every unit, in document-then-node
    /// order, its document id, node id and text.
    fn enumerate_units(&self) -> (r: (Vec<String>, Vec<String>, Vec<String>))
        ensures
            r.0@.map_values(|s: String| s@) == unit_doc_ids(self@.documents),
            r.1@.map_values(|s: String| s@) == unit_node_ids(self@.documents),
            r.2@.map_values(|s: String| s@) == unit_texts(self@.documents),
    {
        let ghost dv = self@.documents;
        let mut doc_ids: Vec<String> = Vec::new();
        let mut node_ids: Vec<String> = Vec::new();
        let mut texts: Vec<String> = Vec::new();
        let mut i: usize = 0;
        proof {
            assert(dv.take(0) =~= Seq::<DocView>::empty());
            assert(doc_ids@.map_values(|s: String| s@) =~= unit_doc_ids(dv.take(0)));
            assert(node_ids@.map_values(|s: String| s@) =~= unit_node_ids(dv.take(0)));
            assert(texts@.map_values(|s: String| s@) =~= unit_texts(dv.take(0)));
        }
        while i < self.documents.len()
            invariant
                dv == self@.documents,
                0 <= i <= self.documents@.len(),
                dv.len() == self.documents@.len(),
                doc_ids@.map_values(|s: String| s@) == unit_doc_ids(dv.take(i as int)),
                node_ids@.map_values(|s: String| s@) == unit_node_ids(dv.take(i as int)),
                texts@.map_values(|s: String| s@) == unit_texts(dv.take(i as int)),
            decreases self.documents@.len() - i,
        {
            let doc = &self.documents[i];
            let ns = doc.embeddable_nodes();
            let ghost nsv = ns@.map_values(|n: DocumentNode| n@);
            proof {
                assert(dv[i as int] == self.documents@[i as int]@);
                assert(nsv == doc_units(dv[i as int]));
            }
            let mut j: usize = 0;
            while j < ns.len()
                invariant
                    dv == self@.documents,
                    0 <= i < dv.len(),
                    0 <= j <= ns@.len(),
                    nsv == ns@.map_values(|n: DocumentNode| n@),
                    nsv == doc_units(dv[i as int]),
                    doc_ids@.map_values(|s: String| s@) == unit_doc_ids(dv.take(i as int))
                        + nsv.subrange(0, j as int).map_values(|n: NodeView| dv[i as int].id),
                    node_ids@.map_values(|s: String| s@) == unit_node_ids(dv.take(i as int))
                        + nsv.subrange(0, j as int).map_values(|n: NodeView| n.id),
                    texts@.map_values(|s: String| s@) == unit_texts(dv.take(i as int))
                        + nsv.subrange(0, j as int).map_values(|n: NodeView| n.text),
                decreases ns@.len() - j,
            {
                let ghost od = doc_ids@.map_values(|s: String| s@);
                let ghost on = node_ids@.map_values(|s: String| s@);
                let ghost ot = texts@.map_values(|s: String| s@);
                doc_ids.push(self.documents[i].id.clone());
                node_ids.push(ns[j].id.clone());
                texts.push(ns[j].text.clone());
                proof {
                    assert(nsv[j as int] == ns@[j as int]@);
                    assert(nsv.subrange(0, j + 1) =~= nsv.subrange(0, j as int).push(
                        nsv[j as int]));
                    assert(doc_ids@.map_values(|s: String| s@) =~= od.push(dv[i as int].id));
                    assert(node_ids@.map_values(|s: String| s@) =~= on.push(nsv[j as int].id));
                    assert(texts@.map_values(|s: String| s@) =~= ot.push(nsv[j as int].text));
                    assert(od.push(dv[i as int].id) =~= unit_doc_ids(dv.take(i as int))
                        + nsv.subrange(0, j + 1).map_values(|n: NodeView| dv[i as int].id));
                    assert(on.push(nsv[j as int].id) =~= unit_node_ids(dv.take(i as int))
                        + nsv.subrange(0, j + 1).map_values(|n: NodeView| n.id));
                    assert(ot.push(nsv[j as int].text) =~= unit_texts(dv.take(i as int))
                        + nsv.subrange(0, j + 1).map_values(|n: NodeView| n.text));
                }
                j = j + 1;
            }
            proof {
                assert(dv.take(i + 1).drop_last() =~= dv.take(i as int));
                assert(dv.take(i + 1).last() == dv[i as int]);
                assert(nsv.subrange(0, ns@.len() as int) =~= nsv);
                assert(unit_doc_ids(dv.take(i + 1)) == unit_doc_ids(dv.take(i as int))
                    + doc_units(dv[i as int]).map_values(|n: NodeView| dv[i as int].id));
                assert(unit_node_ids(dv.take(i + 1)) == unit_node_ids(dv.take(i as int))
                    + doc_units(dv[i as int]).map_values(|n: NodeView| n.id));
                assert(unit_texts(dv.take(i + 1)) == unit_texts(dv.take(i as int)) + doc_units(
                    dv[i as int]).map_values(|n: NodeView| n.text));
            }
            i = i + 1;
        }
        proof {
            assert(dv.take(dv.len() as int) =~= dv);
        }
        (doc_ids, node_ids, texts)
    }

    /// The texts a build must embed, one per unit, in document-then-node
    /// order.
    pub fn pending_texts(&self) -> (r: Vec<String>)
        ensures
            r@.map_values(|s: String| s@) == unit_texts(self@.documents),
    {
        let (_, _, texts) = self.enumerate_units();
        texts
    }

    /// Commits the provider replies of a build, all or nothing: if the
    /// reply count does not match the unit count, or any reply failed or
    /// is out of bounds, the index is left exactly as it was and the
    /// first problem is returned; otherwise the full embedding set is
    /// committed in unit order.
    pub fn complete_build(&mut self, results: Vec<Result<EmbeddingData, IndexError>>) -> (r:
        Result<(), IndexError>)
        ensures
            old(self)@.documents.len() == final(self)@.documents.len(),
            results@.len() != unit_doc_ids(old(self)@.documents).len() ==> r == Err::<
                (),
                IndexError,
            >(IndexError::MalformedResponse) && *final(self) == *old(self),
            results@.len() == unit_doc_ids(old(self)@.documents).len() ==> match scan_results(
                results@,
                0,
            ) {
                Some(e) => r == Err::<(), IndexError>(e) && *final(self) == *old(self),
                None => r == Ok::<(), IndexError>(()) && final(self)@.documents == old(
                    self)@.documents && final(self)@.config == old(self)@.config && final(
                    self)@.embeddings == Some(built_embeddings(old(self)@.documents, results@)),
            },
            r is Ok ==> final(self)@.embeddings_wf(),
    {
        let (doc_ids, node_ids, _texts) = self.enumerate_units();
        if results.len() != doc_ids.len() {
            return Err(IndexError::MalformedResponse);
        }
        let ghost rsv = results@;
        let ghost dv = self@.documents;
        proof {
            lemma_unit_lens(dv);
        }
        let mut rest = results;
        let mut embs: Vec<Embedding> = Vec::new();
        let mut doc_rest = doc_ids;
        let mut node_rest = node_ids;
        let mut j: usize = 0;
        while rest.len() > 0
            invariant
                0 <= j <= rsv.len(),
                rsv == results@,
                rsv.len() <= usize::MAX,
                dv == old(self)@.documents,
                *self == *old(self),
                j + rest@.len() == rsv.len(),
                rest@ == rsv.skip(j as int),
                doc_rest@.map_values(|s: String| s@) == unit_doc_ids(dv).skip(j as int),
                node_rest@.map_values(|s: String| s@) == unit_node_ids(dv).skip(j as int),
                rsv.len() == unit_doc_ids(dv).len(),
                rsv.len() == unit_node_ids(dv).len(),
                scan_results(rsv, 0) == scan_results(rsv, j as int),
                embs@.len() == j,
                forall|m: int|
                    0 <= m < j ==> (#[trigger] embs@[m])@ == built_embeddings(dv, rsv)[m],
                forall|m: int| 0 <= m < j ==> (#[trigger] embs@[m])@.wf(),
            decreases rest@.len(),
        {
            proof {
                assert(doc_rest@.map_values(|s: String| s@).len() == doc_rest@.len());
                assert(node_rest@.map_values(|s: String| s@).len() == node_rest@.len());
                assert(doc_rest@.len() == unit_doc_ids(dv).len() - j);
                assert(node_rest@.len() == unit_node_ids(dv).len() - j);
            }
            let ghost odr = doc_rest@;
            let ghost onr = node_rest@;
            let entry = rest.remove(0);
            let did = doc_rest.remove(0);
            let nid = node_rest.remove(0);
            proof {
                assert(rsv.skip(j as int)[0] == rsv[j as int]);
                assert(unit_doc_ids(dv).skip(j as int)[0] == unit_doc_ids(dv)[j as int]);
                assert(unit_node_ids(dv).skip(j as int)[0] == unit_node_ids(dv)[j as int]);
                assert(doc_rest@ =~= odr.drop_first());
                assert(node_rest@ =~= onr.drop_first());
                assert(doc_rest@.map_values(|s: String| s@) =~= odr.map_values(
                    |s: String| s@).drop_first());
                assert(node_rest@.map_values(|s: String| s@) =~= onr.map_values(
                    |s: String| s@).drop_first());
                assert(unit_doc_ids(dv).skip(j as int).drop_first() =~= unit_doc_ids(dv).skip(
                    j + 1));
                assert(unit_node_ids(dv).skip(j as int).drop_first() =~= unit_node_ids(
                    dv).skip(j + 1));
                assert(rest@ =~= rsv.skip(j + 1));
                assert(did@ == unit_doc_ids(dv)[j as int]);
                assert(nid@ == unit_node_ids(dv)[j as int]);
            }
            match entry {
                Err(e) => {
                    proof {
                        assert(rsv[j as int] == Err::<EmbeddingData, IndexError>(e));
                        assert(scan_results(rsv, j as int) == Some(e));
                        assert(scan_results(rsv, 0) == Some(e));
                    }
                    return Err(e);
                },
                Ok(d) => {
                    let emb = Embedding::from_parts(did, nid, d.vectors, d.tokens_used);
                    if !emb.is_admissible() {
                        return Err(IndexError::MalformedResponse);
                    }
                    embs.push(emb);
                },
            }
            j = j + 1;
        }
        proof {
            assert(embs@.map_values(|e: Embedding| e@) =~= built_embeddings(dv, rsv));
        }
        self.embeddings = Some(embs);
        Ok(())
    }
}

/// All three unit enumerations have one entry per unit.
pub proof fn lemma_unit_lens(docs: Seq<DocView>)
    ensures
        unit_doc_ids(docs).len() == unit_node_ids(docs).len(),
        unit_doc_ids(docs).len() == unit_texts(docs).len(),
    decreases docs.len(),
{
    if docs.len() > 0 {
        lemma_unit_lens(docs.drop_last());
    }
}

/// The total token usage of a sequence of embeddings.
pub open spec fn total_tokens(embs: Seq<EmbeddingView>) -> nat
    decreases embs.len(),
{
    if embs.len() == 0 {
        0
    } else {
        total_tokens(embs.drop_last()) + embs.last().tokens_used
    }
}

impl VectorIndex {
    /// The sum of the token usage reported for every stored embedding;
    /// zero while no embeddings are committed.
    pub fn total_tokens_used(&self) -> (r: u128)
        ensures
            r as nat == match self@.embeddings {
                Some(es) => total_tokens(es),
                None => 0nat,
            },
    {
        match &self.embeddings {
            None => 0,
            Some(es) => {
                let ghost ev = es@.map_values(|e: Embedding| e@);
                let mut acc: u128 = 0;
                let mut i: usize = 0;
                proof {
                    assert(ev.take(0) =~= Seq::<EmbeddingView>::empty());
                }
                while i < es.len()
                    invariant
                        ev == es@.map_values(|e: Embedding| e@),
                        0 <= i <= es@.len(),
                        acc as nat == total_tokens(ev.take(i as int)),
                        acc as int <= (i as int) * 0xFFFF_FFFF_FFFF_FFFF,
                    decreases es@.len() - i,
                {
                    let t = es[i].tokens_used;
                    proof {
                        assert(ev[i as int] == es@[i as int]@);
                        assert(ev.take(i + 1).drop_last() =~= ev.take(i as int));
                        assert(ev.take(i + 1).last() == ev[i as int]);
                        assert((i as int + 1) * 0xFFFF_FFFF_FFFF_FFFF == (i as int)
                            * 0xFFFF_FFFF_FFFF_FFFF + 0xFFFF_FFFF_FFFF_FFFF)
                            by (nonlinear_arith);
                        assert((i as int) * 0xFFFF_FFFF_FFFF_FFFF <= (0xFFFF_FFFF_FFFF_FFFFint)
                            * 0xFFFF_FFFF_FFFF_FFFF) by (nonlinear_arith)
                            requires
                                0 <= i as int <= 0xFFFF_FFFF_FFFF_FFFF,
                        ;
                    }
                    acc = acc + (t as u128);
                    i = i + 1;
                }
                proof {
                    assert(ev.take(es@.len() as int) =~= ev);
                }
                acc
            },
        }
    }
}

/// Search-time configuration: how many results and the similarity
/// floor, both in effect even when left unset (one best result, floor
/// zero).
#[derive(Clone, Copy, Debug, PartialEq, Eq, Structural)]
pub struct SearchConfig {
    pub top_k: Option<usize>,
    pub threshold: Option<i64>,
}

impl SearchConfig {
    /// A threshold, if given, is a fixed-point similarity the
    /// comparison arithmetic accepts.
    pub open spec fn wf(self) -> bool {
        match self.threshold {
            Some(t) => -THRESHOLD_LIMIT <= t <= THRESHOLD_LIMIT,
            None => true,
        }
    }
}

impl Default for SearchConfig {
    /// Keep only the best result, at or above similarity zero.
    fn default() -> (r: Self)
        ensures
            r.top_k == Some(1usize),
            r.threshold == Some(0i64),
    {
        Self { top_k: Some(1), threshold: Some(0) }
    }
}

/// The threshold a search applies: the configured one, or zero.
pub open spec fn effective_threshold(config: Option<&SearchConfig>) -> int {
    match config {
        Some(c) => match c.threshold {
            Some(t) => t as int,
            None => 0,
        },
        None => 0,
    }
}

/// The result cut a search applies: the configured top-k, or one.
pub open spec fn effective_top_k(config: Option<&SearchConfig>) -> int {
    match config {
        Some(c) => match c.top_k {
            Some(k) => k as int,
            None => 1,
        },
        None => 1,
    }
}

/// The last document with the given id, or -1.
pub open spec fn last_doc_index(docs: Seq<DocView>, id: Seq<char>) -> int
    decreases docs.len(),
{
    if docs.len() == 0 {
        -1
    } else if docs.last().id == id {
        docs.len() - 1
    } else {
        last_doc_index(docs.drop_last(), id)
    }
}

/// The first node with the given id, or -1.
pub open spec fn node_index(ns: Seq<NodeView>, id: Seq<char>) -> int
    decreases ns.len(),
{
    if ns.len() == 0 {
        -1
    } else if ns.first().id == id {
        0
    } else if node_index(ns.drop_first(), id) < 0 {
        -1
    } else {
        1 + node_index(ns.drop_first(), id)
    }
}

/// A stored embedding resolves: the last document carrying its document
/// id exists, has been chunked, and holds a node with its node id.
pub open spec fn resolvable(docs: Seq<DocView>, e: EmbeddingView) -> bool {
    let di = last_doc_index(docs, e.document_id);
    0 <= di && match docs[di].nodes {
        Some(ns) => node_index(ns, e.document_node_id) >= 0,
        None => false,
    }
}

/// Every stored embedding resolves to its document and node.
pub open spec fn all_resolvable(docs: Seq<DocView>, embs: Seq<EmbeddingView>) -> bool {
    forall|i: int| 0 <= i < embs.len() ==> resolvable(docs, #[trigger] embs[i])
}

/// A pair of flattened vectors a similarity is defined for: equal
/// lengths and no zero magnitude.
pub open spec fn valid_pair(a: Seq<int>, q: Seq<int>) -> bool {
    a.len() == q.len() && dot(a, a) != 0 && dot(q, q) != 0
}

/// The exact similarity of a stored vector and the query vector.
pub open spec fn sim_value(a: Seq<int>, q: Seq<int>) -> SimilarityValue {
    SimilarityValue {
        dot: dot(a, q) as i128,
        norm_sq_product: (dot(a, a) * dot(q, q)) as i128,
    }
}

/// Cosine similarity is symmetric: both orders give the same exact
/// value.
pub proof fn lemma_similarity_symmetric(a: Seq<int>, b: Seq<int>)
    requires
        a.len() == b.len(),
    ensures
        sim_value(a, b) == sim_value(b, a),
{
    crate::similarity::lemma_dot_sym(a, b);
    assert(dot(a, a) * dot(b, b) == dot(b, b) * dot(a, a)) by (nonlinear_arith);
}

/// The self-similarity of a non-zero vector is exactly 1: its dot
/// product is positive and its square equals the norm product, so the
/// represented quotient is `dot / sqrt(dot * dot) = 1`.
pub proof fn lemma_self_similarity_unit(a: Seq<int>)
    requires
        admissible(a),
        dot(a, a) != 0,
    ensures
        ({
            let s = sim_value(a, a);
            &&& s.dot as int == dot(a, a)
            &&& s.dot as int > 0
            &&& (s.dot as int) * (s.dot as int) == s.norm_sq_product as int
        }),
{
    lemma_dot_self_nonneg(a);
    lemma_dot_bound(a, a, COMPONENT_LIMIT as int);
    let d = dot(a, a);
    assert(d <= (DIMENSION_LIMIT as int) * (COMPONENT_LIMIT as int) * (COMPONENT_LIMIT as int))
        by (nonlinear_arith)
        requires
            d <= a.len() * (COMPONENT_LIMIT as int) * (COMPONENT_LIMIT as int),
            a.len() <= DIMENSION_LIMIT as int,
            COMPONENT_LIMIT == 1024,
    ;
    assert((DIMENSION_LIMIT as int) * (COMPONENT_LIMIT as int) * (COMPONENT_LIMIT as int)
        == 0x8000_0000) by (nonlinear_arith)
        requires
            DIMENSION_LIMIT == 2048,
            COMPONENT_LIMIT == 1024,
    ;
    assert((d as i128) as int == d);
    assert(0 < d * d <= 0x4000_0000_0000_0000) by (nonlinear_arith)
        requires
            0 < d <= 0x8000_0000,
    ;
    assert(((d * d) as i128) as int == d * d);
}

/// The scored candidates among the first `n` stored embeddings: one per
/// embedding whose similarity to the query is defined (entries with a
/// dimension mismatch or zero magnitude are skipped), in stored order.
pub open spec fn query_candidates(embs: Seq<EmbeddingView>, q: Seq<int>, n: int) -> Seq<
    Scored,
>
    decreases n,
{
    if n <= 0 {
        Seq::empty()
    } else {
        let rest = query_candidates(embs, q, n - 1);
        if valid_pair(embs[n - 1].flat(), q) {
            rest.push(
                Scored {
                    embedding_index: (n - 1) as usize,
                    similarity: sim_value(embs[n - 1].flat(), q),
                },
            )
        } else {
            rest
        }
    }
}

/// What a search returns before resolution: the candidates ranked by
/// similarity descending (ties in stored order), cut at the threshold,
/// then cut to the top `k`.
pub open spec fn ranked_results(embs: Seq<EmbeddingView>, q: Seq<int>, t: int, k: int) -> Seq<
    Scored,
> {
    let kept = keep_meeting(sort_desc(query_candidates(embs, q, embs.len() as int)), t);
    kept.take(
        if k <= kept.len() {
            k
        } else {
            kept.len() as int
        },
    )
}

/// Candidate indices point into the store.
pub proof fn lemma_candidates_bounded(embs: Seq<EmbeddingView>, q: Seq<int>, n: int)
    requires
        0 <= n <= embs.len(),
    ensures
        bounded_indices(query_candidates(embs, q, n), n),
    decreases n,
{
    if n > 0 {
        lemma_candidates_bounded(embs, q, n - 1);
        let prev = query_candidates(embs, q, n - 1);
        assert forall|i: int|
            0 <= i < query_candidates(embs, q, n).len() implies (#[trigger] query_candidates(
            embs,
            q,
            n,
        )[i]).embedding_index < n by {
            if i < prev.len() {
                assert(query_candidates(embs, q, n)[i] == prev[i]);
            }
        }
    }
}

/// Every candidate's similarity is well formed: positive bounded norm
/// product, and the Cauchy-Schwarz bound on the dot product.
pub proof fn lemma_candidates_wf(embs: Seq<EmbeddingView>, q: Seq<int>, n: int)
    requires
        0 <= n <= embs.len(),
        forall|i: int| 0 <= i < embs.len() ==> (#[trigger] embs[i]).wf(),
        admissible(q),
    ensures
        all_wf(query_candidates(embs, q, n)),
    decreases n,
{
    if n > 0 {
        lemma_candidates_wf(embs, q, n - 1);
        let prev = query_candidates(embs, q, n - 1);
        let a = embs[n - 1].flat();
        if valid_pair(a, q) {
            lemma_dot_self_nonneg(a);
            lemma_dot_self_nonneg(q);
            lemma_cauchy_schwarz(a, q);
            lemma_dot_bound(a, a, COMPONENT_LIMIT as int);
            lemma_dot_bound(q, q, COMPONENT_LIMIT as int);
            assert(dot(a, a) <= (DIMENSION_LIMIT as int) * (COMPONENT_LIMIT as int) * (
            COMPONENT_LIMIT as int)) by (nonlinear_arith)
                requires
                    dot(a, a) <= a.len() * (COMPONENT_LIMIT as int) * (COMPONENT_LIMIT as int),
                    a.len() <= DIMENSION_LIMIT as int,
                    COMPONENT_LIMIT == 1024,
            ;
            assert(dot(q, q) <= (DIMENSION_LIMIT as int) * (COMPONENT_LIMIT as int) * (
            COMPONENT_LIMIT as int)) by (nonlinear_arith)
                requires
                    dot(q, q) <= q.len() * (COMPONENT_LIMIT as int) * (COMPONENT_LIMIT as int),
                    q.len() <= DIMENSION_LIMIT as int,
                    COMPONENT_LIMIT == 1024,
            ;
            assert((DIMENSION_LIMIT as int) * (COMPONENT_LIMIT as int) * (COMPONENT_LIMIT
                as int) == 0x8000_0000) by (nonlinear_arith)
                requires
                    DIMENSION_LIMIT == 2048,
                    COMPONENT_LIMIT == 1024,
            ;
            assert(0 < dot(a, a) * dot(q, q) <= NORM_PRODUCT_LIMIT as int) by (nonlinear_arith)
                requires
                    0 < dot(a, a) <= 0x8000_0000,
                    0 < dot(q, q) <= 0x8000_0000,
                    NORM_PRODUCT_LIMIT == 0x4000_0000_0000_0000,
            ;
            assert(-0x1_0000_0000 <= dot(a, q) <= 0x1_0000_0000) by (nonlinear_arith)
                requires
                    dot(a, q) * dot(a, q) <= dot(a, a) * dot(q, q),
                    dot(a, a) * dot(q, q) <= 0x4000_0000_0000_0000,
            ;
            assert((dot(a, q) as i128) as int == dot(a, q));
            assert(((dot(a, a) * dot(q, q)) as i128) as int == dot(a, a) * dot(q, q));
            assert(sim_value(a, q).wf()) by (nonlinear_arith)
                requires
                    sim_value(a, q).dot as int == dot(a, q),
                    sim_value(a, q).norm_sq_product as int == dot(a, a) * dot(q, q),
                    dot(a, q) * dot(a, q) <= dot(a, a) * dot(q, q),
                    0 < dot(a, a) * dot(q, q) <= NORM_PRODUCT_LIMIT as int,
            ;
            assert forall|i: int|
                0 <= i < query_candidates(embs, q, n).len() implies (#[trigger] query_candidates(
                embs,
                q,
                n,
            )[i]).similarity.wf() by {
                if i < prev.len() {
                    assert(query_candidates(embs, q, n)[i] == prev[i]);
                }
            }
        }
    }
}

/// Every candidate stands for a stored embedding with a defined
/// similarity, and carries exactly that embedding's position and exact
/// similarity value.
pub proof fn lemma_candidates_characterized(embs: Seq<EmbeddingView>, q: Seq<int>, n: int)
    requires
        0 <= n <= embs.len(),
        embs.len() <= usize::MAX,
    ensures
        forall|m: int|
            0 <= m < query_candidates(embs, q, n).len() ==> {
                let x = #[trigger] query_candidates(embs, q, n)[m];
                &&& x.embedding_index < n
                &&& valid_pair(embs[x.embedding_index as int].flat(), q)
                &&& x.similarity == sim_value(embs[x.embedding_index as int].flat(), q)
            },
    decreases n,
{
    if n > 0 {
        lemma_candidates_characterized(embs, q, n - 1);
        let prev = query_candidates(embs, q, n - 1);
        assert forall|m: int|
            0 <= m < query_candidates(embs, q, n).len() implies {
            let x = #[trigger] query_candidates(embs, q, n)[m];
            &&& x.embedding_index < n
            &&& valid_pair(embs[x.embedding_index as int].flat(), q)
            &&& x.similarity == sim_value(embs[x.embedding_index as int].flat(), q)
        } by {
            if m < prev.len() {
                assert(query_candidates(embs, q, n)[m] == prev[m]);
            } else {
                assert(valid_pair(embs[n - 1].flat(), q));
                assert(query_candidates(embs, q, n)[m] == (Scored {
                    embedding_index: (n - 1) as usize,
                    similarity: sim_value(embs[n - 1].flat(), q),
                }));
                assert((n - 1) as usize as int == n - 1);
            }
        }
    }
}

/// A stored embedding with a defined similarity appears among the
/// candidates.
pub proof fn lemma_candidates_contains(embs: Seq<EmbeddingView>, q: Seq<int>, n: int, j: int)
    requires
        0 <= j < n <= embs.len(),
        embs.len() <= usize::MAX,
        valid_pair(embs[j].flat(), q),
    ensures
        query_candidates(embs, q, n).contains(
            Scored { embedding_index: j as usize, similarity: sim_value(embs[j].flat(), q) },
        ),
    decreases n,
{
    let x = Scored { embedding_index: j as usize, similarity: sim_value(embs[j].flat(), q) };
    let cur = query_candidates(embs, q, n);
    let prev = query_candidates(embs, q, n - 1);
    if j == n - 1 {
        assert(cur[cur.len() - 1] == x);
    } else {
        lemma_candidates_contains(embs, q, n - 1, j);
        let w = choose|w: int| 0 <= w < prev.len() && prev[w] == x;
        assert(cur[w] == x);
    }
}

/// When every stored embedding's similarity to the query is defined,
/// there is one candidate per stored embedding.
pub proof fn lemma_all_valid_candidates_full(embs: Seq<EmbeddingView>, q: Seq<int>, n: int)
    requires
        0 <= n <= embs.len(),
        forall|i: int| 0 <= i < embs.len() ==> valid_pair((#[trigger] embs[i]).flat(), q),
    ensures
        query_candidates(embs, q, n).len() == n,
    decreases n,
{
    if n > 0 {
        lemma_all_valid_candidates_full(embs, q, n - 1);
    }
}

/// Filtering a ranked sequence keeps it ranked.
pub proof fn lemma_keep_meeting_sorted(s: Seq<Scored>, t: int)
    requires
        all_wf(s),
        sorted_desc(s),
    ensures
        sorted_desc(keep_meeting(s, t)),
    decreases s.len(),
{
    if s.len() > 0 {
        let init = s.drop_last();
        assert(all_wf(init));
        assert(sorted_desc(init));
        lemma_keep_meeting_sorted(init, t);
        lemma_keep_meeting(init, t);
        let kept = keep_meeting(s, t);
        let ki = keep_meeting(init, t);
        if spec_meets_threshold(s.last().similarity, t) {
            assert forall|i: int, j: int| 0 <= i < j < kept.len() implies crate::ranking::scored_le(
                #[trigger] kept[i],
                #[trigger] kept[j],
            ) by {
                if j < ki.len() {
                    assert(kept[i] == ki[i] && kept[j] == ki[j]);
                } else {
                    assert(kept[j] == s.last());
                    assert(kept[i] == ki[i]);
                    assert(init.contains(ki[i]));
                    let w = choose|w: int| 0 <= w < init.len() && init[w] == ki[i];
                    assert(s[w] == init[w]);
                    assert(s[s.len() - 1] == s.last());
                    assert(crate::ranking::scored_le(s[w], s[s.len() - 1]));
                }
            }
        }
    }
}

/// The ranked results of a search: ranked descending, all at or above
/// the threshold, exactly `min(k, kept)` of them where `kept` counts
/// the candidates at or above the threshold, and all pointing into the
/// store.
pub proof fn lemma_ranked_results_properties(
    embs: Seq<EmbeddingView>,
    q: Seq<int>,
    t: int,
    k: int,
)
    requires
        forall|i: int| 0 <= i < embs.len() ==> (#[trigger] embs[i]).wf(),
        admissible(q),
        k >= 0,
    ensures
        ({
            let kept = keep_meeting(sort_desc(query_candidates(embs, q, embs.len() as int)), t);
            let ranked = ranked_results(embs, q, t, k);
            &&& ranked.len() == if k <= kept.len() {
                k
            } else {
                kept.len() as int
            }
            &&& sorted_desc(ranked)
            &&& forall|j: int|
                0 <= j < ranked.len() ==> spec_meets_threshold(
                    (#[trigger] ranked[j]).similarity,
                    t,
                )
            &&& bounded_indices(ranked, embs.len() as int)
        }),
{
    let cands = query_candidates(embs, q, embs.len() as int);
    lemma_candidates_wf(embs, q, embs.len() as int);
    lemma_candidates_bounded(embs, q, embs.len() as int);
    lemma_sort_desc(cands);
    let sorted = sort_desc(cands);
    assert(bounded_indices(sorted, embs.len() as int)) by {
        assert forall|i: int|
            0 <= i < sorted.len() implies (#[trigger] sorted[i]).embedding_index < embs.len() by {
            assert(cands.contains(sorted[i]));
            let w = choose|w: int| 0 <= w < cands.len() && cands[w] == sorted[i];
            assert(cands[w].embedding_index < embs.len());
        }
    }
    lemma_keep_meeting_sorted(sorted, t);
    lemma_keep_meeting(sorted, t);
    let kept = keep_meeting(sorted, t);
    let ranked = ranked_results(embs, q, t, k);
    assert forall|j: int|
        0 <= j < ranked.len() implies spec_meets_threshold((#[trigger] ranked[j]).similarity, t)
        && ranked[j].embedding_index < embs.len() by {
        assert(ranked[j] == kept[j]);
        assert(sorted.contains(kept[j]));
        let w = choose|w: int| 0 <= w < sorted.len() && sorted[w] == kept[j];
        assert(sorted[w].embedding_index < embs.len());
    }
    assert forall|i: int, j: int| 0 <= i < j < ranked.len() implies crate::ranking::scored_le(
        #[trigger] ranked[i],
        #[trigger] ranked[j],
    ) by {
        assert(ranked[i] == kept[i] && ranked[j] == kept[j]);
    }
}

/// A threshold above 1.0 (above any attainable cosine similarity)
/// yields an empty result, whatever the store holds.
pub proof fn lemma_threshold_above_one_empty(
    embs: Seq<EmbeddingView>,
    q: Seq<int>,
    t: int,
    k: int,
)
    requires
        forall|i: int| 0 <= i < embs.len() ==> (#[trigger] embs[i]).wf(),
        admissible(q),
        t > SCALE,
        k >= 0,
    ensures
        ranked_results(embs, q, t, k) == Seq::<Scored>::empty(),
{
    let cands = query_candidates(embs, q, embs.len() as int);
    lemma_candidates_wf(embs, q, embs.len() as int);
    lemma_sort_desc(cands);
    lemma_high_threshold_keeps_nothing(sort_desc(cands), t);
    assert(ranked_results(embs, q, t, k) =~= Seq::<Scored>::empty());
}

/// The top-k cut is exact: on a store whose every embedding has a
/// defined similarity to the query, a search with a floor threshold
/// and `k` at most the store size returns exactly `k` results, ranked
/// descending — in particular, top-k two over five stored embeddings
/// returns exactly two.
pub proof fn lemma_top_k_exact_count(embs: Seq<EmbeddingView>, q: Seq<int>, t: int, k: int)
    requires
        forall|i: int| 0 <= i < embs.len() ==> (#[trigger] embs[i]).wf(),
        admissible(q),
        embs.len() <= usize::MAX,
        forall|i: int| 0 <= i < embs.len() ==> valid_pair((#[trigger] embs[i]).flat(), q),
        t <= -SCALE,
        0 <= k <= embs.len(),
    ensures
        ranked_results(embs, q, t, k).len() == k,
        sorted_desc(ranked_results(embs, q, t, k)),
{
    let cands = query_candidates(embs, q, embs.len() as int);
    lemma_candidates_wf(embs, q, embs.len() as int);
    lemma_all_valid_candidates_full(embs, q, embs.len() as int);
    lemma_sort_desc(cands);
    lemma_floor_threshold_keeps_all(sort_desc(cands), t);
    lemma_ranked_results_properties(embs, q, t, k);
}

/// With top-k one, the single returned candidate is the strictly most
/// similar stored embedding: whenever one embedding's similarity to the
/// query is strictly greater than every other defined one and reaches
/// the threshold, the search returns exactly that embedding's entry.
pub proof fn lemma_top_one_returns_strict_best(
    embs: Seq<EmbeddingView>,
    q: Seq<int>,
    t: int,
    c: int,
)
    requires
        forall|i: int| 0 <= i < embs.len() ==> (#[trigger] embs[i]).wf(),
        admissible(q),
        embs.len() <= usize::MAX,
        0 <= c < embs.len(),
        valid_pair(embs[c].flat(), q),
        spec_meets_threshold(sim_value(embs[c].flat(), q), t),
        forall|j: int|
            0 <= j < embs.len() && j != c && valid_pair((#[trigger] embs[j]).flat(), q)
                ==> spec_similarity_ge(
                sim_value(embs[c].flat(), q),
                sim_value(embs[j].flat(), q),
            ) && !spec_similarity_ge(
                sim_value(embs[j].flat(), q),
                sim_value(embs[c].flat(), q),
            ),
    ensures
        ranked_results(embs, q, t, 1).len() == 1,
        ranked_results(embs, q, t, 1)[0].embedding_index == c,
        ranked_results(embs, q, t, 1)[0].similarity == sim_value(embs[c].flat(), q),
{
    broadcast use vstd::seq_lib::group_to_multiset_ensures;

    let n = embs.len() as int;
    let cands = query_candidates(embs, q, n);
    let best = Scored {
        embedding_index: c as usize,
        similarity: sim_value(embs[c].flat(), q),
    };
    lemma_candidates_wf(embs, q, n);
    lemma_candidates_characterized(embs, q, n);
    lemma_candidates_contains(embs, q, n, c);
    lemma_sort_desc(cands);
    let sorted = sort_desc(cands);
    assert(cands.to_multiset().count(best) > 0);
    assert(sorted.to_multiset().count(best) > 0);
    assert(sorted.contains(best));
    lemma_keep_meeting_sorted(sorted, t);
    lemma_keep_meeting(sorted, t);
    lemma_keep_meeting_complete(sorted, t, best);
    let kept = keep_meeting(sorted, t);
    let u = choose|u: int| 0 <= u < kept.len() && kept[u] == best;
    assert(kept.len() >= 1);
    let ranked = ranked_results(embs, q, t, 1);
    assert(ranked == kept.take(1));
    assert(ranked[0] == kept[0]);
    let x = kept[0];
    assert(sorted.contains(x));
    let w = choose|w: int| 0 <= w < sorted.len() && sorted[w] == x;
    assert(cands.contains(sorted[w]));
    let v = choose|v: int| 0 <= v < cands.len() && cands[v] == x;
    assert(x.embedding_index < n && valid_pair(embs[x.embedding_index as int].flat(), q)
        && x.similarity == sim_value(embs[x.embedding_index as int].flat(), q));
    if x.embedding_index as int != c {
        assert(u >= 1) by {
            if u == 0 {
                assert(kept[0] == best);
            }
        }
        assert(crate::ranking::scored_le(kept[0], kept[u]));
        assert(crate::ranking::scored_before(best, x));
        assert(false);
    }
}

fn find_doc(docs: &Vec<Document>, id: &String) -> (r: Option<usize>)
    ensures
        match r {
            Some(i) => i < docs@.len() && i as int == last_doc_index(
                docs@.map_values(|d: Document| d@),
                id@,
            ),
            None => last_doc_index(docs@.map_values(|d: Document| d@), id@) == -1,
        },
{
    let ghost dv = docs@.map_values(|d: Document| d@);
    let mut i: usize = docs.len();
    proof {
        assert(dv.take(dv.len() as int) =~= dv);
    }
    while i > 0
        invariant
            dv == docs@.map_values(|d: Document| d@),
            0 <= i <= docs@.len(),
            last_doc_index(dv, id@) == last_doc_index(dv.take(i as int), id@),
        decreases i,
    {
        i = i - 1;
        proof {
            assert(dv.take(i + 1).drop_last() =~= dv.take(i as int));
            assert(dv.take(i + 1).last() == dv[i as int]);
            assert(dv[i as int] == docs@[i as int]@);
        }
        if str_eq(docs[i].id.as_str(), id.as_str()) {
            return Some(i);
        }
    }
    proof {
        assert(dv.take(0) =~= Seq::<DocView>::empty());
    }
    None
}

fn has_node(ns: &Vec<DocumentNode>, id: &String) -> (r: bool)
    ensures
        r == (node_index(ns@.map_values(|n: DocumentNode| n@), id@) >= 0),
{
    let ghost nv = ns@.map_values(|n: DocumentNode| n@);
    let mut i: usize = 0;
    proof {
        assert(nv.skip(0) =~= nv);
    }
    while i < ns.len()
        invariant
            nv == ns@.map_values(|n: DocumentNode| n@),
            0 <= i <= ns@.len(),
            (node_index(nv, id@) >= 0) == (node_index(nv.skip(i as int), id@) >= 0),
        decreases ns@.len() - i,
    {
        proof {
            assert(nv.skip(i as int).first() == nv[i as int]);
            assert(nv[i as int] == ns@[i as int]@);
            assert(nv.skip(i as int).drop_first() =~= nv.skip(i + 1));
        }
        if str_eq(ns[i].id.as_str(), id.as_str()) {
            return true;
        }
        i = i + 1;
    }
    proof {
        assert(nv.skip(nv.len() as int) =~= Seq::<NodeView>::empty());
    }
    false
}

/// The view of one search hit.
#[verifier::ext_equal]
pub struct SourceNodeView {
    pub document_id: Seq<char>,
    pub document_node_id: Seq<char>,
    pub similarity: SimilarityValue,
}

/// One search hit: which document and node matched, and how similar it
/// is to the query (a non-owning reference by id into the index).
#[derive(Debug)]
pub struct SourceNode {
    pub document_id: String,
    pub document_node_id: String,
    pub similarity: SimilarityValue,
}

impl View for SourceNode {
    type V = SourceNodeView;

    open spec fn view(&self) -> SourceNodeView {
        SourceNodeView {
            document_id: self.document_id@,
            document_node_id: self.document_node_id@,
            similarity: self.similarity,
        }
    }
}

/// What a search returns: ranked hits, or nothing when the index holds
/// no embedding set at all.
#[derive(Debug)]
pub struct SearchResult {
    pub source_nodes: Option<Vec<SourceNode>>,
}

impl VectorIndex {
    /// Whether every stored embedding is within the fixed-point bounds
    /// the similarity arithmetic accepts; a freshly loaded index should
    /// be checked before it is searched.
    pub fn embeddings_admissible(&self) -> (r: bool)
        ensures
            r == self@.embeddings_wf(),
    {
        match &self.embeddings {
            None => true,
            Some(es) => {
                let ghost ev = es@.map_values(|e: Embedding| e@);
                let mut i: usize = 0;
                while i < es.len()
                    invariant
                        ev == es@.map_values(|e: Embedding| e@),
                        self@.embeddings == Some(ev),
                        0 <= i <= es@.len(),
                        forall|m: int| 0 <= m < i ==> (#[trigger] ev[m]).wf(),
                    decreases es@.len() - i,
                {
                    proof {
                        assert(ev[i as int] == es@[i as int]@);
                    }
                    if !es[i].is_admissible() {
                        proof {
                            assert(!ev[i as int].wf());
                            assert(self@.embeddings matches Some(es2) && es2 == ev);
                        }
                        return false;
                    }
                    i = i + 1;
                }
                true
            },
        }
    }

    fn resolves(&self, e: &Embedding) -> (r: bool)
        ensures
            r == resolvable(self@.documents, e@),
    {
        match find_doc(&self.documents, &e.document_id) {
            None => false,
            Some(i) => match &self.documents[i].nodes {
                Some(ns) => {
                    proof {
                        assert(self@.documents[i as int] == self.documents@[i as int]@);
                    }
                    has_node(ns, &e.document_node_id)
                },
                None => false,
            },
        }
    }

    /// Ranks the stored chunks against an already embedded query: every
    /// stored embedding must resolve to its document and node, the
    /// candidates with a defined similarity are sorted descending (ties
    /// in stored order), entries strictly below the threshold are
    /// dropped, and at most the configured top-k remain.  An index with
    /// no embedding set returns the absent marker, not an error.
    pub fn search(&self, query_embedding: &Embedding, config: Option<&SearchConfig>) -> (r:
        Result<SearchResult, IndexError>)
        requires
            self@.embeddings_wf(),
            query_embedding@.wf(),
            match config {
                Some(c) => c.wf(),
                None => true,
            },
        ensures
            match self@.embeddings {
                None => r matches Ok(sr) && sr.source_nodes is None,
                Some(embs) => {
                    if !all_resolvable(self@.documents, embs) {
                        r == Err::<SearchResult, IndexError>(IndexError::InconsistentIndex)
                    } else {
                        let ranked = ranked_results(
                            embs,
                            query_embedding@.flat(),
                            effective_threshold(config),
                            effective_top_k(config),
                        );
                        &&& r matches Ok(sr)
                        &&& sr.source_nodes matches Some(v)
                        &&& v@.len() == ranked.len()
                        &&& forall|j: int|
                            0 <= j < ranked.len() ==> (#[trigger] v@[j])@ == (SourceNodeView {
                                document_id: embs[ranked[j].embedding_index as int].document_id,
                                document_node_id: embs[
                                    ranked[j].embedding_index as int
                                ].document_node_id,
                                similarity: ranked[j].similarity,
                            })
                    }
                },
            },
    {
        let embs = match &self.embeddings {
            None => {
                return Ok(SearchResult { source_nodes: None });
            },
            Some(embs) => embs,
        };
        let ghost ev = embs@.map_values(|e: Embedding| e@);
        let ghost qf = query_embedding@.flat();
        proof {
            assert(self@.embeddings == Some(ev));
            assert forall|m: int| 0 <= m < ev.len() implies (#[trigger] ev[m]).wf() by {
                assert(self@.embeddings matches Some(es) && es[m].wf() && es[m] == ev[m]);
            }
        }
        let mut i: usize = 0;
        while i < embs.len()
            invariant
                ev == embs@.map_values(|e: Embedding| e@),
                self@.embeddings == Some(ev),
                0 <= i <= embs@.len(),
                forall|m: int| 0 <= m < i ==> resolvable(self@.documents, #[trigger] ev[m]),
            decreases embs@.len() - i,
        {
            proof {
                assert(ev[i as int] == embs@[i as int]@);
            }
            if !self.resolves(&embs[i]) {
                return Err(IndexError::InconsistentIndex);
            }
            i = i + 1;
        }
        let mut scored: Vec<Scored> = Vec::new();
        let mut i: usize = 0;
        while i < embs.len()
            invariant
                ev == embs@.map_values(|e: Embedding| e@),
                self@.embeddings == Some(ev),
                forall|m: int| 0 <= m < ev.len() ==> (#[trigger] ev[m]).wf(),
                qf == query_embedding@.flat(),
                query_embedding@.wf(),
                0 <= i <= embs@.len(),
                scored@ == query_candidates(ev, qf, i as int),
                all_wf(scored@),
            decreases embs@.len() - i,
        {
            proof {
                assert(ev[i as int] == embs@[i as int]@);
                assert(ev[i as int].wf());
            }
            match embs[i].cosine_similarity(query_embedding) {
                Ok(s) => {
                    proof {
                        let a = ev[i as int].flat();
                        assert(s.dot == dot(a, qf) as i128);
                        assert(s.norm_sq_product == (dot(a, a) * dot(qf, qf)) as i128);
                        assert(s == sim_value(a, qf));
                    }
                    scored.push(Scored { embedding_index: i, similarity: s });
                },
                Err(_) => {
                    proof {
                        assert(!valid_pair(ev[i as int].flat(), qf));
                    }
                },
            }
            i = i + 1;
        }
        let sorted = sort_scored(scored);
        let t: i64 = match config {
            Some(c) => match c.threshold {
                Some(t) => t,
                None => 0,
            },
            None => 0,
        };
        let k: usize = match config {
            Some(c) => match c.top_k {
                Some(k) => k,
                None => 1,
            },
            None => 1,
        };
        proof {
            lemma_sort_desc(query_candidates(ev, qf, ev.len() as int));
        }
        let mut kept = filter_threshold(sorted, t);
        let ghost kept_full = keep_meeting(
            sort_desc(query_candidates(ev, qf, ev.len() as int)),
            t as int,
        );
        kept.truncate(k);
        let ghost ranked = ranked_results(ev, qf, t as int, k as int);
        proof {
            assert(kept@ =~= ranked);
            lemma_candidates_bounded(ev, qf, ev.len() as int);
            lemma_candidates_wf(ev, qf, ev.len() as int);
            lemma_sort_desc(query_candidates(ev, qf, ev.len() as int));
            lemma_keep_meeting(sort_desc(query_candidates(ev, qf, ev.len() as int)), t as int);
            assert forall|j: int|
                0 <= j < kept@.len() implies (#[trigger] kept@[j]).embedding_index < ev.len() by {
                let sorted_seq = sort_desc(query_candidates(ev, qf, ev.len() as int));
                assert(kept@[j] == kept_full[j]);
                assert(sorted_seq.contains(kept_full[j]));
                let w = choose|w: int|
                    0 <= w < sorted_seq.len() && sorted_seq[w] == kept_full[j];
                assert(query_candidates(ev, qf, ev.len() as int).contains(sorted_seq[w]));
                let v = choose|v: int|
                    0 <= v < query_candidates(ev, qf, ev.len() as int).len()
                        && query_candidates(ev, qf, ev.len() as int)[v] == sorted_seq[w];
                assert(query_candidates(ev, qf, ev.len() as int)[v].embedding_index < ev.len());
            }
        }
        let mut out: Vec<SourceNode> = Vec::new();
        let mut j: usize = 0;
        while j < kept.len()
            invariant
                ev == embs@.map_values(|e: Embedding| e@),
                kept@ == ranked,
                bounded_indices(kept@, ev.len() as int),
                embs@.len() == ev.len(),
                0 <= j <= kept@.len(),
                out@.len() == j,
                forall|m: int|
                    0 <= m < j ==> (#[trigger] out@[m])@ == (SourceNodeView {
                        document_id: ev[ranked[m].embedding_index as int].document_id,
                        document_node_id: ev[ranked[m].embedding_index as int].document_node_id,
                        similarity: ranked[m].similarity,
                    }),
            decreases kept@.len() - j,
        {
            let idx = kept[j].embedding_index;
            proof {
                assert(kept@[j as int].embedding_index < ev.len());
                assert(ev[idx as int] == embs@[idx as int]@);
            }
            let e = &embs[idx];
            out.push(
                SourceNode {
                    document_id: e.document_id.clone(),
                    document_node_id: e.document_node_id.clone(),
                    similarity: kept[j].similarity,
                },
            );
            j = j + 1;
        }
        Ok(SearchResult { source_nodes: Some(out) })
    }
}

} // verus!

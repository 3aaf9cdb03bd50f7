use endex::document::Document;
use endex::embedding::{Embedding, EmbeddingData, GPTEmbeddingRequest};
use endex::errors::IndexError;
use endex::index::{IndexConfig, SearchConfig, VectorIndex};
use endex::language::Language;
use endex::similarity::{meets_threshold, similarity_ge};
use endex::text::{str_eq, u64_to_string, usize_to_string};

fn doc(id: &str, text: &str) -> Document {
    Document {
        text: text.to_string(),
        id: id.to_string(),
        nodes: None,
    }
}

fn emb(doc_id: &str, node_id: &str, v: Vec<i64>) -> Embedding {
    Embedding {
        data: vec![v],
        tokens_used: 1,
        document_id: doc_id.to_string(),
        document_node_id: node_id.to_string(),
    }
}

fn ok_data(v: Vec<i64>, tokens: u64) -> Result<EmbeddingData, IndexError> {
    Ok(EmbeddingData {
        vectors: vec![v],
        tokens_used: tokens,
    })
}

#[test]
fn chunking_splits_words_into_fixed_groups() {
    let mut d = doc("d1", "a b c d e");
    d.chunk(2);
    let nodes = d.nodes.as_ref().unwrap();
    assert_eq!(nodes.len(), 3);
    assert_eq!(nodes[0].text, "a b");
    assert_eq!(nodes[1].text, "c d");
    assert_eq!(nodes[2].text, "e");
    assert_eq!(nodes[0].id, "0");
    assert_eq!(nodes[1].id, "1");
    assert_eq!(nodes[2].id, "2");
}

#[test]
fn chunking_normalizes_whitespace() {
    let mut d = doc("d1", "  hello\t\tworld\n again  ");
    d.chunk(10);
    let nodes = d.nodes.as_ref().unwrap();
    assert_eq!(nodes.len(), 1);
    assert_eq!(nodes[0].text, "hello world again");
}

#[test]
fn chunking_empty_text_yields_no_nodes() {
    let mut d = doc("d1", "");
    d.chunk(3);
    assert_eq!(d.nodes.as_ref().unwrap().len(), 0);
}

#[test]
fn chunking_is_idempotent() {
    let mut d = doc("d1", "one two three four");
    d.chunk(2);
    d.chunk(2);
    let nodes = d.nodes.as_ref().unwrap();
    assert_eq!(nodes.len(), 2);
    assert_eq!(nodes[0].text, "one two");
    assert_eq!(nodes[1].text, "three four");
}

#[test]
fn chunk_count_is_ceiling_of_word_count() {
    let mut d = doc("d1", "a b c d e f g");
    d.chunk(3);
    assert_eq!(d.nodes.as_ref().unwrap().len(), 3);
}

#[test]
fn new_document_has_no_nodes() {
    let d = Document::new("some text".to_string(), "id9".to_string(), 4);
    assert!(d.nodes.is_none());
    assert_eq!(d.text, "some text");
    assert_eq!(d.id, "id9");
}

#[test]
fn self_similarity_is_exactly_one() {
    let a = emb("d", "0", vec![300, 400, 0]);
    let s = a.cosine_similarity(&a).unwrap();
    // dot / sqrt(dot * dot) == 1 exactly: dot^2 == norm product
    assert!(s.dot > 0);
    assert_eq!((s.dot as i128) * (s.dot as i128), s.norm_sq_product);
}

#[test]
fn similarity_is_symmetric() {
    let a = emb("d", "0", vec![100, 200, -50]);
    let b = emb("d", "1", vec![-30, 70, 900]);
    let sab = a.cosine_similarity(&b).unwrap();
    let sba = b.cosine_similarity(&a).unwrap();
    assert_eq!(sab.dot, sba.dot);
    assert_eq!(sab.norm_sq_product, sba.norm_sq_product);
}

#[test]
fn similarity_dimension_mismatch_is_an_error() {
    let a = emb("d", "0", vec![1, 2, 3]);
    let b = emb("d", "1", vec![1, 2]);
    assert_eq!(
        a.cosine_similarity(&b).unwrap_err(),
        IndexError::DimensionMismatch
    );
}

#[test]
fn similarity_zero_magnitude_is_an_error() {
    let a = emb("d", "0", vec![0, 0]);
    let b = emb("d", "1", vec![1, 2]);
    assert_eq!(
        a.cosine_similarity(&b).unwrap_err(),
        IndexError::ZeroMagnitude
    );
}

#[test]
fn similarity_comparison_orders_by_cosine() {
    // against query (1, 0): (1, 0) has cosine 1, (1, 1) cosine ~0.707,
    // (0, 1) cosine 0, (-1, 0) cosine -1
    let q = emb("q", "q", vec![1000, 0]);
    let close = emb("d", "0", vec![500, 0]).cosine_similarity(&q).unwrap();
    let mid = emb("d", "1", vec![500, 500]).cosine_similarity(&q).unwrap();
    let ortho = emb("d", "2", vec![0, 700]).cosine_similarity(&q).unwrap();
    let anti = emb("d", "3", vec![-400, 0]).cosine_similarity(&q).unwrap();
    assert!(similarity_ge(&close, &mid));
    assert!(!similarity_ge(&mid, &close));
    assert!(similarity_ge(&mid, &ortho));
    assert!(similarity_ge(&ortho, &anti));
    assert!(!similarity_ge(&anti, &ortho));
}

#[test]
fn threshold_check_is_exact() {
    let q = emb("q", "q", vec![1000, 0]);
    let mid = emb("d", "1", vec![500, 500]).cosine_similarity(&q).unwrap();
    // cos = 0.7071...: at or above 0.707, strictly below 0.708
    assert!(meets_threshold(&mid, 707));
    assert!(!meets_threshold(&mid, 708));
    assert!(meets_threshold(&mid, 0));
    assert!(meets_threshold(&mid, -1000));
}

#[test]
fn index_new_chunks_every_document() {
    let docs = vec![doc("a", "w1 w2 w3"), doc("b", "x1 x2")];
    let cfg = IndexConfig {
        document_chunk_size: Some(2),
        verbose: false,
    };
    let idx = VectorIndex::new(docs, Some(cfg));
    assert!(idx.embeddings.is_none());
    let n0 = idx.documents[0].nodes.as_ref().unwrap();
    assert_eq!(n0.len(), 2);
    assert_eq!(n0[0].text, "w1 w2");
    assert_eq!(n0[1].text, "w3");
    let n1 = idx.documents[1].nodes.as_ref().unwrap();
    assert_eq!(n1.len(), 1);
    assert_eq!(n1[0].text, "x1 x2");
}

#[test]
fn index_new_without_chunk_size_yields_one_whole_text_node() {
    let docs = vec![doc("a", "keep it all")];
    let idx = VectorIndex::new(docs, None);
    let n0 = idx.documents[0].nodes.as_ref().unwrap();
    assert_eq!(n0.len(), 1);
    assert_eq!(n0[0].id, "0");
    assert_eq!(n0[0].text, "keep it all");
}

#[test]
fn index_new_without_chunk_size_normalizes_whitespace() {
    let docs = vec![doc("a", "  two\t spaces  here \n")];
    let idx = VectorIndex::new(docs, None);
    let n0 = idx.documents[0].nodes.as_ref().unwrap();
    assert_eq!(n0.len(), 1);
    assert_eq!(n0[0].text, "two spaces here");
}

#[test]
fn index_new_without_chunk_size_accepts_empty_text() {
    let docs = vec![doc("a", "")];
    let idx = VectorIndex::new(docs, None);
    let n0 = idx.documents[0].nodes.as_ref().unwrap();
    assert_eq!(n0.len(), 1);
    assert_eq!(n0[0].id, "0");
    assert_eq!(n0[0].text, "");
}

#[test]
fn chunking_splits_at_unicode_whitespace() {
    let mut d = doc("d1", "a\u{A0}b\u{2003}c");
    d.chunk(10);
    let nodes = d.nodes.as_ref().unwrap();
    assert_eq!(nodes.len(), 1);
    assert_eq!(nodes[0].text, "a b c");
}

#[test]
fn pending_texts_lists_units_in_order() {
    let docs = vec![doc("a", "w1 w2 w3"), doc("b", "x1")];
    let cfg = IndexConfig {
        document_chunk_size: Some(1),
        verbose: false,
    };
    let idx = VectorIndex::new(docs, Some(cfg));
    let texts = idx.pending_texts();
    assert_eq!(texts, vec!["w1", "w2", "w3", "x1"]);
}

#[test]
fn complete_build_commits_all_embeddings() {
    let docs = vec![doc("a", "w1 w2"), doc("b", "x1")];
    let cfg = IndexConfig {
        document_chunk_size: Some(1),
        verbose: false,
    };
    let mut idx = VectorIndex::new(docs, Some(cfg));
    let results = vec![
        ok_data(vec![1000, 0], 3),
        ok_data(vec![0, 1000], 4),
        ok_data(vec![500, 500], 5),
    ];
    idx.complete_build(results).unwrap();
    let es = idx.embeddings.as_ref().unwrap();
    assert_eq!(es.len(), 3);
    assert_eq!(es[0].document_id, "a");
    assert_eq!(es[0].document_node_id, "0");
    assert_eq!(es[1].document_id, "a");
    assert_eq!(es[1].document_node_id, "1");
    assert_eq!(es[2].document_id, "b");
    assert_eq!(es[2].document_node_id, "0");
    assert_eq!(idx.total_tokens_used(), 12);
}

#[test]
fn failed_build_commits_nothing() {
    let docs = vec![doc("a", "w1 w2 w3")];
    let cfg = IndexConfig {
        document_chunk_size: Some(1),
        verbose: false,
    };
    let mut idx = VectorIndex::new(docs, Some(cfg));
    let results = vec![
        ok_data(vec![1000, 0], 3),
        Err(IndexError::ProviderError),
        ok_data(vec![0, 1000], 4),
    ];
    let r = idx.complete_build(results);
    assert_eq!(r.unwrap_err(), IndexError::ProviderError);
    assert!(idx.embeddings.is_none());
}

#[test]
fn build_with_wrong_reply_count_is_malformed() {
    let docs = vec![doc("a", "w1 w2")];
    let cfg = IndexConfig {
        document_chunk_size: Some(1),
        verbose: false,
    };
    let mut idx = VectorIndex::new(docs, Some(cfg));
    let r = idx.complete_build(vec![ok_data(vec![1000], 1)]);
    assert_eq!(r.unwrap_err(), IndexError::MalformedResponse);
    assert!(idx.embeddings.is_none());
}

fn built_index() -> VectorIndex {
    // five one-word chunks with handcrafted embeddings
    let docs = vec![doc("a", "w1 w2 w3"), doc("b", "x1 x2")];
    let cfg = IndexConfig {
        document_chunk_size: Some(1),
        verbose: false,
    };
    let mut idx = VectorIndex::new(docs, Some(cfg));
    let results = vec![
        ok_data(vec![1000, 0], 1),   // a/0: cosine 1.0 to the query
        ok_data(vec![500, 500], 1),  // a/1: ~0.707
        ok_data(vec![0, 800], 1),    // a/2: 0.0
        ok_data(vec![900, 100], 1),  // b/0: ~0.993
        ok_data(vec![-500, 0], 1),   // b/1: -1.0
    ];
    idx.complete_build(results).unwrap();
    idx
}

fn query() -> Embedding {
    emb("query", "query", vec![1000, 0])
}

#[test]
fn search_returns_the_closest_chunk() {
    let idx = built_index();
    let cfg = SearchConfig {
        top_k: Some(1),
        threshold: Some(0),
    };
    let r = idx.search(&query(), Some(&cfg)).unwrap();
    let hits = r.source_nodes.unwrap();
    assert_eq!(hits.len(), 1);
    assert_eq!(hits[0].document_id, "a");
    assert_eq!(hits[0].document_node_id, "0");
}

#[test]
fn search_with_unreachable_threshold_returns_nothing() {
    let idx = built_index();
    let cfg = SearchConfig {
        top_k: Some(10),
        threshold: Some(1100),
    };
    let r = idx.search(&query(), Some(&cfg)).unwrap();
    assert_eq!(r.source_nodes.unwrap().len(), 0);
}

#[test]
fn search_top_k_cuts_to_two_sorted_descending() {
    let idx = built_index();
    let cfg = SearchConfig {
        top_k: Some(2),
        threshold: Some(-1000),
    };
    let r = idx.search(&query(), Some(&cfg)).unwrap();
    let hits = r.source_nodes.unwrap();
    assert_eq!(hits.len(), 2);
    // best two: a/0 (1.0) then b/0 (~0.993)
    assert_eq!(hits[0].document_id, "a");
    assert_eq!(hits[0].document_node_id, "0");
    assert_eq!(hits[1].document_id, "b");
    assert_eq!(hits[1].document_node_id, "0");
    assert!(similarity_ge(&hits[0].similarity, &hits[1].similarity));
}

#[test]
fn search_threshold_drops_entries_strictly_below() {
    let idx = built_index();
    let cfg = SearchConfig {
        top_k: Some(10),
        threshold: Some(0),
    };
    let r = idx.search(&query(), Some(&cfg)).unwrap();
    let hits = r.source_nodes.unwrap();
    // kept: 1.0, ~0.993, ~0.707, 0.0; dropped: -1.0
    assert_eq!(hits.len(), 4);
    assert_eq!(hits[3].document_id, "a");
    assert_eq!(hits[3].document_node_id, "2");
}

#[test]
fn search_without_embeddings_returns_absent_marker() {
    let idx = VectorIndex::new(vec![doc("a", "hi")], None);
    let r = idx.search(&query(), None).unwrap();
    assert!(r.source_nodes.is_none());
}

#[test]
fn search_with_dangling_embedding_is_inconsistent() {
    let mut idx = built_index();
    if let Some(es) = idx.embeddings.as_mut() {
        es[2].document_id = "missing".to_string();
    }
    let r = idx.search(&query(), None);
    assert_eq!(r.unwrap_err(), IndexError::InconsistentIndex);
}

#[test]
fn search_skips_zero_magnitude_entries() {
    let docs = vec![doc("a", "w1 w2")];
    let cfg = IndexConfig {
        document_chunk_size: Some(1),
        verbose: false,
    };
    let mut idx = VectorIndex::new(docs, Some(cfg));
    idx.complete_build(vec![ok_data(vec![0, 0], 1), ok_data(vec![800, 0], 1)])
        .unwrap();
    let r = idx
        .search(
            &query(),
            Some(&SearchConfig {
                top_k: Some(10),
                threshold: Some(-1000),
            }),
        )
        .unwrap();
    let hits = r.source_nodes.unwrap();
    assert_eq!(hits.len(), 1);
    assert_eq!(hits[0].document_node_id, "1");
}

#[test]
fn ties_keep_insertion_order() {
    let docs = vec![doc("a", "w1 w2 w3")];
    let cfg = IndexConfig {
        document_chunk_size: Some(1),
        verbose: false,
    };
    let mut idx = VectorIndex::new(docs, Some(cfg));
    // two entries with the same direction (equal cosine), one worse
    idx.complete_build(vec![
        ok_data(vec![400, 0], 1),
        ok_data(vec![0, 900], 1),
        ok_data(vec![800, 0], 1),
    ])
    .unwrap();
    let r = idx
        .search(
            &query(),
            Some(&SearchConfig {
                top_k: Some(3),
                threshold: Some(-1000),
            }),
        )
        .unwrap();
    let hits = r.source_nodes.unwrap();
    assert_eq!(hits.len(), 3);
    // equal-similarity chunks 0 and 2 keep stored order
    assert_eq!(hits[0].document_node_id, "0");
    assert_eq!(hits[1].document_node_id, "2");
    assert_eq!(hits[2].document_node_id, "1");
}

#[test]
fn top_one_search_over_three_documents_finds_the_closest_chunk() {
    // three documents chunked to size 100 (one chunk each); the second
    // document's chunk points almost exactly along the query direction
    let docs = vec![
        doc("alpha", "the quick brown fox"),
        doc("beta", "a matching passage of text"),
        doc("gamma", "something else entirely"),
    ];
    let cfg = IndexConfig {
        document_chunk_size: Some(100),
        verbose: false,
    };
    let mut idx = VectorIndex::new(docs, Some(cfg));
    idx.complete_build(vec![
        ok_data(vec![100, 900], 1),
        ok_data(vec![990, 30], 1),
        ok_data(vec![-700, 200], 1),
    ])
    .unwrap();
    let scfg = SearchConfig {
        top_k: Some(1),
        threshold: Some(0),
    };
    let r = idx.search(&query(), Some(&scfg)).unwrap();
    let hits = r.source_nodes.unwrap();
    assert_eq!(hits.len(), 1);
    assert_eq!(hits[0].document_id, "beta");
    assert_eq!(hits[0].document_node_id, "0");
}

#[test]
fn encode_decode_round_trips_a_built_index() {
    let idx = built_index();
    let text = idx.encode();
    let back = VectorIndex::decode(text.as_str()).unwrap();
    assert_eq!(back.documents.len(), idx.documents.len());
    for (d1, d2) in idx.documents.iter().zip(back.documents.iter()) {
        assert_eq!(d1.id, d2.id);
        assert_eq!(d1.text, d2.text);
        let n1 = d1.nodes.as_ref().unwrap();
        let n2 = d2.nodes.as_ref().unwrap();
        assert_eq!(n1.len(), n2.len());
        for (a, b) in n1.iter().zip(n2.iter()) {
            assert_eq!(a.id, b.id);
            assert_eq!(a.text, b.text);
        }
    }
    let e1 = idx.embeddings.as_ref().unwrap();
    let e2 = back.embeddings.as_ref().unwrap();
    assert_eq!(e1.len(), e2.len());
    for (a, b) in e1.iter().zip(e2.iter()) {
        assert_eq!(a.data, b.data);
        assert_eq!(a.tokens_used, b.tokens_used);
        assert_eq!(a.document_id, b.document_id);
        assert_eq!(a.document_node_id, b.document_node_id);
    }
    assert_eq!(
        back.config.document_chunk_size,
        idx.config.document_chunk_size
    );
    assert_eq!(back.config.verbose, idx.config.verbose);
}

#[test]
fn encode_decode_round_trips_an_unbuilt_index() {
    let idx = VectorIndex::new(vec![doc("only", "free text here")], None);
    let text = idx.encode();
    let back = VectorIndex::decode(text.as_str()).unwrap();
    assert!(back.embeddings.is_none());
    assert_eq!(back.documents[0].id, "only");
    assert_eq!(back.documents[0].text, "free text here");
    assert_eq!(back.documents[0].nodes.as_ref().unwrap()[0].text, "free text here");
}

#[test]
fn encoded_text_names_its_fields() {
    let idx = built_index();
    let text = idx.encode();
    for field in [
        "documents ",
        "doc text ",
        "id ",
        "nodes ",
        "embeddings ",
        "emb data ",
        "document_id ",
        "document_node_id ",
        "tokens_used ",
        "config document_chunk_size ",
        "verbose ",
    ] {
        assert!(text.contains(field), "missing field name: {}", field);
    }
}

#[test]
fn decode_rejects_garbage() {
    assert_eq!(
        VectorIndex::decode("not an index").unwrap_err(),
        IndexError::CorruptIndex
    );
    assert_eq!(
        VectorIndex::decode("").unwrap_err(),
        IndexError::CorruptIndex
    );
}

#[test]
fn decode_rejects_trailing_text() {
    let idx = VectorIndex::new(vec![doc("a", "t")], None);
    let mut text = idx.encode();
    text.push_str("extra");
    assert_eq!(
        VectorIndex::decode(text.as_str()).unwrap_err(),
        IndexError::CorruptIndex
    );
}

#[test]
fn strings_with_newlines_and_colons_survive() {
    let idx = VectorIndex::new(vec![doc("id:with colon", "line1\nline2 7:x")], None);
    let text = idx.encode();
    let back = VectorIndex::decode(text.as_str()).unwrap();
    assert_eq!(back.documents[0].id, "id:with colon");
    assert_eq!(back.documents[0].text, "line1\nline2 7:x");
}

#[test]
fn request_uses_the_fixed_model() {
    let r = GPTEmbeddingRequest::new("some chunk".to_string());
    assert_eq!(r.model, "text-embedding-ada-002");
    assert_eq!(r.input, "some chunk");
}

#[test]
fn languages_come_from_extensions() {
    assert_eq!(Language::from_extension("rs"), Language::Rust);
    assert_eq!(Language::from_extension("ts"), Language::TypeScript);
    assert_eq!(Language::from_extension("md"), Language::Markdown);
    assert_eq!(Language::from_extension("json"), Language::JSON);
}

#[test]
fn number_rendering_is_decimal() {
    assert_eq!(u64_to_string(0), "0");
    assert_eq!(u64_to_string(907), "907");
    assert_eq!(usize_to_string(18446744073709551615usize.min(12345)), "12345");
    assert!(str_eq("abc", "abc"));
    assert!(!str_eq("abc", "abd"));
}

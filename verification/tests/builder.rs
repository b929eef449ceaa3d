//! The build pipeline: interning, frequency counting, dimension
//! assignment, and the finished index.

use vsm_index::build::term_store::TermStoreBuilder;
use vsm_index::build::IndexBuilder;
use vsm_index::metadata::{DefaultMetadata, IndexVersion};
use vsm_index::vector::WEIGHT_ONE;

fn terms_of(words: &[&str]) -> Vec<Vec<u8>> {
    words.iter().map(|w| w.as_bytes().to_vec()).collect()
}

/// Lengths for an unweighted build: every weight is 1.0, so a vector's
/// length is the square root of its distinct term count.
fn unit_lengths<D>(builder: &IndexBuilder<D>) -> Vec<u32> {
    builder
        .vectors
        .iter()
        .map(|dv| (dv.vector().dimen_count() as f32).sqrt().to_bits())
        .collect()
}

#[test]
fn test_indexer() {
    let insert_documents: &[&[&str]] = &[
        &["to", "drive", "a", "car"],
        &["to", "have", "a", "call"],
        &["to", "make", "a", "stand", "a"],
    ];

    let mut indexer = IndexBuilder::<usize>::new();

    for (pos, terms) in insert_documents.iter().enumerate() {
        indexer.insert_new_vec(pos, &terms_of(terms));
    }

    let term_store_builder = &indexer.terms;

    assert!(indexer.vectors.len() == insert_documents.len());
    let term_a = term_store_builder.get_term_id(b"a");
    assert!(term_a.is_some());
    assert_eq!(
        term_store_builder.doc_frequencies().get(term_a.unwrap() as usize),
        Some(&3)
    );
}

#[test]
fn tiny_corpus_build_and_postings() {
    let docs: &[&[&str]] = &[
        &["to", "drive", "a", "car"],
        &["to", "have", "a", "call"],
        &["to", "make", "a", "stand", "a"],
    ];
    let mut builder = IndexBuilder::<u32>::new();
    for (pos, terms) in docs.iter().enumerate() {
        builder.insert_new_vec(pos as u32, &terms_of(terms));
    }
    assert_eq!(
        builder.terms.doc_frequencies()[builder.terms.get_term_id(b"stand").unwrap() as usize],
        1
    );
    let lengths = unit_lengths(&builder);
    let index = builder
        .build(DefaultMetadata::new(IndexVersion::V1), None, &lengths)
        .unwrap();
    assert_eq!(index.get_metadata().get_document_count(), 3);
    // term "a" resolves to its rank; all three documents lie in it, ascending
    let dim_a = index.get_indexer().get_term(b"a").unwrap();
    let posting = index.get_vector_store().get_map().get(dim_a as u32).unwrap();
    assert_eq!(posting, vec![0, 1, 2]);
    // every document vector is retrievable and carries unit weights
    for id in 0..3 {
        let dv = index.get_vector_store().load_vector(id).unwrap();
        assert!(dv.vector().vec_values().iter().all(|&w| w == WEIGHT_ONE));
    }
}

#[test]
fn term_store_builder_counts_frequencies() {
    let mut b = TermStoreBuilder::new();
    let id_x = b.get_or_add_term(b"x");
    let id_y = b.get_or_add_term(b"y");
    assert_eq!(b.get_or_add_term(b"x"), id_x);
    b.update_term_freq(id_x, 0);
    b.update_term_freq(id_x, 0);
    b.update_term_freq(id_y, 1);
    assert_eq!(b.get_term_freq(id_x, 0), Some(2));
    assert_eq!(b.get_term_freq(id_y, 1), Some(1));
    assert_eq!(b.get_term_freq(id_y, 0), None);
    b.update_doc_freq(&vec![id_x, id_y]);
    assert_eq!(b.doc_frequencies()[id_x as usize], 1);
    // dimensions follow text order: "x" before "y"
    assert!(b.get_sorted_term_pos(id_x) < b.get_sorted_term_pos(id_y));
    let order = b.build_order_map();
    assert_eq!(order[id_x as usize], b.get_sorted_term_pos(id_x));
}

#[test]
fn stopword_threshold() {
    let mut builder = IndexBuilder::<u32>::new();
    for doc in 0..20u32 {
        let mut words: Vec<Vec<u8>> = vec![format!("w{}", doc).into_bytes()];
        if doc < 10 {
            words.push(b"the".to_vec());
        }
        if doc < 6 {
            words.push(b"rare".to_vec());
        }
        builder.insert_new_vec(doc, &words);
    }
    let lengths = unit_lengths(&builder);
    let index = builder
        .build(DefaultMetadata::new(IndexVersion::V1), None, &lengths)
        .unwrap();
    assert_eq!(index.is_stopword(b"the"), Some(true));
    assert_eq!(index.is_stopword(b"rare"), Some(false));
    assert_eq!(index.is_stopword(b"unknown"), None);
    assert_eq!(index.is_stopword_cust(b"rare", 30), Some(true));
}

#[test]
fn tfidf_single_term_query() {
    let mut builder = IndexBuilder::<u32>::new();
    for doc in 0..10u32 {
        let mut words: Vec<Vec<u8>> = vec![format!("w{}", doc).into_bytes()];
        if doc < 2 {
            words.push(b"x".to_vec());
        }
        builder.insert_new_vec(doc, &words);
    }
    let lengths = unit_lengths(&builder);
    let index = builder
        .build(DefaultMetadata::new(IndexVersion::V1), None, &lengths)
        .unwrap();
    // query-time TF-IDF: tf = 1, df from the dictionary, N documents
    let df = index.get_indexer().find_term(b"x").unwrap().doc_frequency() as f32;
    let n = index.get_vector_store().len() as f32;
    let weight = (1f32.log10() + 1.0) * (n / df).log10();
    let q = index
        .build_vector_weights(&vec![(b"x".to_vec(), weight.to_bits())])
        .unwrap();
    assert_eq!(q.dimen_count(), 1);
    let got = f32::from_bits(q.vec_values()[0]);
    assert!((got - 0.6990).abs() < 1e-4);
    // nothing resolvable gives no vector
    assert!(index.build_vector(&vec![b"missing".to_vec()]).is_none());
}

#[test]
fn weighted_insert_keeps_first_weight_per_term() {
    let mut builder = IndexBuilder::<u32>::new();
    let terms: Vec<(Vec<u8>, u32)> = vec![
        (b"beta".to_vec(), 2.0f32.to_bits()),
        (b"alpha".to_vec(), 0.5f32.to_bits()),
        (b"beta".to_vec(), 9.0f32.to_bits()),
    ];
    let id = builder.insert_new_weighted_vec(7, &terms);
    assert_eq!(id, 0);
    let dv = &builder.vectors[0];
    assert_eq!(dv.vector().dimen_count(), 2);
    // dimensions are insertion ids: "beta" got 0, "alpha" got 1
    let id_beta = builder.terms.get_term_id(b"beta").unwrap();
    let id_alpha = builder.terms.get_term_id(b"alpha").unwrap();
    assert!(dv.vector().has_dim(id_beta));
    assert!(dv.vector().has_dim(id_alpha));
    // the first weight given for "beta" wins
    let pairs = dv.vector().sparse_vec();
    let w_beta = pairs.iter().find(|p| p.0 == id_beta).unwrap().1;
    assert_eq!(w_beta, 2.0f32.to_bits());
    // term frequency counted both occurrences
    assert_eq!(builder.terms.get_term_freq(id_beta, 0), Some(2));
    assert_eq!(builder.terms.doc_frequencies()[id_beta as usize], 1);
}

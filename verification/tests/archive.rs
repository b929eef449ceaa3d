//! The on-disk artifact: serialization, validated reload, and byte-level
//! idempotence.

use vsm_index::build::IndexBuilder;
use vsm_index::term_store::item::IndexTerm;
use vsm_index::term_store::TermIndexer;
use vsm_index::index::Index;
use vsm_index::metadata::{DefaultMetadata, IndexVersion};

fn build_corpus(n_docs: u32) -> Index<u32> {
    let mut builder = IndexBuilder::<u32>::new();
    for doc in 0..n_docs {
        let words: Vec<Vec<u8>> = vec![
            format!("term{}", doc % 50).into_bytes(),
            format!("term{}", (doc * 7 + 3) % 50).into_bytes(),
            b"common".to_vec(),
            format!("tag{}", doc % 11).into_bytes(),
        ];
        builder.insert_new_vec(doc, &words);
    }
    let lengths: Vec<u32> = builder
        .vectors
        .iter()
        .map(|dv| (dv.vector().dimen_count() as f32).sqrt().to_bits())
        .collect();
    builder
        .build(DefaultMetadata::new(IndexVersion::V1), None, &lengths)
        .unwrap()
}

#[test]
fn round_trip_archive() {
    let index = build_corpus(1000);
    let bytes = index.to_bytes();
    let back = Index::<u32>::from_reader(bytes.as_slice()).unwrap();
    // equal document and term counts
    assert_eq!(
        back.get_metadata().get_document_count(),
        index.get_metadata().get_document_count()
    );
    assert_eq!(back.get_indexer().len(), index.get_indexer().len());
    // bit-identical posting for every dimension
    for d in 0..index.get_vector_store().get_map().dims_count() {
        assert_eq!(
            back.get_vector_store().get_map().get(d as u32),
            index.get_vector_store().get_map().get(d as u32)
        );
    }
    // bit-identical encoded bytes for every vector
    for id in 0..index.get_vector_store().len() {
        let a = index.get_vector_store().load_vector(id).unwrap();
        let b = back.get_vector_store().load_vector(id).unwrap();
        assert_eq!(a.encode().unwrap(), b.encode().unwrap());
    }
    // reserializing gives the identical artifact
    assert_eq!(back.to_bytes(), bytes);
}

#[test]
fn from_reader_rejects_bad_magic() {
    let index = build_corpus(3);
    let mut bytes = index.to_bytes();
    bytes[0] = b'X';
    assert!(Index::<u32>::from_reader(bytes.as_slice()).is_err());
}

#[test]
fn from_reader_rejects_truncation() {
    let index = build_corpus(3);
    let bytes = index.to_bytes();
    assert!(Index::<u32>::from_reader(&bytes[..bytes.len() - 1]).is_err());
}

#[test]
fn candidate_retrieval_after_reload() {
    let index = build_corpus(30);
    let bytes = index.to_bytes();
    let back = Index::<u32>::from_reader(bytes.as_slice()).unwrap();
    let q = back.build_vector(&vec![b"common".to_vec()]).unwrap();
    let candidates = back.get_vector_store().get_for_vec(&q);
    assert_eq!(candidates.len(), 30);
    // deduplicated even when several dimensions are shared
    let q2 = back
        .build_vector(&vec![b"common".to_vec(), b"term0".to_vec()])
        .unwrap();
    let dims = q2.vec_indices();
    let ids = back.get_vector_store().get_in_dims(dims.as_slice());
    let mut sorted = ids.clone();
    sorted.sort_unstable();
    sorted.dedup();
    assert_eq!(ids, sorted);
    assert!(back.get_vector_store().dimension_size(
        back.get_indexer().get_term(b"common").unwrap() as u32
    ) == 30);
}

#[test]
fn term_dictionary_iterates_in_text_order() {
    let index = build_corpus(5);
    let bytes = index.to_bytes();
    let back = Index::<u32>::from_reader(bytes.as_slice()).unwrap();
    let listed = back.get_indexer().iter();
    let texts: Vec<Vec<u8>> = listed.iter().map(|t| t.text().clone()).collect();
    let mut expect = texts.clone();
    expect.sort();
    assert_eq!(texts, expect);
    // lookups find exactly the listed terms
    for t in &texts {
        assert!(back.get_indexer().get_term(t.as_slice()).is_some());
    }
    assert!(back.get_indexer().get_term(b"absent-term").is_none());
}

#[test]
fn term_dictionary_append_after_custom_sort() {
    let index = build_corpus(5);
    let bytes = index.to_bytes();
    let mut back = Index::<u32>::from_reader(bytes.as_slice()).unwrap();
    back.build_cust_sort();
    assert!(!back.get_indexer().is_sorted());
    assert_eq!(
        back.insert_new_term(IndexTerm::new(b"zzz-new".to_vec(), 1)),
        Some(index.get_indexer().len() as u32)
    );
    assert!(back.get_indexer().get_term(b"zzz-new").is_some());
    let texts: Vec<Vec<u8>> = back.get_indexer().iter().iter().map(|t| t.text().clone()).collect();
    let mut expect = texts.clone();
    expect.sort();
    assert_eq!(texts, expect);
    // a standalone dictionary can be rebuilt from its serialized section too
    let section = index.get_indexer().encode();
    let (indexer, used) = TermIndexer::decode(section.as_slice(), 0).unwrap();
    assert_eq!(used, section.len());
    assert_eq!(indexer.len(), index.get_indexer().len());
}

#[test]
fn from_reader_rejects_trailing_bytes() {
    let index = build_corpus(3);
    let mut bytes = index.to_bytes();
    bytes.push(0);
    assert!(Index::<u32>::from_reader(bytes.as_slice()).is_err());
}

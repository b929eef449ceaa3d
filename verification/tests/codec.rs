//! Byte-level codecs: the length-prefixed integer lists, term records, the
//! indexed byte store, metadata, and the bit-exact document-vector blob.

use vsm_index::document::DocumentVector;
use vsm_index::mem_file::MemFile;
use vsm_index::metadata::{DefaultMetadata, IndexVersion};
use vsm_index::term_store::TermIndexer;
use vsm_index::term_store::item::IndexTerm;
use vsm_index::traits::{Decodable, Encodable};
use vsm_index::vector::Vector;

#[test]
fn test_vec_encode() {
    let input: Vec<u32> = vec![10, 7697, 16, 76];
    let encoded = input.encode().unwrap();
    let (decoded, used) = Vec::<u32>::decode(encoded.as_slice(), 0).unwrap();
    assert_eq!(decoded, input);
    assert_eq!(used, encoded.len());
}

#[test]
fn u64_encode_round_trip() {
    let x: u64 = 0xdead_beef_0012_3456;
    let encoded = x.encode().unwrap();
    let (decoded, used) = u64::decode(encoded.as_slice(), 0).unwrap();
    assert_eq!(decoded, x);
    assert_eq!(used, 8);
}

#[test]
fn term_record_round_trip() {
    let t = IndexTerm::new(b"drive".to_vec(), 7);
    let encoded = t.encode().unwrap();
    let back = IndexTerm::decode(encoded.as_slice());
    assert_eq!(back.text(), &b"drive".to_vec());
    assert_eq!(back.doc_frequency(), 7);
}

#[test]
fn mem_file_stores_records_in_order() {
    let mut f = MemFile::new();
    assert_eq!(f.insert(b"alpha"), 0);
    assert_eq!(f.insert(b""), 1);
    assert_eq!(f.insert(b"omega"), 2);
    assert_eq!(f.len(), 3);
    assert_eq!(f.get(0).unwrap(), b"alpha".to_vec());
    assert_eq!(f.get(1).unwrap(), Vec::<u8>::new());
    assert_eq!(f.get(2).unwrap(), b"omega".to_vec());
    assert!(f.get(3).is_none());
    let encoded = f.encode();
    let (back, used) = MemFile::decode(encoded.as_slice(), 0).unwrap();
    assert_eq!(used, encoded.len());
    assert_eq!(back.iter(), vec![b"alpha".to_vec(), Vec::new(), b"omega".to_vec()]);
}

#[test]
fn mem_file_rejects_malformed_offsets() {
    // offsets [4, 2] are not monotone
    let mut bytes = Vec::new();
    bytes.extend_from_slice(&2u64.to_le_bytes());
    bytes.extend_from_slice(&4u32.to_le_bytes());
    bytes.extend_from_slice(&2u32.to_le_bytes());
    bytes.extend_from_slice(&8u64.to_le_bytes());
    bytes.extend_from_slice(&[0u8; 8]);
    assert!(MemFile::decode(bytes.as_slice(), 0).is_err());
}

#[test]
fn metadata_round_trip_and_unknown_version() {
    let mut m = DefaultMetadata::new(IndexVersion::V1);
    m.set_document_count(42);
    let encoded = m.encode();
    assert_eq!(encoded.len(), 9);
    assert_eq!(encoded[0], 0);
    let (back, used) = DefaultMetadata::decode(encoded.as_slice(), 0).unwrap();
    assert_eq!(used, 9);
    assert_eq!(back.get_document_count(), 42);
    assert_eq!(back.get_version(), IndexVersion::V1);
    let mut bad = encoded.clone();
    bad[0] = 9;
    assert!(DefaultMetadata::decode(bad.as_slice(), 0).is_err());
}

#[test]
fn document_vector_blob_round_trip_is_bit_exact() {
    // weights with awkward bit patterns, length taken at face value
    let pairs = vec![(3u32, 0.1f32.to_bits()), (70000, f32::to_bits(-2.5)), (0xFF_FFFF, 1.0f32.to_bits())];
    let v = Vector::new_raw(pairs.clone(), 12.75f32.to_bits());
    let dv = DocumentVector::new(77u32, v);
    let encoded = dv.encode().unwrap();
    let (back, used) = DocumentVector::<u32>::decode(encoded.as_slice(), 0).unwrap();
    assert_eq!(used, encoded.len());
    assert_eq!(back.document, 77);
    assert_eq!(back.vector().sparse_vec(), &pairs);
    assert_eq!(back.vector().get_length(), 12.75f32.to_bits());
}

#[test]
fn document_vector_decode_rejects_unsorted_dims() {
    let v = Vector::new_raw(vec![(1, 5), (2, 6)], 0);
    let dv = DocumentVector::new(0u32, v);
    let mut encoded = dv.encode().unwrap();
    // swap the two stored dimensions: 1 and 2 at offsets 6 and 13
    encoded[6] = 2;
    encoded[13] = 1;
    assert!(DocumentVector::<u32>::decode(encoded.as_slice(), 0).is_err());
}

#[test]
fn document_vector_encode_rejects_wide_dims() {
    let v = Vector::new_raw(vec![(0x100_0000, 5)], 0);
    let dv = DocumentVector::new(0u32, v);
    assert!(dv.encode().is_err());
}

fn section_with_record(record: &[u8]) -> Vec<u8> {
    let mut store = MemFile::new();
    store.insert(record);
    let mut bytes = store.encode();
    bytes.extend_from_slice(&0u64.to_le_bytes()); // total documents
    bytes.extend_from_slice(&0u64.to_le_bytes()); // no sort permutation
    bytes
}

#[test]
fn dictionary_decode_rejects_invalid_texts() {
    // a valid single-term dictionary section round-trips
    let good = section_with_record(&[1, 0, 0, 0, b'a']);
    assert!(TermIndexer::decode(good.as_slice(), 0).is_ok());
    // empty text: only the doc-frequency prefix
    let empty_text = section_with_record(&[1, 0, 0, 0]);
    assert!(TermIndexer::decode(empty_text.as_slice(), 0).is_err());
    // embedded NUL in the text
    let nul_text = section_with_record(&[1, 0, 0, 0, b'a', 0, b'b']);
    assert!(TermIndexer::decode(nul_text.as_slice(), 0).is_err());
}

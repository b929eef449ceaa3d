//! The dense dimension-to-posting map: layout, padding, lookup, and
//! serialization.

use vsm_index::inv_index::{sort_dedup_u32s, InvertedIndex, NewDimVecMap};

#[test]
fn build_pads_missing_dims_and_sorts_postings() {
    let map = NewDimVecMap::new(vec![(3, vec![9, 2, 2, 5]), (0, vec![1])]);
    let ii = map.build().unwrap();
    assert_eq!(ii.dims_count(), 4);
    assert_eq!(ii.get(0), Some(vec![1]));
    assert_eq!(ii.get(1), None);
    assert_eq!(ii.get(2), None);
    assert_eq!(ii.get(3), Some(vec![2, 5, 9]));
    assert_eq!(ii.get(4), None);
    assert!(ii.has(0) && ii.has(3));
    assert!(!ii.has(1) && !ii.has(9));
}

#[test]
fn decoded_map_lists_nonempty_dims_ascending() {
    let map = NewDimVecMap::new(vec![(2, vec![4]), (0, vec![1, 3])]);
    let ii = map.build().unwrap();
    let decoded = ii.decoded_map();
    assert_eq!(decoded.len(), 2);
    assert_eq!(decoded[0], (0, vec![1, 3]));
    assert_eq!(decoded[1], (2, vec![4]));
}

#[test]
fn inverted_index_round_trip() {
    let map = NewDimVecMap::new(vec![(1, vec![7, 7, 0])]);
    let ii = map.build().unwrap();
    let encoded = ii.encode();
    let (back, used) = InvertedIndex::decode(encoded.as_slice(), 0).unwrap();
    assert_eq!(used, encoded.len());
    assert_eq!(back.get(1), Some(vec![0, 7]));
    assert_eq!(back.get(0), None);
}

#[test]
fn decode_rejects_descending_posting() {
    // one dim, posting [2, 1] is not ascending
    let mut bytes = Vec::new();
    bytes.extend_from_slice(&1u64.to_le_bytes()); // one offset
    bytes.extend_from_slice(&0u32.to_le_bytes());
    bytes.extend_from_slice(&3u64.to_le_bytes()); // three words
    for w in [2u32, 2, 1] {
        bytes.extend_from_slice(&w.to_le_bytes());
    }
    assert!(InvertedIndex::decode(bytes.as_slice(), 0).is_err());
}

#[test]
fn sort_dedup_u32s_sorts_and_dedups() {
    assert_eq!(sort_dedup_u32s(&vec![5, 1, 5, 0, 1]), vec![0, 1, 5]);
    assert_eq!(sort_dedup_u32s(&vec![]), Vec::<u32>::new());
}

#[test]
fn byte_len_counts_words() {
    let ii = NewDimVecMap::new(vec![(0, vec![1])]).build().unwrap();
    // one offset word, one length word, one id word
    assert_eq!(ii.byte_len(), 12);
}

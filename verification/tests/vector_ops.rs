//! Sparse vector operations: sorting, dedup, lookup, and the lockstep
//! merge, including the cosine checks done through the raw bit values.

use vsm_index::lock_step::LockStepIter;
use vsm_index::vector::{sort_dedup_pairs, Vector, WEIGHT_ONE};

fn bits(x: f32) -> u32 {
    x.to_bits()
}

fn val(b: u32) -> f32 {
    f32::from_bits(b)
}

/// Cosine similarity computed from the library's merged pairs and cached
/// lengths, as the floating-point layer around the crate does it.
fn similarity(a: &Vector, b: &Vector) -> f32 {
    let dot: f32 = a
        .overlapping(b)
        .iter()
        .map(|&(_, wa, wb)| val(wa) * val(wb))
        .sum();
    dot / (val(a.get_length()) * val(b.get_length()))
}

fn vector_of(pairs: &[(u32, f32)]) -> Vector {
    let raw: Vec<(u32, u32)> = pairs.iter().map(|&(d, w)| (d, bits(w))).collect();
    let mut v = Vector::create_new_raw(raw);
    let len: f32 = pairs.iter().map(|&(_, w)| w * w).sum::<f32>().sqrt();
    v.set_length(bits(len));
    v
}

#[test]
fn create_new_raw_sorts_and_dedups() {
    let v = Vector::create_new_raw(vec![(5, 10), (1, 20), (3, 30), (1, 99)]);
    assert_eq!(v.sparse_vec(), &vec![(1, 20), (3, 30), (5, 10)]);
    assert_eq!(v.dimen_count(), 3);
    assert!(v.has_dim(1) && v.has_dim(3) && v.has_dim(5));
    assert!(!v.has_dim(0) && !v.has_dim(2) && !v.has_dim(6));
}

#[test]
fn sort_dedup_keeps_first() {
    let out = sort_dedup_pairs(&vec![(2, 7), (2, 8), (0, 1)]);
    assert_eq!(out, vec![(0, 1), (2, 7)]);
}

#[test]
fn delete_dim_removes_pair() {
    let mut v = Vector::create_new_raw(vec![(0, 1), (2, 2), (4, 3)]);
    v.delete_dim(2);
    assert_eq!(v.sparse_vec(), &vec![(0, 1), (4, 3)]);
    v.delete_dim(9);
    assert_eq!(v.sparse_vec(), &vec![(0, 1), (4, 3)]);
}

#[test]
fn update_resorts_after_raw_edits() {
    let mut v = Vector::new_raw(vec![(1, 5), (4, 6)], 0);
    v.update();
    assert_eq!(v.sparse_vec(), &vec![(1, 5), (4, 6)]);
}

#[test]
fn overlaps_equivalence_samples() {
    let a = vector_of(&[(0, 1.0), (2, 1.0), (7, 3.0)]);
    let b = vector_of(&[(2, 5.0), (9, 1.0)]);
    let c = vector_of(&[(1, 1.0), (3, 1.0)]);
    // overlaps_with agrees with a dimension-by-dimension check
    for (x, y) in [(&a, &b), (&a, &c), (&b, &c)] {
        let brute = (0..16u32).any(|d| x.has_dim(d) && y.has_dim(d));
        assert_eq!(x.overlaps_with(y), brute);
    }
    assert!(a.overlaps_with(&b));
    assert!(!a.overlaps_with(&c));
}

#[test]
fn disjoint_vectors_do_not_overlap_and_have_zero_similarity() {
    let a = vector_of(&[(0, 1.0), (2, 1.0)]);
    let b = vector_of(&[(1, 1.0), (3, 1.0)]);
    assert!(!a.overlaps_with(&b));
    assert!(a.overlapping(&b).is_empty());
    assert_eq!(similarity(&a, &b), 0.0);
}

#[test]
fn cosine_self_similarity_is_one() {
    let v = vector_of(&[(0, 0.5), (3, 2.25), (9, 1.75)]);
    let s = similarity(&v, &v);
    assert!((0.99999..=1.00001).contains(&s));
}

#[test]
fn could_overlap_checks_ranges() {
    let a = vector_of(&[(0, 1.0), (2, 1.0)]);
    let b = vector_of(&[(3, 1.0), (9, 1.0)]);
    assert!(!a.could_overlap(&b));
    let c = vector_of(&[(2, 1.0), (3, 1.0)]);
    assert!(a.could_overlap(&c));
}

#[test]
fn lock_step_iter_yields_shared_dims_ascending() {
    let a = vec![(0u32, bits(1.0)), (2, bits(2.0)), (5, bits(3.0))];
    let b = vec![(2u32, bits(4.0)), (3, bits(9.0)), (5, bits(6.0))];
    let mut it = LockStepIter::new(a, b);
    assert_eq!(it.next(), Some((2, bits(2.0), bits(4.0))));
    assert_eq!(it.next(), Some((5, bits(3.0), bits(6.0))));
    assert_eq!(it.next(), None);
}

#[test]
fn weight_one_is_the_unit_bit_pattern() {
    assert_eq!(WEIGHT_ONE, 1.0f32.to_bits());
}

#[test]
fn vec_indices_and_values_follow_stored_order() {
    let v = Vector::create_new_raw(vec![(4, 44), (1, 11)]);
    assert_eq!(v.vec_indices(), vec![1, 4]);
    assert_eq!(v.vec_values(), vec![11, 44]);
}

//! Lockstep merge over two sorted dimension streams.
//!
//! Given two sparse vectors' pair lists, the iterator yields one triple
//! `(dim, value_a, value_b)` for each dimension the two share, ascending by
//! dimension: it advances the side with the smaller head until the heads
//! agree or one side is exhausted.

use vstd::prelude::*;

use crate::vector::{first_weight, has_dim_from, pairs_sorted, seq_has_dim};

verus! {

/// A lockstep merge in progress: the two sorted pair lists and the current
/// position in each.
pub struct LockStepIter {
    a: Vec<(u32, u32)>,
    b: Vec<(u32, u32)>,
    i: usize,
    j: usize,
}

impl LockStepIter {
    pub closed spec fn spec_a(&self) -> Seq<(u32, u32)> {
        self.a@
    }

    pub closed spec fn spec_b(&self) -> Seq<(u32, u32)> {
        self.b@
    }

    pub closed spec fn spec_i(&self) -> int {
        self.i as int
    }

    pub closed spec fn spec_j(&self) -> int {
        self.j as int
    }

    pub open spec fn wf(&self) -> bool {
        &&& pairs_sorted(self.spec_a())
        &&& pairs_sorted(self.spec_b())
        &&& 0 <= self.spec_i() <= self.spec_a().len()
        &&& 0 <= self.spec_j() <= self.spec_b().len()
    }

    /// Starts a lockstep merge over two sorted pair lists.
    pub fn new(a: Vec<(u32, u32)>, b: Vec<(u32, u32)>) -> (r: LockStepIter)
        requires
            pairs_sorted(a@),
            pairs_sorted(b@),
        ensures
            r.wf(),
            r.spec_a() == a@,
            r.spec_b() == b@,
            r.spec_i() == 0,
            r.spec_j() == 0,
    {
        LockStepIter { a, b, i: 0, j: 0 }
    }

    /// Yields the next shared dimension with both its values, or `None` when
    /// the remainders share none. The yielded dimension is the smallest
    /// dimension the remainders share, and every other shared dimension is
    /// still shared by the new remainders.
    #[verifier::loop_isolation(false)]
    pub fn next(&mut self) -> (r: Option<(u32, u32, u32)>)
        requires
            old(self).wf(),
        ensures
            final(self).wf(),
            final(self).spec_a() == old(self).spec_a(),
            final(self).spec_b() == old(self).spec_b(),
            old(self).spec_i() <= final(self).spec_i(),
            old(self).spec_j() <= final(self).spec_j(),
            r matches Some(t) ==> seq_has_dim(old(self).spec_a(), t.0) && seq_has_dim(
                old(self).spec_b(),
                t.0,
            ) && t.1 == first_weight(old(self).spec_a(), t.0) && t.2 == first_weight(
                old(self).spec_b(),
                t.0,
            ) && (forall|d: u32|
                #![trigger has_dim_from(old(self).spec_a(), old(self).spec_i(), d)]
                has_dim_from(old(self).spec_a(), old(self).spec_i(), d) && has_dim_from(
                    old(self).spec_b(),
                    old(self).spec_j(),
                    d,
                ) ==> t.0 <= d && (d != t.0 ==> has_dim_from(
                    old(self).spec_a(),
                    final(self).spec_i(),
                    d,
                ) && has_dim_from(old(self).spec_b(), final(self).spec_j(), d))),
            r is None ==> forall|d: u32|
                #![trigger has_dim_from(old(self).spec_a(), old(self).spec_i(), d)]
                !(has_dim_from(old(self).spec_a(), old(self).spec_i(), d) && has_dim_from(
                    old(self).spec_b(),
                    old(self).spec_j(),
                    d,
                )),
    {
        let mut i = self.i;
        let mut j = self.j;
        while i < self.a.len() && j < self.b.len()
            invariant
                self == old(self),
                self.i <= i <= self.a@.len(),
                self.j <= j <= self.b@.len(),
                forall|d: u32|
                    #![trigger has_dim_from(self.a@, self.i as int, d)]
                    has_dim_from(self.a@, self.i as int, d) && has_dim_from(self.b@, self.j as int, d)
                        ==> has_dim_from(self.a@, i as int, d) && has_dim_from(self.b@, j as int, d),
            decreases self.a@.len() - i + self.b@.len() - j,
        {
            let da = self.a[i].0;
            let db = self.b[j].0;
            if da == db {
                let t = (da, self.a[i].1, self.b[j].1);
                proof {
                    crate::vector::lemma_sorted_weight(self.a@, i as int);
                    crate::vector::lemma_sorted_weight(self.b@, j as int);
                    assert(self.a@[i as int].0 == da);
                    assert(self.b@[j as int].0 == da);
                    assert(seq_has_dim(self.a@, da));
                    assert(seq_has_dim(self.b@, da));
                    assert forall|d: u32|
                        #![trigger has_dim_from(self.a@, self.i as int, d)]
                        has_dim_from(self.a@, self.i as int, d) && has_dim_from(
                            self.b@,
                            self.j as int,
                            d,
                        ) implies da <= d && (d != da ==> has_dim_from(self.a@, i as int + 1, d)
                            && has_dim_from(self.b@, j as int + 1, d)) by {
                        assert(has_dim_from(self.a@, i as int, d) && has_dim_from(self.b@, j as int, d));
                        let ka = choose|k: int|
                            i as int <= k < self.a@.len() && (#[trigger] self.a@[k]).0 == d;
                        let kb = choose|k: int|
                            j as int <= k < self.b@.len() && (#[trigger] self.b@[k]).0 == d;
                        if ka > i as int {
                            assert(self.a@[i as int].0 < self.a@[ka].0);
                        }
                        if d != da {
                            assert(ka != i as int && kb != j as int);
                            assert(has_dim_from(self.a@, i as int + 1, d));
                            assert(has_dim_from(self.b@, j as int + 1, d));
                        }
                    }
                }
                self.i = i + 1;
                self.j = j + 1;
                return Some(t);
            } else if da < db {
                proof {
                    crate::vector::lemma_merge_advance(self.a@, self.b@, i as int, j as int);
                    assert forall|d: u32|
                        #![trigger has_dim_from(self.a@, self.i as int, d)]
                        has_dim_from(self.a@, self.i as int, d) && has_dim_from(
                            self.b@,
                            self.j as int,
                            d,
                        ) implies has_dim_from(self.a@, i as int + 1, d) && has_dim_from(
                        self.b@,
                        j as int,
                        d,
                    ) by {
                        assert(has_dim_from(self.a@, i as int, d) && has_dim_from(self.b@, j as int, d));
                    }
                }
                i += 1;
            } else {
                proof {
                    crate::vector::lemma_merge_advance(self.b@, self.a@, j as int, i as int);
                    assert forall|d: u32|
                        #![trigger has_dim_from(self.a@, self.i as int, d)]
                        has_dim_from(self.a@, self.i as int, d) && has_dim_from(
                            self.b@,
                            self.j as int,
                            d,
                        ) implies has_dim_from(self.a@, i as int, d) && has_dim_from(
                        self.b@,
                        j as int + 1,
                        d,
                    ) by {
                        assert(has_dim_from(self.a@, i as int, d) && has_dim_from(self.b@, j as int, d));
                    }
                }
                j += 1;
            }
        }
        proof {
            assert forall|d: u32|
                #![trigger has_dim_from(self.a@, self.i as int, d)]
                !(has_dim_from(self.a@, self.i as int, d) && has_dim_from(self.b@, self.j as int, d)) by {
                if has_dim_from(self.a@, self.i as int, d) && has_dim_from(self.b@, self.j as int, d) {
                    assert(has_dim_from(self.a@, i as int, d) && has_dim_from(self.b@, j as int, d));
                }
            }
        }
        self.i = i;
        self.j = j;
        None
    }
}

} // verus!

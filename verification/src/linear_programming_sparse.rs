//! Sparse vector and matrix primitives over the extended numeric domain.
//!
//! `SparseVec` is an append-only builder of (index, value) pairs.
//! `ScatteredVec` is a dense-length workspace with constant-time reads and
//! writes and a clear that revisits only the touched positions: `nonzero`
//! lists exactly the indices whose `is_nonzero` flag is set, and an unmarked
//! position always holds exact zero.

use vstd::prelude::*;

verus! {

use crate::abnormal_fraction::{
    AbnormalFraction, ExtRat, add_v, ext_val_eq, ext_wf, is_zero_v, lemma_add_v_cong,
    lemma_add_v_wf, lemma_ext_val_eq_trans, lemma_mul_v_wf, lemma_sum_v_wf, mul_v, squares_v,
    sum_v, views_of,
};
use vstd::multiset::Multiset;

/// Membership in a sequence extended by one element.
pub(crate) proof fn lemma_push_contains<T>(s: Seq<T>, x: T, y: T)
    ensures
        s.push(x).contains(y) <==> (s.contains(y) || y == x),
{
    if s.contains(y) {
        let k = choose|k: int| 0 <= k < s.len() && s[k] == y;
        assert(s.push(x)[k] == y);
    }
    if y == x {
        assert(s.push(x)[s.len() as int] == y);
    }
    if s.push(x).contains(y) {
        let k = choose|k: int| 0 <= k < s.push(x).len() && s.push(x)[k] == y;
        if k < s.len() {
            assert(s[k] == y);
        }
    }
}

/// Left-fold sum of the squares of the given values.
fn sum_of_squares(values: &Vec<AbnormalFraction>) -> (r: AbnormalFraction)
    requires
        forall|i: int| 0 <= i < values@.len() ==> values@[i].wf(),
    ensures
        r.wf(),
        ext_val_eq(r@, sum_v(squares_v(views_of(values@)))),
{
    let mut acc = AbnormalFraction::zero();
    let mut i: usize = 0;
    while i < values.len()
        invariant
            i <= values.len(),
            forall|j: int| 0 <= j < values@.len() ==> values@[j].wf(),
            acc.wf(),
            ext_val_eq(acc@, sum_v(squares_v(views_of(values@.subrange(0, i as int))))),
        decreases values.len() - i,
    {
        let v = &values[i];
        let term = v.mul(v);
        let next = acc.add(&term);
        proof {
            let pre = squares_v(views_of(values@.subrange(0, i as int)));
            let post = squares_v(views_of(values@.subrange(0, i + 1 as int)));
            assert(values@.subrange(0, i + 1 as int).drop_last() =~= values@.subrange(0, i as int));
            assert(post.drop_last() =~= pre);
            assert(post.last() == mul_v(values@[i as int]@, values@[i as int]@));
            assert(forall|k: int| 0 <= k < post.len() ==> ext_wf(#[trigger] post[k])) by {
                assert forall|k: int| 0 <= k < post.len() implies ext_wf(#[trigger] post[k]) by {
                    lemma_mul_v_wf(
                        values@.subrange(0, i + 1 as int)[k]@,
                        values@.subrange(0, i + 1 as int)[k]@,
                    );
                }
            }
            lemma_sum_v_wf(pre);
            lemma_sum_v_wf(post);
            lemma_add_v_cong(acc@, sum_v(pre), term@, post.last());
            lemma_add_v_wf(acc@, term@);
            lemma_ext_val_eq_trans(next@, add_v(acc@, term@), sum_v(post));
        }
        acc = next;
        i += 1;
    }
    proof {
        assert(values@.subrange(0, values@.len() as int) =~= values@);
    }
    acc
}

/// An append-only sparse vector builder: parallel index and value lists, in
/// push order, indices not necessarily sorted.
#[derive(Debug)]
pub struct SparseVec {
    indices: Vec<usize>,
    values: Vec<AbnormalFraction>,
}

impl SparseVec {
    pub closed spec fn spec_indices(&self) -> Seq<usize> {
        self.indices@
    }

    pub closed spec fn spec_values(&self) -> Seq<ExtRat> {
        views_of(self.values@)
    }

    pub closed spec fn wf(&self) -> bool {
        &&& self.indices@.len() == self.values@.len()
        &&& forall|i: int| 0 <= i < self.values@.len() ==> (#[trigger] self.values@[i]).wf()
    }

    pub fn new() -> (r: SparseVec)
        ensures
            r.wf(),
            r.spec_indices() =~= Seq::<usize>::empty(),
            r.spec_values() =~= Seq::<ExtRat>::empty(),
    {
        SparseVec { indices: Vec::new(), values: Vec::new() }
    }

    pub fn len(&self) -> (r: usize)
        requires
            self.wf(),
        ensures
            r == self.spec_indices().len(),
    {
        self.indices.len()
    }

    pub fn clear(&mut self)
        ensures
            final(self).wf(),
            final(self).spec_indices() =~= Seq::<usize>::empty(),
            final(self).spec_values() =~= Seq::<ExtRat>::empty(),
    {
        self.indices.clear();
        self.values.clear();
    }

    pub fn push(&mut self, i: usize, val: AbnormalFraction)
        requires
            old(self).wf(),
            val.wf(),
        ensures
            final(self).wf(),
            final(self).spec_indices() == old(self).spec_indices().push(i),
            final(self).spec_values() == old(self).spec_values().push(val@),
    {
        self.indices.push(i);
        self.values.push(val);
        proof {
            assert(views_of(self.values@) =~= views_of(old(self).values@).push(
                self.values@.last()@,
            ));
        }
    }

    /// The entries in push order, as owned pairs.
    pub fn iter(&self) -> (r: Vec<(usize, AbnormalFraction)>)
        requires
            self.wf(),
        ensures
            r@.len() == self.spec_indices().len(),
            forall|k: int|
                0 <= k < r@.len() ==> (#[trigger] r@[k]).0 == self.spec_indices()[k] && r@[k].1@
                    == self.spec_values()[k] && r@[k].1.wf(),
    {
        let mut r: Vec<(usize, AbnormalFraction)> = Vec::new();
        let mut k: usize = 0;
        while k < self.indices.len()
            invariant
                self.wf(),
                k <= self.indices@.len(),
                r@.len() == k,
                forall|j: int|
                    0 <= j < k ==> (#[trigger] r@[j]).0 == self.spec_indices()[j] && r@[j].1@
                        == self.spec_values()[j] && r@[j].1.wf(),
            decreases self.indices@.len() - k,
        {
            r.push((self.indices[k], self.values[k].clone()));
            k += 1;
        }
        r
    }

    /// The sum of the squares of all stored values.
    pub fn sq_norm(&self) -> (r: AbnormalFraction)
        requires
            self.wf(),
        ensures
            r.wf(),
            ext_val_eq(r@, sum_v(squares_v(self.spec_values()))),
    {
        sum_of_squares(&self.values)
    }
}

/// A dense-length sparse vector with O(1) reads and writes and a clear that
/// touches only the currently registered indices.
#[derive(Debug)]
pub struct ScatteredVec {
    values: Vec<AbnormalFraction>,
    is_nonzero: Vec<bool>,
    nonzero: Vec<usize>,
}

impl ScatteredVec {
    pub closed spec fn spec_len(&self) -> int {
        self.values@.len() as int
    }

    /// The value stored at position `i`.
    pub closed spec fn spec_value(&self, i: int) -> ExtRat {
        self.values@[i]@
    }

    /// The registered indices, in registration order.
    pub closed spec fn spec_nonzero(&self) -> Seq<usize> {
        self.nonzero@
    }

    pub closed spec fn spec_marked(&self, i: int) -> bool {
        self.is_nonzero@[i]
    }

    pub closed spec fn wf(&self) -> bool {
        &&& self.values@.len() == self.is_nonzero@.len()
        &&& forall|i: int| 0 <= i < self.values@.len() ==> (#[trigger] self.values@[i]).wf()
        &&& forall|k: int|
            0 <= k < self.nonzero@.len() ==> (#[trigger] self.nonzero@[k]) < self.values@.len()
        &&& forall|k1: int, k2: int|
            0 <= k1 < k2 < self.nonzero@.len() ==> self.nonzero@[k1] != self.nonzero@[k2]
        &&& forall|i: usize|
            i < self.values@.len() ==> ((#[trigger] self.is_nonzero@[i as int])
                <==> self.nonzero@.contains(i))
        &&& forall|i: int|
            0 <= i < self.values@.len() && !self.is_nonzero@[i] ==> is_zero_v(
                #[trigger] self.values@[i]@,
            )
    }

    /// A vector of the given dense length, all zero, nothing registered.
    pub fn empty(n: usize) -> (r: ScatteredVec)
        ensures
            r.wf(),
            r.spec_len() == n,
            r.spec_nonzero() =~= Seq::<usize>::empty(),
            forall|i: int| 0 <= i < n ==> is_zero_v(#[trigger] r.spec_value(i)),
    {
        let mut values: Vec<AbnormalFraction> = Vec::new();
        let mut is_nonzero: Vec<bool> = Vec::new();
        let mut i: usize = 0;
        while i < n
            invariant
                i <= n,
                values@.len() == i,
                is_nonzero@.len() == i,
                forall|j: int| 0 <= j < i ==> (#[trigger] values@[j]).wf(),
                forall|j: int| 0 <= j < i ==> is_zero_v((#[trigger] values@[j])@),
                forall|j: int| 0 <= j < i ==> !(#[trigger] is_nonzero@[j]),
            decreases n - i,
        {
            values.push(AbnormalFraction::zero());
            is_nonzero.push(false);
            i += 1;
        }
        ScatteredVec { values, is_nonzero, nonzero: Vec::new() }
    }

    pub fn len(&self) -> (r: usize)
        ensures
            r == self.spec_len(),
    {
        self.values.len()
    }

    /// The registered indices, in registration order.
    pub fn indices(&self) -> (r: &Vec<usize>)
        ensures
            r@ == self.spec_nonzero(),
    {
        &self.nonzero
    }

    pub fn get(&self, i: usize) -> (r: &AbnormalFraction)
        requires
            self.wf(),
            i < self.spec_len(),
        ensures
            r@ == self.spec_value(i as int),
            r.wf(),
    {
        &self.values[i]
    }

    /// A mutable place for position `i`; registers `i` on first touch, and
    /// registering an already-registered index changes nothing.
    pub fn get_mut(&mut self, i: usize) -> (r: &mut AbnormalFraction)
        requires
            old(self).wf(),
            i < old(self).spec_len(),
        ensures
            (*r)@ == old(self).spec_value(i as int),
            (*r).wf(),
            final(self).spec_len() == old(self).spec_len(),
            final(self).spec_value(i as int) == (*final(r))@,
            forall|j: int|
                0 <= j < old(self).spec_len() && j != i ==> final(self).spec_value(j) == old(
                    self,
                ).spec_value(j),
            final(self).spec_marked(i as int),
            forall|j: int|
                0 <= j < old(self).spec_len() && j != i ==> final(self).spec_marked(j) == old(
                    self,
                ).spec_marked(j),
            final(self).spec_nonzero() == if old(self).spec_marked(i as int) {
                old(self).spec_nonzero()
            } else {
                old(self).spec_nonzero().push(i)
            },
            (*final(r)).wf() ==> final(self).wf(),
    {
        let was = self.is_nonzero[i];
        self.is_nonzero.set(i, true);
        if !was {
            self.nonzero.push(i);
        }
        proof {
            if was {
                assert(self.is_nonzero@ =~= old(self).is_nonzero@);
            } else {
                assert(self.nonzero@ == old(self).nonzero@.push(i));
                assert forall|j: usize|
                    j < self.values@.len() implies ((#[trigger] self.is_nonzero@[j as int])
                    <==> self.nonzero@.contains(j)) by {
                    assert(old(self).is_nonzero@[j as int] <==> old(self).nonzero@.contains(j));
                    lemma_push_contains(old(self).nonzero@, i, j);
                }
                assert(!old(self).nonzero@.contains(i));
                assert forall|k1: int, k2: int|
                    0 <= k1 < k2 < self.nonzero@.len() implies self.nonzero@[k1]
                    != self.nonzero@[k2] by {
                    if k2 == self.nonzero@.len() - 1 {
                        assert(old(self).nonzero@[k1] == self.nonzero@[k1]);
                    }
                }
            }
        }
        &mut self.values[i]
    }

    /// The registered entries in registration order, as owned pairs.
    pub fn iter(&self) -> (r: Vec<(usize, AbnormalFraction)>)
        requires
            self.wf(),
        ensures
            r@.len() == self.spec_nonzero().len(),
            forall|k: int|
                0 <= k < r@.len() ==> (#[trigger] r@[k]).0 == self.spec_nonzero()[k] && r@[k].1@
                    == self.gathered()[k] && r@[k].1.wf(),
    {
        let mut r: Vec<(usize, AbnormalFraction)> = Vec::new();
        let mut k: usize = 0;
        while k < self.nonzero.len()
            invariant
                self.wf(),
                k <= self.nonzero@.len(),
                r@.len() == k,
                forall|j: int|
                    0 <= j < k ==> (#[trigger] r@[j]).0 == self.spec_nonzero()[j] && r@[j].1@
                        == self.gathered()[j] && r@[j].1.wf(),
            decreases self.nonzero@.len() - k,
        {
            let i = self.nonzero[k];
            r.push((i, self.values[i].clone()));
            k += 1;
        }
        r
    }

    /// The sum of the squares of the registered entries, in registration
    /// order.
    pub fn sq_norm(&self) -> (r: AbnormalFraction)
        requires
            self.wf(),
        ensures
            r.wf(),
            ext_val_eq(r@, sum_v(squares_v(self.gathered()))),
    {
        let mut gathered: Vec<AbnormalFraction> = Vec::new();
        let mut k: usize = 0;
        while k < self.nonzero.len()
            invariant
                self.wf(),
                k <= self.nonzero@.len(),
                gathered@.len() == k,
                forall|j: int|
                    0 <= j < k ==> (#[trigger] gathered@[j])@ == self.spec_value(
                        self.nonzero@[j] as int,
                    ) && gathered@[j].wf(),
            decreases self.nonzero@.len() - k,
        {
            let i = self.nonzero[k];
            gathered.push(self.values[i].clone());
            k += 1;
        }
        let r = sum_of_squares(&gathered);
        proof {
            assert(views_of(gathered@) =~= self.gathered());
        }
        r
    }

    /// The registered values, in registration order.
    pub open spec fn gathered(&self) -> Seq<ExtRat> {
        self.spec_nonzero().map_values(|i: usize| self.spec_value(i as int))
    }

    /// Reset every registered position to zero and unregister it, touching
    /// only the registered positions; afterwards the whole vector is zero.
    pub fn clear(&mut self)
        requires
            old(self).wf(),
        ensures
            final(self).wf(),
            final(self).spec_len() == old(self).spec_len(),
            final(self).spec_nonzero() =~= Seq::<usize>::empty(),
            forall|i: int| 0 <= i < final(self).spec_len() ==> is_zero_v(#[trigger] final(self).spec_value(i)),
            forall|i: int| 0 <= i < final(self).spec_len() ==> !final(self).spec_marked(i),
    {
        let ghost orig = *old(self);
        let mut k: usize = 0;
        while k < self.nonzero.len()
            invariant
                orig.wf(),
                self.nonzero@ == orig.nonzero@,
                self.values@.len() == orig.values@.len(),
                self.is_nonzero@.len() == orig.is_nonzero@.len(),
                k <= self.nonzero@.len(),
                forall|i: int| 0 <= i < self.values@.len() ==> (#[trigger] self.values@[i]).wf(),
                forall|i: usize|
                    i < self.values@.len() ==> ((#[trigger] self.is_nonzero@[i as int])
                        <==> (orig.is_nonzero@[i as int] && !orig.nonzero@.subrange(
                            0,
                            k as int,
                        ).contains(i))),
                forall|i: int|
                    0 <= i < self.values@.len() && !self.is_nonzero@[i] ==> is_zero_v(
                        #[trigger] self.values@[i]@,
                    ),
            decreases self.nonzero@.len() - k,
        {
            let ghost prev = *self;
            let i = self.nonzero[k];
            self.values.set(i, AbnormalFraction::zero());
            self.is_nonzero.set(i, false);
            proof {
                assert(i == orig.nonzero@[k as int]);
                assert forall|j: usize|
                    j < self.values@.len() implies ((#[trigger] self.is_nonzero@[j as int])
                    <==> (orig.is_nonzero@[j as int] && !orig.nonzero@.subrange(
                        0,
                        k + 1 as int,
                    ).contains(j))) by {
                    let pre = orig.nonzero@.subrange(0, k as int);
                    let post = orig.nonzero@.subrange(0, k + 1 as int);
                    assert(post =~= pre.push(orig.nonzero@[k as int]));
                    assert(prev.is_nonzero@[j as int] <==> (orig.is_nonzero@[j as int]
                        && !pre.contains(j)));
                    lemma_push_contains(pre, orig.nonzero@[k as int], j);
                    if j == i {
                        assert(post.contains(j));
                    } else {
                        assert(self.is_nonzero@[j as int] == prev.is_nonzero@[j as int]);
                    }
                }
            }
            k += 1;
        }
        let n = self.values.len();
        proof {
            assert(orig.nonzero@.subrange(0, orig.nonzero@.len() as int) =~= orig.nonzero@);
            assert forall|i: int| 0 <= i < self.values@.len() implies !self.is_nonzero@[i] by {
                let u = i as usize;
                assert(self.is_nonzero@[u as int] <==> (orig.is_nonzero@[u as int]
                    && !orig.nonzero@.subrange(0, k as int).contains(u)));
                if orig.is_nonzero@[u as int] {
                    assert(orig.nonzero@.contains(u));
                }
            }
        }
        self.nonzero.clear();
    }

    /// Clear, then grow or shrink the dense length to `n`; everything reads
    /// as zero afterwards.
    pub fn clear_and_resize(&mut self, n: usize)
        requires
            old(self).wf(),
        ensures
            final(self).wf(),
            final(self).spec_len() == n,
            final(self).spec_nonzero() =~= Seq::<usize>::empty(),
            forall|i: int| 0 <= i < n ==> is_zero_v(#[trigger] final(self).spec_value(i)),
    {
        self.clear();
        if self.values.len() > n {
            self.values.truncate(n);
            self.is_nonzero.truncate(n);
        } else {
            while self.values.len() < n
                invariant
                    self.is_nonzero@.len() == self.values@.len(),
                    self.values@.len() <= n,
                    self.nonzero@.len() == 0,
                    forall|i: int| 0 <= i < self.values@.len() ==> (#[trigger] self.values@[i]).wf(),
                    forall|i: int| 0 <= i < self.values@.len() ==> is_zero_v(#[trigger] self.values@[i]@),
                    forall|i: int| 0 <= i < self.is_nonzero@.len() ==> !(#[trigger] self.is_nonzero@[i]),
                decreases n - self.values@.len(),
            {
                self.values.push(AbnormalFraction::zero());
                self.is_nonzero.push(false);
            }
        }
    }

    /// Replace the contents wholesale: clear, then register and store each
    /// given (index, value) pair, in the given order.
    pub fn set(&mut self, rhs: &Vec<(usize, AbnormalFraction)>)
        requires
            old(self).wf(),
            forall|k: int| 0 <= k < rhs@.len() ==> (#[trigger] rhs@[k]).0 < old(self).spec_len(),
            forall|k: int| 0 <= k < rhs@.len() ==> (#[trigger] rhs@[k]).1.wf(),
            forall|k1: int, k2: int|
                0 <= k1 < k2 < rhs@.len() ==> rhs@[k1].0 != rhs@[k2].0,
        ensures
            final(self).wf(),
            final(self).spec_len() == old(self).spec_len(),
            final(self).spec_nonzero() == rhs@.map_values(|p: (usize, AbnormalFraction)| p.0),
            forall|k: int|
                0 <= k < rhs@.len() ==> final(self).spec_value((#[trigger] rhs@[k]).0 as int)
                    == rhs@[k].1@,
            forall|i: int|
                0 <= i < final(self).spec_len() && !final(self).spec_marked(i) ==> is_zero_v(
                    #[trigger] final(self).spec_value(i),
                ),
            forall|i: usize|
                i < final(self).spec_len() ==> (final(self).spec_marked(i as int)
                    <==> rhs@.map_values(|p: (usize, AbnormalFraction)| p.0).contains(i)),
    {
        self.clear();
        let mut k: usize = 0;
        while k < rhs.len()
            invariant
                self.values@.len() == old(self).values@.len(),
                self.is_nonzero@.len() == self.values@.len(),
                forall|j: int| 0 <= j < rhs@.len() ==> (#[trigger] rhs@[j]).0 < self.values@.len(),
                forall|j: int| 0 <= j < rhs@.len() ==> (#[trigger] rhs@[j]).1.wf(),
                forall|j1: int, j2: int|
                    0 <= j1 < j2 < rhs@.len() ==> rhs@[j1].0 != rhs@[j2].0,
                k <= rhs@.len(),
                self.nonzero@ == rhs@.subrange(0, k as int).map_values(
                    |p: (usize, AbnormalFraction)| p.0,
                ),
                forall|i: int| 0 <= i < self.values@.len() ==> (#[trigger] self.values@[i]).wf(),
                forall|j: int|
                    0 <= j < k ==> self.values@[(#[trigger] rhs@[j]).0 as int]@ == rhs@[j].1@,
                forall|i: usize|
                    i < self.values@.len() ==> ((#[trigger] self.is_nonzero@[i as int])
                        <==> self.nonzero@.contains(i)),
                forall|i: int|
                    0 <= i < self.values@.len() && !self.is_nonzero@[i] ==> is_zero_v(
                        #[trigger] self.values@[i]@,
                    ),
            decreases rhs@.len() - k,
        {
            let (i, val) = (rhs[k].0, rhs[k].1.clone());
            self.is_nonzero.set(i, true);
            self.nonzero.push(i);
            self.values.set(i, val);
            proof {
                let pre = rhs@.subrange(0, k as int).map_values(
                    |p: (usize, AbnormalFraction)| p.0,
                );
                let post = rhs@.subrange(0, k + 1 as int).map_values(
                    |p: (usize, AbnormalFraction)| p.0,
                );
                assert(rhs@.subrange(0, k + 1 as int).drop_last() =~= rhs@.subrange(0, k as int));
                assert(post.drop_last() =~= pre);
                assert(post =~= pre.push(rhs@[k as int].0));
                assert(self.nonzero@ =~= post);
                assert forall|i2: usize|
                    i2 < self.values@.len() implies ((#[trigger] self.is_nonzero@[i2 as int])
                    <==> self.nonzero@.contains(i2)) by {
                    lemma_push_contains(pre, rhs@[k as int].0, i2);
                    if i2 == i {
                        assert(post[post.len() - 1] == i);
                    }
                }
                assert forall|j: int|
                    0 <= j < k + 1 implies self.values@[(#[trigger] rhs@[j]).0 as int]@
                    == rhs@[j].1@ by {
                    if j < k {
                        assert(rhs@[j].0 != rhs@[k as int].0);
                    }
                }
            }
            k += 1;
        }
        proof {
            assert(rhs@.subrange(0, rhs@.len() as int) =~= rhs@);
        }
    }

    /// Copy the registered entries into a sparse builder, in registration
    /// order.
    pub fn to_sparse_vec(&self, lhs: &mut SparseVec)
        requires
            self.wf(),
            old(lhs).wf(),
        ensures
            final(lhs).wf(),
            final(lhs).spec_indices() == self.spec_nonzero(),
            final(lhs).spec_values() == self.gathered(),
    {
        lhs.clear();
        let mut k: usize = 0;
        while k < self.nonzero.len()
            invariant
                self.wf(),
                lhs.wf(),
                k <= self.nonzero@.len(),
                lhs.spec_indices() == self.spec_nonzero().subrange(0, k as int),
                lhs.spec_values() == self.spec_nonzero().subrange(0, k as int).map_values(
                    |i: usize| self.spec_value(i as int),
                ),
            decreases self.nonzero@.len() - k,
        {
            let i = self.nonzero[k];
            lhs.push(i, self.values[i].clone());
            proof {
                let pre = self.spec_nonzero().subrange(0, k as int);
                let post = self.spec_nonzero().subrange(0, k + 1 as int);
                assert(post =~= pre.push(self.spec_nonzero()[k as int]));
                assert(lhs.spec_indices() =~= post);
                assert(lhs.spec_values() =~= post.map_values(|i: usize| self.spec_value(i as int)));
            }
            k += 1;
        }
        proof {
            assert(self.spec_nonzero().subrange(0, self.spec_nonzero().len() as int)
                =~= self.spec_nonzero());
        }
    }
}

/// A column-compressed sparse matrix, written one column at a time: entries
/// are pushed into a pending column, and `seal_column` fixes the column
/// boundary. Column pointers are non-decreasing, and when the matrix is
/// sealed the last pointer equals the entry count.
#[derive(Debug)]
pub struct SparseMat {
    n_rows: usize,
    indptr: Vec<usize>,
    indices: Vec<usize>,
    data: Vec<AbnormalFraction>,
}

impl SparseMat {
    pub closed spec fn spec_rows(&self) -> int {
        self.n_rows as int
    }

    pub closed spec fn spec_cols(&self) -> int {
        self.indptr@.len() - 1
    }

    pub closed spec fn spec_nnz(&self) -> int {
        self.data@.len() as int
    }

    pub closed spec fn spec_indptr(&self) -> Seq<usize> {
        self.indptr@
    }

    pub closed spec fn wf(&self) -> bool {
        &&& self.indptr@.len() >= 1
        &&& self.indptr@[0] == 0
        &&& forall|a: int, b: int|
            0 <= a < b < self.indptr@.len() ==> (#[trigger] self.indptr@[a]) <= (
            #[trigger] self.indptr@[b])
        &&& self.indptr@[self.indptr@.len() - 1] <= self.indices@.len()
        &&& self.indices@.len() == self.data@.len()
        &&& forall|k: int| 0 <= k < self.indices@.len() ==> (#[trigger] self.indices@[k]) < self.n_rows
        &&& forall|k: int| 0 <= k < self.data@.len() ==> (#[trigger] self.data@[k]).wf()
    }

    /// Every pushed entry lies inside a sealed column.
    pub closed spec fn sealed(&self) -> bool {
        self.indptr@[self.indptr@.len() - 1] == self.indices@.len()
    }

    /// The entries of sealed column `c`, in push order, as (row, value)
    /// pairs.
    pub closed spec fn col_seq(&self, c: int) -> Seq<(usize, ExtRat)> {
        Seq::new(
            (self.indptr@[c + 1] - self.indptr@[c]) as nat,
            |k: int|
                (
                    self.indices@[self.indptr@[c] + k],
                    self.data@[self.indptr@[c] + k]@,
                ),
        )
    }

    pub fn new(n_rows: usize) -> (r: SparseMat)
        ensures
            r.wf(),
            r.sealed(),
            r.spec_rows() == n_rows,
            r.spec_cols() == 0,
            r.spec_nnz() == 0,
    {
        let mut indptr: Vec<usize> = Vec::new();
        indptr.push(0);
        SparseMat { n_rows, indptr, indices: Vec::new(), data: Vec::new() }
    }

    pub fn rows(&self) -> (r: usize)
        ensures
            r == self.spec_rows(),
    {
        self.n_rows
    }

    pub fn cols(&self) -> (r: usize)
        requires
            self.wf(),
        ensures
            r == self.spec_cols(),
    {
        self.indptr.len() - 1
    }

    pub fn nnz(&self) -> (r: usize)
        ensures
            r == self.spec_nnz(),
    {
        self.data.len()
    }

    /// Forget all entries and start over with `n_rows` rows.
    pub fn clear_and_resize(&mut self, n_rows: usize)
        ensures
            final(self).wf(),
            final(self).sealed(),
            final(self).spec_rows() == n_rows,
            final(self).spec_cols() == 0,
            final(self).spec_nnz() == 0,
    {
        self.data.clear();
        self.indices.clear();
        self.indptr.clear();
        self.indptr.push(0);
        self.n_rows = n_rows;
    }

    /// Append one entry to the pending (unsealed) column.
    pub fn push(&mut self, row: usize, val: AbnormalFraction)
        requires
            old(self).wf(),
            row < old(self).spec_rows(),
            val.wf(),
            old(self).spec_nnz() < usize::MAX,
        ensures
            final(self).wf(),
            final(self).spec_rows() == old(self).spec_rows(),
            final(self).spec_cols() == old(self).spec_cols(),
            final(self).spec_nnz() == old(self).spec_nnz() + 1,
            final(self).spec_indptr() == old(self).spec_indptr(),
            forall|k: int|
                0 <= k < old(self).spec_nnz() ==> final(self).spec_indices_at(k) == old(
                    self,
                ).spec_indices_at(k) && final(self).spec_data_at(k) == old(self).spec_data_at(k),
            final(self).spec_indices_at(old(self).spec_nnz()) == row,
            final(self).spec_data_at(old(self).spec_nnz()) == val@,
            forall|c: int|
                0 <= c < old(self).spec_cols() && old(self).spec_indptr()[c + 1]
                    <= old(self).spec_nnz() ==> final(self).col_seq(c) == old(self).col_seq(c),
    {
        self.indices.push(row);
        self.data.push(val);
        proof {
            assert forall|c: int|
                0 <= c < old(self).spec_cols() && old(self).spec_indptr()[c + 1] <= old(
                    self,
                ).spec_nnz() implies final(self).col_seq(c) == old(self).col_seq(c) by {
                assert(self.col_seq(c) =~= old(self).col_seq(c));
            }
        }
    }

    /// Seal the pending column: its entries are everything pushed since the
    /// previous seal.
    pub fn seal_column(&mut self)
        requires
            old(self).wf(),
            old(self).spec_cols() < usize::MAX - 1,
        ensures
            final(self).wf(),
            final(self).sealed(),
            final(self).spec_rows() == old(self).spec_rows(),
            final(self).spec_cols() == old(self).spec_cols() + 1,
            final(self).spec_nnz() == old(self).spec_nnz(),
            final(self).spec_indptr() == old(self).spec_indptr().push(
                old(self).spec_nnz() as usize,
            ),
            forall|c: int|
                0 <= c < old(self).spec_cols() && old(self).spec_indptr()[c + 1]
                    <= old(self).spec_nnz() ==> final(self).col_seq(c) == old(self).col_seq(c),
            final(self).col_seq(old(self).spec_cols()) == Seq::new(
                (old(self).spec_nnz() - old(self).spec_indptr()[old(self).spec_cols()]) as nat,
                |k: int|
                    (
                        old(self).spec_indices_at(old(self).spec_indptr()[old(self).spec_cols()]
                            + k),
                        old(self).spec_data_at(old(self).spec_indptr()[old(self).spec_cols()] + k),
                    ),
            ),
    {
        let n = self.indices.len();
        self.indptr.push(n);
        proof {
            assert forall|c: int|
                0 <= c < old(self).spec_cols() && old(self).spec_indptr()[c + 1] <= old(
                    self,
                ).spec_nnz() implies final(self).col_seq(c) == old(self).col_seq(c) by {
                assert(self.col_seq(c) =~= old(self).col_seq(c));
            }
            assert(self.col_seq(old(self).spec_cols()) =~= Seq::new(
                (old(self).spec_nnz() - old(self).spec_indptr()[old(self).spec_cols()]) as nat,
                |k: int|
                    (
                        old(self).spec_indices_at(old(self).spec_indptr()[old(self).spec_cols()]
                            + k),
                        old(self).spec_data_at(old(self).spec_indptr()[old(self).spec_cols()] + k),
                    ),
            ));
        }
    }

    /// The row index of the `k`-th entry, in push order.
    pub closed spec fn spec_indices_at(&self, k: int) -> usize {
        self.indices@[k]
    }

    /// The value of the `k`-th entry, in push order.
    pub closed spec fn spec_data_at(&self, k: int) -> ExtRat {
        self.data@[k]@
    }

    /// The entries of row `r` among the first `k` entries of column `c`, as
    /// (column, value) pairs, in push order.
    pub closed spec fn hits_upto(&self, c: int, r: usize, k: int) -> Seq<(usize, ExtRat)>
        decreases k,
    {
        if k <= 0 {
            Seq::empty()
        } else {
            self.hits_upto(c, r, k - 1) + if self.col_seq(c)[k - 1].0 == r {
                seq![(c as usize, self.col_seq(c)[k - 1].1)]
            } else {
                Seq::empty()
            }
        }
    }

    /// The entries of row `r` in column `c`.
    pub closed spec fn hits_in_col(&self, c: int, r: usize) -> Seq<(usize, ExtRat)> {
        self.hits_upto(c, r, self.col_seq(c).len() as int)
    }

    /// The entries of row `r` in the first `c` columns, ordered by column
    /// and then by position within the column.
    pub closed spec fn gather_upto(&self, r: usize, c: int) -> Seq<(usize, ExtRat)>
        decreases c,
    {
        if c <= 0 {
            Seq::empty()
        } else {
            self.gather_upto(r, c - 1) + self.hits_in_col(c - 1, r)
        }
    }

    /// All entries of row `r`, ordered by column and then by position within
    /// the column, as (column, value) pairs.
    pub open spec fn gather(&self, r: usize) -> Seq<(usize, ExtRat)> {
        self.gather_upto(r, self.spec_cols())
    }

    /// The total number of entries in the first `rb` rows of the first `k`
    /// entries of column `c`.
    pub closed spec fn row_sum_hits(&self, c: int, k: int, rb: int) -> int
        decreases rb,
    {
        if rb <= 0 {
            0
        } else {
            self.row_sum_hits(c, k, rb - 1) + self.hits_upto(c, (rb - 1) as usize, k).len()
        }
    }

    /// The total number of entries of the first `rb` rows within the first
    /// `c` columns.
    pub closed spec fn row_sum_gather(&self, c: int, rb: int) -> int
        decreases rb,
    {
        if rb <= 0 {
            0
        } else {
            self.row_sum_gather(c, rb - 1) + self.gather_upto((rb - 1) as usize, c).len()
        }
    }

    /// One past the end of the region that row `r` of the transpose occupies:
    /// the number of entries in rows `0..=r`.
    pub open spec fn ends_at(&self, r: int) -> int {
        self.row_sum_gather(self.spec_cols(), r + 1)
    }

    proof fn lemma_hits_upto_len(&self, c: int, r: usize, k: int)
        ensures
            0 <= self.hits_upto(c, r, k).len() <= if k >= 0 {
                k
            } else {
                0
            },
        decreases k,
    {
        if k > 0 {
            self.lemma_hits_upto_len(c, r, k - 1);
        }
    }

    proof fn lemma_hits_upto_le_col(&self, c: int, r: usize, k: int)
        requires
            0 <= k <= self.col_seq(c).len(),
        ensures
            self.hits_upto(c, r, k).len() <= self.hits_in_col(c, r).len(),
        decreases self.col_seq(c).len() - k,
    {
        if k < self.col_seq(c).len() {
            self.lemma_hits_upto_le_col(c, r, k + 1);
        }
    }

    proof fn lemma_gather_upto_le(&self, r: usize, c1: int, c2: int)
        requires
            c1 <= c2,
        ensures
            self.gather_upto(r, c1).len() <= self.gather_upto(r, c2).len(),
        decreases c2 - c1,
    {
        if c1 < c2 {
            self.lemma_gather_upto_le(r, c1, c2 - 1);
        }
    }

    /// Entries already placed for row `r` never outnumber the row's entries.
    proof fn lemma_processed_le_gather(&self, r: usize, c: int, k: int)
        requires
            0 <= c < self.spec_cols(),
            0 <= k <= self.col_seq(c).len(),
        ensures
            self.gather_upto(r, c).len() + self.hits_upto(c, r, k).len() <= self.gather(
                r,
            ).len(),
    {
        self.lemma_hits_upto_le_col(c, r, k);
        self.lemma_gather_upto_le(r, c + 1, self.spec_cols());
    }

    proof fn lemma_gather_upto_le_indptr(&self, r: usize, c: int)
        requires
            self.wf(),
            0 <= c < self.indptr@.len(),
        ensures
            self.gather_upto(r, c).len() <= self.indptr@[c],
        decreases c,
    {
        if c > 0 {
            self.lemma_gather_upto_le_indptr(r, c - 1);
            self.lemma_hits_upto_len(c - 1, r, self.col_seq(c - 1).len() as int);
        }
    }

    proof fn lemma_row_sum_hits_step(&self, c: int, k: int, rb: int)
        requires
            0 <= k < self.col_seq(c).len(),
            rb <= usize::MAX,
        ensures
            self.row_sum_hits(c, k + 1, rb) == self.row_sum_hits(c, k, rb) + if (self.col_seq(
                c,
            )[k].0 as int) < rb {
                1int
            } else {
                0int
            },
        decreases rb,
    {
        if rb > 0 {
            self.lemma_row_sum_hits_step(c, k, rb - 1);
        }
    }

    proof fn lemma_row_sum_hits_zero(&self, c: int, rb: int)
        ensures
            self.row_sum_hits(c, 0, rb) == 0,
        decreases rb,
    {
        if rb > 0 {
            self.lemma_row_sum_hits_zero(c, rb - 1);
        }
    }

    /// Each of the first `k` entries of column `c` belongs to exactly one
    /// row, so the per-row hit counts add up to `k`.
    proof fn lemma_col_partition(&self, c: int, k: int)
        requires
            self.wf(),
            self.sealed(),
            0 <= c < self.spec_cols(),
            0 <= k <= self.col_seq(c).len(),
        ensures
            self.row_sum_hits(c, k, self.spec_rows()) == k,
        decreases k,
    {
        if k == 0 {
            self.lemma_row_sum_hits_zero(c, self.spec_rows());
        } else {
            self.lemma_col_partition(c, k - 1);
            assert(self.col_seq(c)[k - 1].0 == self.indices@[self.indptr@[c] + (k - 1)]);
            self.lemma_row_sum_hits_step(c, k - 1, self.spec_rows());
        }
    }

    proof fn lemma_row_sum_gather_step(&self, c: int, rb: int)
        requires
            0 <= c,
        ensures
            self.row_sum_gather(c + 1, rb) == self.row_sum_gather(c, rb) + self.row_sum_hits(
                c,
                self.col_seq(c).len() as int,
                rb,
            ),
        decreases rb,
    {
        if rb > 0 {
            self.lemma_row_sum_gather_step(c, rb - 1);
        }
    }

    proof fn lemma_row_sum_gather_zero(&self, rb: int)
        ensures
            self.row_sum_gather(0, rb) == 0,
        decreases rb,
    {
        if rb > 0 {
            self.lemma_row_sum_gather_zero(rb - 1);
        }
    }

    /// The rows of the first `c` columns hold exactly the entries of those
    /// columns: the per-row totals add up to the column pointer.
    proof fn lemma_gather_total(&self, c: int)
        requires
            self.wf(),
            self.sealed(),
            0 <= c <= self.spec_cols(),
        ensures
            self.row_sum_gather(c, self.spec_rows()) == self.indptr@[c],
        decreases c,
    {
        if c == 0 {
            self.lemma_row_sum_gather_zero(self.spec_rows());
        } else {
            self.lemma_gather_total(c - 1);
            self.lemma_row_sum_gather_step(c - 1, self.spec_rows());
            self.lemma_col_partition(c - 1, self.col_seq(c - 1).len() as int);
        }
    }

    proof fn lemma_row_sum_gather_monotone(&self, c: int, rb1: int, rb2: int)
        requires
            rb1 <= rb2,
        ensures
            self.row_sum_gather(c, rb1) <= self.row_sum_gather(c, rb2),
        decreases rb2 - rb1,
    {
        if rb1 < rb2 {
            self.lemma_row_sum_gather_monotone(c, rb1, rb2 - 1);
        }
    }

    /// The column pointer array.
    pub fn indptr(&self) -> (r: &Vec<usize>)
        ensures
            r@ == self.spec_indptr(),
    {
        &self.indptr
    }

    /// The row index of every entry, in push order.
    pub fn indices(&self) -> (r: &Vec<usize>)
        requires
            self.wf(),
        ensures
            r@.len() == self.spec_nnz(),
            forall|k: int| 0 <= k < r@.len() ==> (#[trigger] r@[k]) == self.spec_indices_at(k),
    {
        &self.indices
    }

    /// The value of every entry, in push order.
    pub fn data(&self) -> (r: &Vec<AbnormalFraction>)
        ensures
            r@.len() == self.spec_nnz(),
            forall|k: int| 0 <= k < r@.len() ==> (#[trigger] r@[k])@ == self.spec_data_at(k),
    {
        &self.data
    }

    /// The row indices of sealed column `c`, in push order.
    pub fn col_rows(&self, i_col: usize) -> (r: Vec<usize>)
        requires
            self.wf(),
            i_col < self.spec_cols(),
            self.sealed(),
        ensures
            r@.len() == self.col_seq(i_col as int).len(),
            forall|k: int| 0 <= k < r@.len() ==> r@[k] == (#[trigger] self.col_seq(i_col as int)[k]).0,
    {
        let _indptr_len = self.indptr.len();
        let lo = self.indptr[i_col];
        let hi = self.indptr[i_col + 1];
        let mut r: Vec<usize> = Vec::new();
        let mut k: usize = lo;
        while k < hi
            invariant
                self.wf(),
                self.sealed(),
                i_col < self.spec_cols(),
                lo == self.indptr@[i_col as int],
                hi == self.indptr@[i_col as int + 1],
                lo <= k <= hi,
                hi <= self.indices@.len(),
                r@.len() == k - lo,
                forall|j: int|
                    0 <= j < r@.len() ==> r@[j] == (#[trigger] self.col_seq(i_col as int)[j]).0,
            decreases hi - k,
        {
            r.push(self.indices[k]);
            k += 1;
        }
        r
    }

    /// The values of sealed column `c`, in push order.
    pub fn col_data(&self, i_col: usize) -> (r: Vec<AbnormalFraction>)
        requires
            self.wf(),
            i_col < self.spec_cols(),
            self.sealed(),
        ensures
            r@.len() == self.col_seq(i_col as int).len(),
            forall|k: int|
                0 <= k < r@.len() ==> (#[trigger] r@[k])@ == self.col_seq(i_col as int)[k].1
                    && r@[k].wf(),
    {
        let _indptr_len = self.indptr.len();
        let lo = self.indptr[i_col];
        let hi = self.indptr[i_col + 1];
        let mut r: Vec<AbnormalFraction> = Vec::new();
        let mut k: usize = lo;
        while k < hi
            invariant
                self.wf(),
                self.sealed(),
                i_col < self.spec_cols(),
                lo == self.indptr@[i_col as int],
                hi == self.indptr@[i_col as int + 1],
                lo <= k <= hi,
                hi <= self.data@.len(),
                r@.len() == k - lo,
                forall|j: int|
                    0 <= j < r@.len() ==> (#[trigger] r@[j])@ == self.col_seq(i_col as int)[j].1
                        && r@[j].wf(),
            decreases hi - k,
        {
            r.push(self.data[k].clone());
            k += 1;
        }
        r
    }

    proof fn lemma_ends_at_props(&self, r1: int, r2: int)
        requires
            self.wf(),
            self.sealed(),
            -1 <= r1 <= r2 <= self.spec_rows() - 1,
        ensures
            0 <= self.ends_at(r1) <= self.ends_at(r2) <= self.spec_nnz(),
    {
        self.lemma_row_sum_gather_monotone(self.spec_cols(), 0, r1 + 1);
        self.lemma_row_sum_gather_monotone(self.spec_cols(), r1 + 1, r2 + 1);
        self.lemma_row_sum_gather_monotone(self.spec_cols(), r2 + 1, self.spec_rows());
        self.lemma_gather_total(self.spec_cols());
    }

    /// Transpose by counting sort: count the entries of each row, turn the
    /// counts into end offsets by a prefix sum, then scatter every entry
    /// into its row's region, filling each region from its end downward.
    /// Each column `r` of the result therefore holds exactly the entries of
    /// row `r`, as (column, value) pairs, in reverse of their push order.
    #[verifier::rlimit(100)]
    pub fn transpose(&self) -> (out: SparseMat)
        requires
            self.wf(),
            self.sealed(),
            self.spec_rows() < usize::MAX,
        ensures
            out.wf(),
            out.sealed(),
            out.spec_rows() == self.spec_cols(),
            out.spec_cols() == self.spec_rows(),
            out.spec_nnz() == self.spec_nnz(),
            forall|r: usize|
                r < self.spec_rows() ==> out.col_seq(r as int) == (#[trigger] self.gather(
                    r,
                )).reverse(),
    {
        let nnz = self.data.len();
        let ncols = self.indptr.len() - 1;
        let nr1 = self.n_rows + 1;

        // counting pass: out_indptr[r] becomes the number of entries of row r
        let mut out_indptr: Vec<usize> = Vec::new();
        let mut i: usize = 0;
        while i < nr1
            invariant
                i <= nr1,
                out_indptr@.len() == i,
                forall|j: int| 0 <= j < i ==> (#[trigger] out_indptr@[j]) == 0,
            decreases nr1 - i,
        {
            out_indptr.push(0);
            i += 1;
        }
        let mut c: usize = 0;
        while c < ncols
            invariant
                self.wf(),
                self.sealed(),
                nnz == self.spec_nnz(),
                ncols == self.spec_cols(),
                nr1 == self.spec_rows() + 1,
                c <= ncols,
                out_indptr@.len() == nr1,
                out_indptr@[self.spec_rows()] == 0,
                forall|rr: usize|
                    rr < self.n_rows ==> (#[trigger] out_indptr@[rr as int]) == self.gather_upto(
                        rr,
                        c as int,
                    ).len(),
            decreases ncols - c,
        {
            let lo = self.indptr[c];
            let hi = self.indptr[c + 1];
            let mut k: usize = lo;
            while k < hi
                invariant
                    self.wf(),
                    self.sealed(),
                    nnz == self.spec_nnz(),
                    ncols == self.spec_cols(),
                    nr1 == self.spec_rows() + 1,
                    c < ncols,
                    lo == self.indptr@[c as int],
                    hi == self.indptr@[c as int + 1],
                    lo <= k <= hi,
                    hi <= nnz,
                    out_indptr@.len() == nr1,
                    out_indptr@[self.spec_rows()] == 0,
                    forall|rr: usize|
                        rr < self.n_rows ==> (#[trigger] out_indptr@[rr as int])
                            == self.gather_upto(rr, c as int).len() + self.hits_upto(
                            c as int,
                            rr,
                            k - lo,
                        ).len(),
                decreases hi - k,
            {
                let r = self.indices[k];
                proof {
                    self.lemma_gather_upto_le_indptr(r, c as int);
                    self.lemma_hits_upto_len(c as int, r, k - lo);
                    assert(self.col_seq(c as int)[k - lo].0 == r);
                    assert forall|rr: usize|
                        rr < self.n_rows implies #[trigger] self.hits_upto(c as int, rr, k - lo + 1)
                        == self.hits_upto(c as int, rr, k - lo) + (if self.col_seq(
                        c as int,
                    )[k - lo].0 == rr {
                        seq![(c, self.col_seq(c as int)[k - lo].1)]
                    } else {
                        Seq::empty()
                    }) by {}
                }
                let cur = out_indptr[r];
                out_indptr.set(r, cur + 1);
                k += 1;
            }
            proof {
                assert forall|rr: usize|
                    rr < self.n_rows implies self.gather_upto(rr, c as int).len()
                    + self.hits_upto(c as int, rr, hi - lo).len() == self.gather_upto(
                    rr,
                    c + 1 as int,
                ).len() by {
                    assert(self.hits_upto(c as int, rr, hi - lo) == self.hits_in_col(c as int, rr));
                }
            }
            c += 1;
        }

        // prefix pass: out_indptr[r] becomes the end offset of row r's region
        proof {
            if self.n_rows == 0 {
                if self.indices@.len() > 0 {
                    assert(self.indices@[0] < 0);
                }
                self.lemma_gather_total(self.spec_cols());
            } else {
                assert(self.row_sum_gather(self.spec_cols(), 0) == 0);
                assert(self.ends_at(0) == self.gather(0 as usize).len());
            }
        }
        let mut rr: usize = 1;
        while rr < nr1
            invariant
                self.wf(),
                self.sealed(),
                nnz == self.spec_nnz(),
                ncols == self.spec_cols(),
                nr1 == self.spec_rows() + 1,
                1 <= rr <= nr1,
                out_indptr@.len() == nr1,
                forall|j: int|
                    0 <= j < rr && j < self.spec_rows() ==> (#[trigger] out_indptr@[j])
                        == self.ends_at(j),
                forall|j: int|
                    rr <= j < self.spec_rows() ==> (#[trigger] out_indptr@[j]) == self.gather(
                        j as usize,
                    ).len(),
                rr <= self.spec_rows() ==> out_indptr@[self.spec_rows()] == 0,
                rr > self.spec_rows() ==> out_indptr@[self.spec_rows()] == nnz,
            decreases nr1 - rr,
        {
            let prev = out_indptr[rr - 1];
            let cur = out_indptr[rr];
            proof {
                self.lemma_ends_at_props(rr - 1 as int, self.spec_rows() - 1);
                if rr < self.n_rows {
                    self.lemma_ends_at_props(rr as int, self.spec_rows() - 1);
                }
                if rr == 1 {
                    assert(self.ends_at(0) == self.row_sum_gather(self.spec_cols(), 0)
                        + self.gather(0).len());
                }
                self.lemma_gather_total(self.spec_cols());
            }
            out_indptr.set(rr, cur + prev);
            rr += 1;
        }

        // scatter pass: place each entry at the next free slot from the end
        // of its row's region
        let mut out_indices: Vec<usize> = Vec::new();
        let mut out_data: Vec<AbnormalFraction> = Vec::new();
        let mut t: usize = 0;
        while t < nnz
            invariant
                t <= nnz,
                out_indices@.len() == t,
                out_data@.len() == t,
                ncols == self.spec_cols(),
                self.wf(),
                self.sealed(),
                nnz == self.spec_nnz(),
                forall|j: int| 0 <= j < t ==> (#[trigger] out_indices@[j]) < ncols,
                forall|j: int| 0 <= j < t ==> (#[trigger] out_data@[j]).wf(),
            decreases nnz - t,
        {
            proof {
                if ncols == 0 {
                    assert(self.indptr@[0] == self.spec_nnz());
                }
            }
            out_indices.push(0);
            out_data.push(AbnormalFraction::zero());
            t += 1;
        }
        let mut c: usize = 0;
        while c < ncols
            invariant
                self.wf(),
                self.sealed(),
                nnz == self.spec_nnz(),
                ncols == self.spec_cols(),
                nr1 == self.spec_rows() + 1,
                c <= ncols,
                out_indptr@.len() == nr1,
                out_indptr@[self.spec_rows()] == nnz,
                out_indices@.len() == nnz,
                out_data@.len() == nnz,
                forall|j: int| 0 <= j < nnz ==> (#[trigger] out_indices@[j]) < ncols,
                forall|j: int| 0 <= j < nnz ==> (#[trigger] out_data@[j]).wf(),
                forall|r2: usize|
                    r2 < self.n_rows ==> (#[trigger] out_indptr@[r2 as int]) == self.ends_at(
                        r2 as int,
                    ) - self.gather_upto(r2, c as int).len(),
                forall|r2: usize, j: int|
                    #![trigger out_indptr@[r2 as int], out_indices@[j]]
                    r2 < self.n_rows && out_indptr@[r2 as int] <= j < self.ends_at(r2 as int)
                        ==> out_indices@[j] == self.gather_upto(r2, c as int)[self.ends_at(
                        r2 as int,
                    ) - 1 - j].0 && out_data@[j]@ == self.gather_upto(r2, c as int)[self.ends_at(
                        r2 as int,
                    ) - 1 - j].1,
            decreases ncols - c,
        {
            let lo = self.indptr[c];
            let hi = self.indptr[c + 1];
            proof {
                assert forall|r2: usize|
                    r2 < self.n_rows implies self.gather_upto(r2, c as int) + (
                #[trigger] self.hits_upto(c as int, r2, 0)) =~= self.gather_upto(r2, c as int) by {}
            }
            let mut k: usize = lo;
            while k < hi
                invariant
                    self.wf(),
                    self.sealed(),
                    nnz == self.spec_nnz(),
                    ncols == self.spec_cols(),
                    nr1 == self.spec_rows() + 1,
                    c < ncols,
                    lo == self.indptr@[c as int],
                    hi == self.indptr@[c as int + 1],
                    lo <= k <= hi,
                    hi <= nnz,
                    out_indptr@.len() == nr1,
                    out_indptr@[self.spec_rows()] == nnz,
                    out_indices@.len() == nnz,
                    out_data@.len() == nnz,
                    forall|j: int| 0 <= j < nnz ==> (#[trigger] out_indices@[j]) < ncols,
                    forall|j: int| 0 <= j < nnz ==> (#[trigger] out_data@[j]).wf(),
                    forall|r2: usize|
                        r2 < self.n_rows ==> (#[trigger] out_indptr@[r2 as int]) == self.ends_at(
                            r2 as int,
                        ) - (self.gather_upto(r2, c as int) + self.hits_upto(
                            c as int,
                            r2,
                            k - lo,
                        )).len(),
                    forall|r2: usize, j: int|
                        #![trigger out_indptr@[r2 as int], out_indices@[j]]
                        r2 < self.n_rows && out_indptr@[r2 as int] <= j < self.ends_at(r2 as int)
                            ==> out_indices@[j] == (self.gather_upto(r2, c as int)
                            + self.hits_upto(c as int, r2, k - lo))[self.ends_at(r2 as int) - 1
                            - j].0 && out_data@[j]@ == (self.gather_upto(r2, c as int)
                            + self.hits_upto(c as int, r2, k - lo))[self.ends_at(r2 as int) - 1
                            - j].1,
                decreases hi - k,
            {
                let r = self.indices[k];
                let ghost m = (k - lo) as int;
                let ghost processed = self.gather_upto(r, c as int) + self.hits_upto(c as int, r, m);
                let ghost ptr0 = out_indptr@;
                let ghost idx0 = out_indices@;
                let ghost dat0 = out_data@;
                proof {
                    assert(self.col_seq(c as int)[m] == (
                        self.indices@[k as int],
                        self.data@[k as int]@,
                    ));
                    self.lemma_processed_le_gather(r, c as int, m + 1);
                    self.lemma_ends_at_props(r - 1 as int, r as int);
                    assert(self.ends_at(r as int) == self.ends_at(r - 1 as int) + self.gather(
                        r,
                    ).len());
                    assert(self.hits_upto(c as int, r, m + 1) == self.hits_upto(c as int, r, m)
                        + seq![(c, self.col_seq(c as int)[m].1)]);
                    assert(ptr0[r as int] == self.ends_at(r as int) - processed.len());
                    assert forall|r2: usize|
                        r2 < self.n_rows implies (#[trigger] ptr0[r2 as int]) == self.ends_at(
                        r2 as int,
                    ) - (self.gather_upto(r2, c as int) + self.hits_upto(
                        c as int,
                        r2,
                        m,
                    )).len() by {
                        assert(out_indptr@[r2 as int] == self.ends_at(r2 as int)
                            - (self.gather_upto(r2, c as int) + self.hits_upto(
                            c as int,
                            r2,
                            m,
                        )).len());
                    }
                    assert forall|r2: usize, j: int|
                        #![trigger ptr0[r2 as int], idx0[j]]
                        r2 < self.n_rows && ptr0[r2 as int] <= j < self.ends_at(r2 as int)
                            implies idx0[j] == (self.gather_upto(r2, c as int) + self.hits_upto(
                            c as int,
                            r2,
                            m,
                        ))[self.ends_at(r2 as int) - 1 - j].0 && dat0[j]@ == (self.gather_upto(
                            r2,
                            c as int,
                        ) + self.hits_upto(c as int, r2, m))[self.ends_at(r2 as int) - 1
                            - j].1 by {
                        assert(out_indptr@[r2 as int] <= j < self.ends_at(r2 as int));
                        assert(out_indices@[j] == (self.gather_upto(r2, c as int)
                            + self.hits_upto(c as int, r2, m))[self.ends_at(r2 as int) - 1 - j].0
                            && out_data@[j]@ == (self.gather_upto(r2, c as int) + self.hits_upto(
                            c as int,
                            r2,
                            m,
                        ))[self.ends_at(r2 as int) - 1 - j].1);
                    }
                }
                let p = out_indptr[r] - 1;
                out_indptr.set(r, p);
                out_indices.set(p, c);
                out_data.set(p, self.data[k].clone());
                proof {
                    let processed2 = self.gather_upto(r, c as int) + self.hits_upto(
                        c as int,
                        r,
                        m + 1,
                    );
                    assert(processed2 =~= processed.push((c, self.data@[k as int]@)));
                    assert(forall|r2: usize, j: int|
                        #![trigger ptr0[r2 as int], idx0[j]]
                        r2 < self.n_rows && ptr0[r2 as int] <= j < self.ends_at(r2 as int)
                            ==> idx0[j] == (self.gather_upto(r2, c as int) + self.hits_upto(
                            c as int,
                            r2,
                            m,
                        ))[self.ends_at(r2 as int) - 1 - j].0);
                    assert(out_indptr@ == ptr0.update(r as int, p));
                    assert(out_indices@ == idx0.update(p as int, c));
                    assert(out_data@[p as int]@ == self.data@[k as int]@);
                    assert(forall|j: int|
                        0 <= j < nnz && j != p ==> (#[trigger] out_data@[j]) == dat0[j]);
                    assert forall|r2: usize|
                        r2 < self.n_rows implies (#[trigger] out_indptr@[r2 as int])
                        == self.ends_at(r2 as int) - (self.gather_upto(r2, c as int)
                        + self.hits_upto(c as int, r2, m + 1)).len() by {
                        assert(ptr0[r2 as int] == self.ends_at(r2 as int) - (self.gather_upto(
                            r2,
                            c as int,
                        ) + self.hits_upto(c as int, r2, m)).len());
                        if r2 != r {
                            assert(self.hits_upto(c as int, r2, m + 1) =~= self.hits_upto(
                                c as int,
                                r2,
                                m,
                            ) + Seq::empty());
                            assert(self.hits_upto(c as int, r2, m + 1) =~= self.hits_upto(
                                c as int,
                                r2,
                                m,
                            ));
                        }
                    }
                    assert forall|r2: usize, j: int|
                        #![trigger out_indptr@[r2 as int], out_indices@[j]]
                        r2 < self.n_rows && out_indptr@[r2 as int] <= j < self.ends_at(r2 as int)
                            implies out_indices@[j] == (self.gather_upto(r2, c as int)
                            + self.hits_upto(c as int, r2, m + 1))[self.ends_at(r2 as int) - 1
                            - j].0 && out_data@[j]@ == (self.gather_upto(r2, c as int)
                            + self.hits_upto(c as int, r2, m + 1))[self.ends_at(r2 as int) - 1
                            - j].1 by {
                        let proc2 = self.gather_upto(r2, c as int) + self.hits_upto(
                            c as int,
                            r2,
                            m + 1,
                        );
                        let proc1 = self.gather_upto(r2, c as int) + self.hits_upto(
                            c as int,
                            r2,
                            m,
                        );
                        self.lemma_ends_at_props(r2 as int, self.spec_rows() - 1);
                        assert(ptr0[r2 as int] == self.ends_at(r2 as int) - proc1.len());
                        if ptr0[r2 as int] <= j < self.ends_at(r2 as int) {
                            assert(idx0[j] == proc1[self.ends_at(r2 as int) - 1 - j].0 && dat0[j]@
                                == proc1[self.ends_at(r2 as int) - 1 - j].1);
                        }
                        if r2 == r {
                            assert(proc2 == processed2);
                            assert(proc1 == processed);
                            if j == p {
                                assert(self.ends_at(r as int) - 1 - j == processed2.len() - 1);
                                assert(processed2[processed2.len() - 1] == (
                                    c,
                                    self.data@[k as int]@,
                                ));
                            } else {
                                assert(ptr0[r2 as int] <= j);
                                assert(self.ends_at(r as int) - 1 - j < processed.len());
                                assert(processed2[self.ends_at(r as int) - 1 - j] == processed[
                                    self.ends_at(r as int) - 1 - j]);
                            }
                        } else {
                            assert(self.hits_upto(c as int, r2, m + 1) =~= self.hits_upto(
                                c as int,
                                r2,
                                m,
                            ));
                            self.lemma_processed_le_gather(r2, c as int, m);
                            if r2 < r {
                                self.lemma_ends_at_props(r2 as int, r - 1 as int);
                                assert(j < self.ends_at(r2 as int) <= self.ends_at(r - 1 as int)
                                    <= p);
                            } else {
                                self.lemma_ends_at_props(r as int, r2 - 1 as int);
                                assert(self.ends_at(r2 as int) == self.ends_at(r2 - 1 as int)
                                    + self.gather(r2).len());
                                assert(ptr0[r2 as int] >= self.ends_at(r2 - 1 as int));
                                assert(p < self.ends_at(r as int) <= self.ends_at(r2 - 1 as int));
                            }
                            assert(j != p);
                            assert(out_indices@[j] == idx0[j] && out_data@[j] == dat0[j]);
                        }
                    }
                }
                k += 1;
            }
            proof {
                assert forall|r2: usize|
                    r2 < self.n_rows implies self.gather_upto(r2, c as int) + self.hits_upto(
                    c as int,
                    r2,
                    hi - lo,
                ) =~= #[trigger] self.gather_upto(r2, c + 1 as int) by {
                    assert(self.hits_upto(c as int, r2, hi - lo) == self.hits_in_col(c as int, r2));
                }
            }
            c += 1;
        }
        let n_rows_self = self.n_rows;
        out_indptr.set(n_rows_self, nnz);
        let out = SparseMat { n_rows: ncols, indptr: out_indptr, indices: out_indices, data: out_data };
        proof {
            self.lemma_gather_total(self.spec_cols());
            assert forall|a: int, b: int|
                0 <= a < b < out.indptr@.len() implies (#[trigger] out.indptr@[a]) <= (
            #[trigger] out.indptr@[b]) by {
                self.lemma_ends_at_props(a - 1, b - 1);
                if b < self.spec_rows() {
                    self.lemma_ends_at_props(b - 1, self.spec_rows() - 1);
                }
            }
            assert(out.indptr@[0] == self.ends_at(-1) - self.gather(0 as usize).len()
                + self.gather(0 as usize).len() || self.n_rows == 0);
            if self.n_rows > 0 {
                assert(out.indptr@[0] == self.ends_at(0) - self.gather(0 as usize).len());
                assert(self.ends_at(0) == self.row_sum_gather(self.spec_cols(), 0) + self.gather(
                    0 as usize,
                ).len());
            }
            assert forall|r: usize|
                r < self.spec_rows() implies out.col_seq(r as int) == (#[trigger] self.gather(
                r,
            )).reverse() by {
                self.lemma_ends_at_props(r - 1 as int, r as int);
                assert(self.ends_at(r as int) == self.ends_at(r - 1 as int) + self.gather(
                    r,
                ).len());
                if r + 1 < self.n_rows {
                    assert(out.indptr@[r + 1 as int] == self.ends_at(r + 1 as int) - self.gather(
                        (r + 1) as usize,
                    ).len());
                    assert(self.ends_at(r + 1 as int) == self.ends_at(r as int) + self.gather(
                        (r + 1) as usize,
                    ).len());
                } else {
                    assert(out.indptr@[r + 1 as int] == nnz);
                }
                assert(out.col_seq(r as int) =~= self.gather(r).reverse());
            }
        }
        out
    }

    /// Append a whole column at once: push every entry, then seal.
    pub fn append_col(&mut self, col: &Vec<(usize, AbnormalFraction)>)
        requires
            old(self).wf(),
            old(self).sealed(),
            forall|k: int| 0 <= k < col@.len() ==> (#[trigger] col@[k]).0 < old(self).spec_rows(),
            forall|k: int| 0 <= k < col@.len() ==> (#[trigger] col@[k]).1.wf(),
            old(self).spec_nnz() + col@.len() < usize::MAX,
            old(self).spec_cols() < usize::MAX - 1,
        ensures
            final(self).wf(),
            final(self).sealed(),
            final(self).spec_rows() == old(self).spec_rows(),
            final(self).spec_cols() == old(self).spec_cols() + 1,
            final(self).spec_nnz() == old(self).spec_nnz() + col@.len(),
            forall|c: int|
                0 <= c < old(self).spec_cols() ==> final(self).col_seq(c) == old(self).col_seq(c),
            final(self).col_seq(old(self).spec_cols()) == col@.map_values(
                |p: (usize, AbnormalFraction)| (p.0, p.1@),
            ),
    {
        let ghost pre = *old(self);
        let mut k: usize = 0;
        while k < col.len()
            invariant
                self.wf(),
                k <= col@.len(),
                forall|j: int| 0 <= j < col@.len() ==> (#[trigger] col@[j]).0 < self.spec_rows(),
                forall|j: int| 0 <= j < col@.len() ==> (#[trigger] col@[j]).1.wf(),
                pre.spec_nnz() + col@.len() < usize::MAX,
                self.spec_rows() == pre.spec_rows(),
                self.spec_cols() == pre.spec_cols(),
                self.spec_indptr() == pre.spec_indptr(),
                self.spec_nnz() == pre.spec_nnz() + k,
                pre.sealed(),
                pre.wf(),
                forall|j: int|
                    0 <= j < k ==> self.spec_indices_at(pre.spec_nnz() + j) == (
                    #[trigger] col@[j]).0 && self.spec_data_at(pre.spec_nnz() + j) == col@[j].1@,
                forall|c: int| 0 <= c < pre.spec_cols() ==> self.col_seq(c) == pre.col_seq(c),
            decreases col@.len() - k,
        {
            let (row, val) = (col[k].0, col[k].1.clone());
            self.push(row, val);
            k += 1;
        }
        self.seal_column();
        proof {
            assert(final(self).col_seq(pre.spec_cols()) =~= col@.map_values(
                |p: (usize, AbnormalFraction)| (p.0, p.1@),
            ));
        }
    }
}

/// The multiset of (index, value) pairs in a sequence of entries.
pub open spec fn pairs_ms(q: Seq<(usize, ExtRat)>) -> Multiset<(usize, ExtRat)>
    decreases q.len(),
{
    if q.len() == 0 {
        Multiset::empty()
    } else {
        pairs_ms(q.drop_last()).insert(q.last())
    }
}

/// The entries of `q` whose index is `want`, re-tagged with `tag`, as a
/// multiset.
pub open spec fn picked_ms(q: Seq<(usize, ExtRat)>, want: usize, tag: usize) -> Multiset<
    (usize, ExtRat),
>
    decreases q.len(),
{
    if q.len() == 0 {
        Multiset::empty()
    } else if q.last().0 == want {
        picked_ms(q.drop_last(), want, tag).insert((tag, q.last().1))
    } else {
        picked_ms(q.drop_last(), want, tag)
    }
}

/// The entries of `q` whose index equals `r`, as a multiset.
pub open spec fn row_at_ms(q: Seq<(usize, ExtRat)>, r: usize) -> Multiset<(usize, ExtRat)>
    decreases q.len(),
{
    if q.len() == 0 {
        Multiset::empty()
    } else if q.last().0 == r {
        row_at_ms(q.drop_last(), r).insert(q.last())
    } else {
        row_at_ms(q.drop_last(), r)
    }
}

/// The entries of `q` whose index is below `rb`, as a multiset.
pub open spec fn row_below_ms(q: Seq<(usize, ExtRat)>, rb: int) -> Multiset<(usize, ExtRat)>
    decreases q.len(),
{
    if q.len() == 0 {
        Multiset::empty()
    } else if (q.last().0 as int) < rb {
        row_below_ms(q.drop_last(), rb).insert(q.last())
    } else {
        row_below_ms(q.drop_last(), rb)
    }
}

proof fn lemma_pairs_ms_concat(a: Seq<(usize, ExtRat)>, b: Seq<(usize, ExtRat)>)
    ensures
        pairs_ms(a + b) == pairs_ms(a).add(pairs_ms(b)),
    decreases b.len(),
{
    if b.len() == 0 {
        assert(a + b =~= a);
        assert(pairs_ms(a).add(Multiset::empty()) =~= pairs_ms(a));
    } else {
        lemma_pairs_ms_concat(a, b.drop_last());
        assert((a + b).drop_last() =~= a + b.drop_last());
        assert((a + b).last() == b.last());
        assert(pairs_ms(a).add(pairs_ms(b.drop_last())).insert(b.last()) =~= pairs_ms(a).add(
            pairs_ms(b.drop_last()).insert(b.last()),
        ));
    }
}

proof fn lemma_picked_ms_concat(a: Seq<(usize, ExtRat)>, b: Seq<(usize, ExtRat)>, want: usize, tag: usize)
    ensures
        picked_ms(a + b, want, tag) == picked_ms(a, want, tag).add(picked_ms(b, want, tag)),
    decreases b.len(),
{
    if b.len() == 0 {
        assert(a + b =~= a);
        assert(picked_ms(a, want, tag).add(Multiset::empty()) =~= picked_ms(a, want, tag));
    } else {
        lemma_picked_ms_concat(a, b.drop_last(), want, tag);
        assert((a + b).drop_last() =~= a + b.drop_last());
        assert((a + b).last() == b.last());
        if b.last().0 == want {
            assert(picked_ms(a, want, tag).add(picked_ms(b.drop_last(), want, tag)).insert(
                (tag, b.last().1),
            ) =~= picked_ms(a, want, tag).add(
                picked_ms(b.drop_last(), want, tag).insert((tag, b.last().1)),
            ));
        }
    }
}

proof fn lemma_pairs_ms_reverse(q: Seq<(usize, ExtRat)>)
    ensures
        pairs_ms(q.reverse()) == pairs_ms(q),
    decreases q.len(),
{
    if q.len() > 0 {
        assert(q.reverse() =~= seq![q.last()] + q.drop_last().reverse());
        lemma_pairs_ms_reverse(q.drop_last());
        lemma_pairs_ms_concat(seq![q.last()], q.drop_last().reverse());
        assert(seq![q.last()].drop_last() =~= Seq::<(usize, ExtRat)>::empty());
        assert(pairs_ms(Seq::<(usize, ExtRat)>::empty()) == Multiset::<(usize, ExtRat)>::empty());
        assert(pairs_ms(seq![q.last()]) == Multiset::empty().insert(q.last()));
        assert(Multiset::empty().insert(q.last()).add(pairs_ms(q.drop_last())) =~= pairs_ms(
            q.drop_last(),
        ).insert(q.last()));
    }
}

proof fn lemma_picked_ms_reverse(q: Seq<(usize, ExtRat)>, want: usize, tag: usize)
    ensures
        picked_ms(q.reverse(), want, tag) == picked_ms(q, want, tag),
    decreases q.len(),
{
    if q.len() > 0 {
        assert(q.reverse() =~= seq![q.last()] + q.drop_last().reverse());
        lemma_picked_ms_reverse(q.drop_last(), want, tag);
        lemma_picked_ms_concat(seq![q.last()], q.drop_last().reverse(), want, tag);
        assert(seq![q.last()].drop_last() =~= Seq::<(usize, ExtRat)>::empty());
        assert(picked_ms(Seq::<(usize, ExtRat)>::empty(), want, tag) == Multiset::<(usize, ExtRat)>::empty());
        if q.last().0 == want {
            assert(picked_ms(seq![q.last()], want, tag) == Multiset::empty().insert(
                (tag, q.last().1),
            ));
            assert(Multiset::empty().insert((tag, q.last().1)).add(
                picked_ms(q.drop_last(), want, tag),
            ) =~= picked_ms(q.drop_last(), want, tag).insert((tag, q.last().1)));
        } else {
            assert(picked_ms(seq![q.last()], want, tag) == Multiset::<(usize, ExtRat)>::empty());
            assert(Multiset::<(usize, ExtRat)>::empty().add(picked_ms(q.drop_last(), want, tag))
                =~= picked_ms(q.drop_last(), want, tag));
        }
    }
}

proof fn lemma_row_below_step(q: Seq<(usize, ExtRat)>, rb: int)
    requires
        0 <= rb <= usize::MAX,
    ensures
        row_below_ms(q, rb + 1) == row_below_ms(q, rb).add(row_at_ms(q, rb as usize)),
    decreases q.len(),
{
    if q.len() == 0 {
        assert(row_below_ms(q, rb).add(row_at_ms(q, rb as usize)) =~= Multiset::empty());
    } else {
        lemma_row_below_step(q.drop_last(), rb);
        let a = row_below_ms(q.drop_last(), rb);
        let b = row_at_ms(q.drop_last(), rb as usize);
        if (q.last().0 as int) < rb {
            assert(a.insert(q.last()).add(b) =~= a.add(b).insert(q.last()));
        } else if q.last().0 == rb as usize {
            assert(a.add(b.insert(q.last())) =~= a.add(b).insert(q.last()));
        }
    }
}

proof fn lemma_row_below_all(q: Seq<(usize, ExtRat)>, rb: int)
    requires
        forall|j: int| 0 <= j < q.len() ==> ((#[trigger] q[j]).0 as int) < rb,
    ensures
        row_below_ms(q, rb) == pairs_ms(q),
    decreases q.len(),
{
    if q.len() > 0 {
        lemma_row_below_all(q.drop_last(), rb);
    }
}

impl SparseMat {
    proof fn lemma_hits_upto_picked(&self, c: int, r: usize, k: int)
        requires
            0 <= k <= self.col_seq(c).len(),
            0 <= c <= usize::MAX,
        ensures
            pairs_ms(self.hits_upto(c, r, k)) == picked_ms(
                self.col_seq(c).subrange(0, k),
                r,
                c as usize,
            ),
        decreases k,
    {
        if k == 0 {
            assert(self.col_seq(c).subrange(0, 0) =~= Seq::<(usize, ExtRat)>::empty());
        } else {
            self.lemma_hits_upto_picked(c, r, k - 1);
            let sub = self.col_seq(c).subrange(0, k);
            assert(sub.drop_last() =~= self.col_seq(c).subrange(0, k - 1));
            assert(sub.last() == self.col_seq(c)[k - 1]);
            if self.col_seq(c)[k - 1].0 == r {
                let h = self.hits_upto(c, r, k - 1);
                let piece = seq![(c as usize, self.col_seq(c)[k - 1].1)];
                lemma_pairs_ms_concat(h, piece);
                assert(piece.drop_last() =~= Seq::<(usize, ExtRat)>::empty());
                assert(pairs_ms(Seq::<(usize, ExtRat)>::empty()) == Multiset::<(usize, ExtRat)>::empty());
                assert(pairs_ms(piece) == Multiset::empty().insert(
                    (c as usize, self.col_seq(c)[k - 1].1),
                ));
                assert(pairs_ms(h).add(pairs_ms(piece)) =~= pairs_ms(h).insert(
                    (c as usize, self.col_seq(c)[k - 1].1),
                ));
            } else {
                assert(self.hits_upto(c, r, k) =~= self.hits_upto(c, r, k - 1) + Seq::empty());
                assert(self.hits_upto(c, r, k) =~= self.hits_upto(c, r, k - 1));
            }
        }
    }

    proof fn lemma_hits_elements(&self, c: int, r: usize, k: int)
        requires
            0 <= c <= usize::MAX,
        ensures
            forall|j: int|
                0 <= j < self.hits_upto(c, r, k).len() ==> (#[trigger] self.hits_upto(
                    c,
                    r,
                    k,
                )[j]).0 as int == c,
        decreases k,
    {
        if k > 0 {
            self.lemma_hits_elements(c, r, k - 1);
            assert forall|j: int|
                0 <= j < self.hits_upto(c, r, k).len() implies (#[trigger] self.hits_upto(
                c,
                r,
                k,
            )[j]).0 as int == c by {
                if j < self.hits_upto(c, r, k - 1).len() {
                    assert(self.hits_upto(c, r, k)[j] == self.hits_upto(c, r, k - 1)[j]);
                }
            }
        }
    }

    proof fn lemma_picked_none(q: Seq<(usize, ExtRat)>, want: usize, tag: usize)
        requires
            forall|j: int| 0 <= j < q.len() ==> (#[trigger] q[j]).0 != want,
        ensures
            picked_ms(q, want, tag) == Multiset::<(usize, ExtRat)>::empty(),
        decreases q.len(),
    {
        if q.len() > 0 {
            Self::lemma_picked_none(q.drop_last(), want, tag);
        }
    }

    /// Within one column `c`, the entries of row `r`, re-tagged with the
    /// column index, are exactly what the row gathers from that column.
    proof fn lemma_hits_row_at(&self, c: int, r: usize, k: int)
        requires
            0 <= k <= self.col_seq(c).len(),
            0 <= c <= usize::MAX,
        ensures
            picked_ms(self.hits_upto(c, r, k), c as usize, r) == row_at_ms(
                self.col_seq(c).subrange(0, k),
                r,
            ),
        decreases k,
    {
        if k == 0 {
            assert(self.col_seq(c).subrange(0, 0) =~= Seq::<(usize, ExtRat)>::empty());
        } else {
            self.lemma_hits_row_at(c, r, k - 1);
            let sub = self.col_seq(c).subrange(0, k);
            assert(sub.drop_last() =~= self.col_seq(c).subrange(0, k - 1));
            assert(sub.last() == self.col_seq(c)[k - 1]);
            if self.col_seq(c)[k - 1].0 == r {
                let h = self.hits_upto(c, r, k - 1);
                let piece = seq![(c as usize, self.col_seq(c)[k - 1].1)];
                lemma_picked_ms_concat(h, piece, c as usize, r);
                assert(piece.drop_last() =~= Seq::<(usize, ExtRat)>::empty());
                assert(picked_ms(Seq::<(usize, ExtRat)>::empty(), c as usize, r) == Multiset::<(usize, ExtRat)>::empty());
                assert(picked_ms(piece, c as usize, r) == Multiset::empty().insert(
                    (r, self.col_seq(c)[k - 1].1),
                ));
                assert(picked_ms(h, c as usize, r).add(picked_ms(piece, c as usize, r))
                    =~= picked_ms(h, c as usize, r).insert((r, self.col_seq(c)[k - 1].1)));
                assert(sub.last() == (r, self.col_seq(c)[k - 1].1));
            } else {
                assert(self.hits_upto(c, r, k) =~= self.hits_upto(c, r, k - 1) + Seq::empty());
                assert(self.hits_upto(c, r, k) =~= self.hits_upto(c, r, k - 1));
            }
        }
    }

    /// Everything row `r` gathers from the first `cu` columns, restricted to
    /// column `c`, is exactly column `c`'s share of row `r`.
    proof fn lemma_gather_picked(&self, r: usize, c: usize, cu: int)
        requires
            self.wf(),
            self.sealed(),
            0 <= cu <= self.spec_cols(),
            self.spec_cols() <= usize::MAX,
        ensures
            picked_ms(self.gather_upto(r, cu), c, r) == if (c as int) < cu {
                row_at_ms(self.col_seq(c as int), r)
            } else {
                Multiset::<(usize, ExtRat)>::empty()
            },
        decreases cu,
    {
        if cu > 0 {
            self.lemma_gather_picked(r, c, cu - 1);
            let len = self.col_seq(cu - 1).len() as int;
            lemma_picked_ms_concat(self.gather_upto(r, cu - 1), self.hits_in_col(cu - 1, r), c, r);
            if c as int == cu - 1 {
                self.lemma_hits_row_at(cu - 1, r, len);
                assert(self.col_seq(cu - 1).subrange(0, len) =~= self.col_seq(cu - 1));
                assert(Multiset::<(usize, ExtRat)>::empty().add(
                    row_at_ms(self.col_seq(c as int), r),
                ) =~= row_at_ms(self.col_seq(c as int), r));
            } else {
                self.lemma_hits_elements(cu - 1, r, len);
                assert forall|j: int|
                    0 <= j < self.hits_in_col(cu - 1, r).len() implies (
                #[trigger] self.hits_in_col(cu - 1, r)[j]).0 != c by {
                    assert(self.hits_in_col(cu - 1, r)[j] == self.hits_upto(cu - 1, r, len)[j]);
                }
                Self::lemma_picked_none(self.hits_in_col(cu - 1, r), c, r);
                assert(picked_ms(self.gather_upto(r, cu - 1), c, r).add(
                    Multiset::<(usize, ExtRat)>::empty(),
                ) =~= picked_ms(self.gather_upto(r, cu - 1), c, r));
            }
        }
    }
}

/// Row `c` of a transpose gathers, over the transpose's columns `0..rb`,
/// exactly the original column `c`'s entries whose row is below `rb`.
proof fn lemma_transpose_gather_ms(m: &SparseMat, t: &SparseMat, c: usize, rb: int)
    requires
        m.wf(),
        m.sealed(),
        t.wf(),
        t.sealed(),
        t.spec_rows() == m.spec_cols(),
        t.spec_cols() == m.spec_rows(),
        forall|r: usize|
            r < m.spec_rows() ==> t.col_seq(r as int) == (#[trigger] m.gather(r)).reverse(),
        c < m.spec_cols(),
        m.spec_cols() <= usize::MAX,
        0 <= rb <= m.spec_rows(),
    ensures
        pairs_ms(t.gather_upto(c, rb)) == row_below_ms(m.col_seq(c as int), rb),
    decreases rb,
{
    if rb == 0 {
        lemma_row_below_none(m.col_seq(c as int));
    } else {
        lemma_transpose_gather_ms(m, t, c, rb - 1);
        let r = (rb - 1) as usize;
        let len = t.col_seq(rb - 1).len() as int;
        lemma_pairs_ms_concat(t.gather_upto(c, rb - 1), t.hits_in_col(rb - 1, c));
        t.lemma_hits_upto_picked(rb - 1, c, len);
        assert(t.col_seq(rb - 1).subrange(0, len) =~= t.col_seq(rb - 1));
        assert(t.col_seq(rb - 1) == m.gather(r).reverse());
        lemma_picked_ms_reverse(m.gather(r), c, r);
        m.lemma_gather_picked(r, c, m.spec_cols());
        lemma_row_below_step(m.col_seq(c as int), rb - 1);
    }
}

proof fn lemma_row_below_none(q: Seq<(usize, ExtRat)>)
    ensures
        row_below_ms(q, 0) == Multiset::<(usize, ExtRat)>::empty(),
    decreases q.len(),
{
    if q.len() > 0 {
        lemma_row_below_none(q.drop_last());
    }
}

/// Transposing twice preserves the logical entries of every column: when
/// `t` stands to `m` as a transpose result does, and `u` stands to `t` the
/// same way, each column of `u` holds the same multiset of (row, value)
/// pairs as the corresponding column of `m`, whatever the physical order.
pub proof fn lemma_transpose_involution(m: &SparseMat, t: &SparseMat, u: &SparseMat, c: usize)
    requires
        m.wf(),
        m.sealed(),
        t.wf(),
        t.sealed(),
        t.spec_rows() == m.spec_cols(),
        t.spec_cols() == m.spec_rows(),
        forall|r: usize|
            r < m.spec_rows() ==> t.col_seq(r as int) == (#[trigger] m.gather(r)).reverse(),
        forall|r: usize|
            r < t.spec_rows() ==> u.col_seq(r as int) == (#[trigger] t.gather(r)).reverse(),
        c < m.spec_cols(),
        m.spec_cols() <= usize::MAX,
    ensures
        pairs_ms(u.col_seq(c as int)) == pairs_ms(m.col_seq(c as int)),
{
    assert(u.col_seq(c as int) == t.gather(c).reverse());
    lemma_pairs_ms_reverse(t.gather(c));
    lemma_transpose_gather_ms(m, t, c, m.spec_rows());
    assert forall|j: int|
        0 <= j < m.col_seq(c as int).len() implies ((#[trigger] m.col_seq(c as int)[j]).0 as int)
        < m.spec_rows() by {
        assert(m.col_seq(c as int)[j].0 == m.spec_indices_at(m.spec_indptr()[c as int] + j));
    }
    lemma_row_below_all(m.col_seq(c as int), m.spec_rows());
}

/// The diagonal of a triangular factor: stored explicitly, or implicitly
/// all ones (the unit-diagonal factor of an LU decomposition needs no
/// storage).
#[derive(Debug)]
pub enum Diag {
    Explicit(Vec<AbnormalFraction>),
    Unit,
}

/// A strictly-triangular sparse matrix together with its diagonal.
#[derive(Debug)]
pub struct TriangleMat {
    pub nondiag: SparseMat,
    pub diag: Diag,
}

impl TriangleMat {
    pub open spec fn wf(&self) -> bool {
        &&& self.nondiag.wf()
        &&& self.nondiag.sealed()
        &&& match self.diag {
            Diag::Explicit(ref d) => d@.len() == self.nondiag.spec_rows() && forall|i: int|
                0 <= i < d@.len() ==> (#[trigger] d@[i]).wf(),
            Diag::Unit => true,
        }
    }

    /// The diagonal value at position `i`: the stored value, or one.
    pub open spec fn spec_diag_at(&self, i: int) -> ExtRat {
        match self.diag {
            Diag::Explicit(ref d) => d@[i]@,
            Diag::Unit => ExtRat::Fin(crate::rational::rat_one()),
        }
    }

    pub fn rows(&self) -> (r: usize)
        ensures
            r == self.nondiag.spec_rows(),
    {
        self.nondiag.rows()
    }

    pub fn cols(&self) -> (r: usize)
        requires
            self.nondiag.wf(),
        ensures
            r == self.nondiag.spec_cols(),
    {
        self.nondiag.cols()
    }

    /// The whole matrix in dense row-major form: the diagonal (explicit or
    /// implicit ones) on the diagonal cells, every stored entry at its
    /// (row, column) cell, exact zero everywhere else. For inspection and
    /// tests.
    pub fn to_dense(&self) -> (r: Vec<Vec<AbnormalFraction>>)
        requires
            self.wf(),
            self.nondiag.spec_rows() == self.nondiag.spec_cols(),
            // strictly triangular: no stored entry on the diagonal, and no
            // two entries share a cell
            forall|c: int, k: int|
                0 <= c < self.nondiag.spec_cols() && 0 <= k < self.nondiag.col_seq(c).len() ==> ((
                #[trigger] self.nondiag.col_seq(c)[k]).0 as int) != c,
            forall|c: int, k1: int, k2: int|
                0 <= c < self.nondiag.spec_cols() && 0 <= k1 < k2 < self.nondiag.col_seq(c).len()
                    ==> self.nondiag.col_seq(c)[k1].0 != self.nondiag.col_seq(c)[k2].0,
        ensures
            r@.len() == self.nondiag.spec_rows(),
            forall|i: int| 0 <= i < r@.len() ==> (#[trigger] r@[i])@.len() == self.nondiag.spec_cols(),
            forall|i: int| 0 <= i < r@.len() ==> r@[i]@[i]@ == self.spec_diag_at(i),
            forall|c: int, k: int|
                0 <= c < self.nondiag.spec_cols() && 0 <= k < self.nondiag.col_seq(c).len()
                    ==> r@[(#[trigger] self.nondiag.col_seq(c)[k]).0 as int]@[c]@
                    == self.nondiag.col_seq(c)[k].1,
            forall|i: int, c: int|
                0 <= i < self.nondiag.spec_rows() && 0 <= c < self.nondiag.spec_cols() && i != c
                    && (forall|k: int|
                    0 <= k < self.nondiag.col_seq(c).len() ==> ((
                    #[trigger] self.nondiag.col_seq(c)[k]).0 as int) != i) ==> is_zero_v(
                    #[trigger] r@[i]@[c]@,
                ),
    {
        let n = self.nondiag.rows();
        let mut r: Vec<Vec<AbnormalFraction>> = Vec::new();
        let mut i: usize = 0;
        while i < n
            invariant
                self.wf(),
                self.nondiag.spec_rows() == self.nondiag.spec_cols(),
                n == self.nondiag.spec_rows(),
                forall|c: int, k: int|
                    0 <= c < self.nondiag.spec_cols() && 0 <= k < self.nondiag.col_seq(c).len()
                        ==> ((#[trigger] self.nondiag.col_seq(c)[k]).0 as int) != c,
                forall|c: int, k1: int, k2: int|
                    0 <= c < self.nondiag.spec_cols() && 0 <= k1 < k2 < self.nondiag.col_seq(
                        c,
                    ).len() ==> self.nondiag.col_seq(c)[k1].0 != self.nondiag.col_seq(c)[k2].0,
                i <= n,
                r@.len() == i,
                forall|i2: int|
                    0 <= i2 < i ==> (#[trigger] r@[i2])@.len() == self.nondiag.spec_cols(),
                forall|i2: int| 0 <= i2 < i ==> r@[i2]@[i2]@ == self.spec_diag_at(i2),
                forall|c: int, k: int|
                    0 <= c < self.nondiag.spec_cols() && 0 <= k < self.nondiag.col_seq(c).len()
                        && ((#[trigger] self.nondiag.col_seq(c)[k]).0 as int) < i
                        ==> r@[self.nondiag.col_seq(c)[k].0 as int]@[c]@ == self.nondiag.col_seq(
                        c,
                    )[k].1,
                forall|i2: int, c: int|
                    0 <= i2 < i && 0 <= c < self.nondiag.spec_cols() && i2 != c && (forall|k: int|
                        0 <= k < self.nondiag.col_seq(c).len() ==> ((
                        #[trigger] self.nondiag.col_seq(c)[k]).0 as int) != i2) ==> is_zero_v(
                        #[trigger] r@[i2]@[c]@,
                    ),
            decreases n - i,
        {
            let row = self.dense_row(i, n);
            r.push(row);
            i += 1;
        }
        r
    }

    /// One dense row of the matrix.
    fn dense_row(&self, i: usize, n: usize) -> (row: Vec<AbnormalFraction>)
        requires
            self.wf(),
            self.nondiag.spec_rows() == self.nondiag.spec_cols(),
            n == self.nondiag.spec_rows(),
            i < n,
            forall|c: int, k: int|
                0 <= c < self.nondiag.spec_cols() && 0 <= k < self.nondiag.col_seq(c).len() ==> ((
                #[trigger] self.nondiag.col_seq(c)[k]).0 as int) != c,
            forall|c: int, k1: int, k2: int|
                0 <= c < self.nondiag.spec_cols() && 0 <= k1 < k2 < self.nondiag.col_seq(c).len()
                    ==> self.nondiag.col_seq(c)[k1].0 != self.nondiag.col_seq(c)[k2].0,
        ensures
            row@.len() == self.nondiag.spec_cols(),
            row@[i as int]@ == self.spec_diag_at(i as int),
            forall|c: int, k: int|
                0 <= c < self.nondiag.spec_cols() && 0 <= k < self.nondiag.col_seq(c).len() && (
                #[trigger] self.nondiag.col_seq(c)[k]).0 == i ==> row@[c]@ == self.nondiag.col_seq(
                    c,
                )[k].1,
            forall|c: int|
                0 <= c < self.nondiag.spec_cols() && i as int != c && (forall|k: int|
                    0 <= k < self.nondiag.col_seq(c).len() ==> (#[trigger] self.nondiag.col_seq(
                    c,
                )[k]).0 != i) ==> is_zero_v(#[trigger] row@[c]@),
    {
        let mut row: Vec<AbnormalFraction> = Vec::new();
        let mut c: usize = 0;
        while c < n
            invariant
                self.wf(),
                self.nondiag.spec_rows() == self.nondiag.spec_cols(),
                n == self.nondiag.spec_rows(),
                i < n,
                forall|c2: int, k: int|
                    0 <= c2 < self.nondiag.spec_cols() && 0 <= k < self.nondiag.col_seq(c2).len()
                        ==> ((#[trigger] self.nondiag.col_seq(c2)[k]).0 as int) != c2,
                forall|c2: int, k1: int, k2: int|
                    0 <= c2 < self.nondiag.spec_cols() && 0 <= k1 < k2 < self.nondiag.col_seq(
                        c2,
                    ).len() ==> self.nondiag.col_seq(c2)[k1].0 != self.nondiag.col_seq(c2)[k2].0,
                c <= n,
                row@.len() == c,
                i < c ==> row@[i as int]@ == self.spec_diag_at(i as int),
                forall|c2: int, k: int|
                    0 <= c2 < c && 0 <= k < self.nondiag.col_seq(c2).len() && (
                    #[trigger] self.nondiag.col_seq(c2)[k]).0 == i ==> row@[c2]@
                        == self.nondiag.col_seq(c2)[k].1,
                forall|c2: int|
                    0 <= c2 < c && i as int != c2 && (forall|k: int|
                        0 <= k < self.nondiag.col_seq(c2).len() ==> (
                        #[trigger] self.nondiag.col_seq(c2)[k]).0 != i) ==> is_zero_v(
                        #[trigger] row@[c2]@,
                    ),
            decreases n - c,
        {
            let cell = self.dense_cell(i, c);
            row.push(cell);
            c += 1;
        }
        row
    }

    /// The value at one cell: the diagonal value on the diagonal, the
    /// stored entry where one exists, exact zero otherwise.
    fn dense_cell(&self, i: usize, c: usize) -> (cell: AbnormalFraction)
        requires
            self.wf(),
            i < self.nondiag.spec_rows(),
            c < self.nondiag.spec_cols(),
            forall|k: int|
                0 <= k < self.nondiag.col_seq(c as int).len() ==> ((
                #[trigger] self.nondiag.col_seq(c as int)[k]).0 as int) != c,
            forall|k1: int, k2: int|
                0 <= k1 < k2 < self.nondiag.col_seq(c as int).len() ==> self.nondiag.col_seq(
                    c as int,
                )[k1].0 != self.nondiag.col_seq(c as int)[k2].0,
        ensures
            cell.wf(),
            i == c ==> cell@ == self.spec_diag_at(i as int),
            forall|k: int|
                0 <= k < self.nondiag.col_seq(c as int).len() && (#[trigger] self.nondiag.col_seq(
                    c as int,
                )[k]).0 == i ==> cell@ == self.nondiag.col_seq(c as int)[k].1,
            i != c && (forall|k: int|
                0 <= k < self.nondiag.col_seq(c as int).len() ==> (#[trigger] self.nondiag.col_seq(
                c as int,
            )[k]).0 != i) ==> is_zero_v(cell@),
    {
        if i == c {
            match &self.diag {
                Diag::Explicit(d) => d[i].clone(),
                Diag::Unit => AbnormalFraction::one(),
            }
        } else {
            let rows = self.nondiag.col_rows(c);
            let data = self.nondiag.col_data(c);
            let mut cell = AbnormalFraction::zero();
            let mut k: usize = 0;
            while k < rows.len()
                invariant
                    self.wf(),
                    i < self.nondiag.spec_rows(),
                    c < self.nondiag.spec_cols(),
                    i != c,
                    forall|k1: int, k2: int|
                        0 <= k1 < k2 < self.nondiag.col_seq(c as int).len()
                            ==> self.nondiag.col_seq(c as int)[k1].0 != self.nondiag.col_seq(
                            c as int,
                        )[k2].0,
                    rows@.len() == self.nondiag.col_seq(c as int).len(),
                    data@.len() == self.nondiag.col_seq(c as int).len(),
                    forall|k2: int|
                        0 <= k2 < rows@.len() ==> (#[trigger] rows@[k2]) == self.nondiag.col_seq(
                            c as int,
                        )[k2].0,
                    forall|k2: int|
                        0 <= k2 < data@.len() ==> (#[trigger] data@[k2])@ == self.nondiag.col_seq(
                            c as int,
                        )[k2].1 && data@[k2].wf(),
                    k <= rows@.len(),
                    cell.wf(),
                    forall|k2: int|
                        0 <= k2 < k && (#[trigger] self.nondiag.col_seq(c as int)[k2]).0 == i
                            ==> cell@ == self.nondiag.col_seq(c as int)[k2].1,
                    (forall|k2: int|
                        0 <= k2 < k ==> (#[trigger] self.nondiag.col_seq(c as int)[k2]).0 != i)
                        ==> is_zero_v(cell@),
                decreases rows@.len() - k,
            {
                if rows[k] == i {
                    cell = data[k].clone();
                }
                k += 1;
            }
            cell
        }
    }

    /// Transpose the strictly-triangular part; the diagonal is carried over
    /// unchanged.
    pub fn transpose(&self) -> (r: TriangleMat)
        requires
            self.wf(),
            self.nondiag.spec_rows() < usize::MAX,
            self.nondiag.spec_rows() == self.nondiag.spec_cols(),
        ensures
            r.wf(),
            r.nondiag.spec_rows() == self.nondiag.spec_cols(),
            r.nondiag.spec_cols() == self.nondiag.spec_rows(),
            r.nondiag.spec_nnz() == self.nondiag.spec_nnz(),
            forall|row: usize|
                row < self.nondiag.spec_rows() ==> r.nondiag.col_seq(row as int) == (
                #[trigger] self.nondiag.gather(row)).reverse(),
            self.nondiag.spec_rows() == self.nondiag.spec_cols() ==> forall|i: int|
                0 <= i < self.nondiag.spec_rows() ==> r.spec_diag_at(i) == self.spec_diag_at(i),
    {
        let diag = match &self.diag {
            Diag::Explicit(d) => Diag::Explicit(clone_fractions(d)),
            Diag::Unit => Diag::Unit,
        };
        let nondiag = self.nondiag.transpose();
        proof {
            if self.nondiag.spec_rows() == self.nondiag.spec_cols() {
                match diag {
                    Diag::Explicit(ref d) => {
                        assert(forall|i: int|
                            0 <= i < d@.len() ==> (#[trigger] d@[i])@ == self.spec_diag_at(i));
                    },
                    Diag::Unit => {},
                }
            }
        }
        TriangleMat { nondiag, diag }
    }
}

fn clone_fractions(v: &Vec<AbnormalFraction>) -> (r: Vec<AbnormalFraction>)
    ensures
        r@.len() == v@.len(),
        forall|i: int|
            0 <= i < v@.len() ==> (#[trigger] r@[i])@ == v@[i]@ && (v@[i].wf() ==> r@[i].wf()),
{
    let mut r: Vec<AbnormalFraction> = Vec::new();
    let mut i: usize = 0;
    while i < v.len()
        invariant
            i <= v.len(),
            r@.len() == i,
            forall|j: int|
                0 <= j < i ==> (#[trigger] r@[j])@ == v@[j]@ && (v@[j].wf() ==> r@[j].wf()),
        decreases v.len() - i,
    {
        r.push(v[i].clone());
        i += 1;
    }
    r
}

/// A bidirectional mapping between original and reordered indices: the two
/// arrays are mutually inverse.
#[derive(Debug)]
pub struct Perm {
    orig2new: Vec<usize>,
    new2orig: Vec<usize>,
}

impl Perm {
    pub closed spec fn spec_orig2new(&self) -> Seq<usize> {
        self.orig2new@
    }

    pub closed spec fn spec_new2orig(&self) -> Seq<usize> {
        self.new2orig@
    }

    pub closed spec fn wf(&self) -> bool {
        &&& self.orig2new@.len() == self.new2orig@.len()
        &&& forall|i: int|
            0 <= i < self.orig2new@.len() ==> (#[trigger] self.orig2new@[i]) < self.orig2new@.len()
        &&& forall|i: int|
            0 <= i < self.new2orig@.len() ==> (#[trigger] self.new2orig@[i]) < self.new2orig@.len()
        &&& forall|i: int|
            0 <= i < self.orig2new@.len() ==> self.new2orig@[(#[trigger] self.orig2new@[i]) as int]
                == i
        &&& forall|i: int|
            0 <= i < self.new2orig@.len() ==> self.orig2new@[(#[trigger] self.new2orig@[i]) as int]
                == i
    }

    /// The identity permutation on `n` indices.
    pub fn identity(n: usize) -> (r: Perm)
        ensures
            r.wf(),
            r.spec_orig2new().len() == n,
            forall|i: int| 0 <= i < n ==> (#[trigger] r.spec_orig2new()[i]) == i,
            forall|i: int| 0 <= i < n ==> (#[trigger] r.spec_new2orig()[i]) == i,
    {
        let mut orig2new: Vec<usize> = Vec::new();
        let mut i: usize = 0;
        while i < n
            invariant
                i <= n,
                orig2new@.len() == i,
                forall|j: int| 0 <= j < i ==> (#[trigger] orig2new@[j]) == j,
            decreases n - i,
        {
            orig2new.push(i);
            i += 1;
        }
        let new2orig = clone_indices(&orig2new);
        Perm { orig2new, new2orig }
    }

    pub fn len(&self) -> (r: usize)
        requires
            self.wf(),
        ensures
            r == self.spec_orig2new().len(),
    {
        self.orig2new.len()
    }

    /// The reordered position of original index `i`.
    pub fn orig_to_new(&self, i: usize) -> (r: usize)
        requires
            self.wf(),
            i < self.spec_orig2new().len(),
        ensures
            r == self.spec_orig2new()[i as int],
            r < self.spec_orig2new().len(),
    {
        self.orig2new[i]
    }

    /// The original position of reordered index `i`.
    pub fn new_to_orig(&self, i: usize) -> (r: usize)
        requires
            self.wf(),
            i < self.spec_new2orig().len(),
        ensures
            r == self.spec_new2orig()[i as int],
            r < self.spec_new2orig().len(),
    {
        self.new2orig[i]
    }
}

fn clone_indices(v: &Vec<usize>) -> (r: Vec<usize>)
    ensures
        r@ == v@,
{
    let mut r: Vec<usize> = Vec::new();
    let mut i: usize = 0;
    while i < v.len()
        invariant
            i <= v.len(),
            r@ == v@.subrange(0, i as int),
        decreases v.len() - i,
    {
        r.push(v[i]);
        proof {
            assert(v@.subrange(0, i + 1 as int) =~= v@.subrange(0, i as int).push(v@[i as int]));
        }
        i += 1;
    }
    proof {
        assert(r@ =~= v@);
    }
    r
}

/// A factorization failure: the basis matrix is not invertible.
#[derive(Clone, Copy, Debug, PartialEq, Eq, Structural)]
pub enum Error {
    SingularMatrix,
}

} // verus!

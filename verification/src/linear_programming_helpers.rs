//! Helpers over sparse vectors: truncating a sorted sparse vector to a
//! shorter dense length, and scattering one into dense form.

use vstd::prelude::*;

verus! {

use crate::abnormal_fraction::{AbnormalFraction, is_zero_v};
use crate::linear_programming_sparse::{SparseVec, lemma_push_contains};

/// The indices are strictly increasing.
pub open spec fn sorted_indices(s: Seq<usize>) -> bool {
    forall|k1: int, k2: int| 0 <= k1 < k2 < s.len() ==> s[k1] < s[k2]
}

/// The entries of a sorted sparse vector whose indices fit under `len`:
/// exactly the prefix that a dense vector of length `len` can hold. The cut
/// is found by binary search over the sorted index list.
pub fn resized_view(vec: &SparseVec, len: usize) -> (r: SparseVec)
    requires
        vec.wf(),
        sorted_indices(vec.spec_indices()),
    ensures
        r.wf(),
        r.spec_indices().len() <= vec.spec_indices().len(),
        forall|k: int|
            0 <= k < r.spec_indices().len() ==> (#[trigger] r.spec_indices()[k])
                == vec.spec_indices()[k] && r.spec_values()[k] == vec.spec_values()[k],
        forall|k: int|
            0 <= k < r.spec_indices().len() ==> (#[trigger] r.spec_indices()[k]) < len,
        forall|k: int|
            r.spec_indices().len() <= k < vec.spec_indices().len() ==> (
            #[trigger] vec.spec_indices()[k]) >= len,
{
    let entries = vec.iter();
    let n = entries.len();
    let mut lo: usize = 0;
    let mut hi: usize = n;
    while lo < hi
        invariant
            vec.wf(),
            sorted_indices(vec.spec_indices()),
            n == vec.spec_indices().len(),
            entries@.len() == n,
            forall|k: int|
                0 <= k < n ==> (#[trigger] entries@[k]).0 == vec.spec_indices()[k]
                    && entries@[k].1@ == vec.spec_values()[k] && entries@[k].1.wf(),
            lo <= hi <= n,
            forall|k: int| 0 <= k < lo ==> (#[trigger] vec.spec_indices()[k]) < len,
            forall|k: int| hi <= k < n ==> (#[trigger] vec.spec_indices()[k]) >= len,
        decreases hi - lo,
    {
        let mid = lo + (hi - lo) / 2;
        if entries[mid].0 < len {
            lo = mid + 1;
        } else {
            hi = mid;
        }
    }
    let mut r = SparseVec::new();
    let mut k: usize = 0;
    while k < lo
        invariant
            vec.wf(),
            n == vec.spec_indices().len(),
            entries@.len() == n,
            forall|j: int|
                0 <= j < n ==> (#[trigger] entries@[j]).0 == vec.spec_indices()[j]
                    && entries@[j].1@ == vec.spec_values()[j] && entries@[j].1.wf(),
            lo <= n,
            k <= lo,
            r.wf(),
            r.spec_indices().len() == k,
            r.spec_values().len() == k,
            forall|j: int|
                0 <= j < k ==> (#[trigger] r.spec_indices()[j]) == vec.spec_indices()[j]
                    && r.spec_values()[j] == vec.spec_values()[j],
        decreases lo - k,
    {
        let (i, val) = (entries[k].0, entries[k].1.clone());
        r.push(i, val);
        k += 1;
    }
    r
}

/// Scatter a sparse vector with unique in-range indices into a dense vector
/// of length `dim`: listed positions carry their values, all others exact
/// zero.
pub fn to_dense(vec: &SparseVec, dim: usize) -> (r: Vec<AbnormalFraction>)
    requires
        vec.wf(),
        forall|k: int| 0 <= k < vec.spec_indices().len() ==> (#[trigger] vec.spec_indices()[k]) < dim,
        forall|k1: int, k2: int|
            0 <= k1 < k2 < vec.spec_indices().len() ==> vec.spec_indices()[k1]
                != vec.spec_indices()[k2],
    ensures
        r@.len() == dim,
        forall|i: int| 0 <= i < dim ==> (#[trigger] r@[i]).wf(),
        forall|k: int|
            0 <= k < vec.spec_indices().len() ==> r@[(#[trigger] vec.spec_indices()[k]) as int]@
                == vec.spec_values()[k],
        forall|i: usize|
            i < dim && !vec.spec_indices().contains(i) ==> is_zero_v(r@[i as int]@),
{
    let mut r: Vec<AbnormalFraction> = Vec::new();
    let mut i: usize = 0;
    while i < dim
        invariant
            i <= dim,
            r@.len() == i,
            forall|j: int| 0 <= j < i ==> (#[trigger] r@[j]).wf(),
            forall|j: int| 0 <= j < i ==> is_zero_v((#[trigger] r@[j])@),
        decreases dim - i,
    {
        r.push(AbnormalFraction::zero());
        i += 1;
    }
    let entries = vec.iter();
    let mut k: usize = 0;
    while k < entries.len()
        invariant
            vec.wf(),
            forall|j: int|
                0 <= j < vec.spec_indices().len() ==> (#[trigger] vec.spec_indices()[j]) < dim,
            forall|j1: int, j2: int|
                0 <= j1 < j2 < vec.spec_indices().len() ==> vec.spec_indices()[j1]
                    != vec.spec_indices()[j2],
            entries@.len() == vec.spec_indices().len(),
            forall|j: int|
                0 <= j < entries@.len() ==> (#[trigger] entries@[j]).0 == vec.spec_indices()[j]
                    && entries@[j].1@ == vec.spec_values()[j] && entries@[j].1.wf(),
            k <= entries@.len(),
            r@.len() == dim,
            forall|j: int| 0 <= j < dim ==> (#[trigger] r@[j]).wf(),
            forall|j: int|
                0 <= j < k ==> r@[(#[trigger] vec.spec_indices()[j]) as int]@
                    == vec.spec_values()[j],
            forall|i2: usize|
                i2 < dim && !vec.spec_indices().subrange(0, k as int).contains(i2) ==> is_zero_v(
                    r@[i2 as int]@,
                ),
        decreases entries@.len() - k,
    {
        let (idx, val) = (entries[k].0, entries[k].1.clone());
        r.set(idx, val);
        proof {
            let pre = vec.spec_indices().subrange(0, k as int);
            let post = vec.spec_indices().subrange(0, k + 1 as int);
            assert(post =~= pre.push(vec.spec_indices()[k as int]));
            assert forall|j: int|
                0 <= j < k + 1 implies r@[(#[trigger] vec.spec_indices()[j]) as int]@
                == vec.spec_values()[j] by {
                if j < k {
                    assert(vec.spec_indices()[j] != vec.spec_indices()[k as int]);
                }
            }
            assert forall|i2: usize|
                i2 < dim && !post.contains(i2) implies is_zero_v(r@[i2 as int]@) by {
                lemma_push_contains(pre, vec.spec_indices()[k as int], i2);
            }
        }
        k += 1;
    }
    proof {
        assert(vec.spec_indices().subrange(0, vec.spec_indices().len() as int)
            =~= vec.spec_indices());
    }
    r
}

} // verus!

//! All nearest smaller values: for each number, the nearest number to its
//! left that is smaller, found with a stack of candidates.
use vstd::prelude::*;

use crate::stack::MyStack;
use crate::vec::MyVec;

verus! {

/// `j` is the nearest position left of `i` whose value is smaller than `a[i]`.
pub open spec fn is_nearest_smaller(a: Seq<i32>, i: int, j: int) -> bool {
    &&& 0 <= j < i
    &&& a[j] < a[i]
    &&& forall|k: int| j < k < i ==> a[k] >= a[i]
}

/// The nearest value left of position `i` that is smaller than `a[i]`, or
/// `None` when every value to its left is at least `a[i]`.
pub open spec fn nearest_smaller(a: Seq<i32>, i: int) -> Option<i32> {
    if exists|j: int| is_nearest_smaller(a, i, j) {
        Some(a[choose|j: int| is_nearest_smaller(a, i, j)])
    } else {
        None
    }
}

/// Stack slot `k`, holding the value at position `idx[k]`, lies at or after
/// position `j` and is at most `a[j]`.
spec fn covers(a: Seq<i32>, st: Seq<i32>, idx: Seq<int>, j: int, k: int) -> bool {
    &&& 0 <= k < idx.len()
    &&& idx[k] >= j
    &&& st[k] <= a[j]
}

/// Some stack slot covers position `j`.
spec fn covered(a: Seq<i32>, st: Seq<i32>, idx: Seq<int>, j: int) -> bool {
    exists|k: int| #[trigger] covers(a, st, idx, j, k)
}

/// The candidate stack after reading `a[0..i]`: it holds values of `a`
/// at increasing positions, strictly increasing, and every position read
/// so far is covered by some slot.
spec fn candidates(a: Seq<i32>, i: int, st: Seq<i32>, idx: Seq<int>) -> bool {
    &&& idx.len() == st.len()
    &&& st.len() <= i
    &&& forall|k: int| 0 <= k < idx.len() ==> 0 <= #[trigger] idx[k] < i && st[k] == a[idx[k]]
    &&& forall|k: int, l: int| 0 <= k < l < idx.len() ==> #[trigger] idx[k] < #[trigger] idx[l]
    &&& forall|k: int, l: int| 0 <= k < l < st.len() ==> #[trigger] st[k] < #[trigger] st[l]
    &&& forall|j: int| 0 <= j < i ==> #[trigger] covered(a, st, idx, j)
}

/// At most one position is the nearest smaller one.
proof fn lemma_nearest_unique(a: Seq<i32>, i: int, j: int)
    requires
        is_nearest_smaller(a, i, j),
    ensures
        nearest_smaller(a, i) == Some(a[j]),
{
    let c = choose|c: int| is_nearest_smaller(a, i, c);
    assert(is_nearest_smaller(a, i, c));
    if c < j {
        assert(a[j] >= a[i]);
    } else if j < c {
        assert(a[c] >= a[i]);
    }
}

/// For each value of `values`, the nearest smaller value to its left.
pub fn compute_ansv(values: &[i32]) -> (res: MyVec<Option<i32>>)
    requires
        values@.len() < usize::MAX / 2,
    ensures
        res.wf(),
        res@.len() == values@.len(),
        forall|i: int| 0 <= i < values@.len() ==> #[trigger] res@[i] == nearest_smaller(values@, i),
{
    let ghost a = values@;
    let mut uresvec: MyStack<i32> = MyStack::new();
    let mut resvec: MyVec<Option<i32>> = MyVec::new(None);
    let ghost mut idx: Seq<int> = Seq::empty();
    let mut i: usize = 0;
    while i < values.len()
        invariant
            a == values@,
            a.len() < usize::MAX / 2,
            i <= a.len(),
            uresvec.wf(),
            resvec.wf(),
            resvec@.len() == i,
            forall|t: int| 0 <= t < i ==> #[trigger] resvec@[t] == nearest_smaller(a, t),
            candidates(a, i as int, uresvec@, idx),
        decreases a.len() - i,
    {
        let elem = values[i];
        let ghost st0 = uresvec@;
        let ghost idx0 = idx;
        let ghost res0 = resvec@;
        loop
            invariant_except_break
                resvec@ == res0,
            invariant
                a == values@,
                a.len() < usize::MAX / 2,
                i < a.len(),
                elem == a[i as int],
                uresvec.wf(),
                resvec.wf(),
                res0.len() == i,
                candidates(a, i as int, st0, idx0),
                idx.len() == uresvec@.len(),
                idx.len() <= idx0.len(),
                idx == idx0.take(idx.len() as int),
                uresvec@ == st0.take(idx.len() as int),
                forall|k: int| idx.len() <= k < idx0.len() ==> #[trigger] st0[k] >= elem,
            ensures
                uresvec.wf(),
                resvec.wf(),
                idx.len() == uresvec@.len(),
                idx.len() <= idx0.len(),
                idx == idx0.take(idx.len() as int),
                uresvec@ == st0.take(idx.len() as int),
                forall|k: int| idx.len() <= k < idx0.len() ==> #[trigger] st0[k] >= elem,
                idx.len() > 0 ==> uresvec@.last() < elem,
                resvec@ == res0.push(nearest_smaller(a, i as int)),
            decreases idx.len(),
        {
            match uresvec.top() {
                Some(result_elem) => {
                    if *result_elem < elem {
                        proof {
                            let t = idx.last();
                            assert(idx0[idx.len() - 1] == t);
                            assert(is_nearest_smaller(a, i as int, t)) by {
                                assert forall|k: int| t < k < i implies a[k] >= a[i as int] by {
                                    assert(covered(a, st0, idx0, k));
                                    let c = choose|c: int| #[trigger] covers(a, st0, idx0, k, c);
                                    if c < idx.len() {
                                        assert(idx0[c] <= idx0[idx.len() - 1]);
                                    }
                                }
                            }
                            lemma_nearest_unique(a, i as int, t);
                        }
                        resvec.push_back(Some(*result_elem));
                        break ;
                    }
                },
                None => {
                    proof {
                        assert forall|j: int| !is_nearest_smaller(a, i as int, j) by {
                            if 0 <= j < i {
                                assert(covered(a, st0, idx0, j));
                                let c = choose|c: int| #[trigger] covers(a, st0, idx0, j, c);
                                assert(st0[c] >= elem);
                            }
                        }
                    }
                    resvec.push_back(None);
                    break ;
                },
            }
            uresvec.pop();
            proof {
                idx = idx.drop_last();
            }
        }
        uresvec.push(elem);
        proof {
            let n = idx.len();
            idx = idx.push(i as int);
            let st = uresvec@;
            assert forall|k: int| 0 <= k < idx.len() implies 0 <= #[trigger] idx[k] < i + 1
                && st[k] == a[idx[k]] by {
                if k < n {
                    assert(idx[k] == idx0[k]);
                }
            }
            assert forall|k: int, l: int| 0 <= k < l < idx.len() implies #[trigger] idx[k]
                < #[trigger] idx[l] by {
                if l < n {
                    assert(idx[k] == idx0[k] && idx[l] == idx0[l]);
                }
            }
            assert forall|k: int, l: int| 0 <= k < l < st.len() implies #[trigger] st[k]
                < #[trigger] st[l] by {
                if l < n {
                    assert(st[k] == st0[k] && st[l] == st0[l]);
                } else {
                    assert(st[k] == st0[k]);
                    if k < n - 1 {
                        assert(st0[k] < st0[n - 1]);
                    }
                }
            }
            assert forall|j: int| 0 <= j < i + 1 implies #[trigger] covered(a, st, idx, j) by {
                if j == i {
                    assert(covers(a, st, idx, j, n as int));
                } else {
                    assert(covered(a, st0, idx0, j));
                    let c = choose|c: int| #[trigger] covers(a, st0, idx0, j, c);
                    if c < n {
                        assert(covers(a, st, idx, j, c));
                    } else {
                        assert(covers(a, st, idx, j, n as int));
                    }
                }
            }
        }
        i = i + 1;
    }
    resvec
}

} // verus!

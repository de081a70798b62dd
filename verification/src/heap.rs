//! Binary heaps over a `MyVec`: `MyHeap` (max or min, chosen at
//! construction), the fixed `MyMaxHeap` and `MyMinHeap`, and the keyed
//! heaps `MyMaxHeapKeys` and `MyMinHeapKeys`.
use vstd::multiset::Multiset;
use vstd::prelude::*;
use vstd::std_specs::cmp::PartialEqSpec;
use vstd::std_specs::cmp::PartialEqSpecImpl;

use crate::order::lemma_builtin_orders;
use crate::order::lemma_precedes_reflexive;
use crate::order::lemma_precedes_total;
use crate::order::lemma_precedes_transitive;
use crate::order::precedes;
use crate::order::TotalPreorder;
use crate::vec::MyVec;

verus! {

broadcast use {vstd::seq_lib::group_to_multiset_ensures, vstd::multiset::group_multiset_properties};

/// Index of the parent of slot `i` in an array-shaped binary tree.
pub open spec fn parent_of(i: int) -> int {
    (i - 1) / 2
}

/// Every element leaves the heap no later than its children.
pub open spec fn heap_ordered<T: TotalPreorder>(s: Seq<T>, max: bool) -> bool {
    forall|i: int| #![trigger s[i]] 0 < i < s.len() ==> precedes(max, s[parent_of(i)], s[i])
}

/// `s` lists its elements in the order a heap gives them out: each one
/// leaves no later than every element after it.
pub open spec fn drain_ordered<T: TotalPreorder>(s: Seq<T>, max: bool) -> bool {
    forall|i: int, j: int| 0 <= i < j < s.len() ==> precedes(max, #[trigger] s[i], #[trigger] s[j])
}

/// Heap sort gives one answer: two sequences with the same elements, both in
/// drain order, are equal whenever no two distinct elements among them tie.
pub proof fn lemma_drain_order_unique<T: TotalPreorder>(a: Seq<T>, b: Seq<T>, max: bool)
    requires
        forall|x: T, y: T|
            a.contains(x) && a.contains(y) && #[trigger] x.below(y) && #[trigger] y.below(x) ==> x
                == y,
        a.to_multiset() == b.to_multiset(),
        drain_ordered(a, max),
        drain_ordered(b, max),
    ensures
        a == b,
    decreases a.len(),
{
    assert(a.len() == b.len()) by {
        vstd::seq_lib::to_multiset_len(a);
        vstd::seq_lib::to_multiset_len(b);
    }
    if a.len() == 0 {
        assert(a =~= b);
    } else {
        let n = a.len() - 1;
        let x = a[n];
        let y = b[n];
        assert(a.contains(x));
        assert(a.to_multiset().count(x) > 0);
        assert(b.contains(x));
        assert(b.to_multiset().count(y) > 0);
        assert(a.contains(y));
        let kb = choose|k: int| 0 <= k < b.len() && b[k] == x;
        let ka = choose|k: int| 0 <= k < a.len() && a[k] == y;
        if kb < n {
            assert(precedes(max, b[kb], b[n]));
        } else {
            lemma_precedes_reflexive(max, x);
        }
        if ka < n {
            assert(precedes(max, a[ka], a[n]));
        } else {
            lemma_precedes_reflexive(max, y);
        }
        assert(x.below(y) && y.below(x));
        assert(x == y);
        let a1 = a.drop_last();
        let b1 = b.drop_last();
        assert(a =~= a1.push(x));
        assert(b =~= b1.push(x));
        assert(a1.to_multiset() =~= b1.to_multiset()) by {
            vstd::seq_lib::to_multiset_build(a1, x);
            vstd::seq_lib::to_multiset_build(b1, x);
            assert forall|v: T| a1.to_multiset().count(v) == b1.to_multiset().count(v) by {
                assert(a1.to_multiset().insert(x).count(v) == b1.to_multiset().insert(x).count(v));
            }
        }
        assert forall|u: T, v: T|
            a1.contains(u) && a1.contains(v) && #[trigger] u.below(v) && #[trigger] v.below(
                u,
            ) implies u == v by {
            let iu = choose|k: int| 0 <= k < a1.len() && a1[k] == u;
            let iv = choose|k: int| 0 <= k < a1.len() && a1[k] == v;
            assert(a[iu] == u);
            assert(a[iv] == v);
        }
        assert forall|i: int, j: int| 0 <= i < j < a1.len() implies precedes(
            max,
            #[trigger] a1[i],
            #[trigger] a1[j],
        ) by {
            assert(precedes(max, a[i], a[j]));
        }
        assert forall|i: int, j: int| 0 <= i < j < b1.len() implies precedes(
            max,
            #[trigger] b1[i],
            #[trigger] b1[j],
        ) by {
            assert(precedes(max, b[i], b[j]));
        }
        lemma_drain_order_unique(a1, b1, max);
    }
}

/// Heap sort does not depend on the order of its input: results in drain
/// order from two inputs with the same elements are equal, whenever no two
/// distinct elements tie.
pub proof fn lemma_heap_sort_order_free<T: TotalPreorder>(
    p: Seq<T>,
    q: Seq<T>,
    r1: Seq<T>,
    r2: Seq<T>,
    max: bool,
)
    requires
        forall|x: T, y: T|
            p.contains(x) && p.contains(y) && #[trigger] x.below(y) && #[trigger] y.below(x) ==> x
                == y,
        p.to_multiset() == q.to_multiset(),
        r1.to_multiset() == p.to_multiset(),
        r2.to_multiset() == q.to_multiset(),
        drain_ordered(r1, max),
        drain_ordered(r2, max),
    ensures
        r1 == r2,
{
    assert forall|x: T, y: T|
        r1.contains(x) && r1.contains(y) && #[trigger] x.below(y) && #[trigger] y.below(x) implies x
        == y by {
        assert(r1.to_multiset().count(x) > 0);
        assert(r1.to_multiset().count(y) > 0);
        assert(p.contains(x));
        assert(p.contains(y));
    }
    lemma_drain_order_unique(r1, r2, max);
}

/// Sifting up from `c`: the heap order holds on every edge but the one into `c`,
/// and the parent of `c` precedes the children of `c`.
spec fn sift_up_inv<T: TotalPreorder>(s: Seq<T>, max: bool, c: int) -> bool {
    &&& 0 <= c < s.len()
    &&& forall|i: int|
        #![trigger s[i]]
        0 < i < s.len() && i != c ==> precedes(max, s[parent_of(i)], s[i])
    &&& c > 0 ==> forall|g: int|
        #![trigger s[g]]
        0 < g < s.len() && parent_of(g) == c ==> precedes(max, s[parent_of(c)], s[g])
}

/// Sifting down from `p`: the heap order holds on every edge but those out
/// of `p`, and the parent of `p` precedes the children of `p`.
spec fn sift_down_inv<T: TotalPreorder>(s: Seq<T>, max: bool, p: int) -> bool {
    &&& 0 <= p < s.len()
    &&& forall|i: int|
        #![trigger s[i]]
        0 < i < s.len() && parent_of(i) != p ==> precedes(max, s[parent_of(i)], s[i])
    &&& p > 0 ==> forall|g: int|
        #![trigger s[g]]
        0 < g < s.len() && parent_of(g) == p ==> precedes(max, s[parent_of(p)], s[g])
}

/// `add` swaps a child with its parent: in a max-heap when the child is
/// larger, in a min-heap when it is at most the parent (so also on a tie).
pub open spec fn swaps_up<T: TotalPreorder>(max: bool, child: T, parent: T) -> bool {
    if max {
        !child.below(parent)
    } else {
        child.below(parent)
    }
}

/// The array after `add` sifts the element at `c` up: at each step it swaps
/// with its parent when `swaps_up` says so, and goes on from the parent
/// either way, up to the root.
pub open spec fn sift_up<T: TotalPreorder>(s: Seq<T>, max: bool, c: int) -> Seq<T>
    decreases c,
{
    if c <= 0 || c >= s.len() {
        s
    } else {
        let p = parent_of(c);
        if swaps_up(max, s[c], s[p]) {
            sift_up(s.update(p, s[c]).update(c, s[p]), max, p)
        } else {
            sift_up(s, max, p)
        }
    }
}

/// The child of `p` that `pop` compares with `p`: with two children, in a
/// max-heap the first when it is larger than the second, in a min-heap the
/// first when it is smaller; the second otherwise.
pub open spec fn loudest_child<T: TotalPreorder>(s: Seq<T>, max: bool, p: int) -> int {
    let c1 = 2 * p + 1;
    let c2 = c1 + 1;
    if c2 < s.len() {
        if max {
            if !s[c1].below(s[c2]) {
                c1
            } else {
                c2
            }
        } else {
            if s[c1].below(s[c2]) && !s[c2].below(s[c1]) {
                c1
            } else {
                c2
            }
        }
    } else {
        c1
    }
}

/// `pop` stops sifting down at `p` when `p` and its loudest child tie, or
/// `p` is the one that should leave first.
pub open spec fn stops_at<T: TotalPreorder>(max: bool, parent: T, child: T) -> bool {
    ||| parent.below(child) && child.below(parent)
    ||| max && !parent.below(child)
    ||| !max && parent.below(child) && !child.below(parent)
}

/// The array after `pop` sifts the element at `p` down: while `p` has a
/// child, it swaps with the loudest child unless it stops there.
pub open spec fn sift_down<T: TotalPreorder>(s: Seq<T>, max: bool, p: int) -> Seq<T>
    decreases s.len() - p,
{
    if p < 0 || 2 * p + 1 >= s.len() {
        s
    } else {
        let l = loudest_child(s, max, p);
        if stops_at(max, s[p], s[l]) {
            s
        } else {
            sift_down(s.update(p, s[l]).update(l, s[p]), max, l)
        }
    }
}

/// The array after `pop`: the last element takes the root's place and sifts down.
pub open spec fn heap_after_pop<T: TotalPreorder>(s: Seq<T>, max: bool) -> Seq<T> {
    if s.len() == 0 {
        s
    } else {
        sift_down(s.update(0, s.last()).drop_last(), max, 0)
    }
}

/// The array after adding the elements of `elems` in turn to an empty heap.
pub open spec fn heap_of<T: TotalPreorder>(elems: Seq<T>, max: bool) -> Seq<T>
    decreases elems.len(),
{
    if elems.len() == 0 {
        elems
    } else {
        let h = heap_of(elems.drop_last(), max);
        sift_up(h.push(elems.last()), max, h.len() as int)
    }
}

/// The elements in the order that popping them one after another gives them out.
pub open spec fn drain_sequence<T: TotalPreorder>(s: Seq<T>, max: bool) -> Seq<T>
    decreases s.len(),
{
    if s.len() == 0 {
        s
    } else {
        proof {
            lemma_heap_after_pop_len(s, max);
        }
        seq![s[0]] + drain_sequence(heap_after_pop(s, max), max)
    }
}

/// Sifting down keeps the length.
pub proof fn lemma_sift_down_len<T: TotalPreorder>(s: Seq<T>, max: bool, p: int)
    ensures
        sift_down(s, max, p).len() == s.len(),
    decreases s.len() - p,
{
    if p >= 0 && 2 * p + 1 < s.len() {
        let l = loudest_child(s, max, p);
        if !stops_at(max, s[p], s[l]) {
            lemma_sift_down_len(s.update(p, s[l]).update(l, s[p]), max, l);
        }
    }
}

/// Popping removes one element.
pub proof fn lemma_heap_after_pop_len<T: TotalPreorder>(s: Seq<T>, max: bool)
    requires
        s.len() > 0,
    ensures
        heap_after_pop(s, max).len() == s.len() - 1,
{
    lemma_sift_down_len(s.update(0, s.last()).drop_last(), max, 0);
}

/// Sifting up from `c` restores the heap order and keeps the elements.
proof fn lemma_sift_up_correct<T: TotalPreorder>(s: Seq<T>, max: bool, c: int)
    requires
        sift_up_inv(s, max, c),
    ensures
        heap_ordered(sift_up(s, max, c), max),
        sift_up(s, max, c).to_multiset() == s.to_multiset(),
        sift_up(s, max, c).len() == s.len(),
    decreases c,
{
    if c > 0 {
        let p = parent_of(c);
        T::lemma_total(s[c], s[p]);
        if swaps_up(max, s[c], s[p]) {
            lemma_sift_up_swap(s, max, c);
            lemma_swap_to_multiset(s, p, c);
            lemma_sift_up_correct(s.update(p, s[c]).update(c, s[p]), max, p);
        } else {
            lemma_sift_up_settled(s, max, c);
            lemma_sift_up_correct(s, max, p);
        }
    } else {
        assert(heap_ordered(s, max));
    }
}

/// Sifting down from `p` restores the heap order and keeps the elements.
proof fn lemma_sift_down_correct<T: TotalPreorder>(s: Seq<T>, max: bool, p: int)
    requires
        sift_down_inv(s, max, p),
    ensures
        heap_ordered(sift_down(s, max, p), max),
        sift_down(s, max, p).to_multiset() == s.to_multiset(),
        sift_down(s, max, p).len() == s.len(),
    decreases s.len() - p,
{
    if 2 * p + 1 >= s.len() {
        assert forall|o: int|
            #![trigger s[o]]
            0 < o < s.len() && parent_of(o) == p implies precedes(max, s[p], s[o]) by {
        }
        lemma_sift_down_done(s, max, p);
    } else {
        let c1 = 2 * p + 1;
        let c2 = c1 + 1;
        let l = loudest_child(s, max, p);
        if c2 < s.len() {
            T::lemma_total(s[c1], s[c2]);
        }
        lemma_precedes_reflexive(max, s[l]);
        assert(forall|o: int|
            #![trigger s[o]]
            0 < o < s.len() && parent_of(o) == p ==> o == c1 || o == c2);
        T::lemma_total(s[p], s[l]);
        if stops_at(max, s[p], s[l]) {
            assert(precedes(max, s[p], s[l]));
            assert forall|o: int|
                #![trigger s[o]]
                0 < o < s.len() && parent_of(o) == p implies precedes(max, s[p], s[o]) by {
                lemma_precedes_transitive(max, s[p], s[l], s[o]);
            }
            lemma_sift_down_done(s, max, p);
        } else {
            assert(precedes(max, s[l], s[p]));
            lemma_sift_down_swap(s, max, p, l);
            lemma_swap_to_multiset(s, p, l);
            lemma_sift_down_correct(s.update(p, s[l]).update(l, s[p]), max, l);
        }
    }
}

/// Popping a heap leaves a heap holding the other elements.
pub proof fn lemma_heap_after_pop_correct<T: TotalPreorder>(s: Seq<T>, max: bool)
    requires
        heap_ordered(s, max),
        s.len() > 0,
    ensures
        heap_ordered(heap_after_pop(s, max), max),
        heap_after_pop(s, max).to_multiset() == s.to_multiset().remove(s[0]),
        heap_after_pop(s, max).len() == s.len() - 1,
{
    let n = s.len() - 1;
    let swapped = s.update(0, s[n]).update(n, s[0]);
    lemma_swap_to_multiset(s, n, 0);
    assert(swapped.drop_last() =~= s.update(0, s.last()).drop_last());
    assert(swapped.drop_last() =~= swapped.remove(n));
    vstd::seq_lib::to_multiset_remove(swapped, n);
    let t = s.update(0, s.last()).drop_last();
    assert forall|i: int| #![trigger t[i]] 0 < i < t.len() && parent_of(i) != 0 implies precedes(
        max,
        t[parent_of(i)],
        t[i],
    ) by {
        assert(t[i] == s[i]);
        assert(t[parent_of(i)] == s[parent_of(i)]);
    }
    if t.len() > 0 {
        lemma_sift_down_correct(t, max, 0);
    }
}

/// Adding to a heap leaves a heap holding one element more.
pub proof fn lemma_sift_up_after_push<T: TotalPreorder>(s: Seq<T>, max: bool, x: T)
    requires
        heap_ordered(s, max),
    ensures
        heap_ordered(sift_up(s.push(x), max, s.len() as int), max),
        sift_up(s.push(x), max, s.len() as int).to_multiset() == s.to_multiset().insert(x),
        sift_up(s.push(x), max, s.len() as int).len() == s.len() + 1,
{
    let t = s.push(x);
    let c = s.len() as int;
    assert forall|i: int| #![trigger t[i]] 0 < i < t.len() && i != c implies precedes(
        max,
        t[parent_of(i)],
        t[i],
    ) by {
        assert(t[i] == s[i]);
        assert(t[parent_of(i)] == s[parent_of(i)]);
    }
    lemma_sift_up_correct(t, max, c);
}

/// Popping a heap until it is empty gives out each element once, in drain order.
pub proof fn lemma_drain_sequence_sorted<T: TotalPreorder>(s: Seq<T>, max: bool)
    requires
        heap_ordered(s, max),
    ensures
        drain_sequence(s, max).to_multiset() == s.to_multiset(),
        drain_ordered(drain_sequence(s, max), max),
    decreases s.len(),
{
    if s.len() == 0 {
        assert(drain_sequence(s, max) =~= s);
    } else {
        let rest = heap_after_pop(s, max);
        lemma_heap_after_pop_correct(s, max);
        lemma_drain_sequence_sorted(rest, max);
        lemma_root_precedes_contents(s, max);
        let d = drain_sequence(s, max);
        let dr = drain_sequence(rest, max);
        assert(d =~= seq![s[0]] + dr);
        assert(d.to_multiset() =~= s.to_multiset()) by {
            vstd::seq_lib::lemma_multiset_commutative(seq![s[0]], dr);
            assert(seq![s[0]].to_multiset() =~= Multiset::singleton(s[0]));
            assert(s.contains(s[0]));
        }
        assert forall|i: int, j: int| 0 <= i < j < d.len() implies precedes(
            max,
            #[trigger] d[i],
            #[trigger] d[j],
        ) by {
            if i == 0 {
                assert(dr.contains(d[j]));
                assert(dr.to_multiset().count(d[j]) > 0);
                assert(s.to_multiset().count(d[j]) > 0);
                assert(s.contains(d[j]));
            } else {
                assert(precedes(max, dr[i - 1], dr[j - 1]));
            }
        }
    }
}

/// Exchanging two elements leaves the multiset of elements unchanged.
proof fn lemma_swap_to_multiset<A>(s: Seq<A>, i: int, j: int)
    requires
        0 <= i < s.len(),
        0 <= j < s.len(),
    ensures
        s.update(i, s[j]).update(j, s[i]).to_multiset() == s.to_multiset(),
{
    let s1 = s.update(i, s[j]);
    assert(s1[j] == s[j]);
    assert(s1.update(j, s[i]).to_multiset() =~= s.to_multiset());
}

/// The root of a heap leaves no later than any element.
pub proof fn lemma_root_precedes_all<T: TotalPreorder>(s: Seq<T>, max: bool, i: int)
    requires
        heap_ordered(s, max),
        0 <= i < s.len(),
    ensures
        precedes(max, s[0], s[i]),
    decreases i,
{
    if i == 0 {
        lemma_precedes_reflexive(max, s[0]);
    } else {
        let p = parent_of(i);
        lemma_root_precedes_all(s, max, p);
        assert(precedes(max, s[p], s[i]));
        lemma_precedes_transitive(max, s[0], s[p], s[i]);
    }
}

/// The root of a heap leaves no later than anything the heap holds.
proof fn lemma_root_precedes_contents<T: TotalPreorder>(s: Seq<T>, max: bool)
    requires
        heap_ordered(s, max),
        s.len() > 0,
    ensures
        forall|y: T| s.contains(y) ==> precedes(max, s[0], y),
{
    assert forall|y: T| s.contains(y) implies precedes(max, s[0], y) by {
        let k = choose|k: int| 0 <= k < s.len() && s[k] == y;
        lemma_root_precedes_all(s, max, k);
    }
}

proof fn lemma_sift_up_swap<T: TotalPreorder>(s: Seq<T>, max: bool, c: int)
    requires
        sift_up_inv(s, max, c),
        c > 0,
        precedes(max, s[c], s[parent_of(c)]),
    ensures
        sift_up_inv(s.update(parent_of(c), s[c]).update(c, s[parent_of(c)]), max, parent_of(c)),
{
    let p = parent_of(c);
    let t = s.update(p, s[c]).update(c, s[p]);
    assert forall|i: int| #![trigger t[i]] 0 < i < t.len() && i != p implies precedes(
        max,
        t[parent_of(i)],
        t[i],
    ) by {
        if i == c {
        } else if parent_of(i) == c {
            assert(t[i] == s[i]);
        } else if parent_of(i) == p {
            assert(t[i] == s[i]);
            assert(precedes(max, s[p], s[i]));
            lemma_precedes_transitive(max, s[c], s[p], s[i]);
        } else {
            assert(t[i] == s[i]);
            assert(precedes(max, s[parent_of(i)], s[i]));
        }
    }
    if p > 0 {
        let pp = parent_of(p);
        assert(precedes(max, s[pp], s[p]));
        assert forall|g: int| #![trigger t[g]] 0 < g < t.len() && parent_of(g) == p implies precedes(
            max,
            t[pp],
            t[g],
        ) by {
            if g != c {
                assert(t[g] == s[g]);
                assert(precedes(max, s[p], s[g]));
                lemma_precedes_transitive(max, s[pp], s[p], s[g]);
            }
        }
    }
}

proof fn lemma_sift_up_settled<T: TotalPreorder>(s: Seq<T>, max: bool, c: int)
    requires
        sift_up_inv(s, max, c),
        c > 0,
        precedes(max, s[parent_of(c)], s[c]),
    ensures
        sift_up_inv(s, max, parent_of(c)),
{
    let p = parent_of(c);
    if p > 0 {
        let pp = parent_of(p);
        assert(precedes(max, s[pp], s[p]));
        assert forall|g: int| #![trigger s[g]] 0 < g < s.len() && parent_of(g) == p implies precedes(
            max,
            s[pp],
            s[g],
        ) by {
            assert(precedes(max, s[p], s[g]));
            lemma_precedes_transitive(max, s[pp], s[p], s[g]);
        }
    }
}

proof fn lemma_sift_down_swap<T: TotalPreorder>(s: Seq<T>, max: bool, p: int, l: int)
    requires
        sift_down_inv(s, max, p),
        0 < l < s.len(),
        parent_of(l) == p,
        precedes(max, s[l], s[p]),
        forall|o: int|
            #![trigger s[o]]
            0 < o < s.len() && parent_of(o) == p ==> precedes(max, s[l], s[o]),
    ensures
        sift_down_inv(s.update(p, s[l]).update(l, s[p]), max, l),
{
    let t = s.update(p, s[l]).update(l, s[p]);
    assert forall|i: int| #![trigger t[i]] 0 < i < t.len() && parent_of(i) != l implies precedes(
        max,
        t[parent_of(i)],
        t[i],
    ) by {
        if i == l {
        } else if parent_of(i) == p {
            assert(t[i] == s[i]);
            assert(precedes(max, s[l], s[i]));
        } else if i == p {
            assert(t[parent_of(p)] == s[parent_of(p)]);
            assert(precedes(max, s[parent_of(p)], s[l]));
        } else {
            assert(t[i] == s[i]);
            assert(precedes(max, s[parent_of(i)], s[i]));
        }
    }
    assert forall|g: int| #![trigger t[g]] 0 < g < t.len() && parent_of(g) == l implies precedes(
        max,
        t[parent_of(l)],
        t[g],
    ) by {
        assert(t[g] == s[g]);
        assert(precedes(max, s[l], s[g]));
    }
}

proof fn lemma_sift_down_done<T: TotalPreorder>(s: Seq<T>, max: bool, p: int)
    requires
        sift_down_inv(s, max, p),
        forall|o: int|
            #![trigger s[o]]
            0 < o < s.len() && parent_of(o) == p ==> precedes(max, s[p], s[o]),
    ensures
        heap_ordered(s, max),
{
    assert forall|i: int| #![trigger s[i]] 0 < i < s.len() implies precedes(
        max,
        s[parent_of(i)],
        s[i],
    ) by {
        if parent_of(i) == p {
            assert(precedes(max, s[p], s[i]));
        } else {
            assert(precedes(max, s[parent_of(i)], s[i]));
        }
    }
}

/// A binary heap that gives out its largest elements first when built
/// with `max`, its smallest first otherwise.
pub struct MyHeap<T> {
    my_vec: MyVec<T>,
    max: bool,
}

impl<T> View for MyHeap<T> {
    type V = Seq<T>;

    /// The elements in array order; the root comes first.
    closed spec fn view(&self) -> Seq<T> {
        self.my_vec@
    }
}

impl<T: TotalPreorder> MyHeap<T> {
    /// The storage is well formed and every element precedes its children.
    pub closed spec fn wf(&self) -> bool {
        &&& self.my_vec.wf()
        &&& heap_ordered(self.my_vec@, self.max)
    }

    /// Whether the largest element leaves first.
    pub closed spec fn is_max(&self) -> bool {
        self.max
    }

    /// A well-formed heap is ordered as its direction says.
    pub proof fn lemma_wf_ordered(&self)
        requires
            self.wf(),
        ensures
            heap_ordered(self@, self.is_max()),
    {
    }

    /// An empty heap.
    pub fn new(max: bool) -> (h: Self)
        ensures
            h.wf(),
            h@ == Seq::<T>::empty(),
            h.is_max() == max,
    {
        MyHeap { my_vec: MyVec::new(None), max: max }
    }

    /// The elements in array order, the root first.
    pub fn as_slice(&self) -> (s: &[T])
        ensures
            s@ == self@,
    {
        self.my_vec.as_slice()
    }

    /// Adds `elem` and sifts it up towards the root.
    pub fn add(&mut self, elem: T)
        requires
            old(self).wf(),
            old(self)@.len() < usize::MAX / 2,
        ensures
            final(self).wf(),
            final(self).is_max() == old(self).is_max(),
            final(self)@ == sift_up(
                old(self)@.push(elem),
                old(self).is_max(),
                old(self)@.len() as int,
            ),
            final(self)@.len() == old(self)@.len() + 1,
            final(self)@.to_multiset() == old(self)@.to_multiset().insert(elem),
    {
        proof {
            lemma_sift_up_after_push(self.my_vec@, self.max, elem);
        }
        self.my_vec.push_back(elem);
        let mut child = self.my_vec.len() - 1;
        let ghost target = sift_up(self.my_vec@, self.max, child as int);
        while child != 0
            invariant
                self.my_vec.wf(),
                self.max == old(self).max,
                self.my_vec@.len() == old(self)@.len() + 1,
                child < self.my_vec@.len(),
                sift_up(self.my_vec@, self.max, child as int) == target,
            decreases child,
        {
            let parent = (child - 1) / 2;
            let s = self.my_vec.as_slice();
            let child_le_parent = s[child].is_below(&s[parent]);
            let parent_smaller = !child_le_parent;
            let child_smaller = !parent_smaller;
            if self.max && parent_smaller || !self.max && child_smaller {
                self.my_vec.swap(parent, child);
            }
            child = parent;
        }
    }

    /// The element that leaves next, if any.
    pub fn top(&self) -> (r: Option<&T>)
        requires
            self.wf(),
        ensures
            self@.len() == 0 ==> r is None,
            self@.len() > 0 ==> r == Some(&self@[0]),
            r matches Some(x) ==> forall|y: T| self@.contains(y) ==> precedes(self.is_max(), *x, y),
    {
        proof {
            if self@.len() > 0 {
                lemma_root_precedes_contents(self@, self.max);
            }
        }
        self.my_vec.first()
    }

    /// Removes and returns the root: the last element takes its place and
    /// sifts down.
    pub fn pop(&mut self) -> (r: Option<T>)
        requires
            old(self).wf(),
        ensures
            final(self).wf(),
            final(self).is_max() == old(self).is_max(),
            final(self)@ == heap_after_pop(old(self)@, old(self).is_max()),
            old(self)@.len() == 0 ==> r is None,
            old(self)@.len() > 0 ==> {
                &&& r == Some(old(self)@[0])
                &&& final(self)@.len() == old(self)@.len() - 1
                &&& final(self)@.to_multiset() == old(self)@.to_multiset().remove(old(self)@[0])
                &&& forall|y: T| old(self)@.contains(y) ==> precedes(old(self).is_max(), old(self)@[0], y)
            },
    {
        if self.my_vec.len() == 0 {
            return self.my_vec.pop();
        }
        proof {
            lemma_root_precedes_contents(self@, self.max);
            lemma_heap_after_pop_correct(self@, self.max);
        }
        let mut last = self.my_vec.len() - 1;
        self.my_vec.swap(last, 0);
        let top = self.my_vec.pop();
        proof {
            assert(self.my_vec@ =~= old(self)@.update(0, old(self)@.last()).drop_last());
        }
        if last == 0 {
            return top;
        }
        last = self.my_vec.len() - 1;
        let mut parent: usize = 0;
        let ghost target = sift_down(self.my_vec@, self.max, 0);
        loop
            invariant
                self.my_vec.wf(),
                self.max == old(self).max,
                self.my_vec@.len() == old(self)@.len() - 1,
                last == self.my_vec@.len() - 1,
                last < usize::MAX,
                parent <= last,
                sift_down(self.my_vec@, self.max, parent as int) == target,
            ensures
                self.my_vec.wf(),
                self.max == old(self).max,
                self.my_vec@ == target,
            decreases last - parent,
        {
            if parent >= last - parent {
                break ;
            }
            let child1 = parent * 2 + 1;
            let child2 = child1 + 1;
            let mut loudest = child1;
            let s = self.my_vec.as_slice();
            if child2 <= last {
                if self.max {
                    loudest = if !s[child1].is_below(&s[child2]) {
                        child1
                    } else {
                        child2
                    };
                } else {
                    loudest = if s[child1].is_below(&s[child2]) && !s[child2].is_below(&s[child1]) {
                        child1
                    } else {
                        child2
                    };
                }
            }
            let p_le_l = s[parent].is_below(&s[loudest]);
            let l_le_p = s[loudest].is_below(&s[parent]);
            let same = p_le_l && l_le_p;
            let parent_louder = !p_le_l;
            let parent_quieter = p_le_l && !l_le_p;
            if same || self.max && parent_louder || !self.max && parent_quieter {
                break ;
            }
            self.my_vec.swap(parent, loudest);
            parent = loudest;
        }
        top
    }

    /// Pops every element, in the order the heap gives them out.
    pub fn to_vec(&mut self) -> (list: Vec<T>)
        requires
            old(self).wf(),
        ensures
            final(self).wf(),
            final(self).is_max() == old(self).is_max(),
            final(self)@.len() == 0,
            list@ == drain_sequence(old(self)@, old(self).is_max()),
            list@.to_multiset() == old(self)@.to_multiset(),
            drain_ordered(list@, old(self).is_max()),
    {
        proof {
            lemma_drain_sequence_sorted(old(self)@, self.max);
        }
        let mut list: Vec<T> = Vec::new();
        loop
            invariant
                self.wf(),
                self.max == old(self).max,
                list@ + drain_sequence(self@, self.max) == drain_sequence(old(self)@, self.max),
            ensures
                self.wf(),
                self.max == old(self).max,
                self@.len() == 0,
                list@ == drain_sequence(old(self)@, self.max),
            decreases self@.len(),
        {
            let ghost before = self@;
            let ghost prev = list@;
            match self.pop() {
                Some(elem) => {
                    list.push(elem);
                    proof {
                        lemma_heap_after_pop_len(before, self.max);
                        assert(drain_sequence(before, self.max) == seq![before[0]]
                            + drain_sequence(self@, self.max));
                        assert(list@ + drain_sequence(self@, self.max) =~= prev
                            + drain_sequence(before, self.max));
                    }
                },
                None => {
                    proof {
                        assert(drain_sequence(self@, self.max) =~= Seq::<T>::empty());
                        assert(list@ =~= list@ + drain_sequence(self@, self.max));
                    }
                    break ;
                },
            }
        }
        list
    }

    /// A heap holding the elements of `elems`, added one after another.
    pub fn from_vec(elems: Vec<T>, max: bool) -> (h: Self)
        requires
            elems@.len() < usize::MAX / 2,
        ensures
            h.wf(),
            h.is_max() == max,
            h@ == heap_of(elems@, max),
            h@.len() == elems@.len(),
            h@.to_multiset() == elems@.to_multiset(),
    {
        let ghost orig = elems@;
        let mut heap: MyHeap<T> = MyHeap::new(max);
        proof {
            assert(orig.take(0) =~= Seq::<T>::empty());
        }
        for elem in iter: elems.into_iter()
            invariant
                iter.seq() == orig,
                orig.len() < usize::MAX / 2,
                heap.wf(),
                heap.max == max,
                heap@.len() == iter.index(),
                heap@ == heap_of(orig.take(iter.index() as int), max),
                heap@.to_multiset() == orig.take(iter.index() as int).to_multiset(),
        {
            proof {
                let i = iter.index() as int;
                assert(orig.take(i + 1) =~= orig.take(i).push(elem));
                assert(orig.take(i + 1).drop_last() =~= orig.take(i));
            }
            heap.add(elem);
        }
        proof {
            assert(orig.take(orig.len() as int) =~= orig);
        }
        heap
    }
}

/// A heap that gives out its smallest elements first.
pub struct MyMinHeap<T> {
    my_heap: MyHeap<T>,
}

impl<T> View for MyMinHeap<T> {
    type V = Seq<T>;

    /// The elements in array order; the root comes first.
    closed spec fn view(&self) -> Seq<T> {
        self.my_heap@
    }
}

impl<T: TotalPreorder> MyMinHeap<T> {
    pub closed spec fn wf(&self) -> bool {
        &&& self.my_heap.wf()
        &&& self.my_heap.is_max() == false
    }

    /// A well-formed heap of this kind is ordered smallest first.
    pub proof fn lemma_wf_ordered(&self)
        requires
            self.wf(),
        ensures
            heap_ordered(self@, false),
    {
    }

    /// An empty heap.
    pub fn new() -> (h: Self)
        ensures
            h.wf(),
            h@ == Seq::<T>::empty(),
    {
        MyMinHeap { my_heap: MyHeap::new(false) }
    }

    /// Adds `elem` and sifts it up towards the root.
    pub fn add(&mut self, elem: T)
        requires
            old(self).wf(),
            old(self)@.len() < usize::MAX / 2,
        ensures
            final(self).wf(),
            final(self)@ == sift_up(old(self)@.push(elem), false, old(self)@.len() as int),
            final(self)@.len() == old(self)@.len() + 1,
            final(self)@.to_multiset() == old(self)@.to_multiset().insert(elem),
    {
        self.my_heap.add(elem)
    }

    /// The element that leaves next, if any.
    pub fn top(&self) -> (r: Option<&T>)
        requires
            self.wf(),
        ensures
            self@.len() == 0 ==> r is None,
            self@.len() > 0 ==> r == Some(&self@[0]),
            r matches Some(x) ==> forall|y: T| self@.contains(y) ==> precedes(false, *x, y),
    {
        self.my_heap.top()
    }

    /// Removes and returns the smallest element.
    pub fn pop(&mut self) -> (r: Option<T>)
        requires
            old(self).wf(),
        ensures
            final(self).wf(),
            final(self)@ == heap_after_pop(old(self)@, false),
            old(self)@.len() == 0 ==> r is None,
            old(self)@.len() > 0 ==> {
                &&& r == Some(old(self)@[0])
                &&& final(self)@.len() == old(self)@.len() - 1
                &&& final(self)@.to_multiset() == old(self)@.to_multiset().remove(old(self)@[0])
                &&& forall|y: T| old(self)@.contains(y) ==> precedes(false, old(self)@[0], y)
            },
    {
        self.my_heap.pop()
    }

    /// A heap holding the elements of `elems`, added one after another.
    pub fn from_vec(elems: Vec<T>) -> (h: Self)
        requires
            elems@.len() < usize::MAX / 2,
        ensures
            h.wf(),
            h@ == heap_of(elems@, false),
            h@.len() == elems@.len(),
            h@.to_multiset() == elems@.to_multiset(),
    {
        MyMinHeap { my_heap: MyHeap::from_vec(elems, false) }
    }

    /// Pops every element: the result is sorted, smallest first.
    pub fn to_vec(&mut self) -> (list: Vec<T>)
        requires
            old(self).wf(),
        ensures
            final(self).wf(),
            final(self)@.len() == 0,
            list@ == drain_sequence(old(self)@, false),
            list@.to_multiset() == old(self)@.to_multiset(),
            drain_ordered(list@, false),
    {
        self.my_heap.to_vec()
    }
}

/// A heap that gives out its largest elements first.
pub struct MyMaxHeap<T> {
    my_heap: MyHeap<T>,
}

impl<T> View for MyMaxHeap<T> {
    type V = Seq<T>;

    /// The elements in array order; the root comes first.
    closed spec fn view(&self) -> Seq<T> {
        self.my_heap@
    }
}

impl<T: TotalPreorder> MyMaxHeap<T> {
    pub closed spec fn wf(&self) -> bool {
        &&& self.my_heap.wf()
        &&& self.my_heap.is_max() == true
    }

    /// A well-formed heap of this kind is ordered largest first.
    pub proof fn lemma_wf_ordered(&self)
        requires
            self.wf(),
        ensures
            heap_ordered(self@, true),
    {
    }

    /// An empty heap.
    pub fn new() -> (h: Self)
        ensures
            h.wf(),
            h@ == Seq::<T>::empty(),
    {
        MyMaxHeap { my_heap: MyHeap::new(true) }
    }

    /// Adds `elem` and sifts it up towards the root.
    pub fn add(&mut self, elem: T)
        requires
            old(self).wf(),
            old(self)@.len() < usize::MAX / 2,
        ensures
            final(self).wf(),
            final(self)@ == sift_up(old(self)@.push(elem), true, old(self)@.len() as int),
            final(self)@.len() == old(self)@.len() + 1,
            final(self)@.to_multiset() == old(self)@.to_multiset().insert(elem),
    {
        self.my_heap.add(elem)
    }

    /// The element that leaves next, if any.
    pub fn top(&self) -> (r: Option<&T>)
        requires
            self.wf(),
        ensures
            self@.len() == 0 ==> r is None,
            self@.len() > 0 ==> r == Some(&self@[0]),
            r matches Some(x) ==> forall|y: T| self@.contains(y) ==> precedes(true, *x, y),
    {
        self.my_heap.top()
    }

    /// Removes and returns the largest element.
    pub fn pop(&mut self) -> (r: Option<T>)
        requires
            old(self).wf(),
        ensures
            final(self).wf(),
            final(self)@ == heap_after_pop(old(self)@, true),
            old(self)@.len() == 0 ==> r is None,
            old(self)@.len() > 0 ==> {
                &&& r == Some(old(self)@[0])
                &&& final(self)@.len() == old(self)@.len() - 1
                &&& final(self)@.to_multiset() == old(self)@.to_multiset().remove(old(self)@[0])
                &&& forall|y: T| old(self)@.contains(y) ==> precedes(true, old(self)@[0], y)
            },
    {
        self.my_heap.pop()
    }

    /// A heap holding the elements of `elems`, added one after another.
    pub fn from_vec(elems: Vec<T>) -> (h: Self)
        requires
            elems@.len() < usize::MAX / 2,
        ensures
            h.wf(),
            h@ == heap_of(elems@, true),
            h@.len() == elems@.len(),
            h@.to_multiset() == elems@.to_multiset(),
    {
        MyMaxHeap { my_heap: MyHeap::from_vec(elems, true) }
    }

    /// Pops every element: the result is sorted, largest first.
    pub fn to_vec(&mut self) -> (list: Vec<T>)
        requires
            old(self).wf(),
        ensures
            final(self).wf(),
            final(self)@.len() == 0,
            list@ == drain_sequence(old(self)@, true),
            list@.to_multiset() == old(self)@.to_multiset(),
            drain_ordered(list@, true),
    {
        self.my_heap.to_vec()
    }
}

/// A key, and the position in the keyed heap's value vector of the value
/// added with it.  Keys alone decide the order and equality.
#[derive(Eq)]
pub struct KeyWithOffset<K> {
    pub key: K,
    pub offset: usize,
}

impl<K: PartialEq> PartialEq for KeyWithOffset<K> {
    /// Whether the keys are equal, whatever the offsets.
    fn eq(&self, other: &Self) -> (r: bool) {
        other.key == self.key
    }
}

impl<K: PartialEq> PartialEqSpecImpl for KeyWithOffset<K> {
    open spec fn obeys_eq_spec() -> bool {
        K::obeys_eq_spec()
    }

    open spec fn eq_spec(&self, other: &Self) -> bool {
        other.key.eq_spec(&self.key)
    }
}

impl<K: TotalPreorder> TotalPreorder for KeyWithOffset<K> {
    open spec fn below(self, other: Self) -> bool {
        self.key.below(other.key)
    }

    proof fn lemma_reflexive(a: Self) {
        K::lemma_reflexive(a.key);
    }

    proof fn lemma_transitive(a: Self, b: Self, c: Self) {
        K::lemma_transitive(a.key, b.key, c.key);
    }

    proof fn lemma_total(a: Self, b: Self) {
        K::lemma_total(a.key, b.key);
    }

    fn is_below(&self, other: &Self) -> (r: bool) {
        self.key.is_below(&other.key)
    }
}

/// The values after taking out the one at `offset`: the last value moves
/// into its place.
pub open spec fn swap_out<V>(values: Seq<V>, offset: int) -> Seq<V> {
    values.update(offset, values.last()).drop_last()
}

/// Whichever entry a keyed heap gives out next, among those that may leave
/// first, its offset lies within the `n` values left, and so on until the
/// heap is empty.
pub open spec fn drains_safely<K: TotalPreorder>(
    max: bool,
    entries: Multiset<KeyWithOffset<K>>,
    n: nat,
) -> bool
    decreases entries.len(),
{
    forall|e: KeyWithOffset<K>|
        #![trigger entries.count(e)]
        entries.count(e) > 0 && (forall|y: KeyWithOffset<K>|
            #![trigger entries.count(y)]
            entries.count(y) > 0 ==> precedes(max, e, y)) ==> e.offset < n && drains_safely(
            max,
            entries.remove(e),
            (n - 1) as nat,
        )
}

/// The values left after the entries of `order` were popped in turn.
pub open spec fn drained_values<K, V>(order: Seq<KeyWithOffset<K>>, values: Seq<V>) -> Seq<V>
    decreases order.len(),
{
    if order.len() == 0 {
        values
    } else {
        swap_out(drained_values(order.drop_last(), values), order.last().offset as int)
    }
}

/// The key-value pairs handed out when the entries of `order` are popped in turn.
pub open spec fn drained_pairs<K, V>(order: Seq<KeyWithOffset<K>>, values: Seq<V>) -> Seq<(K, V)>
    decreases order.len(),
{
    if order.len() == 0 {
        Seq::empty()
    } else {
        drained_pairs(order.drop_last(), values).push(
            (order.last().key, drained_values(order.drop_last(), values)[order.last().offset as int]),
        )
    }
}

/// The entries that adding the pairs of `elems` in turn creates.
pub open spec fn keyed_entries<K, V>(elems: Seq<(K, V)>) -> Seq<KeyWithOffset<K>> {
    Seq::new(elems.len(), |i: int| KeyWithOffset { key: elems[i].0, offset: i as usize })
}

/// The values of the pairs of `elems`.
pub open spec fn values_of<K, V>(elems: Seq<(K, V)>) -> Seq<V> {
    Seq::new(elems.len(), |i: int| elems[i].1)
}

/// Each key added leaves strictly before every key added earlier.
pub open spec fn later_keys_lead<K: TotalPreorder, V>(elems: Seq<(K, V)>, max: bool) -> bool {
    forall|i: int, j: int|
        0 <= i < j < elems.len() ==> !precedes(max, #[trigger] elems[i].0, #[trigger] elems[j].0)
}

/// When each key outranks the keys added before it, every entry that may
/// leave first is the last one added, and its value is the last value, so
/// draining a keyed heap filled from `elems` never reads a missing value.
pub proof fn lemma_later_keys_lead_drains_safely<K: TotalPreorder, V>(elems: Seq<(K, V)>, max: bool)
    requires
        later_keys_lead(elems, max),
        elems.len() <= usize::MAX,
    ensures
        drains_safely(max, keyed_entries(elems).to_multiset(), elems.len()),
    decreases elems.len(),
{
    let n = elems.len();
    let m = keyed_entries(elems).to_multiset();
    if n == 0 {
        assert(keyed_entries(elems) =~= Seq::<KeyWithOffset<K>>::empty());
        assert(m =~= Multiset::<KeyWithOffset<K>>::empty());
    } else {
        let prefix = elems.drop_last();
        assert forall|i: int, j: int| 0 <= i < j < prefix.len() implies !precedes(
            max,
            #[trigger] prefix[i].0,
            #[trigger] prefix[j].0,
        ) by {
            assert(!precedes(max, elems[i].0, elems[j].0));
        }
        lemma_later_keys_lead_drains_safely(prefix, max);
        let top = KeyWithOffset { key: elems[n - 1].0, offset: (n - 1) as usize };
        assert(keyed_entries(elems) =~= keyed_entries(prefix).push(top));
        vstd::seq_lib::to_multiset_build(keyed_entries(prefix), top);
        assert forall|e: KeyWithOffset<K>|
            #[trigger] m.count(e) > 0 && (forall|y: KeyWithOffset<K>|
                #![trigger m.count(y)]
                m.count(y) > 0 ==> precedes(max, e, y)) implies e.offset < n && drains_safely(
            max,
            m.remove(e),
            (n - 1) as nat,
        ) by {
            assert(m.count(top) > 0);
            assert(precedes(max, e, top));
            assert(keyed_entries(elems).contains(e));
            let j = choose|j: int|
                0 <= j < keyed_entries(elems).len() && keyed_entries(elems)[j] == e;
            if j < n - 1 {
                assert(!precedes(max, elems[j].0, elems[n - 1].0));
                assert(false);
            }
            assert(e == top);
            assert(m.remove(e) =~= keyed_entries(prefix).to_multiset());
        }
    }
}

/// Draining the entries of `elems` last-added first hands the values out
/// last-added first too, each offset pointing at the last value left.
proof fn lemma_reverse_entries_drain<K, V>(elems: Seq<(K, V)>, k: nat)
    requires
        k <= elems.len(),
        elems.len() <= usize::MAX,
    ensures
        drained_values(keyed_entries(elems).reverse().take(k as int), values_of(elems))
            == values_of(elems).take(elems.len() - k),
        drained_pairs(keyed_entries(elems).reverse().take(k as int), values_of(elems))
            == elems.reverse().take(k as int),
    decreases k,
{
    let n = elems.len();
    let r = keyed_entries(elems).reverse();
    let vals = values_of(elems);
    if k == 0 {
        assert(r.take(0) =~= Seq::<KeyWithOffset<K>>::empty());
        assert(vals.take(n as int) =~= vals);
        assert(elems.reverse().take(0) =~= Seq::<(K, V)>::empty());
    } else {
        let k1 = (k - 1) as nat;
        lemma_reverse_entries_drain(elems, k1);
        let order = r.take(k as int);
        assert(order.drop_last() =~= r.take(k1 as int));
        let e = order.last();
        assert(e == KeyWithOffset { key: elems[n - k].0, offset: (n - k) as usize });
        let left = vals.take(n - k1);
        assert(swap_out(left, (n - k) as int) =~= vals.take(n - k));
        assert(elems[n - k] == (elems[n - k].0, elems[n - k].1));
        assert(elems.reverse().take(k as int) =~= elems.reverse().take(k1 as int).push(
            (e.key, left[e.offset as int]),
        ));
    }
}

/// When each key outranks the keys added before it, a keyed heap filled
/// from `elems` drains to `elems` reversed, whatever order the heap may
/// choose, and no value is left over.
pub proof fn lemma_later_keys_lead_drain_in_reverse<K: TotalPreorder, V>(
    elems: Seq<(K, V)>,
    max: bool,
    order: Seq<KeyWithOffset<K>>,
)
    requires
        later_keys_lead(elems, max),
        elems.len() <= usize::MAX,
        order.to_multiset() == keyed_entries(elems).to_multiset(),
        drain_ordered(order, max),
    ensures
        drained_pairs(order, values_of(elems)) == elems.reverse(),
        drained_values(order, values_of(elems)) == Seq::<V>::empty(),
{
    let n = elems.len();
    let entries = keyed_entries(elems);
    let r = entries.reverse();
    entries.lemma_reverse_to_multiset();
    assert forall|i: int, j: int| 0 <= i < j < r.len() implies precedes(
        max,
        #[trigger] r[i],
        #[trigger] r[j],
    ) by {
        assert(!precedes(max, elems[n - 1 - j].0, elems[n - 1 - i].0));
        lemma_precedes_total(max, elems[n - 1 - j].0, elems[n - 1 - i].0);
    }
    assert forall|x: KeyWithOffset<K>, y: KeyWithOffset<K>|
        order.contains(x) && order.contains(y) && #[trigger] x.below(y) && #[trigger] y.below(
            x,
        ) implies x == y by {
        assert(order.to_multiset().count(x) > 0);
        assert(order.to_multiset().count(y) > 0);
        assert(entries.contains(x));
        assert(entries.contains(y));
        let a = choose|a: int| 0 <= a < entries.len() && entries[a] == x;
        let b = choose|b: int| 0 <= b < entries.len() && entries[b] == y;
        if a < b {
            assert(!precedes(max, elems[a].0, elems[b].0));
        } else if b < a {
            assert(!precedes(max, elems[b].0, elems[a].0));
        }
    }
    lemma_drain_order_unique(order, r, max);
    lemma_reverse_entries_drain(elems, n);
    assert(r.take(n as int) =~= r);
    assert(elems.reverse().take(n as int) =~= elems.reverse());
    assert(values_of(elems).take(0) =~= Seq::<V>::empty());
}

/// Popping the entries of `s` one after another in heap order never reads
/// past the `n` values left: each root's offset lies within the values
/// remaining when it is popped.
pub open spec fn drains_exactly<K: TotalPreorder>(
    max: bool,
    s: Seq<KeyWithOffset<K>>,
    n: nat,
) -> bool
    decreases s.len(),
{
    if s.len() == 0 {
        true
    } else {
        proof {
            lemma_heap_after_pop_len(s, max);
        }
        s[0].offset < n && drains_exactly(max, heap_after_pop(s, max), (n - 1) as nat)
    }
}

/// Adding the elements in turn builds a heap holding each of them.
pub proof fn lemma_heap_of_correct<T: TotalPreorder>(elems: Seq<T>, max: bool)
    ensures
        heap_ordered(heap_of(elems, max), max),
        heap_of(elems, max).to_multiset() == elems.to_multiset(),
        heap_of(elems, max).len() == elems.len(),
    decreases elems.len(),
{
    if elems.len() == 0 {
        assert(elems.to_multiset() =~= Multiset::<T>::empty());
    } else {
        let prefix = elems.drop_last();
        lemma_heap_of_correct(prefix, max);
        lemma_sift_up_after_push(heap_of(prefix, max), max, elems.last());
        assert(prefix.push(elems.last()) =~= elems);
    }
}

/// When any pop order among ties stays within the values, the heap's own
/// order does too.
pub proof fn lemma_drains_safely_exact<K: TotalPreorder>(
    max: bool,
    s: Seq<KeyWithOffset<K>>,
    n: nat,
)
    requires
        heap_ordered(s, max),
        drains_safely(max, s.to_multiset(), n),
    ensures
        drains_exactly(max, s, n),
    decreases s.len(),
{
    if s.len() > 0 {
        let m = s.to_multiset();
        lemma_root_precedes_contents(s, max);
        assert forall|y: KeyWithOffset<K>| #[trigger] m.count(y) > 0 implies precedes(
            max,
            s[0],
            y,
        ) by {
            assert(s.contains(y));
        }
        assert(s.contains(s[0]));
        assert(m.count(s[0]) > 0);
        lemma_heap_after_pop_correct(s, max);
        lemma_drains_safely_exact(max, heap_after_pop(s, max), (n - 1) as nat);
    }
}

/// When each key outranks the keys added before it, the keyed heap built
/// from `elems` drains without reading past its values, gives the pairs
/// back last-added first, and leaves no value over.
pub proof fn lemma_later_keys_lead_heap_drains<K: TotalPreorder, V>(elems: Seq<(K, V)>, max: bool)
    requires
        later_keys_lead(elems, max),
        elems.len() <= usize::MAX,
    ensures
        drains_exactly(max, heap_of(keyed_entries(elems), max), elems.len()),
        drained_pairs(drain_sequence(heap_of(keyed_entries(elems), max), max), values_of(elems))
            == elems.reverse(),
        drained_values(drain_sequence(heap_of(keyed_entries(elems), max), max), values_of(elems))
            == Seq::<V>::empty(),
{
    let h = heap_of(keyed_entries(elems), max);
    lemma_heap_of_correct(keyed_entries(elems), max);
    lemma_later_keys_lead_drains_safely(elems, max);
    lemma_drains_safely_exact(max, h, elems.len());
    lemma_drain_sequence_sorted(h, max);
    lemma_later_keys_lead_drain_in_reverse(elems, max, drain_sequence(h, max));
}

/// A heap of key-value pairs that gives out the pair with the largest key
/// first when built with `max`, the smallest first otherwise.  The values sit
/// in a vector in the order they were added; the heap holds each key with
/// the offset of its value.  Popping moves the last value into the popped
/// one's place.
pub struct MyHeapKeys<K, V> {
    my_heap: MyHeap<KeyWithOffset<K>>,
    my_vec: MyVec<V>,
}

impl<K: TotalPreorder, V> MyHeapKeys<K, V> {
    pub closed spec fn wf(&self) -> bool {
        &&& self.my_heap.wf()
        &&& self.my_vec.wf()
    }

    /// Whether the largest key leaves first.
    pub closed spec fn is_max(&self) -> bool {
        self.my_heap.is_max()
    }

    /// The keys with their offsets, in heap array order; the next to leave comes first.
    pub closed spec fn entries(&self) -> Seq<KeyWithOffset<K>> {
        self.my_heap@
    }

    /// The values.
    pub closed spec fn values(&self) -> Seq<V> {
        self.my_vec@
    }

    /// The entry that leaves next points at a value.
    pub open spec fn next_value_present(&self) -> bool {
        self.entries().len() > 0 ==> self.entries()[0].offset < self.values().len()
    }

    /// A well-formed keyed heap keeps its entries in heap order, by key.
    pub proof fn lemma_wf_ordered(&self)
        requires
            self.wf(),
        ensures
            heap_ordered(self.entries(), self.is_max()),
    {
        self.my_heap.lemma_wf_ordered();
    }

    /// An empty heap.
    pub fn new(max: bool) -> (h: Self)
        ensures
            h.wf(),
            h.is_max() == max,
            h.entries() == Seq::<KeyWithOffset<K>>::empty(),
            h.values() == Seq::<V>::empty(),
    {
        MyHeapKeys { my_heap: MyHeap::new(max), my_vec: MyVec::new(None) }
    }

    /// Appends `value` to the values and adds `key` with its offset to the heap.
    pub fn add(&mut self, key: K, value: V)
        requires
            old(self).wf(),
            old(self).values().len() < usize::MAX / 2,
            old(self).entries().len() < usize::MAX / 2,
        ensures
            final(self).wf(),
            final(self).is_max() == old(self).is_max(),
            final(self).values() == old(self).values().push(value),
            final(self).entries() == sift_up(
                old(self).entries().push(
                    (KeyWithOffset { key: key, offset: old(self).values().len() as usize }),
                ),
                old(self).is_max(),
                old(self).entries().len() as int,
            ),
            final(self).entries().len() == old(self).entries().len() + 1,
            final(self).entries().to_multiset() == old(self).entries().to_multiset().insert(
                (KeyWithOffset { key: key, offset: old(self).values().len() as usize }),
            ),
    {
        self.my_vec.push_back(value);
        self.my_heap.add(KeyWithOffset { key: key, offset: self.my_vec.len() - 1 })
    }

    /// The key that leaves next, with the value its offset points at.
    pub fn top(&self) -> (r: Option<(&K, &V)>)
        requires
            self.wf(),
            self.next_value_present(),
        ensures
            self.entries().len() == 0 ==> r is None,
            self.entries().len() > 0 ==> r == Some(
                (&self.entries()[0].key, &self.values()[self.entries()[0].offset as int]),
            ),
            self.entries().len() > 0 ==> forall|y: KeyWithOffset<K>|
                self.entries().contains(y) ==> precedes(self.is_max(), self.entries()[0], y),
    {
        proof {
            if self.entries().len() > 0 {
                self.my_heap.lemma_wf_ordered();
                lemma_root_precedes_contents(self.entries(), self.is_max());
            }
        }
        match self.my_heap.top() {
            Some(k_off_ref) => Some((&k_off_ref.key, self.my_vec.get(k_off_ref.offset).unwrap())),
            None => None,
        }
    }

    /// Removes the entry that leaves next and returns its key with the value
    /// at its offset; that value is replaced by the last one.
    pub fn pop(&mut self) -> (r: Option<(K, V)>)
        requires
            old(self).wf(),
            old(self).next_value_present(),
        ensures
            final(self).wf(),
            final(self).is_max() == old(self).is_max(),
            final(self).entries() == heap_after_pop(old(self).entries(), old(self).is_max()),
            old(self).entries().len() == 0 ==> {
                &&& r is None
                &&& final(self).values() == old(self).values()
            },
            old(self).entries().len() > 0 ==> {
                &&& r == Some(
                    (
                        old(self).entries()[0].key,
                        old(self).values()[old(self).entries()[0].offset as int],
                    ),
                )
                &&& final(self).entries().len() == old(self).entries().len() - 1
                &&& final(self).entries().to_multiset() == old(
                    self,
                ).entries().to_multiset().remove(old(self).entries()[0])
                &&& final(self).values() == swap_out(
                    old(self).values(),
                    old(self).entries()[0].offset as int,
                )
                &&& forall|y: KeyWithOffset<K>|
                    old(self).entries().contains(y) ==> precedes(
                        old(self).is_max(),
                        old(self).entries()[0],
                        y,
                    )
            },
    {
        match self.my_heap.pop() {
            Some(k_off) => {
                let KeyWithOffset { key, offset } = k_off;
                let len = self.my_vec.len();
                assert(len > 0);
                self.my_vec.swap(offset, len - 1);
                proof {
                    let v = old(self).values();
                    assert(self.my_vec@.drop_last() =~= swap_out(v, offset as int));
                }
                let value = self.my_vec.pop().unwrap();
                Some((key, value))
            },
            None => None,
        }
    }

    /// A heap holding the pairs of `elems`, added one after another.
    pub fn from_vec(elems: Vec<(K, V)>, max: bool) -> (h: Self)
        requires
            elems@.len() < usize::MAX / 2,
        ensures
            h.wf(),
            h.is_max() == max,
            h.values() == values_of(elems@),
            h.entries() == heap_of(keyed_entries(elems@), max),
            h.entries().len() == elems@.len(),
            h.entries().to_multiset() == keyed_entries(elems@).to_multiset(),
    {
        let ghost orig = elems@;
        let mut heap_keys = MyHeapKeys::new(max);
        proof {
            assert(keyed_entries(orig.take(0)) =~= Seq::<KeyWithOffset<K>>::empty());
            assert(values_of(orig.take(0)) =~= Seq::<V>::empty());
        }
        for elem in iter: elems.into_iter()
            invariant
                iter.seq() == orig,
                orig.len() < usize::MAX / 2,
                heap_keys.wf(),
                heap_keys.is_max() == max,
                heap_keys.values() == values_of(orig.take(iter.index() as int)),
                heap_keys.entries().len() == iter.index(),
                heap_keys.entries() == heap_of(keyed_entries(orig.take(iter.index() as int)), max),
                heap_keys.entries().to_multiset() == keyed_entries(
                    orig.take(iter.index() as int),
                ).to_multiset(),
        {
            let (key, value) = elem;
            proof {
                let i = iter.index() as int;
                let e = KeyWithOffset { key: key, offset: i as usize };
                assert(values_of(orig.take(i + 1)) =~= values_of(orig.take(i)).push(value));
                assert(keyed_entries(orig.take(i + 1)) =~= keyed_entries(orig.take(i)).push(e));
                assert(keyed_entries(orig.take(i + 1)).drop_last() =~= keyed_entries(orig.take(i)));
            }
            heap_keys.add(key, value);
        }
        proof {
            assert(orig.take(orig.len() as int) =~= orig);
        }
        heap_keys
    }

    /// Pops every entry, in the order the heap gives them out.
    pub fn to_vec(&mut self) -> (r: Vec<(K, V)>)
        requires
            old(self).wf(),
            drains_exactly(old(self).is_max(), old(self).entries(), old(self).values().len()),
        ensures
            final(self).wf(),
            final(self).is_max() == old(self).is_max(),
            final(self).entries().len() == 0,
            r@ == drained_pairs(
                drain_sequence(old(self).entries(), old(self).is_max()),
                old(self).values(),
            ),
            final(self).values() == drained_values(
                drain_sequence(old(self).entries(), old(self).is_max()),
                old(self).values(),
            ),
    {
        let ghost max = self.is_max();
        let ghost all = drain_sequence(old(self).entries(), max);
        let mut ret_vec: Vec<(K, V)> = Vec::new();
        let ghost mut order: Seq<KeyWithOffset<K>> = Seq::empty();
        proof {
            assert(order + all =~= all);
        }
        loop
            invariant
                self.wf(),
                self.is_max() == max,
                order + drain_sequence(self.entries(), max) == all,
                ret_vec@ == drained_pairs(order, old(self).values()),
                self.values() == drained_values(order, old(self).values()),
                drains_exactly(max, self.entries(), self.values().len()),
            ensures
                self.wf(),
                self.is_max() == max,
                self.entries().len() == 0,
                order == all,
                ret_vec@ == drained_pairs(order, old(self).values()),
                self.values() == drained_values(order, old(self).values()),
            decreases self.entries().len(),
        {
            let ghost before = self.entries();
            let ghost prev = order;
            proof {
                if before.len() > 0 {
                    lemma_heap_after_pop_len(before, max);
                    assert(before[0].offset < self.values().len());
                }
            }
            match self.pop() {
                Some(elem) => {
                    ret_vec.push(elem);
                    proof {
                        order = order.push(before[0]);
                        assert(order.drop_last() =~= prev);
                        assert(drain_sequence(before, max) == seq![before[0]] + drain_sequence(
                            self.entries(),
                            max,
                        ));
                        assert(order + drain_sequence(self.entries(), max) =~= prev
                            + drain_sequence(before, max));
                    }
                },
                None => {
                    proof {
                        assert(drain_sequence(self.entries(), max) =~= Seq::<
                            KeyWithOffset<K>,
                        >::empty());
                        assert(order =~= order + drain_sequence(self.entries(), max));
                    }
                    break ;
                },
            }
        }
        ret_vec
    }
}

/// A heap of key-value pairs that gives out the pair with the largest key first.
/// The values sit in a vector in the order they were added; the heap holds
/// each key with the offset of its value.
pub struct MyMaxHeapKeys<K, V> {
    keys: MyHeapKeys<K, V>,
}

impl<K: TotalPreorder, V> MyMaxHeapKeys<K, V> {
    pub closed spec fn wf(&self) -> bool {
        &&& self.keys.wf()
        &&& self.keys.is_max() == true
    }

    /// The keys with their offsets, in heap array order; the next to leave comes first.
    pub closed spec fn entries(&self) -> Seq<KeyWithOffset<K>> {
        self.keys.entries()
    }

    /// The values.
    pub closed spec fn values(&self) -> Seq<V> {
        self.keys.values()
    }

    /// The entry that leaves next points at a value.
    pub open spec fn next_value_present(&self) -> bool {
        self.entries().len() > 0 ==> self.entries()[0].offset < self.values().len()
    }

    /// A well-formed keyed heap keeps its entries in heap order, by key.
    pub proof fn lemma_wf_ordered(&self)
        requires
            self.wf(),
        ensures
            heap_ordered(self.entries(), true),
    {
        self.keys.lemma_wf_ordered();
    }

    /// An empty heap.
    pub fn new() -> (h: Self)
        ensures
            h.wf(),
            h.entries() == Seq::<KeyWithOffset<K>>::empty(),
            h.values() == Seq::<V>::empty(),
    {
        MyMaxHeapKeys { keys: MyHeapKeys::new(true) }
    }

    /// Appends `value` to the values and adds `key` with its offset to the heap.
    pub fn add(&mut self, key: K, value: V)
        requires
            old(self).wf(),
            old(self).values().len() < usize::MAX / 2,
            old(self).entries().len() < usize::MAX / 2,
        ensures
            final(self).wf(),
            final(self).values() == old(self).values().push(value),
            final(self).entries() == sift_up(
                old(self).entries().push(
                    (KeyWithOffset { key: key, offset: old(self).values().len() as usize }),
                ),
                true,
                old(self).entries().len() as int,
            ),
            final(self).entries().len() == old(self).entries().len() + 1,
            final(self).entries().to_multiset() == old(self).entries().to_multiset().insert(
                (KeyWithOffset { key: key, offset: old(self).values().len() as usize }),
            ),
    {
        self.keys.add(key, value)
    }

    /// The key that leaves next, with the value its offset points at.
    pub fn top(&self) -> (r: Option<(&K, &V)>)
        requires
            self.wf(),
            self.next_value_present(),
        ensures
            self.entries().len() == 0 ==> r is None,
            self.entries().len() > 0 ==> r == Some(
                (&self.entries()[0].key, &self.values()[self.entries()[0].offset as int]),
            ),
            self.entries().len() > 0 ==> forall|y: KeyWithOffset<K>|
                self.entries().contains(y) ==> precedes(true, self.entries()[0], y),
    {
        self.keys.top()
    }

    /// Removes the entry that leaves next and returns its key with the value
    /// at its offset; that value is replaced by the last one.
    pub fn pop(&mut self) -> (r: Option<(K, V)>)
        requires
            old(self).wf(),
            old(self).next_value_present(),
        ensures
            final(self).wf(),
            final(self).entries() == heap_after_pop(old(self).entries(), true),
            old(self).entries().len() == 0 ==> {
                &&& r is None
                &&& final(self).values() == old(self).values()
            },
            old(self).entries().len() > 0 ==> {
                &&& r == Some(
                    (
                        old(self).entries()[0].key,
                        old(self).values()[old(self).entries()[0].offset as int],
                    ),
                )
                &&& final(self).entries().len() == old(self).entries().len() - 1
                &&& final(self).entries().to_multiset() == old(
                    self,
                ).entries().to_multiset().remove(old(self).entries()[0])
                &&& final(self).values() == swap_out(
                    old(self).values(),
                    old(self).entries()[0].offset as int,
                )
                &&& forall|y: KeyWithOffset<K>|
                    old(self).entries().contains(y) ==> precedes(true, old(self).entries()[0], y)
            },
    {
        self.keys.pop()
    }

    /// A heap holding the pairs of `elems`, added one after another.
    pub fn from_vec(elems: Vec<(K, V)>) -> (h: Self)
        requires
            elems@.len() < usize::MAX / 2,
        ensures
            h.wf(),
            h.values() == values_of(elems@),
            h.entries() == heap_of(keyed_entries(elems@), true),
            h.entries().len() == elems@.len(),
            h.entries().to_multiset() == keyed_entries(elems@).to_multiset(),
    {
        MyMaxHeapKeys { keys: MyHeapKeys::from_vec(elems, true) }
    }

    /// Pops every entry, in the order the heap gives them out.
    pub fn to_vec(&mut self) -> (r: Vec<(K, V)>)
        requires
            old(self).wf(),
            drains_exactly(true, old(self).entries(), old(self).values().len()),
        ensures
            final(self).wf(),
            final(self).entries().len() == 0,
            r@ == drained_pairs(drain_sequence(old(self).entries(), true), old(self).values()),
            final(self).values() == drained_values(
                drain_sequence(old(self).entries(), true),
                old(self).values(),
            ),
    {
        self.keys.to_vec()
    }
}

/// A heap of key-value pairs that gives out the pair with the smallest key first.
/// The values sit in a vector in the order they were added; the heap holds
/// each key with the offset of its value.
pub struct MyMinHeapKeys<K, V> {
    keys: MyHeapKeys<K, V>,
}

impl<K: TotalPreorder, V> MyMinHeapKeys<K, V> {
    pub closed spec fn wf(&self) -> bool {
        &&& self.keys.wf()
        &&& self.keys.is_max() == false
    }

    /// The keys with their offsets, in heap array order; the next to leave comes first.
    pub closed spec fn entries(&self) -> Seq<KeyWithOffset<K>> {
        self.keys.entries()
    }

    /// The values.
    pub closed spec fn values(&self) -> Seq<V> {
        self.keys.values()
    }

    /// The entry that leaves next points at a value.
    pub open spec fn next_value_present(&self) -> bool {
        self.entries().len() > 0 ==> self.entries()[0].offset < self.values().len()
    }

    /// A well-formed keyed heap keeps its entries in heap order, by key.
    pub proof fn lemma_wf_ordered(&self)
        requires
            self.wf(),
        ensures
            heap_ordered(self.entries(), false),
    {
        self.keys.lemma_wf_ordered();
    }

    /// An empty heap.
    pub fn new() -> (h: Self)
        ensures
            h.wf(),
            h.entries() == Seq::<KeyWithOffset<K>>::empty(),
            h.values() == Seq::<V>::empty(),
    {
        MyMinHeapKeys { keys: MyHeapKeys::new(false) }
    }

    /// Appends `value` to the values and adds `key` with its offset to the heap.
    pub fn add(&mut self, key: K, value: V)
        requires
            old(self).wf(),
            old(self).values().len() < usize::MAX / 2,
            old(self).entries().len() < usize::MAX / 2,
        ensures
            final(self).wf(),
            final(self).values() == old(self).values().push(value),
            final(self).entries() == sift_up(
                old(self).entries().push(
                    (KeyWithOffset { key: key, offset: old(self).values().len() as usize }),
                ),
                false,
                old(self).entries().len() as int,
            ),
            final(self).entries().len() == old(self).entries().len() + 1,
            final(self).entries().to_multiset() == old(self).entries().to_multiset().insert(
                (KeyWithOffset { key: key, offset: old(self).values().len() as usize }),
            ),
    {
        self.keys.add(key, value)
    }

    /// The key that leaves next, with the value its offset points at.
    pub fn top(&self) -> (r: Option<(&K, &V)>)
        requires
            self.wf(),
            self.next_value_present(),
        ensures
            self.entries().len() == 0 ==> r is None,
            self.entries().len() > 0 ==> r == Some(
                (&self.entries()[0].key, &self.values()[self.entries()[0].offset as int]),
            ),
            self.entries().len() > 0 ==> forall|y: KeyWithOffset<K>|
                self.entries().contains(y) ==> precedes(false, self.entries()[0], y),
    {
        self.keys.top()
    }

    /// Removes the entry that leaves next and returns its key with the value
    /// at its offset; that value is replaced by the last one.
    pub fn pop(&mut self) -> (r: Option<(K, V)>)
        requires
            old(self).wf(),
            old(self).next_value_present(),
        ensures
            final(self).wf(),
            final(self).entries() == heap_after_pop(old(self).entries(), false),
            old(self).entries().len() == 0 ==> {
                &&& r is None
                &&& final(self).values() == old(self).values()
            },
            old(self).entries().len() > 0 ==> {
                &&& r == Some(
                    (
                        old(self).entries()[0].key,
                        old(self).values()[old(self).entries()[0].offset as int],
                    ),
                )
                &&& final(self).entries().len() == old(self).entries().len() - 1
                &&& final(self).entries().to_multiset() == old(
                    self,
                ).entries().to_multiset().remove(old(self).entries()[0])
                &&& final(self).values() == swap_out(
                    old(self).values(),
                    old(self).entries()[0].offset as int,
                )
                &&& forall|y: KeyWithOffset<K>|
                    old(self).entries().contains(y) ==> precedes(false, old(self).entries()[0], y)
            },
    {
        self.keys.pop()
    }

    /// A heap holding the pairs of `elems`, added one after another.
    pub fn from_vec(elems: Vec<(K, V)>) -> (h: Self)
        requires
            elems@.len() < usize::MAX / 2,
        ensures
            h.wf(),
            h.values() == values_of(elems@),
            h.entries() == heap_of(keyed_entries(elems@), false),
            h.entries().len() == elems@.len(),
            h.entries().to_multiset() == keyed_entries(elems@).to_multiset(),
    {
        MyMinHeapKeys { keys: MyHeapKeys::from_vec(elems, false) }
    }

    /// Pops every entry, in the order the heap gives them out.
    pub fn to_vec(&mut self) -> (r: Vec<(K, V)>)
        requires
            old(self).wf(),
            drains_exactly(false, old(self).entries(), old(self).values().len()),
        ensures
            final(self).wf(),
            final(self).entries().len() == 0,
            r@ == drained_pairs(drain_sequence(old(self).entries(), false), old(self).values()),
            final(self).values() == drained_values(
                drain_sequence(old(self).entries(), false),
                old(self).values(),
            ),
    {
        self.keys.to_vec()
    }
}
/// A max-heap of `i32` gives out its largest element first: its root is at
/// least every element it holds.
pub proof fn lemma_max_heap_i32_root_largest(h: &MyMaxHeap<i32>)
    requires
        h.wf(),
        h@.len() > 0,
    ensures
        forall|i: int| 0 <= i < h@.len() ==> #[trigger] h@[i] <= h@[0],
{
    h.lemma_wf_ordered();
    lemma_builtin_orders();
    assert forall|i: int| 0 <= i < h@.len() implies #[trigger] h@[i] <= h@[0] by {
        lemma_root_precedes_all(h@, true, i);
    }
}

/// A min-heap of `i32` gives out its smallest element first: its root is at
/// most every element it holds.
pub proof fn lemma_min_heap_i32_root_smallest(h: &MyMinHeap<i32>)
    requires
        h.wf(),
        h@.len() > 0,
    ensures
        forall|i: int| 0 <= i < h@.len() ==> h@[0] <= #[trigger] h@[i],
{
    h.lemma_wf_ordered();
    lemma_builtin_orders();
    assert forall|i: int| 0 <= i < h@.len() implies h@[0] <= #[trigger] h@[i] by {
        lemma_root_precedes_all(h@, false, i);
    }
}

/// A heap of `usize` holds at its root the largest element when built with
/// `max`, the smallest otherwise.
pub proof fn lemma_heap_usize_root_extreme(h: &MyHeap<usize>)
    requires
        h.wf(),
        h@.len() > 0,
    ensures
        h.is_max() ==> forall|i: int| 0 <= i < h@.len() ==> #[trigger] h@[i] <= h@[0],
        !h.is_max() ==> forall|i: int| 0 <= i < h@.len() ==> h@[0] <= #[trigger] h@[i],
{
    h.lemma_wf_ordered();
    lemma_builtin_orders();
    assert forall|i: int| 0 <= i < h@.len() implies (if h.is_max() {
        #[trigger] h@[i] <= h@[0]
    } else {
        h@[0] <= h@[i]
    }) by {
        lemma_root_precedes_all(h@, h.is_max(), i);
    }
}

/// Draining a min-heap of `u8` gives its elements in ascending order, each
/// as often as the heap holds it.
pub proof fn lemma_min_heap_u8_drains_ascending(h: &MyMinHeap<u8>)
    requires
        h.wf(),
    ensures
        drain_sequence(h@, false).to_multiset() == h@.to_multiset(),
        forall|i: int, j: int|
            0 <= i < j < h@.len() ==> #[trigger] drain_sequence(h@, false)[i] <= #[trigger] drain_sequence(
                h@,
                false,
            )[j],
{
    h.lemma_wf_ordered();
    lemma_builtin_orders();
    lemma_drain_sequence_sorted(h@, false);
    vstd::seq_lib::to_multiset_len(h@);
    vstd::seq_lib::to_multiset_len(drain_sequence(h@, false));
    let d = drain_sequence(h@, false);
    assert forall|i: int, j: int| 0 <= i < j < h@.len() implies #[trigger] d[i] <= #[trigger] d[j] by {
        assert(precedes(false, d[i], d[j]));
    }
}

/// Draining a max-heap of `i32` gives its elements in descending order, each
/// as often as the heap holds it.
pub proof fn lemma_max_heap_i32_drains_descending(h: &MyMaxHeap<i32>)
    requires
        h.wf(),
    ensures
        drain_sequence(h@, true).to_multiset() == h@.to_multiset(),
        forall|i: int, j: int|
            0 <= i < j < h@.len() ==> #[trigger] drain_sequence(h@, true)[j] <= #[trigger] drain_sequence(
                h@,
                true,
            )[i],
{
    h.lemma_wf_ordered();
    lemma_builtin_orders();
    lemma_drain_sequence_sorted(h@, true);
    vstd::seq_lib::to_multiset_len(h@);
    vstd::seq_lib::to_multiset_len(drain_sequence(h@, true));
    let d = drain_sequence(h@, true);
    assert forall|i: int, j: int| 0 <= i < j < h@.len() implies #[trigger] d[j] <= #[trigger] d[i] by {
        assert(precedes(true, d[i], d[j]));
    }
}

/// A max keyed heap with `i64` keys gives out the pair with the largest key
/// first: the key of its next entry is at least every key it holds.
pub proof fn lemma_max_keyed_i64_root_largest<V>(h: &MyMaxHeapKeys<i64, V>)
    requires
        h.wf(),
        h.entries().len() > 0,
    ensures
        forall|i: int|
            0 <= i < h.entries().len() ==> (#[trigger] h.entries()[i]).key <= h.entries()[0].key,
{
    h.lemma_wf_ordered();
    lemma_builtin_orders();
    assert forall|i: int| 0 <= i < h.entries().len() implies (#[trigger] h.entries()[i]).key
        <= h.entries()[0].key by {
        lemma_root_precedes_all(h.entries(), true, i);
    }
}

} // verus!

//! `MyVec`: a growable vector that manages its own capacity.
//!
//! The elements live in a `Vec`; the capacity is this type's own
//! bookkeeping (the `Vec` is asked to allocate it when it grows) and
//! follows a fixed policy: the first allocation takes
//! `reserve` slots, every later growth doubles the capacity, and after a
//! `pop` the capacity is halved once the vector is at most a quarter full,
//! provided it is at least twice the reserve.
use vstd::prelude::*;

verus! {

/// The reserve that `MyVec::new` settles on: 32 when none is asked for,
/// and never less than 4.
pub open spec fn requested_reserve(reserve: Option<usize>) -> nat {
    let r: nat = match reserve {
        Some(r) => r as nat,
        None => 32,
    };
    if r < 4 {
        4
    } else {
        r
    }
}

/// Capacity after `push_back` on a vector holding `len` elements.
pub open spec fn grown_capacity(cap: nat, len: nat, reserve: nat) -> nat {
    if len == cap {
        if cap == 0 {
            reserve
        } else {
            2 * cap
        }
    } else {
        cap
    }
}

/// Capacity after `pop` has left `len` elements.
pub open spec fn trimmed_capacity(cap: nat, len: nat, reserve: nat) -> nat {
    let target = cap / 2;
    if cap >= 2 * reserve && len <= target / 2 {
        target
    } else {
        cap
    }
}

/// Capacity after `k` pushes onto a vector with capacity `cap` holding `len` elements.
pub open spec fn capacity_after_pushes(cap: nat, len: nat, reserve: nat, k: nat) -> nat
    decreases k,
{
    if k == 0 {
        cap
    } else {
        grown_capacity(
            capacity_after_pushes(cap, len, reserve, (k - 1) as nat),
            (len + k - 1) as nat,
            reserve,
        )
    }
}

/// After a push the capacity has room for the new element.
pub proof fn lemma_grow_makes_room(cap: nat, len: nat, reserve: nat)
    requires
        len <= cap,
        reserve >= 1,
    ensures
        len < grown_capacity(cap, len, reserve),
{
}

/// Trimming never takes the capacity below the length, nor below the
/// reserve when it was at least the reserve.
pub proof fn lemma_trim_keeps_bounds(cap: nat, len: nat, reserve: nat)
    requires
        len <= cap,
    ensures
        len <= trimmed_capacity(cap, len, reserve),
        cap >= reserve ==> trimmed_capacity(cap, len, reserve) >= reserve,
{
}

/// A growable vector.
pub struct MyVec<T> {
    items: Vec<T>,
    cap: usize,
    reserve: usize,
}

impl<T> View for MyVec<T> {
    type V = Seq<T>;

    closed spec fn view(&self) -> Seq<T> {
        self.items@
    }
}

/// Iterator that hands out the elements of a `MyVec` by value, first to last.
pub struct IntoIter<T> {
    /// The elements still to come, the next one last.
    rest: Vec<T>,
}

impl<T> View for IntoIter<T> {
    type V = Seq<T>;

    /// The elements still to come, in the order `next` returns them.
    closed spec fn view(&self) -> Seq<T> {
        Seq::new(self.rest@.len(), |i: int| self.rest@[self.rest@.len() - 1 - i])
    }
}

impl<T> IntoIter<T> {
    /// Takes the next element.
    pub fn next(&mut self) -> (r: Option<T>)
        ensures
            old(self)@.len() == 0 ==> r is None && final(self)@ == old(self)@,
            old(self)@.len() > 0 ==> r == Some(old(self)@[0]) && final(self)@ == old(
                self,
            )@.drop_first(),
    {
        let r = self.rest.pop();
        assert(self@ =~= old(self)@.drop_first() || old(self)@.len() == 0);
        r
    }
}

impl<T> MyVec<T> {
    /// Well-formedness: no more elements than the capacity, and a reserve of at least 4.
    pub closed spec fn wf(&self) -> bool {
        &&& self.items@.len() <= self.cap
        &&& self.reserve >= 4
    }

    /// The number of element slots this vector accounts for.
    pub closed spec fn capacity_spec(&self) -> nat {
        self.cap as nat
    }

    /// The size of the first allocation.
    pub closed spec fn reserve_spec(&self) -> nat {
        self.reserve as nat
    }

    /// `push_back` can make room without the capacity overflowing.
    pub open spec fn can_push(&self) -> bool {
        self@.len() == self.capacity_spec() && self.capacity_spec() > 0 ==> 2
            * self.capacity_spec() <= usize::MAX
    }

    /// Every well-formed vector holds at most as many elements as its
    /// capacity, and its reserve is at least 4.
    pub proof fn lemma_wf_bounds(&self)
        requires
            self.wf(),
        ensures
            self@.len() <= self.capacity_spec(),
            self.reserve_spec() >= 4,
    {
    }

    /// An empty vector whose first allocation will hold `reserve` elements
    /// (32 when `None`, at least 4).
    pub fn new(reserve: Option<usize>) -> (v: Self)
        ensures
            v.wf(),
            v@ == Seq::<T>::empty(),
            v.capacity_spec() == 0,
            v.reserve_spec() == requested_reserve(reserve),
    {
        let r: usize = match reserve {
            Some(r) => r,
            None => 32,
        };
        let r: usize = if r < 4 {
            4
        } else {
            r
        };
        MyVec { items: Vec::new(), cap: 0, reserve: r }
    }

    /// The current capacity.
    pub fn capacity(&self) -> (c: usize)
        ensures
            c == self.capacity_spec(),
    {
        self.cap
    }

    /// The number of elements.
    pub fn len(&self) -> (n: usize)
        ensures
            n == self@.len(),
    {
        self.items.len()
    }

    /// Whether there are no elements.
    pub fn is_empty(&self) -> (b: bool)
        ensures
            b == (self@.len() == 0),
    {
        self.items.len() == 0
    }

    /// The elements as a slice.
    pub fn as_slice(&self) -> (s: &[T])
        ensures
            s@ == self@,
    {
        self.items.as_slice()
    }

    /// The element at `index`, if there is one.
    pub fn get(&self, index: usize) -> (r: Option<&T>)
        ensures
            index < self@.len() ==> r == Some(&self@[index as int]),
            index >= self@.len() ==> r is None,
    {
        if index < self.items.len() {
            Some(&self.items[index])
        } else {
            None
        }
    }

    /// The first element, if any.
    pub fn first(&self) -> (r: Option<&T>)
        ensures
            self@.len() > 0 ==> r == Some(&self@[0]),
            self@.len() == 0 ==> r is None,
    {
        self.get(0)
    }

    /// The last element, if any.
    pub fn last(&self) -> (r: Option<&T>)
        ensures
            self@.len() > 0 ==> r == Some(&self@.last()),
            self@.len() == 0 ==> r is None,
    {
        if self.items.len() == 0 {
            None
        } else {
            self.get(self.items.len() - 1)
        }
    }

    /// The last element, if any.
    pub fn back(&self) -> (r: Option<&T>)
        ensures
            self@.len() > 0 ==> r == Some(&self@.last()),
            self@.len() == 0 ==> r is None,
    {
        if self.items.len() == 0 {
            None
        } else {
            self.get(self.items.len() - 1)
        }
    }

    /// Replaces the element at `index`.
    pub fn set(&mut self, index: usize, elem: T)
        requires
            old(self).wf(),
            index < old(self)@.len(),
        ensures
            final(self).wf(),
            final(self)@ == old(self)@.update(index as int, elem),
            final(self).capacity_spec() == old(self).capacity_spec(),
            final(self).reserve_spec() == old(self).reserve_spec(),
    {
        self.items.set(index, elem);
    }

    /// Exchanges the elements at `a` and `b`.
    pub fn swap(&mut self, a: usize, b: usize)
        requires
            old(self).wf(),
            a < old(self)@.len(),
            b < old(self)@.len(),
        ensures
            final(self).wf(),
            final(self)@ == old(self)@.update(a as int, old(self)@[b as int]).update(
                b as int,
                old(self)@[a as int],
            ),
            final(self).capacity_spec() == old(self).capacity_spec(),
            final(self).reserve_spec() == old(self).reserve_spec(),
    {
        slice_swap(&mut self.items, a, b);
    }

    /// Makes room for one more element, and asks the storage to allocate it.
    fn grow(&mut self)
        requires
            old(self).wf(),
            old(self)@.len() == old(self).cap,
            old(self).can_push(),
        ensures
            final(self).wf(),
            final(self)@ == old(self)@,
            final(self).reserve == old(self).reserve,
            final(self).cap == grown_capacity(
                old(self).cap as nat,
                old(self)@.len(),
                old(self).reserve as nat,
            ),
            final(self)@.len() < final(self).cap,
    {
        if self.cap == 0 {
            self.cap = self.reserve;
        } else {
            self.cap = self.cap * 2;
        }
        // Ask the storage for the new capacity; if the allocator refuses,
        // the storage grows on demand instead.
        let _ = self.items.try_reserve(self.cap - self.items.len());
    }

    /// Appends `elem`, growing the capacity first when the vector is full.
    pub fn push_back(&mut self, elem: T)
        requires
            old(self).wf(),
            old(self).can_push(),
        ensures
            final(self).wf(),
            final(self)@ == old(self)@.push(elem),
            final(self).reserve_spec() == old(self).reserve_spec(),
            final(self).capacity_spec() == grown_capacity(
                old(self).capacity_spec(),
                old(self)@.len(),
                old(self).reserve_spec(),
            ),
    {
        if self.items.len() == self.cap {
            self.grow();
        }
        self.items.push(elem);
    }

    /// Halves the capacity when at most a quarter of it is used, provided
    /// it is at least twice the reserve.
    fn trim(&mut self)
        requires
            old(self).wf(),
        ensures
            final(self).wf(),
            final(self)@ == old(self)@,
            final(self).reserve == old(self).reserve,
            final(self).cap == trimmed_capacity(
                old(self).cap as nat,
                old(self)@.len(),
                old(self).reserve as nat,
            ),
    {
        let target_size = self.cap / 2;
        if self.reserve <= target_size && self.items.len() <= target_size / 2 {
            self.cap = target_size;
        }
    }

    /// Removes and returns the last element, then trims the capacity.
    pub fn pop(&mut self) -> (r: Option<T>)
        requires
            old(self).wf(),
        ensures
            final(self).wf(),
            final(self).reserve_spec() == old(self).reserve_spec(),
            old(self)@.len() == 0 ==> r is None && final(self)@ == old(self)@
                && final(self).capacity_spec() == old(self).capacity_spec(),
            old(self)@.len() > 0 ==> {
                &&& r == Some(old(self)@.last())
                &&& final(self)@ == old(self)@.drop_last()
                &&& final(self).capacity_spec() == trimmed_capacity(
                    old(self).capacity_spec(),
                    (old(self)@.len() - 1) as nat,
                    old(self).reserve_spec(),
                )
            },
    {
        if self.items.len() == 0 {
            None
        } else {
            let ret = self.items.pop();
            assert(self.items@ =~= old(self)@.drop_last());
            self.trim();
            ret
        }
    }

    /// Hands the elements out by value, first to last.
    pub fn into_iter(self) -> (it: IntoIter<T>)
        ensures
            it@ == self@,
    {
        let ghost orig = self.items@;
        let mut items = self.items;
        let mut rest: Vec<T> = Vec::new();
        while items.len() > 0
            invariant
                items@.len() <= orig.len(),
                items@ == orig.take(items@.len() as int),
                rest@.len() == orig.len() - items@.len(),
                forall|i: int|
                    0 <= i < rest@.len() ==> #[trigger] rest@[i] == orig[orig.len() - 1 - i],
            decreases items@.len(),
        {
            let e = items.pop().unwrap();
            rest.push(e);
            assert(items@ =~= orig.take(items@.len() as int));
        }
        let it = IntoIter { rest };
        assert(it@ =~= orig);
        it
    }

    /// Moves every element of `other`, in order, to the end of this vector.
    pub fn extend(&mut self, other: MyVec<T>)
        requires
            old(self).wf(),
            old(self)@.len() + other@.len() < usize::MAX / 2,
        ensures
            final(self).wf(),
            final(self)@ == old(self)@ + other@,
            final(self).reserve_spec() == old(self).reserve_spec(),
            final(self).capacity_spec() == capacity_after_pushes(
                old(self).capacity_spec(),
                old(self)@.len(),
                old(self).reserve_spec(),
                other@.len(),
            ),
    {
        let ghost added = other@;
        let mut it = other.into_iter();
        let mut done: usize = 0;
        while it.rest.len() > 0
            invariant
                self.wf(),
                done + it@.len() == added.len(),
                it@ == added.skip(done as int),
                self@ == old(self)@ + added.take(done as int),
                self.reserve == old(self).reserve,
                self.cap == capacity_after_pushes(
                    old(self).cap as nat,
                    old(self)@.len(),
                    old(self).reserve as nat,
                    done as nat,
                ),
                old(self)@.len() + added.len() < usize::MAX / 2,
            decreases it@.len(),
        {
            let e = it.next().unwrap();
            self.push_back(e);
            assert(self@ =~= old(self)@ + added.take(done + 1));
            assert(it@ =~= added.skip(done + 1));
            done = done + 1;
        }
        assert(added.take(done as int) =~= added);
    }
}

impl<T: Clone> Clone for MyVec<T> {
    /// A new vector, reserved for exactly as many elements as this one
    /// holds (at least 4), with a clone of each element.
    fn clone(&self) -> (res: Self)
        ensures
            res.wf(),
            res@.len() == self@.len(),
            forall|i: int| 0 <= i < self@.len() ==> cloned::<T>(self@[i], #[trigger] res@[i]),
            res.reserve_spec() == requested_reserve(Some(self@.len() as usize)),
            res.capacity_spec() == capacity_after_pushes(
                0,
                0,
                requested_reserve(Some(self@.len() as usize)),
                self@.len(),
            ),
    {
        let n = self.items.len();
        let mut res: MyVec<T> = MyVec::new(Some(n));
        let mut i: usize = 0;
        while i < n
            invariant
                n == self@.len(),
                i <= n,
                res.wf(),
                res@.len() == i,
                res.reserve == requested_reserve(Some(n)),
                res.cap == capacity_after_pushes(0, 0, res.reserve as nat, i as nat),
                i > 0 ==> res.cap == res.reserve,
                forall|j: int| 0 <= j < i ==> cloned::<T>(self@[j], #[trigger] res@[j]),
            decreases n - i,
        {
            let c = self.items[i].clone();
            res.push_back(c);
            i = i + 1;
        }
        res
    }
}

/// Exchanges two elements of a vector.
///
/// Calls the slice method `swap` (reached through `Vec`'s `DerefMut`);
/// its documentation says that it swaps the elements at `a` and `b` and
/// panics when either is out of bounds, which `requires` rules out.
#[verifier::external_body]
fn slice_swap<T>(v: &mut Vec<T>, a: usize, b: usize)
    requires
        a < old(v)@.len(),
        b < old(v)@.len(),
    ensures
        final(v)@ == old(v)@.update(a as int, old(v)@[b as int]).update(b as int, old(v)@[a as int]),
{
    v.swap(a, b);
}

} // verus!

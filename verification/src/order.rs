//! The ordering the heaps are built on: a total preorder with an
//! executable comparison.
use vstd::prelude::*;

verus! {

/// A total preorder: `a.below(b)` reads "a is at most b".  Two values may
/// be below each other without being equal (keys that tie).
pub trait TotalPreorder: Sized {
    spec fn below(self, other: Self) -> bool;

    proof fn lemma_reflexive(a: Self)
        ensures
            a.below(a),
    ;

    proof fn lemma_transitive(a: Self, b: Self, c: Self)
        requires
            a.below(b),
            b.below(c),
        ensures
            a.below(c),
    ;

    proof fn lemma_total(a: Self, b: Self)
        ensures
            a.below(b) || b.below(a),
    ;

    /// Whether `self` is at most `other`.
    fn is_below(&self, other: &Self) -> (r: bool)
        ensures
            r == self.below(*other),
    ;
}

/// `a` leaves a heap no later than `b`: in a max-heap when `b` is at most
/// `a`, in a min-heap when `a` is at most `b`.
pub open spec fn precedes<T: TotalPreorder>(max: bool, a: T, b: T) -> bool {
    if max {
        b.below(a)
    } else {
        a.below(b)
    }
}

pub proof fn lemma_precedes_reflexive<T: TotalPreorder>(max: bool, a: T)
    ensures
        precedes(max, a, a),
{
    T::lemma_reflexive(a);
}

pub proof fn lemma_precedes_transitive<T: TotalPreorder>(max: bool, a: T, b: T, c: T)
    requires
        precedes(max, a, b),
        precedes(max, b, c),
    ensures
        precedes(max, a, c),
{
    if max {
        T::lemma_transitive(c, b, a);
    } else {
        T::lemma_transitive(a, b, c);
    }
}

pub proof fn lemma_precedes_total<T: TotalPreorder>(max: bool, a: T, b: T)
    ensures
        precedes(max, a, b) || precedes(max, b, a),
{
    T::lemma_total(a, b);
}

impl TotalPreorder for i32 {
    open spec fn below(self, other: Self) -> bool {
        self <= other
    }

    proof fn lemma_reflexive(a: Self) {
    }

    proof fn lemma_transitive(a: Self, b: Self, c: Self) {
    }

    proof fn lemma_total(a: Self, b: Self) {
    }

    fn is_below(&self, other: &Self) -> (r: bool) {
        *self <= *other
    }
}

impl TotalPreorder for i64 {
    open spec fn below(self, other: Self) -> bool {
        self <= other
    }

    proof fn lemma_reflexive(a: Self) {
    }

    proof fn lemma_transitive(a: Self, b: Self, c: Self) {
    }

    proof fn lemma_total(a: Self, b: Self) {
    }

    fn is_below(&self, other: &Self) -> (r: bool) {
        *self <= *other
    }
}

impl TotalPreorder for u32 {
    open spec fn below(self, other: Self) -> bool {
        self <= other
    }

    proof fn lemma_reflexive(a: Self) {
    }

    proof fn lemma_transitive(a: Self, b: Self, c: Self) {
    }

    proof fn lemma_total(a: Self, b: Self) {
    }

    fn is_below(&self, other: &Self) -> (r: bool) {
        *self <= *other
    }
}

impl TotalPreorder for u64 {
    open spec fn below(self, other: Self) -> bool {
        self <= other
    }

    proof fn lemma_reflexive(a: Self) {
    }

    proof fn lemma_transitive(a: Self, b: Self, c: Self) {
    }

    proof fn lemma_total(a: Self, b: Self) {
    }

    fn is_below(&self, other: &Self) -> (r: bool) {
        *self <= *other
    }
}

impl TotalPreorder for usize {
    open spec fn below(self, other: Self) -> bool {
        self <= other
    }

    proof fn lemma_reflexive(a: Self) {
    }

    proof fn lemma_transitive(a: Self, b: Self, c: Self) {
    }

    proof fn lemma_total(a: Self, b: Self) {
    }

    fn is_below(&self, other: &Self) -> (r: bool) {
        *self <= *other
    }
}

impl TotalPreorder for i8 {
    open spec fn below(self, other: Self) -> bool {
        self <= other
    }

    proof fn lemma_reflexive(a: Self) {
    }

    proof fn lemma_transitive(a: Self, b: Self, c: Self) {
    }

    proof fn lemma_total(a: Self, b: Self) {
    }

    fn is_below(&self, other: &Self) -> (r: bool) {
        *self <= *other
    }
}

impl TotalPreorder for i16 {
    open spec fn below(self, other: Self) -> bool {
        self <= other
    }

    proof fn lemma_reflexive(a: Self) {
    }

    proof fn lemma_transitive(a: Self, b: Self, c: Self) {
    }

    proof fn lemma_total(a: Self, b: Self) {
    }

    fn is_below(&self, other: &Self) -> (r: bool) {
        *self <= *other
    }
}

impl TotalPreorder for i128 {
    open spec fn below(self, other: Self) -> bool {
        self <= other
    }

    proof fn lemma_reflexive(a: Self) {
    }

    proof fn lemma_transitive(a: Self, b: Self, c: Self) {
    }

    proof fn lemma_total(a: Self, b: Self) {
    }

    fn is_below(&self, other: &Self) -> (r: bool) {
        *self <= *other
    }
}

impl TotalPreorder for isize {
    open spec fn below(self, other: Self) -> bool {
        self <= other
    }

    proof fn lemma_reflexive(a: Self) {
    }

    proof fn lemma_transitive(a: Self, b: Self, c: Self) {
    }

    proof fn lemma_total(a: Self, b: Self) {
    }

    fn is_below(&self, other: &Self) -> (r: bool) {
        *self <= *other
    }
}

impl TotalPreorder for u8 {
    open spec fn below(self, other: Self) -> bool {
        self <= other
    }

    proof fn lemma_reflexive(a: Self) {
    }

    proof fn lemma_transitive(a: Self, b: Self, c: Self) {
    }

    proof fn lemma_total(a: Self, b: Self) {
    }

    fn is_below(&self, other: &Self) -> (r: bool) {
        *self <= *other
    }
}

impl TotalPreorder for u16 {
    open spec fn below(self, other: Self) -> bool {
        self <= other
    }

    proof fn lemma_reflexive(a: Self) {
    }

    proof fn lemma_transitive(a: Self, b: Self, c: Self) {
    }

    proof fn lemma_total(a: Self, b: Self) {
    }

    fn is_below(&self, other: &Self) -> (r: bool) {
        *self <= *other
    }
}

impl TotalPreorder for u128 {
    open spec fn below(self, other: Self) -> bool {
        self <= other
    }

    proof fn lemma_reflexive(a: Self) {
    }

    proof fn lemma_transitive(a: Self, b: Self, c: Self) {
    }

    proof fn lemma_total(a: Self, b: Self) {
    }

    fn is_below(&self, other: &Self) -> (r: bool) {
        *self <= *other
    }
}

impl TotalPreorder for char {
    open spec fn below(self, other: Self) -> bool {
        self <= other
    }

    proof fn lemma_reflexive(a: Self) {
    }

    proof fn lemma_transitive(a: Self, b: Self, c: Self) {
    }

    proof fn lemma_total(a: Self, b: Self) {
    }

    fn is_below(&self, other: &Self) -> (r: bool) {
        *self <= *other
    }
}

/// Each primitive type's preorder is its built-in order: for integers the
/// numeric order, for `char` the order of code points.
pub proof fn lemma_builtin_orders()
    ensures
        forall|a: i8, b: i8| #[trigger] a.below(b) <==> a <= b,
        forall|a: i16, b: i16| #[trigger] a.below(b) <==> a <= b,
        forall|a: i32, b: i32| #[trigger] a.below(b) <==> a <= b,
        forall|a: i64, b: i64| #[trigger] a.below(b) <==> a <= b,
        forall|a: i128, b: i128| #[trigger] a.below(b) <==> a <= b,
        forall|a: isize, b: isize| #[trigger] a.below(b) <==> a <= b,
        forall|a: u8, b: u8| #[trigger] a.below(b) <==> a <= b,
        forall|a: u16, b: u16| #[trigger] a.below(b) <==> a <= b,
        forall|a: u32, b: u32| #[trigger] a.below(b) <==> a <= b,
        forall|a: u64, b: u64| #[trigger] a.below(b) <==> a <= b,
        forall|a: u128, b: u128| #[trigger] a.below(b) <==> a <= b,
        forall|a: usize, b: usize| #[trigger] a.below(b) <==> a <= b,
        forall|a: char, b: char| #[trigger] a.below(b) <==> (a as int) <= (b as int),
{
}

/// Comparing two primitive values answers whether the first is at most the
/// second in the built-in order.
pub proof fn lemma_is_below_builtin()
    ensures
        forall|a: i8, b: i8, r: bool|
            #[trigger] call_ensures(<i8 as TotalPreorder>::is_below, (&a, &b), r) ==> r == (a <= b),
        forall|a: i16, b: i16, r: bool|
            #[trigger] call_ensures(<i16 as TotalPreorder>::is_below, (&a, &b), r) ==> r == (a <= b),
        forall|a: i32, b: i32, r: bool|
            #[trigger] call_ensures(<i32 as TotalPreorder>::is_below, (&a, &b), r) ==> r == (a <= b),
        forall|a: i64, b: i64, r: bool|
            #[trigger] call_ensures(<i64 as TotalPreorder>::is_below, (&a, &b), r) ==> r == (a <= b),
        forall|a: i128, b: i128, r: bool|
            #[trigger] call_ensures(<i128 as TotalPreorder>::is_below, (&a, &b), r) ==> r == (a <= b),
        forall|a: isize, b: isize, r: bool|
            #[trigger] call_ensures(<isize as TotalPreorder>::is_below, (&a, &b), r) ==> r == (a <= b),
        forall|a: u8, b: u8, r: bool|
            #[trigger] call_ensures(<u8 as TotalPreorder>::is_below, (&a, &b), r) ==> r == (a <= b),
        forall|a: u16, b: u16, r: bool|
            #[trigger] call_ensures(<u16 as TotalPreorder>::is_below, (&a, &b), r) ==> r == (a <= b),
        forall|a: u32, b: u32, r: bool|
            #[trigger] call_ensures(<u32 as TotalPreorder>::is_below, (&a, &b), r) ==> r == (a <= b),
        forall|a: u64, b: u64, r: bool|
            #[trigger] call_ensures(<u64 as TotalPreorder>::is_below, (&a, &b), r) ==> r == (a <= b),
        forall|a: u128, b: u128, r: bool|
            #[trigger] call_ensures(<u128 as TotalPreorder>::is_below, (&a, &b), r) ==> r == (a <= b),
        forall|a: usize, b: usize, r: bool|
            #[trigger] call_ensures(<usize as TotalPreorder>::is_below, (&a, &b), r) ==> r == (a <= b),
        forall|a: char, b: char, r: bool|
            #[trigger] call_ensures(<char as TotalPreorder>::is_below, (&a, &b), r) ==> r == ((a as int) <= (b as int)),
{
}

} // verus!

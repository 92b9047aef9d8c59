use vstd::prelude::*;
use vstd::std_specs::cmp::{PartialEqSpec, PartialOrdIs, PartialOrdSpec};

verus! {

/// A bounded, discrete, totally ordered scalar that can serve as a range
/// coordinate.
///
/// Every index stands for one integer, `to_int`, between `min_int` and
/// `max_int`. The comparison operators of the type order indices as their
/// integers are ordered, and two indices with the same integer are the same
/// index.
pub trait OrderedIndex: Sized + Copy + PartialOrd + Ord + Eq + core::fmt::Debug {
    /// The integer this index stands for.
    spec fn to_int(self) -> int;

    /// The integer of the smallest index.
    spec fn min_int() -> int;

    /// The integer of the largest index.
    spec fn max_int() -> int;

    /// Every index lies within the domain, and the domain holds the unit.
    proof fn lemma_domain(a: Self)
        ensures
            Self::min_int() <= a.to_int() <= Self::max_int(),
            Self::min_int() <= 1 <= Self::max_int(),
    ;

    /// Distinct indices stand for distinct integers.
    proof fn lemma_injective(a: Self, b: Self)
        requires
            a.to_int() == b.to_int(),
        ensures
            a == b,
    ;

    /// `<`, `<=` and `==` on indices agree with the order of their integers.
    proof fn lemma_order(a: Self, b: Self)
        ensures
            Self::obeys_partial_cmp_spec(),
            Self::obeys_eq_spec(),
            a.is_lt(&b) <==> a.to_int() < b.to_int(),
            a.is_le(&b) <==> a.to_int() <= b.to_int(),
            a.eq_spec(&b) <==> a.to_int() == b.to_int(),
    ;

    /// The unit step of the domain.
    fn one() -> (r: Self)
        ensures
            r.to_int() == 1,
    ;

    /// The smallest index.
    fn min_value() -> (r: Self)
        ensures
            r.to_int() == Self::min_int(),
    ;

    /// The largest index.
    fn max_value() -> (r: Self)
        ensures
            r.to_int() == Self::max_int(),
    ;

    /// `self + v`, or `None` where the sum leaves the domain.
    fn checked_add(self, v: Self) -> (r: Option<Self>)
        ensures
            match r {
                Some(s) => s.to_int() == self.to_int() + v.to_int(),
                None => !(Self::min_int() <= self.to_int() + v.to_int() <= Self::max_int()),
            },
    ;

    /// `self - v`, or `None` where the difference leaves the domain.
    fn checked_sub(self, v: Self) -> (r: Option<Self>)
        ensures
            match r {
                Some(s) => s.to_int() == self.to_int() - v.to_int(),
                None => !(Self::min_int() <= self.to_int() - v.to_int() <= Self::max_int()),
            },
    ;
}

impl OrderedIndex for u8 {
    open spec fn to_int(self) -> int {
        self as int
    }

    open spec fn min_int() -> int {
        u8::MIN as int
    }

    open spec fn max_int() -> int {
        u8::MAX as int
    }

    proof fn lemma_domain(a: Self) {
    }

    proof fn lemma_injective(a: Self, b: Self) {
    }

    proof fn lemma_order(a: Self, b: Self) {
    }

    fn one() -> (r: Self) {
        1
    }

    fn min_value() -> (r: Self) {
        u8::MIN
    }

    fn max_value() -> (r: Self) {
        u8::MAX
    }

    fn checked_add(self, v: Self) -> (r: Option<Self>) {
        u8::checked_add(self, v)
    }

    fn checked_sub(self, v: Self) -> (r: Option<Self>) {
        u8::checked_sub(self, v)
    }
}

impl OrderedIndex for u16 {
    open spec fn to_int(self) -> int {
        self as int
    }

    open spec fn min_int() -> int {
        u16::MIN as int
    }

    open spec fn max_int() -> int {
        u16::MAX as int
    }

    proof fn lemma_domain(a: Self) {
    }

    proof fn lemma_injective(a: Self, b: Self) {
    }

    proof fn lemma_order(a: Self, b: Self) {
    }

    fn one() -> (r: Self) {
        1
    }

    fn min_value() -> (r: Self) {
        u16::MIN
    }

    fn max_value() -> (r: Self) {
        u16::MAX
    }

    fn checked_add(self, v: Self) -> (r: Option<Self>) {
        u16::checked_add(self, v)
    }

    fn checked_sub(self, v: Self) -> (r: Option<Self>) {
        u16::checked_sub(self, v)
    }
}

impl OrderedIndex for u32 {
    open spec fn to_int(self) -> int {
        self as int
    }

    open spec fn min_int() -> int {
        u32::MIN as int
    }

    open spec fn max_int() -> int {
        u32::MAX as int
    }

    proof fn lemma_domain(a: Self) {
    }

    proof fn lemma_injective(a: Self, b: Self) {
    }

    proof fn lemma_order(a: Self, b: Self) {
    }

    fn one() -> (r: Self) {
        1
    }

    fn min_value() -> (r: Self) {
        u32::MIN
    }

    fn max_value() -> (r: Self) {
        u32::MAX
    }

    fn checked_add(self, v: Self) -> (r: Option<Self>) {
        u32::checked_add(self, v)
    }

    fn checked_sub(self, v: Self) -> (r: Option<Self>) {
        u32::checked_sub(self, v)
    }
}

impl OrderedIndex for u64 {
    open spec fn to_int(self) -> int {
        self as int
    }

    open spec fn min_int() -> int {
        u64::MIN as int
    }

    open spec fn max_int() -> int {
        u64::MAX as int
    }

    proof fn lemma_domain(a: Self) {
    }

    proof fn lemma_injective(a: Self, b: Self) {
    }

    proof fn lemma_order(a: Self, b: Self) {
    }

    fn one() -> (r: Self) {
        1
    }

    fn min_value() -> (r: Self) {
        u64::MIN
    }

    fn max_value() -> (r: Self) {
        u64::MAX
    }

    fn checked_add(self, v: Self) -> (r: Option<Self>) {
        u64::checked_add(self, v)
    }

    fn checked_sub(self, v: Self) -> (r: Option<Self>) {
        u64::checked_sub(self, v)
    }
}

impl OrderedIndex for u128 {
    open spec fn to_int(self) -> int {
        self as int
    }

    open spec fn min_int() -> int {
        u128::MIN as int
    }

    open spec fn max_int() -> int {
        u128::MAX as int
    }

    proof fn lemma_domain(a: Self) {
    }

    proof fn lemma_injective(a: Self, b: Self) {
    }

    proof fn lemma_order(a: Self, b: Self) {
    }

    fn one() -> (r: Self) {
        1
    }

    fn min_value() -> (r: Self) {
        u128::MIN
    }

    fn max_value() -> (r: Self) {
        u128::MAX
    }

    fn checked_add(self, v: Self) -> (r: Option<Self>) {
        u128::checked_add(self, v)
    }

    fn checked_sub(self, v: Self) -> (r: Option<Self>) {
        u128::checked_sub(self, v)
    }
}

impl OrderedIndex for usize {
    open spec fn to_int(self) -> int {
        self as int
    }

    open spec fn min_int() -> int {
        usize::MIN as int
    }

    open spec fn max_int() -> int {
        usize::MAX as int
    }

    proof fn lemma_domain(a: Self) {
    }

    proof fn lemma_injective(a: Self, b: Self) {
    }

    proof fn lemma_order(a: Self, b: Self) {
    }

    fn one() -> (r: Self) {
        1
    }

    fn min_value() -> (r: Self) {
        usize::MIN
    }

    fn max_value() -> (r: Self) {
        usize::MAX
    }

    fn checked_add(self, v: Self) -> (r: Option<Self>) {
        usize::checked_add(self, v)
    }

    fn checked_sub(self, v: Self) -> (r: Option<Self>) {
        usize::checked_sub(self, v)
    }
}

impl OrderedIndex for i8 {
    open spec fn to_int(self) -> int {
        self as int
    }

    open spec fn min_int() -> int {
        i8::MIN as int
    }

    open spec fn max_int() -> int {
        i8::MAX as int
    }

    proof fn lemma_domain(a: Self) {
    }

    proof fn lemma_injective(a: Self, b: Self) {
    }

    proof fn lemma_order(a: Self, b: Self) {
    }

    fn one() -> (r: Self) {
        1
    }

    fn min_value() -> (r: Self) {
        i8::MIN
    }

    fn max_value() -> (r: Self) {
        i8::MAX
    }

    fn checked_add(self, v: Self) -> (r: Option<Self>) {
        i8::checked_add(self, v)
    }

    fn checked_sub(self, v: Self) -> (r: Option<Self>) {
        i8::checked_sub(self, v)
    }
}

impl OrderedIndex for i16 {
    open spec fn to_int(self) -> int {
        self as int
    }

    open spec fn min_int() -> int {
        i16::MIN as int
    }

    open spec fn max_int() -> int {
        i16::MAX as int
    }

    proof fn lemma_domain(a: Self) {
    }

    proof fn lemma_injective(a: Self, b: Self) {
    }

    proof fn lemma_order(a: Self, b: Self) {
    }

    fn one() -> (r: Self) {
        1
    }

    fn min_value() -> (r: Self) {
        i16::MIN
    }

    fn max_value() -> (r: Self) {
        i16::MAX
    }

    fn checked_add(self, v: Self) -> (r: Option<Self>) {
        i16::checked_add(self, v)
    }

    fn checked_sub(self, v: Self) -> (r: Option<Self>) {
        i16::checked_sub(self, v)
    }
}

impl OrderedIndex for i32 {
    open spec fn to_int(self) -> int {
        self as int
    }

    open spec fn min_int() -> int {
        i32::MIN as int
    }

    open spec fn max_int() -> int {
        i32::MAX as int
    }

    proof fn lemma_domain(a: Self) {
    }

    proof fn lemma_injective(a: Self, b: Self) {
    }

    proof fn lemma_order(a: Self, b: Self) {
    }

    fn one() -> (r: Self) {
        1
    }

    fn min_value() -> (r: Self) {
        i32::MIN
    }

    fn max_value() -> (r: Self) {
        i32::MAX
    }

    fn checked_add(self, v: Self) -> (r: Option<Self>) {
        i32::checked_add(self, v)
    }

    fn checked_sub(self, v: Self) -> (r: Option<Self>) {
        i32::checked_sub(self, v)
    }
}

impl OrderedIndex for i64 {
    open spec fn to_int(self) -> int {
        self as int
    }

    open spec fn min_int() -> int {
        i64::MIN as int
    }

    open spec fn max_int() -> int {
        i64::MAX as int
    }

    proof fn lemma_domain(a: Self) {
    }

    proof fn lemma_injective(a: Self, b: Self) {
    }

    proof fn lemma_order(a: Self, b: Self) {
    }

    fn one() -> (r: Self) {
        1
    }

    fn min_value() -> (r: Self) {
        i64::MIN
    }

    fn max_value() -> (r: Self) {
        i64::MAX
    }

    fn checked_add(self, v: Self) -> (r: Option<Self>) {
        i64::checked_add(self, v)
    }

    fn checked_sub(self, v: Self) -> (r: Option<Self>) {
        i64::checked_sub(self, v)
    }
}

impl OrderedIndex for i128 {
    open spec fn to_int(self) -> int {
        self as int
    }

    open spec fn min_int() -> int {
        i128::MIN as int
    }

    open spec fn max_int() -> int {
        i128::MAX as int
    }

    proof fn lemma_domain(a: Self) {
    }

    proof fn lemma_injective(a: Self, b: Self) {
    }

    proof fn lemma_order(a: Self, b: Self) {
    }

    fn one() -> (r: Self) {
        1
    }

    fn min_value() -> (r: Self) {
        i128::MIN
    }

    fn max_value() -> (r: Self) {
        i128::MAX
    }

    fn checked_add(self, v: Self) -> (r: Option<Self>) {
        i128::checked_add(self, v)
    }

    fn checked_sub(self, v: Self) -> (r: Option<Self>) {
        i128::checked_sub(self, v)
    }
}

impl OrderedIndex for isize {
    open spec fn to_int(self) -> int {
        self as int
    }

    open spec fn min_int() -> int {
        isize::MIN as int
    }

    open spec fn max_int() -> int {
        isize::MAX as int
    }

    proof fn lemma_domain(a: Self) {
    }

    proof fn lemma_injective(a: Self, b: Self) {
    }

    proof fn lemma_order(a: Self, b: Self) {
    }

    fn one() -> (r: Self) {
        1
    }

    fn min_value() -> (r: Self) {
        isize::MIN
    }

    fn max_value() -> (r: Self) {
        isize::MAX
    }

    fn checked_add(self, v: Self) -> (r: Option<Self>) {
        isize::checked_add(self, v)
    }

    fn checked_sub(self, v: Self) -> (r: Option<Self>) {
        isize::checked_sub(self, v)
    }
}

/// `a < b`, decided by the type's own comparison.
pub fn index_lt<Idx: OrderedIndex>(a: Idx, b: Idx) -> (r: bool)
    ensures
        r == (a.to_int() < b.to_int()),
{
    proof {
        Idx::lemma_order(a, b);
    }
    a < b
}

/// `a <= b`, decided by the type's own comparison.
pub fn index_le<Idx: OrderedIndex>(a: Idx, b: Idx) -> (r: bool)
    ensures
        r == (a.to_int() <= b.to_int()),
{
    proof {
        Idx::lemma_order(a, b);
    }
    a <= b
}

/// `a == b`, decided by the type's own comparison.
pub fn index_eq<Idx: OrderedIndex>(a: Idx, b: Idx) -> (r: bool)
    ensures
        r == (a.to_int() == b.to_int()),
        r == (a == b),
{
    proof {
        Idx::lemma_order(a, b);
        if a.to_int() == b.to_int() {
            Idx::lemma_injective(a, b);
        }
    }
    a == b
}

/// The smaller of two indices.
pub fn index_min<Idx: OrderedIndex>(a: Idx, b: Idx) -> (r: Idx)
    ensures
        r == (if b.to_int() < a.to_int() { b } else { a }),
{
    if index_lt(b, a) {
        b
    } else {
        a
    }
}

/// The larger of two indices.
pub fn index_max<Idx: OrderedIndex>(a: Idx, b: Idx) -> (r: Idx)
    ensures
        r == (if a.to_int() < b.to_int() { b } else { a }),
{
    if index_lt(a, b) {
        b
    } else {
        a
    }
}

} // verus!

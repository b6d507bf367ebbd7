//! The numeric capability that distances and positions are made of.

use vstd::prelude::*;

verus! {

/// A copyable number that stands for a distance or a position.
///
/// Every value denotes one mathematical integer, `value()`. The values of a
/// type fill an interval of the integers that holds zero. Sums and differences
/// are exact: an operation whose result would leave that interval is ruled out
/// by its precondition instead of wrapping.
///
/// Only integral types fit this description; no floating-point type implements
/// the trait. It is implemented for the primitive integers of every width.
pub trait Spacing: Copy + Sized {
    /// The integer that this value denotes.
    spec fn value(self) -> int;

    /// Whether some value of the type denotes `v`.
    spec fn representable(v: int) -> bool;

    /// Zero is representable.
    proof fn lemma_zero_representable()
        ensures
            Self::representable(0),
    ;

    /// What a value denotes is representable.
    proof fn lemma_value_representable(self)
        ensures
            Self::representable(self.value()),
    ;

    /// The representable integers have no gaps.
    proof fn lemma_representable_between(low: int, mid: int, high: int)
        requires
            Self::representable(low),
            Self::representable(high),
            low <= mid <= high,
        ensures
            Self::representable(mid),
    ;

    /// Two values that denote the same integer are the same value.
    proof fn lemma_value_injective(self, other: Self)
        requires
            self.value() == other.value(),
        ensures
            self == other,
    ;

    /// The additive identity.
    fn zero() -> (z: Self)
        ensures
            z.value() == 0,
    ;

    /// The exact sum.
    fn plus(self, other: Self) -> (sum: Self)
        requires
            Self::representable(self.value() + other.value()),
        ensures
            sum.value() == self.value() + other.value(),
    ;

    /// The exact difference.
    fn minus(self, other: Self) -> (difference: Self)
        requires
            Self::representable(self.value() - other.value()),
        ensures
            difference.value() == self.value() - other.value(),
    ;

    /// `self <= other`.
    fn at_most(self, other: Self) -> (b: bool)
        ensures
            b == (self.value() <= other.value()),
    ;

    /// `self < other`.
    fn less_than(self, other: Self) -> (b: bool)
        ensures
            b == (self.value() < other.value()),
    ;
}

/// `<i8 as num_traits::Zero>::zero()`, reached through `num_traits::zero`:
/// the additive identity of `i8`, which the crate defines as the literal 0.
#[verifier::external_body]
fn zero_i8() -> (z: i8)
    ensures
        z == 0,
{
    num_traits::zero()
}

impl Spacing for i8 {
    open spec fn value(self) -> int {
        self as int
    }

    open spec fn representable(v: int) -> bool {
        i8::MIN <= v <= i8::MAX
    }

    proof fn lemma_zero_representable() {
    }

    proof fn lemma_value_representable(self) {
    }

    proof fn lemma_representable_between(low: int, mid: int, high: int) {
    }

    proof fn lemma_value_injective(self, other: Self) {
    }

    fn zero() -> (z: Self) {
        zero_i8()
    }

    fn plus(self, other: Self) -> (sum: Self) {
        self + other
    }

    fn minus(self, other: Self) -> (difference: Self) {
        self - other
    }

    fn at_most(self, other: Self) -> (b: bool) {
        self <= other
    }

    fn less_than(self, other: Self) -> (b: bool) {
        self < other
    }
}

/// `<i16 as num_traits::Zero>::zero()`, reached through `num_traits::zero`:
/// the additive identity of `i16`, which the crate defines as the literal 0.
#[verifier::external_body]
fn zero_i16() -> (z: i16)
    ensures
        z == 0,
{
    num_traits::zero()
}

impl Spacing for i16 {
    open spec fn value(self) -> int {
        self as int
    }

    open spec fn representable(v: int) -> bool {
        i16::MIN <= v <= i16::MAX
    }

    proof fn lemma_zero_representable() {
    }

    proof fn lemma_value_representable(self) {
    }

    proof fn lemma_representable_between(low: int, mid: int, high: int) {
    }

    proof fn lemma_value_injective(self, other: Self) {
    }

    fn zero() -> (z: Self) {
        zero_i16()
    }

    fn plus(self, other: Self) -> (sum: Self) {
        self + other
    }

    fn minus(self, other: Self) -> (difference: Self) {
        self - other
    }

    fn at_most(self, other: Self) -> (b: bool) {
        self <= other
    }

    fn less_than(self, other: Self) -> (b: bool) {
        self < other
    }
}

/// `<i32 as num_traits::Zero>::zero()`, reached through `num_traits::zero`:
/// the additive identity of `i32`, which the crate defines as the literal 0.
#[verifier::external_body]
fn zero_i32() -> (z: i32)
    ensures
        z == 0,
{
    num_traits::zero()
}

impl Spacing for i32 {
    open spec fn value(self) -> int {
        self as int
    }

    open spec fn representable(v: int) -> bool {
        i32::MIN <= v <= i32::MAX
    }

    proof fn lemma_zero_representable() {
    }

    proof fn lemma_value_representable(self) {
    }

    proof fn lemma_representable_between(low: int, mid: int, high: int) {
    }

    proof fn lemma_value_injective(self, other: Self) {
    }

    fn zero() -> (z: Self) {
        zero_i32()
    }

    fn plus(self, other: Self) -> (sum: Self) {
        self + other
    }

    fn minus(self, other: Self) -> (difference: Self) {
        self - other
    }

    fn at_most(self, other: Self) -> (b: bool) {
        self <= other
    }

    fn less_than(self, other: Self) -> (b: bool) {
        self < other
    }
}

/// `<i64 as num_traits::Zero>::zero()`, reached through `num_traits::zero`:
/// the additive identity of `i64`, which the crate defines as the literal 0.
#[verifier::external_body]
fn zero_i64() -> (z: i64)
    ensures
        z == 0,
{
    num_traits::zero()
}

impl Spacing for i64 {
    open spec fn value(self) -> int {
        self as int
    }

    open spec fn representable(v: int) -> bool {
        i64::MIN <= v <= i64::MAX
    }

    proof fn lemma_zero_representable() {
    }

    proof fn lemma_value_representable(self) {
    }

    proof fn lemma_representable_between(low: int, mid: int, high: int) {
    }

    proof fn lemma_value_injective(self, other: Self) {
    }

    fn zero() -> (z: Self) {
        zero_i64()
    }

    fn plus(self, other: Self) -> (sum: Self) {
        self + other
    }

    fn minus(self, other: Self) -> (difference: Self) {
        self - other
    }

    fn at_most(self, other: Self) -> (b: bool) {
        self <= other
    }

    fn less_than(self, other: Self) -> (b: bool) {
        self < other
    }
}

/// `<i128 as num_traits::Zero>::zero()`, reached through `num_traits::zero`:
/// the additive identity of `i128`, which the crate defines as the literal 0.
#[verifier::external_body]
fn zero_i128() -> (z: i128)
    ensures
        z == 0,
{
    num_traits::zero()
}

impl Spacing for i128 {
    open spec fn value(self) -> int {
        self as int
    }

    open spec fn representable(v: int) -> bool {
        i128::MIN <= v <= i128::MAX
    }

    proof fn lemma_zero_representable() {
    }

    proof fn lemma_value_representable(self) {
    }

    proof fn lemma_representable_between(low: int, mid: int, high: int) {
    }

    proof fn lemma_value_injective(self, other: Self) {
    }

    fn zero() -> (z: Self) {
        zero_i128()
    }

    fn plus(self, other: Self) -> (sum: Self) {
        self + other
    }

    fn minus(self, other: Self) -> (difference: Self) {
        self - other
    }

    fn at_most(self, other: Self) -> (b: bool) {
        self <= other
    }

    fn less_than(self, other: Self) -> (b: bool) {
        self < other
    }
}

/// `<isize as num_traits::Zero>::zero()`, reached through `num_traits::zero`:
/// the additive identity of `isize`, which the crate defines as the literal 0.
#[verifier::external_body]
fn zero_isize() -> (z: isize)
    ensures
        z == 0,
{
    num_traits::zero()
}

impl Spacing for isize {
    open spec fn value(self) -> int {
        self as int
    }

    open spec fn representable(v: int) -> bool {
        isize::MIN <= v <= isize::MAX
    }

    proof fn lemma_zero_representable() {
    }

    proof fn lemma_value_representable(self) {
    }

    proof fn lemma_representable_between(low: int, mid: int, high: int) {
    }

    proof fn lemma_value_injective(self, other: Self) {
    }

    fn zero() -> (z: Self) {
        zero_isize()
    }

    fn plus(self, other: Self) -> (sum: Self) {
        self + other
    }

    fn minus(self, other: Self) -> (difference: Self) {
        self - other
    }

    fn at_most(self, other: Self) -> (b: bool) {
        self <= other
    }

    fn less_than(self, other: Self) -> (b: bool) {
        self < other
    }
}

/// `<u8 as num_traits::Zero>::zero()`, reached through `num_traits::zero`:
/// the additive identity of `u8`, which the crate defines as the literal 0.
#[verifier::external_body]
fn zero_u8() -> (z: u8)
    ensures
        z == 0,
{
    num_traits::zero()
}

impl Spacing for u8 {
    open spec fn value(self) -> int {
        self as int
    }

    open spec fn representable(v: int) -> bool {
        0 <= v <= u8::MAX
    }

    proof fn lemma_zero_representable() {
    }

    proof fn lemma_value_representable(self) {
    }

    proof fn lemma_representable_between(low: int, mid: int, high: int) {
    }

    proof fn lemma_value_injective(self, other: Self) {
    }

    fn zero() -> (z: Self) {
        zero_u8()
    }

    fn plus(self, other: Self) -> (sum: Self) {
        self + other
    }

    fn minus(self, other: Self) -> (difference: Self) {
        self - other
    }

    fn at_most(self, other: Self) -> (b: bool) {
        self <= other
    }

    fn less_than(self, other: Self) -> (b: bool) {
        self < other
    }
}

/// `<u16 as num_traits::Zero>::zero()`, reached through `num_traits::zero`:
/// the additive identity of `u16`, which the crate defines as the literal 0.
#[verifier::external_body]
fn zero_u16() -> (z: u16)
    ensures
        z == 0,
{
    num_traits::zero()
}

impl Spacing for u16 {
    open spec fn value(self) -> int {
        self as int
    }

    open spec fn representable(v: int) -> bool {
        0 <= v <= u16::MAX
    }

    proof fn lemma_zero_representable() {
    }

    proof fn lemma_value_representable(self) {
    }

    proof fn lemma_representable_between(low: int, mid: int, high: int) {
    }

    proof fn lemma_value_injective(self, other: Self) {
    }

    fn zero() -> (z: Self) {
        zero_u16()
    }

    fn plus(self, other: Self) -> (sum: Self) {
        self + other
    }

    fn minus(self, other: Self) -> (difference: Self) {
        self - other
    }

    fn at_most(self, other: Self) -> (b: bool) {
        self <= other
    }

    fn less_than(self, other: Self) -> (b: bool) {
        self < other
    }
}

/// `<u32 as num_traits::Zero>::zero()`, reached through `num_traits::zero`:
/// the additive identity of `u32`, which the crate defines as the literal 0.
#[verifier::external_body]
fn zero_u32() -> (z: u32)
    ensures
        z == 0,
{
    num_traits::zero()
}

impl Spacing for u32 {
    open spec fn value(self) -> int {
        self as int
    }

    open spec fn representable(v: int) -> bool {
        0 <= v <= u32::MAX
    }

    proof fn lemma_zero_representable() {
    }

    proof fn lemma_value_representable(self) {
    }

    proof fn lemma_representable_between(low: int, mid: int, high: int) {
    }

    proof fn lemma_value_injective(self, other: Self) {
    }

    fn zero() -> (z: Self) {
        zero_u32()
    }

    fn plus(self, other: Self) -> (sum: Self) {
        self + other
    }

    fn minus(self, other: Self) -> (difference: Self) {
        self - other
    }

    fn at_most(self, other: Self) -> (b: bool) {
        self <= other
    }

    fn less_than(self, other: Self) -> (b: bool) {
        self < other
    }
}

/// `<u64 as num_traits::Zero>::zero()`, reached through `num_traits::zero`:
/// the additive identity of `u64`, which the crate defines as the literal 0.
#[verifier::external_body]
fn zero_u64() -> (z: u64)
    ensures
        z == 0,
{
    num_traits::zero()
}

impl Spacing for u64 {
    open spec fn value(self) -> int {
        self as int
    }

    open spec fn representable(v: int) -> bool {
        0 <= v <= u64::MAX
    }

    proof fn lemma_zero_representable() {
    }

    proof fn lemma_value_representable(self) {
    }

    proof fn lemma_representable_between(low: int, mid: int, high: int) {
    }

    proof fn lemma_value_injective(self, other: Self) {
    }

    fn zero() -> (z: Self) {
        zero_u64()
    }

    fn plus(self, other: Self) -> (sum: Self) {
        self + other
    }

    fn minus(self, other: Self) -> (difference: Self) {
        self - other
    }

    fn at_most(self, other: Self) -> (b: bool) {
        self <= other
    }

    fn less_than(self, other: Self) -> (b: bool) {
        self < other
    }
}

/// `<u128 as num_traits::Zero>::zero()`, reached through `num_traits::zero`:
/// the additive identity of `u128`, which the crate defines as the literal 0.
#[verifier::external_body]
fn zero_u128() -> (z: u128)
    ensures
        z == 0,
{
    num_traits::zero()
}

impl Spacing for u128 {
    open spec fn value(self) -> int {
        self as int
    }

    open spec fn representable(v: int) -> bool {
        0 <= v <= u128::MAX
    }

    proof fn lemma_zero_representable() {
    }

    proof fn lemma_value_representable(self) {
    }

    proof fn lemma_representable_between(low: int, mid: int, high: int) {
    }

    proof fn lemma_value_injective(self, other: Self) {
    }

    fn zero() -> (z: Self) {
        zero_u128()
    }

    fn plus(self, other: Self) -> (sum: Self) {
        self + other
    }

    fn minus(self, other: Self) -> (difference: Self) {
        self - other
    }

    fn at_most(self, other: Self) -> (b: bool) {
        self <= other
    }

    fn less_than(self, other: Self) -> (b: bool) {
        self < other
    }
}

/// `<usize as num_traits::Zero>::zero()`, reached through `num_traits::zero`:
/// the additive identity of `usize`, which the crate defines as the literal 0.
#[verifier::external_body]
fn zero_usize() -> (z: usize)
    ensures
        z == 0,
{
    num_traits::zero()
}

impl Spacing for usize {
    open spec fn value(self) -> int {
        self as int
    }

    open spec fn representable(v: int) -> bool {
        0 <= v <= usize::MAX
    }

    proof fn lemma_zero_representable() {
    }

    proof fn lemma_value_representable(self) {
    }

    proof fn lemma_representable_between(low: int, mid: int, high: int) {
    }

    proof fn lemma_value_injective(self, other: Self) {
    }

    fn zero() -> (z: Self) {
        zero_usize()
    }

    fn plus(self, other: Self) -> (sum: Self) {
        self + other
    }

    fn minus(self, other: Self) -> (difference: Self) {
        self - other
    }

    fn at_most(self, other: Self) -> (b: bool) {
        self <= other
    }

    fn less_than(self, other: Self) -> (b: bool) {
        self < other
    }
}

} // verus!

//! The arithmetic of audio samples.
//!
//! The audio code is written for any arithmetic whose operations are functions of their
//! operands. The interchange formats have it here; a program that runs on the machine's own
//! floating point gives that the same shape.
use vstd::prelude::*;

use crate::binary::{Binary32, Binary64};

verus! {

pub trait Sample: Copy {
    spec fn add(self, rhs: Self) -> Self;

    spec fn sub(self, rhs: Self) -> Self;

    spec fn mul(self, rhs: Self) -> Self;

    spec fn div(self, rhs: Self) -> Self;

    spec fn lt(self, rhs: Self) -> bool;

    spec fn le(self, rhs: Self) -> bool;

    spec fn magnitude(self) -> Self;

    spec fn root(self) -> Self;

    spec fn counted(n: u64) -> Self;

    spec fn lowest() -> Self;

    spec fn singled(x: Binary32) -> Self;

    fn plus(self, rhs: Self) -> (r: Self)
        ensures
            r == self.add(rhs),
    ;

    fn minus(self, rhs: Self) -> (r: Self)
        ensures
            r == self.sub(rhs),
    ;

    fn times(self, rhs: Self) -> (r: Self)
        ensures
            r == self.mul(rhs),
    ;

    fn over(self, rhs: Self) -> (r: Self)
        ensures
            r == self.div(rhs),
    ;

    /// `self < rhs`.
    fn less_than(self, rhs: Self) -> (r: bool)
        ensures
            r == self.lt(rhs),
    ;

    /// `self <= rhs`.
    fn no_more_than(self, rhs: Self) -> (r: bool)
        ensures
            r == self.le(rhs),
    ;

    /// The number without its sign.
    fn unsigned(self) -> (r: Self)
        ensures
            r == self.magnitude(),
    ;

    /// The square root.
    fn square_root(self) -> (r: Self)
        ensures
            r == self.root(),
    ;

    /// A count as a sample.
    fn of_count(n: u64) -> (r: Self)
        ensures
            r == Self::counted(n),
    ;

    /// What lies below every number.
    fn of_lowest() -> (r: Self)
        ensures
            r == Self::lowest(),
    ;

    /// A number of the format that audio is stored in.
    fn of_single(x: Binary32) -> (r: Self)
        ensures
            r == Self::singled(x),
    ;
}

/// A sample that has an exact image in a wider arithmetic.
pub trait WidensTo<W: Sample>: Sample {
    spec fn widened(self) -> W;

    spec fn narrowed(w: W) -> Self;

    fn to_wide(self) -> (r: W)
        ensures
            r == self.widened(),
    ;

    /// The nearest sample.
    fn of_wide(w: W) -> (r: Self)
        ensures
            r == Self::narrowed(w),
    ;
}

impl Sample for Binary32 {
    open spec fn add(self, rhs: Binary32) -> Binary32 {
        self + rhs
    }

    open spec fn sub(self, rhs: Binary32) -> Binary32 {
        self - rhs
    }

    open spec fn mul(self, rhs: Binary32) -> Binary32 {
        self * rhs
    }

    open spec fn div(self, rhs: Binary32) -> Binary32 {
        self / rhs
    }

    open spec fn lt(self, rhs: Binary32) -> bool {
        self.less(rhs)
    }

    open spec fn le(self, rhs: Binary32) -> bool {
        self.at_most(rhs)
    }

    open spec fn magnitude(self) -> Binary32 {
        self.abs()
    }

    open spec fn root(self) -> Binary32 {
        self.sqrt()
    }

    open spec fn counted(n: u64) -> Binary32 {
        Binary32::count(n)
    }

    open spec fn lowest() -> Binary32 {
        Binary32 { bits: 0xff80_0000 }
    }

    open spec fn singled(x: Binary32) -> Binary32 {
        x
    }

    fn plus(self, rhs: Binary32) -> (r: Binary32) {
        self + rhs
    }

    fn minus(self, rhs: Binary32) -> (r: Binary32) {
        self - rhs
    }

    fn times(self, rhs: Binary32) -> (r: Binary32) {
        self * rhs
    }

    fn over(self, rhs: Binary32) -> (r: Binary32) {
        self / rhs
    }

    fn less_than(self, rhs: Binary32) -> (r: bool) {
        self.less(rhs)
    }

    fn no_more_than(self, rhs: Binary32) -> (r: bool) {
        self.at_most(rhs)
    }

    fn unsigned(self) -> (r: Binary32) {
        self.abs()
    }

    fn square_root(self) -> (r: Binary32) {
        self.sqrt()
    }

    fn of_count(n: u64) -> (r: Binary32) {
        Binary32::count(n)
    }

    fn of_lowest() -> (r: Binary32) {
        Binary32 { bits: 0xff80_0000 }
    }

    fn of_single(x: Binary32) -> (r: Binary32) {
        x
    }
}

impl Sample for Binary64 {
    open spec fn add(self, rhs: Binary64) -> Binary64 {
        self + rhs
    }

    open spec fn sub(self, rhs: Binary64) -> Binary64 {
        self - rhs
    }

    open spec fn mul(self, rhs: Binary64) -> Binary64 {
        self * rhs
    }

    open spec fn div(self, rhs: Binary64) -> Binary64 {
        self / rhs
    }

    open spec fn lt(self, rhs: Binary64) -> bool {
        self.less(rhs)
    }

    open spec fn le(self, rhs: Binary64) -> bool {
        self.at_most(rhs)
    }

    open spec fn magnitude(self) -> Binary64 {
        self.abs()
    }

    open spec fn root(self) -> Binary64 {
        self.sqrt()
    }

    open spec fn counted(n: u64) -> Binary64 {
        Binary64::count(n)
    }

    open spec fn lowest() -> Binary64 {
        Binary64 { bits: 0xfff0_0000_0000_0000 }
    }

    open spec fn singled(x: Binary32) -> Binary64 {
        x.widen()
    }

    fn plus(self, rhs: Binary64) -> (r: Binary64) {
        self + rhs
    }

    fn minus(self, rhs: Binary64) -> (r: Binary64) {
        self - rhs
    }

    fn times(self, rhs: Binary64) -> (r: Binary64) {
        self * rhs
    }

    fn over(self, rhs: Binary64) -> (r: Binary64) {
        self / rhs
    }

    fn less_than(self, rhs: Binary64) -> (r: bool) {
        self.less(rhs)
    }

    fn no_more_than(self, rhs: Binary64) -> (r: bool) {
        self.at_most(rhs)
    }

    fn unsigned(self) -> (r: Binary64) {
        self.abs()
    }

    fn square_root(self) -> (r: Binary64) {
        self.sqrt()
    }

    fn of_count(n: u64) -> (r: Binary64) {
        Binary64::count(n)
    }

    fn of_lowest() -> (r: Binary64) {
        Binary64 { bits: 0xfff0_0000_0000_0000 }
    }

    fn of_single(x: Binary32) -> (r: Binary64) {
        x.widen()
    }
}

impl WidensTo<Binary64> for Binary32 {
    open spec fn widened(self) -> Binary64 {
        self.widen()
    }

    open spec fn narrowed(w: Binary64) -> Binary32 {
        w.narrow()
    }

    fn to_wide(self) -> (r: Binary64) {
        self.widen()
    }

    fn of_wide(w: Binary64) -> (r: Binary32) {
        w.narrow()
    }
}

pub open spec fn zero_spec<S: Sample>() -> S {
    S::counted(0)
}

/// Silence.
#[verifier::when_used_as_spec(zero_spec)]
pub fn zero<S: Sample>() -> (r: S)
    ensures
        r == zero_spec::<S>(),
{
    S::of_count(0)
}

pub open spec fn fraction_spec<S: Sample>(n: u64, d: u64) -> S {
    S::counted(n).div(S::counted(d))
}

/// The number nearest to `n / d`.
#[verifier::when_used_as_spec(fraction_spec)]
pub fn fraction<S: Sample>(n: u64, d: u64) -> (r: S)
    ensures
        r == fraction_spec::<S>(n, d),
{
    S::of_count(n).over(S::of_count(d))
}

pub open spec fn pi_spec<S: Sample>() -> S {
    S::singled(Binary32 { bits: 0x4049_0fdb })
}

/// Half the circumference of the unit circle.
#[verifier::when_used_as_spec(pi_spec)]
pub fn pi<S: Sample>() -> (r: S)
    ensures
        r == pi_spec::<S>(),
{
    S::of_single(Binary32 { bits: 0x4049_0fdb })
}

pub open spec fn larger_spec<S: Sample>(a: S, b: S) -> S {
    if a.lt(b) {
        b
    } else if a.le(a) {
        a
    } else {
        b
    }
}

/// The larger of two samples; the other one where one is not a number.
#[verifier::when_used_as_spec(larger_spec)]
pub fn larger<S: Sample>(a: S, b: S) -> (r: S)
    ensures
        r == larger_spec::<S>(a, b),
{
    if a.less_than(b) {
        b
    } else if a.no_more_than(a) {
        a
    } else {
        b
    }
}

pub open spec fn smaller_spec<S: Sample>(a: S, b: S) -> S {
    if b.lt(a) {
        b
    } else if a.le(a) {
        a
    } else {
        b
    }
}

/// The smaller of two samples; the other one where one is not a number.
#[verifier::when_used_as_spec(smaller_spec)]
pub fn smaller<S: Sample>(a: S, b: S) -> (r: S)
    ensures
        r == smaller_spec::<S>(a, b),
{
    if b.less_than(a) {
        b
    } else if a.no_more_than(a) {
        a
    } else {
        b
    }
}

pub open spec fn bounded_spec<S: Sample>(x: S, low: S, high: S) -> S {
    if x.lt(low) {
        low
    } else if high.lt(x) {
        high
    } else {
        x
    }
}

/// A sample kept between two bounds.
#[verifier::when_used_as_spec(bounded_spec)]
pub fn bounded<S: Sample>(x: S, low: S, high: S) -> (r: S)
    ensures
        r == bounded_spec::<S>(x, low, high),
{
    if x.less_than(low) {
        low
    } else if high.less_than(x) {
        high
    } else {
        x
    }
}

pub open spec fn clipped_spec<S: Sample>(x: S) -> S {
    let one = S::counted(1);
    bounded(x, zero::<S>().sub(one), one)
}

/// A sample kept between -1 and 1.
#[verifier::when_used_as_spec(clipped_spec)]
pub fn clipped<S: Sample>(x: S) -> (r: S)
    ensures
        r == clipped_spec::<S>(x),
{
    let one: S = S::of_count(1);
    bounded(x, zero::<S>().minus(one), one)
}

/// What a function that has one result for every argument gives.
pub open spec fn outcome<A, R, F: Fn(A) -> R>(f: F, a: A) -> R {
    choose|r: R| call_ensures(f, (a,), r)
}

/// A function can be called with every argument and has one result for each.
pub open spec fn is_function<A, R, F: Fn(A) -> R>(f: F) -> bool {
    &&& forall|a: A| #[trigger] call_requires(f, (a,))
    &&& forall|a: A, r: R, other: R|
        #[trigger] call_ensures(f, (a,), r) && #[trigger] call_ensures(f, (a,), other) ==> r == other
}

/// The planes of planar audio.
pub open spec fn planes<S>(pcm: Seq<Vec<S>>) -> Seq<Seq<S>> {
    pcm.map_values(|plane: Vec<S>| plane@)
}

pub open spec fn silence<S: Sample>(n: nat) -> Seq<S> {
    Seq::new(n, |i: int| zero::<S>())
}

/// `n` samples of silence.
pub fn silent_plane<S: Sample>(n: usize) -> (r: Vec<S>)
    ensures
        r@ == silence::<S>(n as nat),
{
    let mut r: Vec<S> = Vec::with_capacity(n);
    let mut i: usize = 0;
    while i < n
        invariant
            i <= n,
            r@ == silence::<S>(i as nat),
        decreases n - i,
    {
        r.push(zero());
        i = i + 1;
        assert(r@ =~= silence::<S>(i as nat));
    }
    r
}

/// The first `n` samples, with silence after them where there are fewer.
pub open spec fn fitted<S: Sample>(s: Seq<S>, n: nat) -> Seq<S> {
    Seq::new(
        n,
        |i: int|
            if i < s.len() {
                s[i]
            } else {
                zero::<S>()
            },
    )
}

/// The first `n` samples of a plane, with silence after them, see `fitted`.
pub fn fit_plane<S: Sample>(plane: &[S], n: usize) -> (r: Vec<S>)
    ensures
        r@ == fitted(plane@, n as nat),
{
    let mut r: Vec<S> = Vec::with_capacity(n);
    let mut i: usize = 0;
    while i < n
        invariant
            i <= n,
            r@ == fitted(plane@, i as nat),
        decreases n - i,
    {
        let sample: S = if i < plane.len() {
            plane[i]
        } else {
            zero()
        };
        r.push(sample);
        i = i + 1;
        assert(r@ =~= fitted(plane@, i as nat));
    }
    r
}

} // verus!

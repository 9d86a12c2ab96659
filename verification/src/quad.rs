//! Small demonstration items: phantom-typed quadrilateral witnesses, a
//! clamped constructor, and a counter with saturating updates.

use core::marker::PhantomData;
use vstd::prelude::*;

verus! {

/// A message driving the counter in `update`.
#[derive(Debug, Clone, Copy)]
pub enum Message {
    Decrement,
    Increment,
}

/// Marker for quadrilaterals whose adjacent sides come in equal pairs.
pub trait Sides {}

/// Marker for quadrilaterals whose angles are all right angles.
pub trait Angles {}

/// A quadrilateral whose properties live entirely in its type parameter.
pub struct Quad<T> {
    pub equalities: PhantomData<T>,
}

impl<T> Quad<T> {
    /// Builds the (stateless) quadrilateral witness.
    pub fn new() -> (q: Quad<T>) {
        Quad { equalities: PhantomData }
    }
}

impl<T> Default for Quad<T> {
    fn default() -> (q: Self) {
        Quad::new()
    }
}

impl<Kite: Sides> Quad<Kite> {
    /// A quadrilateral with paired equal sides is a kite.
    pub fn is_kite(&self) -> (r: bool)
        ensures
            r,
    {
        true
    }
}

impl<Rectangle: Angles> Quad<Rectangle> {
    /// A quadrilateral with four right angles is a rectangle.
    pub fn is_rectangle(&self) -> (r: bool)
        ensures
            r,
    {
        true
    }
}

impl<Square: Sides + Angles> Quad<Square> {
    /// Both at once make a square.
    pub fn is_square(&self) -> (r: bool)
        ensures
            r,
    {
        true
    }
}

/// A wrapped value that `create_test` clamps to at most ten.
#[derive(PartialEq, Eq, Structural, Debug)]
pub struct Test(pub u64);

/// Wraps a number, clamping anything above ten down to ten.
pub fn create_test(num: u64) -> (t: Test)
    ensures
        t.0 == if num > 10 {
            10u64
        } else {
            num
        },
{
    if num > 10 {
        Test(10)
    } else {
        Test(num)
    }
}

/// The sum of two numbers.
pub fn add(left: u64, right: u64) -> (r: u64)
    requires
        left + right <= u64::MAX,
    ensures
        r == left + right,
{
    left + right
}

/// Steps the counter: increment stops at ten, decrement stops at zero.
pub fn update(num: &mut u64, message: Message)
    ensures
        *final(num) == match message {
            Message::Increment => if *old(num) < 10 {
                *old(num) + 1
            } else {
                *old(num) as int
            },
            Message::Decrement => if *old(num) > 0 {
                *old(num) - 1
            } else {
                0int
            },
        },
{
    match message {
        Message::Increment => {
            *num = checked_increment(*num);
        },
        Message::Decrement => {
            *num = num.saturating_sub(1);
        },
    }
}

/// One step up, capped at ten.
pub fn checked_increment(num: u64) -> (r: u64)
    ensures
        r == if num < 10 {
            num + 1
        } else {
            num as int
        },
{
    if num < 10 {
        num + 1
    } else {
        num
    }
}

} // verus!

//! Two small building blocks: a box that owns one value, and doubling.

use vstd::prelude::*;

verus! {

/// A value kept on the heap and owned by the box.
pub struct CustomBox<T>(Box<T>);

impl<T> CustomBox<T> {
    /// The value in the box.
    pub closed spec fn value(&self) -> T {
        *self.0
    }

    /// Boxes `value`.
    pub fn new(value: T) -> (boxed: Self)
        ensures
            boxed.value() == value,
    {
        CustomBox(Box::new(value))
    }
}

/// Twice `input`, for every input whose double is an `i32`.
pub fn wasm_function(input: i32) -> (doubled: i32)
    requires
        i32::MIN <= input * 2 <= i32::MAX,
    ensures
        doubled == input * 2,
{
    input * 2
}

} // verus!

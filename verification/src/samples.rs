//! Small routines that exercise, one each, the ownership patterns the
//! verifier reasons about: passing by value, lending through a shared or an
//! exclusive reference, handing ownership back to the caller, and returning a
//! reference whose validity is tied to two arguments.

use vstd::prelude::*;
use vstd::string::*;
use vstd::utf8::encode_utf8;

verus! {

/// Adds two copyable values; both arguments stay usable by the caller.
pub fn add(a: i32, b: i32) -> (sum: i32)
    requires
        i32::MIN <= a + b <= i32::MAX,
    ensures
        sum == a + b,
{
    a + b
}

/// Reads through a shared reference: the length in bytes of the borrowed
/// string, which the caller still owns afterwards.
pub fn calculate_length(s: &String) -> (len: usize)
    ensures
        len == encode_utf8(s@).len() as usize,
{
    s.as_str().len()
}

/// Writes through an exclusive reference: appends `", world"` to the
/// borrowed string.
pub fn change(some_string: &mut String)
    ensures
        final(some_string)@ == old(some_string)@ + ", world"@,
{
    some_string.append(", world");
}

/// Builds a string and moves it out to the caller.
pub fn return_owned_string() -> (s: String)
    ensures
        s@ == "I am owned by the caller now"@,
{
    String::from_str("I am owned by the caller now")
}

/// The longer of two string slices by byte length; the second one on a tie.
/// The result borrows from both arguments, so it is valid only while both
/// are.
pub fn longest<'a>(x: &'a str, y: &'a str) -> (r: &'a str)
    ensures
        r == if x.len() > y.len() { x } else { y },
{
    if x.len() > y.len() {
        x
    } else {
        y
    }
}

/// A rectangle with integral sides.
#[derive(Debug, Clone, Copy, PartialEq, Eq, Structural)]
pub struct Rectangle {
    pub width: u32,
    pub height: u32,
}

impl Rectangle {
    /// The area, for rectangles whose area fits in a `u32`.
    pub fn area(&self) -> (a: u32)
        requires
            self.width * self.height <= u32::MAX,
        ensures
            a == self.width * self.height,
    {
        self.width * self.height
    }

    /// Whether `other` fits strictly inside `self` in both dimensions.
    pub fn can_hold(&self, other: &Rectangle) -> (fits: bool)
        ensures
            fits == (self.width > other.width && self.height > other.height),
    {
        self.width > other.width && self.height > other.height
    }

    /// The square with the given side.
    pub fn square(size: u32) -> (r: Rectangle)
        ensures
            r == (Rectangle { width: size, height: size }),
    {
        Rectangle { width: size, height: size }
    }
}

/// Succeeds with 42 when `is_ok` holds and fails with a fixed message
/// otherwise.
pub fn perform_operation(is_ok: bool) -> (r: Result<i32, String>)
    ensures
        is_ok ==> r == Ok::<i32, String>(42),
        !is_ok ==> r is Err && r->Err_0@ == "操作失败：网络超时"@,
{
    if is_ok {
        Ok(42)
    } else {
        Err(String::from_str("操作失败：网络超时"))
    }
}

} // verus!

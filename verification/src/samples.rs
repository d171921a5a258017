//! A handful of small data types and functions on plain values.

use std::rc::Rc;
use vstd::prelude::*;

verus! {

/// Three coordinates.
pub struct TutorialTupleStruct(pub i32, pub i32, pub i32);

/// A colour.
pub enum TutorialEnum {
    RED,
    BLUE,
    GREEN,
    DEFAULT,
}

/// An operation together with its two operands.
pub enum TutorialEnumExpression {
    ADD(i32, i32),
    OR(bool, bool),
}

/// A node of a tree that knows its parent; the root has none.
pub struct TutorialNode {
    pub parent: Option<Rc<TutorialNode>>,
    pub value: i32,
}

/// The greeting, whatever is passed in.
pub fn get_hello_world(_x: &'static str) -> (greeting: &'static str)
    ensures
        greeting@ == "Hello world"@,
{
    "Hello world"
}

/// The sentence that describes `x`.
pub open spec fn description(x: int) -> Seq<char> {
    if x == 0 {
        "x is 0"@
    } else if x == 1 {
        "x is 1"@
    } else if x == 2 {
        "x is 2"@
    } else if 10 < x < 20 {
        "x is between 10 and 20"@
    } else {
        "Not implemented"@
    }
}

/// Describes `x`: 0, 1 and 2 by name, 11 to 19 as a range, and nothing
/// else.
pub fn int_to_str(x: i32) -> (text: &'static str)
    ensures
        text@ == description(x as int),
{
    if x == 0 {
        "x is 0"
    } else if x == 1 {
        "x is 1"
    } else if x == 2 {
        "x is 2"
    } else if x < 20 && x > 10 {
        "x is between 10 and 20"
    } else {
        "Not implemented"
    }
}

/// Two numbers and a greeting.
pub fn tuple_example() -> (triple: (i32, i32, &'static str))
    ensures
        triple.0 == 32,
        triple.1 == 42,
        triple.2@ == "Hello World"@,
{
    let x: i32 = 32;
    let y: i32 = 42;
    let z: &'static str = "Hello World";
    (x, y, z)
}

} // verus!

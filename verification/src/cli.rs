//! The command-line argument shapes of the surrounding program.

use vstd::prelude::*;

verus! {

/// One command-line argument: a `-`-prefixed flag, or a plain value.
#[derive(Debug)]
pub enum Argument {
    Flag(String),
    Value(String),
}

/// The string of an argument that must be a plain value.  The caller checks
/// the shape first and reports `name` itself when the argument is a flag or
/// absent.
pub fn expect_value(this: Option<Argument>, name: &'static str) -> (r: String)
    requires
        this matches Some(Argument::Value(_)),
    ensures
        this matches Some(Argument::Value(v)) && r == v,
{
    match this {
        Some(Argument::Value(v)) => v,
        _ => vstd::pervasive::unreached(),
    }
}

} // verus!

//! Records kept in the store.

use vstd::prelude::*;

verus! {

/// A named person.
#[derive(PartialEq, Debug, Clone)]
pub struct Entity {
    pub name: String,
    pub age: i32,
}

/// The kind of a project directory.
#[derive(Debug, Clone, Copy, PartialEq, Eq, Structural)]
pub enum ProjectType {
    Rust,
    Go,
}

} // verus!

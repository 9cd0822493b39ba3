//! The operations that matched symbols stand for.

use crate::picture::Color;
use vstd::prelude::*;

verus! {

/// List of built in operations.
/// For all binary operations the structure is: lhs, rhs, result.
#[derive(Debug, Clone)]
pub enum Operation {
    Assign(Color, Vec<Color>),
    Add(Color, Color, Color),
    Return(Vec<Color>),
}

} // verus!

//! [`Axis`] constants
use vstd::prelude::*;

use super::axis::Axis;

verus! {

/// X axis
#[allow(non_snake_case)]
pub fn X() -> (a: Axis)
    ensures
        a.spec_id() == 0,
{
    Axis::new(0)
}

/// Y axis
#[allow(non_snake_case)]
pub fn Y() -> (a: Axis)
    ensures
        a.spec_id() == 1,
{
    Axis::new(1)
}

/// Z axis
#[allow(non_snake_case)]
pub fn Z() -> (a: Axis)
    ensures
        a.spec_id() == 2,
{
    Axis::new(2)
}

/// W axis
#[allow(non_snake_case)]
pub fn W() -> (a: Axis)
    ensures
        a.spec_id() == 3,
{
    Axis::new(3)
}

} // verus!

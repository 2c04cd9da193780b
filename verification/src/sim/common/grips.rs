//! [`Grip`] constants
use vstd::prelude::*;

use super::grip::Grip;

verus! {

/// Right grip (+X)
#[allow(non_snake_case)]
pub fn R() -> (g: Grip)
    ensures
        g.spec_id() == 0,
{
    Grip::new(0)
}

/// Left grip (-X)
#[allow(non_snake_case)]
pub fn L() -> (g: Grip)
    ensures
        g.spec_id() == 1,
{
    Grip::new(1)
}

/// Up grip (+Y)
#[allow(non_snake_case)]
pub fn U() -> (g: Grip)
    ensures
        g.spec_id() == 2,
{
    Grip::new(2)
}

/// Down grip (-Y)
#[allow(non_snake_case)]
pub fn D() -> (g: Grip)
    ensures
        g.spec_id() == 3,
{
    Grip::new(3)
}

/// Front grip (+Z)
#[allow(non_snake_case)]
pub fn F() -> (g: Grip)
    ensures
        g.spec_id() == 4,
{
    Grip::new(4)
}

/// Back grip (-Z)
#[allow(non_snake_case)]
pub fn B() -> (g: Grip)
    ensures
        g.spec_id() == 5,
{
    Grip::new(5)
}

/// Out grip (+W)
#[allow(non_snake_case)]
pub fn O() -> (g: Grip)
    ensures
        g.spec_id() == 6,
{
    Grip::new(6)
}

/// In grip (-W)
#[allow(non_snake_case)]
pub fn I() -> (g: Grip)
    ensures
        g.spec_id() == 7,
{
    Grip::new(7)
}

/// Positive grips (R, U, F, O) in canonical order
#[allow(non_snake_case)]
pub fn RUFO() -> (r: [Grip; 4])
    ensures
        forall|i: int| 0 <= i < 4 ==> (#[trigger] r[i]).spec_id() == 2 * i,
{
    [R(), U(), F(), O()]
}

/// Negative grips (L, D, B, I) in canonical order
#[allow(non_snake_case)]
pub fn LDBI() -> (r: [Grip; 4])
    ensures
        forall|i: int| 0 <= i < 4 ==> (#[trigger] r[i]).spec_id() == 2 * i + 1,
{
    [L(), D(), B(), I()]
}

} // verus!

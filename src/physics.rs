use vstd::prelude::*;

verus! {

/// The cardinal axes of the spherical polar grid.
#[derive(Clone, Copy, Debug, PartialEq, Eq, Structural)]
pub enum Direction {
    Polar,
    Radial,
}

/// The approximate Riemann solver used at cell interfaces.
#[derive(Clone, Copy, Debug, PartialEq, Eq, Structural)]
pub enum RiemannSolver {
    HLLE,
    HLLC,
}

} // verus!

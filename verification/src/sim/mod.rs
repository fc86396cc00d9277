//! Simulation modes and the split-screen views of the sandbox, with their
//! one-byte wire codes.
use vstd::prelude::*;

verus! {

/// Which simulation is active. Wire codes: boids 0, collisions 1.
#[derive(Copy, Clone, Debug, PartialEq, Eq, Structural)]
pub enum Mode {
    Boids,
    Collisions,
}

/// Which split-screen view the sandbox shows. Wire codes: split 0,
/// boids only 1, collisions only 2.
#[derive(Copy, Clone, Debug, PartialEq, Eq, Structural)]
pub enum View {
    Split,
    BoidsOnly,
    CollisionsOnly,
}

/// The mode a wire code selects: `1` is collisions, every other code boids.
pub open spec fn mode_of_code(v: u8) -> Mode {
    if v == 1 {
        Mode::Collisions
    } else {
        Mode::Boids
    }
}

/// The view a wire code selects: `1` boids only, `2` collisions only, every
/// other code the split view.
pub open spec fn view_of_code(v: u8) -> View {
    if v == 1 {
        View::BoidsOnly
    } else if v == 2 {
        View::CollisionsOnly
    } else {
        View::Split
    }
}

/// The wire code of a mode.
pub open spec fn mode_code(m: Mode) -> u8 {
    match m {
        Mode::Boids => 0,
        Mode::Collisions => 1,
    }
}

/// The wire code of a view.
pub open spec fn view_code(v: View) -> u8 {
    match v {
        View::Split => 0,
        View::BoidsOnly => 1,
        View::CollisionsOnly => 2,
    }
}

impl Mode {
    /// Decodes a mode from its wire code; unknown codes fall back to boids.
    pub fn from_u8(v: u8) -> (m: Mode)
        ensures
            m == mode_of_code(v),
    {
        match v {
            1 => Mode::Collisions,
            _ => Mode::Boids,
        }
    }

    /// The wire code of this mode.
    pub fn code(self) -> (c: u8)
        ensures
            c == mode_code(self),
    {
        match self {
            Mode::Boids => 0,
            Mode::Collisions => 1,
        }
    }
}

impl View {
    /// Decodes a view from its wire code; unknown codes fall back to the
    /// split view.
    pub fn from_u8(v: u8) -> (r: View)
        ensures
            r == view_of_code(v),
    {
        match v {
            1 => View::BoidsOnly,
            2 => View::CollisionsOnly,
            _ => View::Split,
        }
    }

    /// The wire code of this view.
    pub fn code(self) -> (c: u8)
        ensures
            c == view_code(self),
    {
        match self {
            View::Split => 0,
            View::BoidsOnly => 1,
            View::CollisionsOnly => 2,
        }
    }
}

/// Decoding is total and the wire codes round-trip: every mode and view is
/// recovered from its own code, and every code in use is the code of what it
/// decodes to.
pub proof fn lemma_codes_round_trip(m: Mode, v: View, b: u8)
    ensures
        mode_of_code(mode_code(m)) == m,
        view_of_code(view_code(v)) == v,
        b <= 1 ==> mode_code(mode_of_code(b)) == b,
        b <= 2 ==> view_code(view_of_code(b)) == b,
{
}

} // verus!

//! Bookkeeping of the sandbox shown in the browser: how many particles each
//! side runs, which view is active, how the two sides share one position
//! buffer, and which tunable parameter a name refers to.
use vstd::prelude::*;
use crate::sim::{self, Mode, mode_of_code};

verus! {

/// Most particles one side of the sandbox runs.
pub const MAX_PARTICLES_PER_SIDE: usize = 10_000;

/// Numbers stored per particle in the position buffer: `x, y, vx, vy`.
pub const FLOATS_PER_PARTICLE: usize = 4;

/// A requested particle count, capped at [`MAX_PARTICLES_PER_SIDE`].
pub open spec fn capped(count: u32) -> usize {
    if count as int > MAX_PARTICLES_PER_SIDE as int {
        MAX_PARTICLES_PER_SIDE
    } else {
        count as usize
    }
}

/// The single-mode view that runs the given mode on the whole canvas.
pub open spec fn view_for_mode(m: Mode) -> sim::View {
    match m {
        Mode::Collisions => sim::View::CollisionsOnly,
        Mode::Boids => sim::View::BoidsOnly,
    }
}

/// The mode a view is rebuilt with: none for the split view (which runs
/// both), else the mode that the single view runs.
pub open spec fn rebuild_mode_of(v: sim::View) -> Option<Mode> {
    match v {
        sim::View::Split => None,
        sim::View::BoidsOnly => Some(Mode::Boids),
        sim::View::CollisionsOnly => Some(Mode::Collisions),
    }
}

/// Caps a requested particle count at [`MAX_PARTICLES_PER_SIDE`].
pub fn cap_count(count: u32) -> (n: usize)
    ensures
        n == capped(count),
{
    let c = count as usize;
    if c < MAX_PARTICLES_PER_SIDE {
        c
    } else {
        MAX_PARTICLES_PER_SIDE
    }
}

/// Particle count per side and active view of a sandbox.
pub struct Layout {
    view: sim::View,
    count_per_side: usize,
}

impl Layout {
    /// The count per side never exceeds the cap.
    #[verifier::type_invariant]
    closed spec fn count_capped(self) -> bool {
        self.count_per_side <= MAX_PARTICLES_PER_SIDE
    }

    /// The active view.
    pub closed spec fn spec_view(self) -> sim::View {
        self.view
    }

    /// Particles per side (in a single view, the total).
    pub closed spec fn spec_count(self) -> usize {
        self.count_per_side
    }

    /// Particles across all running sides.
    pub open spec fn spec_total(self) -> int {
        match self.spec_view() {
            sim::View::Split => 2 * self.spec_count(),
            _ => self.spec_count() as int,
        }
    }

    /// A fresh sandbox: the boids simulation alone, with the requested
    /// count capped.
    pub fn new(count: u32) -> (l: Layout)
        ensures
            l.spec_view() == sim::View::BoidsOnly,
            l.spec_count() == capped(count),
    {
        Layout { view: sim::View::BoidsOnly, count_per_side: cap_count(count) }
    }

    /// The active view.
    pub fn view(&self) -> (v: sim::View)
        ensures
            v == self.spec_view(),
    {
        self.view
    }

    /// Particles per side (in a single view, the total).
    pub fn particle_count_per_side(&self) -> (n: usize)
        ensures
            n == self.spec_count(),
            n <= MAX_PARTICLES_PER_SIDE,
    {
        proof {
            use_type_invariant(self);
        }
        self.count_per_side
    }

    /// Switches to the split view: boids on the left, collisions on the right.
    pub fn set_view_split(&mut self)
        ensures
            final(self).spec_view() == sim::View::Split,
            final(self).spec_count() == old(self).spec_count(),
    {
        proof {
            use_type_invariant(&*self);
        }
        self.view = sim::View::Split;
    }

    /// Switches to a single view running the mode with the given wire code,
    /// and returns that mode.
    pub fn set_view_single(&mut self, mode: u8) -> (m: Mode)
        ensures
            m == mode_of_code(mode),
            final(self).spec_view() == view_for_mode(m),
            final(self).spec_count() == old(self).spec_count(),
    {
        proof {
            use_type_invariant(&*self);
        }
        let m = Mode::from_u8(mode);
        self.view = match m {
            Mode::Collisions => sim::View::CollisionsOnly,
            _ => sim::View::BoidsOnly,
        };
        m
    }

    /// Sets the particle count per side, capped. Returns whether the count
    /// changed: only then do the sides need rebuilding.
    pub fn set_count(&mut self, count: u32) -> (changed: bool)
        ensures
            changed == (capped(count) != old(self).spec_count()),
            final(self).spec_count() == capped(count),
            final(self).spec_view() == old(self).spec_view(),
    {
        let n = cap_count(count);
        if n == self.count_per_side {
            return false;
        }
        self.count_per_side = n;
        true
    }

    /// The mode to rebuild the current view with after a change of world or
    /// count: none for the split view, else the single view's mode.
    pub fn rebuild_mode(&self) -> (m: Option<Mode>)
        ensures
            m == rebuild_mode_of(self.spec_view()),
    {
        match self.view {
            sim::View::Split => None,
            sim::View::BoidsOnly => Some(Mode::Boids),
            sim::View::CollisionsOnly => Some(Mode::Collisions),
        }
    }

    /// Whether a right-hand side runs (only in the split view).
    pub fn has_right_side(&self) -> (b: bool)
        ensures
            b == (self.spec_view() == sim::View::Split),
    {
        match self.view {
            sim::View::Split => true,
            _ => false,
        }
    }

    /// Particles across all running sides.
    pub fn total_particles(&self) -> (n: usize)
        ensures
            n == self.spec_total(),
            n <= 2 * MAX_PARTICLES_PER_SIDE,
    {
        proof {
            use_type_invariant(self);
        }
        match self.view {
            sim::View::Split => self.count_per_side * 2,
            _ => self.count_per_side,
        }
    }

    /// Length of the shared position buffer: four numbers per particle.
    pub fn positions_len(&self) -> (n: usize)
        ensures
            n == FLOATS_PER_PARTICLE * self.spec_total(),
    {
        self.total_particles() * FLOATS_PER_PARTICLE
    }

    /// Where the right-hand side's particles start in the position buffer:
    /// right after the left side's.
    pub fn right_offset(&self) -> (n: usize)
        ensures
            n == FLOATS_PER_PARTICLE * self.spec_count(),
    {
        proof {
            use_type_invariant(self);
        }
        self.count_per_side * FLOATS_PER_PARTICLE
    }
}

/// Rebuilding after a change of world or count keeps the view: the split
/// view is rebuilt as the split view, and a single view by re-selecting the
/// wire code of its own mode.
pub proof fn lemma_rebuild_keeps_view(v: sim::View)
    ensures
        match rebuild_mode_of(v) {
            None => v == sim::View::Split,
            Some(m) => view_for_mode(mode_of_code(sim::mode_code(m))) == v,
        },
{
}

/// In the split view the left side fills the first half of the position
/// buffer and the right side the second: the right side starts where the
/// left side ends and ends at the end of the buffer.
pub proof fn lemma_split_halves(l: Layout)
    requires
        l.spec_view() == sim::View::Split,
    ensures
        FLOATS_PER_PARTICLE * l.spec_count() + FLOATS_PER_PARTICLE * l.spec_count()
            == FLOATS_PER_PARTICLE * l.spec_total(),
{
}

/// A tunable simulation parameter, named as the sandbox's `set_param`
/// accepts it.
#[derive(Copy, Clone, Debug, PartialEq, Eq, Structural)]
pub enum Param {
    Perception,
    SeparationRadius,
    WSep,
    WAli,
    WCoh,
    MaxSpeed,
    MaxForce,
    Damping,
    Restitution,
}

/// The parameter a name refers to, if any.
pub open spec fn param_of_name(s: Seq<char>) -> Option<Param> {
    if s == "perception"@ {
        Some(Param::Perception)
    } else if s == "separation_radius"@ {
        Some(Param::SeparationRadius)
    } else if s == "w_sep"@ {
        Some(Param::WSep)
    } else if s == "w_ali"@ {
        Some(Param::WAli)
    } else if s == "w_coh"@ {
        Some(Param::WCoh)
    } else if s == "max_speed"@ {
        Some(Param::MaxSpeed)
    } else if s == "max_force"@ {
        Some(Param::MaxForce)
    } else if s == "damping"@ {
        Some(Param::Damping)
    } else if s == "restitution"@ {
        Some(Param::Restitution)
    } else {
        None
    }
}

/// Whether two strings hold the same characters.
fn same_text(a: &str, b: &str) -> (r: bool)
    ensures
        r == (a@ == b@),
{
    let n = a.unicode_len();
    if n != b.unicode_len() {
        return false;
    }
    let mut i: usize = 0;
    while i < n
        invariant
            n == a@.len(),
            n == b@.len(),
            i <= n,
            forall|k: int| 0 <= k < i ==> a@[k] == b@[k],
        decreases n - i,
    {
        if a.get_char(i) != b.get_char(i) {
            return false;
        }
        i += 1;
    }
    assert(a@ =~= b@);
    true
}

impl Param {
    /// The parameter a name refers to: the boids parameters `perception`,
    /// `separation_radius`, `w_sep`, `w_ali`, `w_coh`, `max_speed`,
    /// `max_force`, and the collision parameters `damping` and
    /// `restitution`. Any other name refers to none.
    pub fn from_name(name: &str) -> (p: Option<Param>)
        ensures
            p == param_of_name(name@),
    {
        if same_text(name, "perception") {
            Some(Param::Perception)
        } else if same_text(name, "separation_radius") {
            Some(Param::SeparationRadius)
        } else if same_text(name, "w_sep") {
            Some(Param::WSep)
        } else if same_text(name, "w_ali") {
            Some(Param::WAli)
        } else if same_text(name, "w_coh") {
            Some(Param::WCoh)
        } else if same_text(name, "max_speed") {
            Some(Param::MaxSpeed)
        } else if same_text(name, "max_force") {
            Some(Param::MaxForce)
        } else if same_text(name, "damping") {
            Some(Param::Damping)
        } else if same_text(name, "restitution") {
            Some(Param::Restitution)
        } else {
            None
        }
    }
}

} // verus!

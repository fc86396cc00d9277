use quadtree_collision::sandbox::{cap_count, Layout, Param, MAX_PARTICLES_PER_SIDE};
use quadtree_collision::sim::{Mode, View};

#[test]
fn count_is_capped() {
    assert_eq!(cap_count(200), 200);
    assert_eq!(cap_count(10_000), 10_000);
    assert_eq!(cap_count(10_001), MAX_PARTICLES_PER_SIDE);
    assert_eq!(cap_count(u32::MAX), 10_000);
}

#[test]
fn new_layout_runs_boids_alone() {
    let l = Layout::new(200);
    assert_eq!(l.view(), View::BoidsOnly);
    assert_eq!(l.particle_count_per_side(), 200);
    assert_eq!(l.total_particles(), 200);
    assert_eq!(l.positions_len(), 800);
    assert!(!l.has_right_side());
}

#[test]
fn split_view_doubles_the_buffer() {
    let mut l = Layout::new(100);
    l.set_view_split();
    assert_eq!(l.view(), View::Split);
    assert_eq!(l.total_particles(), 200);
    assert_eq!(l.positions_len(), 800);
    assert_eq!(l.right_offset(), 400);
    assert!(l.has_right_side());
    assert_eq!(l.rebuild_mode(), None);
}

#[test]
fn single_view_follows_mode_code() {
    let mut l = Layout::new(50);
    assert_eq!(l.set_view_single(1), Mode::Collisions);
    assert_eq!(l.view(), View::CollisionsOnly);
    assert_eq!(l.rebuild_mode(), Some(Mode::Collisions));
    assert_eq!(l.set_view_single(7), Mode::Boids);
    assert_eq!(l.view(), View::BoidsOnly);
    assert_eq!(l.rebuild_mode(), Some(Mode::Boids));
}

#[test]
fn set_count_reports_changes_only() {
    let mut l = Layout::new(100);
    assert!(!l.set_count(100));
    assert!(l.set_count(50_000));
    assert_eq!(l.particle_count_per_side(), 10_000);
    assert!(!l.set_count(20_000));
    assert!(l.set_count(3));
    assert_eq!(l.particle_count_per_side(), 3);
}

#[test]
fn param_names() {
    assert_eq!(Param::from_name("perception"), Some(Param::Perception));
    assert_eq!(Param::from_name("separation_radius"), Some(Param::SeparationRadius));
    assert_eq!(Param::from_name("w_sep"), Some(Param::WSep));
    assert_eq!(Param::from_name("w_ali"), Some(Param::WAli));
    assert_eq!(Param::from_name("w_coh"), Some(Param::WCoh));
    assert_eq!(Param::from_name("max_speed"), Some(Param::MaxSpeed));
    assert_eq!(Param::from_name("max_force"), Some(Param::MaxForce));
    assert_eq!(Param::from_name("damping"), Some(Param::Damping));
    assert_eq!(Param::from_name("restitution"), Some(Param::Restitution));
    assert_eq!(Param::from_name("gravity"), None);
    assert_eq!(Param::from_name("w_se"), None);
    assert_eq!(Param::from_name(""), None);
    assert_eq!(Param::from_name("Damping"), None);
}

use quadtree_collision::quadtree::{sole_quadrant, Entry, QuadTree, Region};

/// Axis-aligned box, half-open on its max edges, for exercising the tree.
#[derive(Copy, Clone, Debug, PartialEq)]
struct Rect {
    x: f32,
    y: f32,
    w: f32,
    h: f32,
}

impl Rect {
    fn new(x: f32, y: f32, w: f32, h: f32) -> Self {
        Rect { x, y, w, h }
    }

    fn from_center_half(cx: f32, cy: f32, hw: f32, hh: f32) -> Self {
        Rect { x: cx - hw, y: cy - hh, w: hw * 2.0, h: hh * 2.0 }
    }
}

impl Region for Rect {
    fn intersects(&self, other: &Rect) -> bool {
        self.x < other.x + other.w
            && self.x + self.w > other.x
            && self.y < other.y + other.h
            && self.y + self.h > other.y
    }

    fn quadrants(&self) -> [Rect; 4] {
        let hw = self.w * 0.5;
        let hh = self.h * 0.5;
        let cx = self.x + hw;
        let cy = self.y + hh;
        [
            Rect::new(self.x, self.y, hw, hh),
            Rect::new(cx, self.y, hw, hh),
            Rect::new(self.x, cy, hw, hh),
            Rect::new(cx, cy, hw, hh),
        ]
    }

    fn encloses(&self, other: &Rect) -> bool {
        other.x >= self.x
            && other.x + other.w <= self.x + self.w
            && other.y >= self.y
            && other.y + other.h <= self.y + self.h
    }
}

fn approx_eq(a: f32, b: f32) -> bool {
    (a - b).abs() < 1e-5
}

fn collect_all(qt: &QuadTree<Rect>, range: Rect) -> Vec<u32> {
    let mut out = Vec::new();
    let mut scratch = Vec::new();
    qt.query_range(&range, &mut scratch, |i| out.push(i));
    out
}

/// Deterministic generator used by the stress tests.
fn lcg_next(state: &mut u32) -> f32 {
    *state = state.wrapping_mul(1664525).wrapping_add(1013904223);
    (*state as f32) / (u32::MAX as f32)
}

#[test]
fn insert_rejects_out_of_bounds() {
    let mut qt = QuadTree::new(Rect::new(0.0, 0.0, 100.0, 100.0));
    let ok = qt.insert(Entry {
        idx: 1,
        aabb: Rect::from_center_half(200.0, 200.0, 1.0, 1.0),
    });
    assert!(!ok);
    assert_eq!(qt.total_entries(), 0);
}

#[test]
fn insert_stores_in_bounds() {
    let mut qt = QuadTree::new(Rect::new(0.0, 0.0, 100.0, 100.0));
    assert!(qt.insert(Entry {
        idx: 42,
        aabb: Rect::from_center_half(10.0, 10.0, 1.0, 1.0),
    }));
    assert_eq!(qt.total_entries(), 1);
}

#[test]
fn subdivision_caps_at_max_depth() {
    let mut qt = QuadTree::with_params(Rect::new(0.0, 0.0, 100.0, 100.0), 2, 2);
    for i in 0..50u32 {
        qt.insert(Entry {
            idx: i,
            aabb: Rect::from_center_half((i as f32) * 0.1, 0.0, 0.1, 0.1),
        });
    }
    assert_eq!(qt.total_entries(), 50);
}

#[test]
fn query_finds_overlapping_entries() {
    let mut qt = QuadTree::new(Rect::new(0.0, 0.0, 100.0, 100.0));
    for i in 0..5u32 {
        qt.insert(Entry {
            idx: i,
            aabb: Rect::from_center_half(10.0 + i as f32, 10.0, 1.0, 1.0),
        });
    }
    let hits = collect_all(&qt, Rect::new(8.0, 8.0, 10.0, 5.0));
    assert_eq!(hits.len(), 5);
}

#[test]
fn query_excludes_distant_entries() {
    let mut qt = QuadTree::new(Rect::new(0.0, 0.0, 100.0, 100.0));
    qt.insert(Entry {
        idx: 1,
        aabb: Rect::from_center_half(10.0, 10.0, 1.0, 1.0),
    });
    qt.insert(Entry {
        idx: 2,
        aabb: Rect::from_center_half(90.0, 90.0, 1.0, 1.0),
    });
    let hits = collect_all(&qt, Rect::new(0.0, 0.0, 20.0, 20.0));
    assert_eq!(hits, vec![1]);
}

#[test]
fn query_covering_whole_world_returns_all() {
    let mut qt = QuadTree::new(Rect::new(0.0, 0.0, 100.0, 100.0));
    for i in 0..20u32 {
        qt.insert(Entry {
            idx: i,
            aabb: Rect::from_center_half((i as f32) * 4.0, 50.0, 1.0, 1.0),
        });
    }
    let hits = collect_all(&qt, Rect::new(-1.0, -1.0, 102.0, 102.0));
    assert_eq!(hits.len(), 20);
}

#[test]
fn clear_empties_tree_but_keeps_capacity() {
    let mut qt = QuadTree::new(Rect::new(0.0, 0.0, 100.0, 100.0));
    for i in 0..100u32 {
        qt.insert(Entry {
            idx: i,
            aabb: Rect::from_center_half((i as f32) % 100.0, 0.0, 0.5, 0.5),
        });
    }
    assert!(qt.total_entries() > 0);
    qt.clear();
    assert_eq!(qt.total_entries(), 0);
    assert!(qt.insert(Entry {
        idx: 999,
        aabb: Rect::from_center_half(50.0, 50.0, 1.0, 1.0),
    }));
    assert_eq!(qt.total_entries(), 1);
}

#[test]
fn collect_node_bounds_visits_every_internal_node() {
    let mut qt = QuadTree::new(Rect::new(0.0, 0.0, 100.0, 100.0));
    for i in 0..50u32 {
        qt.insert(Entry {
            idx: i,
            aabb: Rect::from_center_half((i as f32) * 1.5, 50.0, 0.5, 0.5),
        });
    }
    let mut nodes = Vec::new();
    qt.collect_node_bounds(&mut nodes);
    let mut out: Vec<f32> = Vec::new();
    for (b, d) in &nodes {
        out.push(b.x);
        out.push(b.y);
        out.push(b.w);
        out.push(b.h);
        out.push(*d as f32);
    }
    assert_eq!(out.len() % 5, 0);
    assert!(approx_eq(out[4], 0.0));
}

#[test]
fn stress_neighbour_query_matches_brute_force() {
    let mut state: u32 = 0x1234_5678;
    let n = 1000;
    let mut pts: Vec<(f32, f32)> = Vec::with_capacity(n);
    for _ in 0..n {
        let x = lcg_next(&mut state) * 1000.0;
        let y = lcg_next(&mut state) * 1000.0;
        pts.push((x, y));
    }
    let mut qt = QuadTree::new(Rect::new(0.0, 0.0, 1000.0, 1000.0));
    for (i, p) in pts.iter().enumerate() {
        qt.insert(Entry {
            idx: i as u32,
            aabb: Rect::from_center_half(p.0, p.1, 0.5, 0.5),
        });
    }
    assert_eq!(qt.total_entries(), n);

    let radius = 10.0;
    let mut scratch = Vec::new();
    for &idx in &[0u32, 100, 500, 999] {
        let p = pts[idx as usize];
        scratch.clear();
        qt.collect(&Rect::from_center_half(p.0, p.1, radius, radius), &mut scratch);
        let mut bf = Vec::new();
        for (j, q) in pts.iter().enumerate() {
            if j as u32 == idx {
                continue;
            }
            let dx = p.0 - q.0;
            let dy = p.1 - q.1;
            if dx * dx + dy * dy <= radius * radius {
                bf.push(j as u32);
            }
        }
        let mut qts: Vec<u32> = scratch.iter().copied().filter(|&i| i != idx).collect();
        qts.sort();
        let mut bfs = bf.clone();
        bfs.sort();
        assert_eq!(qts, bfs, "mismatch for point {}: QT={:?}, BF={:?}", idx, qts, bfs);
    }
}

#[test]
fn stress_50k_random_points_matches_brute_force() {
    let mut state: u32 = 0x1234_5678;
    let mut pts: Vec<(f32, f32)> = Vec::with_capacity(50_000);
    for _ in 0..50_000 {
        let x = lcg_next(&mut state) * 1000.0;
        let y = lcg_next(&mut state) * 1000.0;
        pts.push((x, y));
    }
    let mut qt = QuadTree::new(Rect::new(0.0, 0.0, 1000.0, 1000.0));
    for (i, p) in pts.iter().enumerate() {
        qt.insert(Entry {
            idx: i as u32,
            aabb: Rect::from_center_half(p.0, p.1, 0.5, 0.5),
        });
    }
    assert_eq!(qt.total_entries(), 50_000);

    let half = 10.0;
    let mut qt_total = 0u64;
    let mut bf_total = 0u64;
    let mut scratch = Vec::new();
    for (i, p) in pts.iter().enumerate() {
        let query = Rect::from_center_half(p.0, p.1, half, half);
        let mut qt_seen = std::collections::HashSet::new();
        qt.collect(&query, &mut scratch);
        for &idx in &scratch {
            qt_seen.insert(idx);
        }
        qt_seen.remove(&(i as u32));
        qt_total += qt_seen.len() as u64;

        for (j, q) in pts.iter().enumerate() {
            if i == j {
                continue;
            }
            let aabb = Rect::from_center_half(q.0, q.1, 0.5, 0.5);
            if aabb.intersects(&query) {
                bf_total += 1;
            }
        }
    }
    assert_eq!(
        qt_total, bf_total,
        "QT AABB-intersection counts must match brute force (QT={}, BF={})",
        qt_total, bf_total
    );
}

// ---- further scenarios ----

#[test]
fn new_tree_is_empty_leaf() {
    let qt = QuadTree::new(Rect::new(0.0, 0.0, 10.0, 10.0));
    assert!(qt.is_empty());
    assert_eq!(qt.len(), 0);
    assert_eq!(qt.total_entries(), 0);
    assert_eq!(qt.bounds(), Rect::new(0.0, 0.0, 10.0, 10.0));
}

#[test]
fn zero_capacity_is_raised_to_one() {
    // Capacity 0 behaves as 1: the second entry already splits the root.
    let mut qt = QuadTree::with_params(Rect::new(0.0, 0.0, 100.0, 100.0), 0, 4);
    assert!(qt.insert(Entry { idx: 0, aabb: Rect::from_center_half(10.0, 10.0, 1.0, 1.0) }));
    assert_eq!(qt.len(), 1);
    assert!(qt.insert(Entry { idx: 1, aabb: Rect::from_center_half(90.0, 90.0, 1.0, 1.0) }));
    assert_eq!(qt.len(), 0);
    assert!(!qt.is_empty());
    assert_eq!(qt.total_entries(), 2);
}

#[test]
fn straddling_entry_stays_at_parent() {
    let mut qt = QuadTree::with_params(Rect::new(0.0, 0.0, 100.0, 100.0), 1, 4);
    qt.insert(Entry { idx: 0, aabb: Rect::from_center_half(10.0, 10.0, 1.0, 1.0) });
    qt.insert(Entry { idx: 1, aabb: Rect::from_center_half(90.0, 90.0, 1.0, 1.0) });
    // Centred on the split point: touches all four quadrants.
    qt.insert(Entry { idx: 2, aabb: Rect::from_center_half(50.0, 50.0, 1.0, 1.0) });
    assert_eq!(qt.len(), 1);
    assert_eq!(qt.total_entries(), 3);
    let hits = collect_all(&qt, Rect::new(49.0, 49.0, 2.0, 2.0));
    assert_eq!(hits, vec![2]);
}

#[test]
fn max_depth_zero_never_subdivides() {
    let mut qt = QuadTree::with_params(Rect::new(0.0, 0.0, 100.0, 100.0), 1, 0);
    for i in 0..10u32 {
        assert!(qt.insert(Entry { idx: i, aabb: Rect::from_center_half(5.0, 5.0, 1.0, 1.0) }));
    }
    assert_eq!(qt.len(), 10);
    let mut nodes = Vec::new();
    qt.collect_node_bounds(&mut nodes);
    assert_eq!(nodes.len(), 1);
}

#[test]
fn node_depths_never_exceed_max_depth() {
    let mut qt = QuadTree::with_params(Rect::new(0.0, 0.0, 100.0, 100.0), 1, 3);
    for i in 0..40u32 {
        qt.insert(Entry { idx: i, aabb: Rect::from_center_half(1.0 + i as f32 * 0.01, 1.0, 0.001, 0.001) });
    }
    assert_eq!(qt.total_entries(), 40);
    let mut nodes = Vec::new();
    qt.collect_node_bounds(&mut nodes);
    assert_eq!(nodes[0], (Rect::new(0.0, 0.0, 100.0, 100.0), 0));
    assert!(nodes.iter().all(|&(_, d)| d <= 3));
    assert!(nodes.iter().any(|&(_, d)| d == 3));
}

#[test]
fn clear_keeps_nodes() {
    let mut qt = QuadTree::with_params(Rect::new(0.0, 0.0, 100.0, 100.0), 1, 3);
    for i in 0..10u32 {
        qt.insert(Entry { idx: i, aabb: Rect::from_center_half(i as f32 * 9.0 + 1.0, 3.0, 0.5, 0.5) });
    }
    let mut before = Vec::new();
    qt.collect_node_bounds(&mut before);
    assert!(before.len() > 1);
    qt.clear();
    let mut after = Vec::new();
    qt.collect_node_bounds(&mut after);
    assert_eq!(before, after);
    assert_eq!(qt.total_entries(), 0);
    assert_eq!(collect_all(&qt, Rect::new(-1.0, -1.0, 102.0, 102.0)), Vec::<u32>::new());
}

#[test]
fn collect_clears_output_first() {
    let mut qt = QuadTree::new(Rect::new(0.0, 0.0, 100.0, 100.0));
    qt.insert(Entry { idx: 7, aabb: Rect::from_center_half(10.0, 10.0, 1.0, 1.0) });
    let mut out = vec![1, 2, 3];
    qt.collect(&Rect::new(0.0, 0.0, 20.0, 20.0), &mut out);
    assert_eq!(out, vec![7]);
    qt.collect(&Rect::new(50.0, 50.0, 20.0, 20.0), &mut out);
    assert!(out.is_empty());
}

#[test]
fn sole_quadrant_routes_single_hits_only() {
    assert_eq!(sole_quadrant([false, false, true, false]), Some(2));
    assert_eq!(sole_quadrant([true, false, false, false]), Some(0));
    assert_eq!(sole_quadrant([false, false, false, true]), Some(3));
    assert_eq!(sole_quadrant([true, true, false, false]), None);
    assert_eq!(sole_quadrant([false, false, false, false]), None);
    assert_eq!(sole_quadrant([true, true, true, true]), None);
}

#[test]
fn insert_indexed_loads_each_region_under_its_index() {
    let mut qt = QuadTree::new(Rect::new(0.0, 0.0, 100.0, 100.0));
    let regions = vec![
        Rect::from_center_half(10.0, 10.0, 1.0, 1.0),
        Rect::from_center_half(300.0, 300.0, 1.0, 1.0), // outside the world
        Rect::from_center_half(60.0, 70.0, 1.0, 1.0),
    ];
    qt.insert_indexed(&regions);
    assert_eq!(qt.total_entries(), 2);
    let mut all = Vec::new();
    qt.collect(&Rect::new(-10.0, -10.0, 400.0, 400.0), &mut all);
    all.sort();
    assert_eq!(all, vec![0, 2]);
    let mut near = Vec::new();
    qt.collect(&Rect::new(55.0, 65.0, 10.0, 10.0), &mut near);
    assert_eq!(near, vec![2]);
}

#[test]
fn reload_after_clear_matches_fresh_load() {
    let regions: Vec<Rect> = (0..200)
        .map(|i| Rect::from_center_half((i * 37 % 100) as f32, (i * 61 % 100) as f32, 0.5, 0.5))
        .collect();
    let mut reused = QuadTree::with_params(Rect::new(0.0, 0.0, 100.0, 100.0), 4, 6);
    reused.insert_indexed(&regions);
    reused.clear();
    reused.insert_indexed(&regions);
    let mut fresh = QuadTree::with_params(Rect::new(0.0, 0.0, 100.0, 100.0), 4, 6);
    fresh.insert_indexed(&regions);
    assert_eq!(reused.total_entries(), fresh.total_entries());
    let range = Rect::new(20.0, 20.0, 30.0, 30.0);
    let mut a = Vec::new();
    let mut b = Vec::new();
    reused.collect(&range, &mut a);
    fresh.collect(&range, &mut b);
    a.sort();
    b.sort();
    assert_eq!(a, b);
}

#[test]
fn query_range_visits_each_match_in_scratch_order() {
    let mut qt = QuadTree::with_params(Rect::new(0.0, 0.0, 100.0, 100.0), 2, 4);
    for i in 0..30u32 {
        qt.insert(Entry { idx: i, aabb: Rect::from_center_half((i * 3) as f32 + 1.0, 50.0, 0.5, 0.5) });
    }
    let mut seen = Vec::new();
    let mut scratch = vec![77, 88];
    qt.query_range(&Rect::new(10.0, 40.0, 30.0, 20.0), &mut scratch, |i| seen.push(i));
    assert_eq!(seen, scratch);
    let mut sorted = seen.clone();
    sorted.sort();
    assert_eq!(sorted, (3..=13).collect::<Vec<u32>>());
}

#[test]
fn query_finds_entry_reaching_outside_the_world() {
    let mut qt = QuadTree::new(Rect::new(0.0, 0.0, 100.0, 100.0));
    assert!(qt.insert(Entry { idx: 5, aabb: Rect::new(-5.0, -5.0, 10.0, 10.0) }));
    let hits = collect_all(&qt, Rect::new(-8.0, -8.0, 4.0, 4.0));
    assert_eq!(hits, vec![5]);
    let none = collect_all(&qt, Rect::new(-80.0, -80.0, 4.0, 4.0));
    assert!(none.is_empty());
}

#[test]
fn query_finds_deep_entry_reaching_outside_the_world() {
    let mut qt = QuadTree::with_params(Rect::new(0.0, 0.0, 100.0, 100.0), 1, 4);
    for i in 0..8u32 {
        qt.insert(Entry { idx: i, aabb: Rect::from_center_half(10.0 + i as f32, 10.0, 0.2, 0.2) });
    }
    // Sticks out past the left edge; lies in the NW quadrant only.
    assert!(qt.insert(Entry { idx: 100, aabb: Rect::new(-3.0, 20.0, 4.0, 1.0) }));
    let hits = collect_all(&qt, Rect::new(-2.5, 19.0, 1.0, 3.0));
    assert_eq!(hits, vec![100]);
}

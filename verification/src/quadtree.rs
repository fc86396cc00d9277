//! A per-frame-rebuilt quadtree spatial index.
//!
//! Every frame the caller empties the tree with [`QuadTree::clear`] and
//! re-inserts all live particles. A node holds up to `capacity` entries
//! before it subdivides, and never subdivides past `max_depth`, so degenerate
//! clusters (many particles stacked on one point) cannot deepen the tree
//! without bound.
//!
//! The tree is generic over its region type: the geometry (overlap tests and
//! the split of a region into quadrants) comes from the [`Region`] trait, and
//! everything the tree itself decides is proved here for every behaviour of
//! that geometry.
use vstd::prelude::*;
use vstd::multiset::Multiset;

verus! {

broadcast use {
    vstd::multiset::group_multiset_axioms,
    vstd::multiset::group_multiset_properties,
    vstd::seq_lib::group_to_multiset_ensures,
};

/// The geometry a spatial index needs from the regions it stores.
pub trait Region: Copy {
    /// Whether the two regions overlap.
    fn intersects(&self, other: &Self) -> bool;

    /// The four quadrants `[NW, NE, SW, SE]` that partition this region.
    fn quadrants(&self) -> [Self; 4];

    /// Whether `other` lies wholly within this region.
    fn encloses(&self, other: &Self) -> bool;
}

/// An entry stored in the tree: a stable particle index plus its bounding region.
#[derive(Copy, Clone, Debug)]
pub struct Entry<R> {
    pub idx: u32,
    pub aabb: R,
}

/// The particle indices of a sequence of entries, in order.
pub open spec fn indices_of<R>(s: Seq<Entry<R>>) -> Seq<u32> {
    s.map_values(|e: Entry<R>| e.idx)
}

/// Whether the region type's overlap test has answered `true` for `a`
/// against `b`: `a.intersects(&b)` returned `true` on some call.
pub open spec fn overlap<R: Region>(a: R, b: R) -> bool {
    call_ensures(R::intersects, (&a, &b), true)
}

/// The region type's overlap test is a function of its two arguments: it
/// never answers both `true` and `false` for the same pair.
pub open spec fn overlap_is_deterministic<R: Region>() -> bool {
    forall|a: R, b: R, r: bool|
        #[trigger] call_ensures(R::intersects, (&a, &b), r) ==> r == overlap(a, b)
}

/// Whether the region type's enclosure test has answered `true` for `b`
/// around `e`: `b.encloses(&e)` returned `true` on some call.
pub open spec fn enclosed<R: Region>(b: R, e: R) -> bool {
    call_ensures(R::encloses, (&b, &e), true)
}

/// The geometry behaves as regions do: a region found to lie within `b`
/// overlaps nothing that `b` misses.
pub open spec fn enclosure_respects_overlap<R: Region>() -> bool {
    forall|b: R, e: R, r: R|
        #![trigger enclosed(b, e), overlap(e, r)]
        enclosed(b, e) && !overlap(b, r) ==> !overlap(e, r)
}

/// `h` holds the overlap test's answers for `aabb` against each of the four
/// quadrant regions `q`, in order.
pub open spec fn quadrant_hits<R: Region>(q: Seq<R>, aabb: R, h: Seq<bool>) -> bool {
    &&& q.len() == 4
    &&& h.len() == 4
    &&& call_ensures(R::intersects, (&q[0], &aabb), h[0])
    &&& call_ensures(R::intersects, (&q[1], &aabb), h[1])
    &&& call_ensures(R::intersects, (&q[2], &aabb), h[2])
    &&& call_ensures(R::intersects, (&q[3], &aabb), h[3])
}

/// `aabb` was routed to quadrant `i` of `q`: it was found to hit quadrant
/// `i` and no other.
pub open spec fn routed_to<R: Region>(q: Seq<R>, aabb: R, i: int) -> bool {
    exists|h: Seq<bool>| #[trigger] quadrant_hits(q, aabb, h) && hit_count(h) == 1 && h[i]
}

/// `aabb` was kept at the node split into `q`: it was found to hit none of
/// the quadrants, or two or more.
pub open spec fn kept_at_node<R: Region>(q: Seq<R>, aabb: R) -> bool {
    exists|h: Seq<bool>| #[trigger] quadrant_hits(q, aabb, h) && hit_count(h) != 1
}

/// The predicate "the entry's region has been found to overlap `range`".
pub open spec fn overlapping<R: Region>(range: R) -> spec_fn(Entry<R>) -> bool {
    |e: Entry<R>| overlap(e.aabb, range)
}

/// The predicate "`bounds` has been found to overlap the entry's region":
/// what a tree over `bounds` admits.
pub open spec fn admitted_by<R: Region>(bounds: R) -> spec_fn(Entry<R>) -> bool {
    |e: Entry<R>| overlap(bounds, e.aabb)
}

/// Every entry in the sequence has been found to overlap `range`.
pub open spec fn all_overlap<R: Region>(s: Seq<Entry<R>>, range: R) -> bool {
    forall|k: int| 0 <= k < s.len() ==> overlap(#[trigger] s[k].aabb, range)
}

/// The entries that index a sequence of regions: the `i`-th holds particle
/// index `i` and the `i`-th region.
pub open spec fn indexed_entries<R>(regions: Seq<R>) -> Seq<Entry<R>> {
    Seq::new(regions.len(), |i: int| Entry { idx: i as u32, aabb: regions[i] })
}

/// How many entries a node holds before it subdivides, unless told otherwise.
pub const DEFAULT_CAPACITY: usize = 8;

/// How deep the tree may subdivide, unless told otherwise.
pub const DEFAULT_MAX_DEPTH: usize = 8;

/// Dynamic quadtree holding particle indices keyed by their bounding regions.
pub struct QuadTree<R> {
    bounds: R,
    capacity: usize,
    max_depth: usize,
    depth: usize,
    entries: Vec<Entry<R>>,
    children: Option<Box<Quads<R>>>,
    /// Set when an entry stored in this subtree was not found to lie within
    /// the node's region; such a subtree is searched even by queries that
    /// miss its region, so entries reaching out of the world are still found.
    overhang: bool,
}

/// The four children of a subdivided node, one per quadrant.
struct Quads<R> {
    nw: QuadTree<R>,
    ne: QuadTree<R>,
    sw: QuadTree<R>,
    se: QuadTree<R>,
}

impl<R: Region> QuadTree<R> {
    /// Every entry stored in this node and its descendants.
    pub closed spec fn stored(self) -> Multiset<Entry<R>>
        decreases self,
    {
        let own = self.entries@.to_multiset();
        match self.children {
            None => own,
            Some(c) => own.add(c.nw.stored()).add(c.ne.stored()).add(c.sw.stored()).add(
                c.se.stored(),
            ),
        }
    }

    /// The region this node covers.
    pub closed spec fn spec_bounds(self) -> R {
        self.bounds
    }

    /// How many entries a leaf holds before it subdivides (at least one).
    pub closed spec fn spec_capacity(self) -> nat {
        self.capacity as nat
    }

    /// The depth past which the tree never subdivides.
    pub closed spec fn spec_max_depth(self) -> nat {
        self.max_depth as nat
    }

    /// The depth of this node; the root of a new tree is at depth 0.
    pub closed spec fn spec_depth(self) -> nat {
        self.depth as nat
    }

    /// The entries held directly at this node, not in its children.
    pub closed spec fn own_entries(self) -> Seq<Entry<R>> {
        self.entries@
    }

    /// Whether this node has never been subdivided.
    pub closed spec fn is_leaf(self) -> bool {
        self.children is None
    }

    /// Bounds and depth of every node, in pre-order: a node, then its
    /// NW, NE, SW and SE subtrees.
    pub closed spec fn nodes(self) -> Seq<(R, usize)>
        decreases self,
    {
        let here = seq![(self.bounds, self.depth)];
        match self.children {
            None => here,
            Some(c) => here + c.nw.nodes() + c.ne.nodes() + c.sw.nodes() + c.se.nodes(),
        }
    }

    /// The children's regions are, in order, the quadrants that the region
    /// type gave for this node's region.
    closed spec fn split_into(bounds: R, c: Quads<R>) -> bool {
        exists|q: [R; 4]|
            #[trigger] call_ensures(R::quadrants, (&bounds,), q) && q@ == seq![
                c.nw.bounds,
                c.ne.bounds,
                c.sw.bounds,
                c.se.bounds,
            ]
    }

    /// Re-hanging children with the same regions keeps the split.
    proof fn lemma_split_kept(bounds: R, before: Quads<R>, after: Quads<R>)
        requires
            Self::split_into(bounds, before),
            after.nw.bounds == before.nw.bounds,
            after.ne.bounds == before.ne.bounds,
            after.sw.bounds == before.sw.bounds,
            after.se.bounds == before.se.bounds,
        ensures
            Self::split_into(bounds, after),
    {
        let q = choose|q: [R; 4]|
            #[trigger] call_ensures(R::quadrants, (&bounds,), q) && q@ == seq![
                before.nw.bounds,
                before.ne.bounds,
                before.sw.bounds,
                before.se.bounds,
            ];
        assert(q@ == seq![after.nw.bounds, after.ne.bounds, after.sw.bounds, after.se.bounds]);
    }

    /// The regions of the four children of a subdivided node, in the order
    /// NW, NE, SW, SE.
    pub open spec fn child_regions(self) -> Seq<R> {
        seq![
            self.child(0).spec_bounds(),
            self.child(1).spec_bounds(),
            self.child(2).spec_bounds(),
            self.child(3).spec_bounds(),
        ]
    }

    /// The `i`-th child of a subdivided node, in the order NW, NE, SW, SE
    /// (meaningless for a leaf or an `i` outside `0..4`).
    pub closed spec fn child(self, i: int) -> QuadTree<R> {
        match self.children {
            Some(c) => if i == 0 {
                c.nw
            } else if i == 1 {
                c.ne
            } else if i == 2 {
                c.sw
            } else {
                c.se
            },
            None => self,
        }
    }

    /// The regions of the four children, in the order NW, NE, SW, SE.
    closed spec fn quads_of(c: Quads<R>) -> Seq<R> {
        seq![c.nw.bounds, c.ne.bounds, c.sw.bounds, c.se.bounds]
    }

    /// Where a subdivided node keeps its entries: its own entries each hit
    /// none or several of the child regions, and every entry in a child's
    /// subtree hit that child's region and no other.
    closed spec fn placed(self, c: Quads<R>) -> bool {
        let q = Self::quads_of(c);
        &&& forall|e: Entry<R>|
            #[trigger] self.entries@.to_multiset().count(e) > 0 ==> kept_at_node(q, e.aabb)
        &&& forall|e: Entry<R>| #[trigger] c.nw.stored().count(e) > 0 ==> routed_to(q, e.aabb, 0)
        &&& forall|e: Entry<R>| #[trigger] c.ne.stored().count(e) > 0 ==> routed_to(q, e.aabb, 1)
        &&& forall|e: Entry<R>| #[trigger] c.sw.stored().count(e) > 0 ==> routed_to(q, e.aabb, 2)
        &&& forall|e: Entry<R>| #[trigger] c.se.stored().count(e) > 0 ==> routed_to(q, e.aabb, 3)
    }

    /// A child hangs correctly under this node.
    closed spec fn child_fits(self, child: QuadTree<R>) -> bool {
        &&& child.depth == self.depth + 1
        &&& child.capacity == self.capacity
        &&& child.max_depth == self.max_depth
    }

    /// Structural invariant: a positive capacity, depths bounded by
    /// `max_depth` and growing by one per level, a stored count that fits in
    /// a `usize`, and every entry in a subtree found to overlap the region of
    /// the subtree's root.
    pub closed spec fn wf(self) -> bool
        decreases self,
    {
        &&& 1 <= self.capacity
        &&& self.depth <= self.max_depth
        &&& (self.children is None && self.depth < self.max_depth ==> self.entries@.len()
            <= self.capacity)
        &&& self.stored().len() <= usize::MAX
        &&& forall|e: Entry<R>| #[trigger] self.stored().count(e) > 0 ==> overlap(self.bounds, e.aabb)
        &&& !self.overhang ==> forall|e: Entry<R>|
            #[trigger] self.stored().count(e) > 0 ==> enclosed(self.bounds, e.aabb)
        &&& match self.children {
            None => true,
            Some(c) => {
                &&& self.depth < self.max_depth
                &&& Self::split_into(self.bounds, *c)
                &&& self.placed(*c)
                &&& self.child_fits(c.nw)
                &&& self.child_fits(c.ne)
                &&& self.child_fits(c.sw)
                &&& self.child_fits(c.se)
                &&& c.nw.wf()
                &&& c.ne.wf()
                &&& c.sw.wf()
                &&& c.se.wf()
            },
        }
    }

    /// Creates a tree over the given world bounds with the default capacity
    /// (8) and max depth (8).
    pub fn new(bounds: R) -> (t: Self)
        ensures
            t.wf(),
            t@ == Multiset::<Entry<R>>::empty(),
            t.spec_bounds() == bounds,
            t.spec_capacity() == DEFAULT_CAPACITY,
            t.spec_max_depth() == DEFAULT_MAX_DEPTH,
            t.spec_depth() == 0,
            t.is_leaf(),
            t.own_entries().len() == 0,
            t.nodes() == seq![(bounds, 0usize)],
    {
        Self::with_params(bounds, DEFAULT_CAPACITY, DEFAULT_MAX_DEPTH)
    }

    /// Creates a tree with a custom capacity (raised to at least one) and
    /// max depth.
    pub fn with_params(bounds: R, capacity: usize, max_depth: usize) -> (t: Self)
        ensures
            t.wf(),
            t@ == Multiset::<Entry<R>>::empty(),
            t.spec_bounds() == bounds,
            t.spec_capacity() == (if capacity >= 1 { capacity as nat } else { 1nat }),
            t.spec_max_depth() == max_depth,
            t.spec_depth() == 0,
            t.is_leaf(),
            t.own_entries().len() == 0,
            t.nodes() == seq![(bounds, 0usize)],
    {
        let t = QuadTree {
            bounds,
            capacity: if capacity >= 1 {
                capacity
            } else {
                1
            },
            max_depth,
            depth: 0,
            entries: Vec::with_capacity(capacity),
            children: None,
            overhang: false,
        };
        assert(t.entries@ =~= Seq::<Entry<R>>::empty());
        t
    }

    /// World bounds the tree covers.
    pub fn bounds(&self) -> (b: R)
        ensures
            b == self.spec_bounds(),
    {
        self.bounds
    }

    /// Number of entries held directly at this node (not in its children).
    pub fn len(&self) -> (n: usize)
        ensures
            n == self.own_entries().len(),
    {
        self.entries.len()
    }

    /// Whether this node holds no entries and has no children.
    pub fn is_empty(&self) -> (b: bool)
        ensures
            b == (self.own_entries().len() == 0 && self.is_leaf()),
    {
        self.entries.len() == 0 && self.children.is_none()
    }

    /// Empties the tree, keeping every node (and its allocation) so the next
    /// frame can reuse it.
    pub fn clear(&mut self)
        requires
            old(self).wf(),
        ensures
            final(self).wf(),
            final(self)@ == Multiset::<Entry<R>>::empty(),
            final(self).nodes() == old(self).nodes(),
            final(self).spec_bounds() == old(self).spec_bounds(),
            final(self).spec_capacity() == old(self).spec_capacity(),
            final(self).spec_max_depth() == old(self).spec_max_depth(),
            final(self).spec_depth() == old(self).spec_depth(),
            final(self).is_leaf() == old(self).is_leaf(),
        decreases *old(self),
    {
        self.entries.clear();
        self.overhang = false;
        let kids = self.children.take();
        match kids {
            None => {},
            Some(mut c) => {
                let ghost before = *c;
                c.nw.clear();
                c.ne.clear();
                c.sw.clear();
                c.se.clear();
                proof {
                    Self::lemma_split_kept(self.bounds, before, *c);
                }
                self.children = Some(c);
            },
        }
        assert(self.entries@ =~= Seq::<Entry<R>>::empty());
        assert(self.stored() =~= Multiset::<Entry<R>>::empty());
    }

    /// Inserts an entry. Returns `true` when the entry's region intersects
    /// the tree bounds, in which case the entry is stored (exactly once);
    /// otherwise the tree is left unchanged, so it never holds entries that
    /// lie outside the world.
    pub fn insert(&mut self, entry: Entry<R>) -> (stored: bool)
        requires
            old(self).wf(),
            old(self)@.len() < usize::MAX,
        ensures
            final(self).wf(),
            stored ==> final(self)@ == old(self)@.insert(entry),
            !stored ==> *final(self) == *old(self),
            (stored && old(self).is_leaf() && old(self).spec_depth() < old(self).spec_max_depth()
                && old(self).own_entries().len() == old(self).spec_capacity())
                ==> !final(self).is_leaf(),
            call_ensures(R::intersects, (&old(self).spec_bounds(), &entry.aabb), stored),
            final(self).spec_bounds() == old(self).spec_bounds(),
            final(self).spec_capacity() == old(self).spec_capacity(),
            final(self).spec_max_depth() == old(self).spec_max_depth(),
            final(self).spec_depth() == old(self).spec_depth(),
    {
        let overlaps = R::intersects;
        if !overlaps(&self.bounds, &entry.aabb) {
            return false;
        }
        self.place(entry);
        true
    }

    /// Inserts one entry per region, the `i`-th under particle index `i`:
    /// how a frame's particles are loaded into the tree. Regions outside the
    /// tree bounds are skipped; every other one is stored exactly once.
    pub fn insert_indexed(&mut self, regions: &Vec<R>)
        requires
            old(self).wf(),
            old(self)@.len() + regions@.len() < usize::MAX,
            regions@.len() <= u32::MAX as nat + 1,
        ensures
            final(self).wf(),
            exists|sel: Seq<Entry<R>>|
                {
                    &&& sel.to_multiset().subset_of(indexed_entries(regions@).to_multiset())
                    &&& final(self)@ == old(self)@.add(sel.to_multiset())
                    &&& forall|k: int|
                        0 <= k < sel.len() ==> overlap(old(self).spec_bounds(), #[trigger] sel[k].aabb)
                    &&& overlap_is_deterministic::<R>() ==> sel == indexed_entries(regions@).filter(
                        admitted_by(old(self).spec_bounds()),
                    )
                },
            final(self).spec_bounds() == old(self).spec_bounds(),
            final(self).spec_capacity() == old(self).spec_capacity(),
            final(self).spec_max_depth() == old(self).spec_max_depth(),
            final(self).spec_depth() == old(self).spec_depth(),
    {
        let n = regions.len();
        let ghost mut sel: Seq<Entry<R>> = Seq::empty();
        let mut i: usize = 0;
        assert(old(self)@.add(sel.to_multiset()) =~= old(self)@);
        proof {
            reveal_with_fuel(Seq::filter, 1);
            assert(indexed_entries(regions@).take(0) =~= Seq::<Entry<R>>::empty());
        }
        while i < n
            invariant
                n == regions@.len(),
                n <= u32::MAX as nat + 1,
                i <= n,
                self.wf(),
                old(self)@.len() + n < usize::MAX,
                sel.to_multiset().subset_of(indexed_entries(regions@).take(i as int).to_multiset()),
                sel.len() <= i,
                self@ == old(self)@.add(sel.to_multiset()),
                forall|k: int| 0 <= k < sel.len() ==> overlap(self.bounds, #[trigger] sel[k].aabb),
                overlap_is_deterministic::<R>() ==> sel == indexed_entries(regions@).take(
                    i as int,
                ).filter(admitted_by(self.bounds)),
                self.bounds == old(self).bounds,
                self.capacity == old(self).capacity,
                self.max_depth == old(self).max_depth,
                self.depth == old(self).depth,
            decreases n - i,
        {
            let e = Entry { idx: i as u32, aabb: regions[i] };
            assert(indexed_entries(regions@).take(i + 1) =~= indexed_entries(regions@).take(
                i as int,
            ).push(e));
            assert(indexed_entries(regions@).take(i + 1).drop_last() =~= indexed_entries(
                regions@,
            ).take(i as int));
            proof {
                reveal_with_fuel(Seq::filter, 1);
            }
            if self.insert(e) {
                proof {
                    assert(old(self)@.add(sel.push(e).to_multiset()) =~= old(self)@.add(
                        sel.to_multiset(),
                    ).insert(e));
                    sel = sel.push(e);
                }
            }
            i += 1;
        }
        assert(indexed_entries(regions@).take(n as int) =~= indexed_entries(regions@));
    }

    /// Stores an entry already known to lie in this node's region.
    ///
    /// In a subdivided node the entry goes to the one child whose region it
    /// intersects; an entry that straddles two or more quadrants (or none)
    /// stays at this node, so no entry is ever stored twice. A leaf keeps the
    /// entry while it has room or has reached `max_depth`; otherwise it
    /// subdivides and redistributes its entries and then the new one.
    ///
    /// The child regions tested are the quadrants the node was split into,
    /// kept in the children; an entry routed to a child is not tested against
    /// that child's region again, and entries redistributed after a split are
    /// not tested against this node's region again (each was found to overlap
    /// it on arrival).
    fn place(&mut self, entry: Entry<R>)
        requires
            old(self).wf(),
            old(self)@.len() < usize::MAX,
            overlap(old(self).bounds, entry.aabb),
        ensures
            final(self).wf(),
            final(self)@ == old(self)@.insert(entry),
            final(self).bounds == old(self).bounds,
            final(self).capacity == old(self).capacity,
            final(self).max_depth == old(self).max_depth,
            final(self).depth == old(self).depth,
            old(self).children is Some ==> final(self).children is Some,
        decreases old(self).max_depth - old(self).depth, (if old(self).children is Some {
            0int
        } else {
            1int
        }),
    {
        let encloses = R::encloses;
        if !encloses(&self.bounds, &entry.aabb) {
            self.overhang = true;
        }
        if self.children.is_some() {
            let mut c = self.children.take().unwrap();
            let ghost before = *c;
            let overlaps = R::intersects;
            let hits = [
                overlaps(&c.nw.bounds, &entry.aabb),
                overlaps(&c.ne.bounds, &entry.aabb),
                overlaps(&c.sw.bounds, &entry.aabb),
                overlaps(&c.se.bounds, &entry.aabb),
            ];
            assert(quadrant_hits(Self::quads_of(*c), entry.aabb, hits@));
            proof {
                lemma_child_le(
                    c.nw.stored(),
                    c.ne.stored(),
                    c.sw.stored(),
                    c.se.stored(),
                    self.entries@.to_multiset(),
                );
            }
            match sole_quadrant(hits) {
                Some(0) => c.nw.place(entry),
                Some(1) => c.ne.place(entry),
                Some(2) => c.sw.place(entry),
                Some(3) => c.se.place(entry),
                _ => self.entries.push(entry),
            }
            proof {
                Self::lemma_split_kept(self.bounds, before, *c);
            }
            self.children = Some(c);
            assert(self.stored() =~= old(self).stored().insert(entry));
            return;
        }
        if self.entries.len() < self.capacity || self.depth >= self.max_depth {
            self.entries.push(entry);
            assert(self.stored() =~= old(self).stored().insert(entry));
        } else {
            let mut existing: Vec<Entry<R>> = Vec::new();
            std::mem::swap(&mut existing, &mut self.entries);
            assert(self.entries@ =~= Seq::<Entry<R>>::empty());
            self.subdivide();
            let n = existing.len();
            assert(self.stored() =~= Multiset::<Entry<R>>::empty());
            assert(existing@.take(0) =~= Seq::<Entry<R>>::empty());
            assert forall|j: int| 0 <= j < n implies overlap(
                self.bounds,
                #[trigger] existing@[j].aabb,
            ) by {
                assert(existing@.contains(existing@[j]));
                assert(old(self).stored().count(existing@[j]) > 0);
            }
            let mut k: usize = 0;
            while k < n
                invariant
                    self.wf(),
                    self.children is Some,
                    old(self).children is None,
                    forall|j: int| 0 <= j < n ==> overlap(self.bounds, #[trigger] existing@[j].aabb),
                    overlap(self.bounds, entry.aabb),
                    k <= n,
                    n == existing.len(),
                    existing@.to_multiset() == old(self)@,
                    old(self)@.len() < usize::MAX,
                    self@ == existing@.take(k as int).to_multiset(),
                    self.bounds == old(self).bounds,
                    self.capacity == old(self).capacity,
                    self.max_depth == old(self).max_depth,
                    self.depth == old(self).depth,
                decreases n - k,
            {
                let e = existing[k];
                self.place(e);
                assert(existing@.take(k + 1) =~= existing@.take(k as int).push(e));
                k += 1;
            }
            assert(existing@.take(n as int) =~= existing@);
            self.place(entry);
        }
    }

    /// Total number of entries across this node and all its descendants.
    pub fn total_entries(&self) -> (n: usize)
        requires
            self.wf(),
        ensures
            n == self@.len(),
        decreases self,
    {
        let own = self.entries.len();
        match &self.children {
            None => own,
            Some(c) => {
                proof {
                    lemma_child_le(
                        c.nw.stored(),
                        c.ne.stored(),
                        c.sw.stored(),
                        c.se.stored(),
                        self.entries@.to_multiset(),
                    );
                }
                own + c.nw.total_entries() + c.ne.total_entries() + c.sw.total_entries()
                    + c.se.total_entries()
            },
        }
    }

    /// Visits every stored entry whose region intersects `range`: `visit` is
    /// called once per match, with its particle index, in the order the
    /// indices stand in `scratch`. `scratch` is cleared and refilled with the
    /// matching indices, so its allocation can be reused across frames.
    pub fn query_range<F: FnMut(u32)>(&self, range: &R, scratch: &mut Vec<u32>, visit: F)
        requires
            self.wf(),
            forall|i: u32| call_requires(visit, (i,)),
        ensures
            exists|sel: Seq<Entry<R>>|
                {
                    &&& sel.to_multiset().subset_of(self@)
                    &&& all_overlap(sel, *range)
                    &&& final(scratch)@ == indices_of(sel)
                    &&& (overlap_is_deterministic::<R>() && enclosure_respects_overlap::<R>())
                        ==> sel.to_multiset() == self@.filter(overlapping(*range))
                },
            forall|k: int|
                0 <= k < final(scratch)@.len() ==> call_ensures(
                    visit,
                    (#[trigger] final(scratch)@[k],),
                    (),
                ),
    {
        let mut v = visit;
        scratch.clear();
        self.collect(range, scratch);
        let n = scratch.len();
        let mut k: usize = 0;
        while k < n
            invariant
                n == scratch.len(),
                k <= n,
                v == visit,
                forall|i: u32| call_requires(visit, (i,)),
                forall|j: int| 0 <= j < k ==> call_ensures(visit, (#[trigger] scratch@[j],), ()),
            decreases n - k,
        {
            v(scratch[k]);
            k += 1;
        }
    }

    /// Writes into `out` (after clearing it) the particle indices of the
    /// stored entries whose regions intersect `range`. Subtrees whose region
    /// misses `range` are skipped, unless an entry stored in them reaches
    /// outside their region; each stored entry is reported at most
    /// once.
    pub fn collect(&self, range: &R, out: &mut Vec<u32>)
        requires
            self.wf(),
        ensures
            exists|sel: Seq<Entry<R>>|
                {
                    &&& sel.to_multiset().subset_of(self@)
                    &&& all_overlap(sel, *range)
                    &&& final(out)@ == indices_of(sel)
                    &&& (overlap_is_deterministic::<R>() && enclosure_respects_overlap::<R>())
                        ==> sel.to_multiset() == self@.filter(overlapping(*range))
                },
    {
        out.clear();
        let sel = self.collect_into(range, out);
        assert(out@ == indices_of(sel@));
    }

    /// Appends the indices of this subtree's matching entries to `out`: first
    /// the node's own entries in order, then the NW, NE, SW and SE subtrees.
    fn collect_into(&self, range: &R, out: &mut Vec<u32>) -> (sel: Ghost<Seq<Entry<R>>>)
        requires
            self.wf(),
        ensures
            sel@.to_multiset().subset_of(self@),
            all_overlap(sel@, *range),
            (overlap_is_deterministic::<R>() && enclosure_respects_overlap::<R>())
                ==> sel@.to_multiset() == self@.filter(overlapping(*range)),
            final(out)@ == old(out)@ + indices_of(sel@),
        decreases self,
    {
        let overlaps = R::intersects;
        if !overlaps(&self.bounds, range) && !self.overhang {
            proof {
                if overlap_is_deterministic::<R>() && enclosure_respects_overlap::<R>() {
                    assert(!overlap(self.bounds, *range));
                    assert forall|e: Entry<R>| #[trigger]
                        self@.filter(overlapping(*range)).count(e) == 0 by {
                        if self@.count(e) > 0 {
                            assert(enclosed(self.bounds, e.aabb));
                            assert(!overlap(e.aabb, *range));
                        }
                    }
                    assert(self@.filter(overlapping(*range)) =~= Seq::<
                        Entry<R>,
                    >::empty().to_multiset());
                }
            }
            assert(old(out)@ + indices_of(Seq::<Entry<R>>::empty()) =~= old(out)@);
            return Ghost(Seq::empty());
        }
        let ghost mut sel: Seq<Entry<R>> = Seq::empty();
        let n = self.entries.len();
        let mut i: usize = 0;
        assert(old(out)@ + indices_of(sel) =~= old(out)@);
        proof {
            reveal_with_fuel(Seq::filter, 1);
            assert(self.entries@.take(0) =~= Seq::<Entry<R>>::empty());
        }
        while i < n
            invariant
                n == self.entries.len(),
                i <= n,
                sel.to_multiset().subset_of(self.entries@.take(i as int).to_multiset()),
                all_overlap(sel, *range),
                overlap_is_deterministic::<R>() ==> sel == self.entries@.take(i as int).filter(
                    overlapping(*range),
                ),
                out@ == old(out)@ + indices_of(sel),
            decreases n - i,
        {
            let e = self.entries[i];
            assert(self.entries@.take(i + 1) =~= self.entries@.take(i as int).push(e));
            assert(self.entries@.take(i + 1).drop_last() =~= self.entries@.take(i as int));
            proof {
                reveal_with_fuel(Seq::filter, 1);
            }
            if overlaps(&e.aabb, range) {
                out.push(e.idx);
                proof {
                    assert(indices_of(sel.push(e)) =~= indices_of(sel).push(e.idx));
                    sel = sel.push(e);
                }
            }
            i += 1;
        }
        assert(self.entries@.take(n as int) =~= self.entries@);
        proof {
            lemma_filter_multiset(self.entries@, overlapping(*range));
        }
        match &self.children {
            None => {},
            Some(c) => {
                let s1 = c.nw.collect_into(range, out);
                let s2 = c.ne.collect_into(range, out);
                let s3 = c.sw.collect_into(range, out);
                let s4 = c.se.collect_into(range, out);
                proof {
                    lemma_indices_concat(sel, s1@);
                    lemma_indices_concat(sel + s1@, s2@);
                    lemma_indices_concat(sel + s1@ + s2@, s3@);
                    lemma_indices_concat(sel + s1@ + s2@ + s3@, s4@);
                    lemma_subset_concat(
                        sel,
                        s1@,
                        s2@,
                        s3@,
                        s4@,
                        self.entries@.to_multiset(),
                        c.nw.stored(),
                        c.ne.stored(),
                        c.sw.stored(),
                        c.se.stored(),
                    );
                    let all = sel + s1@ + s2@ + s3@ + s4@;
                    assert forall|k: int| 0 <= k < all.len() implies overlap(
                        #[trigger] all[k].aabb,
                        *range,
                    ) by {
                        if k < sel.len() {
                            assert(all[k] == sel[k]);
                        } else if k < sel.len() + s1@.len() {
                            assert(all[k] == s1@[k - sel.len()]);
                        } else if k < sel.len() + s1@.len() + s2@.len() {
                            assert(all[k] == s2@[k - sel.len() - s1@.len()]);
                        } else if k < sel.len() + s1@.len() + s2@.len() + s3@.len() {
                            assert(all[k] == s3@[k - sel.len() - s1@.len() - s2@.len()]);
                        } else {
                            assert(all[k] == s4@[k - sel.len() - s1@.len() - s2@.len()
                                - s3@.len()]);
                        }
                    }
                    vstd::seq_lib::lemma_multiset_commutative(sel, s1@);
                    vstd::seq_lib::lemma_multiset_commutative(sel + s1@, s2@);
                    vstd::seq_lib::lemma_multiset_commutative(sel + s1@ + s2@, s3@);
                    vstd::seq_lib::lemma_multiset_commutative(sel + s1@ + s2@ + s3@, s4@);
                    if overlap_is_deterministic::<R>() && enclosure_respects_overlap::<R>() {
                        assert(all.to_multiset() =~= self@.filter(overlapping(*range)));
                    }
                    sel = all;
                }
            },
        }
        Ghost(sel)
    }

    /// Appends the bounds and depth of every node to `out`, in pre-order
    /// (a node, then its NW, NE, SW and SE subtrees). Used by the debug
    /// overlay that draws the tree.
    pub fn collect_node_bounds(&self, out: &mut Vec<(R, usize)>)
        ensures
            final(out)@ == old(out)@ + self.nodes(),
        decreases self,
    {
        out.push((self.bounds, self.depth));
        match &self.children {
            None => {},
            Some(c) => {
                c.nw.collect_node_bounds(out);
                c.ne.collect_node_bounds(out);
                c.sw.collect_node_bounds(out);
                c.se.collect_node_bounds(out);
            },
        }
        assert(out@ =~= old(out)@ + self.nodes());
    }

    /// No node of a well-formed tree lies deeper than `max_depth`, and the
    /// first node in pre-order is the tree's own root.
    pub proof fn lemma_depth_capped(self)
        requires
            self.wf(),
        ensures
            self.nodes().len() >= 1,
            self.nodes()[0] == (self.spec_bounds(), self.spec_depth() as usize),
            forall|i: int|
                0 <= i < self.nodes().len() ==> self.spec_depth() <= #[trigger] self.nodes()[i].1
                    <= self.spec_max_depth(),
        decreases self,
    {
        match self.children {
            None => {},
            Some(c) => {
                c.nw.lemma_depth_capped();
                c.ne.lemma_depth_capped();
                c.sw.lemma_depth_capped();
                c.se.lemma_depth_capped();
                let here = seq![(self.bounds, self.depth)];
                let a = here + c.nw.nodes();
                let b = a + c.ne.nodes();
                let d = b + c.sw.nodes();
                assert forall|i: int|
                    0 <= i < self.nodes().len() implies self.spec_depth()
                    <= #[trigger] self.nodes()[i].1 <= self.spec_max_depth() by {
                    if i < a.len() {
                        if i >= 1 {
                            assert(a[i] == c.nw.nodes()[i - 1]);
                        }
                    } else if i < b.len() {
                        assert(b[i] == c.ne.nodes()[i - a.len()]);
                    } else if i < d.len() {
                        assert(d[i] == c.sw.nodes()[i - b.len()]);
                    } else {
                        assert(self.nodes()[i] == c.se.nodes()[i - d.len()]);
                    }
                }
            },
        }
    }

    /// The tree never holds invisible data: every stored entry's region has
    /// been found to overlap the tree bounds.
    pub proof fn lemma_stored_within_bounds(self)
        requires
            self.wf(),
        ensures
            forall|e: Entry<R>| #[trigger] self@.count(e) > 0 ==> overlap(self.spec_bounds(), e.aabb),
    {
    }

    /// The shape of a well-formed tree. A leaf's node list is itself alone
    /// and it stores its own entries. A subdivided node lies above
    /// `max_depth`; its four children, in the order NW, NE, SW, SE, have as
    /// regions the quadrants the region type gave for its region, sit one
    /// level deeper with the same capacity and max depth, are well-formed,
    /// and follow it in the node list subtree by subtree; it stores its own
    /// entries plus everything its children store. Every entry a subdivided
    /// node keeps itself hit none or several of the child regions, and every
    /// entry in a child's subtree hit that child's region and no other.
    #[verifier::spinoff_prover]
    pub proof fn lemma_structure(self)
        requires
            self.wf(),
        ensures
            self.is_leaf() ==> self.nodes() == seq![(self.spec_bounds(), self.spec_depth() as usize)]
                && self@ == self.own_entries().to_multiset(),
            self.is_leaf() && self.spec_depth() < self.spec_max_depth() ==> self.own_entries().len()
                <= self.spec_capacity(),
            !self.is_leaf() ==> {
                &&& self.spec_depth() < self.spec_max_depth()
                &&& exists|q: [R; 4]|
                    #[trigger] call_ensures(R::quadrants, (&self.spec_bounds(),), q) && forall|i: int|
                        0 <= i < 4 ==> #[trigger] self.child(i).spec_bounds() == q@[i]
                &&& forall|i: int|
                    0 <= i < 4 ==> {
                        &&& #[trigger] self.child(i).wf()
                        &&& self.child(i).spec_depth() == self.spec_depth() + 1
                        &&& self.child(i).spec_capacity() == self.spec_capacity()
                        &&& self.child(i).spec_max_depth() == self.spec_max_depth()
                    }
                &&& self.nodes() == seq![(self.spec_bounds(), self.spec_depth() as usize)]
                    + self.child(0).nodes() + self.child(1).nodes() + self.child(2).nodes()
                    + self.child(3).nodes()
                &&& self@ == self.own_entries().to_multiset().add(self.child(0)@).add(
                    self.child(1)@,
                ).add(self.child(2)@).add(self.child(3)@)
                &&& forall|e: Entry<R>|
                    #[trigger] self.own_entries().to_multiset().count(e) > 0 ==> kept_at_node(
                        self.child_regions(),
                        e.aabb,
                    )
                &&& forall|i: int, e: Entry<R>|
                    0 <= i < 4 && #[trigger] self.child(i)@.count(e) > 0 ==> routed_to(
                        self.child_regions(),
                        e.aabb,
                        i,
                    )
            },
    {
        match self.children {
            None => {
                assert(self.is_leaf());
            },
            Some(c) => {
                let q = choose|q: [R; 4]|
                    #[trigger] call_ensures(R::quadrants, (&self.bounds,), q) && q@ == seq![
                        c.nw.bounds,
                        c.ne.bounds,
                        c.sw.bounds,
                        c.se.bounds,
                    ];
                assert forall|i: int| 0 <= i < 4 implies #[trigger] self.child(i).spec_bounds()
                    == q@[i] by {}
                assert(self.child_regions() == Self::quads_of(*c));
                assert forall|i: int, e: Entry<R>|
                    0 <= i < 4 && #[trigger] self.child(i)@.count(e) > 0 implies routed_to(
                    self.child_regions(),
                    e.aabb,
                    i,
                ) by {
                    if i == 0 {
                        assert(c.nw.stored().count(e) > 0);
                    } else if i == 1 {
                        assert(c.ne.stored().count(e) > 0);
                    } else if i == 2 {
                        assert(c.sw.stored().count(e) > 0);
                    } else {
                        assert(c.se.stored().count(e) > 0);
                    }
                }
            },
        }
    }

    /// Capacity is enforced: a leaf above `max_depth` never holds more than
    /// `capacity` entries, so once one more entry than a full leaf can hold
    /// has been stored in a tree that was a full leaf, the tree has
    /// subdivided.
    pub proof fn lemma_full_leaf_splits(before: Self, after: Self, e: Entry<R>)
        requires
            before.wf(),
            after.wf(),
            before.is_leaf(),
            before.spec_depth() < before.spec_max_depth(),
            before.own_entries().len() == before.spec_capacity(),
            after@ == before@.insert(e),
            after.spec_depth() == before.spec_depth(),
            after.spec_max_depth() == before.spec_max_depth(),
            after.spec_capacity() == before.spec_capacity(),
        ensures
            !after.is_leaf(),
    {
        if after.is_leaf() {
            before.lemma_structure();
            after.lemma_structure();
            assert(after@.len() == before@.len() + 1);
        }
    }

    /// A node that holds no entries and has no children stores nothing.
    pub proof fn lemma_empty_node_stores_nothing(self)
        requires
            self.own_entries().len() == 0,
            self.is_leaf(),
        ensures
            self@ == Multiset::<Entry<R>>::empty(),
    {
        assert(self.entries@ =~= Seq::<Entry<R>>::empty());
        assert(self.stored() =~= Multiset::<Entry<R>>::empty());
    }

    /// Splits a leaf into four empty children, one per quadrant of its region.
    fn subdivide(&mut self)
        requires
            old(self).wf(),
            old(self).children is None,
            old(self).entries@.len() == 0,
            old(self).depth < old(self).max_depth,
        ensures
            final(self).wf(),
            final(self).entries == old(self).entries,
            final(self).bounds == old(self).bounds,
            final(self).capacity == old(self).capacity,
            final(self).max_depth == old(self).max_depth,
            final(self).depth == old(self).depth,
            final(self).children matches Some(c) && {
                &&& c.nw.stored() == Multiset::<Entry<R>>::empty()
                &&& c.ne.stored() == Multiset::<Entry<R>>::empty()
                &&& c.sw.stored() == Multiset::<Entry<R>>::empty()
                &&& c.se.stored() == Multiset::<Entry<R>>::empty()
            },
    {
        let split = R::quadrants;
        let quads = split(&self.bounds);
        let next_depth = self.depth + 1;
        let mut nw = QuadTree::with_params(quads[0], self.capacity, self.max_depth);
        let mut ne = QuadTree::with_params(quads[1], self.capacity, self.max_depth);
        let mut sw = QuadTree::with_params(quads[2], self.capacity, self.max_depth);
        let mut se = QuadTree::with_params(quads[3], self.capacity, self.max_depth);
        nw.depth = next_depth;
        ne.depth = next_depth;
        sw.depth = next_depth;
        se.depth = next_depth;
        assert(nw.stored() =~= Multiset::<Entry<R>>::empty());
        assert(nw.wf());
        assert(ne.stored() =~= Multiset::<Entry<R>>::empty());
        assert(sw.stored() =~= Multiset::<Entry<R>>::empty());
        assert(se.stored() =~= Multiset::<Entry<R>>::empty());
        self.children = Some(Box::new(Quads { nw, ne, sw, se }));
        assert(self.stored() =~= old(self).stored());
        assert(ne.wf());
        assert(sw.wf());
        assert(se.wf());
        assert(quads@ =~= seq![nw.bounds, ne.bounds, sw.bounds, se.bounds]);
        assert(call_ensures(R::quadrants, (&self.bounds,), quads));
        assert(Self::split_into(self.bounds, Quads { nw, ne, sw, se }));
        assert(self.entries@.to_multiset() =~= Multiset::<Entry<R>>::empty());
    }
}

/// The number of `true` flags among the four.
pub open spec fn hit_count(h: Seq<bool>) -> int {
    (if h[0] { 1int } else { 0int }) + (if h[1] { 1int } else { 0int }) + (if h[2] {
        1int
    } else {
        0int
    }) + (if h[3] { 1int } else { 0int })
}

/// The number of `true` flags among the first `n`.
spec fn prefix_hits(h: Seq<bool>, n: int) -> int
    decreases n,
{
    if n <= 0 {
        0
    } else {
        prefix_hits(h, n - 1) + if h[n - 1] { 1int } else { 0int }
    }
}

/// The quadrant an entry belongs to, given which of the four child regions
/// it intersects: the one hit when exactly one is hit, and none otherwise.
pub fn sole_quadrant(hits: [bool; 4]) -> (q: Option<usize>)
    ensures
        match q {
            Some(i) => i < 4 && hits@[i as int] && hit_count(hits@) == 1,
            None => hit_count(hits@) != 1,
        },
{
    let mut hit_idx: Option<usize> = None;
    let mut count: u32 = 0;
    let mut i: usize = 0;
    while i < 4
        invariant
            i <= 4,
            count == prefix_hits(hits@, i as int),
            count <= i,
            count > 0 ==> (hit_idx matches Some(j) && j < i && hits@[j as int]),
            count == 0 ==> hit_idx is None,
        decreases 4 - i,
    {
        if hits[i] {
            count += 1;
            hit_idx = Some(i);
        }
        i += 1;
    }
    assert(prefix_hits(hits@, 4) == hit_count(hits@)) by {
        reveal_with_fuel(prefix_hits, 5);
    }
    if count == 1 {
        hit_idx
    } else {
        None
    }
}

/// Loading regions by index stores each particle at most once, under its own
/// region: any sub-multiset of the indexed entries (such as what
/// `insert_indexed` adds to a tree) holds every entry at most once, and an
/// entry with index `i` carries the `i`-th region.
pub proof fn lemma_indexed_load_unique<R>(regions: Seq<R>, sel: Multiset<Entry<R>>)
    requires
        regions.len() <= u32::MAX as nat + 1,
        sel.subset_of(indexed_entries(regions).to_multiset()),
    ensures
        forall|e: Entry<R>|
            #[trigger] sel.count(e) > 0 ==> {
                &&& sel.count(e) == 1
                &&& e.idx < regions.len()
                &&& e.aabb == regions[e.idx as int]
            },
{
    let s = indexed_entries(regions);
    assert(s.no_duplicates()) by {
        assert forall|i: int, j: int| 0 <= i < s.len() && 0 <= j < s.len() && i != j implies s[i]
            != s[j] by {
            assert(s[i].idx == i as u32 && s[j].idx == j as u32);
        }
    }
    s.lemma_multiset_has_no_duplicates();
    assert forall|e: Entry<R>| #[trigger] sel.count(e) > 0 implies {
        &&& sel.count(e) == 1
        &&& e.idx < regions.len()
        &&& e.aabb == regions[e.idx as int]
    } by {
        assert(s.to_multiset().count(e) > 0);
        assert(s.contains(e));
        let i = choose|i: int| 0 <= i < s.len() && s[i] == e;
        assert(e.idx == i as u32);
    }
}

/// Filtering a sequence and then counting its entries is counting its
/// entries and then filtering.
pub proof fn lemma_filter_multiset<A>(s: Seq<A>, p: spec_fn(A) -> bool)
    ensures
        s.filter(p).to_multiset() =~= s.to_multiset().filter(p),
    decreases s.len(),
{
    reveal_with_fuel(Seq::filter, 1);
    if s.len() > 0 {
        lemma_filter_multiset(s.drop_last(), p);
        assert(s =~= s.drop_last().push(s.last()));
    }
}

/// A query of an empty tree (such as one just cleared) reports nothing: the
/// only selection of entries drawn from an empty tree is the empty one.
pub proof fn lemma_empty_tree_reports_nothing<R>(sel: Seq<Entry<R>>)
    requires
        sel.to_multiset().subset_of(Multiset::<Entry<R>>::empty()),
    ensures
        sel.len() == 0,
        indices_of(sel).len() == 0,
{
    if sel.len() > 0 {
        assert(sel.contains(sel[0]));
        assert(sel.to_multiset().count(sel[0]) > 0);
    }
}

/// The indices of a concatenation are the concatenated indices.
proof fn lemma_indices_concat<R>(a: Seq<Entry<R>>, b: Seq<Entry<R>>)
    ensures
        indices_of(a + b) == indices_of(a) + indices_of(b),
{
    assert(indices_of(a + b) =~= indices_of(a) + indices_of(b));
}

/// Picking a sub-multiset from each of five parts picks a sub-multiset of
/// their sum.
proof fn lemma_subset_concat<V>(
    a: Seq<V>,
    b: Seq<V>,
    c: Seq<V>,
    d: Seq<V>,
    e: Seq<V>,
    ma: Multiset<V>,
    mb: Multiset<V>,
    mc: Multiset<V>,
    md: Multiset<V>,
    me: Multiset<V>,
)
    requires
        a.to_multiset().subset_of(ma),
        b.to_multiset().subset_of(mb),
        c.to_multiset().subset_of(mc),
        d.to_multiset().subset_of(md),
        e.to_multiset().subset_of(me),
    ensures
        (a + b + c + d + e).to_multiset().subset_of(ma.add(mb).add(mc).add(md).add(me)),
{
    vstd::seq_lib::lemma_multiset_commutative(a, b);
    vstd::seq_lib::lemma_multiset_commutative(a + b, c);
    vstd::seq_lib::lemma_multiset_commutative(a + b + c, d);
    vstd::seq_lib::lemma_multiset_commutative(a + b + c + d, e);
}

/// Each child's share of a node's entries is no larger than the whole.
proof fn lemma_child_le<V>(
    a: Multiset<V>,
    b: Multiset<V>,
    c: Multiset<V>,
    d: Multiset<V>,
    own: Multiset<V>,
)
    ensures
        a.len() <= own.add(a).add(b).add(c).add(d).len(),
        b.len() <= own.add(a).add(b).add(c).add(d).len(),
        c.len() <= own.add(a).add(b).add(c).add(d).len(),
        d.len() <= own.add(a).add(b).add(c).add(d).len(),
{
}

impl<R: Region> View for QuadTree<R> {
    type V = Multiset<Entry<R>>;

    open spec fn view(&self) -> Multiset<Entry<R>> {
        self.stored()
    }
}

} // verus!

//! Branch nodes: one unbranched run of root, an ordered chain of
//! straight segments, each anchoring at most one child branch at its
//! endpoint.
//!
//! Branches form a tree held in an arena (see [`crate::arena`]); a
//! segment's child link is the arena index of the child node.

use vstd::prelude::*;
use crate::fixed::{fx_div, fx_div_s, fx_sqrt, sqrt_floor, FX_ONE, FX_PI};
use crate::geom::{Point, DIR_CAP};
use crate::soil::Resource;

verus! {

/// The largest coordinate magnitude a segment point may have.
pub const COORD_CAP: i64 = 0x100_0000_0000;

/// The largest biomass a branch may carry into a growth step.
pub const MASS_CAP: i64 = 0x80_0000_0000;

/// The distance between consecutive multiline points, one unit.
pub const SEGMENT_LENGTH: i64 = 1_000_000;

/// The stable address of a branch: the owning plant's index and the
/// ordered list of segment indices at which each ancestor branched off.
#[derive(Clone, Debug)]
pub struct BranchId {
    pub plant: u32,
    pub branch_path: Vec<usize>,
}

impl BranchId {
    /// The address of a plant's root branch: an empty path.
    pub fn new(plant: u32) -> (r: Self)
        ensures
            r.plant == plant,
            r.branch_path@ =~= Seq::<usize>::empty(),
    {
        Self { plant, branch_path: Vec::new() }
    }

    /// The address of the child branching off at `segment`.
    pub fn append(&self, segment: usize) -> (r: Self)
        ensures
            r.plant == self.plant,
            r.branch_path@ =~= self.branch_path@.push(segment),
    {
        let mut path = self.branch_path.clone();
        path.push(segment);
        Self { plant: self.plant, branch_path: path }
    }
}

/// One edge between two consecutive points of a branch. `start`
/// duplicates the end of the previous segment. `branch` is the arena
/// index of the child anchored at this segment's endpoint, if any.
#[derive(Clone, Debug)]
pub struct Segment {
    pub start: Point,
    pub end: Point,
    pub branch: Option<usize>,
}

impl Segment {
    pub fn new(start: Point, end: Point) -> (r: Self)
        ensures
            r.start == start,
            r.end == end,
            r.branch is None,
    {
        Self { start, end, branch: None }
    }

    /// The segment's direction: its endpoint relative to its start.
    pub fn vec(&self) -> (r: Point)
        requires
            -DIR_CAP <= self.end.x - self.start.x <= DIR_CAP,
            -DIR_CAP <= self.end.y - self.start.y <= DIR_CAP,
        ensures
            r.x == self.end.x - self.start.x,
            r.y == self.end.y - self.start.y,
    {
        Point { x: self.end.x - self.start.x, y: self.end.y - self.start.y }
    }
}

/// A segment point lies at or below the soil surface, within machine
/// bounds, and spans at most `DIR_CAP` per coordinate.
pub open spec fn seg_wf(s: Segment) -> bool {
    &&& 0 <= s.start.y <= COORD_CAP
    &&& 0 <= s.end.y <= COORD_CAP
    &&& -COORD_CAP <= s.start.x <= COORD_CAP
    &&& -COORD_CAP <= s.end.x <= COORD_CAP
    &&& -DIR_CAP <= s.end.x - s.start.x <= DIR_CAP
    &&& -DIR_CAP <= s.end.y - s.start.y <= DIR_CAP
}

/// The number of child links among `segs`.
pub open spec fn count_links(segs: Seq<Segment>) -> int
    decreases segs.len(),
{
    if segs.len() == 0 {
        0
    } else {
        count_links(segs.drop_last()) + if segs.last().branch is Some {
            1int
        } else {
            0int
        }
    }
}

/// The last index under `k` holding a child link, if any.
pub open spec fn lbi_upto(segs: Seq<Segment>, k: int) -> Option<int>
    decreases k,
{
    if k <= 0 {
        None
    } else if segs[k - 1].branch is Some {
        Some(k - 1)
    } else {
        lbi_upto(segs, k - 1)
    }
}

/// The index of the latest segment holding a child link, if any.
pub open spec fn lbi_s(segs: Seq<Segment>) -> Option<int> {
    lbi_upto(segs, segs.len() as int)
}

/// What the latest-branch index means: a link there, none after it,
/// none anywhere when there is none.
pub proof fn lemma_lbi(segs: Seq<Segment>, k: int)
    requires
        0 <= k <= segs.len(),
    ensures
        match lbi_upto(segs, k) {
            Some(i) => 0 <= i < k && segs[i].branch is Some && forall|j: int|
                i < j < k ==> segs[j].branch is None,
            None => forall|j: int| 0 <= j < k ==> segs[j].branch is None,
        },
    decreases k,
{
    if k > 0 {
        lemma_lbi(segs, k - 1);
    }
}

/// ML stands for "multiline": a sequence of line segments. One node of
/// the branch tree, owning its own biomass and the resource summary of
/// its latest uptake pass.
#[derive(Clone, Debug)]
pub struct MLBranch {
    /// The branch's stable address from the root of the root.
    pub id: BranchId,
    pub segments: Vec<Segment>,
    /// Index in the parent's segments where `self` branched off;
    /// meaningless for a root branch.
    pub parent_segment_index: usize,
    /// The branch's own biomass.
    pub weight: i64,
    /// Tick-material bookkeeping for the whole subtree, accumulated by
    /// every applied growth action (see the growth rules in
    /// [`crate::arena`]).
    pub subtree_weight: i64,
    /// The best single nitrogen sample seen anywhere in the subtree
    /// during the latest uptake pass.
    pub best_nitro: i64,
    /// The best single water sample of the same pass.
    pub best_water: i64,
}

impl MLBranch {
    /// A root branch: one segment pointing straight down from the
    /// surface datum at `x`.
    pub fn new(plant: u32, x: i64, weight: i64) -> (r: Self)
        requires
            -COORD_CAP <= x <= COORD_CAP,
            0 <= weight,
        ensures
            r.id.plant == plant,
            r.id.branch_path@ =~= Seq::<usize>::empty(),
            r.segments@.len() == 1,
            r.segments@[0].start == (Point { x, y: 0 }),
            r.segments@[0].end == (Point { x, y: SEGMENT_LENGTH }),
            r.segments@[0].branch is None,
            r.parent_segment_index == 0,
            r.weight == weight,
            r.subtree_weight == weight,
            r.best_nitro == 0,
            r.best_water == 0,
    {
        let mut segments: Vec<Segment> = Vec::new();
        segments.push(Segment::new(Point { x, y: 0 }, Point { x, y: SEGMENT_LENGTH }));
        Self {
            id: BranchId::new(plant),
            segments,
            parent_segment_index: 0,
            weight,
            subtree_weight: weight,
            best_nitro: 0,
            best_water: 0,
        }
    }

    /// A child branch seeded with a biomass share, with one segment
    /// from `start` to `end`, addressed under its parent.
    pub fn new_branch(
        start: Point,
        end: Point,
        parent_segment_index: usize,
        parent_id: &BranchId,
        weight: i64,
    ) -> (r: Self)
        requires
            0 <= weight,
        ensures
            r.id.plant == parent_id.plant,
            r.id.branch_path@ =~= parent_id.branch_path@.push(parent_segment_index),
            r.segments@.len() == 1,
            r.segments@[0].start == start,
            r.segments@[0].end == end,
            r.segments@[0].branch is None,
            r.parent_segment_index == parent_segment_index,
            r.weight == weight,
            r.subtree_weight == weight,
            r.best_nitro == 0,
            r.best_water == 0,
    {
        let mut segments: Vec<Segment> = Vec::new();
        segments.push(Segment::new(start, end));
        Self {
            id: parent_id.append(parent_segment_index),
            segments,
            parent_segment_index,
            weight,
            subtree_weight: weight,
            best_nitro: 0,
            best_water: 0,
        }
    }

    /// How many segments of this branch anchor a child.
    pub fn branch_count(&self) -> (r: usize)
        ensures
            r == count_links(self.segments@),
    {
        let mut count: usize = 0;
        let mut i: usize = 0;
        while i < self.segments.len()
            invariant
                i <= self.segments@.len(),
                count == count_links(self.segments@.take(i as int)),
                count <= i,
            decreases self.segments@.len() - i,
        {
            proof {
                assert(self.segments@.take(i + 1).drop_last() =~= self.segments@.take(i as int));
            }
            if self.segments[i].branch.is_some() {
                count = count + 1;
            }
            i = i + 1;
        }
        proof {
            assert(self.segments@.take(self.segments@.len() as int) =~= self.segments@);
        }
        count
    }

    /// The branch's length: its segment count.
    pub fn get_length(&self) -> (r: usize)
        ensures
            r == self.segments@.len(),
    {
        self.segments.len()
    }

    /// The branch's average radius, taking it as a cylinder of its
    /// biomass: the square root of weight over length times pi.
    pub fn get_radius(&self) -> (r: i64)
        requires
            0 <= self.weight <= MASS_CAP,
            1 <= self.segments@.len() <= 0x10000,
        ensures
            r == radius_s(self.weight as int, self.segments@.len() as int),
            0 <= r,
    {
        let len = self.segments.len() as i64;
        let denom = len * FX_PI;
        proof {
            assert(fx_div_s(self.weight as int, denom as int) <= self.weight as int) by {
                vstd::arithmetic::div_mod::lemma_div_is_ordered_by_denominator(
                    self.weight as int * (FX_ONE as int), FX_ONE as int, denom as int);
                vstd::arithmetic::div_mod::lemma_div_multiples_vanish(
                    self.weight as int, FX_ONE as int);
            }
            vstd::arithmetic::div_mod::lemma_div_pos_is_pos(
                self.weight as int * (FX_ONE as int), denom as int);
        }
        let w_over = fx_div(self.weight, denom);
        fx_sqrt(w_over)
    }

    /// The branch's surface measure: its biomass per unit of length.
    pub fn get_surface(&self) -> (r: i64)
        requires
            0 <= self.weight,
            1 <= self.segments@.len() <= 0x10000,
        ensures
            r == self.weight as int / (self.segments@.len() as int),
    {
        self.weight / (self.segments.len() as i64)
    }

    /// The branch's own biomass.
    pub fn get_weight(&self) -> (r: i64)
        ensures
            r == self.weight,
    {
        self.weight
    }

    /// The branch's extraction strength: a constant stub, reserved for
    /// extension.
    pub fn get_suck_potential(&self, what: Resource) -> (r: i64)
        ensures
            r == 100 * FX_ONE,
    {
        let _ = what;
        100 * FX_ONE
    }

    /// The latest segment holding a child link, if any.
    pub fn last_branch_index(&self) -> (r: Option<usize>)
        ensures
            match r {
                Some(i) => lbi_s(self.segments@) == Some(i as int),
                None => lbi_s(self.segments@) is None,
            },
    {
        let mut r: Option<usize> = None;
        let mut i: usize = 0;
        while i < self.segments.len()
            invariant
                i <= self.segments@.len(),
                match r {
                    Some(k) => lbi_upto(self.segments@, i as int) == Some(k as int),
                    None => lbi_upto(self.segments@, i as int) is None,
                },
            decreases self.segments@.len() - i,
        {
            if self.segments[i].branch.is_some() {
                r = Some(i);
            }
            i = i + 1;
        }
        r
    }
}

/// The average radius of a branch of biomass `w` and `len` segments.
pub open spec fn radius_s(w: int, len: int) -> int {
    sqrt_floor(fx_div_s(w, len * (FX_PI as int)) * (FX_ONE as int))
}

/// A single step of the biomass distribution returned by the growth
/// decision: where one weighted share of the tick's new material goes.
#[derive(Clone, Debug)]
pub struct GrowLonger(pub Point);

/// Where and in which direction a new child branch would sprout.
#[derive(Clone, Debug)]
pub struct GrowNewBranch {
    /// The endpoint of the new branch's first segment.
    pub direction: Point,
    /// The segment of this branch the child would anchor at.
    pub parent_segment_index: usize,
}

/// Which existing child to feed: the index of the segment anchoring it.
#[derive(Clone, Debug)]
pub struct GrowChild(pub usize);

/// One weighted growth action: lengthen the branch, sprout a new child,
/// feed an existing child, or thicken the branch itself.
#[derive(Clone, Debug)]
pub enum GrowthDecision {
    Longer(GrowLonger),
    NewBranch(GrowNewBranch),
    Child(GrowChild),
    Myself,
}

} // verus!

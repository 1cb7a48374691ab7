//! The branch tree: an arena of [`MLBranch`] nodes addressed by index.
//!
//! Node 0 is the root branch. A segment's child link names a node of
//! strictly higher index, each node is the child of at most one
//! segment, and a child's first segment starts at the endpoint of the
//! segment anchoring it. Growth only appends nodes, so links stay
//! stable and addresses never dangle.

use vstd::prelude::*;
use crate::branch::{
    lbi_s, radius_s, seg_wf, GrowChild, GrowLonger, GrowNewBranch, GrowthDecision, MLBranch,
    Segment, COORD_CAP,
};
use crate::fixed::{fx_div, fx_div_s, fx_mul, fx_mul_s, FX_ONE};
use crate::geom::{mirror_x_s, mirror_y_s, rot45_x_s, rot45_y_s, Point, DIR_CAP};
use crate::soil::{MatrixSoil, Resource, GRID_CAP};
use crate::strategy::{strategy_wf, BranchingStrategy};
use crate::sums::sum_int;

verus! {

/// The largest total segment count a tree may reach, so that resource
/// totals over a subtree stay within machine bounds.
pub const SEG_CAP: i64 = 4096;

/// The largest mass a subtree-bookkeeping field may carry into a
/// growth step.
pub const SUB_CAP: i64 = 0x2000_0000_0000_0000;

/// The largest amount of new material one growth step accepts.
pub const NM_CAP: i64 = 0x4000_0000_0000;

/// One node's local well-formedness inside the arena: at least one
/// segment; segments chain end to start, lie below the surface and are
/// bounded; non-negative masses; child links point to higher indices
/// that name this node and segment back and attach at the endpoint.
pub open spec fn node_wf(nodes: Seq<MLBranch>, i: int) -> bool {
    let n = nodes[i];
    &&& 1 <= n.segments@.len()
    &&& 0 <= n.weight
    &&& 0 <= n.subtree_weight
    &&& (forall|j: int| 0 <= j < n.segments@.len() ==> seg_wf(#[trigger] n.segments@[j]))
    &&& (forall|j: int|
        1 <= j < n.segments@.len() ==> (#[trigger] n.segments@[j]).start == n.segments@[j - 1].end)
    &&& (forall|j: int|
        0 <= j < n.segments@.len() ==> match (#[trigger] n.segments@[j]).branch {
            Some(c) => {
                &&& i < c < nodes.len()
                &&& nodes[c as int].parent_segment_index == j
                &&& nodes[c as int].id.plant == n.id.plant
                &&& nodes[c as int].id.branch_path@ == n.id.branch_path@.push(j as usize)
                &&& nodes[c as int].segments@.len() >= 1
                &&& nodes[c as int].segments@[0].start == n.segments@[j].end
            },
            None => true,
        })
}

/// No node is the child of two different segments.
#[verifier::opaque]
pub open spec fn links_injective(nodes: Seq<MLBranch>) -> bool {
    forall|i1: int, j1: int, i2: int, j2: int|
        #![trigger nodes[i1].segments@[j1].branch, nodes[i2].segments@[j2].branch]
        0 <= i1 < nodes.len() && 0 <= j1 < nodes[i1].segments@.len() && 0 <= i2 < nodes.len()
            && 0 <= j2 < nodes[i2].segments@.len() && nodes[i1].segments@[j1].branch is Some
            && nodes[i1].segments@[j1].branch == nodes[i2].segments@[j2].branch ==> (i1 == i2 && j1
            == j2)
}

/// The whole arena is a well-formed branch tree.
pub open spec fn arena_wf(nodes: Seq<MLBranch>) -> bool {
    &&& 1 <= nodes.len()
    &&& (forall|i: int| 0 <= i < nodes.len() ==> node_wf(nodes, i))
    &&& links_injective(nodes)
}

/// The nodes agree on everything but their best-resource summaries.
pub open spec fn same_skeleton_node(a: MLBranch, b: MLBranch) -> bool {
    &&& a.id.plant == b.id.plant
    &&& a.id.branch_path@ == b.id.branch_path@
    &&& a.segments@ == b.segments@
    &&& a.parent_segment_index == b.parent_segment_index
    &&& a.weight == b.weight
    &&& a.subtree_weight == b.subtree_weight
}

/// The arenas agree on everything but best-resource summaries.
pub open spec fn same_skeleton(a: Seq<MLBranch>, b: Seq<MLBranch>) -> bool {
    a.len() == b.len() && forall|i: int|
        0 <= i < a.len() ==> same_skeleton_node(#[trigger] a[i], b[i])
}

/// Every node's masses are within the caps a growth step needs.
pub open spec fn masses_bounded(nodes: Seq<MLBranch>) -> bool {
    forall|i: int|
        0 <= i < nodes.len() ==> {
            &&& (#[trigger] nodes[i]).weight <= crate::branch::MASS_CAP
            &&& nodes[i].subtree_weight <= SUB_CAP
        }
}

/// Every node's best-resource summaries are bounded samples.
pub open spec fn bests_bounded(nodes: Seq<MLBranch>) -> bool {
    forall|i: int|
        0 <= i < nodes.len() ==> {
            &&& 0 <= (#[trigger] nodes[i]).best_nitro <= GRID_CAP
            &&& 0 <= nodes[i].best_water <= GRID_CAP
        }
}

/// Well-formedness reads only the skeleton: arenas that agree on it
/// agree on being well-formed.
pub proof fn lemma_wf_skeleton(a: Seq<MLBranch>, b: Seq<MLBranch>)
    requires
        same_skeleton(a, b),
        arena_wf(b),
    ensures
        arena_wf(a),
{
    assert forall|i: int| 0 <= i < a.len() implies node_wf(a, i) by {
        assert(node_wf(b, i));
        assert(a[i].segments@ == b[i].segments@);
        assert forall|j: int|
            0 <= j < a[i].segments@.len() implies match (#[trigger] a[i].segments@[j]).branch {
                Some(c) => {
                    &&& i < c < a.len()
                    &&& a[c as int].parent_segment_index == j
                    &&& a[c as int].id.plant == a[i].id.plant
                    &&& a[c as int].id.branch_path@ == a[i].id.branch_path@.push(j as usize)
                    &&& a[c as int].segments@.len() >= 1
                    &&& a[c as int].segments@[0].start == a[i].segments@[j].end
                },
                None => true,
            } by {
            assert(b[i].segments@[j] == a[i].segments@[j]);
            match a[i].segments@[j].branch {
                Some(c) => {
                    assert(same_skeleton_node(a[c as int], b[c as int]));
                },
                None => {},
            }
        }
    }
    assert(links_injective(a)) by {
        reveal(links_injective);
        assert forall|i1: int, j1: int, i2: int, j2: int|
            0 <= i1 < a.len() && 0 <= j1 < a[i1].segments@.len() && 0 <= i2 < a.len() && 0 <= j2
                < a[i2].segments@.len() && a[i1].segments@[j1].branch is Some
                && #[trigger] a[i1].segments@[j1].branch == #[trigger] a[i2].segments@[j2].branch
            implies i1 == i2 && j1 == j2 by {
            assert(a[i1].segments@ == b[i1].segments@);
            assert(a[i2].segments@ == b[i2].segments@);
            assert(b[i1].segments@[j1].branch == b[i2].segments@[j2].branch);
        }
    }
}

/// The segments a whole subtree holds, counted over the first `j`
/// segments of node `idx` and, recursively, everything below them.
pub open spec fn seg_cnt(nodes: Seq<MLBranch>, idx: int, j: int) -> int
    decreases nodes.len() - idx, j,
{
    if !(0 <= idx < nodes.len()) || j <= 0 {
        0
    } else {
        seg_cnt(nodes, idx, j - 1) + 1 + match nodes[idx].segments@[j - 1].branch {
            Some(c) => {
                if idx < c < nodes.len() {
                    subtree_seg_count(nodes, c as int)
                } else {
                    0
                }
            },
            None => 0,
        }
    }
}

/// The segments a whole subtree holds.
pub open spec fn subtree_seg_count(nodes: Seq<MLBranch>, idx: int) -> int
    decreases nodes.len() - idx, nodes[idx].segments@.len() + 1,
{
    if !(0 <= idx < nodes.len()) {
        0
    } else {
        seg_cnt(nodes, idx, nodes[idx].segments@.len() as int)
    }
}

/// Every subtree's segment count is within the machine cap.
pub open spec fn counts_ok(nodes: Seq<MLBranch>) -> bool {
    forall|i: int| 0 <= i < nodes.len() ==> subtree_seg_count(nodes, i) <= SEG_CAP
}

/// Every branch's own segment list is within the machine cap: implied
/// by `counts_ok`, but free of recursion.
pub open spec fn lens_ok(nodes: Seq<MLBranch>) -> bool {
    forall|i: int| 0 <= i < nodes.len() ==> (#[trigger] nodes[i]).segments@.len() <= SEG_CAP
}

/// A capped tree has capped branches.
pub proof fn lemma_counts_to_lens(nodes: Seq<MLBranch>)
    requires
        counts_ok(nodes),
    ensures
        lens_ok(nodes),
{
    assert forall|i: int| 0 <= i < nodes.len()
        implies (#[trigger] nodes[i]).segments@.len() <= SEG_CAP by {
        lemma_cnt_ge_subtree(nodes, i);
    }
}

/// The resource mass a subtree extracts in one uptake pass, summed over
/// the endpoint samples of the first `j` segments of node `idx` and,
/// recursively, everything below them.
pub open spec fn uptake_sum(
    nodes: Seq<MLBranch>,
    soil: MatrixSoil,
    idx: int,
    j: int,
    what: Resource,
) -> int
    decreases nodes.len() - idx, j,
{
    if !(0 <= idx < nodes.len()) || j <= 0 {
        0
    } else {
        uptake_sum(nodes, soil, idx, j - 1, what) + soil.sample_s(
            nodes[idx].segments@[j - 1].end,
            what,
        ) + match nodes[idx].segments@[j - 1].branch {
            Some(c) => {
                if idx < c < nodes.len() {
                    subtree_uptake(nodes, soil, c as int, what)
                } else {
                    0
                }
            },
            None => 0,
        }
    }
}

/// The resource mass a whole subtree extracts in one uptake pass.
pub open spec fn subtree_uptake(nodes: Seq<MLBranch>, soil: MatrixSoil, idx: int, what: Resource)
    -> int
    decreases nodes.len() - idx, nodes[idx].segments@.len() + 1,
{
    if !(0 <= idx < nodes.len()) {
        0
    } else {
        uptake_sum(nodes, soil, idx, nodes[idx].segments@.len() as int, what)
    }
}

/// The best single endpoint sample over the first `j` segments of node
/// `idx` and, recursively, everything below them; zero when there is
/// nothing to sample.
pub open spec fn best_upto(
    nodes: Seq<MLBranch>,
    soil: MatrixSoil,
    idx: int,
    j: int,
    what: Resource,
) -> int
    decreases nodes.len() - idx, j,
{
    if !(0 <= idx < nodes.len()) || j <= 0 {
        0
    } else {
        let prev = best_upto(nodes, soil, idx, j - 1, what);
        let here = soil.sample_s(nodes[idx].segments@[j - 1].end, what);
        let below = match nodes[idx].segments@[j - 1].branch {
            Some(c) => {
                if idx < c < nodes.len() {
                    subtree_best(nodes, soil, c as int, what)
                } else {
                    0
                }
            },
            None => 0,
        };
        if here > prev && here >= below {
            here
        } else if below > prev {
            below
        } else {
            prev
        }
    }
}

/// The best single endpoint sample anywhere in a subtree.
pub open spec fn subtree_best(nodes: Seq<MLBranch>, soil: MatrixSoil, idx: int, what: Resource)
    -> int
    decreases nodes.len() - idx, nodes[idx].segments@.len() + 1,
{
    if !(0 <= idx < nodes.len()) {
        0
    } else {
        best_upto(nodes, soil, idx, nodes[idx].segments@.len() as int, what)
    }
}

/// The node a path of segment indices reaches, walked from node `i`
/// with the first `k` steps already taken: the branch at `path[k]` of
/// node `i`, then onward. `None` as soon as a step names a segment
/// that is out of range or childless.
pub open spec fn resolve_from(nodes: Seq<MLBranch>, i: int, path: Seq<usize>, k: int) -> Option<
    int,
>
    decreases path.len() - k,
{
    if !(0 <= k <= path.len()) || !(0 <= i < nodes.len()) {
        None
    } else if k == path.len() {
        Some(i)
    } else if path[k] < nodes[i].segments@.len() {
        match nodes[i].segments@[path[k] as int].branch {
            Some(c) => {
                if i < c < nodes.len() {
                    resolve_from(nodes, c as int, path, k + 1)
                } else {
                    None
                }
            },
            None => None,
        }
    } else {
        None
    }
}

/// The node a path reaches from the root.
pub open spec fn resolve_s(nodes: Seq<MLBranch>, path: Seq<usize>) -> Option<int> {
    resolve_from(nodes, 0, path, 0)
}

/// The branch tree: root node first, every child after its parent.
pub struct BranchArena {
    pub nodes: Vec<MLBranch>,
}

impl BranchArena {
    /// A tree of the single given root branch.
    pub fn new(root: MLBranch) -> (r: BranchArena)
        ensures
            r.nodes@.len() == 1,
            r.nodes@[0] == root,
    {
        let mut nodes: Vec<MLBranch> = Vec::new();
        nodes.push(root);
        BranchArena { nodes }
    }

    /// The branch reached by following `branch_path` from the root:
    /// the child anchored at the named segment of each branch in turn.
    /// `None` for any path naming a childless or out-of-range segment.
    pub fn get_branch(&self, branch_path: &Vec<usize>) -> (r: Option<&MLBranch>)
        requires
            arena_wf(self.nodes@),
        ensures
            match r {
                Some(b) => resolve_s(self.nodes@, branch_path@) is Some && *b == self.nodes@[
                    resolve_s(self.nodes@, branch_path@)->Some_0],
                None => resolve_s(self.nodes@, branch_path@) is None,
            },
    {
        let mut cur: usize = 0;
        let mut k: usize = 0;
        while k < branch_path.len()
            invariant
                arena_wf(self.nodes@),
                cur < self.nodes@.len(),
                k <= branch_path@.len(),
                resolve_s(self.nodes@, branch_path@) == resolve_from(
                    self.nodes@, cur as int, branch_path@, k as int),
            decreases branch_path@.len() - k,
        {
            let j = branch_path[k];
            if j >= self.nodes[cur].segments.len() {
                return None;
            }
            match self.nodes[cur].segments[j].branch {
                None => {
                    return None;
                },
                Some(c) => {
                    assert(node_wf(self.nodes@, cur as int));
                    cur = c;
                },
            }
            k = k + 1;
        }
        Some(&self.nodes[cur])
    }

    /// The new-branch candidacy: where and in which direction a new
    /// child branch would sprout from branch `idx`, or `None` when
    /// placement is rejected. An accepted candidate segment never
    /// already owns a branch and never lies within the final two
    /// segments of the multiline.
    #[verifier::rlimit(100)]
    #[verifier::spinoff_prover]
    fn grow_new_branch(&self, idx: usize) -> (r: Option<GrowthDecision>)
        requires
            arena_wf(self.nodes@),
            idx < self.nodes@.len(),
            self.nodes@[idx as int].segments@.len() <= SEG_CAP,
        ensures
            match r {
                Some(d) => d matches GrowthDecision::NewBranch(g) && new_branch_cand(
                    self.nodes@, idx as int) == Some(
                    (g.parent_segment_index as int, g.direction.x as int, g.direction.y as int))
                    && g.parent_segment_index + 2 < self.nodes@[idx as int].segments@.len()
                    && self.nodes@[idx as int].segments@[g.parent_segment_index as int].branch
                    is None,
                None => new_branch_cand(self.nodes@, idx as int) is None,
            },
    {
        proof {
            assert(node_wf(self.nodes@, idx as int));
        }
        let ghost segs = self.nodes@[idx as int].segments@;
        let seg_len = self.nodes[idx].segments.len();
        let lbi = self.nodes[idx].last_branch_index();
        proof {
            crate::branch::lemma_lbi(segs, seg_len as int);
        }
        let nbs = match lbi {
            None => seg_len / 2,
            Some(i) => i + (seg_len - i) / 2,
        };
        proof {
            assert(nbs == candidate_seg(segs));
            vstd::arithmetic::div_mod::lemma_div_pos_is_pos(seg_len as int, 2);
            vstd::arithmetic::div_mod::lemma_div_nonincreasing(seg_len as int, 2);
            match lbi_s(segs) {
                Some(i) => {
                    vstd::arithmetic::div_mod::lemma_div_nonincreasing(seg_len as int - i, 2);
                    vstd::arithmetic::div_mod::lemma_div_pos_is_pos(seg_len as int - i, 2);
                },
                None => {},
            }
            assert(nbs <= seg_len);
        }
        if nbs + 2 >= seg_len {
            proof {
                assert(!cand_ok(self.nodes@, idx as int));
            }
            return None;
        }
        proof {
            match lbi_s(segs) {
                Some(i) => {
                    if seg_len - i >= 2 {
                        assert((seg_len - i) / 2 >= 1) by {
                            vstd::arithmetic::div_mod::lemma_div_is_ordered(
                                2, seg_len as int - i, 2);
                        }
                    } else {
                        assert((seg_len - i) / 2 == 0);
                    }
                    assert(i < nbs);
                },
                None => {},
            }
            assert(segs[nbs as int].branch is None);
        }
        let u = self.nodes[idx].segments[nbs].vec();
        let dir: Point;
        match lbi {
            None => {
                dir = crate::geom::rotate_45(u.x, u.y, nbs % 2 == 1);
                proof {
                    assert(dir.x == cand_dir_x(self.nodes@, idx as int));
                    assert(dir.y == cand_dir_y(self.nodes@, idx as int));
                }
            },
            Some(i) => {
                let a = self.nodes[idx].segments[i].vec();
                let c = match self.nodes[idx].segments[i].branch {
                    Some(c) => c,
                    None => {
                        proof {
                            assert(false);
                        }
                        return None;
                    },
                };
                proof {
                    assert(node_wf(self.nodes@, c as int));
                }
                let b = self.nodes[c].segments[0].vec();
                dir = crate::geom::mirror_turn(a, b, u);
                proof {
                    assert(dir.x == cand_dir_x(self.nodes@, idx as int));
                    assert(dir.y == cand_dir_y(self.nodes@, idx as int));
                }
            },
        };
        if dir.x < -DIR_CAP || dir.x > DIR_CAP || dir.y < -DIR_CAP || dir.y > DIR_CAP {
            proof {
                assert(!cand_ok(self.nodes@, idx as int));
            }
            return None;
        }
        proof {
            assert(cand_ok(self.nodes@, idx as int));
        }
        let end = self.nodes[idx].segments[nbs].end;
        Some(
            GrowthDecision::NewBranch(
                crate::branch::GrowNewBranch {
                    direction: Point { x: end.x + dir.x, y: end.y + dir.y },
                    parent_segment_index: nbs,
                },
            ),
        )
    }

    /// Distributes one tick's new mass between elongation, branching
    /// and thickness: the weighted list of actions `decision_list_s`
    /// describes, its weights summing to one up to one millionth lost
    /// to rounding per feed-a-child action (see
    /// [`lemma_decision_weights`]).
    #[verifier::rlimit(100)]
    #[verifier::spinoff_prover]
    pub fn growth_decision(
        &self,
        idx: usize,
        soil: &MatrixSoil,
        new_material: i64,
        strategy: &BranchingStrategy,
    ) -> (r: Vec<(GrowthDecision, i64)>)
        requires
            arena_wf(self.nodes@),
            idx < self.nodes@.len(),
            strategy_wf(*strategy),
            masses_bounded(self.nodes@),
            bests_bounded(self.nodes@),
            lens_ok(self.nodes@),
        ensures
            r@ == decision_list_s(self.nodes@, idx as int, *strategy),
            r@.len() >= 1,
            forall|k: int| 0 <= k < r@.len() ==> 0 <= (#[trigger] r@[k]).1 <= FX_ONE,
    {
        let _ = soil;
        let _ = new_material;
        let ghost nodes = self.nodes@;
        proof {
            assert(node_wf(nodes, idx as int));
            lemma_children_share_range(*strategy);
        }
        let seg_len = self.nodes[idx].segments.len();
        let cwr = strategy.children_weight_rate;
        let cs = fx_div(cwr, cwr + FX_ONE);
        proof {
            assert(fx_div_s(FX_ONE as int, strategy.child_weight_rate as int) <= (FX_ONE as int)
                * (FX_ONE as int)) by {
                vstd::arithmetic::div_mod::lemma_div_is_ordered_by_denominator(
                    (FX_ONE as int) * (FX_ONE as int), 1, strategy.child_weight_rate as int);
            }
            vstd::arithmetic::div_mod::lemma_div_pos_is_pos(
                (FX_ONE as int) * (FX_ONE as int), strategy.child_weight_rate as int);
        }
        let min_mass = fx_div(FX_ONE, strategy.child_weight_rate);
        let lbi = self.nodes[idx].last_branch_index();
        proof {
            crate::branch::lemma_lbi(nodes[idx as int].segments@, seg_len as int);
        }
        let mut result: Vec<(GrowthDecision, i64)> = Vec::new();
        let attempted: bool = if self.nodes[idx].weight > min_mass {
            match lbi {
                None => true,
                Some(i) => 10 * i < 3 * seg_len,
            }
        } else {
            false
        };
        proof {
            assert(attempted == branching_attempted(nodes, idx as int, *strategy));
        }
        if attempted {
            match self.grow_new_branch(idx) {
                Some(d) => {
                    result.push((d, cs));
                },
                None => {},
            }
        }
        proof {
            if branching_attempted(nodes, idx as int, *strategy) && new_branch_cand(
                nodes, idx as int) is Some {
                assert(result@.len() == 1);
            } else {
                assert(result@.len() == 0);
            }
        }
        if result.len() == 0 {
            let mut total: i64 = 0;
            let mut j: usize = 0;
            while j < seg_len
                invariant
                    nodes == self.nodes@,
                    arena_wf(nodes),
                    bests_bounded(nodes),
                    idx < nodes.len(),
                    seg_len == nodes[idx as int].segments@.len(),
                    seg_len <= SEG_CAP,
                    j <= seg_len,
                    total == scores_total(nodes, idx as int, j as int),
                    0 <= total <= (j as int) * 2 * (GRID_CAP as int),
                decreases seg_len - j,
            {
                proof {
                    assert(node_wf(nodes, idx as int));
                    assert((j as int + 1) * 2 * (GRID_CAP as int) == (j as int) * 2 * (
                    GRID_CAP as int) + 2 * (GRID_CAP as int)) by (nonlinear_arith);
                }
                match self.nodes[idx].segments[j].branch {
                    Some(c) => {
                        let sc = self.nodes[c].best_nitro + self.nodes[c].best_water;
                        total = total + sc;
                    },
                    None => {},
                }
                j = j + 1;
            }
            if total > 0 {
                let mut j: usize = 0;
                while j < seg_len
                    invariant
                        nodes == self.nodes@,
                        arena_wf(nodes),
                        bests_bounded(nodes),
                        idx < nodes.len(),
                        seg_len == nodes[idx as int].segments@.len(),
                        seg_len <= SEG_CAP,
                        j <= seg_len,
                        0 < total,
                        total == scores_total(nodes, idx as int, seg_len as int),
                        0 <= cs < FX_ONE,
                        result@ == child_items(nodes, idx as int, cs as int, total as int, j as int),
                        forall|k: int| 0 <= k < result@.len() ==> 0 <= (#[trigger] result@[k]).1
                            <= cs,
                    decreases seg_len - j,
                {
                    proof {
                        assert(node_wf(nodes, idx as int));
                        lemma_scores(nodes, idx as int, j as int);
                        lemma_scores(nodes, idx as int, j as int + 1);
                    }
                    match self.nodes[idx].segments[j].branch {
                        Some(c) => {
                            let sc = self.nodes[c].best_nitro + self.nodes[c].best_water;
                            if sc > 0 {
                                proof {
                                    lemma_score_le_total(nodes, idx as int, j as int,
                                        seg_len as int);
                                    assert(0 <= (cs as int) * (sc as int) <= (cs as int) * (
                                    total as int)) by (nonlinear_arith)
                                        requires 0 <= cs, 0 < sc <= total;
                                    vstd::arithmetic::div_mod::lemma_div_pos_is_pos(
                                        (cs as int) * (sc as int), total as int);
                                    vstd::arithmetic::div_mod::lemma_multiply_divide_le(
                                        (cs as int) * (sc as int), total as int, cs as int);
                                    assert((total as int) * (cs as int) == (cs as int) * (
                                    total as int)) by (nonlinear_arith);
                                    assert((cs as int) * (sc as int) <= 1_000_000
                                        * 0x7fff_ffff_ffff_ffff) by (nonlinear_arith)
                                        requires
                                            0 <= cs < 1_000_000,
                                            0 < sc <= 0x7fff_ffff_ffff_ffff;
                                }
                                let share = (((cs as i128) * (sc as i128)) / (total as i128))
                                    as i64;
                                result.push((GrowthDecision::Child(GrowChild(j)), share));
                            }
                        },
                        None => {},
                    }
                    j = j + 1;
                }
            }
        }
        let my_share = if result.len() == 0 {
            FX_ONE
        } else {
            FX_ONE - cs
        };
        let radius = self.nodes[idx].get_radius();
        let my_dec: GrowthDecision;
        if radius > 0 {
            let lenfx = (seg_len as i64) * FX_ONE;
            proof {
                assert(fx_div_s(lenfx as int, radius as int) <= (lenfx as int) * (FX_ONE as int))
                    by {
                    vstd::arithmetic::div_mod::lemma_div_is_ordered_by_denominator(
                        (lenfx as int) * (FX_ONE as int), 1, radius as int);
                }
                vstd::arithmetic::div_mod::lemma_div_pos_is_pos(
                    (lenfx as int) * (FX_ONE as int), radius as int);
                assert((lenfx as int) * (FX_ONE as int) <= 0x4000_0000_0000_0000)
                    by (nonlinear_arith)
                    requires 0 <= lenfx <= 4096 * 1_000_000i64;
            }
            let ratio = fx_div(lenfx, radius);
            if ratio < strategy.conic_ratio {
                proof {
                    assert(seg_wf(nodes[idx as int].segments@[seg_len - 1]));
                }
                let last_start = self.nodes[idx].segments[seg_len - 1].start;
                let last_end = self.nodes[idx].segments[seg_len - 1].end;
                my_dec = GrowthDecision::Longer(
                    GrowLonger(
                        Point {
                            x: last_end.x + (last_end.x - last_start.x),
                            y: last_end.y + (last_end.y - last_start.y),
                        },
                    ),
                );
            } else {
                my_dec = GrowthDecision::Myself;
            }
        } else {
            my_dec = GrowthDecision::Myself;
        }
        proof {
            assert(my_decision_matches(nodes, idx as int, *strategy, my_dec));
        }
        result.push((my_dec, my_share));
        proof {
            reveal(decision_list_s);
            assert(result@ =~= decision_list_s(nodes, idx as int, *strategy));
        }
        result
    }

    /// Handles the `m`-th action of the decision list: folds it into
    /// the branch's own plan item or plans the named child's feeding.
    #[verifier::rlimit(100)]
    #[verifier::spinoff_prover]
    fn plan_one(
        &self,
        idx: usize,
        new_material: i64,
        soil: &MatrixSoil,
        strategy: &BranchingStrategy,
        decisions: &Vec<(GrowthDecision, i64)>,
        m: usize,
        me: NodePlan,
        kids: Vec<NodePlan>,
        done_seg: Ghost<int>,
    ) -> (r: (NodePlan, Vec<NodePlan>, Ghost<int>))
        requires
            arena_wf(self.nodes@),
            masses_bounded(self.nodes@),
            bests_bounded(self.nodes@),
            lens_ok(self.nodes@),
            strategy_wf(*strategy),
            idx < self.nodes@.len(),
            0 <= new_material <= NM_CAP,
            1 <= self.nodes@[idx as int].segments@.len() <= SEG_CAP,
            decisions_facts(self.nodes@, idx as int, decisions@),
            m < decisions@.len(),
            me.node == idx,
            0 <= me.thicken <= NM_CAP,
            m == 0 ==> me.thicken == 0 && me.sprout is None,
            me.extend is None,
            me_inv(self.nodes@, idx as int, me),
            kids_inv(self.nodes@, idx as int, done_seg@, kids@),
            -1 <= done_seg@ < self.nodes@[idx as int].segments@.len(),
            decisions@[m as int].0 matches GrowthDecision::Child(g) ==> g.0 > done_seg@,
        ensures
            r.0.node == idx,
            r.0.tick == me.tick,
            0 <= r.0.thicken <= 2 * NM_CAP,
            m + 1 < decisions@.len() ==> r.0.thicken <= NM_CAP,
            m + 1 < decisions@.len() ==> r.0.extend is None,
            me_inv(self.nodes@, idx as int, r.0),
            kids_inv(self.nodes@, idx as int, r.2@, r.1@),
            -1 <= r.2@ < self.nodes@[idx as int].segments@.len(),
            done_seg@ <= r.2@,
            decisions@[m as int].0 matches GrowthDecision::Child(g) ==> r.2@ == g.0,
            !(decisions@[m as int].0 is Child) ==> r.2@ == done_seg@,
            item_mass(r.0) + plan_mass(r.1@) <= item_mass(me) + plan_mass(kids@) + fx_mul_s(
                new_material as int, decisions@[m as int].1 as int),
            item_mass(r.0) + plan_mass(r.1@) >= item_mass(me) + plan_mass(kids@),
            item_mass(r.0) >= item_mass(me),
            m == decisions@.len() - 1 ==> item_mass(r.0) == item_mass(me) + fx_mul_s(
                new_material as int, decisions@[m as int].1 as int),
            r.0.sprout == (if decisions@[m as int].0 is NewBranch && point_ok(
                decisions@[m as int].0->NewBranch_0.direction,
            ) {
                Some(
                    (
                        decisions@[m as int].0->NewBranch_0.parent_segment_index,
                        decisions@[m as int].0->NewBranch_0.direction,
                        fx_mul_s(new_material as int, decisions@[m as int].1 as int) as i64,
                    ),
                )
            } else {
                me.sprout
            }),
            r.0.extend == (if decisions@[m as int].0 is Longer && point_ok(
                decisions@[m as int].0->Longer_0.0,
            ) {
                Some(
                    (
                        decisions@[m as int].0->Longer_0.0,
                        fx_mul_s(new_material as int, decisions@[m as int].1 as int) as i64,
                    ),
                )
            } else {
                me.extend
            }),
        decreases self.nodes@.len() - idx, 1int, 0int,
    {
        let ghost nodes = self.nodes@;
        let ghost me_in = me;
        let ghost kids_in = kids@;
        let mut me = me;
        let mut kids = kids;
        let ghost mut done_seg2: int = done_seg@;
        let dec_len = decisions.len();
        proof {
            reveal(decisions_facts);
            assert(node_wf(nodes, idx as int));
            assert(0 <= decisions@[m as int].1 <= FX_ONE);
            crate::fixed::lemma_fx_mul_share(
                new_material as int, decisions@[m as int].1 as int);
        }
        let seg_len = self.nodes[idx].segments.len();
        let w = decisions[m].1;
        let amt = fx_mul(new_material, w);
        match &decisions[m].0 {
            GrowthDecision::Myself => {
                me.thicken = me.thicken + amt;
                proof {
                    assert(m == dec_len - 1);
                    assert(item_mass(me) == item_mass(me_in) + amt);
                    assert(kids@ == kids_in);
                }
            },
            GrowthDecision::Longer(g) => {
                proof {
                    assert(m == dec_len - 1);
                }
                let tip = g.0;
                if tip.y >= 0 && tip.y <= COORD_CAP && tip.x >= -COORD_CAP && tip.x <= COORD_CAP {
                    proof {
                        assert(seg_wf(nodes[idx as int].segments@[seg_len as int - 1]));
                        assert(nodes[idx as int].segments@.last() == nodes[
                            idx as int].segments@[seg_len as int - 1]);
                    }
                    me.extend = Some((tip, amt));
                } else {
                    me.thicken = me.thicken + amt;
                }
                proof {
                    assert(item_mass(me) == item_mass(me_in) + amt);
                    assert(kids@ == kids_in);
                }
            },
            GrowthDecision::NewBranch(g) => {
                proof {
                    assert(m == 0);
                    assert(m < dec_len - 1);
                }
                let tip = g.direction;
                if tip.y >= 0 && tip.y <= COORD_CAP && tip.x >= -COORD_CAP && tip.x <= COORD_CAP {
                    me.sprout = Some((g.parent_segment_index, tip, amt));
                } else {
                    me.thicken = me.thicken + amt;
                }
                proof {
                    assert(item_mass(me) == item_mass(me_in) + amt);
                    assert(kids@ == kids_in);
                }
            },
            GrowthDecision::Child(g) => {
                let si = g.0;
                proof {
                    assert(m < dec_len - 1);
                    assert((si as int) < seg_len
                        && nodes[idx as int].segments@[si as int].branch is Some);
                }
                self.plan_child(idx, si, amt, soil, strategy, &mut kids, Ghost(done_seg2));
                proof {
                    done_seg2 = si as int;
                    assert(item_mass(me) == item_mass(me_in));
                    assert(plan_mass(kids_in) <= plan_mass(kids@) <= plan_mass(kids_in) + amt);
                }
            },
        }
        (me, kids, Ghost(done_seg2))
    }

    /// One step of the planner: handles the `m`-th action of the
    /// decision list and recurses to the next, so each step is checked
    /// on its own.
    #[verifier::rlimit(100)]
    #[verifier::spinoff_prover]
    fn plan_steps(
        &self,
        idx: usize,
        new_material: i64,
        soil: &MatrixSoil,
        strategy: &BranchingStrategy,
        decisions: &Vec<(GrowthDecision, i64)>,
        m: usize,
        me: NodePlan,
        kids: Vec<NodePlan>,
        done_seg: Ghost<int>,
    ) -> (r: (NodePlan, Vec<NodePlan>))
        requires
            arena_wf(self.nodes@),
            masses_bounded(self.nodes@),
            bests_bounded(self.nodes@),
            lens_ok(self.nodes@),
            strategy_wf(*strategy),
            idx < self.nodes@.len(),
            0 <= new_material <= NM_CAP,
            1 <= self.nodes@[idx as int].segments@.len() <= SEG_CAP,
            decisions_facts(self.nodes@, idx as int, decisions@),
            m <= decisions@.len(),
            me.node == idx,
            0 <= me.thicken <= 2 * NM_CAP,
            m < decisions@.len() ==> me.thicken <= NM_CAP,
            m == 0 ==> me.thicken == 0 && me.sprout is None,
            m < decisions@.len() ==> me.extend is None,
            0 <= me.tick <= (m as int) * NM_CAP,
            me.tick <= TICK_CAP,
            me_inv(self.nodes@, idx as int, me),
            kids_inv(self.nodes@, idx as int, done_seg@, kids@),
            -1 <= done_seg@ < self.nodes@[idx as int].segments@.len(),
            forall|k: int|
                m <= k < decisions@.len() - 1 ==> (#[trigger] decisions@[k]).0->Child_0.0
                    > done_seg@,
        ensures
            r.0.node == idx,
            0 <= r.0.thicken <= 3 * NM_CAP,
            0 <= r.0.tick <= TICK_CAP,
            r.0.tick == me.tick + (decisions@.len() - m as int) * new_material,
            me_inv(self.nodes@, idx as int, r.0),
            kids_inv(
                self.nodes@,
                idx as int,
                self.nodes@[idx as int].segments@.len() as int,
                r.1@,
            ),
            item_mass(r.0) + plan_mass(r.1@) <= item_mass(me) + plan_mass(kids@) + fx_mul_s(
                new_material as int, weights_from(decisions@, m as int)),
            item_mass(r.0) + plan_mass(r.1@) >= item_mass(me) + plan_mass(kids@),
            item_mass(r.0) >= item_mass(me),
            m < decisions@.len() ==> item_mass(r.0) >= item_mass(me) + fx_mul_s(
                new_material as int, decisions@[decisions@.len() - 1].1 as int),
            r.0.sprout == (if m == 0 && decisions@[0].0 is NewBranch && point_ok(
                decisions@[0].0->NewBranch_0.direction,
            ) {
                Some(
                    (
                        decisions@[0].0->NewBranch_0.parent_segment_index,
                        decisions@[0].0->NewBranch_0.direction,
                        fx_mul_s(new_material as int, decisions@[0].1 as int) as i64,
                    ),
                )
            } else {
                me.sprout
            }),
            r.0.extend == (if m < decisions@.len() && decisions@[decisions@.len() - 1].0
                is Longer && point_ok(decisions@[decisions@.len() - 1].0->Longer_0.0) {
                Some(
                    (
                        decisions@[decisions@.len() - 1].0->Longer_0.0,
                        fx_mul_s(
                            new_material as int,
                            decisions@[decisions@.len() - 1].1 as int,
                        ) as i64,
                    ),
                )
            } else {
                me.extend
            }),
        decreases self.nodes@.len() - idx, 2int, decisions@.len() - m,
    {
        let ghost nodes = self.nodes@;
        proof {
            reveal(decisions_facts);
        }
        let dec_len = decisions.len();
        if m >= dec_len {
            proof {
                lemma_kids_inv_mono(
                    nodes, idx as int, done_seg@, nodes[idx as int].segments@.len() as int, kids@);
                assert((decisions@.len() - m as int) * new_material == 0) by (nonlinear_arith)
                    requires decisions@.len() - m as int == 0;
            }
            return (me, kids);
        }
        let (mut me2, kids2, done2) = self.plan_one(
            idx, new_material, soil, strategy, decisions, m, me, kids, done_seg);
        proof {
            let nm = new_material as int;
            let wm = decisions@[m as int].1 as int;
            let rest = weights_from(decisions@, m as int + 1);
            lemma_weights_from_nonneg(decisions@, m as int + 1);
            assert(weights_from(decisions@, m as int) == wm + rest);
            lemma_step_budget(nm, wm, rest);
            assert((m as int + 1) * NM_CAP == (m as int) * NM_CAP + NM_CAP);
            assert((m as int + 1) * NM_CAP <= (SEG_CAP + 1) * NM_CAP);
            assert((decisions@.len() - m as int) * new_material == (decisions@.len() - (
            m as int + 1)) * new_material + new_material) by (nonlinear_arith);
        }
        me2.tick = me2.tick + new_material;
        self.plan_steps(
            idx, new_material, soil, strategy, decisions, m + 1, me2, kids2, done2)
    }

    /// Plans the feeding of the child anchored at segment `si` of
    /// branch `idx` with `amount` of material, and merges its plan
    /// items into the gathered ones.
    #[verifier::rlimit(100)]
    #[verifier::spinoff_prover]
    fn plan_child(
        &self,
        idx: usize,
        si: usize,
        amount: i64,
        soil: &MatrixSoil,
        strategy: &BranchingStrategy,
        kids: &mut Vec<NodePlan>,
        done_seg: Ghost<int>,
    )
        requires
            arena_wf(self.nodes@),
            masses_bounded(self.nodes@),
            bests_bounded(self.nodes@),
            lens_ok(self.nodes@),
            strategy_wf(*strategy),
            idx < self.nodes@.len(),
            (si as int) < self.nodes@[idx as int].segments@.len(),
            self.nodes@[idx as int].segments@[si as int].branch is Some,
            0 <= amount <= NM_CAP,
            done_seg@ < si as int,
            kids_inv(self.nodes@, idx as int, done_seg@, old(kids)@),
        ensures
            kids_inv(self.nodes@, idx as int, si as int, final(kids)@),
            plan_mass(old(kids)@) <= plan_mass(final(kids)@) <= plan_mass(old(kids)@) + amount,
        decreases self.nodes@.len() - idx, 0int, 0int,
    {
        let ghost nodes = self.nodes@;
        // Reading the length teaches the prover that it fits a usize.
        let _n_total = self.nodes.len();
        proof {
            assert(node_wf(nodes, idx as int));
        }
        let c = match self.nodes[idx].segments[si].branch {
            Some(c) => c,
            None => {
                proof {
                    assert(false);
                }
                return ;
            },
        };
        proof {
            assert((idx as int) < (c as int) < nodes.len());
        }
        let mut sub = self.grow_plan(c, amount, soil, strategy);
        proof {
            lemma_plan_merge(nodes, idx as int, si as int, c as int, done_seg@, kids@, sub@);
            lemma_plan_mass_concat(kids@, sub@);
        }
        kids.append(&mut sub);
    }

    /// Plans one growth step for the subtree at `idx` against the
    /// current, unchanged tree: one plan item per visited branch, in
    /// the pre-order the applier walks them. Placement guards are
    /// already decided: a dropped action's share is folded into its
    /// branch's thickening mass.
    #[verifier::rlimit(100)]
    #[verifier::spinoff_prover]
    fn grow_plan(
        &self,
        idx: usize,
        new_material: i64,
        soil: &MatrixSoil,
        strategy: &BranchingStrategy,
    ) -> (r: Vec<NodePlan>)
        requires
            arena_wf(self.nodes@),
            masses_bounded(self.nodes@),
            bests_bounded(self.nodes@),
            lens_ok(self.nodes@),
            strategy_wf(*strategy),
            idx < self.nodes@.len(),
            0 <= new_material <= NM_CAP,
        ensures
            plan_ok(self.nodes@, r@),
            forall|m: int|
                0 <= m < r@.len() ==> in_subtree(self.nodes@, idx as int, (
                #[trigger] r@[m]).node as int),
            0 <= plan_mass(r@) <= new_material,
            plan_mass(r@) >= fx_mul_s(
                new_material as int, FX_ONE as int - children_share_s(*strategy)),
            r@.len() >= 1,
            r@[0].node == idx,
            r@[0].tick == decision_list_s(self.nodes@, idx as int, *strategy).len()
                * new_material,
            r@[0].sprout == (if decision_list_s(self.nodes@, idx as int, *strategy)[0].0
                is NewBranch && point_ok(
                decision_list_s(self.nodes@, idx as int, *strategy)[0].0->NewBranch_0.direction,
            ) {
                Some(
                    (
                        decision_list_s(
                            self.nodes@,
                            idx as int,
                            *strategy,
                        )[0].0->NewBranch_0.parent_segment_index,
                        decision_list_s(
                            self.nodes@,
                            idx as int,
                            *strategy,
                        )[0].0->NewBranch_0.direction,
                        fx_mul_s(
                            new_material as int,
                            decision_list_s(self.nodes@, idx as int, *strategy)[0].1 as int,
                        ) as i64,
                    ),
                )
            } else {
                None
            }),
            r@[0].extend == (if decision_list_s(self.nodes@, idx as int, *strategy).last().0
                is Longer && point_ok(
                decision_list_s(self.nodes@, idx as int, *strategy).last().0->Longer_0.0,
            ) {
                Some(
                    (
                        decision_list_s(self.nodes@, idx as int, *strategy).last().0->Longer_0.0,
                        fx_mul_s(
                            new_material as int,
                            decision_list_s(self.nodes@, idx as int, *strategy).last().1 as int,
                        ) as i64,
                    ),
                )
            } else {
                None
            }),
        decreases self.nodes@.len() - idx, 3int, 0int,
    {
        let ghost nodes = self.nodes@;
        // Reading the length teaches the prover that it fits a usize.
        let _n_total = self.nodes.len();
        proof {
            assert(node_wf(nodes, idx as int));
            assert(nodes[idx as int].segments@.len() <= SEG_CAP);
        }
        let decisions = self.growth_decision(idx, soil, new_material, strategy);
        proof {
            lemma_decisions_facts(nodes, idx as int, *strategy);
            assert(decisions_facts(nodes, idx as int, decisions@));
        }
        let me0 = NodePlan { node: idx, sprout: None, extend: None, thicken: 0, tick: 0 };
        let kids0: Vec<NodePlan> = Vec::new();
        proof {
            assert(item_mass(me0) == 0);
            assert(plan_mass(kids0@) == 0);
        }
        let (me, mut kids) = self.plan_steps(
            idx, new_material, soil, strategy, &decisions, 0, me0, kids0, Ghost(-1));
        let ghost nm = new_material as int;
        proof {
            lemma_plan_budget(nodes, idx as int, *strategy, nm);
            assert(item_mass(me) + plan_mass(kids@) <= nm);
            assert(item_mass(me) >= fx_mul_s(nm, FX_ONE as int - children_share_s(*strategy)));
        }
        let mut result: Vec<NodePlan> = Vec::new();
        result.push(me);
        proof {
            reveal(in_subtree);
            assert(plan_entry_ok(nodes, result@[0]));
            assert(in_subtree(nodes, idx as int, idx as int));
            assert(plan_mass(result@) == item_mass(me)) by {
                lemma_plan_mass_push(Seq::<NodePlan>::empty(), me);
                assert(result@ =~= Seq::<NodePlan>::empty().push(me));
            }
            lemma_plan_mass_concat(result@, kids@);
            lemma_plan_mass_nonneg(nodes, kids@);
            assert(0 <= plan_mass(result@ + kids@) <= nm);
            assert(plan_mass(result@ + kids@) >= fx_mul_s(
                nm, FX_ONE as int - children_share_s(*strategy)));
        }
        result.append(&mut kids);
        result
    }

    /// Sprouts the planned child: appends the new branch node, seeded
    /// with its mass share, and links it at the anchoring segment.
    #[verifier::rlimit(100)]
    #[verifier::spinoff_prover]
    fn apply_sprout(&mut self, node: usize, seg: usize, tip: Point, amt: i64)
        requires
            arena_wf(old(self).nodes@),
            bests_bounded(old(self).nodes@),
            node < old(self).nodes@.len(),
            (seg as int) + 2 < old(self).nodes@[node as int].segments@.len(),
            old(self).nodes@[node as int].segments@[seg as int].branch is None,
            0 <= amt <= NM_CAP,
            0 <= tip.y <= COORD_CAP,
            -COORD_CAP <= tip.x <= COORD_CAP,
            -DIR_CAP <= tip.x - old(self).nodes@[node as int].segments@[seg as int].end.x
                <= DIR_CAP,
            -DIR_CAP <= tip.y - old(self).nodes@[node as int].segments@[seg as int].end.y
                <= DIR_CAP,
        ensures
            arena_wf(final(self).nodes@),
            bests_bounded(final(self).nodes@),
            final(self).nodes@.len() == old(self).nodes@.len() + 1,
            forall|k: int|
                0 <= k < old(self).nodes@.len() && k != node as int ==> final(self).nodes@[k]
                    == old(self).nodes@[k],
            grown_node(final(self).nodes@[node as int], old(self).nodes@[node as int]),
            final(self).nodes@[node as int].weight == old(self).nodes@[node as int].weight,
            final(self).nodes@[node as int].subtree_weight == old(self).nodes@[
                node as int].subtree_weight,
            final(self).nodes@[node as int].segments@.len() == old(self).nodes@[
                node as int].segments@.len(),
            total_mass(final(self).nodes@) == total_mass(old(self).nodes@) + amt,
            final(self).nodes@[node as int].segments@[seg as int].branch == Some(
                old(self).nodes@.len() as usize),
            sprouted_child(
                final(self).nodes@[old(self).nodes@.len() as int],
                old(self).nodes@[node as int],
                seg,
                tip,
                amt,
            ),
    {
        let ghost orig = old(self).nodes@;
        proof {
            assert(node_wf(orig, node as int));
            assert(seg_wf(orig[node as int].segments@[seg as int]));
        }
        let new_idx = self.nodes.len();
        let parent_end = self.nodes[node].segments[seg].end;
        let child = MLBranch::new_branch(parent_end, tip, seg, &self.nodes[node].id, amt);
        let ghost before_push = self.nodes@;
        self.nodes.push(child);
        proof {
            lemma_mass_push(before_push, child);
        }
        let ghost before_link = self.nodes@;
        self.nodes[node].segments[seg].branch = Some(new_idx);
        proof {
            lemma_mass_update(before_link, node as int, self.nodes@[node as int]);
            let cur = self.nodes@;
            assert forall|i: int| 0 <= i < cur.len() implies node_wf(cur, i) by {
                if i == new_idx as int {
                    assert(cur[i] == child);
                } else {
                    assert(node_wf(orig, i));
                    if i == node as int {
                        assert(cur[i].segments@.len() == orig[i].segments@.len());
                        assert forall|j: int| 0 <= j < cur[i].segments@.len()
                            implies (#[trigger] cur[i].segments@[j]) == if j == seg as int {
                                Segment {
                                    start: orig[i].segments@[j].start,
                                    end: orig[i].segments@[j].end,
                                    branch: Some(new_idx),
                                }
                            } else {
                                orig[i].segments@[j]
                            } by {}
                    } else {
                        assert(cur[i] == orig[i]);
                    }
                }
            }
            assert(links_injective(cur)) by {
                reveal(links_injective);
                assert forall|i1: int, j1: int, i2: int, j2: int|
                    0 <= i1 < cur.len() && 0 <= j1 < cur[i1].segments@.len() && 0 <= i2
                        < cur.len() && 0 <= j2 < cur[i2].segments@.len()
                        && cur[i1].segments@[j1].branch is Some
                        && #[trigger] cur[i1].segments@[j1].branch
                        == #[trigger] cur[i2].segments@[j2].branch
                    implies i1 == i2 && j1 == j2 by {
                    let t = cur[i1].segments@[j1].branch->Some_0;
                    if i1 == node as int && j1 == seg as int {
                        assert(t == new_idx);
                    } else if i1 < orig.len() {
                        assert(cur[i1].segments@[j1].branch == orig[i1].segments@[j1].branch);
                        assert(node_wf(orig, i1));
                        assert((t as int) < orig.len());
                    } else {
                        assert(cur[i1] == child);
                    }
                    if i2 == node as int && j2 == seg as int {
                        assert(t == new_idx);
                    } else if i2 < orig.len() {
                        assert(cur[i2].segments@[j2].branch == orig[i2].segments@[j2].branch);
                        assert(node_wf(orig, i2));
                        assert((t as int) < orig.len());
                    } else {
                        assert(cur[i2] == child);
                    }
                }
            }
        }
    }

    /// Appends the planned segment and adds its mass share.
    #[verifier::rlimit(100)]
    #[verifier::spinoff_prover]
    fn apply_extend(&mut self, node: usize, tip: Point, amt: i64)
        requires
            arena_wf(old(self).nodes@),
            bests_bounded(old(self).nodes@),
            node < old(self).nodes@.len(),
            0 <= amt <= NM_CAP,
            0 <= tip.y <= COORD_CAP,
            -COORD_CAP <= tip.x <= COORD_CAP,
            -DIR_CAP <= tip.x - old(self).nodes@[node as int].segments@.last().end.x <= DIR_CAP,
            -DIR_CAP <= tip.y - old(self).nodes@[node as int].segments@.last().end.y <= DIR_CAP,
            old(self).nodes@[node as int].weight <= crate::branch::MASS_CAP,
        ensures
            arena_wf(final(self).nodes@),
            bests_bounded(final(self).nodes@),
            final(self).nodes@.len() == old(self).nodes@.len(),
            forall|k: int|
                0 <= k < old(self).nodes@.len() && k != node as int ==> final(self).nodes@[k]
                    == old(self).nodes@[k],
            grown_node(final(self).nodes@[node as int], old(self).nodes@[node as int]),
            final(self).nodes@[node as int].weight == old(self).nodes@[node as int].weight + amt,
            final(self).nodes@[node as int].subtree_weight == old(self).nodes@[
                node as int].subtree_weight,
            final(self).nodes@[node as int].segments@.len() == old(self).nodes@[
                node as int].segments@.len() + 1,
            final(self).nodes@[node as int].segments@.last().start == old(self).nodes@[
                node as int].segments@.last().end,
            final(self).nodes@[node as int].segments@.last().end == tip,
            final(self).nodes@[node as int].segments@.last().branch is None,
            total_mass(final(self).nodes@) == total_mass(old(self).nodes@) + amt,
    {
        let ghost orig = old(self).nodes@;
        proof {
            assert(node_wf(orig, node as int));
            assert(seg_wf(orig[node as int].segments@[orig[node as int].segments@.len() - 1]));
        }
        let last = self.nodes[node].segments.len() - 1;
        let last_end = self.nodes[node].segments[last].end;
        self.nodes[node].segments.push(Segment::new(last_end, tip));
        let w = self.nodes[node].weight;
        self.nodes[node].weight = w + amt;
        proof {
            lemma_mass_update(orig, node as int, self.nodes@[node as int]);
            assert(self.nodes@ =~= orig.update(node as int, self.nodes@[node as int]));
            let cur = self.nodes@;
            assert forall|i: int| 0 <= i < cur.len() implies node_wf(cur, i) by {
                assert(node_wf(orig, i));
                if i == node as int {
                    assert(forall|j: int|
                        0 <= j < orig[i].segments@.len() ==> (#[trigger] cur[i].segments@[j])
                            == orig[i].segments@[j]);
                    assert(cur[i].segments@.last().branch is None);
                } else {
                    assert(cur[i] == orig[i]);
                }
            }
            assert(links_injective(cur)) by {
                reveal(links_injective);
                assert forall|i1: int, j1: int, i2: int, j2: int|
                    0 <= i1 < cur.len() && 0 <= j1 < cur[i1].segments@.len() && 0 <= i2
                        < cur.len() && 0 <= j2 < cur[i2].segments@.len()
                        && cur[i1].segments@[j1].branch is Some
                        && #[trigger] cur[i1].segments@[j1].branch
                        == #[trigger] cur[i2].segments@[j2].branch
                    implies i1 == i2 && j1 == j2 by {
                    assert(cur[i1].segments@[j1].branch == orig[i1].segments@[j1].branch);
                    assert(cur[i2].segments@[j2].branch == orig[i2].segments@[j2].branch);
                }
            }
        }
    }

    /// Applies one plan item to its branch: sprout the planned child,
    /// append the planned segment, and add the planned masses.
    #[verifier::rlimit(100)]
    #[verifier::spinoff_prover]
    fn apply_item(&mut self, p: &NodePlan)
        requires
            arena_wf(old(self).nodes@),
            bests_bounded(old(self).nodes@),
            plan_entry_ok(old(self).nodes@, *p),
            old(self).nodes@[p.node as int].weight <= crate::branch::MASS_CAP,
            old(self).nodes@[p.node as int].subtree_weight <= SUB_CAP,
        ensures
            arena_wf(final(self).nodes@),
            bests_bounded(final(self).nodes@),
            old(self).nodes@.len() <= final(self).nodes@.len() <= old(self).nodes@.len() + 1,
            forall|k: int|
                0 <= k < old(self).nodes@.len() && k != p.node as int ==> final(self).nodes@[k]
                    == old(self).nodes@[k],
            grown_node(final(self).nodes@[p.node as int], old(self).nodes@[p.node as int]),
            total_mass(final(self).nodes@) == total_mass(old(self).nodes@) + item_mass(*p),
            final(self).nodes@[p.node as int].segments@.len() <= old(self).nodes@[
                p.node as int].segments@.len() + 1,
            p.sprout is None ==> final(self).nodes@.len() == old(self).nodes@.len(),
            p.sprout matches Some((seg, tip, amt)) ==> {
                &&& final(self).nodes@.len() == old(self).nodes@.len() + 1
                &&& final(self).nodes@[p.node as int].segments@[seg as int].branch == Some(
                    old(self).nodes@.len() as usize)
                &&& sprouted_child(
                    final(self).nodes@[old(self).nodes@.len() as int],
                    old(self).nodes@[p.node as int],
                    seg,
                    tip,
                    amt,
                )
            },
            p.extend is None ==> final(self).nodes@[p.node as int].segments@.len() == old(
                self).nodes@[p.node as int].segments@.len(),
            p.extend matches Some((tip, _amt)) ==> {
                &&& final(self).nodes@[p.node as int].segments@.len() == old(self).nodes@[
                    p.node as int].segments@.len() + 1
                &&& final(self).nodes@[p.node as int].segments@.last().start == old(
                    self).nodes@[p.node as int].segments@.last().end
                &&& final(self).nodes@[p.node as int].segments@.last().end == tip
                &&& final(self).nodes@[p.node as int].segments@.last().branch is None
            },
            final(self).nodes@[p.node as int].subtree_weight == old(self).nodes@[
                p.node as int].subtree_weight + p.tick,
    {
        let ghost orig = old(self).nodes@;
        let node = p.node;
        match p.sprout {
            Some((seg, tip, amt)) => {
                self.apply_sprout(node, seg, tip, amt);
            },
            None => {},
        }
        let ghost after_sprout = self.nodes@;
        match p.extend {
            Some((tip, amt)) => {
                proof {
                    assert(grown_node(after_sprout[node as int], orig[node as int]));
                    assert(after_sprout[node as int].segments@.last().end == orig[
                        node as int].segments@.last().end);
                }
                self.apply_extend(node, tip, amt);
            },
            None => {},
        }
        let ghost after_extend = self.nodes@;
        let w = self.nodes[node].weight;
        self.nodes[node].weight = w + p.thicken;
        let sw = self.nodes[node].subtree_weight;
        self.nodes[node].subtree_weight = sw + p.tick;
        proof {
            lemma_mass_update(after_extend, node as int, self.nodes@[node as int]);
            let cur = self.nodes@;
            assert(cur =~= after_extend.update(node as int, cur[node as int]));
            assert forall|i: int| 0 <= i < cur.len() implies node_wf(cur, i) by {
                assert(node_wf(after_extend, i));
                if i != node as int {
                    assert(cur[i] == after_extend[i]);
                }
            }
            assert(links_injective(cur)) by {
                reveal(links_injective);
                assert forall|i1: int, j1: int, i2: int, j2: int|
                    0 <= i1 < cur.len() && 0 <= j1 < cur[i1].segments@.len() && 0 <= i2
                        < cur.len() && 0 <= j2 < cur[i2].segments@.len()
                        && cur[i1].segments@[j1].branch is Some
                        && #[trigger] cur[i1].segments@[j1].branch
                        == #[trigger] cur[i2].segments@[j2].branch
                    implies i1 == i2 && j1 == j2 by {
                    assert(cur[i1].segments@ == after_extend[i1].segments@);
                    assert(cur[i2].segments@ == after_extend[i2].segments@);
                }
            }
        }
    }

    /// Applies one growth step to the subtree at `idx`: distributes
    /// `new_material` according to [`Self::growth_decision`] at every
    /// branch the feed actions reach — elongating, sprouting, feeding
    /// and thickening — while every placement that would rise above
    /// the surface datum or leave the machine bounds is dropped and
    /// its share thickens its branch instead. The tree only grows:
    /// nodes are appended, never removed, every branch keeps its
    /// identity and loses no mass, no branch gains more than one
    /// segment, the whole tree's biomass gain stays within the
    /// material and covers at least the branch's own share, an
    /// accepted elongation appends exactly its decided segment, and an
    /// accepted new branch hangs its decided child at the decided
    /// segment.
    pub fn grow(
        &mut self,
        idx: usize,
        new_material: i64,
        soil: &MatrixSoil,
        strategy: &BranchingStrategy,
    )
        requires
            arena_wf(old(self).nodes@),
            masses_bounded(old(self).nodes@),
            bests_bounded(old(self).nodes@),
            lens_ok(old(self).nodes@),
            strategy_wf(*strategy),
            idx < old(self).nodes@.len(),
            0 <= new_material <= NM_CAP,
        ensures
            arena_wf(final(self).nodes@),
            bests_bounded(final(self).nodes@),
            grown_from(final(self).nodes@, old(self).nodes@),
            total_mass(old(self).nodes@) <= total_mass(final(self).nodes@) <= total_mass(
                old(self).nodes@) + new_material,
            total_mass(final(self).nodes@) >= total_mass(old(self).nodes@) + fx_mul_s(
                new_material as int, FX_ONE as int - children_share_s(*strategy)),
            forall|k: int|
                0 <= k < old(self).nodes@.len() ==> (#[trigger] final(
                    self).nodes@[k]).segments@.len() <= old(self).nodes@[k].segments@.len() + 1,
            ({
                let list = decision_list_s(old(self).nodes@, idx as int, *strategy);
                list.last().0 is Longer && point_ok(list.last().0->Longer_0.0) ==> {
                    &&& final(self).nodes@[idx as int].segments@.len() == old(self).nodes@[
                        idx as int].segments@.len() + 1
                    &&& final(self).nodes@[idx as int].segments@.last().start == old(
                        self).nodes@[idx as int].segments@.last().end
                    &&& final(self).nodes@[idx as int].segments@.last().end == list.last(
                    ).0->Longer_0.0
                    &&& final(self).nodes@[idx as int].segments@.last().branch is None
                }
            }),
            ({
                let list = decision_list_s(old(self).nodes@, idx as int, *strategy);
                !(list.last().0 is Longer && point_ok(list.last().0->Longer_0.0)) ==> final(
                    self).nodes@[idx as int].segments@.len() == old(self).nodes@[
                    idx as int].segments@.len()
            }),
            final(self).nodes@[idx as int].subtree_weight == old(self).nodes@[
                idx as int].subtree_weight + decision_list_s(
                old(self).nodes@, idx as int, *strategy).len() * new_material,
            ({
                let list = decision_list_s(old(self).nodes@, idx as int, *strategy);
                list[0].0 is NewBranch && point_ok(list[0].0->NewBranch_0.direction) ==> {
                    &&& final(self).nodes@.len() > old(self).nodes@.len()
                    &&& final(self).nodes@[idx as int].segments@[
                        list[0].0->NewBranch_0.parent_segment_index as int
                    ].branch == Some(old(self).nodes@.len() as usize)
                    &&& sprouted_child(
                        final(self).nodes@[old(self).nodes@.len() as int],
                        old(self).nodes@[idx as int],
                        list[0].0->NewBranch_0.parent_segment_index,
                        list[0].0->NewBranch_0.direction,
                        fx_mul_s(new_material as int, list[0].1 as int) as i64,
                    )
                }
            }),
    {
        let ghost orig = self.nodes@;
        let plan = self.grow_plan(idx, new_material, soil, strategy);
        let plan_len = plan.len();
        proof {
            assert(plan_entry_ok(orig, plan@[0]));
            lemma_plan_mass_take_step(plan@, 0);
            assert(plan@.take(0) =~= Seq::<NodePlan>::empty());
        }
        self.apply_item(&plan[0]);
        let ghost after0 = self.nodes@;
        let mut m: usize = 1;
        while m < plan_len
            invariant
                plan_len == plan@.len(),
                1 <= m <= plan_len,
                plan_ok(orig, plan@),
                plan@[0].node == idx,
                idx < orig.len(),
                arena_wf(self.nodes@),
                bests_bounded(self.nodes@),
                masses_bounded(orig),
                grown_from(self.nodes@, orig),
                total_mass(self.nodes@) == total_mass(orig) + plan_mass(plan@.take(m as int)),
                forall|k: int|
                    0 <= k < orig.len() ==> (#[trigger] self.nodes@[k]).segments@.len()
                        <= orig[k].segments@.len() + 1,
                orig.len() <= self.nodes@.len(),
                after0.len() <= self.nodes@.len(),
                self.nodes@[idx as int] == after0[idx as int],
                orig.len() < after0.len() ==> self.nodes@[orig.len() as int] == after0[
                    orig.len() as int],
                forall|m2: int|
                    m <= m2 < plan_len ==> self.nodes@[(#[trigger] plan@[m2]).node as int]
                        == orig[plan@[m2].node as int],
            decreases plan_len - m,
        {
            let ghost before = self.nodes@;
            proof {
                assert(plan_entry_ok(orig, plan@[m as int]));
                assert(before[plan@[m as int].node as int] == orig[plan@[m as int].node as int]);
                assert(plan_entry_ok(before, plan@[m as int]));
                lemma_plan_mass_take_step(plan@, m as int);
                assert(plan@[m as int].node != plan@[0].node);
            }
            self.apply_item(&plan[m]);
            proof {
                assert forall|m2: int| m + 1 <= m2 < plan_len
                    implies self.nodes@[(#[trigger] plan@[m2]).node as int]
                        == orig[plan@[m2].node as int] by {
                    assert(plan@[m2].node != plan@[m as int].node);
                }
                assert forall|k: int| 0 <= k < orig.len()
                    implies grown_node(#[trigger] self.nodes@[k], orig[k]) by {
                    if k != plan@[m as int].node as int {
                        assert(self.nodes@[k] == before[k]);
                    } else {
                        assert(before[k] == orig[k]);
                    }
                }
            }
            m = m + 1;
        }
        proof {
            assert(plan@.take(plan_len as int) =~= plan@);
            assert(grown_from(self.nodes@, orig));
        }
    }

    /// One uptake pass over the subtree rooted at `idx`: extracts both
    /// resources at every segment endpoint of the subtree, returns the
    /// two totals, and overwrites each visited branch's best-resource
    /// summaries with the highest single sample of its own subtree.
    /// Extraction is non-destructive (see
    /// [`MatrixSoil::consume_resource`]), so the grid is unchanged.
    #[verifier::rlimit(100)]
    pub fn suck(&mut self, idx: usize, soil: &mut MatrixSoil) -> (r: (i64, i64))
        requires
            arena_wf(old(self).nodes@),
            old(soil).wf(),
            idx < old(self).nodes@.len(),
            counts_ok(old(self).nodes@),
            bests_bounded(old(self).nodes@),
        ensures
            *final(soil) == *old(soil),
            same_skeleton(final(self).nodes@, old(self).nodes@),
            arena_wf(final(self).nodes@),
            bests_bounded(final(self).nodes@),
            r.0 == subtree_uptake(old(self).nodes@, *old(soil), idx as int, Resource::Nitro),
            r.1 == subtree_uptake(old(self).nodes@, *old(soil), idx as int, Resource::Water),
            0 <= r.0 <= SEG_CAP as int * (GRID_CAP as int),
            0 <= r.1 <= SEG_CAP as int * (GRID_CAP as int),
            final(self).nodes@[idx as int].best_nitro == subtree_best(
                old(self).nodes@, *old(soil), idx as int, Resource::Nitro),
            final(self).nodes@[idx as int].best_water == subtree_best(
                old(self).nodes@, *old(soil), idx as int, Resource::Water),
            forall|k: int|
                0 <= k < old(self).nodes@.len() ==> ((final(self).nodes@[k].best_nitro == old(
                    self).nodes@[k].best_nitro && final(self).nodes@[k].best_water == old(
                    self).nodes@[k].best_water) || (final(self).nodes@[k].best_nitro
                    == subtree_best(old(self).nodes@, *old(soil), k, Resource::Nitro) && final(
                    self).nodes@[k].best_water == subtree_best(
                    old(self).nodes@, *old(soil), k, Resource::Water))),
            forall|k: int|
                0 <= k < old(self).nodes@.len() && !in_subtree(old(self).nodes@, idx as int, k)
                    ==> (final(self).nodes@[k].best_nitro == old(self).nodes@[k].best_nitro
                    && final(self).nodes@[k].best_water == old(self).nodes@[k].best_water),
        decreases old(self).nodes@.len() - idx,
    {
        let ghost orig = old(self).nodes@;
        let ghost soil0 = *old(soil);
        // Reading the length teaches the prover that it fits a usize.
        let _n_total = self.nodes.len();
        let len = self.nodes[idx].segments.len();
        let mut total_nitro: i64 = 0;
        let mut total_water: i64 = 0;
        let mut best_nitro: i64 = 0;
        let mut best_water: i64 = 0;
        let mut j: usize = 0;
        proof {
            lemma_bounds_subtree(orig, soil0, idx as int, Resource::Nitro);
            lemma_bounds_subtree(orig, soil0, idx as int, Resource::Water);
            assert(subtree_seg_count(orig, idx as int) * (GRID_CAP as int) <= SEG_CAP as int * (
            GRID_CAP as int)) by (nonlinear_arith)
                requires
                    subtree_seg_count(orig, idx as int) <= SEG_CAP as int,
                    0 <= subtree_seg_count(orig, idx as int);
        }
        while j < len
            invariant
                orig == old(self).nodes@,
                orig.len() <= usize::MAX,
                arena_wf(self.nodes@),
                same_skeleton(self.nodes@, orig),
                bests_bounded(self.nodes@),
                arena_wf(orig),
                counts_ok(orig),
                soil0.wf(),
                *soil == soil0,
                idx < orig.len(),
                len == orig[idx as int].segments@.len(),
                j <= len,
                total_nitro == uptake_sum(orig, soil0, idx as int, j as int, Resource::Nitro),
                total_water == uptake_sum(orig, soil0, idx as int, j as int, Resource::Water),
                best_nitro == best_upto(orig, soil0, idx as int, j as int, Resource::Nitro),
                best_water == best_upto(orig, soil0, idx as int, j as int, Resource::Water),
                subtree_uptake(orig, soil0, idx as int, Resource::Nitro) <= SEG_CAP as int * (
                GRID_CAP as int),
                subtree_uptake(orig, soil0, idx as int, Resource::Water) <= SEG_CAP as int * (
                GRID_CAP as int),
                forall|k: int|
                    0 <= k < orig.len() ==> ((self.nodes@[k].best_nitro == orig[k].best_nitro
                        && self.nodes@[k].best_water == orig[k].best_water) || (
                    self.nodes@[k].best_nitro == subtree_best(orig, soil0, k, Resource::Nitro)
                        && self.nodes@[k].best_water == subtree_best(
                        orig, soil0, k, Resource::Water))),
                forall|k: int|
                    0 <= k < orig.len() && !in_subtree(orig, idx as int, k) ==> (
                    self.nodes@[k].best_nitro == orig[k].best_nitro && self.nodes@[k].best_water
                        == orig[k].best_water),
            decreases len - j,
        {
            proof {
                assert(same_skeleton_node(self.nodes@[idx as int], orig[idx as int]));
                lemma_uptake_prefix(orig, soil0, idx as int, j as int + 1, Resource::Nitro);
                lemma_uptake_prefix(orig, soil0, idx as int, j as int + 1, Resource::Water);
                lemma_bounds_upto(orig, soil0, idx as int, j as int + 1, Resource::Nitro);
                lemma_bounds_upto(orig, soil0, idx as int, j as int + 1, Resource::Water);
                lemma_bounds_upto(orig, soil0, idx as int, j as int, Resource::Nitro);
                lemma_bounds_upto(orig, soil0, idx as int, j as int, Resource::Water);
            }
            let pos = self.nodes[idx].segments[j].end;
            let n = soil.consume_resource(pos, Resource::Nitro, crate::fixed::FX_ONE);
            let w = soil.consume_resource(pos, Resource::Water, crate::fixed::FX_ONE);
            let link = self.nodes[idx].segments[j].branch;
            match link {
                Some(c) => {
                    proof {
                        assert(node_wf(self.nodes@, idx as int));
                        assert forall|i: int| 0 <= i < self.nodes@.len()
                            implies subtree_seg_count(self.nodes@, i) <= SEG_CAP by {
                            lemma_frame_subtree(self.nodes@, orig, soil0, i, Resource::Nitro);
                        }
                    }
                    let ghost at_call = self.nodes@;
                    let (cn, cw) = self.suck(c, soil);
                    proof {
                        lemma_frame_subtree(at_call, orig, soil0, c as int, Resource::Nitro);
                        lemma_frame_subtree(at_call, orig, soil0, c as int, Resource::Water);
                        assert forall|k: int| 0 <= k < orig.len()
                            implies ((self.nodes@[k].best_nitro == orig[k].best_nitro
                                && self.nodes@[k].best_water == orig[k].best_water) || (
                            self.nodes@[k].best_nitro == subtree_best(
                                orig, soil0, k, Resource::Nitro) && self.nodes@[k].best_water
                                == subtree_best(orig, soil0, k, Resource::Water))) by {
                            lemma_frame_subtree(at_call, orig, soil0, k, Resource::Nitro);
                            lemma_frame_subtree(at_call, orig, soil0, k, Resource::Water);
                        }
                        assert forall|k: int|
                            0 <= k < orig.len() && !in_subtree(orig, idx as int, k)
                            implies (self.nodes@[k].best_nitro == orig[k].best_nitro
                                && self.nodes@[k].best_water == orig[k].best_water) by {
                            lemma_frame_in_subtree(at_call, orig, c as int, k);
                            if in_subtree(orig, c as int, k) {
                                assert(orig[idx as int].segments@[j as int].branch == Some(c));
                                lemma_subtree_member(
                                    orig, idx as int, j as int + 1, c as int, k);
                            }
                        }
                        lemma_bounds_subtree(orig, soil0, c as int, Resource::Nitro);
                        lemma_bounds_subtree(orig, soil0, c as int, Resource::Water);
                    }
                    total_nitro = total_nitro + n + cn;
                    total_water = total_water + w + cw;
                    let child_bn = self.nodes[c].best_nitro;
                    let child_bw = self.nodes[c].best_water;
                    if n > best_nitro && n >= child_bn {
                        best_nitro = n;
                    } else if child_bn > best_nitro {
                        best_nitro = child_bn;
                    }
                    if w > best_water && w >= child_bw {
                        best_water = w;
                    } else if child_bw > best_water {
                        best_water = child_bw;
                    }
                },
                None => {
                    total_nitro = total_nitro + n;
                    total_water = total_water + w;
                    if n > best_nitro {
                        best_nitro = n;
                    }
                    if w > best_water {
                        best_water = w;
                    }
                },
            }
            j = j + 1;
        }
        self.nodes[idx].best_nitro = best_nitro;
        self.nodes[idx].best_water = best_water;
        proof {
            lemma_bounds_upto(orig, soil0, idx as int, len as int, Resource::Nitro);
            lemma_bounds_upto(orig, soil0, idx as int, len as int, Resource::Water);
            lemma_wf_skeleton(self.nodes@, orig);
            assert(in_subtree(orig, idx as int, idx as int)) by {
                reveal(in_subtree);
            }
        }
        (total_nitro, total_water)
    }
}

/// The children's share of a tick's new material: solves
/// children-to-own ratio `c / (1 - c) == children_weight_rate`.
pub open spec fn children_share_s(s: BranchingStrategy) -> int {
    fx_div_s(s.children_weight_rate as int, s.children_weight_rate as int + FX_ONE as int)
}

/// The own mass above which branching is attempted: one standard child
/// mass over the child weight rate.
pub open spec fn min_mass_s(s: BranchingStrategy) -> int {
    fx_div_s(FX_ONE as int, s.child_weight_rate as int)
}

/// Whether the branch is heavy enough and its branches sit early
/// enough (within the first 30% of its length) to try a new branch.
pub open spec fn branching_attempted(nodes: Seq<MLBranch>, idx: int, s: BranchingStrategy)
    -> bool {
    let segs = nodes[idx].segments@;
    nodes[idx].weight > min_mass_s(s) && match lbi_s(segs) {
        None => true,
        Some(i) => 10 * i < 3 * segs.len(),
    }
}

/// The candidate segment for a new branch: half the length on a branch
/// with no children yet, else the midpoint between the latest
/// branch-off segment and the tip.
pub open spec fn candidate_seg(segs: Seq<Segment>) -> int {
    match lbi_s(segs) {
        None => segs.len() as int / 2,
        Some(i) => i + (segs.len() - i) / 2,
    }
}

/// The direction of the candidate new branch. On a first branch, the
/// candidate segment's direction turned a quarter of a right angle,
/// its sense alternating with the segment's parity; on later branches,
/// the latest sibling's branching turn, mirrored.
pub open spec fn cand_dir_x(nodes: Seq<MLBranch>, idx: int) -> int {
    let segs = nodes[idx].segments@;
    let nbs = candidate_seg(segs);
    let u = segs[nbs];
    match lbi_s(segs) {
        None => rot45_x_s(u.end.x - u.start.x, u.end.y - u.start.y, nbs % 2 == 1),
        Some(i) => {
            let a = segs[i];
            let b = nodes[a.branch->Some_0 as int].segments@[0];
            mirror_x_s(
                a.end.x - a.start.x,
                a.end.y - a.start.y,
                b.end.x - b.start.x,
                b.end.y - b.start.y,
                u.end.x - u.start.x,
                u.end.y - u.start.y,
            )
        },
    }
}

/// The second coordinate of the candidate direction.
pub open spec fn cand_dir_y(nodes: Seq<MLBranch>, idx: int) -> int {
    let segs = nodes[idx].segments@;
    let nbs = candidate_seg(segs);
    let u = segs[nbs];
    match lbi_s(segs) {
        None => rot45_y_s(u.end.x - u.start.x, u.end.y - u.start.y, nbs % 2 == 1),
        Some(i) => {
            let a = segs[i];
            let b = nodes[a.branch->Some_0 as int].segments@[0];
            mirror_y_s(
                a.end.x - a.start.x,
                a.end.y - a.start.y,
                b.end.x - b.start.x,
                b.end.y - b.start.y,
                u.end.x - u.start.x,
                u.end.y - u.start.y,
            )
        },
    }
}

/// Whether the candidate is accepted: not within the last two
/// segments, not on a segment that already owns a branch, and with a
/// direction inside its bounds.
pub open spec fn cand_ok(nodes: Seq<MLBranch>, idx: int) -> bool {
    let segs = nodes[idx].segments@;
    let nbs = candidate_seg(segs);
    &&& nbs + 2 < segs.len()
    &&& segs[nbs].branch is None
    &&& -DIR_CAP <= cand_dir_x(nodes, idx) <= DIR_CAP
    &&& -DIR_CAP <= cand_dir_y(nodes, idx) <= DIR_CAP
}

/// The accepted new-branch candidate, if any: the anchoring segment
/// and the endpoint of the new branch's first segment.
pub open spec fn new_branch_cand(nodes: Seq<MLBranch>, idx: int) -> Option<(int, int, int)> {
    let segs = nodes[idx].segments@;
    let nbs = candidate_seg(segs);
    if cand_ok(nodes, idx) {
        Some((nbs, segs[nbs].end.x + cand_dir_x(nodes, idx), segs[nbs].end.y + cand_dir_y(
            nodes, idx)))
    } else {
        None
    }
}

/// A child's claim on the children's share: the sum of its best
/// resource samples. Zero for a childless segment.
pub open spec fn child_score(nodes: Seq<MLBranch>, idx: int, j: int) -> int {
    match nodes[idx].segments@[j].branch {
        Some(c) => {
            if 0 <= c < nodes.len() {
                nodes[c as int].best_nitro + nodes[c as int].best_water
            } else {
                0
            }
        },
        None => 0,
    }
}

/// The total claim of the children anchored at the first `j` segments.
pub open spec fn scores_total(nodes: Seq<MLBranch>, idx: int, j: int) -> int
    decreases j,
{
    if j <= 0 {
        0
    } else {
        scores_total(nodes, idx, j - 1) + child_score(nodes, idx, j - 1)
    }
}

/// The feed-a-child actions over the first `j` segments: one action per
/// child with a positive claim, weighted by its share of the total.
pub open spec fn child_items(nodes: Seq<MLBranch>, idx: int, cs: int, total: int, j: int) -> Seq<
    (GrowthDecision, i64),
>
    decreases j,
{
    if j <= 0 {
        Seq::empty()
    } else {
        let rest = child_items(nodes, idx, cs, total, j - 1);
        if nodes[idx].segments@[j - 1].branch is Some && child_score(nodes, idx, j - 1) > 0 {
            rest.push(
                (
                    GrowthDecision::Child(GrowChild((j - 1) as usize)),
                    ((cs * child_score(nodes, idx, j - 1)) / total) as i64,
                ),
            )
        } else {
            rest
        }
    }
}

/// Whether the branch still elongates: its length-to-radius ratio is
/// below the policy's conic ratio. A zero radius reads as an infinite
/// ratio, so the branch thickens.
pub open spec fn elongates(nodes: Seq<MLBranch>, idx: int, s: BranchingStrategy) -> bool {
    let n = nodes[idx];
    let r = radius_s(n.weight as int, n.segments@.len() as int);
    r > 0 && fx_div_s(n.segments@.len() * (FX_ONE as int), r) < s.conic_ratio
}

/// The next point of an elongating branch: the last segment's
/// direction continued from its endpoint.
pub open spec fn next_point_s(segs: Seq<Segment>) -> (int, int) {
    let last = segs[segs.len() - 1];
    (last.end.x + last.end.x - last.start.x, last.end.y + last.end.y - last.start.y)
}

/// The branch's own action: elongate while the conic ratio allows,
/// thicken afterwards.
pub open spec fn my_decision_matches(
    nodes: Seq<MLBranch>,
    idx: int,
    s: BranchingStrategy,
    d: GrowthDecision,
) -> bool {
    if elongates(nodes, idx, s) {
        d matches GrowthDecision::Longer(g) && g.0.x == next_point_s(nodes[idx].segments@).0
            && g.0.y == next_point_s(nodes[idx].segments@).1
    } else {
        d is Myself
    }
}

/// The weight of each action of a decision list, summed.
pub open spec fn sum_weights(s: Seq<(GrowthDecision, i64)>) -> int {
    sum_int(s.map_values(|p: (GrowthDecision, i64)| p.1 as int))
}

/// Subtree segment counts are non-negative, and a prefix count covers
/// at least the prefix itself.
pub proof fn lemma_cnt_ge_upto(nodes: Seq<MLBranch>, idx: int, j: int)
    ensures
        seg_cnt(nodes, idx, j) >= if 0 <= idx < nodes.len() && j >= 0 {
            j
        } else {
            0
        },
    decreases nodes.len() - idx, j,
{
    if 0 <= idx < nodes.len() && j > 0 {
        lemma_cnt_ge_upto(nodes, idx, j - 1);
        match nodes[idx].segments@[j - 1].branch {
            Some(c) => {
                if idx < c < nodes.len() {
                    lemma_cnt_ge_subtree(nodes, c as int);
                }
            },
            None => {},
        }
    }
}

/// A whole subtree holds at least its root's own segments.
pub proof fn lemma_cnt_ge_subtree(nodes: Seq<MLBranch>, idx: int)
    ensures
        subtree_seg_count(nodes, idx) >= if 0 <= idx < nodes.len() {
            nodes[idx].segments@.len() as int
        } else {
            0
        },
    decreases nodes.len() - idx, nodes[idx].segments@.len() + 1,
{
    if 0 <= idx < nodes.len() {
        lemma_cnt_ge_upto(nodes, idx, nodes[idx].segments@.len() as int);
    }
}

/// Claims are non-negative and bounded, so their prefix totals are
/// monotone and bounded.
pub proof fn lemma_scores(nodes: Seq<MLBranch>, idx: int, j: int)
    requires
        bests_bounded(nodes),
        0 <= j,
    ensures
        0 <= scores_total(nodes, idx, j) <= j * 2 * (GRID_CAP as int),
        forall|k: int|
            0 <= k <= j ==> #[trigger] scores_total(nodes, idx, k) <= scores_total(nodes, idx, j),
    decreases j,
{
    if j > 0 {
        lemma_scores(nodes, idx, j - 1);
    }
}

/// One claim never exceeds a total it is part of.
pub proof fn lemma_score_le_total(nodes: Seq<MLBranch>, idx: int, j: int, len: int)
    requires
        bests_bounded(nodes),
        0 <= j < len,
    ensures
        child_score(nodes, idx, j) <= scores_total(nodes, idx, len),
{
    lemma_scores(nodes, idx, j);
    lemma_scores(nodes, idx, len);
    assert(scores_total(nodes, idx, j + 1) == scores_total(nodes, idx, j) + child_score(
        nodes, idx, j));
}

/// The whole growth decision: the weighted list of actions one tick's
/// new material is split over. First the children's part — the new
/// branch when one is placed, else one feed action per scoring child —
/// then the branch's own action with the remaining share, or the whole
/// share when no child action was emitted.
#[verifier::opaque]
pub open spec fn decision_list_s(nodes: Seq<MLBranch>, idx: int, s: BranchingStrategy) -> Seq<
    (GrowthDecision, i64),
> {
    let segs = nodes[idx].segments@;
    let cs = children_share_s(s);
    let child_part: Seq<(GrowthDecision, i64)> = if branching_attempted(nodes, idx, s)
        && new_branch_cand(nodes, idx) is Some {
        let (nbs, nx, ny) = new_branch_cand(nodes, idx)->Some_0;
        seq![
            (
                GrowthDecision::NewBranch(
                    GrowNewBranch {
                        direction: Point { x: nx as i64, y: ny as i64 },
                        parent_segment_index: nbs as usize,
                    },
                ),
                cs as i64,
            ),
        ]
    } else {
        let total = scores_total(nodes, idx, segs.len() as int);
        if total > 0 {
            child_items(nodes, idx, cs, total, segs.len() as int)
        } else {
            Seq::empty()
        }
    };
    let my_share: int = if child_part.len() == 0 {
        FX_ONE as int
    } else {
        FX_ONE as int - cs
    };
    let my_dec: GrowthDecision = if elongates(nodes, idx, s) {
        GrowthDecision::Longer(
            GrowLonger(
                Point {
                    x: next_point_s(segs).0 as i64,
                    y: next_point_s(segs).1 as i64,
                },
            ),
        )
    } else {
        GrowthDecision::Myself
    };
    child_part.push((my_dec, my_share as i64))
}

/// The children's share of one is a proper share: at least zero,
/// under one.
pub proof fn lemma_children_share_range(s: BranchingStrategy)
    requires
        strategy_wf(s),
    ensures
        0 <= children_share_s(s) < FX_ONE as int,
{
    let f = FX_ONE as int;
    let a = s.children_weight_rate as int;
    vstd::arithmetic::div_mod::lemma_div_pos_is_pos(a * f, a + f);
    assert(a * f < (a + f) * f) by (nonlinear_arith)
        requires 0 < a, 0 < f;
    vstd::arithmetic::div_mod::lemma_multiply_divide_lt(a * f, a + f, f);
}

/// Each feed-a-child action carries a share between zero and the
/// children's share.
pub proof fn lemma_child_items_each(
    nodes: Seq<MLBranch>,
    idx: int,
    cs: int,
    total: int,
    j: int,
)
    requires
        bests_bounded(nodes),
        0 <= cs <= 0x7fff_ffff_ffff_ffff,
        0 < total,
        scores_total(nodes, idx, j) <= total,
    ensures
        forall|k: int|
            0 <= k < child_items(nodes, idx, cs, total, j).len() ==> 0 <= (
            #[trigger] child_items(nodes, idx, cs, total, j)[k]).1 <= cs,
    decreases j,
{
    if j > 0 {
        lemma_scores(nodes, idx, j);
        lemma_scores(nodes, idx, j - 1);
        lemma_child_items_each(nodes, idx, cs, total, j - 1);
        let sc = child_score(nodes, idx, j - 1);
        if nodes[idx].segments@[j - 1].branch is Some && sc > 0 {
            assert(0 < sc <= total);
            assert(0 <= (cs * sc) / total <= cs) by {
                assert(0 <= cs * sc <= cs * total) by (nonlinear_arith)
                    requires 0 <= cs, 0 < sc <= total;
                vstd::arithmetic::div_mod::lemma_div_pos_is_pos(cs * sc, total);
                vstd::arithmetic::div_mod::lemma_multiply_divide_le(cs * sc, total, cs);
                assert(total * cs == cs * total) by (nonlinear_arith);
            }
            assert(child_items(nodes, idx, cs, total, j).drop_last() =~= child_items(
                nodes, idx, cs, total, j - 1));
        }
    }
}

/// One child's share cannot exceed the whole total's claim: each score
/// is at most the total it was summed into.
proof fn lemma_child_score_in_total(nodes: Seq<MLBranch>, idx: int, cs: int, total: int, j: int)
    requires
        bests_bounded(nodes),
        0 <= cs <= 0x7fff_ffff_ffff_ffff,
        0 < total,
        0 <= j,
        scores_total(nodes, idx, j) <= total,
    ensures
        child_items(nodes, idx, cs, total, j).len() <= j,
        (cs * scores_total(nodes, idx, j)) / total - child_items(
            nodes, idx, cs, total, j).len() <= sum_weights(child_items(nodes, idx, cs, total, j))
            <= (cs * scores_total(nodes, idx, j)) / total,
    decreases j,
{
    let f = FX_ONE as int;
    if j <= 0 {
        assert(child_items(nodes, idx, cs, total, j) =~= Seq::<(GrowthDecision, i64)>::empty());
        assert(sum_weights(Seq::<(GrowthDecision, i64)>::empty()) == 0) by {
            assert(Seq::<(GrowthDecision, i64)>::empty().map_values(
                |p: (GrowthDecision, i64)| p.1 as int) =~= Seq::<int>::empty());
        }
        vstd::arithmetic::div_mod::lemma_div_pos_is_pos(cs * 0, total);
        assert(cs * 0 == 0) by (nonlinear_arith);
    } else {
        lemma_scores(nodes, idx, j);
        lemma_scores(nodes, idx, j - 1);
        assert(scores_total(nodes, idx, j - 1) <= total);
        lemma_child_score_in_total(nodes, idx, cs, total, j - 1);
        let st0 = scores_total(nodes, idx, j - 1);
        let st1 = scores_total(nodes, idx, j);
        let sc = child_score(nodes, idx, j - 1);
        let prev = child_items(nodes, idx, cs, total, j - 1);
        if nodes[idx].segments@[j - 1].branch is Some && sc > 0 {
            let share = (cs * sc) / total;
            let items = child_items(nodes, idx, cs, total, j);
            assert(items == prev.push((GrowthDecision::Child(GrowChild((j - 1) as usize)),
                share as i64)));
            assert(0 <= cs * sc <= cs * total) by (nonlinear_arith)
                requires 0 <= cs, 0 < sc <= total;
            vstd::arithmetic::div_mod::lemma_div_pos_is_pos(cs * sc, total);
            vstd::arithmetic::div_mod::lemma_multiply_divide_le(cs * sc, total, cs);
            assert(share as i64 as int == share) by {
                assert(share <= cs);
                assert(total * cs == cs * total) by (nonlinear_arith);
            }
            assert(sum_weights(items) == sum_weights(prev) + share) by {
                assert(items.map_values(|p: (GrowthDecision, i64)| p.1 as int) =~= prev.map_values(
                    |p: (GrowthDecision, i64)| p.1 as int).push(share as i64 as int));
                crate::sums::lemma_sum_push(prev.map_values(
                    |p: (GrowthDecision, i64)| p.1 as int), share as i64 as int);
            }
            assert(cs * st1 == cs * st0 + cs * sc) by (nonlinear_arith)
                requires st1 == st0 + sc;
            assert(0 <= cs * st0) by (nonlinear_arith)
                requires 0 <= cs, 0 <= st0;
            crate::fixed::lemma_floor_superadd(cs * st0, cs * sc, total);
        } else {
            assert(child_items(nodes, idx, cs, total, j) == prev);
            assert(st1 == st0);
        }
    }
}

/// The weights of a growth decision sum to one, up to one millionth
/// lost to rounding per feed-a-child action: the sum lies between
/// one minus the count of child actions (in millionths) and one.
pub proof fn lemma_decision_weights(nodes: Seq<MLBranch>, idx: int, s: BranchingStrategy)
    requires
        strategy_wf(s),
        bests_bounded(nodes),
        0 <= idx < nodes.len(),
    ensures
        decision_list_s(nodes, idx, s).len() >= 1,
        sum_weights(decision_list_s(nodes, idx, s)) <= FX_ONE as int,
        sum_weights(decision_list_s(nodes, idx, s)) >= FX_ONE as int - (decision_list_s(
            nodes, idx, s).len() - 1),
{
    reveal(decision_list_s);
    let f = FX_ONE as int;
    let segs = nodes[idx].segments@;
    let cs = children_share_s(s);
    lemma_children_share_range(s);
    let list = decision_list_s(nodes, idx, s);
    let child_part = list.drop_last();
    let my = list.last();
    assert(sum_weights(list) == sum_weights(child_part) + my.1 as int) by {
        assert(list.map_values(|p: (GrowthDecision, i64)| p.1 as int) =~= child_part.map_values(
            |p: (GrowthDecision, i64)| p.1 as int).push(my.1 as int));
        crate::sums::lemma_sum_push(child_part.map_values(
            |p: (GrowthDecision, i64)| p.1 as int), my.1 as int);
    }
    if branching_attempted(nodes, idx, s) && new_branch_cand(nodes, idx) is Some {
        assert(sum_weights(child_part) == cs) by {
            assert(child_part.map_values(|p: (GrowthDecision, i64)| p.1 as int) =~= Seq::<
                int,
            >::empty().push(cs));
            crate::sums::lemma_sum_push(Seq::<int>::empty(), cs);
            assert(sum_int(Seq::<int>::empty()) == 0);
        }
    } else {
        let total = scores_total(nodes, idx, segs.len() as int);
        if total > 0 {
            lemma_scores(nodes, idx, segs.len() as int);
            lemma_child_score_in_total(nodes, idx, cs, total, segs.len() as int);
            assert(child_part =~= child_items(nodes, idx, cs, total, segs.len() as int));
            assert((cs * total) / total == cs) by {
                vstd::arithmetic::div_mod::lemma_div_multiples_vanish(cs, total);
                assert(cs * total == total * cs) by (nonlinear_arith);
            }
        } else {
            assert(child_part =~= Seq::<(GrowthDecision, i64)>::empty());
            assert(sum_weights(child_part) == 0) by {
                assert(child_part.map_values(|p: (GrowthDecision, i64)| p.1 as int) =~= Seq::<
                    int,
                >::empty());
            }
        }
    }
}

/// Each feed-a-child action names a segment that anchors a scoring
/// child, and the named segments increase strictly along the list.
pub proof fn lemma_child_items_members(
    nodes: Seq<MLBranch>,
    idx: int,
    cs: int,
    total: int,
    j: int,
)
    requires
        0 <= j <= usize::MAX,
    ensures
        forall|k: int|
            0 <= k < child_items(nodes, idx, cs, total, j).len()
                ==> ((#[trigger] child_items(nodes, idx, cs, total, j)[k]).0 matches
                GrowthDecision::Child(g) && g.0 < j && 0 <= g.0
                && nodes[idx].segments@[g.0 as int].branch is Some && child_score(
                nodes, idx, g.0 as int) > 0),
        forall|k1: int, k2: int|
            0 <= k1 < k2 < child_items(nodes, idx, cs, total, j).len()
                ==> (#[trigger] child_items(nodes, idx, cs, total, j)[k1]).0->Child_0.0 < (
            #[trigger] child_items(nodes, idx, cs, total, j)[k2]).0->Child_0.0,
    decreases j,
{
    if j > 0 {
        lemma_child_items_members(nodes, idx, cs, total, j - 1);
        let prev = child_items(nodes, idx, cs, total, j - 1);
        let cur = child_items(nodes, idx, cs, total, j);
        if nodes[idx].segments@[j - 1].branch is Some && child_score(nodes, idx, j - 1) > 0 {
            assert(cur.drop_last() =~= prev);
            assert(forall|k: int| 0 <= k < prev.len() ==> cur[k] == prev[k]);
            assert(cur[cur.len() - 1].0 == GrowthDecision::Child(GrowChild((j - 1) as usize)));
            assert(cur[cur.len() - 1].0->Child_0.0 == j - 1);
            assert forall|k: int| 0 <= k < cur.len() - 1
                implies (#[trigger] cur[k]).0->Child_0.0 < j - 1 by {
                assert(cur[k] == prev[k]);
            }
        } else {
            assert(cur == prev);
        }
    }
}

/// One planned change to one branch of the tree: at most one sprouted
/// child, at most one appended segment, a mass gain, and the tick's
/// bookkeeping gain, applied to distinct nodes item by item.
pub struct NodePlan {
    /// The branch this item applies to.
    pub node: usize,
    /// A new child: its anchoring segment, the endpoint of its first
    /// segment, and the biomass it is seeded with.
    pub sprout: Option<(usize, Point, i64)>,
    /// A new segment: its endpoint and the biomass gained with it.
    pub extend: Option<(Point, i64)>,
    /// Biomass gained without growing: the thicken share, and every
    /// share whose action was dropped by a placement guard.
    pub thicken: i64,
    /// What the subtree bookkeeping gains: the full, unweighted tick
    /// material once per applied action, a deliberate accounting rule
    /// of the growth model.
    pub tick: i64,
}

/// The most one node's bookkeeping may gain in a tick.
pub const TICK_CAP: i64 = 0x400_4000_0000_0000;

/// A plan item is applicable: its targets exist, are free, and all its
/// masses and points are bounded.
pub open spec fn plan_entry_ok(nodes: Seq<MLBranch>, p: NodePlan) -> bool {
    &&& (p.node as int) < nodes.len()
    &&& 0 <= p.thicken <= 3 * NM_CAP
    &&& 0 <= p.tick <= TICK_CAP
    &&& match p.sprout {
        Some((seg, tip, amt)) => {
            &&& seg + 2 < nodes[p.node as int].segments@.len()
            &&& nodes[p.node as int].segments@[seg as int].branch is None
            &&& 0 <= amt <= NM_CAP
            &&& 0 <= tip.y <= COORD_CAP
            &&& -COORD_CAP <= tip.x <= COORD_CAP
            &&& -DIR_CAP <= tip.x - nodes[p.node as int].segments@[seg as int].end.x <= DIR_CAP
            &&& -DIR_CAP <= tip.y - nodes[p.node as int].segments@[seg as int].end.y <= DIR_CAP
        },
        None => true,
    }
    &&& match p.extend {
        Some((tip, amt)) => {
            &&& 0 <= amt <= NM_CAP
            &&& 0 <= tip.y <= COORD_CAP
            &&& -COORD_CAP <= tip.x <= COORD_CAP
            &&& -DIR_CAP <= tip.x - nodes[p.node as int].segments@.last().end.x <= DIR_CAP
            &&& -DIR_CAP <= tip.y - nodes[p.node as int].segments@.last().end.y <= DIR_CAP
        },
        None => true,
    }
}

/// A whole plan is applicable: every item is, and no two items touch
/// the same node.
pub open spec fn plan_ok(nodes: Seq<MLBranch>, plan: Seq<NodePlan>) -> bool {
    &&& (forall|m: int| 0 <= m < plan.len() ==> plan_entry_ok(nodes, #[trigger] plan[m]))
    &&& (forall|m1: int, m2: int|
        0 <= m1 < m2 < plan.len() ==> (#[trigger] plan[m1]).node != (#[trigger] plan[m2]).node)
}

/// The shape of a growth decision list: every action before the last
/// feeds a child at a linked segment (except a leading new-branch
/// action), fed segments increase strictly, the last action is the
/// branch's own, and every weight is a share of one.
#[verifier::opaque]
pub open spec fn decisions_facts(
    nodes: Seq<MLBranch>,
    idx: int,
    list: Seq<(GrowthDecision, i64)>,
) -> bool {
    let segs = nodes[idx].segments@;
    &&& 1 <= list.len() <= SEG_CAP + 1
    &&& (forall|k: int| 0 <= k < list.len() ==> 0 <= (#[trigger] list[k]).1 <= FX_ONE)
    &&& (forall|k: int|
        0 <= k < list.len() - 1 ==> (((#[trigger] list[k]).0 matches GrowthDecision::Child(g)
            && 0 <= g.0 && (g.0 as int) < segs.len() && segs[g.0 as int].branch is Some) || (k == 0
            && list.len() == 2 && list[k].0 is NewBranch)))
    &&& (forall|k1: int, k2: int|
        0 <= k1 < k2 < list.len() - 1 ==> (#[trigger] list[k1]).0->Child_0.0 < (
        #[trigger] list[k2]).0->Child_0.0)
    &&& (list[list.len() - 1].0 matches GrowthDecision::Longer(g) ==> {
        let last = segs[segs.len() - 1];
        &&& g.0.x == last.end.x + last.end.x - last.start.x
        &&& g.0.y == last.end.y + last.end.y - last.start.y
    })
    &&& (list[list.len() - 1].0 is Longer || list[list.len() - 1].0 is Myself)
    &&& (forall|k: int|
        0 <= k < list.len() ==> ((#[trigger] list[k]).0 matches GrowthDecision::NewBranch(g) ==> {
            &&& (g.parent_segment_index as int) + 2 < segs.len()
            &&& segs[g.parent_segment_index as int].branch is None
            &&& -DIR_CAP <= g.direction.x - segs[g.parent_segment_index as int].end.x <= DIR_CAP
            &&& -DIR_CAP <= g.direction.y - segs[g.parent_segment_index as int].end.y <= DIR_CAP
        }))
    &&& sum_weights(list) <= FX_ONE as int
    &&& 1 <= list[list.len() - 1].1
}

/// The branch's own share closes every decision list: at least one
/// minus the children's share, so never zero.
pub proof fn lemma_decision_last_share(nodes: Seq<MLBranch>, idx: int, s: BranchingStrategy)
    requires
        strategy_wf(s),
    ensures
        decision_list_s(nodes, idx, s).len() >= 1,
        decision_list_s(nodes, idx, s).last().1 as int >= FX_ONE as int - children_share_s(s),
        decision_list_s(nodes, idx, s).last().1 as int <= FX_ONE as int,
        1 <= decision_list_s(nodes, idx, s).last().1,
{
    reveal(decision_list_s);
    lemma_children_share_range(s);
    let list = decision_list_s(nodes, idx, s);
    assert(list.last().1 as int == FX_ONE as int || list.last().1 as int == FX_ONE as int
        - children_share_s(s));
}

/// A well-formed branch's decision list has the shape above.
#[verifier::rlimit(100)]
#[verifier::spinoff_prover]
pub proof fn lemma_decisions_facts(nodes: Seq<MLBranch>, idx: int, s: BranchingStrategy)
    requires
        arena_wf(nodes),
        strategy_wf(s),
        bests_bounded(nodes),
        0 <= idx < nodes.len(),
        nodes[idx].segments@.len() <= SEG_CAP,
        nodes.len() <= usize::MAX,
    ensures
        decisions_facts(nodes, idx, decision_list_s(nodes, idx, s)),
{
    reveal(decision_list_s);
    reveal(decisions_facts);
    let list = decision_list_s(nodes, idx, s);
    let segs = nodes[idx].segments@;
    let cs = children_share_s(s);
    lemma_children_share_range(s);
    assert(node_wf(nodes, idx));
    assert(seg_wf(segs[segs.len() - 1]));
    assert(list.last().0 matches GrowthDecision::Longer(g) ==> {
        let last = segs[segs.len() - 1];
        g.0.x == last.end.x + last.end.x - last.start.x && g.0.y == last.end.y + last.end.y
            - last.start.y
    }) by {
        if elongates(nodes, idx, s) {
            let last = segs[segs.len() - 1];
            assert(-3 * COORD_CAP <= last.end.x + last.end.x - last.start.x <= 3 * COORD_CAP);
            assert(-3 * COORD_CAP <= last.end.y + last.end.y - last.start.y <= 3 * COORD_CAP);
        }
    }
    lemma_decision_weights(nodes, idx, s);
    lemma_decision_last_share(nodes, idx, s);
    assert(0 <= candidate_seg(segs)) by {
        vstd::arithmetic::div_mod::lemma_div_pos_is_pos(segs.len() as int, 2);
        match lbi_s(segs) {
            Some(i) => {
                crate::branch::lemma_lbi(segs, segs.len() as int);
                vstd::arithmetic::div_mod::lemma_div_pos_is_pos(segs.len() - i, 2);
            },
            None => {},
        }
    }
    if branching_attempted(nodes, idx, s) && new_branch_cand(nodes, idx) is Some {
        let (nbs, nx, ny) = new_branch_cand(nodes, idx)->Some_0;
        assert(cand_ok(nodes, idx));
        assert(nbs == candidate_seg(segs));
        assert(0 <= nbs && nbs + 2 < segs.len());
        assert(seg_wf(segs[nbs]));
        assert(list.len() == 2);
        assert(list[0].0 matches GrowthDecision::NewBranch(g) && g.parent_segment_index == nbs
            && g.direction.x == nx && g.direction.y == ny) by {
            assert(-COORD_CAP - DIR_CAP <= nx <= COORD_CAP + DIR_CAP);
            assert(-COORD_CAP - DIR_CAP <= ny <= COORD_CAP + DIR_CAP);
            assert(0 <= nbs <= usize::MAX);
        }
    } else {
        let total = scores_total(nodes, idx, segs.len() as int);
        if total > 0 {
            lemma_scores(nodes, idx, segs.len() as int);
            lemma_child_score_in_total(nodes, idx, cs, total, segs.len() as int);
            lemma_child_items_members(nodes, idx, cs, total, segs.len() as int);
            lemma_child_items_each(nodes, idx, cs, total, segs.len() as int);
            let items = child_items(nodes, idx, cs, total, segs.len() as int);
            assert(list.drop_last() =~= items);
            assert(forall|k: int| 0 <= k < items.len() ==> list[k] == items[k]);
        } else {
            assert(list.len() == 1);
        }
    }
}

/// A freshly sprouted child of `parent`, anchored at its segment
/// `seg`: one segment from that segment's endpoint to `tip`, seeded
/// with `amt` of biomass, addressed under the parent, with empty
/// uptake summaries.
pub open spec fn sprouted_child(c: MLBranch, parent: MLBranch, seg: usize, tip: Point, amt: i64)
    -> bool {
    &&& c.id.plant == parent.id.plant
    &&& c.id.branch_path@ == parent.id.branch_path@.push(seg)
    &&& c.segments@.len() == 1
    &&& c.segments@[0].start == parent.segments@[seg as int].end
    &&& c.segments@[0].end == tip
    &&& c.segments@[0].branch is None
    &&& c.parent_segment_index == seg
    &&& c.weight == amt
    &&& c.subtree_weight == amt
    &&& c.best_nitro == 0
    &&& c.best_water == 0
}

/// A point a growth placement accepts: at or below the surface datum
/// and within the coordinate bounds.
pub open spec fn point_ok(p: Point) -> bool {
    0 <= p.y <= COORD_CAP && -COORD_CAP <= p.x <= COORD_CAP
}

/// The biomass one plan item commits: its thickening mass plus the
/// masses behind its sprout and its extension.
pub open spec fn item_mass(p: NodePlan) -> int {
    p.thicken + (match p.sprout {
        Some((_seg, _tip, amt)) => amt as int,
        None => 0,
    }) + (match p.extend {
        Some((_tip, amt)) => amt as int,
        None => 0,
    })
}

/// The biomass a whole plan commits.
pub open spec fn plan_mass(plan: Seq<NodePlan>) -> int
    decreases plan.len(),
{
    if plan.len() == 0 {
        0
    } else {
        plan_mass(plan.drop_last()) + item_mass(plan.last())
    }
}

/// Appending one item adds its mass to the plan's.
pub proof fn lemma_plan_mass_push(plan: Seq<NodePlan>, p: NodePlan)
    ensures
        plan_mass(plan.push(p)) == plan_mass(plan) + item_mass(p),
{
    assert(plan.push(p).drop_last() =~= plan);
}

/// Plans concatenate additively.
pub proof fn lemma_plan_mass_concat(a: Seq<NodePlan>, b: Seq<NodePlan>)
    ensures
        plan_mass(a + b) == plan_mass(a) + plan_mass(b),
    decreases b.len(),
{
    if b.len() == 0 {
        assert(a + b =~= a);
    } else {
        assert((a + b).drop_last() =~= a + b.drop_last());
        assert((a + b).last() == b.last());
        lemma_plan_mass_concat(a, b.drop_last());
    }
}

/// An applicable plan commits a non-negative mass.
pub proof fn lemma_plan_mass_nonneg(nodes: Seq<MLBranch>, plan: Seq<NodePlan>)
    requires
        forall|m: int| 0 <= m < plan.len() ==> plan_entry_ok(nodes, #[trigger] plan[m]),
    ensures
        plan_mass(plan) >= 0,
    decreases plan.len(),
{
    if plan.len() > 0 {
        lemma_plan_mass_nonneg(nodes, plan.drop_last());
        assert(plan_entry_ok(nodes, plan[plan.len() - 1]));
    }
}

/// One growth-step extension keeps the prefix: a prefix one longer
/// gains the new item's mass.
pub proof fn lemma_plan_mass_take_step(plan: Seq<NodePlan>, m: int)
    requires
        0 <= m < plan.len(),
    ensures
        plan_mass(plan.take(m + 1)) == plan_mass(plan.take(m)) + item_mass(plan[m]),
{
    assert(plan.take(m + 1).drop_last() =~= plan.take(m));
}

/// The weight still to be distributed from action `m` on.
pub open spec fn weights_from(list: Seq<(GrowthDecision, i64)>, m: int) -> int
    decreases list.len() - m,
{
    if m < 0 || m >= list.len() {
        0
    } else {
        list[m].1 + weights_from(list, m + 1)
    }
}

/// The remaining weight and the spent weight make the whole sum.
pub proof fn lemma_weights_from_total(list: Seq<(GrowthDecision, i64)>, m: int)
    requires
        0 <= m <= list.len(),
    ensures
        weights_from(list, m) + sum_weights(list.take(m)) == sum_weights(list),
    decreases list.len() - m,
{
    if m == list.len() {
        assert(list.take(m) =~= list);
    } else {
        lemma_weights_from_total(list, m + 1);
        assert(sum_weights(list.take(m + 1)) == sum_weights(list.take(m)) + list[m].1 as int) by {
            assert(list.take(m + 1).map_values(|p: (GrowthDecision, i64)| p.1 as int)
                =~= list.take(m).map_values(|p: (GrowthDecision, i64)| p.1 as int).push(
                list[m].1 as int));
            crate::sums::lemma_sum_push(
                list.take(m).map_values(|p: (GrowthDecision, i64)| p.1 as int), list[m].1 as int);
        }
    }
}

/// Remaining weights of a list of shares are non-negative.
pub proof fn lemma_weights_from_nonneg(list: Seq<(GrowthDecision, i64)>, m: int)
    requires
        forall|k: int| 0 <= k < list.len() ==> 0 <= (#[trigger] list[k]).1,
    ensures
        weights_from(list, m) >= 0,
    decreases list.len() - m,
{
    if 0 <= m < list.len() {
        lemma_weights_from_nonneg(list, m + 1);
    }
}

/// Distributing a budget over two shares never exceeds distributing it
/// over their sum.
pub proof fn lemma_step_budget(nm: int, wm: int, rest: int)
    requires
        0 <= nm,
        0 <= wm,
        0 <= rest,
    ensures
        fx_mul_s(nm, wm) + fx_mul_s(nm, rest) <= fx_mul_s(nm, wm + rest),
        0 <= fx_mul_s(nm, wm),
{
    let f = FX_ONE as int;
    assert(0 <= nm * wm && 0 <= nm * rest && nm * wm + nm * rest == nm * (wm + rest))
        by (nonlinear_arith)
        requires 0 <= nm, 0 <= wm, 0 <= rest;
    crate::fixed::lemma_floor_superadd(nm * wm, nm * rest, f);
    vstd::arithmetic::div_mod::lemma_div_pos_is_pos(nm * wm, f);
}

/// Opens the decision-list shape facts for a proof that needs its
/// weight clauses.
proof fn proof_facts_open(nodes: Seq<MLBranch>, idx: int, list: Seq<(GrowthDecision, i64)>)
    requires
        decisions_facts(nodes, idx, list),
    ensures
        1 <= list.len(),
        forall|k: int| 0 <= k < list.len() ==> 0 <= (#[trigger] list[k]).1 <= FX_ONE,
        sum_weights(list) <= FX_ONE as int,
        1 <= list[list.len() - 1].1,
{
    reveal(decisions_facts);
}

/// The whole decision list's weight distributes at most the budget,
/// and the branch's own closing share distributes at least the
/// non-children part of it.
pub proof fn lemma_plan_budget(nodes: Seq<MLBranch>, idx: int, s: BranchingStrategy, nm: int)
    requires
        arena_wf(nodes),
        strategy_wf(s),
        bests_bounded(nodes),
        0 <= idx < nodes.len(),
        nodes[idx].segments@.len() <= SEG_CAP,
        nodes.len() <= usize::MAX,
        0 <= nm,
    ensures
        0 <= weights_from(decision_list_s(nodes, idx, s), 0),
        fx_mul_s(nm, weights_from(decision_list_s(nodes, idx, s), 0)) <= nm,
        fx_mul_s(
            nm,
            decision_list_s(nodes, idx, s)[decision_list_s(nodes, idx, s).len() - 1].1 as int,
        ) >= fx_mul_s(nm, FX_ONE as int - children_share_s(s)),
        0 <= FX_ONE as int - children_share_s(s),
{
    let list = decision_list_s(nodes, idx, s);
    lemma_decisions_facts(nodes, idx, s);
    proof_facts_open(nodes, idx, list);
    lemma_children_share_range(s);
    lemma_decision_last_share(nodes, idx, s);
    lemma_weights_from_total(list, 0);
    assert(sum_weights(list.take(0)) == 0) by {
        assert(list.take(0).map_values(|p: (GrowthDecision, i64)| p.1 as int) =~= Seq::<
            int,
        >::empty());
    }
    lemma_weights_from_nonneg(list, 0);
    crate::fixed::lemma_fx_mul_mono(nm, weights_from(list, 0), FX_ONE as int);
    crate::fixed::lemma_fx_mul_mono(
        nm, FX_ONE as int - children_share_s(s), list[list.len() - 1].1 as int);
}

/// The invariant of the plan item a branch builds for itself: the
/// sprout and extension targets are valid against the unchanged tree.
pub open spec fn me_inv(nodes: Seq<MLBranch>, idx: int, me: NodePlan) -> bool {
    &&& me.node == idx
    &&& match me.sprout {
        Some((seg, tip, amt)) => {
            &&& (seg as int) + 2 < nodes[idx].segments@.len()
            &&& nodes[idx].segments@[seg as int].branch is None
            &&& 0 <= amt <= NM_CAP
            &&& 0 <= tip.y <= COORD_CAP
            &&& -COORD_CAP <= tip.x <= COORD_CAP
            &&& -DIR_CAP <= tip.x - nodes[idx].segments@[seg as int].end.x <= DIR_CAP
            &&& -DIR_CAP <= tip.y - nodes[idx].segments@[seg as int].end.y <= DIR_CAP
        },
        None => true,
    }
    &&& match me.extend {
        Some((tip, amt)) => {
            &&& 0 <= amt <= NM_CAP
            &&& 0 <= tip.y <= COORD_CAP
            &&& -COORD_CAP <= tip.x <= COORD_CAP
            &&& -DIR_CAP <= tip.x - nodes[idx].segments@.last().end.x <= DIR_CAP
            &&& -DIR_CAP <= tip.y - nodes[idx].segments@.last().end.y <= DIR_CAP
        },
        None => true,
    }
}

/// The invariant of the child plans gathered so far: applicable,
/// pairwise on distinct nodes, all strictly below `idx`, and touching
/// nothing below a child anchored past `done_seg`.
pub open spec fn kids_inv(nodes: Seq<MLBranch>, idx: int, done_seg: int, kids: Seq<NodePlan>)
    -> bool {
    &&& plan_ok(nodes, kids)
    &&& (forall|mm: int|
        0 <= mm < kids.len() ==> in_subtree(nodes, idx, (#[trigger] kids[mm]).node as int) && (
        #[trigger] kids[mm]).node as int != idx)
    &&& (forall|mm: int, jj: int|
        0 <= mm < kids.len() && done_seg < jj < nodes[idx].segments@.len() && (
        #[trigger] nodes[idx].segments@[jj]).branch is Some ==> !in_subtree(
            nodes,
            nodes[idx].segments@[jj].branch->Some_0 as int,
            (#[trigger] kids[mm]).node as int,
        ))
}

/// Consuming more segments only weakens the gathered-plans invariant.
pub proof fn lemma_kids_inv_mono(
    nodes: Seq<MLBranch>,
    idx: int,
    d1: int,
    d2: int,
    kids: Seq<NodePlan>,
)
    requires
        kids_inv(nodes, idx, d1, kids),
        d1 <= d2,
    ensures
        kids_inv(nodes, idx, d2, kids),
{
}

/// Merging one child's plans into the gathered ones keeps the
/// invariant, with the anchor segment now consumed.
pub proof fn lemma_plan_merge(
    nodes: Seq<MLBranch>,
    idx: int,
    si: int,
    c: int,
    done_seg: int,
    kids: Seq<NodePlan>,
    sub: Seq<NodePlan>,
)
    requires
        arena_wf(nodes),
        nodes.len() <= usize::MAX,
        0 <= idx < nodes.len(),
        0 <= si < nodes[idx].segments@.len(),
        nodes[idx].segments@[si].branch == Some(c as usize),
        idx < c < nodes.len(),
        done_seg < si,
        kids_inv(nodes, idx, done_seg, kids),
        plan_ok(nodes, sub),
        forall|mm: int|
            0 <= mm < sub.len() ==> in_subtree(nodes, c, (#[trigger] sub[mm]).node as int),
    ensures
        kids_inv(nodes, idx, si, kids + sub),
{
    assert(node_wf(nodes, idx));
    assert forall|mm: int| 0 <= mm < sub.len()
        implies in_subtree(nodes, idx, (#[trigger] sub[mm]).node as int) && (
        #[trigger] sub[mm]).node as int != idx by {
        lemma_subtree_member(nodes, idx, si + 1, c, sub[mm].node as int);
        lemma_subtree_ge(nodes, c, sub[mm].node as int);
    }
    assert forall|mm1: int, mm2: int| 0 <= mm1 < kids.len() && 0 <= mm2 < sub.len()
        implies (#[trigger] kids[mm1]).node != (#[trigger] sub[mm2]).node by {
        assert(!in_subtree(nodes, c, kids[mm1].node as int));
        assert(in_subtree(nodes, c, sub[mm2].node as int));
    }
    let merged = kids + sub;
    assert forall|m1: int, m2: int| 0 <= m1 < m2 < merged.len()
        implies (#[trigger] merged[m1]).node != (#[trigger] merged[m2]).node by {
        if m1 < kids.len() && m2 >= kids.len() {
            assert(merged[m1] == kids[m1]);
            assert(merged[m2] == sub[m2 - kids.len()]);
        } else if m2 < kids.len() {
            assert(merged[m1] == kids[m1] && merged[m2] == kids[m2]);
        } else {
            assert(merged[m1] == sub[m1 - kids.len()] && merged[m2] == sub[m2 - kids.len()]);
        }
    }
    assert forall|mm: int| 0 <= mm < merged.len()
        implies plan_entry_ok(nodes, #[trigger] merged[mm]) && in_subtree(
        nodes, idx, merged[mm].node as int) && merged[mm].node as int != idx by {
        if mm < kids.len() {
            assert(merged[mm] == kids[mm]);
        } else {
            assert(merged[mm] == sub[mm - kids.len()]);
        }
    }
    assert forall|mm: int, jj: int|
        0 <= mm < merged.len() && si < jj < nodes[idx].segments@.len() && (
        #[trigger] nodes[idx].segments@[jj]).branch is Some
        implies !in_subtree(
            nodes,
            nodes[idx].segments@[jj].branch->Some_0 as int,
            (#[trigger] merged[mm]).node as int,
        ) by {
        let c2 = nodes[idx].segments@[jj].branch->Some_0 as int;
        assert(idx < c2 < nodes.len());
        if mm < kids.len() {
            assert(merged[mm] == kids[mm]);
            assert(done_seg < jj);
        } else {
            assert(merged[mm] == sub[mm - kids.len()]);
            let k = sub[mm - kids.len()].node as int;
            assert(in_subtree(nodes, c, k));
            if c2 != c {
                assert(nodes[idx].segments@[si].branch == Some(c as usize));
                assert(nodes[idx].segments@[jj].branch == Some(c2 as usize));
                lemma_sibling_disjoint(nodes, idx, c, c2, k);
            } else {
                assert(jj != si);
                assert(false);
            }
        }
    }
}

/// Whether node `k` lies below one of the first `j` segments of `r`.
#[verifier::opaque]
pub open spec fn in_sub_upto(nodes: Seq<MLBranch>, r: int, j: int, k: int) -> bool
    decreases nodes.len() - r, j,
{
    if !(0 <= r < nodes.len()) || j <= 0 {
        false
    } else {
        let below = match nodes[r].segments@[j - 1].branch {
            Some(c) => {
                if r < c < nodes.len() {
                    in_subtree(nodes, c as int, k)
                } else {
                    false
                }
            },
            None => false,
        };
        below || in_sub_upto(nodes, r, j - 1, k)
    }
}

/// Whether node `k` belongs to the subtree rooted at `r`.
#[verifier::opaque]
pub open spec fn in_subtree(nodes: Seq<MLBranch>, r: int, k: int) -> bool
    decreases nodes.len() - r, nodes[r].segments@.len() + 1,
{
    k == r || (0 <= r < nodes.len() && in_sub_upto(nodes, r, nodes[r].segments@.len() as int, k))
}

/// Subtree members sit at or above their root's index.
pub proof fn lemma_subtree_ge_upto(nodes: Seq<MLBranch>, r: int, j: int, k: int)
    requires
        in_sub_upto(nodes, r, j, k),
    ensures
        r < k < nodes.len(),
    decreases nodes.len() - r, j,
{
    reveal(in_sub_upto);
    reveal(in_subtree);
    if 0 <= r < nodes.len() && j > 0 {
        match nodes[r].segments@[j - 1].branch {
            Some(c) => {
                if r < c < nodes.len() && in_subtree(nodes, c as int, k) {
                    lemma_subtree_ge(nodes, c as int, k);
                } else {
                    lemma_subtree_ge_upto(nodes, r, j - 1, k);
                }
            },
            None => {
                lemma_subtree_ge_upto(nodes, r, j - 1, k);
            },
        }
    }
}

/// A subtree member is its root or a higher index inside the arena.
pub proof fn lemma_subtree_ge(nodes: Seq<MLBranch>, r: int, k: int)
    requires
        in_subtree(nodes, r, k),
    ensures
        k == r || r < k < nodes.len(),
    decreases nodes.len() - r, nodes[r].segments@.len() + 1,
{
    reveal(in_sub_upto);
    reveal(in_subtree);
    if k != r {
        lemma_subtree_ge_upto(nodes, r, nodes[r].segments@.len() as int, k);
    }
}

/// Membership below a later segment covers membership below an
/// earlier one.
pub proof fn lemma_upto_mono(nodes: Seq<MLBranch>, r: int, j1: int, j2: int, k: int)
    requires
        in_sub_upto(nodes, r, j1, k),
        j1 <= j2,
    ensures
        in_sub_upto(nodes, r, j2, k),
    decreases j2,
{
    reveal(in_sub_upto);
    reveal(in_subtree);
    if j1 < j2 {
        lemma_upto_mono(nodes, r, j1, j2 - 1, k);
    }
}

/// A proper subtree member has a parent inside the subtree.
pub proof fn lemma_subtree_parent_upto(nodes: Seq<MLBranch>, r: int, j: int, k: int)
    requires
        in_sub_upto(nodes, r, j, k),
        0 <= r < nodes.len(),
        j <= nodes[r].segments@.len(),
        nodes.len() <= usize::MAX,
    ensures
        exists|p: int, jj: int|
            in_subtree(nodes, r, p) && 0 <= p < nodes.len() && 0 <= jj
                < nodes[p].segments@.len() && (#[trigger] nodes[p].segments@[jj]).branch == Some(
                k as usize),
    decreases nodes.len() - r, j,
{
    reveal(in_sub_upto);
    reveal(in_subtree);
    if j > 0 {
        match nodes[r].segments@[j - 1].branch {
            Some(c) => {
                if r < c < nodes.len() && in_subtree(nodes, c as int, k) {
                    if k == c {
                        lemma_subtree_ge(nodes, c as int, k);
                        assert(nodes[r].segments@[j - 1].branch == Some(k as usize));
                        assert(in_subtree(nodes, r, r));
                    } else {
                        lemma_subtree_parent_upto(
                            nodes, c as int, nodes[c as int].segments@.len() as int, k);
                        let (p, jj) = choose|p: int, jj: int|
                            in_subtree(nodes, c as int, p) && 0 <= p < nodes.len() && 0 <= jj
                                < nodes[p].segments@.len() && (
                            #[trigger] nodes[p].segments@[jj]).branch == Some(k as usize);
                        assert(nodes[r].segments@[j - 1].branch == Some((c as int) as usize)
                            && 0 <= j - 1 < j && r < (c as int) < nodes.len());
                        lemma_subtree_member(nodes, r, j, c as int, p);
                    }
                } else {
                    lemma_subtree_parent_upto(nodes, r, j - 1, k);
                }
            },
            None => {
                lemma_subtree_parent_upto(nodes, r, j - 1, k);
            },
        }
    }
}

/// Subtrees compose: what lies below a child of `r` lies below `r`.
pub proof fn lemma_subtree_member(nodes: Seq<MLBranch>, r: int, j: int, c: int, k: int)
    requires
        0 <= r < nodes.len(),
        exists|jj: int|
            0 <= jj < j && jj < nodes[r].segments@.len() && (
            #[trigger] nodes[r].segments@[jj]).branch == Some(c as usize) && r < c < nodes.len(),
        in_subtree(nodes, c, k),
        j <= nodes[r].segments@.len(),
        nodes.len() <= usize::MAX,
    ensures
        in_subtree(nodes, r, k),
{
    reveal(in_sub_upto);
    reveal(in_subtree);
    let jj = choose|jj: int|
        0 <= jj < j && jj < nodes[r].segments@.len() && (
        #[trigger] nodes[r].segments@[jj]).branch == Some(c as usize) && r < c < nodes.len();
    assert(((c as usize) as int) == c);
    assert(in_sub_upto(nodes, r, jj + 1, k)) by {
        assert(nodes[r].segments@[jj].branch == Some(c as usize));
        assert(in_subtree(nodes, c, k));
    }
    lemma_upto_mono(nodes, r, jj + 1, nodes[r].segments@.len() as int, k);
}

/// Two subtrees sharing a node are nested: one root lies in the
/// other's subtree.
pub proof fn lemma_subtree_overlap(nodes: Seq<MLBranch>, c1: int, c2: int, k: int)
    requires
        arena_wf(nodes),
        in_subtree(nodes, c1, k),
        in_subtree(nodes, c2, k),
        c1 != c2,
        nodes.len() <= usize::MAX,
    ensures
        in_subtree(nodes, c1, c2) || in_subtree(nodes, c2, c1),
    decreases k,
{
    reveal(in_sub_upto);
    reveal(in_subtree);
    lemma_subtree_ge(nodes, c1, k);
    lemma_subtree_ge(nodes, c2, k);
    if k == c1 || k == c2 {
    } else {
        lemma_subtree_parent_upto(nodes, c1, nodes[c1].segments@.len() as int, k);
        lemma_subtree_parent_upto(nodes, c2, nodes[c2].segments@.len() as int, k);
        let (p1, j1) = choose|p1: int, j1: int|
            in_subtree(nodes, c1, p1) && 0 <= p1 < nodes.len() && 0 <= j1
                < nodes[p1].segments@.len() && (#[trigger] nodes[p1].segments@[j1]).branch == Some(
            k as usize);
        let (p2, j2) = choose|p2: int, j2: int|
            in_subtree(nodes, c2, p2) && 0 <= p2 < nodes.len() && 0 <= j2
                < nodes[p2].segments@.len() && (#[trigger] nodes[p2].segments@[j2]).branch == Some(
            k as usize);
        assert(p1 == p2 && j1 == j2) by {
            reveal(links_injective);
        }
        assert(node_wf(nodes, p1));
        assert(p1 < k);
        if p1 == c1 || p1 == c2 {
        } else {
            lemma_subtree_overlap(nodes, c1, c2, p1);
        }
    }
}

/// Subtrees of two different children of one node are disjoint.
pub proof fn lemma_sibling_disjoint(nodes: Seq<MLBranch>, r: int, c1: int, c2: int, k: int)
    requires
        arena_wf(nodes),
        0 <= r < nodes.len(),
        r < c1 < nodes.len(),
        r < c2 < nodes.len(),
        c1 != c2,
        exists|j: int|
            0 <= j < nodes[r].segments@.len() && (#[trigger] nodes[r].segments@[j]).branch == Some(
            c1 as usize),
        exists|j: int|
            0 <= j < nodes[r].segments@.len() && (#[trigger] nodes[r].segments@[j]).branch == Some(
            c2 as usize),
        in_subtree(nodes, c1, k),
        nodes.len() <= usize::MAX,
    ensures
        !in_subtree(nodes, c2, k),
{
    reveal(in_sub_upto);
    reveal(in_subtree);
    reveal(links_injective);
    if in_subtree(nodes, c2, k) {
        lemma_subtree_overlap(nodes, c1, c2, k);
        if in_subtree(nodes, c1, c2) {
            lemma_subtree_parent_upto(nodes, c1, nodes[c1].segments@.len() as int, c2);
            let (p, jj) = choose|p: int, jj: int|
                in_subtree(nodes, c1, p) && 0 <= p < nodes.len() && 0 <= jj
                    < nodes[p].segments@.len() && (#[trigger] nodes[p].segments@[jj]).branch
                    == Some(c2 as usize);
            assert(p == r);
            lemma_subtree_ge(nodes, c1, r);
        } else {
            lemma_subtree_parent_upto(nodes, c2, nodes[c2].segments@.len() as int, c1);
            let (p, jj) = choose|p: int, jj: int|
                in_subtree(nodes, c2, p) && 0 <= p < nodes.len() && 0 <= jj
                    < nodes[p].segments@.len() && (#[trigger] nodes[p].segments@[jj]).branch
                    == Some(c1 as usize);
            assert(p == r);
            lemma_subtree_ge(nodes, c2, r);
        }
    }
}

/// The whole tree's biomass: every branch's own weight, summed.
pub open spec fn total_mass(nodes: Seq<MLBranch>) -> int {
    sum_int(nodes.map_values(|n: MLBranch| n.weight as int))
}

/// Branch `a` is branch `b` grown: same identity and summaries, no
/// less mass, and `b`'s segments kept in place — points unchanged and
/// no child link dropped.
pub open spec fn grown_node(a: MLBranch, b: MLBranch) -> bool {
    &&& a.id.plant == b.id.plant
    &&& a.id.branch_path@ == b.id.branch_path@
    &&& a.parent_segment_index == b.parent_segment_index
    &&& a.weight >= b.weight
    &&& a.subtree_weight >= b.subtree_weight
    &&& a.best_nitro == b.best_nitro
    &&& a.best_water == b.best_water
    &&& a.segments@.len() >= b.segments@.len()
    &&& (forall|j: int|
        0 <= j < b.segments@.len() ==> {
            &&& (#[trigger] a.segments@[j]).start == b.segments@[j].start
            &&& a.segments@[j].end == b.segments@[j].end
            &&& (b.segments@[j].branch is Some ==> a.segments@[j].branch == b.segments@[j].branch)
        })
}

/// The tree `a` is the tree `b` grown: nodes only appended, each old
/// node grown in place.
pub open spec fn grown_from(a: Seq<MLBranch>, b: Seq<MLBranch>) -> bool {
    &&& a.len() >= b.len()
    &&& (forall|k: int| 0 <= k < b.len() ==> grown_node(#[trigger] a[k], b[k]))
}

/// Raising one node's masses raises the tree's.
pub proof fn lemma_mass_update(nodes: Seq<MLBranch>, i: int, n2: MLBranch)
    requires
        0 <= i < nodes.len(),
        n2.weight >= nodes[i].weight,
    ensures
        total_mass(nodes.update(i, n2)) >= total_mass(nodes),
        total_mass(nodes.update(i, n2)) == total_mass(nodes) + n2.weight - nodes[i].weight,
{
    let f = |n: MLBranch| n.weight as int;
    let m = nodes.map_values(f);
    assert(nodes.update(i, n2).map_values(f) =~= m.update(i, n2.weight as int));
    crate::sums::lemma_sum_update(m, i, n2.weight as int);
}

/// Appending a node adds its mass to the tree's.
pub proof fn lemma_mass_push(nodes: Seq<MLBranch>, n2: MLBranch)
    ensures
        total_mass(nodes.push(n2)) == total_mass(nodes) + n2.weight,
{
    let f = |n: MLBranch| n.weight as int;
    let m = nodes.map_values(f);
    assert(nodes.push(n2).map_values(f) =~= m.push(n2.weight as int));
    crate::sums::lemma_sum_push(m, n2.weight as int);
}

/// Arenas with the same skeleton have the same mass, bounds and counts.
pub proof fn lemma_skeleton_measures(a: Seq<MLBranch>, b: Seq<MLBranch>)
    requires
        same_skeleton(a, b),
    ensures
        total_mass(a) == total_mass(b),
        masses_bounded(a) == masses_bounded(b),
        lens_ok(a) == lens_ok(b),
        counts_ok(a) == counts_ok(b),
{
    let f = |n: MLBranch| n.weight as int;
    assert(a.map_values(f) =~= b.map_values(f));
    assert forall|i: int| 0 <= i < a.len() implies same_skeleton_node(#[trigger] a[i], b[i])
        && same_skeleton_node(b[i], a[i]) by {}
    if masses_bounded(a) {
        assert forall|i: int| 0 <= i < b.len()
            implies (#[trigger] b[i]).weight <= crate::branch::MASS_CAP && b[i].subtree_weight
                <= SUB_CAP by {
            assert(a[i].weight <= crate::branch::MASS_CAP && a[i].subtree_weight <= SUB_CAP);
        }
    }
    if masses_bounded(b) {
        assert forall|i: int| 0 <= i < a.len()
            implies (#[trigger] a[i]).weight <= crate::branch::MASS_CAP && a[i].subtree_weight
                <= SUB_CAP by {
            assert(b[i].weight <= crate::branch::MASS_CAP && b[i].subtree_weight <= SUB_CAP);
        }
    }
    if lens_ok(a) {
        assert forall|i: int| 0 <= i < b.len()
            implies (#[trigger] b[i]).segments@.len() <= SEG_CAP by {
            assert(a[i].segments@.len() <= SEG_CAP);
        }
    }
    if lens_ok(b) {
        assert forall|i: int| 0 <= i < a.len()
            implies (#[trigger] a[i]).segments@.len() <= SEG_CAP by {
            assert(b[i].segments@.len() <= SEG_CAP);
        }
    }
    assert forall|i: int| 0 <= i < a.len()
        implies subtree_seg_count(a, i) == subtree_seg_count(b, i) by {
        assert forall|k: int| 0 <= k < a.len() implies (#[trigger] a[k]).segments@
            == b[k].segments@ by {
            assert(same_skeleton_node(a[k], b[k]));
        }
        lemma_frame_subtree(a, b, arbitrary(), i, Resource::Nitro);
    }
}

/// What a branch's own segments extract, ignoring every child: the
/// endpoint samples of its first `j` segments, summed.
pub open spec fn own_uptake(
    nodes: Seq<MLBranch>,
    soil: MatrixSoil,
    idx: int,
    j: int,
    what: Resource,
) -> int
    decreases j,
{
    if !(0 <= idx < nodes.len()) || j <= 0 {
        0
    } else {
        own_uptake(nodes, soil, idx, j - 1, what) + soil.sample_s(
            nodes[idx].segments@[j - 1].end,
            what,
        )
    }
}

/// The best single endpoint sample among a branch's own first `j`
/// segments, zero when there is nothing to sample.
pub open spec fn own_best(
    nodes: Seq<MLBranch>,
    soil: MatrixSoil,
    idx: int,
    j: int,
    what: Resource,
) -> int
    decreases j,
{
    if !(0 <= idx < nodes.len()) || j <= 0 {
        0
    } else {
        let prev = own_best(nodes, soil, idx, j - 1, what);
        let here = soil.sample_s(nodes[idx].segments@[j - 1].end, what);
        if here > prev {
            here
        } else {
            prev
        }
    }
}

/// On a branch with no children, one uptake pass extracts exactly the
/// branch's own segment sum, and its best-resource summary is the
/// maximum single sample among its own segments.
pub proof fn lemma_leaf_uptake(nodes: Seq<MLBranch>, soil: MatrixSoil, idx: int, what: Resource)
    requires
        0 <= idx < nodes.len(),
        forall|jj: int|
            0 <= jj < nodes[idx].segments@.len() ==> (#[trigger] nodes[idx].segments@[jj]).branch
                is None,
    ensures
        subtree_uptake(nodes, soil, idx, what) == own_uptake(
            nodes, soil, idx, nodes[idx].segments@.len() as int, what),
        subtree_best(nodes, soil, idx, what) == own_best(
            nodes, soil, idx, nodes[idx].segments@.len() as int, what),
{
    lemma_leaf_prefix(nodes, soil, idx, nodes[idx].segments@.len() as int, what);
}

/// The prefix induction behind the childless-branch law.
proof fn lemma_leaf_prefix(nodes: Seq<MLBranch>, soil: MatrixSoil, idx: int, j: int, what: Resource)
    requires
        0 <= idx < nodes.len(),
        forall|jj: int|
            0 <= jj < nodes[idx].segments@.len() ==> (#[trigger] nodes[idx].segments@[jj]).branch
                is None,
        j <= nodes[idx].segments@.len(),
    ensures
        uptake_sum(nodes, soil, idx, j, what) == own_uptake(nodes, soil, idx, j, what),
        best_upto(nodes, soil, idx, j, what) == own_best(nodes, soil, idx, j, what),
    decreases j,
{
    if j > 0 {
        lemma_leaf_prefix(nodes, soil, idx, j - 1, what);
    }
}

/// On a branch whose only child hangs at segment `jc`, one uptake
/// pass extracts exactly the branch's own segment sum plus the whole
/// uptake of the child's subtree.
pub proof fn lemma_one_child_uptake(
    nodes: Seq<MLBranch>,
    soil: MatrixSoil,
    idx: int,
    jc: int,
    c: int,
    what: Resource,
)
    requires
        0 <= idx < nodes.len(),
        0 <= jc < nodes[idx].segments@.len(),
        nodes[idx].segments@[jc].branch == Some(c as usize),
        idx < c < nodes.len(),
        nodes.len() <= usize::MAX,
        forall|jj: int|
            0 <= jj < nodes[idx].segments@.len() && jj != jc ==> (
            #[trigger] nodes[idx].segments@[jj]).branch is None,
    ensures
        subtree_uptake(nodes, soil, idx, what) == own_uptake(
            nodes, soil, idx, nodes[idx].segments@.len() as int, what) + subtree_uptake(
            nodes, soil, c, what),
{
    let len = nodes[idx].segments@.len() as int;
    lemma_one_child_prefix(nodes, soil, idx, jc, c, len, what);
}

/// The prefix induction behind the one-child law.
proof fn lemma_one_child_prefix(
    nodes: Seq<MLBranch>,
    soil: MatrixSoil,
    idx: int,
    jc: int,
    c: int,
    j: int,
    what: Resource,
)
    requires
        0 <= idx < nodes.len(),
        0 <= jc < nodes[idx].segments@.len(),
        nodes[idx].segments@[jc].branch == Some(c as usize),
        idx < c < nodes.len(),
        nodes.len() <= usize::MAX,
        forall|jj: int|
            0 <= jj < nodes[idx].segments@.len() && jj != jc ==> (
            #[trigger] nodes[idx].segments@[jj]).branch is None,
        j <= nodes[idx].segments@.len(),
    ensures
        uptake_sum(nodes, soil, idx, j, what) == own_uptake(nodes, soil, idx, j, what) + (if j > jc {
            subtree_uptake(nodes, soil, c, what)
        } else {
            0
        }),
    decreases j,
{
    if j > 0 {
        lemma_one_child_prefix(nodes, soil, idx, jc, c, j - 1, what);
    }
}

/// Subtree membership reads segments and links only: arenas with the
/// same segments agree on it, prefix by prefix.
pub proof fn lemma_frame_in_sub_upto(a: Seq<MLBranch>, b: Seq<MLBranch>, r: int, j: int, k: int)
    requires
        a.len() == b.len(),
        forall|m: int| 0 <= m < a.len() ==> (#[trigger] a[m]).segments@ == b[m].segments@,
    ensures
        in_sub_upto(a, r, j, k) == in_sub_upto(b, r, j, k),
    decreases a.len() - r, j,
{
    reveal(in_sub_upto);
    reveal(in_subtree);
    if 0 <= r < a.len() && j > 0 {
        lemma_frame_in_sub_upto(a, b, r, j - 1, k);
        match a[r].segments@[j - 1].branch {
            Some(c) => {
                if r < c < a.len() {
                    lemma_frame_in_subtree(a, b, c as int, k);
                }
            },
            None => {},
        }
    }
}

/// The whole-subtree membership agrees likewise.
pub proof fn lemma_frame_in_subtree(a: Seq<MLBranch>, b: Seq<MLBranch>, r: int, k: int)
    requires
        a.len() == b.len(),
        forall|m: int| 0 <= m < a.len() ==> (#[trigger] a[m]).segments@ == b[m].segments@,
    ensures
        in_subtree(a, r, k) == in_subtree(b, r, k),
    decreases a.len() - r, a[r].segments@.len() + 1,
{
    reveal(in_sub_upto);
    reveal(in_subtree);
    if 0 <= r < a.len() {
        lemma_frame_in_sub_upto(a, b, r, a[r].segments@.len() as int, k);
    }
}

/// The subtree measures read segments and links only: arenas with the
/// same segments agree on them, prefix by prefix.
pub proof fn lemma_frame_upto(
    a: Seq<MLBranch>,
    b: Seq<MLBranch>,
    soil: MatrixSoil,
    idx: int,
    j: int,
    what: Resource,
)
    requires
        a.len() == b.len(),
        forall|k: int| 0 <= k < a.len() ==> (#[trigger] a[k]).segments@ == b[k].segments@,
    ensures
        seg_cnt(a, idx, j) == seg_cnt(b, idx, j),
        uptake_sum(a, soil, idx, j, what) == uptake_sum(b, soil, idx, j, what),
        best_upto(a, soil, idx, j, what) == best_upto(b, soil, idx, j, what),
    decreases a.len() - idx, j,
{
    if 0 <= idx < a.len() && j > 0 {
        lemma_frame_upto(a, b, soil, idx, j - 1, what);
        match a[idx].segments@[j - 1].branch {
            Some(c) => {
                if idx < c < a.len() {
                    lemma_frame_subtree(a, b, soil, c as int, what);
                }
            },
            None => {},
        }
    }
}

/// The whole-subtree measures agree likewise.
pub proof fn lemma_frame_subtree(
    a: Seq<MLBranch>,
    b: Seq<MLBranch>,
    soil: MatrixSoil,
    idx: int,
    what: Resource,
)
    requires
        a.len() == b.len(),
        forall|k: int| 0 <= k < a.len() ==> (#[trigger] a[k]).segments@ == b[k].segments@,
    ensures
        subtree_seg_count(a, idx) == subtree_seg_count(b, idx),
        subtree_uptake(a, soil, idx, what) == subtree_uptake(b, soil, idx, what),
        subtree_best(a, soil, idx, what) == subtree_best(b, soil, idx, what),
    decreases a.len() - idx, a[idx].segments@.len() + 1,
{
    if 0 <= idx < a.len() {
        lemma_frame_upto(a, b, soil, idx, a[idx].segments@.len() as int, what);
    }
}

/// Prefix measures are non-negative; extraction is bounded by the
/// segment count times the grid cap, and a best sample by the cap.
pub proof fn lemma_bounds_upto(
    nodes: Seq<MLBranch>,
    soil: MatrixSoil,
    idx: int,
    j: int,
    what: Resource,
)
    requires
        soil.wf(),
    ensures
        0 <= seg_cnt(nodes, idx, j),
        0 <= uptake_sum(nodes, soil, idx, j, what) <= seg_cnt(nodes, idx, j) * (GRID_CAP as int),
        0 <= best_upto(nodes, soil, idx, j, what) <= GRID_CAP,
    decreases nodes.len() - idx, j,
{
    if 0 <= idx < nodes.len() && j > 0 {
        lemma_bounds_upto(nodes, soil, idx, j - 1, what);
        soil.lemma_sample_bounds(nodes[idx].segments@[j - 1].end, what);
        match nodes[idx].segments@[j - 1].branch {
            Some(c) => {
                if idx < c < nodes.len() {
                    lemma_bounds_subtree(nodes, soil, c as int, what);
                }
            },
            None => {},
        }
    }
}

/// The whole-subtree measures are bounded likewise.
pub proof fn lemma_bounds_subtree(nodes: Seq<MLBranch>, soil: MatrixSoil, idx: int, what: Resource)
    requires
        soil.wf(),
    ensures
        0 <= subtree_seg_count(nodes, idx),
        0 <= subtree_uptake(nodes, soil, idx, what) <= subtree_seg_count(nodes, idx) * (
        GRID_CAP as int),
        0 <= subtree_best(nodes, soil, idx, what) <= GRID_CAP,
    decreases nodes.len() - idx, nodes[idx].segments@.len() + 1,
{
    if 0 <= idx < nodes.len() {
        lemma_bounds_upto(nodes, soil, idx, nodes[idx].segments@.len() as int, what);
    }
}

/// Extending a prefix never loses extracted mass.
pub proof fn lemma_uptake_prefix(
    nodes: Seq<MLBranch>,
    soil: MatrixSoil,
    idx: int,
    j: int,
    what: Resource,
)
    requires
        soil.wf(),
        0 <= idx < nodes.len(),
        0 <= j <= nodes[idx].segments@.len(),
    ensures
        uptake_sum(nodes, soil, idx, j, what) <= subtree_uptake(nodes, soil, idx, what),
    decreases nodes[idx].segments@.len() - j,
{
    if j < nodes[idx].segments@.len() {
        lemma_uptake_prefix(nodes, soil, idx, j + 1, what);
        soil.lemma_sample_bounds(nodes[idx].segments@[j].end, what);
        match nodes[idx].segments@[j].branch {
            Some(c) => {
                if idx < c < nodes.len() {
                    lemma_bounds_subtree(nodes, soil, c as int, what);
                }
            },
            None => {},
        }
    }
}

} // verus!

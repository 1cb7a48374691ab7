//! A plant: one root branch tree and one growth policy, ticked as a
//! unit by the host loop.

use vstd::prelude::*;
use crate::arena::{
    arena_wf, bests_bounded, counts_ok, lemma_bounds_subtree, lemma_children_share_range,
    lemma_counts_to_lens, lemma_skeleton_measures, masses_bounded, subtree_uptake, total_mass,
    BranchArena, NM_CAP, SEG_CAP,
};
use crate::branch::{MLBranch, COORD_CAP, SEGMENT_LENGTH};
use crate::fixed::{fx_min, fx_mul_s, FX_ONE};
use crate::geom::Point;
use crate::soil::{MatrixSoil, Resource, GRID_CAP};
use crate::strategy::{strategy_wf, BranchingStrategy};

verus! {

/// One plant of the field.
pub struct Plant {
    /// The root branch tree.
    pub root: BranchArena,
    /// The ratios shaping its growth.
    pub strategy: BranchingStrategy,
}

/// A freshly rooted plant: one branch of one segment running straight
/// down from the surface datum at `x`, seeded with `weight` of
/// biomass, with an empty address path and empty uptake summaries.
pub open spec fn root_branch_fresh(p: Plant, plant: u32, x: int, weight: int) -> bool {
    let n = p.root.nodes@[0];
    &&& n.id.plant == plant
    &&& n.id.branch_path@ == Seq::<usize>::empty()
    &&& n.segments@.len() == 1
    &&& n.segments@[0].start == (Point { x: x as i64, y: 0 })
    &&& n.segments@[0].end == (Point { x: x as i64, y: SEGMENT_LENGTH })
    &&& n.segments@[0].branch is None
    &&& n.parent_segment_index == 0
    &&& n.weight == weight
    &&& n.subtree_weight == weight
    &&& n.best_nitro == 0
    &&& n.best_water == 0
}

/// The new material one tick converts from the soil: the smaller of
/// the two whole-tree resource totals the uptake pass extracts, offset
/// and scaled by fixed empirical tuning constants.
pub open spec fn tick_material(p: Plant, soil: MatrixSoil) -> int {
    let n = subtree_uptake(p.root.nodes@, soil, 0, Resource::Nitro);
    let w = subtree_uptake(p.root.nodes@, soil, 0, Resource::Water);
    ((if n < w {
        n
    } else {
        w
    }) + 200_000) * 10
}

/// A plant ready to be ticked: a well-formed bounded tree under a
/// usable policy.
pub open spec fn plant_ready(p: Plant) -> bool {
    &&& arena_wf(p.root.nodes@)
    &&& masses_bounded(p.root.nodes@)
    &&& bests_bounded(p.root.nodes@)
    &&& counts_ok(p.root.nodes@)
    &&& strategy_wf(p.strategy)
}

impl Plant {
    /// A fresh plant rooted at `x_coord`, seeded with ten units of
    /// biomass under the default policy.
    pub fn new(x_coord: i64) -> (r: Plant)
        requires
            -COORD_CAP <= x_coord <= COORD_CAP,
        ensures
            plant_ready(r),
            r.root.nodes@.len() == 1,
            root_branch_fresh(r, 0, x_coord as int, 10 * FX_ONE as int),
            r.strategy.conic_ratio == 80 * FX_ONE,
            r.strategy.children_weight_rate == 800_000,
            r.strategy.child_weight_rate == 30_000,
            r.strategy.default_side_angle == -785_398,
            total_mass(r.root.nodes@) == 10 * FX_ONE,
    {
        let strategy = BranchingStrategy {
            conic_ratio: 80 * FX_ONE,
            children_weight_rate: 800_000,
            child_weight_rate: 30_000,
            default_side_angle: -785_398,
        };
        Self::with_strategy(0, x_coord, strategy)
    }

    /// A fresh plant with its own index and policy.
    pub fn with_strategy(plant: u32, x_coord: i64, strategy: BranchingStrategy) -> (r: Plant)
        requires
            -COORD_CAP <= x_coord <= COORD_CAP,
            strategy_wf(strategy),
        ensures
            plant_ready(r),
            r.root.nodes@.len() == 1,
            root_branch_fresh(r, plant, x_coord as int, 10 * FX_ONE as int),
            r.strategy == strategy,
            total_mass(r.root.nodes@) == 10 * FX_ONE,
    {
        let node = MLBranch::new(plant, x_coord, 10 * FX_ONE);
        let root = BranchArena::new(node);
        proof {
            let nodes = root.nodes@;
            assert(crate::arena::node_wf(nodes, 0));
            assert(crate::arena::links_injective(nodes)) by {
                reveal(crate::arena::links_injective);
            }
            assert(crate::arena::subtree_seg_count(nodes, 0) == 1) by {
                assert(crate::arena::seg_cnt(nodes, 0, 1) == crate::arena::seg_cnt(nodes, 0, 0)
                    + 1);
            }
            assert(crate::sums::sum_int(
                nodes.map_values(|n: MLBranch| n.weight as int).drop_last(),
            ) == 0) by {
                assert(nodes.map_values(|n: MLBranch| n.weight as int).drop_last() =~= Seq::<
                    int,
                >::empty());
            }
        }
        Plant { root, strategy }
    }

    /// One tick: an uptake pass over the whole tree, then one growth
    /// step with `tick_material` — the smaller of the two extracted
    /// resource totals, offset and scaled by fixed empirical tuning
    /// constants. The tick's biomass gain never exceeds that material,
    /// and is always positive: the branch's own share of the material,
    /// at least a fifth of a unit, is applied in full.
    pub fn grow(&mut self, soil: &mut MatrixSoil)
        requires
            plant_ready(*old(self)),
            old(soil).wf(),
        ensures
            *final(soil) == *old(soil),
            arena_wf(final(self).root.nodes@),
            bests_bounded(final(self).root.nodes@),
            final(self).strategy == old(self).strategy,
            total_mass(old(self).root.nodes@) < total_mass(final(self).root.nodes@)
                <= total_mass(old(self).root.nodes@) + tick_material(*old(self), *old(soil)),
    {
        let ghost orig = self.root.nodes@;
        let ghost soil0 = *soil;
        let (nitro, water) = self.root.suck(0, soil);
        proof {
            lemma_skeleton_measures(self.root.nodes@, orig);
            lemma_counts_to_lens(self.root.nodes@);
            assert(SEG_CAP as int * (GRID_CAP as int) == 0x400_0000_0000);
        }
        let new_material = (fx_min(nitro, water) + 200_000) * 10;
        proof {
            lemma_bounds_subtree(orig, soil0, 0, Resource::Nitro);
            lemma_bounds_subtree(orig, soil0, 0, Resource::Water);
            assert(0 <= new_material <= NM_CAP);
            assert(new_material as int == tick_material(*old(self), soil0));
            assert(new_material >= 2 * FX_ONE);
        }
        self.root.grow(0, new_material, soil, &self.strategy);
        proof {
            lemma_skeleton_measures(orig, old(self).root.nodes@);
            let cs = crate::arena::children_share_s(self.strategy);
            let share = FX_ONE as int - cs;
            let nm = new_material as int;
            lemma_children_share_range(self.strategy);
            assert(fx_mul_s(nm, share) >= 2) by {
                assert(nm * 1 <= nm * share) by (nonlinear_arith)
                    requires 0 <= nm, 1 <= share;
                vstd::arithmetic::div_mod::lemma_div_is_ordered(
                    nm * 1, nm * share, FX_ONE as int);
                vstd::arithmetic::div_mod::lemma_div_is_ordered(
                    2 * (FX_ONE as int), nm, FX_ONE as int);
                vstd::arithmetic::div_mod::lemma_div_multiples_vanish(2, FX_ONE as int);
                assert(nm * share >= 0) by (nonlinear_arith)
                    requires 0 <= nm, 0 <= share;
            }
        }
    }
}

} // verus!

//! The world: one shared soil grid and the plants rooted in it,
//! ticked together. Extraction proceeds plant by plant in list order
//! within a tick — earlier plants have first access to shared cells, a
//! deliberate, documented fairness limitation of the single-phase
//! resource model.

use vstd::prelude::*;
use crate::arena::{arena_wf, bests_bounded, total_mass};
use crate::fixed::FX_ONE;
use crate::geom::Point;
use crate::plant::{plant_ready, Plant};
use crate::soil::{MatrixSoil, Resource, SIDE_CAP};

verus! {

/// The simulated field: its soil and its plants.
pub struct World {
    pub soil: MatrixSoil,
    pub plants: Vec<Plant>,
    /// The field's pixel size.
    pub width: usize,
    pub height: usize,
}

/// Every plant of the world is ready to be ticked over its soil.
pub open spec fn world_ready(w: World) -> bool {
    &&& w.soil.wf()
    &&& forall|i: int| 0 <= i < w.plants@.len() ==> plant_ready(#[trigger] w.plants@[i])
}

impl World {
    /// An empty world of the given pixel size.
    pub fn new(width: usize, height: usize) -> (r: World)
        requires
            0 < width <= SIDE_CAP,
            0 < height <= SIDE_CAP,
        ensures
            world_ready(r),
            r.plants@.len() == 0,
            r.width == width,
            r.height == height,
            r.soil.total(Resource::Water) == 0,
            r.soil.total(Resource::Nitro) == 0,
            forall|p: Point, w: Resource| r.soil.sample_s(p, w) == 0,
            forall|p: Point| r.soil.in_bounds_s(p) <==> (0 <= p.x < (width as int) * (
            FX_ONE as int) && 0 <= p.y < (height as int) * (FX_ONE as int)),
    {
        World { soil: MatrixSoil::new(width, height), plants: Vec::new(), width, height }
    }

    /// Adds one plant to the world.
    pub fn add_plant(&mut self, plant: Plant)
        requires
            plant_ready(plant),
            world_ready(*old(self)),
        ensures
            world_ready(*final(self)),
            final(self).plants@ == old(self).plants@.push(plant),
            final(self).soil == old(self).soil,
    {
        self.plants.push(plant);
    }

    /// One tick of the world: every plant extracts and grows, in list
    /// order. Extraction is non-destructive, so the soil is unchanged,
    /// and every plant's total biomass strictly increases.
    ///
    /// The mass and count caps of `plant_ready` are fixed machine
    /// bounds, so a tick cannot re-establish them: a caller ticking
    /// repeatedly stays inside the verified envelope only while its
    /// trees remain under those caps.
    pub fn tick(&mut self)
        requires
            world_ready(*old(self)),
        ensures
            final(self).soil == old(self).soil,
            final(self).plants@.len() == old(self).plants@.len(),
            final(self).width == old(self).width,
            final(self).height == old(self).height,
            forall|k: int|
                0 <= k < old(self).plants@.len() ==> {
                    &&& arena_wf((#[trigger] final(self).plants@[k]).root.nodes@)
                    &&& bests_bounded(final(self).plants@[k].root.nodes@)
                    &&& final(self).plants@[k].strategy == old(self).plants@[k].strategy
                    &&& total_mass(final(self).plants@[k].root.nodes@) > total_mass(
                        old(self).plants@[k].root.nodes@)
                },
    {
        let n = self.plants.len();
        let mut i: usize = 0;
        while i < n
            invariant
                i <= n,
                n == self.plants@.len(),
                self.soil == old(self).soil,
                self.soil.wf(),
                self.width == old(self).width,
                self.height == old(self).height,
                forall|k: int| i <= k < n ==> self.plants@[k] == old(self).plants@[k],
                forall|k: int| i <= k < n ==> plant_ready(#[trigger] self.plants@[k]),
                forall|k: int|
                    0 <= k < i ==> {
                        &&& arena_wf((#[trigger] self.plants@[k]).root.nodes@)
                        &&& bests_bounded(self.plants@[k].root.nodes@)
                        &&& self.plants@[k].strategy == old(self).plants@[k].strategy
                        &&& total_mass(self.plants@[k].root.nodes@) > total_mass(
                            old(self).plants@[k].root.nodes@)
                    },
            decreases n - i,
        {
            let p = &mut self.plants[i];
            p.grow(&mut self.soil);
            i = i + 1;
        }
    }
}

} // verus!

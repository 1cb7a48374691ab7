use root_tactics::arena::BranchArena;
use root_tactics::branch::{BranchId, GrowthDecision, MLBranch, Segment};
use root_tactics::fixed::{fx_min, fx_sqrt, Cap, FX_ONE};
use root_tactics::geom::Point;
use root_tactics::plant::Plant;
use root_tactics::soil::{MatrixSoil, Resource};
use root_tactics::stats::{MaxIndex, StatVec};
use root_tactics::strategy::BranchingStrategy;
use root_tactics::world::World;

fn pt(x: i64, y: i64) -> Point {
    Point { x, y }
}

fn units(n: i64) -> i64 {
    n * FX_ONE
}

fn total_biomass(arena: &BranchArena) -> i64 {
    let mut sum = 0;
    for node in arena.nodes.iter() {
        sum += node.weight;
    }
    sum
}

#[test]
fn branch_id_paths() {
    let root = BranchId::new(3);
    assert_eq!(root.plant, 3);
    assert!(root.branch_path.is_empty());
    let child = root.append(5).append(2);
    assert_eq!(child.plant, 3);
    assert_eq!(child.branch_path, vec![5, 2]);
}

#[test]
fn segment_direction() {
    let s = Segment::new(pt(units(1), 0), pt(units(1), units(1)));
    assert!(s.branch.is_none());
    let v = s.vec();
    assert_eq!((v.x, v.y), (0, units(1)));
}

#[test]
fn fixed_point_sqrt_and_cap() {
    assert_eq!(fx_sqrt(4 * FX_ONE), 2 * FX_ONE);
    assert_eq!(fx_sqrt(0), 0);
    assert_eq!(fx_min(3, -7), -7);
    assert_eq!(5i64.cap(0, 10), 5);
    assert_eq!((-3i64).cap(0, 10), 0);
    assert_eq!(42i64.cap(0, 10), 10);
}

#[test]
fn branch_metrics() {
    let mut node = MLBranch::new(0, units(120), units(10));
    assert_eq!(node.get_length(), 1);
    assert_eq!(node.get_weight(), units(10));
    assert_eq!(node.branch_count(), 0);
    assert!(node.last_branch_index().is_none());
    // Ten unit segments straight down.
    for k in 1..10i64 {
        let start = pt(units(120), units(k));
        let end = pt(units(120), units(k + 1));
        node.segments.push(Segment::new(start, end));
    }
    assert_eq!(node.get_length(), 10);
    // surface = weight / length; radius as the cylinder root.
    assert_eq!(node.get_surface(), units(1));
    assert_eq!(node.get_radius(), 564_188);
    assert_eq!(node.get_suck_potential(Resource::Water), units(100));
}

#[test]
fn soil_reads_neutral_zero_off_the_field() {
    let soil = MatrixSoil::new(800, 550);
    assert_eq!(soil.get_resource(pt(-FX_ONE, units(5)), Resource::Nitro), 0);
    assert_eq!(soil.get_resource(pt(units(5), units(551)), Resource::Nitro), 0);
    assert_eq!(soil.get_resource(pt(units(5), units(5)), Resource::Water), 0);
    assert_eq!(soil.get_ph(pt(0, 0)), 5_500_000);
    assert_eq!(soil.get_hardness(pt(0, 0)), FX_ONE);
}

#[test]
fn soil_stubs_do_nothing() {
    let mut soil = MatrixSoil::new(100, 100);
    assert_eq!(soil.emit_acid(pt(units(5), units(5))), 0);
    assert_eq!(soil.emit_base(pt(units(5), units(5))), 0);
}

#[test]
fn point_deposit_lands_in_one_cell() {
    let mut soil = MatrixSoil::new(800, 550);
    // Radius zero: the disc covers no scan cell, everything lands in
    // the center cell.
    soil.add_nitro(pt(units(120), units(1)), 0, units(5));
    assert_eq!(soil.get_resource(pt(units(120), units(1)), Resource::Nitro), units(5));
    // Same cell, other corner of the 10-pixel quantization.
    assert_eq!(soil.get_resource(pt(units(129), units(9)), Resource::Nitro), units(5));
    // Neighbour cell unchanged; water channel untouched.
    assert_eq!(soil.get_resource(pt(units(130), units(1)), Resource::Nitro), 0);
    assert_eq!(soil.get_resource(pt(units(120), units(1)), Resource::Water), 0);
}

#[test]
fn disc_deposit_stays_local() {
    let mut soil = MatrixSoil::new(800, 550);
    let far = pt(units(700), units(500));
    soil.add_nitro(far, units(5), units(3));
    soil.add_nitro(pt(units(100), units(100)), units(20), units(10));
    // A deposit touches nothing outside its scan box: the earlier far
    // deposit is exactly as it was.
    assert_eq!(soil.get_resource(far, Resource::Nitro), units(3));
    assert_eq!(soil.get_resource(pt(units(300), units(100)), Resource::Nitro), 0);
}

#[test]
fn disc_deposit_conserves_mass() {
    let mut soil = MatrixSoil::new(800, 550);
    soil.add_nitro(pt(units(400), units(300)), units(20), units(10));
    let mut total = 0i64;
    for x in (0..800).step_by(10) {
        for y in (0..550).step_by(10) {
            total += soil.get_resource(pt(units(x), units(y)), Resource::Nitro);
        }
    }
    assert_eq!(total, units(10));
}

#[test]
fn disc_deposit_conserves_mass_for_other_radii() {
    for (radius, amount) in [(units(10), units(3)), (units(35), units(7)), (FX_ONE / 2, units(2))]
    {
        let mut soil = MatrixSoil::new(400, 400);
        soil.add_nitro(pt(units(200), units(200)), radius, amount);
        let mut total = 0i64;
        for x in (0..400).step_by(10) {
            for y in (0..400).step_by(10) {
                total += soil.get_resource(pt(units(x), units(y)), Resource::Nitro);
            }
        }
        assert_eq!(total, amount);
    }
}

#[test]
fn uptake_reports_own_maximum_without_children() {
    let mut soil = MatrixSoil::new(800, 550);
    // The root's single segment ends at (120, 1): deposit there.
    soil.add_nitro(pt(units(120), units(1)), 0, units(5));
    let mut plant = Plant::new(units(120));
    let (nitro, water) = plant.root.suck(0, &mut soil);
    assert_eq!(nitro, units(5));
    assert_eq!(water, 0);
    assert_eq!(plant.root.nodes[0].best_nitro, units(5));
    assert_eq!(plant.root.nodes[0].best_water, 0);
    // Uptake is non-destructive: the cell still holds the mass.
    assert_eq!(soil.get_resource(pt(units(120), units(1)), Resource::Nitro), units(5));
}

/// A two-node tree: the root's second segment anchors one child.
fn parent_with_one_child() -> BranchArena {
    let mut root = MLBranch::new(0, 0, units(10));
    root.segments.push(Segment::new(pt(0, units(1)), pt(0, units(2))));
    root.segments[1].branch = Some(1);
    let child = MLBranch::new_branch(pt(0, units(2)), pt(units(1), units(2)), 1, &root.id, units(2));
    let mut arena = BranchArena::new(root);
    arena.nodes.push(child);
    arena
}

#[test]
fn uptake_totals_add_the_child() {
    let mut soil = MatrixSoil::new(800, 550);
    // All three segment endpoints — (0,1), (0,2) of the root, (1,2)
    // of the child — quantize to the cell at the origin. With 0.5 of
    // nitrogen there, the root's own segments sum to 1.0 and the child
    // reports 0.5, so the parent reports 1.5.
    soil.add_nitro(pt(0, units(1)), 0, units(1) / 2);
    let mut arena = parent_with_one_child();
    let (nitro, water) = arena.suck(0, &mut soil);
    assert_eq!(nitro, units(1) + units(1) / 2);
    assert_eq!(water, 0);
    // The child's report is its own total; the parent's best is the
    // subtree-wide best single sample.
    assert_eq!(arena.nodes[1].best_nitro, units(1) / 2);
    assert_eq!(arena.nodes[0].best_nitro, units(1) / 2);
    assert_eq!(arena.nodes[0].best_water, 0);
}

#[test]
fn lookup_follows_paths_exactly() {
    let arena = parent_with_one_child();
    let root = arena.get_branch(&vec![]).expect("root expected");
    assert_eq!(root.get_weight(), units(10));
    let child = arena.get_branch(&vec![1]).expect("child expected");
    assert_eq!(child.get_weight(), units(2));
    assert_eq!(child.parent_segment_index, 1);
    assert_eq!(child.id.branch_path, vec![1]);
    // A childless segment, an out-of-range segment, a too-long path.
    assert!(arena.get_branch(&vec![0]).is_none());
    assert!(arena.get_branch(&vec![7]).is_none());
    assert!(arena.get_branch(&vec![1, 0]).is_none());
}

#[test]
fn decision_weights_sum_to_one_without_children() {
    let soil = MatrixSoil::new(800, 550);
    let plant = Plant::new(units(120));
    let decisions = plant.root.growth_decision(0, &soil, units(2), &plant.strategy);
    assert_eq!(decisions.len(), 1);
    assert_eq!(decisions[0].1, FX_ONE);
    // Fresh root: one unit long, thick as seeded; it elongates.
    match decisions[0].0 {
        GrowthDecision::Longer(ref g) => {
            assert_eq!((g.0.x, g.0.y), (units(120), units(2)));
        },
        _ => panic!("a fresh root should elongate"),
    }
}

#[test]
fn decision_weights_sum_to_one_with_children() {
    // Drive a plant until it has branched, then check the weights.
    let mut soil = MatrixSoil::new(800, 550);
    soil.add_nitro(pt(units(120), units(10)), units(20), units(10));
    let mut plant = Plant::new(units(120));
    for _ in 0..50 {
        plant.grow(&mut soil);
    }
    assert!(plant.root.nodes.len() >= 2, "the run should have branched");
    let decisions = plant.root.growth_decision(0, &soil, units(2), &plant.strategy);
    let sum: i64 = decisions.iter().map(|d| d.1).sum();
    let children = decisions.len() as i64 - 1;
    assert!(sum <= FX_ONE);
    assert!(sum >= FX_ONE - children);
    // Within the stated tolerance of one part in ten thousand.
    assert!((FX_ONE - sum).abs() <= 100);
}

#[test]
fn candidacy_avoids_the_tip_and_taken_segments() {
    let mut soil = MatrixSoil::new(800, 550);
    soil.add_nitro(pt(units(120), units(10)), units(20), units(10));
    let mut plant = Plant::new(units(120));
    for _ in 0..50 {
        plant.grow(&mut soil);
        let decisions = plant.root.growth_decision(0, &soil, units(2), &plant.strategy);
        for (d, _w) in decisions.iter() {
            if let GrowthDecision::NewBranch(g) = d {
                let segs = &plant.root.nodes[0].segments;
                assert!(g.parent_segment_index + 2 < segs.len());
                assert!(segs[g.parent_segment_index].branch.is_none());
            }
        }
    }
}

#[test]
fn growth_never_rises_above_the_surface() {
    let mut soil = MatrixSoil::new(800, 550);
    soil.add_nitro(pt(units(120), units(10)), units(20), units(10));
    let mut plant = Plant::new(units(120));
    for _ in 0..50 {
        plant.grow(&mut soil);
    }
    for node in plant.root.nodes.iter() {
        for seg in node.segments.iter() {
            assert!(seg.start.y >= 0);
            assert!(seg.end.y >= 0);
        }
    }
}

#[test]
fn fifty_ticks_grow_and_branch() {
    let mut soil = MatrixSoil::new(800, 550);
    soil.add_nitro(pt(units(120), units(10)), units(20), units(10));
    let mut plant = Plant::new(units(120));
    assert_eq!(plant.strategy.conic_ratio, units(80));
    assert_eq!(plant.strategy.children_weight_rate, 800_000);
    assert_eq!(plant.strategy.child_weight_rate, 30_000);
    let mut last = total_biomass(&plant.root);
    for _ in 0..50 {
        plant.grow(&mut soil);
        let now = total_biomass(&plant.root);
        assert!(now > last, "total biomass must strictly increase");
        last = now;
    }
    // 1 / child_weight_rate = 33.33 units: the root passed it and a
    // child branch exists.
    assert!(plant.root.nodes[0].weight > 33_333_333);
    assert!(plant.root.nodes.len() >= 2, "a child branch should exist");
    // Each branch links children at most once per segment.
    for node in plant.root.nodes.iter() {
        let mut seen = std::collections::BTreeSet::new();
        for seg in node.segments.iter() {
            if let Some(c) = seg.branch {
                assert!(seen.insert(c), "no segment pair may share a child");
            }
        }
    }
}

#[test]
fn world_ticks_all_plants() {
    let mut world = World::new(800, 550);
    world.soil.add_nitro(pt(units(120), units(10)), units(20), units(10));
    let strat = BranchingStrategy {
        conic_ratio: units(90),
        children_weight_rate: 900_000,
        child_weight_rate: 70_000,
        default_side_angle: -628_318,
    };
    world.add_plant(Plant::new(units(120)));
    world.add_plant(Plant::with_strategy(1, units(240), strat));
    let before: Vec<i64> = world.plants.iter().map(|p| total_biomass(&p.root)).collect();
    for _ in 0..10 {
        world.tick();
    }
    for (p, b) in world.plants.iter().zip(before.iter()) {
        assert!(total_biomass(&p.root) >= *b);
    }
    assert_eq!(world.width, 800);
    assert_eq!(world.height, 550);
}

#[test]
fn stat_vec_reports_sum_and_max() {
    let v = vec![3i64, -1, 7, 7, 2];
    let (at, top) = v.max_index();
    assert_eq!(top, 7);
    assert_eq!(at, 3);
    assert_eq!(v.max_value(), 7);
    let sv = StatVec::new(v);
    assert_eq!(sv.sum(), 18);
    let (at2, top2) = sv.max_index();
    assert_eq!((at2, top2), (3, 7));
    assert_eq!(sv.max_value(), 7);
}

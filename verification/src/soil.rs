//! The soil: a discretized 2D field of two resource concentrations.
//!
//! Positions are fixed-point points; they quantize to cells of
//! `step` by `step` pixels (one pixel is one fixed-point unit).
//! Queries outside the field read a neutral zero.

use vstd::prelude::*;
use crate::fixed::{fx_div, fx_div_s, fx_mul, fx_mul_s, FX_ONE, FX_PI};
use crate::geom::Point;
use crate::sums::{
    lemma_elem_le_sum, lemma_sum_nonneg, lemma_sum_push, lemma_sum_update, sum_int,
};

verus! {

/// One of the two depletable soil resources.
#[derive(Clone, Copy, PartialEq, Eq, Structural, Debug)]
pub enum Resource {
    Water,
    Nitro,
}

/// The largest mass one resource channel of a grid may hold, so that
/// sums over samples stay within machine bounds.
pub const GRID_CAP: i64 = 0x4000_0000;

/// The largest field side, in pixels.
pub const SIDE_CAP: usize = 100_000;

/// The largest deposit radius, in fixed-point units: a million pixels,
/// ten times the largest field side, as far as the cell-count estimate
/// stays within 64-bit arithmetic.
pub const RADIUS_CAP: i64 = 1_000_000_000_000;

/// Whether a position lies near a deposit: inside the bounding box of
/// the deposit's scan, one cell of margin included. Cells wholly
/// outside it are never touched by the deposit.
pub open spec fn near_deposit(p: Point, pos: Point, radius: i64) -> bool {
    let px = p.x as int / FX_ONE as int;
    let py = p.y as int / FX_ONE as int;
    let cx = pos.x as int / FX_ONE as int;
    let cy = pos.y as int / FX_ONE as int;
    let rp = radius as int / FX_ONE as int;
    cx - rp - 9 <= px <= cx + rp + 9 && cy - rp - 9 <= py <= cy + rp + 9
}

/// The sum of a machine-integer sequence.
pub open spec fn seq_total(s: Seq<i64>) -> int {
    sum_int(s.map_values(|v: i64| v as int))
}

/// Two resource concentration fields over a bounded area, quantized
/// into fixed-size cells.
pub struct MatrixSoil {
    size_x: usize,
    size_y: usize,
    step: usize,
    water: Vec<i64>,
    nitro: Vec<i64>,
}

impl MatrixSoil {
    /// The cells of one resource channel, row-major.
    pub closed spec fn channel(&self, what: Resource) -> Seq<i64> {
        match what {
            Resource::Water => self.water@,
            Resource::Nitro => self.nitro@,
        }
    }

    /// The total mass one channel holds.
    pub open spec fn total(&self, what: Resource) -> int {
        seq_total(self.channel(what))
    }

    /// Cell columns of the field.
    pub closed spec fn cols(&self) -> int {
        (self.size_x + self.step - 1) as int / self.step as int
    }

    /// Cell rows of the field.
    pub closed spec fn rows(&self) -> int {
        (self.size_y + self.step - 1) as int / self.step as int
    }

    /// Whether a position lies on the field.
    pub closed spec fn in_bounds_s(&self, pos: Point) -> bool {
        0 <= pos.x < (self.size_x as int) * (FX_ONE as int)
            && 0 <= pos.y < (self.size_y as int) * (FX_ONE as int)
    }

    /// The cell holding the pixel `(x, y)`, by floor-quantization.
    pub closed spec fn cell_index_s(&self, x: int, y: int) -> int {
        x / self.step as int + (y / self.step as int) * self.cols()
    }

    /// The concentration read at a position: the quantized cell's value
    /// on the field, a neutral zero off it.
    pub closed spec fn sample_s(&self, pos: Point, what: Resource) -> int {
        if self.in_bounds_s(pos) {
            self.channel(what)[self.cell_index_s(
                pos.x as int / FX_ONE as int,
                pos.y as int / FX_ONE as int,
            )] as int
        } else {
            0
        }
    }

    /// The grids agree on their geometry.
    pub closed spec fn same_shape(&self, other: MatrixSoil) -> bool {
        self.size_x == other.size_x && self.size_y == other.size_y && self.step == other.step
    }

    /// Well-formed: cells cover the field, hold non-negative mass, and
    /// each channel's total stays under `GRID_CAP`.
    pub closed spec fn wf(&self) -> bool {
        &&& self.step == 10
        &&& 0 < self.size_x <= SIDE_CAP
        &&& 0 < self.size_y <= SIDE_CAP
        &&& self.water@.len() == self.cols() * self.rows()
        &&& self.nitro@.len() == self.cols() * self.rows()
        &&& (forall|i: int| 0 <= i < self.water@.len() ==> self.water@[i] >= 0)
        &&& (forall|i: int| 0 <= i < self.nitro@.len() ==> self.nitro@[i] >= 0)
        &&& seq_total(self.water@) <= GRID_CAP
        &&& seq_total(self.nitro@) <= GRID_CAP
    }

    /// A pixel on the field quantizes to a cell the channels hold.
    proof fn lemma_index_valid(&self, x: int, y: int)
        requires
            self.wf(),
            0 <= x < self.size_x,
            0 <= y < self.size_y,
        ensures
            0 <= self.cell_index_s(x, y) < self.cols() * self.rows(),
    {
        let st = self.step as int;
        let cx = x / st;
        let cy = y / st;
        assert(0 <= cx && 0 <= cy) by {
            vstd::arithmetic::div_mod::lemma_div_pos_is_pos(x, st);
            vstd::arithmetic::div_mod::lemma_div_pos_is_pos(y, st);
        }
        assert(cx < self.cols() && cy < self.rows()) by {
            vstd::arithmetic::div_mod::lemma_div_is_ordered(x, (self.size_x - 1) as int, st);
            vstd::arithmetic::div_mod::lemma_div_is_ordered(y, (self.size_y - 1) as int, st);
            assert((self.size_x - 1) as int / st < self.cols() && (self.size_y - 1) as int / st
                < self.rows()) by (nonlinear_arith)
                requires
                    st == 10,
                    0 < self.size_x,
                    0 < self.size_y,
                    self.cols() == (self.size_x + st - 1) as int / st,
                    self.rows() == (self.size_y + st - 1) as int / st;
        }
        assert(cx + cy * self.cols() < self.cols() * self.rows()) by (nonlinear_arith)
            requires
                0 <= cx < self.cols(),
                0 <= cy < self.rows();
        assert(cx + cy * self.cols() >= 0) by (nonlinear_arith)
            requires
                0 <= cx,
                0 <= cy,
                self.cols() > 0;
    }

    /// A non-negative position under `size` whole units quantizes to a
    /// pixel on a field `size` pixels wide.
    proof fn lemma_px_bounds(x: int, size: int)
        requires
            0 <= x < size * (FX_ONE as int),
            0 < size,
        ensures
            0 <= x / (FX_ONE as int) < size,
    {
        let f = FX_ONE as int;
        vstd::arithmetic::div_mod::lemma_div_pos_is_pos(x, f);
        vstd::arithmetic::div_mod::lemma_div_is_ordered(x, size * f - 1, f);
        vstd::arithmetic::div_mod::lemma_fundamental_div_mod_converse(
            size * f - 1, f, size - 1, f - 1);
    }

    /// Pixels quantizing to the same cell lie within one step of each
    /// other, so cells of pixels a step apart differ.
    proof fn lemma_cells_distinct(&self, x1: int, y1: int, x2: int, y2: int)
        requires
            self.wf(),
            0 <= x1 < self.size_x,
            0 <= y1 < self.size_y,
            0 <= x2 < self.size_x,
            0 <= y2 < self.size_y,
            x1 - x2 >= 10 || x2 - x1 >= 10 || y1 - y2 >= 10 || y2 - y1 >= 10,
        ensures
            self.cell_index_s(x1, y1) != self.cell_index_s(x2, y2),
    {
        let st = self.step as int;
        vstd::arithmetic::div_mod::lemma_fundamental_div_mod(x1, st);
        vstd::arithmetic::div_mod::lemma_fundamental_div_mod(x2, st);
        vstd::arithmetic::div_mod::lemma_fundamental_div_mod(y1, st);
        vstd::arithmetic::div_mod::lemma_fundamental_div_mod(y2, st);
        vstd::arithmetic::div_mod::lemma_mod_division_less_than_divisor(x1, st);
        vstd::arithmetic::div_mod::lemma_mod_division_less_than_divisor(x2, st);
        vstd::arithmetic::div_mod::lemma_mod_division_less_than_divisor(y1, st);
        vstd::arithmetic::div_mod::lemma_mod_division_less_than_divisor(y2, st);
        assert(x1 / st != x2 / st || y1 / st != y2 / st) by (nonlinear_arith)
            requires
                st == 10,
                x1 == st * (x1 / st) + x1 % st,
                x2 == st * (x2 / st) + x2 % st,
                y1 == st * (y1 / st) + y1 % st,
                y2 == st * (y2 / st) + y2 % st,
                0 <= x1 % st < st,
                0 <= x2 % st < st,
                0 <= y1 % st < st,
                0 <= y2 % st < st,
                x1 - x2 >= 10 || x2 - x1 >= 10 || y1 - y2 >= 10 || y2 - y1 >= 10;
        self.lemma_index_valid(x1, y1);
        self.lemma_index_valid(x2, y2);
        let cx1 = x1 / st;
        let cy1 = y1 / st;
        let cx2 = x2 / st;
        let cy2 = y2 / st;
        assert(0 <= cx1 < self.cols() && 0 <= cx2 < self.cols() && 0 <= cy1 && 0 <= cy2) by {
            vstd::arithmetic::div_mod::lemma_div_pos_is_pos(x1, st);
            vstd::arithmetic::div_mod::lemma_div_pos_is_pos(x2, st);
            vstd::arithmetic::div_mod::lemma_div_pos_is_pos(y1, st);
            vstd::arithmetic::div_mod::lemma_div_pos_is_pos(y2, st);
            vstd::arithmetic::div_mod::lemma_div_is_ordered(x1, (self.size_x - 1) as int, st);
            vstd::arithmetic::div_mod::lemma_div_is_ordered(x2, (self.size_x - 1) as int, st);
            assert((self.size_x - 1) as int / st < self.cols()) by (nonlinear_arith)
                requires
                    st == 10,
                    0 < self.size_x,
                    self.cols() == (self.size_x + st - 1) as int / st;
        }
        assert(cx1 + cy1 * self.cols() != cx2 + cy2 * self.cols()) by (nonlinear_arith)
            requires
                0 <= cx1 < self.cols(),
                0 <= cx2 < self.cols(),
                0 <= cy1,
                0 <= cy2,
                cx1 != cx2 || cy1 != cy2;
    }

    /// A sample away from an updated cell is unchanged.
    proof fn lemma_sample_away(
        pre: MatrixSoil,
        post: MatrixSoil,
        x: int,
        y: int,
        p: Point,
        what: Resource,
    )
        requires
            pre.wf(),
            post.wf(),
            pre.same_shape(post),
            post.channel(what) == pre.channel(what).update(
                pre.cell_index_s(x, y),
                post.channel(what)[pre.cell_index_s(x, y)],
            ),
            0 <= x < pre.size_x,
            0 <= y < pre.size_y,
            (p.x as int / FX_ONE as int) - x >= 10 || x - (p.x as int / FX_ONE as int) >= 10 || (
            p.y as int / FX_ONE as int) - y >= 10 || y - (p.y as int / FX_ONE as int) >= 10,
        ensures
            post.sample_s(p, what) == pre.sample_s(p, what),
    {
        assert(post.in_bounds_s(p) == pre.in_bounds_s(p));
        if pre.in_bounds_s(p) {
            let px = p.x as int / FX_ONE as int;
            let py = p.y as int / FX_ONE as int;
            Self::lemma_px_bounds(p.x as int, pre.size_x as int);
            Self::lemma_px_bounds(p.y as int, pre.size_y as int);
            pre.lemma_cells_distinct(px, py, x, y);
            pre.lemma_index_valid(px, py);
            pre.lemma_index_valid(x, y);
            assert(post.cell_index_s(px, py) == pre.cell_index_s(px, py));
            let i = pre.cell_index_s(x, y);
            let pidx = pre.cell_index_s(px, py);
            assert(post.channel(what)[pidx] == pre.channel(what).update(
                i,
                post.channel(what)[i],
            )[pidx]);
            assert(pre.channel(what).update(i, post.channel(what)[i])[pidx] == pre.channel(
                what,
            )[pidx]);
        }
    }

    /// A fresh field of the given pixel size, both channels zero.
    pub fn new(size_x: usize, size_y: usize) -> (r: MatrixSoil)
        requires
            0 < size_x <= SIDE_CAP,
            0 < size_y <= SIDE_CAP,
        ensures
            r.wf(),
            r.total(Resource::Water) == 0,
            r.total(Resource::Nitro) == 0,
            forall|p: Point, w: Resource| r.sample_s(p, w) == 0,
            forall|p: Point| r.in_bounds_s(p) <==> (0 <= p.x < (size_x as int) * (FX_ONE as int)
                && 0 <= p.y < (size_y as int) * (FX_ONE as int)),
    {
        let step: usize = 10;
        let cols = (size_x + step - 1) / step;
        let rows = (size_y + step - 1) / step;
        assert(cols * rows <= 10_001 * 10_001) by (nonlinear_arith)
            requires 0 < cols <= 10_001, 0 < rows <= 10_001;
        let n = cols * rows;
        let mut water: Vec<i64> = Vec::new();
        let mut nitro: Vec<i64> = Vec::new();
        while water.len() < n
            invariant
                water@.len() <= n,
                forall|i: int| 0 <= i < water@.len() ==> water@[i] == 0,
                seq_total(water@) == 0,
            decreases n - water@.len(),
        {
            proof {
                let m = water@.map_values(|v: i64| v as int);
                assert(water@.push(0i64).map_values(|v: i64| v as int) =~= m.push(0));
                lemma_sum_push(m, 0);
            }
            water.push(0);
        }
        while nitro.len() < n
            invariant
                nitro@.len() <= n,
                forall|i: int| 0 <= i < nitro@.len() ==> nitro@[i] == 0,
                seq_total(nitro@) == 0,
            decreases n - nitro@.len(),
        {
            proof {
                let m = nitro@.map_values(|v: i64| v as int);
                assert(nitro@.push(0i64).map_values(|v: i64| v as int) =~= m.push(0));
                lemma_sum_push(m, 0);
            }
            nitro.push(0);
        }
        let r = MatrixSoil { size_x, size_y, step, water, nitro };
        proof {
            assert forall|p: Point, w: Resource| r.sample_s(p, w) == 0 by {
                if r.in_bounds_s(p) {
                    Self::lemma_px_bounds(p.x as int, r.size_x as int);
                    Self::lemma_px_bounds(p.y as int, r.size_y as int);
                    r.lemma_index_valid(p.x as int / FX_ONE as int, p.y as int / FX_ONE as int);
                }
            }
        }
        r
    }

    /// The index of the cell holding the pixel `(x, y)`, or `None` off
    /// the field.
    fn get_index(&self, x: usize, y: usize) -> (r: Option<usize>)
        requires
            self.wf(),
        ensures
            match r {
                Some(i) => x < self.size_x && y < self.size_y
                    && i == self.cell_index_s(x as int, y as int)
                    && i < self.water@.len(),
                None => x >= self.size_x || y >= self.size_y,
            },
    {
        if x >= self.size_x || y >= self.size_y {
            return None;
        }
        let cols = (self.size_x + self.step - 1) / self.step;
        proof {
            self.lemma_index_valid(x as int, y as int);
            assert((y as int / self.step as int) * (cols as int) <= 100_000 * 10_001)
                by (nonlinear_arith)
                requires
                    0 <= y as int / self.step as int <= 100_000,
                    0 <= cols <= 10_001;
        }
        Some(x / self.step + (y / self.step) * cols)
    }

    /// Deposits `weight` into the cell holding pixel `(x, y)`; returns
    /// the mass actually deposited: `weight` on the field, zero off it.
    /// Deposits here are never negative — extraction is non-destructive
    /// — so no clamping of a cell at zero is needed.
    fn add_at(&mut self, x: usize, y: usize, what: Resource, weight: i64) -> (r: i64)
        requires
            old(self).wf(),
            0 <= weight,
            old(self).total(what) + weight <= GRID_CAP,
        ensures
            final(self).wf(),
            final(self).same_shape(*old(self)),
            r == if x < old(self).size_x && y < old(self).size_y { weight as int } else { 0 },
            final(self).total(what) == old(self).total(what) + r,
            final(self).channel(flip(what)) == old(self).channel(flip(what)),
            final(self).channel(what).len() == old(self).channel(what).len(),
            forall|i: int| 0 <= i < old(self).channel(what).len()
                ==> final(self).channel(what)[i] >= old(self).channel(what)[i],
            !(x < old(self).size_x && y < old(self).size_y) ==> final(self).channel(what)
                == old(self).channel(what),
            x < old(self).size_x && y < old(self).size_y ==> final(self).channel(what)
                =~= old(self).channel(what).update(
                    old(self).cell_index_s(x as int, y as int),
                    (old(self).channel(what)[old(self).cell_index_s(x as int, y as int)]
                        + weight) as i64,
                ),
    {
        let index = match self.get_index(x, y) {
            Some(i) => i,
            None => {
                return 0;
            },
        };
        proof {
            let ch = self.channel(what).map_values(|v: i64| v as int);
            lemma_elem_le_sum(ch, index as int);
            lemma_sum_nonneg(ch);
            lemma_sum_update(ch, index as int, ch[index as int] + weight);
            assert(self.channel(what).update(
                index as int,
                (self.channel(what)[index as int] + weight) as i64,
            ).map_values(|v: i64| v as int) =~= ch.update(index as int, ch[index as int] + weight));
        }
        match what {
            Resource::Water => {
                let v = self.water[index];
                self.water.set(index, v + weight);
            },
            Resource::Nitro => {
                let v = self.nitro[index];
                self.nitro.set(index, v + weight);
            },
        }
        weight
    }

    /// The value held by the cell at pixel `(x, y)`, zero off the field.
    fn get_at(&self, x: usize, y: usize, what: Resource) -> (r: i64)
        requires
            self.wf(),
        ensures
            r == if x < self.size_x && y < self.size_y {
                self.channel(what)[self.cell_index_s(x as int, y as int)] as int
            } else {
                0
            },
            0 <= r <= GRID_CAP,
    {
        let index = match self.get_index(x, y) {
            Some(i) => i,
            None => {
                return 0;
            },
        };
        proof {
            let ch = self.channel(what).map_values(|v: i64| v as int);
            lemma_elem_le_sum(ch, index as int);
            lemma_sum_nonneg(ch);
        }
        match what {
            Resource::Water => self.water[index],
            Resource::Nitro => self.nitro[index],
        }
    }

    /// Deposits `amount` of nitrogen as a disc: the amount is divided
    /// evenly over an estimate of the cells the disc covers, and the
    /// rounding leftover lands in the disc's center cell, so that a
    /// deposit centered on the field conserves the requested mass
    /// exactly.
    pub fn add_nitro(&mut self, pos: Point, radius: i64, amount: i64)
        requires
            old(self).wf(),
            0 <= pos.x <= 200_000_000_000,
            0 <= pos.y <= 200_000_000_000,
            0 <= radius <= RADIUS_CAP,
            0 <= amount,
            old(self).total(Resource::Nitro) + amount <= GRID_CAP,
        ensures
            final(self).wf(),
            final(self).same_shape(*old(self)),
            final(self).channel(Resource::Water) == old(self).channel(Resource::Water),
            old(self).total(Resource::Nitro) <= final(self).total(Resource::Nitro)
                <= old(self).total(Resource::Nitro) + amount,
            old(self).in_bounds_s(pos) ==> final(self).total(Resource::Nitro)
                == old(self).total(Resource::Nitro) + amount,
            final(self).channel(Resource::Nitro).len()
                == old(self).channel(Resource::Nitro).len(),
            forall|i: int| 0 <= i < old(self).channel(Resource::Nitro).len()
                ==> final(self).channel(Resource::Nitro)[i]
                    >= old(self).channel(Resource::Nitro)[i],
            forall|p: Point|
                !near_deposit(p, pos, radius) ==> final(self).sample_s(p, Resource::Nitro)
                    == old(self).sample_s(p, Resource::Nitro),
    {
        let ghost orig = *old(self);
        let cxp = pos.x / FX_ONE;
        let cyp = pos.y / FX_ONE;
        let r_px = radius / FX_ONE;
        proof {
            vstd::arithmetic::div_mod::lemma_div_pos_is_pos(pos.x as int, FX_ONE as int);
            vstd::arithmetic::div_mod::lemma_div_pos_is_pos(pos.y as int, FX_ONE as int);
            vstd::arithmetic::div_mod::lemma_div_pos_is_pos(radius as int, FX_ONE as int);
            vstd::arithmetic::div_mod::lemma_div_is_ordered(
                pos.x as int, 200_000_000_000, FX_ONE as int);
            vstd::arithmetic::div_mod::lemma_div_is_ordered(
                pos.y as int, 200_000_000_000, FX_ONE as int);
            vstd::arithmetic::div_mod::lemma_div_is_ordered(
                radius as int, RADIUS_CAP as int, FX_ONE as int);
            assert(RADIUS_CAP as int / FX_ONE as int == 1_000_000);
            assert(200_000_000_000int / (FX_ONE as int) == 200_000);
        }
        proof {
            lemma_sum_nonneg(old(self).channel(Resource::Nitro).map_values(|v: i64| v as int));
            assert(0 <= r_px * r_px <= 1_000_000_000_000) by (nonlinear_arith)
                requires 0 <= r_px <= 1_000_000;
        }
        let rr = r_px * r_px;
        proof {
            assert(0 <= fx_mul_s(FX_PI as int, rr as int * FX_ONE as int)
                <= 0x4000_0000_0000_0000) by {
                crate::geom::lemma_fx_mul_bound(
                    FX_PI as int, rr as int * FX_ONE as int, FX_PI as int, 1_000_000_000_000_000_000);
            }
        }
        let points_fx = fx_mul(FX_PI, rr * FX_ONE) / 100;
        proof {
            vstd::arithmetic::div_mod::lemma_div_pos_is_pos(
                fx_mul_s(FX_PI as int, rr as int * FX_ONE as int), 100);
        }
        let per_cell = if points_fx > 0 {
            proof {
                assert(amount as int * (FX_ONE as int) <= GRID_CAP as int * (FX_ONE as int))
                    by (nonlinear_arith)
                    requires 0 <= amount <= GRID_CAP as int;
                assert(fx_div_s(amount as int, points_fx as int)
                    <= amount as int * FX_ONE as int) by {
                    vstd::arithmetic::div_mod::lemma_div_is_ordered_by_denominator(
                        amount as int * FX_ONE as int, 1, points_fx as int);
                }
                vstd::arithmetic::div_mod::lemma_div_pos_is_pos(
                    amount as int * FX_ONE as int, points_fx as int);
            }
            fx_div(amount, points_fx)
        } else {
            0i64
        };
        let mut left = amount;
        let x0 = if cxp > r_px { cxp - r_px } else { 0 };
        let x1 = cxp + r_px;
        let y0 = if cyp > r_px { cyp - r_px } else { 0 };
        let y1 = cyp + r_px;
        let mut x = x0;
        while x < x1
            invariant
                self.wf(),
                self.same_shape(orig),
                self.channel(Resource::Water) == orig.channel(Resource::Water),
                self.channel(Resource::Nitro).len() == orig.channel(Resource::Nitro).len(),
                forall|i: int| 0 <= i < orig.channel(Resource::Nitro).len()
                    ==> self.channel(Resource::Nitro)[i] >= orig.channel(Resource::Nitro)[i],
                0 <= left <= amount,
                self.total(Resource::Nitro) == orig.total(Resource::Nitro) + amount - left,
                orig.total(Resource::Nitro) + amount <= GRID_CAP,
                0 <= per_cell,
                cxp - r_px <= x0 <= x,
                0 <= x0,
                0 <= r_px <= 1_000_000,
                x1 == cxp + r_px,
                y1 == cyp + r_px,
                cyp - r_px <= y0,
                0 <= y0,
                0 <= cxp <= 200_000,
                0 <= cyp <= 200_000,
                cxp as int == pos.x as int / (FX_ONE as int),
                cyp as int == pos.y as int / (FX_ONE as int),
                r_px as int == radius as int / (FX_ONE as int),
                forall|p: Point|
                    !near_deposit(p, pos, radius) ==> self.sample_s(p, Resource::Nitro)
                        == orig.sample_s(p, Resource::Nitro),
            decreases x1 + 10 - x,
        {
            let mut y = y0;
            while y < y1
                invariant
                    self.wf(),
                    self.same_shape(orig),
                    self.channel(Resource::Water) == orig.channel(Resource::Water),
                    self.channel(Resource::Nitro).len() == orig.channel(Resource::Nitro).len(),
                    forall|i: int| 0 <= i < orig.channel(Resource::Nitro).len()
                        ==> self.channel(Resource::Nitro)[i] >= orig.channel(Resource::Nitro)[i],
                    0 <= left <= amount,
                    self.total(Resource::Nitro) == orig.total(Resource::Nitro) + amount - left,
                    orig.total(Resource::Nitro) + amount <= GRID_CAP,
                    0 <= per_cell,
                    cxp - r_px <= x < x1,
                    0 <= x,
                    cyp - r_px <= y0 <= y,
                    0 <= y0,
                    0 <= y,
                    0 <= r_px <= 1_000_000,
                    x1 == cxp + r_px,
                    y1 == cyp + r_px,
                    0 <= cxp <= 200_000,
                    0 <= cyp <= 200_000,
                    cxp as int == pos.x as int / (FX_ONE as int),
                    cyp as int == pos.y as int / (FX_ONE as int),
                    r_px as int == radius as int / (FX_ONE as int),
                    forall|p: Point|
                        !near_deposit(p, pos, radius) ==> self.sample_s(p, Resource::Nitro)
                            == orig.sample_s(p, Resource::Nitro),
                decreases y1 + 10 - y,
            {
                let dx = x - cxp;
                let dy = y - cyp;
                proof {
                    assert(dx * dx <= 1_000_000_000_000 && dy * dy <= 1_000_000_000_000)
                        by (nonlinear_arith)
                        requires -1_000_000 <= dx <= 1_000_000, -1_000_000 <= dy <= 1_000_000;
                    assert(dx * dx >= 0 && dy * dy >= 0) by (nonlinear_arith);
                }
                if dx * dx + dy * dy <= rr {
                    let d = if per_cell < left { per_cell } else { left };
                    let ghost pre = *self;
                    let dep = self.add_at(x as usize, y as usize, Resource::Nitro, d);
                    left = left - dep;
                    proof {
                        assert forall|p: Point| !near_deposit(p, pos, radius)
                            implies self.sample_s(p, Resource::Nitro) == orig.sample_s(
                            p, Resource::Nitro) by {
                            if (x as int) < pre.size_x && (y as int) < pre.size_y {
                                let i = pre.cell_index_s(x as int, y as int);
                                pre.lemma_index_valid(x as int, y as int);
                                assert(self.channel(Resource::Nitro) == pre.channel(
                                    Resource::Nitro,
                                ).update(i, self.channel(Resource::Nitro)[i]));
                                Self::lemma_sample_away(
                                    pre, *self, x as int, y as int, p, Resource::Nitro);
                            } else {
                                assert(self.channel(Resource::Nitro) == pre.channel(
                                    Resource::Nitro));
                            }
                        }
                    }
                }
                y = y + 10;
            }
            x = x + 10;
        }
        proof {
            if orig.in_bounds_s(pos) {
                Self::lemma_px_bounds(pos.x as int, orig.size_x as int);
                Self::lemma_px_bounds(pos.y as int, orig.size_y as int);
            }
        }
        let ghost pre = *self;
        let dep = self.add_at(cxp as usize, cyp as usize, Resource::Nitro, left);
        let _ = dep;
        proof {
            assert forall|p: Point| !near_deposit(p, pos, radius)
                implies self.sample_s(p, Resource::Nitro) == orig.sample_s(
                p, Resource::Nitro) by {
                if (cxp as int) < pre.size_x && (cyp as int) < pre.size_y {
                    let i = pre.cell_index_s(cxp as int, cyp as int);
                    pre.lemma_index_valid(cxp as int, cyp as int);
                    assert(self.channel(Resource::Nitro) == pre.channel(Resource::Nitro).update(
                        i,
                        self.channel(Resource::Nitro)[i],
                    ));
                    Self::lemma_sample_away(
                        pre, *self, cxp as int, cyp as int, p, Resource::Nitro);
                } else {
                    assert(self.channel(Resource::Nitro) == pre.channel(Resource::Nitro));
                }
            }
        }
    }

    /// Any sample of a well-formed grid is a bounded mass.
    pub proof fn lemma_sample_bounds(&self, pos: Point, what: Resource)
        requires
            self.wf(),
        ensures
            0 <= self.sample_s(pos, what) <= GRID_CAP,
    {
        if self.in_bounds_s(pos) {
            Self::lemma_px_bounds(pos.x as int, self.size_x as int);
            Self::lemma_px_bounds(pos.y as int, self.size_y as int);
            self.lemma_index_valid(pos.x as int / FX_ONE as int, pos.y as int / FX_ONE as int);
            let ch = self.channel(what).map_values(|v: i64| v as int);
            lemma_elem_le_sum(ch, self.cell_index_s(
                pos.x as int / FX_ONE as int, pos.y as int / FX_ONE as int));
            lemma_sum_nonneg(ch);
        }
    }

    /// The concentration at a position, a neutral zero off the field.
    pub fn get_resource(&self, pos: Point, what: Resource) -> (r: i64)
        requires
            self.wf(),
        ensures
            r == self.sample_s(pos, what),
            0 <= r <= GRID_CAP,
    {
        if pos.x < 0 || pos.y < 0 {
            return 0;
        }
        let big_x = (self.size_x as i64) * FX_ONE;
        let big_y = (self.size_y as i64) * FX_ONE;
        if pos.x >= big_x || pos.y >= big_y {
            return 0;
        }
        proof {
            Self::lemma_px_bounds(pos.x as int, self.size_x as int);
            Self::lemma_px_bounds(pos.y as int, self.size_y as int);
        }
        self.get_at((pos.x / FX_ONE) as usize, (pos.y / FX_ONE) as usize, what)
    }

    /// The concentration available for extraction at a position.
    ///
    /// Extraction is currently non-destructive: the stored concentration
    /// is not decreased and `power` is not consulted. This is a known,
    /// deliberate simplification of the resource model.
    pub fn consume_resource(&mut self, pos: Point, what: Resource, power: i64) -> (r: i64)
        requires
            old(self).wf(),
        ensures
            *final(self) == *old(self),
            r == old(self).sample_s(pos, what),
            0 <= r <= GRID_CAP,
    {
        let _ = power;
        self.get_resource(pos, what)
    }

    /// The soil acidity: a constant stub, reserved for extension.
    pub fn get_ph(&self, pos: Point) -> (r: i64)
        ensures
            r == 5_500_000,
    {
        let _ = pos;
        5_500_000
    }

    /// The soil hardness: a constant stub, reserved for extension.
    pub fn get_hardness(&self, pos: Point) -> (r: i64)
        ensures
            r == FX_ONE,
    {
        let _ = pos;
        FX_ONE
    }

    /// Acid emission: a constant stub, reserved for extension.
    pub fn emit_acid(&mut self, pos: Point) -> (r: i64)
        ensures
            *final(self) == *old(self),
            r == 0,
    {
        let _ = pos;
        0
    }

    /// Base emission: a constant stub, reserved for extension.
    pub fn emit_base(&mut self, pos: Point) -> (r: i64)
        ensures
            *final(self) == *old(self),
            r == 0,
    {
        let _ = pos;
        0
    }
}

/// The other resource.
pub open spec fn flip(what: Resource) -> Resource {
    match what {
        Resource::Water => Resource::Nitro,
        Resource::Nitro => Resource::Water,
    }
}

} // verus!

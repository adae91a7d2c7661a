//! The simulation grid: particle storage, the gravity step, coordinate
//! mapping between display pixels and logical cells, and the rasterizer.

use vstd::arithmetic::div_mod::lemma_div_pos_is_pos;
use vstd::arithmetic::div_mod::lemma_fundamental_div_mod;
use vstd::arithmetic::div_mod::lemma_fundamental_div_mod_converse;
use vstd::arithmetic::div_mod::lemma_mod_bound;
use vstd::arithmetic::div_mod::lemma_multiply_divide_lt;
use vstd::arithmetic::mul::lemma_mul_is_commutative;
use vstd::prelude::*;

verus! {

/// One cell's state: empty air, or a falling solid.
#[derive(Clone, Copy, Debug, PartialEq, Eq, Structural)]
pub enum Particle {
    Air,
    Dirt,
}

/// The simulation state: two grid generations (`particles` is the grid after
/// the most recent completed step, `particles_old` the grid as of the start
/// of that step), logical dimensions, and the pixel-per-cell scale factor.
///
/// Cells are stored row-major: cell `(x, y)` lives at index `x + y * width`.
pub struct World {
    pub width: u32,
    pub height: u32,
    pub scale: u32,
    pub particles: Vec<Particle>,
    pub particles_old: Vec<Particle>,
}

/// The particle at cell `(x, y)` of a row-major grid of width `w`.
pub open spec fn cell_at(g: Seq<Particle>, w: int, x: int, y: int) -> Particle {
    g[x + y * w]
}

/// Whether `(x, y)` addresses a cell of a `w` by `h` grid.
pub open spec fn in_range(w: int, h: int, x: int, y: int) -> bool {
    0 <= x < w && 0 <= y < h
}

/// Whether the particle at `(x, y)` falls this step: it is `Dirt` and the
/// cell directly below it exists (the grid boundary is treated as solid
/// floor, not as air) and holds `Air`.
pub open spec fn falls(g: Seq<Particle>, w: int, h: int, x: int, y: int) -> bool {
    &&& cell_at(g, w, x, y) is Dirt
    &&& y + 1 < h
    &&& cell_at(g, w, x, y + 1) is Air
}

/// The contribution of the row above to cell `(x, y)`: `Dirt` exactly when
/// the particle at `(x, y - 1)` falls into `(x, y)`. This is also the value
/// a destination cell holds mid-step, before its own row has been processed.
pub open spec fn fallin_cell(g: Seq<Particle>, w: int, h: int, x: int, y: int) -> Particle {
    if y >= 1 && falls(g, w, h, x, y - 1) {
        Particle::Dirt
    } else {
        Particle::Air
    }
}

/// What one gravity step leaves in cell `(x, y)`: `Dirt` when the previous
/// occupant stays put (it is `Dirt` and blocked below, or on the bottom row),
/// or when the particle one row above falls into the cell; `Air` otherwise.
pub open spec fn stepped_cell(g: Seq<Particle>, w: int, h: int, x: int, y: int) -> Particle {
    if (cell_at(g, w, x, y) is Dirt && !falls(g, w, h, x, y)) || (y >= 1 && falls(g, w, h, x, y - 1)) {
        Particle::Dirt
    } else {
        Particle::Air
    }
}

/// The whole `w` by `h` grid after one gravity step applied to `g`.
pub open spec fn step_grid(g: Seq<Particle>, w: int, h: int) -> Seq<Particle> {
    Seq::new((w * h) as nat, |i: int| stepped_cell(g, w, h, i % w, i / w))
}

/// The fixed RGBA color of each particle kind.
pub open spec fn color_of(p: Particle) -> Seq<u8> {
    match p {
        Particle::Air => seq![0xffu8, 0xffu8, 0xffu8, 0xffu8],
        Particle::Dirt => seq![0xefu8, 0xb4u8, 0x59u8, 0xffu8],
    }
}

/// The logical cell shown by the pixel at linear index `i` of a frame with
/// `w * scale` pixels per row, defaulting to `Air` for a pixel whose cell
/// would lie outside the grid.
pub open spec fn pixel_cell(g: Seq<Particle>, w: int, h: int, scale: int, i: int) -> Particle {
    let cx = (i % (w * scale)) / scale;
    let cy = (i / (w * scale)) / scale;
    if in_range(w, h, cx, cy) {
        cell_at(g, w, cx, cy)
    } else {
        Particle::Air
    }
}

/// The RGBA frame that rasterizes grid `g`: `w * scale` by `h * scale`
/// pixels, 4 bytes per pixel.
pub open spec fn frame_of(g: Seq<Particle>, w: int, h: int, scale: int) -> Seq<u8> {
    Seq::new(
        (w * scale * h * scale * 4) as nat,
        |j: int| color_of(pixel_cell(g, w, h, scale, j / 4))[j % 4],
    )
}

/// A cell index `x + y * w` stays within a `w` by `h` grid.
pub proof fn lemma_index_bound(w: int, h: int, x: int, y: int)
    by (nonlinear_arith)
    requires
        0 <= x < w,
        0 <= y < h,
    ensures
        0 <= x + y * w < w * h,
{
}

/// Distinct in-range coordinates flatten to distinct indices.
pub proof fn lemma_index_unique(w: int, x1: int, y1: int, x2: int, y2: int)
    by (nonlinear_arith)
    requires
        0 <= x1 < w,
        0 <= x2 < w,
        x1 + y1 * w == x2 + y2 * w,
    ensures
        x1 == x2 && y1 == y2,
{
}

/// Flattening and the div/mod decomposition of an index are inverses.
pub proof fn lemma_index_decompose(w: int, x: int, y: int)
    requires
        0 <= x < w,
        0 <= y,
    ensures
        (x + y * w) % w == x,
        (x + y * w) / w == y,
{
    lemma_fundamental_div_mod_converse(x + y * w, w, y, x);
}

/// The div/mod coordinates of a linear index into a `w` by `h` grid are in
/// range and flatten back to the index itself.
pub proof fn lemma_coords_of_index(w: int, h: int, i: int)
    requires
        w >= 1,
        h >= 1,
        0 <= i < w * h,
    ensures
        0 <= i % w < w,
        0 <= i / w < h,
        (i % w) + (i / w) * w == i,
{
    lemma_mod_bound(i, w);
    lemma_div_pos_is_pos(i, w);
    lemma_multiply_divide_lt(i, w, h);
    lemma_fundamental_div_mod(i, w);
    lemma_mul_is_commutative(w, i / w);
}

/// Relies on rand::random::<bool>: draws one boolean from the thread-local
/// generator. Nothing is promised of the outcome.
#[verifier::external_body]
fn random_bool() -> bool {
    rand::random()
}

impl World {
    /// Structural invariant: positive dimensions, products within machine
    /// limits, and both generations sized to exactly one particle per cell.
    pub open spec fn wf(self) -> bool {
        &&& self.width >= 1
        &&& self.height >= 1
        &&& self.scale >= 1
        &&& self.width * self.height <= u32::MAX
        &&& self.width * self.scale <= u32::MAX
        &&& self.height * self.scale <= u32::MAX
        &&& self.particles@.len() == self.width * self.height
        &&& self.particles_old@.len() == self.width * self.height
    }

    /// Creates a world of `dims.0` by `dims.1` logical cells at pixel scale
    /// `scale`: both generations are allocated filled with `Air`, then each
    /// cell of the current generation independently becomes `Dirt` or stays
    /// `Air` on a coin toss. Dimensions and scale must be positive and their
    /// products must fit the machine, as `wf` demands.
    pub fn new(dims: (u32, u32), scale: u32) -> (world: World)
        requires
            dims.0 >= 1,
            dims.1 >= 1,
            scale >= 1,
            dims.0 * dims.1 <= u32::MAX,
            dims.0 * scale <= u32::MAX,
            dims.1 * scale <= u32::MAX,
        ensures
            world.wf(),
            world.width == dims.0,
            world.height == dims.1,
            world.scale == scale,
            forall|j: int| 0 <= j < world.particles_old@.len() ==> world.particles_old@[j] is Air,
    {
        let (width, height) = dims;
        let n = (width * height) as usize;
        let mut particles: Vec<Particle> = Vec::new();
        let mut particles_old: Vec<Particle> = Vec::new();
        let mut i: usize = 0;
        while i < n
            invariant
                i <= n,
                particles@.len() == i,
                particles_old@.len() == i,
                forall|j: int| 0 <= j < i ==> particles@[j] is Air,
                forall|j: int| 0 <= j < i ==> particles_old@[j] is Air,
            decreases n - i,
        {
            particles.push(Particle::Air);
            particles_old.push(Particle::Air);
            i += 1;
        }
        let mut world = World { width, height, scale, particles, particles_old };
        // Random seed pass over every cell of the fresh current generation.
        let mut x: u32 = 0;
        while x < width
            invariant
                world.wf(),
                world.width == width,
                world.height == height,
                world.scale == scale,
                x <= width,
                forall|j: int| 0 <= j < world.particles_old@.len()
                    ==> world.particles_old@[j] is Air,
            decreases width - x,
        {
            let mut y: u32 = 0;
            while y < height
                invariant
                    world.wf(),
                    world.width == width,
                    world.height == height,
                    world.scale == scale,
                    x < width,
                    y <= height,
                    forall|j: int| 0 <= j < world.particles_old@.len()
                        ==> world.particles_old@[j] is Air,
                decreases height - y,
            {
                if random_bool() {
                    world.set((x, y), Particle::Dirt);
                }
                y += 1;
            }
            x += 1;
        }
        world
    }

    /// The current-generation particle at `(x, y)`, or `None` when the
    /// coordinate lies outside the grid.
    pub fn get(&self, pos: (u32, u32)) -> (r: Option<Particle>)
        requires
            self.wf(),
        ensures
            r == (if in_range(self.width as int, self.height as int, pos.0 as int, pos.1 as int) {
                Some(cell_at(self.particles@, self.width as int, pos.0 as int, pos.1 as int))
            } else {
                None::<Particle>
            }),
    {
        let (x, y) = pos;
        if x >= self.width {
            None
        } else if y >= self.height {
            None
        } else {
            proof {
                lemma_index_bound(self.width as int, self.height as int, x as int, y as int);
            }
            Some(self.particles[(x + y * self.width) as usize])
        }
    }

    /// The previous-generation particle at `(x, y)`, or `None` when the
    /// coordinate lies outside the grid.
    pub fn get_old(&self, pos: (u32, u32)) -> (r: Option<Particle>)
        requires
            self.wf(),
        ensures
            r == (if in_range(self.width as int, self.height as int, pos.0 as int, pos.1 as int) {
                Some(cell_at(self.particles_old@, self.width as int, pos.0 as int, pos.1 as int))
            } else {
                None::<Particle>
            }),
    {
        let (x, y) = pos;
        if x >= self.width {
            None
        } else if y >= self.height {
            None
        } else {
            proof {
                lemma_index_bound(self.width as int, self.height as int, x as int, y as int);
            }
            Some(self.particles_old[(x + y * self.width) as usize])
        }
    }

    /// Writes `particle` into the current generation at cell `(x, y)`.
    /// Out-of-range coordinates are a caller bug, excluded by precondition.
    pub fn set(&mut self, pos: (u32, u32), particle: Particle)
        requires
            old(self).wf(),
            pos.0 < old(self).width,
            pos.1 < old(self).height,
        ensures
            final(self).wf(),
            final(self).width == old(self).width,
            final(self).height == old(self).height,
            final(self).scale == old(self).scale,
            final(self).particles_old == old(self).particles_old,
            final(self).particles@ == old(self).particles@.update(
                pos.0 + pos.1 * old(self).width, particle),
    {
        let (x, y) = pos;
        proof {
            lemma_index_bound(self.width as int, self.height as int, x as int, y as int);
        }
        let idx: usize = (x + y * self.width) as usize;
        self.particles.set(idx, particle);
    }

    /// Writes `particle` at the logical cell under the display pixel
    /// `(pos.0, pos.1)`: each pixel coordinate is divided by `scale`.
    /// The mapped cell must lie within the grid, as for `set`.
    pub fn setat(&mut self, pos: (u32, u32), particle: Particle)
        requires
            old(self).wf(),
            pos.0 / old(self).scale < old(self).width,
            pos.1 / old(self).scale < old(self).height,
        ensures
            final(self).wf(),
            final(self).width == old(self).width,
            final(self).height == old(self).height,
            final(self).scale == old(self).scale,
            final(self).particles_old == old(self).particles_old,
            final(self).particles@ == old(self).particles@.update(
                pos.0 / old(self).scale + (pos.1 / old(self).scale) * old(self).width, particle),
    {
        let (x, y) = (pos.0 / self.scale, pos.1 / self.scale);
        self.set((x, y), particle)
    }

    /// Advances the simulation by one step: the generations swap, the new
    /// current grid is reset to `Air`, and every cell of the step's starting
    /// state is visited once in row-major order, each `Dirt` particle either
    /// falling one row (air below) or settling in place (blocked below, or
    /// resting on the bottom row).
    pub fn update(&mut self)
        requires
            old(self).wf(),
        ensures
            final(self).wf(),
            final(self).width == old(self).width,
            final(self).height == old(self).height,
            final(self).scale == old(self).scale,
            final(self).particles_old@ == old(self).particles@,
            final(self).particles@ == step_grid(
                old(self).particles@, old(self).width as int, old(self).height as int),
    {
        let ghost g = self.particles@;
        let ghost w = self.width as int;
        let ghost h = self.height as int;
        let ghost sc = self.scale;

        std::mem::swap(&mut self.particles, &mut self.particles_old);

        // Reset the new current generation: nothing has moved here yet.
        let n = self.particles.len();
        let mut i: usize = 0;
        while i < n
            invariant
                self.wf(),
                self.width as int == w,
                self.height as int == h,
                self.scale == sc,
                self.particles_old@ == g,
                g.len() == w * h,
                self.particles@.len() == n as int,
                n as int == w * h,
                i <= n,
                forall|j: int| 0 <= j < i ==> self.particles@[j] is Air,
            decreases n - i,
        {
            self.particles.set(i, Particle::Air);
            i += 1;
        }

        proof {
            assert forall|cx: int, cy: int| in_range(w, h, cx, cy)
                implies #[trigger] cell_at(self.particles@, w, cx, cy) == (
                    if cy < 0 {
                        stepped_cell(g, w, h, cx, cy)
                    } else if cy == 0 {
                        fallin_cell(g, w, h, cx, cy)
                    } else {
                        Particle::Air
                    }
                ) by {
                lemma_index_bound(w, h, cx, cy);
            }
        }

        let mut y: u32 = 0;
        while y < self.height
            invariant
                self.wf(),
                self.width as int == w,
                self.height as int == h,
                self.scale == sc,
                self.particles_old@ == g,
                g.len() == w * h,
                self.particles@.len() == w * h,
                y <= self.height,
                forall|cx: int, cy: int| in_range(w, h, cx, cy)
                    ==> #[trigger] cell_at(self.particles@, w, cx, cy) == (
                        if cy < y {
                            stepped_cell(g, w, h, cx, cy)
                        } else if cy == y {
                            fallin_cell(g, w, h, cx, cy)
                        } else {
                            Particle::Air
                        }
                    ),
            decreases self.height - y,
        {
            let mut x: u32 = 0;
            while x < self.width
                invariant
                    self.wf(),
                    self.width as int == w,
                    self.height as int == h,
                    self.scale == sc,
                    self.particles_old@ == g,
                    g.len() == w * h,
                    self.particles@.len() == w * h,
                    x <= self.width,
                    y < self.height,
                    forall|cx: int, cy: int| in_range(w, h, cx, cy)
                        ==> #[trigger] cell_at(self.particles@, w, cx, cy) == (
                            if cy < y || (cy == y && cx < x) {
                                stepped_cell(g, w, h, cx, cy)
                            } else if cy == y || (cy == y + 1 && cx < x) {
                                fallin_cell(g, w, h, cx, cy)
                            } else {
                                Particle::Air
                            }
                        ),
                decreases self.width - x,
            {
                let ghost pre = self.particles@;
                let particle = self.get_old((x, y));
                match particle {
                    Some(Particle::Dirt) => {
                        let below_air = match self.get_old((x, y + 1)) {
                            Some(Particle::Air) => true,
                            _ => false,
                        };
                        if below_air {
                            self.set((x, y + 1), Particle::Dirt);
                        } else {
                            self.set((x, y), Particle::Dirt);
                        }
                    }
                    _ => {}
                }
                proof {
                    let tx = x as int;
                    let ty = y as int;
                    assert forall|cx: int, cy: int| in_range(w, h, cx, cy)
                        implies #[trigger] cell_at(self.particles@, w, cx, cy) == (
                            if cy < ty || (cy == ty && cx < tx + 1) {
                                stepped_cell(g, w, h, cx, cy)
                            } else if cy == ty || (cy == ty + 1 && cx < tx + 1) {
                                fallin_cell(g, w, h, cx, cy)
                            } else {
                                Particle::Air
                            }
                        ) by {
                        lemma_index_bound(w, h, cx, cy);
                        lemma_index_bound(w, h, tx, ty);
                        assert(cell_at(pre, w, cx, cy) == (
                            if cy < ty || (cy == ty && cx < tx) {
                                stepped_cell(g, w, h, cx, cy)
                            } else if cy == ty || (cy == ty + 1 && cx < tx) {
                                fallin_cell(g, w, h, cx, cy)
                            } else {
                                Particle::Air
                            }
                        ));
                        if cell_at(g, w, tx, ty) is Dirt && falls(g, w, h, tx, ty) {
                            // the particle fell: only (tx, ty + 1) was written
                            lemma_index_bound(w, h, tx, ty + 1);
                            if cx + cy * w == tx + (ty + 1) * w {
                                lemma_index_unique(w, cx, cy, tx, ty + 1);
                            }
                        } else if cell_at(g, w, tx, ty) is Dirt {
                            // the particle settled: only (tx, ty) was written
                            if cx + cy * w == tx + ty * w {
                                lemma_index_unique(w, cx, cy, tx, ty);
                            }
                        }
                    }
                }
                x += 1;
            }
            proof {
                let ty = y as int;
                assert forall|cx: int, cy: int| in_range(w, h, cx, cy)
                    implies #[trigger] cell_at(self.particles@, w, cx, cy) == (
                        if cy < ty + 1 {
                            stepped_cell(g, w, h, cx, cy)
                        } else if cy == ty + 1 {
                            fallin_cell(g, w, h, cx, cy)
                        } else {
                            Particle::Air
                        }
                    ) by {
                    lemma_index_bound(w, h, cx, cy);
                }
            }
            y += 1;
        }

        proof {
            assert forall|i2: int| 0 <= i2 < w * h
                implies self.particles@[i2] == #[trigger] step_grid(g, w, h)[i2] by {
                lemma_coords_of_index(w, h, i2);
                assert(cell_at(self.particles@, w, i2 % w, i2 / w)
                    == stepped_cell(g, w, h, i2 % w, i2 / w));
            }
            assert(self.particles@ =~= step_grid(g, w, h));
        }
    }

    /// Rasterizes the current grid into `frame`, an RGBA buffer of
    /// `width * scale` by `height * scale` pixels whose length the caller
    /// must have sized exactly. Every byte is written: the pixel at linear
    /// index `i` shows the color of the logical cell under it, white for
    /// `Air` and sand-colored for `Dirt`.
    pub fn draw(&self, frame: &mut Vec<u8>)
        requires
            self.wf(),
            old(frame)@.len() == self.width * self.scale * self.height * self.scale * 4,
        ensures
            final(frame)@ == frame_of(
                self.particles@, self.width as int, self.height as int, self.scale as int),
    {
        let ghost gr = self.particles@;
        let ghost w = self.width as int;
        let ghost h = self.height as int;
        let ghost sc = self.scale as int;
        let ghost total = w * sc * h * sc * 4;

        let row: u32 = self.width * self.scale;
        let npix: usize = frame.len() / 4;
        proof {
            assert(npix as int * 4 == total);
            assert(row as int >= 1 && row as int * (h * sc) == w * sc * h * sc)
                by (nonlinear_arith)
                requires w >= 1, h >= 1, sc >= 1, row as int == w * sc,
            ;
        }
        let mut i: usize = 0;
        while i < npix
            invariant
                self.wf(),
                self.particles@ == gr,
                self.width as int == w,
                self.height as int == h,
                self.scale as int == sc,
                total == w * sc * h * sc * 4,
                row as int == w * sc,
                row >= 1,
                row as int * (h * sc) == w * sc * h * sc,
                npix as int * 4 == total,
                total <= usize::MAX,
                frame@.len() == total,
                i <= npix,
                forall|j: int| 0 <= j < 4 * i ==> frame@[j] == frame_of(gr, w, h, sc)[j],
            decreases npix - i,
        {
            let x: u32 = (i % (row as usize)) as u32;
            let y: u32 = (i / (row as usize)) as u32;
            proof {
                lemma_mod_bound(i as int, row as int);
                lemma_div_pos_is_pos(i as int, row as int);
                lemma_multiply_divide_lt(i as int, row as int, h * sc);
            }
            let cx: u32 = x / self.scale;
            let cy: u32 = y / self.scale;
            proof {
                lemma_div_pos_is_pos(x as int, sc);
                lemma_div_pos_is_pos(y as int, sc);
                assert((x as int) < sc * w && (y as int) < sc * h) by (nonlinear_arith)
                    requires sc >= 1, w >= 1, h >= 1, (x as int) < w * sc, (y as int) < h * sc,
                ;
                lemma_multiply_divide_lt(x as int, sc, w);
                lemma_multiply_divide_lt(y as int, sc, h);
            }
            let p = match self.get((cx, cy)) {
                Some(q) => q,
                None => Particle::Air,
            };
            let (c0, c1, c2, c3) = match p {
                Particle::Air => (0xffu8, 0xffu8, 0xffu8, 0xffu8),
                Particle::Dirt => (0xefu8, 0xb4u8, 0x59u8, 0xffu8),
            };
            let ghost pre = frame@;
            frame.set(4 * i, c0);
            frame.set(4 * i + 1, c1);
            frame.set(4 * i + 2, c2);
            frame.set(4 * i + 3, c3);
            proof {
                assert(p == pixel_cell(gr, w, h, sc, i as int));
                assert forall|j: int| 0 <= j < 4 * (i + 1)
                    implies frame@[j] == #[trigger] frame_of(gr, w, h, sc)[j] by {
                    if j < 4 * i {
                        assert(pre[j] == frame_of(gr, w, h, sc)[j]);
                    } else {
                        assert(j / 4 == i as int && j % 4 == j - 4 * i);
                    }
                }
            }
            i += 1;
        }
        proof {
            assert(frame@ =~= frame_of(gr, w, h, sc));
        }
    }
}

} // verus!

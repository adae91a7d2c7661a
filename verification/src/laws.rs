//! Global properties of the simulation, proved once and for all: particle
//! counting and mass conservation across a step, the bottom row as a solid
//! floor, the single-fall behaviour of a lone particle, and determinism of
//! stepping and rasterization.

use crate::world::{
    cell_at, falls, frame_of, in_range, lemma_index_bound, lemma_index_decompose, step_grid,
    stepped_cell, Particle, World,
};
use vstd::prelude::*;

verus! {

/// The number of `Dirt` cells in column `x` among rows `0 .. k` of a
/// row-major grid of width `w`.
pub open spec fn col_dirt_count(g: Seq<Particle>, w: int, x: int, k: int) -> int
    decreases k,
{
    if k <= 0 {
        0
    } else {
        col_dirt_count(g, w, x, k - 1) + (if cell_at(g, w, x, k - 1) is Dirt {
            1int
        } else {
            0int
        })
    }
}

/// The number of `Dirt` cells in columns `0 .. cols` of a `w` by `h` grid.
pub open spec fn dirt_count_upto(g: Seq<Particle>, w: int, h: int, cols: int) -> int
    decreases cols,
{
    if cols <= 0 {
        0
    } else {
        dirt_count_upto(g, w, h, cols - 1) + col_dirt_count(g, w, cols - 1, h)
    }
}

/// The number of `Dirt` cells in a `w` by `h` grid.
pub open spec fn dirt_count(g: Seq<Particle>, w: int, h: int) -> int {
    dirt_count_upto(g, w, h, w)
}

/// The grid after `n` gravity steps.
pub open spec fn step_grid_n(g: Seq<Particle>, w: int, h: int, n: nat) -> Seq<Particle>
    decreases n,
{
    if n == 0 {
        g
    } else {
        step_grid(step_grid_n(g, w, h, (n - 1) as nat), w, h)
    }
}

/// Reading an in-range cell of the stepped grid yields the stepped value of
/// that cell.
proof fn lemma_step_grid_cell(g: Seq<Particle>, w: int, h: int, x: int, y: int)
    requires
        w >= 1,
        h >= 1,
        0 <= x < w,
        0 <= y < h,
    ensures
        cell_at(step_grid(g, w, h), w, x, y) == stepped_cell(g, w, h, x, y),
{
    lemma_index_bound(w, h, x, y);
    lemma_index_decompose(w, x, y);
}

/// One step conserves the particle count of each column prefix: the stepped
/// column `x` holds, among rows `0 .. k`, every particle the old column held
/// there except one that is just now falling out of the prefix's last row.
proof fn lemma_col_mass(g: Seq<Particle>, w: int, h: int, x: int, k: int)
    requires
        w >= 1,
        h >= 1,
        0 <= x < w,
        0 <= k <= h,
    ensures
        col_dirt_count(step_grid(g, w, h), w, x, k) == col_dirt_count(g, w, x, k) - (
        if k >= 1 && falls(g, w, h, x, k - 1) {
            1int
        } else {
            0int
        }),
    decreases k,
{
    if k > 0 {
        lemma_col_mass(g, w, h, x, k - 1);
        lemma_step_grid_cell(g, w, h, x, k - 1);
    }
}

/// One step conserves the particle count of every column prefix of the grid.
proof fn lemma_upto_mass(g: Seq<Particle>, w: int, h: int, cols: int)
    requires
        w >= 1,
        h >= 1,
        0 <= cols <= w,
    ensures
        dirt_count_upto(step_grid(g, w, h), w, h, cols) == dirt_count_upto(g, w, h, cols),
    decreases cols,
{
    if cols > 0 {
        lemma_upto_mass(g, w, h, cols - 1);
        lemma_col_mass(g, w, h, cols - 1, h);
    }
}

/// Mass non-creation: one gravity step neither creates nor destroys
/// particles — the stepped grid holds exactly as many `Dirt` cells as the
/// grid it was computed from.
pub proof fn lemma_step_preserves_mass(g: Seq<Particle>, w: int, h: int)
    requires
        w >= 1,
        h >= 1,
        g.len() == w * h,
    ensures
        dirt_count(step_grid(g, w, h), w, h) == dirt_count(g, w, h),
{
    lemma_upto_mass(g, w, h, w);
}

/// Floor containment: the bottom row acts as a solid floor — a `Dirt` cell
/// on row `h - 1` is still `Dirt` there after any number of steps.
pub proof fn lemma_floor_containment(g: Seq<Particle>, w: int, h: int, x: int, n: nat)
    requires
        w >= 1,
        h >= 1,
        0 <= x < w,
        cell_at(g, w, x, h - 1) is Dirt,
    ensures
        cell_at(step_grid_n(g, w, h, n), w, x, h - 1) is Dirt,
    decreases n,
{
    if n > 0 {
        lemma_floor_containment(g, w, h, x, (n - 1) as nat);
        lemma_step_grid_cell(step_grid_n(g, w, h, (n - 1) as nat), w, h, x, h - 1);
    }
}

/// Single fall per step: in a grid whose only particle sits at `(x, y)` with
/// air below it, one step moves that particle to exactly `(x, y + 1)` and
/// leaves every other cell empty.
pub proof fn lemma_single_fall(g: Seq<Particle>, w: int, h: int, x: int, y: int)
    requires
        w >= 1,
        h >= 1,
        0 <= x < w,
        0 <= y,
        y + 1 < h,
        cell_at(g, w, x, y) is Dirt,
        forall|cx: int, cy: int|
            in_range(w, h, cx, cy) && !(cx == x && cy == y) ==> #[trigger] cell_at(
                g,
                w,
                cx,
                cy,
            ) is Air,
    ensures
        cell_at(step_grid(g, w, h), w, x, y + 1) is Dirt,
        forall|cx: int, cy: int|
            in_range(w, h, cx, cy) && !(cx == x && cy == y + 1) ==> #[trigger] cell_at(
                step_grid(g, w, h),
                w,
                cx,
                cy,
            ) is Air,
{
    assert(cell_at(g, w, x, y + 1) is Air);
    assert(falls(g, w, h, x, y));
    lemma_step_grid_cell(g, w, h, x, y + 1);
    assert forall|cx: int, cy: int|
        in_range(w, h, cx, cy) && !(cx == x && cy == y + 1) implies #[trigger] cell_at(
        step_grid(g, w, h),
        w,
        cx,
        cy,
    ) is Air by {
        lemma_step_grid_cell(g, w, h, cx, cy);
        if cy >= 1 {
            assert(in_range(w, h, cx, cy - 1));
            assert(!(cx == x && cy - 1 == y) ==> cell_at(g, w, cx, cy - 1) is Air);
        }
    }
}

/// Determinism: stepping and rasterizing are functions of the grid state
/// alone — two worlds with the same dimensions, scale and current grid step
/// to the same grid and rasterize to the same frame.
pub proof fn lemma_deterministic(a: World, b: World)
    requires
        a.width == b.width,
        a.height == b.height,
        a.scale == b.scale,
        a.particles@ == b.particles@,
    ensures
        step_grid(a.particles@, a.width as int, a.height as int) == step_grid(
            b.particles@,
            b.width as int,
            b.height as int,
        ),
        frame_of(a.particles@, a.width as int, a.height as int, a.scale as int) == frame_of(
            b.particles@,
            b.width as int,
            b.height as int,
            b.scale as int,
        ),
{
}

/// Idempotent rasterization: without an intervening step or paint the
/// rasterizer's output is fixed — any two frames drawn from the same world
/// are byte-identical.
pub proof fn lemma_rasterize_idempotent(wld: World, f1: Seq<u8>, f2: Seq<u8>)
    requires
        f1 == frame_of(wld.particles@, wld.width as int, wld.height as int, wld.scale as int),
        f2 == frame_of(wld.particles@, wld.width as int, wld.height as int, wld.scale as int),
    ensures
        f1 == f2,
{
}

} // verus!

//! The lattice of pixels at which balls are seeded.
//!
//! Balls start on a regular lattice of window pixels: every `stride`-th
//! column, and in each of these every `stride`-th row, column by column from
//! the left and in each column from the top. Which lattice points end up with
//! a ball is for the caller to say, who knows the curve.

use vstd::prelude::*;
use vstd::arithmetic::div_mod::{lemma_fundamental_div_mod, lemma_fundamental_div_mod_converse};

verus! {

/// Width of the window in pixels.
pub const WINDOW_WIDTH: u32 = 1080;

/// Height of the window in pixels.
pub const WINDOW_HEIGHT: u32 = 1080;

/// Distance in pixels between neighbouring seeds, along both axes.
pub const SEED_STRIDE: u32 = 10;

/// How many multiples of `stride` lie below `extent`, zero included.
pub open spec fn ticks(extent: nat, stride: nat) -> nat {
    if stride == 0 {
        0
    } else {
        ((extent + stride - 1) / stride as int) as nat
    }
}

/// The `k`-th lattice point where columns hold `rows` points each.
pub open spec fn point_at(rows: nat, stride: nat, k: int) -> (u32, u32) {
    (((k / rows as int) * stride) as u32, ((k % rows as int) * stride) as u32)
}

/// The lattice over a `width` by `height` rectangle, in seeding order.
pub open spec fn lattice_points(width: nat, height: nat, stride: nat) -> Seq<(u32, u32)> {
    let rows = ticks(height, stride);
    Seq::new(ticks(width, stride) * rows, |k: int| point_at(rows, stride, k))
}

/// The `i`-th multiple of `stride` lies below `extent` exactly for `i` below
/// `ticks(extent, stride)`.
pub proof fn lemma_ticks(extent: nat, stride: nat, i: nat)
    requires
        stride > 0,
    ensures
        i * stride < extent <==> i < ticks(extent, stride),
{
    let t = ticks(extent, stride);
    let total = (extent + stride - 1) as int;
    lemma_fundamental_div_mod(total, stride as int);
    let r = total % (stride as int);
    assert(i * stride < extent <==> i < t) by (nonlinear_arith)
        requires
            total == extent + stride - 1,
            total == stride * t + r,
            0 <= r < stride,
            stride > 0,
    ;
}

/// Every lattice point lies in the rectangle, on a multiple of the stride
/// along both axes.
pub proof fn lemma_lattice_in_bounds(width: nat, height: nat, stride: nat, k: int)
    requires
        stride > 0,
        width <= u32::MAX,
        height <= u32::MAX,
        0 <= k < lattice_points(width, height, stride).len(),
    ensures
        ({
            let p = lattice_points(width, height, stride)[k];
            let rows = ticks(height, stride);
            &&& p.0 == (k / rows as int) * stride
            &&& p.1 == (k % rows as int) * stride
            &&& p.0 < width
            &&& p.1 < height
        }),
{
    let rows = ticks(height, stride);
    let cols = ticks(width, stride);
    assert(rows > 0) by (nonlinear_arith)
        requires
            0 <= k < cols * rows,
    ;
    lemma_fundamental_div_mod(k, rows as int);
    let i = k / rows as int;
    let j = k % rows as int;
    assert(0 <= i < cols) by (nonlinear_arith)
        requires
            k == rows * i + j,
            0 <= j < rows,
            0 <= k < cols * rows,
    ;
    lemma_ticks(width, stride, i as nat);
    lemma_ticks(height, stride, j as nat);
}

/// Every point of the rectangle that lies on a multiple of the stride along
/// both axes is a lattice point, at the place that its column and row give.
pub proof fn lemma_lattice_complete(width: nat, height: nat, stride: nat, i: nat, j: nat)
    requires
        stride > 0,
        width <= u32::MAX,
        height <= u32::MAX,
        i * stride < width,
        j * stride < height,
    ensures
        ({
            let k = i * ticks(height, stride) + j;
            &&& k < lattice_points(width, height, stride).len()
            &&& lattice_points(width, height, stride)[k as int] == ((i * stride) as u32, (j * stride) as u32)
        }),
{
    let rows = ticks(height, stride);
    let cols = ticks(width, stride);
    lemma_ticks(width, stride, i);
    lemma_ticks(height, stride, j);
    let k = (i * rows + j) as int;
    assert(0 <= k < cols * rows) by (nonlinear_arith)
        requires
            k == i * rows + j,
            i < cols,
            j < rows,
    ;
    assert(k == rows * i + j) by (nonlinear_arith)
        requires
            k == i * rows + j,
    ;
    lemma_fundamental_div_mod_converse(k, rows as int, i as int, j as int);
}

/// The lattice over a `width` by `height` rectangle of pixels: the points
/// whose coordinates are multiples of `stride`, column by column.
pub fn lattice(width: u32, height: u32, stride: u32) -> (points: Vec<(u32, u32)>)
    requires
        stride > 0,
    ensures
        points@ == lattice_points(width as nat, height as nat, stride as nat),
{
    let ghost rows = ticks(height as nat, stride as nat);
    let ghost cols = ticks(width as nat, stride as nat);
    let mut points: Vec<(u32, u32)> = Vec::new();
    let mut x: u64 = 0;
    let ghost mut i: nat = 0;
    while x < width as u64
        invariant
            stride > 0,
            rows == ticks(height as nat, stride as nat),
            cols == ticks(width as nat, stride as nat),
            x == i * stride,
            i <= cols,
            points@.len() == i * rows,
            forall|k: int| 0 <= k < points@.len() ==> points@[k] == point_at(rows, stride as nat, k),
        decreases cols - i,
    {
        proof {
            lemma_ticks(width as nat, stride as nat, i);
        }
        let mut y: u64 = 0;
        let ghost mut j: nat = 0;
        while y < height as u64
            invariant
                stride > 0,
                rows == ticks(height as nat, stride as nat),
                x == i * stride,
                x < width,
                y == j * stride,
                j <= rows,
                points@.len() == i * rows + j,
                forall|k: int|
                    0 <= k < points@.len() ==> points@[k] == point_at(rows, stride as nat, k),
            decreases rows - j,
        {
            proof {
                lemma_ticks(height as nat, stride as nat, j);
                let k = (i * rows + j) as int;
                assert(k == rows * i + j) by (nonlinear_arith)
                    requires
                        k == i * rows + j,
                ;
                lemma_fundamental_div_mod_converse(k, rows as int, i as int, j as int);
            }
            points.push((x as u32, y as u32));
            y = y + stride as u64;
            proof {
                assert((j + 1) * stride == j * stride + stride) by (nonlinear_arith);
                j = j + 1;
            }
        }
        proof {
            lemma_ticks(height as nat, stride as nat, j);
            assert((i + 1) * rows == i * rows + rows) by (nonlinear_arith);
        }
        x = x + stride as u64;
        proof {
            assert((i + 1) * stride == i * stride + stride) by (nonlinear_arith);
            i = i + 1;
        }
    }
    proof {
        lemma_ticks(width as nat, stride as nat, i);
        assert(points@ =~= lattice_points(width as nat, height as nat, stride as nat));
    }
    points
}

/// The seeds of the scene: the lattice over the left half of the window.
pub fn seed_points() -> (points: Vec<(u32, u32)>)
    ensures
        points@ == lattice_points((WINDOW_WIDTH / 2) as nat, WINDOW_HEIGHT as nat, SEED_STRIDE as nat),
        points@.len() == 54 * 108,
{
    lattice(WINDOW_WIDTH / 2, WINDOW_HEIGHT, SEED_STRIDE)
}

} // verus!

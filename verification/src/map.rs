//! Level geometry: a level is handed to the core as a grid of solid and
//! empty cells. Runs of solid cells are merged into rectangular blocks
//! (each a single row or a single column of cells), and each block is
//! placed in the world as a box at a position, on a fixed tile size.

use vstd::prelude::*;
use crate::physics::{Position, Vec2i, AABB, LIMIT};

verus! {

/// Grid sides stay below this bound so that cell indices and world
/// coordinates fit comfortably.
pub const GRID_LIMIT: usize = 32768;

/// An inclusive rectangle of grid cells.
#[derive(Clone, Copy, Debug, PartialEq, Eq, Structural)]
pub struct Block {
    pub x0: u32,
    pub y0: u32,
    pub x1: u32,
    pub y1: u32,
}

impl Block {
    /// A block lies within a `w` by `h` grid and is a run: a single
    /// column or a single row of cells.
    pub open spec fn wf(self, w: int, h: int) -> bool {
        &&& self.x0 <= self.x1 < w
        &&& self.y0 <= self.y1 < h
        &&& (self.x0 == self.x1 || self.y0 == self.y1)
    }

    /// Whether the block covers cell (`x`, `y`).
    pub open spec fn covers(self, x: int, y: int) -> bool {
        self.x0 <= x <= self.x1 && self.y0 <= y <= self.y1
    }
}

/// Whether cell (`x`, `y`) of a row-major `w`-wide grid is solid.
pub open spec fn cell(grid: Seq<bool>, w: int, x: int, y: int) -> bool {
    grid[y * w + x]
}

/// A cell index lies inside the grid buffer.
proof fn lemma_cell_index(w: int, h: int, x: int, y: int) by (nonlinear_arith)
    requires
        0 <= x < w,
        0 <= y < h,
    ensures
        0 <= y * w + x < w * h,
        y * w + x == x + y * w,
{
}

/// Merges the solid cells of a row-major grid into blocks, scanning row
/// by row: a solid cell extends a single-column block ending right above
/// it, or a single-row block ending right before it, or starts a new
/// block. Every returned block is an in-bounds run of solid cells, and
/// every solid cell is covered by some block.
#[verifier::loop_isolation(false)]
#[verifier::rlimit(100)]
pub fn merge_blocks(grid: &Vec<bool>, width: usize, height: usize) -> (blocks: Vec<Block>)
    requires
        grid@.len() == width * height,
        width <= GRID_LIMIT,
        height <= GRID_LIMIT,
    ensures
        forall|k: int|
            0 <= k < blocks@.len() ==> (#[trigger] blocks@[k]).wf(width as int, height as int),
        forall|k: int, x: int, y: int|
            0 <= k < blocks@.len() && #[trigger] blocks@[k].covers(x, y) ==> cell(
                grid@,
                width as int,
                x,
                y,
            ),
        forall|x: int, y: int|
            0 <= x < width && 0 <= y < height && cell(grid@, width as int, x, y)
                ==> exists|k: int|
                0 <= k < blocks@.len() && (#[trigger] blocks@[k]).covers(x, y),
{
    let mut blocks: Vec<Block> = Vec::new();
    let mut y: usize = 0;
    while y < height
        invariant
            0 <= y <= height,
            forall|k: int|
                0 <= k < blocks@.len() ==> (#[trigger] blocks@[k]).wf(
                    width as int,
                    height as int,
                ),
            forall|k: int, cx: int, cy: int|
                0 <= k < blocks@.len() && #[trigger] blocks@[k].covers(cx, cy) ==> cell(
                    grid@,
                    width as int,
                    cx,
                    cy,
                ),
            forall|cx: int, cy: int|
                0 <= cx < width && 0 <= cy < y && cell(grid@, width as int, cx, cy)
                    ==> exists|k: int|
                    0 <= k < blocks@.len() && (#[trigger] blocks@[k]).covers(cx, cy),
        decreases height - y,
    {
        let mut x: usize = 0;
        while x < width
            invariant
                0 <= x <= width,
                0 <= y < height,
                forall|k: int|
                    0 <= k < blocks@.len() ==> (#[trigger] blocks@[k]).wf(
                        width as int,
                        height as int,
                    ),
                forall|k: int, cx: int, cy: int|
                    0 <= k < blocks@.len() && #[trigger] blocks@[k].covers(cx, cy) ==> cell(
                        grid@,
                        width as int,
                        cx,
                        cy,
                    ),
                forall|cx: int, cy: int|
                    0 <= cx < width && (0 <= cy < y || (cy == y && 0 <= cx < x)) && cell(
                        grid@,
                        width as int,
                        cx,
                        cy,
                    ) ==> exists|k: int|
                        0 <= k < blocks@.len() && (#[trigger] blocks@[k]).covers(cx, cy),
            decreases width - x,
        {
            proof {
                lemma_cell_index(width as int, height as int, x as int, y as int);
                crate::physics::lemma_mul_bound(
                    width as int,
                    height as int,
                    GRID_LIMIT as int,
                    GRID_LIMIT as int,
                );
            }
            if grid[y * width + x] {
                let ghost pre = blocks@;
                let n = blocks.len();
                let mut added = false;
                let mut k: usize = 0;
                while k < n
                    invariant
                        0 <= k <= n,
                        n == pre.len(),
                        0 <= x < width,
                        0 <= y < height,
                        cell(grid@, width as int, x as int, y as int),
                        !added ==> blocks@ == pre,
                        added ==> {
                            &&& blocks@.len() == pre.len()
                            &&& exists|j: int|
                                {
                                    &&& 0 <= j < pre.len()
                                    &&& (#[trigger] blocks@[j]).covers(x as int, y as int)
                                    &&& blocks@ == pre.update(j, blocks@[j])
                                    &&& blocks@[j].wf(width as int, height as int)
                                    &&& (forall|cx: int, cy: int|
                                        pre[j].covers(cx, cy) ==> blocks@[j].covers(cx, cy))
                                    &&& (forall|cx: int, cy: int|
                                        blocks@[j].covers(cx, cy) ==> pre[j].covers(cx, cy) || (
                                        cx == x && cy == y))
                                }
                        },
                    decreases n - k,
                {
                    if !added {
                        let b = blocks[k];
                        if b.x0 == (x as u32) && b.x1 == (x as u32) && (y as u32) == b.y1 + 1 {
                            let nb = Block { x0: b.x0, y0: b.y0, x1: b.x1, y1: y as u32 };
                            blocks.set(k, nb);
                            added = true;
                            proof {
                                assert(blocks@ == pre.update(k as int, nb));
                                assert(blocks@[k as int].covers(x as int, y as int));
                            }
                        } else if b.y0 == (y as u32) && b.y1 == (y as u32) && (x as u32) == b.x1
                            + 1 {
                            let nb = Block { x0: b.x0, y0: b.y0, x1: x as u32, y1: b.y1 };
                            blocks.set(k, nb);
                            added = true;
                            proof {
                                assert(blocks@ == pre.update(k as int, nb));
                                assert(blocks@[k as int].covers(x as int, y as int));
                            }
                        }
                    }
                    k = k + 1;
                }
                if !added {
                    blocks.push(
                        Block { x0: x as u32, y0: y as u32, x1: x as u32, y1: y as u32 },
                    );
                }
                proof {
                    assert forall|kk: int, cx: int, cy: int|
                        0 <= kk < blocks@.len() && #[trigger] blocks@[kk].covers(cx, cy)
                            implies cell(grid@, width as int, cx, cy) by {
                        if added {
                            let j = choose|j: int|
                                {
                                    &&& 0 <= j < pre.len()
                                    &&& (#[trigger] blocks@[j]).covers(x as int, y as int)
                                    &&& blocks@ == pre.update(j, blocks@[j])
                                    &&& blocks@[j].wf(width as int, height as int)
                                    &&& (forall|cx0: int, cy0: int|
                                        pre[j].covers(cx0, cy0) ==> blocks@[j].covers(cx0, cy0))
                                    &&& (forall|cx0: int, cy0: int|
                                        blocks@[j].covers(cx0, cy0) ==> pre[j].covers(cx0, cy0)
                                            || (cx0 == x && cy0 == y))
                                };
                            if kk == j {
                                assert(pre[kk].covers(cx, cy) || (cx == x as int && cy
                                    == y as int));
                            } else {
                                assert(blocks@[kk] == pre[kk]);
                            }
                        } else {
                            if kk < pre.len() {
                                assert(blocks@[kk] == pre[kk]);
                            } else {
                                assert(blocks@[kk].covers(x as int, y as int) && cx == x as int
                                    && cy == y as int);
                            }
                        }
                    }
                    assert forall|cx: int, cy: int|
                        0 <= cx < width && (0 <= cy < y || (cy == y && 0 <= cx < x + 1)) && cell(
                            grid@,
                            width as int,
                            cx,
                            cy,
                        ) implies exists|kk: int|
                            0 <= kk < blocks@.len() && (#[trigger] blocks@[kk]).covers(
                                cx,
                                cy,
                            ) by {
                        if cx == x as int && cy == y as int {
                            if added {
                                let j = choose|j: int|
                                    {
                                        &&& 0 <= j < pre.len()
                                        &&& (#[trigger] blocks@[j]).covers(x as int, y as int)
                                        &&& blocks@ == pre.update(j, blocks@[j])
                                    };
                                assert(blocks@[j].covers(cx, cy));
                            } else {
                                assert(blocks@[pre.len() as int].covers(cx, cy));
                            }
                        } else {
                            let kk0 = choose|kk0: int|
                                0 <= kk0 < pre.len() && (#[trigger] pre[kk0]).covers(cx, cy);
                            if added {
                                let j = choose|j: int|
                                    {
                                        &&& 0 <= j < pre.len()
                                        &&& (#[trigger] blocks@[j]).covers(x as int, y as int)
                                        &&& blocks@ == pre.update(j, blocks@[j])
                                        &&& (forall|cx0: int, cy0: int|
                                            pre[j].covers(cx0, cy0) ==> blocks@[j].covers(
                                                cx0,
                                                cy0,
                                            ))
                                    };
                                if kk0 == j {
                                    assert(blocks@[j].covers(cx, cy));
                                } else {
                                    assert(blocks@[kk0] == pre[kk0]);
                                    assert(blocks@[kk0].covers(cx, cy));
                                }
                            } else {
                                assert(blocks@[kk0].covers(cx, cy));
                            }
                        }
                    }
                }
            }
            x = x + 1;
        }
        y = y + 1;
    }
    blocks
}

/// Places a merged block in the world: the box half-size is half the
/// block's cell extent plus half a tile on each axis, and the center
/// maps the block's grid midpoint into world coordinates, with the grid
/// centered on the origin and the y axis pointing up. The tile size must
/// be even so both are exact.
pub fn block_to_world(b: Block, width: usize, height: usize, tile: i64) -> (r: (AABB, Position))
    requires
        b.wf(width as int, height as int),
        width <= GRID_LIMIT,
        height <= GRID_LIMIT,
        0 < tile <= 8192,
        tile % 2 == 0,
    ensures
        r.0.halfsize.x == (b.x1 - b.x0 + 1) * tile / 2,
        r.0.halfsize.y == (b.y1 - b.y0 + 1) * tile / 2,
        r.1.value.x == crate::physics::div_tz((b.x0 + b.x1 + 1 - width) * tile, 2),
        r.1.value.y == crate::physics::div_tz((height - (b.y0 + b.y1 + 1)) * tile, 2),
        r.0.wf(),
        r.1.value.spec_in_range(LIMIT as int),
{
    let x0 = b.x0 as i64;
    let x1 = b.x1 as i64;
    let y0 = b.y0 as i64;
    let y1 = b.y1 as i64;
    let w = width as i64;
    let h = height as i64;
    proof {
        crate::physics::lemma_mul_bound(x1 - x0 + 1, tile as int, GRID_LIMIT as int, 8192);
        crate::physics::lemma_mul_bound(y1 - y0 + 1, tile as int, GRID_LIMIT as int, 8192);
        crate::physics::lemma_mul_bound(
            x0 + x1 + 1 - w,
            tile as int,
            2 * GRID_LIMIT as int,
            8192,
        );
        crate::physics::lemma_mul_bound(
            h - (y0 + y1 + 1),
            tile as int,
            2 * GRID_LIMIT as int,
            8192,
        );
    }
    let half = AABB::new(
        Vec2i::new((x1 - x0 + 1) * tile / 2, (y1 - y0 + 1) * tile / 2),
    );
    let center = Position::new(
        Vec2i::new((x0 + x1 + 1 - w) * tile / 2, (h - (y0 + y1 + 1)) * tile / 2),
    );
    (half, center)
}

} // verus!

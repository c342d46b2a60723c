//! Block matching of the temporal stabiliser: the block layout, the search
//! offsets and the choice of the best offset.
use vstd::prelude::*;
use crate::float_bits::{F32Bits, lt, order_key, spec_is_nan, spec_lt, POS_INF_BITS, lemma_le_iff_key_le};
use crate::config::MotionParams;

verus! {

/// Side of the square blocks: the configured size, at least 4.
pub open spec fn block_side(block_size: int) -> int {
    if block_size < 4 {
        4
    } else {
        block_size
    }
}

/// Half-width of the offset search: the configured radius (at least 1)
/// times the number of pyramid levels (at least 1).
pub open spec fn spec_search_radius(p: MotionParams) -> int {
    (if p.search_radius < 1 {
        1
    } else {
        p.search_radius as int
    }) * (if p.pyramid_levels < 1 {
        1
    } else {
        p.pyramid_levels as int
    })
}

/// See [`spec_search_radius`].
pub fn search_radius(p: &MotionParams) -> (r: usize)
    requires
        spec_search_radius(*p) <= usize::MAX,
    ensures
        r == spec_search_radius(*p),
{
    let radius = if p.search_radius < 1 {
        1
    } else {
        p.search_radius
    };
    let levels = if p.pyramid_levels < 1 {
        1
    } else {
        p.pyramid_levels
    };
    radius * levels
}

/// A rectangle of the block grid.
#[derive(Clone, Copy, Debug, PartialEq, Eq, Structural)]
pub struct Block {
    pub x: usize,
    pub y: usize,
    pub width: usize,
    pub height: usize,
}

/// Number of block origins `0, b, 2b, ...` below `n`.
pub open spec fn blocks_across(n: int, b: int) -> int {
    if n <= 0 {
        0
    } else {
        (n - 1) / b + 1
    }
}

/// The block in column `i` and row `j` of the grid: its origin is
/// `(i b, j b)` and it is cut off at the right and bottom edges.
pub open spec fn block_at(w: int, h: int, b: int, i: int, j: int) -> Block {
    Block {
        x: (i * b) as usize,
        y: (j * b) as usize,
        width: (if b < w - i * b {
            b
        } else {
            w - i * b
        }) as usize,
        height: (if b < h - j * b {
            b
        } else {
            h - j * b
        }) as usize,
    }
}

/// One row of the grid.
pub open spec fn block_row(w: int, h: int, b: int, j: int) -> Seq<Block> {
    Seq::new(blocks_across(w, b) as nat, |i: int| block_at(w, h, b, i, j))
}

/// The rows `0..rows` of the grid, one after the other.
pub open spec fn block_rows(w: int, h: int, b: int, rows: int) -> Seq<Block>
    decreases rows,
{
    if rows <= 0 {
        Seq::empty()
    } else {
        block_rows(w, h, b, rows - 1) + block_row(w, h, b, rows - 1)
    }
}

proof fn lemma_blocks_across_step(n: int, b: int, k: int)
    requires
        b > 0,
        0 <= k * b < n,
    ensures
        blocks_across(n, b) > k,
        k * b + b < n ==> blocks_across(n, b) > k + 1,
        k * b + b >= n ==> blocks_across(n, b) == k + 1,
{
    assert((k + 1) * b == k * b + b) by (nonlinear_arith);
    assert((n - 1) / b >= k) by (nonlinear_arith)
        requires
            b > 0,
            0 <= k * b <= n - 1,
    {
        vstd::arithmetic::div_mod::lemma_div_is_ordered(k * b, n - 1, b);
        vstd::arithmetic::div_mod::lemma_div_multiples_vanish(k, b);
    }
    if k * b + b < n {
        assert((n - 1) / b >= k + 1) by (nonlinear_arith)
            requires
                b > 0,
                0 <= (k + 1) * b <= n - 1,
        {
            vstd::arithmetic::div_mod::lemma_div_is_ordered((k + 1) * b, n - 1, b);
            vstd::arithmetic::div_mod::lemma_div_multiples_vanish(k + 1, b);
        }
    } else {
        assert((n - 1) / b <= k) by (nonlinear_arith)
            requires
                b > 0,
                n - 1 < (k + 1) * b,
                0 <= n - 1,
        {
            vstd::arithmetic::div_mod::lemma_div_is_ordered(n - 1, (k + 1) * b - 1, b);
            vstd::arithmetic::div_mod::lemma_fundamental_div_mod_converse((k + 1) * b - 1, b, k, b - 1);
        }
    }
}

/// The blocks of the motion search over a `width` x `height` frame, row by
/// row: squares of side [`block_side`] from the top-left corner, cut off at
/// the right and bottom edges.
pub fn motion_blocks(width: usize, height: usize, block_size: usize) -> (blocks: Vec<Block>)
    ensures
        blocks@ == block_rows(
            width as int,
            height as int,
            block_side(block_size as int),
            blocks_across(height as int, block_side(block_size as int)),
        ),
{
    let b = if block_size < 4 {
        4
    } else {
        block_size
    };
    let ghost bb = b as int;
    let mut blocks: Vec<Block> = Vec::new();
    if height == 0 {
        return blocks;
    }
    let mut by: usize = 0;
    let mut j: usize = 0;
    loop
        invariant_except_break
            blocks@ == block_rows(width as int, height as int, bb, j as int),
        invariant
            bb == b,
            b >= 4,
            height > 0,
            by == j * b,
            by < height,
        ensures
            blocks@ == block_rows(width as int, height as int, bb, blocks_across(height as int, bb)),
        decreases height - by,
    {
        proof {
            lemma_blocks_across_step(height as int, bb, j as int);
        }
        let bh = if b < height - by {
            b
        } else {
            height - by
        };
        let ghost start = blocks@;
        if width > 0 {
            let mut bx: usize = 0;
            let mut i: usize = 0;
            loop
                invariant_except_break
                    blocks@ == start + Seq::new(i as nat, |k: int| block_at(width as int, height as int, bb, k, j as int)),
                invariant
                    bb == b,
                    b >= 4,
                    width > 0,
                    by == j * b,
                    by < height,
                    bx == i * b,
                    bx < width,
                    bh == (if b < height - by {
                        b as int
                    } else {
                        height - by
                    }),
                ensures
                    blocks@ == start + block_row(width as int, height as int, bb, j as int),
                decreases width - bx,
            {
                proof {
                    lemma_blocks_across_step(width as int, bb, i as int);
                }
                let bw = if b < width - bx {
                    b
                } else {
                    width - bx
                };
                blocks.push(Block { x: bx, y: by, width: bw, height: bh });
                proof {
                    assert(blocks@ =~= start + Seq::new((i + 1) as nat, |k: int| block_at(width as int, height as int, bb, k, j as int)));
                }
                if b >= width - bx {
                    proof {
                        assert(Seq::new((i + 1) as nat, |k: int| block_at(width as int, height as int, bb, k, j as int))
                            =~= block_row(width as int, height as int, bb, j as int));
                    }
                    break;
                }
                bx = bx + b;
                i = i + 1;
                proof {
                    assert(bx == i * b) by (nonlinear_arith)
                        requires
                            bx == (i - 1) * b + b,
                    {
                    }
                }
            }
        } else {
            assert(block_row(width as int, height as int, bb, j as int) =~= Seq::<Block>::empty());
            assert(blocks@ =~= start + block_row(width as int, height as int, bb, j as int));
        }
        assert(blocks@ =~= block_rows(width as int, height as int, bb, j + 1));
        if b >= height - by {
            break;
        }
        by = by + b;
        j = j + 1;
        proof {
            assert(by == j * b) by (nonlinear_arith)
                requires
                    by == (j - 1) * b + b,
            {
            }
        }
    }
    blocks
}

/// Pixel `(px, py)` lies in the block.
pub open spec fn in_block(blk: Block, px: int, py: int) -> bool {
    &&& blk.x <= px < blk.x + blk.width
    &&& blk.y <= py < blk.y + blk.height
}

proof fn lemma_block_rows_len(w: int, h: int, b: int, rows: int)
    requires
        rows >= 0,
        blocks_across(w, b) >= 0,
    ensures
        block_rows(w, h, b, rows).len() == rows * blocks_across(w, b),
    decreases rows,
{
    let nx = blocks_across(w, b);
    if rows > 0 {
        lemma_block_rows_len(w, h, b, rows - 1);
        assert(block_rows(w, h, b, rows).len() == block_rows(w, h, b, rows - 1).len() + nx);
        assert(rows * nx == (rows - 1) * nx + nx) by (nonlinear_arith);
    } else {
        assert(0 * nx == 0) by (nonlinear_arith);
    }
}

proof fn lemma_blocks_across_pos(n: int, b: int)
    requires
        n > 0,
        b > 0,
    ensures
        blocks_across(n, b) > 0,
        forall|i: int| 0 <= i < blocks_across(n, b) ==> #[trigger] (i * b) <= n - 1,
{
    vstd::arithmetic::div_mod::lemma_div_pos_is_pos(n - 1, b);
    vstd::arithmetic::div_mod::lemma_fundamental_div_mod(n - 1, b);
    vstd::arithmetic::div_mod::lemma_mod_bound(n - 1, b);
    assert forall|i: int| 0 <= i < blocks_across(n, b) implies #[trigger] (i * b) <= n - 1 by {
        let q = (n - 1) / b;
        assert(i * b <= q * b) by (nonlinear_arith)
            requires
                0 <= i <= q,
                b > 0,
        {
        }
        assert(b * q == q * b) by (nonlinear_arith);
    }
}

proof fn lemma_block_rows_index(w: int, h: int, b: int, rows: int, t: int)
    requires
        w > 0,
        b > 0,
        rows >= 0,
        0 <= t < rows * blocks_across(w, b),
    ensures
        block_rows(w, h, b, rows).len() == rows * blocks_across(w, b),
        block_rows(w, h, b, rows)[t] == block_at(w, h, b, t % blocks_across(w, b), t / blocks_across(w, b)),
    decreases rows,
{
    let nx = blocks_across(w, b);
    lemma_blocks_across_pos(w, b);
    assert(rows > 0) by (nonlinear_arith)
        requires
            0 <= t < rows * nx,
            nx > 0,
            rows >= 0,
    {
    }
    assert(rows * nx == (rows - 1) * nx + nx) by (nonlinear_arith);
    lemma_block_rows_len(w, h, b, rows);
    lemma_block_rows_len(w, h, b, rows - 1);
    if t < (rows - 1) * nx {
        lemma_block_rows_index(w, h, b, rows - 1, t);
    } else {
        vstd::arithmetic::div_mod::lemma_fundamental_div_mod_converse(t, nx, rows - 1, t - (rows - 1) * nx);
    }
}

/// The blocks of [`motion_blocks`] tile the frame: every pixel lies in
/// exactly one block, the one in column `px / b` and row `py / b` of the grid.
pub proof fn lemma_blocks_tile_frame(width: int, height: int, block_size: int, px: int, py: int)
    requires
        0 <= px < width <= usize::MAX,
        0 <= py < height <= usize::MAX,
        block_size <= usize::MAX,
    ensures
        ({
            let b = block_side(block_size);
            let blocks = block_rows(width, height, b, blocks_across(height, b));
            let t = (py / b) * blocks_across(width, b) + px / b;
            &&& 0 <= t < blocks.len()
            &&& in_block(blocks[t], px, py)
            &&& forall|u: int| 0 <= u < blocks.len() && in_block(#[trigger] blocks[u], px, py) ==> u == t
        }),
{
    let b = block_side(block_size);
    let nx = blocks_across(width, b);
    let ny = blocks_across(height, b);
    let blocks = block_rows(width, height, b, ny);
    let i = px / b;
    let j = py / b;
    let t = j * nx + i;
    lemma_blocks_across_pos(width, b);
    lemma_blocks_across_pos(height, b);
    vstd::arithmetic::div_mod::lemma_fundamental_div_mod(px, b);
    vstd::arithmetic::div_mod::lemma_fundamental_div_mod(py, b);
    vstd::arithmetic::div_mod::lemma_mod_bound(px, b);
    vstd::arithmetic::div_mod::lemma_mod_bound(py, b);
    vstd::arithmetic::div_mod::lemma_div_pos_is_pos(px, b);
    vstd::arithmetic::div_mod::lemma_div_pos_is_pos(py, b);
    vstd::arithmetic::div_mod::lemma_div_is_ordered(px, width - 1, b);
    vstd::arithmetic::div_mod::lemma_div_is_ordered(py, height - 1, b);
    assert(b * i == i * b && b * j == j * b) by (nonlinear_arith);
    assert(0 <= i < nx && 0 <= j < ny);
    assert(0 <= t < ny * nx) by (nonlinear_arith)
        requires
            0 <= i < nx,
            0 <= j < ny,
            t == j * nx + i,
    {
        assert(j * nx + nx <= ny * nx);
    }
    lemma_block_rows_len(width, height, b, ny);
    vstd::arithmetic::div_mod::lemma_fundamental_div_mod_converse(t, nx, j, i);
    lemma_block_rows_index(width, height, b, ny, t);
    assert(i * b <= width - 1 && j * b <= height - 1);
    assert(blocks[t] == block_at(width, height, b, i, j));
    assert forall|u: int| 0 <= u < blocks.len() && in_block(#[trigger] blocks[u], px, py) implies u == t by {
        lemma_block_rows_index(width, height, b, ny, u);
        let iu = u % nx;
        let ju = u / nx;
        vstd::arithmetic::div_mod::lemma_fundamental_div_mod(u, nx);
        vstd::arithmetic::div_mod::lemma_mod_bound(u, nx);
        vstd::arithmetic::div_mod::lemma_div_pos_is_pos(u, nx);
        assert(ju < ny) by (nonlinear_arith)
            requires
                u < ny * nx,
                u == nx * ju + iu,
                0 <= iu,
                nx > 0,
        {
        }
        assert(iu * b <= width - 1 && ju * b <= height - 1);
        let blk = blocks[u];
        assert(blk == block_at(width, height, b, iu, ju));
        assert(iu * b <= px < iu * b + b);
        assert(ju * b <= py < ju * b + b);
        vstd::arithmetic::div_mod::lemma_fundamental_div_mod_converse(px, b, iu, px - iu * b);
        vstd::arithmetic::div_mod::lemma_fundamental_div_mod_converse(py, b, ju, py - ju * b);
        assert(nx * ju == ju * nx) by (nonlinear_arith);
    }
}

/// Shape of the blocks of [`motion_blocks`]: with `s` the configured block
/// size, or 4 when it is smaller, every block starts at a multiple of `s` in
/// both coordinates inside the frame, and is `s` wide and high unless the
/// right or bottom edge cuts it, where it ends at the edge. There are
/// `ceil(width / s) * ceil(height / s)` blocks.
pub proof fn lemma_motion_block_shape(width: int, height: int, block_size: int, t: int)
    requires
        0 <= width <= usize::MAX,
        0 <= height <= usize::MAX,
        0 <= block_size <= usize::MAX,
    ensures
        ({
            let s = if block_size < 4 {
                4
            } else {
                block_size
            };
            let blocks = block_rows(width, height, block_side(block_size), blocks_across(height, block_side(block_size)));
            &&& blocks.len() == (if width == 0 || height == 0 {
                0
            } else {
                ((width - 1) / s + 1) * ((height - 1) / s + 1)
            })
            &&& 0 <= t < blocks.len() ==> {
                let blk = blocks[t];
                &&& (blk.x as int) % s == 0
                &&& (blk.y as int) % s == 0
                &&& blk.x < width
                &&& blk.y < height
                &&& blk.width == (if s < width - blk.x {
                    s
                } else {
                    width - blk.x
                })
                &&& blk.height == (if s < height - blk.y {
                    s
                } else {
                    height - blk.y
                })
            }
        }),
{
    let b = block_side(block_size);
    let nx = blocks_across(width, b);
    let ny = blocks_across(height, b);
    let blocks = block_rows(width, height, b, ny);
    lemma_block_rows_len(width, height, b, ny);
    if width == 0 || height == 0 {
        assert(ny * nx == 0) by (nonlinear_arith)
            requires
                nx == 0 || ny == 0,
        {
        }
    } else {
        assert(ny * nx == nx * ny) by (nonlinear_arith);
    }
    if 0 <= t < blocks.len() {
        if width == 0 || height == 0 {
            assert(false);
        }
        lemma_blocks_across_pos(width, b);
        lemma_blocks_across_pos(height, b);
        lemma_block_rows_index(width, height, b, ny, t);
        let i = t % nx;
        let j = t / nx;
        vstd::arithmetic::div_mod::lemma_fundamental_div_mod(t, nx);
        vstd::arithmetic::div_mod::lemma_mod_bound(t, nx);
        vstd::arithmetic::div_mod::lemma_div_pos_is_pos(t, nx);
        assert(j < ny) by (nonlinear_arith)
            requires
                t < ny * nx,
                t == nx * j + i,
                0 <= i,
                nx > 0,
        {
        }
        assert(i * b <= width - 1 && j * b <= height - 1);
        assert(0 <= i * b && 0 <= j * b) by (nonlinear_arith)
            requires
                0 <= i,
                0 <= j,
                b > 0,
        {
        }
        let blk = blocks[t];
        assert(blk == block_at(width, height, b, i, j));
        assert(blk.x == i * b && blk.y == j * b);
        vstd::arithmetic::div_mod::lemma_mod_multiples_basic(i, b);
        vstd::arithmetic::div_mod::lemma_mod_multiples_basic(j, b);
    }
}

/// The search offsets `(dx, dy)` with both components in `[-r, r]`, by
/// rows of `dy` and within a row by `dx`.
pub open spec fn offset_at(r: int, t: int) -> (int, int) {
    (t % (2 * r + 1) - r, t / (2 * r + 1) - r)
}

/// See [`offset_at`].
pub fn search_offsets(r: usize) -> (offsets: Vec<(isize, isize)>)
    requires
        (2 * r + 1) * (2 * r + 1) <= usize::MAX,
        r <= isize::MAX / 4,
    ensures
        offsets.len() == (2 * r + 1) * (2 * r + 1),
        forall|t: int| 0 <= t < offsets.len() ==> (#[trigger] offsets@[t]).0 == offset_at(r as int, t).0
            && offsets@[t].1 == offset_at(r as int, t).1,
{
    let side = 2 * r + 1;
    let ri = r as isize;
    let mut offsets: Vec<(isize, isize)> = Vec::new();
    let mut row: usize = 0;
    while row < side
        invariant
            side == 2 * r + 1,
            side * side <= usize::MAX,
            r <= isize::MAX / 4,
            ri == r,
            row <= side,
            offsets.len() == row * side,
            forall|t: int| 0 <= t < offsets.len() ==> (#[trigger] offsets@[t]).0 == offset_at(r as int, t).0
                && offsets@[t].1 == offset_at(r as int, t).1,
        decreases side - row,
    {
        let mut col: usize = 0;
        proof {
            assert(row * side + side <= side * side) by (nonlinear_arith)
                requires
                    row < side,
            {
            }
        }
        while col < side
            invariant
                side == 2 * r + 1,
                side * side <= usize::MAX,
                r <= isize::MAX / 4,
                ri == r,
                row < side,
                col <= side,
                row * side + side <= side * side,
                offsets.len() == row * side + col,
                forall|t: int| 0 <= t < offsets.len() ==> (#[trigger] offsets@[t]).0 == offset_at(r as int, t).0
                    && offsets@[t].1 == offset_at(r as int, t).1,
            decreases side - col,
        {
            let dx = col as isize - ri;
            let dy = row as isize - ri;
            offsets.push((dx, dy));
            proof {
                let t = row * side + col;
                vstd::arithmetic::div_mod::lemma_fundamental_div_mod_converse(t as int, side as int, row as int, col as int);
            }
            col = col + 1;
        }
        proof {
            assert(row * side + side == (row + 1) * side) by (nonlinear_arith);
        }
        row = row + 1;
    }
    offsets
}

/// The offsets cover the square `[-r, r] x [-r, r]` exactly once, by rows:
/// offset `(dx, dy)` comes at position `(dy + r) (2r + 1) + (dx + r)`, and
/// every position holds an offset of the square.
pub proof fn lemma_offsets_cover_square(r: int, t: int, dx: int, dy: int)
    requires
        r >= 0,
    ensures
        -r <= dx <= r && -r <= dy <= r ==> offset_at(r, (dy + r) * (2 * r + 1) + (dx + r)) == (dx, dy),
        0 <= t < (2 * r + 1) * (2 * r + 1) ==> -r <= offset_at(r, t).0 <= r && -r <= offset_at(r, t).1 <= r,
        0 <= t < (2 * r + 1) * (2 * r + 1) ==> t == (offset_at(r, t).1 + r) * (2 * r + 1) + (offset_at(r, t).0 + r),
{
    let side = 2 * r + 1;
    if -r <= dx <= r && -r <= dy <= r {
        vstd::arithmetic::div_mod::lemma_fundamental_div_mod_converse((dy + r) * side + (dx + r), side, dy + r, dx + r);
    }
    if 0 <= t < side * side {
        vstd::arithmetic::div_mod::lemma_fundamental_div_mod(t, side);
        vstd::arithmetic::div_mod::lemma_mod_bound(t, side);
        vstd::arithmetic::div_mod::lemma_div_pos_is_pos(t, side);
        assert(t / side < side) by (nonlinear_arith)
            requires
                t < side * side,
                t == side * (t / side) + t % side,
                0 <= t % side,
                side > 0,
        {
        }
        assert(side * (t / side) == (t / side) * side) by (nonlinear_arith);
    }
}

/// The search reaches `search_radius * pyramid_levels` pixels, with each
/// factor taken as at least 1: it is never below 1, never below either
/// factor, and is their product when both are at least 1.
pub proof fn lemma_search_radius(p: MotionParams)
    ensures
        spec_search_radius(p) >= 1,
        spec_search_radius(p) >= p.search_radius,
        spec_search_radius(p) >= p.pyramid_levels,
        p.search_radius >= 1 && p.pyramid_levels >= 1 ==> spec_search_radius(p) == p.search_radius * p.pyramid_levels,
        p.search_radius < 1 && p.pyramid_levels < 1 ==> spec_search_radius(p) == 1,
{
    let a: int = if p.search_radius < 1 {
        1
    } else {
        p.search_radius as int
    };
    let b: int = if p.pyramid_levels < 1 {
        1
    } else {
        p.pyramid_levels as int
    };
    assert(a * b >= a && a * b >= b && a * b >= 1) by (nonlinear_arith)
        requires
            a >= 1,
            b >= 1,
    {
    }
}

/// `p` holds the first smallest score, and that score is below plus
/// infinity (NaNs never count).
pub open spec fn is_first_lowest(scores: Seq<u32>, p: int) -> bool {
    &&& 0 <= p < scores.len()
    &&& spec_lt(scores[p], POS_INF_BITS)
    &&& forall|q: int| 0 <= q < scores.len() && !spec_is_nan(#[trigger] scores[q]) ==> order_key(scores[p]) <= order_key(scores[q])
    &&& forall|q: int| 0 <= q < p && !spec_is_nan(#[trigger] scores[q]) ==> order_key(scores[p]) < order_key(scores[q])
}

/// Some score is below plus infinity.
pub open spec fn has_finite_lowest(scores: Seq<u32>) -> bool {
    exists|q: int| 0 <= q < scores.len() && spec_lt(#[trigger] scores[q], POS_INF_BITS)
}

/// The offset with the lowest matching cost: starting from plus infinity, a
/// cost replaces the best so far only when strictly smaller, so the first
/// lowest cost wins; none when no cost is below plus infinity.
pub fn pick_lowest(scores: &Vec<F32Bits>) -> (p: Option<usize>)
    ensures
        p is Some <==> has_finite_lowest(scores@),
        p is Some ==> is_first_lowest(scores@, p->Some_0 as int),
{
    let mut best_pos: Option<usize> = None;
    let mut best: u32 = POS_INF_BITS;
    let mut q: usize = 0;
    while q < scores.len()
        invariant
            q <= scores.len(),
            !spec_is_nan(best),
            best_pos is None <==> !(exists|t: int| 0 <= t < q && spec_lt(#[trigger] scores@[t], POS_INF_BITS)),
            best_pos is None ==> best == POS_INF_BITS,
            best_pos is Some ==> best == scores@[best_pos->Some_0 as int] && is_first_lowest(scores@.take(q as int), best_pos->Some_0 as int),
        decreases scores.len() - q,
    {
        let v = scores[q];
        let ghost prefix = scores@.take(q as int);
        let ghost next = scores@.take(q + 1);
        proof {
            if !spec_is_nan(v) {
                lemma_le_iff_key_le(best, v);
                lemma_le_iff_key_le(v, POS_INF_BITS);
            }
            assert forall|t: int| 0 <= t < q implies #[trigger] next[t] == prefix[t] by {}
            assert(next[q as int] == v);
        }
        if lt(v, best) {
            best = v;
            best_pos = Some(q);
            proof {
                assert forall|t: int| 0 <= t < q + 1 && !spec_is_nan(#[trigger] next[t]) implies order_key(next[q as int]) <= order_key(next[t]) by {
                    if t < q {
                        assert(next[t] == prefix[t]);
                        lemma_le_iff_key_le(next[t], POS_INF_BITS);
                    }
                }
                assert forall|t: int| 0 <= t < q && !spec_is_nan(#[trigger] next[t]) implies order_key(next[q as int]) < order_key(next[t]) by {
                    assert(next[t] == prefix[t]);
                    lemma_le_iff_key_le(next[t], POS_INF_BITS);
                }
                assert(is_first_lowest(next, q as int));
            }
        } else {
            proof {
                if best_pos is Some {
                    let bp = best_pos->Some_0 as int;
                    assert forall|t: int| 0 <= t < q + 1 && !spec_is_nan(#[trigger] next[t]) implies order_key(next[bp]) <= order_key(next[t]) by {
                        if t < q {
                            assert(next[t] == prefix[t]);
                        }
                    }
                    assert forall|t: int| 0 <= t < bp && !spec_is_nan(#[trigger] next[t]) implies order_key(next[bp]) < order_key(next[t]) by {
                        assert(next[t] == prefix[t]);
                    }
                    assert(is_first_lowest(next, bp));
                } else {
                    assert(!spec_lt(v, POS_INF_BITS));
                }
            }
        }
        q = q + 1;
    }
    proof {
        assert(scores@.take(q as int) =~= scores@);
    }
    best_pos
}

} // verus!

//! The integer core of template matching: square ink masks, how they are
//! inked, counted, compared and summarised on a coarse grid of regions.
//!
//! A mask of side `size` holds pixel (`x`, `y`) at position `y * size + x`.

use vstd::prelude::*;
use crate::render::in_disk;
use crate::topological_flood_fill::{count_cells, mask_sum};
use vstd::arithmetic::div_mod::lemma_fundamental_div_mod_converse;

verus! {

/// One ink layer of a rendered template: its mask and how many pixels it inks.
pub struct Layer {
    pub mask: Vec<u8>,
    pub ink: usize,
}

/// A blank layer of `size` by `size` pixels.
pub fn create_layer(size: usize) -> (layer: Layer)
    requires
        size * size <= usize::MAX,
    ensures
        layer.mask@.len() == size * size,
        forall|i: int| 0 <= i < size * size ==> #[trigger] layer.mask@[i] == 0,
        layer.ink == 0,
{
    let n = size * size;
    let mut mask: Vec<u8> = Vec::new();
    let mut i: usize = 0;
    while i < n
        invariant
            i <= n,
            mask@.len() == i,
            forall|k: int| 0 <= k < i ==> #[trigger] mask@[k] == 0,
        decreases n - i,
    {
        mask.push(0);
        i = i + 1;
    }
    Layer { mask, ink: 0 }
}

/// Position of pixel (`x`, `y`) in a mask of side `size`.
pub open spec fn cell(size: int, x: int, y: int) -> int {
    y * size + x
}

/// Distinct pixels of a mask have distinct positions.
proof fn lemma_cell_injective(size: int, x1: int, y1: int, x2: int, y2: int)
    requires
        0 <= x1 < size,
        0 <= x2 < size,
        0 <= y1,
        0 <= y2,
        cell(size, x1, y1) == cell(size, x2, y2),
    ensures
        x1 == x2 && y1 == y2,
{
    lemma_fundamental_div_mod_converse(y1 * size + x1, size, y1, x1);
    lemma_fundamental_div_mod_converse(y2 * size + x2, size, y2, x2);
}

/// A pixel of a mask lies before the end of the mask.
proof fn lemma_cell_bound(size: int, x: int, y: int)
    requires
        0 <= x < size,
        0 <= y < size,
    ensures
        0 <= cell(size, x, y) < size * size,
{
    assert(0 <= y * size + x < size * size) by (nonlinear_arith)
        requires
            0 <= x < size,
            0 <= y < size,
    {
        assert(y * size <= (size - 1) * size);
    }
}

/// Inks, in a mask of side `size`, the disk of radius `radius` centred on
/// pixel (`center_x`, `center_y`), clipped to the mask.
pub fn mark_mask(mask: &mut [u8], size: usize, center_x: i32, center_y: i32, radius: i32)
    requires
        old(mask)@.len() >= size * size,
        size * size <= usize::MAX,
        size <= i32::MAX,
        radius > i32::MIN,
        radius >= 0 ==> 2 * radius * radius <= i32::MAX,
        radius >= 0 ==> i32::MIN <= center_x - radius && center_x + radius <= i32::MAX,
        radius >= 0 ==> i32::MIN <= center_y - radius && center_y + radius <= i32::MAX,
    ensures
        final(mask)@.len() == old(mask)@.len(),
        forall|i: int| size * size <= i < old(mask)@.len() ==> #[trigger] final(mask)@[i] == old(mask)@[i],
        forall|x: int, y: int|
            0 <= x < size && 0 <= y < size ==> #[trigger] final(mask)@[cell(size as int, x, y)] == if in_disk(
                x,
                y,
                center_x as int,
                center_y as int,
                radius as int,
            ) {
                1
            } else {
                old(mask)@[cell(size as int, x, y)]
            },
{
    let ghost m0 = mask@;
    let ghost sz = size as int;
    if radius < 0 {
        return;
    }
    proof {
        assert(radius * radius <= 1073741823 && radius * radius >= 0) by (nonlinear_arith)
            requires
                2 * radius * radius <= i32::MAX,
        ;
        assert(radius <= 32768) by (nonlinear_arith)
            requires
                radius * radius <= 1073741823,
                radius >= 0,
        ;
    }
    let radius_sq = radius * radius;
    let mut offset_y: i32 = -radius;
    while offset_y <= radius
        invariant
            0 <= radius <= 32768,
            radius_sq == radius * radius,
            radius * radius <= 1073741823,
            i32::MIN <= center_x - radius && center_x + radius <= i32::MAX,
            i32::MIN <= center_y - radius && center_y + radius <= i32::MAX,
            sz == size,
            size <= i32::MAX,
            -radius <= offset_y <= radius + 1,
            mask@.len() == m0.len(),
            m0.len() >= sz * sz,
            sz * sz <= usize::MAX,
            forall|i: int| sz * sz <= i < m0.len() ==> #[trigger] mask@[i] == m0[i],
            forall|x: int, y: int|
                0 <= x < sz && 0 <= y < sz ==> #[trigger] mask@[cell(sz, x, y)] == if in_disk(x, y, center_x as int, center_y as int, radius as int)
                    && y - center_y < offset_y {
                    1
                } else {
                    m0[cell(sz, x, y)]
                },
        decreases radius + 1 - offset_y,
    {
        let mut offset_x: i32 = -radius;
        while offset_x <= radius
            invariant
                0 <= radius <= 32768,
                radius_sq == radius * radius,
                radius * radius <= 1073741823,
                i32::MIN <= center_x - radius && center_x + radius <= i32::MAX,
                i32::MIN <= center_y - radius && center_y + radius <= i32::MAX,
                sz == size,
                size <= i32::MAX,
                -radius <= offset_y <= radius,
                -radius <= offset_x <= radius + 1,
                mask@.len() == m0.len(),
                m0.len() >= sz * sz,
                sz * sz <= usize::MAX,
                forall|i: int| sz * sz <= i < m0.len() ==> #[trigger] mask@[i] == m0[i],
                forall|x: int, y: int|
                    0 <= x < sz && 0 <= y < sz ==> #[trigger] mask@[cell(sz, x, y)] == if in_disk(x, y, center_x as int, center_y as int, radius as int)
                        && (y - center_y < offset_y || (y - center_y == offset_y && x - center_x < offset_x)) {
                        1
                    } else {
                        m0[cell(sz, x, y)]
                    },
            decreases radius + 1 - offset_x,
        {
            proof {
                assert(offset_x * offset_x <= radius * radius && offset_y * offset_y <= radius * radius && offset_x * offset_x >= 0
                    && offset_y * offset_y >= 0) by (nonlinear_arith)
                    requires
                        -radius <= offset_x <= radius,
                        -radius <= offset_y <= radius,
                ;
            }
            if offset_x * offset_x + offset_y * offset_y <= radius_sq {
                let pixel_x = center_x + offset_x;
                let pixel_y = center_y + offset_y;
                if !(pixel_x < 0 || pixel_x >= size as i32 || pixel_y < 0 || pixel_y >= size as i32) {
                    proof {
                        lemma_cell_bound(sz, pixel_x as int, pixel_y as int);
                        assert(pixel_y as int * sz >= 0) by (nonlinear_arith)
                            requires
                                pixel_y >= 0,
                                sz >= 0,
                        ;
                    }
                    let index = pixel_y as usize * size + pixel_x as usize;
                    let ghost before = mask@;
                    mask[index] = 1;
                    proof {
                        assert forall|x: int, y: int| 0 <= x < sz && 0 <= y < sz implies #[trigger] mask@[cell(sz, x, y)] == if in_disk(
                            x,
                            y,
                            center_x as int,
                            center_y as int,
                            radius as int,
                        ) && (y - center_y < offset_y || (y - center_y == offset_y && x - center_x < offset_x + 1)) {
                            1
                        } else {
                            m0[cell(sz, x, y)]
                        } by {
                            if cell(sz, x, y) == index {
                                lemma_cell_injective(sz, x, y, pixel_x as int, pixel_y as int);
                            }
                            lemma_cell_bound(sz, x, y);
                        }
                        assert forall|i: int| sz * sz <= i < m0.len() implies #[trigger] mask@[i] == m0[i] by {
                            assert(i != index);
                        }
                    }
                }
            }
            offset_x = offset_x + 1;
        }
        offset_y = offset_y + 1;
    }
}

/// How many pixels a mask inks.
pub fn count_ink(mask: &[u8]) -> (count: usize)
    requires
        mask_sum(mask@) <= usize::MAX,
    ensures
        count == mask_sum(mask@),
{
    count_cells(mask)
}

/// Number of positions below `n` inked in both masks.
pub open spec fn overlap_below(a: Seq<u8>, b: Seq<u8>, n: int) -> int
    decreases n,
{
    if n <= 0 {
        0
    } else {
        overlap_below(a, b, n - 1) + if a[n - 1] != 0 && b[n - 1] != 0 {
            1int
        } else {
            0int
        }
    }
}

/// The number of positions inked in both masks, over the length of the shorter one.
pub open spec fn overlap(a: Seq<u8>, b: Seq<u8>) -> int {
    overlap_below(a, b, if a.len() < b.len() { a.len() as int } else { b.len() as int })
}

proof fn lemma_overlap_below_bound(a: Seq<u8>, b: Seq<u8>, n: int)
    requires
        0 <= n,
    ensures
        0 <= overlap_below(a, b, n) <= n,
    decreases n,
{
    if n > 0 {
        lemma_overlap_below_bound(a, b, n - 1);
    }
}

/// How many positions both masks ink.
pub fn mask_overlap(a: &[u8], b: &[u8]) -> (count: usize)
    ensures
        count == overlap(a@, b@),
{
    let n = if a.len() < b.len() { a.len() } else { b.len() };
    let mut count: usize = 0;
    let mut i: usize = 0;
    while i < n
        invariant
            n <= a@.len() && n <= b@.len(),
            n == if a@.len() < b@.len() { a@.len() } else { b@.len() },
            i <= n,
            count == overlap_below(a@, b@, i as int),
        decreases n - i,
    {
        proof {
            lemma_overlap_below_bound(a@, b@, i as int);
        }
        if a[i] != 0 && b[i] != 0 {
            count = count + 1;
        }
        i = i + 1;
    }
    count
}

/// The region, along one axis, of pixel coordinate `x` of a mask of side
/// `size` cut into `grid` regions: `x * grid / size`, rounded down, at most
/// `grid - 1`.
pub open spec fn region_of(x: int, size: int, grid: int) -> int {
    if x * grid / size < grid - 1 {
        x * grid / size
    } else {
        grid - 1
    }
}

/// Some inked pixel of `mask` lies in region (`gx`, `gy`), among the pixels
/// before row `yy`, or in row `yy` before column `xx`.
pub open spec fn region_inked_before(mask: Seq<u8>, size: int, grid: int, gx: int, gy: int, yy: int, xx: int) -> bool {
    exists|x: int, y: int|
        0 <= x < size && 0 <= y < size && (y < yy || (y == yy && x < xx)) && #[trigger] mask[cell(size, x, y)] != 0
            && region_of(x, size, grid) == gx && region_of(y, size, grid) == gy
}

/// The regions of a `grid` by `grid` cut of a mask of side `size` that hold
/// ink: 1 for such a region, 0 for any other.
pub fn occupied_cells(mask: &[u8], size: usize, grid_size: usize) -> (cells: Vec<u8>)
    requires
        mask@.len() >= size * size,
        size * size <= usize::MAX,
        grid_size >= 1,
        grid_size * grid_size <= usize::MAX,
        size * grid_size <= usize::MAX,
    ensures
        cells@.len() == grid_size * grid_size,
        forall|gx: int, gy: int|
            0 <= gx < grid_size && 0 <= gy < grid_size ==> #[trigger] cells@[cell(grid_size as int, gx, gy)] == if region_inked_before(
                mask@,
                size as int,
                grid_size as int,
                gx,
                gy,
                size as int,
                0,
            ) {
                1u8
            } else {
                0u8
            },
{
    let ghost sz = size as int;
    let ghost g = grid_size as int;
    let mut cells: Vec<u8> = Vec::new();
    let n = grid_size * grid_size;
    let mut i: usize = 0;
    while i < n
        invariant
            i <= n,
            cells@.len() == i,
            forall|k: int| 0 <= k < i ==> #[trigger] cells@[k] == 0,
        decreases n - i,
    {
        cells.push(0);
        i = i + 1;
    }
    proof {
        assert forall|gx: int, gy: int| 0 <= gx < g && 0 <= gy < g implies #[trigger] cells@[cell(g, gx, gy)] == 0u8 by {
            lemma_cell_bound(g, gx, gy);
        }
    }
    let mut y: usize = 0;
    while y < size
        invariant
            sz == size && g == grid_size,
            g >= 1,
            mask@.len() >= sz * sz,
            sz * sz <= usize::MAX,
            g * g <= usize::MAX,
            sz * g <= usize::MAX,
            y <= size,
            cells@.len() == g * g,
            forall|gx: int, gy: int|
                0 <= gx < g && 0 <= gy < g ==> #[trigger] cells@[cell(g, gx, gy)] == if region_inked_before(mask@, sz, g, gx, gy, y as int, 0) {
                    1u8
                } else {
                    0u8
                },
        decreases size - y,
    {
        let mut x: usize = 0;
        while x < size
            invariant
                sz == size && g == grid_size,
                g >= 1,
                mask@.len() >= sz * sz,
                sz * sz <= usize::MAX,
                g * g <= usize::MAX,
                sz * g <= usize::MAX,
                y < size,
                x <= size,
                cells@.len() == g * g,
                forall|gx: int, gy: int|
                    0 <= gx < g && 0 <= gy < g ==> #[trigger] cells@[cell(g, gx, gy)] == if region_inked_before(mask@, sz, g, gx, gy, y as int, x as int) {
                        1u8
                    } else {
                        0u8
                    },
            decreases size - x,
        {
            proof {
                lemma_cell_bound(sz, x as int, y as int);
                assert(y as int * sz >= 0) by (nonlinear_arith)
                    requires
                        y >= 0,
                        sz >= 0,
                ;
                assert(x * g <= sz * g && y * g <= sz * g) by (nonlinear_arith)
                    requires
                        x < sz,
                        y < sz,
                        g >= 0,
                ;
            }
            let ghost c0 = cells@;
            if mask[y * size + x] != 0 {
                let cx = x * grid_size / size;
                let cy = y * grid_size / size;
                let cell_x = if cx < grid_size - 1 { cx } else { grid_size - 1 };
                let cell_y = if cy < grid_size - 1 { cy } else { grid_size - 1 };
                proof {
                    lemma_cell_bound(g, cell_x as int, cell_y as int);
                    assert(cell_y as int * g >= 0) by (nonlinear_arith)
                        requires
                            cell_y >= 0,
                            g >= 0,
                    ;
                }
                let index = cell_y * grid_size + cell_x;
                cells.set(index, 1);
                proof {
                    assert forall|gx: int, gy: int| 0 <= gx < g && 0 <= gy < g implies #[trigger] cells@[cell(g, gx, gy)] == if region_inked_before(
                        mask@,
                        sz,
                        g,
                        gx,
                        gy,
                        y as int,
                        x + 1,
                    ) {
                        1u8
                    } else {
                        0u8
                    } by {
                        lemma_cell_bound(g, gx, gy);
                        assert(region_of(x as int, sz, g) == cell_x);
                        assert(region_of(y as int, sz, g) == cell_y);
                        if cell(g, gx, gy) == index {
                            lemma_cell_injective(g, gx, gy, cell_x as int, cell_y as int);
                        } else {
                            assert(cells@[cell(g, gx, gy)] == c0[cell(g, gx, gy)]);
                        }
                        if gx == cell_x && gy == cell_y {
                            assert(mask@[cell(sz, x as int, y as int)] != 0);
                            assert(region_inked_before(mask@, sz, g, gx, gy, y as int, x + 1));
                        }
                        if region_inked_before(mask@, sz, g, gx, gy, y as int, x + 1) && !region_inked_before(mask@, sz, g, gx, gy, y as int, x as int) {
                            let (x2, y2) = choose|x2: int, y2: int|
                                0 <= x2 < sz && 0 <= y2 < sz && (y2 < y || (y2 == y && x2 < x + 1)) && #[trigger] mask@[cell(sz, x2, y2)] != 0
                                    && region_of(x2, sz, g) == gx && region_of(y2, sz, g) == gy;
                            assert(x2 == x && y2 == y);
                        }
                        if region_inked_before(mask@, sz, g, gx, gy, y as int, x as int) {
                            let (x2, y2) = choose|x2: int, y2: int|
                                0 <= x2 < sz && 0 <= y2 < sz && (y2 < y || (y2 == y && x2 < x)) && #[trigger] mask@[cell(sz, x2, y2)] != 0
                                    && region_of(x2, sz, g) == gx && region_of(y2, sz, g) == gy;
                            assert(region_inked_before(mask@, sz, g, gx, gy, y as int, x + 1));
                        }
                    }
                }
            } else {
                proof {
                    assert forall|gx: int, gy: int| 0 <= gx < g && 0 <= gy < g implies region_inked_before(mask@, sz, g, gx, gy, y as int, x + 1)
                        == region_inked_before(mask@, sz, g, gx, gy, y as int, x as int) by {
                        if region_inked_before(mask@, sz, g, gx, gy, y as int, x + 1) {
                            let (x2, y2) = choose|x2: int, y2: int|
                                0 <= x2 < sz && 0 <= y2 < sz && (y2 < y || (y2 == y && x2 < x + 1)) && #[trigger] mask@[cell(sz, x2, y2)] != 0
                                    && region_of(x2, sz, g) == gx && region_of(y2, sz, g) == gy;
                            if x2 == x && y2 == y {
                                assert(false);
                            }
                        }
                        if region_inked_before(mask@, sz, g, gx, gy, y as int, x as int) {
                            let (x2, y2) = choose|x2: int, y2: int|
                                0 <= x2 < sz && 0 <= y2 < sz && (y2 < y || (y2 == y && x2 < x)) && #[trigger] mask@[cell(sz, x2, y2)] != 0
                                    && region_of(x2, sz, g) == gx && region_of(y2, sz, g) == gy;
                            assert(region_inked_before(mask@, sz, g, gx, gy, y as int, x + 1));
                        }
                    }
                }
            }
            x = x + 1;
        }
        proof {
            assert forall|gx: int, gy: int| 0 <= gx < g && 0 <= gy < g implies region_inked_before(mask@, sz, g, gx, gy, y + 1, 0)
                == region_inked_before(mask@, sz, g, gx, gy, y as int, sz) by {
                if region_inked_before(mask@, sz, g, gx, gy, y + 1, 0) {
                    let (x2, y2) = choose|x2: int, y2: int|
                        0 <= x2 < sz && 0 <= y2 < sz && (y2 < y + 1 || (y2 == y + 1 && x2 < 0)) && #[trigger] mask@[cell(sz, x2, y2)] != 0
                            && region_of(x2, sz, g) == gx && region_of(y2, sz, g) == gy;
                    assert(region_inked_before(mask@, sz, g, gx, gy, y as int, sz));
                }
                if region_inked_before(mask@, sz, g, gx, gy, y as int, sz) {
                    let (x2, y2) = choose|x2: int, y2: int|
                        0 <= x2 < sz && 0 <= y2 < sz && (y2 < y || (y2 == y && x2 < sz)) && #[trigger] mask@[cell(sz, x2, y2)] != 0
                            && region_of(x2, sz, g) == gx && region_of(y2, sz, g) == gy;
                    assert(region_inked_before(mask@, sz, g, gx, gy, y + 1, 0));
                }
            }
        }
        y = y + 1;
    }
    cells
}

/// The region counts of a candidate against a reference: how many regions
/// the reference core inks, how many of those the candidate's loose ink
/// covers, how many regions the candidate core inks, and how many of those
/// lie outside the reference's loose ink.
pub struct CellCounts {
    pub required_count: usize,
    pub required_covered: usize,
    pub candidate_count: usize,
    pub forbidden_candidate_count: usize,
}

/// Number of positions below `n` where `a` is inked and `b`, unless `b_any`
/// is set, satisfies `b_inked`.
pub open spec fn count_below(a: Seq<u8>, b: Seq<u8>, b_any: bool, b_inked: bool, n: int) -> int
    decreases n,
{
    if n <= 0 {
        0
    } else {
        count_below(a, b, b_any, b_inked, n - 1) + if a[n - 1] != 0 && (b_any || (b[n - 1] != 0) == b_inked) {
            1int
        } else {
            0int
        }
    }
}

proof fn lemma_count_below_bound(a: Seq<u8>, b: Seq<u8>, b_any: bool, b_inked: bool, n: int)
    requires
        0 <= n,
    ensures
        0 <= count_below(a, b, b_any, b_inked, n) <= n,
    decreases n,
{
    if n > 0 {
        lemma_count_below_bound(a, b, b_any, b_inked, n - 1);
    }
}

/// The positions `0..n`.
pub open spec fn positions(n: int) -> Seq<int> {
    Seq::new(n as nat, |i: int| i)
}

/// No position below `n` passes the test: the count is zero.
proof fn lemma_count_below_none(a: Seq<u8>, b: Seq<u8>, b_any: bool, b_inked: bool, n: int)
    requires
        forall|i: int| 0 <= i < n ==> !(a[i] != 0 && (b_any || (b[i] != 0) == b_inked)),
    ensures
        count_below(a, b, b_any, b_inked, n) == 0,
    decreases n,
{
    if n > 0 {
        lemma_count_below_none(a, b, b_any, b_inked, n - 1);
    }
}

/// A region counted inked with any second mask splits into the regions the
/// second mask inks and those it leaves empty.
proof fn lemma_count_below_split(a: Seq<u8>, b: Seq<u8>, n: int)
    requires
        0 <= n,
    ensures
        count_below(a, b, false, true, n) + count_below(a, b, false, false, n) == count_below(a, a, true, true, n),
    decreases n,
{
    if n > 0 {
        lemma_count_below_split(a, b, n - 1);
    }
}

/// The region counts of `cell_counts`, as sets of positions: the candidate's
/// inked regions are those its core inks; the forbidden ones are those its
/// core inks and the reference's loose mask leaves empty; the covered ones
/// are those both masks ink. The candidate's inked regions split into
/// forbidden ones and ones within the reference's loose ink, so that a
/// candidate within the reference's loose ink has no forbidden region, and
/// a reference loose mask without ink forbids every inked region.
pub proof fn lemma_region_counts(a: Seq<u8>, b: Seq<u8>, n: int)
    requires
        0 <= n,
    ensures
        count_below(a, a, true, true, n) == positions(n).filter(|i: int| a[i] != 0).len(),
        count_below(a, b, false, false, n) == positions(n).filter(|i: int| a[i] != 0 && b[i] == 0).len(),
        count_below(a, b, false, true, n) == positions(n).filter(|i: int| a[i] != 0 && b[i] != 0).len(),
        count_below(a, b, false, false, n) + count_below(a, b, false, true, n) == count_below(a, a, true, true, n),
        (forall|i: int| 0 <= i < n && a[i] != 0 ==> b[i] != 0) ==> count_below(a, b, false, false, n) == 0,
        (forall|i: int| 0 <= i < n ==> b[i] == 0) ==> count_below(a, b, false, true, n) == 0 && count_below(a, b, false, false, n)
            == count_below(a, a, true, true, n),
    decreases n,
{
    reveal(Seq::filter);
    if n > 0 {
        lemma_region_counts(a, b, n - 1);
        assert(positions(n).drop_last() =~= positions(n - 1));
        assert(positions(n).last() == n - 1);
    } else {
        assert(positions(n) =~= Seq::<int>::empty());
    }
    lemma_count_below_split(a, b, n);
    if forall|i: int| 0 <= i < n && a[i] != 0 ==> b[i] != 0 {
        lemma_count_below_none(a, b, false, false, n);
    }
    if forall|i: int| 0 <= i < n ==> b[i] == 0 {
        lemma_count_below_none(a, b, false, true, n);
    }
}

/// Counts, over the regions of the reference core, the required and
/// covered regions and the candidate's inked and stray regions.
pub fn cell_counts(
    candidate_core_cells: &[u8],
    candidate_loose_cells: &[u8],
    reference_core_cells: &[u8],
    reference_loose_cells: &[u8],
) -> (counts: CellCounts)
    requires
        candidate_core_cells@.len() >= reference_core_cells@.len(),
        candidate_loose_cells@.len() >= reference_core_cells@.len(),
        reference_loose_cells@.len() >= reference_core_cells@.len(),
    ensures
        ({
            let n = reference_core_cells@.len() as int;
            &&& counts.required_count == count_below(reference_core_cells@, reference_core_cells@, true, true, n)
            &&& counts.required_covered == count_below(reference_core_cells@, candidate_loose_cells@, false, true, n)
            &&& counts.candidate_count == count_below(candidate_core_cells@, candidate_core_cells@, true, true, n)
            &&& counts.forbidden_candidate_count == count_below(candidate_core_cells@, reference_loose_cells@, false, false, n)
        }),
        // A candidate region is forbidden only where the reference's loose
        // mask is empty, and required only where its core is inked.
        counts.forbidden_candidate_count <= counts.candidate_count,
        counts.required_covered <= counts.required_count,
        (forall|i: int| 0 <= i < reference_core_cells@.len() ==> reference_loose_cells@[i] != 0) ==> counts.forbidden_candidate_count == 0,
        (forall|i: int| 0 <= i < reference_core_cells@.len() ==> reference_loose_cells@[i] == 0) ==> counts.forbidden_candidate_count == counts.candidate_count,
        (forall|i: int| 0 <= i < reference_core_cells@.len() ==> candidate_loose_cells@[i] == 0) ==> counts.required_covered == 0,
{
    let ghost rc = reference_core_cells@;
    let ghost cl = candidate_loose_cells@;
    let ghost cc = candidate_core_cells@;
    let ghost rl = reference_loose_cells@;
    let mut required_count: usize = 0;
    let mut required_covered: usize = 0;
    let mut candidate_count: usize = 0;
    let mut forbidden_candidate_count: usize = 0;
    let mut index: usize = 0;
    while index < reference_core_cells.len()
        invariant
            index <= rc.len(),
            rc == reference_core_cells@ && cl == candidate_loose_cells@ && cc == candidate_core_cells@ && rl == reference_loose_cells@,
            cc.len() >= rc.len() && cl.len() >= rc.len() && rl.len() >= rc.len(),
            required_count == count_below(rc, rc, true, true, index as int),
            required_covered == count_below(rc, cl, false, true, index as int),
            candidate_count == count_below(cc, cc, true, true, index as int),
            forbidden_candidate_count == count_below(cc, rl, false, false, index as int),
        decreases rc.len() - index,
    {
        proof {
            lemma_count_below_bound(rc, rc, true, true, index as int);
            lemma_count_below_bound(rc, cl, false, true, index as int);
            lemma_count_below_bound(cc, cc, true, true, index as int);
            lemma_count_below_bound(cc, rl, false, false, index as int);
        }
        if reference_core_cells[index] != 0 {
            required_count = required_count + 1;
            if candidate_loose_cells[index] != 0 {
                required_covered = required_covered + 1;
            }
        }
        if candidate_core_cells[index] != 0 {
            candidate_count = candidate_count + 1;
            if reference_loose_cells[index] == 0 {
                forbidden_candidate_count = forbidden_candidate_count + 1;
            }
        }
        index = index + 1;
    }
    proof {
        let n = rc.len() as int;
        lemma_region_counts(cc, rl, n);
        lemma_region_counts(rc, cl, n);
        lemma_count_below_bound(rc, cl, false, false, n);
        lemma_count_below_bound(cc, rl, false, true, n);
    }
    CellCounts { required_count, required_covered, candidate_count, forbidden_candidate_count }
}

} // verus!

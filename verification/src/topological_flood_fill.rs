//! The integer core of ring-closure detection: an ink raster whose outside
//! empty space is flooded from the border, so that the empty cells left dry
//! are exactly those enclosed by ink.
//!
//! Cells are numbered row by row: cell `i` sits at column `i % width` and
//! row `i / width`. Two cells are adjacent when they share an edge.

use vstd::prelude::*;
use vstd::arithmetic::div_mod::{lemma_fundamental_div_mod, lemma_fundamental_div_mod_converse};
use vstd::set_lib::{lemma_int_range, lemma_len_subset, set_int_range};

verus! {

/// Cells `i` and `j` of a grid `w` cells wide and `size` cells large share an edge.
pub open spec fn adjacent(w: int, size: int, i: int, j: int) -> bool {
    &&& 0 <= i < size
    &&& 0 <= j < size
    &&& {
        ||| (i % w == j % w && (i / w == j / w + 1 || j / w == i / w + 1))
        ||| (i / w == j / w && (i % w == j % w + 1 || j % w == i % w + 1))
    }
}

/// Cell `i` lies on the outer frame of a `w` by `h` grid.
pub open spec fn on_border(w: int, h: int, i: int) -> bool {
    i % w == 0 || i % w == w - 1 || i / w == 0 || i / w == h - 1
}

/// A cell that is neither ink nor water.
pub open spec fn is_open(blocked: Seq<u8>, water: Seq<u8>, i: int) -> bool {
    blocked[i] == 0 && water[i] == 0
}

/// `p` is a walk of edge-sharing cells, none of which is ink or water.
pub open spec fn is_walk(w: int, size: int, blocked: Seq<u8>, water: Seq<u8>, p: Seq<int>) -> bool {
    &&& p.len() > 0
    &&& forall|k: int| 0 <= k < p.len() ==> 0 <= #[trigger] p[k] < size && is_open(blocked, water, p[k])
    &&& forall|k: int| 0 <= k < p.len() - 1 ==> adjacent(w, size, #[trigger] p[k], p[k + 1])
}

/// Sum of the entries of a mask.
pub open spec fn mask_sum(mask: Seq<u8>) -> int
    decreases mask.len(),
{
    if mask.len() == 0 {
        0
    } else {
        mask_sum(mask.drop_last()) + mask.last()
    }
}

/// Value `i` occurs in `q`.
pub open spec fn in_queue(q: Seq<usize>, i: int) -> bool {
    exists|k: int| 0 <= k < q.len() && #[trigger] q[k] == i
}

/// One ink raster: a grid of cells with an ink mask, a water mask, the mask
/// of ink cells that touch the water, and for each cell the indices of the
/// strokes whose ink covers it.
pub struct Raster {
    pub width: i64,
    pub height: i64,
    pub size: usize,
    pub blocked: Vec<u8>,
    pub water: Vec<u8>,
    pub outside_edge: Vec<u8>,
    pub stroke_ids_by_cell: Vec<Vec<usize>>,
}

impl Raster {
    /// The raster's size is its width times its height, and each mask holds
    /// one entry per cell.
    pub open spec fn wf(&self) -> bool {
        &&& self.width >= 1
        &&& self.height >= 1
        &&& self.size == self.width * self.height
        &&& self.size <= i64::MAX
        &&& self.blocked@.len() == self.size
        &&& self.water@.len() == self.size
        &&& self.outside_edge@.len() == self.size
        &&& self.stroke_ids_by_cell@.len() == self.size
    }

    /// The empty cells of `self` that the water floods: those joined to the
    /// border by a walk of cells that were neither ink nor water.
    pub open spec fn floods(&self, i: int) -> bool {
        exists|p: Seq<int>|
            #[trigger] is_walk(self.width as int, self.size as int, self.blocked@, self.water@, p)
            && on_border(self.width as int, self.height as int, p[0]) && p.last() == i
    }

    /// Cell `j` is joined to cell `i` by a walk of dry cells.
    pub open spec fn dry_connected(&self, i: int, j: int) -> bool {
        exists|p: Seq<int>|
            #[trigger] is_walk(self.width as int, self.size as int, self.blocked@, self.water@, p)
            && p[0] == i && p.last() == j
    }

    /// A fresh raster of `width` by `height` cells, with no ink and no water.
    pub fn new(width: i64, height: i64) -> (raster: Raster)
        requires
            width >= 1,
            height >= 1,
            width * height <= i64::MAX,
            width * height <= usize::MAX,
        ensures
            raster.wf(),
            raster.width == width,
            raster.height == height,
            forall|i: int| 0 <= i < raster.size ==> raster.blocked@[i] == 0 && raster.water@[i] == 0
                && raster.outside_edge@[i] == 0 && raster.stroke_ids_by_cell@[i]@.len() == 0,
    {
        assert(width * height >= 1) by (nonlinear_arith)
            requires
                width >= 1,
                height >= 1,
        ;
        let size = (width * height) as usize;
        let mut blocked: Vec<u8> = Vec::new();
        let mut water: Vec<u8> = Vec::new();
        let mut outside_edge: Vec<u8> = Vec::new();
        let mut ids: Vec<Vec<usize>> = Vec::new();
        let mut i: usize = 0;
        while i < size
            invariant
                i <= size,
                blocked@.len() == i && water@.len() == i && outside_edge@.len() == i && ids@.len() == i,
                forall|k: int| 0 <= k < i ==> blocked@[k] == 0,
                forall|k: int| 0 <= k < i ==> water@[k] == 0,
                forall|k: int| 0 <= k < i ==> outside_edge@[k] == 0,
                forall|k: int| 0 <= k < i ==> (#[trigger] ids@[k])@.len() == 0,
            decreases size - i,
        {
            blocked.push(0);
            water.push(0);
            outside_edge.push(0);
            ids.push(Vec::new());
            assert(ids@[i as int]@.len() == 0);
            i = i + 1;
        }
        Raster { width, height, size, blocked, water, outside_edge, stroke_ids_by_cell: ids }
    }
}

impl Raster {
    /// Pours water into cell `index` unless it is ink or already water.
    fn enqueue_water(&mut self, index: usize, queue: &mut Vec<usize>)
        requires
            old(self).wf(),
            index < old(self).size,
        ensures
            final(self).wf(),
            final(self).width == old(self).width,
            final(self).height == old(self).height,
            final(self).size == old(self).size,
            final(self).blocked@ == old(self).blocked@,
            final(self).outside_edge@ == old(self).outside_edge@,
            final(self).stroke_ids_by_cell@ == old(self).stroke_ids_by_cell@,
            if old(self).blocked@[index as int] == 0 && old(self).water@[index as int] == 0 {
                &&& final(self).water@ == old(self).water@.update(index as int, 1u8)
                &&& final(queue)@ == old(queue)@.push(index)
            } else {
                &&& final(self).water@ == old(self).water@
                &&& final(queue)@ == old(queue)@
            },
    {
        if self.blocked[index] != 0 || self.water[index] != 0 {
            return;
        }
        self.water.set(index, 1);
        queue.push(index);
    }

    /// Visits cell `n` next to a water cell: ink there becomes outside edge,
    /// an empty cell takes the water.
    fn visit_neighbor(&mut self, n: usize, queue: &mut Vec<usize>)
        requires
            old(self).wf(),
            n < old(self).size,
        ensures
            final(self).wf(),
            final(self).width == old(self).width,
            final(self).height == old(self).height,
            final(self).size == old(self).size,
            final(self).blocked@ == old(self).blocked@,
            final(self).stroke_ids_by_cell@ == old(self).stroke_ids_by_cell@,
            old(self).blocked@[n as int] != 0 ==> {
                &&& final(self).outside_edge@ == old(self).outside_edge@.update(n as int, 1u8)
                &&& final(self).water@ == old(self).water@
                &&& final(queue)@ == old(queue)@
            },
            old(self).blocked@[n as int] == 0 ==> {
                &&& final(self).outside_edge@ == old(self).outside_edge@
                &&& old(self).water@[n as int] == 0 ==> final(self).water@ == old(self).water@.update(n as int, 1u8)
                    && final(queue)@ == old(queue)@.push(n)
                &&& old(self).water@[n as int] != 0 ==> final(self).water@ == old(self).water@
                    && final(queue)@ == old(queue)@
            },
    {
        if self.blocked[n] != 0 {
            self.outside_edge.set(n, 1);
        } else {
            self.enqueue_water(n, queue);
        }
    }

    /// Spreads the water of cell `index` to its four neighbours.
    #[verifier::spinoff_prover]
    #[verifier::rlimit(40)]
    fn flood_from(&mut self, index: usize, queue: &mut Vec<usize>)
        requires
            old(self).wf(),
            index < old(self).size,
        ensures
            final(self).wf(),
            final(self).width == old(self).width,
            final(self).height == old(self).height,
            final(self).size == old(self).size,
            final(self).blocked@ == old(self).blocked@,
            final(self).stroke_ids_by_cell@ == old(self).stroke_ids_by_cell@,
            forall|i: int|
                0 <= i < old(self).size ==> #[trigger] final(self).outside_edge@[i] == if old(
                    self,
                ).blocked@[i] != 0 && adjacent(old(self).width as int, old(self).size as int, index as int, i) {
                    1u8
                } else {
                    old(self).outside_edge@[i]
                },
            final(queue)@.len() >= old(queue)@.len(),
            final(queue)@.subrange(0, old(queue)@.len() as int) == old(queue)@,
            forall|k: int|
                old(queue)@.len() <= k < final(queue)@.len() ==> {
                    &&& adjacent(old(self).width as int, old(self).size as int, index as int, #[trigger] final(queue)@[k] as int)
                    &&& old(self).blocked@[final(queue)@[k] as int] == 0
                    &&& old(self).water@[final(queue)@[k] as int] == 0
                },
            forall|k1: int, k2: int|
                old(queue)@.len() <= k1 < final(queue)@.len() && old(queue)@.len() <= k2 < final(queue)@.len() && k1
                    != k2 ==> #[trigger] final(queue)@[k1] != #[trigger] final(queue)@[k2],
            forall|i: int|
                0 <= i < old(self).size ==> #[trigger] final(self).water@[i] == if exists|k: int|
                    old(queue)@.len() <= k < final(queue)@.len() && #[trigger] final(queue)@[k] == i {
                    1u8
                } else {
                    old(self).water@[i]
                },
            forall|j: int|
                0 <= j < old(self).size && adjacent(old(self).width as int, old(self).size as int, index as int, j)
                    && old(self).blocked@[j] == 0 ==> #[trigger] final(self).water@[j] != 0,
    {
        let ghost s0 = *self;
        let ghost q0 = queue@;
        let ghost w = self.width as int;
        let ghost h = self.height as int;
        let ghost sz = self.size as int;
        let ghost i = index as int;
        proof {
            lemma_cell(w, h, i);
        }
        let x = (index as i64) % self.width;
        let y = (index as i64) / self.width;
        assert(x == i % w && y == i / w);
        // The four neighbours, in the order (1,0), (-1,0), (0,1), (0,-1).
        let ghost n1 = y * w + x + 1;
        let ghost n2 = y * w + x - 1;
        let ghost n3 = (y + 1) * w + x;
        let ghost n4 = (y - 1) * w + x;
        let ghost in1 = x + 1 < w;
        let ghost in2 = x - 1 >= 0;
        let ghost in3 = y + 1 < h;
        let ghost in4 = y - 1 >= 0;
        proof {
            assert((y + 1) * w == y * w + w) by (nonlinear_arith);
            assert((y - 1) * w == y * w - w) by (nonlinear_arith);
            if in1 {
                lemma_neighbor_adjacent(w, h, i, x + 1, y as int);
            }
            if in2 {
                lemma_neighbor_adjacent(w, h, i, x - 1, y as int);
            }
            if in3 {
                lemma_neighbor_adjacent(w, h, i, x as int, y + 1);
            }
            if in4 {
                lemma_neighbor_adjacent(w, h, i, x as int, y - 1);
            }
            lemma_cell(w, h, i);
            if in1 {
                lemma_coords(w, x + 1, y as int);
                assert(step_rank(w, i, n1) == 0);
            }
            if in2 {
                lemma_coords(w, x - 1, y as int);
                assert(step_rank(w, i, n2) == 1);
            }
            if in3 {
                lemma_coords(w, x as int, y + 1);
                assert(step_rank(w, i, n3) == 2);
            }
            if in4 {
                lemma_coords(w, x as int, y - 1);
                assert(step_rank(w, i, n4) == 3);
            }
            assert forall|j: int| adjacent(w, sz, i, j) implies (in1 && j == n1) || (in2 && j == n2) || (in3
                && j == n3) || (in4 && j == n4) by {
                lemma_adjacent_cases(w, h, i, j);
            }
        }
        if x + 1 < self.width {
            let n = grid_index(x + 1, y, self.width);
            self.visit_neighbor(n, queue);
        }
        let ghost s1 = *self;
        let ghost q1 = queue@;
        if x - 1 >= 0 {
            let n = grid_index(x - 1, y, self.width);
            self.visit_neighbor(n, queue);
        }
        let ghost s2 = *self;
        let ghost q2 = queue@;
        if y + 1 < self.height {
            let n = grid_index(x, y + 1, self.width);
            self.visit_neighbor(n, queue);
        }
        let ghost s3 = *self;
        let ghost q3 = queue@;
        if y - 1 >= 0 {
            let n = grid_index(x, y - 1, self.width);
            self.visit_neighbor(n, queue);
        }
        proof {
            let q = queue@;
            assert(q.subrange(0, q0.len() as int) =~= q0);
            assert forall|k: int| q0.len() <= k < q.len() implies {
                &&& adjacent(w, sz, i, #[trigger] q[k] as int)
                &&& s0.blocked@[q[k] as int] == 0
                &&& s0.water@[q[k] as int] == 0
            } by {
                if k < q1.len() {
                    assert(q[k] == n1);
                } else if k < q2.len() {
                    assert(q[k] == n2);
                } else if k < q3.len() {
                    assert(q[k] == n3);
                } else {
                    assert(q[k] == n4);
                }
            }
            assert forall|i2: int| 0 <= i2 < sz implies #[trigger] self.water@[i2] == if exists|k: int|
                q0.len() <= k < q.len() && #[trigger] q[k] == i2 {
                1u8
            } else {
                s0.water@[i2]
            } by {
                if self.water@[i2] != s0.water@[i2] {
                    if s1.water@[i2] != s0.water@[i2] {
                        assert(q[q0.len() as int] == i2);
                    } else if s2.water@[i2] != s1.water@[i2] {
                        assert(q[q1.len() as int] == i2);
                    } else if s3.water@[i2] != s2.water@[i2] {
                        assert(q[q2.len() as int] == i2);
                    } else {
                        assert(q[q3.len() as int] == i2);
                    }
                }
                if exists|k: int| q0.len() <= k < q.len() && #[trigger] q[k] == i2 {
                    let k = choose|k: int| q0.len() <= k < q.len() && #[trigger] q[k] == i2;
                    if k < q1.len() {
                        assert(q[k] == n1);
                    } else if k < q2.len() {
                        assert(q[k] == n2);
                    } else if k < q3.len() {
                        assert(q[k] == n3);
                    } else {
                        assert(q[k] == n4);
                    }
                }
            }
        }
    }
}

impl Raster {
    /// Floods the empty space from the outer frame of the raster, four-way,
    /// stopping at ink. The flooded cells become water, and the ink cells
    /// that touch flooded cells become outside edge.
    pub fn flood_exterior(&mut self)
        requires
            old(self).wf(),
        ensures
            final(self).wf(),
            final(self).width == old(self).width,
            final(self).height == old(self).height,
            final(self).size == old(self).size,
            final(self).blocked@ == old(self).blocked@,
            final(self).stroke_ids_by_cell@ == old(self).stroke_ids_by_cell@,
            forall|i: int|
                0 <= i < old(self).size ==> #[trigger] final(self).water@[i] == if old(self).floods(i) {
                    1u8
                } else {
                    old(self).water@[i]
                },
            forall|i: int|
                0 <= i < old(self).size ==> #[trigger] final(self).outside_edge@[i] == if old(self).blocked@[i] != 0
                    && exists|j: int|
                    adjacent(old(self).width as int, old(self).size as int, i, j) && #[trigger] old(self).floods(j) {
                    1u8
                } else {
                    old(self).outside_edge@[i]
                },
    {
        let ghost s0 = *self;
        let ghost b = self.blocked@;
        let ghost w0 = self.water@;
        let ghost e0 = self.outside_edge@;
        let ghost w = self.width as int;
        let ghost h = self.height as int;
        let ghost sz = self.size as int;
        let mut queue: Vec<usize> = Vec::new();

        let mut x: i64 = 0;
        while x < self.width
            invariant
                0 <= x <= w,
                self.wf(),
                self.width == w && self.height == h && self.size == sz,
                self.blocked@ == b,
                self.outside_edge@ == e0,
                self.stroke_ids_by_cell@ == s0.stroke_ids_by_cell@,
                sz == w * h,
                forall|k: int|
                    0 <= k < queue@.len() ==> #[trigger] queue@[k] < sz && on_border(w, h, queue@[k] as int)
                        && is_open(b, w0, queue@[k] as int),
                queue@.no_duplicates(),
                forall|i: int|
                    0 <= i < sz ==> #[trigger] self.water@[i] == if in_queue(queue@, i) {
                        1u8
                    } else {
                        w0[i]
                    },
                forall|i: int|
                    0 <= i < sz && is_open(b, w0, i) && (i / w == 0 || i / w == h - 1) && i % w < x
                        ==> #[trigger] in_queue(queue@, i),
            decreases w - x,
        {
            proof {
                assert(0 * w == 0) by (nonlinear_arith);
                assert((h - 1) * w + x < w * h) by (nonlinear_arith)
                    requires
                        0 <= x < w,
                        h >= 1,
                ;
                assert((h - 1) * w >= 0) by (nonlinear_arith)
                    requires
                        w >= 1,
                        h >= 1,
                ;
            }
            let top = grid_index(x, 0, self.width);
            self.seed(top, &mut queue, Ghost(b), Ghost(w0));
            let bottom = grid_index(x, self.height - 1, self.width);
            self.seed(bottom, &mut queue, Ghost(b), Ghost(w0));
            proof {
                assert forall|i: int|
                    0 <= i < sz && is_open(b, w0, i) && (i / w == 0 || i / w == h - 1) && i % w < x + 1
                        implies #[trigger] in_queue(queue@, i) by {
                    lemma_cell(w, h, i);
                    if i % w == x {
                        if i / w == 0 {
                            assert(i == top);
                        } else {
                            assert(i == bottom);
                        }
                    }
                }
            }
            x = x + 1;
        }

        let mut y: i64 = 1;
        while y < self.height - 1
            invariant
                1 <= y,
                y <= h - 1 || h == 1,
                self.wf(),
                self.width == w && self.height == h && self.size == sz,
                self.blocked@ == b,
                self.outside_edge@ == e0,
                self.stroke_ids_by_cell@ == s0.stroke_ids_by_cell@,
                sz == w * h,
                forall|k: int|
                    0 <= k < queue@.len() ==> #[trigger] queue@[k] < sz && on_border(w, h, queue@[k] as int)
                        && is_open(b, w0, queue@[k] as int),
                queue@.no_duplicates(),
                forall|i: int|
                    0 <= i < sz ==> #[trigger] self.water@[i] == if in_queue(queue@, i) {
                        1u8
                    } else {
                        w0[i]
                    },
                forall|i: int|
                    0 <= i < sz && is_open(b, w0, i) && (i / w == 0 || i / w == h - 1) ==> #[trigger] in_queue(
                        queue@,
                        i,
                    ),
                forall|i: int|
                    0 <= i < sz && is_open(b, w0, i) && (i % w == 0 || i % w == w - 1) && 1 <= i / w < y
                        ==> #[trigger] in_queue(queue@, i),
            decreases h - y,
        {
            proof {
                assert(y * w + w - 1 < w * h) by (nonlinear_arith)
                    requires
                        0 <= y < h - 1,
                        w >= 1,
                ;
                assert(y * w >= 0) by (nonlinear_arith)
                    requires
                        y >= 0,
                        w >= 1,
                ;
            }
            let left = grid_index(0, y, self.width);
            self.seed(left, &mut queue, Ghost(b), Ghost(w0));
            let right = grid_index(self.width - 1, y, self.width);
            self.seed(right, &mut queue, Ghost(b), Ghost(w0));
            proof {
                assert forall|i: int|
                    0 <= i < sz && is_open(b, w0, i) && (i % w == 0 || i % w == w - 1) && 1 <= i / w < y + 1
                        implies #[trigger] in_queue(queue@, i) by {
                    lemma_cell(w, h, i);
                    if i / w == y {
                        if i % w == 0 {
                            assert(i == left);
                        } else {
                            assert(i == right);
                        }
                    }
                }
            }
            y = y + 1;
        }
        proof {
            assert forall|i: int| 0 <= i < sz && on_border(w, h, i) && is_open(b, w0, i) implies #[trigger] in_queue(
                queue@,
                i,
            ) by {
                lemma_cell(w, h, i);
            }
            assert forall|k: int| 0 <= k < queue@.len() implies s0.floods(#[trigger] queue@[k] as int) by {
                let c = queue@[k] as int;
                let p = seq![c];
                assert(is_walk(w, sz, b, w0, p));
            }
            lemma_distinct_below(queue@, sz);
        }

        let mut head: usize = 0;
        while head < queue.len()
            invariant
                head <= queue@.len(),
                queue@.len() <= sz,
                self.wf(),
                self.width == w && self.height == h && self.size == sz,
                self.blocked@ == b,
                self.stroke_ids_by_cell@ == s0.stroke_ids_by_cell@,
                sz == w * h,
                s0.blocked@ == b && s0.water@ == w0 && s0.width == w && s0.height == h && s0.size == sz,
                forall|k: int|
                    0 <= k < queue@.len() ==> #[trigger] queue@[k] < sz && is_open(b, w0, queue@[k] as int)
                        && s0.floods(queue@[k] as int),
                queue@.no_duplicates(),
                forall|i: int|
                    0 <= i < sz ==> #[trigger] self.water@[i] == if in_queue(queue@, i) {
                        1u8
                    } else {
                        w0[i]
                    },
                forall|i: int|
                    0 <= i < sz ==> #[trigger] self.outside_edge@[i] == if b[i] != 0 && exists|k: int|
                        0 <= k < head && adjacent(w, sz, #[trigger] queue@[k] as int, i) {
                        1u8
                    } else {
                        e0[i]
                    },
                forall|k: int, j: int|
                    0 <= k < head && #[trigger] adjacent(w, sz, queue@[k] as int, j) && is_open(b, w0, j)
                        ==> in_queue(queue@, j),
                forall|i: int| 0 <= i < sz && on_border(w, h, i) && is_open(b, w0, i) ==> #[trigger] in_queue(queue@, i),
            decreases (sz - queue@.len()) * 5 + (queue@.len() - head),
        {
            let index = queue[head];
            let ghost qa = queue@;
            let ghost sa = *self;
            self.flood_from(index, &mut queue);
            let ghost qb = queue@;
            proof {
                assert forall|k: int| qa.len() <= k < qb.len() implies {
                    &&& #[trigger] qb[k] < sz
                    &&& is_open(b, w0, qb[k] as int)
                    &&& s0.floods(qb[k] as int)
                    &&& !in_queue(qa, qb[k] as int)
                } by {
                    let c = qb[k] as int;
                    assert(sa.water@[c] == 0);
                    let pi = choose|p: Seq<int>|
                        #[trigger] is_walk(w, sz, b, w0, p) && on_border(w, h, p[0]) && p.last() == index as int;
                    let p2 = pi.push(c);
                    assert(is_walk(w, sz, b, w0, p2)) by {
                        assert forall|m: int| 0 <= m < p2.len() - 1 implies adjacent(w, sz, #[trigger] p2[m], p2[m + 1]) by {
                            if m < pi.len() - 1 {
                                assert(p2[m] == pi[m] && p2[m + 1] == pi[m + 1]);
                            }
                        }
                    }
                    assert(p2[0] == pi[0]);
                }
                assert forall|k: int| 0 <= k < qb.len() implies #[trigger] qb[k] < sz && is_open(b, w0, qb[k] as int)
                    && s0.floods(qb[k] as int) by {
                    if k < qa.len() {
                        assert(qb[k] == qa[k]);
                    }
                }
                assert(qb.no_duplicates()) by {
                    assert forall|k1: int, k2: int| 0 <= k1 < qb.len() && 0 <= k2 < qb.len() && k1 != k2 implies qb[k1]
                        != qb[k2] by {
                        if k1 < qa.len() && k2 < qa.len() {
                            assert(qb[k1] == qa[k1] && qb[k2] == qa[k2]);
                        } else if k1 < qa.len() {
                            assert(qb[k1] == qa[k1]);
                        } else if k2 < qa.len() {
                            assert(qb[k2] == qa[k2]);
                        }
                    }
                }
                lemma_distinct_below(qb, sz);
                assert forall|i: int| 0 <= i < sz implies #[trigger] in_queue(qb, i) == (in_queue(qa, i) || exists|k: int|
                    qa.len() <= k < qb.len() && #[trigger] qb[k] == i) by {
                    if in_queue(qa, i) {
                        let k = choose|k: int| 0 <= k < qa.len() && #[trigger] qa[k] == i;
                        assert(qb[k] == qa[k]);
                    }
                    if in_queue(qb, i) {
                        let k = choose|k: int| 0 <= k < qb.len() && #[trigger] qb[k] == i;
                        if k < qa.len() {
                            assert(qb[k] == qa[k]);
                        }
                    }
                }
                assert forall|i: int| 0 <= i < sz implies #[trigger] self.outside_edge@[i] == if b[i] != 0 && exists|k: int|
                    0 <= k < head + 1 && adjacent(w, sz, #[trigger] qb[k] as int, i) {
                    1u8
                } else {
                    e0[i]
                } by {
                    assert(qb[head as int] == index);
                    if exists|k: int| 0 <= k < head && adjacent(w, sz, #[trigger] qa[k] as int, i) {
                        let k = choose|k: int| 0 <= k < head && adjacent(w, sz, #[trigger] qa[k] as int, i);
                        assert(qb[k] == qa[k]);
                    }
                    if exists|k: int| 0 <= k < head + 1 && adjacent(w, sz, #[trigger] qb[k] as int, i) {
                        let k = choose|k: int| 0 <= k < head + 1 && adjacent(w, sz, #[trigger] qb[k] as int, i);
                        if k < head {
                            assert(qb[k] == qa[k]);
                        }
                    }
                }
                assert forall|k: int, j: int|
                    0 <= k < head + 1 && #[trigger] adjacent(w, sz, qb[k] as int, j) && is_open(b, w0, j)
                        implies in_queue(qb, j) by {
                    if k < head {
                        assert(qb[k] == qa[k]);
                        assert(in_queue(qa, j));
                    } else {
                        assert(qb[k] == index);
                        assert(self.water@[j] != 0);
                    }
                }
                assert forall|i: int| 0 <= i < sz && on_border(w, h, i) && is_open(b, w0, i) implies #[trigger] in_queue(
                    qb,
                    i,
                ) by {
                    assert(in_queue(qa, i));
                }
            }
            head = head + 1;
        }
        proof {
            let q = queue@;
            assert forall|i: int| 0 <= i < sz implies in_queue(q, i) == s0.floods(i) by {
                if in_queue(q, i) {
                    let k = choose|k: int| 0 <= k < q.len() && #[trigger] q[k] == i;
                    assert(s0.floods(q[k] as int));
                }
                if s0.floods(i) {
                    let p = choose|p: Seq<int>|
                        #[trigger] is_walk(w, sz, b, w0, p) && on_border(w, h, p[0]) && p.last() == i;
                    lemma_walk_stays_flooded(w, h, sz, b, w0, q, p);
                }
            }
            assert forall|i: int| 0 <= i < sz implies #[trigger] self.outside_edge@[i] == if b[i] != 0 && exists|j: int|
                adjacent(w, sz, i, j) && #[trigger] s0.floods(j) {
                1u8
            } else {
                e0[i]
            } by {
                if exists|k: int| 0 <= k < q.len() && adjacent(w, sz, #[trigger] q[k] as int, i) {
                    let k = choose|k: int| 0 <= k < q.len() && adjacent(w, sz, #[trigger] q[k] as int, i);
                    lemma_adjacent_symmetric(w, sz, q[k] as int, i);
                    assert(s0.floods(q[k] as int));
                }
                if exists|j: int| adjacent(w, sz, i, j) && #[trigger] s0.floods(j) {
                    let j = choose|j: int| adjacent(w, sz, i, j) && #[trigger] s0.floods(j);
                    assert(in_queue(q, j));
                    let k = choose|k: int| 0 <= k < q.len() && #[trigger] q[k] == j;
                    lemma_adjacent_symmetric(w, sz, q[k] as int, i);
                }
            }
        }
    }

    /// Pours water into a border cell, for the start of the flood.
    fn seed(&mut self, index: usize, queue: &mut Vec<usize>, Ghost(b): Ghost<Seq<u8>>, Ghost(w0): Ghost<Seq<u8>>)
        requires
            old(self).wf(),
            index < old(self).size,
            on_border(old(self).width as int, old(self).height as int, index as int),
            old(self).blocked@ == b,
            forall|k: int|
                0 <= k < old(queue)@.len() ==> #[trigger] old(queue)@[k] < old(self).size && on_border(
                    old(self).width as int,
                    old(self).height as int,
                    old(queue)@[k] as int,
                ) && is_open(b, w0, old(queue)@[k] as int),
            old(queue)@.no_duplicates(),
            forall|i: int|
                0 <= i < old(self).size ==> #[trigger] old(self).water@[i] == if in_queue(old(queue)@, i) {
                    1u8
                } else {
                    w0[i]
                },
        ensures
            final(self).wf(),
            final(self).width == old(self).width,
            final(self).height == old(self).height,
            final(self).size == old(self).size,
            final(self).blocked@ == b,
            final(self).outside_edge@ == old(self).outside_edge@,
            final(self).stroke_ids_by_cell@ == old(self).stroke_ids_by_cell@,
            forall|k: int|
                0 <= k < final(queue)@.len() ==> #[trigger] final(queue)@[k] < old(self).size && on_border(
                    old(self).width as int,
                    old(self).height as int,
                    final(queue)@[k] as int,
                ) && is_open(b, w0, final(queue)@[k] as int),
            final(queue)@.no_duplicates(),
            forall|i: int|
                0 <= i < old(self).size ==> #[trigger] final(self).water@[i] == if in_queue(final(queue)@, i) {
                    1u8
                } else {
                    w0[i]
                },
            forall|i: int|
                0 <= i < old(self).size && in_queue(old(queue)@, i) ==> #[trigger] in_queue(final(queue)@, i),
            is_open(b, w0, index as int) ==> in_queue(final(queue)@, index as int),
    {
        let ghost q0 = queue@;
        self.enqueue_water(index, queue);
        proof {
            let q = queue@;
            assert forall|i: int| 0 <= i < self.size implies #[trigger] in_queue(q, i) == (in_queue(q0, i) || (q.len()
                > q0.len() && i == index)) by {
                if in_queue(q0, i) {
                    let k = choose|k: int| 0 <= k < q0.len() && #[trigger] q0[k] == i;
                    assert(q[k] == q0[k]);
                }
                if in_queue(q, i) {
                    let k = choose|k: int| 0 <= k < q.len() && #[trigger] q[k] == i;
                    if k < q0.len() {
                        assert(q[k] == q0[k]);
                    }
                }
                if q.len() > q0.len() && i == index {
                    assert(q[q0.len() as int] == index);
                }
            }
            if q.len() > q0.len() {
                assert(!in_queue(q0, index as int));
                assert(q.no_duplicates()) by {
                    assert forall|k1: int, k2: int| 0 <= k1 < q.len() && 0 <= k2 < q.len() && k1 != k2 implies q[k1]
                        != q[k2] by {
                        if k1 < q0.len() && k2 < q0.len() {
                        } else if k1 < q0.len() {
                            assert(q[k1] == q0[k1]);
                            assert(in_queue(q0, q0[k1] as int));
                        } else if k2 < q0.len() {
                            assert(q[k2] == q0[k2]);
                            assert(in_queue(q0, q0[k2] as int));
                        }
                    }
                }
            }
        }
    }
}

/// Every cell of a walk that starts on the border stays in the queue, once
/// the queue holds every open border cell and every open neighbour of its cells.
proof fn lemma_walk_stays_flooded(w: int, h: int, sz: int, b: Seq<u8>, w0: Seq<u8>, q: Seq<usize>, p: Seq<int>)
    requires
        is_walk(w, sz, b, w0, p),
        on_border(w, h, p[0]),
        forall|i: int| 0 <= i < sz && on_border(w, h, i) && is_open(b, w0, i) ==> #[trigger] in_queue(q, i),
        forall|k: int, j: int|
            0 <= k < q.len() && #[trigger] adjacent(w, sz, q[k] as int, j) && is_open(b, w0, j) ==> in_queue(q, j),
    ensures
        in_queue(q, p.last()),
    decreases p.len(),
{
    if p.len() == 1 {
        assert(in_queue(q, p[0]));
    } else {
        let p1 = p.drop_last();
        assert(is_walk(w, sz, b, w0, p1)) by {
            assert forall|m: int| 0 <= m < p1.len() - 1 implies adjacent(w, sz, #[trigger] p1[m], p1[m + 1]) by {
                assert(p1[m] == p[m] && p1[m + 1] == p[m + 1]);
                assert(adjacent(w, sz, p[m], p[m + 1]));
            }
            assert forall|m: int| 0 <= m < p1.len() implies 0 <= #[trigger] p1[m] < sz && is_open(b, w0, p1[m]) by {
                assert(p1[m] == p[m]);
            }
        }
        lemma_walk_stays_flooded(w, h, sz, b, w0, q, p1);
        let last = p1.last();
        assert(in_queue(q, last));
        let k = choose|k: int| 0 <= k < q.len() && #[trigger] q[k] == last;
        assert(adjacent(w, sz, p[p.len() - 2], p[p.len() - 1]));
        assert(is_open(b, w0, p[p.len() - 1]));
    }
}

/// The result of the dry-cell search: how many separate dry regions there
/// are, and the cells of the largest one (the first found among equals),
/// from its first cell in row-major order on, in breadth-first order.
pub struct DryComponents {
    pub component_count: usize,
    pub largest: Vec<usize>,
}

/// Where the step from cell `from` to an edge-sharing cell `to` of a grid
/// `w` cells wide stands in the order the neighbours of a cell are tried:
/// right, left, down, up.
pub open spec fn step_rank(w: int, from: int, to: int) -> int {
    if to / w == from / w && to % w == from % w + 1 {
        0
    } else if to / w == from / w && to % w + 1 == from % w {
        1
    } else if to / w == from / w + 1 {
        2
    } else {
        3
    }
}

/// The position of the first cell of `cells`, from position `p` on and
/// before position `m`, that shares an edge with the cell at `m`; `m` when
/// there is none.
pub open spec fn first_adjacent_from(w: int, size: int, cells: Seq<usize>, m: int, p: int) -> int
    decreases m - p,
{
    if p >= m {
        m
    } else if adjacent(w, size, cells[p] as int, cells[m] as int) {
        p
    } else {
        first_adjacent_from(w, size, cells, m, p + 1)
    }
}

/// The position of the first earlier cell of `cells` that shares an edge
/// with the cell at `m`; `m` when there is none.
pub open spec fn first_adjacent(w: int, size: int, cells: Seq<usize>, m: int) -> int {
    first_adjacent_from(w, size, cells, m, 0)
}

/// The cells come in breadth-first order: every later cell shares an edge
/// with an earlier one, and cells are ordered by the position of the first
/// such cell, then by the direction of the step from it.
pub open spec fn cells_breadth_first(w: int, size: int, cells: Seq<usize>) -> bool {
    &&& forall|m: int| 0 < m < cells.len() ==> #[trigger] first_adjacent(w, size, cells, m) < m
    &&& forall|m1: int, m2: int|
        0 < m1 < m2 < cells.len() ==> #[trigger] first_adjacent(w, size, cells, m1) < #[trigger] first_adjacent(
            w,
            size,
            cells,
            m2,
        ) || (first_adjacent(w, size, cells, m1) == first_adjacent(w, size, cells, m2) && step_rank(
            w,
            cells[first_adjacent(w, size, cells, m1)] as int,
            cells[m1] as int,
        ) < step_rank(w, cells[first_adjacent(w, size, cells, m2)] as int, cells[m2] as int))
}

/// The search for the first edge-sharing cell from position `p` stops at
/// `r` when the cell at `r` shares an edge with the cell at `m` (or `r` is
/// `m`) and no cell from `p` before `r` does.
proof fn lemma_first_adjacent_at(w: int, size: int, cells: Seq<usize>, m: int, p: int, r: int)
    requires
        0 <= p <= r <= m,
        r < m ==> adjacent(w, size, cells[r] as int, cells[m] as int),
        forall|q: int| p <= q < r ==> !adjacent(w, size, cells[q] as int, cells[m] as int),
    ensures
        first_adjacent_from(w, size, cells, m, p) == r,
    decreases r - p,
{
    if p < r {
        lemma_first_adjacent_at(w, size, cells, m, p + 1, r);
    }
}

/// The cells of a queue, as a set.
pub open spec fn cell_set(q: Seq<usize>) -> Set<int> {
    Set::new(|i: int| in_queue(q, i))
}

impl Raster {
    /// The dry cells joined to `r`.
    pub open spec fn component(&self, r: int) -> Set<int> {
        Set::new(|j: int| self.dry_connected(r, j))
    }

    /// `r` is the first cell, in row-major order, of its dry region.
    pub open spec fn is_root(&self, r: int) -> bool {
        &&& 0 <= r < self.size
        &&& self.blocked@[r] == 0 && self.water@[r] == 0
        &&& forall|j: int| 0 <= j < r ==> !#[trigger] self.dry_connected(r, j)
    }

    /// The number of dry regions whose first cell lies below `n`.
    pub open spec fn num_roots(&self, n: int) -> nat
        decreases n,
    {
        if n <= 0 {
            0
        } else {
            self.num_roots(n - 1) + if self.is_root(n - 1) {
                1nat
            } else {
                0nat
            }
        }
    }

    /// Finds the dry regions of the raster, four-way connected, scanning for
    /// their first cells in row-major order.
    pub fn find_dry_components(&self) -> (dry: DryComponents)
        requires
            self.wf(),
        ensures
            dry.component_count == self.num_roots(self.size as int),
            dry.largest@.no_duplicates(),
            cells_breadth_first(self.width as int, self.size as int, dry.largest@),
            dry.largest@.len() == 0 <==> self.num_roots(self.size as int) == 0,
            forall|r: int| 0 <= r < self.size ==> #[trigger] self.component(r).finite(),
            dry.largest@.len() > 0 ==> exists|r: int|
                #[trigger] self.is_root(r) && dry.largest@[0] == r && cell_set(dry.largest@) == self.component(r) && (forall|r2: int|
                    #[trigger] self.is_root(r2) ==> self.component(r2).len() <= dry.largest@.len() && (r2 < r
                        ==> self.component(r2).len() < dry.largest@.len())),
    {
        let ghost w = self.width as int;
        let ghost h = self.height as int;
        let ghost sz = self.size as int;
        proof {
            assert forall|r: int| 0 <= r < sz implies #[trigger] self.component(r).finite() by {
                self.lemma_component_finite(r);
            }
        }
        let mut visited: Vec<u8> = Vec::new();
        let mut i: usize = 0;
        while i < self.size
            invariant
                i <= self.size,
                visited@.len() == i,
                forall|k: int| 0 <= k < i ==> visited@[k] == 0,
            decreases self.size - i,
        {
            visited.push(0);
            i = i + 1;
        }
        let mut component_count: usize = 0;
        let mut largest: Vec<usize> = Vec::new();
        let mut start: usize = 0;
        while start < self.size
            invariant
                self.wf(),
                w == self.width && h == self.height && sz == self.size,
                start <= sz,
                visited@.len() == sz,
                forall|i: int| 0 <= i < sz ==> (#[trigger] visited@[i] != 0) == (is_open(self.blocked@, self.water@, i)
                    && exists|j: int| 0 <= j < start && #[trigger] self.dry_connected(i, j)),
                component_count == self.num_roots(start as int),
                component_count <= start,
                forall|r: int| 0 <= r < sz ==> #[trigger] self.component(r).finite(),
                largest@.no_duplicates(),
                cells_breadth_first(w, sz, largest@),
                largest@.len() == 0 <==> self.num_roots(start as int) == 0,
                largest@.len() > 0 ==> exists|r: int|
                    0 <= r < start && #[trigger] self.is_root(r) && largest@[0] == r && cell_set(largest@) == self.component(r) && (forall|r2: int|
                        0 <= r2 < start && #[trigger] self.is_root(r2) ==> self.component(r2).len() <= largest@.len() && (r2
                            < r ==> self.component(r2).len() < largest@.len())),
            decreases sz - start,
        {
            let ghost v0 = visited@;
            proof {
                self.lemma_root_iff_unvisited(start as int, v0);
            }
            if self.blocked[start] != 0 || self.water[start] != 0 || visited[start] != 0 {
                proof {
                    assert forall|i: int| 0 <= i < sz implies (#[trigger] visited@[i] != 0) == (is_open(
                        self.blocked@,
                        self.water@,
                        i,
                    ) && exists|j: int| 0 <= j < start + 1 && #[trigger] self.dry_connected(i, j)) by {
                        if is_open(self.blocked@, self.water@, i) && self.dry_connected(i, start as int) {
                            self.lemma_connected_ends_dry(i, start as int);
                            let j = choose|j: int| 0 <= j < start && #[trigger] self.dry_connected(start as int, j);
                            self.lemma_connected_transitive(i, start as int, j);
                        }
                    }
                    assert(!self.is_root(start as int));
                    assert forall|r2: int| 0 <= r2 < start + 1 && #[trigger] self.is_root(r2) implies r2 < start by {}
                }
                start = start + 1;
                continue;
            }
            let ghost old_largest = largest@;
            component_count = component_count + 1;
            let cells = self.collect_component(start, &mut visited);
            proof {
                let ss = start as int;
                assert(self.is_root(ss));
                assert forall|i: int| 0 <= i < sz implies (#[trigger] visited@[i] != 0) == (is_open(self.blocked@, self.water@, i)
                    && exists|j: int| 0 <= j < start + 1 && #[trigger] self.dry_connected(i, j)) by {
                    if self.dry_connected(ss, i) {
                        self.lemma_connected_ends_dry(ss, i);
                        self.lemma_connected_symmetric(ss, i);
                    }
                    if is_open(self.blocked@, self.water@, i) && self.dry_connected(i, ss) {
                        self.lemma_connected_symmetric(i, ss);
                    }
                }
                self.lemma_cells_len(cells@, ss);
                assert(is_walk(w, sz, self.blocked@, self.water@, seq![ss]));
                assert(self.dry_connected(ss, ss));
                assert(in_queue(cells@, ss));
                assert(cells@.len() > 0);
                assert(self.num_roots(start + 1) == component_count);
                assert forall|r2: int| 0 <= r2 < start + 1 && #[trigger] self.is_root(r2) implies r2 < start || r2 == start by {}
            }
            if cells.len() > largest.len() {
                largest = cells;
                proof {
                    assert forall|r2: int| 0 <= r2 < start + 1 && #[trigger] self.is_root(r2) implies self.component(r2).len()
                        <= largest@.len() && (r2 < start ==> self.component(r2).len() < largest@.len()) by {
                        if r2 < start {
                            if old_largest.len() > 0 {
                                let r = choose|r: int|
                                    0 <= r < start && #[trigger] self.is_root(r) && old_largest[0] == r && cell_set(old_largest) == self.component(r)
                                        && (forall|r3: int|
                                        0 <= r3 < start && #[trigger] self.is_root(r3) ==> self.component(r3).len()
                                            <= old_largest.len() && (r3 < r ==> self.component(r3).len()
                                            < old_largest.len()));
                                assert(self.component(r2).len() <= old_largest.len());
                            } else {
                                self.lemma_num_roots_zero(start as int, r2);
                            }
                        }
                    }
                    assert(self.is_root(start as int));
                }
            } else {
                proof {
                    let r = choose|r: int|
                        0 <= r < start && #[trigger] self.is_root(r) && old_largest[0] == r && cell_set(old_largest) == self.component(r) && (forall|r3: int|
                            0 <= r3 < start && #[trigger] self.is_root(r3) ==> self.component(r3).len() <= old_largest.len()
                                && (r3 < r ==> self.component(r3).len() < old_largest.len()));
                    assert forall|r2: int| 0 <= r2 < start + 1 && #[trigger] self.is_root(r2) implies self.component(r2).len()
                        <= largest@.len() && (r2 < r ==> self.component(r2).len() < largest@.len()) by {}
                }
            }
            start = start + 1;
        }
        DryComponents { component_count, largest }
    }

    /// Collects, breadth first, the dry region of `start`, marking it visited.
    #[verifier::spinoff_prover]
    #[verifier::rlimit(60)]
    fn collect_component(&self, start: usize, visited: &mut Vec<u8>) -> (cells: Vec<usize>)
        requires
            self.wf(),
            start < self.size,
            is_open(self.blocked@, self.water@, start as int),
            old(visited)@.len() == self.size,
            old(visited)@[start as int] == 0,
            forall|i: int| 0 <= i < self.size && #[trigger] old(visited)@[i] != 0 ==> !self.dry_connected(start as int, i),
        ensures
            final(visited)@.len() == self.size,
            cells@.no_duplicates(),
            cells@.len() > 0 && cells@[0] == start,
            forall|i: int| 0 <= i < self.size ==> (#[trigger] final(visited)@[i] != 0) == (old(visited)@[i] != 0 || self.dry_connected(start as int, i)),
            forall|i: int| #[trigger] in_queue(cells@, i) == self.dry_connected(start as int, i),
            cells_breadth_first(self.width as int, self.size as int, cells@),
    {
        let ghost w = self.width as int;
        let ghost h = self.height as int;
        let ghost sz = self.size as int;
        let ghost ss = start as int;
        let ghost v0 = visited@;
        let mut cells: Vec<usize> = Vec::new();
        let mut queue: Vec<usize> = Vec::new();
        visited.set(start, 1);
        queue.push(start);
        let ghost mut parents: Seq<int> = seq![0int];
        proof {
            assert(is_walk(w, sz, self.blocked@, self.water@, seq![ss]));
            assert(self.dry_connected(ss, ss));
            assert(queue@[0] == start);
        }
        let mut head: usize = 0;
        while head < queue.len()
            invariant
                self.wf(),
                w == self.width && h == self.height && sz == self.size && ss == start,
                head <= queue@.len(),
                queue@.len() <= sz,
                queue@.len() > 0 && queue@[0] == start,
                visited@.len() == sz,
                cells@ == queue@.subrange(0, head as int),
                queue@.no_duplicates(),
                forall|k: int| 0 <= k < queue@.len() ==> #[trigger] queue@[k] < sz && is_open(self.blocked@, self.water@, queue@[k] as int)
                    && self.dry_connected(ss, queue@[k] as int),
                forall|i: int| 0 <= i < sz ==> (#[trigger] visited@[i] != 0) == (v0[i] != 0 || in_queue(queue@, i)),
                forall|i: int| 0 <= i < sz && #[trigger] v0[i] != 0 ==> !self.dry_connected(ss, i),
                forall|k: int, j: int|
                    0 <= k < head && #[trigger] adjacent(w, sz, queue@[k] as int, j) && is_open(self.blocked@, self.water@, j)
                        ==> visited@[j] != 0,
                parents.len() == queue@.len(),
                forall|m: int| 0 < m < queue@.len() ==> 0 <= #[trigger] parents[m] < head && parents[m] < m,
                forall|m: int| 0 < m < queue@.len() ==> adjacent(w, sz, queue@[#[trigger] parents[m]] as int, queue@[m] as int),
                forall|m: int, q: int|
                    #![trigger adjacent(w, sz, queue@[q] as int, queue@[m] as int)]
                    0 < m < queue@.len() && 0 <= q < parents[m] ==> !adjacent(w, sz, queue@[q] as int, queue@[m] as int),
                forall|m1: int, m2: int|
                    0 < m1 < m2 < queue@.len() ==> #[trigger] parents[m1] < #[trigger] parents[m2] || (parents[m1] == parents[m2]
                        && step_rank(w, queue@[parents[m1]] as int, queue@[m1] as int) < step_rank(
                        w,
                        queue@[parents[m2]] as int,
                        queue@[m2] as int,
                    )),
            decreases (sz - queue@.len()) * 5 + (queue@.len() - head),
        {
            let index = queue[head];
            cells.push(index);
            let ghost qa = queue@;
            let ghost va = visited@;
            self.visit_dry_neighbors(index, visited, &mut queue);
            let ghost qb = queue@;
            proof {
                let ci = index as int;
                assert(cells@ =~= qb.subrange(0, head + 1)) by {
                    assert(qb.subrange(0, qa.len() as int) == qa);
                    assert forall|m: int| 0 <= m < head implies qb[m] == qa[m] by {
                        assert(qb.subrange(0, qa.len() as int)[m] == qb[m]);
                    }
                    assert(qb.subrange(0, qa.len() as int)[head as int] == qb[head as int]);
                }
                assert(qb.subrange(0, qa.len() as int) == qa);
                assert forall|k: int| 0 <= k < qa.len() implies qb[k] == qa[k] by {
                    assert(qb.subrange(0, qa.len() as int)[k] == qb[k]);
                }
                assert forall|k: int| qa.len() <= k < qb.len() implies {
                    &&& #[trigger] qb[k] < sz
                    &&& is_open(self.blocked@, self.water@, qb[k] as int)
                    &&& self.dry_connected(ss, qb[k] as int)
                    &&& !in_queue(qa, qb[k] as int)
                } by {
                    let c = qb[k] as int;
                    assert(va[c] == 0);
                    self.lemma_connected_step(ss, ci, c);
                }
                assert forall|k: int| 0 <= k < qb.len() implies #[trigger] qb[k] < sz && is_open(self.blocked@, self.water@, qb[k] as int)
                    && self.dry_connected(ss, qb[k] as int) by {
                    if k < qa.len() {
                        assert(qb[k] == qa[k]);
                    }
                }
                assert(qb.no_duplicates()) by {
                    assert forall|k1: int, k2: int| 0 <= k1 < qb.len() && 0 <= k2 < qb.len() && k1 != k2 implies qb[k1]
                        != qb[k2] by {
                        if k1 < qa.len() && k2 < qa.len() {
                            assert(qb[k1] == qa[k1] && qb[k2] == qa[k2]);
                        } else if k1 < qa.len() {
                            assert(qb[k1] == qa[k1]);
                            assert(in_queue(qa, qa[k1] as int));
                        } else if k2 < qa.len() {
                            assert(qb[k2] == qa[k2]);
                            assert(in_queue(qa, qa[k2] as int));
                        }
                    }
                }
                lemma_distinct_below(qb, sz);
                assert forall|i: int| 0 <= i < sz implies (#[trigger] visited@[i] != 0) == (v0[i] != 0 || in_queue(qb, i)) by {
                    if in_queue(qa, i) {
                        let k = choose|k: int| 0 <= k < qa.len() && #[trigger] qa[k] == i;
                        assert(qb[k] == qa[k]);
                    }
                    if in_queue(qb, i) {
                        let k = choose|k: int| 0 <= k < qb.len() && #[trigger] qb[k] == i;
                        if k < qa.len() {
                            assert(qb[k] == qa[k]);
                        } else {
                            assert(visited@[i] != 0);
                        }
                    }
                    if visited@[i] != 0 && va[i] == 0 {
                        let k = choose|k: int| qa.len() <= k < qb.len() && #[trigger] qb[k] == i;
                    }
                }
                assert forall|k: int, j: int|
                    0 <= k < head + 1 && #[trigger] adjacent(w, sz, qb[k] as int, j) && is_open(self.blocked@, self.water@, j)
                        implies visited@[j] != 0 by {
                    if k < head {
                        assert(qb[k] == qa[k]);
                        assert(va[j] != 0);
                    } else {
                        assert(qb[k] == index);
                    }
                }
                let pa = parents;
                parents = pa + Seq::new((qb.len() - qa.len()) as nat, |t: int| head as int);
                assert(qb[head as int] == index);
                assert forall|m: int| 0 < m < qb.len() implies 0 <= #[trigger] parents[m] < head + 1 && parents[m] < m && adjacent(
                    w,
                    sz,
                    qb[parents[m]] as int,
                    qb[m] as int,
                ) by {
                    if m < qa.len() {
                        assert(parents[m] == pa[m]);
                        assert(qb[m] == qa[m]);
                        assert(qb[pa[m]] == qa[pa[m]]);
                    }
                }
                assert forall|m: int, q: int|
                    #![trigger adjacent(w, sz, qb[q] as int, qb[m] as int)]
                    0 < m < qb.len() && 0 <= q < parents[m] implies !adjacent(w, sz, qb[q] as int, qb[m] as int) by {
                    assert(qb[q] == qa[q]);
                    if m < qa.len() {
                        assert(parents[m] == pa[m]);
                        assert(qb[m] == qa[m]);
                    } else {
                        if adjacent(w, sz, qa[q] as int, qb[m] as int) {
                            assert(va[qb[m] as int] != 0);
                        }
                    }
                }
                assert forall|m1: int, m2: int|
                    0 < m1 < m2 < qb.len() implies #[trigger] parents[m1] < #[trigger] parents[m2] || (parents[m1] == parents[m2]
                        && step_rank(w, qb[parents[m1]] as int, qb[m1] as int) < step_rank(w, qb[parents[m2]] as int, qb[m2] as int)) by {
                    if m2 < qa.len() {
                        assert(parents[m1] == pa[m1] && parents[m2] == pa[m2]);
                        assert(qb[m1] == qa[m1] && qb[m2] == qa[m2]);
                        assert(qb[pa[m1]] == qa[pa[m1]] && qb[pa[m2]] == qa[pa[m2]]);
                    } else if m1 < qa.len() {
                        assert(parents[m1] == pa[m1]);
                    }
                }
            }
            head = head + 1;
        }
        proof {
            let q = queue@;
            assert(cells@ =~= q);
            assert(in_queue(q, ss));
            assert forall|m: int| 0 < m < q.len() implies #[trigger] first_adjacent(w, sz, q, m) == parents[m] by {
                lemma_first_adjacent_at(w, sz, q, m, 0, parents[m]);
            }
            assert forall|m1: int, m2: int|
                0 < m1 < m2 < q.len() implies #[trigger] first_adjacent(w, sz, q, m1) < #[trigger] first_adjacent(w, sz, q, m2)
                    || (first_adjacent(w, sz, q, m1) == first_adjacent(w, sz, q, m2) && step_rank(
                    w,
                    q[first_adjacent(w, sz, q, m1)] as int,
                    q[m1] as int,
                ) < step_rank(w, q[first_adjacent(w, sz, q, m2)] as int, q[m2] as int)) by {
                assert(first_adjacent(w, sz, q, m1) == parents[m1]);
                assert(first_adjacent(w, sz, q, m2) == parents[m2]);
            }
            assert forall|i: int| #[trigger] in_queue(cells@, i) == self.dry_connected(ss, i) by {
                if in_queue(q, i) {
                    let k = choose|k: int| 0 <= k < q.len() && #[trigger] q[k] == i;
                }
                if self.dry_connected(ss, i) {
                    let p = choose|p: Seq<int>|
                        #[trigger] is_walk(w, sz, self.blocked@, self.water@, p) && p[0] == ss && p.last() == i;
                    self.lemma_walk_collected(q, v0, visited@, p);
                }
            }
            assert forall|i: int| 0 <= i < sz implies (#[trigger] visited@[i] != 0) == (v0[i] != 0 || self.dry_connected(ss, i)) by {
                if in_queue(q, i) {
                    let k = choose|k: int| 0 <= k < q.len() && #[trigger] q[k] == i;
                }
                if self.dry_connected(ss, i) {
                    assert(in_queue(cells@, i));
                }
            }
        }
        cells
    }

    /// Marks and queues the dry, unvisited neighbours of cell `index`.
    #[verifier::spinoff_prover]
    #[verifier::rlimit(40)]
    fn visit_dry_neighbors(&self, index: usize, visited: &mut Vec<u8>, queue: &mut Vec<usize>)
        requires
            self.wf(),
            index < self.size,
            old(visited)@.len() == self.size,
        ensures
            final(visited)@.len() == self.size,
            final(queue)@.len() >= old(queue)@.len(),
            final(queue)@.subrange(0, old(queue)@.len() as int) == old(queue)@,
            forall|k: int|
                old(queue)@.len() <= k < final(queue)@.len() ==> {
                    &&& adjacent(self.width as int, self.size as int, index as int, #[trigger] final(queue)@[k] as int)
                    &&& is_open(self.blocked@, self.water@, final(queue)@[k] as int)
                    &&& old(visited)@[final(queue)@[k] as int] == 0
                },
            forall|k1: int, k2: int|
                old(queue)@.len() <= k1 < final(queue)@.len() && old(queue)@.len() <= k2 < final(queue)@.len() && k1
                    != k2 ==> #[trigger] final(queue)@[k1] != #[trigger] final(queue)@[k2],
            forall|i: int|
                0 <= i < self.size ==> (#[trigger] final(visited)@[i] != 0) == (old(visited)@[i] != 0 || exists|k: int|
                    old(queue)@.len() <= k < final(queue)@.len() && #[trigger] final(queue)@[k] == i),
            forall|j: int|
                0 <= j < self.size && adjacent(self.width as int, self.size as int, index as int, j)
                    && is_open(self.blocked@, self.water@, j) ==> #[trigger] final(visited)@[j] != 0,
            forall|k1: int, k2: int|
                old(queue)@.len() <= k1 < k2 < final(queue)@.len() ==> step_rank(
                    self.width as int,
                    index as int,
                    #[trigger] final(queue)@[k1] as int,
                ) < step_rank(self.width as int, index as int, #[trigger] final(queue)@[k2] as int),
    {
        let ghost q0 = queue@;
        let ghost v0 = visited@;
        let ghost w = self.width as int;
        let ghost h = self.height as int;
        let ghost sz = self.size as int;
        let ghost i = index as int;
        proof {
            lemma_cell(w, h, i);
        }
        let x = (index as i64) % self.width;
        let y = (index as i64) / self.width;
        let ghost n1 = y * w + x + 1;
        let ghost n2 = y * w + x - 1;
        let ghost n3 = (y + 1) * w + x;
        let ghost n4 = (y - 1) * w + x;
        let ghost in1 = x + 1 < w;
        let ghost in2 = x - 1 >= 0;
        let ghost in3 = y + 1 < h;
        let ghost in4 = y - 1 >= 0;
        proof {
            assert((y + 1) * w == y * w + w) by (nonlinear_arith);
            assert((y - 1) * w == y * w - w) by (nonlinear_arith);
            if in1 {
                lemma_neighbor_adjacent(w, h, i, x + 1, y as int);
            }
            if in2 {
                lemma_neighbor_adjacent(w, h, i, x - 1, y as int);
            }
            if in3 {
                lemma_neighbor_adjacent(w, h, i, x as int, y + 1);
            }
            if in4 {
                lemma_neighbor_adjacent(w, h, i, x as int, y - 1);
            }
            assert forall|j: int| adjacent(w, sz, i, j) implies (in1 && j == n1) || (in2 && j == n2) || (in3
                && j == n3) || (in4 && j == n4) by {
                lemma_adjacent_cases(w, h, i, j);
            }
        }
        if x + 1 < self.width {
            let n = grid_index(x + 1, y, self.width);
            self.visit_dry(n, visited, queue);
        }
        let ghost v1 = visited@;
        let ghost q1 = queue@;
        if x - 1 >= 0 {
            let n = grid_index(x - 1, y, self.width);
            self.visit_dry(n, visited, queue);
        }
        let ghost v2 = visited@;
        let ghost q2 = queue@;
        if y + 1 < self.height {
            let n = grid_index(x, y + 1, self.width);
            self.visit_dry(n, visited, queue);
        }
        let ghost v3 = visited@;
        let ghost q3 = queue@;
        if y - 1 >= 0 {
            let n = grid_index(x, y - 1, self.width);
            self.visit_dry(n, visited, queue);
        }
        proof {
            let q = queue@;
            assert(q.subrange(0, q0.len() as int) =~= q0);
            assert forall|k: int| q0.len() <= k < q.len() implies {
                &&& adjacent(w, sz, i, #[trigger] q[k] as int)
                &&& is_open(self.blocked@, self.water@, q[k] as int)
                &&& v0[q[k] as int] == 0
            } by {
                if k < q1.len() {
                    assert(q[k] == n1);
                } else if k < q2.len() {
                    assert(q[k] == n2);
                } else if k < q3.len() {
                    assert(q[k] == n3);
                } else {
                    assert(q[k] == n4);
                }
            }
            assert forall|k: int| q0.len() <= k < q.len() implies step_rank(w, i, #[trigger] q[k] as int) == if k < q1.len() {
                0int
            } else if k < q2.len() {
                1int
            } else if k < q3.len() {
                2int
            } else {
                3int
            } by {
                if k < q1.len() {
                    assert(q[k] == n1);
                } else if k < q2.len() {
                    assert(q[k] == n2);
                } else if k < q3.len() {
                    assert(q[k] == n3);
                } else {
                    assert(q[k] == n4);
                }
            }
            assert forall|i2: int| 0 <= i2 < sz implies (#[trigger] visited@[i2] != 0) == (v0[i2] != 0 || exists|k: int|
                q0.len() <= k < q.len() && #[trigger] q[k] == i2) by {
                if visited@[i2] != v0[i2] {
                    if v1[i2] != v0[i2] {
                        assert(q[q0.len() as int] == i2);
                    } else if v2[i2] != v1[i2] {
                        assert(q[q1.len() as int] == i2);
                    } else if v3[i2] != v2[i2] {
                        assert(q[q2.len() as int] == i2);
                    } else {
                        assert(q[q3.len() as int] == i2);
                    }
                }
                if exists|k: int| q0.len() <= k < q.len() && #[trigger] q[k] == i2 {
                    let k = choose|k: int| q0.len() <= k < q.len() && #[trigger] q[k] == i2;
                    if k < q1.len() {
                        assert(q[k] == n1);
                    } else if k < q2.len() {
                        assert(q[k] == n2);
                    } else if k < q3.len() {
                        assert(q[k] == n3);
                    } else {
                        assert(q[k] == n4);
                    }
                }
            }
        }
    }

    /// Marks and queues cell `n` if it is dry and not yet visited.
    fn visit_dry(&self, n: usize, visited: &mut Vec<u8>, queue: &mut Vec<usize>)
        requires
            self.wf(),
            n < self.size,
            old(visited)@.len() == self.size,
        ensures
            if is_open(self.blocked@, self.water@, n as int) && old(visited)@[n as int] == 0 {
                &&& final(visited)@ == old(visited)@.update(n as int, 1u8)
                &&& final(queue)@ == old(queue)@.push(n)
            } else {
                &&& final(visited)@ == old(visited)@
                &&& final(queue)@ == old(queue)@
            },
    {
        if self.blocked[n] == 0 && self.water[n] == 0 && visited[n] == 0 {
            visited.set(n, 1);
            queue.push(n);
        }
    }

    proof fn lemma_component_finite(&self, r: int)
        requires
            self.wf(),
        ensures
            self.component(r).finite(),
            self.component(r).subset_of(set_int_range(0, self.size as int)),
    {
        lemma_int_range(0, self.size as int);
        assert forall|j: int| self.component(r).contains(j) implies set_int_range(0, self.size as int).contains(j) by {
            self.lemma_connected_ends_dry(r, j);
        }
        lemma_len_subset(self.component(r), set_int_range(0, self.size as int));
    }

    /// Both ends of a dry walk are dry cells of the raster.
    proof fn lemma_connected_ends_dry(&self, i: int, j: int)
        requires
            self.dry_connected(i, j),
        ensures
            0 <= i < self.size,
            0 <= j < self.size,
            is_open(self.blocked@, self.water@, i),
            is_open(self.blocked@, self.water@, j),
    {
        let p = choose|p: Seq<int>|
            #[trigger] is_walk(self.width as int, self.size as int, self.blocked@, self.water@, p) && p[0] == i
                && p.last() == j;
        assert(p[0] == i);
        assert(p[p.len() - 1] == j);
    }

    /// Dry connection runs both ways.
    proof fn lemma_connected_symmetric(&self, i: int, j: int)
        requires
            self.dry_connected(i, j),
        ensures
            self.dry_connected(j, i),
    {
        let w = self.width as int;
        let sz = self.size as int;
        let p = choose|p: Seq<int>| #[trigger] is_walk(w, sz, self.blocked@, self.water@, p) && p[0] == i && p.last() == j;
        let r = p.reverse();
        assert(is_walk(w, sz, self.blocked@, self.water@, r)) by {
            assert forall|m: int| 0 <= m < r.len() - 1 implies adjacent(w, sz, #[trigger] r[m], r[m + 1]) by {
                let a = p.len() - 1 - m;
                assert(r[m] == p[a] && r[m + 1] == p[a - 1]);
                assert(adjacent(w, sz, p[a - 1], p[a]));
                lemma_adjacent_symmetric(w, sz, p[a - 1], p[a]);
            }
            assert forall|m: int| 0 <= m < r.len() implies 0 <= #[trigger] r[m] < sz && is_open(self.blocked@, self.water@, r[m]) by {
                assert(r[m] == p[p.len() - 1 - m]);
            }
        }
        assert(r[0] == j && r.last() == i);
    }

    /// Dry connection chains.
    proof fn lemma_connected_transitive(&self, i: int, j: int, k: int)
        requires
            self.dry_connected(i, j),
            self.dry_connected(j, k),
        ensures
            self.dry_connected(i, k),
    {
        let w = self.width as int;
        let sz = self.size as int;
        let p = choose|p: Seq<int>| #[trigger] is_walk(w, sz, self.blocked@, self.water@, p) && p[0] == i && p.last() == j;
        let p2 = choose|p: Seq<int>| #[trigger] is_walk(w, sz, self.blocked@, self.water@, p) && p[0] == j && p.last() == k;
        let c = p + p2.drop_first();
        assert(is_walk(w, sz, self.blocked@, self.water@, c)) by {
            assert forall|m: int| 0 <= m < c.len() implies 0 <= #[trigger] c[m] < sz && is_open(self.blocked@, self.water@, c[m]) by {
                if m < p.len() {
                    assert(c[m] == p[m]);
                } else {
                    assert(c[m] == p2[m - p.len() + 1]);
                }
            }
            assert forall|m: int| 0 <= m < c.len() - 1 implies adjacent(w, sz, #[trigger] c[m], c[m + 1]) by {
                if m < p.len() - 1 {
                    assert(c[m] == p[m] && c[m + 1] == p[m + 1]);
                } else if m == p.len() - 1 {
                    assert(c[m] == p[m] && c[m + 1] == p2[1]);
                    assert(p2[0] == p[m]);
                    assert(adjacent(w, sz, p2[0], p2[1]));
                } else {
                    assert(c[m] == p2[m - p.len() + 1] && c[m + 1] == p2[m - p.len() + 2]);
                }
            }
        }
        if p2.len() == 1 {
            assert(c =~= p);
        } else {
            assert(c.last() == p2.last());
        }
    }

    /// A walk from `i` to a dry neighbour of its end reaches that neighbour.
    proof fn lemma_connected_step(&self, i: int, j: int, k: int)
        requires
            self.dry_connected(i, j),
            adjacent(self.width as int, self.size as int, j, k),
            is_open(self.blocked@, self.water@, k),
        ensures
            self.dry_connected(i, k),
    {
        let w = self.width as int;
        let sz = self.size as int;
        let p = seq![j, k];
        assert(is_walk(w, sz, self.blocked@, self.water@, p)) by {
            self.lemma_connected_ends_dry(i, j);
        }
        assert(self.dry_connected(j, k));
        self.lemma_connected_transitive(i, j, k);
    }

    /// A dry cell starts a new region exactly when no cell below it is joined to it.
    proof fn lemma_root_iff_unvisited(&self, s: int, v: Seq<u8>)
        requires
            self.wf(),
            0 <= s < self.size,
            v.len() == self.size,
            forall|i: int| 0 <= i < self.size ==> (#[trigger] v[i] != 0) == (is_open(self.blocked@, self.water@, i)
                && exists|j: int| 0 <= j < s && #[trigger] self.dry_connected(i, j)),
        ensures
            self.is_root(s) == (is_open(self.blocked@, self.water@, s) && v[s] == 0),
            is_open(self.blocked@, self.water@, s) && v[s] == 0 ==> forall|i: int|
                0 <= i < self.size && #[trigger] v[i] != 0 ==> !self.dry_connected(s, i),
    {
        if is_open(self.blocked@, self.water@, s) && v[s] == 0 {
            assert forall|i: int| 0 <= i < self.size && #[trigger] v[i] != 0 implies !self.dry_connected(s, i) by {
                if self.dry_connected(s, i) {
                    let j = choose|j: int| 0 <= j < s && #[trigger] self.dry_connected(i, j);
                    self.lemma_connected_transitive(s, i, j);
                    assert(v[s] != 0);
                }
            }
        }
    }

    /// A dry walk from the start of a search stays among the collected cells.
    proof fn lemma_walk_collected(&self, q: Seq<usize>, v0: Seq<u8>, v: Seq<u8>, p: Seq<int>)
        requires
            self.wf(),
            is_walk(self.width as int, self.size as int, self.blocked@, self.water@, p),
            in_queue(q, p[0]),
            v.len() == self.size,
            forall|k: int| 0 <= k < q.len() ==> #[trigger] q[k] < self.size && self.dry_connected(p[0], q[k] as int),
            forall|i: int| 0 <= i < self.size ==> (#[trigger] v[i] != 0) == (v0[i] != 0 || in_queue(q, i)),
            forall|i: int| 0 <= i < self.size && #[trigger] v0[i] != 0 ==> !self.dry_connected(p[0], i),
            forall|k: int, j: int|
                0 <= k < q.len() && #[trigger] adjacent(self.width as int, self.size as int, q[k] as int, j)
                    && is_open(self.blocked@, self.water@, j) ==> v[j] != 0,
        ensures
            in_queue(q, p.last()),
        decreases p.len(),
    {
        let w = self.width as int;
        let sz = self.size as int;
        if p.len() > 1 {
            let p1 = p.drop_last();
            assert(is_walk(w, sz, self.blocked@, self.water@, p1)) by {
                assert forall|m: int| 0 <= m < p1.len() - 1 implies adjacent(w, sz, #[trigger] p1[m], p1[m + 1]) by {
                    assert(p1[m] == p[m] && p1[m + 1] == p[m + 1]);
                    assert(adjacent(w, sz, p[m], p[m + 1]));
                }
                assert forall|m: int| 0 <= m < p1.len() implies 0 <= #[trigger] p1[m] < sz && is_open(self.blocked@, self.water@, p1[m]) by {
                    assert(p1[m] == p[m]);
                }
            }
            self.lemma_walk_collected(q, v0, v, p1);
            let last = p1.last();
            let k = choose|k: int| 0 <= k < q.len() && #[trigger] q[k] == last;
            let nxt = p[p.len() - 1];
            assert(adjacent(w, sz, p[p.len() - 2], nxt));
            assert(is_open(self.blocked@, self.water@, nxt));
            assert(adjacent(w, sz, q[k] as int, nxt));
            assert(v[nxt] != 0);
            if v0[nxt] != 0 {
                assert(self.dry_connected(p[0], last));
                self.lemma_connected_step(p[0], last, nxt);
            }
        }
    }

    /// The length of the cells collected from a root is the size of its region.
    proof fn lemma_cells_len(&self, cells: Seq<usize>, r: int)
        requires
            self.wf(),
            cells.no_duplicates(),
            forall|i: int| #[trigger] in_queue(cells, i) == self.dry_connected(r, i),
        ensures
            cell_set(cells) == self.component(r),
            self.component(r).len() == cells.len(),
    {
        assert(cell_set(cells) =~= self.component(r));
        let ci = cells.map_values(|v: usize| v as int);
        assert(ci.no_duplicates()) by {
            assert forall|a: int, b: int| 0 <= a < ci.len() && 0 <= b < ci.len() && a != b implies ci[a] != ci[b] by {
                assert(cells[a] != cells[b]);
            }
        }
        ci.unique_seq_to_set();
        assert(ci.to_set() =~= cell_set(cells)) by {
            assert forall|v: int| ci.to_set().contains(v) implies cell_set(cells).contains(v) by {
                let k = choose|k: int| 0 <= k < ci.len() && ci[k] == v;
                assert(cells[k] == v);
            }
            assert forall|v: int| cell_set(cells).contains(v) implies ci.to_set().contains(v) by {
                let k = choose|k: int| 0 <= k < cells.len() && #[trigger] cells[k] == v;
                assert(ci[k] == v);
            }
        }
    }

    /// Without roots below `n`, no cell below `n` is a root.
    proof fn lemma_num_roots_zero(&self, n: int, r: int)
        requires
            self.num_roots(n) == 0,
            0 <= r < n,
        ensures
            !self.is_root(r),
        decreases n,
    {
        if r < n - 1 {
            self.lemma_num_roots_zero(n - 1, r);
        }
    }
}

/// The outside edge of a flooded raster: its edge cells in row-major order,
/// and the strokes whose ink covers any of them, in increasing order.
pub struct OutsideEdge {
    pub cells: Vec<usize>,
    pub stroke_ids: Vec<usize>,
}

impl Raster {
    /// Marks cell (`x`, `y`) as ink of stroke `stroke`; cells off the raster
    /// are ignored.
    pub fn mark_blocked_cell(&mut self, x: i64, y: i64, stroke: usize)
        requires
            old(self).wf(),
        ensures
            final(self).wf(),
            final(self).width == old(self).width,
            final(self).height == old(self).height,
            final(self).size == old(self).size,
            final(self).water@ == old(self).water@,
            final(self).outside_edge@ == old(self).outside_edge@,
            !(0 <= x < old(self).width && 0 <= y < old(self).height) ==> {
                &&& final(self).blocked@ == old(self).blocked@
                &&& final(self).stroke_ids_by_cell@ == old(self).stroke_ids_by_cell@
            },
            0 <= x < old(self).width && 0 <= y < old(self).height ==> {
                let i = y * old(self).width + x;
                let before = old(self).stroke_ids_by_cell@[i]@;
                &&& final(self).blocked@ == old(self).blocked@.update(i, 1u8)
                &&& final(self).stroke_ids_by_cell@.len() == old(self).size
                &&& forall|k: int| 0 <= k < old(self).size && k != i ==> #[trigger] final(self).stroke_ids_by_cell@[k]
                    == old(self).stroke_ids_by_cell@[k]
                &&& final(self).stroke_ids_by_cell@[i]@ == if before.contains(stroke) {
                    before
                } else {
                    before.push(stroke)
                }
            },
    {
        if x < 0 || y < 0 || x >= self.width || y >= self.height {
            return;
        }
        proof {
            assert(y * self.width + x < self.width * self.height) by (nonlinear_arith)
                requires
                    0 <= x < self.width,
                    0 <= y < self.height,
            {
                assert(y * self.width <= (self.height - 1) * self.width);
            }
        }
        let index = grid_index(x, y, self.width);
        self.blocked.set(index, 1);
        let present = contains_id(&self.stroke_ids_by_cell[index], stroke);
        if !present {
            self.stroke_ids_by_cell[index].push(stroke);
        }
    }

    /// Collects the outside-edge cells and the strokes that cover them.
    pub fn collect_outside_edge(&self) -> (edge: OutsideEdge)
        requires
            self.wf(),
        ensures
            forall|a: int, b: int| 0 <= a < b < edge.cells@.len() ==> edge.cells@[a] < edge.cells@[b],
            forall|i: int|
                0 <= i < self.size ==> (self.outside_edge@[i] != 0) == #[trigger] in_queue(edge.cells@, i),
            forall|k: int| 0 <= k < edge.cells@.len() ==> #[trigger] edge.cells@[k] < self.size,
            strictly_increasing(edge.stroke_ids@),
            forall|s: usize|
                #[trigger] edge.stroke_ids@.contains(s) == exists|i: int|
                    0 <= i < self.size && self.outside_edge@[i] != 0 && #[trigger] self.stroke_ids_by_cell@[i]@.contains(s),
    {
        let mut cells: Vec<usize> = Vec::new();
        let mut ids: Vec<usize> = Vec::new();
        let mut index: usize = 0;
        while index < self.size
            invariant
                self.wf(),
                index <= self.size,
                forall|a: int, b: int| 0 <= a < b < cells@.len() ==> cells@[a] < cells@[b],
                forall|k: int| 0 <= k < cells@.len() ==> #[trigger] cells@[k] < index,
                forall|i: int|
                    0 <= i < index ==> (self.outside_edge@[i] != 0) == #[trigger] in_queue(cells@, i),
                strictly_increasing(ids@),
                forall|s: usize|
                    #[trigger] ids@.contains(s) == exists|i: int|
                        0 <= i < index && self.outside_edge@[i] != 0 && #[trigger] self.stroke_ids_by_cell@[i]@.contains(s),
            decreases self.size - index,
        {
            let ghost c0 = cells@;
            let ghost ids0 = ids@;
            if self.outside_edge[index] != 0 {
                cells.push(index);
                let cell_ids = &self.stroke_ids_by_cell[index];
                let mut k: usize = 0;
                while k < cell_ids.len()
                    invariant
                        k <= cell_ids@.len(),
                        cell_ids@ == self.stroke_ids_by_cell@[index as int]@,
                        strictly_increasing(ids@),
                        forall|s: usize|
                            #[trigger] ids@.contains(s) == (ids0.contains(s) || exists|m: int|
                                0 <= m < k && cell_ids@[m] == s),
                    decreases cell_ids@.len() - k,
                {
                    let s = cell_ids[k];
                    insert_sorted(&mut ids, s);
                    proof {
                        assert forall|s2: usize| #[trigger] ids@.contains(s2) == (ids0.contains(s2) || exists|m2: int|
                            0 <= m2 < k + 1 && cell_ids@[m2] == s2) by {
                            if s2 == s {
                                assert(cell_ids@[k as int] == s);
                            }
                            if exists|m2: int| 0 <= m2 < k + 1 && cell_ids@[m2] == s2 {
                                let m2 = choose|m2: int| 0 <= m2 < k + 1 && cell_ids@[m2] == s2;
                            }
                        }
                    }
                    k = k + 1;
                }
            }
            proof {
                assert forall|i: int| 0 <= i < index + 1 implies (self.outside_edge@[i] != 0) == #[trigger] in_queue(cells@, i) by {
                    if in_queue(cells@, i) {
                        let k = choose|k: int| 0 <= k < cells@.len() && #[trigger] cells@[k] == i;
                        if k < c0.len() {
                            assert(cells@[k] == c0[k]);
                        }
                    }
                    if i < index && in_queue(c0, i) {
                        let k = choose|k: int| 0 <= k < c0.len() && #[trigger] c0[k] == i;
                        assert(cells@[k] == c0[k]);
                    }
                    if i == index && self.outside_edge@[i] != 0 {
                        assert(cells@[c0.len() as int] == index);
                    }
                }
                assert forall|s: usize|
                    #[trigger] ids@.contains(s) == exists|i: int|
                        0 <= i < index + 1 && self.outside_edge@[i] != 0 && #[trigger] self.stroke_ids_by_cell@[i]@.contains(s) by {
                    if self.outside_edge@[index as int] != 0 {
                        let cur = self.stroke_ids_by_cell@[index as int]@;
                        if cur.contains(s) {
                            let m = choose|m: int| 0 <= m < cur.len() && cur[m] == s;
                        }
                    }
                    if exists|i: int| 0 <= i < index + 1 && self.outside_edge@[i] != 0 && #[trigger] self.stroke_ids_by_cell@[i]@.contains(s) {
                        let i = choose|i: int| 0 <= i < index + 1 && self.outside_edge@[i] != 0 && #[trigger] self.stroke_ids_by_cell@[i]@.contains(s);
                        if i == index {
                            let cur = self.stroke_ids_by_cell@[index as int]@;
                            let m = choose|m: int| 0 <= m < cur.len() && cur[m] == s;
                        }
                    }
                }
            }
            index = index + 1;
        }
        OutsideEdge { cells, stroke_ids: ids }
    }
}

/// The entries of `ids` rise strictly.
pub open spec fn strictly_increasing(ids: Seq<usize>) -> bool {
    forall|a: int, b: int| 0 <= a < b < ids.len() ==> ids[a] < ids[b]
}

/// Puts `id` into the strictly rising `ids`, unless it is there already.
fn insert_sorted(ids: &mut Vec<usize>, id: usize)
    requires
        strictly_increasing(old(ids)@),
    ensures
        strictly_increasing(final(ids)@),
        forall|x: usize| #[trigger] final(ids)@.contains(x) == (old(ids)@.contains(x) || x == id),
{
    let ghost s0 = ids@;
    let mut k: usize = 0;
    while k < ids.len() && ids[k] < id
        invariant
            ids@ == s0,
            k <= s0.len(),
            forall|m: int| 0 <= m < k ==> s0[m] < id,
        decreases s0.len() - k,
    {
        k = k + 1;
    }
    if k < ids.len() && ids[k] == id {
        assert(s0[k as int] == id);
        return;
    }
    ids.insert(k, id);
    proof {
        s0.insert_ensures(k as int, id);
        let s1 = ids@;
        assert forall|a: int, b: int| 0 <= a < b < s1.len() implies s1[a] < s1[b] by {
            if b < k {
            } else if b == k {
            } else if a < k {
                assert(s1[b] == s0[b - 1]);
                assert(s0[k as int] > id);
                assert(s0[k as int] <= s0[b - 1]);
            } else if a == k {
                assert(s1[b] == s0[b - 1]);
                assert(s0[k as int] > id);
                assert(s0[k as int] <= s0[b - 1]);
            } else {
                assert(s1[a] == s0[a - 1]);
                assert(s1[b] == s0[b - 1]);
            }
        }
        assert forall|x: usize| #[trigger] s1.contains(x) == (s0.contains(x) || x == id) by {
            if s1.contains(x) {
                let m = choose|m: int| 0 <= m < s1.len() && s1[m] == x;
                if m < k {
                    assert(s0[m] == x);
                } else if m > k {
                    assert(s0[m - 1] == x);
                }
            }
            if s0.contains(x) {
                let m = choose|m: int| 0 <= m < s0.len() && s0[m] == x;
                if m < k {
                    assert(s1[m] == x);
                } else {
                    assert(s1[m + 1] == x);
                }
            }
            if x == id {
                assert(s1[k as int] == id);
            }
        }
    }
}

/// `ids` holds `id`.
fn contains_id(ids: &Vec<usize>, id: usize) -> (found: bool)
    ensures
        found == ids@.contains(id),
{
    let mut k: usize = 0;
    while k < ids.len()
        invariant
            k <= ids@.len(),
            forall|m: int| 0 <= m < k ==> ids@[m] != id,
        decreases ids@.len() - k,
    {
        if ids[k] == id {
            return true;
        }
        k = k + 1;
    }
    false
}

/// Adds up the entries of a mask.
pub fn count_cells(mask: &[u8]) -> (count: usize)
    requires
        mask_sum(mask@) <= usize::MAX,
    ensures
        count == mask_sum(mask@),
{
    let mut count: usize = 0;
    let mut i: usize = 0;
    while i < mask.len()
        invariant
            i <= mask@.len(),
            count == mask_sum(mask@.subrange(0, i as int)),
            mask_sum(mask@) <= usize::MAX,
        decreases mask@.len() - i,
    {
        proof {
            assert(mask@.subrange(0, i + 1).drop_last() =~= mask@.subrange(0, i as int));
            lemma_mask_sum_prefix(mask@, i + 1);
        }
        count = count + mask[i] as usize;
        i = i + 1;
    }
    proof {
        assert(mask@.subrange(0, i as int) =~= mask@);
    }
    count
}

/// The sum of a prefix of a mask is at most the sum of the whole mask.
pub proof fn lemma_mask_sum_prefix(mask: Seq<u8>, n: int)
    requires
        0 <= n <= mask.len(),
    ensures
        mask_sum(mask.subrange(0, n)) <= mask_sum(mask),
    decreases mask.len(),
{
    if n < mask.len() {
        assert(mask.drop_last().subrange(0, n) =~= mask.subrange(0, n));
        lemma_mask_sum_prefix(mask.drop_last(), n);
    } else {
        assert(mask.subrange(0, n) =~= mask);
    }
}

/// Water stops only at ink: every empty cell of the outer frame floods, and
/// an empty cell next to a flooded cell floods too. The cells left dry are
/// therefore sealed off from the frame by ink.
pub proof fn lemma_flood_stops_only_at_ink(r: &Raster, i: int, j: int)
    requires
        r.wf(),
        0 <= j < r.size,
        is_open(r.blocked@, r.water@, j),
    ensures
        on_border(r.width as int, r.height as int, j) ==> r.floods(j),
        r.floods(i) && adjacent(r.width as int, r.size as int, i, j) ==> r.floods(j),
{
    let w = r.width as int;
    let sz = r.size as int;
    if on_border(w, r.height as int, j) {
        assert(is_walk(w, sz, r.blocked@, r.water@, seq![j]));
    }
    if r.floods(i) && adjacent(w, sz, i, j) {
        let p = choose|p: Seq<int>|
            #[trigger] is_walk(w, sz, r.blocked@, r.water@, p) && on_border(w, r.height as int, p[0]) && p.last() == i;
        let p2 = p.push(j);
        assert(is_walk(w, sz, r.blocked@, r.water@, p2)) by {
            assert forall|m: int| 0 <= m < p2.len() - 1 implies adjacent(w, sz, #[trigger] p2[m], p2[m + 1]) by {
                if m < p.len() - 1 {
                    assert(p2[m] == p[m] && p2[m + 1] == p[m + 1]);
                }
            }
        }
        assert(p2[0] == p[0]);
    }
}

/// Dry regions do not touch: two adjacent dry cells lie in one region.
pub proof fn lemma_dry_neighbors_share_region(r: &Raster, i: int, j: int)
    requires
        r.wf(),
        0 <= i < r.size,
        is_open(r.blocked@, r.water@, i),
        is_open(r.blocked@, r.water@, j),
        adjacent(r.width as int, r.size as int, i, j),
    ensures
        r.component(i) == r.component(j),
{
    let w = r.width as int;
    let sz = r.size as int;
    assert(is_walk(w, sz, r.blocked@, r.water@, seq![i, j]));
    assert(r.dry_connected(i, j));
    r.lemma_connected_symmetric(i, j);
    assert forall|k: int| r.component(i).contains(k) == r.component(j).contains(k) by {
        if r.dry_connected(i, k) {
            r.lemma_connected_transitive(j, i, k);
        }
        if r.dry_connected(j, k) {
            r.lemma_connected_transitive(i, j, k);
        }
    }
    assert(r.component(i) =~= r.component(j));
}

/// Row-major index of the cell at column `x`, row `y`.
pub fn grid_index(x: i64, y: i64, width: i64) -> (index: usize)
    requires
        0 <= x < width,
        0 <= y,
        y * width + x <= i64::MAX,
        y * width + x <= usize::MAX,
    ensures
        index == y * width + x,
        index as int % width as int == x,
        index as int / width as int == y,
{
    proof {
        lemma_coords(width as int, x as int, y as int);
        assert(y * width >= 0) by (nonlinear_arith)
            requires
                y >= 0,
                width >= 0,
        ;
    }
    (y * width + x) as usize
}

proof fn lemma_coords(w: int, x: int, y: int)
    requires
        0 <= x < w,
        0 <= y,
    ensures
        (y * w + x) % w == x,
        (y * w + x) / w == y,
{
    lemma_fundamental_div_mod_converse(y * w + x, w, y, x);
}

/// Column, row and bounds of a cell index.
proof fn lemma_cell(w: int, h: int, i: int)
    requires
        w >= 1,
        h >= 1,
        0 <= i < w * h,
    ensures
        0 <= i % w < w,
        0 <= i / w < h,
        i == (i / w) * w + i % w,
{
    lemma_fundamental_div_mod(i, w);
    assert(0 <= i % w < w) by {
        vstd::arithmetic::div_mod::lemma_mod_pos_bound(i, w);
    }
    assert((i / w) * w == w * (i / w)) by (nonlinear_arith);
    let q = i / w;
    let r = i % w;
    assert(q >= 0 && q < h) by (nonlinear_arith)
        requires
            i == q * w + r,
            0 <= r < w,
            0 <= i < w * h,
            w >= 1,
    {
        if q < 0 {
            assert(q * w <= -w);
        }
        if q >= h {
            assert(q * w >= h * w);
        }
    }
}

/// The cells adjacent to cell `i` are exactly its in-grid neighbours at
/// column/row offsets (1,0), (-1,0), (0,1) and (0,-1).
proof fn lemma_adjacent_cases(w: int, h: int, i: int, j: int)
    requires
        w >= 1,
        h >= 1,
        0 <= i < w * h,
        adjacent(w, w * h, i, j),
    ensures
        ({
            let x = i % w;
            let y = i / w;
            ||| (x + 1 < w && j == y * w + x + 1)
            ||| (x - 1 >= 0 && j == y * w + x - 1)
            ||| (y + 1 < h && j == (y + 1) * w + x)
            ||| (y - 1 >= 0 && j == (y - 1) * w + x)
        }),
{
    lemma_cell(w, h, i);
    lemma_cell(w, h, j);
    let x = i % w;
    let y = i / w;
    assert((y + 1) * w == y * w + w) by (nonlinear_arith);
    assert((y - 1) * w == y * w - w) by (nonlinear_arith);
    let xj = j % w;
    let yj = j / w;
    assert((yj + 1) * w == yj * w + w) by (nonlinear_arith);
    assert((yj - 1) * w == yj * w - w) by (nonlinear_arith);
}

/// The neighbour at column `x2`, row `y2` of cell `i` (at `x`, `y`) is adjacent to it.
proof fn lemma_neighbor_adjacent(w: int, h: int, i: int, x2: int, y2: int)
    requires
        w >= 1,
        h >= 1,
        0 <= i < w * h,
        0 <= x2 < w,
        0 <= y2 < h,
        ({
            let x = i % w;
            let y = i / w;
            (x2 == x && (y2 == y + 1 || y == y2 + 1)) || (y2 == y && (x2 == x + 1 || x == x2 + 1))
        }),
    ensures
        adjacent(w, w * h, i, y2 * w + x2),
        0 <= y2 * w + x2 < w * h,
{
    lemma_cell(w, h, i);
    lemma_coords(w, x2, y2);
    assert(0 <= y2 * w + x2 < w * h) by (nonlinear_arith)
        requires
            0 <= x2 < w,
            0 <= y2 < h,
    {
        assert(y2 * w <= (h - 1) * w);
    }
}

/// Adjacency does not depend on the order of the two cells.
proof fn lemma_adjacent_symmetric(w: int, size: int, i: int, j: int)
    ensures
        adjacent(w, size, i, j) == adjacent(w, size, j, i),
{
}

/// A sequence of distinct naturals below `n` holds at most `n` of them.
pub proof fn lemma_distinct_below(q: Seq<usize>, n: int)
    requires
        q.no_duplicates(),
        0 <= n,
        forall|k: int| 0 <= k < q.len() ==> q[k] < n,
    ensures
        q.len() <= n,
{
    let qi = q.map_values(|v: usize| v as int);
    assert(qi.no_duplicates()) by {
        assert forall|a: int, b: int| 0 <= a < qi.len() && 0 <= b < qi.len() && a != b implies qi[a]
            != qi[b] by {
            assert(q[a] != q[b]);
        }
    }
    qi.unique_seq_to_set();
    lemma_int_range(0, n);
    assert(qi.to_set().subset_of(set_int_range(0, n))) by {
        assert forall|v: int| qi.to_set().contains(v) implies set_int_range(0, n).contains(v) by {
            let k = choose|k: int| 0 <= k < qi.len() && qi[k] == v;
            assert(q[k] < n);
        }
    }
    lemma_len_subset(qi.to_set(), set_int_range(0, n));
}

} // verus!

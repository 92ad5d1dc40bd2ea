//! Where an image has detail: gradient energy per block and per row, the
//! integer part of the saliency map that steers watermark placement.
use vstd::prelude::*;
use vstd::arithmetic::div_mod::lemma_fundamental_div_mod;
use vstd::relations::{sorted_by, total_ordering};
use crate::pixmap::Pixmap;

verus! {

pub open spec fn abs_diff(a: u8, b: u8) -> int {
    if a >= b {
        a - b
    } else {
        b - a
    }
}

/// Sum of absolute differences of the red, green and blue channels.
pub open spec fn rgb_distance(a: [u8; 4], b: [u8; 4]) -> int {
    abs_diff(a[0], b[0]) + abs_diff(a[1], b[1]) + abs_diff(a[2], b[2])
}

/// Gradient energy of pixel `i` of a `w`-wide image: its distance to the
/// pixel on its left plus its distance to the pixel above (each when there is
/// one).
pub open spec fn gradient_at(p: Seq<[u8; 4]>, w: nat, i: int) -> int {
    let x = i % (w as int);
    let y = i / (w as int);
    (if x > 0 {
        rgb_distance(p[i], p[i - 1])
    } else {
        0
    }) + (if y > 0 {
        rgb_distance(p[i], p[i - w])
    } else {
        0
    })
}

/// Side of the square blocks: a 48th of the shorter side, within 8..=64.
pub open spec fn block_side(w: nat, h: nat) -> nat {
    let m = if w < h {
        w
    } else {
        h
    };
    let b = m / 48;
    if b < 8 {
        8
    } else if b > 64 {
        64
    } else {
        b
    }
}

/// Number of blocks covering `len` pixels, at least one.
pub open spec fn block_count(len: nat, side: nat) -> nat {
    let c = (len + side - 1) / (side as int);
    if c < 1 {
        1
    } else {
        c as nat
    }
}

/// Block of pixel `i` in a grid of `cols` x `rows` blocks of side `side`.
pub open spec fn block_of(w: nat, side: nat, cols: nat, rows: nat, i: int) -> int {
    let bx = (i % (w as int)) / (side as int);
    let by = (i / (w as int)) / (side as int);
    let col = if bx < cols - 1 {
        bx
    } else {
        cols - 1
    };
    let row = if by < rows - 1 {
        by
    } else {
        rows - 1
    };
    row * cols + col
}

/// Gradient energy of block `b` over the first `k` pixels.
pub open spec fn energy_upto(p: Seq<[u8; 4]>, w: nat, side: nat, cols: nat, rows: nat, b: int, k: int) -> int
    decreases k,
{
    if k <= 0 {
        0
    } else {
        energy_upto(p, w, side, cols, rows, b, k - 1) + if block_of(w, side, cols, rows, k - 1)
            == b {
            gradient_at(p, w, k - 1)
        } else {
            0
        }
    }
}

/// Gradient energy summed per block over a `width` x `height` image: blocks
/// of `side` pixels, `cols` x `rows` of them, energies in row-major block
/// order.
pub struct BlockEnergy {
    pub width: u32,
    pub height: u32,
    pub side: u32,
    pub cols: u32,
    pub rows: u32,
    pub energy: Vec<u128>,
}

impl BlockEnergy {
    /// Energies of an image's blocks: the block grid the saliency map uses
    /// and, per block, the sum of the gradient energy of its pixels.
    pub fn of_image(img: &Pixmap) -> (be: BlockEnergy)
        requires
            img.wf(),
        ensures
            be.width == img.spec_width(),
            be.height == img.spec_height(),
            be.side == block_side(img.spec_width(), img.spec_height()),
            be.cols == block_count(img.spec_width(), be.side as nat),
            be.rows == block_count(img.spec_height(), be.side as nat),
            be.energy@.len() == be.cols * be.rows,
            forall|b: int|
                0 <= b < be.energy@.len() ==> #[trigger] be.energy@[b] == energy_upto(
                    img@,
                    img.spec_width(),
                    be.side as nat,
                    be.cols as nat,
                    be.rows as nat,
                    b,
                    img@.len() as int,
                ),
    {
        let w = img.width();
        let h = img.height();
        let m = if w < h {
            w
        } else {
            h
        };
        let side = if m / 48 < 8 {
            8
        } else if m / 48 > 64 {
            64
        } else {
            m / 48
        };
        assert(8 <= side <= 64);
        assert(w / side < 0xffff_ffff && h / side < 0xffff_ffff) by (nonlinear_arith)
            requires
                side >= 8,
                w <= 0xffff_ffff,
                h <= 0xffff_ffff,
        ;
        let cw = w / side + if w % side == 0 {
            0
        } else {
            1
        };
        let ch = h / side + if h % side == 0 {
            0
        } else {
            1
        };
        proof {
            lemma_ceil_div(w as nat, side as nat);
            lemma_ceil_div(h as nat, side as nat);
        }
        let cols = if cw < 1 {
            1
        } else {
            cw
        };
        let rows = if ch < 1 {
            1
        } else {
            ch
        };
        let n = img.pixel_count();
        assert(n == w as nat * h as nat);
        let nblocks = (cols as usize).checked_mul(rows as usize);
        // The grid has no more blocks than there are pixels, plus one row
        // and one column.
        let nblocks = match nblocks {
            Some(v) => v,
            None => {
                proof {
                    lemma_block_grid_fits(w as nat, h as nat, cols as nat, rows as nat);
                }
                0
            },
        };
        let mut energy: Vec<u128> = Vec::new();
        let mut b: usize = 0;
        while b < nblocks
            invariant
                b <= nblocks,
                energy@.len() == b,
                forall|j: int| 0 <= j < b ==> #[trigger] energy@[j] == 0,
            decreases nblocks - b,
        {
            energy.push(0);
            b = b + 1;
        }
        let ghost p = img@;
        let ghost (wn, sn, cn, rn) = (w as nat, side as nat, cols as nat, rows as nat);
        let wu = w as usize;
        let mut i: usize = 0;
        while i < n
            invariant
                p == img@,
                n == p.len(),
                n == w as nat * h as nat,
                wn == w,
                sn == side,
                cn == cols,
                rn == rows,
                8 <= side <= 64,
                cols >= 1,
                rows >= 1,
                wu == w,
                nblocks == cols as nat * rows as nat,
                energy@.len() == nblocks,
                i <= n,
                forall|j: int|
                    0 <= j < nblocks ==> #[trigger] energy@[j] == energy_upto(p, wn, sn, cn, rn, j, i as int),
                forall|j: int| 0 <= j < nblocks ==> #[trigger] energy@[j] <= 1530 * i,
            decreases n - i,
        {
            proof {
                lemma_pixel_coords(i as int, wn, h as nat);
            }
            let x = i % wu;
            let y = i / wu;
            let px = img.pixel_at(i);
            let mut grad: u32 = 0;
            if x > 0 {
                grad = grad + distance(px, img.pixel_at(i - 1));
            }
            if y > 0 {
                proof {
                    assert(i >= wu) by (nonlinear_arith)
                        requires
                            i == wu * y + x,
                            y > 0,
                    ;
                }
                grad = grad + distance(px, img.pixel_at(i - wu));
            }
            assert(grad == gradient_at(p, wn, i as int));
            let bx = x / side as usize;
            let by = y / side as usize;
            let col = if bx < cols as usize - 1 {
                bx
            } else {
                cols as usize - 1
            };
            let row = if by < rows as usize - 1 {
                by
            } else {
                rows as usize - 1
            };
            proof {
                assert(row * cols + col < cols * rows) by (nonlinear_arith)
                    requires
                        row < rows,
                        col < cols,
                ;
            }
            let cell = row * cols as usize + col;
            assert(cell == block_of(wn, sn, cn, rn, i as int));
            let old = energy[cell];
            energy.set(cell, old + grad as u128);
            i = i + 1;
            assert forall|j: int| 0 <= j < nblocks implies #[trigger] energy@[j] == energy_upto(
                p,
                wn,
                sn,
                cn,
                rn,
                j,
                i as int,
            ) by {}
        }
        BlockEnergy { width: img.width(), height: img.height(), side, cols, rows, energy }
    }
}

fn distance(a: [u8; 4], b: [u8; 4]) -> (d: u32)
    ensures
        d == rgb_distance(a, b),
        d <= 765,
{
    let d0 = if a[0] >= b[0] {
        a[0] - b[0]
    } else {
        b[0] - a[0]
    };
    let d1 = if a[1] >= b[1] {
        a[1] - b[1]
    } else {
        b[1] - a[1]
    };
    let d2 = if a[2] >= b[2] {
        a[2] - b[2]
    } else {
        b[2] - a[2]
    };
    d0 as u32 + d1 as u32 + d2 as u32
}

proof fn lemma_ceil_div(a: nat, b: nat)
    requires
        b > 0,
    ensures
        a / b + (if a % b == 0 {
            0nat
        } else {
            1nat
        }) == (a + b - 1) / (b as int),
        (a + b - 1) / (b as int) * b >= a,
        (a + b - 1) / (b as int) <= a + 1,
        a >= 1 ==> (a + b - 1) / (b as int) <= a,
        a == 0 ==> (a + b - 1) / (b as int) == 0,
{
    lemma_fundamental_div_mod(a as int, b as int);
    lemma_fundamental_div_mod((a + b - 1) as int, b as int);
    assert(a / b + (if a % b == 0 {
        0nat
    } else {
        1nat
    }) == (a + b - 1) / (b as int) && (a + b - 1) / (b as int) * b >= a && (a + b - 1) / (b as int) <= a + 1
        && (a >= 1 ==> (a + b - 1) / (b as int) <= a) && (a == 0 ==> (a + b - 1) / (b as int) == 0)) by (nonlinear_arith)
        requires
            a == b * (a / b) + a % b,
            0 <= a % b < b,
            (a + b - 1) == b * ((a + b - 1) / (b as int)) + (a + b - 1) % (b as int),
            0 <= (a + b - 1) % (b as int) < b,
            b > 0,
    ;
}

proof fn lemma_block_grid_fits(w: nat, h: nat, cols: nat, rows: nat)
    requires
        w * h <= usize::MAX,
        w <= u32::MAX,
        h <= u32::MAX,
        1 <= cols,
        1 <= rows,
        w == 0 ==> cols == 1,
        h == 0 ==> rows == 1,
        w >= 1 ==> cols <= w,
        h >= 1 ==> rows <= h,
    ensures
        cols * rows <= usize::MAX,
{
    if w == 0 || h == 0 {
        assert(cols * rows <= u32::MAX) by (nonlinear_arith)
            requires
                cols == 1 || rows == 1,
                cols <= u32::MAX,
                rows <= u32::MAX,
        ;
    } else {
        assert(cols * rows <= w * h) by (nonlinear_arith)
            requires
                1 <= cols <= w,
                1 <= rows <= h,
        ;
    }
}

proof fn lemma_pixel_coords(i: int, w: nat, h: nat)
    requires
        0 <= i < w * h,
    ensures
        w > 0,
        0 <= i % (w as int) < w,
        0 <= i / (w as int) < h,
        i == w * (i / (w as int)) + i % (w as int),
{
    assert(w > 0) by (nonlinear_arith)
        requires
            0 <= i < w * h,
    ;
    lemma_fundamental_div_mod(i, w as int);
    let q = i / (w as int);
    let r = i % (w as int);
    assert(0 <= q < h) by (nonlinear_arith)
        requires
            i == w * q + r,
            0 <= r < w,
            0 <= i < w * h,
            w > 0,
    ;
}

// ── The 95th-percentile block energy ────────────────────────────────────────

/// Ascending order of energies.
pub open spec fn energy_le() -> spec_fn(u128, u128) -> bool {
    |a: u128, b: u128| a <= b
}

/// Rank of the 95th-percentile entry among `len` sorted entries.
pub open spec fn p95_rank(len: nat) -> int {
    let r = len * 95 / 100;
    if r < len - 1 {
        r as int
    } else {
        len - 1
    }
}

/// The energy every block is measured against: the 95th-percentile block
/// energy, at least 1, so that a few extreme blocks do not flatten the map.
pub open spec fn reference_energy(energy: Seq<u128>) -> u128 {
    let v = energy.sort_by(energy_le())[p95_rank(energy.len())];
    if v < 1 {
        1
    } else {
        v
    }
}

proof fn lemma_energy_le_total()
    ensures
        total_ordering(energy_le()),
{
}

/// `v` sorted ascending.
fn sorted_energies(v: &Vec<u128>) -> (s: Vec<u128>)
    ensures
        s@ == v@.sort_by(energy_le()),
{
    broadcast use vstd::seq_lib::group_to_multiset_ensures;

    let mut s: Vec<u128> = Vec::new();
    let mut i: usize = 0;
    while i < v.len()
        invariant
            i <= v@.len(),
            s@.to_multiset() == v@.take(i as int).to_multiset(),
            sorted_by(s@, energy_le()),
        decreases v.len() - i,
    {
        let x = v[i];
        let mut pos: usize = 0;
        while pos < s.len() && s[pos] <= x
            invariant
                pos <= s@.len(),
                forall|j: int| 0 <= j < pos ==> s@[j] <= x,
            decreases s.len() - pos,
        {
            pos = pos + 1;
        }
        let ghost before = s@;
        s.insert(pos, x);
        proof {
            assert(v@.take(i + 1) =~= v@.take(i as int).push(x));
            vstd::seq_lib::to_multiset_build(v@.take(i as int), x);
            vstd::seq_lib::to_multiset_insert(before, pos as int, x);
            assert(s@.to_multiset() == v@.take(i + 1).to_multiset());
            assert forall|a: int, b: int| 0 <= a < b < s@.len() implies #[trigger] (energy_le())(s@[a], s@[b]) by {
                if b < pos {
                    assert((energy_le())(before[a], before[b]));
                } else if a > pos {
                    assert((energy_le())(before[a - 1], before[b - 1]));
                } else if a == pos {
                    if b - 1 > pos {
                        assert((energy_le())(before[pos as int], before[b - 1]));
                    }
                } else {
                    if b > pos {
                        assert(before[a] <= x);
                    }
                }
            }
        }
        i = i + 1;
    }
    proof {
        assert(v@.take(v@.len() as int) =~= v@);
        lemma_energy_le_total();
        v@.lemma_sort_by_ensures(energy_le());
        vstd::seq_lib::lemma_sorted_unique(s@, v@.sort_by(energy_le()), energy_le());
    }
    s
}

/// The 95th-percentile block energy, at least 1 (`sorted[len * 95 / 100]`,
/// clamped to the last entry).
pub fn p95_energy(energy: &Vec<u128>) -> (r: u128)
    requires
        energy@.len() > 0,
    ensures
        r == reference_energy(energy@),
{
    let sorted = sorted_energies(energy);
    proof {
        lemma_energy_le_total();
        energy@.lemma_sort_by_ensures(energy_le());
        assert(sorted@.len() == energy@.len()) by {
            broadcast use vstd::seq_lib::group_to_multiset_ensures;
            assert(sorted@.to_multiset().len() == energy@.to_multiset().len());
        }
    }
    let len = sorted.len();
    let r = ((len as u128) * 95 / 100) as usize;
    let k = if r < len - 1 {
        r
    } else {
        len - 1
    };
    let v = sorted[k];
    if v < 1 {
        1
    } else {
        v
    }
}

// ── Block lookup ────────────────────────────────────────────────────────────

/// The block holding pixel `(x, y)` of a `width` x `height` image; none for
/// a coordinate outside the image (negative, or past its right or bottom
/// edge) or outside the block grid.
pub open spec fn block_at(
    side: nat,
    cols: nat,
    rows: nat,
    width: nat,
    height: nat,
    x: int,
    y: int,
) -> Option<int> {
    if x < 0 || y < 0 || x >= width || y >= height || x >= cols * side || y >= rows * side {
        None
    } else {
        Some((y / (side as int)) * cols + x / (side as int))
    }
}

impl BlockEnergy {
    pub open spec fn wf(&self) -> bool {
        &&& self.side > 0
        &&& self.cols >= 1
        &&& self.rows >= 1
        &&& self.energy@.len() == self.cols * self.rows
    }

    /// Index of the block holding pixel `(x, y)`; none outside the image,
    /// so that such a pixel scores 0.
    pub fn block_index(&self, x: i32, y: i32) -> (b: Option<usize>)
        requires
            self.wf(),
        ensures
            b matches Some(i) ==> i < self.energy@.len(),
            match block_at(
                self.side as nat,
                self.cols as nat,
                self.rows as nat,
                self.width as nat,
                self.height as nat,
                x as int,
                y as int,
            ) {
                Some(i) => b == Some(i as usize),
                None => b is None,
            },
    {
        if x < 0 || y < 0 {
            return None;
        }
        if x as u32 >= self.width || y as u32 >= self.height {
            return None;
        }
        let col = x as u32 / self.side;
        let row = y as u32 / self.side;
        if col >= self.cols || row >= self.rows {
            proof {
                let (s, c, r) = (self.side as int, self.cols as int, self.rows as int);
                let (xi, yi) = (x as int, y as int);
                lemma_fundamental_div_mod(xi, s);
                lemma_fundamental_div_mod(yi, s);
                assert(xi >= c * s || yi >= r * s) by (nonlinear_arith)
                    requires
                        s > 0,
                        col == xi / s,
                        row == yi / s,
                        xi == s * (xi / s) + xi % s,
                        yi == s * (yi / s) + yi % s,
                        0 <= xi % s,
                        0 <= yi % s,
                        col >= c || row >= r,
                ;
            }
            return None;
        }
        proof {
            let (s, c, r) = (self.side as int, self.cols as int, self.rows as int);
            let (xi, yi) = (x as int, y as int);
            lemma_fundamental_div_mod(xi, s);
            lemma_fundamental_div_mod(yi, s);
            assert(xi < c * s && yi < r * s) by (nonlinear_arith)
                requires
                    s > 0,
                    col == xi / s,
                    row == yi / s,
                    xi == s * (xi / s) + xi % s,
                    yi == s * (yi / s) + yi % s,
                    xi % s < s,
                    yi % s < s,
                    col < c,
                    row < r,
            ;
            assert(row * self.cols + col < self.cols * self.rows) by (nonlinear_arith)
                requires
                    row < self.rows,
                    col < self.cols,
            ;
        }
        let len = self.energy.len();
        assert((row as usize) * (self.cols as usize) + (col as usize) < len);
        Some(row as usize * self.cols as usize + col as usize)
    }
}

/// Number of sample points, one per `side` pixels, along `len` pixels.
pub open spec fn sample_count(len: nat, side: nat) -> nat {
    len / side + if len % side == 0 {
        0nat
    } else {
        1nat
    }
}

/// The block sampled at step `k` of a region scan: sample points `side`
/// pixels apart from `(x, y)`, row by row, `sample_count(w, side)` per row.
pub open spec fn region_sample(
    side: nat,
    cols: nat,
    rows: nat,
    width: nat,
    height: nat,
    x: int,
    y: int,
    w: nat,
    k: int,
) -> Option<int> {
    let nx = sample_count(w, side) as int;
    block_at(side, cols, rows, width, height, x + (k % nx) * side, y + (k / nx) * side)
}

impl BlockEnergy {
    /// The blocks under the sample points of the `w` x `h` rectangle at
    /// `(x, y)`: one point every `side` pixels in each direction from the
    /// corner, row by row; `None` for a point outside the image.
    pub fn region_blocks(&self, x: i32, y: i32, w: u32, h: u32) -> (blocks: Vec<Option<usize>>)
        requires
            self.wf(),
            w <= i32::MAX,
            h <= i32::MAX,
            x + w + self.side <= i32::MAX,
            y + h + self.side <= i32::MAX,
        ensures
            blocks@.len() == sample_count(w as nat, self.side as nat) * sample_count(
                h as nat,
                self.side as nat,
            ),
            forall|k: int|
                0 <= k < blocks@.len() ==> #[trigger] blocks@[k] == match region_sample(
                    self.side as nat,
                    self.cols as nat,
                    self.rows as nat,
                    self.width as nat,
                    self.height as nat,
                    x as int,
                    y as int,
                    w as nat,
                    k,
                ) {
                    Some(i) => Some(i as usize),
                    None => None::<usize>,
                },
    {
        let side = self.side;
        let ghost (sn, cn, rn) = (self.side as nat, self.cols as nat, self.rows as nat);
        let nx: u32 = w / side + if w % side == 0 { 0 } else { 1 };
        let ny: u32 = h / side + if h % side == 0 { 0 } else { 1 };
        proof {
            lemma_fundamental_div_mod(w as int, side as int);
            lemma_fundamental_div_mod(h as int, side as int);
            assert(nx * side < w + side && ny * side < h + side) by (nonlinear_arith)
                requires
                    side > 0,
                    w == side * (w / side) + w % side,
                    0 <= w % side < side,
                    nx == w / side + if w % side == 0 { 0int } else { 1int },
                    h == side * (h / side) + h % side,
                    0 <= h % side < side,
                    ny == h / side + if h % side == 0 { 0int } else { 1int },
            ;
        }
        let mut out: Vec<Option<usize>> = Vec::new();
        let mut iy: u32 = 0;
        while iy < ny
            invariant
                self.wf(),
                side == self.side,
                sn == self.side,
                cn == self.cols,
                rn == self.rows,
                nx == sample_count(w as nat, sn),
                ny == sample_count(h as nat, sn),
                nx * side < w + side,
                ny * side < h + side,
                w <= i32::MAX,
                h <= i32::MAX,
                x + w + self.side <= i32::MAX,
                y + h + self.side <= i32::MAX,
                iy <= ny,
                out@.len() == iy * nx,
                forall|k: int|
                    0 <= k < out@.len() ==> #[trigger] out@[k] == match region_sample(
                        sn,
                        cn,
                        rn,
                        self.width as nat,
                        self.height as nat,
                        x as int,
                        y as int,
                        w as nat,
                        k,
                    ) {
                        Some(i) => Some(i as usize),
                        None => None::<usize>,
                    },
            decreases ny - iy,
        {
            assert(iy * side < h) by (nonlinear_arith)
                requires
                    iy < ny,
                    ny * side < h + side,
                    side > 0,
            ;
            let sy = y + (iy * side) as i32;
            let mut ix: u32 = 0;
            while ix < nx
                invariant
                    self.wf(),
                    side == self.side,
                    sn == self.side,
                    cn == self.cols,
                    rn == self.rows,
                    nx == sample_count(w as nat, sn),
                    nx * side < w + side,
                    w <= i32::MAX,
                    x + w + self.side <= i32::MAX,
                    iy < ny,
                    sy == y + iy * side,
                    ix <= nx,
                    out@.len() == iy * nx + ix,
                    forall|k: int|
                        0 <= k < out@.len() ==> #[trigger] out@[k] == match region_sample(
                            sn,
                            cn,
                            rn,
                            self.width as nat,
                            self.height as nat,
                            x as int,
                            y as int,
                            w as nat,
                            k,
                        ) {
                            Some(i) => Some(i as usize),
                            None => None::<usize>,
                        },
                decreases nx - ix,
            {
                assert(ix * side < w) by (nonlinear_arith)
                    requires
                        ix < nx,
                        nx * side < w + side,
                        side > 0,
                ;
                let sx = x + (ix * side) as i32;
                let b = self.block_index(sx, sy);
                proof {
                    let k = iy * nx + ix;
                    vstd::arithmetic::div_mod::lemma_fundamental_div_mod_converse(
                        k as int,
                        nx as int,
                        iy as int,
                        ix as int,
                    );
                    assert(k == nx * iy + ix) by (nonlinear_arith)
                        requires
                            k == iy * nx + ix,
                    ;
                }
                out.push(b);
                ix = ix + 1;
            }
            iy = iy + 1;
            assert((iy - 1) * nx + nx == iy * nx) by (nonlinear_arith);
        }
        assert(ny * nx == nx * ny) by (nonlinear_arith);
        out
    }
}

// ── Row profiles ────────────────────────────────────────────────────────────

/// Horizontal gradient energy of row `y` over columns `1..k`.
pub open spec fn row_energy_upto(p: Seq<[u8; 4]>, w: nat, y: int, k: int) -> int
    decreases k,
{
    if k <= 1 {
        0
    } else {
        row_energy_upto(p, w, y, k - 1) + rgb_distance(p[y * w + k - 2], p[y * w + k - 1])
    }
}

/// Horizontal gradient energy of row `y`: the distances between horizontally
/// adjacent pixels, summed.
pub open spec fn row_energy(p: Seq<[u8; 4]>, w: nat, y: int) -> int {
    row_energy_upto(p, w, y, w as int)
}

/// Per-row horizontal gradient energy — a strong proxy for text lines.
pub fn row_gradient_density(img: &Pixmap) -> (density: Vec<u64>)
    requires
        img.wf(),
    ensures
        density@.len() == img.spec_height(),
        forall|y: int|
            0 <= y < density@.len() ==> #[trigger] density@[y] == row_energy(img@, img.spec_width(), y),
{
    let w = img.width() as usize;
    let h = img.height() as usize;
    let ghost p = img@;
    let n = img.pixel_count();
    let mut density: Vec<u64> = Vec::new();
    let mut y: usize = 0;
    while y < h
        invariant
            p == img@,
            n == p.len(),
            p.len() == w * h,
            w <= u32::MAX,
            y <= h,
            density@.len() == y,
            forall|r: int| 0 <= r < y ==> #[trigger] density@[r] == row_energy(p, w as nat, r),
        decreases h - y,
    {
        let mut sum: u64 = 0;
        let mut x: usize = 1;
        proof {
            assert(y * w + w <= w * h) by (nonlinear_arith)
                requires
                    y < h,
            ;
        }
        let base = y * w;
        while x < w
            invariant
                p == img@,
                n == p.len(),
                p.len() == w * h,
                w <= u32::MAX,
                y < h,
                base == y * w,
                base + w <= w * h,
                1 <= x <= w || (w == 0 && x == 1),
                sum == row_energy_upto(p, w as nat, y as int, x as int),
                sum <= 765 * x,
            decreases w - x,
        {
            let d = distance(img.pixel_at(base + x - 1), img.pixel_at(base + x));
            sum = sum + d as u64;
            x = x + 1;
        }
        density.push(sum);
        y = y + 1;
    }
    density
}

/// Sum of the first `m` entries of `d`.
pub open spec fn prefix_sum(d: Seq<u64>, m: int) -> int
    decreases m,
{
    if m <= 0 {
        0
    } else {
        prefix_sum(d, m - 1) + d[m - 1] as int
    }
}

pub open spec fn clamp_index(v: int, n: int) -> int {
    if v < 0 {
        0
    } else if v > n {
        n
    } else {
        v
    }
}

/// Sum of the entries of `d` at positions `lo..hi` that exist.
pub open spec fn window_sum(d: Seq<u64>, lo: int, hi: int) -> int {
    prefix_sum(d, clamp_index(hi, d.len() as int)) - prefix_sum(d, clamp_index(lo, d.len() as int))
}

/// The box filter `kernel` rows wide (at least 1), centred on row `i`:
/// entry `i` of the result is the sum of the rows from `i - (k - 1) / 2` to
/// `i + k / 2` that exist.
pub open spec fn smoothed_at(d: Seq<u64>, kernel: nat, i: int) -> int {
    let k = if kernel < 1 {
        1
    } else {
        kernel as int
    };
    let lo = i - (k - 1) / 2;
    window_sum(d, lo, lo + k)
}

proof fn lemma_prefix_mono(d: Seq<u64>, a: int, b: int)
    requires
        0 <= a <= b <= d.len(),
    ensures
        0 <= prefix_sum(d, a) <= prefix_sum(d, b) <= prefix_sum(d, a) + (b - a) * 0xffff_ffff_ffff_ffff,
    decreases b - a,
{
    if a < b {
        lemma_prefix_mono(d, a, b - 1);
    } else {
        lemma_prefix_nonneg(d, a);
    }
}

proof fn lemma_prefix_nonneg(d: Seq<u64>, a: int)
    ensures
        0 <= prefix_sum(d, a),
    decreases a,
{
    if a > 0 {
        lemma_prefix_nonneg(d, a - 1);
    }
}

/// Smooth a per-row density profile with a box filter of `kernel` rows.
pub fn smooth_density(density: &Vec<u64>, kernel: usize) -> (smoothed: Vec<u128>)
    ensures
        smoothed@.len() == density@.len(),
        forall|i: int|
            0 <= i < smoothed@.len() ==> #[trigger] smoothed@[i] == smoothed_at(density@, kernel as nat, i),
{
    let n = density.len();
    let k = if kernel < 1 {
        1
    } else {
        kernel
    };
    let below = (k - 1) / 2;
    let above = k - below;
    let ghost d = density@;
    // prefix[m] is the sum of the first m rows.
    let mut prefix: Vec<u128> = Vec::new();
    prefix.push(0);
    let mut j: usize = 0;
    while j < n
        invariant
            d == density@,
            n == d.len(),
            j <= n,
            prefix@.len() == j + 1,
            forall|m: int| 0 <= m <= j ==> #[trigger] prefix@[m] == prefix_sum(d, m),
            prefix@[j as int] <= j * 0xffff_ffff_ffff_ffffu128,
        decreases n - j,
    {
        let next = prefix[j] + density[j] as u128;
        prefix.push(next);
        j = j + 1;
    }
    let mut smoothed: Vec<u128> = Vec::new();
    let mut i: usize = 0;
    while i < n
        invariant
            d == density@,
            n == d.len(),
            k >= 1,
            k == (if kernel < 1 { 1 } else { kernel }),
            below == (k - 1) / 2,
            above == k - below,
            prefix@.len() == n + 1,
            forall|m: int| 0 <= m <= n ==> #[trigger] prefix@[m] == prefix_sum(d, m),
            i <= n,
            smoothed@.len() == i,
            forall|m: int| 0 <= m < i ==> #[trigger] smoothed@[m] == smoothed_at(d, kernel as nat, m),
        decreases n - i,
    {
        let lo = if i >= below {
            i - below
        } else {
            0
        };
        let hi = if above >= n - i {
            n
        } else {
            i + above
        };
        proof {
            let l = i - below;
            assert(lo == clamp_index(l, n as int));
            assert(hi == clamp_index(l + k, n as int));
            lemma_prefix_mono(d, lo as int, hi as int);
        }
        smoothed.push(prefix[hi] - prefix[lo]);
        i = i + 1;
    }
    smoothed
}

// ── Densest bands ───────────────────────────────────────────────────────────

/// Row `a` comes before row `b`: denser first, ties in row order.
pub open spec fn band_le(d: Seq<u128>) -> spec_fn(usize, usize) -> bool {
    |a: usize, b: usize| d[a as int] > d[b as int] || (d[a as int] == d[b as int] && a <= b)
}

/// All rows, densest first, ties in row order.
pub open spec fn band_order(d: Seq<u128>) -> Seq<usize> {
    Seq::new(d.len(), |i: int| i as usize).sort_by(band_le(d))
}

pub open spec fn row_gap(a: usize, b: usize) -> int {
    if a >= b {
        a - b
    } else {
        b - a
    }
}

/// `r` is at least `gap` rows away from every row in `chosen`.
pub open spec fn clear_of(chosen: Seq<usize>, r: usize, gap: nat) -> bool {
    forall|j: int| 0 <= j < chosen.len() ==> row_gap(#[trigger] chosen[j], r) >= gap
}

/// Greedy pick along `order`: a row is taken while fewer than `count` are
/// taken and it is at least `gap` rows from every row taken before.
pub open spec fn greedy_bands(order: Seq<usize>, count: nat, gap: nat) -> Seq<usize>
    decreases order.len(),
{
    if order.len() == 0 {
        seq![]
    } else {
        let chosen = greedy_bands(order.drop_last(), count, gap);
        if chosen.len() < count && clear_of(chosen, order.last(), gap) {
            chosen.push(order.last())
        } else {
            chosen
        }
    }
}

proof fn lemma_band_le_total(d: Seq<u128>)
    ensures
        total_ordering(band_le(d)),
{
}

/// Every entry of `s` is a row of `d`.
pub open spec fn rows_of(d: Seq<u128>, s: Seq<usize>) -> bool {
    forall|k: int| 0 <= k < s.len() ==> #[trigger] s[k] < d.len()
}

/// Row `a` comes before row `b` in band order.
fn band_before(density: &Vec<u128>, a: usize, b: usize) -> (r: bool)
    requires
        a < density@.len(),
        b < density@.len(),
    ensures
        r == (band_le(density@))(a, b),
{
    density[a] > density[b] || (density[a] == density[b] && a <= b)
}

/// Merge two runs in band order into one.
fn merge_runs(density: &Vec<u128>, a: &Vec<usize>, b: &Vec<usize>) -> (out: Vec<usize>)
    requires
        sorted_by(a@, band_le(density@)),
        sorted_by(b@, band_le(density@)),
        rows_of(density@, a@),
        rows_of(density@, b@),
    ensures
        sorted_by(out@, band_le(density@)),
        rows_of(density@, out@),
        out@.to_multiset() == a@.to_multiset().add(b@.to_multiset()),
{
    broadcast use vstd::seq_lib::group_to_multiset_ensures, vstd::multiset::group_multiset_axioms;

    let ghost d = density@;
    let ghost le = band_le(d);
    let mut out: Vec<usize> = Vec::new();
    let mut i: usize = 0;
    let mut j: usize = 0;
    while i < a.len() || j < b.len()
        invariant
            d == density@,
            le == band_le(d),
            sorted_by(a@, le),
            sorted_by(b@, le),
            rows_of(d, a@),
            rows_of(d, b@),
            i <= a@.len(),
            j <= b@.len(),
            sorted_by(out@, le),
            rows_of(d, out@),
            out@.to_multiset() == a@.take(i as int).to_multiset().add(b@.take(j as int).to_multiset()),
            forall|k: int| 0 <= k < out@.len() && i < a@.len() ==> le(#[trigger] out@[k], a@[i as int]),
            forall|k: int| 0 <= k < out@.len() && j < b@.len() ==> le(#[trigger] out@[k], b@[j as int]),
        decreases a@.len() + b@.len() - i - j,
    {
        let ghost before = out@;
        let take_a = j >= b.len() || (i < a.len() && band_before(density, a[i], b[j]));
        let x = if take_a {
            a[i]
        } else {
            b[j]
        };
        out.push(x);
        proof {
            assert(out@ == before.push(x));
            let ta = a@.take(i as int).to_multiset();
            let tb = b@.take(j as int).to_multiset();
            vstd::seq_lib::to_multiset_build(before, x);
            if take_a {
                assert(a@.take(i + 1) =~= a@.take(i as int).push(x));
                vstd::seq_lib::to_multiset_build(a@.take(i as int), x);
                assert(ta.insert(x).add(tb) =~= ta.add(tb).insert(x));
            } else {
                assert(b@.take(j + 1) =~= b@.take(j as int).push(x));
                vstd::seq_lib::to_multiset_build(b@.take(j as int), x);
                assert(ta.add(tb.insert(x)) =~= ta.add(tb).insert(x));
            }
        }
        if take_a {
            i = i + 1;
        } else {
            j = j + 1;
        }
        proof {
            assert forall|p: int, q: int| 0 <= p < q < out@.len() implies #[trigger] le(out@[p], out@[q]) by {
                if q < before.len() {
                    assert(le(before[p], before[q]));
                }
            }
            if take_a {
                assert(j >= b@.len() || le(x, b@[j as int]));
                if i < a@.len() {
                    assert(le(a@[i - 1], a@[i as int]));
                }
            } else {
                if j < b@.len() {
                    assert(le(b@[j - 1], b@[j as int]));
                }
                if i < a@.len() {
                    assert(!le(a@[i as int], x));
                }
            }
            assert forall|k: int| 0 <= k < out@.len() && i < a@.len() implies le(#[trigger] out@[k], a@[i as int]) by {
                if k < before.len() && take_a {
                    assert(le(before[k], a@[i - 1]));
                }
            }
            assert forall|k: int| 0 <= k < out@.len() && j < b@.len() implies le(#[trigger] out@[k], b@[j as int]) by {
                if k < before.len() && !take_a {
                    assert(le(before[k], b@[j - 1]));
                }
            }
        }
    }
    proof {
        assert(a@.take(a@.len() as int) =~= a@);
        assert(b@.take(b@.len() as int) =~= b@);
    }
    out
}

/// The rows `lo..hi` in band order.
fn sort_rows(density: &Vec<u128>, lo: usize, hi: usize) -> (order: Vec<usize>)
    requires
        lo <= hi <= density@.len(),
    ensures
        sorted_by(order@, band_le(density@)),
        rows_of(density@, order@),
        order@.to_multiset() == Seq::new((hi - lo) as nat, |k: int| (lo + k) as usize).to_multiset(),
    decreases hi - lo,
{
    if hi - lo <= 1 {
        let mut v: Vec<usize> = Vec::new();
        if hi - lo == 1 {
            v.push(lo);
        }
        assert(v@ =~= Seq::new((hi - lo) as nat, |k: int| (lo + k) as usize));
        return v;
    }
    let mid = lo + (hi - lo) / 2;
    let left = sort_rows(density, lo, mid);
    let right = sort_rows(density, mid, hi);
    let out = merge_runs(density, &left, &right);
    proof {
        let l = Seq::new((mid - lo) as nat, |k: int| (lo + k) as usize);
        let r = Seq::new((hi - mid) as nat, |k: int| (mid + k) as usize);
        assert(l + r =~= Seq::new((hi - lo) as nat, |k: int| (lo + k) as usize));
        vstd::seq_lib::lemma_multiset_commutative(l, r);
    }
    out
}

/// All rows, densest first, ties in row order.
fn rows_by_density(density: &Vec<u128>) -> (order: Vec<usize>)
    ensures
        order@ == band_order(density@),
{
    let ghost d = density@;
    let ghost all = Seq::new(d.len(), |i: int| i as usize);
    let s = sort_rows(density, 0, density.len());
    proof {
        assert(Seq::new((density.len() - 0) as nat, |k: int| (0 + k) as usize) =~= all);
        lemma_band_le_total(d);
        all.lemma_sort_by_ensures(band_le(d));
        vstd::seq_lib::lemma_sorted_unique(s@, all.sort_by(band_le(d)), band_le(d));
    }
    s
}

/// Indices of the `count` highest-density rows, at least `min_gap` apart:
/// rows are taken densest first (ties in row order) while fewer than `count`
/// are taken, each at least `min_gap` rows from those taken before.
pub fn top_bands(density: &Vec<u128>, count: usize, min_gap: usize) -> (bands: Vec<usize>)
    ensures
        bands@ == greedy_bands(band_order(density@), count as nat, min_gap as nat),
{
    let order = rows_by_density(density);
    let mut out: Vec<usize> = Vec::new();
    let mut m: usize = 0;
    while m < order.len()
        invariant
            m <= order@.len(),
            out@ == greedy_bands(order@.take(m as int), count as nat, min_gap as nat),
        decreases order.len() - m,
    {
        let r = order[m];
        proof {
            assert(order@.take(m + 1).drop_last() =~= order@.take(m as int));
        }
        if out.len() < count {
            let mut clear = true;
            let mut j: usize = 0;
            while j < out.len()
                invariant
                    j <= out@.len(),
                    clear == clear_of(out@.take(j as int), r, min_gap as nat),
                decreases out.len() - j,
            {
                let s = out[j];
                let gap = if s >= r {
                    s - r
                } else {
                    r - s
                };
                proof {
                    let t0 = out@.take(j as int);
                    let t1 = out@.take(j + 1);
                    assert(t1 =~= t0.push(s));
                    if clear_of(t0, r, min_gap as nat) && gap >= min_gap {
                        assert forall|q: int| 0 <= q < t1.len() implies row_gap(#[trigger] t1[q], r)
                            >= min_gap by {
                            if q < t0.len() {
                                assert(t1[q] == t0[q]);
                            }
                        }
                    }
                    if !clear_of(t0, r, min_gap as nat) {
                        let q = choose|q: int| 0 <= q < t0.len() && row_gap(#[trigger] t0[q], r) < min_gap;
                        assert(t1[q] == t0[q]);
                    }
                    if gap < min_gap {
                        assert(t1[j as int] == s);
                    }
                }
                clear = clear && gap >= min_gap;
                j = j + 1;
            }
            assert(out@.take(out@.len() as int) =~= out@);
            if clear {
                out.push(r);
            }
        }
        m = m + 1;
    }
    assert(order@.take(order@.len() as int) =~= order@);
    out
}


/// The bands picked are at most `count`, pairwise at least `gap` rows apart,
/// and taken from `order`.
pub proof fn greedy_bands_spread(order: Seq<usize>, count: nat, gap: nat)
    ensures
        greedy_bands(order, count, gap).len() <= count,
        forall|a: int, b: int|
            0 <= a < b < greedy_bands(order, count, gap).len() ==> row_gap(
                #[trigger] greedy_bands(order, count, gap)[a],
                #[trigger] greedy_bands(order, count, gap)[b],
            ) >= gap,
        forall|a: int|
            0 <= a < greedy_bands(order, count, gap).len() ==> order.contains(
                #[trigger] greedy_bands(order, count, gap)[a],
            ),
    decreases order.len(),
{
    if order.len() > 0 {
        let prev = order.drop_last();
        greedy_bands_spread(prev, count, gap);
        let chosen = greedy_bands(prev, count, gap);
        let now = greedy_bands(order, count, gap);
        assert forall|a: int| 0 <= a < now.len() implies order.contains(#[trigger] now[a]) by {
            if a < chosen.len() {
                assert(prev.contains(chosen[a]));
                let k = choose|k: int| 0 <= k < prev.len() && prev[k] == chosen[a];
                assert(order[k] == prev[k]);
            } else {
                assert(order[order.len() - 1] == order.last());
            }
        }
        assert forall|a: int, b: int| 0 <= a < b < now.len() implies row_gap(
            #[trigger] now[a],
            #[trigger] now[b],
        ) >= gap by {
            if b < chosen.len() {
                assert(now[a] == chosen[a] && now[b] == chosen[b]);
            } else {
                assert(clear_of(chosen, order.last(), gap));
                assert(row_gap(chosen[a], order.last()) >= gap);
            }
        }
    }
}


/// Taking a row keeps every row that clashed with the picks clashing.
proof fn lemma_clash_persists(chosen: Seq<usize>, x: usize, r: usize, gap: nat)
    requires
        !clear_of(chosen, r, gap),
    ensures
        !clear_of(chosen.push(x), r, gap),
{
    let j = choose|j: int| 0 <= j < chosen.len() && row_gap(#[trigger] chosen[j], r) < gap;
    assert(chosen.push(x)[j] == chosen[j]);
}

/// The greedy pick keeps the order of `order`, and when it stops short of
/// `count` no row of `order` could be added: each one left out is closer
/// than `gap` to a picked row.
proof fn lemma_greedy_ordered_maximal(order: Seq<usize>, count: nat, gap: nat)
    ensures
        ({
            let picks = greedy_bands(order, count, gap);
            &&& forall|a: int, b: int|
                0 <= a < b < picks.len() ==> exists|i: int, j: int|
                    0 <= i < j < order.len() && order[i] == #[trigger] picks[a] && order[j]
                        == #[trigger] picks[b]
            &&& picks.len() < count ==> forall|k: int|
                0 <= k < order.len() ==> picks.contains(#[trigger] order[k]) || !clear_of(
                    picks,
                    order[k],
                    gap,
                )
            &&& picks.len() <= count
            &&& forall|a: int| 0 <= a < picks.len() ==> order.contains(#[trigger] picks[a])
        }),
    decreases order.len(),
{
    greedy_bands_spread(order, count, gap);
    if order.len() > 0 {
        let prev = order.drop_last();
        lemma_greedy_ordered_maximal(prev, count, gap);
        greedy_bands_spread(prev, count, gap);
        let chosen = greedy_bands(prev, count, gap);
        let now = greedy_bands(order, count, gap);
        let last = order.len() - 1;
        assert forall|a: int, b: int| 0 <= a < b < now.len() implies exists|i: int, j: int|
            0 <= i < j < order.len() && order[i] == #[trigger] now[a] && order[j]
                == #[trigger] now[b] by {
            if b < chosen.len() {
                assert(now[a] == chosen[a] && now[b] == chosen[b]);
                let (i, j) = choose|i: int, j: int|
                    0 <= i < j < prev.len() && prev[i] == #[trigger] chosen[a] && prev[j]
                        == #[trigger] chosen[b];
                assert(order[i] == prev[i] && order[j] == prev[j]);
            } else {
                assert(now[a] == chosen[a]);
                assert(prev.contains(chosen[a]));
                let i = choose|i: int| 0 <= i < prev.len() && prev[i] == chosen[a];
                assert(order[i] == prev[i]);
                assert(order[last] == now[b]);
            }
        }
        if now.len() < count {
            assert forall|k: int| 0 <= k < order.len() implies now.contains(#[trigger] order[k])
                || !clear_of(now, order[k], gap) by {
                if k < last {
                    assert(order[k] == prev[k]);
                    if chosen.contains(prev[k]) {
                        let q = choose|q: int| 0 <= q < chosen.len() && chosen[q] == prev[k];
                        assert(now[q] == chosen[q]);
                    } else if now != chosen {
                        lemma_clash_persists(chosen, order.last(), prev[k], gap);
                    }
                } else if now != chosen {
                    assert(now[now.len() - 1] == order[k]);
                }
            }
        }
    }
}

/// The stroke rows go densest first, and when fewer than `count` are
/// picked, every row left out lies closer than `gap` to a picked one: no
/// skipped row could have been added.
pub proof fn top_bands_densest_first_and_maximal(d: Seq<u128>, count: nat, gap: nat)
    ensures
        ({
            let picks = greedy_bands(band_order(d), count, gap);
            &&& forall|a: int, b: int|
                0 <= a < b < picks.len() ==> d[#[trigger] picks[a] as int] >= d[#[trigger] picks[b] as int]
            &&& picks.len() < count ==> forall|r: usize|
                r < d.len() ==> #[trigger] picks.contains(r) || !clear_of(picks, r, gap)
        }),
{
    broadcast use vstd::seq_lib::group_to_multiset_ensures;

    let order = band_order(d);
    let all = Seq::new(d.len(), |i: int| i as usize);
    lemma_band_le_total(d);
    all.lemma_sort_by_ensures(band_le(d));
    lemma_greedy_ordered_maximal(order, count, gap);
    let picks = greedy_bands(order, count, gap);
    assert forall|a: int, b: int| 0 <= a < b < picks.len() implies d[#[trigger] picks[a] as int]
        >= d[#[trigger] picks[b] as int] by {
        let (i, j) = choose|i: int, j: int|
            0 <= i < j < order.len() && order[i] == #[trigger] picks[a] && order[j]
                == #[trigger] picks[b];
        assert((band_le(d))(order[i], order[j]));
    }
    if picks.len() < count {
        assert forall|r: usize| r < d.len() implies #[trigger] picks.contains(r) || !clear_of(
            picks,
            r,
            gap,
        ) by {
            assert(all[r as int] == r);
            assert(all.contains(r));
            assert(all.to_multiset().count(r) > 0);
            assert(order.to_multiset().count(r) > 0);
            assert(order.contains(r));
            let k = choose|k: int| 0 <= k < order.len() && order[k] == r;
            assert(picks.contains(order[k]) || !clear_of(picks, order[k], gap));
        }
    }
}

// ── Rows for the anti-AI strokes ────────────────────────────────────────────

/// Per-row horizontal gradient energy of an image.
pub open spec fn row_profile(p: Seq<[u8; 4]>, w: nat, h: nat) -> Seq<u64> {
    Seq::new(h, |y: int| row_energy(p, w, y) as u64)
}

/// A profile smoothed with a box filter of width `kernel`.
pub open spec fn smoothed_profile(d: Seq<u64>, kernel: nat) -> Seq<u128> {
    Seq::new(d.len(), |i: int| smoothed_at(d, kernel, i) as u128)
}

/// The rows the horizontal strokes run through on a `w` x `h` image: the 8
/// densest rows of the profile smoothed over `h / 60` rows (at least 3), at
/// least `h / 24` rows (at least 8) apart.
pub open spec fn stroke_rows_of(p: Seq<[u8; 4]>, w: nat, h: nat) -> Seq<usize> {
    let kernel = if h / 60 > 3 {
        h / 60
    } else {
        3
    };
    let gap = if h / 24 > 8 {
        h / 24
    } else {
        8
    };
    greedy_bands(band_order(smoothed_profile(row_profile(p, w, h), kernel)), 8, gap)
}

/// Rows through which thin horizontal strokes are drawn across the densest
/// text bands; none for an image under 200 pixels on a side, which gets no
/// strokes at all.
pub fn stroke_rows(img: &Pixmap) -> (rows: Option<Vec<usize>>)
    requires
        img.wf(),
    ensures
        rows is None <==> (img.spec_width() < 200 || img.spec_height() < 200),
        rows matches Some(r) ==> r@ == stroke_rows_of(img@, img.spec_width(), img.spec_height()),
{
    let w = img.width();
    let h = img.height();
    if w < 200 || h < 200 {
        return None;
    }
    let kernel = if h / 60 > 3 {
        (h / 60) as usize
    } else {
        3
    };
    let gap = if h / 24 > 8 {
        (h / 24) as usize
    } else {
        8
    };
    let density = row_gradient_density(img);
    assert(density@ =~= row_profile(img@, w as nat, h as nat));
    let smoothed = smooth_density(&density, kernel);
    assert(smoothed@ =~= smoothed_profile(density@, kernel as nat));
    Some(top_bands(&smoothed, 8, gap))
}

/// Picks that come within `gap` of every one of `h` rows number at least 8
/// when 8 rows spaced `2 * gap - 1` apart fit in `h`: no pick can come that
/// close to two of those rows.
proof fn lemma_covering_picks_are_eight(picks: Seq<usize>, gap: nat, h: nat)
    requires
        gap >= 1,
        7 * (2 * gap - 1) < h,
        h <= usize::MAX,
        forall|r: usize| r < h ==> #[trigger] picks.contains(r) || !clear_of(picks, r, gap),
    ensures
        picks.len() >= 8,
{
    let step: int = 2 * gap - 1;
    let pick_of = |m: int|
        choose|j: int| 0 <= j < picks.len() && row_gap(picks[j], (m * step) as usize) < gap;
    let marks = vstd::set_lib::set_int_range(0, 8);
    assert forall|m: int| 0 <= m < 8 implies 0 <= #[trigger] pick_of(m) < picks.len() && row_gap(
        picks[pick_of(m)],
        (m * step) as usize,
    ) < gap by {
        assert(0 <= m * step <= 7 * step) by (nonlinear_arith)
            requires
                0 <= m < 8,
                step >= 1,
        ;
        let r = (m * step) as usize;
        assert(r < h);
        if picks.contains(r) {
            let j = choose|j: int| 0 <= j < picks.len() && picks[j] == r;
            assert(row_gap(picks[j], r) == 0);
        } else {
            assert(!clear_of(picks, r, gap));
        }
    }
    assert forall|m1: int, m2: int|
        marks.contains(m1) && marks.contains(m2) && #[trigger] pick_of(m1) == #[trigger] pick_of(m2)
        implies m1 == m2 by {
        if m1 != m2 {
            assert(0 <= m1 * step <= 7 * step && 0 <= m2 * step <= 7 * step) by (nonlinear_arith)
                requires
                    0 <= m1 < 8,
                    0 <= m2 < 8,
                    step >= 1,
            ;
            assert(m1 * step - m2 * step >= step || m2 * step - m1 * step >= step) by (nonlinear_arith)
                requires
                    m1 != m2,
                    step >= 1,
            ;
        }
    }
    let covered = marks.map(pick_of);
    vstd::set_lib::lemma_int_range(0, 8);
    vstd::set_lib::lemma_map_size(marks, covered, pick_of);
    let slots = vstd::set_lib::set_int_range(0, picks.len() as int);
    vstd::set_lib::lemma_int_range(0, picks.len() as int);
    assert forall|j: int| covered.contains(j) implies slots.contains(j) by {
        let m = choose|m: int| marks.contains(m) && pick_of(m) == j;
    }
    vstd::set_lib::lemma_len_subset(covered, slots);
}

/// An image at least 200 pixels tall always gets exactly 8 stroke rows,
/// each a row of the image, pairwise at least `h / 24` rows apart: the
/// spacing leaves room for 8 of them however the rows are ranked.
pub proof fn stroke_rows_are_eight(p: Seq<[u8; 4]>, w: nat, h: nat)
    requires
        200 <= h <= usize::MAX,
    ensures
        ({
            let rows = stroke_rows_of(p, w, h);
            &&& rows.len() == 8
            &&& forall|a: int| 0 <= a < 8 ==> #[trigger] rows[a] < h
            &&& forall|a: int, b: int|
                0 <= a < b < 8 ==> row_gap(#[trigger] rows[a], #[trigger] rows[b]) >= h / 24
        }),
{
    broadcast use vstd::seq_lib::group_to_multiset_ensures;

    let kernel = if h / 60 > 3 {
        h / 60
    } else {
        3
    };
    let gap: nat = h / 24;
    assert(gap >= 8);
    let d = smoothed_profile(row_profile(p, w, h), kernel);
    let order = band_order(d);
    let rows = greedy_bands(order, 8, gap);
    assert(rows == stroke_rows_of(p, w, h));
    top_bands_densest_first_and_maximal(d, 8, gap);
    greedy_bands_spread(order, 8, gap);
    if rows.len() < 8 {
        assert(7 * (2 * gap - 1) < h);
        lemma_covering_picks_are_eight(rows, gap, h);
    }
    let all = Seq::new(d.len(), |i: int| i as usize);
    lemma_band_le_total(d);
    all.lemma_sort_by_ensures(band_le(d));
    assert forall|a: int| 0 <= a < 8 implies #[trigger] rows[a] < h by {
        assert(order.contains(rows[a]));
        if !all.contains(rows[a]) {
            assert(!order.contains(rows[a]));
        }
        let i = choose|i: int| 0 <= i < all.len() && all[i] == rows[a];
    }
}

} // verus!

//! Post-render perturbation of the watermark overlay: small random changes
//! that make every render different while keeping its look.
use vstd::prelude::*;
use vstd::arithmetic::div_mod::lemma_fundamental_div_mod;
use crate::pixmap::Pixmap;
use crate::random::{thread_rng, random_in, random_ratio};

verus! {

// ── Geometry of the pixel grid ──────────────────────────────────────────────

pub open spec fn pix_index(w: nat, x: int, y: int) -> int {
    y * w + x
}

pub open spec fn in_bounds(w: nat, h: nat, x: int, y: int) -> bool {
    0 <= x < w && 0 <= y < h
}

/// `(x, y)` is on the grid and the pixel there is not fully transparent.
pub open spec fn visible_at(p: Seq<[u8; 4]>, w: nat, h: nat, x: int, y: int) -> bool {
    in_bounds(w, h, x, y) && p[pix_index(w, x, y)][3] > 0
}

/// `(x, y)` is on the grid and the pixel there is fully transparent.
pub open spec fn open_at(p: Seq<[u8; 4]>, w: nat, h: nat, x: int, y: int) -> bool {
    in_bounds(w, h, x, y) && p[pix_index(w, x, y)][3] == 0
}

/// The four neighbours, in the order left, right, up, down.
pub open spec fn nb_dx(k: int) -> int {
    if k == 0 {
        -1
    } else if k == 1 {
        1
    } else {
        0
    }
}

pub open spec fn nb_dy(k: int) -> int {
    if k == 2 {
        -1
    } else if k == 3 {
        1
    } else {
        0
    }
}

/// Channel `c` of neighbour `k` of `(x, y)` in `q` when that neighbour is
/// visible in `p`, else 0.
pub open spec fn nb_term(
    p: Seq<[u8; 4]>,
    q: Seq<[u8; 4]>,
    w: nat,
    h: nat,
    x: int,
    y: int,
    c: int,
    k: int,
) -> int {
    if visible_at(p, w, h, x + nb_dx(k), y + nb_dy(k)) {
        q[pix_index(w, x + nb_dx(k), y + nb_dy(k))][c] as int
    } else {
        0
    }
}

/// Sum of `nb_term` over the first `k` neighbours.
pub open spec fn nb_partial_sum(
    p: Seq<[u8; 4]>,
    q: Seq<[u8; 4]>,
    w: nat,
    h: nat,
    x: int,
    y: int,
    c: int,
    k: int,
) -> int
    decreases k,
{
    if k <= 0 {
        0
    } else {
        nb_partial_sum(p, q, w, h, x, y, c, k - 1) + nb_term(p, q, w, h, x, y, c, k - 1)
    }
}

/// Number of visible neighbours among the first `k`.
pub open spec fn nb_partial_count(p: Seq<[u8; 4]>, w: nat, h: nat, x: int, y: int, k: int) -> int
    decreases k,
{
    if k <= 0 {
        0
    } else {
        nb_partial_count(p, w, h, x, y, k - 1) + if visible_at(
            p,
            w,
            h,
            x + nb_dx(k - 1),
            y + nb_dy(k - 1),
        ) {
            1int
        } else {
            0int
        }
    }
}

/// The first transparent on-grid neighbour of `(x, y)` from neighbour `k` on.
pub open spec fn first_open(p: Seq<[u8; 4]>, w: nat, h: nat, x: int, y: int, k: int) -> Option<
    (int, int),
>
    decreases 4 - k,
{
    if k >= 4 || k < 0 {
        None
    } else if open_at(p, w, h, x + nb_dx(k), y + nb_dy(k)) {
        Some((x + nb_dx(k), y + nb_dy(k)))
    } else {
        first_open(p, w, h, x, y, k + 1)
    }
}

// ── Dominant color ──────────────────────────────────────────────────────────

/// Number of visible pixels.
pub open spec fn visible_count(p: Seq<[u8; 4]>) -> nat
    decreases p.len(),
{
    if p.len() == 0 {
        0
    } else {
        visible_count(p.drop_last()) + if p.last()[3] > 0 {
            1nat
        } else {
            0nat
        }
    }
}

/// Sum of channel `c` over the visible pixels.
pub open spec fn visible_sum(p: Seq<[u8; 4]>, c: int) -> nat
    decreases p.len(),
{
    if p.len() == 0 {
        0
    } else {
        visible_sum(p.drop_last(), c) + if p.last()[3] > 0 {
            p.last()[c] as nat
        } else {
            0nat
        }
    }
}

/// Channel `c` of the dominant watermark color: the mean over the visible
/// pixels, rounded down.
pub open spec fn dominant(p: Seq<[u8; 4]>, c: int) -> int {
    visible_sum(p, c) as int / visible_count(p) as int
}

// ── The random draws of one pixel ───────────────────────────────────────────

/// The random values the perturbation may use at one pixel.
#[derive(Clone, Copy, Debug, PartialEq, Eq, Structural)]
pub struct PixelDraws {
    /// Alpha jitter of a visible pixel, in `-10..=10`.
    pub alpha: i8,
    /// Color noise of a visible pixel, each in `-4..=4`.
    pub red: i8,
    pub green: i8,
    pub blue: i8,
    /// Whether a visible pixel on an alpha boundary places a micro-dot
    /// (chance 3 in 100).
    pub dot_on: bool,
    /// Alpha of that micro-dot, in `20..=60`.
    pub dot_alpha: u8,
    /// Whether a pixel still transparent after the micro-dots becomes a
    /// ghost pixel (chance 1 in 200).
    pub ghost_on: bool,
    /// Alpha of that ghost pixel, in `3..=8`.
    pub ghost_alpha: u8,
}

/// Every value of `d` lies in the range it is drawn from.
pub open spec fn draws_in_range(d: PixelDraws) -> bool {
    &&& -10 <= d.alpha <= 10
    &&& -4 <= d.red <= 4
    &&& -4 <= d.green <= 4
    &&& -4 <= d.blue <= 4
    &&& 20 <= d.dot_alpha <= 60
    &&& 3 <= d.ghost_alpha <= 8
}

// ── What the perturbation makes of each pixel ──────────────────────────────

pub open spec fn clamp_int(v: int, lo: int, hi: int) -> int {
    if v < lo {
        lo
    } else if v > hi {
        hi
    } else {
        v
    }
}

/// A visible pixel after jitter: alpha moved by `d.alpha` and kept in
/// `1..=255`, each color channel moved by its noise and kept in `0..=255`.
pub open spec fn jitter_pixel(px: [u8; 4], d: PixelDraws) -> [u8; 4] {
    [
        clamp_int(px[0] + d.red, 0, 255) as u8,
        clamp_int(px[1] + d.green, 0, 255) as u8,
        clamp_int(px[2] + d.blue, 0, 255) as u8,
        clamp_int(px[3] + d.alpha, 1, 255) as u8,
    ]
}

/// The image after jitter: visible pixels jittered, transparent ones kept.
pub open spec fn jittered_image(p: Seq<[u8; 4]>, ds: Seq<PixelDraws>) -> Seq<[u8; 4]> {
    Seq::new(
        p.len(),
        |i: int|
            if p[i][3] > 0 {
                jitter_pixel(p[i], ds[i])
            } else {
                p[i]
            },
    )
}

/// The visible pixel `(ex, ey)` places its micro-dot on `(tx, ty)`: its draw
/// says so, it has a visible neighbour to take a color from, and `(tx, ty)`
/// is its first transparent neighbour.
pub open spec fn dot_qualifies(
    p: Seq<[u8; 4]>,
    ds: Seq<PixelDraws>,
    w: nat,
    h: nat,
    ex: int,
    ey: int,
    tx: int,
    ty: int,
) -> bool {
    &&& visible_at(p, w, h, ex, ey)
    &&& ds[pix_index(w, ex, ey)].dot_on
    &&& nb_partial_count(p, w, h, ex, ey, 4) > 0
    &&& first_open(p, w, h, ex, ey, 0) == Some((tx, ty))
}

/// The neighbours of `(x, y)` from the last in row-major order to the first:
/// below, right, left, above.
pub open spec fn dot_candidate(x: int, y: int, k: int) -> (int, int) {
    if k == 0 {
        (x, y + 1)
    } else if k == 1 {
        (x + 1, y)
    } else if k == 2 {
        (x - 1, y)
    } else {
        (x, y - 1)
    }
}

/// The pixel whose micro-dot `(x, y)` holds once the pixels before position
/// `limit` have placed theirs: the last of them, in row-major order, that
/// places its dot there (candidates from `k` on).
pub open spec fn dot_source(
    p: Seq<[u8; 4]>,
    ds: Seq<PixelDraws>,
    w: nat,
    h: nat,
    x: int,
    y: int,
    limit: int,
    k: int,
) -> Option<(int, int)>
    decreases 4 - k,
{
    if k >= 4 || k < 0 {
        None
    } else {
        let (ex, ey) = dot_candidate(x, y, k);
        if pix_index(w, ex, ey) < limit && dot_qualifies(p, ds, w, h, ex, ey, x, y) {
            Some((ex, ey))
        } else {
            dot_source(p, ds, w, h, x, y, limit, k + 1)
        }
    }
}

/// The micro-dot of `(ex, ey)`: the mean color of its visible neighbours
/// after jitter, rounded down, at its drawn alpha.
pub open spec fn dot_pixel(p: Seq<[u8; 4]>, ds: Seq<PixelDraws>, w: nat, h: nat, ex: int, ey: int) -> [u8; 4] {
    let q = jittered_image(p, ds);
    let n = nb_partial_count(p, w, h, ex, ey, 4);
    [
        (nb_partial_sum(p, q, w, h, ex, ey, 0, 4) / n) as u8,
        (nb_partial_sum(p, q, w, h, ex, ey, 1, 4) / n) as u8,
        (nb_partial_sum(p, q, w, h, ex, ey, 2, 4) / n) as u8,
        ds[pix_index(w, ex, ey)].dot_alpha,
    ]
}

/// The transparent pixel `(x, y)` once the pixels before position `limit`
/// have placed their micro-dots.
pub open spec fn dotted_pixel(
    p: Seq<[u8; 4]>,
    ds: Seq<PixelDraws>,
    w: nat,
    h: nat,
    x: int,
    y: int,
    limit: int,
) -> [u8; 4] {
    match dot_source(p, ds, w, h, x, y, limit, 0) {
        Some((ex, ey)) => dot_pixel(p, ds, w, h, ex, ey),
        None => p[pix_index(w, x, y)],
    }
}

/// Pixel `i` after the perturbation: a visible pixel is jittered; a
/// transparent one may take a micro-dot, and if it is still transparent
/// then, may become a ghost pixel of the dominant color.
pub open spec fn perturbed_pixel(p: Seq<[u8; 4]>, ds: Seq<PixelDraws>, w: nat, h: nat, i: int) -> [u8; 4] {
    if p[i][3] > 0 {
        jitter_pixel(p[i], ds[i])
    } else {
        let base = dotted_pixel(p, ds, w, h, i % (w as int), i / (w as int), p.len() as int);
        if base[3] == 0 && ds[i].ghost_on {
            [
                dominant(p, 0) as u8,
                dominant(p, 1) as u8,
                dominant(p, 2) as u8,
                ds[i].ghost_alpha,
            ]
        } else {
            base
        }
    }
}

/// The whole image after the perturbation; an image with no visible pixel
/// is left as it is.
pub open spec fn perturbed_image(p: Seq<[u8; 4]>, ds: Seq<PixelDraws>, w: nat, h: nat) -> Seq<[u8; 4]> {
    if visible_count(p) == 0 {
        p
    } else {
        Seq::new(p.len(), |i: int| perturbed_pixel(p, ds, w, h, i))
    }
}

/// Pixel `j` between the micro-dot pass and the ghost pass, after the pixels
/// before position `limit` have placed their dots.
pub open spec fn stage_pixel(p: Seq<[u8; 4]>, ds: Seq<PixelDraws>, w: nat, h: nat, j: int, limit: int) -> [u8; 4] {
    if p[j][3] > 0 {
        jitter_pixel(p[j], ds[j])
    } else {
        dotted_pixel(p, ds, w, h, j % (w as int), j / (w as int), limit)
    }
}

// ── Lemmas ──────────────────────────────────────────────────────────────────

proof fn lemma_index_in_range(w: nat, h: nat, x: int, y: int)
    requires
        in_bounds(w, h, x, y),
    ensures
        0 <= pix_index(w, x, y) < w * h,
{
    assert(0 <= y * w + x < w * h) by (nonlinear_arith)
        requires
            0 <= x < w,
            0 <= y < h,
    ;
}

proof fn lemma_coords(i: int, w: nat, h: nat)
    requires
        0 <= i < w * h,
    ensures
        w > 0,
        0 <= i % (w as int) < w,
        0 <= i / (w as int) < h,
        pix_index(w, i % (w as int), i / (w as int)) == i,
{
    assert(w > 0) by (nonlinear_arith)
        requires
            0 <= i < w * h,
    ;
    lemma_fundamental_div_mod(i, w as int);
    let q = i / (w as int);
    let r = i % (w as int);
    assert(0 <= r < w);
    assert(0 <= q < h) by (nonlinear_arith)
        requires
            i == w * q + r,
            0 <= r < w,
            0 <= i < w * h,
            w > 0,
    ;
    assert(q * w == w * q) by (nonlinear_arith);
}

proof fn lemma_partial_stable(
    p: Seq<[u8; 4]>,
    q1: Seq<[u8; 4]>,
    q2: Seq<[u8; 4]>,
    w: nat,
    h: nat,
    x: int,
    y: int,
    c: int,
    k: int,
)
    requires
        p.len() == w * h,
        forall|j: int| 0 <= j < p.len() && p[j][3] > 0 ==> q1[j] == q2[j],
    ensures
        nb_partial_sum(p, q1, w, h, x, y, c, k) == nb_partial_sum(p, q2, w, h, x, y, c, k),
    decreases k,
{
    if k > 0 {
        lemma_partial_stable(p, q1, q2, w, h, x, y, c, k - 1);
        if visible_at(p, w, h, x + nb_dx(k - 1), y + nb_dy(k - 1)) {
            lemma_index_in_range(w, h, x + nb_dx(k - 1), y + nb_dy(k - 1));
        }
    }
}

proof fn lemma_partial_bound(p: Seq<[u8; 4]>, q: Seq<[u8; 4]>, w: nat, h: nat, x: int, y: int, c: int, k: int)
    requires
        0 <= c < 4,
    ensures
        0 <= nb_partial_sum(p, q, w, h, x, y, c, k) <= 255 * nb_partial_count(p, w, h, x, y, k),
        0 <= nb_partial_count(p, w, h, x, y, k),
    decreases k,
{
    if k > 0 {
        lemma_partial_bound(p, q, w, h, x, y, c, k - 1);
    }
}

proof fn lemma_visible_prefix(p: Seq<[u8; 4]>, i: int, c: int)
    requires
        0 <= i < p.len(),
    ensures
        p.take(i + 1).drop_last() == p.take(i),
        p.take(i + 1).last() == p[i],
{
    assert(p.take(i + 1).drop_last() =~= p.take(i));
}

proof fn lemma_visible_sum_bound(p: Seq<[u8; 4]>, c: int)
    requires
        0 <= c < 4,
    ensures
        visible_sum(p, c) <= 255 * visible_count(p),
    decreases p.len(),
{
    if p.len() > 0 {
        lemma_visible_sum_bound(p.drop_last(), c);
    }
}

proof fn lemma_first_open(p: Seq<[u8; 4]>, w: nat, h: nat, x: int, y: int, k: int)
    ensures
        first_open(p, w, h, x, y, k) matches Some((a, b)) ==> {
            &&& open_at(p, w, h, a, b)
            &&& (a, b) == (x - 1, y) || (a, b) == (x + 1, y) || (a, b) == (x, y - 1) || (a, b) == (
                x,
                y + 1,
            )
        },
    decreases 4 - k,
{
    if 0 <= k < 4 && !open_at(p, w, h, x + nb_dx(k), y + nb_dy(k)) {
        lemma_first_open(p, w, h, x, y, k + 1);
    }
}

/// Two on-grid positions with the same row-major index are the same.
proof fn lemma_index_injective(w: nat, h: nat, x1: int, y1: int, x2: int, y2: int)
    requires
        in_bounds(w, h, x1, y1),
        in_bounds(w, h, x2, y2),
        pix_index(w, x1, y1) == pix_index(w, x2, y2),
    ensures
        x1 == x2,
        y1 == y2,
{
    let i = pix_index(w, x1, y1);
    vstd::arithmetic::div_mod::lemma_fundamental_div_mod_converse(i, w as int, y1, x1);
    vstd::arithmetic::div_mod::lemma_fundamental_div_mod_converse(i, w as int, y2, x2);
}

/// The coordinates of an on-grid position, read back from its index.
proof fn lemma_index_coords(w: nat, h: nat, x: int, y: int)
    requires
        in_bounds(w, h, x, y),
    ensures
        pix_index(w, x, y) % (w as int) == x,
        pix_index(w, x, y) / (w as int) == y,
{
    vstd::arithmetic::div_mod::lemma_fundamental_div_mod_converse(pix_index(w, x, y), w as int, y, x);
}

/// Before any pixel has placed its micro-dot, no position holds one.
proof fn lemma_dot_source_none(
    p: Seq<[u8; 4]>,
    ds: Seq<PixelDraws>,
    w: nat,
    h: nat,
    x: int,
    y: int,
    k: int,
)
    ensures
        dot_source(p, ds, w, h, x, y, 0, k) is None,
    decreases 4 - k,
{
    if 0 <= k < 4 {
        let (ex, ey) = dot_candidate(x, y, k);
        if dot_qualifies(p, ds, w, h, ex, ey, x, y) {
            lemma_index_in_range(w, h, ex, ey);
        }
        lemma_dot_source_none(p, ds, w, h, x, y, k + 1);
    }
}

/// Letting the pixel at position `limit` take its turn changes nothing at
/// `(x, y)` when no pixel at that position places its dot there.
proof fn lemma_dot_source_step(
    p: Seq<[u8; 4]>,
    ds: Seq<PixelDraws>,
    w: nat,
    h: nat,
    x: int,
    y: int,
    limit: int,
    k: int,
)
    requires
        forall|ex: int, ey: int|
            pix_index(w, ex, ey) == limit ==> !#[trigger] dot_qualifies(p, ds, w, h, ex, ey, x, y),
    ensures
        dot_source(p, ds, w, h, x, y, limit + 1, k) == dot_source(p, ds, w, h, x, y, limit, k),
    decreases 4 - k,
{
    if 0 <= k < 4 {
        let (ex, ey) = dot_candidate(x, y, k);
        assert(pix_index(w, ex, ey) == limit ==> !dot_qualifies(p, ds, w, h, ex, ey, x, y));
        lemma_dot_source_step(p, ds, w, h, x, y, limit, k + 1);
    }
}

/// The turn of the on-grid pixel `(x, y)` changes nothing at `(jx, jy)`
/// when it does not place its dot there.
proof fn lemma_turn_elsewhere(
    p: Seq<[u8; 4]>,
    ds: Seq<PixelDraws>,
    w: nat,
    h: nat,
    x: int,
    y: int,
    jx: int,
    jy: int,
)
    requires
        in_bounds(w, h, x, y),
        !dot_qualifies(p, ds, w, h, x, y, jx, jy),
    ensures
        dot_source(p, ds, w, h, jx, jy, pix_index(w, x, y) + 1, 0) == dot_source(
            p,
            ds,
            w,
            h,
            jx,
            jy,
            pix_index(w, x, y),
            0,
        ),
{
    let limit = pix_index(w, x, y);
    assert forall|ex: int, ey: int| pix_index(w, ex, ey) == limit implies !#[trigger] dot_qualifies(
        p,
        ds,
        w,
        h,
        ex,
        ey,
        jx,
        jy,
    ) by {
        if dot_qualifies(p, ds, w, h, ex, ey, jx, jy) {
            lemma_index_injective(w, h, ex, ey, x, y);
        }
    }
    lemma_dot_source_step(p, ds, w, h, jx, jy, limit, 0);
}

/// When the pixel `(ex, ey)` at position `limit` places its dot on `(tx, ty)`,
/// that dot is the one `(tx, ty)` holds after its turn: every neighbour that
/// would take precedence comes later in row-major order.
proof fn lemma_dot_source_hit(
    p: Seq<[u8; 4]>,
    ds: Seq<PixelDraws>,
    w: nat,
    h: nat,
    tx: int,
    ty: int,
    ex: int,
    ey: int,
)
    requires
        in_bounds(w, h, tx, ty),
        dot_qualifies(p, ds, w, h, ex, ey, tx, ty),
        (tx, ty) == (ex - 1, ey) || (tx, ty) == (ex + 1, ey) || (tx, ty) == (ex, ey - 1) || (tx, ty)
            == (ex, ey + 1),
    ensures
        dot_source(p, ds, w, h, tx, ty, pix_index(w, ex, ey) + 1, 0) == Some((ex, ey)),
{
    reveal_with_fuel(dot_source, 5);
    let t = pix_index(w, tx, ty);
    assert((ty + 1) * w == ty * w + w) by (nonlinear_arith);
    assert((ty - 1) * w == ty * w - w) by (nonlinear_arith);
    assert(pix_index(w, tx + 1, ty) == t + 1);
    assert(pix_index(w, tx - 1, ty) == t - 1);
}

/// Clamps `v` into `lo..=hi`.
fn clamp_to_u8(v: i32, lo: i32, hi: i32) -> (r: u8)
    requires
        0 <= lo <= hi <= 255,
    ensures
        r as int == if v < lo {
            lo as int
        } else if v > hi {
            hi as int
        } else {
            v as int
        },
{
    if v < lo {
        lo as u8
    } else if v > hi {
        hi as u8
    } else {
        v as u8
    }
}

/// Position of neighbour `k` of `(x, y)` (pixel `i`), if on the grid.
fn neighbor_index(w: usize, h: usize, i: usize, x: usize, y: usize, k: usize) -> (r: Option<usize>)
    requires
        x < w,
        y < h,
        i == pix_index(w as nat, x as int, y as int),
        w * h <= usize::MAX,
        k < 4,
    ensures
        r is Some <==> in_bounds(w as nat, h as nat, x + nb_dx(k as int), y + nb_dy(k as int)),
        r matches Some(j) ==> j == pix_index(w as nat, x + nb_dx(k as int), y + nb_dy(k as int)),
        r matches Some(j) ==> j < w * h,
{
    proof {
        lemma_index_in_range(w as nat, h as nat, x as int, y as int);
    }
    if k == 0 {
        if x > 0 {
            Some(i - 1)
        } else {
            None
        }
    } else if k == 1 {
        if x + 1 < w {
            proof {
                lemma_index_in_range(w as nat, h as nat, x + 1, y as int);
            }
            Some(i + 1)
        } else {
            None
        }
    } else if k == 2 {
        if y > 0 {
            proof {
                assert((y - 1) * w == y * w - w) by (nonlinear_arith);
            }
            Some(i - w)
        } else {
            None
        }
    } else {
        if y + 1 < h {
            proof {
                lemma_index_in_range(w as nat, h as nat, x as int, y + 1);
                assert((y + 1) * w == y * w + w) by (nonlinear_arith);
            }
            Some(i + w)
        } else {
            None
        }
    }
}

/// Alpha of neighbour `k` in the snapshot, 0 off the grid.
fn snapshot_alpha(snap: &Vec<u8>, w: usize, h: usize, i: usize, x: usize, y: usize, k: usize) -> (a: u8)
    requires
        x < w,
        y < h,
        i == pix_index(w as nat, x as int, y as int),
        w * h <= usize::MAX,
        snap@.len() == w * h,
        k < 4,
    ensures
        a == 0 <==> !in_bounds(w as nat, h as nat, x + nb_dx(k as int), y + nb_dy(k as int))
            || snap@[pix_index(w as nat, x + nb_dx(k as int), y + nb_dy(k as int))] == 0,
{
    match neighbor_index(w, h, i, x, y, k) {
        Some(j) => snap[j],
        None => 0,
    }
}

/// Sums of the color channels over the visible neighbours of `(x, y)`, and
/// their number.
fn neighbor_sums(
    wm: &Pixmap,
    snap: &Vec<u8>,
    w: usize,
    h: usize,
    i: usize,
    x: usize,
    y: usize,
    Ghost(p): Ghost<Seq<[u8; 4]>>,
) -> (r: (u32, u32, u32, u32))
    requires
        x < w,
        y < h,
        i == pix_index(w as nat, x as int, y as int),
        w * h <= usize::MAX,
        p.len() == w * h,
        wm@.len() == w * h,
        snap@.len() == w * h,
        forall|j: int| 0 <= j < p.len() ==> (#[trigger] snap@[j] > 0) == (p[j][3] > 0),
    ensures
        r.3 == nb_partial_count(p, w as nat, h as nat, x as int, y as int, 4),
        r.0 == nb_partial_sum(p, wm@, w as nat, h as nat, x as int, y as int, 0, 4),
        r.1 == nb_partial_sum(p, wm@, w as nat, h as nat, x as int, y as int, 1, 4),
        r.2 == nb_partial_sum(p, wm@, w as nat, h as nat, x as int, y as int, 2, 4),
{
    let ghost (wn, hn, xi, yi) = (w as nat, h as nat, x as int, y as int);
    let mut sr: u32 = 0;
    let mut sg: u32 = 0;
    let mut sb: u32 = 0;
    let mut nc: u32 = 0;
    let mut k: usize = 0;
    while k < 4
        invariant
            x < w,
            y < h,
            i == pix_index(wn, xi, yi),
            w * h <= usize::MAX,
            p.len() == w * h,
            wm@.len() == w * h,
            snap@.len() == w * h,
            forall|j: int| 0 <= j < p.len() ==> (#[trigger] snap@[j] > 0) == (p[j][3] > 0),
            wn == w,
            hn == h,
            xi == x,
            yi == y,
            k <= 4,
            nc == nb_partial_count(p, wn, hn, xi, yi, k as int),
            sr == nb_partial_sum(p, wm@, wn, hn, xi, yi, 0, k as int),
            sg == nb_partial_sum(p, wm@, wn, hn, xi, yi, 1, k as int),
            sb == nb_partial_sum(p, wm@, wn, hn, xi, yi, 2, k as int),
            nc <= k,
            sr <= 255 * k,
            sg <= 255 * k,
            sb <= 255 * k,
        decreases 4 - k,
    {
        match neighbor_index(w, h, i, x, y, k) {
            Some(j) => {
                if snap[j] > 0 {
                    let q = wm.pixel_at(j);
                    sr = sr + q[0] as u32;
                    sg = sg + q[1] as u32;
                    sb = sb + q[2] as u32;
                    nc = nc + 1;
                }
            },
            None => {},
        }
        k = k + 1;
    }
    (sr, sg, sb, nc)
}

/// The first transparent on-grid neighbour of `(x, y)`.
fn first_open_neighbor(
    snap: &Vec<u8>,
    w: usize,
    h: usize,
    i: usize,
    x: usize,
    y: usize,
    Ghost(p): Ghost<Seq<[u8; 4]>>,
) -> (r: Option<usize>)
    requires
        x < w,
        y < h,
        i == pix_index(w as nat, x as int, y as int),
        w * h <= usize::MAX,
        p.len() == w * h,
        snap@.len() == w * h,
        forall|j: int| 0 <= j < p.len() ==> (#[trigger] snap@[j] > 0) == (p[j][3] > 0),
    ensures
        match first_open(p, w as nat, h as nat, x as int, y as int, 0) {
            Some((tx, ty)) => r == Some(pix_index(w as nat, tx, ty) as usize) && in_bounds(
                w as nat,
                h as nat,
                tx,
                ty,
            ),
            None => r is None,
        },
        r matches Some(t) ==> t < w * h && p[t as int][3] == 0,
{
    proof {
        lemma_first_open(p, w as nat, h as nat, x as int, y as int, 0);
        match first_open(p, w as nat, h as nat, x as int, y as int, 0) {
            Some((a, b)) => {
                lemma_index_in_range(w as nat, h as nat, a, b);
            },
            None => {},
        }
    }
    let mut k: usize = 0;
    while k < 4
        invariant
            x < w,
            y < h,
            i == pix_index(w as nat, x as int, y as int),
            w * h <= usize::MAX,
            p.len() == w * h,
            snap@.len() == w * h,
            forall|j: int| 0 <= j < p.len() ==> (#[trigger] snap@[j] > 0) == (p[j][3] > 0),
            k <= 4,
            first_open(p, w as nat, h as nat, x as int, y as int, 0) == first_open(
                p,
                w as nat,
                h as nat,
                x as int,
                y as int,
                k as int,
            ),
        decreases 4 - k,
    {
        match neighbor_index(w, h, i, x, y, k) {
            Some(j) => {
                if snap[j] == 0 {
                    return Some(j);
                }
            },
            None => {},
        }
        k = k + 1;
    }
    None
}

/// The turn of pixel `i` in the micro-dot pass: if it is visible, on an alpha
/// boundary, its draw says so, and it has a visible neighbour, it places a
/// dot in the mean neighbour color on its first transparent neighbour.
fn place_dot(
    wm: &mut Pixmap,
    snap: &Vec<u8>,
    draws: &Vec<PixelDraws>,
    w: usize,
    h: usize,
    i: usize,
    Ghost(p): Ghost<Seq<[u8; 4]>>,
)
    requires
        i < w * h,
        w * h <= usize::MAX,
        p.len() == w * h,
        draws@.len() == w * h,
        old(wm)@.len() == w * h,
        snap@.len() == w * h,
        forall|j: int| 0 <= j < p.len() ==> (#[trigger] snap@[j] > 0) == (p[j][3] > 0),
        forall|j: int|
            0 <= j < w * h ==> #[trigger] old(wm)@[j] == stage_pixel(
                p,
                draws@,
                w as nat,
                h as nat,
                j,
                i as int,
            ),
    ensures
        final(wm)@.len() == w * h,
        final(wm).spec_width() == old(wm).spec_width(),
        final(wm).spec_height() == old(wm).spec_height(),
        forall|j: int|
            0 <= j < w * h ==> #[trigger] final(wm)@[j] == stage_pixel(
                p,
                draws@,
                w as nat,
                h as nat,
                j,
                i + 1,
            ),
{
    let ghost (wn, hn, ds) = (w as nat, h as nat, draws@);
    let ghost jit = jittered_image(p, ds);
    proof {
        lemma_coords(i as int, wn, hn);
    }
    let x = i % w;
    let y = i / w;
    let ghost (xi, yi) = (x as int, y as int);
    let ghost before = wm@;
    proof {
        lemma_first_open(p, wn, hn, xi, yi, 0);
        if in_bounds(wn, hn, xi - 1, yi) {
            lemma_index_in_range(wn, hn, xi - 1, yi);
        }
        if in_bounds(wn, hn, xi + 1, yi) {
            lemma_index_in_range(wn, hn, xi + 1, yi);
        }
        if in_bounds(wn, hn, xi, yi - 1) {
            lemma_index_in_range(wn, hn, xi, yi - 1);
        }
        if in_bounds(wn, hn, xi, yi + 1) {
            lemma_index_in_range(wn, hn, xi, yi + 1);
        }
        assert forall|m: int| 0 <= m < p.len() && p[m][3] > 0 implies before[m] == jit[m] by {
            assert(before[m] == stage_pixel(p, ds, wn, hn, m, i as int));
        }
    }
    if snap[i] > 0 {
        let is_edge = snapshot_alpha(snap, w, h, i, x, y, 0) == 0 || snapshot_alpha(
            snap,
            w,
            h,
            i,
            x,
            y,
            1,
        ) == 0 || snapshot_alpha(snap, w, h, i, x, y, 2) == 0 || snapshot_alpha(
            snap,
            w,
            h,
            i,
            x,
            y,
            3,
        ) == 0;
        if is_edge && draws[i].dot_on {
            let (nr, ng, nb, nc) = neighbor_sums(wm, snap, w, h, i, x, y, Ghost(p));
            proof {
                lemma_partial_bound(p, before, wn, hn, xi, yi, 0, 4);
                lemma_partial_bound(p, before, wn, hn, xi, yi, 1, 4);
                lemma_partial_bound(p, before, wn, hn, xi, yi, 2, 4);
                lemma_partial_stable(p, before, jit, wn, hn, xi, yi, 0, 4);
                lemma_partial_stable(p, before, jit, wn, hn, xi, yi, 1, 4);
                lemma_partial_stable(p, before, jit, wn, hn, xi, yi, 2, 4);
            }
            if nc > 0 {
                match first_open_neighbor(snap, w, h, i, x, y, Ghost(p)) {
                    Some(t) => {
                        assert(nr / nc <= 255 && ng / nc <= 255 && nb / nc <= 255) by (nonlinear_arith)
                            requires
                                nr <= 255 * nc,
                                ng <= 255 * nc,
                                nb <= 255 * nc,
                                nc > 0,
                        ;
                        let dot = [
                            (nr / nc) as u8,
                            (ng / nc) as u8,
                            (nb / nc) as u8,
                            draws[i].dot_alpha,
                        ];
                        wm.set_pixel_at(t, dot);
                        proof {
                            let (tx, ty) = first_open(p, wn, hn, xi, yi, 0)->0;
                            assert(dot_qualifies(p, ds, wn, hn, xi, yi, tx, ty));
                            assert(dot =~= dot_pixel(p, ds, wn, hn, xi, yi));
                            lemma_index_coords(wn, hn, tx, ty);
                            lemma_dot_source_hit(p, ds, wn, hn, tx, ty, xi, yi);
                            assert forall|j: int| 0 <= j < w * h implies #[trigger] wm@[j]
                                == stage_pixel(p, ds, wn, hn, j, i + 1) by {
                                assert(before[j] == stage_pixel(p, ds, wn, hn, j, i as int));
                                if j != t && p[j][3] == 0 {
                                    lemma_coords(j, wn, hn);
                                    let (jx, jy) = (j % (w as int), j / (w as int));
                                    if dot_qualifies(p, ds, wn, hn, xi, yi, jx, jy) {
                                        assert((jx, jy) == (tx, ty));
                                    }
                                    lemma_turn_elsewhere(p, ds, wn, hn, xi, yi, jx, jy);
                                }
                            }
                        }
                        return ;
                    },
                    None => {},
                }
            }
        }
    }
    proof {
        assert(pix_index(wn, xi, yi) == i);
        assert(!(visible_at(p, wn, hn, xi, yi) && ds[i as int].dot_on && nb_partial_count(p, wn, hn, xi, yi, 4) > 0
            && first_open(p, wn, hn, xi, yi, 0) is Some));
        assert forall|a: int, b: int| !dot_qualifies(p, ds, wn, hn, xi, yi, a, b) by {}
        assert forall|j: int| 0 <= j < w * h implies #[trigger] wm@[j] == stage_pixel(
            p,
            ds,
            wn,
            hn,
            j,
            i + 1,
        ) by {
            assert(before[j] == stage_pixel(p, ds, wn, hn, j, i as int));
            if p[j][3] == 0 {
                lemma_coords(j, wn, hn);
                lemma_turn_elsewhere(p, ds, wn, hn, xi, yi, j % (w as int), j / (w as int));
            }
        }
    }
}

/// Universal post-render perturbation applied to the watermark overlay
/// before compositing onto the source image, with its random values given
/// in `draws`, one entry per pixel. When the overlay has visible pixels:
///   1. alpha jitter (kept in 1..=255) on every visible pixel,
///   2. color noise per channel (kept in 0..=255) on the same pixels,
///   3. in row-major order, each visible pixel on an alpha boundary whose
///      draw says so places a micro-dot in the mean color of its visible
///      neighbours on its first transparent neighbour (left, right, above,
///      below),
///   4. each pixel still transparent whose draw says so becomes a ghost
///      pixel of the dominant color.
/// An overlay with no visible pixel is left as it is.
pub fn perturb_with(wm: &mut Pixmap, draws: &Vec<PixelDraws>)
    requires
        old(wm).wf(),
        draws@.len() == old(wm)@.len(),
    ensures
        final(wm).spec_width() == old(wm).spec_width(),
        final(wm).spec_height() == old(wm).spec_height(),
        final(wm)@ == perturbed_image(
            old(wm)@,
            draws@,
            old(wm).spec_width(),
            old(wm).spec_height(),
        ),
{
    let ghost p = wm@;
    let ghost ds = draws@;
    let ghost wn = wm.spec_width();
    let ghost hn = wm.spec_height();
    let ghost jit = jittered_image(p, ds);
    let w = wm.width() as usize;
    let h = wm.height() as usize;
    let n = wm.pixel_count();
    assert(n == w * h);

    // Pass 1: the dominant color, the mean of the visible pixels.
    let mut sum_r: u128 = 0;
    let mut sum_g: u128 = 0;
    let mut sum_b: u128 = 0;
    let mut count: u128 = 0;
    let mut i: usize = 0;
    while i < n
        invariant
            n == p.len(),
            wm@ == p,
            i <= n,
            count == visible_count(p.take(i as int)),
            sum_r == visible_sum(p.take(i as int), 0),
            sum_g == visible_sum(p.take(i as int), 1),
            sum_b == visible_sum(p.take(i as int), 2),
            count <= i,
            sum_r <= 255 * i,
            sum_g <= 255 * i,
            sum_b <= 255 * i,
        decreases n - i,
    {
        let px = wm.pixel_at(i);
        proof {
            lemma_visible_prefix(p, i as int, 0);
        }
        if px[3] > 0 {
            sum_r = sum_r + px[0] as u128;
            sum_g = sum_g + px[1] as u128;
            sum_b = sum_b + px[2] as u128;
            count = count + 1;
        }
        i = i + 1;
    }
    assert(p.take(n as int) =~= p);
    if count == 0 {
        return;
    }
    proof {
        lemma_visible_sum_bound(p, 0);
        lemma_visible_sum_bound(p, 1);
        lemma_visible_sum_bound(p, 2);
    }
    assert(sum_r / count <= 255 && sum_g / count <= 255 && sum_b / count <= 255) by (nonlinear_arith)
        requires
            sum_r <= 255 * count,
            sum_g <= 255 * count,
            sum_b <= 255 * count,
            count > 0,
    ;
    let dom_r = (sum_r / count) as u8;
    let dom_g = (sum_g / count) as u8;
    let dom_b = (sum_b / count) as u8;

    // Pass 2: alpha jitter and color noise on every visible pixel.
    let mut i: usize = 0;
    while i < n
        invariant
            n == p.len(),
            ds.len() == n,
            draws@ == ds,
            wm@.len() == n,
            wm.spec_width() == wn,
            wm.spec_height() == hn,
            jit == jittered_image(p, ds),
            i <= n,
            forall|j: int| 0 <= j < i ==> #[trigger] wm@[j] == jit[j],
            forall|j: int| i <= j < n ==> #[trigger] wm@[j] == p[j],
        decreases n - i,
    {
        let px = wm.pixel_at(i);
        if px[3] != 0 {
            let d = draws[i];
            let out = [
                clamp_to_u8(px[0] as i32 + d.red as i32, 0, 255),
                clamp_to_u8(px[1] as i32 + d.green as i32, 0, 255),
                clamp_to_u8(px[2] as i32 + d.blue as i32, 0, 255),
                clamp_to_u8(px[3] as i32 + d.alpha as i32, 1, 255),
            ];
            wm.set_pixel_at(i, out);
            assert(out =~= jitter_pixel(p[i as int], ds[i as int]));
        }
        i = i + 1;
    }

    // Alpha snapshot, to find alpha boundaries.
    let mut snap: Vec<u8> = Vec::new();
    let mut i: usize = 0;
    while i < n
        invariant
            n == p.len(),
            wm@.len() == n,
            jit == jittered_image(p, ds),
            forall|j: int| 0 <= j < n ==> #[trigger] wm@[j] == jit[j],
            i <= n,
            snap@.len() == i,
            forall|j: int| 0 <= j < i ==> #[trigger] snap@[j] == jit[j][3],
        decreases n - i,
    {
        let px = wm.pixel_at(i);
        snap.push(px[3]);
        i = i + 1;
    }
    proof {
        assert forall|j: int| 0 <= j < p.len() implies (#[trigger] snap@[j] > 0) == (p[j][3] > 0) by {
            assert(snap@[j] == jit[j][3]);
        }
        assert forall|j: int| 0 <= j < n implies #[trigger] wm@[j] == stage_pixel(p, ds, wn, hn, j, 0) by {
            if p[j][3] == 0 {
                lemma_coords(j, wn, hn);
                lemma_dot_source_none(p, ds, wn, hn, j % (wn as int), j / (wn as int), 0);
            }
        }
    }

    // Pass 3: edge micro-dots.
    let mut i: usize = 0;
    while i < n
        invariant
            n == p.len(),
            n == w * h,
            ds.len() == n,
            draws@ == ds,
            wn == w,
            hn == h,
            wm@.len() == n,
            wm.spec_width() == wn,
            wm.spec_height() == hn,
            snap@.len() == n,
            forall|j: int| 0 <= j < p.len() ==> (#[trigger] snap@[j] > 0) == (p[j][3] > 0),
            forall|j: int| 0 <= j < n ==> #[trigger] wm@[j] == stage_pixel(p, ds, wn, hn, j, i as int),
            i <= n,
        decreases n - i,
    {
        place_dot(wm, &snap, draws, w, h, i, Ghost(p));
        i = i + 1;
    }

    // Pass 4: sparse ghost pixels.
    let mut i: usize = 0;
    while i < n
        invariant
            n == p.len(),
            ds.len() == n,
            draws@ == ds,
            wm@.len() == n,
            wm.spec_width() == wn,
            wm.spec_height() == hn,
            count == visible_count(p),
            dom_r == dominant(p, 0),
            dom_g == dominant(p, 1),
            dom_b == dominant(p, 2),
            i <= n,
            forall|j: int| 0 <= j < i ==> #[trigger] wm@[j] == perturbed_pixel(p, ds, wn, hn, j),
            forall|j: int| i <= j < n ==> #[trigger] wm@[j] == stage_pixel(p, ds, wn, hn, j, n as int),
        decreases n - i,
    {
        if draws[i].ghost_on {
            let px = wm.pixel_at(i);
            if px[3] == 0 {
                let out = [dom_r, dom_g, dom_b, draws[i].ghost_alpha];
                wm.set_pixel_at(i, out);
                assert(out =~= perturbed_pixel(p, ds, wn, hn, i as int));
            }
        }
        i = i + 1;
    }
    assert(wm@ =~= perturbed_image(p, ds, wn, hn));
}

/// One set of draws for a pixel, taken from the thread-local generator.
fn draw_pixel(rng: &mut rand::rngs::ThreadRng) -> (d: PixelDraws)
    ensures
        draws_in_range(d),
{
    let alpha = random_in(rng, -10, 10) as i8;
    let red = random_in(rng, -4, 4) as i8;
    let green = random_in(rng, -4, 4) as i8;
    let blue = random_in(rng, -4, 4) as i8;
    let dot_on = random_ratio(rng, 3, 100);
    let dot_alpha = random_in(rng, 20, 60) as u8;
    let ghost_on = random_ratio(rng, 1, 200);
    let ghost_alpha = random_in(rng, 3, 8) as u8;
    PixelDraws { alpha, red, green, blue, dot_on, dot_alpha, ghost_on, ghost_alpha }
}

/// Universal post-render perturbation applied to the watermark overlay
/// before compositing onto the source image, with random values from the
/// thread-local generator: alpha jitter of ±10 and color noise of ±4 on
/// visible pixels, micro-dots (chance 3/100, alpha 20..=60) along the alpha
/// boundary, and ghost pixels (chance 1/200, alpha 3..=8) of the dominant
/// color. The result is `perturb_with` for some draws in those ranges.
pub fn perturb(wm: &mut Pixmap)
    requires
        old(wm).wf(),
    ensures
        final(wm).spec_width() == old(wm).spec_width(),
        final(wm).spec_height() == old(wm).spec_height(),
        exists|ds: Seq<PixelDraws>|
            {
                &&& ds.len() == old(wm)@.len()
                &&& forall|i: int| 0 <= i < ds.len() ==> draws_in_range(#[trigger] ds[i])
                &&& final(wm)@ == #[trigger] perturbed_image(
                    old(wm)@,
                    ds,
                    old(wm).spec_width(),
                    old(wm).spec_height(),
                )
            },
{
    let mut rng = thread_rng();
    let n = wm.pixel_count();
    let mut draws: Vec<PixelDraws> = Vec::new();
    let mut i: usize = 0;
    while i < n
        invariant
            i <= n,
            draws@.len() == i,
            forall|j: int| 0 <= j < i ==> draws_in_range(#[trigger] draws@[j]),
        decreases n - i,
    {
        let d = draw_pixel(&mut rng);
        draws.push(d);
        i = i + 1;
    }
    let ghost old_view = wm@;
    perturb_with(wm, &draws);
    assert(wm@ == perturbed_image(old_view, draws@, wm.spec_width(), wm.spec_height()));
}

/// Perturbation with draws in their ranges keeps the shape of the overlay: a
/// visible pixel stays visible with its alpha moved by at most 10 and each
/// color channel by at most 4, and a transparent pixel gains at most alpha 60.
pub proof fn perturb_keeps_coverage(p: Seq<[u8; 4]>, ds: Seq<PixelDraws>, w: nat, h: nat, i: int)
    requires
        p.len() == w * h,
        ds.len() == p.len(),
        forall|j: int| 0 <= j < ds.len() ==> draws_in_range(#[trigger] ds[j]),
        0 <= i < p.len(),
    ensures
        ({
            let q = perturbed_image(p, ds, w, h);
            &&& q.len() == p.len()
            &&& p[i][3] > 0 ==> {
                &&& q[i][3] >= 1
                &&& -10 <= q[i][3] - p[i][3] <= 10
                &&& -4 <= q[i][0] - p[i][0] <= 4
                &&& -4 <= q[i][1] - p[i][1] <= 4
                &&& -4 <= q[i][2] - p[i][2] <= 4
            }
            &&& p[i][3] == 0 ==> q[i][3] <= 60
        }),
{
    assert(draws_in_range(ds[i]));
    if visible_count(p) > 0 && p[i][3] == 0 {
        lemma_coords(i, w, h);
        let (x, y) = (i % (w as int), i / (w as int));
        match dot_source(p, ds, w, h, x, y, p.len() as int, 0) {
            Some((ex, ey)) => {
                lemma_dot_source_in_grid(p, ds, w, h, x, y, p.len() as int, 0);
                lemma_index_in_range(w, h, ex, ey);
                assert(draws_in_range(ds[pix_index(w, ex, ey)]));
            },
            None => {},
        }
    }
}

/// `(x, y)` has a visible pixel among its four neighbours.
pub open spec fn has_visible_neighbour(p: Seq<[u8; 4]>, w: nat, h: nat, x: int, y: int) -> bool {
    ||| visible_at(p, w, h, x - 1, y)
    ||| visible_at(p, w, h, x + 1, y)
    ||| visible_at(p, w, h, x, y - 1)
    ||| visible_at(p, w, h, x, y + 1)
}

/// Micro-dots appear only along the alpha boundary: a transparent pixel with
/// no visible neighbour is left as it is or becomes a ghost pixel, the
/// dominant color at alpha 3 to 8.
pub proof fn perturb_dots_only_at_edges(p: Seq<[u8; 4]>, ds: Seq<PixelDraws>, w: nat, h: nat, i: int)
    requires
        p.len() == w * h,
        ds.len() == p.len(),
        forall|j: int| 0 <= j < ds.len() ==> draws_in_range(#[trigger] ds[j]),
        0 <= i < p.len(),
        p[i][3] == 0,
        !has_visible_neighbour(p, w, h, i % (w as int), i / (w as int)),
    ensures
        ({
            let q = perturbed_image(p, ds, w, h);
            ||| q[i] == p[i]
            ||| {
                &&& q[i][0] == dominant(p, 0)
                &&& q[i][1] == dominant(p, 1)
                &&& q[i][2] == dominant(p, 2)
                &&& 3 <= q[i][3] <= 8
            }
        }),
{
    assert(draws_in_range(ds[i]));
    if visible_count(p) > 0 {
        lemma_coords(i, w, h);
        let (x, y) = (i % (w as int), i / (w as int));
        lemma_dot_source_needs_neighbour(p, ds, w, h, x, y, p.len() as int, 0);
        lemma_dominant_bound(p);
    }
}

/// A position holds a micro-dot only from a visible neighbour.
proof fn lemma_dot_source_needs_neighbour(
    p: Seq<[u8; 4]>,
    ds: Seq<PixelDraws>,
    w: nat,
    h: nat,
    x: int,
    y: int,
    limit: int,
    k: int,
)
    ensures
        dot_source(p, ds, w, h, x, y, limit, k) is Some ==> has_visible_neighbour(p, w, h, x, y),
    decreases 4 - k,
{
    if 0 <= k < 4 {
        lemma_dot_source_needs_neighbour(p, ds, w, h, x, y, limit, k + 1);
    }
}

/// The dominant color of an image with a visible pixel is a color.
proof fn lemma_dominant_bound(p: Seq<[u8; 4]>)
    requires
        visible_count(p) > 0,
    ensures
        0 <= dominant(p, 0) <= 255,
        0 <= dominant(p, 1) <= 255,
        0 <= dominant(p, 2) <= 255,
{
    lemma_visible_sum_bound(p, 0);
    lemma_visible_sum_bound(p, 1);
    lemma_visible_sum_bound(p, 2);
    let n = visible_count(p) as int;
    assert(visible_sum(p, 0) as int / n <= 255) by (nonlinear_arith)
        requires
            visible_sum(p, 0) <= 255 * n,
            n > 0,
    ;
    assert(visible_sum(p, 1) as int / n <= 255) by (nonlinear_arith)
        requires
            visible_sum(p, 1) <= 255 * n,
            n > 0,
    ;
    assert(visible_sum(p, 2) as int / n <= 255) by (nonlinear_arith)
        requires
            visible_sum(p, 2) <= 255 * n,
            n > 0,
    ;
}

/// A pixel whose micro-dot a position holds is on the grid.
proof fn lemma_dot_source_in_grid(
    p: Seq<[u8; 4]>,
    ds: Seq<PixelDraws>,
    w: nat,
    h: nat,
    x: int,
    y: int,
    limit: int,
    k: int,
)
    ensures
        dot_source(p, ds, w, h, x, y, limit, k) matches Some((ex, ey)) ==> in_bounds(w, h, ex, ey),
    decreases 4 - k,
{
    if 0 <= k < 4 {
        lemma_dot_source_in_grid(p, ds, w, h, x, y, limit, k + 1);
    }
}

} // verus!

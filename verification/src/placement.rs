//! Where a rectangle (watermark, QR code) lands on a canvas for each anchor
//! position.
use vstd::prelude::*;
use crate::cli::Position;

verus! {

/// `v as i32`: values above `i32::MAX` wrap around.
pub open spec fn wrap_i32(v: u32) -> int {
    if v <= i32::MAX {
        v as int
    } else {
        v as int - 0x1_0000_0000
    }
}

/// Integer division by two rounding toward zero, as `i32 / 2` does.
pub open spec fn half_toward_zero(a: int) -> int {
    if a >= 0 {
        a / 2
    } else {
        -((-a) / 2)
    }
}

pub open spec fn fits_i32(v: int) -> bool {
    i32::MIN <= v <= i32::MAX
}

/// Top-left corner of a `ww` x `wh` rectangle anchored at `pos` in a
/// `bw` x `bh` canvas, `margin` away from the edges of corner anchors; the
/// centre for `Center`, the origin for `Tile`.
pub open spec fn anchor_spot(bw: int, bh: int, ww: int, wh: int, pos: Position, margin: int) -> (
    int,
    int,
) {
    match pos {
        Position::Center => (half_toward_zero(bw - ww), half_toward_zero(bh - wh)),
        Position::TopLeft => (margin, margin),
        Position::TopRight => (bw - ww - margin, margin),
        Position::BottomLeft => (margin, bh - wh - margin),
        Position::BottomRight => (bw - ww - margin, bh - wh - margin),
        Position::Tile => (0, 0),
    }
}

/// The `i32` arithmetic of `anchor_spot` does not overflow.
pub open spec fn anchor_in_range(bw: int, bh: int, ww: int, wh: int, pos: Position, margin: int) -> bool {
    match pos {
        Position::Center => fits_i32(bw - ww) && fits_i32(bh - wh),
        Position::TopLeft | Position::Tile => true,
        Position::TopRight => fits_i32(bw - ww) && fits_i32(bw - ww - margin),
        Position::BottomLeft => fits_i32(bh - wh) && fits_i32(bh - wh - margin),
        Position::BottomRight => fits_i32(bw - ww) && fits_i32(bw - ww - margin) && fits_i32(
            bh - wh,
        ) && fits_i32(bh - wh - margin),
    }
}

/// The QR placement: like `anchor_spot` on the sizes taken as `i32`, except
/// that `Tile` falls back to the centre.
pub open spec fn qr_spot(cw: u32, ch: u32, qw: u32, qh: u32, pos: Position, margin: u32) -> (
    int,
    int,
) {
    let p = if pos == Position::Tile {
        Position::Center
    } else {
        pos
    };
    anchor_spot(wrap_i32(cw), wrap_i32(ch), wrap_i32(qw), wrap_i32(qh), p, wrap_i32(margin))
}

pub open spec fn qr_in_range(cw: u32, ch: u32, qw: u32, qh: u32, pos: Position, margin: u32) -> bool {
    let p = if pos == Position::Tile {
        Position::Center
    } else {
        pos
    };
    anchor_in_range(wrap_i32(cw), wrap_i32(ch), wrap_i32(qw), wrap_i32(qh), p, wrap_i32(margin))
}

fn to_i32(v: u32) -> (r: i32)
    ensures
        r as int == wrap_i32(v),
{
    let r = v as i32;
    assert(r as int == (if v <= 0x7fff_ffff { v as int } else { v as int - 0x1_0000_0000 }))
        by (bit_vector)
        requires
            r == v as i32,
    ;
    r
}

fn half(a: i32) -> (r: i32)
    ensures
        r as int == half_toward_zero(a as int),
{
    a / 2
}

/// Compute the top-left `(x, y)` for placing a QR code of size `(qw, qh)`
/// inside a canvas of size `(cw, ch)` at the given position with the
/// specified margin. Tiling makes no sense for a QR code: it is centred.
pub fn qr_position(cw: u32, ch: u32, qw: u32, qh: u32, pos: Position, margin: u32) -> (r: (
    i32,
    i32,
))
    requires
        qr_in_range(cw, ch, qw, qh, pos, margin),
    ensures
        (r.0 as int, r.1 as int) == qr_spot(cw, ch, qw, qh, pos, margin),
{
    let (cw, ch, qw, qh, m) = (to_i32(cw), to_i32(ch), to_i32(qw), to_i32(qh), to_i32(margin));
    match pos {
        Position::Center => (half(cw - qw), half(ch - qh)),
        Position::TopLeft => (m, m),
        Position::TopRight => (cw - qw - m, m),
        Position::BottomLeft => (m, ch - qh - m),
        Position::BottomRight => (cw - qw - m, ch - qh - m),
        Position::Tile => (half(cw - qw), half(ch - qh)),
    }
}

/// Return the top-left `(x, y)` coordinates for placing a rectangle of size
/// `(ww, wh)` inside a canvas of size `(bw, bh)` at the given anchor with the
/// specified margin. `Tile` is handled by the caller and gives the origin.
pub fn anchor_position(bw: i32, bh: i32, ww: i32, wh: i32, pos: Position, margin: i32) -> (r: (
    i32,
    i32,
))
    requires
        anchor_in_range(bw as int, bh as int, ww as int, wh as int, pos, margin as int),
    ensures
        (r.0 as int, r.1 as int) == anchor_spot(
            bw as int,
            bh as int,
            ww as int,
            wh as int,
            pos,
            margin as int,
        ),
{
    match pos {
        Position::Center => (half(bw - ww), half(bh - wh)),
        Position::TopLeft => (margin, margin),
        Position::TopRight => (bw - ww - margin, margin),
        Position::BottomLeft => (margin, bh - wh - margin),
        Position::BottomRight => (bw - ww - margin, bh - wh - margin),
        Position::Tile => (0, 0),
    }
}


/// A QR code asked to tile is centred.
pub proof fn qr_tile_is_centered(cw: u32, ch: u32, qw: u32, qh: u32, margin: u32)
    ensures
        qr_spot(cw, ch, qw, qh, Position::Tile, margin) == qr_spot(
            cw,
            ch,
            qw,
            qh,
            Position::Center,
            margin,
        ),
{
}

/// For every position but `Tile`, a QR code is placed exactly where a
/// watermark of its size would be anchored.
pub proof fn qr_follows_anchor(cw: u32, ch: u32, qw: u32, qh: u32, pos: Position, margin: u32)
    requires
        pos != Position::Tile,
    ensures
        qr_spot(cw, ch, qw, qh, pos, margin) == anchor_spot(
            wrap_i32(cw),
            wrap_i32(ch),
            wrap_i32(qw),
            wrap_i32(qh),
            pos,
            wrap_i32(margin),
        ),
{
}


// ── Tiling ──────────────────────────────────────────────────────────────────

/// How a watermark is repeated in tile mode.
#[derive(Debug, Clone, Copy, PartialEq, Eq, Structural)]
pub enum TileLayout {
    /// The mark covers the whole canvas: it is laid once at the origin.
    Whole,
    /// The steps are not positive: nothing is laid.
    Nothing,
    /// A grid stepping `step_x` across and `step_y` down from the origin, each
    /// tile moved by up to `jitter` in each direction.
    Grid { step_x: i32, step_y: i32, jitter: i32 },
}

pub open spec fn min_int(a: int, b: int) -> int {
    if a < b {
        a
    } else {
        b
    }
}

pub open spec fn max_int(a: int, b: int) -> int {
    if a > b {
        a
    } else {
        b
    }
}

/// The tile layout of a `ww` x `wh` mark on a `bw` x `bh` canvas with
/// `spacing` pixels between tiles.
pub open spec fn tile_layout_of(bw: int, bh: int, ww: int, wh: int, spacing: u32) -> TileLayout {
    let sp = wrap_i32(spacing);
    let sx = ww + sp;
    let sy = wh + sp;
    if ww >= bw && wh >= bh {
        TileLayout::Whole
    } else if sx <= 0 || sy <= 0 {
        TileLayout::Nothing
    } else {
        TileLayout::Grid {
            step_x: sx as i32,
            step_y: sy as i32,
            jitter: max_int(max_int(half_toward_zero(sp), min_int(sx, sy) / 8), 4) as i32,
        }
    }
}

/// Decide how a watermark is tiled over the canvas: once when it already
/// covers it, not at all when the steps are not positive, else on a grid
/// stepping by the mark size plus the spacing, with a jitter of half the
/// spacing, at least an eighth of the smaller step and at least 4 pixels.
pub fn tile_layout(bw: i32, bh: i32, ww: i32, wh: i32, spacing: u32) -> (layout: TileLayout)
    requires
        fits_i32(ww + wrap_i32(spacing)),
        fits_i32(wh + wrap_i32(spacing)),
    ensures
        layout == tile_layout_of(bw as int, bh as int, ww as int, wh as int, spacing),
{
    if ww >= bw && wh >= bh {
        return TileLayout::Whole;
    }
    let sp = to_i32(spacing);
    let step_x = ww + sp;
    let step_y = wh + sp;
    if step_x <= 0 || step_y <= 0 {
        return TileLayout::Nothing;
    }
    let a = half(sp);
    let m = if step_x < step_y {
        step_x
    } else {
        step_y
    };
    let b = m / 8;
    let j = if a > b {
        a
    } else {
        b
    };
    let jitter = if j > 4 {
        j
    } else {
        4
    };
    TileLayout::Grid { step_x, step_y, jitter }
}

/// How a mark is tiled: laid once exactly when it covers the canvas in both
/// directions; otherwise a grid whose steps are the mark's size plus the
/// spacing (nothing when a step is not positive), each tile jittered by at
/// least 4 pixels, half the spacing and an eighth of the smaller step, and
/// by no more than the largest of these.
pub proof fn tile_layout_cases(bw: i32, bh: i32, ww: i32, wh: i32, spacing: u32)
    requires
        fits_i32(ww + wrap_i32(spacing)),
        fits_i32(wh + wrap_i32(spacing)),
    ensures
        ({
            let layout = tile_layout_of(bw as int, bh as int, ww as int, wh as int, spacing);
            let sp = wrap_i32(spacing);
            &&& (layout is Whole <==> (ww >= bw && wh >= bh))
            &&& (layout is Nothing <==> (!(ww >= bw && wh >= bh) && (ww + sp <= 0 || wh + sp <= 0)))
            &&& (layout is Grid <==> (!(ww >= bw && wh >= bh) && ww + sp > 0 && wh + sp > 0))
            &&& layout matches TileLayout::Grid { step_x, step_y, jitter } ==> {
                &&& step_x == ww + sp
                &&& step_y == wh + sp
                &&& jitter >= 4
                &&& jitter >= half_toward_zero(sp)
                &&& jitter >= min_int(ww + sp, wh + sp) / 8
                &&& (jitter == 4 || jitter == half_toward_zero(sp) || jitter == min_int(ww + sp, wh
                    + sp) / 8)
            }
        }),
{
}

/// `from`, `from + step`, ... while below `limit`.
pub open spec fn steps_below(limit: int, step: int, from: int) -> Seq<int>
    decreases (if from < limit {
        limit - from
    } else {
        0
    }),
    when step > 0
{
    if from >= limit {
        seq![]
    } else {
        seq![from] + steps_below(limit, step, from + step)
    }
}

/// The tile origins of the rows from `y` down: each row left to right.
pub open spec fn grid_from(bw: int, bh: int, sx: int, sy: int, y: int) -> Seq<(int, int)>
    decreases (if y < bh {
        bh - y
    } else {
        0
    }),
    when sy > 0
{
    if y >= bh {
        seq![]
    } else {
        steps_below(bw, sx, 0).map_values(|x: int| (x, y)) + grid_from(bw, bh, sx, sy, y + sy)
    }
}

/// Tile origins, row by row, left to right: `(i * step_x, j * step_y)` for
/// every such point inside the canvas.
pub fn tile_origins(bw: i32, bh: i32, step_x: i32, step_y: i32) -> (origins: Vec<(i32, i32)>)
    requires
        step_x > 0,
        step_y > 0,
        fits_i32(bw + step_x),
        fits_i32(bh + step_y),
    ensures
        origins@.map_values(|o: (i32, i32)| (o.0 as int, o.1 as int)) == grid_from(
            bw as int,
            bh as int,
            step_x as int,
            step_y as int,
            0,
        ),
{
    let ghost all = grid_from(bw as int, bh as int, step_x as int, step_y as int, 0);
    let ghost view = |o: (i32, i32)| (o.0 as int, o.1 as int);
    let mut out: Vec<(i32, i32)> = Vec::new();
    let mut y: i32 = 0;
    while y < bh
        invariant
            step_x > 0,
            step_y > 0,
            fits_i32(bw + step_x),
            fits_i32(bh + step_y),
            0 <= y,
            y == 0 || y < bh + step_y,
            view == (|o: (i32, i32)| (o.0 as int, o.1 as int)),
            all == grid_from(bw as int, bh as int, step_x as int, step_y as int, 0),
            out@.map_values(view) + grid_from(bw as int, bh as int, step_x as int, step_y as int, y as int) == all,
        decreases (if y < bh {
            bh - y
        } else {
            0
        }),
    {
        let ghost rest = grid_from(bw as int, bh as int, step_x as int, step_y as int, y + step_y);
        let ghost row = steps_below(bw as int, step_x as int, 0).map_values(|x: int| (x, y as int));
        assert(grid_from(bw as int, bh as int, step_x as int, step_y as int, y as int) == row + rest);
        let mut x: i32 = 0;
        while x < bw
            invariant
                step_x > 0,
                step_y > 0,
                fits_i32(bw + step_x),
                0 <= x,
                x == 0 || x < bw + step_x,
                0 <= y < bh,
                view == (|o: (i32, i32)| (o.0 as int, o.1 as int)),
                out@.map_values(view) + steps_below(bw as int, step_x as int, x as int).map_values(
                    |x: int| (x, y as int),
                ) + rest == all,
            decreases (if x < bw {
                bw - x
            } else {
                0
            }),
        {
            let ghost before = out@;
            let ghost tail = steps_below(bw as int, step_x as int, x + step_x);
            assert(steps_below(bw as int, step_x as int, x as int) == seq![x as int] + tail);
            assert((seq![x as int] + tail).map_values(|x: int| (x, y as int)) =~= seq![(x as int, y as int)]
                + tail.map_values(|x: int| (x, y as int)));
            out.push((x, y));
            assert(out@.map_values(view) =~= before.map_values(view).push((x as int, y as int)));
            x = x + step_x;
            assert(out@.map_values(view) + tail.map_values(|x: int| (x, y as int)) + rest =~= before.map_values(
                view,
            ) + (seq![(x - step_x, y as int)] + tail.map_values(|x: int| (x, y as int))) + rest);
        }
        assert(steps_below(bw as int, step_x as int, x as int) =~= seq![]);
        assert(out@.map_values(view) + seq![].map_values(|x: int| (x, y as int)) =~= out@.map_values(view));
        y = y + step_y;
    }
    assert(grid_from(bw as int, bh as int, step_x as int, step_y as int, y as int) =~= seq![]);
    assert(out@.map_values(view) + seq![] =~= out@.map_values(view));
    out
}
} // verus!

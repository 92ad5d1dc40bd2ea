//! Which security patterns a filigrane style draws, and in which ink.
use vstd::prelude::*;
use crate::cli::FiligraneStyle;

verus! {

/// One geometric security pattern of the filigrane.
#[derive(Debug, Clone, Copy, PartialEq, Eq, Structural)]
pub enum FiligraneLayer {
    GuillocheBands,
    SpirographRosette,
    CornerRosettes,
    Crosshatch,
    SecurityBorder,
    Lissajous,
    Moire,
    Spiral,
    Mesh,
    Plume,
    Constellation,
    Ripple,
}

/// The ink of a pattern: the filigrane color, or the faint variant at 45% of
/// its opacity.
#[derive(Debug, Clone, Copy, PartialEq, Eq, Structural)]
pub enum LayerInk {
    Main,
    Faint,
}

/// The patterns a style draws, bottom to top, each with its ink.
pub open spec fn style_layers(style: FiligraneStyle) -> Seq<(FiligraneLayer, LayerInk)> {
    match style {
        FiligraneStyle::Full => seq![
            (FiligraneLayer::GuillocheBands, LayerInk::Main),
            (FiligraneLayer::SpirographRosette, LayerInk::Main),
            (FiligraneLayer::CornerRosettes, LayerInk::Faint),
            (FiligraneLayer::Crosshatch, LayerInk::Faint),
            (FiligraneLayer::SecurityBorder, LayerInk::Main),
        ],
        FiligraneStyle::Guilloche => seq![(FiligraneLayer::GuillocheBands, LayerInk::Main)],
        FiligraneStyle::Rosette => seq![
            (FiligraneLayer::SpirographRosette, LayerInk::Main),
            (FiligraneLayer::CornerRosettes, LayerInk::Faint),
        ],
        FiligraneStyle::Crosshatch => seq![(FiligraneLayer::Crosshatch, LayerInk::Faint)],
        FiligraneStyle::Border => seq![(FiligraneLayer::SecurityBorder, LayerInk::Main)],
        FiligraneStyle::Lissajous => seq![(FiligraneLayer::Lissajous, LayerInk::Main)],
        FiligraneStyle::Moire => seq![(FiligraneLayer::Moire, LayerInk::Main)],
        FiligraneStyle::Spiral => seq![(FiligraneLayer::Spiral, LayerInk::Main)],
        FiligraneStyle::Mesh => seq![(FiligraneLayer::Mesh, LayerInk::Faint)],
        FiligraneStyle::Plume => seq![(FiligraneLayer::Plume, LayerInk::Main)],
        FiligraneStyle::Constellation => seq![(FiligraneLayer::Constellation, LayerInk::Main)],
        FiligraneStyle::Ripple => seq![(FiligraneLayer::Ripple, LayerInk::Main)],
        FiligraneStyle::Disabled => seq![],
    }
}

/// The patterns the filigrane of a `width` x `height` canvas draws: none on a
/// canvas under 80 pixels in either direction, else those of the style.
pub fn filigrane_layers(width: u32, height: u32, style: FiligraneStyle) -> (layers: Vec<
    (FiligraneLayer, LayerInk),
>)
    ensures
        layers@ == if width < 80 || height < 80 {
            seq![]
        } else {
            style_layers(style)
        },
{
    if width < 80 || height < 80 {
        return Vec::new();
    }
    let layers = match style {
        FiligraneStyle::Full => vec![
            (FiligraneLayer::GuillocheBands, LayerInk::Main),
            (FiligraneLayer::SpirographRosette, LayerInk::Main),
            (FiligraneLayer::CornerRosettes, LayerInk::Faint),
            (FiligraneLayer::Crosshatch, LayerInk::Faint),
            (FiligraneLayer::SecurityBorder, LayerInk::Main),
        ],
        FiligraneStyle::Guilloche => vec![(FiligraneLayer::GuillocheBands, LayerInk::Main)],
        FiligraneStyle::Rosette => vec![
            (FiligraneLayer::SpirographRosette, LayerInk::Main),
            (FiligraneLayer::CornerRosettes, LayerInk::Faint),
        ],
        FiligraneStyle::Crosshatch => vec![(FiligraneLayer::Crosshatch, LayerInk::Faint)],
        FiligraneStyle::Border => vec![(FiligraneLayer::SecurityBorder, LayerInk::Main)],
        FiligraneStyle::Lissajous => vec![(FiligraneLayer::Lissajous, LayerInk::Main)],
        FiligraneStyle::Moire => vec![(FiligraneLayer::Moire, LayerInk::Main)],
        FiligraneStyle::Spiral => vec![(FiligraneLayer::Spiral, LayerInk::Main)],
        FiligraneStyle::Mesh => vec![(FiligraneLayer::Mesh, LayerInk::Faint)],
        FiligraneStyle::Plume => vec![(FiligraneLayer::Plume, LayerInk::Main)],
        FiligraneStyle::Constellation => vec![(FiligraneLayer::Constellation, LayerInk::Main)],
        FiligraneStyle::Ripple => vec![(FiligraneLayer::Ripple, LayerInk::Main)],
        FiligraneStyle::Disabled => Vec::new(),
    };
    assert(layers@ =~= style_layers(style));
    layers
}


/// Every style but `Disabled` draws at least one pattern, and `Disabled`
/// draws none.
pub proof fn every_style_draws_a_pattern(style: FiligraneStyle)
    ensures
        style_layers(style).len() == 0 <==> style == FiligraneStyle::Disabled,
{
}

/// The full filigrane is the guilloche, rosette, crosshatch and border styles
/// together: it draws exactly the patterns those four draw, in the same inks.
pub proof fn full_is_the_four_classic_styles(layer: (FiligraneLayer, LayerInk))
    ensures
        style_layers(FiligraneStyle::Full).contains(layer) <==> {
            ||| style_layers(FiligraneStyle::Guilloche).contains(layer)
            ||| style_layers(FiligraneStyle::Rosette).contains(layer)
            ||| style_layers(FiligraneStyle::Crosshatch).contains(layer)
            ||| style_layers(FiligraneStyle::Border).contains(layer)
        },
{
    let full = style_layers(FiligraneStyle::Full);
    let g = style_layers(FiligraneStyle::Guilloche);
    let r = style_layers(FiligraneStyle::Rosette);
    let c = style_layers(FiligraneStyle::Crosshatch);
    let b = style_layers(FiligraneStyle::Border);
    assert(full[0] == g[0] && full[1] == r[0] && full[2] == r[1] && full[3] == c[0] && full[4] == b[0]);
    if full.contains(layer) {
        let i = choose|i: int| 0 <= i < full.len() && full[i] == layer;
        assert(0 <= i < 5);
    }
    if g.contains(layer) {
        assert(full[0] == layer);
    }
    if r.contains(layer) {
        let i = choose|i: int| 0 <= i < r.len() && r[i] == layer;
        assert(full[1 + i] == layer);
    }
    if c.contains(layer) {
        assert(full[3] == layer);
    }
    if b.contains(layer) {
        assert(full[4] == layer);
    }
}

/// A pattern keeps its ink whichever style draws it: the corner rosettes,
/// crosshatch and mesh are faint, every other pattern is in the main ink.
pub proof fn pattern_ink_is_fixed(style: FiligraneStyle, layer: FiligraneLayer, ink: LayerInk)
    requires
        style_layers(style).contains((layer, ink)),
    ensures
        ink == LayerInk::Faint <==> (layer == FiligraneLayer::CornerRosettes || layer
            == FiligraneLayer::Crosshatch || layer == FiligraneLayer::Mesh),
{
    let s = style_layers(style);
    let i = choose|i: int| 0 <= i < s.len() && s[i] == (layer, ink);
    assert(s[i] == (layer, ink));
}

} // verus!

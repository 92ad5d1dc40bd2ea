use firemark::cli::FiligraneStyle;
use firemark::filigrane::{filigrane_layers, FiligraneLayer, LayerInk};

#[test]
fn full_style_stacks_five_patterns() {
    assert_eq!(
        filigrane_layers(800, 600, FiligraneStyle::Full),
        vec![
            (FiligraneLayer::GuillocheBands, LayerInk::Main),
            (FiligraneLayer::SpirographRosette, LayerInk::Main),
            (FiligraneLayer::CornerRosettes, LayerInk::Faint),
            (FiligraneLayer::Crosshatch, LayerInk::Faint),
            (FiligraneLayer::SecurityBorder, LayerInk::Main),
        ]
    );
}

#[test]
fn single_pattern_styles() {
    assert_eq!(
        filigrane_layers(80, 80, FiligraneStyle::Rosette),
        vec![
            (FiligraneLayer::SpirographRosette, LayerInk::Main),
            (FiligraneLayer::CornerRosettes, LayerInk::Faint),
        ]
    );
    assert_eq!(
        filigrane_layers(200, 100, FiligraneStyle::Mesh),
        vec![(FiligraneLayer::Mesh, LayerInk::Faint)]
    );
    assert_eq!(
        filigrane_layers(200, 100, FiligraneStyle::Crosshatch),
        vec![(FiligraneLayer::Crosshatch, LayerInk::Faint)]
    );
    assert_eq!(
        filigrane_layers(200, 100, FiligraneStyle::Moire),
        vec![(FiligraneLayer::Moire, LayerInk::Main)]
    );
}

#[test]
fn small_canvas_or_no_style_draws_nothing() {
    assert!(filigrane_layers(79, 500, FiligraneStyle::Full).is_empty());
    assert!(filigrane_layers(500, 79, FiligraneStyle::Guilloche).is_empty());
    assert!(filigrane_layers(500, 500, FiligraneStyle::Disabled).is_empty());
}

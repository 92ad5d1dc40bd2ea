use firemark::cli::{after_help_text, BackgroundPattern, FiligraneStyle, Position};

fn two_columns(items: &[(&str, &str)]) -> String {
    items
        .chunks(2)
        .map(|pair| {
            let mut line = String::from("  ");
            for (name, desc) in pair {
                line.push_str(&format!("\x1b[32m{name:<14}\x1b[0m{desc:<31}"));
            }
            line.trim_end().to_string()
        })
        .collect::<Vec<_>>()
        .join("\n")
}

#[test]
fn help_text_lists_types_and_filigranes_in_two_columns() {
    let types: &[(&str, &str)] = &[
        ("diagonal", "Diagonal text grid"),
        ("stamp", "Rubber stamp, double border"),
        ("stencil", "Stencil lettering"),
        ("typewriter", "Typewriter text page"),
        ("handwritten", "Signature with underline"),
        ("redacted", "Black redaction bars"),
        ("badge", "Security shield emblem"),
        ("ribbon", "Corner ribbon banner"),
        ("seal", "Circular notary seal"),
        ("frame", "Decorative border frame"),
        ("tile", "Dense text tile grid"),
        ("mosaic", "Scattered text mosaic"),
        ("weave", "Diagonal weave pattern"),
        ("ghost", "Subtle embossed text"),
        ("watercolor", "Soft watercolour wash"),
        ("noise", "Distressed text + noise"),
        ("halftone", "Halftone dot text"),
    ];
    let filigranes: &[(&str, &str)] = &[
        ("full", "All patterns combined"),
        ("guilloche", "Banknote wave bands"),
        ("rosette", "Spirograph rosettes"),
        ("crosshatch", "Diamond lattice grid"),
        ("border", "Wavy security border"),
        ("lissajous", "Lissajous figures"),
        ("moire", "Circle interference"),
        ("spiral", "Archimedean spiral"),
        ("mesh", "Honeycomb mesh"),
        ("plume", "Feather-like plumes"),
        ("constellation", "Star node web"),
        ("ripple", "Elliptical wave fronts"),
        ("none", "Disabled"),
    ];
    let expected = format!(
        "\x1b[1;33mWatermark types (-t):\x1b[0m\n{}\n\n\x1b[1;33mFiligrane styles (--filigrane):\x1b[0m\n{}",
        two_columns(types),
        two_columns(filigranes),
    );
    assert_eq!(after_help_text(), expected);
}

#[test]
fn help_text_first_and_last_lines() {
    let text = after_help_text();
    let lines: Vec<&str> = text.lines().collect();
    assert_eq!(lines[0], "\x1b[1;33mWatermark types (-t):\x1b[0m");
    assert_eq!(
        lines[1],
        "  \x1b[32mdiagonal      \x1b[0mDiagonal text grid             \x1b[32mstamp         \x1b[0mRubber stamp, double border"
    );
    // 17 types on 9 lines, a blank line, a heading, 13 filigranes on 7 lines.
    assert_eq!(lines.len(), 1 + 9 + 1 + 1 + 7);
    assert_eq!(lines[lines.len() - 1], "  \x1b[32mnone          \x1b[0mDisabled");
}

#[test]
fn value_enums_compare_by_variant() {
    assert_eq!(Position::Center, Position::Center);
    assert_ne!(Position::Tile, Position::Center);
    assert_ne!(FiligraneStyle::Disabled, FiligraneStyle::Full);
    assert_eq!(BackgroundPattern::Disabled, BackgroundPattern::Disabled);
}

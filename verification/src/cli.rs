//! Option values of the command line and the compact reference printed after
//! `--help`.
use vstd::prelude::*;
use crate::text::{pad_right, trim_end, push_str_chars, push_padded, trim_end_in_place, chars_to_string};

verus! {

/// Where a watermark (or QR code) is anchored on the canvas.
#[derive(Debug, Clone, Copy, PartialEq, Eq, Structural)]
pub enum Position {
    Center,
    TopLeft,
    TopRight,
    BottomLeft,
    BottomRight,
    Tile,
}

/// How watermark color is combined with the underlying pixels.
#[derive(Debug, Clone, Copy, PartialEq, Eq, Structural)]
pub enum BlendMode {
    Normal,
    Multiply,
    Screen,
    Overlay,
    SoftLight,
}

/// Font weight of watermark text.
#[derive(Debug, Clone, Copy, PartialEq, Eq, Structural)]
pub enum FontWeight {
    Thin,
    Light,
    Regular,
    Bold,
    Black,
}

/// Font style of watermark text.
#[derive(Debug, Clone, Copy, PartialEq, Eq, Structural)]
pub enum FontStyle {
    Normal,
    Italic,
}

/// Backdrop pattern drawn behind the watermark.
#[derive(Debug, Clone, Copy, PartialEq, Eq, Structural)]
pub enum BackgroundPattern {
    /// No backdrop (`none` on the command line).
    Disabled,
    Grid,
    Dots,
    Lines,
    Crosshatch,
}

/// Stroke style of the optional watermark border.
#[derive(Debug, Clone, Copy, PartialEq, Eq, Structural)]
pub enum BorderStyle {
    Solid,
    Dashed,
    Dotted,
}

/// Security pattern ("filigrane") laid under the watermark.
#[derive(Debug, Clone, Copy, PartialEq, Eq, Structural)]
pub enum FiligraneStyle {
    Full,
    Guilloche,
    Rosette,
    Crosshatch,
    Border,
    Lissajous,
    Moire,
    Spiral,
    Mesh,
    Plume,
    Constellation,
    Ripple,
    /// No security pattern (`none` on the command line).
    Disabled,
}

/// The watermark types listed after `--help`, with their descriptions.
pub open spec fn watermark_type_table() -> Seq<(&'static str, &'static str)> {
    seq![
        ("diagonal", "Diagonal text grid"),
        ("stamp", "Rubber stamp, double border"),
        ("stencil", "Stencil lettering"),
        ("typewriter", "Typewriter text page"),
        ("handwritten", "Signature with underline"),
        ("redacted", "Black redaction bars"),
        ("badge", "Security shield emblem"),
        ("ribbon", "Corner ribbon banner"),
        ("seal", "Circular notary seal"),
        ("frame", "Decorative border frame"),
        ("tile", "Dense text tile grid"),
        ("mosaic", "Scattered text mosaic"),
        ("weave", "Diagonal weave pattern"),
        ("ghost", "Subtle embossed text"),
        ("watercolor", "Soft watercolour wash"),
        ("noise", "Distressed text + noise"),
        ("halftone", "Halftone dot text"),
    ]
}

/// The filigrane styles listed after `--help`, with their descriptions.
pub open spec fn filigrane_table() -> Seq<(&'static str, &'static str)> {
    seq![
        ("full", "All patterns combined"),
        ("guilloche", "Banknote wave bands"),
        ("rosette", "Spirograph rosettes"),
        ("crosshatch", "Diamond lattice grid"),
        ("border", "Wavy security border"),
        ("lissajous", "Lissajous figures"),
        ("moire", "Circle interference"),
        ("spiral", "Archimedean spiral"),
        ("mesh", "Honeycomb mesh"),
        ("plume", "Feather-like plumes"),
        ("constellation", "Star node web"),
        ("ripple", "Elliptical wave fronts"),
        ("none", "Disabled"),
    ]
}

/// One entry of the listing: the name in green padded to 14 columns, then the
/// description padded to 31 columns.
pub open spec fn column_cell(entry: (&str, &str)) -> Seq<char> {
    "\x1b[32m"@ + pad_right(entry.0@, 14) + "\x1b[0m"@ + pad_right(entry.1@, 31)
}

/// Line `k` of the two-column listing: entries `2k` and `2k + 1` (when there
/// is one), indented by two spaces, trailing spaces removed.
pub open spec fn column_line(items: Seq<(&str, &str)>, k: int) -> Seq<char> {
    let first = "  "@ + column_cell(items[2 * k]);
    trim_end(
        if 2 * k + 1 < items.len() {
            first + column_cell(items[2 * k + 1])
        } else {
            first
        },
    )
}

/// The first `m` lines of the listing, joined by newlines.
pub open spec fn column_lines(items: Seq<(&str, &str)>, m: nat) -> Seq<char>
    decreases m,
{
    if m == 0 {
        seq![]
    } else if m == 1 {
        column_line(items, 0)
    } else {
        column_lines(items, (m - 1) as nat) + "\n"@ + column_line(items, m - 1)
    }
}

/// The whole two-column listing of `items`, two entries per line.
pub open spec fn two_columns(items: Seq<(&str, &str)>) -> Seq<char> {
    column_lines(items, ((items.len() + 1) / 2) as nat)
}

/// The text shown after the options table of `--help`.
pub open spec fn help_text() -> Seq<char> {
    "\x1b[1;33mWatermark types (-t):\x1b[0m\n"@ + two_columns(watermark_type_table())
        + "\n\n\x1b[1;33mFiligrane styles (--filigrane):\x1b[0m\n"@ + two_columns(
        filigrane_table(),
    )
}

fn watermark_types() -> (v: Vec<(&'static str, &'static str)>)
    ensures
        v@ == watermark_type_table(),
{
    vec![
        ("diagonal", "Diagonal text grid"),
        ("stamp", "Rubber stamp, double border"),
        ("stencil", "Stencil lettering"),
        ("typewriter", "Typewriter text page"),
        ("handwritten", "Signature with underline"),
        ("redacted", "Black redaction bars"),
        ("badge", "Security shield emblem"),
        ("ribbon", "Corner ribbon banner"),
        ("seal", "Circular notary seal"),
        ("frame", "Decorative border frame"),
        ("tile", "Dense text tile grid"),
        ("mosaic", "Scattered text mosaic"),
        ("weave", "Diagonal weave pattern"),
        ("ghost", "Subtle embossed text"),
        ("watercolor", "Soft watercolour wash"),
        ("noise", "Distressed text + noise"),
        ("halftone", "Halftone dot text"),
    ]
}

fn filigrane_styles() -> (v: Vec<(&'static str, &'static str)>)
    ensures
        v@ == filigrane_table(),
{
    vec![
        ("full", "All patterns combined"),
        ("guilloche", "Banknote wave bands"),
        ("rosette", "Spirograph rosettes"),
        ("crosshatch", "Diamond lattice grid"),
        ("border", "Wavy security border"),
        ("lissajous", "Lissajous figures"),
        ("moire", "Circle interference"),
        ("spiral", "Archimedean spiral"),
        ("mesh", "Honeycomb mesh"),
        ("plume", "Feather-like plumes"),
        ("constellation", "Star node web"),
        ("ripple", "Elliptical wave fronts"),
        ("none", "Disabled"),
    ]
}

fn push_cell(out: &mut Vec<char>, entry: (&str, &str))
    ensures
        final(out)@ == old(out)@ + column_cell(entry),
{
    push_str_chars(out, "\x1b[32m");
    push_padded(out, entry.0, 14);
    push_str_chars(out, "\x1b[0m");
    push_padded(out, entry.1, 31);
    assert(out@ =~= old(out)@ + column_cell(entry));
}

/// Appends the two-column listing of `items`.
fn push_two_columns(out: &mut Vec<char>, items: &Vec<(&str, &str)>)
    ensures
        final(out)@ == old(out)@ + two_columns(items@),
{
    let n = items.len();
    let lines = n / 2 + n % 2;
    assert(lines == (n + 1) / 2);
    let mut k: usize = 0;
    while k < lines
        invariant
            n == items@.len(),
            lines == (n + 1) / 2,
            k <= lines,
            out@ == old(out)@ + column_lines(items@, k as nat),
        decreases lines - k,
    {
        let ghost before = out@;
        if k > 0 {
            push_str_chars(out, "\n");
        }
        let mut line: Vec<char> = Vec::new();
        push_str_chars(&mut line, "  ");
        push_cell(&mut line, items[2 * k]);
        if 2 * k + 1 < n {
            push_cell(&mut line, items[2 * k + 1]);
        }
        trim_end_in_place(&mut line);
        assert(line@ == column_line(items@, k as int));
        let mut i: usize = 0;
        let ghost mid = out@;
        while i < line.len()
            invariant
                i <= line@.len(),
                out@ == mid + line@.subrange(0, i as int),
            decreases line.len() - i,
        {
            out.push(line[i]);
            i = i + 1;
            assert(out@ =~= mid + line@.subrange(0, i as int));
        }
        assert(line@.subrange(0, line@.len() as int) =~= line@);
        k = k + 1;
        assert(out@ =~= old(out)@ + column_lines(items@, k as nat));
    }
}

/// Compact two-column reference for the watermark types and filigrane
/// styles, whose listings are hidden from the options table.
pub fn after_help_text() -> (text: String)
    ensures
        text@ == help_text(),
{
    let mut out: Vec<char> = Vec::new();
    push_str_chars(&mut out, "\x1b[1;33mWatermark types (-t):\x1b[0m\n");
    push_two_columns(&mut out, &watermark_types());
    push_str_chars(&mut out, "\n\n\x1b[1;33mFiligrane styles (--filigrane):\x1b[0m\n");
    push_two_columns(&mut out, &filigrane_styles());
    assert(out@ =~= help_text());
    chars_to_string(&out)
}

} // verus!

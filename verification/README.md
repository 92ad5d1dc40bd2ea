# firemark

The verified core of a watermarking tool for images and PDFs, written in
Verus.

- `src/` is the library, every function proved against its contract:
  - `cli`: the command-line option values and the reference text printed
    after `--help`;
  - `placement`: where a QR code or an anchored mark goes, and the tile grid;
  - `pixmap`: an RGBA raster held as plain values;
  - `perturb`: the post-render perturbation of the watermark overlay (jitter,
    micro-dots along the alpha boundary, ghost pixels), exact for given
    random draws;
  - `saliency`: block and row gradient energy, smoothing and the choice of
    stroke rows;
  - `filigrane`: which security patterns each filigrane style draws;
  - `pdf`: image planes, page content, `Contents` updates, resource
    registration, and the generator and per-line draws of the copy-paste
    poison text (its placement on the page, in points, is in `app/`);
  - `output`: PNG compression effort, which pages of a PDF are watermarked,
    and the file names of a PDF converted to images;
  - `update`: version comparison and the update notice;
  - `text`: character-level string building shared by the above.
- `app/` is ordinary Rust around it: clap, `image` and `lopdf` glue, the
  network check, the PDF page loop, and the floating-point parts: opacity,
  saliency scores, the entangled blend of `composite`, the poison text
  layout and the filigrane ink. Rendering the watermark text, the QR code
  and the filigrane patterns needs a drawing canvas that this crate does
  not hold, so `process_pdf`, `composite` and `render_filigrane` take the
  rendering as parameters.
- `tests/` exercises the library with concrete values.

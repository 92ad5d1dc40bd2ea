//! Output settings: PNG compression effort, and the pages and file names of
//! a PDF converted to images.
use vstd::prelude::*;
use crate::text::{decimal, push_str_chars, push_decimal, chars_to_string};

verus! {

/// Compression effort of the PNG encoder.
#[derive(Debug, Clone, Copy, PartialEq, Eq, Structural)]
pub enum PngCompression {
    Fast,
    Standard,
    Best,
}

/// The PNG effort for a `--png-compression` level: 0 is fast, 1 to 5 the
/// encoder's default, anything higher the best.
pub fn png_compression(level: u8) -> (c: PngCompression)
    ensures
        level == 0 ==> c == PngCompression::Fast,
        1 <= level <= 5 ==> c == PngCompression::Standard,
        level > 5 ==> c == PngCompression::Best,
{
    if level == 0 {
        PngCompression::Fast
    } else if level <= 5 {
        PngCompression::Standard
    } else {
        PngCompression::Best
    }
}

/// File name of page `page_num` when a multi-page PDF is converted to
/// images: `{stem}_page{page_num}.{ext}`.
pub fn page_file_name(stem: &str, page_num: u32, ext: &str) -> (name: String)
    ensures
        name@ == stem@ + "_page"@ + decimal(page_num as nat) + "."@ + ext@,
{
    let mut out: Vec<char> = Vec::new();
    push_str_chars(&mut out, stem);
    push_str_chars(&mut out, "_page");
    push_decimal(&mut out, page_num as u64);
    push_str_chars(&mut out, ".");
    push_str_chars(&mut out, ext);
    assert(out@ =~= stem@ + "_page"@ + decimal(page_num as nat) + "."@ + ext@);
    chars_to_string(&out)
}


/// Converting a PDF to images was asked for, but no page is selected.
#[derive(Debug, Clone, Copy, PartialEq, Eq, Structural)]
pub struct NoPagesSelected;

/// The pages among the first `m` whose selection flag is set, in order.
pub open spec fn selected_pages(pages: Seq<u32>, selected: Seq<bool>, m: int) -> Seq<u32>
    decreases m,
{
    if m <= 0 {
        seq![]
    } else {
        let rest = selected_pages(pages, selected, m - 1);
        if selected[m - 1] {
            rest.push(pages[m - 1])
        } else {
            rest
        }
    }
}

/// The pages to watermark: those whose selection flag (in the requested
/// range and not skipped) is set, in order.
pub fn selected_page_numbers(pages: &Vec<u32>, selected: &Vec<bool>) -> (sel: Vec<u32>)
    requires
        pages@.len() == selected@.len(),
    ensures
        sel@ == selected_pages(pages@, selected@, pages@.len() as int),
        sel@.len() == 0 <==> forall|i: int| 0 <= i < selected@.len() ==> !#[trigger] selected@[i],
{
    let n = pages.len();
    let mut sel: Vec<u32> = Vec::new();
    let mut i: usize = 0;
    while i < n
        invariant
            n == pages@.len(),
            n == selected@.len(),
            i <= n,
            sel@ == selected_pages(pages@, selected@, i as int),
            sel@.len() == 0 <==> forall|m: int| 0 <= m < i ==> !#[trigger] selected@[m],
        decreases n - i,
    {
        if selected[i] {
            sel.push(pages[i]);
        }
        i = i + 1;
    }
    sel
}

/// The pages a PDF-to-image conversion processes and where each goes:
/// `pages` are the document's page numbers in ascending order and
/// `selected[i]` tells whether page `pages[i]` is in the requested range and
/// not skipped. Each selected page comes with its own file name
/// `{stem}_page{n}.{ext}` when several pages are selected, or with `None`
/// (the output path itself) when only one is. No selected page is an error.
pub fn pdf_image_outputs(pages: &Vec<u32>, selected: &Vec<bool>, stem: &str, ext: &str) -> (r: Result<
    Vec<(u32, Option<String>)>,
    NoPagesSelected,
>)
    requires
        pages@.len() == selected@.len(),
    ensures
        r is Err <==> forall|i: int| 0 <= i < selected@.len() ==> !#[trigger] selected@[i],
        r matches Ok(outs) ==> {
            let sel = selected_pages(pages@, selected@, pages@.len() as int);
            &&& outs@.len() == sel.len()
            &&& forall|j: int|
                0 <= j < outs@.len() ==> {
                    &&& (#[trigger] outs@[j]).0 == sel[j]
                    &&& sel.len() == 1 ==> outs@[j].1 is None
                    &&& sel.len() > 1 ==> (outs@[j].1 matches Some(name) && name@ == stem@
                        + "_page"@ + decimal(sel[j] as nat) + "."@ + ext@)
                }
        },
{
    let sel = selected_page_numbers(pages, selected);
    let ghost n = pages@.len() as int;
    if sel.len() == 0 {
        return Err(NoPagesSelected);
    }
    let multi = sel.len() > 1;
    let mut outs: Vec<(u32, Option<String>)> = Vec::new();
    let mut j: usize = 0;
    while j < sel.len()
        invariant
            sel@ == selected_pages(pages@, selected@, n),
            multi == (sel@.len() > 1),
            j <= sel@.len(),
            outs@.len() == j,
            forall|m: int|
                0 <= m < j ==> {
                    &&& (#[trigger] outs@[m]).0 == sel@[m]
                    &&& !multi ==> outs@[m].1 is None
                    &&& multi ==> (outs@[m].1 matches Some(name) && name@ == stem@ + "_page"@
                        + decimal(sel@[m] as nat) + "."@ + ext@)
                },
        decreases sel@.len() - j,
    {
        let page = sel[j];
        let name = if multi {
            Some(page_file_name(stem, page, ext))
        } else {
            None
        };
        outs.push((page, name));
        j = j + 1;
    }
    Ok(outs)
}

} // verus!

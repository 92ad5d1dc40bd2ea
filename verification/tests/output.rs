use firemark::output::{
    page_file_name, pdf_image_outputs, png_compression, selected_page_numbers, NoPagesSelected,
    PngCompression,
};

#[test]
fn png_levels() {
    assert_eq!(png_compression(0), PngCompression::Fast);
    assert_eq!(png_compression(1), PngCompression::Standard);
    assert_eq!(png_compression(5), PngCompression::Standard);
    assert_eq!(png_compression(6), PngCompression::Best);
    assert_eq!(png_compression(9), PngCompression::Best);
}

#[test]
fn page_names() {
    assert_eq!(page_file_name("report", 3, "png"), "report_page3.png");
    assert_eq!(page_file_name("scan", 12, "jpeg"), "scan_page12.jpeg");
}

#[test]
fn pdf_pages_to_images() {
    let pages = vec![1, 2, 3, 4];
    assert_eq!(
        pdf_image_outputs(&pages, &vec![true, false, true, true], "scan", "png"),
        Ok(vec![
            (1, Some("scan_page1.png".to_string())),
            (3, Some("scan_page3.png".to_string())),
            (4, Some("scan_page4.png".to_string())),
        ])
    );
    // One selected page goes to the output path itself.
    assert_eq!(
        pdf_image_outputs(&pages, &vec![false, true, false, false], "scan", "png"),
        Ok(vec![(2, None)])
    );
    assert_eq!(
        pdf_image_outputs(&pages, &vec![false; 4], "scan", "png"),
        Err(NoPagesSelected)
    );
    assert_eq!(pdf_image_outputs(&vec![], &vec![], "scan", "png"), Err(NoPagesSelected));
}

#[test]
fn pages_in_range_and_not_skipped() {
    let pages = vec![1, 2, 3, 4, 5];
    assert_eq!(
        selected_page_numbers(&pages, &vec![false, true, true, false, true]),
        vec![2, 3, 5]
    );
    assert!(selected_page_numbers(&pages, &vec![false; 5]).is_empty());
    assert!(selected_page_numbers(&vec![], &vec![]).is_empty());
}

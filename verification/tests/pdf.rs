use std::io::Read;

use firemark::pdf::{
    compressed_planes, image_page_content, insert_content_stream, merge_content_streams,
    plan_resource, poison_fragment, split_rgba, streams_to_flatten, watermark_xobject_name,
    ContentItem, Entry, Lookup, PageContents, Placement, PoisonRng, ResourceError, ResourcePlan,
    ResourceSite,
};
use firemark::pixmap::Pixmap;

#[test]
fn planes_of_an_image() {
    let img = Pixmap::from_raw(2, 1, vec![1, 2, 3, 4, 5, 6, 7, 8]).unwrap();
    let (rgb, alpha) = split_rgba(&img);
    assert_eq!(rgb, vec![1, 2, 3, 5, 6, 7]);
    assert_eq!(alpha, vec![4, 8]);
}

fn inflate(packed: &[u8]) -> Vec<u8> {
    let mut back = Vec::new();
    flate2::read::ZlibDecoder::new(packed).read_to_end(&mut back).unwrap();
    back
}

#[test]
fn compressed_planes_round_trip_through_zlib() {
    let data: Vec<u8> = (0..4000u32).map(|i| (i % 7) as u8).collect();
    let img = Pixmap::from_raw(50, 20, data).unwrap();
    let (rgb, alpha) = split_rgba(&img);
    let (rgb_z, alpha_z) = compressed_planes(&img);
    assert_ne!(rgb_z, rgb);
    assert!(rgb_z.len() < rgb.len());
    assert_eq!(inflate(&rgb_z), rgb);
    assert_eq!(inflate(&alpha_z), alpha);
}

#[test]
fn full_page_image_content() {
    assert_eq!(image_page_content(640, 480), "q\n640 0 0 480 0 0 cm\n/Img Do\nQ\n");
    assert_eq!(image_page_content(0, 7), "q\n0 0 0 7 0 0 cm\n/Img Do\nQ\n");
}

#[test]
fn xobject_names() {
    assert_eq!(watermark_xobject_name(1), "FmWm1");
    assert_eq!(watermark_xobject_name(4096), "FmWm4096");
}

#[test]
fn inserting_content_streams() {
    assert_eq!(insert_content_stream(None, (7, 0), false), PageContents::Reference(7, 0));
    assert_eq!(insert_content_stream(None, (7, 0), true), PageContents::Reference(7, 0));
    assert_eq!(
        insert_content_stream(Some(PageContents::Reference(5, 0)), (7, 0), true),
        PageContents::Array(vec![ContentItem::Reference(7, 0), ContentItem::Reference(5, 0)])
    );
    assert_eq!(
        insert_content_stream(
            Some(PageContents::Array(vec![ContentItem::Reference(5, 0), ContentItem::Other(1)])),
            (7, 0),
            false
        ),
        PageContents::Array(vec![
            ContentItem::Reference(5, 0),
            ContentItem::Other(1),
            ContentItem::Reference(7, 0)
        ])
    );
    assert_eq!(
        insert_content_stream(Some(PageContents::Other), (7, 2), false),
        PageContents::Array(vec![ContentItem::Reference(7, 2)])
    );
}

#[test]
fn only_pages_with_several_streams_are_flattened() {
    let contents = Some(PageContents::Array(vec![
        ContentItem::Reference(1, 0),
        ContentItem::Other(0),
        ContentItem::Reference(2, 0),
    ]));
    assert_eq!(streams_to_flatten(&contents), Some(vec![(1, 0), (2, 0)]));
    assert_eq!(streams_to_flatten(&Some(PageContents::Reference(1, 0))), None);
    assert_eq!(
        streams_to_flatten(&Some(PageContents::Array(vec![ContentItem::Reference(3, 0)]))),
        None
    );
    assert_eq!(streams_to_flatten(&Some(PageContents::Other)), None);
    assert_eq!(streams_to_flatten(&None), None);
}

#[test]
fn merged_streams_end_each_part_with_a_newline() {
    let parts = vec![Some(b"q 1 0 0 1 0 0 cm".to_vec()), None, Some(b"Q".to_vec())];
    assert_eq!(merge_content_streams(&parts), b"q 1 0 0 1 0 0 cm\nQ\n".to_vec());
    assert!(merge_content_streams(&vec![]).is_empty());
}

fn site(page: Lookup, page_resources: Entry, linked_resources: Lookup, category: Entry, linked_category: Lookup) -> ResourceSite {
    ResourceSite { page, page_resources, linked_resources, category, linked_category }
}

#[test]
fn resource_registration_plans() {
    type E = Entry;
    type L = Lookup;
    assert_eq!(
        plan_resource(site(L::NotFound, E::Missing, L::NotFound, E::Missing, L::NotFound)),
        Err(ResourceError::PageNotFound)
    );
    assert_eq!(
        plan_resource(site(L::NotADictionary, E::Missing, L::NotFound, E::Missing, L::NotFound)),
        Err(ResourceError::NotADictionary)
    );
    assert_eq!(
        plan_resource(site(L::Dictionary, E::Missing, L::NotFound, E::Missing, L::NotFound)),
        Ok(ResourcePlan { resources_object: None, placement: Placement::CategoryDictionary })
    );
    assert_eq!(
        plan_resource(site(L::Dictionary, E::Dictionary, L::NotFound, E::Reference(9, 0), L::Dictionary)),
        Ok(ResourcePlan { resources_object: None, placement: Placement::LinkedCategory(9, 0) })
    );
    assert_eq!(
        plan_resource(site(L::Dictionary, E::Dictionary, L::NotFound, E::Reference(9, 0), L::NotFound)),
        Err(ResourceError::CategoryNotFound)
    );
    assert_eq!(
        plan_resource(site(L::Dictionary, E::Dictionary, L::NotFound, E::Reference(9, 0), L::NotADictionary)),
        Err(ResourceError::NotADictionary)
    );
    assert_eq!(
        plan_resource(site(L::Dictionary, E::Dictionary, L::NotFound, E::Other, L::NotFound)),
        Ok(ResourcePlan { resources_object: None, placement: Placement::ReplaceCategory })
    );
    assert_eq!(
        plan_resource(site(L::Dictionary, E::Dictionary, L::NotFound, E::Dictionary, L::NotFound)),
        Ok(ResourcePlan { resources_object: None, placement: Placement::CategoryDictionary })
    );
    assert_eq!(
        plan_resource(site(L::Dictionary, E::Other, L::NotFound, E::Missing, L::NotFound)),
        Err(ResourceError::NotADictionary)
    );
    assert_eq!(
        plan_resource(site(L::Dictionary, E::Reference(4, 0), L::NotFound, E::Missing, L::NotFound)),
        Err(ResourceError::ResourcesNotFound)
    );
    assert_eq!(
        plan_resource(site(L::Dictionary, E::Reference(4, 0), L::Dictionary, E::Reference(9, 1), L::Dictionary)),
        Ok(ResourcePlan { resources_object: Some((4, 0)), placement: Placement::LinkedCategory(9, 1) })
    );
    assert_eq!(
        plan_resource(site(L::Dictionary, E::Reference(4, 0), L::Dictionary, E::Reference(9, 1), L::NotFound)),
        Err(ResourceError::CategoryNotFound)
    );
    assert_eq!(
        plan_resource(site(L::Dictionary, E::Reference(4, 0), L::Dictionary, E::Other, L::NotFound)),
        Ok(ResourcePlan { resources_object: Some((4, 0)), placement: Placement::ReplaceCategory })
    );
    assert_eq!(
        plan_resource(site(L::Dictionary, E::Reference(4, 0), L::Dictionary, E::Dictionary, L::NotFound)),
        Ok(ResourcePlan { resources_object: Some((4, 0)), placement: Placement::CategoryDictionary })
    );
}

fn xorshift(mut s: u32) -> u32 {
    s ^= s << 13;
    s ^= s >> 17;
    s ^= s << 5;
    s
}

#[test]
fn poison_generator_is_reproducible() {
    let mut a = PoisonRng::new(3);
    let mut b = PoisonRng::new(3);
    let mut s = 3u32.wrapping_mul(2654435761);
    for _ in 0..20 {
        s = xorshift(s);
        assert_eq!(a.next(), s);
        assert_eq!(b.next(), s);
    }
    let mut z = PoisonRng::new(0);
    assert_eq!(z.next(), 0);
}

#[test]
fn poison_fragments_are_letters_from_the_generator() {
    let glyphs = b"ABCDEFGHIJKLMNOPQRSTUVWXYZabcdefghijklmnopqrstuvwxyz";
    let mut rng = PoisonRng::new(7);
    let text = poison_fragment(&mut rng, 12);
    let mut s = 7u32.wrapping_mul(2654435761);
    let mut expected = String::new();
    for _ in 0..12 {
        s = xorshift(s);
        expected.push(glyphs[(s as usize) % glyphs.len()] as char);
    }
    assert_eq!(text, expected);
    assert_eq!(rng.next(), xorshift(s));
}

#[test]
fn poison_line_draws() {
    let seed = 7u32;
    let s0 = seed.wrapping_mul(2654435761);
    let r1 = xorshift(s0);
    let r2 = xorshift(r1);
    let r3 = xorshift(r2);
    let mut rng = PoisonRng::new(seed);
    assert_eq!(rng.next_font_size(), 9 + r1 % 4);
    assert_eq!(rng.next_fragment_count(), 3 + (r2 % 3) as usize);
    assert_eq!(rng.next_fragment_len(), 4 + (r3 % 9) as usize);
    let mut rng = PoisonRng::new(seed);
    for _ in 0..200 {
        let size = rng.next_font_size();
        assert!((9..=12).contains(&size));
        let count = rng.next_fragment_count();
        assert!((3..=5).contains(&count));
        let len = rng.next_fragment_len();
        assert!((4..=12).contains(&len));
    }
}

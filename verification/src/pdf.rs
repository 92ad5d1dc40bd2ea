//! The PDF side of watermarking, on plain values: the image planes and page
//! content embedded in a PDF, how a page's `Contents` and resource
//! dictionaries are updated, and the invisible copy-paste poison text.
use vstd::prelude::*;
use std::io::Write;
use crate::pixmap::Pixmap;
use crate::text::{decimal, push_str_chars, push_decimal, chars_to_string};

verus! {

// ── Image planes ────────────────────────────────────────────────────────────

/// The red, green and blue bytes of every pixel, in order.
pub open spec fn rgb_plane(pixels: Seq<[u8; 4]>) -> Seq<u8> {
    Seq::new(3 * pixels.len(), |j: int| pixels[j / 3][j % 3])
}

/// The alpha byte of every pixel, in order.
pub open spec fn alpha_plane(pixels: Seq<[u8; 4]>) -> Seq<u8> {
    Seq::new(pixels.len(), |j: int| pixels[j][3])
}

/// Split an RGBA image into separate RGB and alpha byte vectors.
pub fn split_rgba(img: &Pixmap) -> (planes: (Vec<u8>, Vec<u8>))
    ensures
        planes.0@ == rgb_plane(img@),
        planes.1@ == alpha_plane(img@),
{
    let n = img.pixel_count();
    let mut rgb: Vec<u8> = Vec::new();
    let mut alpha: Vec<u8> = Vec::new();
    let mut i: usize = 0;
    while i < n
        invariant
            n == img@.len(),
            i <= n,
            rgb@ == rgb_plane(img@).subrange(0, 3 * i),
            alpha@ == alpha_plane(img@).subrange(0, i as int),
        decreases n - i,
    {
        let px = img.pixel_at(i);
        rgb.push(px[0]);
        rgb.push(px[1]);
        rgb.push(px[2]);
        alpha.push(px[3]);
        i = i + 1;
        assert forall|j: int| 0 <= j < 3 * i implies #[trigger] rgb@[j] == rgb_plane(img@)[j] by {
            if j >= 3 * (i - 1) {
                assert(j / 3 == i - 1);
            }
        }
        assert(rgb@ =~= rgb_plane(img@).subrange(0, 3 * i));
        assert(alpha@ =~= alpha_plane(img@).subrange(0, i as int));
    }
    assert(rgb_plane(img@).subrange(0, 3 * n) =~= rgb_plane(img@));
    assert(alpha_plane(img@).subrange(0, n as int) =~= alpha_plane(img@));
    (rgb, alpha)
}

/// The zlib stream that `flate2` produces for `data` at the default level.
pub uninterp spec fn zlib_compressed(data: Seq<u8>) -> Seq<u8>;

/// Compress data with zlib/deflate: `flate2::write::ZlibEncoder` at
/// `Compression::default()`, writing into a `Vec`, which cannot fail. Its
/// output is named, not described.
#[verifier::external_body]
pub(crate) fn deflate_compress(data: &[u8]) -> (out: Vec<u8>)
    ensures
        out@ == zlib_compressed(data@),
{
    let mut encoder = flate2::write::ZlibEncoder::new(Vec::new(), flate2::Compression::default());
    encoder.write_all(data).expect("deflate write failed");
    encoder.finish().expect("deflate finish failed")
}

/// The two image streams of a PDF image with a soft mask: the RGB plane and
/// the alpha plane, each compressed with zlib (`FlateDecode`).
pub fn compressed_planes(img: &Pixmap) -> (streams: (Vec<u8>, Vec<u8>))
    ensures
        streams.0@ == zlib_compressed(rgb_plane(img@)),
        streams.1@ == zlib_compressed(alpha_plane(img@)),
{
    let (rgb, alpha) = split_rgba(img);
    let rgb_z = deflate_compress(rgb.as_slice());
    let alpha_z = deflate_compress(alpha.as_slice());
    (rgb_z, alpha_z)
}

/// Page content drawing the image XObject `/Img` over a `w` x `h` page.
pub open spec fn image_page_ops(w: nat, h: nat) -> Seq<char> {
    "q\n"@ + decimal(w) + " 0 0 "@ + decimal(h) + " 0 0 cm\n/Img Do\nQ\n"@
}

/// The content stream of a single-page PDF holding one full-page image.
pub fn image_page_content(w: u32, h: u32) -> (ops: String)
    ensures
        ops@ == image_page_ops(w as nat, h as nat),
{
    let mut out: Vec<char> = Vec::new();
    push_str_chars(&mut out, "q\n");
    push_decimal(&mut out, w as u64);
    push_str_chars(&mut out, " 0 0 ");
    push_decimal(&mut out, h as u64);
    push_str_chars(&mut out, " 0 0 cm\n/Img Do\nQ\n");
    assert(out@ =~= image_page_ops(w as nat, h as nat));
    chars_to_string(&out)
}

/// Resource name of the watermark image on page `page_num`.
pub fn watermark_xobject_name(page_num: u32) -> (name: String)
    ensures
        name@ == "FmWm"@ + decimal(page_num as nat),
{
    let mut out: Vec<char> = Vec::new();
    push_str_chars(&mut out, "FmWm");
    push_decimal(&mut out, page_num as u64);
    chars_to_string(&out)
}

// ── A page's Contents entry ─────────────────────────────────────────────────

/// An element of a `Contents` array: a reference to a stream object, or any
/// other object, known to the caller by a handle.
#[derive(Debug, Clone, Copy, PartialEq, Eq, Structural)]
pub enum ContentItem {
    Reference(u32, u16),
    Other(usize),
}

/// The value of a page's `Contents` entry.
#[derive(Debug, Clone, PartialEq, Eq)]
pub enum PageContents {
    Reference(u32, u16),
    Array(Vec<ContentItem>),
    Other,
}

/// The items a present `Contents` entry contributes to a new array.
pub open spec fn contents_items(existing: PageContents) -> Seq<ContentItem> {
    match existing {
        PageContents::Reference(num, gen) => seq![ContentItem::Reference(num, gen)],
        PageContents::Array(items) => items@,
        PageContents::Other => seq![],
    }
}

/// Insert a content stream reference into a page's `Contents`: a lone
/// reference when there was none, otherwise an array of the existing streams
/// with the new one first (`behind`) or last.
pub fn insert_content_stream(existing: Option<PageContents>, stream: (u32, u16), behind: bool) -> (contents: PageContents)
    ensures
        existing is None ==> contents == PageContents::Reference(stream.0, stream.1),
        existing matches Some(e) ==> contents matches PageContents::Array(items) && items@ == if behind {
            seq![ContentItem::Reference(stream.0, stream.1)] + contents_items(e)
        } else {
            contents_items(e).push(ContentItem::Reference(stream.0, stream.1))
        },
{
    let new_ref = ContentItem::Reference(stream.0, stream.1);
    match existing {
        None => PageContents::Reference(stream.0, stream.1),
        Some(e) => {
            let mut refs: Vec<ContentItem> = match e {
                PageContents::Reference(num, gen) => vec![ContentItem::Reference(num, gen)],
                PageContents::Array(items) => items,
                PageContents::Other => Vec::new(),
            };
            if behind {
                refs.insert(0, new_ref);
            } else {
                refs.push(new_ref);
            }
            PageContents::Array(refs)
        },
    }
}

/// The stream references of a `Contents` array, in order.
pub open spec fn item_references(items: Seq<ContentItem>) -> Seq<(u32, u16)>
    decreases items.len(),
{
    if items.len() == 0 {
        seq![]
    } else {
        let rest = item_references(items.drop_last());
        match items.last() {
            ContentItem::Reference(num, gen) => rest.push((num, gen)),
            ContentItem::Other(_) => rest,
        }
    }
}

/// The content streams a page draws, when its `Contents` is a reference or
/// an array (other array elements are skipped); nothing otherwise.
pub open spec fn content_stream_refs(contents: Option<PageContents>) -> Option<Seq<(u32, u16)>> {
    match contents {
        Some(PageContents::Reference(num, gen)) => Some(seq![(num, gen)]),
        Some(PageContents::Array(items)) => Some(item_references(items@)),
        _ => None,
    }
}

/// The content streams to merge when flattening a page: only a page drawing
/// at least two streams is flattened.
pub fn streams_to_flatten(contents: &Option<PageContents>) -> (ids: Option<Vec<(u32, u16)>>)
    ensures
        match content_stream_refs(*contents) {
            Some(refs) => if refs.len() > 1 {
                ids matches Some(v) && v@ == refs
            } else {
                ids is None
            },
            None => ids is None,
        },
{
    let ids: Vec<(u32, u16)> = match contents {
        Some(PageContents::Reference(num, gen)) => vec![(*num, *gen)],
        Some(PageContents::Array(items)) => {
            let mut out: Vec<(u32, u16)> = Vec::new();
            let mut i: usize = 0;
            while i < items.len()
                invariant
                    i <= items@.len(),
                    out@ == item_references(items@.subrange(0, i as int)),
                decreases items.len() - i,
            {
                assert(items@.subrange(0, i + 1).drop_last() =~= items@.subrange(0, i as int));
                match items[i] {
                    ContentItem::Reference(num, gen) => out.push((num, gen)),
                    ContentItem::Other(_) => {},
                }
                i = i + 1;
            }
            assert(items@.subrange(0, items@.len() as int) =~= items@);
            out
        },
        _ => {
            return None;
        },
    };
    if ids.len() <= 1 {
        None
    } else {
        Some(ids)
    }
}

/// The bytes of a merged content stream: each part that is a stream, followed
/// by a newline; parts that are not streams (`None`) are skipped.
pub open spec fn merged_stream(parts: Seq<Option<Vec<u8>>>) -> Seq<u8>
    decreases parts.len(),
{
    if parts.len() == 0 {
        seq![]
    } else {
        let rest = merged_stream(parts.drop_last());
        match parts.last() {
            Some(data) => rest + data@ + seq![10u8],
            None => rest,
        }
    }
}

/// Merge the data of a page's content streams into one stream.
pub fn merge_content_streams(parts: &Vec<Option<Vec<u8>>>) -> (combined: Vec<u8>)
    ensures
        combined@ == merged_stream(parts@),
{
    let mut combined: Vec<u8> = Vec::new();
    let mut i: usize = 0;
    while i < parts.len()
        invariant
            i <= parts@.len(),
            combined@ == merged_stream(parts@.subrange(0, i as int)),
        decreases parts.len() - i,
    {
        assert(parts@.subrange(0, i + 1).drop_last() =~= parts@.subrange(0, i as int));
        match &parts[i] {
            Some(data) => {
                let ghost before = combined@;
                combined.extend_from_slice(data.as_slice());
                combined.push(10u8);
                assert(combined@ =~= before + data@ + seq![10u8]);
            },
            None => {},
        }
        i = i + 1;
    }
    assert(parts@.subrange(0, parts@.len() as int) =~= parts@);
    combined
}

// ── Registering a named resource on a page ──────────────────────────────────

/// What looking up an object in the document found.
#[derive(Debug, Clone, Copy, PartialEq, Eq, Structural)]
pub enum Lookup {
    NotFound,
    NotADictionary,
    Dictionary,
}

/// The value under a key of a dictionary.
#[derive(Debug, Clone, Copy, PartialEq, Eq, Structural)]
pub enum Entry {
    Missing,
    Reference(u32, u16),
    Dictionary,
    Other,
}

/// What the resource registration reads of a page: the page object, its
/// `Resources` entry, the object that entry names when it is a reference,
/// the category entry (`XObject`, `Font`) of the resources dictionary, and
/// the object that entry names when it is a reference.
#[derive(Debug, Clone, Copy, PartialEq, Eq, Structural)]
pub struct ResourceSite {
    pub page: Lookup,
    pub page_resources: Entry,
    pub linked_resources: Lookup,
    pub category: Entry,
    pub linked_category: Lookup,
}

/// Where the new `name => reference` pair is written.
#[derive(Debug, Clone, Copy, PartialEq, Eq, Structural)]
pub enum Placement {
    /// Into the dictionary object the category entry refers to.
    LinkedCategory(u32, u16),
    /// Into the category dictionary held in the resources dictionary,
    /// created empty when missing.
    CategoryDictionary,
    /// The category entry is neither a dictionary nor a reference: it is
    /// replaced by a new dictionary holding just the new pair.
    ReplaceCategory,
}

/// The resources dictionary to work in and where in it to write.
#[derive(Debug, Clone, Copy, PartialEq, Eq)]
pub struct ResourcePlan {
    /// The resources object when the page refers to one; `None` for the
    /// page's own `Resources` dictionary (created empty when missing).
    pub resources_object: Option<(u32, u16)>,
    pub placement: Placement,
}

/// Why a resource cannot be registered.
#[derive(Debug, Clone, Copy, PartialEq, Eq, Structural)]
pub enum ResourceError {
    /// The page object does not exist.
    PageNotFound,
    /// The page refers to a resources object that does not exist.
    ResourcesNotFound,
    /// The category entry refers to an object that does not exist.
    CategoryNotFound,
    /// An object or entry that must be a dictionary is not one.
    NotADictionary,
}

/// Which resources dictionary receives the new entry: the object the page's
/// `Resources` entry refers to (`Some`), or the page's own `Resources`
/// dictionary, created empty when missing (`None`).
pub open spec fn resources_target(site: ResourceSite) -> Result<Option<(u32, u16)>, ResourceError> {
    match (site.page, site.page_resources, site.linked_resources) {
        (Lookup::NotFound, _, _) => Err(ResourceError::PageNotFound),
        (Lookup::NotADictionary, _, _) => Err(ResourceError::NotADictionary),
        (Lookup::Dictionary, Entry::Reference(num, gen), Lookup::Dictionary) => Ok(Some((num, gen))),
        (Lookup::Dictionary, Entry::Reference(_, _), Lookup::NotFound) => Err(
            ResourceError::ResourcesNotFound,
        ),
        (Lookup::Dictionary, Entry::Reference(_, _), Lookup::NotADictionary) => Err(
            ResourceError::NotADictionary,
        ),
        (Lookup::Dictionary, Entry::Missing, _) => Ok(None),
        (Lookup::Dictionary, Entry::Dictionary, _) => Ok(None),
        (Lookup::Dictionary, Entry::Other, _) => Err(ResourceError::NotADictionary),
    }
}

/// Where in the resources dictionary the new entry goes, by its category
/// entry (`XObject`, `Font`); a resources dictionary that is created anew
/// gets a new category dictionary.
pub open spec fn category_placement(site: ResourceSite) -> Result<Placement, ResourceError> {
    match (site.page_resources, site.category, site.linked_category) {
        (Entry::Missing, _, _) => Ok(Placement::CategoryDictionary),
        (_, Entry::Missing, _) => Ok(Placement::CategoryDictionary),
        (_, Entry::Dictionary, _) => Ok(Placement::CategoryDictionary),
        (_, Entry::Reference(cn, cg), Lookup::Dictionary) => Ok(Placement::LinkedCategory(cn, cg)),
        (_, Entry::Reference(_, _), Lookup::NotFound) => Err(ResourceError::CategoryNotFound),
        (_, Entry::Reference(_, _), Lookup::NotADictionary) => Err(ResourceError::NotADictionary),
        (_, Entry::Other, _) => Ok(Placement::ReplaceCategory),
    }
}

/// The outcome of registering a resource on a page with `site`: the first
/// error of the two choices, else both of them.
pub open spec fn resource_plan_of(site: ResourceSite) -> Result<ResourcePlan, ResourceError> {
    match resources_target(site) {
        Err(e) => Err(e),
        Ok(resources_object) => match category_placement(site) {
            Err(e) => Err(e),
            Ok(placement) => Ok(ResourcePlan { resources_object, placement }),
        },
    }
}

/// Decide how a named resource (an image XObject, a font) is registered on a
/// page: in the resources object the page refers to or in the page's own
/// resources dictionary, in the category dictionary held there or in the one
/// a category reference names.
pub fn plan_resource(site: ResourceSite) -> (plan: Result<ResourcePlan, ResourceError>)
    ensures
        plan == resource_plan_of(site),
{
    let resources_object = match site.page {
        Lookup::NotFound => {
            return Err(ResourceError::PageNotFound);
        },
        Lookup::NotADictionary => {
            return Err(ResourceError::NotADictionary);
        },
        Lookup::Dictionary => match site.page_resources {
            Entry::Reference(num, gen) => match site.linked_resources {
                Lookup::NotFound => {
                    return Err(ResourceError::ResourcesNotFound);
                },
                Lookup::NotADictionary => {
                    return Err(ResourceError::NotADictionary);
                },
                Lookup::Dictionary => Some((num, gen)),
            },
            Entry::Missing | Entry::Dictionary => None,
            Entry::Other => {
                return Err(ResourceError::NotADictionary);
            },
        },
    };
    let placement = match site.page_resources {
        Entry::Missing => Placement::CategoryDictionary,
        _ => match site.category {
            Entry::Missing | Entry::Dictionary => Placement::CategoryDictionary,
            Entry::Reference(cn, cg) => match site.linked_category {
                Lookup::NotFound => {
                    return Err(ResourceError::CategoryNotFound);
                },
                Lookup::NotADictionary => {
                    return Err(ResourceError::NotADictionary);
                },
                Lookup::Dictionary => Placement::LinkedCategory(cn, cg),
            },
            Entry::Other => Placement::ReplaceCategory,
        },
    };
    Ok(ResourcePlan { resources_object, placement })
}

/// Where a resource is registered: in the resources object the page refers
/// to when its `Resources` entry is a reference (whatever the category entry
/// holds), in the page's own resources dictionary otherwise; a page whose
/// resources dictionary lacks the category, or holds it as a dictionary,
/// gets the entry in that category dictionary; and registration fails only
/// when an object it must write into is missing or not a dictionary.
pub proof fn resource_plan_targets(site: ResourceSite)
    ensures
        ({
            let plan = resource_plan_of(site);
            &&& plan matches Ok(p) ==> match site.page_resources {
                Entry::Reference(num, gen) => p.resources_object == Some((num, gen)),
                _ => p.resources_object is None,
            }
            &&& (site.page is Dictionary && (site.page_resources is Missing || site.page_resources is Dictionary
                || (site.page_resources is Reference && site.linked_resources is Dictionary))
                && (site.category is Missing || site.category is Dictionary)) ==> plan
                == Ok::<ResourcePlan, ResourceError>(
                ResourcePlan {
                    resources_object: match site.page_resources {
                        Entry::Reference(num, gen) => Some((num, gen)),
                        _ => None,
                    },
                    placement: Placement::CategoryDictionary,
                },
            )
            &&& site.page is Dictionary && site.page_resources is Missing ==> plan is Ok
            &&& site.page_resources !is Missing ==> (plan matches Ok(p) ==> {
                &&& site.category matches Entry::Reference(cn, cg) ==> p.placement
                    == Placement::LinkedCategory(cn, cg)
                &&& site.category is Other ==> p.placement == Placement::ReplaceCategory
            })
            &&& plan is Err ==> {
                ||| site.page !is Dictionary
                ||| site.page_resources is Other
                ||| site.page_resources is Reference && site.linked_resources !is Dictionary
                ||| site.category is Reference && site.linked_category !is Dictionary
            }
        }),
{
}

// ── Copy-paste poison text ──────────────────────────────────────────────────

/// One step of the xorshift32 generator.
pub open spec fn xorshift32(s: u32) -> u32 {
    let a = s ^ (s << 13u32);
    let b = a ^ (a >> 17u32);
    b ^ (b << 5u32)
}

/// The generator state after `k` steps from `s`.
pub open spec fn xorshift_steps(s: u32, k: nat) -> u32
    decreases k,
{
    if k == 0 {
        s
    } else {
        xorshift32(xorshift_steps(s, (k - 1) as nat))
    }
}

/// The letter a draw `r` selects from `A..=Z` followed by `a..=z`.
pub open spec fn poison_glyph(r: u32) -> char {
    let i = r % 52;
    if i < 26 {
        (65 + i) as char
    } else {
        (97 + i - 26) as char
    }
}

/// Deterministic per-page generator of the copy-paste poison, so the output
/// is reproducible.
pub struct PoisonRng {
    state: u32,
}

impl PoisonRng {
    pub closed spec fn spec_state(&self) -> u32 {
        self.state
    }

    /// A generator seeded with the page number.
    pub fn new(seed: u32) -> (rng: PoisonRng)
        ensures
            rng.spec_state() == (seed as nat * 2654435761nat) % 0x1_0000_0000,
    {
        let state = seed.wrapping_mul(2654435761);
        PoisonRng { state }
    }

    /// Advances the generator and returns its new state.
    pub fn next(&mut self) -> (r: u32)
        ensures
            r == xorshift32(old(self).spec_state()),
            final(self).spec_state() == r,
    {
        let mut s = self.state;
        s = s ^ (s << 13u32);
        s = s ^ (s >> 17u32);
        s = s ^ (s << 5u32);
        self.state = s;
        s
    }

    /// The font size of the next poison line, from one draw: 9, 10, 11 or
    /// 12 points, the typical sizes of body text.
    pub fn next_font_size(&mut self) -> (size: u32)
        ensures
            size == 9 + xorshift32(old(self).spec_state()) % 4,
            final(self).spec_state() == xorshift32(old(self).spec_state()),
    {
        let r = self.next();
        9 + r % 4
    }

    /// The number of fragments on the next poison line, from one draw: 3 to 5.
    pub fn next_fragment_count(&mut self) -> (n: usize)
        ensures
            n == 3 + xorshift32(old(self).spec_state()) % 3,
            final(self).spec_state() == xorshift32(old(self).spec_state()),
    {
        let r = self.next();
        3 + (r % 3) as usize
    }

    /// The length of the next poison fragment before it is cut at the right
    /// margin, from one draw: 4 to 12 letters.
    pub fn next_fragment_len(&mut self) -> (n: usize)
        ensures
            n == 4 + xorshift32(old(self).spec_state()) % 9,
            final(self).spec_state() == xorshift32(old(self).spec_state()),
    {
        let r = self.next();
        4 + (r % 9) as usize
    }
}

fn glyph_of(r: u32) -> (c: char)
    ensures
        c == poison_glyph(r),
{
    let i = r % 52;
    if i < 26 {
        let b = (65 + i) as u8;
        b as char
    } else {
        let b = (97 + i - 26) as u8;
        b as char
    }
}

/// A scrambled fragment of `len` letters, one generator draw each.
pub fn poison_fragment(rng: &mut PoisonRng, len: usize) -> (text: String)
    ensures
        final(rng).spec_state() == xorshift_steps(old(rng).spec_state(), len as nat),
        text@ == Seq::new(
            len as nat,
            |i: int| poison_glyph(xorshift_steps(old(rng).spec_state(), (i + 1) as nat)),
        ),
{
    let ghost s0 = rng.spec_state();
    let mut out: Vec<char> = Vec::new();
    let mut i: usize = 0;
    while i < len
        invariant
            i <= len,
            rng.spec_state() == xorshift_steps(s0, i as nat),
            out@ == Seq::new(i as nat, |j: int| poison_glyph(xorshift_steps(s0, (j + 1) as nat))),
        decreases len - i,
    {
        let r = rng.next();
        out.push(glyph_of(r));
        i = i + 1;
        assert(out@ =~= Seq::new(i as nat, |j: int| poison_glyph(xorshift_steps(s0, (j + 1) as nat))));
    }
    chars_to_string(&out)
}


/// After a stream is inserted into a page's `Contents`, the page draws the
/// streams it drew before, in order, with the new one last (on top) or, when
/// `behind`, first.
pub proof fn inserted_stream_is_drawn(existing: PageContents, items: Seq<ContentItem>, stream: (u32, u16), behind: bool)
    requires
        items == if behind {
            seq![ContentItem::Reference(stream.0, stream.1)] + contents_items(existing)
        } else {
            contents_items(existing).push(ContentItem::Reference(stream.0, stream.1))
        },
    ensures
        item_references(items) == if behind {
            seq![stream] + item_references(contents_items(existing))
        } else {
            item_references(contents_items(existing)).push(stream)
        },
{
    if behind {
        lemma_item_references_prepend(contents_items(existing), ContentItem::Reference(stream.0, stream.1));
    } else {
        assert(items.drop_last() =~= contents_items(existing));
    }
}

proof fn lemma_item_references_prepend(items: Seq<ContentItem>, first: ContentItem)
    ensures
        item_references(seq![first] + items) == match first {
            ContentItem::Reference(num, gen) => seq![(num, gen)] + item_references(items),
            ContentItem::Other(_) => item_references(items),
        },
    decreases items.len(),
{
    if items.len() == 0 {
        assert(seq![first] + items =~= seq![first]);
        assert(seq![first].drop_last() =~= Seq::<ContentItem>::empty());
        assert(item_references(items) =~= Seq::<(u32, u16)>::empty());
        match first {
            ContentItem::Reference(num, gen) => {
                assert(seq![(num, gen)] + item_references(items) =~= seq![(num, gen)]);
                assert(item_references(seq![first]) == item_references(seq![first].drop_last()).push((num, gen)));
                assert(item_references(seq![first]) =~= seq![(num, gen)]);
            },
            ContentItem::Other(_) => {
                assert(item_references(seq![first]) == item_references(seq![first].drop_last()));
            },
        }
    } else {
        lemma_item_references_prepend(items.drop_last(), first);
        let full = seq![first] + items;
        assert(full.drop_last() =~= seq![first] + items.drop_last());
        assert(full.last() == items.last());
        let pre: Seq<(u32, u16)> = match first {
            ContentItem::Reference(num, gen) => seq![(num, gen)],
            ContentItem::Other(_) => seq![],
        };
        assert(item_references(seq![first] + items.drop_last()) =~= pre + item_references(items.drop_last()));
        match items.last() {
            ContentItem::Reference(a, b) => {
                assert(item_references(full) =~= (pre + item_references(items.drop_last())).push((a, b)));
                assert(item_references(items) =~= item_references(items.drop_last()).push((a, b)));
                assert(item_references(full) =~= pre + item_references(items));
            },
            ContentItem::Other(_) => {
                assert(item_references(full) =~= pre + item_references(items));
            },
        }
    }
}
} // verus!

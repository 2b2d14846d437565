//! What an annotated PDF shows: whose colours stand in its images, what its pages draw,
//! where each page stands and where each link leads.

use crate::annotate;
use crate::annotate::{AnnotateError, Assembly, PageSize};
use crate::digest_doc::MetaView;
use crate::extract::MarkView;
use crate::pdf;
use crate::pdf::{PdfState, PdfValue};
use crate::placement;
use lopdf::Object;
use vstd::prelude::*;

verus! {

// ---------------------------------------------------------------------------
// Images
// ---------------------------------------------------------------------------
/// The value is an image of the size with eight bits for each part of a pixel: its bytes
/// are those of `raw`, as they are or deflated. `more` are the entries that it has beside
/// those of every image.
pub open spec fn is_image(
    v: PdfValue,
    w: u32,
    h: u32,
    space: &str,
    more: Map<Seq<u8>, PdfValue>,
    raw: Seq<u8>,
) -> bool {
    let base = Map::<Seq<u8>, PdfValue>::empty().insert(
        pdf::key("Type"),
        PdfValue::Name(pdf::key("XObject")),
    ).insert(pdf::key("Subtype"), PdfValue::Name(pdf::key("Image"))).insert(
        pdf::key("Width"),
        PdfValue::Integer(w as int),
    ).insert(pdf::key("Height"), PdfValue::Integer(h as int)).insert(
        pdf::key("ColorSpace"),
        PdfValue::Name(pdf::key(space)),
    ).insert(pdf::key("BitsPerComponent"), PdfValue::Integer(8)).union_prefer_right(more).insert(
        pdf::key("Length"),
        PdfValue::Integer(raw.len() as int),
    );
    let (entries, bytes) = pdf::packed(base, raw, pdf::deflated(raw));
    v == PdfValue::Data(entries, bytes)
}

/// The three bytes of each pixel in `raw` are the red, the green and the blue of that
/// pixel in `pixels`, which have a fourth for its opacity.
pub open spec fn same_colours(raw: Seq<u8>, pixels: Seq<u8>) -> bool {
    &&& raw.len() == 3 * (pixels.len() / 4)
    &&& forall|n: int|
        0 <= n < pixels.len() / 4 ==> {
            &&& raw[3 * n] == #[trigger] pixels[4 * n]
            &&& raw[3 * n + 1] == pixels[4 * n + 1]
            &&& raw[3 * n + 2] == pixels[4 * n + 2]
        }
}

/// The byte of each pixel in `raw` is the opacity of that pixel in `pixels`.
pub open spec fn same_opacity(raw: Seq<u8>, pixels: Seq<u8>) -> bool {
    &&& raw.len() == pixels.len() / 4
    &&& forall|n: int| 0 <= n < pixels.len() / 4 ==> #[trigger] raw[n] == pixels[4 * n + 3]
}

/// The value is a picture of the ink, in its colours, and `mask` is its opacity.
pub open spec fn shows_ink(
    objects: Map<(u32, u16), PdfValue>,
    picture: (u32, u16),
    mask: (u32, u16),
    png: Seq<u8>,
) -> bool {
    match pdf::rgba_image(png) {
        None => false,
        Some((w, h, pixels)) => {
            &&& objects.contains_key(picture)
            &&& objects.contains_key(mask)
            &&& exists|raw: Seq<u8>| #[trigger]
                same_colours(raw, pixels) && is_image(
                    objects[picture],
                    w,
                    h,
                    "DeviceRGB",
                    Map::<Seq<u8>, PdfValue>::empty().insert(
                        pdf::key("SMask"),
                        PdfValue::Reference(mask),
                    ),
                    raw,
                )
            &&& exists|raw: Seq<u8>| #[trigger]
                same_opacity(raw, pixels) && is_image(
                    objects[mask],
                    w,
                    h,
                    "DeviceGray",
                    Map::empty(),
                    raw,
                )
        },
    }
}

/// The stream draws the image of the name over a page of the size: it is scaled to the
/// page's width and height, and the page's own state is put back.
pub open spec fn draws(
    objects: Map<(u32, u16), PdfValue>,
    stream: (u32, u16),
    sides: (PdfValue, PdfValue),
    image: Seq<u8>,
) -> bool {
    let bytes = pdf::encoded(
        seq![
            ("q"@, seq![]),
            (
                "cm"@,
                seq![
                    sides.0,
                    PdfValue::Integer(0),
                    PdfValue::Integer(0),
                    sides.1,
                    PdfValue::Integer(0),
                    PdfValue::Integer(0),
                ],
            ),
            ("Do"@, seq![PdfValue::Name(image)]),
            ("Q"@, seq![]),
        ],
    );
    &&& objects.contains_key(stream)
    &&& objects[stream] == PdfValue::Data(
        Map::<Seq<u8>, PdfValue>::empty().insert(
            pdf::key("Length"),
            PdfValue::Integer(bytes.len() as int),
        ),
        bytes,
    )
}

/// The colours of pixels are parted from their opacity byte by byte.
proof fn pixels_are_parted(pixels: Seq<u8>)
    ensures
        same_colours(annotate::colors_of(pixels), pixels),
        same_opacity(annotate::opacity_of(pixels), pixels),
{
    let raw = annotate::colors_of(pixels);
    assert forall|n: int| 0 <= n < pixels.len() / 4 implies {
        &&& raw[3 * n] == #[trigger] pixels[4 * n]
        &&& raw[3 * n + 1] == pixels[4 * n + 1]
        &&& raw[3 * n + 2] == pixels[4 * n + 2]
    } by {
        assert((3 * n) / 3 == n && (3 * n) % 3 == 0);
        assert((3 * n + 1) / 3 == n && (3 * n + 1) % 3 == 1);
        assert((3 * n + 2) / 3 == n && (3 * n + 2) % 3 == 2);
    }
    assert forall|n: int| 0 <= n < pixels.len() / 4 implies #[trigger] annotate::opacity_of(
        pixels,
    )[n] == pixels[4 * n + 3] by {
        assert(n * 4 + 3 == 4 * n + 3);
    }
}

/// A packed image is one.
proof fn images_are_images(
    w: u32,
    h: u32,
    space: &str,
    more: Map<Seq<u8>, PdfValue>,
    dict: Map<Seq<u8>, PdfValue>,
    raw: Seq<u8>,
)
    requires
        dict =~= annotate::image_entries(w, h, space).union_prefer_right(more),
    ensures
        is_image(annotate::packed_stream(dict, raw), w, h, space, more, raw),
{
    assert(pdf::no_entries() =~= Map::<Seq<u8>, PdfValue>::empty());
}

/// Ink that is stamped on a page keeps its colours and its opacity: of each pixel the red
/// is red, the green green and the blue blue, and what was translucent is. Behind the
/// page's own contents one stream draws it over the whole page, under a name that stands
/// for it in the page's resources, where the page has any or nothing in their place.
pub proof fn stamped_ink_is_shown(
    s: PdfState,
    page_id: (u32, u16),
    png: Seq<u8>,
    sides: (PdfValue, PdfValue),
) -> (image: Seq<u8>)
    requires
        placement::bounded(s),
        s.max_id + 3 <= u32::MAX,
        pdf::dict_place(s.objects, page_id) is Some,
        annotate::stamped(s, page_id, png, sides).0 is Ok,
    ensures
        ({
            let t = annotate::stamped(s, page_id, png, sides).1;
            let mask = ((s.max_id + 1) as u32, 0u16);
            let picture = ((s.max_id + 2) as u32, 0u16);
            let stream = ((s.max_id + 3) as u32, 0u16);
            let k = pdf::dict_place(s.objects, page_id)->0;
            &&& shows_ink(t.objects, picture, mask, png)
            &&& draws(t.objects, stream, sides, image)
            &&& t.objects[k]->Dict_0.get(pdf::key("Contents")) == Some(
                PdfValue::Array(
                    pdf::content_list(s.objects[k]->Dict_0).push(PdfValue::Reference(stream)),
                ),
            )
            &&& pdf::takes_images(s.objects, page_id) ==> pdf::image_named(
                t.objects,
                page_id,
                image,
            ) == Some(PdfValue::Reference(picture))
            &&& !s.objects.contains_key(picture) && !s.objects.contains_key(mask)
                && !s.objects.contains_key(stream)
        }),
{
    let t = annotate::stamped(s, page_id, png, sides).1;
    placement::stamping_keeps_the_page(s, page_id, png, sides);
    let mask = placement::ink_number(s, 1);
    let picture = placement::ink_number(s, 2);
    let image = annotate::image_name("RmInk", picture.0);
    let (w, h, pixels) = pdf::rgba_image(png)->0;
    pixels_are_parted(pixels);
    let more = Map::<Seq<u8>, PdfValue>::empty().insert(
        pdf::key("SMask"),
        PdfValue::Reference(mask),
    );
    images_are_images(
        w,
        h,
        "DeviceRGB",
        more,
        annotate::image_entries(w, h, "DeviceRGB").insert(
            pdf::key("SMask"),
            PdfValue::Reference(mask),
        ),
        annotate::colors_of(pixels),
    );
    images_are_images(
        w,
        h,
        "DeviceGray",
        Map::empty(),
        annotate::image_entries(w, h, "DeviceGray"),
        annotate::opacity_of(pixels),
    );
    assert(same_colours(annotate::colors_of(pixels), pixels));
    assert(same_opacity(annotate::opacity_of(pixels), pixels));
    image
}

// ---------------------------------------------------------------------------
// Inserted pages
// ---------------------------------------------------------------------------
/// The object is a page of the size that shows the image and nothing else.
pub open spec fn shows_page(
    objects: Map<(u32, u16), PdfValue>,
    id: (u32, u16),
    sides: (PdfValue, PdfValue),
    png: Seq<u8>,
) -> bool {
    match pdf::rgb_image(png) {
        None => false,
        Some((w, h, pixels)) => exists|picture: (u32, u16), stream: (u32, u16), image: Seq<u8>|
            {
                &&& #[trigger] page_of(objects, id, sides, stream, image, picture)
                &&& draws(objects, stream, sides, image)
                &&& objects.contains_key(picture)
                &&& is_image(objects[picture], w, h, "DeviceRGB", Map::empty(), pixels)
            },
    }
}

/// The object is a page of the size with these contents, and with the picture under the
/// name of an image.
pub open spec fn page_of(
    objects: Map<(u32, u16), PdfValue>,
    id: (u32, u16),
    sides: (PdfValue, PdfValue),
    stream: (u32, u16),
    image: Seq<u8>,
    picture: (u32, u16),
) -> bool {
    let images = Map::<Seq<u8>, PdfValue>::empty().insert(image, PdfValue::Reference(picture));
    let resources = Map::<Seq<u8>, PdfValue>::empty().insert(
        pdf::key("XObject"),
        PdfValue::Dict(images),
    );
    &&& objects.contains_key(id)
    &&& objects[id] is Dict
    &&& objects[id]->Dict_0.get(pdf::key("Type")) == Some(PdfValue::Name(pdf::key("Page")))
    &&& objects[id]->Dict_0.get(pdf::key("MediaBox")) == Some(
        PdfValue::Array(seq![PdfValue::Integer(0), PdfValue::Integer(0), sides.0, sides.1]),
    )
    &&& objects[id]->Dict_0.get(pdf::key("Contents")) == Some(PdfValue::Reference(stream))
    &&& objects[id]->Dict_0.get(pdf::key("Resources")) == Some(PdfValue::Dict(resources))
}

/// Two keys that differ at a place are different.
proof fn keys_apart(a: Seq<char>, b: Seq<char>, i: int)
    requires
        0 <= i < a.len() && i < b.len(),
        a[i] != b[i],
    ensures
        vstd::utf8::encode_utf8(a) != vstd::utf8::encode_utf8(b),
{
    pdf::keys_differ(a, b);
}

/// The keys of pages are different.
proof fn page_keys_differ()
    ensures
        pdf::key("Type") != pdf::key("Parent"),
        pdf::key("Type") != pdf::key("MediaBox"),
        pdf::key("Type") != pdf::key("Contents"),
        pdf::key("Type") != pdf::key("Resources"),
        pdf::key("Parent") != pdf::key("MediaBox"),
        pdf::key("Parent") != pdf::key("Contents"),
        pdf::key("Parent") != pdf::key("Resources"),
        pdf::key("MediaBox") != pdf::key("Contents"),
        pdf::key("MediaBox") != pdf::key("Resources"),
        pdf::key("Contents") != pdf::key("Resources"),
        pdf::key("Contents") != pdf::key("XObject"),
{
    reveal_strlit("Type");
    reveal_strlit("Parent");
    reveal_strlit("MediaBox");
    reveal_strlit("Contents");
    reveal_strlit("Resources");
    reveal_strlit("XObject");
    keys_apart("Type"@, "Parent"@, 0);
    keys_apart("Type"@, "MediaBox"@, 0);
    keys_apart("Type"@, "Contents"@, 0);
    keys_apart("Type"@, "Resources"@, 0);
    keys_apart("Parent"@, "MediaBox"@, 0);
    keys_apart("Parent"@, "Contents"@, 0);
    keys_apart("Parent"@, "Resources"@, 0);
    keys_apart("MediaBox"@, "Contents"@, 0);
    keys_apart("MediaBox"@, "Resources"@, 0);
    keys_apart("Contents"@, "Resources"@, 0);
    keys_apart("Contents"@, "XObject"@, 0);
}

/// The keys by which a document is put together are none of those by which a page shows
/// something.
proof fn tree_keys_differ()
    ensures
        forall|x: Seq<u8>| #[trigger]
            is_tree_key(x) ==> x != pdf::key("Type") && x != pdf::key("MediaBox") && x != pdf::key(
                "Contents",
            ) && x != pdf::key("Resources"),
{
    page_keys_differ();
    reveal_strlit("Type");
    reveal_strlit("MediaBox");
    reveal_strlit("Contents");
    reveal_strlit("Resources");
    reveal_strlit("Kids");
    reveal_strlit("Count");
    reveal_strlit("Annots");
    keys_apart("Kids"@, "Type"@, 0);
    keys_apart("Kids"@, "MediaBox"@, 0);
    keys_apart("Kids"@, "Contents"@, 0);
    keys_apart("Kids"@, "Resources"@, 0);
    keys_apart("Count"@, "Type"@, 0);
    keys_apart("Count"@, "MediaBox"@, 0);
    keys_apart("Count"@, "Contents"@, 2);
    keys_apart("Count"@, "Resources"@, 0);
    keys_apart("Annots"@, "Type"@, 0);
    keys_apart("Annots"@, "MediaBox"@, 0);
    keys_apart("Annots"@, "Contents"@, 0);
    keys_apart("Annots"@, "Resources"@, 0);
}

/// The key is one of a page tree or of links.
pub open spec fn is_tree_key(x: Seq<u8>) -> bool {
    x == pdf::key("Kids") || x == pdf::key("Count") || x == pdf::key("Parent") || x == pdf::key(
        "Annots",
    )
}

/// What the objects of `a` show, they show in `b`: streams are as they were, and so are
/// dictionaries but for the page tree and links.
pub open spec fn shown_alike(
    a: Map<(u32, u16), PdfValue>,
    b: Map<(u32, u16), PdfValue>,
) -> bool {
    &&& placement::leads_alike(a, b)
    &&& forall|id: (u32, u16)| #[trigger]
        a.contains_key(id) && a[id] is Data ==> b.contains_key(id) && b[id] == a[id]
    &&& forall|id: (u32, u16), x: Seq<u8>|
        a.contains_key(id) && a[id] is Dict && !is_tree_key(x) ==> #[trigger] b[id]->Dict_0.get(x)
            == a[id]->Dict_0.get(x)
}

/// What is shown in turn is shown.
proof fn shown_in_turn(
    a: Map<(u32, u16), PdfValue>,
    b: Map<(u32, u16), PdfValue>,
    c: Map<(u32, u16), PdfValue>,
)
    requires
        shown_alike(a, b),
        shown_alike(b, c),
    ensures
        shown_alike(a, c),
{
    assert forall|id: (u32, u16), x: Seq<u8>|
        a.contains_key(id) && a[id] is Dict && !is_tree_key(x) implies #[trigger] c[id]->Dict_0.get(x)
        == a[id]->Dict_0.get(x) by {
        assert(b.contains_key(id));
        assert(b[id]->Dict_0.get(x) == a[id]->Dict_0.get(x));
    }
    assert forall|id: (u32, u16)| #[trigger] a.contains_key(id) && a[id] is Data implies c.contains_key(id)
        && c[id] == a[id] by {
        assert(b.contains_key(id));
    }
}

/// A page that was shown is.
proof fn page_stays_shown(
    a: Map<(u32, u16), PdfValue>,
    b: Map<(u32, u16), PdfValue>,
    id: (u32, u16),
    sides: (PdfValue, PdfValue),
    png: Seq<u8>,
)
    requires
        shown_alike(a, b),
        shows_page(a, id, sides, png),
    ensures
        shows_page(b, id, sides, png),
{
    let (w, h, pixels) = pdf::rgb_image(png)->0;
    let (picture, stream, image) = choose|
        picture: (u32, u16),
        stream: (u32, u16),
        image: Seq<u8>,
    |
        {
            &&& #[trigger] page_of(a, id, sides, stream, image, picture)
            &&& draws(a, stream, sides, image)
            &&& a.contains_key(picture)
            &&& is_image(a[picture], w, h, "DeviceRGB", Map::empty(), pixels)
        };
    tree_keys_differ();
    assert(is_tree_key(pdf::key("Kids")) && is_tree_key(pdf::key("Count")) && is_tree_key(
        pdf::key("Parent"),
    ) && is_tree_key(pdf::key("Annots")));
    assert(b[id]->Dict_0.get(pdf::key("Type")) == a[id]->Dict_0.get(pdf::key("Type")));
    assert(b[id]->Dict_0.get(pdf::key("MediaBox")) == a[id]->Dict_0.get(pdf::key("MediaBox")));
    assert(b[id]->Dict_0.get(pdf::key("Contents")) == a[id]->Dict_0.get(pdf::key("Contents")));
    assert(b[id]->Dict_0.get(pdf::key("Resources")) == a[id]->Dict_0.get(pdf::key("Resources")));
    assert(page_of(b, id, sides, stream, image, picture));
    assert(draws(b, stream, sides, image));
}

/// A page that is placed shows its image, and every other object but the one at the root
/// of the page tree is as it was.
proof fn placed_page_is_shown(
    s: PdfState,
    pages: Seq<(u32, u16)>,
    after: nat,
    png: Seq<u8>,
    sides: (PdfValue, PdfValue),
    pages_id: (u32, u16),
    k: (u32, u16),
)
    requires
        placement::bounded(s),
        s.max_id + 3 <= u32::MAX,
        pdf::dict_place(s.objects, pages_id) == Some(k),
        annotate::page_placed(s, pages, after, png, sides, pages_id).0 is Ok,
    ensures
        ({
            let (r, t) = annotate::page_placed(s, pages, after, png, sides, pages_id);
            &&& r == Ok::<(u32, u16), AnnotateError>(((s.max_id + 3) as u32, 0))
            &&& !s.objects.contains_key(((s.max_id + 3) as u32, 0))
            &&& shows_page(t.objects, ((s.max_id + 3) as u32, 0), sides, png)
            &&& t.max_id == s.max_id + 3
            &&& placement::bounded(t)
            &&& pdf::dict_place(t.objects, pages_id) == Some(k)
            &&& s.objects.contains_key(k) && t.objects.contains_key(k)
            &&& forall|id: (u32, u16)| #[trigger]
                s.objects.contains_key(id) && id != k ==> t.objects.contains_key(id)
                    && t.objects[id] == s.objects[id]
            &&& t.trailer == s.trailer
            &&& hung_only(s.objects[k], t.objects[k])
            &&& t.objects.contains_key(((s.max_id + 3) as u32, 0))
            &&& t.objects[((s.max_id + 3) as u32, 0)]->Dict_0.get(pdf::key("Parent")) == Some(
                PdfValue::Reference(pages_id),
            )
            &&& shown_alike(s.objects, t.objects)
        }),
{
    let (r, t) = annotate::page_placed(s, pages, after, png, sides, pages_id);
    let (w, h, pixels) = pdf::rgb_image(png)->0;
    let picture = pdf::next_id(s);
    let s1 = pdf::added(
        s,
        annotate::packed_stream(annotate::image_entries(w, h, "DeviceRGB"), pixels),
    );
    let image = annotate::image_name("RmImg", picture.0);
    let s2 = pdf::added(
        s1,
        annotate::plain_stream(pdf::encoded(annotate::drawing(sides, image))),
    );
    let stream = pdf::next_id(s1);
    let page = annotate::page_entries(pages_id, sides, stream, image, picture);
    let s3 = pdf::added(s2, PdfValue::Dict(page));
    let id = pdf::next_id(s2);
    pdf::place_is_held(s.objects, pages_id, 128);
    assert(!s.objects.contains_key(picture) && !s.objects.contains_key(stream)
        && !s.objects.contains_key(id));
    assert(placement::leads_alike(s.objects, s3.objects));
    placement::still_dict(s.objects, s3.objects, pages_id);
    assert(k != picture && k != stream && k != id);
    assert(s3.objects[k] == s.objects[k]);
    assert(placement::leads_alike(s3.objects, t.objects));
    placement::still_dict(s3.objects, t.objects, pages_id);
    images_are_images(
        w,
        h,
        "DeviceRGB",
        Map::empty(),
        annotate::image_entries(w, h, "DeviceRGB"),
        pixels,
    );
    page_keys_differ();
    assert(page_of(t.objects, id, sides, stream, image, picture));
    assert forall|id: (u32, u16), x: Seq<u8>|
        s.objects.contains_key(id) && s.objects[id] is Dict && !is_tree_key(x) implies
        #[trigger] t.objects[id]->Dict_0.get(x) == s.objects[id]->Dict_0.get(x) by {
        if id == k {
            assert(x != pdf::key("Kids") && x != pdf::key("Count"));
        }
    }
    assert(placement::leads_alike(s.objects, t.objects));
    assert(draws(t.objects, stream, sides, image));
    assert(t.objects[picture] == s1.objects[picture]);
}

/// Of a dictionary only the kids and their number changed.
pub open spec fn hung_only(a: PdfValue, b: PdfValue) -> bool {
    &&& a is Dict
    &&& b is Dict
    &&& forall|x: Seq<u8>|
        x != pdf::key("Kids") && x != pdf::key("Count") ==> a->Dict_0.get(x) == #[trigger] b->Dict_0.get(x)
}

/// A page that is inserted shows its image: it is as large as it was asked for, and the
/// image, in its own colours, fills it. Whatever else the document shows stays.
pub proof fn inserted_page_is_shown(
    s: PdfState,
    after: nat,
    png: Seq<u8>,
    sides: (PdfValue, PdfValue),
    pages_id: (u32, u16),
)
    requires
        placement::bounded(s),
        s.max_id + 3 <= u32::MAX,
        pdf::dict_place(s.objects, pages_id) is Some,
        annotate::page_inserted(s, after, png, sides, pages_id).0 is Ok,
    ensures
        ({
            let (r, t) = annotate::page_inserted(s, after, png, sides, pages_id);
            &&& !s.objects.contains_key(r->Ok_0)
            &&& shows_page(t.objects, r->Ok_0, sides, png)
            &&& t.objects[r->Ok_0]->Dict_0.get(pdf::key("Parent")) == Some(
                PdfValue::Reference(pages_id),
            )
            &&& shown_alike(s.objects, t.objects)
        }),
{
    let pages = pdf::page_ids(s.objects, s.trailer);
    let k = pdf::dict_place(s.objects, pages_id)->0;
    placed_page_is_shown(s, pages, after, png, sides, pages_id, k);
}

/// A page that is inserted stands right behind its page, or at the end where there is no
/// such page; the others keep their order.
pub proof fn inserted_page_stands_behind_its_page(
    s: PdfState,
    after: nat,
    png: Seq<u8>,
    sides: (PdfValue, PdfValue),
    pages_id: (u32, u16),
)
    requires
        placement::bounded(s),
        placement::lists_pages(s),
        pdf::pages_root(s.objects, s.trailer) == Some(pages_id),
        pdf::dict_place(s.objects, pages_id) is Some,
        s.max_id + 3 <= u32::MAX,
        ({
            let (r, t) = annotate::page_inserted(s, after, png, sides, pages_id);
            r is Ok && placement::lists_pages(t)
        }),
    ensures
        ({
            let (r, t) = annotate::page_inserted(s, after, png, sides, pages_id);
            let pages = pdf::page_ids(s.objects, s.trailer);
            let now = pdf::page_ids(t.objects, t.trailer);
            &&& now.len() == pages.len() + 1
            &&& after < pages.len() ==> now == pages.take(
                after as int + 1,
            ) + seq![r->Ok_0] + pages.skip(after as int + 1)
            &&& after >= pages.len() ==> now == pages + seq![r->Ok_0]
        }),
{
    placement::inserted_page_is_listed(s, after, png, sides, pages_id);
    let (r, t) = annotate::page_inserted(s, after, png, sides, pages_id);
    let pages = pdf::page_ids(s.objects, s.trailer);
    let now = pdf::page_ids(t.objects, t.trailer);
    if after < pages.len() {
        assert(now =~= pages.take(after as int + 1) + seq![r->Ok_0] + pages.skip(after as int + 1));
    } else {
        assert(now =~= pages + seq![r->Ok_0]);
    }
}

/// The marks of inserted pages.
pub open spec fn inserted(marks: Seq<MarkView>) -> Seq<MarkView> {
    marks.filter(|m: MarkView| m is InsertedPage)
}

/// The inserted pages are counted and placed as they come.
proof fn inserted_in_turn(marks: Seq<MarkView>)
    ensures
        inserted(marks).len() == annotate::inserted_pages(marks),
        placement::afters(marks).len() == annotate::inserted_pages(marks),
        forall|i: int|
            0 <= i < inserted(marks).len() ==> #[trigger] inserted(marks)[i] is InsertedPage
                && placement::afters(marks)[i] == inserted(marks)[i]->after_page,
    decreases marks.len(),
{
    reveal(Seq::filter);
    if marks.len() > 0 {
        inserted_in_turn(marks.drop_last());
    }
}

/// Splicing shows every inserted page, and whatever else the document showed: the page of
/// the i-th of the inserted pages among the marks shows that mark's own image.
pub proof fn spliced_pages_are_shown(
    s: PdfState,
    pages: Seq<(u32, u16)>,
    marks: Seq<MarkView>,
    sides: (PdfValue, PdfValue),
    pages_id: (u32, u16),
)
    requires
        placement::bounded(s),
        pdf::dict_place(s.objects, pages_id) is Some,
        s.max_id + 3 * inserted(marks).len() <= u32::MAX,
        annotate::spliced(s, pages, marks, sides, pages_id).0 is Ok,
    ensures
        ({
            let t = annotate::spliced(s, pages, marks, sides, pages_id).1;
            &&& placement::bounded(t)
            &&& t.max_id == s.max_id + 3 * inserted(marks).len()
            &&& pdf::dict_place(t.objects, pages_id) == pdf::dict_place(s.objects, pages_id)
            &&& shown_alike(s.objects, t.objects)
            &&& forall|i: int|
                0 <= i < inserted(marks).len() ==> shows_page(
                    t.objects,
                    ((s.max_id + 3 * i + 3) as u32, 0),
                    sides,
                    (#[trigger] inserted(marks)[i])->InsertedPage_png,
                )
        }),
    decreases marks.len(),
{
    reveal_with_fuel(annotate::spliced, 2);
    reveal(Seq::filter);
    inserted_in_turn(marks);
    let (r, t) = annotate::spliced(s, pages, marks, sides, pages_id);
    if marks.len() == 0 {
        assert(shown_alike(s.objects, t.objects));
    } else {
        let rest = marks.drop_last();
        let n = inserted(rest).len();
        spliced_pages_are_shown(s, pages, rest, sides, pages_id);
        let (now, m) = annotate::spliced(s, pages, rest, sides, pages_id);
        match marks.last() {
            MarkView::InsertedPage { after_page, png } => {
                let after = placement::moved_on(placement::afters(rest), pages.len(), after_page);
                let k = pdf::dict_place(m.objects, pages_id)->0;
                assert(inserted(marks) == inserted(rest).push(marks.last()));
                placed_page_is_shown(m, now->Ok_0, after, png, sides, pages_id, k);
                shown_in_turn(s.objects, m.objects, t.objects);
                assert forall|i: int| 0 <= i < inserted(marks).len() implies shows_page(
                    t.objects,
                    ((s.max_id + 3 * i + 3) as u32, 0),
                    sides,
                    (#[trigger] inserted(marks)[i])->InsertedPage_png,
                ) by {
                    if i < n {
                        assert(inserted(marks)[i] == inserted(rest)[i]);
                        page_stays_shown(
                            m.objects,
                            t.objects,
                            ((s.max_id + 3 * i + 3) as u32, 0),
                            sides,
                            inserted(rest)[i]->InsertedPage_png,
                        );
                    } else {
                        assert(inserted(marks)[i] == marks.last());
                    }
                }
            },
            _ => {
                assert(inserted(marks) == inserted(rest));
            },
        }
    }
}

// ---------------------------------------------------------------------------
// Where pages stand
// ---------------------------------------------------------------------------
/// Where the pages of a book and those inserted stand among all pages.
pub struct Places {
    pub book: Seq<int>,
    pub inserted: Seq<int>,
}

/// The pages stand where a reader looks for them. The book's pages keep their order; an
/// inserted one stands behind its page and before the next, or at the end where there is
/// no such page; and those inserted behind one page keep the order of the marks. No two
/// stand at one place, and there are no others.
pub open spec fn in_order(places: Places, n: nat, after: Seq<nat>, len: nat) -> bool {
    &&& places.book.len() == n
    &&& places.inserted.len() == after.len()
    &&& len == n + after.len()
    &&& forall|j: int| 0 <= j < n ==> 0 <= #[trigger] places.book[j] < len
    &&& forall|i: int| 0 <= i < after.len() ==> 0 <= #[trigger] places.inserted[i] < len
    &&& forall|a: int, b: int|
        0 <= a < b < n ==> #[trigger] places.book[a] < #[trigger] places.book[b]
    &&& forall|i: int, j: int|
        0 <= i < after.len() && 0 <= j < n ==> (if j <= after[i] {
            #[trigger] places.book[j] < #[trigger] places.inserted[i]
        } else {
            places.inserted[i] < places.book[j]
        })
    &&& forall|a: int, b: int|
        0 <= a < b < after.len() && (after[a] == after[b] || (after[a] >= n && after[b] >= n))
            ==> #[trigger] places.inserted[a] < #[trigger] places.inserted[b]
    &&& forall|a: int, b: int|
        0 <= a < after.len() && 0 <= b < after.len() && after[a] < after[b] && after[a] < n
            ==> #[trigger] places.inserted[a] < #[trigger] places.inserted[b]
}

/// Pages are woven in order: each page of the book and each inserted one stands where a
/// reader looks for it.
#[verifier::spinoff_prover]
pub proof fn pages_are_woven_in_order(ids: Seq<(u32, u16)>, after: Seq<nat>, first: int) -> (places:
    Places)
    ensures
        in_order(places, ids.len(), after, placement::woven(ids, after, first).len()),
        forall|j: int|
            0 <= j < ids.len() ==> placement::woven(ids, after, first)[#[trigger] places.book[j]]
                == ids[j],
        forall|i: int|
            0 <= i < after.len() ==> placement::woven(
                ids,
                after,
                first,
            )[#[trigger] places.inserted[i]] == ((first + 3 * i) as u32, 0u16),
{
    let n = ids.len();
    placement::woven_in_place(ids, after, first);
    let places = Places {
        book: Seq::new(n, |j: int| j + placement::below(after, j)),
        inserted: Seq::new(after.len(), |i: int| placement::inserted_place(after, n, i)),
    };
    assert forall|j: int| 0 <= j < n implies 0 <= #[trigger] places.book[j] < n + after.len()
        && placement::woven(ids, after, first)[places.book[j]] == ids[j] by {
        assert(placement::below(after, j) <= after.len());
        assert(placement::woven(ids, after, first)[j + placement::below(after, j)] == ids[j]);
    }
    assert forall|i: int| 0 <= i < after.len() implies 0 <= #[trigger] places.inserted[i] < n
        + after.len() && placement::woven(ids, after, first)[places.inserted[i]] == (
        (first + 3 * i) as u32,
        0u16,
    ) by {
        assert(placement::inserted_place(after, n, i) == places.inserted[i]);
    }
    assert forall|a: int, b: int| 0 <= a < b < n implies #[trigger] places.book[a]
        < #[trigger] places.book[b] by {
        placement::below_grows(after, a, b);
    }
    assert forall|i: int, j: int| 0 <= i < after.len() && 0 <= j < n implies (if j <= after[i] {
        #[trigger] places.book[j] < #[trigger] places.inserted[i]
    } else {
        places.inserted[i] < places.book[j]
    }) by {
        let c = placement::least(after[i], n);
        if j <= after[i] {
            placement::below_grows(after, j, c as int);
        } else {
            placement::counts_grow(after, n, c, j);
            placement::level_grows(after, n, i);
        }
    }
    assert forall|a: int, b: int|
        0 <= a < b < after.len() && (after[a] == after[b] || (after[a] >= n && after[b] >= n))
        implies #[trigger] places.inserted[a] < #[trigger] places.inserted[b] by {
        placement::level_grows(after.take(b), n, a);
        assert(after.take(b).take(a) =~= after.take(a));
        assert(after.take(b)[a] == after[a]);
    }
    assert forall|a: int, b: int|
        0 <= a < after.len() && 0 <= b < after.len() && after[a] < after[b] && after[a] < n
        implies #[trigger] places.inserted[a] < #[trigger] places.inserted[b] by {
        let (c, d) = (placement::least(after[a], n), placement::least(after[b], n));
        placement::counts_grow(after, n, c, d as int);
        placement::level_grows(after, n, a);
    }
    places
}

// ---------------------------------------------------------------------------
// Digest and book
// ---------------------------------------------------------------------------
/// Another parent changes nothing that is shown.
proof fn reparented_is_shown(
    objects: Map<(u32, u16), PdfValue>,
    ids: Seq<(u32, u16)>,
    parent: (u32, u16),
)
    ensures
        shown_alike(objects, annotate::reparented(objects, ids, parent)),
    decreases ids.len(),
{
    if ids.len() > 0 {
        let before = annotate::reparented(objects, ids.drop_last(), parent);
        reparented_is_shown(objects, ids.drop_last(), parent);
        pdf::place_is_held(before, ids.last(), 128);
        let after = annotate::reparented(objects, ids, parent);
        assert(shown_alike(before, after));
        shown_in_turn(objects, before, after);
    }
}

/// In the merged document the book and the digest, which is numbered behind it, show what
/// they showed.
pub proof fn merged_pages_are_shown(book: PdfState, digest: PdfState, both: PdfState)
    requires
        annotate::merged(book, digest) == Ok::<PdfState, AnnotateError>(both),
        placement::bounded(book),
        placement::numbered_behind(book, digest),
    ensures
        shown_alike(book.objects, both.objects),
        shown_alike(
            pdf::renumbered(digest.objects, digest.trailer, (book.max_id + 1) as u32).0,
            both.objects,
        ),
        both.trailer == book.trailer,
{
    reveal(annotate::merged);
    let (theirs, theirs_trailer) = pdf::renumbered(
        digest.objects,
        digest.trailer,
        (book.max_id + 1) as u32,
    );
    let front = pdf::page_ids(theirs, theirs_trailer);
    let root = annotate::root_found(book.objects, book.trailer)->Ok_0;
    let union = book.objects.union_prefer_right(theirs);
    let hung = annotate::reparented(union, front, root);
    assert(shown_alike(book.objects, union));
    assert(shown_alike(theirs, union));
    reparented_is_shown(union, front, root);
    pdf::place_is_held(hung, root, 128);
    assert(shown_alike(hung, both.objects));
    shown_in_turn(union, hung, both.objects);
    shown_in_turn(book.objects, union, both.objects);
    shown_in_turn(theirs, union, both.objects);
}

// ---------------------------------------------------------------------------
// Links
// ---------------------------------------------------------------------------
/// The object is a link in the rectangle that leads to the page: a click there shows the
/// whole of it.
pub open spec fn leads_to(
    objects: Map<(u32, u16), PdfValue>,
    link: (u32, u16),
    rect: Seq<PdfValue>,
    target: (u32, u16),
) -> bool {
    let zero = PdfValue::Integer(0);
    let action = Map::<Seq<u8>, PdfValue>::empty().insert(
        pdf::key("S"),
        PdfValue::Name(pdf::key("GoTo")),
    ).insert(
        pdf::key("D"),
        PdfValue::Array(seq![PdfValue::Reference(target), PdfValue::Name(pdf::key("Fit"))]),
    );
    &&& objects.contains_key(link)
    &&& objects[link] == PdfValue::Dict(
        Map::<Seq<u8>, PdfValue>::empty().insert(
            pdf::key("Type"),
            PdfValue::Name(pdf::key("Annot")),
        ).insert(pdf::key("Subtype"), PdfValue::Name(pdf::key("Link"))).insert(
            pdf::key("Rect"),
            PdfValue::Array(rect),
        ).insert(pdf::key("Border"), PdfValue::Array(seq![zero, zero, zero])).insert(
            pdf::key("A"),
            PdfValue::Dict(action),
        ),
    )
}

/// The marks that are highlights on one of the first `n` pages.
pub open spec fn linkable(marks: Seq<MarkView>, n: nat) -> Seq<MarkView> {
    marks.filter(|m: MarkView| m is Highlight && m->Highlight_page < n)
}

/// The highlights are linked as they come.
proof fn linkable_in_turn(marks: Seq<MarkView>, n: nat)
    ensures
        linkable(marks, n).len() == placement::linked_pages(marks, n).len(),
        forall|i: int|
            0 <= i < linkable(marks, n).len() ==> #[trigger] linkable(marks, n)[i] is Highlight
                && linkable(marks, n)[i]->Highlight_page < n && placement::linked_pages(
                marks,
                n,
            )[i] == linkable(marks, n)[i]->Highlight_page,
    decreases marks.len(),
{
    reveal(Seq::filter);
    if marks.len() > 0 {
        linkable_in_turn(marks.drop_last(), n);
    }
}

/// Every highlight on a page that is there has a link: behind the annotations that the
/// first page had stands one for each, in the order of the marks. The i-th leads from the
/// i-th band to the page of the i-th such highlight. There are no others, and whatever
/// the document showed stays.
pub proof fn links_lead_to_their_pages(
    s: PdfState,
    first: (u32, u16),
    targets: Seq<(u32, u16)>,
    marks: Seq<MarkView>,
    bands: Seq<Seq<PdfValue>>,
) -> (links: Seq<(u32, u16)>)
    requires
        placement::bounded(s),
        pdf::dict_place(s.objects, first) is Some,
        annotate::links_added(s, first, targets, marks, bands).0 is Ok,
    ensures
        ({
            let (r, t) = annotate::links_added(s, first, targets, marks, bands);
            let shown = linkable(marks, targets.len());
            &&& r == Ok::<nat, AnnotateError>(shown.len())
            &&& links.len() == shown.len()
            &&& listed_annotations(t.objects, first) == listed_annotations(s.objects, first)
                + pdf::references(links)
            &&& forall|i: int|
                0 <= i < shown.len() ==> {
                    &&& 0 <= (#[trigger] shown[i])->Highlight_page < targets.len()
                    &&& !s.objects.contains_key(links[i])
                    &&& leads_to(
                        t.objects,
                        links[i],
                        bands[i],
                        targets[shown[i]->Highlight_page as int],
                    )
                }
            &&& shown_alike(s.objects, t.objects)
            &&& t.trailer == s.trailer
        }),
{
    let (r, t) = annotate::links_added(s, first, targets, marks, bands);
    let k = pdf::dict_place(s.objects, first)->0;
    let shown = linkable(marks, targets.len());
    linkable_in_turn(marks, targets.len());
    pdf::place_is_held(s.objects, first, 128);
    placement::every_highlight_is_linked(s, first, targets, marks, bands, k);
    annotate::linking_keeps_the_trailer(s, first, targets, marks, bands);
    let links = Seq::new(shown.len(), |i: int| placement::link_number(s.max_id, i));
    assert(pdf::references(links) =~= Seq::new(
        shown.len(),
        |i: int| PdfValue::Reference(placement::link_number(s.max_id, i)),
    ));
    assert forall|i: int| 0 <= i < shown.len() implies {
        &&& 0 <= (#[trigger] shown[i])->Highlight_page < targets.len()
        &&& !s.objects.contains_key(links[i])
        &&& leads_to(t.objects, links[i], bands[i], targets[shown[i]->Highlight_page as int])
    } by {
        assert(t.objects.contains_key(placement::link_number(s.max_id, i)));
    }
    assert forall|id: (u32, u16), x: Seq<u8>|
        s.objects.contains_key(id) && s.objects[id] is Dict && !is_tree_key(x) implies
        #[trigger] t.objects[id]->Dict_0.get(x) == s.objects[id]->Dict_0.get(x) by {
        if id == k {
            let (page, now) = (s.objects[k]->Dict_0, t.objects[k]->Dict_0);
            let annots = pdf::key("Annots");
            assert(x != annots);
            assert(now.remove(annots).contains_key(x) == page.remove(annots).contains_key(x));
            assert(now.contains_key(x) ==> now.remove(annots)[x] == now[x]);
            assert(page.contains_key(x) ==> page.remove(annots)[x] == page[x]);
        }
    }
    links
}

/// The annotations of the page, whose list stands in the page or behind a reference.
pub open spec fn listed_annotations(objects: Map<(u32, u16), PdfValue>, page_id: (u32, u16)) -> Seq<
    PdfValue,
> {
    let page = pdf::dict_at(objects, page_id)->0;
    match page.get(pdf::key("Annots")) {
        Some(PdfValue::Array(items)) => items,
        Some(PdfValue::Reference(at)) => match pdf::place(objects, at) {
            Some(p) => match objects[p] {
                PdfValue::Array(items) => items,
                _ => seq![],
            },
            None => seq![],
        },
        _ => seq![],
    }
}

// ---------------------------------------------------------------------------
// Ink on pages
// ---------------------------------------------------------------------------
/// The page shows the ink: one of the streams that it draws is a picture of it.
pub open spec fn has_ink(
    objects: Map<(u32, u16), PdfValue>,
    page_id: (u32, u16),
    png: Seq<u8>,
    sides: (PdfValue, PdfValue),
) -> bool {
    exists|picture: (u32, u16), mask: (u32, u16), stream: (u32, u16), image: Seq<u8>|
        {
            &&& pdf::dict_at(objects, page_id) is Some
            &&& pdf::content_list(pdf::dict_at(objects, page_id)->0).contains(
                PdfValue::Reference(stream),
            )
            &&& #[trigger] draws(objects, stream, sides, image)
            &&& #[trigger] shows_ink(objects, picture, mask, png)
        }
}

/// Ink that was shown is, where the streams are as they were and the page has the contents
/// that it had.
proof fn ink_stays(
    a: Map<(u32, u16), PdfValue>,
    b: Map<(u32, u16), PdfValue>,
    page_id: (u32, u16),
    png: Seq<u8>,
    sides: (PdfValue, PdfValue),
)
    requires
        has_ink(a, page_id, png, sides),
        forall|id: (u32, u16)| #[trigger]
            a.contains_key(id) && a[id] is Data ==> b.contains_key(id) && b[id] == a[id],
        pdf::dict_at(b, page_id) is Some,
        forall|v: PdfValue|
            pdf::content_list(pdf::dict_at(a, page_id)->0).contains(v) ==> #[trigger] pdf::content_list(
                pdf::dict_at(b, page_id)->0,
            ).contains(v),
    ensures
        has_ink(b, page_id, png, sides),
{
    let (picture, mask, stream, image) = choose|
        picture: (u32, u16),
        mask: (u32, u16),
        stream: (u32, u16),
        image: Seq<u8>,
    |
        {
            &&& pdf::dict_at(a, page_id) is Some
            &&& pdf::content_list(pdf::dict_at(a, page_id)->0).contains(
                PdfValue::Reference(stream),
            )
            &&& #[trigger] draws(a, stream, sides, image)
            &&& #[trigger] shows_ink(a, picture, mask, png)
        };
    assert(pdf::content_list(pdf::dict_at(b, page_id)->0).contains(PdfValue::Reference(stream)));
    assert(draws(b, stream, sides, image));
    assert(shows_ink(b, picture, mask, png));
}

/// Ink that was shown is, where everything that was shown is.
proof fn ink_stays_shown(
    a: Map<(u32, u16), PdfValue>,
    b: Map<(u32, u16), PdfValue>,
    page_id: (u32, u16),
    png: Seq<u8>,
    sides: (PdfValue, PdfValue),
)
    requires
        has_ink(a, page_id, png, sides),
        shown_alike(a, b),
    ensures
        has_ink(b, page_id, png, sides),
{
    let k = pdf::dict_place(a, page_id)->0;
    pdf::place_is_held(a, page_id, 128);
    placement::still_dict(a, b, page_id);
    let c = pdf::key("Contents");
    tree_keys_differ();
    assert(is_tree_key(pdf::key("Kids")) && is_tree_key(pdf::key("Count")) && is_tree_key(
        pdf::key("Parent"),
    ) && is_tree_key(pdf::key("Annots")));
    assert(b[k]->Dict_0.get(c) == a[k]->Dict_0.get(c));
    assert(pdf::content_list(b[k]->Dict_0) == pdf::content_list(a[k]->Dict_0));
    ink_stays(a, b, page_id, png, sides);
}

/// Stamping one page leaves the ink of every page.
proof fn ink_stays_with_more(
    s: PdfState,
    t: PdfState,
    page_id: (u32, u16),
    png: Seq<u8>,
    sides: (PdfValue, PdfValue),
    other: (u32, u16),
    other_png: Seq<u8>,
    other_sides: (PdfValue, PdfValue),
)
    requires
        pdf::dict_place(s.objects, page_id) is Some,
        placement::ink_only(s, t, page_id, png, sides),
        placement::leads_alike(s.objects, t.objects),
        has_ink(s.objects, other, other_png, other_sides),
    ensures
        has_ink(t.objects, other, other_png, other_sides),
{
    let k = pdf::dict_place(s.objects, page_id)->0;
    let m = pdf::dict_place(s.objects, other)->0;
    pdf::place_is_held(s.objects, page_id, 128);
    pdf::place_is_held(s.objects, other, 128);
    placement::still_dict(s.objects, t.objects, other);
    let c = pdf::key("Contents");
    let (a, b) = (s.objects[m]->Dict_0, t.objects[m]->Dict_0);
    let image = annotate::image_name("RmInk", placement::ink_number(s, 2).0);
    page_keys_differ();
    placement::ink_keys_differ(placement::ink_number(s, 2).0 as nat);
    if m == k {
        let list = pdf::content_list(a);
        let more = list.push(PdfValue::Reference(placement::ink_number(s, 3)));
        assert(pdf::content_list(b) == more);
        assert forall|v: PdfValue| list.contains(v) implies #[trigger] more.contains(v) by {
            let i = choose|i: int| 0 <= i < list.len() && list[i] == v;
            assert(more[i] == v);
        }
    } else {
        assert(a.contains_key(c) == b.contains_key(c));
        assert(pdf::content_list(b) == pdf::content_list(a));
    }
    ink_stays(s.objects, t.objects, other, other_png, other_sides);
}

/// Each page that has ink shows it once they are stamped: the j-th of the pages `inked`,
/// by its place among the document's pages, shows the image that `render` gave for the
/// j-th at the size of that page.
#[verifier::spinoff_prover]
pub proof fn every_inked_page_has_its_ink<R: Fn(usize, &PageSize) -> Result<Vec<u8>, String>>(
    render: &R,
    s: PdfState,
    inked: Seq<usize>,
    sizes: Seq<PageSize>,
    fallback: PageSize,
    t: PdfState,
    j: int,
)
    requires
        placement::bounded(s),
        placement::lists_pages(s),
        pdf::whole_tree(s.objects, s.trailer),
        sizes.len() == pdf::page_ids(s.objects, s.trailer).len() <= u32::MAX,
        inked.len() <= usize::MAX,
        annotate::all_stamped(render, s, inked, sizes, fallback, t),
        0 <= j < inked.len(),
        inked[j] < pdf::page_ids(s.objects, s.trailer).len(),
    ensures
        exists|png: Vec<u8>| #[trigger]
            call_ensures(render, (j as usize, &sizes[inked[j] as int]), Ok(png)) && has_ink(
                t.objects,
                pdf::page_ids(s.objects, s.trailer)[inked[j] as int],
                png@,
                sizes[inked[j] as int].sides(),
            ),
    decreases inked.len(),
{
    reveal_with_fuel(annotate::all_stamped, 2);
    let ids = pdf::page_ids(s.objects, s.trailer);
    let last = (inked.len() - 1) as int;
    let index = inked.last();
    let size = annotate::size_of(sizes, fallback, index);
    let m = choose|m: PdfState|
        annotate::all_stamped(render, s, inked.drop_last(), sizes, fallback, m)
            && #[trigger] annotate::ink_stamped(render, m, last as usize, index, size, t);
    placement::all_ink_keeps_the_tree(render, s, inked.drop_last(), sizes, fallback, m);
    placement::inked_pages_are_listed(render, s, inked.drop_last(), sizes, fallback, m);
    match annotate::target_of(m, index) {
        None => {
            assert(j < last);
            every_inked_page_has_its_ink(render, s, inked.drop_last(), sizes, fallback, m, j);
        },
        Some(id) => {
            let png = choose|png: Vec<u8>| #[trigger]
                call_ensures(render, (last as usize, &size), Ok(png)) && annotate::stamped(
                    m,
                    id,
                    png@,
                    size.sides(),
                ) == (Ok::<(), AnnotateError>(()), t) && pdf::is_page(m.objects, id)
                    && placement::only_inked(m, t, id, png@, size.sides());
            placement::ink_keeps_the_tree(m, t, id, png@, size.sides());
            if j < last {
                every_inked_page_has_its_ink(render, s, inked.drop_last(), sizes, fallback, m, j);
                let old = choose|old: Vec<u8>| #[trigger]
                    call_ensures(render, (j as usize, &sizes[inked[j] as int]), Ok(old)) && has_ink(
                        m.objects,
                        ids[inked[j] as int],
                        old@,
                        sizes[inked[j] as int].sides(),
                    );
                ink_stays_with_more(
                    m,
                    t,
                    id,
                    png@,
                    size.sides(),
                    ids[inked[j] as int],
                    old@,
                    sizes[inked[j] as int].sides(),
                );
            } else {
                assert(id == ids[index as int]);
                assert(size == sizes[index as int]);
                stamp_has_its_ink(m, t, id, png@, size.sides());
            }
        },
    }
}

/// A page that was stamped has its ink.
proof fn stamp_has_its_ink(
    s: PdfState,
    t: PdfState,
    page_id: (u32, u16),
    png: Seq<u8>,
    sides: (PdfValue, PdfValue),
)
    requires
        pdf::rgba_image(png) is Some,
        pdf::dict_place(s.objects, page_id) is Some,
        placement::leads_alike(s.objects, t.objects),
        placement::ink_only(s, t, page_id, png, sides),
    ensures
        has_ink(t.objects, page_id, png, sides),
{
    let k = pdf::dict_place(s.objects, page_id)->0;
    pdf::place_is_held(s.objects, page_id, 128);
    placement::still_dict(s.objects, t.objects, page_id);
    let mask = placement::ink_number(s, 1);
    let picture = placement::ink_number(s, 2);
    let stream = placement::ink_number(s, 3);
    let image = annotate::image_name("RmInk", picture.0);
    ink_object_is_shown(t.objects, picture, mask, png);
    assert(draws(t.objects, stream, sides, image));
    let list = pdf::content_list(s.objects[k]->Dict_0);
    assert(pdf::content_list(t.objects[k]->Dict_0) == list.push(PdfValue::Reference(stream)));
    assert(list.push(PdfValue::Reference(stream))[list.len() as int] == PdfValue::Reference(stream));
    assert(pdf::dict_at(t.objects, page_id) == Some(t.objects[k]->Dict_0));
    assert(pdf::content_list(pdf::dict_at(t.objects, page_id)->0).contains(
        PdfValue::Reference(stream),
    ));
}

/// The picture and the mask of ink show it.
proof fn ink_object_is_shown(
    objects: Map<(u32, u16), PdfValue>,
    picture: (u32, u16),
    mask: (u32, u16),
    png: Seq<u8>,
)
    requires
        pdf::rgba_image(png) is Some,
        objects.contains_key(mask),
        objects[mask] == annotate::ink_mask(png),
        objects.contains_key(picture),
        objects[picture] == annotate::ink_picture(png, mask),
    ensures
        shows_ink(objects, picture, mask, png),
{
    let (w, h, pixels) = pdf::rgba_image(png)->0;
    pixels_are_parted(pixels);
    let more = Map::<Seq<u8>, PdfValue>::empty().insert(
        pdf::key("SMask"),
        PdfValue::Reference(mask),
    );
    images_are_images(
        w,
        h,
        "DeviceRGB",
        more,
        annotate::image_entries(w, h, "DeviceRGB").insert(
            pdf::key("SMask"),
            PdfValue::Reference(mask),
        ),
        annotate::colors_of(pixels),
    );
    images_are_images(
        w,
        h,
        "DeviceGray",
        Map::empty(),
        annotate::image_entries(w, h, "DeviceGray"),
        annotate::opacity_of(pixels),
    );
    assert(same_colours(annotate::colors_of(pixels), pixels));
    assert(same_opacity(annotate::opacity_of(pixels), pixels));
}

/// The size of each page is what `size` gives for its box: its own, or else that of its
/// parent. A page without a box has the size of the first.
pub proof fn pages_have_their_sizes<S: Fn(Option<&Vec<Object>>) -> PageSize>(
    size: &S,
    s: PdfState,
    sizes: Seq<PageSize>,
    fallback: PageSize,
    i: int,
)
    requires
        annotate::sizes_found(size, s, sizes, fallback),
        0 <= i < pdf::page_ids(s.objects, s.trailer).len(),
        ({
            let page = pdf::dict_at(s.objects, pdf::page_ids(s.objects, s.trailer)[i]);
            page is Some
        }),
    ensures
        sizes.len() == pdf::page_ids(s.objects, s.trailer).len(),
        ({
            let page = pdf::dict_at(s.objects, pdf::page_ids(s.objects, s.trailer)[i])->0;
            let found = match page.get(pdf::key("MediaBox")) {
                Some(PdfValue::Array(own)) => Some(own),
                _ => match page.get(pdf::key("Parent")) {
                    Some(PdfValue::Reference(up)) => match pdf::dict_at(s.objects, up) {
                        Some(parent) => match parent.get(pdf::key("MediaBox")) {
                            Some(PdfValue::Array(theirs)) => Some(theirs),
                            _ => None,
                        },
                        None => None,
                    },
                    _ => None,
                },
            };
            &&& exists|a: Option<&Vec<Object>>| #[trigger]
                call_ensures(size, (a,), sizes[i]) && pdf::array_view(a) == found
            &&& i == 0 ==> exists|a: Option<&Vec<Object>>| #[trigger]
                call_ensures(size, (a,), fallback) && pdf::array_view(a) == found
        }),
{
    reveal(annotate::sizes_found);
    let ids = pdf::page_ids(s.objects, s.trailer);
    let own = annotate::box_of(s.objects, ids[i]);
    assert(annotate::sized(size, own, sizes[i]));
    let a = choose|a: Option<&Vec<Object>>| #[trigger]
        pdf::array_view(a) == own && call_ensures(size, (a,), sizes[i]);
    assert(call_ensures(size, (a,), sizes[i]));
    if i == 0 {
        let b = choose|b: Option<&Vec<Object>>| #[trigger]
            pdf::array_view(b) == own && call_ensures(size, (b,), fallback);
        assert(call_ensures(size, (b,), fallback));
    }
}

// ---------------------------------------------------------------------------
// The annotated PDF
// ---------------------------------------------------------------------------
/// In the assembled document every page of the book that has ink shows it, in its own
/// colours: the j-th of the pages `inked` what `render` gave for it, at the size of that
/// page.
pub proof fn ink_is_assembled<
    S: Fn(Option<&Vec<Object>>) -> PageSize,
    R: Fn(usize, &PageSize) -> Result<Vec<u8>, String>,
    C: Fn(&String, &Vec<(String, Vec<u8>)>) -> Result<Vec<u8>, String>,
>(
    book: PdfState,
    root: (u32, u16),
    inked: Seq<usize>,
    meta: MetaView,
    marks: Seq<MarkView>,
    bands: Seq<Seq<PdfValue>>,
    size: &S,
    render: &R,
    compile: &C,
    run: Assembly,
    bytes: Seq<u8>,
    j: int,
)
    requires
        placement::bounded(book),
        pdf::whole_tree(book.objects, book.trailer),
        pdf::page_ids(book.objects, book.trailer).len() <= u32::MAX,
        annotate::root_found(book.objects, book.trailer) == Ok::<(u32, u16), AnnotateError>(root),
        pdf::dict_place(book.objects, root) is Some,
        inked.len() <= usize::MAX,
        annotate::assembled(
            book,
            root,
            inked,
            meta,
            marks,
            bands,
            size,
            render,
            compile,
            run,
            bytes,
        ),
        0 <= j < inked.len(),
        inked[j] < pdf::page_ids(book.objects, book.trailer).len(),
    ensures
        exists|png: Vec<u8>| #[trigger]
            call_ensures(render, (j as usize, &run.sizes[inked[j] as int]), Ok(png)) && has_ink(
                run.linked.objects,
                pdf::page_ids(book.objects, book.trailer)[inked[j] as int],
                png@,
                run.sizes[inked[j] as int].sides(),
            ),
{
    let ids = pdf::page_ids(book.objects, book.trailer);
    let index = inked[j] as int;
    assert(run.sizes.len() == ids.len()) by {
        reveal(annotate::sizes_found);
    }
    every_inked_page_has_its_ink(render, book, inked, run.sizes, run.fallback, run.inked, j);
    let png = choose|png: Vec<u8>| #[trigger]
        call_ensures(render, (j as usize, &run.sizes[index]), Ok(png)) && has_ink(
            run.inked.objects,
            ids[index],
            png@,
            run.sizes[index].sides(),
        );
    everything_stays_shown(
        book,
        root,
        inked,
        meta,
        marks,
        bands,
        size,
        render,
        compile,
        run,
        bytes,
    );
    ink_stays_shown(
        run.inked.objects,
        run.linked.objects,
        ids[index],
        png@,
        run.sizes[index].sides(),
    );
}

/// What the book shows once it is inked, and what it shows with the inserted pages, the
/// assembled document shows.
proof fn everything_stays_shown<
    S: Fn(Option<&Vec<Object>>) -> PageSize,
    R: Fn(usize, &PageSize) -> Result<Vec<u8>, String>,
    C: Fn(&String, &Vec<(String, Vec<u8>)>) -> Result<Vec<u8>, String>,
>(
    book: PdfState,
    root: (u32, u16),
    inked: Seq<usize>,
    meta: MetaView,
    marks: Seq<MarkView>,
    bands: Seq<Seq<PdfValue>>,
    size: &S,
    render: &R,
    compile: &C,
    run: Assembly,
    bytes: Seq<u8>,
)
    requires
        placement::bounded(book),
        pdf::whole_tree(book.objects, book.trailer),
        annotate::root_found(book.objects, book.trailer) == Ok::<(u32, u16), AnnotateError>(root),
        pdf::dict_place(book.objects, root) is Some,
        annotate::assembled(
            book,
            root,
            inked,
            meta,
            marks,
            bands,
            size,
            render,
            compile,
            run,
            bytes,
        ),
    ensures
        placement::bounded(run.inked),
        pdf::dict_place(run.inked.objects, root) is Some,
        shown_alike(run.inked.objects, run.linked.objects),
        shown_alike(run.full.objects, run.linked.objects),
{
    placement::all_ink_keeps_the_tree(render, book, inked, run.sizes, run.fallback, run.inked);
    placement::still_dict(book.objects, run.inked.objects, root);
    inserted_in_turn(marks);
    let pages = pdf::page_ids(run.inked.objects, run.inked.trailer);
    spliced_pages_are_shown(run.inked, pages, marks, run.fallback.sides(), root);
    merged_pages_are_shown(run.full, run.digest, run.both);
    let first = pdf::page_ids(run.both.objects, run.both.trailer)[0];
    assert(pdf::is_page(run.both.objects, first));
    let targets = pdf::page_ids(book.objects, book.trailer);
    let links = links_lead_to_their_pages(run.both, first, targets, marks, bands);
    shown_in_turn(run.inked.objects, run.full.objects, run.both.objects);
    shown_in_turn(run.inked.objects, run.both.objects, run.linked.objects);
    shown_in_turn(run.full.objects, run.both.objects, run.linked.objects);
}

/// In the assembled document every inserted page among the marks is a page that shows that
/// mark's own image, as large as the first page of the book; the digest's pages come
/// first, and behind them the book's pages and the inserted ones in order.
pub proof fn inserted_pages_are_assembled<
    S: Fn(Option<&Vec<Object>>) -> PageSize,
    R: Fn(usize, &PageSize) -> Result<Vec<u8>, String>,
    C: Fn(&String, &Vec<(String, Vec<u8>)>) -> Result<Vec<u8>, String>,
>(
    book: PdfState,
    root: (u32, u16),
    inked: Seq<usize>,
    meta: MetaView,
    marks: Seq<MarkView>,
    bands: Seq<Seq<PdfValue>>,
    size: &S,
    render: &R,
    compile: &C,
    run: Assembly,
    bytes: Seq<u8>,
) -> (places: Places)
    requires
        placement::bounded(book),
        pdf::whole_tree(book.objects, book.trailer),
        annotate::root_found(book.objects, book.trailer) == Ok::<(u32, u16), AnnotateError>(root),
        pdf::dict_place(book.objects, root) is Some,
        annotate::assembled(
            book,
            root,
            inked,
            meta,
            marks,
            bands,
            size,
            render,
            compile,
            run,
            bytes,
        ),
    ensures
        ({
            let ids = pdf::page_ids(book.objects, book.trailer);
            let pages = pdf::page_ids(run.both.objects, run.both.trailer);
            let front = placement::digest_pages(run.full, run.digest);
            let shown = inserted(marks);
            let after = Seq::new(shown.len(), |i: int| shown[i]->after_page);
            &&& front.len() <= pages.len()
            &&& pages.take(front.len() as int) == front
            &&& in_order(places, ids.len(), after, (pages.len() - front.len()) as nat)
            &&& forall|j: int|
                0 <= j < ids.len() ==> pages[front.len() + #[trigger] places.book[j]] == ids[j]
            &&& forall|i: int|
                0 <= i < shown.len() ==> shows_page(
                    run.linked.objects,
                    pages[front.len() + #[trigger] places.inserted[i]],
                    run.fallback.sides(),
                    shown[i]->InsertedPage_png,
                )
        }),
{
    let ids = pdf::page_ids(book.objects, book.trailer);
    let pages = pdf::page_ids(run.both.objects, run.both.trailer);
    let front = placement::digest_pages(run.full, run.digest);
    let shown = inserted(marks);
    let after = Seq::new(shown.len(), |i: int| shown[i]->after_page);
    let first = run.inked.max_id + 3;
    inserted_in_turn(marks);
    assert(placement::afters(marks) =~= after);
    everything_stays_shown(
        book,
        root,
        inked,
        meta,
        marks,
        bands,
        size,
        render,
        compile,
        run,
        bytes,
    );
    placement::pages_are_assembled(
        book,
        root,
        inked,
        meta,
        marks,
        bands,
        size,
        render,
        compile,
        run,
        bytes,
    );
    let places = pages_are_woven_in_order(ids, after, first);
    let back = placement::woven(ids, after, first);
    assert(pages == front + back);
    assert(pages.take(front.len() as int) =~= front);
    let now = pdf::page_ids(run.inked.objects, run.inked.trailer);
    spliced_pages_are_shown(run.inked, now, marks, run.fallback.sides(), root);
    assert forall|i: int| 0 <= i < shown.len() implies shows_page(
        run.linked.objects,
        pages[front.len() + #[trigger] places.inserted[i]],
        run.fallback.sides(),
        shown[i]->InsertedPage_png,
    ) by {
        let id = ((first + 3 * i) as u32, 0u16);
        assert(back[places.inserted[i]] == id);
        assert(id == ((run.inked.max_id + 3 * i + 3) as u32, 0u16));
        assert(shows_page(
            run.full.objects,
            ((run.inked.max_id + 3 * i + 3) as u32, 0),
            run.fallback.sides(),
            shown[i]->InsertedPage_png,
        ));
        page_stays_shown(
            run.full.objects,
            run.linked.objects,
            id,
            run.fallback.sides(),
            shown[i]->InsertedPage_png,
        );
    }
    assert forall|j: int| 0 <= j < ids.len() implies pages[front.len()
        + #[trigger] places.book[j]] == ids[j] by {
        assert(back[places.book[j]] == ids[j]);
    }
    places
}

/// In the assembled document every highlight on a page of the book has a link on the first
/// page of all, from its own band to its own page.
pub proof fn highlights_are_linked<
    S: Fn(Option<&Vec<Object>>) -> PageSize,
    R: Fn(usize, &PageSize) -> Result<Vec<u8>, String>,
    C: Fn(&String, &Vec<(String, Vec<u8>)>) -> Result<Vec<u8>, String>,
>(
    book: PdfState,
    root: (u32, u16),
    inked: Seq<usize>,
    meta: MetaView,
    marks: Seq<MarkView>,
    bands: Seq<Seq<PdfValue>>,
    size: &S,
    render: &R,
    compile: &C,
    run: Assembly,
    bytes: Seq<u8>,
) -> (links: Seq<(u32, u16)>)
    requires
        annotate::assembled(
            book,
            root,
            inked,
            meta,
            marks,
            bands,
            size,
            render,
            compile,
            run,
            bytes,
        ),
    ensures
        ({
            let targets = pdf::page_ids(book.objects, book.trailer);
            let first = pdf::page_ids(run.both.objects, run.both.trailer)[0];
            let shown = linkable(marks, targets.len());
            &&& links.len() == shown.len()
            &&& listed_annotations(run.linked.objects, first) == listed_annotations(
                run.both.objects,
                first,
            ) + pdf::references(links)
            &&& forall|i: int|
                0 <= i < shown.len() ==> leads_to(
                    run.linked.objects,
                    links[i],
                    bands[i],
                    targets[(#[trigger] shown[i])->Highlight_page as int],
                )
        }),
{
    let targets = pdf::page_ids(book.objects, book.trailer);
    let first = pdf::page_ids(run.both.objects, run.both.trailer)[0];
    assert(pdf::is_page(run.both.objects, first));
    links_lead_to_their_pages(run.both, first, targets, marks, bands)
}

} // verus!

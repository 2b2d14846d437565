//! Assembles the annotated PDF: the digest's pages in front of the pages of the
//! book, with the ink flattened onto those, and the pages that were inserted on the
//! device at their places.
//!
//! Ink is stamped as an image with an opacity mask, so that a highlighter's ink
//! stays translucent and the page's own text is left as it is. Each highlight gets
//! a link on the first page of the digest that leads to its page of the book.

use crate::digest_doc;
use crate::digest_doc::{build_digest, DigestMeta, MetaView};
use crate::extract;
use crate::extract::{Mark, MarkView};
use crate::pdf;
use crate::pdf::{PdfState, PdfValue, Value};
use crate::pdf::{
    add_object, add_xobject, compress, decode_rgb, decode_rgba, dict_set, encode, get_array,
    get_reference, import_objects, max_id_of, object, object_ids, pages_of, save, set_max_id,
    trailer_of,
};
use crate::placement;
use crate::reading;
use crate::text;
use crate::text::append_decimal;
use lopdf::{Dictionary, Document, Object, Stream};
use vstd::prelude::*;
use vstd::string::*;
use vstd::utf8::*;

verus! {

/// Why a document could not be assembled.
#[derive(Debug, Clone, Copy, PartialEq, Eq, Structural)]
pub enum AnnotateError {
    /// The notebook has no source PDF.
    NoSource,
    /// The source PDF cannot be read.
    Source,
    /// The trailer names no catalog.
    NoRoot,
    /// The catalog is missing.
    NoCatalog,
    /// The catalog names no page tree.
    NoPages,
    /// An image cannot be decoded.
    Image,
    /// The resources of a page cannot take an image.
    Resources,
    /// The contents of a page cannot be added to.
    Contents,
    /// The root of the page tree is missing.
    NoTree,
    /// The root of the page tree has no list of kids.
    NoKids,
    /// The digest cannot be read.
    Digest,
    /// There is no page to put links on.
    Empty,
    /// The page for the links is missing.
    LinkPage,
    /// The object numbers are used up.
    Full,
    /// The document cannot be written.
    Save,
}

/// The width and height of a page, as the numbers that a PDF holds.
pub struct PageSize {
    pub width: Object,
    pub height: Object,
}

/// The value is a number.
pub open spec fn is_number(v: PdfValue) -> bool {
    v is Integer || v is Real
}

impl PageSize {
    /// Both are numbers.
    pub open spec fn well_formed(&self) -> bool {
        is_number(pdf::object_value(self.width)) && is_number(pdf::object_value(self.height))
    }

    /// The width and the height.
    pub open spec fn sides(&self) -> (PdfValue, PdfValue) {
        (pdf::object_value(self.width), pdf::object_value(self.height))
    }
}

// ---------------------------------------------------------------------------
// Small parts
// ---------------------------------------------------------------------------
/// Puts a name under a key.
fn set_name(d: &mut Dictionary, k: &str, text: &str)
    ensures
        pdf::entries(*final(d)) == pdf::entries(*old(d)).insert(pdf::key(k), pdf::name(text)),
{
    dict_set(d, k.as_bytes(), object(Value::Name(text.as_bytes_vec())));
}

/// Puts an integer under a key.
fn set_integer(d: &mut Dictionary, k: &str, n: i64)
    ensures
        pdf::entries(*final(d)) == pdf::entries(*old(d)).insert(pdf::key(k), PdfValue::Integer(n as int)),
{
    dict_set(d, k.as_bytes(), object(Value::Integer(n)));
}

/// Puts a reference under a key.
fn set_reference(d: &mut Dictionary, k: &str, id: (u32, u16))
    ensures
        pdf::entries(*final(d)) == pdf::entries(*old(d)).insert(pdf::key(k), PdfValue::Reference(id)),
{
    dict_set(d, k.as_bytes(), object(Value::Reference(id)));
}

/// The dictionary of an image with eight bits for each part of a pixel.
pub open spec fn image_entries(w: u32, h: u32, space: &str) -> Map<Seq<u8>, PdfValue> {
    pdf::no_entries().insert(pdf::key("Type"), pdf::name("XObject")).insert(pdf::key("Subtype"), pdf::name("Image")).insert(
        pdf::key("Width"),
        PdfValue::Integer(w as int),
    ).insert(pdf::key("Height"), PdfValue::Integer(h as int)).insert(
        pdf::key("ColorSpace"),
        pdf::name(space),
    ).insert(pdf::key("BitsPerComponent"), PdfValue::Integer(8))
}

/// Makes the dictionary of an image.
fn image_dict(w: u32, h: u32, space: &str) -> (d: Dictionary)
    ensures
        pdf::entries(d) == image_entries(w, h, space),
{
    let mut d = Dictionary::new();
    set_name(&mut d, "Type", "XObject");
    set_name(&mut d, "Subtype", "Image");
    set_integer(&mut d, "Width", w as i64);
    set_integer(&mut d, "Height", h as i64);
    set_name(&mut d, "ColorSpace", space);
    set_integer(&mut d, "BitsPerComponent", 8);
    d
}

/// A stream with the bytes, compressed where that pays.
pub open spec fn packed_stream(dict: Map<Seq<u8>, PdfValue>, bytes: Seq<u8>) -> PdfValue {
    let p = pdf::packed(
        dict.insert(pdf::key("Length"), PdfValue::Integer(bytes.len() as int)),
        bytes,
        pdf::deflated(bytes),
    );
    PdfValue::Data(p.0, p.1)
}

/// Makes a stream with the bytes, compressed where that pays.
fn packed_object(dict: Dictionary, bytes: Vec<u8>) -> (o: Object)
    ensures
        pdf::object_value(o) == packed_stream(pdf::entries(dict), bytes@),
{
    let mut stream = Stream::new(dict, bytes);
    compress(&mut stream);
    object(Value::Data(stream))
}

/// A stream with the bytes as they are.
pub open spec fn plain_stream(bytes: Seq<u8>) -> PdfValue {
    PdfValue::Data(
        pdf::no_entries().insert(pdf::key("Length"), PdfValue::Integer(bytes.len() as int)),
        bytes,
    )
}

/// The red, green and blue of each pixel.
pub open spec fn colors_of(pixels: Seq<u8>) -> Seq<u8> {
    Seq::new((pixels.len() / 4 * 3) as nat, |i: int| pixels[i / 3 * 4 + i % 3])
}

/// The opacity of each pixel.
pub open spec fn opacity_of(pixels: Seq<u8>) -> Seq<u8> {
    Seq::new(pixels.len() / 4, |i: int| pixels[i * 4 + 3])
}

/// Parts the colours of the pixels from their opacity.
fn split_pixels(pixels: &Vec<u8>) -> (r: (Vec<u8>, Vec<u8>))
    requires
        pixels@.len() % 4 == 0,
    ensures
        r.0@ == colors_of(pixels@),
        r.1@ == opacity_of(pixels@),
{
    let mut colors: Vec<u8> = Vec::new();
    let mut opacity: Vec<u8> = Vec::new();
    let n = pixels.len() / 4;
    let mut i: usize = 0;
    while i < n
        invariant
            i <= n,
            n == pixels@.len() / 4,
            pixels.len() == 4 * n,
            colors@.len() == 3 * i,
            opacity@.len() == i,
            forall|j: int| 0 <= j < 3 * i ==> colors@[j] == pixels@[j / 3 * 4 + j % 3],
            forall|j: int| 0 <= j < i ==> opacity@[j] == pixels@[j * 4 + 3],
        decreases n - i,
    {
        let at = i * 4;
        colors.push(pixels[at]);
        colors.push(pixels[at + 1]);
        colors.push(pixels[at + 2]);
        opacity.push(pixels[at + 3]);
        i = i + 1;
    }
    assert(colors@ =~= colors_of(pixels@));
    assert(opacity@ =~= opacity_of(pixels@));
    (colors, opacity)
}

/// The name of an image: a prefix and the number of its object.
pub open spec fn image_name(prefix: &str, n: u32) -> Seq<u8> {
    encode_utf8(prefix@ + text::decimal(n as nat))
}

/// Makes the name of an image.
fn name_image(prefix: &str, n: u32) -> (r: Vec<u8>)
    ensures
        r@ == image_name(prefix, n),
{
    let mut text = prefix.to_owned();
    append_decimal(&mut text, n as u64);
    text.as_str().as_bytes_vec()
}

/// The operations that draw an image over a whole page.
pub open spec fn drawing(sides: (PdfValue, PdfValue), image: Seq<u8>) -> Seq<
    (Seq<char>, Seq<PdfValue>),
> {
    seq![
        ("q"@, seq![]),
        (
            "cm"@,
            seq![
                sides.0,
                PdfValue::Integer(0),
                PdfValue::Integer(0),
                sides.1,
                PdfValue::Integer(0),
                PdfValue::Integer(0),
            ],
        ),
        ("Do"@, seq![PdfValue::Name(image)]),
        ("Q"@, seq![]),
    ]
}

/// Writes the operations that draw an image over a whole page.
fn draw(size: &PageSize, image: &Vec<u8>) -> (r: Vec<u8>)
    requires
        size.well_formed(),
    ensures
        r@ == pdf::encoded(drawing(size.sides(), image@)),
{
    let mut matrix: Vec<Object> = Vec::new();
    matrix.push(size.width.clone());
    matrix.push(object(Value::Integer(0)));
    matrix.push(object(Value::Integer(0)));
    matrix.push(size.height.clone());
    matrix.push(object(Value::Integer(0)));
    matrix.push(object(Value::Integer(0)));
    let mut named: Vec<Object> = Vec::new();
    named.push(object(Value::Name(image.clone())));
    let mut ops: Vec<(&'static str, Vec<Object>)> = Vec::new();
    ops.push(("q", Vec::new()));
    ops.push(("cm", matrix));
    ops.push(("Do", named));
    ops.push(("Q", Vec::new()));
    proof {
        let view = pdf::operations(ops@);
        let want = drawing(size.sides(), image@);
        assert(view[0].1 =~= want[0].1);
        assert(view[1].1 =~= want[1].1);
        assert(view[2].1 =~= want[2].1);
        assert(view[3].1 =~= want[3].1);
        assert(view =~= want);
    }
    encode(ops).unwrap()
}

// ---------------------------------------------------------------------------
// Stamping ink
// ---------------------------------------------------------------------------
/// The opacity of the pixels of an image in PNG format, as an image.
pub open spec fn ink_mask(png: Seq<u8>) -> PdfValue {
    let (w, h, pixels) = pdf::rgba_image(png)->0;
    packed_stream(image_entries(w, h, "DeviceGray"), opacity_of(pixels))
}

/// The colours of the pixels of an image in PNG format, as an image with the mask.
pub open spec fn ink_picture(png: Seq<u8>, mask_id: (u32, u16)) -> PdfValue {
    let (w, h, pixels) = pdf::rgba_image(png)->0;
    let dict = image_entries(w, h, "DeviceRGB").insert(
        pdf::key("SMask"),
        PdfValue::Reference(mask_id),
    );
    packed_stream(dict, colors_of(pixels))
}

/// The document with an image stamped over a page, and whether that worked: the
/// opacity of the pixels as a mask, their colours as an image that refers to it,
/// the image in the resources of the page, and behind the contents of the page one
/// that draws it.
pub open spec fn stamped(
    s: PdfState,
    page_id: (u32, u16),
    png: Seq<u8>,
    sides: (PdfValue, PdfValue),
) -> (Result<(), AnnotateError>, PdfState) {
    match pdf::rgba_image(png) {
        None => (Err(AnnotateError::Image), s),
        Some(_) => {
            let s1 = pdf::added(s, ink_mask(png));
            let s2 = pdf::added(s1, ink_picture(png, pdf::next_id(s)));
            let image = image_name("RmInk", pdf::next_id(s1).0);
            match pdf::xobject_added(s2.objects, page_id, image, pdf::next_id(s1)) {
                None => (Err(AnnotateError::Resources), s2),
                Some(objects) => {
                    let s3 = PdfState { objects, ..s2 };
                    let (done, s4) = pdf::content_added(s3, page_id, pdf::encoded(drawing(sides, image)));
                    if done {
                        (Ok(()), s4)
                    } else {
                        (Err(AnnotateError::Contents), s4)
                    }
                },
            }
        },
    }
}

/// Stamps an image in PNG format as a translucent overlay over a whole page. The
/// page's own content streams are not touched: where the document has the page and
/// its numbers are bounded, nothing changes but the ink. It takes three object
/// numbers.
pub fn stamp_overlay(doc: &mut Document, page_id: (u32, u16), png: &[u8], size: &PageSize) -> (r:
    Result<(), AnnotateError>)
    requires
        size.well_formed(),
        pdf::max_id(*old(doc)) + 3 <= u32::MAX,
    ensures
        (r, pdf::state(*final(doc))) == stamped(pdf::state(*old(doc)), page_id, png@, size.sides()),
        r is Ok ==> placement::only_inked(
            pdf::state(*old(doc)),
            pdf::state(*final(doc)),
            page_id,
            png@,
            size.sides(),
        ),
{
    let ghost start = pdf::state(*doc);
    let (w, h, pixels) = match decode_rgba(png) {
        Some(image) => image,
        None => return Err(AnnotateError::Image),
    };
    let (colors, opacity) = split_pixels(&pixels);
    let mask = packed_object(image_dict(w, h, "DeviceGray"), opacity);
    let mask_id = add_object(doc, mask);
    let mut dict = image_dict(w, h, "DeviceRGB");
    set_reference(&mut dict, "SMask", mask_id);
    let picture = packed_object(dict, colors);
    let image_id = add_object(doc, picture);
    let image = name_image("RmInk", image_id.0);
    let content = draw(size, &image);
    match add_xobject(doc, page_id, image, image_id) {
        Ok(_) => {},
        Err(_) => return Err(AnnotateError::Resources),
    }
    match doc.add_page_contents(page_id, content) {
        Ok(_) => {
            proof {
                if placement::bounded(start) && pdf::dict_place(start.objects, page_id) is Some {
                    placement::stamping_keeps_the_page(start, page_id, png@, size.sides());
                }
            }
            Ok(())
        },
        Err(_) => Err(AnnotateError::Contents),
    }
}

// ---------------------------------------------------------------------------
// Inserting pages
// ---------------------------------------------------------------------------
/// The dictionary of a page that shows an image.
pub open spec fn page_entries(
    pages_id: (u32, u16),
    sides: (PdfValue, PdfValue),
    content_id: (u32, u16),
    image: Seq<u8>,
    image_id: (u32, u16),
) -> Map<Seq<u8>, PdfValue> {
    let corners = seq![PdfValue::Integer(0), PdfValue::Integer(0), sides.0, sides.1];
    let images = pdf::no_entries().insert(image, PdfValue::Reference(image_id));
    let resources = pdf::no_entries().insert(pdf::key("XObject"), PdfValue::Dict(images));
    pdf::no_entries().insert(pdf::key("Type"), pdf::name("Page")).insert(
        pdf::key("Parent"),
        PdfValue::Reference(pages_id),
    ).insert(pdf::key("MediaBox"), PdfValue::Array(corners)).insert(
        pdf::key("Contents"),
        PdfValue::Reference(content_id),
    ).insert(pdf::key("Resources"), PdfValue::Dict(resources))
}

/// Makes the dictionary of a page that shows an image.
fn page_dict(
    pages_id: (u32, u16),
    size: &PageSize,
    content_id: (u32, u16),
    image: &Vec<u8>,
    image_id: (u32, u16),
) -> (d: Dictionary)
    ensures
        pdf::entries(d) == page_entries(pages_id, size.sides(), content_id, image@, image_id),
{
    let mut images = Dictionary::new();
    dict_set(&mut images, image.as_slice(), object(Value::Reference(image_id)));
    let mut resources = Dictionary::new();
    dict_set(&mut resources, "XObject".as_bytes(), object(Value::Dict(images)));
    let mut corners: Vec<Object> = Vec::new();
    corners.push(object(Value::Integer(0)));
    corners.push(object(Value::Integer(0)));
    corners.push(size.width.clone());
    corners.push(size.height.clone());
    assert(pdf::values(corners@) =~= seq![
        PdfValue::Integer(0),
        PdfValue::Integer(0),
        size.sides().0,
        size.sides().1,
    ]);
    let mut d = Dictionary::new();
    set_name(&mut d, "Type", "Page");
    set_reference(&mut d, "Parent", pages_id);
    dict_set(&mut d, "MediaBox".as_bytes(), object(Value::Array(corners)));
    set_reference(&mut d, "Contents", content_id);
    dict_set(&mut d, "Resources".as_bytes(), object(Value::Dict(resources)));
    d
}

/// A number of kids, as the integer that a document holds for it.
pub open spec fn counted(n: nat) -> int {
    n as i64 as int
}

/// The pages with one more, behind the one at `after` or at the end.
pub open spec fn page_behind(pages: Seq<(u32, u16)>, after: nat, id: (u32, u16)) -> Seq<
    (u32, u16),
> {
    let at = if after < pages.len() {
        (after + 1) as int
    } else {
        pages.len() as int
    };
    pages.insert(at, id)
}

/// The document with the pages as the kids of the root of the page tree, and counted
/// there, and whether that worked: the root has to have a list of kids in place.
pub open spec fn pages_hung(s: PdfState, pages_id: (u32, u16), pages: Seq<(u32, u16)>) -> (
    Result<(), AnnotateError>,
    PdfState,
) {
    match pdf::dict_place(s.objects, pages_id) {
        None => (Err(AnnotateError::NoTree), s),
        Some(k) => {
            let root = s.objects[k]->Dict_0;
            if root.contains_key(pdf::key("Kids")) && root[pdf::key("Kids")] is Array {
                let changed = root.insert(
                    pdf::key("Kids"),
                    PdfValue::Array(pdf::references(pages)),
                ).insert(pdf::key("Count"), PdfValue::Integer(counted(pages.len())));
                (
                    Ok(()),
                    PdfState { objects: s.objects.insert(k, PdfValue::Dict(changed)), ..s },
                )
            } else {
                (Err(AnnotateError::NoKids), s)
            }
        },
    }
}

/// The document with a page that shows an image behind the page at `after` of `pages`,
/// or at their end, and the page's number. The root of the page tree then lists the pages
/// itself, whatever nodes stood between it and them; each page keeps its parent, and with
/// it what it inherits.
pub open spec fn page_placed(
    s: PdfState,
    pages: Seq<(u32, u16)>,
    after: nat,
    png: Seq<u8>,
    sides: (PdfValue, PdfValue),
    pages_id: (u32, u16),
) -> (Result<(u32, u16), AnnotateError>, PdfState) {
    match pdf::rgb_image(png) {
        None => (Err(AnnotateError::Image), s),
        Some((w, h, pixels)) => {
            let s1 = pdf::added(s, packed_stream(image_entries(w, h, "DeviceRGB"), pixels));
            let image = image_name("RmImg", pdf::next_id(s).0);
            let s2 = pdf::added(s1, plain_stream(pdf::encoded(drawing(sides, image))));
            let page = page_entries(pages_id, sides, pdf::next_id(s1), image, pdf::next_id(s));
            let s3 = pdf::added(s2, PdfValue::Dict(page));
            let id = pdf::next_id(s2);
            match pages_hung(s3, pages_id, page_behind(pages, after, id)) {
                (Ok(_), t) => (Ok(id), t),
                (Err(e), t) => (Err(e), t),
            }
        },
    }
}

/// The document with a page inserted that shows an image, behind the page at `after` in
/// the order of its pages or at the end, and the page's number.
pub open spec fn page_inserted(
    s: PdfState,
    after: nat,
    png: Seq<u8>,
    sides: (PdfValue, PdfValue),
    pages_id: (u32, u16),
) -> (Result<(u32, u16), AnnotateError>, PdfState) {
    page_placed(s, pdf::page_ids(s.objects, s.trailer), after, png, sides, pages_id)
}

/// Appends references to the objects.
fn append_references(kids: &mut Vec<Object>, ids: &Vec<(u32, u16)>)
    ensures
        pdf::values(final(kids)@) == pdf::values(old(kids)@) + pdf::references(ids@),
        final(kids)@.len() == old(kids)@.len() + ids@.len(),
{
    let ghost had = pdf::values(kids@);
    let mut i: usize = 0;
    assert(had + pdf::references(ids@.take(0)) =~= had);
    while i < ids.len()
        invariant
            i <= ids@.len(),
            had == pdf::values(old(kids)@),
            kids@.len() == old(kids)@.len() + i,
            pdf::values(kids@) == had + pdf::references(ids@.take(i as int)),
        decreases ids@.len() - i,
    {
        let ghost before = pdf::values(kids@);
        kids.push(object(Value::Reference(ids[i])));
        assert(pdf::values(kids@) =~= before.push(PdfValue::Reference(ids@[i as int])));
        assert(had + pdf::references(ids@.take(i + 1)) =~= before.push(
            PdfValue::Reference(ids@[i as int]),
        ));
        i = i + 1;
    }
    assert(ids@.take(ids@.len() as int) =~= ids@);
}

/// Makes the pages the kids of the root of the page tree, and counts them there.
fn hang_pages(doc: &mut Document, pages_id: (u32, u16), pages: &Vec<(u32, u16)>) -> (r: Result<
    (),
    AnnotateError,
>)
    ensures
        (r, pdf::state(*final(doc))) == pages_hung(pdf::state(*old(doc)), pages_id, pages@),
{
    proof {
        let before = pdf::objects(*doc);
        pdf::place_is_held(before, pages_id, 128);
        if let Some(k) = pdf::place(before, pages_id) {
            pdf::put_back(before, k);
            pdf::put_back(before[k]->Dict_0, pdf::key("Kids"));
        }
    }
    let mut list: Vec<Object> = Vec::new();
    append_references(&mut list, pages);
    assert(pdf::values(list@) =~= pdf::references(pages@));
    let root = match doc.get_object_mut(pages_id) {
        Ok(o) => match o.as_dict_mut() {
            Ok(d) => d,
            Err(_) => return Err(AnnotateError::NoTree),
        },
        Err(_) => return Err(AnnotateError::NoTree),
    };
    let kids = match root.get_mut("Kids".as_bytes()) {
        Ok(o) => match o.as_array_mut() {
            Ok(items) => items,
            Err(_) => return Err(AnnotateError::NoKids),
        },
        Err(_) => return Err(AnnotateError::NoKids),
    };
    let count = list.len() as i64;
    *kids = list;
    set_integer(root, "Count", count);
    Ok(())
}

/// Makes a page that shows an image in PNG format and puts it behind the page at `after`
/// of `pages`, or at their end; they are the pages of the document then.
fn place_page(
    doc: &mut Document,
    pages: &mut Vec<(u32, u16)>,
    after: usize,
    png: &[u8],
    size: &PageSize,
    pages_id: (u32, u16),
) -> (r: Result<(u32, u16), AnnotateError>)
    requires
        size.well_formed(),
        pdf::max_id(*old(doc)) + 3 <= u32::MAX,
    ensures
        (r, pdf::state(*final(doc))) == page_placed(
            pdf::state(*old(doc)),
            old(pages)@,
            after as nat,
            png@,
            size.sides(),
            pages_id,
        ),
        match r {
            Ok(id) => final(pages)@ == page_behind(old(pages)@, after as nat, id) && pdf::max_id(
                *final(doc),
            ) == pdf::max_id(*old(doc)) + 3,
            Err(_) => true,
        },
{
    let (w, h, pixels) = match decode_rgb(png) {
        Some(image) => image,
        None => return Err(AnnotateError::Image),
    };
    let image_id = add_object(doc, packed_object(image_dict(w, h, "DeviceRGB"), pixels));
    let image = name_image("RmImg", image_id.0);
    let content = draw(size, &image);
    let stream = object(Value::Data(Stream::new(Dictionary::new(), content)));
    let content_id = add_object(doc, stream);
    let page = page_dict(pages_id, size, content_id, &image, image_id);
    let page_id = add_object(doc, object(Value::Dict(page)));
    let at = if after < pages.len() {
        after + 1
    } else {
        pages.len()
    };
    pages.insert(at, page_id);
    match hang_pages(doc, pages_id, pages) {
        Ok(_) => Ok(page_id),
        Err(e) => Err(e),
    }
}

/// Inserts a page that shows an image in PNG format behind the page at `after` in the
/// order of the document's pages, or at the end, and returns the page's number. It takes
/// three object numbers.
pub fn insert_image_page(
    doc: &mut Document,
    after: usize,
    png: &[u8],
    size: &PageSize,
    pages_id: (u32, u16),
) -> (r: Result<(u32, u16), AnnotateError>)
    requires
        size.well_formed(),
        pdf::max_id(*old(doc)) + 3 <= u32::MAX,
    ensures
        (r, pdf::state(*final(doc))) == page_inserted(
            pdf::state(*old(doc)),
            after as nat,
            png@,
            size.sides(),
            pages_id,
        ),
        placement::lists_pages(pdf::state(*old(doc))),
{
    let mut pages = pages_of(doc);
    place_page(doc, &mut pages, after, png, size, pages_id)
}

/// How many of the marks are inserted pages.
pub open spec fn inserted_pages(marks: Seq<MarkView>) -> nat
    decreases marks.len(),
{
    if marks.len() == 0 {
        0
    } else {
        inserted_pages(marks.drop_last()) + if marks.last() is InsertedPage {
            1nat
        } else {
            0nat
        }
    }
}

/// The document with the inserted pages among the marks spliced in, and its pages then,
/// which were `pages`: each goes behind its page and those inserted behind that before,
/// or to the end where there is no such page. The first that cannot be inserted ends it.
#[verifier::opaque]
pub open spec fn spliced(
    s: PdfState,
    pages: Seq<(u32, u16)>,
    marks: Seq<MarkView>,
    sides: (PdfValue, PdfValue),
    pages_id: (u32, u16),
) -> (Result<Seq<(u32, u16)>, AnnotateError>, PdfState)
    decreases marks.len(),
{
    if marks.len() == 0 {
        (Ok(pages), s)
    } else {
        let rest = marks.drop_last();
        match spliced(s, pages, rest, sides, pages_id) {
            (Err(e), t) => (Err(e), t),
            (Ok(now), t) => match marks.last() {
                MarkView::InsertedPage { after_page, png } => {
                    let after = placement::moved_on(placement::afters(rest), pages.len(), after_page);
                    match page_placed(t, now, after, png, sides, pages_id) {
                        (Ok(id), u) => (Ok(page_behind(now, after, id)), u),
                        (Err(e), u) => (Err(e), u),
                    }
                },
                _ => (Ok(now), t),
            },
        }
    }
}

/// What the first marks come to an end with, all of them do.
proof fn splicing_ends(
    s: PdfState,
    pages: Seq<(u32, u16)>,
    marks: Seq<MarkView>,
    sides: (PdfValue, PdfValue),
    pages_id: (u32, u16),
    n: int,
)
    requires
        0 <= n <= marks.len(),
        spliced(s, pages, marks.take(n), sides, pages_id).0 is Err,
    ensures
        spliced(s, pages, marks, sides, pages_id) == spliced(
            s,
            pages,
            marks.take(n),
            sides,
            pages_id,
        ),
    decreases marks.len(),
{
    reveal_with_fuel(spliced, 2);
    if n == marks.len() {
        assert(marks.take(n) =~= marks);
    } else {
        assert(marks.drop_last().take(n) =~= marks.take(n));
        splicing_ends(s, pages, marks.drop_last(), sides, pages_id, n);
    }
}

/// What the marks come to goes on from what those before the last come to.
proof fn splicing_goes_on(
    s: PdfState,
    pages: Seq<(u32, u16)>,
    marks: Seq<MarkView>,
    sides: (PdfValue, PdfValue),
    pages_id: (u32, u16),
    now: Seq<(u32, u16)>,
    t: PdfState,
)
    requires
        marks.len() > 0,
        spliced(s, pages, marks.drop_last(), sides, pages_id) == (Ok::<_, AnnotateError>(now), t),
    ensures
        spliced(s, pages, marks, sides, pages_id) == match marks.last() {
            MarkView::InsertedPage { after_page, png } => {
                let after = placement::moved_on(
                    placement::afters(marks.drop_last()),
                    pages.len(),
                    after_page,
                );
                match page_placed(t, now, after, png, sides, pages_id) {
                    (Ok(id), u) => (Ok(page_behind(now, after, id)), u),
                    (Err(e), u) => (Err(e), u),
                }
            },
            _ => (Ok(now), t),
        },
{
    reveal_with_fuel(spliced, 2);
}

/// The count grows with the marks.
proof fn inserted_pages_grow(marks: Seq<MarkView>, n: int)
    requires
        0 <= n <= marks.len(),
    ensures
        inserted_pages(marks.take(n)) <= inserted_pages(marks),
        inserted_pages(marks.take(n)) <= n,
    decreases marks.len(),
{
    if n == marks.len() {
        assert(marks.take(n) =~= marks);
        if n > 0 {
            inserted_pages_grow(marks.drop_last(), n - 1);
            assert(marks.drop_last().take(n - 1) =~= marks.drop_last());
        }
    } else {
        assert(marks.drop_last().take(n) =~= marks.take(n));
        inserted_pages_grow(marks.drop_last(), n);
    }
}

/// Finds the page of the document behind which a page goes that belongs behind the page
/// at `after_page` of `n`, those before it having gone behind the pages in `afters`.
fn move_on(afters: &Vec<usize>, n: usize, after_page: usize) -> (r: usize)
    requires
        n + afters@.len() <= usize::MAX,
    ensures
        r == placement::moved_on(nats(afters@), n as nat, after_page as nat),
{
    let at = if after_page < n {
        after_page
    } else {
        n
    };
    let mut k: usize = 0;
    let mut i: usize = 0;
    assert(nats(afters@.take(0)) =~= seq![]);
    while i < afters.len()
        invariant
            i <= afters@.len(),
            k <= i,
            at <= n,
            k == placement::below(nats(afters@.take(i as int)), at as int) + placement::level(
                nats(afters@.take(i as int)),
                n as nat,
                at as nat,
            ),
        decreases afters@.len() - i,
    {
        assert(nats(afters@.take(i + 1)).drop_last() =~= nats(afters@.take(i as int)));
        let a = if afters[i] < n {
            afters[i]
        } else {
            n
        };
        if a <= at {
            k = k + 1;
        }
        i = i + 1;
    }
    assert(afters@.take(afters@.len() as int) =~= afters@);
    at + k
}

/// The numbers.
pub open spec fn nats(v: Seq<usize>) -> Seq<nat> {
    Seq::new(v.len(), |i: int| v[i] as nat)
}

/// Splices the inserted pages among the marks into a document that holds
/// `num_book_pages` pages, and returns how many there were. Each goes behind its page,
/// whatever the order of the marks, and takes three object numbers.
pub fn splice_inserted_pages(
    doc: &mut Document,
    marks: &[Mark],
    num_book_pages: usize,
    size: &PageSize,
    pages_id: (u32, u16),
) -> (r: Result<usize, AnnotateError>)
    requires
        size.well_formed(),
        pdf::max_id(*old(doc)) + 3 * inserted_pages(extract::mark_views(marks@)) <= u32::MAX,
    ensures
        ({
            let start = pdf::state(*old(doc));
            let pages = pdf::page_ids(start.objects, start.trailer);
            let views = extract::mark_views(marks@);
            let (made, end) = spliced(start, pages, views, size.sides(), pages_id);
            &&& end == pdf::state(*final(doc))
            &&& match r {
                Ok(n) => made is Ok && n == inserted_pages(views),
                Err(e) => made == Err::<Seq<(u32, u16)>, AnnotateError>(e),
            }
        }),
        placement::lists_pages(pdf::state(*old(doc))),
{
    let ghost views = extract::mark_views(marks@);
    let ghost start = pdf::state(*doc);
    let mut pages = pages_of(doc);
    let ghost first = pages@;
    let n = pages.len();
    let mut afters: Vec<usize> = Vec::new();
    assert(nats(afters@) =~= placement::afters(views.take(0)));
    assert(spliced(start, first, views.take(0), size.sides(), pages_id) == (
        Ok::<_, AnnotateError>(first),
        start,
    )) by {
        reveal_with_fuel(spliced, 1);
    }
    let mut i: usize = 0;
    while i < marks.len()
        invariant
            i <= marks@.len(),
            views == extract::mark_views(marks@),
            size.well_formed(),
            start == pdf::state(*old(doc)),
            start.max_id + 3 * inserted_pages(views) <= u32::MAX,
            n == first.len(),
            first == pdf::page_ids(start.objects, start.trailer),
            placement::lists_pages(start),
            pages@.len() == n + afters@.len(),
            (Ok::<_, AnnotateError>(pages@), pdf::state(*doc)) == spliced(
                start,
                first,
                views.take(i as int),
                size.sides(),
                pages_id,
            ),
            nats(afters@) == placement::afters(views.take(i as int)),
            afters@.len() == inserted_pages(views.take(i as int)),
            pdf::max_id(*doc) == start.max_id + 3 * afters@.len(),
        decreases marks@.len() - i,
    {
        proof {
            assert(views.take(i + 1).drop_last() =~= views.take(i as int));
            assert(views.take(i + 1).last() == marks@[i as int]@);
            inserted_pages_grow(views, i + 1);
            splicing_goes_on(
                start,
                first,
                views.take(i + 1),
                size.sides(),
                pages_id,
                pages@,
                pdf::state(*doc),
            );
        }
        match &marks[i] {
            Mark::InsertedPage { after_page, png } => {
                assert(pages.len() <= usize::MAX);
                let after = move_on(&afters, n, *after_page);
                let ghost before = nats(afters@);
                match place_page(doc, &mut pages, after, png.as_slice(), size, pages_id) {
                    Ok(_) => {},
                    Err(e) => {
                        proof {
                            splicing_ends(start, first, views, size.sides(), pages_id, i + 1);
                        }
                        return Err(e);
                    },
                }
                afters.push(*after_page);
                assert(nats(afters@) =~= before.push(*after_page as nat));
            },
            _ => {},
        }
        i = i + 1;
    }
    assert(views.take(views.len() as int) =~= views);
    Ok(afters.len())
}

// ---------------------------------------------------------------------------
// Merging
// ---------------------------------------------------------------------------
/// The number of the root of the page tree, or what is missing on the way to it.
pub open spec fn root_found(
    objects: Map<(u32, u16), PdfValue>,
    trailer: Map<Seq<u8>, PdfValue>,
) -> Result<(u32, u16), AnnotateError> {
    match pdf::reference_at(trailer, pdf::key("Root")) {
        None => Err(AnnotateError::NoRoot),
        Some(catalog_id) => match pdf::dict_at(objects, catalog_id) {
            None => Err(AnnotateError::NoCatalog),
            Some(catalog) => match pdf::reference_at(catalog, pdf::key("Pages")) {
                None => Err(AnnotateError::NoPages),
                Some(id) => Ok(id),
            },
        },
    }
}

/// Finds the root of the page tree.
pub fn find_pages_root(doc: &Document) -> (r: Result<(u32, u16), AnnotateError>)
    ensures
        r == root_found(pdf::objects(*doc), pdf::trailer(*doc)),
{
    match get_reference(trailer_of(doc), "Root") {
        None => Err(AnnotateError::NoRoot),
        Some(catalog_id) => match doc.get_dictionary(catalog_id) {
            Err(_) => Err(AnnotateError::NoCatalog),
            Ok(catalog) => match get_reference(catalog, "Pages") {
                None => Err(AnnotateError::NoPages),
                Some(id) => Ok(id),
            },
        },
    }
}

/// `n` is the highest number of an object, or `otherwise` where there is none.
pub open spec fn is_top(n: u32, ids: Set<(u32, u16)>, otherwise: u32) -> bool {
    if ids.is_empty() {
        n == otherwise
    } else {
        &&& exists|id: (u32, u16)| #[trigger] ids.contains(id) && id.0 == n
        &&& forall|id: (u32, u16)| #[trigger] ids.contains(id) ==> id.0 <= n
    }
}

/// The highest number of an object, or `otherwise` where there is none.
pub open spec fn top(ids: Set<(u32, u16)>, otherwise: u32) -> u32 {
    choose|n: u32| is_top(n, ids, otherwise)
}

/// Finds the highest number of an object.
fn find_top(doc: &Document) -> (n: u32)
    ensures
        n == top(pdf::objects(*doc).dom(), pdf::max_id(*doc)),
        is_top(n, pdf::objects(*doc).dom(), pdf::max_id(*doc)),
{
    let ids = object_ids(doc);
    let ghost all = pdf::objects(*doc).dom();
    let mut n: u32 = max_id_of(doc);
    let mut i: usize = 0;
    while i < ids.len()
        invariant
            i <= ids@.len(),
            i == 0 ==> n == pdf::max_id(*doc),
            i > 0 ==> exists|j: int| 0 <= j < i && (#[trigger] ids@[j]).0 == n,
            forall|j: int| 0 <= j < i ==> (#[trigger] ids@[j]).0 <= n,
        decreases ids@.len() - i,
    {
        if i == 0 || ids[i].0 > n {
            n = ids[i].0;
            assert(ids@[i as int].0 == n);
        }
        i = i + 1;
    }
    proof {
        if ids@.len() == 0 {
            assert(all =~= Set::empty());
        } else {
            let j = choose|j: int| 0 <= j < ids@.len() && (#[trigger] ids@[j]).0 == n;
            assert(ids@.to_set().contains(ids@[j]));
            assert forall|id: (u32, u16)| #[trigger] all.contains(id) implies id.0 <= n by {
                assert(ids@.to_set().contains(id));
                let k = choose|k: int| 0 <= k < ids@.len() && ids@[k] == id;
            }
        }
        assert(is_top(n, all, pdf::max_id(*doc)));
        let m = top(all, pdf::max_id(*doc));
        assert(is_top(m, all, pdf::max_id(*doc)));
    }
    n
}

/// The objects with the dictionaries among `ids` under another parent.
pub open spec fn reparented(
    objects: Map<(u32, u16), PdfValue>,
    ids: Seq<(u32, u16)>,
    parent: (u32, u16),
) -> Map<(u32, u16), PdfValue>
    decreases ids.len(),
{
    if ids.len() == 0 {
        objects
    } else {
        let before = reparented(objects, ids.drop_last(), parent);
        match pdf::dict_place(before, ids.last()) {
            None => before,
            Some(k) => before.insert(
                k,
                PdfValue::Dict(
                    before[k]->Dict_0.insert(pdf::key("Parent"), PdfValue::Reference(parent)),
                ),
            ),
        }
    }
}

/// Puts the dictionaries among `ids` under another parent.
fn reparent(doc: &mut Document, ids: &Vec<(u32, u16)>, parent: (u32, u16))
    ensures
        pdf::objects(*final(doc)) == reparented(pdf::objects(*old(doc)), ids@, parent),
        pdf::trailer(*final(doc)) == pdf::trailer(*old(doc)),
        pdf::max_id(*final(doc)) == pdf::max_id(*old(doc)),
{
    let mut i: usize = 0;
    while i < ids.len()
        invariant
            i <= ids@.len(),
            pdf::objects(*doc) == reparented(pdf::objects(*old(doc)), ids@.take(i as int), parent),
            pdf::trailer(*doc) == pdf::trailer(*old(doc)),
            pdf::max_id(*doc) == pdf::max_id(*old(doc)),
        decreases ids@.len() - i,
    {
        proof {
            assert(ids@.take(i + 1).drop_last() =~= ids@.take(i as int));
            let before = pdf::objects(*doc);
            pdf::place_is_held(before, ids@[i as int], 128);
            if let Some(k) = pdf::place(before, ids@[i as int]) {
                pdf::put_back(before, k);
            }
        }
        match doc.get_object_mut(ids[i]) {
            Ok(o) => match o.as_dict_mut() {
                Ok(d) => set_reference(d, "Parent", parent),
                Err(_) => {},
            },
            Err(_) => {},
        }
        i = i + 1;
    }
    assert(ids@.take(ids@.len() as int) =~= ids@);
}

/// The objects with new kids at the root of the page tree and the pages counted;
/// nothing where the root is missing.
pub open spec fn kids_set(
    objects: Map<(u32, u16), PdfValue>,
    root: (u32, u16),
    kids: Seq<PdfValue>,
) -> Option<Map<(u32, u16), PdfValue>> {
    match pdf::dict_place(objects, root) {
        None => None,
        Some(k) => Some(
            objects.insert(
                k,
                PdfValue::Dict(
                    objects[k]->Dict_0.insert(pdf::key("Kids"), PdfValue::Array(kids)).insert(
                        pdf::key("Count"),
                        PdfValue::Integer(counted(kids.len())),
                    ),
                ),
            ),
        ),
    }
}

/// The book with the digest's objects, numbered behind its own, and with the
/// digest's pages in front of its own.
#[verifier::opaque]
pub open spec fn merged(book: PdfState, digest: PdfState) -> Result<PdfState, AnnotateError> {
    let (theirs, theirs_trailer) = pdf::renumbered(
        digest.objects,
        digest.trailer,
        (book.max_id + 1) as u32,
    );
    let front = pdf::page_ids(theirs, theirs_trailer);
    let back = pdf::page_ids(book.objects, book.trailer);
    match root_found(book.objects, book.trailer) {
        Err(e) => Err(e),
        Ok(root) => {
            let both = book.objects.union_prefer_right(theirs);
            let hung = reparented(both, front, root);
            match kids_set(hung, root, pdf::references(front) + pdf::references(back)) {
                None => Err(AnnotateError::NoTree),
                Some(objects) => Ok(
                    PdfState {
                        objects,
                        trailer: book.trailer,
                        max_id: top(both.dom(), book.max_id),
                    },
                ),
            }
        },
    }
}

/// There are numbers for the digest's objects behind the book's.
pub open spec fn room_for(book: PdfState, digest: PdfState) -> bool {
    &&& digest.objects.dom().len() < 0x8000_0000
    &&& book.max_id + 1 + digest.objects.dom().len() <= u32::MAX
}

/// Sets the kids of the root of the page tree: the references to `front` and to
/// `back`, and their number.
fn set_kids(
    doc: &mut Document,
    root: (u32, u16),
    front: &Vec<(u32, u16)>,
    back: &Vec<(u32, u16)>,
) -> (r: Result<(), AnnotateError>)
    ensures
        match r {
            Ok(_) => kids_set(
                pdf::objects(*old(doc)),
                root,
                pdf::references(front@) + pdf::references(back@),
            ) == Some(pdf::objects(*final(doc))),
            Err(e) => e == AnnotateError::NoTree && kids_set(
                pdf::objects(*old(doc)),
                root,
                pdf::references(front@) + pdf::references(back@),
            ) is None,
        },
        pdf::trailer(*final(doc)) == pdf::trailer(*old(doc)),
        pdf::max_id(*final(doc)) == pdf::max_id(*old(doc)),
{
    let mut kids: Vec<Object> = Vec::new();
    append_references(&mut kids, front);
    append_references(&mut kids, back);
    assert(pdf::values(kids@) =~= pdf::references(front@) + pdf::references(back@));
    let count = kids.len() as i64;
    assert(kids@.len() == pdf::values(kids@).len());
    proof {
        let before = pdf::objects(*doc);
        pdf::place_is_held(before, root, 128);
    }
    match doc.get_object_mut(root) {
        Ok(o) => match o.as_dict_mut() {
            Ok(d) => {
                dict_set(d, "Kids".as_bytes(), object(Value::Array(kids)));
                set_integer(d, "Count", count);
                Ok(())
            },
            Err(_) => Err(AnnotateError::NoTree),
        },
        Err(_) => Err(AnnotateError::NoTree),
    }
}

/// Merges the digest into the book, its pages in front, and returns the document
/// with the number of pages that the digest had. The digest's objects are numbered
/// behind the book's.
pub fn merge_digest_first(book: Document, digest: Document) -> (r: Result<
    (Document, usize),
    AnnotateError,
>)
    requires
        room_for(pdf::state(book), pdf::state(digest)),
    ensures
        match r {
            Ok((doc, n)) => merged(pdf::state(book), pdf::state(digest)) == Ok::<PdfState, AnnotateError>(
                pdf::state(doc),
            ) && n == pdf::page_ids(pdf::objects(digest), pdf::trailer(digest)).len()
                && placement::bounded(pdf::state(doc)) && placement::numbered_behind(
                pdf::state(book),
                pdf::state(digest),
            ),
            Err(e) => merged(pdf::state(book), pdf::state(digest)) == Err::<PdfState, AnnotateError>(e),
        },
{
    proof {
        reveal(merged);
    }
    let mut book = book;
    let mut digest = digest;
    let n = pages_of(&digest).len();
    let start = max_id_of(&book) + 1;
    digest.renumber_objects_with(start);
    let front = pages_of(&digest);
    let back = pages_of(&book);
    let root = match find_pages_root(&book) {
        Ok(id) => id,
        Err(e) => return Err(e),
    };
    import_objects(&mut book, digest);
    let ghost both = pdf::objects(book);
    let highest = find_top(&book);
    set_max_id(&mut book, highest);
    reparent(&mut book, &front, root);
    match set_kids(&mut book, root, &front, &back) {
        Ok(_) => {
            proof {
                let hung = reparented(both, front@, root);
                placement::reparented_alike(both, front@, root);
                pdf::place_is_held(hung, root, 128);
                assert(pdf::objects(book).dom() =~= both.dom());
                assert forall|id: (u32, u16)| #[trigger]
                    pdf::objects(book).contains_key(id) implies id.0 <= pdf::max_id(book) by {
                    assert(both.dom().contains(id));
                }
            }
            Ok((book, n))
        },
        Err(e) => Err(e),
    }
}

// ---------------------------------------------------------------------------
// Links
// ---------------------------------------------------------------------------
/// A rectangle on a page, as the numbers that a PDF holds.
pub struct LinkRect {
    pub left: Object,
    pub bottom: Object,
    pub right: Object,
    pub top: Object,
}

impl LinkRect {
    /// The four numbers.
    pub open spec fn sides(&self) -> Seq<PdfValue> {
        seq![
            pdf::object_value(self.left),
            pdf::object_value(self.bottom),
            pdf::object_value(self.right),
            pdf::object_value(self.top),
        ]
    }
}

/// The dictionary of a link that leads to a page.
pub open spec fn link_entries(rect: Seq<PdfValue>, target: (u32, u16)) -> Map<Seq<u8>, PdfValue> {
    let zero = PdfValue::Integer(0);
    let to = PdfValue::Array(seq![PdfValue::Reference(target), pdf::name("Fit")]);
    let action = pdf::no_entries().insert(pdf::key("S"), pdf::name("GoTo")).insert(pdf::key("D"), to);
    pdf::no_entries().insert(pdf::key("Type"), pdf::name("Annot")).insert(pdf::key("Subtype"), pdf::name("Link")).insert(
        pdf::key("Rect"),
        PdfValue::Array(rect),
    ).insert(pdf::key("Border"), PdfValue::Array(seq![zero, zero, zero])).insert(
        pdf::key("A"),
        PdfValue::Dict(action),
    )
}

/// Makes the dictionary of a link that leads to a page.
fn link_dict(rect: &LinkRect, target: (u32, u16)) -> (d: Dictionary)
    ensures
        pdf::entries(d) == link_entries(rect.sides(), target),
{
    let mut to: Vec<Object> = Vec::new();
    to.push(object(Value::Reference(target)));
    to.push(object(Value::Name("Fit".as_bytes_vec())));
    assert(pdf::values(to@) =~= seq![PdfValue::Reference(target), pdf::name("Fit")]);
    let mut action = Dictionary::new();
    set_name(&mut action, "S", "GoTo");
    dict_set(&mut action, "D".as_bytes(), object(Value::Array(to)));
    let mut sides: Vec<Object> = Vec::new();
    sides.push(rect.left.clone());
    sides.push(rect.bottom.clone());
    sides.push(rect.right.clone());
    sides.push(rect.top.clone());
    assert(pdf::values(sides@) =~= rect.sides());
    let mut border: Vec<Object> = Vec::new();
    border.push(object(Value::Integer(0)));
    border.push(object(Value::Integer(0)));
    border.push(object(Value::Integer(0)));
    assert(pdf::values(border@) =~= seq![
        PdfValue::Integer(0),
        PdfValue::Integer(0),
        PdfValue::Integer(0),
    ]);
    let mut d = Dictionary::new();
    set_name(&mut d, "Type", "Annot");
    set_name(&mut d, "Subtype", "Link");
    dict_set(&mut d, "Rect".as_bytes(), object(Value::Array(sides)));
    dict_set(&mut d, "Border".as_bytes(), object(Value::Array(border)));
    dict_set(&mut d, "A".as_bytes(), object(Value::Dict(action)));
    d
}

/// The number of the list of the page's annotations that stands behind a reference.
pub open spec fn annots_place(
    objects: Map<(u32, u16), PdfValue>,
    page: Map<Seq<u8>, PdfValue>,
) -> Option<(u32, u16)> {
    match pdf::reference_at(page, pdf::key("Annots")) {
        None => None,
        Some(at) => match pdf::place(objects, at) {
            Some(p) => if objects[p] is Array {
                Some(p)
            } else {
                None
            },
            None => None,
        },
    }
}

/// The objects with one more annotation on the page at `k`: in the list of its
/// annotations, which stands in the page or behind a reference, or in a new list where
/// there is none.
pub open spec fn annotated(objects: Map<(u32, u16), PdfValue>, k: (u32, u16), id: (u32, u16)) -> Map<
    (u32, u16),
    PdfValue,
> {
    let page = objects[k]->Dict_0;
    let entry = PdfValue::Reference(id);
    match annots_place(objects, page) {
        Some(p) => objects.insert(p, PdfValue::Array(objects[p]->Array_0.push(entry))),
        None => {
            let items = match pdf::array_at(page, pdf::key("Annots")) {
                Some(items) => items,
                None => seq![],
            };
            objects.insert(
                k,
                PdfValue::Dict(page.insert(pdf::key("Annots"), PdfValue::Array(items.push(entry)))),
            )
        },
    }
}

/// The document with a link on a page, and whether that worked.
pub open spec fn linked(
    s: PdfState,
    page_id: (u32, u16),
    rect: Seq<PdfValue>,
    target: (u32, u16),
) -> (Result<(), AnnotateError>, PdfState) {
    let t = pdf::added(s, PdfValue::Dict(link_entries(rect, target)));
    match pdf::dict_place(t.objects, page_id) {
        None => (Err(AnnotateError::LinkPage), t),
        Some(k) => (
            Ok(()),
            PdfState { objects: annotated(t.objects, k, pdf::next_id(s)), ..t },
        ),
    }
}

/// Appends a reference to the list that the number leads to, and tells whether there is
/// one.
fn append_to_list(doc: &mut Document, at: (u32, u16), id: (u32, u16)) -> (found: bool)
    ensures
        found <==> (pdf::place(pdf::objects(*old(doc)), at) matches Some(p) && pdf::objects(
            *old(doc),
        )[p] is Array),
        pdf::objects(*final(doc)) == if found {
            let p = pdf::place(pdf::objects(*old(doc)), at)->0;
            let items = pdf::objects(*old(doc))[p]->Array_0;
            pdf::objects(*old(doc)).insert(
                p,
                PdfValue::Array(items.push(PdfValue::Reference(id))),
            )
        } else {
            pdf::objects(*old(doc))
        },
        pdf::trailer(*final(doc)) == pdf::trailer(*old(doc)),
        pdf::max_id(*final(doc)) == pdf::max_id(*old(doc)),
{
    proof {
        let before = pdf::objects(*doc);
        pdf::place_is_held(before, at, 128);
        if let Some(p) = pdf::place(before, at) {
            pdf::put_back(before, p);
        }
    }
    match doc.get_object_mut(at) {
        Ok(o) => match o.as_array_mut() {
            Ok(items) => {
                let ghost was = pdf::values(items@);
                items.push(object(Value::Reference(id)));
                assert(pdf::values(items@) =~= was.push(PdfValue::Reference(id)));
                true
            },
            Err(_) => false,
        },
        Err(_) => false,
    }
}

/// Adds a link on a page that leads to another. It takes one object number.
pub fn add_goto_link(doc: &mut Document, page_id: (u32, u16), rect: &LinkRect, target: (u32, u16)) -> (r:
    Result<(), AnnotateError>)
    requires
        pdf::max_id(*old(doc)) < u32::MAX,
    ensures
        (r, pdf::state(*final(doc))) == linked(pdf::state(*old(doc)), page_id, rect.sides(), target),
{
    let id = add_object(doc, object(Value::Dict(link_dict(rect, target))));
    let at = match doc.get_dictionary(page_id) {
        Ok(page) => get_reference(page, "Annots"),
        Err(_) => return Err(AnnotateError::LinkPage),
    };
    match at {
        Some(at) => if append_to_list(doc, at, id) {
            return Ok(());
        },
        None => {},
    }
    proof {
        let before = pdf::objects(*doc);
        pdf::place_is_held(before, page_id, 128);
        if let Some(k) = pdf::place(before, page_id) {
            pdf::put_back(before, k);
            pdf::put_back(before[k]->Dict_0, pdf::key("Annots"));
        }
    }
    let page = match doc.get_object_mut(page_id) {
        Ok(o) => match o.as_dict_mut() {
            Ok(d) => d,
            Err(_) => return Err(AnnotateError::LinkPage),
        },
        Err(_) => return Err(AnnotateError::LinkPage),
    };
    let mut missing = true;
    match page.get_mut("Annots".as_bytes()) {
        Ok(o) => match o.as_array_mut() {
            Ok(items) => {
                let ghost was = pdf::values(items@);
                items.push(object(Value::Reference(id)));
                assert(pdf::values(items@) =~= was.push(PdfValue::Reference(id)));
                missing = false;
            },
            Err(_) => {},
        },
        Err(_) => {},
    }
    if missing {
        let mut items: Vec<Object> = Vec::new();
        items.push(object(Value::Reference(id)));
        assert(pdf::values(items@) =~= seq![].push(PdfValue::Reference(id)));
        dict_set(page, "Annots".as_bytes(), object(Value::Array(items)));
    }
    Ok(())
}

// ---------------------------------------------------------------------------
// Page boxes
// ---------------------------------------------------------------------------
/// The box of a page: its own, or else that of its parent.
pub open spec fn box_of(objects: Map<(u32, u16), PdfValue>, page_id: (u32, u16)) -> Option<
    Seq<PdfValue>,
> {
    match pdf::dict_at(objects, page_id) {
        None => None,
        Some(page) => match pdf::array_at(page, pdf::key("MediaBox")) {
            Some(own) => Some(own),
            None => match pdf::reference_at(page, pdf::key("Parent")) {
                None => None,
                Some(parent_id) => match pdf::dict_at(objects, parent_id) {
                    None => None,
                    Some(parent) => pdf::array_at(parent, pdf::key("MediaBox")),
                },
            },
        },
    }
}

/// Finds the box of a page: its own, or else that of its parent.
pub fn media_box(doc: &Document, page_id: (u32, u16)) -> (r: Option<&Vec<Object>>)
    ensures
        pdf::array_view(r) == box_of(pdf::objects(*doc), page_id),
{
    let page = match doc.get_dictionary(page_id) {
        Ok(d) => d,
        Err(_) => return None,
    };
    match get_array(page, "MediaBox") {
        Some(own) => Some(own),
        None => match get_reference(page, "Parent") {
            None => None,
            Some(parent_id) => match doc.get_dictionary(parent_id) {
                Err(_) => None,
                Ok(parent) => get_array(parent, "MediaBox"),
            },
        },
    }
}

// ---------------------------------------------------------------------------
// The steps of the assembly
// ---------------------------------------------------------------------------
/// Why the assembly stopped.
#[derive(Debug)]
pub enum AssembleError {
    /// A step of the assembly itself failed.
    Annotate(AnnotateError),
    /// The ink of a page could not be rendered.
    Render(String),
    /// The digest could not be compiled.
    Compile(String),
}

/// `found` is a size that `size` gives to a page with the box.
pub open spec fn sized<S: Fn(Option<&Vec<Object>>) -> PageSize>(
    size: &S,
    page_box: Option<Seq<PdfValue>>,
    found: PageSize,
) -> bool {
    exists|a: Option<&Vec<Object>>| #[trigger]
        pdf::array_view(a) == page_box && call_ensures(size, (a,), found)
}

/// `sizes` are those that `size` gives to the pages, and `fallback` the one that
/// it gives to the first of them, or to a page without a box where there is none.
#[verifier::opaque]
pub open spec fn sizes_found<S: Fn(Option<&Vec<Object>>) -> PageSize>(
    size: &S,
    s: PdfState,
    sizes: Seq<PageSize>,
    fallback: PageSize,
) -> bool {
    let ids = pdf::page_ids(s.objects, s.trailer);
    &&& sizes.len() == ids.len()
    &&& forall|i: int|
        0 <= i < ids.len() ==> sized(size, box_of(s.objects, ids[i]), #[trigger] sizes[i])
    &&& sized(
        size,
        if ids.len() > 0 {
            box_of(s.objects, ids[0])
        } else {
            None
        },
        fallback,
    )
}

/// Finds the sizes of the pages, and one for the pages that have none.
pub fn find_sizes<S: Fn(Option<&Vec<Object>>) -> PageSize>(doc: &Document, size: &S) -> (r: (
    Vec<PageSize>,
    PageSize,
))
    requires
        forall|a: Option<&Vec<Object>>| call_requires(size, (a,)),
        forall|a: Option<&Vec<Object>>, found: PageSize|
            call_ensures(size, (a,), found) ==> found.well_formed(),
    ensures
        sizes_found(size, pdf::state(*doc), r.0@, r.1),
        r.1.well_formed(),
        forall|i: int| 0 <= i < r.0@.len() ==> (#[trigger] r.0@[i]).well_formed(),
{
    proof {
        reveal(sizes_found);
    }
    let ids = pages_of(doc);
    let mut sizes: Vec<PageSize> = Vec::new();
    let mut i: usize = 0;
    while i < ids.len()
        invariant
            i <= ids@.len(),
            sizes@.len() == i,
            ids@ == pdf::page_ids(pdf::objects(*doc), pdf::trailer(*doc)),
            forall|a: Option<&Vec<Object>>| call_requires(size, (a,)),
            forall|a: Option<&Vec<Object>>, found: PageSize|
                call_ensures(size, (a,), found) ==> found.well_formed(),
            forall|j: int|
                0 <= j < i ==> sized(size, box_of(pdf::objects(*doc), ids@[j]), #[trigger] sizes@[j]),
            forall|j: int| 0 <= j < i ==> (#[trigger] sizes@[j]).well_formed(),
        decreases ids@.len() - i,
    {
        let page_box = media_box(doc, ids[i]);
        let found = size(page_box);
        assert(sized(size, box_of(pdf::objects(*doc), ids@[i as int]), found));
        sizes.push(found);
        i = i + 1;
    }
    let first = if ids.len() > 0 {
        media_box(doc, ids[0])
    } else {
        None
    };
    let fallback = size(first);
    assert(sized(
        size,
        if ids@.len() > 0 {
            box_of(pdf::objects(*doc), ids@[0])
        } else {
            None
        },
        fallback,
    ));
    (sizes, fallback)
}

/// The page that stands under the number behind `index`, where the pages are
/// numbered from one.
pub open spec fn target_of(s: PdfState, index: usize) -> Option<(u32, u16)> {
    let ids = pdf::page_ids(s.objects, s.trailer);
    let n = (index + 1) as u32;
    if n > 0 && n <= ids.len() {
        Some(ids[n - 1])
    } else {
        None
    }
}

/// The size of the page under the number behind `index`.
pub open spec fn size_of(sizes: Seq<PageSize>, fallback: PageSize, index: usize) -> PageSize {
    let n = (index + 1) as u32;
    if n > 0 && n <= sizes.len() {
        sizes[n - 1]
    } else {
        fallback
    }
}

/// What can come of stamping the ink of one page: nothing where the document has no
/// such page, else the image that `render` gives for it, and nothing else but the ink.
pub open spec fn ink_stamped<R: Fn(usize, &PageSize) -> Result<Vec<u8>, String>>(
    render: &R,
    s: PdfState,
    at: usize,
    index: usize,
    size: PageSize,
    t: PdfState,
) -> bool {
    placement::lists_pages(s) && match target_of(s, index) {
        None => t == s,
        Some(id) => exists|png: Vec<u8>| #[trigger]
            call_ensures(render, (at, &size), Ok(png)) && stamped(s, id, png@, size.sides()) == (
                Ok::<(), AnnotateError>(()),
                t,
            ) && pdf::is_page(s.objects, id) && placement::only_inked(s, t, id, png@, size.sides()),
    }
}

/// How stamping the ink of one page can fail: it cannot be rendered, the numbers are
/// used up, or the image cannot be stamped.
pub open spec fn ink_refused<R: Fn(usize, &PageSize) -> Result<Vec<u8>, String>>(
    render: &R,
    s: PdfState,
    at: usize,
    index: usize,
    size: PageSize,
    e: AssembleError,
) -> bool {
    match target_of(s, index) {
        None => false,
        Some(id) => match e {
            AssembleError::Render(message) => call_ensures(render, (at, &size), Err(message)),
            AssembleError::Compile(_) => false,
            AssembleError::Annotate(a) => exists|png: Vec<u8>| #[trigger]
                call_ensures(render, (at, &size), Ok(png)) && if s.max_id + 3 > u32::MAX {
                    a == AnnotateError::Full
                } else {
                    stamped(s, id, png@, size.sides()).0 == Err::<(), AnnotateError>(a)
                },
        },
    }
}

/// What can come of stamping the ink of the pages in turn.
#[verifier::opaque]
pub open spec fn all_stamped<R: Fn(usize, &PageSize) -> Result<Vec<u8>, String>>(
    render: &R,
    s: PdfState,
    inked: Seq<usize>,
    sizes: Seq<PageSize>,
    fallback: PageSize,
    t: PdfState,
) -> bool
    decreases inked.len(),
{
    if inked.len() == 0 {
        t == s
    } else {
        exists|m: PdfState|
            all_stamped(render, s, inked.drop_last(), sizes, fallback, m) && #[trigger] ink_stamped(
                render,
                m,
                (inked.len() - 1) as usize,
                inked.last(),
                size_of(sizes, fallback, inked.last()),
                t,
            )
    }
}

/// How stamping the ink of the pages in turn can fail: at one of them, with those
/// before it stamped.
#[verifier::opaque]
pub open spec fn stamping_failed<R: Fn(usize, &PageSize) -> Result<Vec<u8>, String>>(
    render: &R,
    s: PdfState,
    inked: Seq<usize>,
    sizes: Seq<PageSize>,
    fallback: PageSize,
    e: AssembleError,
) -> bool {
    exists|n: int, m: PdfState|
        0 <= n < inked.len() && #[trigger] all_stamped(
            render,
            s,
            inked.take(n),
            sizes,
            fallback,
            m,
        ) && ink_refused(
            render,
            m,
            n as usize,
            inked[n],
            size_of(sizes, fallback, inked[n]),
            e,
        )
}

/// Stamps the ink of the pages `inked` in turn, as `render` gives it for their
/// places in the list. A page that the document does not have is passed over.
pub fn stamp_pages<R: Fn(usize, &PageSize) -> Result<Vec<u8>, String>>(
    doc: &mut Document,
    inked: &Vec<usize>,
    sizes: &Vec<PageSize>,
    fallback: &PageSize,
    render: &R,
) -> (r: Result<(), AssembleError>)
    requires
        fallback.well_formed(),
        forall|i: int| 0 <= i < sizes@.len() ==> (#[trigger] sizes@[i]).well_formed(),
        forall|i: int| 0 <= i < inked@.len() ==> #[trigger] inked@[i] < usize::MAX,
        forall|i: usize, size: &PageSize| call_requires(render, (i, size)),
    ensures
        match r {
            Ok(_) => all_stamped(
                render,
                pdf::state(*old(doc)),
                inked@,
                sizes@,
                *fallback,
                pdf::state(*final(doc)),
            ),
            Err(e) => stamping_failed(render, pdf::state(*old(doc)), inked@, sizes@, *fallback, e),
        },
{
    proof {
        reveal_with_fuel(all_stamped, 2);
        reveal(stamping_failed);
    }
    let ghost start = pdf::state(*doc);
    let mut i: usize = 0;
    assert(inked@.take(0) =~= Seq::empty());
    while i < inked.len()
        invariant
            i <= inked@.len(),
            start == pdf::state(*old(doc)),
            fallback.well_formed(),
            forall|i: int| 0 <= i < sizes@.len() ==> (#[trigger] sizes@[i]).well_formed(),
            forall|i: int| 0 <= i < inked@.len() ==> #[trigger] inked@[i] < usize::MAX,
            forall|i: usize, size: &PageSize| call_requires(render, (i, size)),
            all_stamped(
                render,
                start,
                inked@.take(i as int),
                sizes@,
                *fallback,
                pdf::state(*doc),
            ),
        decreases inked@.len() - i,
    {
        let ghost before = pdf::state(*doc);
        let index = inked[i];
        proof {
            reveal_with_fuel(all_stamped, 2);
            reveal(stamping_failed);
        }
        let n = (index + 1) as u32;
        let ids = pages_of(doc);
        proof {
            assert(inked@.take(i + 1).drop_last() =~= inked@.take(i as int));
            assert(inked@.take(i + 1).last() == index);
        }
        if n > 0 && n as usize <= ids.len() {
            let id = ids[n as usize - 1];
            let size = if n as usize <= sizes.len() {
                &sizes[n as usize - 1]
            } else {
                fallback
            };
            assert(*size == size_of(sizes@, *fallback, index));
            match render(i, size) {
                Err(message) => {
                    let e = AssembleError::Render(message);
                    assert(ink_refused(render, before, i, index, *size, e));
                    return Err(e);
                },
                Ok(png) => {
                    if max_id_of(doc) > u32::MAX - 3 {
                        let e = AssembleError::Annotate(AnnotateError::Full);
                        assert(ink_refused(render, before, i, index, *size, e));
                        return Err(e);
                    }
                    match stamp_overlay(doc, id, png.as_slice(), size) {
                        Err(a) => {
                            let e = AssembleError::Annotate(a);
                            assert(ink_refused(render, before, i, index, *size, e));
                            return Err(e);
                        },
                        Ok(_) => {
                            assert(ink_stamped(render, before, i, index, *size, pdf::state(*doc)));
                        },
                    }
                },
            }
        }
        assert(ink_stamped(
            render,
            before,
            i,
            index,
            size_of(sizes@, *fallback, index),
            pdf::state(*doc),
        ));
        proof {
            let so_far = inked@.take(i + 1);
            assert((so_far.len() - 1) as usize == i);
            assert(all_stamped(render, start, so_far.drop_last(), sizes@, *fallback, before));
            assert(all_stamped(render, start, so_far, sizes@, *fallback, pdf::state(*doc)));
        }
        i = i + 1;
    }
    assert(inked@.take(inked@.len() as int) =~= inked@);
    Ok(())
}

/// The source of the digest and its images, as they are handed to the compiler.
pub open spec fn handed(
    meta: MetaView,
    marks: Seq<MarkView>,
    source: String,
    assets: Vec<(String, Vec<u8>)>,
) -> bool {
    source@ == digest_doc::digest_source(meta, marks) && digest_doc::image_views(assets@)
        == digest_doc::images(digest_doc::IMAGE_FRONT, marks)
}

/// `out` can come of compiling the source and the images.
pub open spec fn compiled<C: Fn(&String, &Vec<(String, Vec<u8>)>) -> Result<Vec<u8>, String>>(
    compile: &C,
    source: String,
    assets: Vec<(String, Vec<u8>)>,
    out: Result<Vec<u8>, String>,
) -> bool {
    call_ensures(compile, (&source, &assets), out)
}

/// The bytes can be read as a document that holds this.
pub open spec fn held_in(bytes: Seq<u8>, state: PdfState) -> bool {
    exists|doc: Document| #[trigger]
        reading::read_as(bytes, Some(doc)) && state == pdf::state(doc)
}

/// What can come of compiling the digest and reading it: the document that the compiled
/// bytes were read as.
#[verifier::opaque]
pub open spec fn digest_made<
    C: Fn(&String, &Vec<(String, Vec<u8>)>) -> Result<Vec<u8>, String>,
>(compile: &C, meta: MetaView, marks: Seq<MarkView>, digest: PdfState) -> bool {
    exists|source: String, assets: Vec<(String, Vec<u8>)>, bytes: Vec<u8>|
        handed(meta, marks, source, assets) && #[trigger] compiled(
            compile,
            source,
            assets,
            Ok(bytes),
        ) && held_in(bytes@, digest)
}

/// How the digest can fail: it cannot be compiled, or not be read.
#[verifier::opaque]
pub open spec fn digest_refused<
    C: Fn(&String, &Vec<(String, Vec<u8>)>) -> Result<Vec<u8>, String>,
>(compile: &C, meta: MetaView, marks: Seq<MarkView>, e: AssembleError) -> bool {
    match e {
        AssembleError::Compile(message) => exists|source: String, assets: Vec<(String, Vec<u8>)>|
            #[trigger] handed(meta, marks, source, assets) && compiled(
                compile,
                source,
                assets,
                Err(message),
            ),
        AssembleError::Annotate(a) => a == AnnotateError::Digest && exists|
            source: String,
            assets: Vec<(String, Vec<u8>)>,
            bytes: Vec<u8>,
        |
            handed(meta, marks, source, assets) && #[trigger] compiled(
                compile,
                source,
                assets,
                Ok(bytes),
            ) && reading::read_as(bytes@, None),
        AssembleError::Render(_) => false,
    }
}

/// Builds the digest, has it compiled, and reads the document.
pub fn make_digest<C: Fn(&String, &Vec<(String, Vec<u8>)>) -> Result<Vec<u8>, String>>(
    meta: &DigestMeta,
    marks: &[Mark],
    compile: &C,
) -> (r: Result<Document, AssembleError>)
    requires
        forall|i: int| 0 <= i < marks@.len() ==> digest_doc::numbered(#[trigger] marks@[i]),
        forall|source: &String, assets: &Vec<(String, Vec<u8>)>|
            call_requires(compile, (source, assets)),
    ensures
        match r {
            Ok(doc) => digest_made(compile, meta@, extract::mark_views(marks@), pdf::state(doc)),
            Err(e) => digest_refused(compile, meta@, extract::mark_views(marks@), e),
        },
{
    proof {
        reveal(digest_made);
        reveal(digest_refused);
    }
    let (source, assets) = build_digest(meta, marks);
    assert(handed(meta@, extract::mark_views(marks@), source, assets));
    match compile(&source, &assets) {
        Err(message) => {
            assert(compiled(compile, source, assets, Err(message)));
            let e = AssembleError::Compile(message);
            assert(digest_refused(compile, meta@, extract::mark_views(marks@), e));
            Err(e)
        },
        Ok(bytes) => {
            assert(compiled(compile, source, assets, Ok(bytes)));
            match reading::read(bytes.as_slice()) {
                None => {
                    let e = AssembleError::Annotate(AnnotateError::Digest);
                    assert(digest_refused(compile, meta@, extract::mark_views(marks@), e));
                    Err(e)
                },
                Some(doc) => {
                    assert(held_in(bytes@, pdf::state(doc)));
                    Ok(doc)
                },
            }
        },
    }
}

/// How many of the marks are highlights.
pub open spec fn highlights(marks: Seq<MarkView>) -> nat
    decreases marks.len(),
{
    if marks.len() == 0 {
        0
    } else {
        highlights(marks.drop_last()) + if marks.last() is Highlight {
            1nat
        } else {
            0nat
        }
    }
}

/// The four numbers of each rectangle.
pub open spec fn rects(bands: Seq<LinkRect>) -> Seq<Seq<PdfValue>> {
    Seq::new(bands.len(), |i: int| bands[i].sides())
}

/// The document with a link for each highlight, and their number: from its band on
/// the page `first` to its page among `targets`. A highlight whose page is not there
/// gets none. The first link that cannot be added ends it.
#[verifier::opaque]
pub open spec fn links_added(
    s: PdfState,
    first: (u32, u16),
    targets: Seq<(u32, u16)>,
    marks: Seq<MarkView>,
    bands: Seq<Seq<PdfValue>>,
) -> (Result<nat, AnnotateError>, PdfState)
    decreases marks.len(),
{
    if marks.len() == 0 {
        (Ok(0), s)
    } else {
        match links_added(s, first, targets, marks.drop_last(), bands) {
            (Err(e), t) => (Err(e), t),
            (Ok(n), t) => match marks.last() {
                MarkView::Highlight { page, .. } => if page >= targets.len() {
                    (Ok(n), t)
                } else if t.max_id == u32::MAX {
                    (Err(AnnotateError::Full), t)
                } else {
                    match linked(t, first, bands[n as int], targets[page as int]) {
                        (Ok(_), u) => (Ok(n + 1), u),
                        (Err(e), u) => (Err(e), u),
                    }
                },
                _ => (Ok(n), t),
            },
        }
    }
}

/// Links leave the trailer as it was.
pub(crate) proof fn linking_keeps_the_trailer(
    s: PdfState,
    first: (u32, u16),
    targets: Seq<(u32, u16)>,
    marks: Seq<MarkView>,
    bands: Seq<Seq<PdfValue>>,
)
    ensures
        links_added(s, first, targets, marks, bands).1.trailer == s.trailer,
    decreases marks.len(),
{
    reveal_with_fuel(links_added, 2);
    if marks.len() > 0 {
        linking_keeps_the_trailer(s, first, targets, marks.drop_last(), bands);
    }
}

/// What the first marks come to an end with, all of them do.
proof fn linking_ends(
    s: PdfState,
    first: (u32, u16),
    targets: Seq<(u32, u16)>,
    marks: Seq<MarkView>,
    bands: Seq<Seq<PdfValue>>,
    n: int,
)
    requires
        0 <= n <= marks.len(),
        links_added(s, first, targets, marks.take(n), bands).0 is Err,
    ensures
        links_added(s, first, targets, marks, bands) == links_added(
            s,
            first,
            targets,
            marks.take(n),
            bands,
        ),
    decreases marks.len(),
{
    reveal_with_fuel(links_added, 2);
    if n == marks.len() {
        assert(marks.take(n) =~= marks);
    } else {
        assert(marks.drop_last().take(n) =~= marks.take(n));
        linking_ends(s, first, targets, marks.drop_last(), bands, n);
    }
}

/// The count grows with the marks.
proof fn highlights_grow(marks: Seq<MarkView>, n: int)
    requires
        0 <= n <= marks.len(),
    ensures
        highlights(marks.take(n)) <= highlights(marks),
    decreases marks.len(),
{
    if n == marks.len() {
        assert(marks.take(n) =~= marks);
    } else {
        assert(marks.drop_last().take(n) =~= marks.take(n));
        highlights_grow(marks.drop_last(), n);
    }
}

/// Adds a link for each highlight, from its band on the document's first page to its
/// page among `targets`, and returns how many there are.
pub fn link_highlights(
    doc: &mut Document,
    marks: &[Mark],
    targets: &Vec<(u32, u16)>,
    bands: &Vec<LinkRect>,
) -> (r: Result<usize, AnnotateError>)
    requires
        highlights(extract::mark_views(marks@)) <= bands@.len(),
    ensures
        r is Ok ==> placement::lists_pages(pdf::state(*old(doc))),
        pdf::page_ids(pdf::objects(*old(doc)), pdf::trailer(*old(doc))).len() == 0 ==> r == Err::<
            usize,
            AnnotateError,
        >(AnnotateError::Empty) && pdf::state(*final(doc)) == pdf::state(*old(doc)),
        pdf::page_ids(pdf::objects(*old(doc)), pdf::trailer(*old(doc))).len() > 0 ==> match r {
            Ok(n) => (Ok(n as nat), pdf::state(*final(doc))),
            Err(e) => (Err(e), pdf::state(*final(doc))),
        } == links_added(
            pdf::state(*old(doc)),
            pdf::page_ids(pdf::objects(*old(doc)), pdf::trailer(*old(doc)))[0],
            targets@,
            extract::mark_views(marks@),
            rects(bands@),
        ),
{
    proof {
        reveal_with_fuel(links_added, 2);
    }
    let pages = pages_of(doc);
    if pages.len() == 0 {
        return Err(AnnotateError::Empty);
    }
    let first = pages[0];
    let ghost views = extract::mark_views(marks@);
    let ghost start = pdf::state(*doc);
    let mut n: usize = 0;
    let mut i: usize = 0;
    while i < marks.len()
        invariant
            i <= marks@.len(),
            views == extract::mark_views(marks@),
            highlights(views) <= bands.len(),
            n <= highlights(views.take(i as int)),
            start == pdf::state(*old(doc)),
            pages@ == pdf::page_ids(start.objects, start.trailer),
            pages@.len() > 0,
            first == pages@[0],
            (Ok::<nat, AnnotateError>(n as nat), pdf::state(*doc)) == links_added(
                start,
                first,
                targets@,
                views.take(i as int),
                rects(bands@),
            ),
        decreases marks@.len() - i,
    {
        proof {
            reveal_with_fuel(links_added, 2);
            assert(views.take(i + 1).drop_last() =~= views.take(i as int));
            assert(views.take(i + 1).last() == marks@[i as int]@);
            highlights_grow(views, i + 1);
        }
        match &marks[i] {
            Mark::Highlight { page, .. } => {
                if *page < targets.len() {
                    if max_id_of(doc) == u32::MAX {
                        proof {
                            linking_ends(start, first, targets@, views, rects(bands@), i + 1);
                        }
                        return Err(AnnotateError::Full);
                    }
                    match add_goto_link(doc, first, &bands[n], targets[*page]) {
                        Ok(_) => {},
                        Err(e) => {
                            proof {
                                linking_ends(start, first, targets@, views, rects(bands@), i + 1);
                            }
                            return Err(e);
                        },
                    }
                    n = n + 1;
                }
            },
            _ => {},
        }
        i = i + 1;
    }
    assert(views.take(views.len() as int) =~= views);
    Ok(n)
}

/// The document `file` is the one numbered anew from one on; the pages of one in order
/// stay as they are.
pub open spec fn numbered_anew(s: PdfState, file: Document) -> bool {
    &&& (pdf::objects(file), pdf::trailer(file)) == pdf::renumbered(s.objects, s.trailer, 1)
    &&& pdf::orderly(s.objects, s.trailer) ==> pdf::same_pages(
        s.objects,
        s.trailer,
        pdf::objects(file),
        pdf::trailer(file),
    )
}

/// Numbers the objects anew and writes the document.
pub fn finish(doc: Document) -> (r: Result<Vec<u8>, AnnotateError>)
    ensures
        match r {
            Ok(bytes) => pdf::objects(doc).dom().len() < 0x8000_0000 && exists|file: Document| #[trigger]
                numbered_anew(pdf::state(doc), file) && pdf::file_bytes(file) == Some(bytes@),
            Err(e) => {
                ||| e == AnnotateError::Full && pdf::objects(doc).dom().len() >= 0x8000_0000
                ||| e == AnnotateError::Save && pdf::objects(doc).dom().len() < 0x8000_0000 && exists|
                    file: Document,
                | #[trigger]
                    numbered_anew(pdf::state(doc), file) && pdf::file_bytes(file) is None
            },
        },
{
    let mut file = doc;
    let n = object_count(&file);
    if n >= 0x8000_0000 {
        return Err(AnnotateError::Full);
    }
    file.renumber_objects_with(1);
    assert(numbered_anew(pdf::state(doc), file));
    match save(file) {
        Some(bytes) => Ok(bytes),
        None => Err(AnnotateError::Save),
    }
}

/// Counts the objects of a document.
fn object_count(doc: &Document) -> (n: usize)
    ensures
        n == pdf::objects(*doc).dom().len(),
{
    let ids = object_ids(doc);
    proof {
        ids@.unique_seq_to_set();
    }
    ids.len()
}

/// Counts the inserted pages among the marks.
fn count_inserted(marks: &[Mark]) -> (n: usize)
    ensures
        n == inserted_pages(extract::mark_views(marks@)),
{
    let ghost views = extract::mark_views(marks@);
    let mut n: usize = 0;
    let mut i: usize = 0;
    while i < marks.len()
        invariant
            i <= marks@.len(),
            n <= i,
            views == extract::mark_views(marks@),
            n == inserted_pages(views.take(i as int)),
        decreases marks@.len() - i,
    {
        proof {
            assert(views.take(i + 1).drop_last() =~= views.take(i as int));
            assert(views.take(i + 1).last() == marks@[i as int]@);
        }
        match &marks[i] {
            Mark::InsertedPage { .. } => {
                n = n + 1;
            },
            _ => {},
        }
        i = i + 1;
    }
    assert(views.take(views.len() as int) =~= views);
    n
}

// ---------------------------------------------------------------------------
// The assembly
// ---------------------------------------------------------------------------
/// What the steps of one assembly came to.
pub struct Assembly {
    /// The sizes of the book's pages.
    pub sizes: Seq<PageSize>,
    /// The size for pages that have none.
    pub fallback: PageSize,
    /// The book with its ink.
    pub inked: PdfState,
    /// The pages of the book and the inserted ones.
    pub pages: Seq<(u32, u16)>,
    /// The book with its ink and the inserted pages.
    pub full: PdfState,
    /// The digest.
    pub digest: PdfState,
    /// The digest in front of the book.
    pub both: PdfState,
    /// The same with the links.
    pub linked: PdfState,
    /// The document that was written.
    pub file: Document,
}

/// The marks have page numbers.
pub open spec fn placeable(marks: Seq<Mark>) -> bool {
    forall|i: int| 0 <= i < marks.len() ==> digest_doc::numbered(#[trigger] marks[i])
}

/// There are numbers for the inserted pages among the marks.
pub open spec fn room_to_splice(s: PdfState, marks: Seq<MarkView>) -> bool {
    s.max_id + 3 * inserted_pages(marks) <= u32::MAX
}

/// The digest's pages in front, then the book's with their ink and the inserted
/// pages, and a link for each highlight: `bytes` is the file that the steps `run`
/// lead to.
pub open spec fn assembled<
    S: Fn(Option<&Vec<Object>>) -> PageSize,
    R: Fn(usize, &PageSize) -> Result<Vec<u8>, String>,
    C: Fn(&String, &Vec<(String, Vec<u8>)>) -> Result<Vec<u8>, String>,
>(
    book: PdfState,
    root: (u32, u16),
    inked: Seq<usize>,
    meta: MetaView,
    marks: Seq<MarkView>,
    bands: Seq<Seq<PdfValue>>,
    size: &S,
    render: &R,
    compile: &C,
    run: Assembly,
    bytes: Seq<u8>,
) -> bool {
    let pages = pdf::page_ids(run.both.objects, run.both.trailer);
    let targets = pdf::page_ids(book.objects, book.trailer);
    &&& placement::lists_pages(book)
    &&& sizes_found(size, book, run.sizes, run.fallback)
    &&& all_stamped(render, book, inked, run.sizes, run.fallback, run.inked)
    &&& room_to_splice(run.inked, marks)
    &&& placement::lists_pages(run.inked)
    &&& spliced(
        run.inked,
        pdf::page_ids(run.inked.objects, run.inked.trailer),
        marks,
        run.fallback.sides(),
        root,
    ) == (Ok::<_, AnnotateError>(run.pages), run.full)
    &&& digest_made(compile, meta, marks, run.digest)
    &&& merged(run.full, run.digest) == Ok::<PdfState, AnnotateError>(run.both)
    &&& placement::numbered_behind(run.full, run.digest)
    &&& placement::bounded(run.both)
    &&& placement::lists_pages(run.both)
    &&& pages.len() > 0
    &&& links_added(run.both, pages[0], targets, marks, bands).0 is Ok
    &&& links_added(run.both, pages[0], targets, marks, bands).1 == run.linked
    &&& numbered_anew(run.linked, run.file)
    &&& pdf::file_bytes(run.file) == Some(bytes)
}

/// The step at which the steps `run` end with the error `e`, those before it having
/// worked.
pub open spec fn assembly_failed<
    S: Fn(Option<&Vec<Object>>) -> PageSize,
    R: Fn(usize, &PageSize) -> Result<Vec<u8>, String>,
    C: Fn(&String, &Vec<(String, Vec<u8>)>) -> Result<Vec<u8>, String>,
>(
    book: PdfState,
    root: (u32, u16),
    inked: Seq<usize>,
    meta: MetaView,
    marks: Seq<MarkView>,
    bands: Seq<Seq<PdfValue>>,
    size: &S,
    render: &R,
    compile: &C,
    run: Assembly,
    e: AssembleError,
) -> bool {
    let pages = pdf::page_ids(run.both.objects, run.both.trailer);
    let targets = pdf::page_ids(book.objects, book.trailer);
    sizes_found(size, book, run.sizes, run.fallback) && (stamping_failed(
        render,
        book,
        inked,
        run.sizes,
        run.fallback,
        e,
    ) || (all_stamped(render, book, inked, run.sizes, run.fallback, run.inked) && if !room_to_splice(
        run.inked,
        marks,
    ) {
        e == AssembleError::Annotate(AnnotateError::Full)
    } else {
        match spliced(
            run.inked,
            pdf::page_ids(run.inked.objects, run.inked.trailer),
            marks,
            run.fallback.sides(),
            root,
        ) {
            (Err(a), _) => e == AssembleError::Annotate(a),
            (Ok(_), full) => digest_refused(compile, meta, marks, e) || (digest_made(
                compile,
                meta,
                marks,
                run.digest,
            ) && if !room_for(full, run.digest) {
                e == AssembleError::Annotate(AnnotateError::Full)
            } else {
                match merged(full, run.digest) {
                    Err(a) => e == AssembleError::Annotate(a),
                    Ok(both) => both == run.both && if pages.len() == 0 {
                        e == AssembleError::Annotate(AnnotateError::Empty)
                    } else {
                        match links_added(both, pages[0], targets, marks, bands) {
                            (Err(a), _) => e == AssembleError::Annotate(a),
                            (Ok(_), linked) => if linked.objects.dom().len() >= 0x8000_0000 {
                                e == AssembleError::Annotate(AnnotateError::Full)
                            } else {
                                &&& numbered_anew(linked, run.file)
                                &&& pdf::file_bytes(run.file) is None
                                &&& e == AssembleError::Annotate(AnnotateError::Save)
                            },
                        }
                    },
                }
            }),
        }
    }))
}

/// What an assembly with the book can come to: an error where the root of its page tree
/// is not found, else what some run of the steps leads to.
pub open spec fn assembly_outcome<
    S: Fn(Option<&Vec<Object>>) -> PageSize,
    R: Fn(usize, &PageSize) -> Result<Vec<u8>, String>,
    C: Fn(&String, &Vec<(String, Vec<u8>)>) -> Result<Vec<u8>, String>,
>(
    book: PdfState,
    inked: Seq<usize>,
    meta: MetaView,
    marks: Seq<MarkView>,
    bands: Seq<Seq<PdfValue>>,
    size: &S,
    render: &R,
    compile: &C,
    r: Result<Vec<u8>, AssembleError>,
) -> bool {
    match root_found(book.objects, book.trailer) {
        Err(a) => r == Err::<Vec<u8>, AssembleError>(AssembleError::Annotate(a)),
        Ok(root) => match r {
            Ok(bytes) => exists|run: Assembly| #[trigger]
                assembled(
                    book,
                    root,
                    inked,
                    meta,
                    marks,
                    bands,
                    size,
                    render,
                    compile,
                    run,
                    bytes@,
                ),
            Err(e) => exists|run: Assembly| #[trigger]
                assembly_failed(
                    book,
                    root,
                    inked,
                    meta,
                    marks,
                    bands,
                    size,
                    render,
                    compile,
                    run,
                    e,
                ),
        },
    }
}

/// Assembles the annotated PDF: the digest's pages, then the pages of the book with
/// the ink of `inked` stamped on and the inserted pages spliced in. Each highlight
/// gets a link in its band on the first page of the digest, which leads to its page of
/// the book wherever the inserted pages have moved that. `size` tells a page's
/// size from its box, `render` draws the ink of a page by its place in `inked`, and
/// `compile` turns the digest's source into a PDF. What [`assemble_from`] makes of the
/// document that was read from `source` is what comes of it.
pub fn assemble<
    S: Fn(Option<&Vec<Object>>) -> PageSize,
    R: Fn(usize, &PageSize) -> Result<Vec<u8>, String>,
    C: Fn(&String, &Vec<(String, Vec<u8>)>) -> Result<Vec<u8>, String>,
>(
    source: Option<&[u8]>,
    inked: &Vec<usize>,
    meta: &DigestMeta,
    marks: &[Mark],
    bands: &Vec<LinkRect>,
    size: &S,
    render: &R,
    compile: &C,
) -> (r: Result<Vec<u8>, AssembleError>)
    requires
        placeable(marks@),
        highlights(extract::mark_views(marks@)) <= bands@.len(),
        forall|i: int| 0 <= i < inked@.len() ==> #[trigger] inked@[i] < usize::MAX,
        forall|a: Option<&Vec<Object>>| call_requires(size, (a,)),
        forall|a: Option<&Vec<Object>>, found: PageSize|
            call_ensures(size, (a,), found) ==> found.well_formed(),
        forall|i: usize, found: &PageSize| call_requires(render, (i, found)),
        forall|text: &String, assets: &Vec<(String, Vec<u8>)>|
            call_requires(compile, (text, assets)),
    ensures
        match source {
            None => r == Err::<Vec<u8>, AssembleError>(
                AssembleError::Annotate(AnnotateError::NoSource),
            ),
            Some(bytes) => exists|read: Option<Document>| #[trigger]
                reading::read_as(bytes@, read) && match read {
                    None => r == Err::<Vec<u8>, AssembleError>(
                        AssembleError::Annotate(AnnotateError::Source),
                    ),
                    Some(doc) => assembly_outcome(
                        pdf::state(doc),
                        inked@,
                        meta@,
                        extract::mark_views(marks@),
                        rects(bands@),
                        size,
                        render,
                        compile,
                        r,
                    ),
                },
        },
{
    match source {
        None => Err(AssembleError::Annotate(AnnotateError::NoSource)),
        Some(bytes) => match reading::read(bytes) {
            None => Err(AssembleError::Annotate(AnnotateError::Source)),
            Some(doc) => assemble_from(doc, inked, meta, marks, bands, size, render, compile),
        },
    }
}

/// Goes through the steps of an assembly with the book whose page tree has the root, up
/// to the end or to the first that fails, and says what they were.
fn take_steps<
    S: Fn(Option<&Vec<Object>>) -> PageSize,
    R: Fn(usize, &PageSize) -> Result<Vec<u8>, String>,
    C: Fn(&String, &Vec<(String, Vec<u8>)>) -> Result<Vec<u8>, String>,
>(
    book_doc: Document,
    root: (u32, u16),
    inked: &Vec<usize>,
    meta: &DigestMeta,
    marks: &[Mark],
    bands: &Vec<LinkRect>,
    size: &S,
    render: &R,
    compile: &C,
) -> (r: (Result<Vec<u8>, AssembleError>, Ghost<Assembly>))
    requires
        root_found(pdf::objects(book_doc), pdf::trailer(book_doc)) == Ok::<_, AnnotateError>(root),
        placeable(marks@),
        highlights(extract::mark_views(marks@)) <= bands@.len(),
        forall|i: int| 0 <= i < inked@.len() ==> #[trigger] inked@[i] < usize::MAX,
        forall|a: Option<&Vec<Object>>| call_requires(size, (a,)),
        forall|a: Option<&Vec<Object>>, found: PageSize|
            call_ensures(size, (a,), found) ==> found.well_formed(),
        forall|i: usize, found: &PageSize| call_requires(render, (i, found)),
        forall|text: &String, assets: &Vec<(String, Vec<u8>)>|
            call_requires(compile, (text, assets)),
    ensures
        match r.0 {
            Ok(bytes) => assembled(
                pdf::state(book_doc),
                root,
                inked@,
                meta@,
                extract::mark_views(marks@),
                rects(bands@),
                size,
                render,
                compile,
                r.1@,
                bytes@,
            ),
            Err(e) => assembly_failed(
                pdf::state(book_doc),
                root,
                inked@,
                meta@,
                extract::mark_views(marks@),
                rects(bands@),
                size,
                render,
                compile,
                r.1@,
                e,
            ),
        },
{
    let mut doc = book_doc;
    let ghost book = pdf::state(doc);
    let ghost views = extract::mark_views(marks@);
    let (sizes, fallback) = find_sizes(&doc, size);
    let targets = pages_of(&doc);
    let ghost mut run = Assembly {
        sizes: sizes@,
        fallback,
        inked: book,
        pages: targets@,
        full: book,
        digest: book,
        both: book,
        linked: book,
        file: doc,
    };
    match stamp_pages(&mut doc, inked, &sizes, &fallback, render) {
        Ok(_) => {},
        Err(e) => return (Err(e), Ghost(run)),
    }
    proof {
        run.inked = pdf::state(doc);
    }
    let count = count_inserted(marks);
    if count as u64 > (u32::MAX as u64 - max_id_of(&doc) as u64) / 3 {
        return (Err(AssembleError::Annotate(AnnotateError::Full)), Ghost(run));
    }
    match splice_inserted_pages(&mut doc, marks, targets.len(), &fallback, root) {
        Ok(_) => {},
        Err(a) => return (Err(AssembleError::Annotate(a)), Ghost(run)),
    }
    proof {
        run.pages = spliced(
            run.inked,
            pdf::page_ids(run.inked.objects, run.inked.trailer),
            views,
            fallback.sides(),
            root,
        ).0->Ok_0;
        run.full = pdf::state(doc);
    }
    let digest = match make_digest(meta, marks, compile) {
        Ok(digest) => digest,
        Err(e) => return (Err(e), Ghost(run)),
    };
    proof {
        run.digest = pdf::state(digest);
    }
    let held = object_count(&digest);
    if held >= 0x8000_0000 || max_id_of(&doc) as u64 + 1 + held as u64 > u32::MAX as u64 {
        return (Err(AssembleError::Annotate(AnnotateError::Full)), Ghost(run));
    }
    let mut both = match merge_digest_first(doc, digest) {
        Ok((both, _)) => both,
        Err(a) => return (Err(AssembleError::Annotate(a)), Ghost(run)),
    };
    proof {
        run.both = pdf::state(both);
    }
    match link_highlights(&mut both, marks, &targets, bands) {
        Ok(_) => {},
        Err(a) => return (Err(AssembleError::Annotate(a)), Ghost(run)),
    }
    proof {
        run.linked = pdf::state(both);
    }
    match finish(both) {
        Ok(bytes) => {
            proof {
                run.file = choose|file: Document| #[trigger]
                    numbered_anew(run.linked, file) && pdf::file_bytes(file) == Some(bytes@);
            }
            (Ok(bytes), Ghost(run))
        },
        Err(a) => {
            proof {
                if a == AnnotateError::Save {
                    run.file = choose|file: Document| #[trigger]
                        numbered_anew(run.linked, file) && pdf::file_bytes(file) is None;
                }
            }
            (Err(AssembleError::Annotate(a)), Ghost(run))
        },
    }
}

/// Assembles the annotated PDF of the book that is the document.
pub fn assemble_from<
    S: Fn(Option<&Vec<Object>>) -> PageSize,
    R: Fn(usize, &PageSize) -> Result<Vec<u8>, String>,
    C: Fn(&String, &Vec<(String, Vec<u8>)>) -> Result<Vec<u8>, String>,
>(
    book_doc: Document,
    inked: &Vec<usize>,
    meta: &DigestMeta,
    marks: &[Mark],
    bands: &Vec<LinkRect>,
    size: &S,
    render: &R,
    compile: &C,
) -> (r: Result<Vec<u8>, AssembleError>)
    requires
        placeable(marks@),
        highlights(extract::mark_views(marks@)) <= bands@.len(),
        forall|i: int| 0 <= i < inked@.len() ==> #[trigger] inked@[i] < usize::MAX,
        forall|a: Option<&Vec<Object>>| call_requires(size, (a,)),
        forall|a: Option<&Vec<Object>>, found: PageSize|
            call_ensures(size, (a,), found) ==> found.well_formed(),
        forall|i: usize, found: &PageSize| call_requires(render, (i, found)),
        forall|text: &String, assets: &Vec<(String, Vec<u8>)>|
            call_requires(compile, (text, assets)),
    ensures
        assembly_outcome(
            pdf::state(book_doc),
            inked@,
            meta@,
            extract::mark_views(marks@),
            rects(bands@),
            size,
            render,
            compile,
            r,
        ),
{
    let root = match find_pages_root(&book_doc) {
        Ok(root) => root,
        Err(a) => return Err(AssembleError::Annotate(a)),
    };
    let (r, _) = take_steps(
        book_doc,
        root,
        inked,
        meta,
        marks,
        bands,
        size,
        render,
        compile,
    );
    r
}

} // verus!

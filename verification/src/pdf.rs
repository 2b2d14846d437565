//! PDF documents: the contents of `lopdf` values, and the calls into `lopdf` and
//! `image` that the assembly of documents makes.
//!
//! A document is a collection of numbered objects with a trailer. [`PdfValue`] says
//! what an object holds; the order of a dictionary's entries is left out of it.

use image::{GenericImageView, ImageFormat};
use lopdf::content::{Content, Operation};
use lopdf::{Dictionary, Document, Object, Stream};
use vstd::prelude::*;
use vstd::utf8::*;

verus! {

/// `lopdf::Document`, a PDF document.
#[verifier::external_type_specification]
#[verifier::external_body]
pub struct ExDocument(lopdf::Document);

/// `lopdf::Object`, a value in a PDF document.
#[verifier::external_type_specification]
#[verifier::external_body]
pub struct ExObject(lopdf::Object);

/// `lopdf::Dictionary`, values under keys.
#[verifier::external_type_specification]
#[verifier::external_body]
pub struct ExDictionary(lopdf::Dictionary);

/// `lopdf::Stream`, a dictionary with bytes.
#[verifier::external_type_specification]
#[verifier::external_body]
pub struct ExStream(lopdf::Stream);

/// `lopdf::Error`, why a call failed.
#[verifier::external_type_specification]
#[verifier::external_body]
pub struct ExError(lopdf::Error);

// ---------------------------------------------------------------------------
// The model
// ---------------------------------------------------------------------------
/// What an object holds.
#[verifier::ext_equal]
pub enum PdfValue {
    Null,
    Boolean(bool),
    Integer(int),
    /// A real number, by its bits.
    Real(u32),
    Name(Seq<u8>),
    Text(Seq<u8>, bool),
    Array(Seq<PdfValue>),
    Dict(Map<Seq<u8>, PdfValue>),
    Data(Map<Seq<u8>, PdfValue>, Seq<u8>),
    Reference((u32, u16)),
}

/// What a document holds: its objects, its trailer, and the highest object number
/// that it has given out.
#[verifier::ext_equal]
pub struct PdfState {
    pub objects: Map<(u32, u16), PdfValue>,
    pub trailer: Map<Seq<u8>, PdfValue>,
    pub max_id: u32,
}

/// What the object holds.
pub uninterp spec fn object_value(object: Object) -> PdfValue;

/// The entries of the dictionary.
pub uninterp spec fn entries(dict: Dictionary) -> Map<Seq<u8>, PdfValue>;

/// The entries of the stream's dictionary, and its bytes.
pub uninterp spec fn stream_value(stream: Stream) -> (Map<Seq<u8>, PdfValue>, Seq<u8>);

/// The objects of the document.
pub uninterp spec fn objects(doc: Document) -> Map<(u32, u16), PdfValue>;

/// The entries of the document's trailer.
pub uninterp spec fn trailer(doc: Document) -> Map<Seq<u8>, PdfValue>;

/// The highest object number that the document has given out.
pub uninterp spec fn max_id(doc: Document) -> u32;

/// What the document holds.
pub open spec fn state(doc: Document) -> PdfState {
    PdfState { objects: objects(doc), trailer: trailer(doc), max_id: max_id(doc) }
}

/// What the objects hold.
pub open spec fn values(v: Seq<Object>) -> Seq<PdfValue> {
    Seq::new(v.len(), |i: int| object_value(v[i]))
}

/// A dictionary's entries where it has none.
pub open spec fn no_entries() -> Map<Seq<u8>, PdfValue> {
    Map::empty()
}

/// The bytes of a name or key.
pub open spec fn key(name: &str) -> Seq<u8> {
    encode_utf8(name@)
}

/// The name with the given text.
pub open spec fn name(text: &str) -> PdfValue {
    PdfValue::Name(key(text))
}

/// The references to the given objects.
pub open spec fn references(ids: Seq<(u32, u16)>) -> Seq<PdfValue> {
    Seq::new(ids.len(), |i: int| PdfValue::Reference(ids[i]))
}

/// The number of the object that `id` leads to, through at most `limit`
/// references; nothing where one of them names no object, or there are more.
pub open spec fn resolve(
    objects: Map<(u32, u16), PdfValue>,
    id: (u32, u16),
    limit: nat,
) -> Option<(u32, u16)>
    decreases limit,
{
    if !objects.contains_key(id) {
        None
    } else {
        match objects[id] {
            PdfValue::Reference(next) => if limit == 0 {
                None
            } else {
                resolve(objects, next, (limit - 1) as nat)
            },
            _ => Some(id),
        }
    }
}

/// The number of the object that `id` leads to.
pub open spec fn place(objects: Map<(u32, u16), PdfValue>, id: (u32, u16)) -> Option<(u32, u16)> {
    resolve(objects, id, 128)
}

/// The number of the dictionary that `id` leads to.
pub open spec fn dict_place(objects: Map<(u32, u16), PdfValue>, id: (u32, u16)) -> Option<
    (u32, u16),
> {
    match place(objects, id) {
        Some(k) => if objects[k] is Dict {
            Some(k)
        } else {
            None
        },
        None => None,
    }
}

/// The entries of the dictionary that `id` leads to.
pub open spec fn dict_at(objects: Map<(u32, u16), PdfValue>, id: (u32, u16)) -> Option<
    Map<Seq<u8>, PdfValue>,
> {
    match dict_place(objects, id) {
        Some(k) => Some(objects[k]->Dict_0),
        None => None,
    }
}

/// What `id` leads to is among the objects.
pub proof fn place_is_held(objects: Map<(u32, u16), PdfValue>, id: (u32, u16), limit: nat)
    ensures
        resolve(objects, id, limit) matches Some(k) ==> objects.contains_key(k) && !(
        objects[k] is Reference),
    decreases limit,
{
    if objects.contains_key(id) {
        match objects[id] {
            PdfValue::Reference(next) => if limit > 0 {
                place_is_held(objects, next, (limit - 1) as nat);
            },
            _ => {},
        }
    }
}

/// A value that is put where it stands changes nothing.
pub proof fn put_back<K, V>(m: Map<K, V>, k: K)
    ensures
        m.contains_key(k) ==> m.insert(k, m[k]) == m,
{
    if m.contains_key(k) {
        assert(m.insert(k, m[k]) =~= m);
    }
}

/// Keys with different texts are different.
pub proof fn keys_differ(a: Seq<char>, b: Seq<char>)
    ensures
        encode_utf8(a) == encode_utf8(b) ==> a == b,
{
    encode_utf8_decode_utf8(a);
    encode_utf8_decode_utf8(b);
}

// ---------------------------------------------------------------------------
// Objects
// ---------------------------------------------------------------------------
/// The parts of an object to make.
pub enum Value {
    Integer(i64),
    Name(Vec<u8>),
    Array(Vec<Object>),
    Dict(Dictionary),
    Data(Stream),
    Reference((u32, u16)),
}

/// What an object made of the parts holds.
pub open spec fn made(v: Value) -> PdfValue {
    match v {
        Value::Integer(n) => PdfValue::Integer(n as int),
        Value::Name(bytes) => PdfValue::Name(bytes@),
        Value::Array(items) => PdfValue::Array(values(items@)),
        Value::Dict(dict) => PdfValue::Dict(entries(dict)),
        Value::Data(stream) => PdfValue::Data(stream_value(stream).0, stream_value(stream).1),
        Value::Reference(id) => PdfValue::Reference(id),
    }
}

/// The variants of `lopdf::Object` as constructors: the object holds the parts that
/// it is made of.
#[verifier::external_body]
pub(crate) fn object(v: Value) -> (r: Object)
    ensures
        object_value(r) == made(v),
{
    match v {
        Value::Integer(n) => Object::Integer(n),
        Value::Name(bytes) => Object::Name(bytes),
        Value::Array(items) => Object::Array(items),
        Value::Dict(dict) => Object::Dictionary(dict),
        Value::Data(stream) => Object::Stream(stream),
        Value::Reference(id) => Object::Reference(id),
    }
}

/// `lopdf::Object::clone`: the copy holds what the object holds.
pub assume_specification[ <Object as Clone>::clone ](o: &Object) -> (r: Object)
    ensures
        object_value(r) == object_value(*o),
;

/// `lopdf::Object::as_reference`: succeeds on a reference alone, with its number.
pub assume_specification[ Object::as_reference ](o: &Object) -> (r: Result<
    (u32, u16),
    lopdf::Error,
>)
    ensures
        match r {
            Ok(id) => object_value(*o) == PdfValue::Reference(id),
            Err(_) => !(object_value(*o) is Reference),
        },
;

/// `lopdf::Object::as_array`: succeeds on an array alone, with its items.
pub assume_specification[ Object::as_array ](o: &Object) -> (r: Result<&Vec<Object>, lopdf::Error>)
    ensures
        match r {
            Ok(items) => object_value(*o) == PdfValue::Array(values(items@)),
            Err(_) => !(object_value(*o) is Array),
        },
;

/// `lopdf::Object::as_array_mut`: succeeds on an array alone; the object then holds
/// the items as the caller leaves them.
pub assume_specification[ Object::as_array_mut ](o: &mut Object) -> (r: Result<
    &mut Vec<Object>,
    lopdf::Error,
>)
    ensures
        match r {
            Ok(items) => {
                &&& object_value(*old(o)) == PdfValue::Array(values(items@))
                &&& object_value(*final(o)) == PdfValue::Array(values(final(items)@))
            },
            Err(_) => {
                &&& !(object_value(*old(o)) is Array)
                &&& object_value(*final(o)) == object_value(*old(o))
            },
        },
;

/// `lopdf::Object::as_dict_mut`: succeeds on a dictionary alone; the object then
/// holds the entries as the caller leaves them.
pub assume_specification[ Object::as_dict_mut ](o: &mut Object) -> (r: Result<
    &mut Dictionary,
    lopdf::Error,
>)
    ensures
        match r {
            Ok(dict) => {
                &&& object_value(*old(o)) == PdfValue::Dict(entries(*dict))
                &&& object_value(*final(o)) == PdfValue::Dict(entries(*final(dict)))
            },
            Err(_) => {
                &&& !(object_value(*old(o)) is Dict)
                &&& object_value(*final(o)) == object_value(*old(o))
            },
        },
;

// ---------------------------------------------------------------------------
// Dictionaries and streams
// ---------------------------------------------------------------------------
/// `lopdf::Dictionary::new`: a dictionary without entries.
pub assume_specification[ Dictionary::new ]() -> (r: Dictionary)
    ensures
        entries(r) == no_entries(),
;

/// `lopdf::Dictionary::get`: the value under the key, where there is one.
pub assume_specification<'a>[ Dictionary::get ](d: &'a Dictionary, k: &[u8]) -> (r: Result<
    &'a Object,
    lopdf::Error,
>)
    ensures
        match r {
            Ok(o) => entries(*d).contains_key(k@) && entries(*d)[k@] == object_value(*o),
            Err(_) => !entries(*d).contains_key(k@),
        },
;

/// `lopdf::Dictionary::get_mut`: the value under the key, where there is one; the
/// dictionary then holds it as the caller leaves it.
pub assume_specification<'a>[ Dictionary::get_mut ](d: &'a mut Dictionary, k: &[u8]) -> (r: Result<
    &'a mut Object,
    lopdf::Error,
>)
    ensures
        match r {
            Ok(o) => {
                &&& entries(*old(d)).contains_key(k@)
                &&& entries(*old(d))[k@] == object_value(*o)
                &&& entries(*final(d)) == entries(*old(d)).insert(k@, object_value(*final(o)))
            },
            Err(_) => {
                &&& !entries(*old(d)).contains_key(k@)
                &&& entries(*final(d)) == entries(*old(d))
            },
        },
;

/// `lopdf::Dictionary::set`: puts the value under the key, in place of one that is
/// there.
#[verifier::external_body]
pub(crate) fn dict_set(d: &mut Dictionary, k: &[u8], value: Object)
    ensures
        entries(*final(d)) == entries(*old(d)).insert(k@, object_value(value)),
{
    d.set(k, value);
}

/// `lopdf::Stream::new`: a stream with the bytes, whose dictionary has their number
/// under `Length`.
pub assume_specification[ Stream::new ](dict: Dictionary, content: Vec<u8>) -> (r: Stream)
    ensures
        stream_value(r) == (
            entries(dict).insert(key("Length"), PdfValue::Integer(content@.len() as int)),
            content@,
        ),
;

/// The bytes in zlib's format, as `lopdf::Stream::compress` has them.
pub uninterp spec fn deflated(bytes: Seq<u8>) -> Seq<u8>;

/// A stream after an attempt to compress it to `small`: one that has no filter yet is
/// compressed where that saves more than the filter's entry takes.
pub open spec fn packed(dict: Map<Seq<u8>, PdfValue>, bytes: Seq<u8>, small: Seq<u8>) -> (
    Map<Seq<u8>, PdfValue>,
    Seq<u8>,
) {
    if !dict.contains_key(key("Filter")) && small.len() + 19 < bytes.len() {
        (
            dict.insert(key("Filter"), name("FlateDecode")).insert(
                key("Length"),
                PdfValue::Integer(small.len() as int),
            ),
            small,
        )
    } else {
        (dict, bytes)
    }
}

/// `lopdf::Stream::compress`: compresses a stream without a filter where the result
/// is more than 19 bytes shorter, and leaves any other as it is. It writes to
/// memory, so its error is not looked at.
#[verifier::external_body]
pub(crate) fn compress(s: &mut Stream)
    ensures
        stream_value(*final(s)) == packed(
            stream_value(*old(s)).0,
            stream_value(*old(s)).1,
            deflated(stream_value(*old(s)).1),
        ),
{
    let _ = s.compress();
}

// ---------------------------------------------------------------------------
// Documents
// ---------------------------------------------------------------------------
/// The field `trailer` of `lopdf::Document`.
#[verifier::external_body]
pub(crate) fn trailer_of(doc: &Document) -> (r: &Dictionary)
    ensures
        entries(*r) == trailer(*doc),
{
    &doc.trailer
}

/// The field `max_id` of `lopdf::Document`, read.
#[verifier::external_body]
pub(crate) fn max_id_of(doc: &Document) -> (r: u32)
    ensures
        r == max_id(*doc),
{
    doc.max_id
}

/// The field `max_id` of `lopdf::Document`, written.
#[verifier::external_body]
pub(crate) fn set_max_id(doc: &mut Document, n: u32)
    ensures
        objects(*final(doc)) == objects(*old(doc)),
        trailer(*final(doc)) == trailer(*old(doc)),
        max_id(*final(doc)) == n,
{
    doc.max_id = n;
}

/// The keys of the field `objects` of `lopdf::Document`: the number of each object
/// once.
#[verifier::external_body]
pub(crate) fn object_ids(doc: &Document) -> (r: Vec<(u32, u16)>)
    ensures
        r@.to_set() == objects(*doc).dom(),
        r@.no_duplicates(),
{
    doc.objects.keys().copied().collect()
}

/// The field `objects` of `lopdf::Document`, which is a map, extended by that of
/// another document: where both have an object of one number, the other's stays.
#[verifier::external_body]
pub(crate) fn import_objects(doc: &mut Document, other: Document)
    ensures
        objects(*final(doc)) == objects(*old(doc)).union_prefer_right(objects(other)),
        trailer(*final(doc)) == trailer(*old(doc)),
        max_id(*final(doc)) == max_id(*old(doc)),
{
    doc.objects.extend(other.objects);
}

/// `lopdf::Document::get_dictionary`: the dictionary that the number leads to,
/// through references.
pub assume_specification[ lopdf::Document::get_dictionary ](
    doc: &lopdf::Document,
    id: (u32, u16),
) -> (r: Result<&lopdf::Dictionary, lopdf::Error>)
    ensures
        match r {
            Ok(d) => dict_at(objects(*doc), id) == Some(entries(*d)),
            Err(_) => dict_at(objects(*doc), id) is None,
        },
;

/// `lopdf::Document::get_object_mut`: the object that the number leads to, through
/// references; the document then holds it as the caller leaves it.
pub assume_specification[ lopdf::Document::get_object_mut ](
    doc: &mut lopdf::Document,
    id: (u32, u16),
) -> (r: Result<&mut lopdf::Object, lopdf::Error>)
    ensures
        match r {
            Ok(o) => {
                &&& place(objects(*old(doc)), id) matches Some(k)
                &&& objects(*old(doc))[k] == object_value(*o)
                &&& objects(*final(doc)) == objects(*old(doc)).insert(k, object_value(*final(o)))
            },
            Err(_) => {
                &&& place(objects(*old(doc)), id) is None
                &&& objects(*final(doc)) == objects(*old(doc))
            },
        },
        trailer(*final(doc)) == trailer(*old(doc)),
        max_id(*final(doc)) == max_id(*old(doc)),
;

/// The number that the next object gets.
pub open spec fn next_id(s: PdfState) -> (u32, u16) {
    ((s.max_id + 1) as u32, 0)
}

/// The document with one object more.
pub open spec fn added(s: PdfState, v: PdfValue) -> PdfState {
    PdfState {
        objects: s.objects.insert(next_id(s), v),
        trailer: s.trailer,
        max_id: (s.max_id + 1) as u32,
    }
}

/// `lopdf::Document::add_object`: puts the object under the number that follows the
/// highest one given out, in place of an object that is there. It needs such a
/// number.
#[verifier::external_body]
pub(crate) fn add_object(doc: &mut Document, o: Object) -> (id: (u32, u16))
    requires
        max_id(*old(doc)) < u32::MAX,
    ensures
        id == next_id(state(*old(doc))),
        state(*final(doc)) == added(state(*old(doc)), object_value(o)),
{
    doc.add_object(o)
}

/// The contents of a page as a list, to which one can be added.
pub open spec fn content_list(page: Map<Seq<u8>, PdfValue>) -> Seq<PdfValue> {
    if page.contains_key(key("Contents")) {
        match page[key("Contents")] {
            PdfValue::Reference(id) => seq![PdfValue::Reference(id)],
            PdfValue::Array(items) => items,
            _ => seq![],
        }
    } else {
        seq![]
    }
}

/// The document with a content stream added to a page, and whether that worked.
pub open spec fn content_added(s: PdfState, page_id: (u32, u16), bytes: Seq<u8>) -> (
    bool,
    PdfState,
) {
    match dict_at(s.objects, page_id) {
        None => (false, s),
        Some(page) => {
            let list = content_list(page).push(PdfValue::Reference(next_id(s)));
            let length = PdfValue::Integer(bytes.len() as int);
            let t = added(s, PdfValue::Data(no_entries().insert(key("Length"), length), bytes));
            match dict_place(t.objects, page_id) {
                None => (false, t),
                Some(k) => (
                    true,
                    PdfState {
                        objects: t.objects.insert(
                            k,
                            PdfValue::Dict(
                                t.objects[k]->Dict_0.insert(
                                    key("Contents"),
                                    PdfValue::Array(list),
                                ),
                            ),
                        ),
                        ..t
                    },
                ),
            }
        },
    }
}

/// `lopdf::Document::add_page_contents`: adds a stream with the bytes, and a
/// reference to it behind the contents that the page has. It needs a number for
/// the stream.
pub assume_specification[ lopdf::Document::add_page_contents ](
    doc: &mut lopdf::Document,
    page_id: (u32, u16),
    content: Vec<u8>,
) -> (r: Result<(), lopdf::Error>)
    requires
        max_id(*old(doc)) < u32::MAX,
    ensures
        r is Ok == content_added(state(*old(doc)), page_id, content@).0,
        state(*final(doc)) == content_added(state(*old(doc)), page_id, content@).1,
;

/// Two dictionaries have the same entries but for those under `Resources`,
/// `XObject` and the image's name.
pub open spec fn same_but_images(
    a: Map<Seq<u8>, PdfValue>,
    b: Map<Seq<u8>, PdfValue>,
    image: Seq<u8>,
) -> bool {
    forall|k: Seq<u8>|
        k != key("Resources") && k != key("XObject") && k != image ==> (
        #[trigger] a.contains_key(k) == b.contains_key(k)) && (a.contains_key(k) ==> a[k] == b[k])
}

/// The objects are the same but for what [`same_but_images`] leaves open.
pub open spec fn images_only(
    a: Map<(u32, u16), PdfValue>,
    b: Map<(u32, u16), PdfValue>,
    image: Seq<u8>,
) -> bool {
    &&& a.dom() == b.dom()
    &&& forall|id: (u32, u16)| #[trigger]
        a.contains_key(id) ==> a[id] == b[id] || (a[id] is Dict && b[id] is Dict
            && same_but_images(a[id]->Dict_0, b[id]->Dict_0, image))
}

/// What stands under the key, or a dictionary without entries where nothing does.
pub open spec fn held_at(dict: Map<Seq<u8>, PdfValue>, k: Seq<u8>) -> PdfValue {
    if dict.contains_key(k) {
        dict[k]
    } else {
        PdfValue::Dict(no_entries())
    }
}

/// The objects with an image in the resources, which `put` puts in their place; nothing
/// where the images there are no dictionary.
pub open spec fn image_entered(
    objects: Map<(u32, u16), PdfValue>,
    resources: Map<Seq<u8>, PdfValue>,
    put: spec_fn(Map<Seq<u8>, PdfValue>) -> Map<(u32, u16), PdfValue>,
    image: Seq<u8>,
    id: (u32, u16),
) -> Option<Map<(u32, u16), PdfValue>> {
    let entry = PdfValue::Reference(id);
    match held_at(resources, key("XObject")) {
        PdfValue::Dict(images) => Some(
            put(resources.insert(key("XObject"), PdfValue::Dict(images.insert(image, entry)))),
        ),
        PdfValue::Reference(at) => match dict_place(objects, at) {
            Some(x) => Some(
                objects.insert(x, PdfValue::Dict(objects[x]->Dict_0.insert(image, entry))),
            ),
            None => None,
        },
        _ => None,
    }
}

/// The objects with an image in the resources of a page, which stand in the page or
/// behind a reference; nothing where the images there are no dictionary. Where there is
/// no such page, or its resources are no dictionary, nothing changes.
pub open spec fn xobject_added(
    objects: Map<(u32, u16), PdfValue>,
    page_id: (u32, u16),
    image: Seq<u8>,
    id: (u32, u16),
) -> Option<Map<(u32, u16), PdfValue>> {
    match dict_place(objects, page_id) {
        None => Some(objects),
        Some(k) => {
            let page = objects[k]->Dict_0;
            match held_at(page, key("Resources")) {
                PdfValue::Dict(resources) => {
                    let put = |d: Map<Seq<u8>, PdfValue>|
                        objects.insert(
                            k,
                            PdfValue::Dict(page.insert(key("Resources"), PdfValue::Dict(d))),
                        );
                    image_entered(objects, resources, put, image, id)
                },
                PdfValue::Reference(at) => match dict_place(objects, at) {
                    Some(x) => {
                        let put = |d: Map<Seq<u8>, PdfValue>| objects.insert(x, PdfValue::Dict(d));
                        image_entered(objects, objects[x]->Dict_0, put, image, id)
                    },
                    None => Some(objects),
                },
                _ => Some(objects),
            }
        },
    }
}

/// `lopdf::Document::add_xobject`: enters an image under a name into the resources of a
/// page, as [`xobject_added`] says; an error leaves the document as it is.
#[verifier::external_body]
pub(crate) fn add_xobject(doc: &mut Document, page_id: (u32, u16), image: Vec<u8>, id: (u32, u16)) -> (r:
    Result<(), lopdf::Error>)
    ensures
        match r {
            Ok(_) => xobject_added(objects(*old(doc)), page_id, image@, id) == Some(
                objects(*final(doc)),
            ),
            Err(_) => xobject_added(objects(*old(doc)), page_id, image@, id) is None && objects(
                *final(doc),
            ) == objects(*old(doc)),
        },
        trailer(*final(doc)) == trailer(*old(doc)),
        max_id(*final(doc)) == max_id(*old(doc)),
{
    doc.add_xobject(page_id, image, id)
}

/// The dictionary under the key, in place or behind a reference.
pub open spec fn dict_under(
    objects: Map<(u32, u16), PdfValue>,
    dict: Map<Seq<u8>, PdfValue>,
    k: Seq<u8>,
) -> Option<Map<Seq<u8>, PdfValue>> {
    if !dict.contains_key(k) {
        None
    } else {
        match dict[k] {
            PdfValue::Dict(d) => Some(d),
            PdfValue::Reference(id) => dict_at(objects, id),
            _ => None,
        }
    }
}

/// What the resources of the page have under the name of an image.
pub open spec fn image_named(
    objects: Map<(u32, u16), PdfValue>,
    page_id: (u32, u16),
    image: Seq<u8>,
) -> Option<PdfValue> {
    match dict_at(objects, page_id) {
        None => None,
        Some(page) => match dict_under(objects, page, key("Resources")) {
            None => None,
            Some(resources) => match dict_under(objects, resources, key("XObject")) {
                None => None,
                Some(images) => if images.contains_key(image) {
                    Some(images[image])
                } else {
                    None
                },
            },
        },
    }
}

/// The page has resources, or nothing in their place yet.
pub open spec fn takes_images(objects: Map<(u32, u16), PdfValue>, page_id: (u32, u16)) -> bool {
    match dict_at(objects, page_id) {
        None => false,
        Some(page) => !page.contains_key(key("Resources")) || dict_under(
            objects,
            page,
            key("Resources"),
        ) is Some,
    }
}

// ---------------------------------------------------------------------------
// Pages
// ---------------------------------------------------------------------------
/// `id` leads to a dictionary of the type `Page`.
pub open spec fn is_page(objects: Map<(u32, u16), PdfValue>, id: (u32, u16)) -> bool {
    match dict_at(objects, id) {
        Some(d) => d.contains_key(key("Type")) && d[key("Type")] == name("Page"),
        None => false,
    }
}

/// The reference under the key.
pub open spec fn reference_at(dict: Map<Seq<u8>, PdfValue>, k: Seq<u8>) -> Option<(u32, u16)> {
    if dict.contains_key(k) && dict[k] is Reference {
        Some(dict[k]->Reference_0)
    } else {
        None
    }
}

/// The items of the array under the key.
pub open spec fn array_at(dict: Map<Seq<u8>, PdfValue>, k: Seq<u8>) -> Option<Seq<PdfValue>> {
    if dict.contains_key(k) && dict[k] is Array {
        Some(dict[k]->Array_0)
    } else {
        None
    }
}

/// What the array holds.
pub open spec fn array_view(a: Option<&Vec<Object>>) -> Option<Seq<PdfValue>> {
    match a {
        Some(items) => Some(values(items@)),
        None => None,
    }
}

/// The items of the array under a key.
pub(crate) fn get_array<'a>(d: &'a Dictionary, k: &str) -> (r: Option<&'a Vec<Object>>)
    ensures
        array_view(r) == array_at(entries(*d), key(k)),
{
    match d.get(k.as_bytes()) {
        Ok(o) => match o.as_array() {
            Ok(items) => Some(items),
            Err(_) => None,
        },
        Err(_) => None,
    }
}

/// The reference under a key.
pub(crate) fn get_reference(d: &Dictionary, k: &str) -> (r: Option<(u32, u16)>)
    ensures
        r == reference_at(entries(*d), key(k)),
{
    match d.get(k.as_bytes()) {
        Ok(o) => match o.as_reference() {
            Ok(id) => Some(id),
            Err(_) => None,
        },
        Err(_) => None,
    }
}

/// The number of the root of the page tree.
pub open spec fn pages_root(
    objects: Map<(u32, u16), PdfValue>,
    trailer: Map<Seq<u8>, PdfValue>,
) -> Option<(u32, u16)> {
    match reference_at(trailer, key("Root")) {
        None => None,
        Some(catalog_id) => match dict_at(objects, catalog_id) {
            None => None,
            Some(catalog) => reference_at(catalog, key("Pages")),
        },
    }
}

/// The kids of a node of the page tree, in place or behind a reference.
pub open spec fn kids_of(
    objects: Map<(u32, u16), PdfValue>,
    node: Map<Seq<u8>, PdfValue>,
) -> Seq<PdfValue> {
    if !node.contains_key(key("Kids")) {
        seq![]
    } else {
        match node[key("Kids")] {
            PdfValue::Array(kids) => kids,
            PdfValue::Reference(id) => match resolve(objects, id, 127) {
                Some(k) => match objects[k] {
                    PdfValue::Array(kids) => kids,
                    _ => seq![],
                },
                None => seq![],
            },
            _ => seq![],
        }
    }
}

/// The kids of the root of the page tree.
pub open spec fn root_kids(
    objects: Map<(u32, u16), PdfValue>,
    trailer: Map<Seq<u8>, PdfValue>,
) -> Seq<PdfValue> {
    match pages_root(objects, trailer) {
        None => seq![],
        Some(root_id) => match dict_at(objects, root_id) {
            None => seq![],
            Some(root) => kids_of(objects, root),
        },
    }
}

/// What a walk through a page tree comes to.
#[verifier::ext_equal]
pub struct PageWalk {
    /// The pages in their order.
    pub pages: Seq<(u32, u16)>,
    /// How many kids were visited.
    pub visits: nat,
    /// A node lay too deep to walk into.
    pub cut: bool,
}

/// The walk through the kids, and through nodes to the depth: the pages among them, and
/// those of the nodes among them. What is neither is passed over.
pub open spec fn walk(
    objects: Map<(u32, u16), PdfValue>,
    kids: Seq<PdfValue>,
    depth: nat,
) -> PageWalk
    decreases depth, kids.len(),
{
    if kids.len() == 0 {
        PageWalk { pages: seq![], visits: 0, cut: false }
    } else {
        let before = walk(objects, kids.drop_last(), depth);
        let last = walk_kid(objects, kids.last(), depth);
        PageWalk {
            pages: before.pages + last.pages,
            visits: before.visits + last.visits,
            cut: before.cut || last.cut,
        }
    }
}

/// The walk to one kid, and through it where it is a node.
pub open spec fn walk_kid(
    objects: Map<(u32, u16), PdfValue>,
    kid: PdfValue,
    depth: nat,
) -> PageWalk
    decreases depth, 0nat,
{
    let none = PageWalk { pages: seq![], visits: 1, cut: false };
    match kid {
        PdfValue::Reference(id) => match dict_at(objects, id) {
            Some(d) => if d.contains_key(key("Type")) && d[key("Type")] == name("Page") {
                PageWalk { pages: seq![id], visits: 1, cut: false }
            } else if d.contains_key(key("Type")) && d[key("Type")] == name("Pages") {
                if depth == 0 {
                    PageWalk { pages: seq![], visits: 1, cut: true }
                } else {
                    let below = walk(objects, kids_of(objects, d), (depth - 1) as nat);
                    PageWalk { pages: below.pages, visits: below.visits + 1, cut: below.cut }
                }
            } else {
                none
            },
            None => none,
        },
        _ => none,
    }
}

/// The walk through the page tree of a document, as deep as `page_iter` goes.
pub open spec fn tree_walk(
    objects: Map<(u32, u16), PdfValue>,
    trailer: Map<Seq<u8>, PdfValue>,
) -> PageWalk {
    walk(objects, root_kids(objects, trailer), 256)
}

/// The whole page tree is walked through: no node lies too deep, and there are no more
/// kids than objects, as there are where a kid is listed over and over.
pub open spec fn whole_tree(
    objects: Map<(u32, u16), PdfValue>,
    trailer: Map<Seq<u8>, PdfValue>,
) -> bool {
    !tree_walk(objects, trailer).cut && tree_walk(objects, trailer).visits <= objects.dom().len()
}

/// What holds of the list of a document's pages: there are no more than the document has
/// objects, each is a page, and they are those of the walk where the whole page tree is
/// walked through.
pub open spec fn page_list(
    objects: Map<(u32, u16), PdfValue>,
    trailer: Map<Seq<u8>, PdfValue>,
    ids: Seq<(u32, u16)>,
) -> bool {
    &&& objects.dom().finite()
    &&& ids.len() <= objects.dom().len()
    &&& forall|i: int| 0 <= i < ids.len() ==> is_page(objects, #[trigger] ids[i])
    &&& whole_tree(objects, trailer) ==> ids == tree_walk(objects, trailer).pages
}

/// The numbers of the document's pages in their order, as
/// `lopdf::Document::page_iter` walks them.
pub uninterp spec fn page_ids(
    objects: Map<(u32, u16), PdfValue>,
    trailer: Map<Seq<u8>, PdfValue>,
) -> Seq<(u32, u16)>;

/// `lopdf::Document::page_iter`: walks the page tree from its root. What it finds
/// is named [`page_ids`], and [`page_list`] holds of it. It stops after as many
/// kids as the document has objects, and does not walk into a node below 256 others.
#[verifier::external_body]
pub(crate) fn pages_of(doc: &Document) -> (r: Vec<(u32, u16)>)
    ensures
        r@ == page_ids(objects(*doc), trailer(*doc)),
        page_list(objects(*doc), trailer(*doc), r@),
{
    doc.page_iter().collect()
}

/// The kids are references to pages and to nodes whose kids can be had and are such kids
/// again, to the depth.
pub open spec fn sound_kids(
    objects: Map<(u32, u16), PdfValue>,
    kids: Seq<PdfValue>,
    depth: nat,
) -> bool
    decreases depth, kids.len(),
{
    kids.len() > 0 ==> sound_kids(objects, kids.drop_last(), depth) && sound_kid(
        objects,
        kids.last(),
        depth,
    )
}

/// The kid is a reference to a page, or to a node with such kids.
pub open spec fn sound_kid(
    objects: Map<(u32, u16), PdfValue>,
    kid: PdfValue,
    depth: nat,
) -> bool
    decreases depth, 0nat,
{
    kid is Reference && (is_page(objects, kid->Reference_0) || (depth > 0 && match dict_at(
        objects,
        kid->Reference_0,
    ) {
        Some(d) => d.contains_key(key("Type")) && d[key("Type")] == name("Pages") && has_kids(
            objects,
            d,
        ) && sound_kids(objects, kids_of(objects, d), (depth - 1) as nat),
        None => false,
    }))
}

/// The node has a list of kids, in place or behind a reference.
pub open spec fn has_kids(
    objects: Map<(u32, u16), PdfValue>,
    node: Map<Seq<u8>, PdfValue>,
) -> bool {
    node.contains_key(key("Kids")) && match node[key("Kids")] {
        PdfValue::Array(_) => true,
        PdfValue::Reference(id) => match resolve(objects, id, 127) {
            Some(k) => objects[k] is Array,
            None => false,
        },
        _ => false,
    }
}

/// No two objects share their number.
pub open spec fn numbers_differ(objects: Map<(u32, u16), PdfValue>) -> bool {
    forall|a: (u32, u16), b: (u32, u16)| #[trigger]
        objects.contains_key(a) && #[trigger] objects.contains_key(b) && a.0 == b.0 ==> a == b
}

/// A document in order: no two objects share their number, its page tree holds nothing but
/// pages and nodes and is walked through as a whole, and no page stands in it twice.
pub open spec fn orderly(
    objects: Map<(u32, u16), PdfValue>,
    trailer: Map<Seq<u8>, PdfValue>,
) -> bool {
    &&& numbers_differ(objects)
    &&& whole_tree(objects, trailer)
    &&& tree_walk(objects, trailer).pages.no_duplicates()
    &&& pages_root(objects, trailer) matches Some(root_id)
    &&& dict_at(objects, root_id) matches Some(root)
    &&& has_kids(objects, root)
    &&& sound_kids(objects, kids_of(objects, root), 256)
}

/// The value is neither a reference nor made of other values.
pub open spec fn is_plain(v: PdfValue) -> bool {
    !(v is Reference) && !(v is Array) && !(v is Dict) && !(v is Data)
}

/// Two dictionaries have the same entries but for references: the same keys, the same
/// plain values, and lists of the same length with the same plain items.
pub open spec fn same_but_references(a: Map<Seq<u8>, PdfValue>, b: Map<Seq<u8>, PdfValue>) -> bool {
    &&& a.dom() == b.dom()
    &&& forall|x: Seq<u8>| #[trigger] a.contains_key(x) && is_plain(a[x]) ==> b[x] == a[x]
    &&& forall|x: Seq<u8>| #[trigger]
        a.contains_key(x) && a[x] is Array ==> b[x] is Array && b[x]->Array_0.len()
            == a[x]->Array_0.len()
    &&& forall|x: Seq<u8>, i: int|
        a.contains_key(x) && a[x] is Array && 0 <= i < a[x]->Array_0.len() && is_plain(
            #[trigger] a[x]->Array_0[i],
        ) ==> b[x]->Array_0[i] == a[x]->Array_0[i]
}

/// The pages of the one document are those of the other, in the same order and but for
/// references with the same entries.
pub open spec fn same_pages(
    objects: Map<(u32, u16), PdfValue>,
    trailer: Map<Seq<u8>, PdfValue>,
    others: Map<(u32, u16), PdfValue>,
    other_trailer: Map<Seq<u8>, PdfValue>,
) -> bool {
    let pages = tree_walk(objects, trailer).pages;
    let now = tree_walk(others, other_trailer).pages;
    &&& whole_tree(others, other_trailer)
    &&& now.len() == pages.len()
    &&& forall|i: int|
        0 <= i < pages.len() ==> is_page(others, #[trigger] now[i]) && same_but_references(
            dict_at(objects, pages[i])->0,
            dict_at(others, now[i])->0,
        )
}

/// The objects and the trailer after `lopdf::Document::renumber_objects_with`.
pub uninterp spec fn renumbered(
    objects: Map<(u32, u16), PdfValue>,
    trailer: Map<Seq<u8>, PdfValue>,
    start: u32,
) -> (Map<(u32, u16), PdfValue>, Map<Seq<u8>, PdfValue>);

/// `lopdf::Document::renumber_objects_with`: numbers the objects anew, one after
/// the other from `starting_id` on, and changes the references to them. What comes
/// of it is named [`renumbered`]. The pages of a document in order stay as they are, and
/// so does their order. It needs that many numbers, and counts the pages in 32 bits with
/// a sign.
pub assume_specification[ lopdf::Document::renumber_objects_with ](
    doc: &mut lopdf::Document,
    starting_id: u32,
)
    requires
        1 <= starting_id,
        objects(*old(doc)).dom().len() < 0x8000_0000,
        starting_id + objects(*old(doc)).dom().len() <= u32::MAX,
    ensures
        (objects(*final(doc)), trailer(*final(doc))) == renumbered(
            objects(*old(doc)),
            trailer(*old(doc)),
            starting_id,
        ),
        objects(*final(doc)).dom().finite(),
        objects(*final(doc)).dom().len() <= objects(*old(doc)).dom().len(),
        max_id(*final(doc)) == starting_id + objects(*final(doc)).dom().len() - 1,
        forall|id: (u32, u16)| #[trigger]
            objects(*final(doc)).contains_key(id) ==> starting_id <= id.0 <= max_id(*final(doc)),
        orderly(objects(*old(doc)), trailer(*old(doc))) ==> same_pages(
            objects(*old(doc)),
            trailer(*old(doc)),
            objects(*final(doc)),
            trailer(*final(doc)),
        ),
;

/// The bytes of the document as a file, as `lopdf::Document::save_to` writes them;
/// nothing where it reports an error. It takes the document itself, for the order of a
/// dictionary's entries shows in the bytes.
pub uninterp spec fn file_bytes(doc: Document) -> Option<Seq<u8>>;

/// `lopdf::Document::save_to` into memory. What it writes is named [`file_bytes`].
/// It takes up to two object numbers more.
#[verifier::external_body]
pub(crate) fn save(doc: Document) -> (r: Option<Vec<u8>>)
    requires
        max_id(doc) + 2 <= u32::MAX,
    ensures
        file_bytes(doc) == match r {
            Some(bytes) => Some(bytes@),
            None => None,
        },
{
    let mut doc = doc;
    let mut bytes = Vec::new();
    match doc.save_to(&mut bytes) {
        Ok(_) => Some(bytes),
        Err(_) => None,
    }
}

// ---------------------------------------------------------------------------
// Content streams and images
// ---------------------------------------------------------------------------
/// The operators and their operands.
pub open spec fn operations(ops: Seq<(&'static str, Vec<Object>)>) -> Seq<
    (Seq<char>, Seq<PdfValue>),
> {
    Seq::new(ops.len(), |i: int| (ops[i].0@, values(ops[i].1@)))
}

/// The operands are numbers and names.
pub open spec fn plain_operands(ops: Seq<(Seq<char>, Seq<PdfValue>)>) -> bool {
    forall|i: int, j: int|
        0 <= i < ops.len() && 0 <= j < ops[i].1.len() ==> {
            let v = #[trigger] ops[i].1[j];
            v is Integer || v is Real || v is Name
        }
}

/// The bytes of a content stream, as `lopdf::content::Content::encode` writes them.
pub uninterp spec fn encoded(ops: Seq<(Seq<char>, Seq<PdfValue>)>) -> Seq<u8>;

/// `lopdf::content::Content::encode`: writes the operations of a content stream.
/// What it writes is named [`encoded`]. It writes to memory, which does not fail.
#[verifier::external_body]
pub(crate) fn encode(ops: Vec<(&'static str, Vec<Object>)>) -> (r: Result<Vec<u8>, lopdf::Error>)
    requires
        plain_operands(operations(ops@)),
    ensures
        r is Ok,
        r->Ok_0@ == encoded(operations(ops@)),
{
    let operations: Vec<Operation> = ops.into_iter().map(|(o, a)| Operation::new(o, a)).collect();
    Content { operations }.encode()
}

/// The width, the height and the pixels of an image in PNG format, four bytes for
/// each pixel, as `image` decodes it; nothing where it reports an error.
pub uninterp spec fn rgba_image(png: Seq<u8>) -> Option<(u32, u32, Seq<u8>)>;

/// `image::load_from_memory_with_format` for PNG, with `to_rgba8`: decodes an image
/// to red, green, blue and opacity. What it decodes is named [`rgba_image`]; there
/// are four bytes for each pixel.
#[verifier::external_body]
pub(crate) fn decode_rgba(png: &[u8]) -> (r: Option<(u32, u32, Vec<u8>)>)
    ensures
        match r {
            Some((w, h, pixels)) => rgba_image(png@) == Some((w, h, pixels@)) && pixels@.len() == 4 * (
            w * h),
            None => rgba_image(png@) is None,
        },
{
    let image = image::load_from_memory_with_format(png, ImageFormat::Png).ok()?;
    let (w, h) = image.dimensions();
    Some((w, h, image.to_rgba8().into_raw()))
}

/// The width, the height and the pixels of an image in PNG format, three bytes for
/// each pixel, as `image` decodes it; nothing where it reports an error.
pub uninterp spec fn rgb_image(png: Seq<u8>) -> Option<(u32, u32, Seq<u8>)>;

/// `image::load_from_memory_with_format` for PNG, with `to_rgb8`: decodes an image
/// to red, green and blue. What it decodes is named [`rgb_image`].
#[verifier::external_body]
pub(crate) fn decode_rgb(png: &[u8]) -> (r: Option<(u32, u32, Vec<u8>)>)
    ensures
        match r {
            Some((w, h, pixels)) => rgb_image(png@) == Some((w, h, pixels@)),
            None => rgb_image(png@) is None,
        },
{
    let image = image::load_from_memory_with_format(png, ImageFormat::Png).ok()?;
    let (w, h) = image.dimensions();
    Some((w, h, image.to_rgb8().into_raw()))
}

} // verus!

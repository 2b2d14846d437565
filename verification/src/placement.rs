//! Where the pages of an assembled document stand, and what the assembly leaves as
//! it was.

use crate::annotate;
use crate::annotate::{AnnotateError, Assembly, PageSize};
use crate::digest_doc::MetaView;
use crate::extract::MarkView;
use crate::pdf;
use crate::pdf::{PageWalk, PdfState, PdfValue};
use crate::text;
use lopdf::Object;
use vstd::prelude::*;
use vstd::utf8::*;

verus! {

// ---------------------------------------------------------------------------
// References and numbers
// ---------------------------------------------------------------------------
/// No object has a number above the highest one given out.
pub open spec fn bounded(s: PdfState) -> bool {
    forall|id: (u32, u16)| #[trigger] s.objects.contains_key(id) ==> id.0 <= s.max_id
}

/// The objects of `a` are in `b`: the references the same, the dictionaries still
/// dictionaries, and nothing else a reference.
pub open spec fn leads_alike(
    a: Map<(u32, u16), PdfValue>,
    b: Map<(u32, u16), PdfValue>,
) -> bool {
    forall|id: (u32, u16)| #[trigger]
        a.contains_key(id) ==> b.contains_key(id) && (a[id] is Reference ==> b[id] == a[id]) && (!(
        a[id] is Reference) ==> !(b[id] is Reference)) && (a[id] is Dict ==> b[id] is Dict)
}

/// What holds of the list of pages of every document holds of this one's.
pub open spec fn lists_pages(s: PdfState) -> bool {
    pdf::page_list(s.objects, s.trailer, pdf::page_ids(s.objects, s.trailer))
}

/// The digest's objects and trailer, numbered behind the book's objects.
pub open spec fn digest_behind(book: PdfState, digest: PdfState) -> (
    Map<(u32, u16), PdfValue>,
    Map<Seq<u8>, PdfValue>,
) {
    pdf::renumbered(digest.objects, digest.trailer, (book.max_id + 1) as u32)
}

/// The numbers of the digest's pages behind the book's objects.
pub open spec fn digest_pages(book: PdfState, digest: PdfState) -> Seq<(u32, u16)> {
    let (theirs, theirs_trailer) = digest_behind(book, digest);
    pdf::page_ids(theirs, theirs_trailer)
}

/// What holds of the digest's numbers behind the book's objects: none is among theirs,
/// and the pages of a digest in order stay as they are.
pub open spec fn numbered_behind(book: PdfState, digest: PdfState) -> bool {
    let (theirs, theirs_trailer) = digest_behind(book, digest);
    &&& pdf::page_list(theirs, theirs_trailer, digest_pages(book, digest))
    &&& forall|id: (u32, u16)| #[trigger] theirs.contains_key(id) ==> id.0 > book.max_id
    &&& lists_pages(book)
    &&& lists_pages(digest)
    &&& pdf::orderly(digest.objects, digest.trailer) ==> pdf::same_pages(
        digest.objects,
        digest.trailer,
        theirs,
        theirs_trailer,
    )
}

/// The digest's pages behind the book's objects are its pages, in their order and but for
/// references with the same entries. The digest is in order.
pub proof fn digest_keeps_its_pages(book: PdfState, digest: PdfState)
    requires
        numbered_behind(book, digest),
        pdf::orderly(digest.objects, digest.trailer),
    ensures
        ({
            let (theirs, theirs_trailer) = digest_behind(book, digest);
            let pages = pdf::page_ids(digest.objects, digest.trailer);
            let now = digest_pages(book, digest);
            &&& now.len() == pages.len()
            &&& forall|i: int|
                0 <= i < pages.len() ==> pdf::is_page(theirs, #[trigger] now[i])
                    && pdf::same_but_references(
                    pdf::dict_at(digest.objects, pages[i])->0,
                    pdf::dict_at(theirs, now[i])->0,
                )
        }),
{
}

/// A number that leads to an object still leads to it.
pub proof fn still_leads(
    a: Map<(u32, u16), PdfValue>,
    b: Map<(u32, u16), PdfValue>,
    id: (u32, u16),
    limit: nat,
)
    requires
        leads_alike(a, b),
    ensures
        pdf::resolve(a, id, limit) matches Some(k) ==> pdf::resolve(b, id, limit) == Some(k),
    decreases limit,
{
    if a.contains_key(id) {
        match a[id] {
            PdfValue::Reference(next) => if limit > 0 {
                still_leads(a, b, next, (limit - 1) as nat);
            },
            _ => {},
        }
    }
}

/// A number that leads to a dictionary still leads to it.
pub proof fn still_dict(
    a: Map<(u32, u16), PdfValue>,
    b: Map<(u32, u16), PdfValue>,
    id: (u32, u16),
)
    requires
        leads_alike(a, b),
    ensures
        pdf::dict_place(a, id) matches Some(k) ==> pdf::dict_place(b, id) == Some(k) && a.contains_key(k),
{
    still_leads(a, b, id, 128);
    pdf::place_is_held(a, id, 128);
}

// ---------------------------------------------------------------------------
// Inserted pages
// ---------------------------------------------------------------------------
/// The pages behind which the inserted ones go.
pub open spec fn afters(marks: Seq<MarkView>) -> Seq<nat>
    decreases marks.len(),
{
    if marks.len() == 0 {
        Seq::empty()
    } else {
        let before = afters(marks.drop_last());
        match marks.last() {
            MarkView::InsertedPage { after_page, .. } => before.push(after_page),
            _ => before,
        }
    }
}

/// The page number, or `n` where it is no smaller.
pub open spec fn least(a: nat, n: nat) -> nat {
    if a < n {
        a
    } else {
        n
    }
}

/// How many of the numbers are below `j`.
pub open spec fn below(after: Seq<nat>, j: int) -> nat
    decreases after.len(),
{
    if after.len() == 0 {
        0
    } else {
        below(after.drop_last(), j) + if after.last() < j {
            1nat
        } else {
            0nat
        }
    }
}

/// How many of the numbers are `c`, those from `n` on being taken for `n`.
pub open spec fn level(after: Seq<nat>, n: nat, c: nat) -> nat
    decreases after.len(),
{
    if after.len() == 0 {
        0
    } else {
        level(after.drop_last(), n, c) + if least(after.last(), n) == c {
            1nat
        } else {
            0nat
        }
    }
}

/// Where the page at `a` of `n` stands, or the end, once pages were inserted behind those
/// in `after`: it is moved on by those behind it and those before it.
pub open spec fn moved_on(after: Seq<nat>, n: nat, a: nat) -> nat {
    let c = least(a, n);
    c + below(after, c as int) + level(after, n, c)
}

/// The pages with those inserted that go behind the pages in `after`. The new ones have
/// every third number from `first` on.
pub open spec fn woven(ids: Seq<(u32, u16)>, after: Seq<nat>, first: int) -> Seq<(u32, u16)>
    decreases after.len(),
{
    if after.len() == 0 {
        ids
    } else {
        let rest = after.drop_last();
        annotate::page_behind(
            woven(ids, rest, first),
            moved_on(rest, ids.len(), after.last()),
            page_number(first, rest.len() as int),
        )
    }
}

/// The number of the inserted page at the place `i`.
pub open spec fn page_number(first: int, i: int) -> (u32, u16) {
    ((first + 3 * i) as u32, 0)
}

/// Where the inserted page at the place `i` stands: behind its page or at the end, behind
/// those inserted behind earlier pages, and behind those inserted behind its page before
/// it.
pub open spec fn inserted_place(after: Seq<nat>, n: nat, i: int) -> int {
    let c = least(after[i], n);
    (least(c + 1, n) + below(after, c as int) + level(after.take(i), n, c)) as int
}

/// Numbers below a page are below every later one, and so are those level with it.
pub(crate) proof fn counts_grow(after: Seq<nat>, n: nat, c: nat, j: int)
    requires
        c <= n,
    ensures
        below(after, c as int) + level(after, n, c) <= after.len(),
        c == n ==> below(after, c as int) + level(after, n, c) == after.len(),
        c < j <= n ==> below(after, c as int) + level(after, n, c) <= below(after, j),
    decreases after.len(),
{
    if after.len() > 0 {
        counts_grow(after.drop_last(), n, c, j);
    }
}

/// Numbers below a page are below every later one.
pub(crate) proof fn below_grows(after: Seq<nat>, i: int, j: int)
    requires
        i <= j,
    ensures
        below(after, i) <= below(after, j) <= after.len(),
    decreases after.len(),
{
    if after.len() > 0 {
        below_grows(after.drop_last(), i, j);
    }
}

/// A number is level with itself.
pub(crate) proof fn level_grows(after: Seq<nat>, n: nat, i: int)
    requires
        0 <= i < after.len(),
    ensures
        level(after.take(i), n, least(after[i], n)) < level(after, n, least(after[i], n)),
    decreases after.len(),
{
    if i == after.len() - 1 {
        assert(after.take(i) =~= after.drop_last());
    } else {
        level_grows(after.drop_last(), n, i);
        assert(after.drop_last().take(i) =~= after.take(i));
    }
}

/// The next page goes where it stands in the end.
proof fn next_place(ids: Seq<(u32, u16)>, after: Seq<nat>, first: int)
    requires
        after.len() > 0,
        woven(ids, after.drop_last(), first).len() == ids.len() + after.len() - 1,
    ensures
        ({
            let i = after.len() - 1;
            let at = inserted_place(after, ids.len(), i);
            &&& 0 <= at <= ids.len() + i
            &&& woven(ids, after, first) == woven(ids, after.drop_last(), first).insert(
                at,
                page_number(first, i),
            )
        }),
{
    let n = ids.len();
    let rest = after.drop_last();
    let c = least(after.last(), n);
    counts_grow(rest, n, c, 0);
    assert(after.take(after.len() - 1) =~= rest);
}

/// Every page stands where it belongs once pages were inserted, whatever their order: a
/// page has moved on by the number of those inserted behind earlier pages, and each of
/// the inserted ones stands behind its page and those inserted behind that before it. One
/// that goes behind no page stands at the end, behind those inserted there before it.
#[verifier::spinoff_prover]
pub proof fn woven_in_place(ids: Seq<(u32, u16)>, after: Seq<nat>, first: int)
    ensures
        woven(ids, after, first).len() == ids.len() + after.len(),
        forall|j: int|
            0 <= j < ids.len() ==> woven(ids, after, first)[j + below(after, j)]
                == #[trigger] ids[j],
        forall|j: int| 0 <= j < ids.len() ==> #[trigger] below(after, j) <= after.len(),
        forall|i: int|
            0 <= i < after.len() ==> 0 <= #[trigger] inserted_place(after, ids.len(), i)
                < ids.len() + after.len() && woven(ids, after, first)[inserted_place(
                after,
                ids.len(),
                i,
            )] == page_number(first, i),
    decreases after.len(),
{
    let n = ids.len();
    if after.len() > 0 {
        let rest = after.drop_last();
        let m = after.len() - 1;
        woven_in_place(ids, rest, first);
        next_place(ids, after, first);
        let w = woven(ids, rest, first);
        let all = woven(ids, after, first);
        let at = inserted_place(after, n, m);
        let c = least(after.last(), n);
        assert(after.take(m) =~= rest);
        assert(at == least(c + 1, n) + below(rest, c as int) + level(rest, n, c));
        assert(all == w.insert(at, page_number(first, m)));
        assert forall|j: int| 0 <= j < n implies all[j + below(after, j)] == #[trigger] ids[j] by {
            below_grows(rest, j, j);
            assert(w[j + below(rest, j)] == ids[j]);
            if after.last() < j {
                counts_grow(rest, n, c, j);
                assert(j + below(rest, j) >= at);
            } else {
                below_grows(rest, j, c as int);
                assert(j + below(rest, j) < at);
            }
        }
        assert forall|j: int| 0 <= j < n implies #[trigger] below(after, j) <= after.len() by {
            below_grows(after, j, j);
        }
        assert forall|i: int| 0 <= i < after.len() implies 0 <= #[trigger] inserted_place(
            after,
            n,
            i,
        ) < n + after.len() && all[inserted_place(after, n, i)] == page_number(first, i) by {
            if i < m {
                let d = least(after[i], n);
                let was = inserted_place(rest, n, i);
                assert(rest[i] == after[i]);
                assert(rest.take(i) =~= after.take(i));
                assert(w[was] == page_number(first, i));
                level_grows(rest, n, i);
                if after.last() < d {
                    counts_grow(rest, n, c, d as int);
                    assert(was >= at);
                } else {
                    if d < c {
                        counts_grow(rest, n, d, c as int);
                    }
                    assert(was < at);
                }
            }
        }
    }
}

/// What is woven are the pages that were there and the inserted ones.
proof fn woven_of_pages(ids: Seq<(u32, u16)>, after: Seq<nat>, first: int)
    ensures
        woven(ids, after, first).len() == ids.len() + after.len(),
        forall|j: int|
            0 <= j < ids.len() + after.len() ==> ({
                let id = #[trigger] woven(ids, after, first)[j];
                ids.contains(id) || exists|i: int|
                    0 <= i < after.len() && id == #[trigger] page_number(first, i)
            }),
    decreases after.len(),
{
    let all = woven(ids, after, first);
    if after.len() > 0 {
        let rest = after.drop_last();
        let m = rest.len() as int;
        let w = woven(ids, rest, first);
        woven_of_pages(ids, rest, first);
        next_place(ids, after, first);
        let at = inserted_place(after, ids.len(), m);
        assert forall|j: int| 0 <= j < ids.len() + after.len() implies ({
            let id = #[trigger] all[j];
            ids.contains(id) || exists|i: int|
                0 <= i < after.len() && id == #[trigger] page_number(first, i)
        }) by {
            if j < at {
                assert(all[j] == w[j]);
            } else if j > at {
                assert(all[j] == w[j - 1]);
            } else {
                assert(all[j] == page_number(first, m));
            }
        }
    } else {
        assert forall|j: int| 0 <= j < ids.len() implies ids.contains(#[trigger] all[j]) by {
            assert(all[j] == ids[j]);
        }
    }
}

/// Two keys that start with different characters are different.
proof fn keys_are_distinct(a: Seq<char>, b: Seq<char>)
    requires
        a.len() > 0 && b.len() > 0 && a[0] != b[0],
    ensures
        encode_utf8(a) != encode_utf8(b),
{
    pdf::keys_differ(a, b);
}

/// What inserting pages keeps: the numbers lead where they led and the types stay, the
/// page tree has its root, and three objects have come for each page.
pub open spec fn grown(s: PdfState, t: PdfState, n: nat) -> bool {
    &&& bounded(t)
    &&& t.max_id == s.max_id + 3 * n
    &&& typed_alike(s.objects, t.objects)
    &&& t.trailer == s.trailer
    &&& s.objects.dom().finite() ==> t.objects.dom().finite() && t.objects.dom().len()
        == s.objects.dom().len() + 3 * n
}

/// The dictionary at `k` lists the pages as its kids.
pub open spec fn lists_kids(
    objects: Map<(u32, u16), PdfValue>,
    k: (u32, u16),
    pages: Seq<(u32, u16)>,
) -> bool {
    &&& objects.contains_key(k)
    &&& objects[k] is Dict
    &&& objects[k]->Dict_0.contains_key(pdf::key("Kids"))
    &&& objects[k]->Dict_0[pdf::key("Kids")] == PdfValue::Array(pdf::references(pages))
}

/// The root of the page tree lists the pages itself.
pub open spec fn hangs(s: PdfState, root: (u32, u16), pages: Seq<(u32, u16)>) -> bool {
    &&& pdf::pages_root(s.objects, s.trailer) == Some(root)
    &&& pdf::dict_place(s.objects, root) is Some
    &&& lists_kids(s.objects, pdf::dict_place(s.objects, root)->0, pages)
    &&& forall|i: int| 0 <= i < pages.len() ==> pdf::is_page(s.objects, #[trigger] pages[i])
}

/// One page put behind another is a page, the root lists it, and the rest is kept.
proof fn one_placed(
    s: PdfState,
    pages: Seq<(u32, u16)>,
    after: nat,
    png: Seq<u8>,
    sides: (PdfValue, PdfValue),
    pages_id: (u32, u16),
    k: (u32, u16),
)
    requires
        bounded(s),
        s.max_id + 3 <= u32::MAX,
        pdf::dict_place(s.objects, pages_id) == Some(k),
        annotate::page_placed(s, pages, after, png, sides, pages_id).0 is Ok,
    ensures
        ({
            let (r, t) = annotate::page_placed(s, pages, after, png, sides, pages_id);
            let id = ((s.max_id + 3) as u32, 0u16);
            &&& r == Ok::<_, AnnotateError>(id)
            &&& grown(s, t, 1)
            &&& pdf::dict_place(t.objects, pages_id) == Some(k)
            &&& pdf::is_page(t.objects, id)
            &&& lists_kids(t.objects, k, annotate::page_behind(pages, after, id))
        }),
{
    let (w, h, pixels) = pdf::rgb_image(png)->0;
    let s1 = pdf::added(s, annotate::packed_stream(annotate::image_entries(w, h, "DeviceRGB"), pixels));
    let image = annotate::image_name("RmImg", pdf::next_id(s).0);
    let s2 = pdf::added(s1, annotate::plain_stream(pdf::encoded(annotate::drawing(sides, image))));
    let page = annotate::page_entries(pages_id, sides, pdf::next_id(s1), image, pdf::next_id(s));
    let s3 = pdf::added(s2, PdfValue::Dict(page));
    let t = annotate::page_placed(s, pages, after, png, sides, pages_id).1;
    let id = pdf::next_id(s2);
    pdf::place_is_held(s.objects, pages_id, 128);
    assert(leads_alike(s.objects, s3.objects));
    still_dict(s.objects, s3.objects, pages_id);
    assert(s3.objects[k] == s.objects[k]);
    set_keys_differ();
    assert(typed_alike(s.objects, s3.objects));
    assert(typed_alike(s3.objects, t.objects));
    assert(typed_alike(s.objects, t.objects));
    still_dict(s3.objects, t.objects, pages_id);
    page_has_its_type(pages_id, sides, pdf::next_id(s1), image, pdf::next_id(s));
    assert(s3.objects[id] == PdfValue::Dict(page));
    assert(pdf::resolve(s3.objects, id, 128) == Some(id));
    assert(pdf::is_page(s3.objects, id));
    still_page(s3.objects, t.objects, id);
    assert(!s.objects.contains_key(pdf::next_id(s)));
    assert(!s1.objects.contains_key(pdf::next_id(s1)));
    assert(!s2.objects.contains_key(id));
    assert(s1.objects.dom() =~= s.objects.dom().insert(pdf::next_id(s)));
    assert(s2.objects.dom() =~= s1.objects.dom().insert(pdf::next_id(s1)));
    assert(s3.objects.dom() =~= s2.objects.dom().insert(id));
    assert(t.objects.dom() =~= s3.objects.dom());
}

/// Splicing weaves the inserted pages into the pages, whatever the order of the marks. In
/// a document whose numbers are bounded, the root of the page tree lists the woven pages
/// then, each inserted one is a page, and the rest is kept. [`woven_in_place`] says where
/// each page stands.
pub proof fn splicing_weaves(
    s: PdfState,
    pages: Seq<(u32, u16)>,
    marks: Seq<MarkView>,
    sides: (PdfValue, PdfValue),
    pages_id: (u32, u16),
    k: (u32, u16),
)
    requires
        bounded(s),
        pdf::dict_place(s.objects, pages_id) == Some(k),
        s.max_id + 3 * annotate::inserted_pages(marks) <= u32::MAX,
        annotate::spliced(s, pages, marks, sides, pages_id).0 is Ok,
    ensures
        ({
            let (r, t) = annotate::spliced(s, pages, marks, sides, pages_id);
            let n = annotate::inserted_pages(marks);
            &&& afters(marks).len() == n
            &&& r == Ok::<_, AnnotateError>(woven(pages, afters(marks), s.max_id + 3))
            &&& grown(s, t, n)
            &&& pdf::dict_place(t.objects, pages_id) == Some(k)
            &&& n == 0 ==> t == s
            &&& n > 0 ==> lists_kids(t.objects, k, r->Ok_0)
            &&& forall|i: int|
                0 <= i < n ==> pdf::is_page(t.objects, #[trigger] page_number(s.max_id + 3, i))
        }),
    decreases marks.len(),
{
    reveal_with_fuel(annotate::spliced, 2);
    if marks.len() > 0 {
        let rest = marks.drop_last();
        splicing_weaves(s, pages, rest, sides, pages_id, k);
        match marks.last() {
            MarkView::InsertedPage { after_page, png } => {
                let n = annotate::inserted_pages(rest);
                let (now, m) = annotate::spliced(s, pages, rest, sides, pages_id);
                let t = annotate::spliced(s, pages, marks, sides, pages_id).1;
                let after = moved_on(afters(rest), pages.len(), after_page);
                one_placed(m, now->Ok_0, after, png, sides, pages_id, k);
                assert(afters(marks).drop_last() =~= afters(rest));
                assert(typed_alike(s.objects, t.objects));
                assert forall|i: int| 0 <= i < n + 1 implies pdf::is_page(
                    t.objects,
                    #[trigger] page_number(s.max_id + 3, i),
                ) by {
                    if i < n {
                        still_page(m.objects, t.objects, page_number(s.max_id + 3, i));
                    }
                }
            },
            _ => {},
        }
    }
}

// ---------------------------------------------------------------------------
// Walks through page trees
// ---------------------------------------------------------------------------
/// A list of pages alone is walked through as it stands.
proof fn pages_are_walked(objects: Map<(u32, u16), PdfValue>, ids: Seq<(u32, u16)>, depth: nat)
    requires
        forall|i: int| 0 <= i < ids.len() ==> pdf::is_page(objects, #[trigger] ids[i]),
    ensures
        pdf::walk(objects, pdf::references(ids), depth) == (PageWalk {
            pages: ids,
            visits: ids.len(),
            cut: false,
        }),
    decreases ids.len(),
{
    let kids = pdf::references(ids);
    if ids.len() > 0 {
        pages_are_walked(objects, ids.drop_last(), depth);
        assert(kids.drop_last() =~= pdf::references(ids.drop_last()));
        assert(kids.last() == PdfValue::Reference(ids.last()));
        assert(pdf::is_page(objects, ids[ids.len() - 1]));
        assert(pdf::walk_kid(objects, kids.last(), depth) == (PageWalk {
            pages: seq![ids.last()],
            visits: 1,
            cut: false,
        }));
        assert(ids.drop_last() + seq![ids.last()] =~= ids);
    } else {
        assert(kids =~= seq![]);
        assert(ids =~= seq![]);
    }
}

/// A document whose root lists nothing but pages has those for its pages.
proof fn listed_as_they_stand(s: PdfState, root: (u32, u16), ids: Seq<(u32, u16)>)
    requires
        hangs(s, root, ids),
        lists_pages(s),
        ids.len() <= s.objects.dom().len(),
    ensures
        pdf::page_ids(s.objects, s.trailer) == ids,
{
    pages_are_walked(s.objects, ids, 256);
    assert(pdf::root_kids(s.objects, s.trailer) == pdf::references(ids));
}

/// The entries by which a page tree is walked through are the same.
pub open spec fn same_node(a: Map<Seq<u8>, PdfValue>, b: Map<Seq<u8>, PdfValue>) -> bool {
    &&& same_type(a, b)
    &&& a.contains_key(pdf::key("Kids")) == b.contains_key(pdf::key("Kids"))
    &&& a.contains_key(pdf::key("Kids")) ==> a[pdf::key("Kids")] == b[pdf::key("Kids")]
}

/// The objects of `a` are in `b` with the same entries for walks, and what else is in `b`
/// are streams.
pub open spec fn walked_alike(
    a: Map<(u32, u16), PdfValue>,
    b: Map<(u32, u16), PdfValue>,
) -> bool {
    &&& forall|id: (u32, u16)| #[trigger]
        a.contains_key(id) ==> b.contains_key(id) && (a[id] == b[id] || (a[id] is Dict
            && b[id] is Dict && same_node(a[id]->Dict_0, b[id]->Dict_0)))
    &&& forall|id: (u32, u16)| #[trigger]
        b.contains_key(id) && !a.contains_key(id) ==> b[id] is Data
}

/// A number leads to the same object, or to a stream where it led nowhere.
proof fn leads_the_same(
    a: Map<(u32, u16), PdfValue>,
    b: Map<(u32, u16), PdfValue>,
    id: (u32, u16),
    limit: nat,
)
    requires
        walked_alike(a, b),
    ensures
        match pdf::resolve(a, id, limit) {
            Some(k) => pdf::resolve(b, id, limit) == Some(k) && a.contains_key(k),
            None => match pdf::resolve(b, id, limit) {
                Some(k) => b[k] is Data,
                None => true,
            },
        },
    decreases limit,
{
    if a.contains_key(id) {
        match a[id] {
            PdfValue::Reference(next) => if limit > 0 {
                leads_the_same(a, b, next, (limit - 1) as nat);
            },
            _ => {},
        }
    } else if b.contains_key(id) {
        assert(b[id] is Data);
    }
}

/// A number leads to a dictionary with the same entries for walks, or to none in both.
proof fn same_nodes(
    a: Map<(u32, u16), PdfValue>,
    b: Map<(u32, u16), PdfValue>,
    id: (u32, u16),
)
    requires
        walked_alike(a, b),
    ensures
        match pdf::dict_at(a, id) {
            Some(d) => pdf::dict_at(b, id) is Some && same_node(d, pdf::dict_at(b, id)->0)
                && pdf::kids_of(a, d) == pdf::kids_of(b, pdf::dict_at(b, id)->0),
            None => pdf::dict_at(b, id) is None,
        },
{
    leads_the_same(a, b, id, 128);
    if let Some(d) = pdf::dict_at(a, id) {
        if d.contains_key(pdf::key("Kids")) {
            if let PdfValue::Reference(at) = d[pdf::key("Kids")] {
                leads_the_same(a, b, at, 127);
            }
        }
    }
}

/// Walks through the two come to the same.
proof fn same_walks(
    a: Map<(u32, u16), PdfValue>,
    b: Map<(u32, u16), PdfValue>,
    kids: Seq<PdfValue>,
    depth: nat,
)
    requires
        walked_alike(a, b),
    ensures
        pdf::walk(a, kids, depth) == pdf::walk(b, kids, depth),
    decreases depth, kids.len(),
{
    if kids.len() > 0 {
        same_walks(a, b, kids.drop_last(), depth);
        if let PdfValue::Reference(id) = kids.last() {
            same_nodes(a, b, id);
            if let Some(d) = pdf::dict_at(a, id) {
                if depth > 0 {
                    same_walks(a, b, pdf::kids_of(a, d), (depth - 1) as nat);
                }
            }
        }
        assert(pdf::walk_kid(a, kids.last(), depth) == pdf::walk_kid(b, kids.last(), depth));
    }
}

/// The page trees of the two are walked through alike.
proof fn same_trees(s: PdfState, t: PdfState)
    requires
        walked_alike(s.objects, t.objects),
        t.trailer == s.trailer,
    ensures
        pdf::pages_root(t.objects, t.trailer) == pdf::pages_root(s.objects, s.trailer),
        pdf::tree_walk(t.objects, t.trailer) == pdf::tree_walk(s.objects, s.trailer),
{
    if let Some(catalog_id) = pdf::reference_at(s.trailer, pdf::key("Root")) {
        same_nodes(s.objects, t.objects, catalog_id);
    }
    if let Some(root_id) = pdf::pages_root(s.objects, s.trailer) {
        same_nodes(s.objects, t.objects, root_id);
    }
    same_walks(s.objects, t.objects, pdf::root_kids(s.objects, s.trailer), 256);
}

// ---------------------------------------------------------------------------
// The digest in front
// ---------------------------------------------------------------------------
/// Where a page was, there still is one.
proof fn still_page(a: Map<(u32, u16), PdfValue>, b: Map<(u32, u16), PdfValue>, id: (u32, u16))
    requires
        leads_alike(a, b),
        pdf::is_page(a, id),
        forall|k: (u32, u16)| #[trigger]
            a.contains_key(k) && a[k] is Dict ==> same_type(a[k]->Dict_0, b[k]->Dict_0),
    ensures
        pdf::is_page(b, id),
{
    still_dict(a, b, id);
}

/// The entries under `Type` and `Pages` are the same.
pub open spec fn same_type(a: Map<Seq<u8>, PdfValue>, b: Map<Seq<u8>, PdfValue>) -> bool {
    &&& a.contains_key(pdf::key("Type")) == b.contains_key(pdf::key("Type"))
    &&& a.contains_key(pdf::key("Type")) ==> a[pdf::key("Type")] == b[pdf::key("Type")]
    &&& a.contains_key(pdf::key("Pages")) == b.contains_key(pdf::key("Pages"))
    &&& a.contains_key(pdf::key("Pages")) ==> a[pdf::key("Pages")] == b[pdf::key("Pages")]
}

/// The objects of `a` are in `b`, and their dictionaries still have their types.
pub open spec fn typed_alike(
    a: Map<(u32, u16), PdfValue>,
    b: Map<(u32, u16), PdfValue>,
) -> bool {
    &&& leads_alike(a, b)
    &&& forall|k: (u32, u16)| #[trigger]
        a.contains_key(k) && a[k] is Dict ==> same_type(a[k]->Dict_0, b[k]->Dict_0)
}

/// The keys that the assembly sets are neither `Type` nor `Pages`.
proof fn set_keys_differ()
    ensures
        pdf::key("Parent") != pdf::key("Type"),
        pdf::key("Parent") != pdf::key("Pages"),
        pdf::key("Kids") != pdf::key("Type"),
        pdf::key("Kids") != pdf::key("Pages"),
        pdf::key("Kids") != pdf::key("Count"),
        pdf::key("Count") != pdf::key("Type"),
        pdf::key("Count") != pdf::key("Pages"),
{
    reveal_strlit("Parent");
    reveal_strlit("Pages");
    reveal_strlit("Kids");
    reveal_strlit("Count");
    reveal_strlit("Type");
    pdf::keys_differ("Parent"@, "Pages"@);
    assert("Parent"@[2] != "Pages"@[2]);
    keys_are_distinct("Parent"@, "Type"@);
    keys_are_distinct("Kids"@, "Type"@);
    keys_are_distinct("Kids"@, "Pages"@);
    keys_are_distinct("Kids"@, "Count"@);
    keys_are_distinct("Count"@, "Type"@);
    keys_are_distinct("Count"@, "Pages"@);
}

/// Another parent changes neither where numbers lead nor a type.
pub(crate) proof fn reparented_alike(
    objects: Map<(u32, u16), PdfValue>,
    ids: Seq<(u32, u16)>,
    parent: (u32, u16),
)
    ensures
        typed_alike(objects, annotate::reparented(objects, ids, parent)),
        annotate::reparented(objects, ids, parent).dom() == objects.dom(),
    decreases ids.len(),
{
    set_keys_differ();
    if ids.len() > 0 {
        reparented_alike(objects, ids.drop_last(), parent);
        let before = annotate::reparented(objects, ids.drop_last(), parent);
        pdf::place_is_held(before, ids.last(), 128);
        assert(annotate::reparented(objects, ids, parent).dom() =~= objects.dom());
    }
}

/// In the merged document the digest's pages come first, in their order, and then
/// the book's in theirs.
pub proof fn digest_stands_first(book: PdfState, digest: PdfState, both: PdfState)
    requires
        annotate::merged(book, digest) == Ok::<PdfState, AnnotateError>(both),
        bounded(book),
        numbered_behind(book, digest),
        lists_pages(both),
    ensures
        pdf::page_ids(both.objects, both.trailer) == digest_pages(book, digest) + pdf::page_ids(
            book.objects,
            book.trailer,
        ),
        hangs(
            both,
            annotate::root_found(book.objects, book.trailer)->Ok_0,
            pdf::page_ids(both.objects, both.trailer),
        ),
        pdf::page_ids(both.objects, both.trailer).len() <= both.objects.dom().len(),
{
    reveal(annotate::merged);
    set_keys_differ();
    let (theirs, theirs_trailer) = pdf::renumbered(
        digest.objects,
        digest.trailer,
        (book.max_id + 1) as u32,
    );
    let front = pdf::page_ids(theirs, theirs_trailer);
    let back = pdf::page_ids(book.objects, book.trailer);
    let ids = front + back;
    let root = annotate::root_found(book.objects, book.trailer)->Ok_0;
    let union = book.objects.union_prefer_right(theirs);
    let hung = annotate::reparented(union, front, root);
    let k = pdf::dict_place(hung, root)->0;
    reparented_alike(union, front, root);
    pdf::place_is_held(hung, root, 128);
    assert(pdf::references(front) + pdf::references(back) =~= pdf::references(ids));
    assert(typed_alike(hung, both.objects));
    assert(typed_alike(book.objects, union));
    assert(typed_alike(theirs, union));
    assert(typed_alike(union, both.objects));
    assert(typed_alike(book.objects, both.objects));
    assert(typed_alike(theirs, both.objects));
    assert(both.objects.dom() =~= union.dom());
    let catalog_id = pdf::reference_at(book.trailer, pdf::key("Root"))->0;
    still_dict(book.objects, both.objects, catalog_id);
    still_dict(hung, both.objects, root);
    assert forall|i: int| 0 <= i < ids.len() implies pdf::is_page(both.objects, #[trigger] ids[i]) by {
        if i < front.len() {
            assert(ids[i] == front[i]);
            still_page(theirs, both.objects, front[i]);
        } else {
            assert(ids[i] == back[i - front.len()]);
            still_page(book.objects, both.objects, back[i - front.len()]);
        }
    }
    assert(union.dom() =~= book.objects.dom().union(theirs.dom()));
    assert(book.objects.dom().disjoint(theirs.dom()));
    vstd::set_lib::lemma_set_disjoint_lens(book.objects.dom(), theirs.dom());
    assert(ids.len() <= both.objects.dom().len());
    listed_as_they_stand(both, root, ids);
}

/// The dictionary of an inserted page says that it is a page.
proof fn page_has_its_type(
    pages_id: (u32, u16),
    sides: (PdfValue, PdfValue),
    content_id: (u32, u16),
    image: Seq<u8>,
    image_id: (u32, u16),
)
    ensures
        ({
            let page = annotate::page_entries(pages_id, sides, content_id, image, image_id);
            page.contains_key(pdf::key("Type")) && page[pdf::key("Type")] == pdf::name("Page")
        }),
{
    reveal_strlit("Type");
    reveal_strlit("Parent");
    reveal_strlit("MediaBox");
    reveal_strlit("Contents");
    reveal_strlit("Resources");
    keys_are_distinct("Type"@, "Parent"@);
    keys_are_distinct("Type"@, "MediaBox"@);
    keys_are_distinct("Type"@, "Contents"@);
    keys_are_distinct("Type"@, "Resources"@);
}

/// The pages of a document stand where they belong once pages were inserted: they are the
/// woven ones. This holds of every page tree that has its root; the numbers are bounded.
pub proof fn spliced_pages_are_listed(
    s: PdfState,
    marks: Seq<MarkView>,
    sides: (PdfValue, PdfValue),
    pages_id: (u32, u16),
)
    requires
        bounded(s),
        lists_pages(s),
        pdf::pages_root(s.objects, s.trailer) == Some(pages_id),
        pdf::dict_place(s.objects, pages_id) is Some,
        s.max_id + 3 * annotate::inserted_pages(marks) <= u32::MAX,
        ({
            let pages = pdf::page_ids(s.objects, s.trailer);
            let (r, t) = annotate::spliced(s, pages, marks, sides, pages_id);
            r is Ok && lists_pages(t)
        }),
    ensures
        ({
            let pages = pdf::page_ids(s.objects, s.trailer);
            let t = annotate::spliced(s, pages, marks, sides, pages_id).1;
            pdf::page_ids(t.objects, t.trailer) == woven(pages, afters(marks), s.max_id + 3)
        }),
{
    let ids = pdf::page_ids(s.objects, s.trailer);
    let t = annotate::spliced(s, ids, marks, sides, pages_id).1;
    let after = afters(marks);
    let first = s.max_id + 3;
    let k = pdf::dict_place(s.objects, pages_id)->0;
    splicing_weaves(s, ids, marks, sides, pages_id, k);
    if after.len() > 0 {
        let pages = woven(ids, after, first);
        woven_of_pages(ids, after, first);
        let catalog_id = pdf::reference_at(s.trailer, pdf::key("Root"))->0;
        pdf::place_is_held(s.objects, catalog_id, 128);
        still_dict(s.objects, t.objects, catalog_id);
        assert(pdf::pages_root(t.objects, t.trailer) == Some(pages_id));
        assert forall|j: int| 0 <= j < pages.len() implies pdf::is_page(
            t.objects,
            #[trigger] pages[j],
        ) by {
            if ids.contains(pages[j]) {
                let i = choose|i: int| 0 <= i < ids.len() && ids[i] == pages[j];
                assert(pdf::is_page(s.objects, ids[i]));
                still_page(s.objects, t.objects, ids[i]);
            }
        }
        listed_as_they_stand(t, pages_id, pages);
    }
}

/// A page that is inserted stands behind its page in the order of the pages, or at the
/// end. This holds of every page tree that has its root; the numbers are bounded.
pub proof fn inserted_page_is_listed(
    s: PdfState,
    after: nat,
    png: Seq<u8>,
    sides: (PdfValue, PdfValue),
    pages_id: (u32, u16),
)
    requires
        bounded(s),
        lists_pages(s),
        pdf::pages_root(s.objects, s.trailer) == Some(pages_id),
        pdf::dict_place(s.objects, pages_id) is Some,
        s.max_id + 3 <= u32::MAX,
        ({
            let (r, t) = annotate::page_inserted(s, after, png, sides, pages_id);
            r is Ok && lists_pages(t)
        }),
    ensures
        ({
            let (r, t) = annotate::page_inserted(s, after, png, sides, pages_id);
            pdf::page_ids(t.objects, t.trailer) == annotate::page_behind(
                pdf::page_ids(s.objects, s.trailer),
                after,
                r->Ok_0,
            )
        }),
{
    let ids = pdf::page_ids(s.objects, s.trailer);
    let (r, t) = annotate::page_inserted(s, after, png, sides, pages_id);
    let k = pdf::dict_place(s.objects, pages_id)->0;
    one_placed(s, ids, after, png, sides, pages_id, k);
    let pages = annotate::page_behind(ids, after, r->Ok_0);
    let catalog_id = pdf::reference_at(s.trailer, pdf::key("Root"))->0;
    pdf::place_is_held(s.objects, catalog_id, 128);
    still_dict(s.objects, t.objects, catalog_id);
    assert forall|j: int| 0 <= j < pages.len() implies pdf::is_page(
        t.objects,
        #[trigger] pages[j],
    ) by {
        if pages[j] != r->Ok_0 {
            let at = if after < ids.len() {
                after + 1
            } else {
                ids.len()
            };
            let i = if j < at {
                j
            } else {
                j - 1
            };
            assert(pages[j] == ids[i]);
            still_page(s.objects, t.objects, ids[i]);
        }
    }
    listed_as_they_stand(t, pages_id, pages);
}

// ---------------------------------------------------------------------------
// Links
// ---------------------------------------------------------------------------
/// The pages of the highlights that are among `n` pages, in the order of the marks.
pub open spec fn linked_pages(marks: Seq<MarkView>, n: nat) -> Seq<nat>
    decreases marks.len(),
{
    if marks.len() == 0 {
        Seq::empty()
    } else {
        let before = linked_pages(marks.drop_last(), n);
        match marks.last() {
            MarkView::Highlight { page, .. } => if page < n {
                before.push(page)
            } else {
                before
            },
            _ => before,
        }
    }
}

/// The annotations of a page, whose list stands in the page or behind a reference.
pub open spec fn annotations(
    objects: Map<(u32, u16), PdfValue>,
    page: Map<Seq<u8>, PdfValue>,
) -> Seq<PdfValue> {
    match annotate::annots_place(objects, page) {
        Some(p) => objects[p]->Array_0,
        None => match pdf::array_at(page, pdf::key("Annots")) {
            Some(items) => items,
            None => seq![],
        },
    }
}

/// The number of the link at the place `i`, behind the numbers that were given out.
pub open spec fn link_number(max_id: u32, i: int) -> (u32, u16) {
    ((max_id + 1 + i) as u32, 0)
}

/// What links on the page at `k` leave as it was: every object but the page and the list
/// of its annotations, and of the page what else it holds. A list behind a reference stays
/// where it is.
pub open spec fn links_only(s: PdfState, t: PdfState, k: (u32, u16)) -> bool {
    let page = s.objects[k]->Dict_0;
    let now = t.objects[k]->Dict_0;
    let p = annotate::annots_place(s.objects, page);
    &&& t.objects.contains_key(k)
    &&& t.objects[k] is Dict
    &&& now.remove(pdf::key("Annots")) == page.remove(pdf::key("Annots"))
    &&& p is Some ==> t.objects[k] == s.objects[k]
    &&& annotate::annots_place(t.objects, now) == p
    &&& forall|id: (u32, u16)| #[trigger]
        s.objects.contains_key(id) && id != k && Some(id) != p ==> t.objects.contains_key(id)
            && t.objects[id] == s.objects[id]
    &&& leads_alike(s.objects, t.objects)
    &&& s.objects.dom().finite() ==> t.objects.dom().finite()
}

/// Where a number leads stays as it is with one more object, unless it led nowhere.
proof fn leads_or_new(
    a: Map<(u32, u16), PdfValue>,
    new: (u32, u16),
    v: PdfValue,
    id: (u32, u16),
    limit: nat,
)
    requires
        !a.contains_key(new),
        !(v is Reference),
    ensures
        match pdf::resolve(a, id, limit) {
            Some(k) => pdf::resolve(a.insert(new, v), id, limit) == Some(k),
            None => pdf::resolve(a.insert(new, v), id, limit) matches Some(k) ==> k == new,
        },
    decreases limit,
{
    if a.contains_key(id) {
        match a[id] {
            PdfValue::Reference(next) => if limit > 0 {
                leads_or_new(a, new, v, next, (limit - 1) as nat);
            },
            _ => {},
        }
    }
}

/// One link stands behind the annotations that the page has, and nothing else changes.
proof fn one_linked(
    s: PdfState,
    first: (u32, u16),
    rect: Seq<PdfValue>,
    target: (u32, u16),
    k: (u32, u16),
)
    requires
        bounded(s),
        s.max_id < u32::MAX,
        pdf::dict_place(s.objects, first) == Some(k),
    ensures
        ({
            let (r, t) = annotate::linked(s, first, rect, target);
            let id = pdf::next_id(s);
            &&& r is Ok
            &&& bounded(t)
            &&& t.max_id == s.max_id + 1
            &&& pdf::dict_place(t.objects, first) == Some(k)
            &&& links_only(s, t, k)
            &&& annotations(t.objects, t.objects[k]->Dict_0) == annotations(
                s.objects,
                s.objects[k]->Dict_0,
            ).push(PdfValue::Reference(id))
            &&& t.objects.contains_key(id)
            &&& t.objects[id] == PdfValue::Dict(annotate::link_entries(rect, target))
        }),
{
    let id = pdf::next_id(s);
    let link = PdfValue::Dict(annotate::link_entries(rect, target));
    let u = pdf::added(s, link);
    let t = annotate::linked(s, first, rect, target).1;
    let page = s.objects[k]->Dict_0;
    pdf::place_is_held(s.objects, first, 128);
    assert(!s.objects.contains_key(id));
    assert(leads_alike(s.objects, u.objects));
    still_dict(s.objects, u.objects, first);
    assert(u.objects[k] == s.objects[k]);
    if let Some(at) = pdf::reference_at(page, pdf::key("Annots")) {
        leads_or_new(s.objects, id, link, at, 128);
        pdf::place_is_held(s.objects, at, 128);
    }
    assert(annotate::annots_place(u.objects, page) == annotate::annots_place(s.objects, page));
    assert(leads_alike(u.objects, t.objects));
    assert(leads_alike(s.objects, t.objects));
    still_dict(u.objects, t.objects, first);
    let now = t.objects[k]->Dict_0;
    match annotate::annots_place(s.objects, page) {
        Some(p) => {
            let at = pdf::reference_at(page, pdf::key("Annots"))->0;
            assert(p != k);
            still_leads(u.objects, t.objects, at, 128);
            assert(annotate::annots_place(t.objects, now) == Some(p));
        },
        None => {},
    }
    assert(now.remove(pdf::key("Annots")) =~= page.remove(pdf::key("Annots")));
}

/// Each highlight on a page of the book gets a link: the page `first` has its
/// annotations as before and behind them a new one for each such highlight, and the one
/// at the place `i` leads from the band `i` to the page of the highlight. Nothing else
/// changes. The numbers are bounded and the page is there.
pub proof fn every_highlight_is_linked(
    s: PdfState,
    first: (u32, u16),
    targets: Seq<(u32, u16)>,
    marks: Seq<MarkView>,
    bands: Seq<Seq<PdfValue>>,
    k: (u32, u16),
)
    requires
        bounded(s),
        pdf::dict_place(s.objects, first) == Some(k),
        annotate::links_added(s, first, targets, marks, bands).0 is Ok,
    ensures
        ({
            let (r, t) = annotate::links_added(s, first, targets, marks, bands);
            let to = linked_pages(marks, targets.len());
            &&& r == Ok::<nat, AnnotateError>(to.len())
            &&& bounded(t)
            &&& t.max_id == s.max_id + to.len()
            &&& pdf::dict_place(t.objects, first) == Some(k)
            &&& links_only(s, t, k)
            &&& annotations(t.objects, t.objects[k]->Dict_0) == annotations(
                s.objects,
                s.objects[k]->Dict_0,
            ) + Seq::new(to.len(), |i: int| PdfValue::Reference(link_number(s.max_id, i)))
            &&& forall|i: int|
                0 <= i < to.len() ==> t.objects.contains_key(#[trigger] link_number(s.max_id, i))
                    && t.objects[link_number(s.max_id, i)] == PdfValue::Dict(
                    annotate::link_entries(bands[i], targets[to[i] as int]),
                )
        }),
    decreases marks.len(),
{
    reveal_with_fuel(annotate::links_added, 2);
    pdf::place_is_held(s.objects, first, 128);
    let had = annotations(s.objects, s.objects[k]->Dict_0);
    let to = linked_pages(marks, targets.len());
    if marks.len() == 0 {
        assert(had + Seq::new(
            0,
            |i: int| PdfValue::Reference(link_number(s.max_id, i)),
        ) =~= had);
    } else {
        let rest = marks.drop_last();
        every_highlight_is_linked(s, first, targets, rest, bands, k);
        let m = annotate::links_added(s, first, targets, rest, bands).1;
        let before = linked_pages(rest, targets.len());
        match marks.last() {
            MarkView::Highlight { page, .. } if page < targets.len() => {
                let n = before.len();
                let t = annotate::links_added(s, first, targets, marks, bands).1;
                one_linked(m, first, bands[n as int], targets[page as int], k);
                assert(pdf::next_id(m) == link_number(s.max_id, n as int));
                assert(links_only(s, t, k));
                assert(annotations(t.objects, t.objects[k]->Dict_0) =~= had + Seq::new(
                    to.len(),
                    |i: int| PdfValue::Reference(link_number(s.max_id, i)),
                ));
                let p = annotate::annots_place(s.objects, s.objects[k]->Dict_0);
                if p is Some {
                    let at = pdf::reference_at(s.objects[k]->Dict_0, pdf::key("Annots"))->0;
                    pdf::place_is_held(s.objects, at, 128);
                }
                assert forall|i: int| 0 <= i < to.len() implies t.objects.contains_key(
                    #[trigger] link_number(s.max_id, i),
                ) && t.objects[link_number(s.max_id, i)] == PdfValue::Dict(
                    annotate::link_entries(bands[i], targets[to[i] as int]),
                ) by {
                    let id = link_number(s.max_id, i);
                    assert(id != k) by {
                        assert(s.objects.contains_key(k));
                    }
                    assert(Some(id) != p);
                    if i < n {
                        assert(m.objects.contains_key(id));
                    }
                }
            },
            _ => {},
        }
    }
}

// ---------------------------------------------------------------------------
// Stamped pages
// ---------------------------------------------------------------------------
/// The page's own contents are as they were, with the stream of the given number
/// behind them, and what else changed of it are its images.
pub open spec fn page_kept(
    page: Map<Seq<u8>, PdfValue>,
    now: Map<Seq<u8>, PdfValue>,
    image: Seq<u8>,
    stream_id: (u32, u16),
) -> bool {
    &&& now.contains_key(pdf::key("Contents"))
    &&& now[pdf::key("Contents")] == PdfValue::Array(
        pdf::content_list(page).push(PdfValue::Reference(stream_id)),
    )
    &&& pdf::same_but_images(
        page.remove(pdf::key("Contents")),
        now.remove(pdf::key("Contents")),
        image,
    )
}

/// The numbers of the mask, the picture and the stream that draws it.
pub open spec fn ink_number(s: PdfState, i: int) -> (u32, u16) {
    ((s.max_id + i) as u32, 0)
}

/// What stamping does and leaves as it was. The mask and the picture are new objects, the
/// picture has a name in the resources of the page, where it has any or nothing in their
/// place, and a new stream draws it. Every object of the document keeps what it holds, but
/// for images in resources, and the page its contents, but for the one stream behind them.
/// All streams, and so all text, are untouched.
pub open spec fn ink_only(
    s: PdfState,
    t: PdfState,
    page_id: (u32, u16),
    png: Seq<u8>,
    sides: (PdfValue, PdfValue),
) -> bool {
    let (mask_id, picture_id, stream_id) = (ink_number(s, 1), ink_number(s, 2), ink_number(s, 3));
    let image = annotate::image_name("RmInk", picture_id.0);
    let k = pdf::dict_place(s.objects, page_id)->0;
    &&& t.objects.contains_key(mask_id) && t.objects[mask_id] == annotate::ink_mask(png)
    &&& t.objects.contains_key(picture_id) && t.objects[picture_id] == annotate::ink_picture(
        png,
        mask_id,
    )
    &&& pdf::takes_images(s.objects, page_id) ==> pdf::image_named(t.objects, page_id, image)
        == Some(PdfValue::Reference(picture_id))
    &&& t.objects.contains_key(stream_id)
    &&& t.objects[stream_id] == annotate::plain_stream(pdf::encoded(annotate::drawing(sides, image)))
    &&& t.objects.contains_key(k) && t.objects[k] is Dict && page_kept(
        s.objects[k]->Dict_0,
        t.objects[k]->Dict_0,
        image,
        stream_id,
    )
    &&& forall|id: (u32, u16)| #[trigger]
        s.objects.contains_key(id) && id != k ==> t.objects.contains_key(id) && (t.objects[id]
            == s.objects[id] || (s.objects[id] is Dict && t.objects[id] is Dict && pdf::same_but_images(
            s.objects[id]->Dict_0,
            t.objects[id]->Dict_0,
            image,
        )))
    &&& forall|id: (u32, u16)| #[trigger]
        t.objects.contains_key(id) && !s.objects.contains_key(id) ==> t.objects[id] is Data
}

/// Stamping changed nothing but the ink: the numbers stay bounded, the trailer as it
/// was and the objects finitely many, where the numbers were bounded and the document
/// has the page.
pub open spec fn only_inked(
    s: PdfState,
    t: PdfState,
    page_id: (u32, u16),
    png: Seq<u8>,
    sides: (PdfValue, PdfValue),
) -> bool {
    bounded(s) && pdf::dict_place(s.objects, page_id) is Some ==> bounded(t) && t.trailer
        == s.trailer && (s.objects.dom().finite() ==> t.objects.dom().finite()) && ink_only(
        s,
        t,
        page_id,
        png,
        sides,
    )
}

/// The keys of images and contents are not the name of stamped ink, nor each other.
pub(crate) proof fn ink_keys_differ(n: nat)
    ensures
        ({
            let image = encode_utf8("RmInk"@ + text::decimal(n));
            &&& image != pdf::key("Contents")
            &&& image != pdf::key("Resources")
            &&& image != pdf::key("XObject")
            &&& image != pdf::key("Type")
            &&& image != pdf::key("Pages")
            &&& image != pdf::key("Kids")
        }),
        pdf::key("Resources") != pdf::key("XObject"),
        pdf::key("Contents") != pdf::key("Resources"),
        pdf::key("Contents") != pdf::key("XObject"),
        pdf::key("Type") != pdf::key("Resources"),
        pdf::key("Type") != pdf::key("XObject"),
        pdf::key("Type") != pdf::key("Contents"),
        pdf::key("Pages") != pdf::key("Resources"),
        pdf::key("Pages") != pdf::key("XObject"),
        pdf::key("Pages") != pdf::key("Contents"),
        pdf::key("Kids") != pdf::key("Resources"),
        pdf::key("Kids") != pdf::key("XObject"),
        pdf::key("Kids") != pdf::key("Contents"),
{
    reveal_strlit("Contents");
    reveal_strlit("Resources");
    reveal_strlit("XObject");
    reveal_strlit("RmInk");
    reveal_strlit("Type");
    reveal_strlit("Pages");
    reveal_strlit("Kids");
    let ink = "RmInk"@ + text::decimal(n);
    pdf::keys_differ(ink, "Resources"@);
    assert(ink[1] != "Resources"@[1]);
    keys_are_distinct(ink, "Contents"@);
    keys_are_distinct(ink, "XObject"@);
    keys_are_distinct(ink, "Type"@);
    keys_are_distinct(ink, "Pages"@);
    keys_are_distinct(ink, "Kids"@);
    keys_are_distinct("Resources"@, "XObject"@);
    keys_are_distinct("Contents"@, "Resources"@);
    keys_are_distinct("Contents"@, "XObject"@);
    keys_are_distinct("Type"@, "Resources"@);
    keys_are_distinct("Type"@, "XObject"@);
    keys_are_distinct("Type"@, "Contents"@);
    keys_are_distinct("Pages"@, "Resources"@);
    keys_are_distinct("Pages"@, "XObject"@);
    keys_are_distinct("Pages"@, "Contents"@);
    keys_are_distinct("Kids"@, "Resources"@);
    keys_are_distinct("Kids"@, "XObject"@);
    keys_are_distinct("Kids"@, "Contents"@);
}

/// A dictionary under a key is still found where the dictionaries keep their entries
/// under the keys of images.
pub open spec fn images_alike(
    a: Map<(u32, u16), PdfValue>,
    b: Map<(u32, u16), PdfValue>,
    image: Seq<u8>,
) -> bool {
    &&& leads_alike(a, b)
    &&& forall|id: (u32, u16), x: Seq<u8>|
        a.contains_key(id) && a[id] is Dict && a[id]->Dict_0.contains_key(x) && (x == pdf::key(
            "Resources",
        ) || x == pdf::key("XObject") || x == image) ==> #[trigger] b[id]->Dict_0.contains_key(x)
            && b[id]->Dict_0[x] == a[id]->Dict_0[x]
}

/// What is named as an image still is.
proof fn still_named(
    a: Map<(u32, u16), PdfValue>,
    b: Map<(u32, u16), PdfValue>,
    page_id: (u32, u16),
    image: Seq<u8>,
)
    requires
        images_alike(a, b, image),
    ensures
        pdf::image_named(a, page_id, image) matches Some(v) ==> pdf::image_named(b, page_id, image)
            == Some(v),
{
    if pdf::image_named(a, page_id, image) is Some {
        let (res, xs) = (pdf::key("Resources"), pdf::key("XObject"));
        still_dict(a, b, page_id);
        let k = pdf::dict_place(a, page_id)->0;
        let page = a[k]->Dict_0;
        assert(b[k]->Dict_0.contains_key(res));
        match page[res] {
            PdfValue::Reference(at) => {
                still_dict(a, b, at);
                let r = pdf::dict_place(a, at)->0;
                let resources = a[r]->Dict_0;
                assert(b[r]->Dict_0.contains_key(xs));
                if let PdfValue::Reference(at) = resources[xs] {
                    still_dict(a, b, at);
                    let x = pdf::dict_place(a, at)->0;
                    assert(b[x]->Dict_0.contains_key(image));
                }
            },
            PdfValue::Dict(resources) => {
                if let PdfValue::Reference(at) = resources[xs] {
                    still_dict(a, b, at);
                    let x = pdf::dict_place(a, at)->0;
                    assert(b[x]->Dict_0.contains_key(image));
                }
            },
            _ => {},
        }
    }
}

/// An image that is entered into the resources of a page changes nothing but images, and
/// has its name there.
proof fn image_has_its_name(
    objects: Map<(u32, u16), PdfValue>,
    page_id: (u32, u16),
    image: Seq<u8>,
    id: (u32, u16),
)
    requires
        pdf::xobject_added(objects, page_id, image, id) is Some,
        image != pdf::key("Resources"),
        image != pdf::key("XObject"),
        pdf::key("Resources") != pdf::key("XObject"),
    ensures
        ({
            let after = pdf::xobject_added(objects, page_id, image, id)->0;
            &&& pdf::images_only(objects, after, image)
            &&& pdf::takes_images(objects, page_id) ==> pdf::image_named(after, page_id, image)
                == Some(PdfValue::Reference(id))
        }),
{
    let after = pdf::xobject_added(objects, page_id, image, id)->0;
    let (res, xs) = (pdf::key("Resources"), pdf::key("XObject"));
    if let Some(k) = pdf::dict_place(objects, page_id) {
        pdf::place_is_held(objects, page_id, 128);
        let page = objects[k]->Dict_0;
        let found = pdf::held_at(page, res);
        let resources = match found {
            PdfValue::Dict(d) => Some(d),
            PdfValue::Reference(at) => {
                pdf::place_is_held(objects, at, 128);
                pdf::dict_at(objects, at)
            },
            _ => None,
        };
        if let Some(resources) = resources {
            if let PdfValue::Reference(at) = pdf::held_at(resources, xs) {
                pdf::place_is_held(objects, at, 128);
                assert(leads_alike(objects, after));
                still_dict(objects, after, at);
            }
            assert(after.dom() =~= objects.dom());
            assert(leads_alike(objects, after));
            still_dict(objects, after, page_id);
            if let PdfValue::Reference(at) = found {
                still_dict(objects, after, at);
            }
        }
    }
}

/// Stamping an image changes nothing but the ink, in a document whose numbers are bounded
/// and that has the page.
pub proof fn stamping_keeps_the_page(
    s: PdfState,
    page_id: (u32, u16),
    png: Seq<u8>,
    sides: (PdfValue, PdfValue),
)
    requires
        bounded(s),
        s.max_id + 3 <= u32::MAX,
        pdf::dict_place(s.objects, page_id) is Some,
        annotate::stamped(s, page_id, png, sides).0 is Ok,
    ensures
        only_inked(s, annotate::stamped(s, page_id, png, sides).1, page_id, png, sides),
{
    let t = annotate::stamped(s, page_id, png, sides).1;
    let (mask_id, picture_id, stream_id) = (ink_number(s, 1), ink_number(s, 2), ink_number(s, 3));
    let image = annotate::image_name("RmInk", picture_id.0);
    let bytes = pdf::encoded(annotate::drawing(sides, image));
    let s1 = pdf::added(s, annotate::ink_mask(png));
    let drawn = pdf::added(s1, annotate::ink_picture(png, mask_id));
    let objects = pdf::xobject_added(drawn.objects, page_id, image, picture_id)->0;
    let entered = PdfState { objects, ..drawn };
    let k = pdf::dict_place(s.objects, page_id)->0;
    ink_keys_differ(picture_id.0 as nat);
    pdf::place_is_held(s.objects, page_id, 128);
    assert(!s.objects.contains_key(mask_id));
    assert(!s1.objects.contains_key(picture_id));
    image_has_its_name(drawn.objects, page_id, image, picture_id);
    assert(leads_alike(s.objects, drawn.objects));
    assert(leads_alike(drawn.objects, entered.objects));
    still_dict(s.objects, drawn.objects, page_id);
    still_dict(drawn.objects, entered.objects, page_id);
    assert(drawn.objects[k] == s.objects[k]);
    assert(!drawn.objects.contains_key(stream_id));
    let more = pdf::added(entered, annotate::plain_stream(bytes));
    assert(leads_alike(entered.objects, more.objects));
    still_dict(entered.objects, more.objects, page_id);
    let page = s.objects[k]->Dict_0;
    let held = entered.objects[k]->Dict_0;
    assert(pdf::same_but_images(page, held, image));
    assert(pdf::content_list(held) == pdf::content_list(page)) by {
        assert(page.contains_key(pdf::key("Contents")) == held.contains_key(pdf::key("Contents")));
    }
    let now = t.objects[k]->Dict_0;
    assert(now == held.insert(
        pdf::key("Contents"),
        PdfValue::Array(pdf::content_list(held).push(PdfValue::Reference(stream_id))),
    ));
    assert(pdf::same_but_images(page.remove(pdf::key("Contents")), now.remove(pdf::key("Contents")), image)) by {
        assert forall|x: Seq<u8>|
            x != pdf::key("Resources") && x != pdf::key("XObject") && x != image implies (
        #[trigger] page.remove(pdf::key("Contents")).contains_key(x) == now.remove(
            pdf::key("Contents"),
        ).contains_key(x)) && (page.remove(pdf::key("Contents")).contains_key(x) ==> page.remove(
            pdf::key("Contents"),
        )[x] == now.remove(pdf::key("Contents"))[x]) by {
            assert(page.contains_key(x) == held.contains_key(x));
        }
    }
    assert(drawn.objects.contains_key(mask_id));
    assert(drawn.objects.contains_key(picture_id));
    assert(t.objects.dom() =~= drawn.objects.dom().insert(stream_id));
    assert(drawn.objects.dom() =~= s.objects.dom().insert(mask_id).insert(picture_id));
    if pdf::takes_images(s.objects, page_id) {
        if let PdfValue::Reference(at) = pdf::held_at(page, pdf::key("Resources")) {
            still_dict(s.objects, drawn.objects, at);
        }
        assert(pdf::takes_images(drawn.objects, page_id));
        assert(images_alike(entered.objects, t.objects, image)) by {
            assert(leads_alike(entered.objects, t.objects));
        }
        still_named(entered.objects, t.objects, page_id, image);
    }
    assert(bounded(t));
}

/// Stamping leaves an entry of a dictionary as it was where its key is that of neither
/// contents nor images.
proof fn entries_stay(
    s: PdfState,
    t: PdfState,
    page_id: (u32, u16),
    png: Seq<u8>,
    sides: (PdfValue, PdfValue),
    id: (u32, u16),
    x: Seq<u8>,
)
    requires
        pdf::dict_place(s.objects, page_id) is Some,
        ink_only(s, t, page_id, png, sides),
        s.objects.contains_key(id),
        s.objects[id] is Dict,
        x != pdf::key("Resources"),
        x != pdf::key("XObject"),
        x != pdf::key("Contents"),
        x != annotate::image_name("RmInk", ink_number(s, 2).0),
    ensures
        t.objects.contains_key(id),
        t.objects[id] is Dict,
        s.objects[id]->Dict_0.contains_key(x) == t.objects[id]->Dict_0.contains_key(x),
        s.objects[id]->Dict_0.contains_key(x) ==> s.objects[id]->Dict_0[x]
            == t.objects[id]->Dict_0[x],
{
    let k = pdf::dict_place(s.objects, page_id)->0;
    if id == k {
        let c = pdf::key("Contents");
        let (page, now) = (s.objects[k]->Dict_0, t.objects[k]->Dict_0);
        assert(page.remove(c).contains_key(x) == now.remove(c).contains_key(x));
    }
}

/// Stamping leaves the page tree as it was, whatever it is.
pub proof fn ink_keeps_the_tree(
    s: PdfState,
    t: PdfState,
    page_id: (u32, u16),
    png: Seq<u8>,
    sides: (PdfValue, PdfValue),
)
    requires
        pdf::dict_place(s.objects, page_id) is Some,
        ink_only(s, t, page_id, png, sides),
        t.trailer == s.trailer,
    ensures
        pdf::pages_root(t.objects, t.trailer) == pdf::pages_root(s.objects, s.trailer),
        pdf::tree_walk(t.objects, t.trailer) == pdf::tree_walk(s.objects, s.trailer),
        s.objects.dom().subset_of(t.objects.dom()),
        leads_alike(s.objects, t.objects),
{
    ink_keys_differ(ink_number(s, 2).0 as nat);
    let k = pdf::dict_place(s.objects, page_id)->0;
    pdf::place_is_held(s.objects, page_id, 128);
    assert forall|id: (u32, u16)| #[trigger] s.objects.contains_key(id) implies t.objects.contains_key(
        id,
    ) && (s.objects[id] == t.objects[id] || (s.objects[id] is Dict && t.objects[id] is Dict
        && same_node(s.objects[id]->Dict_0, t.objects[id]->Dict_0))) by {
        if s.objects[id] is Dict {
            entries_stay(s, t, page_id, png, sides, id, pdf::key("Type"));
            entries_stay(s, t, page_id, png, sides, id, pdf::key("Pages"));
            entries_stay(s, t, page_id, png, sides, id, pdf::key("Kids"));
        }
    }
    assert(walked_alike(s.objects, t.objects));
    same_trees(s, t);
}

/// Stamping the pages in turn leaves the page tree as it was, whatever it is.
pub proof fn all_ink_keeps_the_tree<R: Fn(usize, &PageSize) -> Result<Vec<u8>, String>>(
    render: &R,
    s: PdfState,
    inked: Seq<usize>,
    sizes: Seq<PageSize>,
    fallback: PageSize,
    t: PdfState,
)
    requires
        bounded(s),
        s.objects.dom().finite(),
        annotate::all_stamped(render, s, inked, sizes, fallback, t),
    ensures
        bounded(t),
        t.objects.dom().finite(),
        t.trailer == s.trailer,
        pdf::pages_root(t.objects, t.trailer) == pdf::pages_root(s.objects, s.trailer),
        pdf::tree_walk(t.objects, t.trailer) == pdf::tree_walk(s.objects, s.trailer),
        s.objects.dom().subset_of(t.objects.dom()),
        leads_alike(s.objects, t.objects),
    decreases inked.len(),
{
    reveal_with_fuel(annotate::all_stamped, 2);
    if inked.len() > 0 {
        let size = annotate::size_of(sizes, fallback, inked.last());
        let at = (inked.len() - 1) as usize;
        let m = choose|m: PdfState|
            annotate::all_stamped(render, s, inked.drop_last(), sizes, fallback, m)
                && #[trigger] annotate::ink_stamped(render, m, at, inked.last(), size, t);
        all_ink_keeps_the_tree(render, s, inked.drop_last(), sizes, fallback, m);
        if let Some(id) = annotate::target_of(m, inked.last()) {
            let png = choose|png: Vec<u8>| #[trigger]
                call_ensures(render, (at, &size), Ok(png)) && annotate::stamped(
                    m,
                    id,
                    png@,
                    size.sides(),
                ) == (Ok::<(), AnnotateError>(()), t) && pdf::is_page(m.objects, id)
                    && only_inked(m, t, id, png@, size.sides());
            ink_keeps_the_tree(m, t, id, png@, size.sides());
        }
    }
}

/// Stamping the pages in turn leaves the list of pages as it was, where the whole page
/// tree is walked through.
pub proof fn inked_pages_are_listed<R: Fn(usize, &PageSize) -> Result<Vec<u8>, String>>(
    render: &R,
    s: PdfState,
    inked: Seq<usize>,
    sizes: Seq<PageSize>,
    fallback: PageSize,
    t: PdfState,
)
    requires
        bounded(s),
        pdf::whole_tree(s.objects, s.trailer),
        lists_pages(s),
        lists_pages(t),
        annotate::all_stamped(render, s, inked, sizes, fallback, t),
    ensures
        pdf::page_ids(t.objects, t.trailer) == pdf::page_ids(s.objects, s.trailer),
{
    all_ink_keeps_the_tree(render, s, inked, sizes, fallback, t);
    vstd::set_lib::lemma_len_subset(s.objects.dom(), t.objects.dom());
}

// ---------------------------------------------------------------------------
// The assembled document
// ---------------------------------------------------------------------------
/// The entries of the first page of all, before it has its links.
pub open spec fn first_page(run: Assembly) -> Map<Seq<u8>, PdfValue> {
    pdf::dict_at(
        run.both.objects,
        pdf::page_ids(run.both.objects, run.both.trailer)[0],
    )->0
}

/// In the assembled document the digest's pages come first, in their order, and behind
/// them the book's pages in theirs, with the inserted ones at their places: each page of
/// the book has moved on by the number of those inserted behind earlier pages, and each
/// inserted page stands behind its page and those inserted behind that before it. None is
/// lost and none comes twice. This holds of every page tree that is walked through as a
/// whole, and of marks in every order. The book's numbers are bounded, and the root of its
/// page tree is there.
pub proof fn pages_are_assembled<
    S: Fn(Option<&Vec<Object>>) -> PageSize,
    R: Fn(usize, &PageSize) -> Result<Vec<u8>, String>,
    C: Fn(&String, &Vec<(String, Vec<u8>)>) -> Result<Vec<u8>, String>,
>(
    book: PdfState,
    root: (u32, u16),
    inked: Seq<usize>,
    meta: MetaView,
    marks: Seq<MarkView>,
    bands: Seq<Seq<PdfValue>>,
    size: &S,
    render: &R,
    compile: &C,
    run: Assembly,
    bytes: Seq<u8>,
)
    requires
        annotate::root_found(book.objects, book.trailer) == Ok::<(u32, u16), AnnotateError>(root),
        pdf::dict_place(book.objects, root) is Some,
        bounded(book),
        pdf::whole_tree(book.objects, book.trailer),
        annotate::assembled(
            book,
            root,
            inked,
            meta,
            marks,
            bands,
            size,
            render,
            compile,
            run,
            bytes,
        ),
    ensures
        ({
            let pages = pdf::page_ids(run.both.objects, run.both.trailer);
            let front = digest_pages(run.full, run.digest);
            let ids = pdf::page_ids(book.objects, book.trailer);
            let after = afters(marks);
            &&& pages == front + woven(ids, after, run.inked.max_id + 3)
            &&& pdf::orderly(run.digest.objects, run.digest.trailer) ==> front.len()
                == pdf::page_ids(run.digest.objects, run.digest.trailer).len()
            &&& pages.len() == front.len() + ids.len() + annotate::inserted_pages(marks)
            &&& forall|j: int|
                0 <= j < ids.len() ==> pages[front.len() + j + below(after, j)]
                    == #[trigger] ids[j]
            &&& forall|i: int|
                0 <= i < after.len() ==> pages[front.len() + #[trigger] inserted_place(
                    after,
                    ids.len(),
                    i,
                )] == page_number(run.inked.max_id + 3, i)
        }),
{
    let after = afters(marks);
    let ids = pdf::page_ids(book.objects, book.trailer);
    all_ink_keeps_the_tree(render, book, inked, run.sizes, run.fallback, run.inked);
    inked_pages_are_listed(render, book, inked, run.sizes, run.fallback, run.inked);
    still_dict(book.objects, run.inked.objects, root);
    let k = pdf::dict_place(run.inked.objects, root)->0;
    let first = run.inked.max_id + 3;
    splicing_weaves(run.inked, ids, marks, run.fallback.sides(), root, k);
    spliced_pages_are_listed(run.inked, marks, run.fallback.sides(), root);
    digest_stands_first(run.full, run.digest, run.both);
    woven_in_place(ids, after, first);
    if pdf::orderly(run.digest.objects, run.digest.trailer) {
        digest_keeps_its_pages(run.full, run.digest);
    }
    let front = digest_pages(run.full, run.digest);
    let back = woven(ids, after, first);
    let pages = pdf::page_ids(run.both.objects, run.both.trailer);
    assert(pages == front + back);
    assert forall|j: int| 0 <= j < ids.len() implies pages[front.len() + j + below(after, j)]
        == #[trigger] ids[j] by {
        assert(back[j + below(after, j)] == ids[j]);
        assert(below(after, j) <= after.len());
    }
    assert forall|i: int| 0 <= i < after.len() implies pages[front.len()
        + #[trigger] inserted_place(after, ids.len(), i)] == page_number(first, i) by {
        assert(back[inserted_place(after, ids.len(), i)] == page_number(first, i));
    }
}

/// In the assembled document each highlight on a page of the book has a link on the
/// first page of all, in the order of the marks, and it leads to the object that is
/// that page of the book: the annotations of the first page are those it had, and
/// behind them one for each such highlight.
pub proof fn links_are_assembled<
    S: Fn(Option<&Vec<Object>>) -> PageSize,
    R: Fn(usize, &PageSize) -> Result<Vec<u8>, String>,
    C: Fn(&String, &Vec<(String, Vec<u8>)>) -> Result<Vec<u8>, String>,
>(
    book: PdfState,
    root: (u32, u16),
    inked: Seq<usize>,
    meta: MetaView,
    marks: Seq<MarkView>,
    bands: Seq<Seq<PdfValue>>,
    size: &S,
    render: &R,
    compile: &C,
    run: Assembly,
    bytes: Seq<u8>,
)
    requires
        annotate::assembled(
            book,
            root,
            inked,
            meta,
            marks,
            bands,
            size,
            render,
            compile,
            run,
            bytes,
        ),
    ensures
        ({
            let targets = pdf::page_ids(book.objects, book.trailer);
            let to = linked_pages(marks, targets.len());
            let first = pdf::page_ids(run.both.objects, run.both.trailer)[0];
            let now = pdf::dict_at(run.linked.objects, first)->0;
            &&& annotations(run.linked.objects, now) == annotations(
                run.both.objects,
                first_page(run),
            ) + Seq::new(
                to.len(),
                |i: int| PdfValue::Reference(link_number(run.both.max_id, i)),
            )
            &&& forall|i: int|
                0 <= i < to.len() ==> run.linked.objects.contains_key(
                    #[trigger] link_number(run.both.max_id, i),
                ) && run.linked.objects[link_number(run.both.max_id, i)] == PdfValue::Dict(
                    annotate::link_entries(bands[i], targets[to[i] as int]),
                )
        }),
{
    let targets = pdf::page_ids(book.objects, book.trailer);
    let first = pdf::page_ids(run.both.objects, run.both.trailer)[0];
    assert(pdf::is_page(run.both.objects, first));
    let k = pdf::dict_place(run.both.objects, first)->0;
    every_highlight_is_linked(run.both, first, targets, marks, bands, k);
}

/// Kids that are pages are sound.
proof fn pages_are_sound(objects: Map<(u32, u16), PdfValue>, ids: Seq<(u32, u16)>, depth: nat)
    requires
        forall|i: int| 0 <= i < ids.len() ==> pdf::is_page(objects, #[trigger] ids[i]),
    ensures
        pdf::sound_kids(objects, pdf::references(ids), depth),
    decreases ids.len(),
{
    let kids = pdf::references(ids);
    if ids.len() > 0 {
        pages_are_sound(objects, ids.drop_last(), depth);
        assert(kids.drop_last() =~= pdf::references(ids.drop_last()));
        assert(kids.last() == PdfValue::Reference(ids.last()));
        assert(pdf::is_page(objects, ids[ids.len() - 1]));
        assert(pdf::sound_kid(objects, kids.last(), depth));
    }
}

/// Links leave the entries of dictionaries as they were but for annotations.
proof fn linked_entries_stay(s: PdfState, t: PdfState, k: (u32, u16), id: (u32, u16), x: Seq<u8>)
    requires
        links_only(s, t, k),
        s.objects.contains_key(id),
        s.objects[id] is Dict,
        x != pdf::key("Annots"),
    ensures
        t.objects.contains_key(id),
        t.objects[id] is Dict,
        s.objects[id]->Dict_0.contains_key(x) == t.objects[id]->Dict_0.contains_key(x),
        s.objects[id]->Dict_0.contains_key(x) ==> s.objects[id]->Dict_0[x]
            == t.objects[id]->Dict_0[x],
{
    let p = annotate::annots_place(s.objects, s.objects[k]->Dict_0);
    if p is Some {
        let at = pdf::reference_at(s.objects[k]->Dict_0, pdf::key("Annots"))->0;
        pdf::place_is_held(s.objects, at, 128);
    }
    if id == k {
        let (page, now) = (s.objects[k]->Dict_0, t.objects[k]->Dict_0);
        let a = pdf::key("Annots");
        assert(page.remove(a).contains_key(x) == now.remove(a).contains_key(x));
        assert(page.remove(a)[x] == now.remove(a)[x]);
    }
}

/// Links leave a list of nothing but pages at the root of the page tree as it was.
proof fn linked_tree_stays(
    s: PdfState,
    t: PdfState,
    k: (u32, u16),
    root: (u32, u16),
    ids: Seq<(u32, u16)>,
)
    requires
        links_only(s, t, k),
        t.trailer == s.trailer,
        lists_pages(s),
        hangs(s, root, ids),
        ids.len() <= s.objects.dom().len(),
    ensures
        hangs(t, root, ids),
        pdf::whole_tree(t.objects, t.trailer),
        pdf::tree_walk(t.objects, t.trailer).pages == ids,
{
    reveal_strlit("Annots");
    reveal_strlit("Type");
    reveal_strlit("Pages");
    reveal_strlit("Kids");
    keys_are_distinct("Annots"@, "Type"@);
    keys_are_distinct("Annots"@, "Pages"@);
    keys_are_distinct("Annots"@, "Kids"@);
    let catalog_id = pdf::reference_at(s.trailer, pdf::key("Root"))->0;
    let c = pdf::dict_place(s.objects, catalog_id)->0;
    let r = pdf::dict_place(s.objects, root)->0;
    still_dict(s.objects, t.objects, catalog_id);
    still_dict(s.objects, t.objects, root);
    linked_entries_stay(s, t, k, c, pdf::key("Pages"));
    linked_entries_stay(s, t, k, r, pdf::key("Kids"));
    assert forall|i: int| 0 <= i < ids.len() implies pdf::is_page(t.objects, #[trigger] ids[i]) by {
        still_dict(s.objects, t.objects, ids[i]);
        let d = pdf::dict_place(s.objects, ids[i])->0;
        linked_entries_stay(s, t, k, d, pdf::key("Type"));
    }
    pages_are_walked(t.objects, ids, 256);
    assert(s.objects.dom().subset_of(t.objects.dom()));
    vstd::set_lib::lemma_len_subset(s.objects.dom(), t.objects.dom());
}

/// The pages of the assembled document are those of the document that is written, in
/// their order and but for references with the same entries. No two of the objects share
/// their number, and no page stands in the document twice.
pub proof fn pages_reach_the_file<
    S: Fn(Option<&Vec<Object>>) -> PageSize,
    R: Fn(usize, &PageSize) -> Result<Vec<u8>, String>,
    C: Fn(&String, &Vec<(String, Vec<u8>)>) -> Result<Vec<u8>, String>,
>(
    book: PdfState,
    root: (u32, u16),
    inked: Seq<usize>,
    meta: MetaView,
    marks: Seq<MarkView>,
    bands: Seq<Seq<PdfValue>>,
    size: &S,
    render: &R,
    compile: &C,
    run: Assembly,
    bytes: Seq<u8>,
)
    requires
        annotate::assembled(
            book,
            root,
            inked,
            meta,
            marks,
            bands,
            size,
            render,
            compile,
            run,
            bytes,
        ),
        bounded(run.full),
        pdf::numbers_differ(run.linked.objects),
        pdf::page_ids(run.both.objects, run.both.trailer).no_duplicates(),
    ensures
        ({
            let pages = pdf::page_ids(run.both.objects, run.both.trailer);
            let (objects, trailer) = (pdf::objects(run.file), pdf::trailer(run.file));
            let now = pdf::tree_walk(objects, trailer).pages;
            &&& now.len() == pages.len()
            &&& forall|i: int|
                0 <= i < pages.len() ==> pdf::is_page(objects, #[trigger] now[i])
                    && pdf::same_but_references(
                    pdf::dict_at(run.linked.objects, pages[i])->0,
                    pdf::dict_at(objects, now[i])->0,
                )
        }),
{
    let pages = pdf::page_ids(run.both.objects, run.both.trailer);
    let targets = pdf::page_ids(book.objects, book.trailer);
    let top = annotate::root_found(run.full.objects, run.full.trailer)->Ok_0;
    assert(pdf::is_page(run.both.objects, pages[0]));
    let k = pdf::dict_place(run.both.objects, pages[0])->0;
    every_highlight_is_linked(run.both, pages[0], targets, marks, bands, k);
    digest_stands_first(run.full, run.digest, run.both);
    annotate::linking_keeps_the_trailer(run.both, pages[0], targets, marks, bands);
    linked_tree_stays(run.both, run.linked, k, top, pages);
    pages_are_sound(run.linked.objects, pages, 256);
}

} // verus!

//! What comes of a call on a document, told of its inputs and its result.

use crate::annotate;
use crate::annotate::{AnnotateError, AssembleError, Assembly, LinkRect, PageSize};
use crate::digest_doc;
use crate::digest_doc::DigestMeta;
use crate::digest_laws;
use crate::extract;
use crate::extract::Mark;
use crate::page_laws;
use crate::page_laws::Places;
use crate::pdf;
use crate::pdf::PdfValue;
use crate::placement;
use crate::reading;
use crate::theme::PenColor;
use lopdf::{Document, Object};
use vstd::prelude::*;

verus! {

/// The width and the height of the size, as they stand in a document.
pub open spec fn width_and_height(size: PageSize) -> (PdfValue, PdfValue) {
    (pdf::object_value(size.width), pdf::object_value(size.height))
}

/// The rectangle as it stands in a document: left, bottom, right and top.
pub open spec fn corners(rect: LinkRect) -> Seq<PdfValue> {
    seq![
        pdf::object_value(rect.left),
        pdf::object_value(rect.bottom),
        pdf::object_value(rect.right),
        pdf::object_value(rect.top),
    ]
}

/// Ink that was stamped on a page is shown there in its own colours and with its own
/// opacity, over the whole page, behind the contents that the page had.
pub proof fn ink_is_stamped(
    doc: &mut Document,
    page_id: (u32, u16),
    png: &[u8],
    size: &PageSize,
    r: Result<(), AnnotateError>,
) -> (image: Seq<u8>)
    requires
        call_ensures(annotate::stamp_overlay, (doc, page_id, png, size), r),
        r is Ok,
        placement::bounded(pdf::state(*old(doc))),
        pdf::max_id(*old(doc)) + 3 <= u32::MAX,
        pdf::dict_place(pdf::objects(*old(doc)), page_id) is Some,
    ensures
        ({
            let s = pdf::state(*old(doc));
            let t = pdf::state(*final(doc));
            let mask = ((s.max_id + 1) as u32, 0u16);
            let picture = ((s.max_id + 2) as u32, 0u16);
            let stream = ((s.max_id + 3) as u32, 0u16);
            let k = pdf::dict_place(s.objects, page_id)->0;
            &&& page_laws::shows_ink(t.objects, picture, mask, png@)
            &&& page_laws::draws(t.objects, stream, width_and_height(*size), image)
            &&& t.objects[k]->Dict_0.get(pdf::key("Contents")) == Some(
                PdfValue::Array(
                    pdf::content_list(s.objects[k]->Dict_0).push(PdfValue::Reference(stream)),
                ),
            )
            &&& pdf::takes_images(s.objects, page_id) ==> pdf::image_named(
                t.objects,
                page_id,
                image,
            ) == Some(PdfValue::Reference(picture))
        }),
{
    page_laws::stamped_ink_is_shown(pdf::state(*old(doc)), page_id, png@, size.sides())
}

/// A page that was inserted shows its image as large as it was asked for, and whatever else
/// the document shows stays.
pub proof fn pages_are_inserted(
    doc: &mut Document,
    after: usize,
    png: &[u8],
    size: &PageSize,
    pages_id: (u32, u16),
    r: Result<(u32, u16), AnnotateError>,
)
    requires
        call_ensures(annotate::insert_image_page, (doc, after, png, size, pages_id), r),
        r is Ok,
        placement::bounded(pdf::state(*old(doc))),
        pdf::max_id(*old(doc)) + 3 <= u32::MAX,
        pdf::dict_place(pdf::objects(*old(doc)), pages_id) is Some,
    ensures
        ({
            let s = pdf::state(*old(doc));
            let t = pdf::state(*final(doc));
            &&& !s.objects.contains_key(r->Ok_0)
            &&& page_laws::shows_page(t.objects, r->Ok_0, width_and_height(*size), png@)
            &&& page_laws::shown_alike(s.objects, t.objects)
        }),
{
    page_laws::inserted_page_is_shown(
        pdf::state(*old(doc)),
        after as nat,
        png@,
        size.sides(),
        pages_id,
    );
}

/// A page that was inserted stands right behind its page, or at the end where there is no
/// such page.
pub proof fn inserted_pages_stand_behind(
    doc: &mut Document,
    after: usize,
    png: &[u8],
    size: &PageSize,
    pages_id: (u32, u16),
    r: Result<(u32, u16), AnnotateError>,
)
    requires
        call_ensures(annotate::insert_image_page, (doc, after, png, size, pages_id), r),
        r is Ok,
        placement::bounded(pdf::state(*old(doc))),
        pdf::max_id(*old(doc)) + 3 <= u32::MAX,
        pdf::pages_root(pdf::objects(*old(doc)), pdf::trailer(*old(doc))) == Some(pages_id),
        pdf::dict_place(pdf::objects(*old(doc)), pages_id) is Some,
        placement::lists_pages(pdf::state(*final(doc))),
    ensures
        ({
            let pages = pdf::page_ids(pdf::objects(*old(doc)), pdf::trailer(*old(doc)));
            let now = pdf::page_ids(pdf::objects(*final(doc)), pdf::trailer(*final(doc)));
            &&& now.len() == pages.len() + 1
            &&& after < pages.len() ==> now == pages.take(after + 1) + seq![r->Ok_0] + pages.skip(
                after + 1,
            )
            &&& after >= pages.len() ==> now == pages + seq![r->Ok_0]
        }),
{
    page_laws::inserted_page_stands_behind_its_page(
        pdf::state(*old(doc)),
        after as nat,
        png@,
        size.sides(),
        pages_id,
    );
}

/// As many pages were spliced in as there are inserted pages among the marks, and each of
/// them shows the image of its own mark.
pub proof fn pages_are_spliced_in(
    doc: &mut Document,
    marks: &[Mark],
    num_book_pages: usize,
    size: &PageSize,
    pages_id: (u32, u16),
    r: Result<usize, AnnotateError>,
)
    requires
        call_ensures(
            annotate::splice_inserted_pages,
            (doc, marks, num_book_pages, size, pages_id),
            r,
        ),
        r is Ok,
        placement::bounded(pdf::state(*old(doc))),
        pdf::dict_place(pdf::objects(*old(doc)), pages_id) is Some,
        pdf::max_id(*old(doc)) + 3 * page_laws::inserted(extract::mark_views(marks@)).len()
            <= u32::MAX,
    ensures
        ({
            let s = pdf::state(*old(doc));
            let t = pdf::state(*final(doc));
            let shown = page_laws::inserted(extract::mark_views(marks@));
            &&& r->Ok_0 == shown.len()
            &&& page_laws::shown_alike(s.objects, t.objects)
            &&& forall|i: int|
                0 <= i < shown.len() ==> page_laws::shows_page(
                    t.objects,
                    ((s.max_id + 3 * i + 3) as u32, 0),
                    width_and_height(*size),
                    (#[trigger] shown[i])->InsertedPage_png,
                )
        }),
{
    let s = pdf::state(*old(doc));
    let views = extract::mark_views(marks@);
    page_laws::spliced_pages_are_shown(
        s,
        pdf::page_ids(s.objects, s.trailer),
        views,
        size.sides(),
        pages_id,
    );
    inserted_are_counted(views);
}

/// The inserted pages among the marks are counted one by one.
proof fn inserted_are_counted(marks: Seq<extract::MarkView>)
    ensures
        annotate::inserted_pages(marks) == page_laws::inserted(marks).len(),
    decreases marks.len(),
{
    reveal(Seq::filter);
    if marks.len() > 0 {
        inserted_are_counted(marks.drop_last());
    }
}

/// A digest was merged in front of the book: as many pages as it has stand first, and both
/// show what they showed.
pub proof fn digests_are_merged_first(
    book: Document,
    digest: Document,
    r: Result<(Document, usize), AnnotateError>,
)
    requires
        call_ensures(annotate::merge_digest_first, (book, digest), r),
        r is Ok,
        placement::bounded(pdf::state(book)),
        placement::lists_pages(pdf::state(r->Ok_0.0)),
    ensures
        ({
            let (doc, n) = r->Ok_0;
            let ids = pdf::page_ids(pdf::objects(book), pdf::trailer(book));
            let now = pdf::page_ids(pdf::objects(doc), pdf::trailer(doc));
            &&& n == pdf::page_ids(pdf::objects(digest), pdf::trailer(digest)).len()
            &&& now.len() >= ids.len()
            &&& now.skip(now.len() - ids.len()) == ids
            &&& page_laws::shown_alike(pdf::objects(book), pdf::objects(doc))
        }),
{
    let (doc, n) = r->Ok_0;
    let b = pdf::state(book);
    let d = pdf::state(digest);
    page_laws::merged_pages_are_shown(b, d, pdf::state(doc));
    placement::digest_stands_first(b, d, pdf::state(doc));
    let ids = pdf::page_ids(b.objects, b.trailer);
    let front = placement::digest_pages(b, d);
    assert((front + ids).skip(front.len() as int) =~= ids);
}

/// A link was added to a page: it stands in the rectangle, and leads to the target.
#[verifier::spinoff_prover]
pub proof fn links_lead_there(
    doc: &mut Document,
    page_id: (u32, u16),
    rect: &LinkRect,
    target: (u32, u16),
    r: Result<(), AnnotateError>,
) -> (link: (u32, u16))
    requires
        call_ensures(annotate::add_goto_link, (doc, page_id, rect, target), r),
        r is Ok,
        placement::bounded(pdf::state(*old(doc))),
        pdf::max_id(*old(doc)) < u32::MAX,
        pdf::dict_place(pdf::objects(*old(doc)), page_id) is Some,
    ensures
        !pdf::objects(*old(doc)).contains_key(link),
        page_laws::leads_to(pdf::objects(*final(doc)), link, corners(*rect), target),
        page_laws::listed_annotations(pdf::objects(*final(doc)), page_id)
            == page_laws::listed_annotations(pdf::objects(*old(doc)), page_id).push(
            PdfValue::Reference(link),
        ),
{
    let s = pdf::state(*old(doc));
    let t = pdf::state(*final(doc));
    let mark = extract::MarkView::Highlight {
        page: 0,
        text: seq![],
        color: PenColor::Black,
    };
    let marks = seq![mark];
    let bands = seq![rect.sides()];
    let targets = seq![target];
    reveal_with_fuel(annotate::links_added, 2);
    reveal_with_fuel(annotate::highlights, 2);
    assert(marks.drop_last() =~= Seq::empty());
    assert(annotate::links_added(s, page_id, targets, marks.drop_last(), bands) == (
        Ok::<nat, AnnotateError>(0),
        s,
    ));
    assert(annotate::links_added(s, page_id, targets, marks, bands) == (
        Ok::<nat, AnnotateError>(1),
        t,
    ));
    let links = page_laws::links_lead_to_their_pages(s, page_id, targets, marks, bands);
    assert(page_laws::linkable(marks, 1) =~= marks) by {
        reveal(Seq::filter);
        reveal_with_fuel(Seq::filter, 2);
    }
    let shown = page_laws::linkable(marks, 1);
    assert(shown[0]->Highlight_page == 0);
    assert(rect.sides() =~= corners(*rect));
    assert(page_laws::listed_annotations(s.objects, page_id) + pdf::references(links)
        =~= page_laws::listed_annotations(s.objects, page_id).push(PdfValue::Reference(links[0])));
    links[0]
}

/// Every highlight on a page that is there got a link on the first page, from its own band
/// to its own page, and as many were counted.
pub proof fn highlights_are_linked(
    doc: &mut Document,
    marks: &[Mark],
    targets: &Vec<(u32, u16)>,
    bands: &Vec<LinkRect>,
    r: Result<usize, AnnotateError>,
) -> (links: Seq<(u32, u16)>)
    requires
        call_ensures(annotate::link_highlights, (doc, marks, targets, bands), r),
        r is Ok,
        placement::bounded(pdf::state(*old(doc))),
        pdf::page_ids(pdf::objects(*old(doc)), pdf::trailer(*old(doc))).len() > 0,
        pdf::dict_place(
            pdf::objects(*old(doc)),
            pdf::page_ids(pdf::objects(*old(doc)), pdf::trailer(*old(doc)))[0],
        ) is Some,
        page_laws::linkable(extract::mark_views(marks@), targets@.len()).len() <= bands@.len(),
    ensures
        ({
            let first = pdf::page_ids(pdf::objects(*old(doc)), pdf::trailer(*old(doc)))[0];
            let shown = page_laws::linkable(extract::mark_views(marks@), targets@.len());
            &&& r->Ok_0 == shown.len()
            &&& links.len() == shown.len()
            &&& page_laws::listed_annotations(pdf::objects(*final(doc)), first)
                == page_laws::listed_annotations(pdf::objects(*old(doc)), first) + pdf::references(
                links,
            )
            &&& forall|i: int|
                0 <= i < shown.len() ==> page_laws::leads_to(
                    pdf::objects(*final(doc)),
                    links[i],
                    corners(bands@[i]),
                    targets@[(#[trigger] shown[i])->Highlight_page as int],
                )
            &&& page_laws::shown_alike(pdf::objects(*old(doc)), pdf::objects(*final(doc)))
        }),
{
    let s = pdf::state(*old(doc));
    let first = pdf::page_ids(s.objects, s.trailer)[0];
    let views = extract::mark_views(marks@);
    let shown = page_laws::linkable(views, targets@.len());
    let links = page_laws::links_lead_to_their_pages(
        s,
        first,
        targets@,
        views,
        annotate::rects(bands@),
    );
    assert forall|i: int| 0 <= i < shown.len() implies page_laws::leads_to(
        pdf::objects(*final(doc)),
        links[i],
        corners(bands@[i]),
        targets@[(#[trigger] shown[i])->Highlight_page as int],
    ) by {
        assert(bands@[i].sides() =~= corners(bands@[i]));
        assert(annotate::rects(bands@)[i] == bands@[i].sides());
    }
    links
}

/// Each page that has ink shows what was rendered for it, at the size of that page.
pub proof fn every_ink_is_stamped<R: Fn(usize, &PageSize) -> Result<Vec<u8>, String>>(
    doc: &mut Document,
    inked: &Vec<usize>,
    sizes: &Vec<PageSize>,
    fallback: &PageSize,
    render: &R,
    r: Result<(), AssembleError>,
    j: int,
)
    requires
        call_ensures(annotate::stamp_pages::<R>, (doc, inked, sizes, fallback, render), r),
        r is Ok,
        placement::bounded(pdf::state(*old(doc))),
        placement::lists_pages(pdf::state(*old(doc))),
        pdf::whole_tree(pdf::objects(*old(doc)), pdf::trailer(*old(doc))),
        sizes@.len() == pdf::page_ids(pdf::objects(*old(doc)), pdf::trailer(*old(doc))).len()
            <= u32::MAX,
        0 <= j < inked@.len(),
        inked@[j] < pdf::page_ids(pdf::objects(*old(doc)), pdf::trailer(*old(doc))).len(),
    ensures
        exists|png: Vec<u8>| #[trigger]
            call_ensures(render, (j as usize, &sizes@[inked@[j] as int]), Ok(png))
                && page_laws::has_ink(
                pdf::objects(*final(doc)),
                pdf::page_ids(pdf::objects(*old(doc)), pdf::trailer(*old(doc)))[inked@[j] as int],
                png@,
                width_and_height(sizes@[inked@[j] as int]),
            ),
{
    assert(inked.len() == inked@.len());
    page_laws::every_inked_page_has_its_ink(
        render,
        pdf::state(*old(doc)),
        inked@,
        sizes@,
        *fallback,
        pdf::state(*final(doc)),
        j,
    );
}

/// The box of a page is its own, or else that of its parent.
pub proof fn boxes_are_found(doc: &Document, page_id: (u32, u16), r: Option<&Vec<Object>>)
    requires
        call_ensures(annotate::media_box, (doc, page_id), r),
        pdf::dict_at(pdf::objects(*doc), page_id) is Some,
    ensures
        ({
            let page = pdf::dict_at(pdf::objects(*doc), page_id)->Some_0;
            match page.get(pdf::key("MediaBox")) {
                Some(PdfValue::Array(own)) => r is Some && pdf::values(r->Some_0@) == own,
                _ => match page.get(pdf::key("Parent")) {
                    Some(PdfValue::Reference(up)) => match pdf::dict_at(pdf::objects(*doc), up) {
                        Some(parent) => match parent.get(pdf::key("MediaBox")) {
                            Some(PdfValue::Array(theirs)) => r is Some && pdf::values(r->Some_0@)
                                == theirs,
                            _ => r is None,
                        },
                        None => r is None,
                    },
                    _ => r is None,
                },
            }
        }),
{
}

/// The root of the page tree is what the catalog has under its pages; the first thing that
/// is missing on the way to it is told.
pub proof fn the_root_is_found(doc: &Document, r: Result<(u32, u16), AnnotateError>)
    requires
        call_ensures(annotate::find_pages_root, (doc,), r),
    ensures
        match pdf::trailer(*doc).get(pdf::key("Root")) {
            Some(PdfValue::Reference(catalog_id)) => match pdf::dict_at(
                pdf::objects(*doc),
                catalog_id,
            ) {
                Some(catalog) => match catalog.get(pdf::key("Pages")) {
                    Some(PdfValue::Reference(id)) => r == Ok::<(u32, u16), AnnotateError>(id),
                    _ => r == Err::<(u32, u16), AnnotateError>(AnnotateError::NoPages),
                },
                None => r == Err::<(u32, u16), AnnotateError>(AnnotateError::NoCatalog),
            },
            _ => r == Err::<(u32, u16), AnnotateError>(AnnotateError::NoRoot),
        },
{
}

/// A digest that was made is what was compiled of a source that says its marks.
pub proof fn digests_are_made_of_their_marks<
    C: Fn(&String, &Vec<(String, Vec<u8>)>) -> Result<Vec<u8>, String>,
>(
    meta: &DigestMeta,
    marks: &[Mark],
    compile: &C,
    r: Result<Document, AssembleError>,
) -> (made: (String, Vec<(String, Vec<u8>)>, Vec<u8>, Seq<int>))
    requires
        call_ensures(annotate::make_digest::<C>, (meta, marks, compile), r),
        r is Ok,
    ensures
        ({
            let (source, assets, bytes, cuts) = made;
            &&& call_ensures(compile, (&source, &assets), Ok(bytes))
            &&& exists|doc: Document| #[trigger]
                reading::read_as(bytes@, Some(doc)) && pdf::state(doc) == pdf::state(r->Ok_0)
            &&& digest_laws::parted(source@, cuts, marks@.len())
            &&& forall|i: int|
                0 <= i < marks@.len() ==> digest_laws::says_only(
                    #[trigger] digest_laws::section(source@, cuts, i),
                    digest_laws::digest_words(
                        marks@[i],
                        digest_laws::pictured(extract::mark_views(marks@).take(i)).len(),
                    ),
                    digest_laws::digest_frame(marks@[i] is Highlight),
                )
            &&& digest_doc::image_views(assets@) == digest_doc::images(
                digest_doc::IMAGE_FRONT,
                extract::mark_views(marks@),
            )
        }),
{
    reveal(annotate::digest_made);
    let views = extract::mark_views(marks@);
    let (source, assets, bytes) = choose|
        source: String,
        assets: Vec<(String, Vec<u8>)>,
        bytes: Vec<u8>,
    |
        annotate::handed(meta@, views, source, assets) && #[trigger] annotate::compiled(
            compile,
            source,
            assets,
            Ok(bytes),
        ) && annotate::held_in(bytes@, pdf::state(r->Ok_0));
    let cuts = digest_laws::a_digest_says_its_marks(*meta, marks@);
    (source, assets, bytes, cuts)
}

/// An assembled document has the pages of the digest first. Behind them stand the pages of
/// the book and the inserted ones, each inserted page behind its own and with its own
/// image; every page with ink shows it; and every highlight has a link on the first page
/// that leads from its band to its page. The file is written of this document.
#[verifier::spinoff_prover]
pub proof fn documents_are_assembled<
    S: Fn(Option<&Vec<Object>>) -> PageSize,
    R: Fn(usize, &PageSize) -> Result<Vec<u8>, String>,
    C: Fn(&String, &Vec<(String, Vec<u8>)>) -> Result<Vec<u8>, String>,
>(
    book: Document,
    inked: &Vec<usize>,
    meta: &DigestMeta,
    marks: &[Mark],
    bands: &Vec<LinkRect>,
    size: &S,
    render: &R,
    compile: &C,
    r: Result<Vec<u8>, AssembleError>,
    root: (u32, u16),
    j: int,
) -> (made: (Assembly, Places, Seq<(u32, u16)>))
    requires
        call_ensures(
            annotate::assemble_from::<S, R, C>,
            (book, inked, meta, marks, bands, size, render, compile),
            r,
        ),
        r is Ok,
        placement::bounded(pdf::state(book)),
        pdf::whole_tree(pdf::objects(book), pdf::trailer(book)),
        pdf::page_ids(pdf::objects(book), pdf::trailer(book)).len() <= u32::MAX,
        annotate::root_found(pdf::objects(book), pdf::trailer(book)) == Ok::<
            (u32, u16),
            AnnotateError,
        >(root),
        pdf::dict_place(pdf::objects(book), root) is Some,
        page_laws::linkable(
            extract::mark_views(marks@),
            pdf::page_ids(pdf::objects(book), pdf::trailer(book)).len(),
        ).len() <= bands@.len(),
    ensures
        ({
            let (run, places, links) = made;
            let views = extract::mark_views(marks@);
            let ids = pdf::page_ids(pdf::objects(book), pdf::trailer(book));
            let pages = pdf::page_ids(run.both.objects, run.both.trailer);
            let front = placement::digest_pages(run.full, run.digest);
            let images = page_laws::inserted(views);
            let after = Seq::new(images.len(), |i: int| images[i]->after_page);
            let shown = page_laws::linkable(views, ids.len());
            &&& front.len() <= pages.len()
            &&& pages.take(front.len() as int) == front
            &&& page_laws::in_order(
                places,
                ids.len(),
                after,
                (pages.len() - front.len()) as nat,
            )
            &&& forall|i: int|
                0 <= i < ids.len() ==> pages[front.len() + #[trigger] places.book[i]] == ids[i]
            &&& forall|i: int|
                0 <= i < images.len() ==> page_laws::shows_page(
                    run.linked.objects,
                    pages[front.len() + #[trigger] places.inserted[i]],
                    width_and_height(run.fallback),
                    images[i]->InsertedPage_png,
                )
            &&& 0 <= j < inked@.len() && inked@[j] < ids.len() ==> exists|png: Vec<u8>| #[trigger]
                call_ensures(render, (j as usize, &run.sizes[inked@[j] as int]), Ok(png))
                    && page_laws::has_ink(
                    run.linked.objects,
                    ids[inked@[j] as int],
                    png@,
                    width_and_height(run.sizes[inked@[j] as int]),
                )
            &&& links.len() == shown.len()
            &&& forall|i: int|
                0 <= i < shown.len() ==> page_laws::leads_to(
                    run.linked.objects,
                    links[i],
                    corners(bands@[i]),
                    ids[(#[trigger] shown[i])->Highlight_page as int],
                )
            &&& annotate::numbered_anew(run.linked, run.file)
            &&& pdf::file_bytes(run.file) == Some(r->Ok_0@)
        }),
{
    let s = pdf::state(book);
    let views = extract::mark_views(marks@);
    let rects = annotate::rects(bands@);
    let bytes = r->Ok_0;
    assert(inked.len() == inked@.len());
    let run = choose|run: Assembly| #[trigger]
        annotate::assembled(
            s,
            root,
            inked@,
            meta@,
            views,
            rects,
            size,
            render,
            compile,
            run,
            bytes@,
        );
    let places = page_laws::inserted_pages_are_assembled(
        s,
        root,
        inked@,
        meta@,
        views,
        rects,
        size,
        render,
        compile,
        run,
        bytes@,
    );
    let links = page_laws::highlights_are_linked(
        s,
        root,
        inked@,
        meta@,
        views,
        rects,
        size,
        render,
        compile,
        run,
        bytes@,
    );
    let ids = pdf::page_ids(s.objects, s.trailer);
    let shown = page_laws::linkable(views, ids.len());
    assert forall|i: int| 0 <= i < shown.len() implies page_laws::leads_to(
        run.linked.objects,
        links[i],
        corners(bands@[i]),
        ids[(#[trigger] shown[i])->Highlight_page as int],
    ) by {
        assert(bands@[i].sides() =~= corners(bands@[i]));
        assert(rects[i] == bands@[i].sides());
    }
    if 0 <= j < inked@.len() && inked@[j] < ids.len() {
        page_laws::ink_is_assembled(
            s,
            root,
            inked@,
            meta@,
            views,
            rects,
            size,
            render,
            compile,
            run,
            bytes@,
            j,
        );
    }
    (run, places, links)
}

} // verus!

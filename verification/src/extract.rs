//! Turns the changed pages of a notebook into an ordered list of marks.

use crate::ink::{Background, InkOpts, InkStroke};
use crate::pdf;
use crate::pdf::{get_array, pages_of, PdfState, PdfValue};
use crate::reading;
use crate::textlayer;
use crate::textlayer::{PdfRect, TextLayer};
use crate::theme::PenColor;
use lopdf::{Document, Object};
use vstd::prelude::*;
use vstd::string::*;

verus! {

/// One item destined for the digest.
#[derive(Debug)]
pub enum Mark {
    /// A highlight: text that the device took over, or that was found under ink.
    Highlight { page: usize, text: String, color: PenColor },
    /// A handwritten note on an existing page, as an image in PNG format.
    Note { page: usize, png: Vec<u8> },
    /// A page that was inserted on the device, as an image in PNG format.
    InsertedPage { after_page: usize, png: Vec<u8> },
}

/// What a mark holds.
#[verifier::ext_equal]
pub enum MarkView {
    Highlight { page: nat, text: Seq<char>, color: PenColor },
    Note { page: nat, png: Seq<u8> },
    InsertedPage { after_page: nat, png: Seq<u8> },
}

impl View for Mark {
    type V = MarkView;

    open spec fn view(&self) -> MarkView {
        match self {
            Mark::Highlight { page, text, color } => MarkView::Highlight {
                page: *page as nat,
                text: text@,
                color: *color,
            },
            Mark::Note { page, png } => MarkView::Note { page: *page as nat, png: png@ },
            Mark::InsertedPage { after_page, png } => MarkView::InsertedPage {
                after_page: *after_page as nat,
                png: png@,
            },
        }
    }
}

/// What the marks hold.
pub open spec fn mark_views(marks: Seq<Mark>) -> Seq<MarkView> {
    Seq::new(marks.len(), |i: int| marks[i]@)
}

// ---------------------------------------------------------------------------
// One page
// ---------------------------------------------------------------------------
/// Text that the device itself took over when it was highlighted.
#[derive(Debug)]
pub struct TextHighlight {
    pub text: String,
    pub color: PenColor,
}

/// The marks of the text that the device took over, as it is.
pub open spec fn verbatim(page: nat, highlights: Seq<TextHighlight>) -> Seq<MarkView> {
    Seq::new(
        highlights.len(),
        |i: int|
            MarkView::Highlight { page, text: highlights[i].text@, color: highlights[i].color },
    )
}

/// `f` can give the text for the region of the page.
pub open spec fn answers<T: Fn(usize, &PdfRect) -> String>(f: &T) -> spec_fn(
    usize,
    PdfRect,
    Seq<char>,
) -> bool {
    |page: usize, rect: PdfRect, shown: Seq<char>|
        exists|text: String| #[trigger] text@ == shown && call_ensures(f, (page, &rect), text)
}

/// What can come of one highlighter's stroke: the text that is read in its region, if
/// there is any.
pub open spec fn stroke_read(
    page: usize,
    stroke: InkStroke,
    reads: spec_fn(usize, PdfRect, Seq<char>) -> bool,
    marks: Seq<MarkView>,
) -> bool {
    match stroke.band {
        None => marks.len() == 0,
        Some(band) => exists|shown: Seq<char>| #[trigger]
            reads(page, band, shown) && marks == if shown.len() > 0 {
                seq![MarkView::Highlight { page: page as nat, text: shown, color: stroke.color }]
            } else {
                seq![]
            },
    }
}

/// What can come of the highlighter's strokes in turn.
pub open spec fn strokes_read(
    page: usize,
    strokes: Seq<InkStroke>,
    reads: spec_fn(usize, PdfRect, Seq<char>) -> bool,
    marks: Seq<MarkView>,
) -> bool
    decreases strokes.len(),
{
    if strokes.len() == 0 {
        marks.len() == 0
    } else if !strokes.last().highlighter {
        strokes_read(page, strokes.drop_last(), reads, marks)
    } else {
        exists|before: Seq<MarkView>, found: Seq<MarkView>|
            strokes_read(page, strokes.drop_last(), reads, before) && #[trigger] stroke_read(
                page,
                strokes.last(),
                reads,
                found,
            ) && marks == #[trigger] (before + found)
    }
}

/// What is read in one way is read in every wider one.
proof fn read_more_widely(
    page: usize,
    strokes: Seq<InkStroke>,
    reads: spec_fn(usize, PdfRect, Seq<char>) -> bool,
    wider: spec_fn(usize, PdfRect, Seq<char>) -> bool,
    marks: Seq<MarkView>,
)
    requires
        strokes_read(page, strokes, reads, marks),
        forall|p: usize, rect: PdfRect, shown: Seq<char>| #[trigger]
            reads(p, rect, shown) ==> wider(p, rect, shown),
    ensures
        strokes_read(page, strokes, wider, marks),
    decreases strokes.len(),
{
    if strokes.len() > 0 {
        if !strokes.last().highlighter {
            read_more_widely(page, strokes.drop_last(), reads, wider, marks);
        } else {
            let (before, found) = choose|before: Seq<MarkView>, found: Seq<MarkView>|
                strokes_read(page, strokes.drop_last(), reads, before) && #[trigger] stroke_read(
                    page,
                    strokes.last(),
                    reads,
                    found,
                ) && marks == #[trigger] (before + found);
            read_more_widely(page, strokes.drop_last(), reads, wider, before);
            if let Some(band) = strokes.last().band {
                let shown = choose|shown: Seq<char>| #[trigger]
                    reads(page, band, shown) && found == if shown.len() > 0 {
                        seq![
                            MarkView::Highlight {
                                page: page as nat,
                                text: shown,
                                color: strokes.last().color,
                            },
                        ]
                    } else {
                        seq![]
                    };
                assert(wider(page, band, shown));
            }
            assert(stroke_read(page, strokes.last(), wider, found));
            assert(before + found == marks);
        }
    }
}

/// The places of the strokes that are a pen's.
pub open spec fn pens(strokes: Seq<InkStroke>) -> Seq<usize>
    decreases strokes.len(),
{
    if strokes.len() == 0 {
        seq![]
    } else {
        let before = pens(strokes.drop_last());
        if strokes.last().highlighter {
            before
        } else {
            before.push((strokes.len() - 1) as usize)
        }
    }
}

/// The places of all strokes.
pub open spec fn places(n: nat) -> Seq<usize> {
    Seq::new(n, |i: int| i as usize)
}

/// How ink is rendered that stands for itself: on white.
pub open spec fn on_white() -> InkOpts {
    InkOpts { background: Background::White, margin_px: 16 }
}

/// How ink is rendered that stands for itself.
fn white() -> (o: InkOpts)
    ensures
        o == on_white(),
{
    let mut opts = InkOpts::default();
    opts.background = Background::White;
    opts
}

/// `out` is what `render` can give for the strokes at the places of the page, on white.
pub open spec fn drawn<R: Fn(usize, &Vec<usize>, &InkOpts) -> Result<Vec<u8>, String>>(
    render: &R,
    page: usize,
    at: Seq<usize>,
    out: Result<Vec<u8>, String>,
) -> bool {
    exists|v: Vec<usize>| #[trigger]
        v@ == at && call_ensures(render, (page, &v, &on_white()), out)
}

/// The page that stands before the inserted ones.
pub open spec fn last_source_page(source_pages: usize) -> nat {
    if source_pages == 0 {
        0
    } else {
        (source_pages - 1) as nat
    }
}

/// What can come of a page of the source: the highlights as the device has them,
/// then those that are read from ink, then the pens' strokes as one note.
pub open spec fn page_read<R: Fn(usize, &Vec<usize>, &InkOpts) -> Result<Vec<u8>, String>>(
    page: usize,
    highlights: Seq<TextHighlight>,
    strokes: Seq<InkStroke>,
    reads: spec_fn(usize, PdfRect, Seq<char>) -> bool,
    render: &R,
    read: Seq<MarkView>,
    r: Result<Seq<MarkView>, String>,
) -> bool {
    &&& strokes_read(page, strokes, reads, read)
    &&& if pens(strokes).len() == 0 {
        r == Ok::<Seq<MarkView>, String>(verbatim(page as nat, highlights) + read)
    } else {
        match r {
            Ok(marks) => exists|png: Vec<u8>| #[trigger]
                drawn(render, page, pens(strokes), Ok(png)) && marks == verbatim(page as nat, highlights)
                    + read + seq![MarkView::Note { page: page as nat, png: png@ }],
            Err(message) => drawn(render, page, pens(strokes), Err(message)),
        }
    }
}

/// What can come of a page that was inserted: its strokes as one image, where it has
/// any.
pub open spec fn inserted_read<R: Fn(usize, &Vec<usize>, &InkOpts) -> Result<Vec<u8>, String>>(
    page: usize,
    source_pages: usize,
    strokes: Seq<InkStroke>,
    render: &R,
    r: Result<Seq<MarkView>, String>,
) -> bool {
    let after_page = last_source_page(source_pages);
    if strokes.len() == 0 {
        r == Ok::<Seq<MarkView>, String>(seq![])
    } else {
        match r {
            Ok(marks) => exists|png: Vec<u8>| #[trigger]
                drawn(render, page, places(strokes.len()), Ok(png)) && marks == seq![
                    MarkView::InsertedPage { after_page, png: png@ },
                ],
            Err(message) => drawn(render, page, places(strokes.len()), Err(message)),
        }
    }
}

/// The marks that there are.
pub open spec fn marks_view(r: Result<Vec<Mark>, String>) -> Result<Seq<MarkView>, String> {
    match r {
        Ok(marks) => Ok(mark_views(marks@)),
        Err(message) => Err(message),
    }
}

/// What can come of a page: one behind the pages of the source is an inserted one.
pub open spec fn page_marked<R: Fn(usize, &Vec<usize>, &InkOpts) -> Result<Vec<u8>, String>>(
    page: usize,
    source_pages: usize,
    highlights: Seq<TextHighlight>,
    strokes: Seq<InkStroke>,
    reads: spec_fn(usize, PdfRect, Seq<char>) -> bool,
    render: &R,
    r: Result<Seq<MarkView>, String>,
) -> bool {
    if page >= source_pages {
        inserted_read(page, source_pages, strokes, render, r)
    } else {
        exists|read: Seq<MarkView>| #[trigger]
            page_read(page, highlights, strokes, reads, render, read, r)
    }
}

/// The marks of a page that was inserted.
fn inserted_marks<R: Fn(usize, &Vec<usize>, &InkOpts) -> Result<Vec<u8>, String>>(
    page: usize,
    source_pages: usize,
    strokes: &Vec<InkStroke>,
    render: &R,
) -> (r: Result<Vec<Mark>, String>)
    requires
        forall|p: usize, v: &Vec<usize>, o: &InkOpts| call_requires(render, (p, v, o)),
    ensures
        inserted_read(page, source_pages, strokes@, render, marks_view(r)),
{
    let mut marks: Vec<Mark> = Vec::new();
    if strokes.len() == 0 {
        assert(mark_views(marks@) =~= seq![]);
        return Ok(marks);
    }
    let mut at: Vec<usize> = Vec::new();
    let mut i: usize = 0;
    while i < strokes.len()
        invariant
            i <= strokes@.len(),
            at@ =~= places(i as nat),
        decreases strokes@.len() - i,
    {
        at.push(i);
        i = i + 1;
    }
    match render(page, &at, &white()) {
        Ok(png) => {
            assert(drawn(render, page, places(strokes@.len()), Ok(png)));
            let after_page = if source_pages == 0 {
                0
            } else {
                source_pages - 1
            };
            let ghost view = MarkView::InsertedPage { after_page: after_page as nat, png: png@ };
            marks.push(Mark::InsertedPage { after_page, png });
            assert(mark_views(marks@) =~= seq![view]);
            Ok(marks)
        },
        Err(message) => {
            assert(drawn(render, page, places(strokes@.len()), Err(message)));
            Err(message)
        },
    }
}

/// Classifies the marks of one page. `reconstruct` finds the text in a region of a
/// page, and `render` draws the strokes at the given places as it is told: on white.
pub fn page_marks<
    T: Fn(usize, &PdfRect) -> String,
    R: Fn(usize, &Vec<usize>, &InkOpts) -> Result<Vec<u8>, String>,
>(
    page_index: usize,
    source_pages: usize,
    text_highlights: &Vec<TextHighlight>,
    strokes: &Vec<InkStroke>,
    reconstruct: &T,
    render: &R,
) -> (r: Result<Vec<Mark>, String>)
    requires
        forall|p: usize, rect: &PdfRect| call_requires(reconstruct, (p, rect)),
        forall|p: usize, v: &Vec<usize>, o: &InkOpts| call_requires(render, (p, v, o)),
    ensures
        page_marked(
            page_index,
            source_pages,
            text_highlights@,
            strokes@,
            answers(reconstruct),
            render,
            marks_view(r),
        ),
{
    if page_index >= source_pages {
        return inserted_marks(page_index, source_pages, strokes, render);
    }
    let mut marks: Vec<Mark> = Vec::new();
    let mut i: usize = 0;
    while i < text_highlights.len()
        invariant
            i <= text_highlights@.len(),
            mark_views(marks@) =~= verbatim(page_index as nat, text_highlights@.take(i as int)),
        decreases text_highlights@.len() - i,
    {
        let h = &text_highlights[i];
        let ghost before = mark_views(marks@);
        let mark = Mark::Highlight {
            page: page_index,
            text: h.text.as_str().to_owned(),
            color: h.color,
        };
        let ghost view = mark@;
        marks.push(mark);
        assert(mark_views(marks@) =~= before.push(view));
        i = i + 1;
    }
    assert(text_highlights@.take(text_highlights@.len() as int) =~= text_highlights@);
    let ghost front = mark_views(marks@);
    let mut at: Vec<usize> = Vec::new();
    let ghost mut read: Seq<MarkView> = seq![];
    let mut j: usize = 0;
    assert(strokes@.take(0) =~= seq![]);
    assert(mark_views(marks@) =~= front + read);
    while j < strokes.len()
        invariant
            j <= strokes@.len(),
            forall|p: usize, rect: &PdfRect| call_requires(reconstruct, (p, rect)),
            mark_views(marks@) == front + read,
            strokes_read(page_index, strokes@.take(j as int), answers(reconstruct), read),
            at@ == pens(strokes@.take(j as int)),
        decreases strokes@.len() - j,
    {
        let stroke = &strokes[j];
        let ghost so_far = strokes@.take(j + 1);
        let ghost had = read;
        proof {
            assert(so_far.drop_last() =~= strokes@.take(j as int));
            assert(so_far.last() == *stroke);
        }
        if stroke.highlighter {
            match &stroke.band {
                Some(band) => {
                    let text = reconstruct(page_index, band);
                    let chars = text.as_str().unicode_len();
                    assert(answers(reconstruct)(page_index, *band, text@));
                    if chars > 0 {
                        let ghost before = mark_views(marks@);
                        let ghost view = MarkView::Highlight {
                            page: page_index as nat,
                            text: text@,
                            color: stroke.color,
                        };
                        assert(stroke_read(page_index, *stroke, answers(reconstruct), seq![view]));
                        marks.push(Mark::Highlight { page: page_index, text, color: stroke.color });
                        proof {
                            read = had + seq![view];
                            assert(mark_views(marks@) =~= before.push(view));
                            assert(before.push(view) =~= front + read);
                        }
                    } else {
                        assert(stroke_read(page_index, *stroke, answers(reconstruct), seq![]));
                        proof {
                            read = had + seq![];
                            assert(read =~= had);
                        }
                    }
                },
                None => {
                    assert(stroke_read(page_index, *stroke, answers(reconstruct), seq![]));
                    proof {
                        read = had + seq![];
                        assert(read =~= had);
                    }
                },
            }
            assert(strokes_read(page_index, so_far, answers(reconstruct), read));
        } else {
            at.push(j);
        }
        j = j + 1;
    }
    assert(strokes@.take(strokes@.len() as int) =~= strokes@);
    if at.len() > 0 {
        match render(page_index, &at, &white()) {
            Ok(png) => {
                assert(drawn(render, page_index, pens(strokes@), Ok(png)));
                let ghost before = mark_views(marks@);
                let ghost view = MarkView::Note { page: page_index as nat, png: png@ };
                marks.push(Mark::Note { page: page_index, png });
                assert(mark_views(marks@) =~= front + read + seq![view]);
            },
            Err(message) => {
                assert(drawn(render, page_index, pens(strokes@), Err(message)));
                assert(page_read(
                    page_index,
                    text_highlights@,
                    strokes@,
                    answers(reconstruct),
                    render,
                    read,
                    Err(message),
                ));
                return Err(message);
            },
        }
    }
    assert(page_read(
        page_index,
        text_highlights@,
        strokes@,
        answers(reconstruct),
        render,
        read,
        Ok(mark_views(marks@)),
    ));
    Ok(marks)
}

// ---------------------------------------------------------------------------
// The source PDF
// ---------------------------------------------------------------------------
/// The number of pages to take as the source's: as many as were found in it, or as
/// the notebook has where none were.
pub fn source_pages(found: usize, bundle_pages: usize) -> (n: usize)
    ensures
        n == if found > 0 {
            found
        } else {
            bundle_pages
        },
{
    if found > 0 {
        found
    } else {
        bundle_pages
    }
}

/// The number of pages that are the source's, where that is the document: as many as it
/// lists, or as the notebook has where it lists none or there is no document.
pub open spec fn counted(source: Option<PdfState>, bundle_pages: nat) -> nat {
    match source {
        Some(s) => if pdf::page_ids(s.objects, s.trailer).len() > 0 {
            pdf::page_ids(s.objects, s.trailer).len()
        } else {
            bundle_pages
        },
        None => bundle_pages,
    }
}

/// What the document holds.
pub open spec fn source_state(doc: Option<&Document>) -> Option<PdfState> {
    match doc {
        Some(doc) => Some(pdf::state(*doc)),
        None => None,
    }
}

/// How many pages are the source's, where that was read as the document; those behind
/// them were inserted.
pub fn count_pages(doc: Option<&Document>, bundle_pages: usize) -> (n: usize)
    ensures
        n == counted(source_state(doc), bundle_pages as nat),
        bundle_pages > 0 ==> n > 0,
{
    let found = match doc {
        Some(doc) => pages_of(doc).len(),
        None => 0,
    };
    source_pages(found, bundle_pages)
}

/// What can come of reading the source: of none, none.
pub open spec fn source_read(pdf: Option<&[u8]>, read: Option<Document>) -> bool {
    match pdf {
        Some(bytes) => reading::read_as(bytes@, read),
        None => read is None,
    }
}

/// What the document holds that was read.
pub open spec fn held(read: Option<Document>) -> Option<PdfState> {
    match read {
        Some(doc) => Some(pdf::state(doc)),
        None => None,
    }
}

/// How many pages are the source's; those behind them were inserted. A PDF that can
/// be read may still list no pages. To take that for an answer would make every page
/// an inserted one and drop its highlights, so the notebook's own number stands in
/// for it, as for a PDF that is missing or cannot be read.
pub fn effective_source_pages(pdf: Option<&[u8]>, bundle_pages: usize) -> (n: usize)
    ensures
        exists|read: Option<Document>| #[trigger]
            source_read(pdf, read) && n == counted(held(read), bundle_pages as nat),
        pdf is None ==> n == bundle_pages,
        bundle_pages > 0 ==> n > 0,
{
    let read = match pdf {
        Some(bytes) => reading::read(bytes),
        None => None,
    };
    assert(source_read(pdf, read));
    match &read {
        Some(doc) => count_pages(Some(doc), bundle_pages),
        None => count_pages(None, bundle_pages),
    }
}

/// The box of the page under the number behind `index`, or else of the first page;
/// only the page's own counts.
pub open spec fn own_box(s: PdfState, index: usize) -> Option<Seq<PdfValue>> {
    let ids = pdf::page_ids(s.objects, s.trailer);
    let n = (index + 1) as u32;
    if ids.len() == 0 {
        None
    } else {
        let id = if n > 0 && n <= ids.len() {
            ids[n - 1]
        } else {
            ids[0]
        };
        match pdf::dict_at(s.objects, id) {
            Some(page) => pdf::array_at(page, pdf::key("MediaBox")),
            None => None,
        }
    }
}

/// Finds the box by which the ink of a page is placed.
pub fn page_box(doc: &Document, index: usize) -> (r: Option<&Vec<Object>>)
    requires
        index < usize::MAX,
    ensures
        pdf::array_view(r) == own_box(pdf::state(*doc), index),
{
    let ids = pages_of(doc);
    if ids.len() == 0 {
        return None;
    }
    let n = (index + 1) as u32;
    let id = if n > 0 && n as usize <= ids.len() {
        ids[n as usize - 1]
    } else {
        ids[0]
    };
    match doc.get_dictionary(id) {
        Ok(page) => get_array(page, "MediaBox"),
        Err(_) => None,
    }
}

// ---------------------------------------------------------------------------
// All pages
// ---------------------------------------------------------------------------
/// What is drawn on a page.
#[derive(Debug)]
pub struct Scene {
    pub text_highlights: Vec<TextHighlight>,
    pub strokes: Vec<InkStroke>,
}

/// A page of a notebook; one that was never drawn on has no scene.
#[derive(Debug)]
pub struct NotePage {
    pub index: usize,
    pub scene: Option<Scene>,
}

/// Why marks could not be extracted.
#[derive(Debug)]
pub enum ExtractError {
    /// The source PDF cannot be read.
    Source,
    /// Ink could not be rendered.
    Render(String),
}

/// `shown` can be the text under a region: there is none without a text layer.
pub open spec fn looked_up<I: Fn(&PdfRect, &PdfRect) -> bool>(
    layer: Option<TextLayer>,
    intersects: &I,
    page: usize,
    rect: PdfRect,
    shown: Seq<char>,
) -> bool {
    match layer {
        Some(layer) => layer.under(page, rect, intersects, shown),
        None => shown.len() == 0,
    }
}

/// Finds the text under a region.
pub fn look_up<I: Fn(&PdfRect, &PdfRect) -> bool>(
    layer: &Option<TextLayer>,
    intersects: &I,
    page: usize,
    rect: &PdfRect,
) -> (r: String)
    requires
        forall|a: &PdfRect, b: &PdfRect| call_requires(intersects, (a, b)),
    ensures
        looked_up(*layer, intersects, page, *rect, r@),
{
    match layer {
        Some(layer) => layer.words_under(page, rect, intersects),
        None => {
            let none = String::new();
            none
        },
    }
}

/// What can come of one page: nothing where it did not change or was never drawn on.
pub open spec fn note_read<R: Fn(usize, &Vec<usize>, &InkOpts) -> Result<Vec<u8>, String>>(
    page: NotePage,
    changed: Seq<usize>,
    source_pages: usize,
    reads: spec_fn(usize, PdfRect, Seq<char>) -> bool,
    render: &R,
    r: Result<Seq<MarkView>, String>,
) -> bool {
    match page.scene {
        Some(scene) if changed.contains(page.index) => page_marked(
            page.index,
            source_pages,
            scene.text_highlights@,
            scene.strokes@,
            reads,
            render,
            r,
        ),
        _ => r == Ok::<Seq<MarkView>, String>(seq![]),
    }
}

/// What can come of the pages in turn: their marks, one page after the other. The
/// first that fails ends it.
pub open spec fn notes_read<R: Fn(usize, &Vec<usize>, &InkOpts) -> Result<Vec<u8>, String>>(
    pages: Seq<NotePage>,
    changed: Seq<usize>,
    source_pages: usize,
    reads: spec_fn(usize, PdfRect, Seq<char>) -> bool,
    render: &R,
    marks: Seq<MarkView>,
) -> bool
    decreases pages.len(),
{
    if pages.len() == 0 {
        marks.len() == 0
    } else {
        exists|before: Seq<MarkView>, found: Seq<MarkView>|
            notes_read(pages.drop_last(), changed, source_pages, reads, render, before)
                && #[trigger] note_read(
                pages.last(),
                changed,
                source_pages,
                reads,
                render,
                Ok(found),
            ) && marks == #[trigger] (before + found)
    }
}

/// How the pages in turn can fail: at one of them, those before it having worked.
pub open spec fn notes_failed<R: Fn(usize, &Vec<usize>, &InkOpts) -> Result<Vec<u8>, String>>(
    pages: Seq<NotePage>,
    changed: Seq<usize>,
    source_pages: usize,
    reads: spec_fn(usize, PdfRect, Seq<char>) -> bool,
    render: &R,
    message: String,
) -> bool {
    exists|n: int, before: Seq<MarkView>|
        0 <= n < pages.len() && #[trigger] notes_read(
            pages.take(n),
            changed,
            source_pages,
            reads,
            render,
            before,
        ) && note_read(pages[n], changed, source_pages, reads, render, Err(message))
}

/// How text is read by way of the text layer.
pub open spec fn layer_reads<I: Fn(&PdfRect, &PdfRect) -> bool>(
    layer: Option<TextLayer>,
    intersects: &I,
) -> spec_fn(usize, PdfRect, Seq<char>) -> bool {
    |page: usize, rect: PdfRect, shown: Seq<char>| looked_up(layer, intersects, page, rect, shown)
}

/// Whether the place is among those.
fn is_among(places: &Vec<usize>, n: usize) -> (r: bool)
    ensures
        r == places@.contains(n),
{
    let mut i: usize = 0;
    while i < places.len()
        invariant
            i <= places@.len(),
            forall|j: int| 0 <= j < i ==> places@[j] != n,
        decreases places@.len() - i,
    {
        if places[i] == n {
            assert(places@[i as int] == n);
            return true;
        }
        i = i + 1;
    }
    false
}

/// The marks of one page of a notebook.
fn note_marks<
    I: Fn(&PdfRect, &PdfRect) -> bool,
    R: Fn(usize, &Vec<usize>, &InkOpts) -> Result<Vec<u8>, String>,
>(
    page: &NotePage,
    changed: &Vec<usize>,
    source_pages: usize,
    layer: &Option<TextLayer>,
    intersects: &I,
    render: &R,
) -> (r: Result<Vec<Mark>, String>)
    requires
        forall|a: &PdfRect, b: &PdfRect| call_requires(intersects, (a, b)),
        forall|p: usize, v: &Vec<usize>, o: &InkOpts| call_requires(render, (p, v, o)),
    ensures
        note_read(
            *page,
            changed@,
            source_pages,
            layer_reads(*layer, intersects),
            render,
            marks_view(r),
        ),
{
    match &page.scene {
        Some(scene) => {
            if is_among(changed, page.index) {
                let reconstruct = |p: usize, rect: &PdfRect| -> (text: String)
                    ensures
                        looked_up(*layer, intersects, p, *rect, text@),
                    { look_up(layer, intersects, p, rect) };
                let r = page_marks(
                    page.index,
                    source_pages,
                    &scene.text_highlights,
                    &scene.strokes,
                    &reconstruct,
                    render,
                );
                proof {
                    let reads = answers(&reconstruct);
                    let wider = layer_reads(*layer, intersects);
                    if page.index < source_pages {
                        let read = choose|read: Seq<MarkView>| #[trigger]
                            page_read(
                                page.index,
                                scene.text_highlights@,
                                scene.strokes@,
                                reads,
                                render,
                                read,
                                marks_view(r),
                            );
                        read_more_widely(page.index, scene.strokes@, reads, wider, read);
                        assert(page_read(
                            page.index,
                            scene.text_highlights@,
                            scene.strokes@,
                            wider,
                            render,
                            read,
                            marks_view(r),
                        ));
                    }
                }
                return r;
            }
        },
        None => {},
    }
    let none: Vec<Mark> = Vec::new();
    assert(mark_views(none@) =~= seq![]);
    Ok(none)
}

/// What can come of the pages, where the source was read as the document, if there is
/// one.
pub open spec fn extracted<R: Fn(usize, &Vec<usize>, &InkOpts) -> Result<Vec<u8>, String>>(
    pages: Seq<NotePage>,
    changed: Seq<usize>,
    source: Option<PdfState>,
    reads: spec_fn(usize, PdfRect, Seq<char>) -> bool,
    render: &R,
    r: Result<Seq<MarkView>, String>,
) -> bool {
    let source_pages = counted(source, pages.len()) as usize;
    match r {
        Ok(marks) => notes_read(
            pages,
            changed,
            source_pages,
            reads,
            render,
            marks,
        ),
        Err(message) => notes_failed(pages, changed, source_pages, reads, render, message),
    }
}

/// What can be told of the pages, where the source was read as the document, if there
/// is one.
pub open spec fn told_of<R: Fn(usize, &Vec<usize>, &InkOpts) -> Result<Vec<u8>, String>>(
    pages: Seq<NotePage>,
    changed: Seq<usize>,
    source: Option<PdfState>,
    reads: spec_fn(usize, PdfRect, Seq<char>) -> bool,
    render: &R,
    r: Result<Vec<Mark>, ExtractError>,
) -> bool {
    exists|made: Result<Vec<Mark>, String>| #[trigger]
        extracted(pages, changed, source, reads, render, marks_view(made)) && r == told(made)
}

/// Extracts the marks of the pages that changed, in the order of the pages. The source
/// PDF has to be readable where there is one. `intersects` tells whether two rectangles
/// overlap, and `render` draws strokes of a page. What [`extract_from`] makes of the
/// document that was read is what comes of it.
pub fn extract<
    I: Fn(&PdfRect, &PdfRect) -> bool,
    R: Fn(usize, &Vec<usize>, &InkOpts) -> Result<Vec<u8>, String>,
>(
    pages: &Vec<NotePage>,
    changed: &Vec<usize>,
    pdf: Option<&[u8]>,
    layer: &Option<TextLayer>,
    intersects: &I,
    render: &R,
) -> (r: Result<Vec<Mark>, ExtractError>)
    requires
        forall|a: &PdfRect, b: &PdfRect| call_requires(intersects, (a, b)),
        forall|p: usize, v: &Vec<usize>, o: &InkOpts| call_requires(render, (p, v, o)),
    ensures
        exists|read: Option<Document>| #[trigger]
            source_read(pdf, read) && if pdf is Some && read is None {
                r == Err::<Vec<Mark>, ExtractError>(ExtractError::Source)
            } else {
                told_of(pages@, changed@, held(read), layer_reads(*layer, intersects), render, r)
            },
{
    let read = match pdf {
        Some(bytes) => reading::read(bytes),
        None => None,
    };
    assert(source_read(pdf, read));
    let doc = match &read {
        Some(doc) => Some(doc),
        None => if pdf.is_some() {
            return Err(ExtractError::Source);
        } else {
            None
        },
    };
    let made = extract_from(pages, changed, doc, layer, intersects, render);
    let ghost reads = layer_reads(*layer, intersects);
    assert(extracted(pages@, changed@, held(read), reads, render, marks_view(made)));
    match made {
        Ok(marks) => Ok(marks),
        Err(message) => Err(ExtractError::Render(message)),
    }
}

/// What is told of the marks, or of what went wrong with the ink.
pub open spec fn told(made: Result<Vec<Mark>, String>) -> Result<Vec<Mark>, ExtractError> {
    match made {
        Ok(marks) => Ok(marks),
        Err(message) => Err(ExtractError::Render(message)),
    }
}

/// Extracts the marks of the pages that changed, in the order of the pages, where the
/// source was read as the document, if there is one.
pub fn extract_from<
    I: Fn(&PdfRect, &PdfRect) -> bool,
    R: Fn(usize, &Vec<usize>, &InkOpts) -> Result<Vec<u8>, String>,
>(
    pages: &Vec<NotePage>,
    changed: &Vec<usize>,
    doc: Option<&Document>,
    layer: &Option<TextLayer>,
    intersects: &I,
    render: &R,
) -> (r: Result<Vec<Mark>, String>)
    requires
        forall|a: &PdfRect, b: &PdfRect| call_requires(intersects, (a, b)),
        forall|p: usize, v: &Vec<usize>, o: &InkOpts| call_requires(render, (p, v, o)),
    ensures
        extracted(
            pages@,
            changed@,
            source_state(doc),
            layer_reads(*layer, intersects),
            render,
            marks_view(r),
        ),
{
    let n = count_pages(doc, pages.len());
    let ghost reads = layer_reads(*layer, intersects);
    let mut all: Vec<Mark> = Vec::new();
    let mut i: usize = 0;
    assert(pages@.take(0) =~= seq![]);
    while i < pages.len()
        invariant
            i <= pages@.len(),
            reads == layer_reads(*layer, intersects),
            forall|a: &PdfRect, b: &PdfRect| call_requires(intersects, (a, b)),
            forall|p: usize, v: &Vec<usize>, o: &InkOpts| call_requires(render, (p, v, o)),
            notes_read(pages@.take(i as int), changed@, n, reads, render, mark_views(all@)),
            n == counted(source_state(doc), pages@.len()),
        decreases pages@.len() - i,
    {
        let ghost before = mark_views(all@);
        let mut marks = match note_marks(&pages[i], changed, n, layer, intersects, render) {
            Ok(marks) => marks,
            Err(message) => {
                assert(note_read(pages@[i as int], changed@, n, reads, render, Err(message)));
                return Err(message);
            },
        };
        let ghost found = mark_views(marks@);
        all.append(&mut marks);
        proof {
            assert(mark_views(all@) =~= before + found);
            assert(pages@.take(i + 1).drop_last() =~= pages@.take(i as int));
            assert(note_read(pages@.take(i + 1).last(), changed@, n, reads, render, Ok(found)));
            assert(notes_read(
                pages@.take(i + 1),
                changed@,
                n,
                reads,
                render,
                mark_views(all@),
            ));
        }
        i = i + 1;
    }
    assert(pages@.take(pages@.len() as int) =~= pages@);
    Ok(all)
}

// ---------------------------------------------------------------------------
// What a page gives
// ---------------------------------------------------------------------------
/// An inserted page gives no highlight and no note, and at most one image.
pub proof fn inserted_pages_are_whole<R: Fn(usize, &Vec<usize>, &InkOpts) -> Result<Vec<u8>, String>>(
    page: usize,
    source_pages: usize,
    highlights: Seq<TextHighlight>,
    strokes: Seq<InkStroke>,
    reads: spec_fn(usize, PdfRect, Seq<char>) -> bool,
    render: &R,
    marks: Seq<MarkView>,
)
    requires
        page >= source_pages,
        page_marked(page, source_pages, highlights, strokes, reads, render, Ok(marks)),
    ensures
        marks.len() <= 1,
        marks.len() == 1 <==> strokes.len() > 0,
        forall|i: int| 0 <= i < marks.len() ==> #[trigger] marks[i] is InsertedPage,
{
}

/// A page of the source gives the text that the device took over first, as it is and
/// in its order.
pub proof fn highlights_stay_verbatim<R: Fn(usize, &Vec<usize>, &InkOpts) -> Result<Vec<u8>, String>>(
    page: usize,
    source_pages: usize,
    highlights: Seq<TextHighlight>,
    strokes: Seq<InkStroke>,
    reads: spec_fn(usize, PdfRect, Seq<char>) -> bool,
    render: &R,
    marks: Seq<MarkView>,
)
    requires
        page < source_pages,
        page_marked(page, source_pages, highlights, strokes, reads, render, Ok(marks)),
    ensures
        marks.len() >= highlights.len(),
        marks.take(highlights.len() as int) == verbatim(page as nat, highlights),
{
    assert(marks.take(highlights.len() as int) =~= verbatim(page as nat, highlights));
}

/// What is read from ink are highlights of the page.
proof fn only_highlights_are_read(
    page: usize,
    strokes: Seq<InkStroke>,
    reads: spec_fn(usize, PdfRect, Seq<char>) -> bool,
    marks: Seq<MarkView>,
)
    requires
        strokes_read(page, strokes, reads, marks),
    ensures
        forall|i: int|
            0 <= i < marks.len() ==> (#[trigger] marks[i] matches MarkView::Highlight { page: p, .. }
                && p == page),
    decreases strokes.len(),
{
    if strokes.len() > 0 {
        if !strokes.last().highlighter {
            only_highlights_are_read(page, strokes.drop_last(), reads, marks);
        } else {
            let (before, found) = choose|before: Seq<MarkView>, found: Seq<MarkView>|
                strokes_read(page, strokes.drop_last(), reads, before) && #[trigger] stroke_read(
                    page,
                    strokes.last(),
                    reads,
                    found,
                ) && marks == #[trigger] (before + found);
            only_highlights_are_read(page, strokes.drop_last(), reads, before);
            assert forall|i: int| 0 <= i < marks.len() implies (
            #[trigger] marks[i] matches MarkView::Highlight { page: p, .. } && p == page) by {
                if i < before.len() {
                    assert(marks[i] == before[i]);
                } else {
                    assert(marks[i] == found[i - before.len()]);
                }
            }
        }
    }
}

/// A page of the source gives highlights of that page, and behind them one note of it
/// exactly where a pen wrote on it.
pub proof fn pens_give_one_note<R: Fn(usize, &Vec<usize>, &InkOpts) -> Result<Vec<u8>, String>>(
    page: usize,
    source_pages: usize,
    highlights: Seq<TextHighlight>,
    strokes: Seq<InkStroke>,
    reads: spec_fn(usize, PdfRect, Seq<char>) -> bool,
    render: &R,
    marks: Seq<MarkView>,
)
    requires
        page < source_pages,
        page_marked(page, source_pages, highlights, strokes, reads, render, Ok(marks)),
    ensures
        forall|i: int|
            0 <= i < marks.len() ==> match #[trigger] marks[i] {
                MarkView::Highlight { page: p, .. } => p == page,
                MarkView::Note { page: p, .. } => p == page && i == marks.len() - 1
                    && pens(strokes).len() > 0,
                MarkView::InsertedPage { .. } => false,
            },
        pens(strokes).len() > 0 ==> marks.len() > 0 && marks.last() is Note,
{
    let read = choose|read: Seq<MarkView>| #[trigger]
        page_read(page, highlights, strokes, reads, render, read, Ok(marks));
    only_highlights_are_read(page, strokes, reads, read);
    let front = verbatim(page as nat, highlights);
    assert forall|i: int| 0 <= i < front.len() + read.len() implies (
    #[trigger] marks[i] matches MarkView::Highlight { page: p, .. } && p == page) by {
        if i < front.len() {
            assert(marks[i] == front[i]);
        } else {
            assert(marks[i] == read[i - front.len()]);
        }
    }
}

/// Every mark comes from a page that changed: a highlight or a note is on one, and an
/// inserted page is one.
pub proof fn marks_come_from_changed_pages<R: Fn(usize, &Vec<usize>, &InkOpts) -> Result<Vec<u8>, String>>(
    pages: Seq<NotePage>,
    changed: Seq<usize>,
    source_pages: usize,
    reads: spec_fn(usize, PdfRect, Seq<char>) -> bool,
    render: &R,
    marks: Seq<MarkView>,
    i: int,
)
    requires
        notes_read(pages, changed, source_pages, reads, render, marks),
        0 <= i < marks.len(),
    ensures
        exists|j: int|
            0 <= j < pages.len() && changed.contains((#[trigger] pages[j]).index) && match marks[i] {
                MarkView::Highlight { page, .. } => page == pages[j].index && page < source_pages,
                MarkView::Note { page, .. } => page == pages[j].index && page < source_pages,
                MarkView::InsertedPage { after_page, .. } => pages[j].index >= source_pages
                    && after_page == last_source_page(source_pages),
            },
    decreases pages.len(),
{
    let (before, found) = choose|before: Seq<MarkView>, found: Seq<MarkView>|
        notes_read(pages.drop_last(), changed, source_pages, reads, render, before)
            && #[trigger] note_read(
            pages.last(),
            changed,
            source_pages,
            reads,
            render,
            Ok(found),
        ) && marks == #[trigger] (before + found);
    if i < before.len() {
        assert(marks[i] == before[i]);
        marks_come_from_changed_pages(
            pages.drop_last(),
            changed,
            source_pages,
            reads,
            render,
            before,
            i,
        );
        let j = choose|j: int|
            0 <= j < pages.drop_last().len() && changed.contains(
                (#[trigger] pages.drop_last()[j]).index,
            ) && match marks[i] {
                MarkView::Highlight { page, .. } => page == pages.drop_last()[j].index && page
                    < source_pages,
                MarkView::Note { page, .. } => page == pages.drop_last()[j].index && page
                    < source_pages,
                MarkView::InsertedPage { after_page, .. } => pages.drop_last()[j].index
                    >= source_pages && after_page == last_source_page(source_pages),
            };
        assert(pages[j] == pages.drop_last()[j]);
    } else {
        let last = pages[pages.len() - 1];
        assert(marks[i] == found[i - before.len()]);
        let scene = last.scene->0;
        if last.index < source_pages {
            pens_give_one_note(
                last.index,
                source_pages,
                scene.text_highlights@,
                scene.strokes@,
                reads,
                render,
                found,
            );
        }
        assert(changed.contains(last.index));
    }
}

/// The marks are those of the pages one by one: each page that changed gives what it
/// gives where it alone changed, every other gives nothing, and the marks of the pages
/// stand one after the other.
pub proof fn pages_are_read_one_by_one<
    R: Fn(usize, &Vec<usize>, &InkOpts) -> Result<Vec<u8>, String>,
>(
    pages: Seq<NotePage>,
    changed: Seq<usize>,
    source_pages: usize,
    reads: spec_fn(usize, PdfRect, Seq<char>) -> bool,
    render: &R,
    marks: Seq<MarkView>,
) -> (parts: Seq<Seq<MarkView>>)
    requires
        notes_read(pages, changed, source_pages, reads, render, marks),
    ensures
        parts.len() == pages.len(),
        marks == parts.flatten(),
        forall|j: int|
            0 <= j < pages.len() ==> #[trigger] notes_read(
                seq![pages[j]],
                alone(pages[j], changed),
                source_pages,
                reads,
                render,
                parts[j],
            ),
    decreases pages.len(),
{
    if pages.len() == 0 {
        let parts: Seq<Seq<MarkView>> = seq![];
        assert(marks =~= parts.flatten());
        parts
    } else {
        let (before, found) = choose|before: Seq<MarkView>, found: Seq<MarkView>|
            notes_read(pages.drop_last(), changed, source_pages, reads, render, before)
                && #[trigger] note_read(
                pages.last(),
                changed,
                source_pages,
                reads,
                render,
                Ok(found),
            ) && marks == #[trigger] (before + found);
        let rest = pages_are_read_one_by_one(
            pages.drop_last(),
            changed,
            source_pages,
            reads,
            render,
            before,
        );
        let parts = rest.push(found);
        rest.lemma_flatten_push(found);
        let own = alone(pages.last(), changed);
        if changed.contains(pages.last().index) {
            assert(own[0] == pages.last().index);
        }
        assert(note_read(pages.last(), own, source_pages, reads, render, Ok(found)));
        let one = seq![pages.last()];
        assert(one.drop_last() =~= seq![]);
        let nothing: Seq<MarkView> = seq![];
        assert(notes_read(one.drop_last(), own, source_pages, reads, render, nothing));
        assert(nothing + found =~= found);
        assert(note_read(one.last(), own, source_pages, reads, render, Ok(found)));
        assert(notes_read(one, own, source_pages, reads, render, found));
        assert forall|j: int| 0 <= j < pages.len() implies #[trigger] notes_read(
            seq![pages[j]],
            alone(pages[j], changed),
            source_pages,
            reads,
            render,
            parts[j],
        ) by {
            if j < rest.len() {
                assert(pages.drop_last()[j] == pages[j]);
                assert(notes_read(
                    seq![pages.drop_last()[j]],
                    alone(pages.drop_last()[j], changed),
                    source_pages,
                    reads,
                    render,
                    rest[j],
                ));
            }
        }
        parts
    }
}

/// The page alone, if it changed.
pub open spec fn alone(page: NotePage, changed: Seq<usize>) -> Seq<usize> {
    if changed.contains(page.index) {
        seq![page.index]
    } else {
        seq![]
    }
}

/// Only whether a page is among those that changed makes a difference: in which order
/// they are given, how often, and which there are beside the pages, does not.
pub proof fn membership_is_what_counts<
    R: Fn(usize, &Vec<usize>, &InkOpts) -> Result<Vec<u8>, String>,
>(
    pages: Seq<NotePage>,
    changed: Seq<usize>,
    others: Seq<usize>,
    source: Option<PdfState>,
    reads: spec_fn(usize, PdfRect, Seq<char>) -> bool,
    render: &R,
    r: Result<Seq<MarkView>, String>,
)
    requires
        forall|j: int|
            0 <= j < pages.len() ==> changed.contains((#[trigger] pages[j]).index)
                == others.contains(pages[j].index),
    ensures
        extracted(pages, changed, source, reads, render, r) == extracted(
            pages,
            others,
            source,
            reads,
            render,
            r,
        ),
{
    let n = counted(source, pages.len()) as usize;
    match r {
        Ok(marks) => {
            read_alike(pages, changed, others, n, reads, render, marks);
            read_alike(pages, others, changed, n, reads, render, marks);
        },
        Err(message) => {
            fails_alike(pages, changed, others, n, reads, render, message);
            fails_alike(pages, others, changed, n, reads, render, message);
        },
    }
}

/// What comes of the pages comes of them where the same ones changed.
proof fn read_alike<R: Fn(usize, &Vec<usize>, &InkOpts) -> Result<Vec<u8>, String>>(
    pages: Seq<NotePage>,
    changed: Seq<usize>,
    others: Seq<usize>,
    source_pages: usize,
    reads: spec_fn(usize, PdfRect, Seq<char>) -> bool,
    render: &R,
    marks: Seq<MarkView>,
)
    requires
        forall|j: int|
            0 <= j < pages.len() ==> changed.contains((#[trigger] pages[j]).index)
                == others.contains(pages[j].index),
    ensures
        notes_read(pages, changed, source_pages, reads, render, marks) ==> notes_read(
            pages,
            others,
            source_pages,
            reads,
            render,
            marks,
        ),
    decreases pages.len(),
{
    if pages.len() > 0 && notes_read(pages, changed, source_pages, reads, render, marks) {
        let (before, found) = choose|before: Seq<MarkView>, found: Seq<MarkView>|
            notes_read(pages.drop_last(), changed, source_pages, reads, render, before)
                && #[trigger] note_read(
                pages.last(),
                changed,
                source_pages,
                reads,
                render,
                Ok(found),
            ) && marks == #[trigger] (before + found);
        assert forall|j: int| 0 <= j < pages.drop_last().len() implies changed.contains(
            (#[trigger] pages.drop_last()[j]).index,
        ) == others.contains(pages.drop_last()[j].index) by {
            assert(pages[j] == pages.drop_last()[j]);
        }
        read_alike(pages.drop_last(), changed, others, source_pages, reads, render, before);
        assert(pages[pages.len() - 1] == pages.last());
        assert(note_read(pages.last(), others, source_pages, reads, render, Ok(found)));
        assert(marks == before + found);
    }
}

/// The pages fail as they do where the same ones changed.
proof fn fails_alike<R: Fn(usize, &Vec<usize>, &InkOpts) -> Result<Vec<u8>, String>>(
    pages: Seq<NotePage>,
    changed: Seq<usize>,
    others: Seq<usize>,
    source_pages: usize,
    reads: spec_fn(usize, PdfRect, Seq<char>) -> bool,
    render: &R,
    message: String,
)
    requires
        forall|j: int|
            0 <= j < pages.len() ==> changed.contains((#[trigger] pages[j]).index)
                == others.contains(pages[j].index),
    ensures
        notes_failed(pages, changed, source_pages, reads, render, message) ==> notes_failed(
            pages,
            others,
            source_pages,
            reads,
            render,
            message,
        ),
{
    if notes_failed(pages, changed, source_pages, reads, render, message) {
        let (n, before) = choose|n: int, before: Seq<MarkView>|
            0 <= n < pages.len() && #[trigger] notes_read(
                pages.take(n),
                changed,
                source_pages,
                reads,
                render,
                before,
            ) && note_read(pages[n], changed, source_pages, reads, render, Err(message));
        assert forall|j: int| 0 <= j < pages.take(n).len() implies changed.contains(
            (#[trigger] pages.take(n)[j]).index,
        ) == others.contains(pages.take(n)[j].index) by {
            assert(pages[j] == pages.take(n)[j]);
        }
        read_alike(pages.take(n), changed, others, source_pages, reads, render, before);
        assert(notes_read(pages.take(n), others, source_pages, reads, render, before));
    }
}

/// Where no page changed, there are no marks, and nothing fails.
pub proof fn nothing_changed_gives_nothing<
    R: Fn(usize, &Vec<usize>, &InkOpts) -> Result<Vec<u8>, String>,
>(
    pages: Seq<NotePage>,
    changed: Seq<usize>,
    source: Option<PdfState>,
    reads: spec_fn(usize, PdfRect, Seq<char>) -> bool,
    render: &R,
    r: Result<Seq<MarkView>, String>,
)
    requires
        forall|j: int| 0 <= j < pages.len() ==> !changed.contains((#[trigger] pages[j]).index),
    ensures
        extracted(pages, changed, source, reads, render, r) <==> r == Ok::<Seq<MarkView>, String>(
            seq![],
        ),
{
    let n = counted(source, pages.len()) as usize;
    match r {
        Ok(marks) => {
            unchanged_pages_give_nothing(pages, changed, n, reads, render, marks);
            if marks == Seq::<MarkView>::empty() {
                assert(notes_read(pages, changed, n, reads, render, marks));
            }
        },
        Err(_) => {},
    }
}

/// Pages that did not change give no marks.
proof fn unchanged_pages_give_nothing<R: Fn(usize, &Vec<usize>, &InkOpts) -> Result<Vec<u8>, String>>(
    pages: Seq<NotePage>,
    changed: Seq<usize>,
    source_pages: usize,
    reads: spec_fn(usize, PdfRect, Seq<char>) -> bool,
    render: &R,
    marks: Seq<MarkView>,
)
    requires
        forall|j: int| 0 <= j < pages.len() ==> !changed.contains((#[trigger] pages[j]).index),
    ensures
        notes_read(pages, changed, source_pages, reads, render, marks) <==> marks == Seq::<
            MarkView,
        >::empty(),
    decreases pages.len(),
{
    let none = Seq::<MarkView>::empty();
    if pages.len() == 0 {
        if marks.len() == 0 {
            assert(marks =~= none);
        }
    } else {
        let rest = pages.drop_last();
        assert forall|j: int| 0 <= j < rest.len() implies !changed.contains(
            (#[trigger] rest[j]).index,
        ) by {
            assert(pages[j] == rest[j]);
        }
        assert(pages[pages.len() - 1] == pages.last());
        if notes_read(pages, changed, source_pages, reads, render, marks) {
            let (before, found) = choose|before: Seq<MarkView>, found: Seq<MarkView>|
                notes_read(rest, changed, source_pages, reads, render, before)
                    && #[trigger] note_read(
                    pages.last(),
                    changed,
                    source_pages,
                    reads,
                    render,
                    Ok(found),
                ) && marks == #[trigger] (before + found);
            unchanged_pages_give_nothing(rest, changed, source_pages, reads, render, before);
            assert(marks =~= none);
        }
        if marks == none {
            unchanged_pages_give_nothing(rest, changed, source_pages, reads, render, none);
            assert(note_read(pages.last(), changed, source_pages, reads, render, Ok(none)));
            assert(none + none =~= none);
        }
    }
}

/// The text under a region, and the image of strokes, are always the same.
pub open spec fn steady<R: Fn(usize, &Vec<usize>, &InkOpts) -> Result<Vec<u8>, String>>(
    reads: spec_fn(usize, PdfRect, Seq<char>) -> bool,
    render: &R,
) -> bool {
    &&& forall|page: usize, rect: PdfRect, a: Seq<char>, b: Seq<char>| #[trigger]
        reads(page, rect, a) && #[trigger] reads(page, rect, b) ==> a == b
    &&& forall|page: usize, at: Seq<usize>, a: Vec<u8>, b: Vec<u8>| #[trigger]
        drawn(render, page, at, Ok(a)) && #[trigger] drawn(render, page, at, Ok(b)) ==> a@ == b@
}

/// The text under a region is always the same by way of a text layer, where one thing is
/// said of two rectangles.
pub proof fn layers_are_steady<I: Fn(&PdfRect, &PdfRect) -> bool>(
    layer: Option<TextLayer>,
    intersects: &I,
    page: usize,
    rect: PdfRect,
    a: Seq<char>,
    b: Seq<char>,
)
    requires
        textlayer::settled(intersects),
        layer_reads(layer, intersects)(page, rect, a),
        layer_reads(layer, intersects)(page, rect, b),
    ensures
        a == b,
{
    match layer {
        Some(layer) => textlayer::text_under_is_unique(layer, page, rect, intersects, a, b),
        None => assert(a =~= b),
    }
}

/// Strokes are read in one way.
proof fn strokes_are_read_once(
    page: usize,
    strokes: Seq<InkStroke>,
    reads: spec_fn(usize, PdfRect, Seq<char>) -> bool,
    a: Seq<MarkView>,
    b: Seq<MarkView>,
)
    requires
        forall|p: usize, rect: PdfRect, a: Seq<char>, b: Seq<char>| #[trigger]
            reads(p, rect, a) && #[trigger] reads(p, rect, b) ==> a == b,
        strokes_read(page, strokes, reads, a),
        strokes_read(page, strokes, reads, b),
    ensures
        a == b,
    decreases strokes.len(),
{
    if strokes.len() == 0 {
        assert(a =~= b);
    } else if !strokes.last().highlighter {
        strokes_are_read_once(page, strokes.drop_last(), reads, a, b);
    } else {
        let (a0, a1) = choose|before: Seq<MarkView>, found: Seq<MarkView>|
            strokes_read(page, strokes.drop_last(), reads, before) && #[trigger] stroke_read(
                page,
                strokes.last(),
                reads,
                found,
            ) && a == #[trigger] (before + found);
        let (b0, b1) = choose|before: Seq<MarkView>, found: Seq<MarkView>|
            strokes_read(page, strokes.drop_last(), reads, before) && #[trigger] stroke_read(
                page,
                strokes.last(),
                reads,
                found,
            ) && b == #[trigger] (before + found);
        strokes_are_read_once(page, strokes.drop_last(), reads, a0, b0);
        assert(a1 == b1);
    }
}

/// A page gives its marks in one way.
proof fn note_is_read_once<R: Fn(usize, &Vec<usize>, &InkOpts) -> Result<Vec<u8>, String>>(
    page: NotePage,
    changed: Seq<usize>,
    source_pages: usize,
    reads: spec_fn(usize, PdfRect, Seq<char>) -> bool,
    render: &R,
    a: Seq<MarkView>,
    b: Seq<MarkView>,
)
    requires
        steady(reads, render),
        note_read(page, changed, source_pages, reads, render, Ok(a)),
        note_read(page, changed, source_pages, reads, render, Ok(b)),
    ensures
        a == b,
{
    if page.scene is Some && changed.contains(page.index) && page.index < source_pages {
        let scene = page.scene->0;
        let x = choose|read: Seq<MarkView>| #[trigger]
            page_read(
                page.index,
                scene.text_highlights@,
                scene.strokes@,
                reads,
                render,
                read,
                Ok(a),
            );
        let y = choose|read: Seq<MarkView>| #[trigger]
            page_read(
                page.index,
                scene.text_highlights@,
                scene.strokes@,
                reads,
                render,
                read,
                Ok(b),
            );
        strokes_are_read_once(page.index, scene.strokes@, reads, x, y);
    }
}

/// Where the text under a region and the image of strokes are always the same, so are
/// the marks.
pub proof fn marks_are_settled<R: Fn(usize, &Vec<usize>, &InkOpts) -> Result<Vec<u8>, String>>(
    pages: Seq<NotePage>,
    changed: Seq<usize>,
    source_pages: usize,
    reads: spec_fn(usize, PdfRect, Seq<char>) -> bool,
    render: &R,
    a: Seq<MarkView>,
    b: Seq<MarkView>,
)
    requires
        steady(reads, render),
        notes_read(pages, changed, source_pages, reads, render, a),
        notes_read(pages, changed, source_pages, reads, render, b),
    ensures
        a == b,
    decreases pages.len(),
{
    if pages.len() == 0 {
        assert(a =~= b);
    } else {
        let rest = pages.drop_last();
        let (a0, a1) = choose|before: Seq<MarkView>, found: Seq<MarkView>|
            notes_read(rest, changed, source_pages, reads, render, before) && #[trigger] note_read(
                pages.last(),
                changed,
                source_pages,
                reads,
                render,
                Ok(found),
            ) && a == #[trigger] (before + found);
        let (b0, b1) = choose|before: Seq<MarkView>, found: Seq<MarkView>|
            notes_read(rest, changed, source_pages, reads, render, before) && #[trigger] note_read(
                pages.last(),
                changed,
                source_pages,
                reads,
                render,
                Ok(found),
            ) && b == #[trigger] (before + found);
        marks_are_settled(rest, changed, source_pages, reads, render, a0, b0);
        note_is_read_once(pages.last(), changed, source_pages, reads, render, a1, b1);
    }
}

/// Where none of the other pages changed, the marks are those of the one page.
proof fn one_page_gives_all<R: Fn(usize, &Vec<usize>, &InkOpts) -> Result<Vec<u8>, String>>(
    pages: Seq<NotePage>,
    changed: Seq<usize>,
    source_pages: usize,
    reads: spec_fn(usize, PdfRect, Seq<char>) -> bool,
    render: &R,
    marks: Seq<MarkView>,
    j: int,
)
    requires
        0 <= j < pages.len(),
        forall|i: int|
            0 <= i < pages.len() && i != j ==> !changed.contains((#[trigger] pages[i]).index),
        notes_read(pages, changed, source_pages, reads, render, marks),
    ensures
        note_read(pages[j], changed, source_pages, reads, render, Ok(marks)),
    decreases pages.len(),
{
    let rest = pages.drop_last();
    let (before, found) = choose|before: Seq<MarkView>, found: Seq<MarkView>|
        notes_read(rest, changed, source_pages, reads, render, before) && #[trigger] note_read(
            pages.last(),
            changed,
            source_pages,
            reads,
            render,
            Ok(found),
        ) && marks == #[trigger] (before + found);
    assert forall|i: int| 0 <= i < rest.len() && i != j implies !changed.contains(
        (#[trigger] rest[i]).index,
    ) by {
        assert(pages[i] == rest[i]);
    }
    assert(pages[pages.len() - 1] == pages.last());
    if j == pages.len() - 1 {
        unchanged_pages_give_nothing(rest, changed, source_pages, reads, render, before);
        assert(marks =~= found);
    } else {
        one_page_gives_all(rest, changed, source_pages, reads, render, before, j);
        assert(marks =~= before);
    }
}

/// The marks are those of extracting each page that changed by itself, one after the
/// other in the order of the pages, where no two pages have one index and the text under
/// a region and the image of strokes are always the same.
pub proof fn extraction_goes_page_by_page<
    R: Fn(usize, &Vec<usize>, &InkOpts) -> Result<Vec<u8>, String>,
>(
    pages: Seq<NotePage>,
    changed: Seq<usize>,
    source_pages: usize,
    reads: spec_fn(usize, PdfRect, Seq<char>) -> bool,
    render: &R,
    marks: Seq<MarkView>,
    parts: Seq<Seq<MarkView>>,
)
    requires
        steady(reads, render),
        forall|i: int, j: int|
            0 <= i < j < pages.len() ==> (#[trigger] pages[i]).index != (
            #[trigger] pages[j]).index,
        notes_read(pages, changed, source_pages, reads, render, marks),
        parts.len() == pages.len(),
        forall|j: int|
            0 <= j < pages.len() ==> #[trigger] notes_read(
                pages,
                alone(pages[j], changed),
                source_pages,
                reads,
                render,
                parts[j],
            ),
    ensures
        marks == parts.flatten(),
{
    let own = pages_are_read_one_by_one(pages, changed, source_pages, reads, render, marks);
    assert forall|j: int| 0 <= j < pages.len() implies own[j] == parts[j] by {
        let one = seq![pages[j]];
        let only = alone(pages[j], changed);
        assert(notes_read(one, only, source_pages, reads, render, own[j]));
        one_page_gives_all(one, only, source_pages, reads, render, own[j], 0);
        assert(notes_read(pages, only, source_pages, reads, render, parts[j]));
        assert forall|i: int| 0 <= i < pages.len() && i != j implies !only.contains(
            (#[trigger] pages[i]).index,
        ) by {
            if only.contains(pages[i].index) {
                assert(pages[i].index == pages[j].index);
            }
        }
        one_page_gives_all(pages, only, source_pages, reads, render, parts[j], j);
        note_is_read_once(pages[j], only, source_pages, reads, render, own[j], parts[j]);
    }
    assert(own =~= parts);
}

} // verus!

//! What the library is for, said of what goes in and what comes out.
//!
//! The contracts of the functions name what comes of them, step by step. Here it is held
//! to what a reader of a digest sees: which pages are reported, whose text stands in which
//! colour under which number, which bytes are the red of a pixel, and which page a link
//! leads to.

use crate::extract;
use crate::extract::{Mark, MarkView, NotePage, TextHighlight};
use crate::ingest;
use crate::ingest::PageData;
use crate::ink;
use crate::ink::{Background, InkError, InkOpts, InkStroke, Trace};
use crate::pdf;
use crate::pdf::{PdfState, PdfValue};
use crate::textlayer::PdfRect;
use crate::theme;
use crate::theme::PenColor;
use vstd::prelude::*;

verus! {

// ---------------------------------------------------------------------------
// Changed pages
// ---------------------------------------------------------------------------
/// The page is another than the one that was remembered under its id, by the hash of what
/// is written on it, or none was remembered. A page without anything on it has the hash
/// of no bytes.
pub open spec fn is_another(page: PageData, known: Map<Seq<char>, Seq<char>>) -> bool {
    let written = match page.scene {
        Some(bytes) => bytes@,
        None => Seq::empty(),
    };
    known.get(page.id@ + ".rm"@) != Some(ingest::hex(ingest::sha256(written)))
}

/// An index is reported exactly where a page has it that is another than the one that was
/// remembered; whether other pages changed makes no difference.
pub proof fn reported_pages_are_others(
    pages: Seq<PageData>,
    known: Map<Seq<char>, Seq<char>>,
    n: nat,
)
    ensures
        ingest::changed_pages(ingest::page_views(pages), known).contains(n) <==> exists|i: int|
            0 <= i < pages.len() && (#[trigger] pages[i]).index == n && is_another(pages[i], known),
    decreases pages.len(),
{
    let views = ingest::page_views(pages);
    let all = ingest::changed_pages(views, known);
    if pages.len() > 0 {
        let rest = pages.drop_last();
        let last = pages.len() - 1;
        reported_pages_are_others(rest, known, n);
        assert(views.drop_last() =~= ingest::page_views(rest));
        let before = ingest::changed_pages(ingest::page_views(rest), known);
        if all.contains(n) {
            let k = choose|k: int| 0 <= k < all.len() && all[k] == n;
            if k < before.len() {
                assert(before[k] == n);
                let i = choose|i: int|
                    0 <= i < rest.len() && (#[trigger] rest[i]).index == n && is_another(
                        rest[i],
                        known,
                    );
                assert(pages[i] == rest[i]);
            } else {
                assert(pages[last].index == n);
            }
        }
        if exists|i: int|
            0 <= i < pages.len() && (#[trigger] pages[i]).index == n && is_another(
                pages[i],
                known,
            ) {
            let i = choose|i: int|
                0 <= i < pages.len() && (#[trigger] pages[i]).index == n && is_another(
                    pages[i],
                    known,
                );
            if i < last {
                assert(rest[i] == pages[i]);
                let k = choose|k: int| 0 <= k < before.len() && before[k] == n;
                assert(all[k] == n);
            } else {
                assert(all[all.len() - 1] == n);
            }
        }
    }
}

/// Notebooks are reported page by page: those of two, one behind the other, are reported
/// as each of them is, in the order of the pages.
pub proof fn pages_are_reported_in_order(
    first: Seq<PageData>,
    second: Seq<PageData>,
    known: Map<Seq<char>, Seq<char>>,
)
    ensures
        ingest::changed_pages(ingest::page_views(first + second), known) == ingest::changed_pages(
            ingest::page_views(first),
            known,
        ) + ingest::changed_pages(ingest::page_views(second), known),
    decreases second.len(),
{
    let both = ingest::page_views(first + second);
    if second.len() == 0 {
        assert(first + second =~= first);
        assert(ingest::changed_pages(both, known) =~= ingest::changed_pages(
            ingest::page_views(first),
            known,
        ) + ingest::changed_pages(ingest::page_views(second), known));
    } else {
        pages_are_reported_in_order(first, second.drop_last(), known);
        assert((first + second).drop_last() =~= first + second.drop_last());
        assert(both.drop_last() =~= ingest::page_views(first + second.drop_last()));
        assert(ingest::page_views(second).drop_last() =~= ingest::page_views(second.drop_last()));
        assert(ingest::changed_pages(both, known) =~= ingest::changed_pages(
            ingest::page_views(first),
            known,
        ) + ingest::changed_pages(ingest::page_views(second), known));
    }
}

/// One page is reported once, or not at all.
pub proof fn a_page_is_reported_once(page: PageData, known: Map<Seq<char>, Seq<char>>)
    ensures
        ingest::changed_pages(ingest::page_views(seq![page]), known) == if is_another(page, known) {
            seq![page.index as nat]
        } else {
            seq![]
        },
{
    let views = ingest::page_views(seq![page]);
    assert(views.drop_last() =~= Seq::empty());
    reveal_with_fuel(ingest::changed_pages, 2);
    assert(ingest::changed_pages(views, known) =~= if is_another(page, known) {
        seq![page.index as nat]
    } else {
        seq![]
    });
}

/// What is remembered: under the id of each page the hash of what is written on it, of the
/// last where pages have one id, and nothing else.
pub proof fn every_page_is_remembered(pages: Seq<PageData>, key: Seq<char>)
    ensures
        match ingest::page_hashes(ingest::page_views(pages)).get(key) {
            Some(hash) => exists|i: int|
                0 <= i < pages.len() && (#[trigger] pages[i]).id@ + ".rm"@ == key && !is_another(
                    pages[i],
                    map![key => hash],
                ) && forall|j: int| i < j < pages.len() ==> (#[trigger] pages[j]).id@ + ".rm"@ != key,
            None => forall|i: int|
                0 <= i < pages.len() ==> (#[trigger] pages[i]).id@ + ".rm"@ != key,
        },
    decreases pages.len(),
{
    let views = ingest::page_views(pages);
    let found = ingest::page_hashes(views).get(key);
    if pages.len() > 0 {
        let rest = pages.drop_last();
        let last = pages.len() - 1;
        every_page_is_remembered(rest, key);
        assert(views.drop_last() =~= ingest::page_views(rest));
        if pages[last].id@ + ".rm"@ == key {
            assert(!is_another(pages[last], map![key => found->0]));
        } else {
            match found {
                Some(hash) => {
                    let i = choose|i: int|
                        0 <= i < rest.len() && (#[trigger] rest[i]).id@ + ".rm"@ == key
                            && !is_another(rest[i], map![key => hash]) && forall|j: int|
                            i < j < rest.len() ==> (#[trigger] rest[j]).id@ + ".rm"@ != key;
                    assert(pages[i] == rest[i]);
                    assert forall|j: int| i < j < pages.len() implies (#[trigger] pages[j]).id@
                        + ".rm"@ != key by {
                        if j < last {
                            assert(rest[j] == pages[j]);
                        }
                    }
                },
                None => {
                    assert forall|i: int| 0 <= i < pages.len() implies (#[trigger] pages[i]).id@
                        + ".rm"@ != key by {
                        if i < last {
                            assert(rest[i] == pages[i]);
                        }
                    }
                },
            }
        }
    }
}

/// What the character is worth as a digit of base sixteen, written small.
pub open spec fn hex_value(c: char) -> int {
    if '0' <= c <= '9' {
        c as int - '0' as int
    } else if 'a' <= c <= 'f' {
        c as int - 'a' as int + 10
    } else {
        -1
    }
}

/// Bytes are written in base sixteen with two small digits each, the higher first.
pub proof fn hex_has_two_digits(bytes: Seq<u8>)
    ensures
        ingest::hex(bytes).len() == 2 * bytes.len(),
        forall|i: int|
            0 <= i < bytes.len() ==> {
                &&& hex_value(ingest::hex(bytes)[2 * i]) >= 0
                &&& hex_value(ingest::hex(bytes)[2 * i + 1]) >= 0
                &&& hex_value(ingest::hex(bytes)[2 * i]) * 16 + hex_value(
                    ingest::hex(bytes)[2 * i + 1],
                ) == #[trigger] bytes[i]
            },
{
    assert forall|i: int| 0 <= i < bytes.len() implies hex_value(ingest::hex(bytes)[2 * i]) >= 0
        && hex_value(ingest::hex(bytes)[2 * i + 1]) >= 0 && hex_value(ingest::hex(bytes)[2 * i])
        * 16 + hex_value(ingest::hex(bytes)[2 * i + 1]) == #[trigger] bytes[i] by {
        let (high, low) = (bytes[i] as int / 16, bytes[i] as int % 16);
        assert((2 * i) / 2 == i && (2 * i) % 2 == 0);
        assert((2 * i + 1) / 2 == i && (2 * i + 1) % 2 == 1);
        assert(ingest::hex(bytes)[2 * i] == ingest::hex_digit(high));
        assert(ingest::hex(bytes)[2 * i + 1] == ingest::hex_digit(low));
        assert(hex_value(ingest::hex_digit(high)) == high);
        assert(hex_value(ingest::hex_digit(low)) == low);
    }
}

// ---------------------------------------------------------------------------
// Colours
// ---------------------------------------------------------------------------
/// Each pen writes in a colour of its own, but for the three yellows, the two greens, blue
/// and cyan, red and magenta, and the two grays, which are alike. What has no name is
/// written in ink, as black is.
pub proof fn pens_write_in_their_colours(c: PenColor)
    ensures
        match c {
            PenColor::Red | PenColor::Magenta => theme::rgb_of(c) == (210u8, 80u8, 80u8),
            PenColor::Green | PenColor::Green2 => theme::rgb_of(c) == (120u8, 190u8, 110u8),
            PenColor::Blue | PenColor::Cyan => theme::rgb_of(c) == (90u8, 150u8, 220u8),
            PenColor::Yellow | PenColor::Yellow2 | PenColor::Highlight => theme::rgb_of(c) == (
                245u8,
                208u8,
                66u8,
            ),
            PenColor::Pink => theme::rgb_of(c) == (235u8, 130u8, 170u8),
            PenColor::Gray | PenColor::GrayOverlap => theme::rgb_of(c) == (140u8, 140u8, 140u8),
            PenColor::White => theme::rgb_of(c) == (255u8, 255u8, 255u8),
            _ => theme::rgb_of(c) == (60u8, 60u8, 60u8),
        },
{
}

/// Pens of different colours write differently: two pens write alike exactly where their
/// colours are called alike.
pub proof fn pens_are_told_apart(a: PenColor, b: PenColor)
    ensures
        theme::rgb_of(a) == theme::rgb_of(b) <==> family(a) == family(b),
{
}

/// The colours that are called alike.
pub open spec fn family(c: PenColor) -> PenColor {
    match c {
        PenColor::Yellow2 | PenColor::Highlight => PenColor::Yellow,
        PenColor::Green2 => PenColor::Green,
        PenColor::Cyan => PenColor::Blue,
        PenColor::Magenta => PenColor::Red,
        PenColor::GrayOverlap => PenColor::Gray,
        PenColor::Other(_) => PenColor::Black,
        _ => c,
    }
}

// ---------------------------------------------------------------------------
// Ink
// ---------------------------------------------------------------------------
/// The image is made of the pixels, or cannot be written.
pub open spec fn shows(r: Result<Seq<u8>, InkError>, width: u32, height: u32, pixels: Seq<u8>) -> bool {
    match r {
        Ok(bytes) => ink::png_bytes(width, height, pixels) == Some(bytes),
        Err(e) => e == InkError::Png && ink::png_bytes(width, height, pixels) is None,
    }
}

/// There can be a canvas of the size.
pub open spec fn has_canvas(width: u32, height: u32) -> bool {
    0 < width && 0 < height && 4 * width <= 0x7fff_ffff && 4 * (width * height) <= isize::MAX
}

/// The bits are those of a number, negative or not, finite or not.
pub open spec fn is_number(bits: u32) -> bool {
    bits <= 0x7f80_0000 || 0x8000_0000 <= bits <= 0xff80_0000
}

/// One stroke more is drawn over those before it, along its own line, with its own pen and
/// in the colour of its own pen: opaque, or where it is a highlighter's so that text shows
/// through.
pub proof fn a_stroke_is_drawn_in_its_colour(
    strokes: Seq<InkStroke>,
    traces: Seq<Trace>,
    stroke: InkStroke,
    trace: Trace,
    width: u32,
    height: u32,
    background: Background,
) -> (before: Seq<u8>)
    requires
        strokes.len() == traces.len(),
        has_canvas(width, height),
        stroke.points@.len() >= 2,
        trace.path is Some,
        is_number(ink::pen_data(trace.pen)[0]),
    ensures
        shows(ink::rendered(strokes, traces, width, height, background), width, height, before),
        shows(
            ink::rendered(strokes.push(stroke), traces.push(trace), width, height, background),
            width,
            height,
            ink::stroked(
                width,
                height,
                before,
                ink::path_data(trace.path->0),
                ink::pen_data(trace.pen),
                (
                    theme::rgb_of(stroke.color).0,
                    theme::rgb_of(stroke.color).1,
                    theme::rgb_of(stroke.color).2,
                    if stroke.highlighter {
                        110u8
                    } else {
                        255u8
                    },
                ),
            ),
        ),
{
    let byte = if background == Background::White {
        255u8
    } else {
        0u8
    };
    let ground = ink::uniform(width, height, byte);
    let before = ink::painted(width, height, ground, strokes, traces);
    ink::painted_alike(width, height, ground, strokes, traces, traces.push(trace));
    assert(strokes.push(stroke).drop_last() =~= strokes);
    assert(traces.push(trace)[strokes.len() as int] == trace);
    before
}

/// A stroke that makes no line, has no two points, or whose pen has no width leaves the
/// image as it is.
pub proof fn a_stroke_without_a_line_is_not_drawn(
    strokes: Seq<InkStroke>,
    traces: Seq<Trace>,
    stroke: InkStroke,
    trace: Trace,
    width: u32,
    height: u32,
    background: Background,
)
    requires
        strokes.len() == traces.len(),
        stroke.points@.len() < 2 || trace.path is None || !is_number(
            ink::pen_data(trace.pen)[0],
        ),
    ensures
        ink::rendered(strokes.push(stroke), traces.push(trace), width, height, background)
            == ink::rendered(strokes, traces, width, height, background),
{
    let byte = if background == Background::White {
        255u8
    } else {
        0u8
    };
    let ground = ink::uniform(width, height, byte);
    ink::painted_alike(width, height, ground, strokes, traces, traces.push(trace));
    assert(strokes.push(stroke).drop_last() =~= strokes);
    assert(traces.push(trace)[strokes.len() as int] == trace);
}

/// The points of a stroke are among all points.
pub(crate) proof fn points_are_gathered(strokes: Seq<InkStroke>, i: int, j: int) -> (k: int)
    requires
        0 <= i < strokes.len(),
        0 <= j < strokes[i].points@.len(),
    ensures
        0 <= k < ink::points_of(strokes).len(),
        ink::points_of(strokes)[k] == strokes[i].points@[j],
    decreases strokes.len(),
{
    let rest = strokes.drop_last();
    if i < rest.len() {
        points_are_gathered(rest, i, j)
    } else {
        ink::points_of(rest).len() + j
    }
}

/// All points are those of strokes.
pub(crate) proof fn points_are_strokes(strokes: Seq<InkStroke>, k: int) -> (at: (int, int))
    requires
        0 <= k < ink::points_of(strokes).len(),
    ensures
        0 <= at.0 < strokes.len(),
        0 <= at.1 < strokes[at.0].points@.len(),
        ink::points_of(strokes)[k] == strokes[at.0].points@[at.1],
    decreases strokes.len(),
{
    let rest = strokes.drop_last();
    if k < ink::points_of(rest).len() {
        points_are_strokes(rest, k)
    } else {
        (rest.len() as int, k - ink::points_of(rest).len())
    }
}

/// No point of a stroke lies outside the bounds of the ink: the first two are the least,
/// and the other two the greatest. Each of them is that of a point of a stroke.
pub proof fn ink_lies_within_its_bounds(
    strokes: Seq<InkStroke>,
    b: (i64, i64, i64, i64),
    i: int,
    j: int,
) -> (at: ((int, int), (int, int), (int, int), (int, int)))
    requires
        ink::bounds(ink::points_of(strokes), b),
    ensures
        0 <= i < strokes.len() && 0 <= j < strokes[i].points@.len() ==> b.0
            <= strokes[i].points@[j].x <= b.2 && b.1 <= strokes[i].points@[j].y <= b.3,
        0 <= at.0.0 < strokes.len() && 0 <= at.0.1 < strokes[at.0.0].points@.len(),
        strokes[at.0.0].points@[at.0.1].x == b.0,
        0 <= at.1.0 < strokes.len() && 0 <= at.1.1 < strokes[at.1.0].points@.len(),
        strokes[at.1.0].points@[at.1.1].y == b.1,
        0 <= at.2.0 < strokes.len() && 0 <= at.2.1 < strokes[at.2.0].points@.len(),
        strokes[at.2.0].points@[at.2.1].x == b.2,
        0 <= at.3.0 < strokes.len() && 0 <= at.3.1 < strokes[at.3.0].points@.len(),
        strokes[at.3.0].points@[at.3.1].y == b.3,
{
    let points = ink::points_of(strokes);
    if 0 <= i < strokes.len() && 0 <= j < strokes[i].points@.len() {
        let k = points_are_gathered(strokes, i, j);
        assert(b.0 <= points[k].x <= b.2);
    }
    let k0 = choose|k: int| 0 <= k < points.len() && (#[trigger] points[k]).x == b.0;
    let k1 = choose|k: int| 0 <= k < points.len() && (#[trigger] points[k]).y == b.1;
    let k2 = choose|k: int| 0 <= k < points.len() && (#[trigger] points[k]).x == b.2;
    let k3 = choose|k: int| 0 <= k < points.len() && (#[trigger] points[k]).y == b.3;
    (
        points_are_strokes(strokes, k0),
        points_are_strokes(strokes, k1),
        points_are_strokes(strokes, k2),
        points_are_strokes(strokes, k3),
    )
}

/// Without strokes every byte of the canvas is that of the background: 255 where it is
/// white, and zero where it is transparent.
pub proof fn a_canvas_starts_as_background(width: u32, height: u32, background: Background)
    requires
        has_canvas(width, height),
    ensures
        shows(
            ink::rendered(seq![], seq![], width, height, background),
            width,
            height,
            Seq::new(
                (4 * (width * height)) as nat,
                |i: int|
                    match background {
                        Background::White => 255u8,
                        Background::Transparent => 0u8,
                    },
            ),
        ),
{
    assert(ink::uniform(
        width,
        height,
        if background == Background::White {
            255u8
        } else {
            0u8
        },
    ) =~= Seq::new(
        (4 * (width * height)) as nat,
        |i: int|
            match background {
                Background::White => 255u8,
                Background::Transparent => 0u8,
            },
    ));
}

/// An image has a canvas of the size or there is none: no stroke changes that.
pub proof fn a_canvas_has_its_bounds(
    strokes: Seq<InkStroke>,
    traces: Seq<Trace>,
    width: u32,
    height: u32,
    background: Background,
)
    ensures
        ink::rendered(strokes, traces, width, height, background) == Err::<Seq<u8>, InkError>(
            InkError::Canvas,
        ) <==> !has_canvas(width, height),
{
}

// ---------------------------------------------------------------------------
// Marks
// ---------------------------------------------------------------------------
/// The mark is a highlight of the page with the text in the colour.
pub open spec fn is_highlight(mark: Mark, page: usize, text: Seq<char>, color: PenColor) -> bool {
    match mark {
        Mark::Highlight { page: p, text: t, color: c } => p == page && t@ == text && c == color,
        _ => false,
    }
}

/// Of each text that the device took over on a page of the source, the mark at its place
/// has that text, and the colour that it was highlighted in.
pub proof fn taken_text_keeps_its_colour<R: Fn(usize, &Vec<usize>, &InkOpts) -> Result<Vec<u8>, String>>(
    page: usize,
    source_pages: usize,
    highlights: Seq<TextHighlight>,
    strokes: Seq<InkStroke>,
    reads: spec_fn(usize, PdfRect, Seq<char>) -> bool,
    render: &R,
    marks: Seq<Mark>,
    i: int,
)
    requires
        page < source_pages,
        extract::page_marked(
            page,
            source_pages,
            highlights,
            strokes,
            reads,
            render,
            Ok(extract::mark_views(marks)),
        ),
        0 <= i < highlights.len(),
    ensures
        i < marks.len(),
        is_highlight(marks[i], page, highlights[i].text@, highlights[i].color),
{
    let views = extract::mark_views(marks);
    let read = choose|read: Seq<MarkView>| #[trigger]
        extract::page_read(page, highlights, strokes, reads, render, read, Ok(views));
    assert(views.len() >= highlights.len());
    assert(views[i] == marks[i]@);
    assert(views[i] == MarkView::Highlight {
        page: page as nat,
        text: highlights[i].text@,
        color: highlights[i].color,
    });
}

/// The strokes that gave the marks, in their order: each is a highlighter's, over a region
/// in which the text of its mark was read.
pub open spec fn read_from(
    page: usize,
    strokes: Seq<InkStroke>,
    reads: spec_fn(usize, PdfRect, Seq<char>) -> bool,
    marks: Seq<MarkView>,
    from: Seq<int>,
) -> bool {
    &&& from.len() == marks.len()
    &&& forall|a: int, b: int| 0 <= a < b < from.len() ==> from[a] < from[b]
    &&& forall|k: int|
        0 <= k < from.len() ==> {
            &&& 0 <= #[trigger] from[k] < strokes.len()
            &&& strokes[from[k]].highlighter
            &&& strokes[from[k]].band is Some
            &&& marks[k] matches MarkView::Highlight { page: p, text, color } && p == page
                && text.len() > 0 && color == strokes[from[k]].color && reads(
                page,
                strokes[from[k]].band->0,
                text,
            )
        }
    &&& forall|j: int|
        0 <= j < strokes.len() && strokes[j].highlighter && strokes[j].band is Some
            && !from.contains(j) ==> reads(page, (#[trigger] strokes[j]).band->0, Seq::empty())
}

/// What is read of strokes is read of each of them in turn.
proof fn strokes_give_in_turn(
    page: usize,
    strokes: Seq<InkStroke>,
    reads: spec_fn(usize, PdfRect, Seq<char>) -> bool,
    marks: Seq<MarkView>,
) -> (from: Seq<int>)
    requires
        extract::strokes_read(page, strokes, reads, marks),
    ensures
        read_from(page, strokes, reads, marks, from),
    decreases strokes.len(),
{
    if strokes.len() == 0 {
        seq![]
    } else {
        let rest = strokes.drop_last();
        let last = strokes.len() - 1;
        if !strokes.last().highlighter {
            let from = strokes_give_in_turn(page, rest, reads, marks);
            assert forall|k: int| 0 <= k < from.len() implies strokes[#[trigger] from[k]]
                == rest[from[k]] by {}
            assert forall|j: int|
                0 <= j < strokes.len() && strokes[j].highlighter && strokes[j].band is Some
                    && !from.contains(j) implies reads(
                page,
                (#[trigger] strokes[j]).band->0,
                Seq::empty(),
            ) by {
                assert(rest[j] == strokes[j]);
            }
            from
        } else {
            let (before, found) = choose|before: Seq<MarkView>, found: Seq<MarkView>|
                extract::strokes_read(page, rest, reads, before) && #[trigger] extract::stroke_read(
                    page,
                    strokes.last(),
                    reads,
                    found,
                ) && marks == #[trigger] (before + found);
            let had = strokes_give_in_turn(page, rest, reads, before);
            let from = if found.len() > 0 {
                had.push(last)
            } else {
                had
            };
            assert forall|k: int| 0 <= k < from.len() implies {
                &&& 0 <= #[trigger] from[k] < strokes.len()
                &&& strokes[from[k]].highlighter
                &&& strokes[from[k]].band is Some
                &&& marks[k] matches MarkView::Highlight { page: p, text, color } && p == page
                    && text.len() > 0 && color == strokes[from[k]].color && reads(
                    page,
                    strokes[from[k]].band->0,
                    text,
                )
            } by {
                if k < had.len() {
                    assert(from[k] == had[k]);
                    assert(strokes[had[k]] == rest[had[k]]);
                    assert(marks[k] == before[k]);
                } else {
                    assert(marks[k] == found[0]);
                }
            }
            assert forall|j: int|
                0 <= j < strokes.len() && strokes[j].highlighter && strokes[j].band is Some
                    && !from.contains(j) implies reads(
                page,
                (#[trigger] strokes[j]).band->0,
                Seq::empty(),
            ) by {
                if j < last {
                    assert(rest[j] == strokes[j]);
                    if had.contains(j) {
                        let k = choose|k: int| 0 <= k < had.len() && had[k] == j;
                        assert(from[k] == j);
                    }
                } else if found.len() > 0 {
                    assert(from[from.len() - 1] == j);
                } else {
                    let band = strokes[j].band->0;
                    let shown = choose|shown: Seq<char>| #[trigger]
                        reads(page, band, shown) && found == if shown.len() > 0 {
                            seq![
                                MarkView::Highlight {
                                    page: page as nat,
                                    text: shown,
                                    color: strokes.last().color,
                                },
                            ]
                        } else {
                            seq![]
                        };
                    assert(shown =~= Seq::empty());
                }
            }
            from
        }
    }
}

/// Behind the text that the device took over come the highlights that were read from ink,
/// in the order of the strokes: of each highlighter's stroke the text in its region, in
/// its colour, and nothing where there is no text.
pub proof fn ink_over_text_is_read<R: Fn(usize, &Vec<usize>, &InkOpts) -> Result<Vec<u8>, String>>(
    page: usize,
    source_pages: usize,
    highlights: Seq<TextHighlight>,
    strokes: Seq<InkStroke>,
    reads: spec_fn(usize, PdfRect, Seq<char>) -> bool,
    render: &R,
    marks: Seq<Mark>,
) -> (from: Seq<int>)
    requires
        page < source_pages,
        extract::page_marked(
            page,
            source_pages,
            highlights,
            strokes,
            reads,
            render,
            Ok(extract::mark_views(marks)),
        ),
    ensures
        highlights.len() + from.len() <= marks.len() <= highlights.len() + from.len() + 1,
        forall|a: int, b: int| 0 <= a < b < from.len() ==> from[a] < from[b],
        forall|k: int|
            0 <= k < from.len() ==> {
                &&& 0 <= #[trigger] from[k] < strokes.len()
                &&& strokes[from[k]].highlighter
                &&& exists|text: Seq<char>|
                    text.len() > 0 && #[trigger] reads(page, strokes[from[k]].band->0, text)
                        && is_highlight(
                        marks[highlights.len() + k],
                        page,
                        text,
                        strokes[from[k]].color,
                    )
            },
        forall|j: int|
            0 <= j < strokes.len() && strokes[j].highlighter && strokes[j].band is Some
                && !from.contains(j) ==> reads(page, (#[trigger] strokes[j]).band->0, Seq::empty()),
{
    let views = extract::mark_views(marks);
    let read = choose|read: Seq<MarkView>| #[trigger]
        extract::page_read(page, highlights, strokes, reads, render, read, Ok(views));
    let from = strokes_give_in_turn(page, strokes, reads, read);
    let m = highlights.len();
    assert(views.len() == marks.len());
    assert forall|k: int| 0 <= k < from.len() implies {
        &&& 0 <= #[trigger] from[k] < strokes.len()
        &&& strokes[from[k]].highlighter
        &&& exists|text: Seq<char>|
            text.len() > 0 && #[trigger] reads(page, strokes[from[k]].band->0, text)
                && is_highlight(marks[m + k], page, text, strokes[from[k]].color)
    } by {
        assert(views[m + k] == read[k]);
        assert(views[m + k] == marks[m + k]@);
        let text = read[k]->text;
        assert(reads(page, strokes[from[k]].band->0, text));
        assert(is_highlight(marks[m + k], page, text, strokes[from[k]].color));
    }
    from
}

/// The places are those of the strokes of pens, in their order.
pub open spec fn are_pens(strokes: Seq<InkStroke>, places: Seq<usize>) -> bool {
    &&& forall|a: int, b: int| 0 <= a < b < places.len() ==> places[a] < places[b]
    &&& forall|n: usize| #[trigger]
        places.contains(n) <==> n < strokes.len() && !strokes[n as int].highlighter
}

/// The places of pens are found one by one.
proof fn pens_are_pens(strokes: Seq<InkStroke>)
    requires
        strokes.len() <= usize::MAX,
    ensures
        are_pens(strokes, extract::pens(strokes)),
        extract::pens(strokes).len() > 0 <==> exists|n: int|
            0 <= n < strokes.len() && !(#[trigger] strokes[n]).highlighter,
    decreases strokes.len(),
{
    let all = extract::pens(strokes);
    if strokes.len() > 0 {
        let rest = strokes.drop_last();
        let last = strokes.len() - 1;
        pens_are_pens(rest);
        let before = extract::pens(rest);
        assert forall|n: usize| #[trigger] all.contains(n) <==> n < strokes.len()
            && !strokes[n as int].highlighter by {
            if all.contains(n) {
                let k = choose|k: int| 0 <= k < all.len() && all[k] == n;
                if k < before.len() {
                    assert(before[k] == n);
                    assert(before.contains(n));
                    assert(rest[n as int] == strokes[n as int]);
                }
            }
            if n < strokes.len() && !strokes[n as int].highlighter {
                if n < last {
                    assert(rest[n as int] == strokes[n as int]);
                    assert(before.contains(n));
                    let k = choose|k: int| 0 <= k < before.len() && before[k] == n;
                    assert(all[k] == n);
                } else {
                    assert(all[all.len() - 1] == n);
                }
            }
        }
        assert forall|a: int, b: int| 0 <= a < b < all.len() implies all[a] < all[b] by {
            if b == before.len() {
                assert(before.contains(before[a]));
            }
        }
        if all.len() > 0 {
            assert(all.contains(all[0]));
            assert(!strokes[all[0] as int].highlighter);
        }
        if exists|n: int| 0 <= n < strokes.len() && !(#[trigger] strokes[n]).highlighter {
            let n = choose|n: int| 0 <= n < strokes.len() && !(#[trigger] strokes[n]).highlighter;
            assert(all.contains(n as usize));
        }
    }
}

/// The image is what `render` gave for the strokes at the places of the page, on white and
/// with a margin.
pub open spec fn was_drawn<R: Fn(usize, &Vec<usize>, &InkOpts) -> Result<Vec<u8>, String>>(
    render: &R,
    page: usize,
    places: Seq<usize>,
    png: Seq<u8>,
) -> bool {
    exists|v: Vec<usize>, opts: InkOpts, out: Vec<u8>| #[trigger]
        call_ensures(render, (page, &v, &opts), Ok(out)) && v@ == places && out@ == png
            && opts.background == Background::White && opts.margin_px == 16
}

/// What was drawn was drawn on white.
proof fn drawn_was_drawn<R: Fn(usize, &Vec<usize>, &InkOpts) -> Result<Vec<u8>, String>>(
    render: &R,
    page: usize,
    places: Seq<usize>,
    png: Vec<u8>,
)
    requires
        extract::drawn(render, page, places, Ok(png)),
    ensures
        was_drawn(render, page, places, png@),
{
    let v = choose|v: Vec<usize>| #[trigger]
        v@ == places && call_ensures(render, (page, &v, &extract::on_white()), Ok(png));
    assert(call_ensures(render, (page, &v, &extract::on_white()), Ok(png)));
}

/// What pens wrote on a page of the source is one note of that page, the last of its
/// marks: an image of the strokes of pens, of all of them and of no others. Where no pen
/// wrote there is none.
pub proof fn pens_are_noted<R: Fn(usize, &Vec<usize>, &InkOpts) -> Result<Vec<u8>, String>>(
    page: usize,
    source_pages: usize,
    highlights: Seq<TextHighlight>,
    strokes: Seq<InkStroke>,
    reads: spec_fn(usize, PdfRect, Seq<char>) -> bool,
    render: &R,
    marks: Seq<Mark>,
)
    requires
        page < source_pages,
        strokes.len() <= usize::MAX,
        extract::page_marked(
            page,
            source_pages,
            highlights,
            strokes,
            reads,
            render,
            Ok(extract::mark_views(marks)),
        ),
    ensures
        (exists|n: int| 0 <= n < strokes.len() && !(#[trigger] strokes[n]).highlighter)
            ==> marks.len() > 0 && (marks.last() matches Mark::Note { page: p, png } && p == page
            && exists|places: Seq<usize>| #[trigger]
            are_pens(strokes, places) && was_drawn(render, page, places, png@)),
        (forall|n: int| 0 <= n < strokes.len() ==> (#[trigger] strokes[n]).highlighter)
            ==> forall|i: int| 0 <= i < marks.len() ==> #[trigger] marks[i] is Highlight,
        forall|i: int| 0 <= i < marks.len() - 1 ==> #[trigger] marks[i] is Highlight,
{
    let views = extract::mark_views(marks);
    let read = choose|read: Seq<MarkView>| #[trigger]
        extract::page_read(page, highlights, strokes, reads, render, read, Ok(views));
    let from = strokes_give_in_turn(page, strokes, reads, read);
    pens_are_pens(strokes);
    let pens = extract::pens(strokes);
    let m = highlights.len();
    assert(views.len() == marks.len());
    assert forall|i: int| 0 <= i < m + read.len() implies #[trigger] marks[i] is Highlight by {
        assert(views[i] == marks[i]@);
        if i >= m {
            assert(0 <= from[i - m] < strokes.len());
            assert(views[i] == read[i - m]);
        }
    }
    if pens.len() > 0 {
        let png = choose|png: Vec<u8>| #[trigger]
            extract::drawn(render, page, pens, Ok(png)) && views == extract::verbatim(
                page as nat,
                highlights,
            ) + read + seq![MarkView::Note { page: page as nat, png: png@ }];
        drawn_was_drawn(render, page, pens, png);
        assert(views[marks.len() - 1] == marks[marks.len() - 1]@);
        assert(views.last() == MarkView::Note { page: page as nat, png: png@ });
        assert(was_drawn(render, page, pens, png@));
        assert(are_pens(strokes, pens));
        assert(marks.last() is Note);
        assert(marks.last()->Note_png@ == png@);
    } else {
        assert forall|i: int| 0 <= i < marks.len() implies #[trigger] marks[i] is Highlight by {}
    }
}

/// A page behind those of the source is one image of all its strokes, to go behind the
/// last page of the source; without strokes it is nothing.
pub proof fn inserted_pages_are_drawn<R: Fn(usize, &Vec<usize>, &InkOpts) -> Result<Vec<u8>, String>>(
    page: usize,
    source_pages: usize,
    highlights: Seq<TextHighlight>,
    strokes: Seq<InkStroke>,
    reads: spec_fn(usize, PdfRect, Seq<char>) -> bool,
    render: &R,
    marks: Seq<Mark>,
)
    requires
        page >= source_pages,
        extract::page_marked(
            page,
            source_pages,
            highlights,
            strokes,
            reads,
            render,
            Ok(extract::mark_views(marks)),
        ),
    ensures
        strokes.len() == 0 ==> marks.len() == 0,
        strokes.len() > 0 ==> marks.len() == 1 && (marks[0] matches Mark::InsertedPage {
            after_page,
            png,
        } && after_page == (if source_pages > 0 {
            source_pages - 1
        } else {
            0
        }) && was_drawn(
            render,
            page,
            Seq::new(strokes.len(), |i: int| i as usize),
            png@,
        )),
{
    let views = extract::mark_views(marks);
    assert(views.len() == marks.len());
    if strokes.len() > 0 {
        let places = extract::places(strokes.len());
        let png = choose|png: Vec<u8>| #[trigger]
            extract::drawn(render, page, places, Ok(png)) && views == seq![
                MarkView::InsertedPage {
                    after_page: extract::last_source_page(source_pages),
                    png: png@,
                },
            ];
        drawn_was_drawn(render, page, places, png);
        assert(views[0] == marks[0]@);
        assert(places =~= Seq::new(strokes.len(), |i: int| i as usize));
        assert(marks[0] is InsertedPage);
        assert(marks[0]->InsertedPage_png@ == png@);
    }
}

/// A page fails only where its ink was refused, with the words of the refusal.
pub proof fn refused_ink_is_told<R: Fn(usize, &Vec<usize>, &InkOpts) -> Result<Vec<u8>, String>>(
    page: usize,
    source_pages: usize,
    highlights: Seq<TextHighlight>,
    strokes: Seq<InkStroke>,
    reads: spec_fn(usize, PdfRect, Seq<char>) -> bool,
    render: &R,
    message: String,
)
    requires
        extract::page_marked(
            page,
            source_pages,
            highlights,
            strokes,
            reads,
            render,
            Err(message),
        ),
    ensures
        strokes.len() > 0,
        exists|v: Vec<usize>, opts: InkOpts| #[trigger]
            call_ensures(render, (page, &v, &opts), Err(message)),
{
    let at = if page >= source_pages {
        extract::places(strokes.len())
    } else {
        extract::pens(strokes)
    };
    assert(extract::drawn(render, page, at, Err(message)));
    let v = choose|v: Vec<usize>| #[trigger]
        v@ == at && call_ensures(render, (page, &v, &extract::on_white()), Err(message));
    assert(call_ensures(render, (page, &v, &extract::on_white()), Err(message)));
}

/// A page that changed gives what is drawn on it, under its own index.
pub proof fn a_changed_page_gives_its_own<R: Fn(usize, &Vec<usize>, &InkOpts) -> Result<Vec<u8>, String>>(
    page: NotePage,
    changed: Seq<usize>,
    source_pages: usize,
    reads: spec_fn(usize, PdfRect, Seq<char>) -> bool,
    render: &R,
    marks: Seq<MarkView>,
)
    requires
        extract::notes_read(seq![page], changed, source_pages, reads, render, marks),
    ensures
        match page.scene {
            Some(scene) => if exists|i: int| 0 <= i < changed.len() && changed[i] == page.index {
                extract::page_marked(
                    page.index,
                    source_pages,
                    scene.text_highlights@,
                    scene.strokes@,
                    reads,
                    render,
                    Ok(marks),
                )
            } else {
                marks.len() == 0
            },
            None => marks.len() == 0,
        },
{
    let one = seq![page];
    assert(one.drop_last() =~= Seq::empty());
    let (before, found) = choose|before: Seq<MarkView>, found: Seq<MarkView>|
        extract::notes_read(one.drop_last(), changed, source_pages, reads, render, before)
            && #[trigger] extract::note_read(
            one.last(),
            changed,
            source_pages,
            reads,
            render,
            Ok(found),
        ) && marks == #[trigger] (before + found);
    assert(before.len() == 0);
    assert(marks =~= found);
}

/// Notebooks are extracted page by page: the marks of two, one behind the other, are those
/// of the first and then those of the second.
pub proof fn notebooks_are_extracted_in_order<R: Fn(usize, &Vec<usize>, &InkOpts) -> Result<Vec<u8>, String>>(
    first: Seq<NotePage>,
    second: Seq<NotePage>,
    changed: Seq<usize>,
    source_pages: usize,
    reads: spec_fn(usize, PdfRect, Seq<char>) -> bool,
    render: &R,
    marks: Seq<MarkView>,
) -> (parts: (Seq<MarkView>, Seq<MarkView>))
    requires
        extract::notes_read(first + second, changed, source_pages, reads, render, marks),
    ensures
        extract::notes_read(first, changed, source_pages, reads, render, parts.0),
        extract::notes_read(second, changed, source_pages, reads, render, parts.1),
        marks == parts.0 + parts.1,
    decreases second.len(),
{
    if second.len() == 0 {
        assert(first + second =~= first);
        let nothing: Seq<MarkView> = seq![];
        assert(marks + nothing =~= marks);
        (marks, nothing)
    } else {
        let all = first + second;
        let (before, found) = choose|before: Seq<MarkView>, found: Seq<MarkView>|
            extract::notes_read(all.drop_last(), changed, source_pages, reads, render, before)
                && #[trigger] extract::note_read(
                all.last(),
                changed,
                source_pages,
                reads,
                render,
                Ok(found),
            ) && marks == #[trigger] (before + found);
        assert(all.drop_last() =~= first + second.drop_last());
        assert(all.last() == second.last());
        let (a, b) = notebooks_are_extracted_in_order(
            first,
            second.drop_last(),
            changed,
            source_pages,
            reads,
            render,
            before,
        );
        assert(extract::note_read(second.last(), changed, source_pages, reads, render, Ok(found)));
        assert(extract::notes_read(second, changed, source_pages, reads, render, b + found));
        assert(a + (b + found) =~= a + b + found);
        (a, b + found)
    }
}

/// The pages of the source are as many as it lists; where it lists none, or there is none,
/// every page of the notebook is taken for one of the source.
pub proof fn pages_of_the_source_are_counted<R: Fn(usize, &Vec<usize>, &InkOpts) -> Result<Vec<u8>, String>>(
    pages: Seq<NotePage>,
    changed: Seq<usize>,
    source: Option<PdfState>,
    reads: spec_fn(usize, PdfRect, Seq<char>) -> bool,
    render: &R,
    marks: Seq<MarkView>,
)
    requires
        pages.len() <= usize::MAX,
        extract::extracted(pages, changed, source, reads, render, Ok(marks)),
    ensures
        match source {
            Some(s) => {
                let listed = pdf::page_ids(s.objects, s.trailer).len();
                listed > 0 ==> extract::notes_read(
                    pages,
                    changed,
                    listed as usize,
                    reads,
                    render,
                    marks,
                )
            },
            None => extract::notes_read(pages, changed, pages.len() as usize, reads, render, marks),
        },
        (source matches Some(s) && pdf::page_ids(s.objects, s.trailer).len() == 0)
            ==> extract::notes_read(pages, changed, pages.len() as usize, reads, render, marks),
{
}

/// The ink of a page is placed by the box of the page of the source under its number, from
/// zero on; behind the last of them by that of the first. A page without a box of its own
/// has none, and so has a source without pages.
pub proof fn ink_is_placed_by_the_box_of_its_page(s: PdfState, index: usize)
    requires
        index < u32::MAX,
    ensures
        ({
            let ids = pdf::page_ids(s.objects, s.trailer);
            &&& ids.len() == 0 ==> extract::own_box(s, index) is None
            &&& index < ids.len() ==> extract::own_box(s, index) == box_at(s, ids[index as int])
            &&& 0 < ids.len() <= index ==> extract::own_box(s, index) == box_at(s, ids[0])
        }),
{
}

/// The box that a page has of its own.
pub open spec fn box_at(s: PdfState, id: (u32, u16)) -> Option<Seq<PdfValue>> {
    match pdf::dict_at(s.objects, id) {
        Some(page) => pdf::array_at(page, pdf::key("MediaBox")),
        None => None,
    }
}

} // verus!

//! What comes of a call, told of its inputs and its result.

use crate::config;
use crate::config::{Config, ConfigError, Deploy, Output};
use crate::deploy;
use crate::deploy::{
    Backend, CloudDoc, Environment, Event, Fetched, LocalBackend, Next, NextStep, ProcessRmapi,
    RmapiBackend, RmapiError, RmapiRunner, RunError,
};
use crate::deploy_laws;
use crate::digest_doc;
use crate::digest_doc::DigestMeta;
use crate::digest_laws;
use crate::extract;
use crate::extract::{ExtractError, Mark, MarkView, NotePage, TextHighlight};
use crate::find_laws;
use crate::ingest;
use crate::ingest::{Ingested, PageData};
use crate::ink;
use crate::ink::{Background, InkError, InkOpts, InkStroke, Trace};
use crate::laws;
use crate::layer_laws;
use crate::linked_doc;
use crate::linked_doc::{Device, Found};
use crate::markup;
use crate::pdf;
use crate::reading;
use crate::state::{DocState, State, Table};
use crate::text;
use crate::text_laws;
use crate::textlayer::{PdfRect, TextLayer};
use crate::theme;
use crate::theme::{Palette, PenColor};
use lopdf::Document;
use vstd::prelude::*;

verus! {

// ---------------------------------------------------------------------------
// What values hold
// ---------------------------------------------------------------------------
/// A mark is told of by its own page, text, colour and image.
pub proof fn marks_hold_what_is_told(mark: Mark)
    ensures
        match mark {
            Mark::Highlight { page, text, color } => mark@ == (MarkView::Highlight {
                page: page as nat,
                text: text@,
                color,
            }),
            Mark::Note { page, png } => mark@ == (MarkView::Note { page: page as nat, png: png@ }),
            Mark::InsertedPage { after_page, png } => mark@ == (MarkView::InsertedPage {
                after_page: after_page as nat,
                png: png@,
            }),
        },
{
}

/// What is not given is what it is without: ink over a page with a margin, a cloud, the
/// usual suffixes, and nothing that was seen before.
pub proof fn values_are_given_where_none_are(
    opts: InkOpts,
    deploy: Deploy,
    output: Output,
    state: State,
    doc: DocState,
)
    requires
        call_ensures(<InkOpts as Default>::default, (), opts),
        call_ensures(<Deploy as Default>::default, (), deploy),
        call_ensures(<Output as Default>::default, (), output),
        call_ensures(<State as Default>::default, (), state),
        call_ensures(<DocState as Default>::default, (), doc),
    ensures
        opts.background == Background::Transparent,
        opts.margin_px == 16,
        deploy.backend@ == "rmapi"@,
        output.annotated_suffix@ == " — Annotated"@,
        output.digest_suffix@ == " — Digest"@,
        forall|key: Seq<char>| !#[trigger] state.docs@.contains_key(key),
        doc.cloud_version is None,
        forall|key: Seq<char>| !#[trigger] doc.page_hashes@.contains_key(key),
        doc.digest_uuids@.len() == 0,
{
}

// ---------------------------------------------------------------------------
// Colours and names
// ---------------------------------------------------------------------------
/// The palette is ink, a gray rule and warm paper.
pub proof fn the_palette_is_newsprint(p: Palette)
    requires
        call_ensures(theme::default_palette, (), p),
    ensures
        p.ink.0 == 26 && p.ink.1 == 26 && p.ink.2 == 26,
        p.rule.0 == 180 && p.rule.1 == 180 && p.rule.2 == 180,
        p.paper.0 == 250 && p.paper.1 == 249 && p.paper.2 == 246,
{
}

/// Two pens are given the same colour where their colours are called alike, and each the
/// one that it writes in.
pub proof fn pens_are_given_their_colours(
    a: PenColor,
    b: PenColor,
    x: (u8, u8, u8),
    y: (u8, u8, u8),
)
    requires
        call_ensures(theme::pen_rgb, (a,), x),
        call_ensures(theme::pen_rgb, (b,), y),
    ensures
        x == y <==> laws::family(a) == laws::family(b),
        match a {
            PenColor::Red | PenColor::Magenta => x == (210u8, 80u8, 80u8),
            PenColor::Green | PenColor::Green2 => x == (120u8, 190u8, 110u8),
            PenColor::Blue | PenColor::Cyan => x == (90u8, 150u8, 220u8),
            PenColor::Yellow | PenColor::Yellow2 | PenColor::Highlight => x == (245u8, 208u8, 66u8),
            PenColor::Pink => x == (235u8, 130u8, 170u8),
            PenColor::Gray | PenColor::GrayOverlap => x == (140u8, 140u8, 140u8),
            PenColor::White => x == (255u8, 255u8, 255u8),
            _ => x == (60u8, 60u8, 60u8),
        },
{
    laws::pens_are_told_apart(a, b);
    laws::pens_write_in_their_colours(a);
}

/// A colour for text is no brighter than the colour itself, in none of its parts: of a
/// bright one two fifths are left, of one of medium brightness three quarters.
pub proof fn text_is_darkened(c: (u8, u8, u8), r: (u8, u8, u8))
    requires
        call_ensures(digest_doc::darken_for_text, (c,), r),
    ensures
        r == digest_laws::for_text(c),
        r.0 <= c.0 && r.1 <= c.1 && r.2 <= c.2,
{
}

/// The names of what is made where none are given.
pub proof fn names_are_given(backend: String, annotated: String, digest: String)
    requires
        call_ensures(config::default_backend, (), backend),
        call_ensures(config::default_annot, (), annotated),
        call_ensures(config::default_digest, (), digest),
    ensures
        backend@ == "rmapi"@,
        annotated@ == " — Annotated"@,
        digest@ == " — Digest"@,
{
}

/// A configuration is accepted where a folder is watched, the backend is one of the two,
/// and the suffixes differ. Else the first of these that fails is told.
pub proof fn configurations_are_judged(config: &Config, r: Result<(), ConfigError>)
    requires
        call_ensures(Config::validate, (config,), r),
    ensures
        ({
            let watched = config.watched_paths@.len() >= 1;
            let known = config.deploy.backend@ == "rmapi"@ || config.deploy.backend@ == "none"@;
            let differ = config.output.annotated_suffix@ != config.output.digest_suffix@;
            match r {
                Ok(_) => watched && known && differ,
                Err(ConfigError::NoPaths) => !watched,
                Err(ConfigError::BadBackend) => watched && !known,
                Err(ConfigError::SameSuffix) => watched && known && !differ,
            }
        }),
{
    text_laws::configurations_are_in_order(*config);
}

/// Each fault of a configuration is told in a sentence that names what is at fault.
pub proof fn faults_are_told(e: &ConfigError, r: &'static str)
    requires
        call_ensures(ConfigError::message, (e,), r),
    ensures
        match e {
            ConfigError::NoPaths => r@ == "watched_paths must not be empty"@,
            ConfigError::BadBackend => r@ == "deploy.backend must be \"rmapi\" or \"none\""@,
            ConfigError::SameSuffix => r@ == "annotated_suffix and digest_suffix must differ"@,
        },
{
}

/// The state is kept in one file under the home directory.
pub proof fn the_state_has_its_place(home: &str, r: String)
    requires
        call_ensures(State::default_path, (home,), r),
        home@.len() > 0,
        home@.last() != '/',
    ensures
        r@ == home@.push('/') + ".local/state/rmdigest/state.json"@,
{
    reveal_strlit(".local/state/rmdigest/state.json");
    deploy_laws::paths_are_joined_by_one_slash(home@, ".local/state/rmdigest/state.json"@);
}

/// A table holds under a key what was put there last, and under every other key what it
/// held before.
pub proof fn tables_hold_what_came_last<V>(
    table: &mut Table<V>,
    key: String,
    value: V,
    other: Seq<char>,
)
    requires
        call_ensures(Table::<V>::insert, (table, key, value), ()),
    ensures
        final(table)@.get(key@) == Some(value),
        other != key@ ==> final(table)@.get(other) == old(table)@.get(other),
{
}

/// What is asked of a table is what it holds under the key, or nothing where it holds
/// nothing there.
pub proof fn tables_give_what_they_hold<V>(table: &Table<V>, key: &str, r: Option<&V>)
    requires
        call_ensures(Table::<V>::get, (table, key), r),
    ensures
        match table@.get(key@) {
            Some(value) => r is Some && *r->Some_0 == value,
            None => r is None,
        },
{
}

// ---------------------------------------------------------------------------
// Text
// ---------------------------------------------------------------------------
/// Text that was escaped for a string literal reads as it was, and cannot end it; for
/// markup it reads as it was, too.
pub proof fn text_is_escaped(s: &str, literal: String, content: String)
    requires
        call_ensures(markup::esc, (s,), literal),
        call_ensures(markup::esc_markup, (s,), content),
    ensures
        literal@ == markup::literal(s@),
        markup::unescaped(literal@) == s@,
        content@ == markup::content(s@),
        markup::unescaped(content@) == s@,
{
    markup::literals_are_faithful(s@);
    markup::markup_is_faithful(s@);
}

/// Trimming takes the white space around a text, and nothing else.
pub proof fn text_is_trimmed(v: &Vec<char>, r: Vec<char>) -> (around: (Seq<char>, Seq<char>))
    requires
        call_ensures(text::trim, (v,), r),
    ensures
        v@ == around.0 + r@ + around.1,
        text_laws::all_blank(around.0),
        text_laws::all_blank(around.1),
        r@.len() > 0 ==> !text::white_space(r@[0]) && !text::white_space(r@.last()),
{
    text_laws::trimming_takes_the_white_space_around(v@)
}

/// Two texts are the same where they have the same characters.
pub proof fn texts_are_told_apart(a: &str, b: &str, r: bool)
    requires
        call_ensures(text::same_text, (a, b), r),
    ensures
        r <==> a@ == b@,
{
}

/// A text is found where it stands first, at `i` or behind it.
pub proof fn texts_are_found(v: &Vec<char>, p: &Vec<char>, i: usize, r: Option<usize>)
    requires
        call_ensures(text::find_in, (v, p, i), r),
    ensures
        match r {
            Some(k) => i <= k && text::occurs_at(v@, p@, k as int) && forall|j: int|
                i <= j < k ==> !#[trigger] text::occurs_at(v@, p@, j),
            None => forall|j: int| i <= j ==> !#[trigger] text::occurs_at(v@, p@, j),
        },
{
    text::find_from_is_least(v@, p@, i as int);
}

/// The words of a text stand between its white space: where that parts it, the words before
/// it come first.
pub proof fn words_are_taken_apart(
    v: &Vec<char>,
    r: Vec<Vec<char>>,
    a: Seq<char>,
    c: char,
    b: Seq<char>,
)
    requires
        call_ensures(text::words, (v,), r),
    ensures
        v@.len() > 0 && text_laws::none_blank(v@) ==> r@.len() == 1 && r@[0]@ == v@,
        v@ == a.push(c) + b && text::white_space(c) ==> text::texts(r@) == text::words_of(a)
            + text::words_of(b),
        v@.len() == 0 ==> r@.len() == 0,
{
    text_laws::words_stand_between_white_space(v@, c, b);
    text_laws::words_stand_between_white_space(a, c, b);
    assert(text::texts(r@).len() == r@.len());
    if r@.len() > 0 {
        assert(text::texts(r@)[0] == r@[0]@);
    }
}

/// The lines of a text end at its line feeds: the first line stands before the first of
/// them.
pub proof fn lines_are_taken_apart(v: &Vec<char>, r: Vec<Vec<char>>, line: Seq<char>, rest: Seq<char>)
    requires
        call_ensures(text::lines, (v,), r),
        !line.contains('\n'),
    ensures
        v@ == line.push('\r').push('\n') + rest || v@ == line.push('\n') + rest && (line.len() == 0
            || line.last() != '\r') ==> r@.len() > 0 && r@[0]@ == line && text::texts(r@).skip(1)
            == text::lines_of(rest),
        v@ == line && line.len() > 0 ==> r@.len() == 1 && r@[0]@ == line,
{
    text_laws::lines_end_at_line_feeds(line, rest);
    let all = text::texts(r@);
    assert(all.len() == r@.len());
    if all.len() > 0 {
        assert(all[0] == r@[0]@);
    }
    if v@ == line.push('\r').push('\n') + rest || v@ == line.push('\n') + rest && (line.len() == 0
        || line.last() != '\r') {
        assert(all == seq![line] + text::lines_of(rest));
        assert(all.skip(1) =~= text::lines_of(rest));
    }
}

/// A number is written behind the text, digit by digit.
pub proof fn numbers_are_written(text: &mut String, n: u64)
    requires
        call_ensures(text::append_decimal, (text, n), ()),
    ensures
        final(text)@ == old(text)@ + text::decimal(n as nat),
        n < 10 ==> final(text)@ == old(text)@.push("0123456789"@[n as int]),
{
    if n < 10 {
        text_laws::numbers_are_written_in_digits(0, n as nat);
        assert(old(text)@ + text::decimal(n as nat) =~= old(text)@.push("0123456789"@[n as int]));
    }
}

// ---------------------------------------------------------------------------
// Changed pages
// ---------------------------------------------------------------------------
/// A page is reported exactly where it is another than the one that was remembered, and
/// under the key of each page the hash of what is written on it is to be remembered.
pub proof fn changes_are_reported(pages: &Vec<PageData>, prev: &DocState, r: Ingested, n: usize)
    requires
        call_ensures(ingest::ingest, (pages, prev), r),
    ensures
        r.changed@.contains(n) <==> exists|i: int|
            0 <= i < pages@.len() && (#[trigger] pages@[i]).index == n && laws::is_another(
                pages@[i],
                ingest::hashes(prev.page_hashes@),
            ),
        r.changed@.len() <= pages@.len(),
{
    let known = ingest::hashes(prev.page_hashes@);
    let all = ingest::changed_pages(ingest::page_views(pages@), known);
    laws::reported_pages_are_others(pages@, known, n as nat);
    reported_at_most_once(ingest::page_views(pages@), known);
    if r.changed@.contains(n) {
        let k = choose|k: int| 0 <= k < r.changed@.len() && r.changed@[k] == n;
        assert(ingest::numbers(r.changed@)[k] == n);
    }
    if all.contains(n as nat) {
        let k = choose|k: int| 0 <= k < all.len() && all[k] == n as nat;
        assert(ingest::numbers(r.changed@)[k] == r.changed@[k]);
    }
}

/// No more pages are reported than there are.
proof fn reported_at_most_once(
    pages: Seq<ingest::PageView>,
    known: Map<Seq<char>, Seq<char>>,
)
    ensures
        ingest::changed_pages(pages, known).len() <= pages.len(),
    decreases pages.len(),
{
    if pages.len() > 0 {
        reported_at_most_once(pages.drop_last(), known);
    }
}

/// What is to be remembered of a page is the hash of what is written on it.
pub proof fn hashes_are_remembered(
    pages: &Vec<PageData>,
    prev: &DocState,
    r: Ingested,
    key: Seq<char>,
)
    requires
        call_ensures(ingest::ingest, (pages, prev), r),
    ensures
        match ingest::hashes(r.new_hashes@).get(key) {
            Some(hash) => exists|i: int|
                0 <= i < pages@.len() && (#[trigger] pages@[i]).id@ + ".rm"@ == key
                    && !laws::is_another(pages@[i], map![key => hash]) && forall|j: int|
                    i < j < pages@.len() ==> (#[trigger] pages@[j]).id@ + ".rm"@ != key,
            None => forall|i: int|
                0 <= i < pages@.len() ==> (#[trigger] pages@[i]).id@ + ".rm"@ != key,
        },
{
    laws::every_page_is_remembered(pages@, key);
}

/// Bytes are written in base sixteen with two digits each.
pub proof fn bytes_are_written_in_digits(bytes: &[u8], r: String, i: int)
    requires
        call_ensures(ingest::to_hex, (bytes,), r),
    ensures
        r@.len() == 2 * bytes@.len(),
        0 <= i < bytes@.len() ==> laws::hex_value(r@[2 * i]) * 16 + laws::hex_value(r@[2 * i + 1])
            == bytes@[i] && laws::hex_value(r@[2 * i]) >= 0 && laws::hex_value(r@[2 * i + 1]) >= 0,
{
    laws::hex_has_two_digits(bytes@);
    if 0 <= i < bytes@.len() {
        assert(bytes@[i] >= 0);
    }
}

/// The hash of a page is that of its bytes.
pub proof fn pages_are_hashed(bytes: &[u8], r: String)
    requires
        call_ensures(ingest::page_hash, (bytes,), r),
    ensures
        r@ == ingest::hex(ingest::sha256(bytes@)),
{
}

// ---------------------------------------------------------------------------
// Ink
// ---------------------------------------------------------------------------
/// No point of a stroke lies outside the bounds of the ink, and each bound is that of a
/// point; without points there are none.
pub proof fn ink_is_bounded(
    strokes: &Vec<InkStroke>,
    r: Option<(i64, i64, i64, i64)>,
    i: int,
    j: int,
)
    requires
        call_ensures(ink::ink_bbox, (strokes,), r),
        0 <= i < strokes@.len(),
        0 <= j < strokes@[i].points@.len(),
    ensures
        r is Some,
        r->Some_0.0 <= strokes@[i].points@[j].x <= r->Some_0.2,
        r->Some_0.1 <= strokes@[i].points@[j].y <= r->Some_0.3,
{
    let k = laws::points_are_gathered(strokes@, i, j);
    let at = laws::ink_lies_within_its_bounds(strokes@, r->Some_0, i, j);
}

/// The last stroke of an image is drawn over the image of those before it, along its own
/// line and in the colour of its pen; a highlighter's lets text show through.
pub proof fn strokes_are_drawn_in_their_colours(
    strokes: &Vec<InkStroke>,
    traces: &Vec<Trace>,
    width: u32,
    height: u32,
    opts: &InkOpts,
    r: Result<Vec<u8>, InkError>,
) -> (before: Seq<u8>)
    requires
        call_ensures(ink::render_strokes_on_canvas, (strokes, traces, width, height, opts), r),
        strokes@.len() == traces@.len(),
        strokes@.len() > 0,
        strokes@.last().points@.len() >= 2,
        traces@.last().path is Some,
        laws::is_number(ink::pen_data(traces@.last().pen)[0]),
        laws::has_canvas(width, height),
    ensures
        laws::shows(
            ink::rendered(
                strokes@.drop_last(),
                traces@.drop_last(),
                width,
                height,
                opts.background,
            ),
            width,
            height,
            before,
        ),
        ({
            let stroke = strokes@.last();
            let rgb = theme::rgb_of(stroke.color);
            let alpha = if stroke.highlighter {
                110u8
            } else {
                255u8
            };
            let pixels = ink::stroked(
                width,
                height,
                before,
                ink::path_data(traces@.last().path->Some_0),
                ink::pen_data(traces@.last().pen),
                (rgb.0, rgb.1, rgb.2, alpha),
            );
            match r {
                Ok(bytes) => ink::png_bytes(width, height, pixels) == Some(bytes@),
                Err(e) => e == InkError::Png && ink::png_bytes(width, height, pixels) is None,
            }
        }),
{
    let before = laws::a_stroke_is_drawn_in_its_colour(
        strokes@.drop_last(),
        traces@.drop_last(),
        strokes@.last(),
        traces@.last(),
        width,
        height,
        opts.background,
    );
    assert(strokes@.drop_last().push(strokes@.last()) =~= strokes@);
    assert(traces@.drop_last().push(traces@.last()) =~= traces@);
    before
}

/// An image that is cropped to its ink is that on a canvas with the margin on all sides.
/// Without points there is no image, and none without width or height.
pub proof fn images_are_cropped(
    strokes: &Vec<InkStroke>,
    traces: &Vec<Trace>,
    span: (u32, u32),
    opts: &InkOpts,
    r: Result<Vec<u8>, InkError>,
    width: u32,
    height: u32,
    on_canvas: Result<Vec<u8>, InkError>,
)
    requires
        call_ensures(ink::render_strokes, (strokes, traces, span, opts), r),
        call_ensures(
            ink::render_strokes_on_canvas,
            (strokes, traces, width, height, opts),
            on_canvas,
        ),
        width == opts.margin_px + span.0 + opts.margin_px,
        height == opts.margin_px + span.1 + opts.margin_px,
    ensures
        (forall|i: int| 0 <= i < strokes@.len() ==> (#[trigger] strokes@[i]).points@.len() == 0)
            ==> r is Err && r->Err_0 == InkError::NoPoints,
        (exists|i: int| 0 <= i < strokes@.len() && (#[trigger] strokes@[i]).points@.len() > 0) ==> if width
            == 0 || height == 0 {
            r is Err && r->Err_0 == InkError::Empty
        } else {
            ink::image_view(r) == ink::image_view(on_canvas)
        },
{
    if exists|i: int| 0 <= i < strokes@.len() && (#[trigger] strokes@[i]).points@.len() > 0 {
        let i = choose|i: int| 0 <= i < strokes@.len() && (#[trigger] strokes@[i]).points@.len() > 0;
        let k = laws::points_are_gathered(strokes@, i, 0);
    } else {
        if ink::points_of(strokes@).len() > 0 {
            let at = laws::points_are_strokes(strokes@, 0);
            assert(strokes@[at.0].points@.len() == 0);
        }
    }
}

/// A highlighter's line is wide, and a pen's is thin.
pub proof fn lines_have_a_width(highlighter: bool, w: u32)
    requires
        call_ensures(ink::default_width, (highlighter,), w),
    ensures
        highlighter ==> w == 18,
        !highlighter ==> w == 3,
{
}

// ---------------------------------------------------------------------------
// Marks
// ---------------------------------------------------------------------------
/// The marks of a page of the source start with the texts that the device took over, each
/// with its page, its text and the colour that it was highlighted in.
pub proof fn taken_texts_are_marked<
    T: Fn(usize, &PdfRect) -> String,
    R: Fn(usize, &Vec<usize>, &InkOpts) -> Result<Vec<u8>, String>,
>(
    page: usize,
    source_pages: usize,
    highlights: &Vec<TextHighlight>,
    strokes: &Vec<InkStroke>,
    reconstruct: &T,
    render: &R,
    r: Result<Vec<Mark>, String>,
    i: int,
)
    requires
        call_ensures(
            extract::page_marks::<T, R>,
            (page, source_pages, highlights, strokes, reconstruct, render),
            r,
        ),
        page < source_pages,
        r is Ok,
        0 <= i < highlights@.len(),
    ensures
        i < r->Ok_0@.len(),
        r->Ok_0@[i] matches Mark::Highlight { page: p, text, color } && p == page && text@
            == highlights@[i].text@ && color == highlights@[i].color,
{
    laws::taken_text_keeps_its_colour(
        page,
        source_pages,
        highlights@,
        strokes@,
        extract::answers(reconstruct),
        render,
        r->Ok_0@,
        i,
    );
}

/// Behind the texts that were taken over come those that highlighters' strokes cover, in
/// the order of the strokes: the mark has the text that was found in the stroke's own
/// region of that page, and the stroke's own colour.
pub proof fn ink_over_text_is_marked<
    T: Fn(usize, &PdfRect) -> String,
    R: Fn(usize, &Vec<usize>, &InkOpts) -> Result<Vec<u8>, String>,
>(
    page: usize,
    source_pages: usize,
    highlights: &Vec<TextHighlight>,
    strokes: &Vec<InkStroke>,
    reconstruct: &T,
    render: &R,
    r: Result<Vec<Mark>, String>,
    k: int,
) -> (from: Seq<int>)
    requires
        call_ensures(
            extract::page_marks::<T, R>,
            (page, source_pages, highlights, strokes, reconstruct, render),
            r,
        ),
        page < source_pages,
        r is Ok,
    ensures
        highlights@.len() + from.len() <= r->Ok_0@.len() <= highlights@.len() + from.len() + 1,
        forall|a: int, b: int| 0 <= a < b < from.len() ==> from[a] < from[b],
        0 <= k < from.len() ==> {
            &&& 0 <= from[k] < strokes@.len()
            &&& strokes@[from[k]].highlighter
            &&& exists|found: String| #[trigger]
                call_ensures(reconstruct, (page, &strokes@[from[k]].band->0), found)
                    && laws::is_highlight(
                    r->Ok_0@[highlights@.len() + k],
                    page,
                    found@,
                    strokes@[from[k]].color,
                )
        },
{
    let reads = extract::answers(reconstruct);
    let from = laws::ink_over_text_is_read(
        page,
        source_pages,
        highlights@,
        strokes@,
        reads,
        render,
        r->Ok_0@,
    );
    if 0 <= k < from.len() {
        let band = strokes@[from[k]].band->0;
        let text = choose|text: Seq<char>|
            text.len() > 0 && #[trigger] reads(page, band, text) && laws::is_highlight(
                r->Ok_0@[highlights@.len() + k],
                page,
                text,
                strokes@[from[k]].color,
            );
        assert(reads(page, band, text));
    }
    from
}

/// What pens wrote on a page of the source is the last of its marks: an image of their
/// strokes, of all of them and of no others.
pub proof fn pens_are_noted<
    T: Fn(usize, &PdfRect) -> String,
    R: Fn(usize, &Vec<usize>, &InkOpts) -> Result<Vec<u8>, String>,
>(
    page: usize,
    source_pages: usize,
    highlights: &Vec<TextHighlight>,
    strokes: &Vec<InkStroke>,
    reconstruct: &T,
    render: &R,
    r: Result<Vec<Mark>, String>,
)
    requires
        call_ensures(
            extract::page_marks::<T, R>,
            (page, source_pages, highlights, strokes, reconstruct, render),
            r,
        ),
        page < source_pages,
        r is Ok,
    ensures
        (exists|n: int| 0 <= n < strokes@.len() && !(#[trigger] strokes@[n]).highlighter)
            ==> r->Ok_0@.len() > 0 && (r->Ok_0@.last() matches Mark::Note { page: p, png } && p
            == page && exists|places: Seq<usize>| #[trigger]
            laws::are_pens(strokes@, places) && laws::was_drawn(render, page, places, png@)),
        (forall|n: int| 0 <= n < strokes@.len() ==> (#[trigger] strokes@[n]).highlighter)
            ==> forall|i: int| 0 <= i < r->Ok_0@.len() ==> #[trigger] r->Ok_0@[i] is Highlight,
{
    assert(strokes.len() == strokes@.len());
    laws::pens_are_noted(
        page,
        source_pages,
        highlights@,
        strokes@,
        extract::answers(reconstruct),
        render,
        r->Ok_0@,
    );
}

/// A page behind those of the source is one image of all its strokes, to go behind the last
/// page of the source; without strokes it is nothing.
pub proof fn inserted_pages_are_drawn<
    T: Fn(usize, &PdfRect) -> String,
    R: Fn(usize, &Vec<usize>, &InkOpts) -> Result<Vec<u8>, String>,
>(
    page: usize,
    source_pages: usize,
    highlights: &Vec<TextHighlight>,
    strokes: &Vec<InkStroke>,
    reconstruct: &T,
    render: &R,
    r: Result<Vec<Mark>, String>,
)
    requires
        call_ensures(
            extract::page_marks::<T, R>,
            (page, source_pages, highlights, strokes, reconstruct, render),
            r,
        ),
        page >= source_pages,
        r is Ok,
    ensures
        strokes@.len() == 0 ==> r->Ok_0@.len() == 0,
        strokes@.len() > 0 ==> r->Ok_0@.len() == 1 && (r->Ok_0@[0] matches Mark::InsertedPage {
            after_page,
            png,
        } && after_page == (if source_pages > 0 {
            source_pages - 1
        } else {
            0
        }) && laws::was_drawn(
            render,
            page,
            Seq::new(strokes@.len(), |i: int| i as usize),
            png@,
        )),
{
    laws::inserted_pages_are_drawn(
        page,
        source_pages,
        highlights@,
        strokes@,
        extract::answers(reconstruct),
        render,
        r->Ok_0@,
    );
}

/// The text under a region is that of the words of the page that overlap it, in the order
/// in which they are read; without a text layer there is none.
pub proof fn text_is_looked_up<I: Fn(&PdfRect, &PdfRect) -> bool>(
    layer: &Option<TextLayer>,
    intersects: &I,
    page: usize,
    rect: &PdfRect,
    r: String,
) -> (read: (Seq<int>, Seq<Seq<char>>, Seq<int>))
    requires
        call_ensures(extract::look_up::<I>, (layer, intersects, page, rect), r),
    ensures
        *layer is None ==> r@.len() == 0,
        *layer is Some ==> {
            let words = layer->Some_0.words@;
            &&& layer_laws::read_under(words, page, *rect, intersects, read.0)
            &&& layer_laws::runs(
                Seq::new(read.0.len(), |i: int| words[read.0[i]].text@),
                read.1,
                read.2,
            )
            &&& r@ == text::trimmed(text::join(read.1, seq![' ']))
        },
{
    if *layer is Some {
        layer_laws::text_under_is_read_in_order(layer->Some_0, page, *rect, intersects, r@)
    } else {
        (seq![], seq![], seq![])
    }
}

/// The words under a region are those of the page that overlap it, in the order in which
/// they are read.
pub proof fn words_are_read_in_order<I: Fn(&PdfRect, &PdfRect) -> bool>(
    layer: &TextLayer,
    page: usize,
    rect: &PdfRect,
    intersects: &I,
    r: String,
) -> (read: (Seq<int>, Seq<Seq<char>>, Seq<int>))
    requires
        call_ensures(TextLayer::words_under::<I>, (layer, page, rect, intersects), r),
    ensures
        layer_laws::read_under(layer.words@, page, *rect, intersects, read.0),
        layer_laws::runs(
            Seq::new(read.0.len(), |i: int| layer.words@[read.0[i]].text@),
            read.1,
            read.2,
        ),
        r@ == text::trimmed(text::join(read.1, seq![' '])),
{
    layer_laws::text_under_is_read_in_order(*layer, page, *rect, intersects, r@)
}

/// As many pages are taken for the source's as were found in it; where none were, as many
/// as the notebook has.
pub proof fn pages_are_counted(found: usize, bundle_pages: usize, n: usize)
    requires
        call_ensures(extract::source_pages, (found, bundle_pages), n),
    ensures
        found != 0 ==> n == found,
        found == 0 ==> n == bundle_pages,
{
}

/// As many pages are the source's as the document lists; where it lists none, or there is
/// no document, as many as the notebook has.
pub proof fn pages_of_the_source_are_counted(doc: Option<&Document>, bundle_pages: usize, n: usize)
    requires
        call_ensures(extract::count_pages, (doc, bundle_pages), n),
    ensures
        match doc {
            Some(doc) => {
                let listed = pdf::page_ids(pdf::objects(*doc), pdf::trailer(*doc)).len();
                n == if listed == 0 {
                    bundle_pages as nat
                } else {
                    listed
                }
            },
            None => n == bundle_pages,
        },
{
}

/// Marks are extracted without a source; with one, it has to be readable. What went wrong
/// with ink is told in the words that it was told in.
pub proof fn sources_have_to_be_readable<
    I: Fn(&PdfRect, &PdfRect) -> bool,
    R: Fn(usize, &Vec<usize>, &InkOpts) -> Result<Vec<u8>, String>,
>(
    pages: &Vec<NotePage>,
    changed: &Vec<usize>,
    pdf: Option<&[u8]>,
    layer: &Option<TextLayer>,
    intersects: &I,
    render: &R,
    r: Result<Vec<Mark>, ExtractError>,
)
    requires
        call_ensures(
            extract::extract::<I, R>,
            (pages, changed, pdf, layer, intersects, render),
            r,
        ),
    ensures
        pdf is None ==> !(r is Err && r->Err_0 is Source),
        pdf matches Some(bytes) ==> (!reading::readable(bytes@) ==> r is Err && r->Err_0 is Source),
        pdf matches Some(bytes) ==> (r is Err && r->Err_0 is Source ==> reading::read_as(
            bytes@,
            None,
        )),
{
    let read = choose|read: Option<Document>| #[trigger]
        extract::source_read(pdf, read) && if pdf is Some && read is None {
            r == Err::<Vec<Mark>, ExtractError>(ExtractError::Source)
        } else {
            extract::told_of(
                pages@,
                changed@,
                extract::held(read),
                extract::layer_reads(*layer, intersects),
                render,
                r,
            )
        };
    assert(extract::source_read(pdf, read));
}

/// The marks of a notebook of one page are those of that page where it changed and
/// something is drawn on it, and none otherwise.
pub proof fn changed_pages_give_their_marks<
    I: Fn(&PdfRect, &PdfRect) -> bool,
    R: Fn(usize, &Vec<usize>, &InkOpts) -> Result<Vec<u8>, String>,
>(
    pages: &Vec<NotePage>,
    changed: &Vec<usize>,
    doc: Option<&Document>,
    layer: &Option<TextLayer>,
    intersects: &I,
    render: &R,
    r: Result<Vec<Mark>, String>,
    n: usize,
)
    requires
        call_ensures(
            extract::extract_from::<I, R>,
            (pages, changed, doc, layer, intersects, render),
            r,
        ),
        call_ensures(extract::count_pages, (doc, pages.len()), n),
        r is Ok,
        pages@.len() == 1,
    ensures
        match pages@[0].scene {
            Some(scene) => if changed@.contains(pages@[0].index) {
                extract::page_marked(
                    pages@[0].index,
                    n,
                    scene.text_highlights@,
                    scene.strokes@,
                    |page: usize, rect: PdfRect, shown: Seq<char>|
                        match *layer {
                            Some(words) => words.under(page, rect, intersects, shown),
                            None => shown.len() == 0,
                        },
                    render,
                    Ok(extract::mark_views(r->Ok_0@)),
                )
            } else {
                r->Ok_0@.len() == 0
            },
            None => r->Ok_0@.len() == 0,
        },
{
    let reads = extract::layer_reads(*layer, intersects);
    let views = extract::mark_views(r->Ok_0@);
    assert(pages@ =~= seq![pages@[0]]);
    laws::a_changed_page_gives_its_own(pages@[0], changed@, n, reads, render, views);
    assert(reads =~= |page: usize, rect: PdfRect, shown: Seq<char>|
        match *layer {
            Some(words) => words.under(page, rect, intersects, shown),
            None => shown.len() == 0,
        });
}

// ---------------------------------------------------------------------------
// Digests
// ---------------------------------------------------------------------------
/// A digest says of every mark, in the order of the marks, its page, its colour and its
/// text, or the path of its image; and it comes with these images under their paths.
pub proof fn digests_say_their_marks(
    meta: &DigestMeta,
    marks: &[Mark],
    r: (String, Vec<(String, Vec<u8>)>),
) -> (cuts: Seq<int>)
    requires
        call_ensures(digest_doc::build_digest, (meta, marks), r),
    ensures
        digest_laws::parted(r.0@, cuts, marks@.len()),
        digest_laws::says_only(
            r.0@.take(cuts[0]),
            seq![
                markup::literal(meta.title@),
                markup::literal(meta.author@),
                markup::content(meta.title@),
                markup::content(meta.author@),
                digest_laws::count_text(meta.n_highlights as nat, "highlight"),
                digest_laws::count_text(meta.n_notes as nat, "note"),
                markup::content(meta.date_range@),
            ],
            digest_laws::digest_cover_frame(),
        ),
        forall|i: int|
            0 <= i < marks@.len() ==> digest_laws::says_only(
                #[trigger] digest_laws::section(r.0@, cuts, i),
                digest_laws::digest_words(
                    marks@[i],
                    digest_laws::pictured(extract::mark_views(marks@).take(i)).len(),
                ),
                digest_laws::digest_frame(marks@[i] is Highlight),
            ),
        digest_doc::image_views(r.1@) == digest_doc::images(
            digest_doc::IMAGE_FRONT,
            extract::mark_views(marks@),
        ),
{
    digest_laws::a_digest_says_its_marks(*meta, marks@)
}

/// A digest of a document says of the i-th mark the page and the texts that were found of
/// that mark, and of no other.
pub proof fn digests_tell_what_was_found(
    meta: &DigestMeta,
    marks: &[Mark],
    found: &Vec<Option<Found>>,
    device: &Device,
    r: (String, Vec<(String, Vec<u8>)>),
) -> (cuts: Seq<int>)
    requires
        call_ensures(linked_doc::build_from, (meta, marks, found, device), r),
        found@.len() == marks@.len(),
    ensures
        digest_laws::parted(r.0@, cuts, marks@.len()),
        digest_laws::says_only(
            r.0@.take(cuts[0]),
            digest_laws::linked_cover_words(*meta, device.width_pt@, device.height_pt@),
            digest_laws::linked_cover_frame(),
        ),
        forall|i: int|
            0 <= i < marks@.len() ==> digest_laws::says_only(
                #[trigger] digest_laws::section(r.0@, cuts, i),
                digest_laws::linked_words(
                    marks@[i],
                    digest_laws::page_found(found@[i]),
                    digest_laws::texts_found(found@[i]),
                    digest_laws::pictured(extract::mark_views(marks@).take(i)).len(),
                ),
                digest_laws::linked_frame(
                    marks@[i] is Highlight,
                    digest_laws::texts_found(found@[i]) is None,
                ),
            ),
        digest_doc::image_views(r.1@) == digest_doc::images(
            linked_doc::SKETCH_FRONT,
            extract::mark_views(marks@),
        ),
{
    digest_laws::a_digest_tells_what_was_found(
        *meta,
        marks@,
        found@,
        device.width_pt@,
        device.height_pt@,
    )
}

/// A digest of a document shows every highlight that is found in it as it stands there: in
/// the section of the i-th mark stand the number of the first page that holds the text of
/// that mark, and the characters of that page that match it, in the colour of the mark.
#[verifier::spinoff_prover]
pub proof fn digests_show_highlights_as_they_stand(
    meta: &DigestMeta,
    marks: &[Mark],
    doc_pages: &Vec<String>,
    device: &Device,
    r: (String, Vec<(String, Vec<u8>)>),
    i: int,
) -> (shown: (Seq<int>, int, int, int, Seq<char>, Seq<char>))
    requires
        call_ensures(linked_doc::build_linked, (meta, marks, doc_pages, device), r),
        0 <= i < marks@.len(),
        marks@[i] is Highlight,
        text::trimmed(marks@[i]->Highlight_text@).len() > 0,
        exists|n: int|
            0 <= n < doc_pages@.len() && find_laws::holds(
                #[trigger] doc_pages@[n]@,
                marks@[i]->Highlight_text@,
            ),
    ensures
        ({
            let (cuts, p, from, to, before, after) = shown;
            let text = marks@[i]->Highlight_text@;
            let page = doc_pages@[p]@;
            let phrase = linked_doc::lowercase(text::trimmed(text));
            &&& digest_laws::parted(r.0@, cuts, marks@.len())
            &&& 0 <= p < doc_pages@.len()
            &&& find_laws::holds(page, text)
            &&& forall|n: int| 0 <= n < p ==> !find_laws::holds(#[trigger] doc_pages@[n]@, text)
            &&& exists|k: int|
                #[trigger] find_laws::stands_behind(linked_doc::lowercase(page), phrase, k)
                    && find_laws::reaches(page, from, to, k, phrase.len())
            &&& digest_laws::says(
                digest_laws::section(r.0@, cuts, i),
                seq![
                    "page "@ + text::decimal((p + 1) as nat) + "\""@,
                    markup::content(before),
                    digest_laws::parts_of(theme::rgb_of(marks@[i]->Highlight_color)),
                    markup::content(page.subrange(from, to)),
                    markup::content(after),
                ],
            )
        }),
{
    let pages = text::strings(doc_pages@);
    let text = marks@[i]->Highlight_text@;
    let n = choose|n: int|
        0 <= n < doc_pages@.len() && find_laws::holds(#[trigger] doc_pages@[n]@, text);
    assert(pages[n] == doc_pages@[n]@);
    find_laws::a_highlight_is_found_on_its_first_page(pages, text);
    let at = find_laws::a_found_highlight_is_shown_as_it_stands(pages, text);
    let cuts = digest_laws::a_digest_shows_highlights_in_the_document(
        *meta,
        marks@,
        pages,
        device.width_pt@,
        device.height_pt@,
    );
    let place = linked_doc::located(pages, text)->Some_0;
    let (k, from, to, x, y) = at;
    let p = place.page as int;
    assert forall|m: int| 0 <= m < p implies !find_laws::holds(#[trigger] doc_pages@[m]@, text) by {
        assert(pages[m] == doc_pages@[m]@);
    }
    assert(digest_laws::place_of(pages, marks@[i]) == Some(place));
    let texts = place.context->Some_0;
    assert(digest_laws::says(
        digest_laws::section(r.0@, cuts, i),
        seq![
            "page "@ + text::decimal((p + 1) as nat) + "\""@,
            markup::content(texts.0),
            digest_laws::parts_of(theme::rgb_of(marks@[i]->Highlight_color)),
            markup::content(doc_pages@[p]@.subrange(from, to)),
            markup::content(texts.2),
        ],
    ));
    (cuts, p, from, to, texts.0, texts.2)
}

/// A digest of a document says of every mark what there is to say of it: of a highlight
/// where its own text is found in the document, or its own page and text where it is not;
/// of a note or an inserted page its page and the path of its image.
pub proof fn digests_of_documents_say_their_marks(
    meta: &DigestMeta,
    marks: &[Mark],
    doc_pages: &Vec<String>,
    device: &Device,
    r: (String, Vec<(String, Vec<u8>)>),
) -> (cuts: Seq<int>)
    requires
        call_ensures(linked_doc::build_linked, (meta, marks, doc_pages, device), r),
    ensures
        digest_laws::parted(r.0@, cuts, marks@.len()),
        digest_laws::says_only(
            r.0@.take(cuts[0]),
            digest_laws::linked_cover_words(*meta, device.width_pt@, device.height_pt@),
            digest_laws::linked_cover_frame(),
        ),
        forall|i: int|
            0 <= i < marks@.len() ==> match digest_laws::place_of(
                text::strings(doc_pages@),
                marks@[i],
            ) {
                Some(place) => digest_laws::says_only(
                    #[trigger] digest_laws::section(r.0@, cuts, i),
                    digest_laws::linked_words(
                        marks@[i],
                        Some(place.page),
                        place.context,
                        digest_laws::pictured(extract::mark_views(marks@).take(i)).len(),
                    ),
                    digest_laws::linked_frame(true, place.context is None),
                ),
                None => digest_laws::says_only(
                    digest_laws::section(r.0@, cuts, i),
                    digest_laws::linked_words(
                        marks@[i],
                        None,
                        None,
                        digest_laws::pictured(extract::mark_views(marks@).take(i)).len(),
                    ),
                    digest_laws::linked_frame(marks@[i] is Highlight, true),
                ),
            },
        digest_doc::image_views(r.1@) == digest_doc::images(
            linked_doc::SKETCH_FRONT,
            extract::mark_views(marks@),
        ),
{
    digest_laws::a_digest_shows_highlights_in_the_document(
        *meta,
        marks@,
        text::strings(doc_pages@),
        device.width_pt@,
        device.height_pt@,
    )
}

/// The images of a digest are those of its marks, in their order, each under its number.
pub proof fn digests_come_with_their_images(
    meta: &DigestMeta,
    marks: &[Mark],
    r: (String, Vec<(String, Vec<u8>)>),
    i: int,
)
    requires
        call_ensures(digest_doc::build_digest, (meta, marks), r),
        0 <= i < digest_laws::pictured(extract::mark_views(marks@)).len(),
    ensures
        r.1@.len() == digest_laws::pictured(extract::mark_views(marks@)).len(),
        r.1@[i].0@ == "/assets/img-"@ + text::decimal(i as nat) + ".png"@,
        r.1@[i].1@ == digest_laws::image_of(
            digest_laws::pictured(extract::mark_views(marks@))[i],
        ),
{
    digest_laws::images_are_those_of_the_marks(
        digest_doc::IMAGE_FRONT,
        extract::mark_views(marks@),
    );
    let views = digest_doc::image_views(r.1@);
    assert(views.len() == r.1@.len());
    assert(views[i] == (r.1@[i].0@, r.1@[i].1@));
}

/// A highlight is located on the first page that holds it, and nowhere exactly where no
/// page does.
pub proof fn highlights_are_located(pages: &Vec<String>, highlight: &str, r: Option<Found>)
    requires
        call_ensures(linked_doc::locate, (pages, highlight), r),
    ensures
        match r {
            Some(found) => found.page < pages@.len() && find_laws::holds(
                pages@[found.page as int]@,
                highlight@,
            ) && forall|n: int|
                0 <= n < found.page ==> !find_laws::holds(#[trigger] pages@[n]@, highlight@),
            None => forall|n: int|
                0 <= n < pages@.len() ==> !find_laws::holds(#[trigger] pages@[n]@, highlight@),
        },
{
    let all = text::strings(pages@);
    find_laws::a_highlight_is_found_on_its_first_page(all, highlight@);
    assert forall|n: int| 0 <= n < pages@.len() implies #[trigger] pages@[n]@ == all[n] by {}
}

/// The pages of a printed document end at its form feeds: before the first of them stands
/// the first page, with one blank between its words.
pub proof fn documents_are_parted_into_pages(
    printed: &str,
    page: Seq<char>,
    rest: Seq<char>,
    r: Vec<String>,
)
    requires
        call_ensures(linked_doc::split_pages, (printed,), r),
        !page.contains('\u{c}'),
    ensures
        printed@ == page ==> r@.len() == 1 && r@[0]@ == text::join(
            text::words_of(page),
            seq![' '],
        ),
        printed@ == page.push('\u{c}') + rest ==> r@.len() > 0 && r@[0]@ == text::join(
            text::words_of(page),
            seq![' '],
        ) && text::strings(r@.skip(1)) == linked_doc::pages_printed(rest),
{
    find_laws::pages_end_at_form_feeds(page, rest);
    let all = text::strings(r@);
    assert(all == linked_doc::pages_printed(printed@));
    assert(all.len() == r@.len());
    if printed@ == page {
        assert(all[0] == r@[0]@);
    }
    if printed@ == page.push('\u{c}') + rest {
        assert(all.len() > 0);
        assert(all[0] == r@[0]@);
        assert(text::strings(r@.skip(1)) =~= all.skip(1));
        assert(all.skip(1) =~= linked_doc::pages_printed(rest));
    }
}

/// A highlight that is found in a text is cut out as it stands there: the middle is made of
/// the characters whose lower case reaches into the first place where the lower case of the
/// highlight stands.
pub proof fn passages_are_cut_out(
    page: &str,
    highlight: &str,
    r: Option<(String, String, String)>,
) -> (at: (int, int, int, int, int))
    requires
        call_ensures(linked_doc::context, (page, highlight), r),
        text::trimmed(highlight@).len() > 0,
        find_laws::holds(page@, highlight@),
    ensures
        ({
            let (k, from, to, x, y) = at;
            let phrase = linked_doc::lowercase(text::trimmed(highlight@));
            let low = linked_doc::lowercase(page@);
            &&& r is Some
            &&& find_laws::stands_behind(low, phrase, k)
            &&& forall|j: int| #[trigger] find_laws::stands_behind(low, phrase, j) ==> k <= j
            &&& find_laws::reaches(page@, from, to, k, phrase.len())
            &&& find_laws::shown_around(
                page@,
                (r->Some_0.0@, r->Some_0.1@, r->Some_0.2@),
                from,
                to,
                x,
                y,
            )
        }),
{
    let pages = seq![page@];
    find_laws::a_highlight_is_found_on_its_first_page(pages, highlight@);
    assert(find_laws::holds(pages[0], highlight@));
    let at = find_laws::a_found_highlight_is_shown_as_it_stands(pages, highlight@);
    linked_doc::page_holds(
        linked_doc::lowered(pages),
        linked_doc::lowercase(text::trimmed(highlight@)),
        0,
    );
    let place = linked_doc::located(pages, highlight@)->Some_0;
    assert(pages[place.page as int] == page@);
    assert(linked_doc::context_view(r) == place.context);
    at
}

// ---------------------------------------------------------------------------
// The cloud
// ---------------------------------------------------------------------------
/// A file is staged under the name that it is to have, as a PDF.
pub proof fn files_are_staged(name: &str, r: String)
    requires
        call_ensures(deploy::staged_name, (name,), r),
    ensures
        r@ == name@ + seq!['.', 'p', 'd', 'f'],
{
    reveal_strlit(".pdf");
    assert(".pdf"@ =~= seq!['.', 'p', 'd', 'f']);
}

/// Two paths are joined by one slash, unless the second stands for itself.
pub proof fn paths_are_joined(base: &str, below: &str, r: String)
    requires
        call_ensures(deploy::join_path, (base, below), r),
        base@.len() > 0,
        base@.last() != '/',
    ensures
        below@.len() == 0 || below@[0] != '/' ==> r@ == base@.push('/') + below@,
        below@.len() > 0 && below@[0] == '/' ==> r@ == below@,
{
    deploy_laws::paths_are_joined_by_one_slash(base@, below@);
}

/// The configuration is looked for under the program's own directory, else under that of
/// configurations, else under the home directory.
pub proof fn configurations_are_looked_for(env: &Environment, r: String)
    requires
        call_ensures(deploy::default_conf_path, (env,), r),
    ensures
        env.rmapi_xdg_home matches Some(base) ==> r@ == deploy::joined(
            base@,
            "rmapi/rmapi.conf"@,
        ),
        env.rmapi_xdg_home is None ==> (env.xdg_config_home matches Some(base) ==> r@
            == deploy::joined(base@, "rmapi/rmapi.conf"@)),
        env.rmapi_xdg_home is None && env.xdg_config_home is None ==> (env.home matches Some(
            home,
        ) ==> r@ == deploy::joined(home@, ".config/rmapi/rmapi.conf"@)),
{
    deploy_laws::the_configuration_has_its_place(*env);
}

/// A configuration is blank unless a line gives a token for the device, and one for the
/// user.
pub proof fn blank_configurations_lack_a_token(conf: &str, r: bool)
    requires
        call_ensures(deploy::is_blank_text, (conf,), r),
    ensures
        !r <==> {
            &&& exists|i: int|
                0 <= i < text::lines_of(conf@).len() && #[trigger] deploy_laws::gives_token(
                    text::lines_of(conf@)[i],
                    "devicetoken"@,
                )
            &&& exists|i: int|
                0 <= i < text::lines_of(conf@).len() && #[trigger] deploy_laws::gives_token(
                    text::lines_of(conf@)[i],
                    "usertoken"@,
                )
        },
{
    deploy_laws::configurations_have_two_tokens(conf@);
}

/// When the program has ended, a configuration that is missing or blank is put back,
/// whatever the program came to. A call that succeeded is done; one that failed is made
/// again where the configuration was lost, but no third time.
pub proof fn calls_are_made_at_most_twice(
    rmapi: &ProcessRmapi,
    again: bool,
    success: bool,
    conf: Option<&[u8]>,
    r: NextStep,
)
    requires
        call_ensures(ProcessRmapi::after_exit, (rmapi, again, success, conf), r),
    ensures
        ({
            let lost = match conf {
                Some(bytes) => deploy::blank_text(text::lossy_text(bytes@)),
                None => true,
            };
            &&& lost <==> r.restore is Some
            &&& lost ==> r.restore->Some_0@ == rmapi.snapshot()
            &&& success <==> r.then_do == Next::Succeed
            &&& r.then_do == Next::Retry <==> !success && lost && !again
            &&& again ==> r.then_do != Next::Retry
        }),
{
}

/// A document is downloaded by its path, once. The program leaves it under its name, and it
/// is kept under one that tells whose it is.
pub proof fn documents_are_fetched<R: RmapiRunner>(
    backend: &mut RmapiBackend<R>,
    dir: &str,
    doc: &CloudDoc,
    r: Result<Option<Fetched>, RunError>,
)
    requires
        call_ensures(<RmapiBackend<R> as Backend>::fetch, (backend, dir, doc), r),
    ensures
        ({
            let found = match r {
                Ok(Some(_)) => Some(true),
                Ok(None) => Some(false),
                Err(_) => None,
            };
            final(backend).log() == old(backend).log().push(
                Event::RunIn { dir: dir@, args: seq!["-ni"@, "get"@, doc.path@], found },
            )
        }),
        r matches Ok(Some(names)) ==> names.produced@ == doc.name@ + ".rmdoc"@ && names.dest@
            == "rmdigest-"@ + doc.name@ + ".rmdoc"@,
{
}

/// A file is uploaded into its folder in place of the document of that name.
pub proof fn files_are_uploaded<R: RmapiRunner>(
    backend: &mut RmapiBackend<R>,
    staged: &str,
    folder: &str,
    name: &str,
    r: Result<Option<String>, RunError>,
)
    requires
        call_ensures(<RmapiBackend<R> as Backend>::put, (backend, staged, folder, name), r),
    ensures
        ({
            let log = old(backend).log();
            let now = final(backend).log();
            let n = now.len() as int;
            &&& n >= log.len() + 2
            &&& now.take(log.len() as int) == log
            &&& n == log.len() + deploy::components_of(folder@).len() + 2
            &&& deploy_laws::ran(now[n - 2], seq!["-ni"@, "rm"@, folder@ + "/"@ + name@])
            &&& now[n - 1] == (Event::Run {
                args: seq!["-ni"@, "put"@, staged@, folder@],
                ok: r is Ok,
            })
        }),
        r is Ok ==> r->Ok_0 is None,
{
    let paths = deploy_laws::uploads_replace_in_their_folder(
        old(backend).log(),
        final(backend).log(),
        staged@,
        folder@,
        name@,
        r is Ok,
    );
}

/// Without a cloud a file is to be copied into the directory, under its name.
pub proof fn files_are_put_into_the_directory(
    backend: &mut LocalBackend,
    staged: &str,
    folder: &str,
    name: &str,
    r: Result<Option<String>, RunError>,
)
    requires
        call_ensures(<LocalBackend as Backend>::put, (backend, staged, folder, name), r),
        old(backend).output_dir@.len() > 0,
        old(backend).output_dir@.last() != '/',
        name@.len() > 0,
        name@[0] != '/',
    ensures
        r is Ok && r->Ok_0 is Some,
        r->Ok_0->Some_0@ == old(backend).output_dir@.push('/') + (name@ + ".pdf"@),
        final(backend).output_dir == old(backend).output_dir,
{
    assert((name@ + ".pdf"@)[0] == name@[0]);
    deploy_laws::paths_are_joined_by_one_slash(old(backend).output_dir@, name@ + ".pdf"@);
}

/// The documents that were listed were found by a walk that starts with the listing of the
/// root and none of whose listings failed.
pub proof fn documents_are_listed<R: RmapiRunner>(
    backend: &mut RmapiBackend<R>,
    root: &str,
    suffixes: &[String],
    r: Result<Vec<CloudDoc>, RunError>,
)
    requires
        call_ensures(<RmapiBackend<R> as Backend>::list, (backend, root, suffixes), r),
    ensures
        ({
            let log = old(backend).log();
            let now = final(backend).log();
            let events = now.skip(log.len() as int);
            &&& log.len() < now.len()
            &&& now[log.len() as int] matches Event::Capture { args, .. } && args == seq![
                "-ni"@,
                "ls"@,
                root@,
            ]
            &&& deploy::dir_walk(root@, text::strings(suffixes@), events).ok == r is Ok
            &&& r is Ok ==> deploy::doc_views(r->Ok_0@) == deploy::dir_walk(
                root@,
                text::strings(suffixes@),
                events,
            ).docs
        }),
{
    let log = old(backend).log();
    let now = final(backend).log();
    let strings = text::strings(suffixes@);
    match r {
        Ok(docs) => {
            deploy_laws::a_walk_lists_its_folder(
                log,
                now,
                root@,
                strings,
                deploy::doc_views(docs@),
                true,
            );
        },
        Err(_) => {
            let found = choose|found: Seq<deploy::DocView>| #[trigger]
                deploy::walked(log, now, root@, strings, found, false);
            deploy_laws::a_walk_lists_its_folder(log, now, root@, strings, found, false);
        },
    }
}

/// A path to a program has to name a file; a name has to be found in a directory, and the
/// first in which it is counts.
pub proof fn programs_are_looked_for<F: Fn(&str) -> bool>(
    bin: &str,
    dirs: &Vec<String>,
    is_file: &F,
    r: Result<(), RmapiError>,
)
    requires
        call_ensures(deploy::resolve_bin::<F>, (bin, dirs, is_file), r),
    ensures
        deploy::is_place(bin@) ==> match r {
            Ok(_) => deploy::said(is_file, bin@, true),
            Err(e) => e == RmapiError::NotAFile && deploy::said(is_file, bin@, false),
        },
        !deploy::is_place(bin@) ==> match r {
            Ok(_) => exists|n: int|
                0 <= n < dirs@.len() && deploy::said(
                    is_file,
                    deploy::joined((#[trigger] dirs@[n])@, bin@),
                    true,
                ),
            Err(e) => e == RmapiError::NotOnPath && forall|n: int|
                0 <= n < dirs@.len() ==> deploy::said(
                    is_file,
                    deploy::joined((#[trigger] dirs@[n])@, bin@),
                    false,
                ),
        },
{
    let all = text::strings(dirs@);
    if !deploy::is_place(bin@) {
        match r {
            Ok(_) => {
                let n = choose|n: int|
                    0 <= n < all.len() && deploy::said(
                        is_file,
                        deploy::joined(#[trigger] all[n], bin@),
                        true,
                    ) && deploy::found_in_none(is_file, bin@, all.take(n));
                assert(dirs@[n]@ == all[n]);
            },
            Err(_) => {
                assert forall|n: int| 0 <= n < dirs@.len() implies deploy::said(
                    is_file,
                    deploy::joined((#[trigger] dirs@[n])@, bin@),
                    false,
                ) by {
                    assert(all[n] == dirs@[n]@);
                }
            },
        }
    }
}

} // verus!

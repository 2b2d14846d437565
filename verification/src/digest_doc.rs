//! Builds the source of a standalone digest from a list of marks.
//!
//! The result is a document in the size of the device's page: a cover with the
//! title, the author and the counts, then one block for each mark. A highlight is
//! quoted under a kicker in its colour, with a bar at its side; a note or an
//! inserted page is framed under a kicker. Every kicker is a heading, so that the
//! device lists it in its outline.

use crate::extract;
use crate::extract::{Mark, MarkView};
use crate::markup;
use crate::markup::{esc, esc_markup};
use crate::text;
use crate::text::append_decimal;
use crate::theme;
use crate::theme::pen_rgb;
use vstd::prelude::*;
use vstd::string::*;

verus! {

/// What the cover of a digest shows.
#[derive(Debug)]
pub struct DigestMeta {
    pub title: String,
    pub author: String,
    pub n_highlights: usize,
    pub n_notes: usize,
    pub date_range: String,
}

/// What the cover of a digest shows.
#[verifier::ext_equal]
pub struct MetaView {
    pub title: Seq<char>,
    pub author: Seq<char>,
    pub n_highlights: nat,
    pub n_notes: nat,
    pub date_range: Seq<char>,
}

impl View for DigestMeta {
    type V = MetaView;

    open spec fn view(&self) -> MetaView {
        MetaView {
            title: self.title@,
            author: self.author@,
            n_highlights: self.n_highlights as nat,
            n_notes: self.n_notes as nat,
            date_range: self.date_range@,
        }
    }
}

// ---------------------------------------------------------------------------
// The fixed parts of the source
// ---------------------------------------------------------------------------
/// Up to the title.
pub const SOURCE_TITLE: &'static str = "// ─── rmdigest Digest PDF ───────────────────────────────────────────────────\n#set document(title: \"";

/// From the title to the author.
pub const SOURCE_AUTHOR: &'static str = "\", author: \"";

/// Behind the author: the page, the fonts and the kickers.
pub const SOURCE_STYLE: &'static str = r##"")
#set page(
  width: 107mm, height: 191mm,
  margin: (x: 8mm, y: 10mm),
  fill: rgb(250, 249, 246),
)
#set text(font: "Newsreader", size: 11pt, fill: rgb(26, 26, 26), lang: "en", hyphenate: false)
#set par(leading: 0.65em, spacing: 0.8em, justify: false)
#set heading(outlined: true)

// Kicker helper: tracked uppercase Hanken Grotesk in the given colour.
#let kick(t, c) = text(
  font: "Hanken Grotesk", size: 7pt,
  weight: "semibold", tracking: 2pt, fill: c,
)[#upper(t)]

// Re-style level-2 headings (highlight kickers) as inline kicker text with spacing.
// The heading registers in the PDF outline; only the visual rendering changes.
#show heading.where(level: 2): it => block(
  above: 24pt, below: 6pt,
  width: 100%,
)[#it.body]

"##;

/// Up to the title on the cover.
pub const COVER_TITLE: &'static str = r##"// ─── Cover page ──────────────────────────────────────────────────────────────
#align(center + horizon)[
  #text(font: "Hanken Grotesk", size: 7.5pt, weight: "semibold",
        tracking: 3pt, fill: rgb(120, 120, 120))[DIGEST]
  #v(14pt)
  #text(font: "Newsreader", size: 22pt, weight: "semibold",
        fill: rgb(26, 26, 26), hyphenate: false)["##;

/// From the title to the author on the cover.
pub const COVER_AUTHOR: &'static str = r##"]
  #v(6pt)
  #text(font: "Newsreader", size: 12pt, style: "italic",
        fill: rgb(80, 80, 80))["##;

/// From the author to the counts.
pub const COVER_COUNTS: &'static str = r##"]
  #v(14pt)
  #line(length: 38%, stroke: 0.5pt + rgb(180, 180, 180))
  #v(10pt)
  #text(font: "Hanken Grotesk", size: 8pt, fill: rgb(100, 100, 100))["##;

/// Behind the date range.
pub const COVER_END: &'static str = r##"]
]
#pagebreak()
"##;

/// From the colour of a kicker to the colour of the bar.
pub const QUOTE_BLOCK: &'static str = r##"))]
#block(
width: 100%,
inset: (left: 11pt, right: 4pt, top: 4pt, bottom: 4pt),
stroke: (left: 3pt + rgb("##;

/// From the colour of the bar to the quote.
pub const QUOTE_TEXT: &'static str = r##").lighten(20%)),
)[#par(leading: 0.7em)[#text(font: "Newsreader", size: 12pt,
fill: rgb(26, 26, 26))["##;

/// Behind the quote.
pub const QUOTE_END: &'static str = r##"]]]
#v(10pt)
#line(length: 22%, stroke: 0.4pt + rgb(200, 200, 200))
#v(2pt)
"##;

/// The path of an image up to its number.
pub const IMAGE_FRONT: &'static str = "/assets/img-";

/// From the kicker of a note to the path of its image.
pub const NOTE_IMAGE: &'static str = r##"", rgb(110, 110, 110))]
#block(
  stroke: 0.5pt + rgb(210, 210, 210),
  inset: (x: 5pt, y: 5pt),
  radius: 2pt,
  width: 100%,
)[#image(""##;

/// Behind the path of the image.
pub const NOTE_END: &'static str = r##"", width: 100%)]
#v(6pt)
"##;

// ---------------------------------------------------------------------------
// The source
// ---------------------------------------------------------------------------
/// Three numbers with commas between them.
pub open spec fn triple(c: (u8, u8, u8)) -> Seq<char> {
    text::decimal(c.0 as nat) + ","@ + text::decimal(c.1 as nat) + ","@ + text::decimal(c.2 as nat)
}

/// A colour for text: a bright one keeps two fifths of its brightness, one of
/// medium brightness three quarters.
pub open spec fn darkened(c: (u8, u8, u8)) -> (u8, u8, u8) {
    let brightness = (c.0 + c.1 + c.2) / 3;
    if brightness > 180 {
        ((c.0 * 2 / 5) as u8, (c.1 * 2 / 5) as u8, (c.2 * 2 / 5) as u8)
    } else if brightness > 120 {
        ((c.0 * 3 / 4) as u8, (c.1 * 3 / 4) as u8, (c.2 * 3 / 4) as u8)
    } else {
        c
    }
}

/// The word for one, or for any other number.
pub open spec fn counted_word(n: nat, one: &str, many: &str) -> Seq<char> {
    if n == 1 {
        one@
    } else {
        many@
    }
}

/// The source up to the cover.
pub open spec fn preamble(meta: MetaView) -> Seq<char> {
    SOURCE_TITLE@ + markup::literal(meta.title) + SOURCE_AUTHOR@ + markup::literal(meta.author) + SOURCE_STYLE@
}

/// The source of the cover.
pub open spec fn cover(meta: MetaView) -> Seq<char> {
    COVER_TITLE@ + markup::content(meta.title) + COVER_AUTHOR@ + markup::content(meta.author) + COVER_COUNTS@
        + text::decimal(meta.n_highlights) + " "@ + counted_word(
        meta.n_highlights,
        "highlight",
        "highlights",
    ) + " · "@ + text::decimal(meta.n_notes) + " "@ + counted_word(meta.n_notes, "note", "notes")
        + " --- "@ + markup::content(meta.date_range) + COVER_END@
}

/// The block of a highlight.
pub open spec fn quote_block(page: nat, text: Seq<char>, color: (u8, u8, u8)) -> Seq<char> {
    "// Highlight — page "@ + text::decimal(page + 1)
        + "\n#heading(level: 2, outlined: true)[#kick(\"page "@ + text::decimal(page + 1) + "\", rgb("@
        + triple(darkened(color)) + QUOTE_BLOCK@ + triple(color) + QUOTE_TEXT@ + "\u{201C}"@
        + markup::content(text) + "\u{201D}"@ + QUOTE_END@
}

/// The path of an image: its number between `front` and the ending.
pub open spec fn image_path(front: &str, i: nat) -> Seq<char> {
    front@ + text::decimal(i) + ".png"@
}

/// The block of a note or an inserted page.
pub open spec fn note_block(page: nat, kind: &str, path: Seq<char>) -> Seq<char> {
    let label = "page "@ + text::decimal(page + 1) + " · "@ + kind@;
    "// Note — page "@ + text::decimal(page + 1)
        + "\n#heading(level: 2, outlined: true)[#kick(\""@ + markup::literal(label) + NOTE_IMAGE@ + path
        + NOTE_END@
}

/// The paths and the bytes of the images among the marks, in their order.
pub open spec fn images(front: &str, marks: Seq<MarkView>) -> Seq<(Seq<char>, Seq<u8>)>
    decreases marks.len(),
{
    if marks.len() == 0 {
        Seq::empty()
    } else {
        let before = images(front, marks.drop_last());
        match marks.last() {
            MarkView::Highlight { .. } => before,
            MarkView::Note { png, .. } => before.push((image_path(front, before.len()), png)),
            MarkView::InsertedPage { png, .. } => before.push((image_path(front, before.len()), png)),
        }
    }
}

/// The block of a mark that has `n` images before it.
pub open spec fn block(mark: MarkView, n: nat) -> Seq<char> {
    match mark {
        MarkView::Highlight { page, text, color } => quote_block(page, text, theme::rgb_of(color)),
        MarkView::Note { page, .. } => note_block(page, "note", image_path(IMAGE_FRONT, n)),
        MarkView::InsertedPage { after_page, .. } => note_block(
            after_page,
            "inserted",
            image_path(IMAGE_FRONT, n),
        ),
    }
}

/// The blocks of the marks, one after the other.
pub open spec fn blocks(marks: Seq<MarkView>) -> Seq<char>
    decreases marks.len(),
{
    if marks.len() == 0 {
        Seq::empty()
    } else {
        let before = marks.drop_last();
        blocks(before) + block(marks.last(), images(IMAGE_FRONT, before).len())
    }
}

/// The source of a digest.
pub open spec fn digest_source(meta: MetaView, marks: Seq<MarkView>) -> Seq<char> {
    preamble(meta) + cover(meta) + blocks(marks)
}

/// What the images hold.
pub open spec fn image_views(assets: Seq<(String, Vec<u8>)>) -> Seq<(Seq<char>, Seq<u8>)> {
    Seq::new(assets.len(), |i: int| (assets[i].0@, assets[i].1@))
}

/// Darkens a colour for text, so that it is legible on the paper.
pub fn darken_for_text(c: (u8, u8, u8)) -> (r: (u8, u8, u8))
    ensures
        r == darkened(c),
{
    let (r, g, b) = (c.0 as u32, c.1 as u32, c.2 as u32);
    let brightness = (r + g + b) / 3;
    if brightness > 180 {
        ((r * 2 / 5) as u8, (g * 2 / 5) as u8, (b * 2 / 5) as u8)
    } else if brightness > 120 {
        ((r * 3 / 4) as u8, (g * 3 / 4) as u8, (b * 3 / 4) as u8)
    } else {
        c
    }
}

/// Appends three numbers with commas between them.
pub(crate) fn append_triple(to: &mut String, c: (u8, u8, u8))
    ensures
        final(to)@ == old(to)@ + triple(c),
{
    let ghost before = to@;
    append_decimal(to, c.0 as u64);
    to.append(",");
    append_decimal(to, c.1 as u64);
    to.append(",");
    append_decimal(to, c.2 as u64);
    assert(to@ =~= before + triple(c));
}

/// Appends a number, a space and the word for what it counts.
pub(crate) fn append_count(to: &mut String, n: usize, one: &str, many: &str)
    ensures
        final(to)@ == old(to)@ + text::decimal(n as nat) + " "@ + counted_word(n as nat, one, many),
{
    append_decimal(to, n as u64);
    to.append(" ");
    if n == 1 {
        to.append(one);
    } else {
        to.append(many);
    }
}

/// Makes the path of an image.
pub(crate) fn path_of(front: &str, i: usize) -> (r: String)
    ensures
        r@ == image_path(front, i as nat),
{
    let mut path = front.to_owned();
    append_decimal(&mut path, i as u64);
    path.append(".png");
    path
}

/// Appends the block of a highlight.
fn append_quote(to: &mut String, page: usize, text: &str, color: (u8, u8, u8))
    requires
        page < usize::MAX,
    ensures
        final(to)@ == old(to)@ + quote_block(page as nat, text@, color),
{
    let ghost before = to@;
    let number = (page + 1) as u64;
    to.append("// Highlight — page ");
    append_decimal(to, number);
    to.append("\n#heading(level: 2, outlined: true)[#kick(\"page ");
    append_decimal(to, number);
    to.append("\", rgb(");
    append_triple(to, darken_for_text(color));
    to.append(QUOTE_BLOCK);
    append_triple(to, color);
    to.append(QUOTE_TEXT);
    to.append("\u{201C}");
    to.append(esc_markup(text).as_str());
    to.append("\u{201D}");
    to.append(QUOTE_END);
    assert(to@ =~= before + quote_block(page as nat, text@, color));
}

/// Appends the block of a note or an inserted page.
fn append_note(to: &mut String, page: usize, kind: &str, path: &str)
    requires
        page < usize::MAX,
    ensures
        final(to)@ == old(to)@ + note_block(page as nat, kind, path@),
{
    let ghost before = to@;
    let number = (page + 1) as u64;
    let mut label = "page ".to_owned();
    append_decimal(&mut label, number);
    label.append(" · ");
    label.append(kind);
    to.append("// Note — page ");
    append_decimal(to, number);
    to.append("\n#heading(level: 2, outlined: true)[#kick(\"");
    to.append(esc(label.as_str()).as_str());
    to.append(NOTE_IMAGE);
    to.append(path);
    to.append(NOTE_END);
    assert(to@ =~= before + note_block(page as nat, kind, path@));
}

/// Appends the source up to the cover.
fn append_preamble(to: &mut String, meta: &DigestMeta)
    ensures
        final(to)@ == old(to)@ + preamble(meta@),
{
    let ghost before = to@;
    to.append(SOURCE_TITLE);
    to.append(esc(meta.title.as_str()).as_str());
    to.append(SOURCE_AUTHOR);
    to.append(esc(meta.author.as_str()).as_str());
    to.append(SOURCE_STYLE);
    assert(to@ =~= before + preamble(meta@));
}

/// Appends the source of the cover.
fn append_cover(to: &mut String, meta: &DigestMeta)
    ensures
        final(to)@ == old(to)@ + cover(meta@),
{
    let ghost before = to@;
    to.append(COVER_TITLE);
    to.append(esc_markup(meta.title.as_str()).as_str());
    to.append(COVER_AUTHOR);
    to.append(esc_markup(meta.author.as_str()).as_str());
    to.append(COVER_COUNTS);
    append_count(to, meta.n_highlights, "highlight", "highlights");
    to.append(" · ");
    append_count(to, meta.n_notes, "note", "notes");
    to.append(" --- ");
    to.append(esc_markup(meta.date_range.as_str()).as_str());
    to.append(COVER_END);
    assert(to@ =~= before + cover(meta@));
}

/// The page that the mark belongs to has a number.
pub open spec fn numbered(mark: Mark) -> bool {
    match mark {
        Mark::Highlight { page, .. } => page < usize::MAX,
        Mark::Note { page, .. } => page < usize::MAX,
        Mark::InsertedPage { after_page, .. } => after_page < usize::MAX,
    }
}

/// Builds the source of a digest, and its images with the paths under which the
/// source names them.
pub fn build_digest(meta: &DigestMeta, marks: &[Mark]) -> (r: (String, Vec<(String, Vec<u8>)>))
    requires
        forall|i: int| 0 <= i < marks@.len() ==> numbered(#[trigger] marks@[i]),
    ensures
        r.0@ == digest_source(meta@, extract::mark_views(marks@)),
        image_views(r.1@) == images(IMAGE_FRONT, extract::mark_views(marks@)),
{
    let ghost views = extract::mark_views(marks@);
    let mut source = String::new();
    let mut assets: Vec<(String, Vec<u8>)> = Vec::new();
    append_preamble(&mut source, meta);
    append_cover(&mut source, meta);
    let ghost front = source@;
    assert(front =~= preamble(meta@) + cover(meta@));
    assert(views.take(0) =~= Seq::empty());
    assert(source@ =~= front + blocks(views.take(0)));
    assert(image_views(assets@) =~= images(IMAGE_FRONT, views.take(0)));
    let mut i: usize = 0;
    while i < marks.len()
        invariant
            i <= marks@.len(),
            views == extract::mark_views(marks@),
            forall|i: int| 0 <= i < marks@.len() ==> numbered(#[trigger] marks@[i]),
            source@ == front + blocks(views.take(i as int)),
            image_views(assets@) == images(IMAGE_FRONT, views.take(i as int)),
        decreases marks@.len() - i,
    {
        let ghost before = source@;
        let ghost shown = image_views(assets@);
        proof {
            assert(views.take(i + 1).drop_last() =~= views.take(i as int));
            assert(views.take(i + 1).last() == marks@[i as int]@);
            assert(shown.len() == assets@.len());
        }
        match &marks[i] {
            Mark::Highlight { page, text, color } => {
                append_quote(&mut source, *page, text.as_str(), pen_rgb(*color));
            },
            Mark::Note { page, png } => {
                let path = path_of(IMAGE_FRONT, assets.len());
                append_note(&mut source, *page, "note", path.as_str());
                assets.push((path, png.clone()));
                assert(image_views(assets@) =~= images(IMAGE_FRONT, views.take(i + 1)));
            },
            Mark::InsertedPage { after_page, png } => {
                let path = path_of(IMAGE_FRONT, assets.len());
                append_note(&mut source, *after_page, "inserted", path.as_str());
                assets.push((path, png.clone()));
                assert(image_views(assets@) =~= images(IMAGE_FRONT, views.take(i + 1)));
            },
        }
        assert(source@ =~= front + blocks(views.take(i + 1)));
        i = i + 1;
    }
    assert(views.take(views.len() as int) =~= views);
    (source, assets)
}

// ---------------------------------------------------------------------------
// Images
// ---------------------------------------------------------------------------
/// The images are numbered in their order.
pub proof fn images_are_numbered(front: &str, marks: Seq<MarkView>, i: int)
    requires
        0 <= i < images(front, marks).len(),
    ensures
        images(front, marks)[i].0 == image_path(front, i as nat),
    decreases marks.len(),
{
    if i < images(front, marks.drop_last()).len() {
        images_are_numbered(front, marks.drop_last(), i);
    }
}

/// No two images of a digest have the same path.
pub proof fn image_paths_are_distinct(front: &str, marks: Seq<MarkView>, i: int, j: int)
    requires
        0 <= i < j < images(front, marks).len(),
    ensures
        images(front, marks)[i].0 != images(front, marks)[j].0,
{
    images_are_numbered(front, marks, i);
    images_are_numbered(front, marks, j);
    let (a, b) = (text::decimal(i as nat), text::decimal(j as nat));
    let (p, q) = (image_path(front, i as nat), image_path(front, j as nat));
    let n = front@.len() as int;
    if p == q {
        assert(a =~= p.subrange(n, n + a.len()));
        assert(b =~= q.subrange(n, n + b.len()));
        assert(p.len() == n + a.len() + ".png"@.len());
        assert(q.len() == n + b.len() + ".png"@.len());
        text::decimal_is_injective(i as nat, j as nat);
    }
}

/// The block of a mark with an image names the image's path.
proof fn block_names_image(mark: MarkView, n: nat)
    requires
        !(mark is Highlight),
    ensures
        exists|k: int| text::occurs_at(block(mark, n), image_path(IMAGE_FRONT, n), k),
{
    let (page, kind) = match mark {
        MarkView::Note { page, .. } => (page, "note"),
        MarkView::InsertedPage { after_page, .. } => (after_page, "inserted"),
        _ => (0, ""),
    };
    let label = "page "@ + text::decimal(page + 1) + " · "@ + kind@;
    let before = "// Note — page "@ + text::decimal(page + 1)
        + "\n#heading(level: 2, outlined: true)[#kick(\""@ + markup::literal(label) + NOTE_IMAGE@;
    let path = image_path(IMAGE_FRONT, n);
    assert(path.subrange(0, path.len() as int) =~= path);
    text::occurs_within(before, path, NOTE_END@, path, 0);
    assert(block(mark, n) == before + path + NOTE_END@);
}

/// The blocks of the marks name the path of every image.
proof fn blocks_name_images(marks: Seq<MarkView>, i: int)
    requires
        0 <= i < images(IMAGE_FRONT, marks).len(),
    ensures
        exists|k: int| text::occurs_at(blocks(marks), images(IMAGE_FRONT, marks)[i].0, k),
    decreases marks.len(),
{
    let before = marks.drop_last();
    let n = images(IMAGE_FRONT, before).len();
    let last = block(marks.last(), n);
    let path = images(IMAGE_FRONT, marks)[i].0;
    if i < n {
        blocks_name_images(before, i);
        let k = choose|k: int| text::occurs_at(blocks(before), path, k);
        text::occurs_within(Seq::empty(), blocks(before), last, path, k);
        assert(Seq::empty() + blocks(before) + last =~= blocks(marks));
    } else {
        block_names_image(marks.last(), n);
        let k = choose|k: int| text::occurs_at(last, path, k);
        text::occurs_within(blocks(before), last, Seq::empty(), path, k);
        assert(blocks(before) + last + Seq::empty() =~= blocks(marks));
    }
}

/// The source of a digest names the path of every image that comes with it.
pub proof fn images_are_named(meta: MetaView, marks: Seq<MarkView>, i: int)
    requires
        0 <= i < images(IMAGE_FRONT, marks).len(),
    ensures
        exists|k: int| text::occurs_at(digest_source(meta, marks), images(IMAGE_FRONT, marks)[i].0, k),
{
    blocks_name_images(marks, i);
    let path = images(IMAGE_FRONT, marks)[i].0;
    let k = choose|k: int| text::occurs_at(blocks(marks), path, k);
    let front = preamble(meta) + cover(meta);
    text::occurs_within(front, blocks(marks), Seq::empty(), path, k);
    assert(front + blocks(marks) + Seq::empty() =~= digest_source(meta, marks));
}

} // verus!

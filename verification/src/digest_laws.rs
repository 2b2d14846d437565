//! What a digest says: the title and the counts on its cover, and for each mark, in their
//! order, its page, its text or image, and its colour.

use crate::digest_doc;
use crate::digest_doc::DigestMeta;
use crate::extract;
use crate::extract::{Mark, MarkView};
use crate::linked_doc;
use crate::linked_doc::{Found, FoundView};
use crate::markup;
use crate::text;
use crate::theme;
use vstd::prelude::*;

verus! {

// ---------------------------------------------------------------------------
// Reading a source
// ---------------------------------------------------------------------------
/// The pieces stand in the text one behind the other.
#[verifier::opaque]
pub open spec fn says(s: Seq<char>, pieces: Seq<Seq<char>>) -> bool
    decreases pieces.len(),
{
    pieces.len() == 0 || exists|before: Seq<char>, rest: Seq<char>|
        s == #[trigger] (before + pieces.last() + rest) && says(before, pieces.drop_last())
}

/// Nothing is said by any text.
proof fn says_nothing(s: Seq<char>)
    ensures
        says(s, Seq::empty()),
{
    reveal(says);
}

/// What a text says it says with more behind it.
proof fn says_on(s: Seq<char>, pieces: Seq<Seq<char>>, more: Seq<char>)
    requires
        says(s, pieces),
    ensures
        says(s + more, pieces),
{
    reveal(says);
    if pieces.len() > 0 {
        let (before, rest) = choose|before: Seq<char>, rest: Seq<char>|
            s == #[trigger] (before + pieces.last() + rest) && says(before, pieces.drop_last());
        assert(s + more =~= before + pieces.last() + (rest + more));
    }
}

/// A piece behind a text is said behind what the text says.
proof fn says_more(s: Seq<char>, pieces: Seq<Seq<char>>, piece: Seq<char>)
    requires
        says(s, pieces),
    ensures
        says(s + piece, pieces.push(piece)),
{
    reveal(says);
    let all = pieces.push(piece);
    assert(all.drop_last() =~= pieces);
    assert(s + piece =~= s + all.last() + Seq::<char>::empty());
}

/// Two texts say one behind the other what each says.
proof fn says_both(s: Seq<char>, pieces: Seq<Seq<char>>, t: Seq<char>, others: Seq<Seq<char>>)
    requires
        says(s, pieces),
        says(t, others),
    ensures
        says(s + t, pieces + others),
    decreases others.len(),
{
    reveal(says);
    if others.len() == 0 {
        assert(pieces + others =~= pieces);
        says_on(s, pieces, t);
    } else {
        let (before, rest) = choose|before: Seq<char>, rest: Seq<char>|
            t == #[trigger] (before + others.last() + rest) && says(before, others.drop_last());
        says_both(s, pieces, before, others.drop_last());
        let all = pieces + others;
        assert(all.drop_last() =~= pieces + others.drop_last());
        assert(s + t =~= (s + before) + all.last() + rest);
    }
}

/// A piece of three parts is said where they stand behind a text.
proof fn says_three(
    s: Seq<char>,
    pieces: Seq<Seq<char>>,
    a: Seq<char>,
    b: Seq<char>,
    c: Seq<char>,
)
    requires
        says(s, pieces),
    ensures
        says(s + a + b + c, pieces.push(a + b + c)),
{
    says_more(s, pieces, a + b + c);
    assert(s + (a + b + c) =~= s + a + b + c);
}

/// The number of a page is said between texts that end and start as its label does.
proof fn says_page(
    s: Seq<char>,
    pieces: Seq<Seq<char>>,
    a: Seq<char>,
    x: Seq<char>,
    d: Seq<char>,
    b: Seq<char>,
    y: Seq<char>,
)
    requires
        says(s, pieces),
        a == x + "page "@,
        b == "\""@ + y,
    ensures
        says(s + a + d + b, pieces.push("page "@ + d + "\""@)),
{
    says_on(s, pieces, x);
    says_more(s + x, pieces, "page "@ + d + "\""@);
    says_on(s + x + ("page "@ + d + "\""@), pieces.push("page "@ + d + "\""@), y);
    assert(s + a + d + b =~= s + x + ("page "@ + d + "\""@) + y);
}

/// How many characters the pieces have together.
pub open spec fn measured(pieces: Seq<Seq<char>>) -> nat
    decreases pieces.len(),
{
    if pieces.len() == 0 {
        0
    } else {
        measured(pieces.drop_last()) + pieces.last().len()
    }
}

/// The text says the pieces, and beside them no more than `fixed` characters.
pub open spec fn says_only(s: Seq<char>, pieces: Seq<Seq<char>>, fixed: nat) -> bool {
    says(s, pieces) && s.len() == measured(pieces) + fixed
}

/// The parts of a colour as a source has them.
pub open spec fn parts_of(c: (u8, u8, u8)) -> Seq<char> {
    text::decimal(c.0 as nat) + ","@ + text::decimal(c.1 as nat) + ","@ + text::decimal(c.2 as nat)
}

/// The colour for text on paper: two fifths of a bright one, three quarters of one of
/// medium brightness, and a dark one as it is.
pub open spec fn for_text(c: (u8, u8, u8)) -> (u8, u8, u8) {
    let sum = c.0 + c.1 + c.2;
    if sum >= 543 {
        ((c.0 * 2 / 5) as u8, (c.1 * 2 / 5) as u8, (c.2 * 2 / 5) as u8)
    } else if sum >= 363 {
        ((c.0 * 3 / 4) as u8, (c.1 * 3 / 4) as u8, (c.2 * 3 / 4) as u8)
    } else {
        c
    }
}

/// The number with the word for what it counts.
pub open spec fn count_text(n: nat, word: &str) -> Seq<char> {
    text::decimal(n) + " "@ + word@ + if n == 1 {
        Seq::empty()
    } else {
        "s"@
    }
}

/// The marks that are images.
pub open spec fn pictured(marks: Seq<MarkView>) -> Seq<MarkView> {
    marks.filter(|m: MarkView| !(m is Highlight))
}

/// The image of a mark that has one.
pub open spec fn image_of(mark: MarkView) -> Seq<u8> {
    match mark {
        MarkView::Note { png, .. } => png,
        MarkView::InsertedPage { png, .. } => png,
        _ => Seq::empty(),
    }
}

/// Every note and every inserted page has its image beside the source, in the order of the
/// marks and under a number of its own; there are no others.
pub proof fn images_are_those_of_the_marks(front: &str, marks: Seq<MarkView>)
    ensures
        digest_doc::images(front, marks).len() == pictured(marks).len(),
        forall|i: int|
            0 <= i < pictured(marks).len() ==> #[trigger] digest_doc::images(front, marks)[i] == (
                front@ + text::decimal(i as nat) + ".png"@,
                image_of(pictured(marks)[i]),
            ),
    decreases marks.len(),
{
    reveal(Seq::filter);
    if marks.len() > 0 {
        images_are_those_of_the_marks(front, marks.drop_last());
    }
}

/// The text from `cuts[i]` to `cuts[i + 1]`.
pub open spec fn section(s: Seq<char>, cuts: Seq<int>, i: int) -> Seq<char> {
    s.subrange(cuts[i], cuts[i + 1])
}

/// The cuts part the text, up to its end, into one section for each of `n` marks.
pub open spec fn parted(s: Seq<char>, cuts: Seq<int>, n: nat) -> bool {
    &&& cuts.len() == n + 1
    &&& cuts[n as int] == s.len()
    &&& 0 <= cuts[0]
    &&& forall|i: int, j: int| 0 <= i <= j < cuts.len() ==> cuts[i] <= cuts[j]
}

// ---------------------------------------------------------------------------
// The standalone digest
// ---------------------------------------------------------------------------
/// What a section says of a mark that has `n` images before it: of a highlight its page,
/// its colour, and its own text in quotes; of a note or an inserted page its page, and the
/// path of its image.
pub open spec fn digest_words(mark: Mark, n: nat) -> Seq<Seq<char>> {
    match mark {
        Mark::Highlight { page, text, color } => seq![
            text::decimal(page as nat + 1),
            "page "@ + text::decimal(page as nat + 1) + "\""@,
            parts_of(for_text(theme::rgb_of(color))),
            parts_of(theme::rgb_of(color)),
            "\u{201C}"@ + markup::content(text@) + "\u{201D}"@,
        ],
        Mark::Note { page, .. } => seq![
            text::decimal(page as nat + 1),
            markup::literal("page "@ + text::decimal(page as nat + 1) + " · "@ + "note"@),
            "/assets/img-"@ + text::decimal(n) + ".png"@,
        ],
        Mark::InsertedPage { after_page, .. } => seq![
            text::decimal(after_page as nat + 1),
            markup::literal("page "@ + text::decimal(after_page as nat + 1) + " · "@ + "inserted"@),
            "/assets/img-"@ + text::decimal(n) + ".png"@,
        ],
    }
}

/// How many characters of a section are the same for every mark of its kind.
pub closed spec fn digest_frame(highlight: bool) -> nat {
    if highlight {
        (("// Highlight — page "@ + "\n#heading(level: 2, outlined: true)[#kick(\"page "@ + "\", rgb("@
            + digest_doc::QUOTE_BLOCK@ + digest_doc::QUOTE_TEXT@ + digest_doc::QUOTE_END@).len()
            - "page \""@.len()) as nat
    } else {
        ("// Note — page "@ + "\n#heading(level: 2, outlined: true)[#kick(\""@
            + digest_doc::NOTE_IMAGE@ + digest_doc::NOTE_END@).len()
    }
}

/// The block of a highlight says its page, its colour and its text.
#[verifier::spinoff_prover]
proof fn quote_says(page: nat, text: Seq<char>, rgb: (u8, u8, u8))
    ensures
        says_only(
            digest_doc::quote_block(page, text, rgb),
            seq![
                text::decimal(page + 1),
                "page "@ + text::decimal(page + 1) + "\""@,
                parts_of(for_text(rgb)),
                parts_of(rgb),
                "\u{201C}"@ + markup::content(text) + "\u{201D}"@,
            ],
            digest_frame(true),
        ),
{
    let d = text::decimal(page + 1);
    let a = "\n#heading(level: 2, outlined: true)[#kick(\"page "@;
    let b = "\", rgb("@;
    let x = a.subrange(0, a.len() - 5);
    let y = b.subrange(1, b.len() as int);
    assert(a =~= x + "page "@) by {
        reveal_strlit("\n#heading(level: 2, outlined: true)[#kick(\"page ");
        reveal_strlit("page ");
    }
    assert(b =~= "\""@ + y) by {
        reveal_strlit("\", rgb(");
        reveal_strlit("\"");
    }
    assert(digest_doc::darkened(rgb) == for_text(rgb));
    let none = Seq::<Seq<char>>::empty();
    let p0 = none.push(d);
    says_nothing("// Highlight — page "@);
    says_more("// Highlight — page "@, none, d);
    let s0 = "// Highlight — page "@ + d;
    says_page(s0, p0, a, x, d, b, y);
    let p1 = p0.push("page "@ + d + "\""@);
    let s1 = s0 + a + d + b;
    says_more(s1, p1, parts_of(for_text(rgb)));
    let p2 = p1.push(parts_of(for_text(rgb)));
    let s2 = s1 + parts_of(for_text(rgb));
    says_on(s2, p2, digest_doc::QUOTE_BLOCK@);
    let s3 = s2 + digest_doc::QUOTE_BLOCK@;
    says_more(s3, p2, parts_of(rgb));
    let p3 = p2.push(parts_of(rgb));
    let s4 = s3 + parts_of(rgb);
    says_on(s4, p3, digest_doc::QUOTE_TEXT@);
    let s5 = s4 + digest_doc::QUOTE_TEXT@;
    says_three(s5, p3, "\u{201C}"@, markup::content(text), "\u{201D}"@);
    let s6 = s5 + "\u{201C}"@ + markup::content(text) + "\u{201D}"@;
    let p4 = p3.push("\u{201C}"@ + markup::content(text) + "\u{201D}"@);
    says_on(s6, p4, digest_doc::QUOTE_END@);
    assert(p4 =~= seq![p4[0], p4[1], p4[2], p4[3], p4[4]]);
    assert("page \""@.len() == "page "@.len() + "\""@.len()) by {
        reveal_strlit("page \"");
        reveal_strlit("page ");
        reveal_strlit("\"");
    }
    measured_more(none, d);
    measured_more(p0, "page "@ + d + "\""@);
    measured_more(p1, parts_of(for_text(rgb)));
    measured_more(p2, parts_of(rgb));
    measured_more(p3, "\u{201C}"@ + markup::content(text) + "\u{201D}"@);
}

/// One piece more has its characters more.
proof fn measured_more(pieces: Seq<Seq<char>>, piece: Seq<char>)
    ensures
        measured(pieces.push(piece)) == measured(pieces) + piece.len(),
{
    assert(pieces.push(piece).drop_last() =~= pieces);
}

/// The block of a note says its label and the path of its image.
proof fn note_says(page: nat, kind: &str, path: Seq<char>)
    ensures
        says_only(
            digest_doc::note_block(page, kind, path),
            seq![
                text::decimal(page + 1),
                markup::literal("page "@ + text::decimal(page + 1) + " · "@ + kind@),
                path,
            ],
            digest_frame(false),
        ),
{
    let label = markup::literal("page "@ + text::decimal(page + 1) + " · "@ + kind@);
    let d = text::decimal(page + 1);
    let none = Seq::<Seq<char>>::empty();
    let p0 = none.push(d);
    says_nothing("// Note — page "@);
    says_more("// Note — page "@, none, d);
    says_on("// Note — page "@ + d, p0, "\n#heading(level: 2, outlined: true)[#kick(\""@);
    let s0 = "// Note — page "@ + d + "\n#heading(level: 2, outlined: true)[#kick(\""@;
    says_more(s0, p0, label);
    says_on(s0 + label, p0.push(label), digest_doc::NOTE_IMAGE@);
    says_more(s0 + label + digest_doc::NOTE_IMAGE@, p0.push(label), path);
    says_on(
        s0 + label + digest_doc::NOTE_IMAGE@ + path,
        p0.push(label).push(path),
        digest_doc::NOTE_END@,
    );
    assert(p0.push(label).push(path) =~= seq![d, label, path]);
    measured_more(none, d);
    measured_more(p0, label);
    measured_more(p0.push(label), path);
}

/// The block of a mark says what it is to say.
proof fn block_says(mark: Mark, n: nat)
    ensures
        says_only(digest_doc::block(mark@, n), digest_words(mark, n), digest_frame(mark is Highlight)),
{
    match mark {
        Mark::Highlight { page, text, color } => {
            quote_says(page as nat, text@, theme::rgb_of(color));
        },
        Mark::Note { page, .. } => {
            note_says(page as nat, "note", "/assets/img-"@ + text::decimal(n) + ".png"@);
        },
        Mark::InsertedPage { after_page, .. } => {
            note_says(after_page as nat, "inserted", "/assets/img-"@ + text::decimal(n) + ".png"@);
        },
    }
}

/// The cuts of the blocks behind what stands before them.
#[verifier::spinoff_prover]
proof fn blocks_are_parted(head: Seq<char>, marks: Seq<Mark>) -> (cuts: Seq<int>)
    ensures
        ({
            let views = extract::mark_views(marks);
            let s = head + digest_doc::blocks(views);
            &&& parted(s, cuts, marks.len())
            &&& cuts[0] == head.len()
            &&& forall|i: int|
                0 <= i < marks.len() ==> says_only(
                    #[trigger] section(s, cuts, i),
                    digest_words(marks[i], pictured(views.take(i)).len()),
                    digest_frame(marks[i] is Highlight),
                )
        }),
    decreases marks.len(),
{
    let views = extract::mark_views(marks);
    let s = head + digest_doc::blocks(views);
    if marks.len() == 0 {
        let cuts = seq![head.len() as int];
        assert(s =~= head);
        cuts
    } else {
        let rest = marks.drop_last();
        let last = marks.len() - 1;
        let had = blocks_are_parted(head, rest);
        assert(extract::mark_views(rest) =~= views.drop_last());
        let before = head + digest_doc::blocks(views.drop_last());
        images_are_those_of_the_marks(digest_doc::IMAGE_FRONT, views.drop_last());
        let n = pictured(views.drop_last()).len();
        block_says(marks.last(), n);
        let block = digest_doc::block(views.last(), n);
        assert(views.last() == marks.last()@);
        assert(s =~= before + block);
        let cuts = had.push(s.len() as int);
        assert forall|i: int| 0 <= i < marks.len() implies says_only(
            #[trigger] section(s, cuts, i),
            digest_words(marks[i], pictured(views.take(i)).len()),
            digest_frame(marks[i] is Highlight),
        ) by {
            if i < last {
                assert(section(s, cuts, i) =~= section(before, had, i));
                assert(extract::mark_views(rest).take(i) =~= views.take(i));
                assert(rest[i] == marks[i]);
            } else {
                assert(section(s, cuts, i) =~= block);
                assert(views.take(i) =~= views.drop_last());
            }
        }
        assert forall|i: int, j: int| 0 <= i <= j < cuts.len() implies cuts[i] <= cuts[j] by {
            if j == cuts.len() - 1 && i < j {
                assert(had[i] <= had[last]);
            }
        }
        cuts
    }
}

/// How many characters of the cover are the same in every digest.
pub closed spec fn digest_cover_frame() -> nat {
    (digest_doc::SOURCE_TITLE@ + digest_doc::SOURCE_AUTHOR@ + digest_doc::SOURCE_STYLE@
        + digest_doc::COVER_TITLE@ + digest_doc::COVER_AUTHOR@ + digest_doc::COVER_COUNTS@ + " · "@
        + " --- "@ + digest_doc::COVER_END@).len()
}

/// A digest says of every mark, in the order of the marks, what there is to say of it: in
/// the section of the i-th mark stand the page, the colour and the text of that mark, or
/// the path of its image. Before them, on the cover, stand the title, the author, how many
/// highlights and notes there are, and the dates.
pub proof fn a_digest_says_its_marks(meta: DigestMeta, marks: Seq<Mark>) -> (cuts: Seq<int>)
    ensures
        ({
            let views = extract::mark_views(marks);
            let s = digest_doc::digest_source(meta@, views);
            &&& parted(s, cuts, marks.len())
            &&& says_only(
                s.take(cuts[0]),
                seq![
                    markup::literal(meta.title@),
                    markup::literal(meta.author@),
                    markup::content(meta.title@),
                    markup::content(meta.author@),
                    count_text(meta.n_highlights as nat, "highlight"),
                    count_text(meta.n_notes as nat, "note"),
                    markup::content(meta.date_range@),
                ],
                digest_cover_frame(),
            )
            &&& forall|i: int|
                0 <= i < marks.len() ==> says_only(
                    #[trigger] section(s, cuts, i),
                    digest_words(marks[i], pictured(views.take(i)).len()),
                    digest_frame(marks[i] is Highlight),
                )
        }),
{
    let views = extract::mark_views(marks);
    let s = digest_doc::digest_source(meta@, views);
    let head = digest_doc::preamble(meta@) + digest_doc::cover(meta@);
    let cuts = blocks_are_parted(head, marks);
    assert(s.take(cuts[0]) =~= head);
    preamble_says(meta);
    cover_says(meta);
    says_both(
        digest_doc::preamble(meta@),
        seq![markup::literal(meta.title@), markup::literal(meta.author@)],
        digest_doc::cover(meta@),
        seq![
            markup::content(meta.title@),
            markup::content(meta.author@),
            count_text(meta.n_highlights as nat, "highlight"),
            count_text(meta.n_notes as nat, "note"),
            markup::content(meta.date_range@),
        ],
    );
    assert(seq![markup::literal(meta.title@), markup::literal(meta.author@)] + seq![
        markup::content(meta.title@),
        markup::content(meta.author@),
        count_text(meta.n_highlights as nat, "highlight"),
        count_text(meta.n_notes as nat, "note"),
        markup::content(meta.date_range@),
    ] =~= seq![
        markup::literal(meta.title@),
        markup::literal(meta.author@),
        markup::content(meta.title@),
        markup::content(meta.author@),
        count_text(meta.n_highlights as nat, "highlight"),
        count_text(meta.n_notes as nat, "note"),
        markup::content(meta.date_range@),
    ]);
    cover_is_measured(meta);
    cuts
}

/// The cover has the characters of what it says, and those that every cover has.
proof fn cover_is_measured(meta: DigestMeta)
    ensures
        (digest_doc::preamble(meta@) + digest_doc::cover(meta@)).len() == measured(
            seq![
                markup::literal(meta.title@),
                markup::literal(meta.author@),
                markup::content(meta.title@),
                markup::content(meta.author@),
                count_text(meta.n_highlights as nat, "highlight"),
                count_text(meta.n_notes as nat, "note"),
                markup::content(meta.date_range@),
            ],
        ) + digest_cover_frame(),
{
    count_is_said(meta.n_highlights as nat, "highlight", "highlights");
    count_is_said(meta.n_notes as nat, "note", "notes");
    reveal_with_fuel(measured, 8);
}

/// The preamble says the title and the author.
proof fn preamble_says(meta: DigestMeta)
    ensures
        says(
            digest_doc::preamble(meta@),
            seq![markup::literal(meta.title@), markup::literal(meta.author@)],
        ),
{
    let title = markup::literal(meta.title@);
    let author = markup::literal(meta.author@);
    let p0 = Seq::<Seq<char>>::empty();
    let s0 = digest_doc::SOURCE_TITLE@;
    says_nothing(s0);
    says_more(s0, p0, title);
    says_on(s0 + title, p0.push(title), digest_doc::SOURCE_AUTHOR@);
    says_more(s0 + title + digest_doc::SOURCE_AUTHOR@, p0.push(title), author);
    says_on(
        s0 + title + digest_doc::SOURCE_AUTHOR@ + author,
        p0.push(title).push(author),
        digest_doc::SOURCE_STYLE@,
    );
    assert(p0.push(title).push(author) =~= seq![title, author]);
}

/// The cover says the title, the author, the counts and the dates.
#[verifier::spinoff_prover]
proof fn cover_says(meta: DigestMeta)
    ensures
        says(
            digest_doc::cover(meta@),
            seq![
                markup::content(meta.title@),
                markup::content(meta.author@),
                count_text(meta.n_highlights as nat, "highlight"),
                count_text(meta.n_notes as nat, "note"),
                markup::content(meta.date_range@),
            ],
        ),
{
    let title = markup::content(meta.title@);
    let author = markup::content(meta.author@);
    let p0 = Seq::<Seq<char>>::empty();
    let s0 = digest_doc::COVER_TITLE@;
    says_nothing(s0);
    says_more(s0, p0, title);
    let p1 = p0.push(title);
    says_on(s0 + title, p1, digest_doc::COVER_AUTHOR@);
    let s1 = s0 + title + digest_doc::COVER_AUTHOR@;
    says_more(s1, p1, author);
    let p2 = p1.push(author);
    says_on(s1 + author, p2, digest_doc::COVER_COUNTS@);
    let s2 = s1 + author + digest_doc::COVER_COUNTS@;
    let h = text::decimal(meta.n_highlights as nat);
    let hs = digest_doc::counted_word(meta.n_highlights as nat, "highlight", "highlights");
    says_three(s2, p2, h, " "@, hs);
    count_is_said(meta.n_highlights as nat, "highlight", "highlights");
    let p3 = p2.push(h + " "@ + hs);
    says_on(s2 + h + " "@ + hs, p3, " · "@);
    let s3 = s2 + h + " "@ + hs + " · "@;
    let n = text::decimal(meta.n_notes as nat);
    let ns = digest_doc::counted_word(meta.n_notes as nat, "note", "notes");
    says_three(s3, p3, n, " "@, ns);
    count_is_said(meta.n_notes as nat, "note", "notes");
    let p4 = p3.push(n + " "@ + ns);
    says_on(s3 + n + " "@ + ns, p4, " --- "@);
    let s4 = s3 + n + " "@ + ns + " --- "@;
    let date = markup::content(meta.date_range@);
    says_more(s4, p4, date);
    let p5 = p4.push(date);
    says_on(s4 + date, p5, digest_doc::COVER_END@);
    assert(p5 =~= seq![p5[0], p5[1], p5[2], p5[3], p5[4]]);
}

/// A count has one word for one, and another for every other number.
proof fn count_is_said(n: nat, one: &str, many: &str)
    requires
        one == "highlight" && many == "highlights" || one == "note" && many == "notes",
    ensures
        text::decimal(n) + " "@ + digest_doc::counted_word(n, one, many) == count_text(n, one),
{
    reveal_strlit("highlight");
    reveal_strlit("highlights");
    reveal_strlit("note");
    reveal_strlit("notes");
    reveal_strlit("s");
    assert("highlights"@ =~= "highlight"@ + "s"@);
    assert("notes"@ =~= "note"@ + "s"@);
    assert(text::decimal(n) + " "@ + digest_doc::counted_word(n, one, many) =~= count_text(n, one));
}

// ---------------------------------------------------------------------------
// The digest of a document
// ---------------------------------------------------------------------------
/// The page that was found.
pub open spec fn page_found(found: Option<Found>) -> Option<nat> {
    match found {
        Some(f) => Some(f.page as nat),
        None => None,
    }
}

/// The texts before, in and behind what was found.
pub open spec fn texts_found(found: Option<Found>) -> Option<(Seq<char>, Seq<char>, Seq<char>)> {
    match found {
        Some(f) => match f.context {
            Some((before, middle, after)) => Some((before@, middle@, after@)),
            None => None,
        },
        None => None,
    }
}

/// What a section says of a mark that has `n` images before it. A highlight stands under
/// the page that it was found on, or under its own; in the texts around it, or alone in
/// quotes; and in its colour. A note or an inserted page stands under its page, with the
/// path of its image.
pub open spec fn linked_words(
    mark: Mark,
    at: Option<nat>,
    texts: Option<(Seq<char>, Seq<char>, Seq<char>)>,
    n: nat,
) -> Seq<Seq<char>> {
    match mark {
        Mark::Highlight { page, text, color } => {
            let shown = match at {
                Some(p) => p,
                None => page as nat,
            };
            let number = "page "@ + text::decimal(shown + 1) + "\""@;
            match texts {
                Some((before, middle, after)) => seq![
                    number,
                    markup::content(before),
                    parts_of(theme::rgb_of(color)),
                    markup::content(middle),
                    markup::content(after),
                ],
                None => seq![
                    number,
                    parts_of(theme::rgb_of(color)),
                    "\u{201C}"@ + markup::content(text@) + "\u{201D}"@,
                ],
            }
        },
        Mark::Note { page, .. } => seq![
            text::decimal(page as nat + 1),
            "/assets/note-"@ + text::decimal(n) + ".png"@,
        ],
        Mark::InsertedPage { after_page, .. } => seq![
            text::decimal(after_page as nat + 1),
            "/assets/note-"@ + text::decimal(n) + ".png"@,
        ],
    }
}

/// How many characters of a section are the same for every mark that is shown like this:
/// a highlight in the texts around it or alone, or an image.
pub closed spec fn linked_frame(highlight: bool, alone: bool) -> nat {
    if !highlight {
        (linked_doc::SKETCH_PAGE@ + linked_doc::SKETCH_IMAGE@ + linked_doc::SKETCH_END@).len()
    } else {
        let head = (linked_doc::PASSAGE_PAGE@ + linked_doc::PASSAGE_KICKER@ + linked_doc::BLUE@
            + linked_doc::PASSAGE_HEAD_END@).len() - "page \""@.len();
        let body = if alone {
            (linked_doc::PASSAGE_BAR@ + linked_doc::BLUE@ + linked_doc::BARE_WASH@
                + linked_doc::BARE_TEXT@ + linked_doc::BARE_END@).len()
        } else {
            (linked_doc::PASSAGE_BAR@ + linked_doc::BLUE@ + linked_doc::PASSAGE_BEFORE@
                + linked_doc::PASSAGE_WASH@ + linked_doc::PASSAGE_TEXT@ + linked_doc::PASSAGE_AFTER@
                + linked_doc::PASSAGE_END@).len()
        };
        (head + body + linked_doc::PASSAGE_RULE@.len()) as nat
    }
}

/// The head of a highlight says its page.
proof fn head_says(page: nat)
    ensures
        says(
            linked_doc::PASSAGE_PAGE@ + text::decimal(page + 1) + linked_doc::PASSAGE_KICKER@
                + linked_doc::BLUE@ + linked_doc::PASSAGE_HEAD_END@,
            seq!["page "@ + text::decimal(page + 1) + "\""@],
        ),
        linked_doc::PASSAGE_PAGE@.len() >= "page "@.len(),
        linked_doc::PASSAGE_KICKER@.len() >= "\""@.len(),
{
    let d = text::decimal(page + 1);
    let a = linked_doc::PASSAGE_PAGE@;
    let b = linked_doc::PASSAGE_KICKER@;
    let x = a.subrange(0, a.len() - 5);
    let y = b.subrange(1, b.len() as int);
    assert(a =~= x + "page "@) by {
        reveal_strlit("#heading(level: 2, outlined: true)[#kick(\"page ");
        reveal_strlit("page ");
    }
    assert(b =~= "\""@ + y) by {
        reveal_strlit("\", ");
        reveal_strlit("\"");
    }
    let none = Seq::<char>::empty();
    let p0 = Seq::<Seq<char>>::empty();
    says_nothing(none);
    says_page(none, p0, a, x, d, b, y);
    let p1 = p0.push("page "@ + d + "\""@);
    assert(none + a =~= a);
    says_on(a + d + b, p1, linked_doc::BLUE@);
    says_on(a + d + b + linked_doc::BLUE@, p1, linked_doc::PASSAGE_HEAD_END@);
}

/// A passage says what stands before, in and behind it, and its colour.
proof fn passage_says(texts: (Seq<char>, Seq<char>, Seq<char>), rgb: (u8, u8, u8))
    ensures
        says(
            linked_doc::passage(texts, rgb),
            seq![
                markup::content(texts.0),
                parts_of(rgb),
                markup::content(texts.1),
                markup::content(texts.2),
            ],
        ),
{
    let p0 = Seq::<Seq<char>>::empty();
    let s0 = linked_doc::PASSAGE_BAR@ + linked_doc::BLUE@ + linked_doc::PASSAGE_BEFORE@;
    says_nothing(s0);
    says_more(s0, p0, markup::content(texts.0));
    let p1 = p0.push(markup::content(texts.0));
    let s1 = s0 + markup::content(texts.0);
    says_on(s1, p1, linked_doc::PASSAGE_WASH@);
    says_more(s1 + linked_doc::PASSAGE_WASH@, p1, parts_of(rgb));
    let p2 = p1.push(parts_of(rgb));
    let s2 = s1 + linked_doc::PASSAGE_WASH@ + parts_of(rgb);
    says_on(s2, p2, linked_doc::PASSAGE_TEXT@);
    says_more(s2 + linked_doc::PASSAGE_TEXT@, p2, markup::content(texts.1));
    let p3 = p2.push(markup::content(texts.1));
    let s3 = s2 + linked_doc::PASSAGE_TEXT@ + markup::content(texts.1);
    says_on(s3, p3, linked_doc::PASSAGE_AFTER@);
    says_more(s3 + linked_doc::PASSAGE_AFTER@, p3, markup::content(texts.2));
    let p4 = p3.push(markup::content(texts.2));
    says_on(
        s3 + linked_doc::PASSAGE_AFTER@ + markup::content(texts.2),
        p4,
        linked_doc::PASSAGE_END@,
    );
    assert(p4 =~= seq![p4[0], p4[1], p4[2], p4[3]]);
}

/// A highlight alone says its colour and its text.
proof fn bare_says(text: Seq<char>, rgb: (u8, u8, u8))
    ensures
        says(
            linked_doc::bare(text, rgb),
            seq![parts_of(rgb), "\u{201C}"@ + markup::content(text) + "\u{201D}"@],
        ),
{
    let p0 = Seq::<Seq<char>>::empty();
    let s0 = linked_doc::PASSAGE_BAR@ + linked_doc::BLUE@ + linked_doc::BARE_WASH@;
    says_nothing(s0);
    says_more(s0, p0, parts_of(rgb));
    let p1 = p0.push(parts_of(rgb));
    says_on(s0 + parts_of(rgb), p1, linked_doc::BARE_TEXT@);
    let s1 = s0 + parts_of(rgb) + linked_doc::BARE_TEXT@;
    says_three(s1, p1, "\u{201C}"@, markup::content(text), "\u{201D}"@);
    let p2 = p1.push("\u{201C}"@ + markup::content(text) + "\u{201D}"@);
    says_on(
        s1 + "\u{201C}"@ + markup::content(text) + "\u{201D}"@,
        p2,
        linked_doc::BARE_END@,
    );
    assert(p2 =~= seq![p2[0], p2[1]]);
}

/// The block of a note says its page and the path of its image.
proof fn sketch_says(page: nat, path: Seq<char>)
    ensures
        says_only(
            linked_doc::sketch_block(page, path),
            seq![text::decimal(page + 1), path],
            linked_frame(false, false),
        ),
{
    let d = text::decimal(page + 1);
    let p0 = Seq::<Seq<char>>::empty();
    let s0 = linked_doc::SKETCH_PAGE@;
    says_nothing(s0);
    says_more(s0, p0, d);
    says_on(s0 + d, p0.push(d), linked_doc::SKETCH_IMAGE@);
    says_more(s0 + d + linked_doc::SKETCH_IMAGE@, p0.push(d), path);
    says_on(
        s0 + d + linked_doc::SKETCH_IMAGE@ + path,
        p0.push(d).push(path),
        linked_doc::SKETCH_END@,
    );
    assert(p0.push(d).push(path) =~= seq![d, path]);
    measured_more(p0, d);
    measured_more(p0.push(d), path);
}

/// The block of a mark says what it is to say.
#[verifier::spinoff_prover]
proof fn mark_block_says(mark: Mark, found: Option<FoundView>, n: nat)
    ensures
        says_only(
            linked_doc::mark_block(mark@, found, n),
            linked_words(
                mark,
                match found {
                    Some(f) => Some(f.page),
                    None => None,
                },
                match found {
                    Some(f) => f.context,
                    None => None,
                },
                n,
            ),
            linked_frame(
                mark is Highlight,
                match found {
                    Some(f) => f.context is None,
                    None => mark is Highlight,
                },
            ),
        ),
{
    match mark {
        Mark::Highlight { page, text, color } => {
            let rgb = theme::rgb_of(color);
            let shown = match found {
                Some(f) => f.page,
                None => page as nat,
            };
            let head = linked_doc::PASSAGE_PAGE@ + text::decimal(shown + 1)
                + linked_doc::PASSAGE_KICKER@ + linked_doc::BLUE@ + linked_doc::PASSAGE_HEAD_END@;
            let number = seq!["page "@ + text::decimal(shown + 1) + "\""@];
            head_says(shown);
            assert("page \""@.len() == "page "@.len() + "\""@.len()) by {
                reveal_strlit("page \"");
                reveal_strlit("page ");
                reveal_strlit("\"");
            }
            match found {
                Some(FoundView { context: Some(texts), .. }) => {
                    passage_says(texts, rgb);
                    let words = seq![
                        markup::content(texts.0),
                        parts_of(rgb),
                        markup::content(texts.1),
                        markup::content(texts.2),
                    ];
                    says_both(head, number, linked_doc::passage(texts, rgb), words);
                    says_on(
                        head + linked_doc::passage(texts, rgb),
                        number + words,
                        linked_doc::PASSAGE_RULE@,
                    );
                    assert(number + words =~= linked_words(mark, Some(shown), Some(texts), n));
                    measured_five(number + words);
                },
                _ => {
                    bare_says(text@, rgb);
                    let words = seq![
                        parts_of(rgb),
                        "\u{201C}"@ + markup::content(text@) + "\u{201D}"@,
                    ];
                    says_both(head, number, linked_doc::bare(text@, rgb), words);
                    says_on(
                        head + linked_doc::bare(text@, rgb),
                        number + words,
                        linked_doc::PASSAGE_RULE@,
                    );
                    assert(number + words =~= linked_words(mark, Some(shown), None, n));
                    measured_three(number + words);
                },
            }
        },
        Mark::Note { page, .. } => {
            sketch_says(page as nat, "/assets/note-"@ + text::decimal(n) + ".png"@);
        },
        Mark::InsertedPage { after_page, .. } => {
            sketch_says(after_page as nat, "/assets/note-"@ + text::decimal(n) + ".png"@);
        },
    }
}

/// The characters of three pieces.
proof fn measured_three(pieces: Seq<Seq<char>>)
    requires
        pieces.len() == 3,
    ensures
        measured(pieces) == pieces[0].len() + pieces[1].len() + pieces[2].len(),
{
    reveal_with_fuel(measured, 4);
}

/// The characters of five pieces.
proof fn measured_five(pieces: Seq<Seq<char>>)
    requires
        pieces.len() == 5,
    ensures
        measured(pieces) == pieces[0].len() + pieces[1].len() + pieces[2].len() + pieces[3].len()
            + pieces[4].len(),
{
    reveal_with_fuel(measured, 6);
}

/// The section of the i-th mark says what there is to say of it, where `found` tells what
/// was found of the marks.
pub open spec fn tells(
    s: Seq<char>,
    cuts: Seq<int>,
    marks: Seq<Mark>,
    found: Seq<Option<FoundView>>,
    i: int,
) -> bool {
    says_only(
        section(s, cuts, i),
        linked_words(
            marks[i],
            match found[i] {
                Some(f) => Some(f.page),
                None => None,
            },
            match found[i] {
                Some(f) => f.context,
                None => None,
            },
            pictured(extract::mark_views(marks).take(i)).len(),
        ),
        linked_frame(
            marks[i] is Highlight,
            match found[i] {
                Some(f) => f.context is None,
                None => marks[i] is Highlight,
            },
        ),
    )
}

/// The cuts of the blocks behind what stands before them.
#[verifier::spinoff_prover]
proof fn mark_blocks_are_parted(
    head: Seq<char>,
    marks: Seq<Mark>,
    found: Seq<Option<FoundView>>,
) -> (cuts: Seq<int>)
    ensures
        ({
            let s = head + linked_doc::mark_blocks(extract::mark_views(marks), found);
            &&& parted(s, cuts, marks.len())
            &&& cuts[0] == head.len()
            &&& forall|i: int| 0 <= i < marks.len() ==> #[trigger] tells(s, cuts, marks, found, i)
        }),
    decreases marks.len(),
{
    let views = extract::mark_views(marks);
    let s = head + linked_doc::mark_blocks(views, found);
    if marks.len() == 0 {
        assert(s =~= head);
        seq![head.len() as int]
    } else {
        let rest = marks.drop_last();
        let last = marks.len() - 1;
        let had = mark_blocks_are_parted(head, rest, found);
        assert(extract::mark_views(rest) =~= views.drop_last());
        let before = head + linked_doc::mark_blocks(views.drop_last(), found);
        images_are_those_of_the_marks(linked_doc::SKETCH_FRONT, views.drop_last());
        let n = pictured(views.drop_last()).len();
        mark_block_says(marks.last(), found[last], n);
        let block = linked_doc::mark_block(views.last(), found[last], n);
        assert(views.last() == marks.last()@);
        assert(s =~= before + block);
        let cuts = had.push(s.len() as int);
        assert forall|i: int| 0 <= i < marks.len() implies #[trigger] tells(
            s,
            cuts,
            marks,
            found,
            i,
        ) by {
            if i < last {
                assert(tells(before, had, rest, found, i));
                assert(section(s, cuts, i) =~= section(before, had, i));
                assert(extract::mark_views(rest).take(i) =~= views.take(i));
                assert(rest[i] == marks[i]);
            } else {
                assert(section(s, cuts, i) =~= block);
                assert(views.take(i) =~= views.drop_last());
            }
        }
        assert forall|i: int, j: int| 0 <= i <= j < cuts.len() implies cuts[i] <= cuts[j] by {
            if j == cuts.len() - 1 && i < j {
                assert(had[i] <= had[last]);
            }
        }
        cuts
    }
}

/// The dates on the cover, where there are any.
pub open spec fn dates_of(range: Seq<char>) -> Seq<Seq<char>> {
    if range.len() == 0 {
        Seq::empty()
    } else {
        seq![" --- "@ + markup::content(range)]
    }
}

/// What the pages before the first mark say.
pub open spec fn linked_cover_words(
    meta: DigestMeta,
    width: Seq<char>,
    height: Seq<char>,
) -> Seq<Seq<char>> {
    seq![
        markup::literal(meta.title@),
        markup::literal(meta.author@),
        width,
        height,
        markup::content(meta.title@),
        markup::content(meta.author@),
        count_text(meta.n_highlights as nat, "highlight"),
        count_text(meta.n_notes as nat, "note"),
    ] + dates_of(meta.date_range@)
}

/// How many characters of the pages before the first mark are the same in every digest.
pub closed spec fn linked_cover_frame() -> nat {
    (linked_doc::LINKED_TITLE@ + linked_doc::LINKED_AUTHOR@ + linked_doc::LINKED_WIDTH@
        + linked_doc::LINKED_HEIGHT@ + linked_doc::LINKED_STYLE@ + linked_doc::LINKED_BY@
        + linked_doc::LINKED_COUNTS@ + " · "@ + linked_doc::LINKED_COVER_END@).len()
}

/// The opening says the title, the author and the sides of the page.
proof fn opening_says(meta: DigestMeta, width: Seq<char>, height: Seq<char>)
    ensures
        says(
            linked_doc::opening(meta@, width, height),
            seq![markup::literal(meta.title@), markup::literal(meta.author@), width, height],
        ),
{
    let title = markup::literal(meta.title@);
    let author = markup::literal(meta.author@);
    let p0 = Seq::<Seq<char>>::empty();
    let s0 = linked_doc::LINKED_TITLE@;
    says_nothing(s0);
    says_more(s0, p0, title);
    let p1 = p0.push(title);
    says_on(s0 + title, p1, linked_doc::LINKED_AUTHOR@);
    let s1 = s0 + title + linked_doc::LINKED_AUTHOR@;
    says_more(s1, p1, author);
    let p2 = p1.push(author);
    says_on(s1 + author, p2, linked_doc::LINKED_WIDTH@);
    let s2 = s1 + author + linked_doc::LINKED_WIDTH@;
    says_more(s2, p2, width);
    let p3 = p2.push(width);
    says_on(s2 + width, p3, linked_doc::LINKED_HEIGHT@);
    let s3 = s2 + width + linked_doc::LINKED_HEIGHT@;
    says_more(s3, p3, height);
    let p4 = p3.push(height);
    says_on(s3 + height, p4, linked_doc::LINKED_STYLE@);
    assert(p4 =~= seq![p4[0], p4[1], p4[2], p4[3]]);
}

/// The cover says the title, the author, the counts and the dates.
#[verifier::spinoff_prover]
proof fn cover_shown_says(meta: DigestMeta)
    ensures
        says(
            linked_doc::cover_shown(meta@),
            seq![
                markup::content(meta.title@),
                markup::content(meta.author@),
                count_text(meta.n_highlights as nat, "highlight"),
                count_text(meta.n_notes as nat, "note"),
            ] + dates_of(meta.date_range@),
        ),
{
    let title = markup::content(meta.title@);
    let author = markup::content(meta.author@);
    let none = Seq::<char>::empty();
    let p0 = Seq::<Seq<char>>::empty();
    says_nothing(none);
    says_more(none, p0, title);
    assert(none + title =~= title);
    let p1 = p0.push(title);
    says_on(title, p1, linked_doc::LINKED_BY@);
    let s1 = title + linked_doc::LINKED_BY@;
    says_more(s1, p1, author);
    let p2 = p1.push(author);
    says_on(s1 + author, p2, linked_doc::LINKED_COUNTS@);
    let s2 = s1 + author + linked_doc::LINKED_COUNTS@;
    let h = text::decimal(meta.n_highlights as nat);
    let hs = digest_doc::counted_word(meta.n_highlights as nat, "highlight", "highlights");
    says_three(s2, p2, h, " "@, hs);
    count_is_said(meta.n_highlights as nat, "highlight", "highlights");
    let p3 = p2.push(h + " "@ + hs);
    says_on(s2 + h + " "@ + hs, p3, " · "@);
    let s3 = s2 + h + " "@ + hs + " · "@;
    let n = text::decimal(meta.n_notes as nat);
    let ns = digest_doc::counted_word(meta.n_notes as nat, "note", "notes");
    says_three(s3, p3, n, " "@, ns);
    count_is_said(meta.n_notes as nat, "note", "notes");
    let p4 = p3.push(n + " "@ + ns);
    let s4 = s3 + n + " "@ + ns;
    let range = meta.date_range@;
    assert(p4 =~= seq![p4[0], p4[1], p4[2], p4[3]]);
    if range.len() == 0 {
        says_on(s4, p4, linked_doc::range_shown(range));
        assert(p4 + dates_of(range) =~= p4);
    } else {
        says_more(s4, p4, linked_doc::range_shown(range));
        assert(p4.push(linked_doc::range_shown(range)) =~= p4 + dates_of(range));
    }
    says_on(s4 + linked_doc::range_shown(range), p4 + dates_of(range), linked_doc::LINKED_COVER_END@);
}

/// The pages before the first mark say what they are to say.
#[verifier::spinoff_prover]
proof fn front_says(meta: DigestMeta, width: Seq<char>, height: Seq<char>)
    ensures
        says_only(
            linked_doc::front(meta@, width, height),
            linked_cover_words(meta, width, height),
            linked_cover_frame(),
        ),
{
    opening_says(meta, width, height);
    cover_shown_says(meta);
    let first = seq![markup::literal(meta.title@), markup::literal(meta.author@), width, height];
    let second = seq![
        markup::content(meta.title@),
        markup::content(meta.author@),
        count_text(meta.n_highlights as nat, "highlight"),
        count_text(meta.n_notes as nat, "note"),
    ];
    let dates = dates_of(meta.date_range@);
    says_both(
        linked_doc::opening(meta@, width, height),
        first,
        linked_doc::cover_shown(meta@),
        second + dates,
    );
    assert(first + (second + dates) =~= linked_cover_words(meta, width, height));
    count_is_said(meta.n_highlights as nat, "highlight", "highlights");
    count_is_said(meta.n_notes as nat, "note", "notes");
    let all = linked_cover_words(meta, width, height);
    assert(measured(all) == first[0].len() + first[1].len() + width.len() + height.len()
        + second[0].len() + second[1].len() + second[2].len() + second[3].len()
        + linked_doc::range_shown(meta.date_range@).len()) by {
        reveal_with_fuel(measured, 10);
    }
}

/// A digest says of every mark, in the order of the marks, what there is to say of it and
/// of what was found of it: the section of the i-th mark has the page and the texts that
/// were found of that mark, and of no other. Before them stand the title, the author, the
/// sides of the page, the counts and the dates.
pub proof fn a_digest_tells_what_was_found(
    meta: DigestMeta,
    marks: Seq<Mark>,
    found: Seq<Option<Found>>,
    width: Seq<char>,
    height: Seq<char>,
) -> (cuts: Seq<int>)
    requires
        found.len() == marks.len(),
    ensures
        ({
            let views = extract::mark_views(marks);
            let s = linked_doc::linked_source(
                meta@,
                views,
                linked_doc::found_views(found),
                width,
                height,
            );
            &&& parted(s, cuts, marks.len())
            &&& says_only(
                s.take(cuts[0]),
                linked_cover_words(meta, width, height),
                linked_cover_frame(),
            )
            &&& forall|i: int|
                0 <= i < marks.len() ==> says_only(
                    #[trigger] section(s, cuts, i),
                    linked_words(
                        marks[i],
                        page_found(found[i]),
                        texts_found(found[i]),
                        pictured(views.take(i)).len(),
                    ),
                    linked_frame(marks[i] is Highlight, texts_found(found[i]) is None),
                )
        }),
{
    let views = extract::mark_views(marks);
    let places = linked_doc::found_views(found);
    let head = linked_doc::front(meta@, width, height);
    let cuts = mark_blocks_are_parted(head, marks, places);
    let s = linked_doc::linked_source(meta@, views, places, width, height);
    assert(s.take(cuts[0]) =~= head);
    front_says(meta, width, height);
    assert forall|i: int| 0 <= i < marks.len() implies says_only(
        #[trigger] section(s, cuts, i),
        linked_words(
            marks[i],
            page_found(found[i]),
            texts_found(found[i]),
            pictured(views.take(i)).len(),
        ),
        linked_frame(marks[i] is Highlight, texts_found(found[i]) is None),
    ) by {
        assert(tells(s, cuts, marks, places, i));
        assert(places[i] == linked_doc::found_view(found[i]));
    }
    cuts
}

/// Where the text of a highlight stands in the document. Nothing else is looked for.
pub open spec fn place_of(pages: Seq<Seq<char>>, mark: Mark) -> Option<FoundView> {
    match mark {
        Mark::Highlight { text, .. } => linked_doc::located(pages, text@),
        _ => None,
    }
}

/// A digest shows every highlight where its own text stands in the document: the section
/// of the i-th mark has the page and the texts that its text is found with.
pub proof fn a_digest_shows_highlights_in_the_document(
    meta: DigestMeta,
    marks: Seq<Mark>,
    pages: Seq<Seq<char>>,
    width: Seq<char>,
    height: Seq<char>,
) -> (cuts: Seq<int>)
    ensures
        ({
            let views = extract::mark_views(marks);
            let s = linked_doc::linked_source(
                meta@,
                views,
                linked_doc::marks_located(pages, views),
                width,
                height,
            );
            &&& parted(s, cuts, marks.len())
            &&& says_only(
                s.take(cuts[0]),
                linked_cover_words(meta, width, height),
                linked_cover_frame(),
            )
            &&& forall|i: int|
                0 <= i < marks.len() ==> match place_of(pages, marks[i]) {
                    Some(place) => says_only(
                        #[trigger] section(s, cuts, i),
                        linked_words(
                            marks[i],
                            Some(place.page),
                            place.context,
                            pictured(views.take(i)).len(),
                        ),
                        linked_frame(true, place.context is None),
                    ),
                    None => says_only(
                        section(s, cuts, i),
                        linked_words(marks[i], None, None, pictured(views.take(i)).len()),
                        linked_frame(marks[i] is Highlight, true),
                    ),
                }
        }),
{
    let views = extract::mark_views(marks);
    let places = linked_doc::marks_located(pages, views);
    let head = linked_doc::front(meta@, width, height);
    let cuts = mark_blocks_are_parted(head, marks, places);
    let s = linked_doc::linked_source(meta@, views, places, width, height);
    assert(s.take(cuts[0]) =~= head);
    front_says(meta, width, height);
    assert forall|i: int| 0 <= i < marks.len() implies match place_of(pages, marks[i]) {
        Some(place) => says_only(
            #[trigger] section(s, cuts, i),
            linked_words(
                marks[i],
                Some(place.page),
                place.context,
                pictured(views.take(i)).len(),
            ),
            linked_frame(true, place.context is None),
        ),
        None => says_only(
            section(s, cuts, i),
            linked_words(marks[i], None, None, pictured(views.take(i)).len()),
            linked_frame(marks[i] is Highlight, true),
        ),
    } by {
        assert(tells(s, cuts, marks, places, i));
        assert(views[i] == marks[i]@);
    }
    cuts
}

} // verus!

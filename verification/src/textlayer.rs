//! The text layer of a PDF: its words with their boxes, so that the region of a
//! highlight can be turned back into the words that it covers.
//!
//! `pdftotext -bbox` prints the words. Coordinates are compared here and nothing
//! else, so that a coordinate is an integer that stands for it in the order of
//! coordinates; `y` grows towards the top of the page.

use crate::text;
use crate::text::{
    chars_of, find_in, from_utf8_lossy, join_spaced, same, slice_of, stands_at, string_of,
    trim,
};
use vstd::prelude::*;
use vstd::string::*;

verus! {

// ---------------------------------------------------------------------------
// Reading the words
// ---------------------------------------------------------------------------
/// A word as it is printed: its page from zero on, its text, and the attributes of
/// its box and of its page where they are given.
#[derive(Debug)]
pub struct RawWord {
    pub page: usize,
    pub text: String,
    pub x_min: Option<String>,
    pub y_min: Option<String>,
    pub x_max: Option<String>,
    pub y_max: Option<String>,
    pub page_height: Option<String>,
}

/// What a printed word holds.
#[verifier::ext_equal]
pub struct RawView {
    pub page: nat,
    pub text: Seq<char>,
    pub x_min: Option<Seq<char>>,
    pub y_min: Option<Seq<char>>,
    pub x_max: Option<Seq<char>>,
    pub y_max: Option<Seq<char>>,
    pub page_height: Option<Seq<char>>,
}

/// The text that there is.
pub open spec fn opt_view(s: Option<String>) -> Option<Seq<char>> {
    match s {
        Some(t) => Some(t@),
        None => None,
    }
}

impl View for RawWord {
    type V = RawView;

    open spec fn view(&self) -> RawView {
        RawView {
            page: self.page as nat,
            text: self.text@,
            x_min: opt_view(self.x_min),
            y_min: opt_view(self.y_min),
            x_max: opt_view(self.x_max),
            y_max: opt_view(self.y_max),
            page_height: opt_view(self.page_height),
        }
    }
}

/// What the printed words hold.
pub open spec fn raw_views(words: Seq<RawWord>) -> Seq<RawView> {
    Seq::new(words.len(), |i: int| words[i]@)
}

/// The value between the quote at `at` and the next one like it.
pub open spec fn quoted(tag: Seq<char>, at: int, quote: Seq<char>) -> Option<Seq<char>> {
    match text::find_from(tag, quote, at) {
        Some(end) => Some(tag.subrange(at, end)),
        None => None,
    }
}

/// The value of an attribute of a tag, in double quotes or else in single ones.
pub open spec fn attr_of(tag: Seq<char>, attr: Seq<char>) -> Option<Seq<char>> {
    let double = attr + "=\""@;
    let single = attr + "='"@;
    match text::find(tag, double) {
        Some(i) => quoted(tag, i + double.len(), "\""@),
        None => match text::find(tag, single) {
            Some(i) => quoted(tag, i + single.len(), "'"@),
            None => None,
        },
    }
}

/// The character entity at the front of the text: its character and its length.
pub open spec fn entity(s: Seq<char>) -> Option<(char, int)> {
    if text::occurs_at(s, "&amp;"@, 0) {
        Some(('&', 5))
    } else if text::occurs_at(s, "&lt;"@, 0) {
        Some(('<', 4))
    } else if text::occurs_at(s, "&gt;"@, 0) {
        Some(('>', 4))
    } else if text::occurs_at(s, "&quot;"@, 0) {
        Some(('"', 6))
    } else if text::occurs_at(s, "&#39;"@, 0) {
        Some(('\'', 5))
    } else {
        None
    }
}

/// The text with a character in place of each of its character entities. What is put
/// in place of one is not looked at again.
pub open spec fn decoded(s: Seq<char>) -> Seq<char>
    decreases s.len(),
    via decoding_ends
{
    if s.len() == 0 {
        seq![]
    } else {
        match entity(s) {
            Some((c, n)) => seq![c] + decoded(s.skip(n)),
            None => seq![s[0]] + decoded(s.skip(1)),
        }
    }
}

#[via_fn]
proof fn decoding_ends(s: Seq<char>) {
    entities_revealed();
}

/// A character as it is printed, as an entity if it has one.
pub open spec fn encoded_char(c: char) -> Seq<char> {
    if c == '&' {
        "&amp;"@
    } else if c == '<' {
        "&lt;"@
    } else if c == '>' {
        "&gt;"@
    } else if c == '"' {
        "&quot;"@
    } else if c == '\'' {
        "&#39;"@
    } else {
        seq![c]
    }
}

/// The text as it is printed, with entities for the characters that have one.
pub open spec fn encoded(s: Seq<char>) -> Seq<char>
    decreases s.len(),
{
    if s.len() == 0 {
        seq![]
    } else {
        encoded_char(s[0]) + encoded(s.skip(1))
    }
}

/// What the entities hold.
pub(crate) proof fn entities_revealed()
    ensures
        "&amp;"@ == seq!['&', 'a', 'm', 'p', ';'],
        "&lt;"@ == seq!['&', 'l', 't', ';'],
        "&gt;"@ == seq!['&', 'g', 't', ';'],
        "&quot;"@ == seq!['&', 'q', 'u', 'o', 't', ';'],
        "&#39;"@ == seq!['&', '#', '3', '9', ';'],
{
    reveal_strlit("&amp;");
    reveal_strlit("&lt;");
    reveal_strlit("&gt;");
    reveal_strlit("&quot;");
    reveal_strlit("&#39;");
    assert("&amp;"@ =~= seq!['&', 'a', 'm', 'p', ';']);
    assert("&lt;"@ =~= seq!['&', 'l', 't', ';']);
    assert("&gt;"@ =~= seq!['&', 'g', 't', ';']);
    assert("&quot;"@ =~= seq!['&', 'q', 'u', 'o', 't', ';']);
    assert("&#39;"@ =~= seq!['&', '#', '3', '9', ';']);
}

/// An entity whose second character differs does not stand at the front.
pub(crate) proof fn other_entity(s: Seq<char>, p: Seq<char>)
    requires
        p.len() >= 2,
        s.len() == 0 || s[0] != p[0] || s.len() < 2 || s[1] != p[1],
    ensures
        !text::occurs_at(s, p, 0),
{
    if text::occurs_at(s, p, 0) {
        assert(s.subrange(0, p.len() as int)[0] == p[0]);
        assert(s.subrange(0, p.len() as int)[1] == p[1]);
    }
}

/// Decoding undoes the encoding of every text.
pub proof fn decoding_undoes_encoding(s: Seq<char>)
    ensures
        decoded(encoded(s)) == s,
    decreases s.len(),
{
    if s.len() > 0 {
        entities_revealed();
        let rest = encoded(s.skip(1));
        let t = encoded(s);
        let e = encoded_char(s[0]);
        decoding_undoes_encoding(s.skip(1));
        assert(t.subrange(0, e.len() as int) =~= e);
        assert(t.skip(e.len() as int) =~= rest);
        if s[0] != '&' {
            other_entity(t, "&amp;"@);
            if s[0] != '<' {
                other_entity(t, "&lt;"@);
                if s[0] != '>' {
                    other_entity(t, "&gt;"@);
                    if s[0] != '"' {
                        other_entity(t, "&quot;"@);
                        if s[0] != '\'' {
                            other_entity(t, "&#39;"@);
                        }
                    }
                }
            }
        }
        assert(seq![s[0]] + s.skip(1) =~= s);
    }
}

/// The word in the tag with the text.
pub open spec fn word_of(
    tag: Seq<char>,
    raw: Seq<char>,
    page: nat,
    height: Option<Seq<char>>,
) -> RawView {
    RawView {
        page,
        text: decoded(raw),
        x_min: attr_of(tag, "xMin"@),
        y_min: attr_of(tag, "yMin"@),
        x_max: attr_of(tag, "xMax"@),
        y_max: attr_of(tag, "yMax"@),
        page_height: height,
    }
}

/// The words in a page's body from `at` on; those without text are left out, and one
/// that is not closed ends the page.
pub open spec fn words_from(
    body: Seq<char>,
    at: int,
    page: nat,
    height: Option<Seq<char>>,
) -> Seq<RawView>
    decreases body.len() - at,
    when 0 <= at <= body.len()
    via words_from_ends
{
    match text::find_from(body, "<word "@, at) {
        None => seq![],
        Some(start) => match text::find_from(body, ">"@, start) {
            None => seq![],
            Some(end) => match text::find_from(body, "</word>"@, end + 1) {
                None => seq![],
                Some(close) => {
                    let word = word_of(
                        body.subrange(start, end),
                        body.subrange(end + 1, close),
                        page,
                        height,
                    );
                    let rest = words_from(body, close + "</word>"@.len(), page, height);
                    if word.text.len() > 0 {
                        seq![word] + rest
                    } else {
                        rest
                    }
                },
            },
        },
    }
}

#[via_fn]
proof fn words_from_ends(body: Seq<char>, at: int, page: nat, height: Option<Seq<char>>) {
    text::find_from_is_least(body, "<word "@, at);
    if let Some(start) = text::find_from(body, "<word "@, at) {
        text::find_from_is_least(body, ">"@, start);
        if let Some(end) = text::find_from(body, ">"@, start) {
            text::find_from_is_least(body, "</word>"@, end + 1);
            reveal_strlit("</word>");
        }
    }
}

/// The index at which the pattern stands, or the end of the text.
pub open spec fn find_or_end(s: Seq<char>, p: Seq<char>, at: int) -> int {
    match text::find_from(s, p, at) {
        Some(i) => i,
        None => s.len() as int,
    }
}

/// The words of the pages from `at` on, the next page having the number `page`;
/// nothing where a page ends inside its own tag.
pub open spec fn pages_from(s: Seq<char>, at: int, page: nat) -> Option<Seq<RawView>>
    decreases s.len() - at,
    when 0 <= at <= s.len()
    via pages_from_ends
{
    match text::find_from(s, "<page "@, at) {
        None => Some(seq![]),
        Some(start) => {
            let end = find_or_end(s, ">"@, start);
            let close = find_or_end(s, "</page>"@, start);
            if close < end {
                None
            } else {
                let height = attr_of(s.subrange(start, end), "height"@);
                let words = words_from(s.subrange(end, close), 0, page, height);
                match pages_from(s, close, page + 1) {
                    None => None,
                    Some(rest) => Some(words + rest),
                }
            }
        },
    }
}

/// The end of a page does not stand where its tag starts.
proof fn page_ends_behind(s: Seq<char>, at: int, start: int)
    requires
        0 <= at <= s.len(),
        text::find_from(s, "<page "@, at) == Some(start),
    ensures
        at <= start < find_or_end(s, "</page>"@, start) <= s.len(),
{
    text::find_from_is_least(s, "<page "@, at);
    text::find_from_is_least(s, "</page>"@, start);
    reveal_strlit("<page ");
    reveal_strlit("</page>");
    if text::occurs_at(s, "</page>"@, start) {
        assert(s.subrange(start, start + 6)[1] == s.subrange(start, start + 7)[1]);
    }
}

#[via_fn]
proof fn pages_from_ends(s: Seq<char>, at: int, page: nat) {
    if let Some(start) = text::find_from(s, "<page "@, at) {
        page_ends_behind(s, at, start);
    }
}

/// The words that `pdftotext -bbox` printed.
pub open spec fn words_printed(xhtml: Seq<char>) -> Option<Seq<RawView>> {
    pages_from(xhtml, 0, 0)
}

/// Finds the value of an attribute of a tag.
fn parse_attr(tag: &Vec<char>, attr: &str) -> (r: Option<String>)
    ensures
        opt_view(r) == attr_of(tag@, attr@),
{
    let mut double = attr.to_owned();
    double.append("=\"");
    let double = chars_of(double.as_str());
    let mut single = attr.to_owned();
    single.append("='");
    let single = chars_of(single.as_str());
    let (at, quote) = match find_in(tag, &double, 0) {
        Some(i) => {
            proof {
                text::find_from_is_least(tag@, double@, 0);
            }
            (i + double.len(), chars_of("\""))
        },
        None => match find_in(tag, &single, 0) {
            Some(i) => {
                proof {
                    text::find_from_is_least(tag@, single@, 0);
                }
                (i + single.len(), chars_of("'"))
            },
            None => return None,
        },
    };
    match find_in(tag, &quote, at) {
        Some(end) => {
            proof {
                text::find_from_is_least(tag@, quote@, at as int);
            }
            Some(string_of(tag, at, end))
        },
        None => None,
    }
}

/// Finds the character entity at the index: its character and its length.
fn entity_in(v: &Vec<char>, i: usize) -> (r: Option<(char, usize)>)
    requires
        i < v@.len(),
    ensures
        match r {
            Some((c, n)) => entity(v@.skip(i as int)) == Some((c, n as int)) && 0 < n <= v@.len()
                - i,
            None => entity(v@.skip(i as int)) is None,
        },
{
    proof {
        entities_revealed();
        text::occurs_behind(v@, "&amp;"@, i as int);
        text::occurs_behind(v@, "&lt;"@, i as int);
        text::occurs_behind(v@, "&gt;"@, i as int);
        text::occurs_behind(v@, "&quot;"@, i as int);
        text::occurs_behind(v@, "&#39;"@, i as int);
    }
    if stands_at(v, &chars_of("&amp;"), i) {
        Some(('&', 5))
    } else if stands_at(v, &chars_of("&lt;"), i) {
        Some(('<', 4))
    } else if stands_at(v, &chars_of("&gt;"), i) {
        Some(('>', 4))
    } else if stands_at(v, &chars_of("&quot;"), i) {
        Some(('"', 6))
    } else if stands_at(v, &chars_of("&#39;"), i) {
        Some(('\'', 5))
    } else {
        None
    }
}

/// Replaces the character entities that may stand in a word.
fn decode_xml_entities(s: &Vec<char>) -> (r: Vec<char>)
    ensures
        r@ == decoded(s@),
{
    let mut r: Vec<char> = Vec::new();
    let mut i: usize = 0;
    assert(s@.skip(0) =~= s@);
    assert(r@ + decoded(s@) =~= decoded(s@));
    while i < s.len()
        invariant
            i <= s@.len(),
            r@ + decoded(s@.skip(i as int)) == decoded(s@),
        decreases s@.len() - i,
    {
        let ghost before = r@;
        let ghost rest = s@.skip(i as int);
        let (c, n) = match entity_in(s, i) {
            Some(found) => found,
            None => (s[i], 1),
        };
        r.push(c);
        proof {
            assert(rest.skip(n as int) =~= s@.skip(i + n));
            assert(r@ + decoded(s@.skip(i + n)) =~= before + decoded(rest));
        }
        i = i + n;
    }
    assert(s@.skip(s@.len() as int) =~= seq![]);
    assert(r@ + decoded(s@.skip(i as int)) =~= r@);
    r
}

/// Copies the text that there is.
fn copy_opt(s: &Option<String>) -> (r: Option<String>)
    ensures
        opt_view(r) == opt_view(*s),
{
    match s {
        Some(t) => Some(t.as_str().to_owned()),
        None => None,
    }
}

/// Reads the words in a page's body.
fn parse_words(body: &Vec<char>, page: usize, height: &Option<String>, words: &mut Vec<RawWord>)
    ensures
        raw_views(final(words)@) == raw_views(old(words)@) + words_from(
            body@,
            0,
            page as nat,
            opt_view(*height),
        ),
{
    let open = chars_of("<word ");
    let gt = chars_of(">");
    let shut = chars_of("</word>");
    let ghost had = raw_views(words@);
    let ghost all = words_from(body@, 0, page as nat, opt_view(*height));
    let mut at: usize = 0;
    assert(raw_views(words@) + all =~= had + all);
    loop
        invariant
            at <= body@.len(),
            open@ == "<word "@,
            gt@ == ">"@,
            shut@ == "</word>"@,
            had == raw_views(old(words)@),
            all == words_from(body@, 0, page as nat, opt_view(*height)),
            had + all == raw_views(words@) + words_from(
                body@,
                at as int,
                page as nat,
                opt_view(*height),
            ),
        decreases body@.len() - at,
    {
        proof {
            text::find_from_is_least(body@, "<word "@, at as int);
        }
        let start = match find_in(body, &open, at) {
            Some(i) => i,
            None => {
                assert(raw_views(words@) + seq![] =~= raw_views(words@));
                return ;
            },
        };
        proof {
            text::find_from_is_least(body@, ">"@, start as int);
            reveal_strlit(">");
            reveal_strlit("</word>");
        }
        let end = match find_in(body, &gt, start) {
            Some(i) => i,
            None => {
                assert(raw_views(words@) + seq![] =~= raw_views(words@));
                return ;
            },
        };
        proof {
            text::find_from_is_least(body@, "</word>"@, end + 1);
        }
        let close = match find_in(body, &shut, end + 1) {
            Some(i) => i,
            None => {
                assert(raw_views(words@) + seq![] =~= raw_views(words@));
                return ;
            },
        };
        let tag = slice_of(body, start, end);
        let text = decode_xml_entities(&slice_of(body, end + 1, close));
        let ghost before = raw_views(words@);
        let ghost rest = words_from(
            body@,
            close + "</word>"@.len(),
            page as nat,
            opt_view(*height),
        );
        if text.len() > 0 {
            let word = RawWord {
                page,
                text: string_of(&text, 0, text.len()),
                x_min: parse_attr(&tag, "xMin"),
                y_min: parse_attr(&tag, "yMin"),
                x_max: parse_attr(&tag, "xMax"),
                y_max: parse_attr(&tag, "yMax"),
                page_height: copy_opt(height),
            };
            assert(text@.subrange(0, text@.len() as int) =~= text@);
            let ghost seen = word@;
            words.push(word);
            assert(raw_views(words@) =~= before.push(seen));
            assert(before + (seq![seen] + rest) =~= raw_views(words@) + rest);
        }
        at = close + shut.len();
    }
}

/// Reads the words that `pdftotext -bbox` printed; nothing where a page ends inside
/// its own tag. A page has its words between its tag and its end.
pub fn parse_xhtml(xhtml: &str) -> (r: Option<Vec<RawWord>>)
    ensures
        match r {
            Some(words) => words_printed(xhtml@) == Some(raw_views(words@)),
            None => words_printed(xhtml@) is None,
        },
{
    let s = chars_of(xhtml);
    let open = chars_of("<page ");
    let gt = chars_of(">");
    let shut = chars_of("</page>");
    let mut words: Vec<RawWord> = Vec::new();
    let mut page: usize = 0;
    let mut at: usize = 0;
    proof {
        assert(raw_views(words@) =~= seq![]);
        if let Some(all) = pages_from(s@, 0, 0) {
            assert(raw_views(words@) + all =~= all);
        }
    }
    loop
        invariant
            page <= at <= s@.len(),
            s@ == xhtml@,
            open@ == "<page "@,
            gt@ == ">"@,
            shut@ == "</page>"@,
            match pages_from(s@, at as int, page as nat) {
                Some(rest) => words_printed(xhtml@) == Some(raw_views(words@) + rest),
                None => words_printed(xhtml@) is None,
            },
        decreases s@.len() - at,
    {
        let start = match find_in(&s, &open, at) {
            Some(i) => i,
            None => {
                assert(raw_views(words@) + seq![] =~= raw_views(words@));
                return Some(words);
            },
        };
        proof {
            page_ends_behind(s@, at as int, start as int);
            text::find_from_is_least(s@, ">"@, start as int);
            text::find_from_is_least(s@, "</page>"@, start as int);
        }
        let end = match find_in(&s, &gt, start) {
            Some(i) => i,
            None => s.len(),
        };
        let close = match find_in(&s, &shut, start) {
            Some(i) => i,
            None => s.len(),
        };
        if close < end {
            return None;
        }
        let height = parse_attr(&slice_of(&s, start, end), "height");
        let body = slice_of(&s, end, close);
        let ghost before = raw_views(words@);
        parse_words(&body, page, &height, &mut words);
        proof {
            let found = words_from(body@, 0, page as nat, opt_view(height));
            if let Some(rest) = pages_from(s@, close as int, page as nat + 1) {
                assert(before + (found + rest) =~= raw_views(words@) + rest);
            }
        }
        at = close;
        page = page + 1;
    }
}

/// Reads the words in what `pdftotext -bbox` wrote.
pub fn parse_output(stdout: &[u8]) -> (r: Option<Vec<RawWord>>)
    ensures
        match r {
            Some(words) => words_printed(text::lossy_text(stdout@)) == Some(raw_views(words@)),
            None => words_printed(text::lossy_text(stdout@)) is None,
        },
{
    let xhtml = from_utf8_lossy(stdout);
    parse_xhtml(xhtml.as_str())
}

// ---------------------------------------------------------------------------
// Words under a region
// ---------------------------------------------------------------------------
/// A rectangle on a page; each coordinate is an integer that stands for it in the
/// order of coordinates.
#[derive(Debug, Clone, Copy, PartialEq, Eq, Structural)]
pub struct PdfRect {
    pub x0: i64,
    pub y0: i64,
    pub x1: i64,
    pub y1: i64,
}

/// A word of a page with its box.
#[derive(Debug)]
pub struct Word {
    pub page: usize,
    pub text: String,
    pub bbox: PdfRect,
}

/// The words of a document.
#[derive(Debug)]
pub struct TextLayer {
    pub words: Vec<Word>,
}

/// What `intersects` can say of the box of a word that is on the page; a word of
/// another page is not asked about.
pub open spec fn hit<I: Fn(&PdfRect, &PdfRect) -> bool>(
    word: Word,
    page: usize,
    rect: PdfRect,
    intersects: &I,
    found: bool,
) -> bool {
    if word.page == page {
        call_ensures(intersects, (&word.bbox, &rect), found)
    } else {
        !found
    }
}

/// `found` are the places of the words of the page whose boxes overlap the
/// rectangle, in the order of the document.
pub open spec fn found_under<I: Fn(&PdfRect, &PdfRect) -> bool>(
    words: Seq<Word>,
    page: usize,
    rect: PdfRect,
    intersects: &I,
    found: Seq<usize>,
) -> bool {
    &&& forall|i: int, j: int| 0 <= i < j < found.len() ==> found[i] < found[j]
    &&& forall|i: int| 0 <= i < found.len() ==> #[trigger] found[i] < words.len()
    &&& forall|n: usize|
        n < words.len() ==> hit(
            #[trigger] words[n as int],
            page,
            rect,
            intersects,
            found.contains(n),
        )
}

/// The word at `a` is read before the one at `b`: it is higher on the page, or at
/// the same height and further to the left, or else earlier in the document.
pub open spec fn read_before(words: Seq<Word>, a: usize, b: usize) -> bool {
    let p = words[a as int].bbox;
    let q = words[b as int].bbox;
    p.y0 > q.y0 || (p.y0 == q.y0 && (p.x0 < q.x0 || (p.x0 == q.x0 && a < b)))
}

/// `ordered` are the places in `found` in reading order.
pub open spec fn reading_order(words: Seq<Word>, found: Seq<usize>, ordered: Seq<usize>) -> bool {
    &&& ordered.len() == found.len()
    &&& forall|n: usize| #[trigger] ordered.contains(n) <==> found.contains(n)
    &&& forall|i: int, j: int|
        0 <= i < j < ordered.len() ==> read_before(words, #[trigger] ordered[i], #[trigger]
            ordered[j])
}

/// The texts without those that repeat the one before them.
pub open spec fn deduped(texts: Seq<Seq<char>>) -> Seq<Seq<char>>
    decreases texts.len(),
{
    if texts.len() <= 1 {
        texts
    } else {
        let before = deduped(texts.drop_last());
        if texts.last() == texts[texts.len() - 2] {
            before
        } else {
            before.push(texts.last())
        }
    }
}

/// The texts of the words at the given places.
pub open spec fn texts_at(words: Seq<Word>, places: Seq<usize>) -> Seq<Seq<char>> {
    Seq::new(places.len(), |i: int| words[places[i] as int].text@)
}

/// The words at the given places as one text: a text that repeats the one before it
/// is left out, as a run of text can be printed once for each line that it wraps to.
pub open spec fn text_at(words: Seq<Word>, places: Seq<usize>) -> Seq<char> {
    text::trimmed(text::join(deduped(texts_at(words, places)), seq![' ']))
}

impl TextLayer {
    /// Finds the places of the words of the page that overlap the rectangle.
    fn find_under<I: Fn(&PdfRect, &PdfRect) -> bool>(
        &self,
        page: usize,
        rect: &PdfRect,
        intersects: &I,
    ) -> (found: Vec<usize>)
        requires
            forall|a: &PdfRect, b: &PdfRect| call_requires(intersects, (a, b)),
        ensures
            found_under(self.words@, page, *rect, intersects, found@),
    {
        let mut found: Vec<usize> = Vec::new();
        let mut i: usize = 0;
        while i < self.words.len()
            invariant
                i <= self.words@.len(),
                forall|a: &PdfRect, b: &PdfRect| call_requires(intersects, (a, b)),
                forall|i: int, j: int| 0 <= i < j < found@.len() ==> found@[i] < found@[j],
                forall|j: int| 0 <= j < found@.len() ==> #[trigger] found@[j] < i,
                forall|n: usize|
                    n < i ==> hit(
                        #[trigger] self.words@[n as int],
                        page,
                        *rect,
                        intersects,
                        found@.contains(n),
                    ),
            decreases self.words@.len() - i,
        {
            let word = &self.words[i];
            let ghost before = found@;
            let mut here = false;
            if word.page == page {
                here = intersects(&word.bbox, rect);
            }
            if here {
                found.push(i);
            }
            proof {
                assert(!before.contains(i));
                if here {
                    assert(found@[before.len() as int] == i);
                    assert(found@.contains(i));
                }
                assert forall|n: usize| n < i implies found@.contains(n) == before.contains(n) by {
                    if before.contains(n) {
                        let k = choose|k: int| 0 <= k < before.len() && before[k] == n;
                        assert(found@[k] == n);
                    }
                    if found@.contains(n) {
                        let k = choose|k: int| 0 <= k < found@.len() && found@[k] == n;
                        assert(before[k] == n);
                    }
                }
                assert forall|n: usize| n < i + 1 implies hit(
                    #[trigger] self.words@[n as int],
                    page,
                    *rect,
                    intersects,
                    found@.contains(n),
                ) by {}
            }
            i = i + 1;
        }
        found
    }

    /// Whether the word at `a` is read before the one at `b`.
    fn before(&self, a: usize, b: usize) -> (r: bool)
        requires
            a < self.words@.len(),
            b < self.words@.len(),
        ensures
            r == read_before(self.words@, a, b),
    {
        let p = self.words[a].bbox;
        let q = self.words[b].bbox;
        p.y0 > q.y0 || (p.y0 == q.y0 && (p.x0 < q.x0 || (p.x0 == q.x0 && a < b)))
    }

    /// Puts the places into reading order.
    fn order(&self, found: &Vec<usize>) -> (ordered: Vec<usize>)
        requires
            forall|i: int, j: int| 0 <= i < j < found@.len() ==> found@[i] < found@[j],
            forall|i: int| 0 <= i < found@.len() ==> #[trigger] found@[i] < self.words@.len(),
        ensures
            reading_order(self.words@, found@, ordered@),
    {
        let mut ordered: Vec<usize> = Vec::new();
        let mut i: usize = 0;
        assert(found@.take(0) =~= seq![]);
        while i < found.len()
            invariant
                i <= found@.len(),
                forall|i: int, j: int| 0 <= i < j < found@.len() ==> found@[i] < found@[j],
                forall|i: int| 0 <= i < found@.len() ==> #[trigger] found@[i] < self.words@.len(),
                reading_order(self.words@, found@.take(i as int), ordered@),
            decreases found@.len() - i,
        {
            let new = found[i];
            let ghost prior = ordered@;
            proof {
                assert forall|j: int| 0 <= j < prior.len() implies #[trigger] prior[j] < new
                    && prior[j] < self.words@.len() by {
                    assert(prior.contains(prior[j]));
                    let k = choose|k: int|
                        0 <= k < i && found@.take(i as int)[k] == prior[j];
                    assert(found@[k] == prior[j]);
                }
            }
            let mut k: usize = 0;
            while k < ordered.len() && !self.before(new, ordered[k])
                invariant
                    k <= ordered@.len(),
                    ordered@ == prior,
                    new < self.words@.len(),
                    forall|j: int|
                        0 <= j < prior.len() ==> #[trigger] prior[j] < new && prior[j]
                            < self.words@.len(),
                    forall|j: int|
                        0 <= j < k ==> !read_before(self.words@, new, #[trigger] prior[j]),
                decreases ordered@.len() - k,
            {
                k = k + 1;
            }
            ordered.insert(k, new);
            proof {
                let now = ordered@;
                let so_far = found@.take(i + 1);
                assert(now =~= prior.insert(k as int, new));
                assert forall|n: usize| #[trigger] now.contains(n) <==> so_far.contains(n) by {
                    if now.contains(n) {
                        let j = choose|j: int| 0 <= j < now.len() && now[j] == n;
                        if j == k {
                            assert(so_far[i as int] == n);
                        } else {
                            let m = if j < k {
                                j
                            } else {
                                j - 1
                            };
                            assert(prior[m] == n);
                            assert(prior.contains(n));
                            let f = choose|f: int| 0 <= f < i && found@.take(i as int)[f] == n;
                            assert(so_far[f] == n);
                        }
                    }
                    if so_far.contains(n) {
                        let f = choose|f: int| 0 <= f < so_far.len() && so_far[f] == n;
                        if f == i {
                            assert(now[k as int] == n);
                        } else {
                            assert(found@.take(i as int)[f] == n);
                            assert(prior.contains(n));
                            let m = choose|m: int| 0 <= m < prior.len() && prior[m] == n;
                            if m < k {
                                assert(now[m] == n);
                            } else {
                                assert(now[m + 1] == n);
                            }
                        }
                    }
                }
                assert forall|a: int, b: int| 0 <= a < b < now.len() implies read_before(
                    self.words@,
                    #[trigger] now[a],
                    #[trigger] now[b],
                ) by {
                    if a < k && b == k {
                        assert(now[a] == prior[a]);
                    } else if a == k && b > k {
                        assert(now[b] == prior[b - 1]);
                        assert(read_before(self.words@, new, prior[k as int]));
                        if b - 1 > k {
                            assert(read_before(self.words@, prior[k as int], prior[b - 1]));
                        }
                    } else {
                        let p = if a < k {
                            a
                        } else {
                            a - 1
                        };
                        let q = if b < k {
                            b
                        } else {
                            b - 1
                        };
                        assert(read_before(self.words@, prior[p], prior[q]));
                    }
                }
            }
            i = i + 1;
        }
        assert(found@.take(found@.len() as int) =~= found@);
        ordered
    }

    /// Joins the words at the given places into one text.
    fn text_of(&self, places: &Vec<usize>) -> (r: String)
        requires
            forall|i: int| 0 <= i < places@.len() ==> #[trigger] places@[i] < self.words@.len(),
        ensures
            r@ == text_at(self.words@, places@),
    {
        let ghost all = texts_at(self.words@, places@);
        let mut parts: Vec<Vec<char>> = Vec::new();
        let mut last: Vec<char> = Vec::new();
        let mut i: usize = 0;
        assert(text::texts(parts@) =~= deduped(all.take(0)));
        while i < places.len()
            invariant
                i <= places@.len(),
                all == texts_at(self.words@, places@),
                forall|i: int| 0 <= i < places@.len() ==> #[trigger] places@[i] < self.words@.len(),
                text::texts(parts@) == deduped(all.take(i as int)),
                i > 0 ==> last@ == all[i - 1],
            decreases places@.len() - i,
        {
            let text = chars_of(self.words[places[i]].text.as_str());
            let ghost prior = text::texts(parts@);
            proof {
                assert(text@ == all[i as int]);
                assert(all.take(i + 1).drop_last() =~= all.take(i as int));
            }
            if i == 0 || !same(&text, &last) {
                let copy = slice_of(&text, 0, text.len());
                assert(copy@ =~= text@);
                parts.push(copy);
                assert(text::texts(parts@) =~= prior.push(all[i as int]));
                if i == 0 {
                    assert(all.take(1) =~= seq![all[0]]);
                    assert(all.take(0) =~= seq![]);
                    assert(text::texts(parts@) =~= all.take(1));
                }
            }
            last = text;
            i = i + 1;
        }
        assert(all.take(all.len() as int) =~= all);
        let line = trim(&join_spaced(&parts));
        assert(line@.subrange(0, line@.len() as int) =~= line@);
        string_of(&line, 0, line.len())
    }

    /// The text of the words of the page, from zero on, whose boxes overlap the
    /// rectangle, from the top to the bottom and from the left to the right.
    pub fn words_under<I: Fn(&PdfRect, &PdfRect) -> bool>(
        &self,
        page: usize,
        rect: &PdfRect,
        intersects: &I,
    ) -> (r: String)
        requires
            forall|a: &PdfRect, b: &PdfRect| call_requires(intersects, (a, b)),
        ensures
            self.under(page, *rect, intersects, r@),
    {
        let found = self.find_under(page, rect, intersects);
        let ordered = self.order(&found);
        proof {
            assert forall|i: int| 0 <= i < ordered@.len() implies #[trigger] ordered@[i]
                < self.words@.len() by {
                assert(ordered@.contains(ordered@[i]));
                let k = choose|k: int| 0 <= k < found@.len() && found@[k] == ordered@[i];
            }
        }
        let r = self.text_of(&ordered);
        assert(found_under(self.words@, page, *rect, intersects, found@) && reading_order(
            self.words@,
            found@,
            ordered@,
        ));
        r
    }

    /// `shown` can be the text of the words of the page that overlap the rectangle.
    pub open spec fn under<I: Fn(&PdfRect, &PdfRect) -> bool>(
        &self,
        page: usize,
        rect: PdfRect,
        intersects: &I,
        shown: Seq<char>,
    ) -> bool {
        exists|found: Seq<usize>, ordered: Seq<usize>|
            found_under(self.words@, page, rect, intersects, found) && #[trigger] reading_order(
                self.words@,
                found,
                ordered,
            ) && shown == text_at(self.words@, ordered)
    }
}

/// Two reading orders that agree up to a place agree at it: neither can have there
/// what the other has later.
proof fn orders_agree(
    words: Seq<Word>,
    found: Seq<usize>,
    a: Seq<usize>,
    b: Seq<usize>,
    i: int,
)
    requires
        reading_order(words, found, a),
        reading_order(words, found, b),
        0 <= i < a.len(),
        forall|j: int| 0 <= j < i ==> a[j] == b[j],
    ensures
        a[i] == b[i],
{
    assert(a.contains(a[i]) && b.contains(b[i]));
    assert(b.contains(a[i]) && a.contains(b[i]));
    let k = choose|k: int| 0 <= k < b.len() && b[k] == a[i];
    let m = choose|m: int| 0 <= m < a.len() && a[m] == b[i];
    if k < i {
        assert(read_before(words, a[k], a[i]));
    } else if m < i {
        assert(read_before(words, b[m], b[i]));
    } else if k > i && m > i {
        assert(read_before(words, b[i], b[k]));
        assert(read_before(words, a[i], a[m]));
    }
}

/// Words have one reading order.
pub proof fn reading_order_is_unique(
    words: Seq<Word>,
    found: Seq<usize>,
    a: Seq<usize>,
    b: Seq<usize>,
)
    requires
        reading_order(words, found, a),
        reading_order(words, found, b),
    ensures
        a == b,
{
    orders_agree_up_to(words, found, a, b, a.len() as int);
    assert(a =~= b);
}

/// Two reading orders agree up to any place.
proof fn orders_agree_up_to(
    words: Seq<Word>,
    found: Seq<usize>,
    a: Seq<usize>,
    b: Seq<usize>,
    n: int,
)
    requires
        reading_order(words, found, a),
        reading_order(words, found, b),
        0 <= n <= a.len(),
    ensures
        forall|j: int| 0 <= j < n ==> a[j] == b[j],
    decreases n,
{
    if n > 0 {
        orders_agree_up_to(words, found, a, b, n - 1);
        orders_agree(words, found, a, b, n - 1);
    }
}

/// `intersects` says one thing of two rectangles.
pub open spec fn settled<I: Fn(&PdfRect, &PdfRect) -> bool>(intersects: &I) -> bool {
    forall|a: &PdfRect, b: &PdfRect, x: bool, y: bool| #[trigger]
        call_ensures(intersects, (a, b), x) && #[trigger] call_ensures(intersects, (a, b), y) ==> x
            == y
}

/// There is one text under a region, where one thing is said of two rectangles.
pub proof fn text_under_is_unique<I: Fn(&PdfRect, &PdfRect) -> bool>(
    layer: TextLayer,
    page: usize,
    rect: PdfRect,
    intersects: &I,
    a: Seq<char>,
    b: Seq<char>,
)
    requires
        settled(intersects),
        layer.under(page, rect, intersects, a),
        layer.under(page, rect, intersects, b),
    ensures
        a == b,
{
    let words = layer.words@;
    let (f, o) = choose|found: Seq<usize>, ordered: Seq<usize>|
        found_under(words, page, rect, intersects, found) && #[trigger] reading_order(
            words,
            found,
            ordered,
        ) && a == text_at(words, ordered);
    let (g, p) = choose|found: Seq<usize>, ordered: Seq<usize>|
        found_under(words, page, rect, intersects, found) && #[trigger] reading_order(
            words,
            found,
            ordered,
        ) && b == text_at(words, ordered);
    assert forall|n: usize| f.contains(n) <==> g.contains(n) by {
        if n < words.len() {
            let word = words[n as int];
            assert(hit(word, page, rect, intersects, f.contains(n)));
            assert(hit(word, page, rect, intersects, g.contains(n)));
        }
    }
    assert(f.to_set() =~= g.to_set());
    f.unique_seq_to_set();
    g.unique_seq_to_set();
    reading_order_is_unique(words, f, o, p);
}

/// No text follows one like it, and the last stays.
pub proof fn no_text_repeats(texts: Seq<Seq<char>>)
    ensures
        forall|i: int|
            0 < i < deduped(texts).len() ==> deduped(texts)[i - 1] != #[trigger] deduped(texts)[i],
        texts.len() > 0 ==> deduped(texts).len() > 0 && deduped(texts).last() == texts.last(),
    decreases texts.len(),
{
    if texts.len() > 1 {
        no_text_repeats(texts.drop_last());
    }
}

} // verus!

//! Builds the source of a digest that shows each highlight in its context: the
//! sentences around it in the text of the PDF, with the highlighted words washed in
//! their colour. Notes are shown as images.
//!
//! A highlight is looked for by its text in the whole document. The number of its
//! page in the notebook does not tell its page in the PDF, as inserted pages shift
//! those numbers.

use crate::digest_doc;
use crate::digest_doc::{append_count, append_triple, path_of, DigestMeta, MetaView};
use crate::extract;
use crate::extract::{Mark, MarkView};
use crate::markup;
use crate::markup::{esc, esc_markup};
use crate::text;
use crate::text::{
    append_decimal, chars_of, find_in, from_utf8_lossy, join_spaced, split_char,
    string_of, trim, words,
};
use crate::theme;
use crate::theme::pen_rgb;
use vstd::prelude::*;
use vstd::string::*;
use vstd::utf8::*;

verus! {

// ---------------------------------------------------------------------------
// The text of the pages
// ---------------------------------------------------------------------------
/// The pages of a printed document: a form feed parts one from the next, and each
/// run of white space in a page is one space.
pub open spec fn pages_printed(printed: Seq<char>) -> Seq<Seq<char>> {
    let pages = text::split(printed, text::only('\u{c}'));
    Seq::new(pages.len(), |i: int| text::join(text::words_of(pages[i]), seq![' ']))
}

/// Parts the text that `pdftotext` printed into pages.
pub fn split_pages(printed: &str) -> (r: Vec<String>)
    ensures
        text::strings(r@) == pages_printed(printed@),
{
    let pieces = split_char(&chars_of(printed), '\u{c}');
    let mut pages: Vec<String> = Vec::new();
    let mut i: usize = 0;
    while i < pieces.len()
        invariant
            i <= pieces@.len(),
            text::texts(pieces@) == text::split(printed@, text::only('\u{c}')),
            pages@.len() == i,
            forall|j: int|
                0 <= j < i ==> (#[trigger] pages@[j])@ == pages_printed(printed@)[j],
        decreases pieces@.len() - i,
    {
        assert(text::texts(pieces@)[i as int] == pieces@[i as int]@);
        let page = join_spaced(&words(&pieces[i]));
        assert(page@.subrange(0, page@.len() as int) =~= page@);
        pages.push(string_of(&page, 0, page.len()));
        i = i + 1;
    }
    assert(text::strings(pages@) =~= pages_printed(printed@));
    pages
}

/// Parts what `pdftotext` wrote into pages.
pub fn document_pages(stdout: &[u8]) -> (r: Vec<String>)
    ensures
        text::strings(r@) == pages_printed(text::lossy_text(stdout@)),
{
    let printed = from_utf8_lossy(stdout);
    split_pages(printed.as_str())
}

// ---------------------------------------------------------------------------
// Finding a highlight
// ---------------------------------------------------------------------------
/// The text in lower case, as `str::to_lowercase` has it.
pub uninterp spec fn lowercase(s: Seq<char>) -> Seq<char>;

/// The character with a capital letter of ASCII made small.
pub open spec fn small(c: char) -> char {
    if 'A' <= c <= 'Z' {
        (c as u32 + 32) as char
    } else {
        c
    }
}

/// The text with the capital letters of ASCII made small.
pub open spec fn all_small(s: Seq<char>) -> Seq<char> {
    Seq::new(s.len(), |i: int| small(s[i]))
}

/// The text in lower case is known where every character is one of ASCII: only capital
/// letters change.
pub open spec fn known_small(s: Seq<char>) -> bool {
    is_ascii_chars(s) ==> lowercase(s) == all_small(s)
}

/// `str::to_lowercase`: the text in lower case, by the rules of Unicode. It is named
/// [`lowercase`]; where every character is one of ASCII, each capital letter is made
/// small and the others stay.
#[verifier::external_body]
fn to_lowercase(s: &str) -> (r: String)
    ensures
        r@ == lowercase(s@),
        is_ascii_chars(s@) ==> r@ == all_small(s@),
{
    s.to_lowercase()
}

/// The first of the pages that holds the phrase; none where the phrase is empty.
pub open spec fn page_with(pages: Seq<Seq<char>>, phrase: Seq<char>, n: int) -> Option<int>
    decreases pages.len() - n,
{
    if phrase.len() == 0 || n >= pages.len() || n < 0 {
        None
    } else if text::find(pages[n], phrase) is Some {
        Some(n)
    } else {
        page_with(pages, phrase, n + 1)
    }
}

/// The pages in lower case.
pub open spec fn lowered(pages: Seq<Seq<char>>) -> Seq<Seq<char>> {
    Seq::new(pages.len(), |i: int| lowercase(pages[i]))
}

/// Finds the first of the pages that holds the phrase, letter for letter.
pub fn first_with(pages: &Vec<String>, phrase: &str) -> (r: Option<usize>)
    ensures
        match r {
            Some(n) => n < pages@.len() && page_with(text::strings(pages@), phrase@, 0) == Some(n as int),
            None => page_with(text::strings(pages@), phrase@, 0) is None,
        },
{
    let needle = chars_of(phrase);
    if needle.len() == 0 {
        return None;
    }
    let mut i: usize = 0;
    while i < pages.len()
        invariant
            i <= pages@.len(),
            needle@ == phrase@,
            needle@.len() > 0,
            page_with(text::strings(pages@), phrase@, 0) == page_with(
                text::strings(pages@),
                phrase@,
                i as int,
            ),
        decreases pages@.len() - i,
    {
        let page = chars_of(pages[i].as_str());
        assert(text::strings(pages@)[i as int] == page@);
        match find_in(&page, &needle, 0) {
            Some(_) => return Some(i),
            None => {},
        }
        i = i + 1;
    }
    None
}

/// Finds the first page, from zero on, that holds the phrase in whatever case. A
/// phrase without text is on no page.
pub fn find_page(pages: &Vec<String>, phrase: &str) -> (r: Option<usize>)
    ensures
        match r {
            Some(n) => n < pages@.len() && page_with(
                lowered(text::strings(pages@)),
                lowercase(text::trimmed(phrase@)),
                0,
            ) == Some(n as int),
            None => page_with(lowered(text::strings(pages@)), lowercase(text::trimmed(phrase@)), 0) is None,
        },
        r is Some ==> text::trimmed(phrase@).len() > 0,
        known_small(text::trimmed(phrase@)),
        forall|i: int| 0 <= i < pages@.len() ==> known_small(#[trigger] pages@[i]@),
{
    let cut = trim(&chars_of(phrase));
    assert(cut@.subrange(0, cut@.len() as int) =~= cut@);
    let cut = string_of(&cut, 0, cut.len());
    let needle = to_lowercase(cut.as_str());
    let mut low: Vec<String> = Vec::new();
    let mut i: usize = 0;
    while i < pages.len()
        invariant
            i <= pages@.len(),
            low@.len() == i,
            forall|j: int| 0 <= j < i ==> (#[trigger] low@[j])@ == lowercase(pages@[j]@),
            forall|j: int| 0 <= j < i ==> known_small(#[trigger] pages@[j]@),
        decreases pages@.len() - i,
    {
        low.push(to_lowercase(pages[i].as_str()));
        i = i + 1;
    }
    assert(text::strings(low@) =~= lowered(text::strings(pages@)));
    first_with(&low, needle.as_str())
}

// ---------------------------------------------------------------------------
// Context
// ---------------------------------------------------------------------------
/// How many bytes before a highlight are looked at for the start of its sentence.
pub const CTX_BEFORE: usize = 240;

/// How many bytes behind a highlight are looked at for the end of its sentence.
pub const CTX_AFTER: usize = 240;

/// The last boundary of characters at or before `i`.
pub open spec fn floor(bytes: Seq<u8>, i: int) -> int
    decreases i,
{
    if i <= 0 || is_char_boundary(bytes, i) {
        i
    } else {
        floor(bytes, i - 1)
    }
}

/// The first boundary of characters at or behind `i`.
pub open spec fn ceil(bytes: Seq<u8>, i: int) -> int
    decreases bytes.len() - i,
{
    if i >= bytes.len() || is_char_boundary(bytes, i) {
        i
    } else {
        ceil(bytes, i + 1)
    }
}

/// The smaller of the two.
pub open spec fn least(a: int, b: int) -> int {
    if a < b {
        a
    } else {
        b
    }
}

/// Moves an index back to a boundary of characters.
pub fn floor_boundary(s: &str, i: usize) -> (r: usize)
    ensures
        r == floor(s.spec_bytes(), least(i as int, s.spec_bytes().len() as int)),
        r <= i,
        is_char_boundary(s.spec_bytes(), r as int),
{
    let n = s.as_bytes().len();
    let mut k: usize = if i < n {
        i
    } else {
        n
    };
    proof {
        encode_utf8_valid_utf8(s@);
        is_char_boundary_start_end_of_seq(s.spec_bytes());
    }
    while k > 0 && !s.is_char_boundary(k)
        invariant
            k <= i,
            floor(s.spec_bytes(), k as int) == floor(
                s.spec_bytes(),
                least(i as int, s.spec_bytes().len() as int),
            ),
        decreases k,
    {
        k = k - 1;
    }
    k
}

/// Moves an index on to a boundary of characters.
pub fn ceil_boundary(s: &str, i: usize) -> (r: usize)
    ensures
        r == ceil(s.spec_bytes(), least(i as int, s.spec_bytes().len() as int)),
        least(i as int, s.spec_bytes().len() as int) <= r <= s.spec_bytes().len(),
        is_char_boundary(s.spec_bytes(), r as int),
{
    let n = s.as_bytes().len();
    let mut k: usize = if i < n {
        i
    } else {
        n
    };
    proof {
        encode_utf8_valid_utf8(s@);
        is_char_boundary_start_end_of_seq(s.spec_bytes());
    }
    while k < n && !s.is_char_boundary(k)
        invariant
            n == s.spec_bytes().len(),
            least(i as int, n as int) <= k <= n,
            ceil(s.spec_bytes(), k as int) == ceil(
                s.spec_bytes(),
                least(i as int, s.spec_bytes().len() as int),
            ),
        decreases n - k,
    {
        k = k + 1;
    }
    k
}

/// No boundary lies between an index and the one that it is moved on to.
pub proof fn ceil_is_nearest(bytes: Seq<u8>, i: int, b: int)
    requires
        i <= b <= bytes.len(),
        is_char_boundary(bytes, b),
    ensures
        i <= ceil(bytes, i) <= b,
    decreases b - i,
{
    if i < bytes.len() && !is_char_boundary(bytes, i) {
        ceil_is_nearest(bytes, i + 1, b);
    }
}

/// No boundary lies between an index and the one that it is moved back to.
pub proof fn floor_is_nearest(bytes: Seq<u8>, i: int, b: int)
    requires
        0 <= b <= i,
        is_char_boundary(bytes, b),
    ensures
        b <= floor(bytes, i) <= i,
    decreases i,
{
    if i > 0 && !is_char_boundary(bytes, i) {
        floor_is_nearest(bytes, i - 1, b);
    }
}

/// The byte ends a sentence.
pub open spec fn is_stop(b: u8) -> bool {
    b == 0x2e || b == 0x21 || b == 0x3f
}

/// Behind the last end of a sentence between `lo` and `hi`, or `lo`.
pub open spec fn sentence_start(bytes: Seq<u8>, lo: int, hi: int) -> int
    decreases hi - lo,
{
    if hi <= lo {
        lo
    } else if is_stop(bytes[hi - 1]) {
        hi
    } else {
        sentence_start(bytes, lo, hi - 1)
    }
}

/// Behind the first end of a sentence between `lo` and `hi`, or `hi`.
pub open spec fn sentence_end(bytes: Seq<u8>, lo: int, hi: int) -> int
    decreases hi - lo,
{
    if hi <= lo {
        hi
    } else if is_stop(bytes[lo]) {
        lo + 1
    } else {
        sentence_end(bytes, lo + 1, hi)
    }
}

/// The text between two boundaries of characters.
pub open spec fn part(bytes: Seq<u8>, from: int, to: int) -> Seq<char> {
    decode_utf8(bytes.subrange(from, to))
}

/// What stands before the highlight at `start`: its sentence up to it, within the
/// bytes that are looked at.
pub open spec fn text_before(bytes: Seq<u8>, start: int) -> Seq<char> {
    let back = if start > CTX_BEFORE {
        start - CTX_BEFORE
    } else {
        0
    };
    let lo = floor(bytes, least(back, bytes.len() as int));
    let from = sentence_start(bytes, lo, start);
    text::trimmed(part(bytes, ceil(bytes, least(from, bytes.len() as int)), start))
}

/// What stands behind the highlight that ends at `end`: the rest of its sentence,
/// within the bytes that are looked at.
pub open spec fn text_after(bytes: Seq<u8>, end: int) -> Seq<char> {
    let hi = ceil(bytes, least(end + CTX_AFTER, bytes.len() as int));
    let to = sentence_end(bytes, end, hi);
    text::trimmed(part(bytes, end, ceil(bytes, least(to, bytes.len() as int))))
}

/// The highlight from `start` to `end`, between what stands before and behind it.
pub open spec fn context_of(bytes: Seq<u8>, start: int, end: int) -> (
    Seq<char>,
    Seq<char>,
    Seq<char>,
) {
    (text_before(bytes, start), part(bytes, start, end), text_after(bytes, end))
}

/// Copies the text between two boundaries of characters.
fn copy_part(s: &str, from: usize, to: usize) -> (r: String)
    requires
        from <= to <= s.spec_bytes().len(),
        is_char_boundary(s.spec_bytes(), from as int),
        is_char_boundary(s.spec_bytes(), to as int),
    ensures
        r@ == part(s.spec_bytes(), from as int, to as int),
{
    let (head, _) = s.split_at(to);
    proof {
        encode_utf8_valid_utf8(s@);
        boundary_in_prefix(s.spec_bytes(), from as int, to as int);
        assert(head.spec_bytes() =~= s.spec_bytes().subrange(0, to as int));
    }
    let (_, middle) = head.split_at(from);
    proof {
        assert(middle.spec_bytes() =~= s.spec_bytes().subrange(from as int, to as int));
        encode_utf8_decode_utf8(middle@);
    }
    middle.to_owned()
}

/// A boundary of characters is one in every prefix that ends at a boundary.
proof fn boundary_in_prefix(bytes: Seq<u8>, from: int, to: int)
    requires
        valid_utf8(bytes),
        0 <= from <= to <= bytes.len(),
        is_char_boundary(bytes, from),
        is_char_boundary(bytes, to),
    ensures
        valid_utf8(bytes.subrange(0, to)),
        is_char_boundary(bytes.subrange(0, to), from),
{
    let head = bytes.subrange(0, to);
    valid_utf8_split(bytes, to);
    if from == to {
        is_char_boundary_start_end_of_seq(head);
    } else {
        is_char_boundary_iff_not_is_continuation_byte(bytes, from);
        is_char_boundary_iff_not_is_continuation_byte(head, from);
        assert(head[from] == bytes[from]);
    }
}

/// The text without white space around it.
fn trimmed_string(s: &str) -> (r: String)
    ensures
        r@ == text::trimmed(s@),
{
    let cut = trim(&chars_of(s));
    assert(cut@.subrange(0, cut@.len() as int) =~= cut@);
    string_of(&cut, 0, cut.len())
}

/// Cuts the highlight from `start` to `end` out of the text, with what stands before and
/// behind it.
pub fn context_at(text: &str, start: usize, end: usize) -> (r: (String, String, String))
    requires
        start <= end <= text.spec_bytes().len(),
        is_char_boundary(text.spec_bytes(), start as int),
        is_char_boundary(text.spec_bytes(), end as int),
    ensures
        (r.0@, r.1@, r.2@) == context_of(text.spec_bytes(), start as int, end as int),
{
    let ghost bytes = text.spec_bytes();
    let raw = text.as_bytes();
    let length = raw.len();
    proof {
        encode_utf8_valid_utf8(text@);
    }
    let lo = floor_boundary(
        text,
        if start > CTX_BEFORE {
            start - CTX_BEFORE
        } else {
            0
        },
    );
    let mut from: usize = start;
    while from > lo && !(raw[from - 1] == 0x2e || raw[from - 1] == 0x21 || raw[from - 1] == 0x3f)
        invariant
            lo <= from <= start <= bytes.len(),
            raw@ == bytes,
            sentence_start(bytes, lo as int, start as int) == sentence_start(
                bytes,
                lo as int,
                from as int,
            ),
        decreases from,
    {
        from = from - 1;
    }
    let b_start = ceil_boundary(text, from);
    let hi = ceil_boundary(
        text,
        if length - end > CTX_AFTER {
            end + CTX_AFTER
        } else {
            length
        },
    );
    let mut to: usize = end;
    while to < hi && !(raw[to as usize] == 0x2e || raw[to as usize] == 0x21 || raw[to as usize]
        == 0x3f)
        invariant
            end <= to <= hi <= bytes.len(),
            raw@ == bytes,
            sentence_end(bytes, end as int, hi as int) == sentence_end(
                bytes,
                to as int,
                hi as int,
            ),
        decreases hi - to,
    {
        to = to + 1;
    }
    let stop = if to < hi {
        to + 1
    } else {
        hi
    };
    let a_end = ceil_boundary(text, stop);
    proof {
        ceil_is_nearest(bytes, from as int, start as int);
    }
    let before = copy_part(text, b_start, start);
    let middle = copy_part(text, start, end);
    let after = copy_part(text, end, a_end);
    (trimmed_string(before.as_str()), middle, trimmed_string(after.as_str()))
}

/// A boundary of characters lies at most three bytes before any index.
pub(crate) proof fn boundary_near(bytes: Seq<u8>, i: int) -> (b: int)
    requires
        valid_utf8(bytes),
        0 <= i <= bytes.len(),
    ensures
        i - 3 <= b <= i,
        0 <= b,
        is_char_boundary(bytes, b),
    decreases bytes.len(),
{
    is_char_boundary_start_end_of_seq(bytes);
    if i <= 3 {
        0
    } else {
        let n = length_of_first_scalar(bytes);
        let rest = pop_first_scalar(bytes);
        let b = boundary_near(rest, i - n);
        b + n
    }
}

/// A boundary of characters lies at most three bytes behind any index.
pub(crate) proof fn boundary_ahead(bytes: Seq<u8>, i: int) -> (b: int)
    requires
        valid_utf8(bytes),
        0 <= i <= bytes.len(),
    ensures
        i <= b <= i + 3,
        b <= bytes.len(),
        is_char_boundary(bytes, b),
{
    is_char_boundary_start_end_of_seq(bytes);
    if i + 3 > bytes.len() {
        bytes.len() as int
    } else {
        let b = boundary_near(bytes, i + 3);
        b
    }
}

/// Sentences start and end within the bounds that they are looked for in.
proof fn sentences_stay(bytes: Seq<u8>, lo: int, hi: int)
    requires
        lo <= hi,
    ensures
        lo <= sentence_start(bytes, lo, hi) <= hi,
        lo <= sentence_end(bytes, lo, hi) <= hi,
    decreases hi - lo,
{
    if lo < hi {
        sentences_stay(bytes, lo, hi - 1);
        sentences_stay(bytes, lo + 1, hi);
    }
}

/// There are no more characters than bytes.
pub(crate) proof fn no_more_characters(s: Seq<char>)
    ensures
        s.len() <= encode_utf8(s).len(),
    decreases s.len(),
{
    if s.len() > 0 {
        no_more_characters(s.drop_first());
    }
}

/// Between two boundaries of characters there are no more characters than bytes.
proof fn part_is_short(bytes: Seq<u8>, from: int, to: int)
    requires
        valid_utf8(bytes),
        0 <= from <= to <= bytes.len(),
        is_char_boundary(bytes, from),
        is_char_boundary(bytes, to),
    ensures
        part(bytes, from, to).len() <= to - from,
{
    boundary_in_prefix(bytes, from, to);
    let head = bytes.subrange(0, to);
    valid_utf8_split(head, from);
    assert(head.subrange(from, to) =~= bytes.subrange(from, to));
    decode_utf8_encode_utf8(bytes.subrange(from, to));
    no_more_characters(part(bytes, from, to));
}

/// Dropping white space makes no text longer.
proof fn trimmed_is_short(s: Seq<char>)
    ensures
        text::trimmed(s).len() <= s.len(),
{
    text::skipping_is_short(s, text::blank());
    text::dropping_is_short(text::skip_while(s, text::blank()), text::blank());
}

/// The context of a highlight is bounded: what stands before and behind it has at most
/// as many characters as bytes are looked at, and three more where those do not end at
/// a character.
pub proof fn context_is_bounded(bytes: Seq<u8>, start: int, end: int)
    requires
        valid_utf8(bytes),
        0 <= start <= end <= bytes.len(),
        is_char_boundary(bytes, start),
        is_char_boundary(bytes, end),
    ensures
        context_of(bytes, start, end).0.len() <= CTX_BEFORE + 3,
        context_of(bytes, start, end).1.len() <= end - start,
        context_of(bytes, start, end).2.len() <= CTX_AFTER + 3,
{
    is_char_boundary_start_end_of_seq(bytes);
    let len = bytes.len() as int;
    let back = if start > CTX_BEFORE {
        start - CTX_BEFORE
    } else {
        0
    };
    let near = boundary_near(bytes, back);
    floor_is_nearest(bytes, back, near);
    let lo = floor(bytes, back);
    sentences_stay(bytes, lo, start);
    let from = sentence_start(bytes, lo, start);
    ceil_is_nearest(bytes, from, start);
    ceil_is_boundary(bytes, from);
    part_is_short(bytes, ceil(bytes, from), start);
    trimmed_is_short(part(bytes, ceil(bytes, from), start));
    part_is_short(bytes, start, end);
    let far = least(end + CTX_AFTER, len);
    let beyond = boundary_ahead(bytes, far);
    ceil_is_nearest(bytes, far, beyond);
    ceil_is_boundary(bytes, far);
    let hi = ceil(bytes, far);
    sentences_stay(bytes, end, hi);
    let to = sentence_end(bytes, end, hi);
    ceil_is_nearest(bytes, to, hi);
    ceil_is_boundary(bytes, to);
    part_is_short(bytes, end, ceil(bytes, to));
    trimmed_is_short(part(bytes, end, ceil(bytes, to)));
}

/// An index is moved on to a boundary.
pub(crate) proof fn ceil_is_boundary(bytes: Seq<u8>, i: int)
    requires
        valid_utf8(bytes),
        0 <= i <= bytes.len(),
    ensures
        is_char_boundary(bytes, ceil(bytes, i)),
    decreases bytes.len() - i,
{
    is_char_boundary_start_end_of_seq(bytes);
    if i < bytes.len() && !is_char_boundary(bytes, i) {
        ceil_is_boundary(bytes, i + 1);
    }
}

// ---------------------------------------------------------------------------
// The highlight in its page
// ---------------------------------------------------------------------------
/// The character at which the place `k` of the lower case lies, from `i` on, where the
/// lower case of each character has that many characters.
pub open spec fn start_char(widths: Seq<usize>, k: int, i: int) -> int
    decreases widths.len() - i,
{
    if i < 0 || i >= widths.len() || widths[i] > k {
        i
    } else {
        start_char(widths, k - widths[i], i + 1)
    }
}

/// The first character, from `i` on, that lies at the place `k` of the lower case or
/// behind it.
pub open spec fn end_char(widths: Seq<usize>, k: int, i: int) -> int
    decreases widths.len() - i,
{
    if i < 0 || i >= widths.len() || k <= 0 {
        i
    } else {
        end_char(widths, k - widths[i], i + 1)
    }
}

/// The characters of the text, from the first to behind the last, whose lower case
/// holds the needle first.
pub open spec fn found_span(widths: Seq<usize>, low: Seq<char>, needle: Seq<char>) -> Option<
    (int, int),
> {
    match text::find(low, needle) {
        Some(k) => {
            let from = start_char(widths, k, 0);
            let to = end_char(widths, k + needle.len(), 0);
            Some(
                (
                    from,
                    if to < from {
                        from
                    } else {
                        to
                    },
                ),
            )
        },
        None => None,
    }
}

/// How many characters the lower case of each character has.
pub open spec fn widths_of(text: Seq<char>) -> Seq<usize> {
    Seq::new(text.len(), |i: int| lowercase(seq![text[i]]).len() as usize)
}

/// The characters of the text, from the first to behind the last, in which the highlight
/// is found: their lower case holds that of the highlight first.
pub open spec fn highlight_span(text: Seq<char>, highlight: Seq<char>) -> Option<(int, int)> {
    let cut = text::trimmed(highlight);
    if cut.len() == 0 {
        None
    } else {
        found_span(widths_of(text), lowercase(text), lowercase(cut))
    }
}

/// The number of bytes before a character.
pub open spec fn byte_at(text: Seq<char>, i: int) -> int {
    encode_utf8(text.take(i)).len() as int
}

/// What [`context`] tells of a highlight that was found in these characters.
pub open spec fn context_from(text: Seq<char>, span: Option<(int, int)>) -> Option<
    (Seq<char>, Seq<char>, Seq<char>),
> {
    match span {
        Some((from, to)) => Some(
            context_of(encode_utf8(text), byte_at(text, from), byte_at(text, to)),
        ),
        None => None,
    }
}

/// The three texts of a context.
pub open spec fn context_view(c: Option<(String, String, String)>) -> Option<
    (Seq<char>, Seq<char>, Seq<char>),
> {
    match c {
        Some(parts) => Some((parts.0@, parts.1@, parts.2@)),
        None => None,
    }
}

/// Encoding goes character by character.
proof fn encode_concat(a: Seq<char>, b: Seq<char>)
    ensures
        encode_utf8(a + b) == encode_utf8(a) + encode_utf8(b),
    decreases a.len(),
{
    if a.len() == 0 {
        assert(a + b =~= b);
        assert(encode_utf8(a) + encode_utf8(b) =~= encode_utf8(b));
    } else {
        encode_concat(a.drop_first(), b);
        assert((a + b).drop_first() =~= a.drop_first() + b);
        assert(encode_utf8(a + b) =~= encode_utf8(a) + encode_utf8(b));
    }
}

/// The bytes before a character end at a boundary of characters.
pub(crate) proof fn bytes_before(text: Seq<char>, i: int)
    requires
        0 <= i <= text.len(),
    ensures
        0 <= byte_at(text, i) <= encode_utf8(text).len(),
        is_char_boundary(encode_utf8(text), byte_at(text, i)),
    decreases text.len(),
{
    let bytes = encode_utf8(text);
    encode_utf8_valid_utf8(text);
    is_char_boundary_start_end_of_seq(bytes);
    assert(text =~= text.take(i) + text.skip(i));
    encode_concat(text.take(i), text.skip(i));
    if i > 0 {
        let rest = text.drop_first();
        bytes_before(rest, i - 1);
        assert(text.take(i).drop_first() =~= rest.take(i - 1));
        encode_utf8_first_scalar(text);
        let first = encode_scalar(text[0] as u32);
        assert(bytes == first + encode_utf8(rest));
        assert(pop_first_scalar(bytes) =~= encode_utf8(rest));
        assert(byte_at(text, i) == first.len() + byte_at(rest, i - 1));
        assert(is_char_boundary(pop_first_scalar(bytes), byte_at(text, i) - first.len()));
    }
}

/// Between the bytes before two characters there stand the characters between them.
pub(crate) proof fn characters_between(text: Seq<char>, from: int, to: int)
    requires
        0 <= from <= to <= text.len(),
    ensures
        byte_at(text, from) <= byte_at(text, to),
        part(encode_utf8(text), byte_at(text, from), byte_at(text, to)) == text.subrange(from, to),
{
    let middle = text.subrange(from, to);
    assert(text =~= text.take(to) + text.skip(to));
    assert(text.take(to) =~= text.take(from) + middle);
    encode_concat(text.take(to), text.skip(to));
    encode_concat(text.take(from), middle);
    assert(encode_utf8(text).subrange(byte_at(text, from), byte_at(text, to)) =~= encode_utf8(
        middle,
    ));
    encode_utf8_decode_utf8(middle);
}

/// What is found starts within the text.
proof fn starts_stay(widths: Seq<usize>, k: int, i: int)
    requires
        0 <= i <= widths.len(),
    ensures
        i <= start_char(widths, k, i) <= widths.len(),
    decreases widths.len() - i,
{
    if i < widths.len() && widths[i] <= k {
        starts_stay(widths, k - widths[i], i + 1);
    }
}

/// What is found ends within the text.
proof fn ends_stay(widths: Seq<usize>, k: int, i: int)
    requires
        0 <= i <= widths.len(),
    ensures
        i <= end_char(widths, k, i) <= widths.len(),
    decreases widths.len() - i,
{
    if i < widths.len() && k > 0 {
        ends_stay(widths, k - widths[i], i + 1);
    }
}

/// Where the lower case of each character is one character, places are characters.
proof fn single_widths(widths: Seq<usize>, k: int, i: int)
    requires
        0 <= i,
        0 <= k,
        i + k <= widths.len(),
        forall|j: int| i <= j < i + k ==> #[trigger] widths[j] == 1,
    ensures
        i + k < widths.len() && widths[i + k] == 1 ==> start_char(widths, k, i) == i + k,
        end_char(widths, k, i) == i + k,
    decreases k,
{
    if k > 0 {
        assert(widths[i] == 1);
        single_widths(widths, k - 1, i + 1);
    }
}

/// Finds the characters of the text whose lower case holds the needle, and cuts their
/// context out of the text. `low` is the lower case, and `widths` tells how many of its
/// characters each character of the text has.
pub fn context_in(text: &str, widths: &Vec<usize>, low: &str, needle: &str) -> (r: Option<
    (String, String, String),
>)
    requires
        widths@.len() == text@.len(),
    ensures
        context_view(r) == context_from(text@, found_span(widths@, low@, needle@)),
        match found_span(widths@, low@, needle@) {
            Some((from, to)) => 0 <= from <= to <= text@.len() && r is Some && r->Some_0.1@
                == text@.subrange(from, to),
            None => r is None,
        },
{
    let v = chars_of(text);
    let place = match find_in(&chars_of(low), &chars_of(needle), 0) {
        Some(k) => k,
        None => return None,
    };
    let n = chars_of(needle).len();
    proof {
        text::find_from_is_least(low@, needle@, 0);
        starts_stay(widths@, place as int, 0);
        ends_stay(widths@, place + n, 0);
    }
    let mut from: usize = 0;
    let mut left: usize = place;
    while from < widths.len() && widths[from] <= left
        invariant
            from <= widths@.len(),
            start_char(widths@, left as int, from as int) == start_char(widths@, place as int, 0),
        decreases widths@.len() - from,
    {
        left = left - widths[from];
        from = from + 1;
    }
    let mut to: usize = 0;
    let mut more: usize = place + n;
    while to < widths.len() && more > 0
        invariant
            to <= widths@.len(),
            end_char(widths@, more as int, to as int) == end_char(widths@, place + n, 0),
        decreases widths@.len() - to,
    {
        if widths[to] >= more {
            assert(end_char(widths@, more - widths@[to as int], to + 1) == to + 1);
            more = 0;
        } else {
            more = more - widths[to];
        }
        to = to + 1;
    }
    if to < from {
        to = from;
    }
    assert(v@.subrange(0, from as int) =~= text@.take(from as int));
    assert(v@.subrange(0, to as int) =~= text@.take(to as int));
    let start = string_of(&v, 0, from).as_str().as_bytes().len();
    let end = string_of(&v, 0, to).as_str().as_bytes().len();
    proof {
        bytes_before(text@, from as int);
        bytes_before(text@, to as int);
        characters_between(text@, from as int, to as int);
    }
    Some(context_at(text, start, end))
}

/// How many characters the lower case of each character has.
fn find_widths(text: &str) -> (r: Vec<usize>)
    ensures
        r@ == widths_of(text@),
        is_ascii_chars(text@) ==> forall|i: int| 0 <= i < r@.len() ==> #[trigger] r@[i] == 1,
{
    let v = chars_of(text);
    let mut widths: Vec<usize> = Vec::new();
    let mut i: usize = 0;
    while i < v.len()
        invariant
            i <= v@.len(),
            v@ == text@,
            widths@ =~= widths_of(text@).take(i as int),
            is_ascii_chars(text@) ==> forall|j: int| 0 <= j < i ==> #[trigger] widths@[j] == 1,
        decreases v@.len() - i,
    {
        let one = string_of(&v, i, i + 1);
        assert(one@ =~= seq![text@[i as int]]);
        assert(is_ascii_chars(text@) ==> is_ascii_chars(one@));
        let low = to_lowercase(one.as_str());
        widths.push(low.as_str().unicode_len());
        i = i + 1;
    }
    widths
}

/// Finds the highlight in the text, in whatever case, and cuts it out as it stands there,
/// with the sentences around it. There is no context for a highlight without text, and
/// none where its text is not found. In a text of ASCII it is found where the text, with
/// its letters made small, holds it first.
pub fn context(text: &str, highlight: &str) -> (r: Option<(String, String, String)>)
    ensures
        context_view(r) == context_from(text@, highlight_span(text@, highlight@)),
        match highlight_span(text@, highlight@) {
            Some((from, to)) => 0 <= from <= to <= text@.len() && r is Some && r->Some_0.1@
                == text@.subrange(from, to),
            None => r is None,
        },
        is_ascii_chars(text@) && is_ascii_chars(text::trimmed(highlight@)) ==> highlight_span(
            text@,
            highlight@,
        ) == ascii_span(text@, text::trimmed(highlight@)),
{
    let cut = trimmed_string(highlight);
    if cut.as_str().is_empty() {
        return None;
    }
    let low = to_lowercase(text);
    let needle = to_lowercase(cut.as_str());
    let widths = find_widths(text);
    proof {
        if is_ascii_chars(text@) && is_ascii_chars(cut@) {
            text::find_from_is_least(low@, needle@, 0);
            if let Some(k) = text::find(low@, needle@) {
                single_widths(widths@, k, 0);
                single_widths(widths@, k + needle@.len(), 0);
            }
        }
    }
    context_in(text, &widths, low.as_str(), needle.as_str())
}

/// The characters in which a highlight is found in a text of ASCII.
pub open spec fn ascii_span(text: Seq<char>, cut: Seq<char>) -> Option<(int, int)> {
    if cut.len() == 0 {
        None
    } else {
        match text::find(all_small(text), all_small(cut)) {
            Some(k) => Some((k, k + cut.len())),
            None => None,
        }
    }
}

// ---------------------------------------------------------------------------
// The highlight in the document
// ---------------------------------------------------------------------------
/// The page that a highlight was found on, with its context there.
pub struct Found {
    pub page: usize,
    pub context: Option<(String, String, String)>,
}

/// The page that a highlight was found on, with its context there.
#[verifier::ext_equal]
pub struct FoundView {
    pub page: nat,
    pub context: Option<(Seq<char>, Seq<char>, Seq<char>)>,
}

impl View for Found {
    type V = FoundView;

    open spec fn view(&self) -> FoundView {
        FoundView { page: self.page as nat, context: context_view(self.context) }
    }
}

/// What [`locate`] tells.
pub open spec fn found_view(found: Option<Found>) -> Option<FoundView> {
    match found {
        Some(f) => Some(f@),
        None => None,
    }
}

/// The first page that holds the highlight.
pub open spec fn highlight_page(pages: Seq<Seq<char>>, highlight: Seq<char>) -> Option<int> {
    page_with(lowered(pages), lowercase(text::trimmed(highlight)), 0)
}

/// Where the highlight is found in the document.
pub open spec fn located(pages: Seq<Seq<char>>, highlight: Seq<char>) -> Option<FoundView> {
    match highlight_page(pages, highlight) {
        Some(p) => Some(
            FoundView {
                page: p as nat,
                context: context_from(pages[p], highlight_span(pages[p], highlight)),
            },
        ),
        None => None,
    }
}

/// A page that is found holds the phrase.
pub(crate) proof fn page_holds(pages: Seq<Seq<char>>, phrase: Seq<char>, n: int)
    requires
        page_with(pages, phrase, n) is Some,
    ensures
        n <= page_with(pages, phrase, n)->Some_0 < pages.len(),
        text::find(pages[page_with(pages, phrase, n)->Some_0], phrase) is Some,
        phrase.len() > 0,
    decreases pages.len() - n,
{
    if text::find(pages[n], phrase) is None {
        page_holds(pages, phrase, n + 1);
    }
}

/// Finds a highlight in the document. On the page that it is found on it has a
/// context.
pub fn locate(pages: &Vec<String>, highlight: &str) -> (r: Option<Found>)
    ensures
        found_view(r) == located(text::strings(pages@), highlight@),
        match r {
            Some(found) => found.page < pages@.len() <= usize::MAX && found.context is Some,
            None => true,
        },
{
    match find_page(pages, highlight) {
        Some(page) => {
            let context = context(pages[page].as_str(), highlight);
            assert(pages.len() <= usize::MAX);
            proof {
                let low = lowered(text::strings(pages@));
                page_holds(low, lowercase(text::trimmed(highlight@)), 0);
            }
            Some(Found { page, context })
        },
        None => None,
    }
}

// ---------------------------------------------------------------------------
// The fixed parts of the source
// ---------------------------------------------------------------------------
/// The colour of the kicker and the bar of a highlight.
pub const BLUE: &'static str = "rgb(54, 110, 190)";

/// Up to the title.
pub const LINKED_TITLE: &'static str = "#set document(title: \"";

/// From the title to the author.
pub const LINKED_AUTHOR: &'static str = "\", author: \"";

/// From the author to the width of the page.
pub const LINKED_WIDTH: &'static str = "\")\n#set page(width: ";

/// From the width of the page to its height.
pub const LINKED_HEIGHT: &'static str = "pt, height: ";

/// From the height of the page to the title on the cover.
pub const LINKED_STYLE: &'static str = r##"pt, margin: (x: 7mm, y: 8mm), fill: rgb(250, 249, 246))
#set text(font: "Newsreader", size: 11pt, fill: rgb(26, 26, 26), lang: "en", hyphenate: false)
#set par(leading: 0.62em, spacing: 0.7em, justify: false)
#set heading(outlined: true)
#let kick(t, c) = text(font: "Hanken Grotesk", size: 7pt, weight: "semibold", tracking: 2pt, fill: c)[#upper(t)]
#show heading.where(level: 2): it => block(above: 20pt, below: 6pt, width: 100%)[#it.body]
#align(center + horizon)[
  #text(font: "Hanken Grotesk", size: 7.5pt, weight: "semibold", tracking: 3pt, fill: rgb(120,120,120))[DIGEST]
  #v(14pt)
  #text(font: "Newsreader", size: 20pt, weight: "semibold")["##;

/// From the title to the author on the cover.
pub const LINKED_BY: &'static str = r##"]
  #v(6pt)
  #text(font: "Newsreader", size: 12pt, style: "italic", fill: rgb(80,80,80))["##;

/// From the author to the counts.
pub const LINKED_COUNTS: &'static str = r##"]
  #v(14pt)
  #line(length: 38%, stroke: 0.5pt + rgb(180,180,180))
  #v(10pt)
  #text(font: "Hanken Grotesk", size: 8pt, fill: rgb(100,100,100))["##;

/// Behind the date range.
pub const LINKED_COVER_END: &'static str = r##"]
]
#pagebreak()
"##;

/// Up to the number of a highlight's page.
pub const PASSAGE_PAGE: &'static str = "#heading(level: 2, outlined: true)[#kick(\"page ";

/// From the number of the page to the colour of the kicker.
pub const PASSAGE_KICKER: &'static str = "\", ";

/// From the colour of the kicker to the passage.
pub const PASSAGE_HEAD_END: &'static str = ")]\n";

/// Up to the colour of the bar.
pub const PASSAGE_BAR: &'static str = "#block(width: 100%, inset: (left: 11pt, right: 4pt, y: 4pt), stroke: (left: 3pt + ";

/// From the colour of the bar to what stands before the highlight.
pub const PASSAGE_BEFORE: &'static str = r##"))[
#par(leading: 0.66em)[#text(font: "Newsreader", size: 11.5pt, fill: rgb(70,70,70))["##;

/// From what stands before the highlight to its colour.
pub const PASSAGE_WASH: &'static str = " #highlight(fill: rgb(";

/// From the colour of the highlight to its text.
pub const PASSAGE_TEXT: &'static str = "), extent: 1pt)[#text(fill: rgb(26,26,26))[";

/// From the text of the highlight to what stands behind it.
pub const PASSAGE_AFTER: &'static str = "]] ";

/// Behind what stands behind the highlight.
pub const PASSAGE_END: &'static str = "]]]\n";

/// From the colour of the bar to the colour of a highlight without context.
pub const BARE_WASH: &'static str = "))[#par(leading: 0.7em)[#text(font: \"Newsreader\", size: 12pt)[#highlight(fill: rgb(";

/// From the colour of a highlight without context to its text.
pub const BARE_TEXT: &'static str = "), extent: 1pt)[";

/// Behind a highlight without context.
pub const BARE_END: &'static str = "]]]]\n";

/// Behind every highlight.
pub const PASSAGE_RULE: &'static str = "#v(8pt)\n#line(length: 22%, stroke: 0.4pt + rgb(200,200,200))\n#v(2pt)\n";

/// The path of an image up to its number.
pub const SKETCH_FRONT: &'static str = "/assets/note-";

/// Up to the number of a note's page.
pub const SKETCH_PAGE: &'static str = "#heading(level: 3, outlined: true)[#kick(\"page ";

/// From the number of the page to the path of the image.
pub const SKETCH_IMAGE: &'static str = r##" · note", rgb(120,120,120))]
#block(stroke: 0.5pt + rgb(200,200,200), inset: 5pt, radius: 2pt)[#image(""##;

/// Behind the path of the image.
pub const SKETCH_END: &'static str = "\", width: 100%)]\n#v(8pt)\n";

// ---------------------------------------------------------------------------
// The source
// ---------------------------------------------------------------------------
/// The source of a document, and its images with the paths under which the source
/// names them.
pub type TypstDoc = (String, Vec<(String, Vec<u8>)>);

/// The sides of the device's page in points, as the source writes them.
pub struct Device {
    pub width_pt: String,
    pub height_pt: String,
}

/// The date range on the cover: none where it is not known.
pub open spec fn range_shown(range: Seq<char>) -> Seq<char> {
    if range.len() == 0 {
        Seq::empty()
    } else {
        " --- "@ + markup::content(range)
    }
}

/// The source up to the title on the cover.
pub open spec fn opening(meta: MetaView, width: Seq<char>, height: Seq<char>) -> Seq<char> {
    LINKED_TITLE@ + markup::literal(meta.title) + LINKED_AUTHOR@ + markup::literal(meta.author)
        + LINKED_WIDTH@ + width + LINKED_HEIGHT@ + height + LINKED_STYLE@
}

/// The source from the title on the cover to its end.
pub open spec fn cover_shown(meta: MetaView) -> Seq<char> {
    markup::content(meta.title) + LINKED_BY@ + markup::content(meta.author) + LINKED_COUNTS@
        + text::decimal(meta.n_highlights) + " "@ + digest_doc::counted_word(
        meta.n_highlights,
        "highlight",
        "highlights",
    ) + " · "@ + text::decimal(meta.n_notes) + " "@ + digest_doc::counted_word(
        meta.n_notes,
        "note",
        "notes",
    ) + range_shown(meta.date_range) + LINKED_COVER_END@
}

/// The source up to the first mark.
pub open spec fn front(meta: MetaView, width: Seq<char>, height: Seq<char>) -> Seq<char> {
    opening(meta, width, height) + cover_shown(meta)
}

/// The highlight in its context.
pub open spec fn passage(
    context: (Seq<char>, Seq<char>, Seq<char>),
    color: (u8, u8, u8),
) -> Seq<char> {
    PASSAGE_BAR@ + BLUE@ + PASSAGE_BEFORE@ + markup::content(context.0) + PASSAGE_WASH@ + digest_doc::triple(color)
        + PASSAGE_TEXT@ + markup::content(context.1) + PASSAGE_AFTER@ + markup::content(context.2) + PASSAGE_END@
}

/// The highlight alone, in quotes.
pub open spec fn bare(text: Seq<char>, color: (u8, u8, u8)) -> Seq<char> {
    PASSAGE_BAR@ + BLUE@ + BARE_WASH@ + digest_doc::triple(color) + BARE_TEXT@ + "\u{201C}"@ + markup::content(text)
        + "\u{201D}"@ + BARE_END@
}

/// The block of a highlight: under the number of the page that it was found on, with
/// its context, or under that of its page in the notebook.
pub open spec fn passage_block(
    page: nat,
    text: Seq<char>,
    color: (u8, u8, u8),
    found: Option<FoundView>,
) -> Seq<char> {
    let shown = match found {
        Some(f) => f.page,
        None => page,
    };
    let body = match found {
        Some(FoundView { context: Some(context), .. }) => passage(context, color),
        _ => bare(text, color),
    };
    PASSAGE_PAGE@ + text::decimal(shown + 1) + PASSAGE_KICKER@ + BLUE@ + PASSAGE_HEAD_END@ + body
        + PASSAGE_RULE@
}

/// The block of a note or an inserted page.
pub open spec fn sketch_block(page: nat, path: Seq<char>) -> Seq<char> {
    SKETCH_PAGE@ + text::decimal(page + 1) + SKETCH_IMAGE@ + path + SKETCH_END@
}

/// The block of a mark that has `n` images before it.
pub open spec fn mark_block(mark: MarkView, found: Option<FoundView>, n: nat) -> Seq<char> {
    match mark {
        MarkView::Highlight { page, text, color } => passage_block(
            page,
            text,
            theme::rgb_of(color),
            found,
        ),
        MarkView::Note { page, .. } => sketch_block(page, digest_doc::image_path(SKETCH_FRONT, n)),
        MarkView::InsertedPage { after_page, .. } => sketch_block(after_page, digest_doc::image_path(SKETCH_FRONT, n)),
    }
}

/// The blocks of the marks, one after the other.
pub open spec fn mark_blocks(marks: Seq<MarkView>, found: Seq<Option<FoundView>>) -> Seq<char>
    decreases marks.len(),
{
    if marks.len() == 0 {
        Seq::empty()
    } else {
        let before = marks.drop_last();
        mark_blocks(before, found) + mark_block(
            marks.last(),
            found[marks.len() - 1],
            digest_doc::images(SKETCH_FRONT, before).len(),
        )
    }
}

/// The source of the digest.
pub open spec fn linked_source(
    meta: MetaView,
    marks: Seq<MarkView>,
    found: Seq<Option<FoundView>>,
    width: Seq<char>,
    height: Seq<char>,
) -> Seq<char> {
    front(meta, width, height) + mark_blocks(marks, found)
}

/// Appends the source up to the title on the cover.
fn append_opening(to: &mut String, meta: &DigestMeta, device: &Device)
    ensures
        final(to)@ == old(to)@ + opening(meta@, device.width_pt@, device.height_pt@),
{
    let ghost before = to@;
    to.append(LINKED_TITLE);
    to.append(esc(meta.title.as_str()).as_str());
    to.append(LINKED_AUTHOR);
    to.append(esc(meta.author.as_str()).as_str());
    to.append(LINKED_WIDTH);
    to.append(device.width_pt.as_str());
    to.append(LINKED_HEIGHT);
    to.append(device.height_pt.as_str());
    to.append(LINKED_STYLE);
    assert(to@ =~= before + opening(meta@, device.width_pt@, device.height_pt@));
}

/// Appends the source from the title on the cover to its end.
fn append_cover(to: &mut String, meta: &DigestMeta)
    ensures
        final(to)@ == old(to)@ + cover_shown(meta@),
{
    let ghost before = to@;
    to.append(esc_markup(meta.title.as_str()).as_str());
    to.append(LINKED_BY);
    to.append(esc_markup(meta.author.as_str()).as_str());
    to.append(LINKED_COUNTS);
    append_count(to, meta.n_highlights, "highlight", "highlights");
    to.append(" · ");
    append_count(to, meta.n_notes, "note", "notes");
    let ghost counted = to@;
    if !meta.date_range.as_str().is_empty() {
        to.append(" --- ");
        to.append(esc_markup(meta.date_range.as_str()).as_str());
    }
    assert(to@ =~= counted + range_shown(meta.date_range@));
    to.append(LINKED_COVER_END);
    assert(to@ =~= before + cover_shown(meta@));
}

/// Appends the highlight in its context.
fn append_passage(to: &mut String, context: &(String, String, String), color: (u8, u8, u8))
    ensures
        final(to)@ == old(to)@ + passage((context.0@, context.1@, context.2@), color),
{
    let ghost before = to@;
    to.append(PASSAGE_BAR);
    to.append(BLUE);
    to.append(PASSAGE_BEFORE);
    to.append(esc_markup(context.0.as_str()).as_str());
    to.append(PASSAGE_WASH);
    append_triple(to, color);
    to.append(PASSAGE_TEXT);
    to.append(esc_markup(context.1.as_str()).as_str());
    to.append(PASSAGE_AFTER);
    to.append(esc_markup(context.2.as_str()).as_str());
    to.append(PASSAGE_END);
    assert(to@ =~= before + passage((context.0@, context.1@, context.2@), color));
}

/// Appends the highlight alone.
fn append_bare(to: &mut String, text: &str, color: (u8, u8, u8))
    ensures
        final(to)@ == old(to)@ + bare(text@, color),
{
    let ghost before = to@;
    to.append(PASSAGE_BAR);
    to.append(BLUE);
    to.append(BARE_WASH);
    append_triple(to, color);
    to.append(BARE_TEXT);
    to.append("\u{201C}");
    to.append(esc_markup(text).as_str());
    to.append("\u{201D}");
    to.append(BARE_END);
    assert(to@ =~= before + bare(text@, color));
}

/// Appends the block of a highlight.
#[verifier::spinoff_prover]
#[verifier::rlimit(30)]
fn append_highlight(
    to: &mut String,
    page: usize,
    text: &str,
    color: (u8, u8, u8),
    found: &Option<Found>,
)
    requires
        page < usize::MAX,
        match found {
            Some(f) => f.page < usize::MAX,
            None => true,
        },
    ensures
        final(to)@ == old(to)@ + passage_block(page as nat, text@, color, found_view(*found)),
{
    let ghost before = to@;
    let shown = match found {
        Some(f) => f.page,
        None => page,
    };
    to.append(PASSAGE_PAGE);
    append_decimal(to, (shown + 1) as u64);
    to.append(PASSAGE_KICKER);
    to.append(BLUE);
    to.append(PASSAGE_HEAD_END);
    match found {
        Some(f) => match &f.context {
            Some(context) => append_passage(to, context, color),
            None => append_bare(to, text, color),
        },
        None => append_bare(to, text, color),
    }
    to.append(PASSAGE_RULE);
    assert(to@ =~= before + passage_block(page as nat, text@, color, found_view(*found)));
}

/// Appends the block of a note or an inserted page.
fn append_sketch(to: &mut String, page: usize, path: &str)
    requires
        page < usize::MAX,
    ensures
        final(to)@ == old(to)@ + sketch_block(page as nat, path@),
{
    let ghost before = to@;
    to.append(SKETCH_PAGE);
    append_decimal(to, (page + 1) as u64);
    to.append(SKETCH_IMAGE);
    to.append(path);
    to.append(SKETCH_END);
    assert(to@ =~= before + sketch_block(page as nat, path@));
}

/// What was found of each mark.
pub open spec fn found_views(found: Seq<Option<Found>>) -> Seq<Option<FoundView>> {
    Seq::new(found.len(), |i: int| found_view(found[i]))
}

/// Builds the source of the digest from the marks and from what was found of each of
/// them in the document.
pub fn build_from(
    meta: &DigestMeta,
    marks: &[Mark],
    found: &Vec<Option<Found>>,
    device: &Device,
) -> (r: TypstDoc)
    requires
        found@.len() == marks@.len(),
        forall|i: int| 0 <= i < marks@.len() ==> digest_doc::numbered(#[trigger] marks@[i]),
        forall|i: int|
            0 <= i < found@.len() ==> match #[trigger] found@[i] {
                Some(f) => f.page < usize::MAX,
                None => true,
            },
    ensures
        r.0@ == linked_source(
            meta@,
            extract::mark_views(marks@),
            found_views(found@),
            device.width_pt@,
            device.height_pt@,
        ),
        digest_doc::image_views(r.1@) == digest_doc::images(SKETCH_FRONT, extract::mark_views(marks@)),
{
    let ghost views = extract::mark_views(marks@);
    let ghost places = found_views(found@);
    let mut source = String::new();
    let mut assets: Vec<(String, Vec<u8>)> = Vec::new();
    append_opening(&mut source, meta, device);
    append_cover(&mut source, meta);
    let ghost start = source@;
    assert(start =~= front(meta@, device.width_pt@, device.height_pt@));
    assert(views.take(0) =~= Seq::empty());
    assert(source@ =~= start + mark_blocks(views.take(0), places));
    assert(digest_doc::image_views(assets@) =~= digest_doc::images(SKETCH_FRONT, views.take(0)));
    let mut i: usize = 0;
    while i < marks.len()
        invariant
            i <= marks@.len(),
            found@.len() == marks@.len(),
            views == extract::mark_views(marks@),
            places == found_views(found@),
            forall|i: int| 0 <= i < marks@.len() ==> digest_doc::numbered(#[trigger] marks@[i]),
            forall|i: int|
                0 <= i < found@.len() ==> match #[trigger] found@[i] {
                    Some(f) => f.page < usize::MAX,
                    None => true,
                },
            source@ == start + mark_blocks(views.take(i as int), places),
            digest_doc::image_views(assets@) == digest_doc::images(SKETCH_FRONT, views.take(i as int)),
        decreases marks@.len() - i,
    {
        proof {
            assert(views.take(i + 1).drop_last() =~= views.take(i as int));
            assert(views.take(i + 1).last() == marks@[i as int]@);
            assert(places[i as int] == found_view(found@[i as int]));
            assert(digest_doc::image_views(assets@).len() == assets@.len());
        }
        match &marks[i] {
            Mark::Highlight { page, text, color } => {
                append_highlight(&mut source, *page, text.as_str(), pen_rgb(*color), &found[i]);
            },
            Mark::Note { page, png } => {
                let path = path_of(SKETCH_FRONT, assets.len());
                append_sketch(&mut source, *page, path.as_str());
                assets.push((path, png.clone()));
                assert(digest_doc::image_views(assets@) =~= digest_doc::images(SKETCH_FRONT, views.take(i + 1)));
            },
            Mark::InsertedPage { after_page, png } => {
                let path = path_of(SKETCH_FRONT, assets.len());
                append_sketch(&mut source, *after_page, path.as_str());
                assets.push((path, png.clone()));
                assert(digest_doc::image_views(assets@) =~= digest_doc::images(SKETCH_FRONT, views.take(i + 1)));
            },
        }
        assert(source@ =~= start + mark_blocks(views.take(i + 1), places));
        i = i + 1;
    }
    assert(views.take(views.len() as int) =~= views);
    (source, assets)
}

/// Where each mark is found in the document: a highlight by its text, the others
/// nowhere.
pub open spec fn marks_located(pages: Seq<Seq<char>>, marks: Seq<MarkView>) -> Seq<
    Option<FoundView>,
> {
    Seq::new(
        marks.len(),
        |i: int|
            match marks[i] {
                MarkView::Highlight { text, .. } => located(pages, text),
                _ => None,
            },
    )
}

/// Builds the source of the digest: every highlight is looked for in the pages of the
/// document and shown in its context.
pub fn build_linked(
    meta: &DigestMeta,
    marks: &[Mark],
    doc_pages: &Vec<String>,
    device: &Device,
) -> (r: TypstDoc)
    requires
        forall|i: int| 0 <= i < marks@.len() ==> digest_doc::numbered(#[trigger] marks@[i]),
    ensures
        r.0@ == linked_source(
            meta@,
            extract::mark_views(marks@),
            marks_located(text::strings(doc_pages@), extract::mark_views(marks@)),
            device.width_pt@,
            device.height_pt@,
        ),
        digest_doc::image_views(r.1@) == digest_doc::images(SKETCH_FRONT, extract::mark_views(marks@)),
{
    let ghost pages = text::strings(doc_pages@);
    let mut found: Vec<Option<Found>> = Vec::new();
    let mut i: usize = 0;
    while i < marks.len()
        invariant
            i <= marks@.len(),
            pages == text::strings(doc_pages@),
            found@.len() == i,
            forall|j: int|
                0 <= j < i ==> found_view(#[trigger] found@[j]) == marks_located(
                    pages,
                    extract::mark_views(marks@),
                )[j],
            forall|j: int|
                0 <= j < i ==> match #[trigger] found@[j] {
                    Some(f) => f.page < usize::MAX,
                    None => true,
                },
        decreases marks@.len() - i,
    {
        let place = match &marks[i] {
            Mark::Highlight { text, .. } => locate(doc_pages, text.as_str()),
            _ => None,
        };
        found.push(place);
        i = i + 1;
    }
    assert(found_views(found@) =~= marks_located(pages, extract::mark_views(marks@)));
    build_from(meta, marks, &found, device)
}

// ---------------------------------------------------------------------------
// Images
// ---------------------------------------------------------------------------
/// The blocks of the marks name the path of every image.
proof fn blocks_name_sketches(marks: Seq<MarkView>, found: Seq<Option<FoundView>>, i: int)
    requires
        0 <= i < digest_doc::images(SKETCH_FRONT, marks).len(),
    ensures
        exists|k: int| text::occurs_at(mark_blocks(marks, found), digest_doc::images(SKETCH_FRONT, marks)[i].0, k),
    decreases marks.len(),
{
    let before = marks.drop_last();
    let n = digest_doc::images(SKETCH_FRONT, before).len();
    let last = mark_block(marks.last(), found[marks.len() - 1], n);
    let path = digest_doc::images(SKETCH_FRONT, marks)[i].0;
    if i < n {
        blocks_name_sketches(before, found, i);
        let k = choose|k: int| text::occurs_at(mark_blocks(before, found), path, k);
        text::occurs_within(Seq::empty(), mark_blocks(before, found), last, path, k);
        assert(Seq::empty() + mark_blocks(before, found) + last =~= mark_blocks(marks, found));
    } else {
        let page = match marks.last() {
            MarkView::Note { page, .. } => page,
            MarkView::InsertedPage { after_page, .. } => after_page,
            _ => 0,
        };
        let head = SKETCH_PAGE@ + text::decimal(page + 1) + SKETCH_IMAGE@;
        assert(path.subrange(0, path.len() as int) =~= path);
        text::occurs_within(head, path, SKETCH_END@, path, 0);
        assert(last == head + path + SKETCH_END@);
        text::occurs_within(mark_blocks(before, found), last, Seq::empty(), path, head.len() as int);
        assert(mark_blocks(before, found) + last + Seq::empty() =~= mark_blocks(marks, found));
    }
}

/// The source of a digest names the path of every image that comes with it.
pub proof fn sketches_are_named(
    meta: MetaView,
    marks: Seq<MarkView>,
    found: Seq<Option<FoundView>>,
    width: Seq<char>,
    height: Seq<char>,
    i: int,
)
    requires
        0 <= i < digest_doc::images(SKETCH_FRONT, marks).len(),
    ensures
        exists|k: int|
            text::occurs_at(
                linked_source(meta, marks, found, width, height),
                digest_doc::images(SKETCH_FRONT, marks)[i].0,
                k,
            ),
{
    blocks_name_sketches(marks, found, i);
    let path = digest_doc::images(SKETCH_FRONT, marks)[i].0;
    let k = choose|k: int| text::occurs_at(mark_blocks(marks, found), path, k);
    let start = front(meta, width, height);
    text::occurs_within(start, mark_blocks(marks, found), Seq::empty(), path, k);
    assert(start + mark_blocks(marks, found) + Seq::empty() =~= linked_source(
        meta,
        marks,
        found,
        width,
        height,
    ));
}

} // verus!

//! Where a highlight is found in a document, and what is shown around it there.

use crate::linked_doc;
use crate::text;
use crate::text_laws;
use vstd::prelude::*;
use vstd::string::*;
use vstd::utf8::*;

verus! {

// ---------------------------------------------------------------------------
// The pages
// ---------------------------------------------------------------------------
/// A form feed ends a page, and nothing else does; a page has its words with one blank
/// between two of them.
pub proof fn pages_end_at_form_feeds(page: Seq<char>, rest: Seq<char>)
    requires
        !page.contains('\u{c}'),
    ensures
        linked_doc::pages_printed(page) == seq![text::join(text::words_of(page), seq![' '])],
        linked_doc::pages_printed(page.push('\u{c}') + rest) == seq![
            text::join(text::words_of(page), seq![' ']),
        ] + linked_doc::pages_printed(rest),
{
    text_laws::texts_are_split_at_the_character(page, rest, '\u{c}');
    assert(linked_doc::pages_printed(page) =~= seq![
        text::join(text::words_of(page), seq![' ']),
    ]);
    assert(linked_doc::pages_printed(page.push('\u{c}') + rest) =~= seq![
        text::join(text::words_of(page), seq![' ']),
    ] + linked_doc::pages_printed(rest));
}

// ---------------------------------------------------------------------------
// The page
// ---------------------------------------------------------------------------
/// The phrase stands in the text behind `k` characters.
pub open spec fn stands_behind(text: Seq<char>, phrase: Seq<char>, k: int) -> bool {
    exists|before: Seq<char>, after: Seq<char>|
        before.len() == k && text == #[trigger] (before + phrase + after)
}

/// The page holds the highlight: in lower case the one stands in the other, without the
/// white space around it.
pub open spec fn holds(page: Seq<char>, highlight: Seq<char>) -> bool {
    let phrase = linked_doc::lowercase(text::trimmed(highlight));
    phrase.len() > 0 && exists|k: int|
        #[trigger] stands_behind(linked_doc::lowercase(page), phrase, k)
}

/// A phrase that occurs stands behind as many characters.
proof fn occurring_stands(s: Seq<char>, p: Seq<char>, k: int)
    ensures
        text::occurs_at(s, p, k) == stands_behind(s, p, k),
{
    if text::occurs_at(s, p, k) {
        assert(s =~= s.take(k) + p + s.skip(k + p.len()));
    }
    if stands_behind(s, p, k) {
        let (before, after) = choose|before: Seq<char>, after: Seq<char>|
            before.len() == k && s == #[trigger] (before + p + after);
        assert(s.subrange(k, k + p.len()) =~= p);
    }
}

/// The search for the phrase finds where it stands first.
proof fn found_first(s: Seq<char>, p: Seq<char>)
    ensures
        match text::find(s, p) {
            Some(k) => stands_behind(s, p, k) && forall|j: int|
                #[trigger] stands_behind(s, p, j) ==> k <= j,
            None => forall|j: int| !#[trigger] stands_behind(s, p, j),
        },
{
    text::find_from_is_least(s, p, 0);
    assert forall|j: int| #[trigger] stands_behind(s, p, j) == text::occurs_at(s, p, j) by {
        occurring_stands(s, p, j);
    }
}

/// The first page with the phrase, from the n-th on.
proof fn page_is_first(pages: Seq<Seq<char>>, highlight: Seq<char>, n: int)
    requires
        0 <= n,
    ensures
        match linked_doc::page_with(
            linked_doc::lowered(pages),
            linked_doc::lowercase(text::trimmed(highlight)),
            n,
        ) {
            Some(p) => n <= p < pages.len() && holds(pages[p], highlight) && forall|j: int|
                n <= j < p ==> !holds(#[trigger] pages[j], highlight),
            None => forall|j: int| n <= j < pages.len() ==> !holds(#[trigger] pages[j], highlight),
        },
    decreases pages.len() - n,
{
    let phrase = linked_doc::lowercase(text::trimmed(highlight));
    let low = linked_doc::lowered(pages);
    if phrase.len() > 0 && n < pages.len() {
        found_first(low[n], phrase);
        if text::find(low[n], phrase) is None {
            page_is_first(pages, highlight, n + 1);
        }
    }
}

/// A highlight is found on the first page that holds it, and nowhere exactly where no page
/// does.
pub proof fn a_highlight_is_found_on_its_first_page(
    pages: Seq<Seq<char>>,
    highlight: Seq<char>,
)
    ensures
        match linked_doc::located(pages, highlight) {
            Some(place) => place.page < pages.len() && holds(pages[place.page as int], highlight)
                && forall|j: int|
                0 <= j < place.page ==> !holds(#[trigger] pages[j], highlight),
            None => forall|j: int| 0 <= j < pages.len() ==> !holds(#[trigger] pages[j], highlight),
        },
{
    page_is_first(pages, highlight, 0);
}

// ---------------------------------------------------------------------------
// The passage
// ---------------------------------------------------------------------------
/// How many characters the lower case of the first `i` characters has, one by one.
pub open spec fn low_before(text: Seq<char>, i: int) -> int
    decreases i,
{
    if i <= 0 {
        0
    } else {
        low_before(text, i - 1) + (linked_doc::lowercase(seq![text[i - 1]]).len() as usize)
    }
}

/// The lower case of the character reaches into the `n` characters behind the first `k`.
pub open spec fn is_reached(text: Seq<char>, j: int, k: int, n: nat) -> bool {
    k < low_before(text, j + 1) && low_before(text, j) < k + n
}

/// The characters from `from` to `to` are those whose lower case reaches into the `n`
/// characters behind the first `k`.
pub open spec fn reaches(text: Seq<char>, from: int, to: int, k: int, n: nat) -> bool {
    0 <= from <= to <= text.len() && forall|j: int|
        0 <= j < text.len() ==> ((from <= j < to) <==> #[trigger] is_reached(text, j, k, n))
}

/// The lower case grows from character to character.
proof fn low_grows(text: Seq<char>, i: int, j: int)
    requires
        i <= j,
    ensures
        low_before(text, i) <= low_before(text, j),
    decreases j - i,
{
    if i < j {
        low_grows(text, i, j - 1);
    }
}

/// Where the characters start whose lower case reaches behind `k`.
proof fn start_reaches(text: Seq<char>, k: int, i: int)
    requires
        0 <= i <= text.len(),
        i > 0 ==> low_before(text, i) <= k,
    ensures
        ({
            let r = linked_doc::start_char(
                linked_doc::widths_of(text),
                k - low_before(text, i),
                i,
            );
            &&& i <= r <= text.len()
            &&& r > 0 ==> r == i || low_before(text, r) <= k
            &&& r < text.len() ==> k < low_before(text, r + 1)
        }),
    decreases text.len() - i,
{
    let widths = linked_doc::widths_of(text);
    if i < text.len() && widths[i] <= k - low_before(text, i) {
        assert(low_before(text, i + 1) == low_before(text, i) + widths[i]);
        start_reaches(text, k, i + 1);
    }
}

/// Where the characters end whose lower case starts before `k`.
proof fn end_reaches(text: Seq<char>, k: int, i: int)
    requires
        0 <= i <= text.len(),
        i > 0 ==> low_before(text, i - 1) < k,
    ensures
        ({
            let r = linked_doc::end_char(linked_doc::widths_of(text), k - low_before(text, i), i);
            &&& i <= r <= text.len()
            &&& r > 0 ==> low_before(text, r - 1) < k
            &&& r < text.len() ==> k <= low_before(text, r)
        }),
    decreases text.len() - i,
{
    let widths = linked_doc::widths_of(text);
    if i < text.len() && k - low_before(text, i) > 0 {
        assert(low_before(text, i + 1) == low_before(text, i) + widths[i]);
        end_reaches(text, k, i + 1);
    }
}

/// The span of what is found is made of the characters that reach into it.
#[verifier::spinoff_prover]
proof fn span_reaches(text: Seq<char>, low: Seq<char>, needle: Seq<char>)
    requires
        needle.len() > 0,
        text::find(low, needle) is Some,
    ensures
        ({
            let k = text::find(low, needle)->Some_0;
            let span = linked_doc::found_span(linked_doc::widths_of(text), low, needle);
            span is Some && reaches(text, span->Some_0.0, span->Some_0.1, k, needle.len())
        }),
{
    let widths = linked_doc::widths_of(text);
    let n = needle.len();
    found_first(low, needle);
    let k = text::find(low, needle)->Some_0;
    start_reaches(text, k, 0);
    end_reaches(text, k + n, 0);
    let from = linked_doc::start_char(widths, k, 0);
    let to = linked_doc::end_char(widths, k + n, 0);
    if to < from {
        low_grows(text, to, from);
        assert(false);
    }
    assert(0 <= from <= to <= text.len());
    assert forall|j: int| 0 <= j < text.len() implies ((from <= j < to)
        <==> #[trigger] is_reached(text, j, k, n)) by {
        if j < from {
            low_grows(text, j + 1, from);
        } else {
            if from < text.len() {
                low_grows(text, from + 1, j + 1);
            }
        }
        if j < to {
            low_grows(text, j, to - 1);
        } else if to < text.len() {
            low_grows(text, to, j);
        }
    }
    assert(reaches(text, from, to, k, n));
}

// ---------------------------------------------------------------------------
// The sentence around the passage
// ---------------------------------------------------------------------------
/// A full stop, an exclamation mark or a question mark.
pub open spec fn ends_sentence(b: u8) -> bool {
    b == 46 || b == 33 || b == 63
}

/// What stands before the byte `start`: from behind the last end of a sentence on, from
/// the first byte on, or from the character on that is 240 bytes before.
pub open spec fn leads_up(before: Seq<char>, bytes: Seq<u8>, x: int, start: int) -> bool {
    &&& 0 <= x <= start <= bytes.len()
    &&& before == text::trimmed(decode_utf8(bytes.subrange(x, start)))
    &&& forall|j: int| x <= j < start ==> !ends_sentence(#[trigger] bytes[j])
    &&& start - x <= 243
    &&& x == 0 || ends_sentence(bytes[x - 1]) || start - x >= 240
}

/// What stands behind the byte `end`: up to the first end of a sentence, to the last
/// byte, or to the character that is 240 bytes behind.
pub open spec fn leads_on(after: Seq<char>, bytes: Seq<u8>, end: int, y: int) -> bool {
    &&& 0 <= end <= y <= bytes.len()
    &&& after == text::trimmed(decode_utf8(bytes.subrange(end, y)))
    &&& forall|j: int| end <= j < y - 1 ==> !ends_sentence(#[trigger] bytes[j])
    &&& y - end <= 243
    &&& y == bytes.len() || y > end && ends_sentence(bytes[y - 1]) || y - end >= 240
}

/// Behind a byte of ASCII a character starts.
proof fn behind_ascii(bytes: Seq<u8>, j: int)
    requires
        valid_utf8(bytes),
        0 <= j < bytes.len(),
        bytes[j] < 0x80,
    ensures
        is_char_boundary(bytes, j + 1),
    decreases bytes.len(),
{
    let n = length_of_first_scalar(bytes);
    let rest = pop_first_scalar(bytes);
    reveal_with_fuel(is_char_boundary, 2);
    if j == 0 {
        assert(n == 1);
        is_char_boundary_start_end_of_seq(rest);
    } else if j >= n {
        assert(rest[j - n] == bytes[j]);
        behind_ascii(rest, j - n);
    }
}

/// The sentence starts behind the last end of one.
proof fn sentence_starts(bytes: Seq<u8>, lo: int, hi: int)
    requires
        0 <= lo <= hi <= bytes.len(),
    ensures
        ({
            let r = linked_doc::sentence_start(bytes, lo, hi);
            &&& lo <= r <= hi
            &&& r == lo || ends_sentence(bytes[r - 1])
            &&& forall|j: int| r <= j < hi ==> !ends_sentence(#[trigger] bytes[j])
        }),
    decreases hi - lo,
{
    if lo < hi && !linked_doc::is_stop(bytes[hi - 1]) {
        sentence_starts(bytes, lo, hi - 1);
    }
}

/// The sentence ends behind the first end of one.
proof fn sentence_ends(bytes: Seq<u8>, lo: int, hi: int)
    requires
        0 <= lo <= hi <= bytes.len(),
    ensures
        ({
            let r = linked_doc::sentence_end(bytes, lo, hi);
            &&& lo <= r <= hi
            &&& r == hi || r > lo && ends_sentence(bytes[r - 1])
            &&& forall|j: int| lo <= j < r - 1 ==> !ends_sentence(#[trigger] bytes[j])
        }),
    decreases hi - lo,
{
    if lo < hi && !linked_doc::is_stop(bytes[lo]) {
        sentence_ends(bytes, lo + 1, hi);
    }
}

/// What is shown before a passage leads up to it.
proof fn text_leads_up(bytes: Seq<u8>, start: int) -> (x: int)
    requires
        valid_utf8(bytes),
        0 <= start <= bytes.len(),
        is_char_boundary(bytes, start),
    ensures
        leads_up(linked_doc::text_before(bytes, start), bytes, x, start),
{
    is_char_boundary_start_end_of_seq(bytes);
    let back = if start > 240 {
        start - 240
    } else {
        0
    };
    let near = linked_doc::boundary_near(bytes, back);
    linked_doc::floor_is_nearest(bytes, back, near);
    let lo = linked_doc::floor(bytes, back);
    floor_is_boundary(bytes, back);
    sentence_starts(bytes, lo, start);
    let from = linked_doc::sentence_start(bytes, lo, start);
    if from > lo {
        behind_ascii(bytes, from - 1);
    }
    linked_doc::ceil_is_nearest(bytes, from, from);
    from
}

/// An index is moved back to a boundary.
proof fn floor_is_boundary(bytes: Seq<u8>, i: int)
    requires
        valid_utf8(bytes),
        0 <= i <= bytes.len(),
    ensures
        is_char_boundary(bytes, linked_doc::floor(bytes, i)),
    decreases i,
{
    is_char_boundary_start_end_of_seq(bytes);
    if i > 0 && !is_char_boundary(bytes, i) {
        floor_is_boundary(bytes, i - 1);
    }
}

/// What is shown behind a passage leads on from it.
proof fn text_leads_on(bytes: Seq<u8>, end: int) -> (y: int)
    requires
        valid_utf8(bytes),
        0 <= end <= bytes.len(),
        is_char_boundary(bytes, end),
    ensures
        leads_on(linked_doc::text_after(bytes, end), bytes, end, y),
{
    is_char_boundary_start_end_of_seq(bytes);
    let far = linked_doc::least(end + 240, bytes.len() as int);
    let beyond = linked_doc::boundary_ahead(bytes, far);
    linked_doc::ceil_is_nearest(bytes, far, beyond);
    linked_doc::ceil_is_boundary(bytes, far);
    let hi = linked_doc::ceil(bytes, far);
    sentence_ends(bytes, end, hi);
    let to = linked_doc::sentence_end(bytes, end, hi);
    if to < hi {
        behind_ascii(bytes, to - 1);
    }
    linked_doc::ceil_is_nearest(bytes, to, to);
    to
}

/// Where a passage of a page is shown: the characters from `from` to `to`, what leads up to
/// them from the byte `x`, and what leads on to the byte `y`.
pub open spec fn shown_around(
    page: Seq<char>,
    texts: (Seq<char>, Seq<char>, Seq<char>),
    from: int,
    to: int,
    x: int,
    y: int,
) -> bool {
    let bytes = encode_utf8(page);
    &&& 0 <= from <= to <= page.len()
    &&& texts.1 == page.subrange(from, to)
    &&& leads_up(texts.0, bytes, x, encode_utf8(page.take(from)).len() as int)
    &&& leads_on(texts.2, bytes, encode_utf8(page.take(to)).len() as int, y)
}

/// A highlight that is found is shown as the document has it: the passage is made of the
/// characters of the page whose lower case reaches into the first place where the lower
/// case of the highlight stands, and beside it stands the sentence around it.
#[verifier::spinoff_prover]
pub proof fn a_found_highlight_is_shown_as_it_stands(
    pages: Seq<Seq<char>>,
    highlight: Seq<char>,
) -> (at: (int, int, int, int, int))
    requires
        text::trimmed(highlight).len() > 0,
        linked_doc::located(pages, highlight) is Some,
    ensures
        ({
            let place = linked_doc::located(pages, highlight)->Some_0;
            let page = pages[place.page as int];
            let low = linked_doc::lowercase(page);
            let phrase = linked_doc::lowercase(text::trimmed(highlight));
            let (k, from, to, x, y) = at;
            &&& place.context is Some
            &&& stands_behind(low, phrase, k)
            &&& forall|j: int| #[trigger] stands_behind(low, phrase, j) ==> k <= j
            &&& reaches(page, from, to, k, phrase.len())
            &&& shown_around(page, place.context->Some_0, from, to, x, y)
        }),
{
    page_is_first(pages, highlight, 0);
    let place = linked_doc::located(pages, highlight)->Some_0;
    let page = pages[place.page as int];
    let low = linked_doc::lowercase(page);
    let phrase = linked_doc::lowercase(text::trimmed(highlight));
    found_first(low, phrase);
    let k = text::find(low, phrase)->Some_0;
    span_reaches(page, low, phrase);
    let (from, to) = linked_doc::highlight_span(page, highlight)->Some_0;
    let bytes = encode_utf8(page);
    encode_utf8_valid_utf8(page);
    linked_doc::bytes_before(page, from);
    linked_doc::bytes_before(page, to);
    linked_doc::characters_between(page, from, to);
    let x = text_leads_up(bytes, linked_doc::byte_at(page, from));
    let y = text_leads_on(bytes, linked_doc::byte_at(page, to));
    assert(reaches(page, from, to, k, phrase.len()));
    assert(shown_around(page, place.context->Some_0, from, to, x, y));
    (k, from, to, x, y)
}

/// The characters are the same but for capital letters of ASCII.
pub open spec fn same_letters(a: Seq<char>, b: Seq<char>) -> bool {
    a.len() == b.len() && forall|i: int|
        0 <= i < a.len() ==> (#[trigger] a[i]) == b[i] || 'A' <= a[i] <= 'Z' && b[i] as u32 == a[i] as u32
            + 32 || 'A' <= b[i] <= 'Z' && a[i] as u32 == b[i] as u32 + 32
}

/// Where the lower case of every character is one character, it has as many.
proof fn low_is_even(text: Seq<char>, i: int)
    requires
        0 <= i <= text.len(),
        forall|j: int| 0 <= j < text.len() ==> linked_doc::lowercase(seq![#[trigger] text[j]]).len() == 1,
    ensures
        low_before(text, i) == i,
    decreases i,
{
    if i > 0 {
        low_is_even(text, i - 1);
        assert(linked_doc::lowercase(seq![text[i - 1]]).len() == 1);
    }
}

/// Where the lower case of every character is one character, the characters that reach
/// into a place are those at it.
proof fn span_is_even(text: Seq<char>, from: int, to: int, k: int, n: nat)
    requires
        reaches(text, from, to, k, n),
        0 < n,
        0 <= k <= text.len() - n,
        forall|j: int| 0 <= j < text.len() ==> linked_doc::lowercase(seq![#[trigger] text[j]]).len() == 1,
    ensures
        from == k,
        to == k + n,
{
    assert forall|i: int| 0 <= i <= text.len() implies #[trigger] low_before(text, i) == i by {
        low_is_even(text, i);
    }
    let last = k + n - 1;
    assert(low_before(text, k + 1) == k + 1 && low_before(text, last + 1) == last + 1);
    assert(is_reached(text, k, k, n) && is_reached(text, last, k, n));
    assert(low_before(text, from + 1) == from + 1 && low_before(text, from) == from);
    assert(is_reached(text, from, k, n));
    assert(low_before(text, to - 1) == to - 1);
    assert(is_reached(text, to - 1, k, n));
}

/// In a page of ASCII a highlight of ASCII is shown letter for letter, but for capitals.
#[verifier::spinoff_prover]
pub proof fn a_passage_has_the_letters_of_the_highlight(
    pages: Seq<Seq<char>>,
    highlight: Seq<char>,
)
    requires
        text::trimmed(highlight).len() > 0,
        linked_doc::located(pages, highlight) is Some,
        ({
            let page = pages[linked_doc::located(pages, highlight)->Some_0.page as int];
            &&& is_ascii_chars(page)
            &&& is_ascii_chars(text::trimmed(highlight))
            &&& linked_doc::known_small(page)
            &&& linked_doc::known_small(text::trimmed(highlight))
            &&& forall|j: int|
                0 <= j < page.len() ==> linked_doc::known_small(seq![#[trigger] page[j]])
        }),
    ensures
        same_letters(
            linked_doc::located(pages, highlight)->Some_0.context->Some_0.1,
            text::trimmed(highlight),
        ),
{
    let at = a_found_highlight_is_shown_as_it_stands(pages, highlight);
    let (k, from, to, x, y) = at;
    let place = linked_doc::located(pages, highlight)->Some_0;
    let page = pages[place.page as int];
    let cut = text::trimmed(highlight);
    let low = linked_doc::lowercase(page);
    let phrase = linked_doc::lowercase(cut);
    assert forall|j: int| 0 <= j < page.len() implies linked_doc::lowercase(
        seq![#[trigger] page[j]],
    ).len() == 1 by {
        assert(is_ascii_chars(seq![page[j]]));
    }
    let (before, after) = choose|before: Seq<char>, after: Seq<char>|
        before.len() == k && low == #[trigger] (before + phrase + after);
    assert(low.len() == (before + phrase + after).len());
    assert(low == linked_doc::all_small(page));
    span_is_even(page, from, to, k, phrase.len());
    let middle = place.context->Some_0.1;
    assert forall|i: int| 0 <= i < cut.len() implies linked_doc::small(#[trigger] middle[i])
        == linked_doc::small(cut[i]) by {
        assert(low[k + i] == phrase[i]);
    }
    assert forall|i: int| 0 <= i < cut.len() implies (#[trigger] middle[i]) == cut[i] || 'A' <= middle[i]
        <= 'Z' && cut[i] as u32 == middle[i] as u32 + 32 || 'A' <= cut[i] <= 'Z' && middle[i] as u32
        == cut[i] as u32 + 32 by {
        assert(linked_doc::small(middle[i]) == linked_doc::small(cut[i]));
    }
}

} // verus!

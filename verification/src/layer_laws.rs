//! What the text layer gives back: the words that were printed, and the text under a
//! region.

use crate::text;
use crate::textlayer;
use crate::textlayer::{PdfRect, RawView, RawWord, TextLayer, Word};
use vstd::prelude::*;

verus! {

// ---------------------------------------------------------------------------
// The text under a region
// ---------------------------------------------------------------------------
/// The word is read before the other: it stands higher, or as high and further to the
/// left, or at the same place and earlier in the document.
pub open spec fn stands_before(words: Seq<Word>, a: int, b: int) -> bool {
    ||| words[a].bbox.y0 > words[b].bbox.y0
    ||| words[a].bbox.y0 == words[b].bbox.y0 && words[a].bbox.x0 < words[b].bbox.x0
    ||| words[a].bbox.y0 == words[b].bbox.y0 && words[a].bbox.x0 == words[b].bbox.x0 && a < b
}

/// The places are those of the words of the page that overlap the rectangle, in the order
/// in which they are read.
pub open spec fn read_under<I: Fn(&PdfRect, &PdfRect) -> bool>(
    words: Seq<Word>,
    page: usize,
    rect: PdfRect,
    intersects: &I,
    places: Seq<int>,
) -> bool {
    &&& forall|i: int|
        0 <= i < places.len() ==> 0 <= #[trigger] places[i] < words.len() && words[places[i]].page
            == page && call_ensures(intersects, (&words[places[i]].bbox, &rect), true)
    &&& forall|n: int|
        0 <= n < words.len() && (#[trigger] words[n]).page == page && !call_ensures(
            intersects,
            (&words[n].bbox, &rect),
            false,
        ) ==> places.contains(n)
    &&& forall|i: int, j: int|
        0 <= i < j < places.len() ==> stands_before(words, #[trigger] places[i], #[trigger] places[j])
}

/// The parts are the texts at the starts of the runs: a run is made of texts that are the
/// same, and the next one starts with another text.
pub open spec fn runs(texts: Seq<Seq<char>>, parts: Seq<Seq<char>>, starts: Seq<int>) -> bool {
    &&& starts.len() == parts.len()
    &&& texts.len() > 0 ==> starts.len() > 0 && starts[0] == 0
    &&& forall|k: int|
        0 <= k < starts.len() ==> 0 <= #[trigger] starts[k] < texts.len() && parts[k]
            == texts[starts[k]]
    &&& forall|k: int|
        0 < k < starts.len() ==> starts[k - 1] < #[trigger] starts[k] && texts[starts[k] - 1]
            != texts[starts[k]]
    &&& forall|j: int|
        0 < j < texts.len() && !starts.contains(j) ==> #[trigger] texts[j] == texts[j - 1]
}

/// Without what repeats, a text is left of every run.
proof fn deduped_runs(texts: Seq<Seq<char>>) -> (starts: Seq<int>)
    ensures
        runs(texts, textlayer::deduped(texts), starts),
    decreases texts.len(),
{
    if texts.len() == 0 {
        Seq::empty()
    } else if texts.len() == 1 {
        seq![0int]
    } else {
        let rest = texts.drop_last();
        let had = deduped_runs(rest);
        let last = texts.len() - 1;
        if texts[last] == texts[last - 1] {
            assert forall|j: int| 0 < j < texts.len() && !had.contains(j) implies #[trigger] texts[j]
                == texts[j - 1] by {
                if j < last {
                    assert(rest[j] == rest[j - 1]);
                }
            }
            had
        } else {
            let starts = had.push(last);
            assert(starts.contains(last)) by {
                assert(starts[had.len() as int] == last);
            }
            assert forall|j: int| 0 < j < texts.len() && !starts.contains(j) implies #[trigger]
                texts[j] == texts[j - 1] by {
                if had.contains(j) {
                    let k = choose|k: int| 0 <= k < had.len() && had[k] == j;
                    assert(starts[k] == j);
                }
                assert(rest[j] == rest[j - 1]);
            }
            assert forall|k: int| 0 < k < starts.len() implies starts[k - 1] < #[trigger] starts[k]
                && texts[starts[k] - 1] != texts[starts[k]] by {
                if k < had.len() {
                    assert(had[k - 1] < had[k]);
                } else {
                    assert(had[k - 1] < rest.len());
                }
            }
            starts
        }
    }
}

/// The text under a region is that of the words of the page that overlap it, read from the
/// top to the bottom and from the left to the right, with a blank between two of them; what
/// repeats the word before it is left out.
pub proof fn text_under_is_read_in_order<I: Fn(&PdfRect, &PdfRect) -> bool>(
    layer: TextLayer,
    page: usize,
    rect: PdfRect,
    intersects: &I,
    shown: Seq<char>,
) -> (read: (Seq<int>, Seq<Seq<char>>, Seq<int>))
    requires
        layer.under(page, rect, intersects, shown),
    ensures
        read_under(layer.words@, page, rect, intersects, read.0),
        runs(
            Seq::new(read.0.len(), |i: int| layer.words@[read.0[i]].text@),
            read.1,
            read.2,
        ),
        shown == text::trimmed(text::join(read.1, seq![' '])),
{
    let words = layer.words@;
    assert(layer.words.len() == words.len());
    let (found, ordered) = choose|found: Seq<usize>, ordered: Seq<usize>|
        textlayer::found_under(words, page, rect, intersects, found)
            && #[trigger] textlayer::reading_order(words, found, ordered) && shown
            == textlayer::text_at(words, ordered);
    let places = Seq::new(ordered.len(), |i: int| ordered[i] as int);
    assert forall|i: int| 0 <= i < places.len() implies 0 <= #[trigger] places[i] < words.len()
        && words[places[i]].page == page && call_ensures(
        intersects,
        (&words[places[i]].bbox, &rect),
        true,
    ) by {
        let n = ordered[i];
        assert(ordered.contains(n));
        assert(found.contains(n));
        let k = choose|k: int| 0 <= k < found.len() && found[k] == n;
        assert(found[k] < words.len());
        assert(textlayer::hit(words[n as int], page, rect, intersects, found.contains(n)));
    }
    assert forall|n: int|
        0 <= n < words.len() && (#[trigger] words[n]).page == page && !call_ensures(
            intersects,
            (&words[n].bbox, &rect),
            false,
        ) implies places.contains(n) by {
        let m = n as usize;
        assert(textlayer::hit(words[m as int], page, rect, intersects, found.contains(m)));
        assert(found.contains(m));
        assert(ordered.contains(m));
        let k = choose|k: int| 0 <= k < ordered.len() && ordered[k] == m;
        assert(places[k] == n);
    }
    assert forall|i: int, j: int| 0 <= i < j < places.len() implies stands_before(
        words,
        #[trigger] places[i],
        #[trigger] places[j],
    ) by {
        assert(textlayer::read_before(words, ordered[i], ordered[j]));
    }
    let texts = textlayer::texts_at(words, ordered);
    assert(texts =~= Seq::new(places.len(), |i: int| words[places[i]].text@));
    let starts = deduped_runs(texts);
    (places, textlayer::deduped(texts), starts)
}

// ---------------------------------------------------------------------------
// Character entities
// ---------------------------------------------------------------------------
/// An entity at the front stands for its character, and any character but an ampersand for
/// itself.
pub proof fn entities_stand_for_characters(rest: Seq<char>, c: char)
    ensures
        textlayer::decoded("&amp;"@ + rest) == seq!['&'] + textlayer::decoded(rest),
        textlayer::decoded("&lt;"@ + rest) == seq!['<'] + textlayer::decoded(rest),
        textlayer::decoded("&gt;"@ + rest) == seq!['>'] + textlayer::decoded(rest),
        textlayer::decoded("&quot;"@ + rest) == seq!['"'] + textlayer::decoded(rest),
        textlayer::decoded("&#39;"@ + rest) == seq!['\''] + textlayer::decoded(rest),
        c != '&' ==> textlayer::decoded(seq![c] + rest) == seq![c] + textlayer::decoded(rest),
{
    textlayer::entities_revealed();
    let amp = "&amp;"@ + rest;
    let lt = "&lt;"@ + rest;
    let gt = "&gt;"@ + rest;
    let quot = "&quot;"@ + rest;
    let apos = "&#39;"@ + rest;
    assert(amp.subrange(0, 5) =~= "&amp;"@ && amp.skip(5) =~= rest);
    assert(lt.subrange(0, 4) =~= "&lt;"@ && lt.skip(4) =~= rest);
    assert(gt.subrange(0, 4) =~= "&gt;"@ && gt.skip(4) =~= rest);
    assert(quot.subrange(0, 6) =~= "&quot;"@ && quot.skip(6) =~= rest);
    assert(apos.subrange(0, 5) =~= "&#39;"@ && apos.skip(5) =~= rest);
    textlayer::other_entity(lt, "&amp;"@);
    textlayer::other_entity(gt, "&amp;"@);
    textlayer::other_entity(gt, "&lt;"@);
    textlayer::other_entity(quot, "&amp;"@);
    textlayer::other_entity(quot, "&lt;"@);
    textlayer::other_entity(quot, "&gt;"@);
    textlayer::other_entity(apos, "&amp;"@);
    textlayer::other_entity(apos, "&lt;"@);
    textlayer::other_entity(apos, "&gt;"@);
    textlayer::other_entity(apos, "&quot;"@);
    if c != '&' {
        let plain = seq![c] + rest;
        assert(plain.skip(1) =~= rest);
        textlayer::other_entity(plain, "&amp;"@);
        textlayer::other_entity(plain, "&lt;"@);
        textlayer::other_entity(plain, "&gt;"@);
        textlayer::other_entity(plain, "&quot;"@);
        textlayer::other_entity(plain, "&#39;"@);
    }
}

// ---------------------------------------------------------------------------
// Printed words
// ---------------------------------------------------------------------------
/// The text has no quotes, equals signs or brackets, as a number has none.
pub open spec fn plain(v: Seq<char>) -> bool {
    forall|i: int|
        0 <= i < v.len() ==> (#[trigger] v[i]) != '"' && v[i] != '=' && v[i] != '<' && v[i] != '>'
}

/// No character of the text is the one.
pub open spec fn lacks(s: Seq<char>, q: char) -> bool {
    forall|i: int| 0 <= i < s.len() ==> #[trigger] s[i] != q
}

/// The attributes of a printed word, behind the start of its tag.
pub open spec fn tag_text(
    x_min: Seq<char>,
    y_min: Seq<char>,
    x_max: Seq<char>,
    y_max: Seq<char>,
) -> Seq<char> {
    "<word xMin=\""@ + x_min + "\" yMin=\""@ + y_min + "\" xMax=\""@ + x_max + "\" yMax=\""@ + y_max
        + "\""@
}

/// What is found first is where it stands and did not before.
proof fn first_at(s: Seq<char>, p: Seq<char>, i: int, k: int)
    requires
        0 <= i <= k,
        text::occurs_at(s, p, k),
        forall|j: int| i <= j < k ==> !#[trigger] text::occurs_at(s, p, j),
    ensures
        text::find_from(s, p, i) == Some(k),
{
    text::find_from_is_least(s, p, i);
}

/// One character is found at its first place.
proof fn first_char(s: Seq<char>, q: char, i: int, k: int)
    requires
        0 <= i <= k < s.len(),
        s[k] == q,
        forall|j: int| i <= j < k ==> #[trigger] s[j] != q,
    ensures
        text::find_from(s, seq![q], i) == Some(k),
{
    let p = seq![q];
    assert(s.subrange(k, k + 1) =~= p);
    assert forall|j: int| i <= j < k implies !#[trigger] text::occurs_at(s, p, j) by {
        if text::occurs_at(s, p, j) {
            assert(s.subrange(j, j + 1)[0] == s[j]);
        }
    }
    first_at(s, p, i, k);
}

/// An attribute in double quotes has the value between them, where it stands first.
proof fn attribute_is_found(
    tag: Seq<char>,
    before: Seq<char>,
    attr: Seq<char>,
    value: Seq<char>,
    after: Seq<char>,
)
    requires
        tag == before + attr + "=\""@ + value + "\""@ + after,
        lacks(value, '"'),
        forall|j: int|
            0 <= j < before.len() ==> !#[trigger] text::occurs_at(tag, attr + "=\""@, j),
    ensures
        textlayer::attr_of(tag, attr) == Some(value),
{
    let double = attr + "=\""@;
    let k = before.len() as int;
    let at = k + double.len();
    reveal_strlit("=\"");
    reveal_strlit("\"");
    assert("\""@ =~= seq!['"']);
    assert(tag.subrange(k, at) =~= double);
    first_at(tag, double, 0, k);
    assert forall|j: int| at <= j < at + value.len() implies #[trigger] tag[j] != '"' by {
        assert(tag[j] == value[j - at]);
    }
    assert(tag[at + value.len()] == '"');
    first_char(tag, '"', at, at + value.len());
    assert(tag.subrange(at, at + value.len()) =~= value);
}

/// The fixed parts of the tag.
proof fn tag_revealed()
    ensures
        "<word xMin=\""@ == seq!['<', 'w', 'o', 'r', 'd', ' ', 'x', 'M', 'i', 'n', '=', '"'],
        "\" yMin=\""@ == seq!['"', ' ', 'y', 'M', 'i', 'n', '=', '"'],
        "\" xMax=\""@ == seq!['"', ' ', 'x', 'M', 'a', 'x', '=', '"'],
        "\" yMax=\""@ == seq!['"', ' ', 'y', 'M', 'a', 'x', '=', '"'],
        "\""@ == seq!['"'],
        "=\""@ == seq!['=', '"'],
        "xMin"@ == seq!['x', 'M', 'i', 'n'],
        "yMin"@ == seq!['y', 'M', 'i', 'n'],
        "xMax"@ == seq!['x', 'M', 'a', 'x'],
        "yMax"@ == seq!['y', 'M', 'a', 'x'],
{
    reveal_strlit("<word xMin=\"");
    reveal_strlit("\" yMin=\"");
    reveal_strlit("\" xMax=\"");
    reveal_strlit("\" yMax=\"");
    reveal_strlit("\"");
    reveal_strlit("=\"");
    reveal_strlit("xMin");
    reveal_strlit("yMin");
    reveal_strlit("xMax");
    reveal_strlit("yMax");
    assert("<word xMin=\""@ =~= seq!['<', 'w', 'o', 'r', 'd', ' ', 'x', 'M', 'i', 'n', '=', '"']);
    assert("\" yMin=\""@ =~= seq!['"', ' ', 'y', 'M', 'i', 'n', '=', '"']);
    assert("\" xMax=\""@ =~= seq!['"', ' ', 'x', 'M', 'a', 'x', '=', '"']);
    assert("\" yMax=\""@ =~= seq!['"', ' ', 'y', 'M', 'a', 'x', '=', '"']);
    assert("\""@ =~= seq!['"']);
    assert("=\""@ =~= seq!['=', '"']);
    assert("xMin"@ =~= seq!['x', 'M', 'i', 'n']);
    assert("yMin"@ =~= seq!['y', 'M', 'i', 'n']);
    assert("xMax"@ =~= seq!['x', 'M', 'a', 'x']);
    assert("yMax"@ =~= seq!['y', 'M', 'a', 'x']);
}

/// An attribute of four letters stands nowhere but before an equals sign.
proof fn attribute_needs_equals(tag: Seq<char>, attr: Seq<char>, j: int)
    requires
        attr.len() == 4,
        text::occurs_at(tag, attr + "=\""@, j),
    ensures
        tag[j + 4] == '=',
        tag[j] == attr[0],
        tag[j + 2] == attr[2],
        0 <= j,
        j + 6 <= tag.len(),
{
    tag_revealed();
    let p = attr + "=\""@;
    let there = tag.subrange(j, j + p.len());
    assert(there[4] == p[4] && there[0] == p[0] && there[2] == p[2]);
}

/// The first attribute of a tag is read.
#[verifier::spinoff_prover]
proof fn left_is_read(x_min: Seq<char>, y_min: Seq<char>, x_max: Seq<char>, y_max: Seq<char>)
    requires
        plain(x_min),
        plain(y_min),
        plain(x_max),
        plain(y_max),
    ensures
        textlayer::attr_of(tag_text(x_min, y_min, x_max, y_max), "xMin"@) == Some(x_min),
{
    tag_revealed();
    letters_in_tag(x_min, y_min, x_max, y_max);
    let tag = tag_text(x_min, y_min, x_max, y_max);
    let before = seq!['<', 'w', 'o', 'r', 'd', ' '];
    let after = seq![' ', 'y', 'M', 'i', 'n', '=', '"'] + y_min + "\" xMax=\""@ + x_max + "\" yMax=\""@
        + y_max + "\""@;
    assert forall|j: int| 0 <= j < before.len() implies !#[trigger] text::occurs_at(
        tag,
        "xMin"@ + "=\""@,
        j,
    ) by {
        if text::occurs_at(tag, "xMin"@ + "=\""@, j) {
            attribute_needs_equals(tag, "xMin"@, j);
            equals_in_tag(x_min, y_min, x_max, y_max, j + 4);
        }
    }
    assert(tag =~= before + "xMin"@ + "=\""@ + x_min + "\""@ + after);
    attribute_is_found(tag, before, "xMin"@, x_min, after);
}

/// The second attribute of a tag is read.
#[verifier::spinoff_prover]
proof fn top_is_read(x_min: Seq<char>, y_min: Seq<char>, x_max: Seq<char>, y_max: Seq<char>)
    requires
        plain(x_min),
        plain(y_min),
        plain(x_max),
        plain(y_max),
    ensures
        textlayer::attr_of(tag_text(x_min, y_min, x_max, y_max), "yMin"@) == Some(y_min),
{
    tag_revealed();
    letters_in_tag(x_min, y_min, x_max, y_max);
    let tag = tag_text(x_min, y_min, x_max, y_max);
    let before = "<word xMin=\""@ + x_min + seq!['"', ' '];
    let after = seq![' ', 'x', 'M', 'a', 'x', '=', '"'] + x_max + "\" yMax=\""@ + y_max + "\""@;
    assert forall|j: int| 0 <= j < before.len() implies !#[trigger] text::occurs_at(
        tag,
        "yMin"@ + "=\""@,
        j,
    ) by {
        if text::occurs_at(tag, "yMin"@ + "=\""@, j) {
            attribute_needs_equals(tag, "yMin"@, j);
            equals_in_tag(x_min, y_min, x_max, y_max, j + 4);
        }
    }
    assert(tag =~= before + "yMin"@ + "=\""@ + y_min + "\""@ + after);
    attribute_is_found(tag, before, "yMin"@, y_min, after);
}

/// The third attribute of a tag is read.
#[verifier::spinoff_prover]
proof fn right_is_read(x_min: Seq<char>, y_min: Seq<char>, x_max: Seq<char>, y_max: Seq<char>)
    requires
        plain(x_min),
        plain(y_min),
        plain(x_max),
        plain(y_max),
    ensures
        textlayer::attr_of(tag_text(x_min, y_min, x_max, y_max), "xMax"@) == Some(x_max),
{
    tag_revealed();
    letters_in_tag(x_min, y_min, x_max, y_max);
    let tag = tag_text(x_min, y_min, x_max, y_max);
    let before = "<word xMin=\""@ + x_min + "\" yMin=\""@ + y_min + seq!['"', ' '];
    let after = seq![' ', 'y', 'M', 'a', 'x', '=', '"'] + y_max + "\""@;
    assert forall|j: int| 0 <= j < before.len() implies !#[trigger] text::occurs_at(
        tag,
        "xMax"@ + "=\""@,
        j,
    ) by {
        if text::occurs_at(tag, "xMax"@ + "=\""@, j) {
            attribute_needs_equals(tag, "xMax"@, j);
            equals_in_tag(x_min, y_min, x_max, y_max, j + 4);
        }
    }
    assert(tag =~= before + "xMax"@ + "=\""@ + x_max + "\""@ + after);
    attribute_is_found(tag, before, "xMax"@, x_max, after);
}

/// The last attribute of a tag is read.
#[verifier::spinoff_prover]
proof fn bottom_is_read(x_min: Seq<char>, y_min: Seq<char>, x_max: Seq<char>, y_max: Seq<char>)
    requires
        plain(x_min),
        plain(y_min),
        plain(x_max),
        plain(y_max),
    ensures
        textlayer::attr_of(tag_text(x_min, y_min, x_max, y_max), "yMax"@) == Some(y_max),
{
    tag_revealed();
    letters_in_tag(x_min, y_min, x_max, y_max);
    let tag = tag_text(x_min, y_min, x_max, y_max);
    let before = "<word xMin=\""@ + x_min + "\" yMin=\""@ + y_min + "\" xMax=\""@ + x_max + seq!['"', ' '];
    let after = Seq::<char>::empty();
    assert forall|j: int| 0 <= j < before.len() implies !#[trigger] text::occurs_at(
        tag,
        "yMax"@ + "=\""@,
        j,
    ) by {
        if text::occurs_at(tag, "yMax"@ + "=\""@, j) {
            attribute_needs_equals(tag, "yMax"@, j);
            equals_in_tag(x_min, y_min, x_max, y_max, j + 4);
        }
    }
    assert(tag =~= before + "yMax"@ + "=\""@ + y_max + "\""@ + after);
    attribute_is_found(tag, before, "yMax"@, y_max, after);
}

/// The attributes of a tag are read as they were printed.
pub proof fn attributes_are_read(
    x_min: Seq<char>,
    y_min: Seq<char>,
    x_max: Seq<char>,
    y_max: Seq<char>,
)
    requires
        plain(x_min),
        plain(y_min),
        plain(x_max),
        plain(y_max),
    ensures
        ({
            let tag = tag_text(x_min, y_min, x_max, y_max);
            &&& textlayer::attr_of(tag, "xMin"@) == Some(x_min)
            &&& textlayer::attr_of(tag, "yMin"@) == Some(y_min)
            &&& textlayer::attr_of(tag, "xMax"@) == Some(x_max)
            &&& textlayer::attr_of(tag, "yMax"@) == Some(y_max)
        }),
{
    left_is_read(x_min, y_min, x_max, y_max);
    top_is_read(x_min, y_min, x_max, y_max);
    right_is_read(x_min, y_min, x_max, y_max);
    bottom_is_read(x_min, y_min, x_max, y_max);
}

/// The equals signs of a tag stand behind the names of its attributes.
#[verifier::spinoff_prover]
proof fn equals_in_tag(
    x_min: Seq<char>,
    y_min: Seq<char>,
    x_max: Seq<char>,
    y_max: Seq<char>,
    i: int,
)
    requires
        plain(x_min),
        plain(y_min),
        plain(x_max),
        plain(y_max),
        0 <= i < tag_text(x_min, y_min, x_max, y_max).len(),
        tag_text(x_min, y_min, x_max, y_max)[i] == '=',
    ensures
        ({
            let e1: int = 10;
            let e2 = 12 + x_min.len() + 6;
            let e3 = e2 + 2 + y_min.len() + 6;
            let e4 = e3 + 2 + x_max.len() + 6;
            i == e1 || i == e2 || i == e3 || i == e4
        }),
{
    tag_revealed();
    let tag = tag_text(x_min, y_min, x_max, y_max);
    let v1: int = 12;
    let v2 = v1 + x_min.len() + 8;
    let v3 = v2 + y_min.len() + 8;
    let v4 = v3 + x_max.len() + 8;
    if v1 <= i < v1 + x_min.len() {
        assert(tag[i] == x_min[i - v1]);
    } else if v2 <= i < v2 + y_min.len() {
        assert(tag[i] == y_min[i - v2]);
    } else if v3 <= i < v3 + x_max.len() {
        assert(tag[i] == x_max[i - v3]);
    } else if v4 <= i < v4 + y_max.len() {
        assert(tag[i] == y_max[i - v4]);
    } else if i < v1 {
        assert(tag[i] == "<word xMin=\""@[i]);
    } else if i < v2 {
        assert(tag[i] == "\" yMin=\""@[i - v1 - x_min.len()]);
    } else if i < v3 {
        assert(tag[i] == "\" xMax=\""@[i - v2 - y_min.len()]);
    } else if i < v4 {
        assert(tag[i] == "\" yMax=\""@[i - v3 - x_max.len()]);
    } else {
        assert(tag[i] == "\""@[i - v4 - y_max.len()]);
    }
}

/// The letters of the names of the attributes.
proof fn letters_in_tag(x_min: Seq<char>, y_min: Seq<char>, x_max: Seq<char>, y_max: Seq<char>)
    ensures
        ({
            let tag = tag_text(x_min, y_min, x_max, y_max);
            let e1: int = 10;
            let e2 = 12 + x_min.len() + 6;
            let e3 = e2 + 2 + y_min.len() + 6;
            &&& tag[e1 - 4] == 'x'
            &&& tag[e1 - 2] == 'i'
            &&& tag[e2 - 4] == 'y'
            &&& tag[e2 - 2] == 'i'
            &&& tag[e3 - 4] == 'x'
        }),
{
    tag_revealed();
}

/// No brackets stand in the attributes of a tag.
#[verifier::spinoff_prover]
proof fn tag_lacks_brackets(
    x_min: Seq<char>,
    y_min: Seq<char>,
    x_max: Seq<char>,
    y_max: Seq<char>,
)
    requires
        plain(x_min),
        plain(y_min),
        plain(x_max),
        plain(y_max),
    ensures
        lacks(tag_text(x_min, y_min, x_max, y_max), '>'),
{
    tag_revealed();
    let tag = tag_text(x_min, y_min, x_max, y_max);
    let v1: int = 12;
    let v2 = v1 + x_min.len() + 8;
    let v3 = v2 + y_min.len() + 8;
    let v4 = v3 + x_max.len() + 8;
    assert forall|i: int| 0 <= i < tag.len() implies #[trigger] tag[i] != '>' by {
        if v1 <= i < v1 + x_min.len() {
            assert(tag[i] == x_min[i - v1]);
        } else if v2 <= i < v2 + y_min.len() {
            assert(tag[i] == y_min[i - v2]);
        } else if v3 <= i < v3 + x_max.len() {
            assert(tag[i] == x_max[i - v3]);
        } else if v4 <= i < v4 + y_max.len() {
            assert(tag[i] == y_max[i - v4]);
        } else if i < v1 {
            assert(tag[i] == "<word xMin=\""@[i]);
        } else if i < v2 {
            assert(tag[i] == "\" yMin=\""@[i - v1 - x_min.len()]);
        } else if i < v3 {
            assert(tag[i] == "\" xMax=\""@[i - v2 - y_min.len()]);
        } else if i < v4 {
            assert(tag[i] == "\" yMax=\""@[i - v3 - x_max.len()]);
        } else {
            assert(tag[i] == "\""@[i - v4 - y_max.len()]);
        }
    }
}

/// A pattern that starts with a character is not found where the text lacks that.
proof fn not_before(s: Seq<char>, p: Seq<char>, i: int, k: int)
    requires
        p.len() > 0,
        0 <= i <= k <= s.len(),
        forall|j: int| i <= j < k ==> #[trigger] s[j] != p[0],
    ensures
        forall|j: int| i <= j < k ==> !#[trigger] text::occurs_at(s, p, j),
{
    assert forall|j: int| i <= j < k implies !#[trigger] text::occurs_at(s, p, j) by {
        if text::occurs_at(s, p, j) {
            assert(s.subrange(j, j + p.len())[0] == s[j]);
        }
    }
}

/// A printed word is read as it was printed: its page, its text, the sides of its box each
/// as they are named, and the height of its page. One without text is passed over. The next
/// word is looked for behind it.
#[verifier::spinoff_prover]
pub proof fn a_printed_word_is_read(
    front: Seq<char>,
    gap: Seq<char>,
    sides: (Seq<char>, Seq<char>, Seq<char>, Seq<char>),
    raw: Seq<char>,
    rest: Seq<char>,
    page: nat,
    height: Option<Seq<char>>,
)
    requires
        lacks(gap, '<'),
        plain(sides.0),
        plain(sides.1),
        plain(sides.2),
        plain(sides.3),
        lacks(raw, '<'),
    ensures
        ({
            let tag = tag_text(sides.0, sides.1, sides.2, sides.3);
            let body = front + gap + tag + ">"@ + raw + "</word>"@ + rest;
            let word = RawView {
                page,
                text: textlayer::decoded(raw),
                x_min: Some(sides.0),
                y_min: Some(sides.1),
                x_max: Some(sides.2),
                y_max: Some(sides.3),
                page_height: height,
            };
            let later = textlayer::words_from(body, body.len() - rest.len(), page, height);
            textlayer::words_from(body, front.len() as int, page, height)
                == if textlayer::decoded(raw).len() == 0 {
                later
            } else {
                seq![word] + later
            }
        }),
{
    let tag = tag_text(sides.0, sides.1, sides.2, sides.3);
    let body = front + gap + tag + ">"@ + raw + "</word>"@ + rest;
    tag_revealed();
    reveal_strlit(">");
    reveal_strlit("</word>");
    reveal_strlit("<word ");
    let at = front.len() as int;
    let start = at + gap.len();
    let end = start + tag.len();
    let close = end + 1 + raw.len();
    assert forall|j: int| at <= j < start implies #[trigger] body[j] != '<' by {
        assert(body[j] == gap[j - at]);
    }
    assert("<word "@[0] == '<');
    not_before(body, "<word "@, at, start);
    assert forall|j: int| 0 <= j < 6 implies tag[j] == #[trigger] "<word "@[j] by {
        assert(tag[j] == "<word xMin=\""@[j]);
    }
    assert forall|j: int| start <= j < end implies #[trigger] body[j] == tag[j - start] by {}
    assert(body.subrange(start, start + 6) =~= "<word "@);
    first_at(body, "<word "@, at, start);
    tag_lacks_brackets(sides.0, sides.1, sides.2, sides.3);
    assert(">"@ =~= seq!['>']);
    assert(body[end] == '>');
    first_char(body, '>', start, end);
    assert forall|j: int| end + 1 <= j < close implies #[trigger] body[j] != '<' by {
        assert(body[j] == raw[j - end - 1]);
    }
    assert("</word>"@[0] == '<');
    not_before(body, "</word>"@, end + 1, close);
    assert(body.subrange(close, close + 7) =~= "</word>"@);
    first_at(body, "</word>"@, end + 1, close);
    assert(body.subrange(start, end) =~= tag);
    assert(body.subrange(end + 1, close) =~= raw);
    attributes_are_read(sides.0, sides.1, sides.2, sides.3);
}

/// Where no tag follows there is no word.
pub proof fn no_word_is_read_without_a_tag(
    front: Seq<char>,
    rest: Seq<char>,
    page: nat,
    height: Option<Seq<char>>,
)
    requires
        lacks(rest, '<'),
    ensures
        textlayer::words_from(front + rest, front.len() as int, page, height).len() == 0,
{
    let body = front + rest;
    let at = front.len() as int;
    reveal_strlit("<word ");
    assert forall|j: int| at <= j < body.len() implies #[trigger] body[j] != "<word "@[0] by {
        assert(body[j] == rest[j - at]);
    }
    not_before(body, "<word "@, at, body.len() as int);
    text::find_from_is_least(body, "<word "@, at);
}

/// The tag of a page.
pub open spec fn page_tag(width: Seq<char>, height: Seq<char>) -> Seq<char> {
    "<page width=\""@ + width + "\" height=\""@ + height + "\""@
}

/// The height of a page is read as it was printed.
proof fn height_is_read(width: Seq<char>, height: Seq<char>)
    requires
        plain(width),
        plain(height),
    ensures
        textlayer::attr_of(page_tag(width, height), "height"@) == Some(height),
        lacks(page_tag(width, height), '>'),
{
    let tag = page_tag(width, height);
    reveal_strlit("<page width=\"");
    reveal_strlit("\" height=\"");
    reveal_strlit("\"");
    reveal_strlit("height");
    reveal_strlit("=\"");
    let first = "<page width=\""@;
    let second = "\" height=\""@;
    let v1 = first.len() as int;
    let v2 = v1 + width.len() + second.len();
    assert(v1 == 13 && second.len() == 10);
    assert forall|i: int| 0 <= i < tag.len() implies #[trigger] tag[i] != '>' && (tag[i] == '=' ==> i
        == v1 - 2 || i == v2 - 2) by {
        if i < v1 {
            assert(tag[i] == first[i]);
        } else if i < v1 + width.len() {
            assert(tag[i] == width[i - v1]);
        } else if i < v2 {
            assert(tag[i] == second[i - v1 - width.len()]);
        } else if i < v2 + height.len() {
            assert(tag[i] == height[i - v2]);
        } else {
            assert(tag[i] == "\""@[0]);
        }
    }
    let before = first + width + seq!['"', ' '];
    let p = "height"@ + "=\""@;
    assert forall|j: int| 0 <= j < before.len() implies !#[trigger] text::occurs_at(tag, p, j) by {
        if text::occurs_at(tag, p, j) {
            let there = tag.subrange(j, j + p.len());
            assert(there[6] == '=' && there[0] == 'h');
            assert(tag[j + 6] == '=');
            assert(tag[5] == first[5]);
        }
    }
    assert(tag =~= before + "height"@ + "=\""@ + height + "\""@ + Seq::<char>::empty());
    attribute_is_found(tag, before, "height"@, height, Seq::empty());
}

/// A printed page gives the words between its tag and its end, under its number and with
/// its height; the next page is looked for behind it, under the next number.
#[verifier::spinoff_prover]
pub proof fn a_printed_page_is_read(
    front: Seq<char>,
    gap: Seq<char>,
    width: Seq<char>,
    height: Seq<char>,
    inner: Seq<char>,
    rest: Seq<char>,
    n: nat,
)
    requires
        plain(width),
        plain(height),
        forall|j: int|
            0 <= j < gap.len() ==> !#[trigger] text::occurs_at(
                gap + page_tag(width, height),
                "<page "@,
                j,
            ),
        forall|j: int|
            0 <= j < inner.len() ==> !#[trigger] text::occurs_at(inner + "</page>"@, "</page>"@, j),
    ensures
        ({
            let s = front + gap + page_tag(width, height) + ">"@ + inner + "</page>"@ + rest;
            let words = textlayer::words_from(">"@ + inner, 0, n, Some(height));
            textlayer::pages_from(s, front.len() as int, n) == match textlayer::pages_from(
                s,
                s.len() - rest.len() - 7,
                n + 1,
            ) {
                Some(more) => Some(words + more),
                None => None,
            }
        }),
{
    let tag = page_tag(width, height);
    let s = front + gap + tag + ">"@ + inner + "</page>"@ + rest;
    reveal_strlit("<page width=\"");
    reveal_strlit("<page ");
    reveal_strlit("</page>");
    reveal_strlit(">");
    height_is_read(width, height);
    let at = front.len() as int;
    let start = at + gap.len();
    let end = start + tag.len();
    let close = end + 1 + inner.len();
    assert(tag.len() >= 13);
    assert forall|j: int| at <= j < start implies !#[trigger] text::occurs_at(s, "<page "@, j) by {
        if text::occurs_at(s, "<page "@, j) {
            let some = gap + tag;
            assert(s.subrange(j, j + 6) =~= some.subrange(j - at, j - at + 6));
            assert(text::occurs_at(some, "<page "@, j - at));
        }
    }
    assert forall|j: int| 0 <= j < 6 implies tag[j] == #[trigger] "<page "@[j] by {
        assert(tag[j] == "<page width=\""@[j]);
    }
    assert forall|j: int| start <= j < end implies #[trigger] s[j] == tag[j - start] by {}
    assert(s.subrange(start, start + 6) =~= "<page "@);
    first_at(s, "<page "@, at, start);
    assert(">"@ =~= seq!['>']);
    assert(s[end] == '>');
    first_char(s, '>', start, end);
    let shut = "</page>"@;
    assert(s.subrange(close, close + 7) =~= shut);
    tag_lacks_end(width, height);
    assert forall|j: int| start <= j < close implies !#[trigger] text::occurs_at(s, shut, j) by {
        if text::occurs_at(s, shut, j) {
            let there = s.subrange(j, j + 7);
            assert(there[0] == '<' && there[1] == '/');
            assert(s[j] == '<' && s[j + 1] == '/');
            if j <= end {
                if j < end {
                    assert(s[j] == tag[j - start]);
                }
            } else {
                let some = inner + shut;
                assert(s.subrange(j, j + 7) =~= some.subrange(j - end - 1, j - end + 6));
                assert(text::occurs_at(some, shut, j - end - 1));
            }
        }
    }
    first_at(s, shut, start, close);
    assert(s.subrange(start, end) =~= tag);
    assert(s.subrange(end, close) =~= ">"@ + inner);
}

/// In the tag of a page a bracket opens at its front alone, and no slash follows it.
proof fn tag_lacks_end(width: Seq<char>, height: Seq<char>)
    requires
        plain(width),
        plain(height),
    ensures
        forall|i: int|
            0 <= i < page_tag(width, height).len() && #[trigger] page_tag(width, height)[i] == '<' ==> i
                == 0,
        page_tag(width, height)[1] == 'p',
{
    let tag = page_tag(width, height);
    reveal_strlit("<page width=\"");
    reveal_strlit("\" height=\"");
    reveal_strlit("\"");
    let first = "<page width=\""@;
    let second = "\" height=\""@;
    let v1 = first.len() as int;
    let v2 = v1 + width.len() + second.len();
    assert forall|i: int| 0 <= i < tag.len() && #[trigger] tag[i] == '<' implies i == 0 by {
        if i < v1 {
            assert(tag[i] == first[i]);
        } else if i < v1 + width.len() {
            assert(tag[i] == width[i - v1]);
        } else if i < v2 {
            assert(tag[i] == second[i - v1 - width.len()]);
        } else if i < v2 + height.len() {
            assert(tag[i] == height[i - v2]);
        } else {
            assert(tag[i] == "\""@[0]);
        }
    }
    assert(tag[1] == first[1]);
}

/// Where no page follows there are no more words.
pub proof fn no_page_is_read_without_a_tag(s: Seq<char>, at: int, n: nat)
    requires
        0 <= at <= s.len(),
        forall|j: int| at <= j ==> !#[trigger] text::occurs_at(s, "<page "@, j),
    ensures
        textlayer::pages_from(s, at, n) == Some(Seq::<RawView>::empty()),
        textlayer::words_printed(s) == textlayer::pages_from(s, 0, 0),
{
    text::find_from_is_least(s, "<page "@, at);
}

/// A word holds what is told of it, each in its own field.
pub proof fn words_hold_what_is_told(word: RawWord)
    ensures
        word@.page == word.page,
        word@.text == word.text@,
        word@.x_min is Some <==> word.x_min is Some,
        word@.x_min is Some ==> word@.x_min->Some_0 == word.x_min->Some_0@,
        word@.y_min is Some <==> word.y_min is Some,
        word@.y_min is Some ==> word@.y_min->Some_0 == word.y_min->Some_0@,
        word@.x_max is Some <==> word.x_max is Some,
        word@.x_max is Some ==> word@.x_max->Some_0 == word.x_max->Some_0@,
        word@.y_max is Some <==> word.y_max is Some,
        word@.y_max is Some ==> word@.y_max->Some_0 == word.y_max->Some_0@,
        word@.page_height is Some <==> word.page_height is Some,
        word@.page_height is Some ==> word@.page_height->Some_0 == word.page_height->Some_0@,
{
}

} // verus!

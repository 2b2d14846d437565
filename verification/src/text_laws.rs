//! What the text primitives do to a text, and what escaping, numbers and a configuration
//! come to.

use crate::config::{Config, ConfigError};
use crate::markup;
use crate::text;
use vstd::prelude::*;

verus! {

// ---------------------------------------------------------------------------
// Numbers
// ---------------------------------------------------------------------------
/// A number is written digit by digit, the last one at the end.
pub proof fn numbers_are_written_in_digits(n: nat, d: nat)
    requires
        d < 10,
    ensures
        text::decimal(d) == seq!["0123456789"@[d as int]],
        n > 0 ==> text::decimal(10 * n + d) == text::decimal(n).push("0123456789"@[d as int]),
{
    reveal_strlit("0123456789");
    assert("0123456789"@[d as int] == text::digit(d));
    assert((10 * n + d) / 10 == n);
    assert((10 * n + d) % 10 == d);
}

// ---------------------------------------------------------------------------
// White space
// ---------------------------------------------------------------------------
/// Among the characters of ASCII white space is a blank, or one from the tab to the
/// carriage return.
pub proof fn blanks_of_ascii(c: char)
    requires
        (c as u32) < 128,
    ensures
        text::white_space(c) == (c as u32 == 32 || 9 <= c as u32 <= 13),
{
}

/// All characters of the text are white space.
pub open spec fn all_blank(s: Seq<char>) -> bool {
    forall|i: int| 0 <= i < s.len() ==> text::white_space(#[trigger] s[i])
}

/// No character of the text is white space.
pub open spec fn none_blank(s: Seq<char>) -> bool {
    forall|i: int| 0 <= i < s.len() ==> !text::white_space(#[trigger] s[i])
}

/// What is skipped satisfies the test, and what is left does not start so.
pub(crate) proof fn skipped(s: Seq<char>, p: spec_fn(char) -> bool) -> (front: Seq<char>)
    ensures
        s == front + text::skip_while(s, p),
        forall|i: int| 0 <= i < front.len() ==> p(#[trigger] front[i]),
        text::skip_while(s, p).len() > 0 ==> !p(text::skip_while(s, p)[0]),
    decreases s.len(),
{
    if s.len() > 0 && p(s[0]) {
        let rest = skipped(s.drop_first(), p);
        let front = seq![s[0]] + rest;
        assert(s =~= seq![s[0]] + s.drop_first());
        assert(text::skip_while(s, p) == text::skip_while(s.drop_first(), p));
        assert(seq![s[0]] + (rest + text::skip_while(s, p)) =~= front + text::skip_while(s, p));
        front
    } else {
        assert(s =~= Seq::<char>::empty() + s);
        Seq::empty()
    }
}

/// What is dropped satisfies the test, and what is left does not end so.
pub(crate) proof fn dropped(s: Seq<char>, p: spec_fn(char) -> bool) -> (back: Seq<char>)
    ensures
        s == text::drop_while(s, p) + back,
        forall|i: int| 0 <= i < back.len() ==> p(#[trigger] back[i]),
        text::drop_while(s, p).len() > 0 ==> !p(text::drop_while(s, p).last()),
    decreases s.len(),
{
    if s.len() > 0 && p(s.last()) {
        let rest = dropped(s.drop_last(), p);
        let back = rest.push(s.last());
        assert(s =~= s.drop_last().push(s.last()));
        assert(text::drop_while(s, p) == text::drop_while(s.drop_last(), p));
        assert((text::drop_while(s, p) + rest).push(s.last()) =~= text::drop_while(s, p) + back);
        back
    } else {
        assert(s =~= s + Seq::<char>::empty());
        Seq::empty()
    }
}

/// Only white space is trimmed, and no more is left at either end.
pub proof fn trimming_takes_the_white_space_around(s: Seq<char>) -> (around: (
    Seq<char>,
    Seq<char>,
))
    ensures
        s == around.0 + text::trimmed(s) + around.1,
        all_blank(around.0),
        all_blank(around.1),
        text::trimmed(s).len() > 0 ==> !text::white_space(text::trimmed(s)[0]) && !text::white_space(
            text::trimmed(s).last(),
        ),
{
    let p = text::blank();
    let front = skipped(s, p);
    let middle = text::skip_while(s, p);
    let back = dropped(middle, p);
    assert(s =~= front + text::trimmed(s) + back);
    assert forall|i: int| 0 <= i < front.len() implies text::white_space(#[trigger] front[i]) by {
        assert(p(front[i]));
    }
    assert forall|i: int| 0 <= i < back.len() implies text::white_space(#[trigger] back[i]) by {
        assert(p(back[i]));
    }
    (front, back)
}

/// Trimming a character takes it from both ends, and nothing else.
pub proof fn trimming_takes_the_character_around(s: Seq<char>, q: char) -> (around: (
    Seq<char>,
    Seq<char>,
))
    ensures
        s == around.0 + text::trimmed_of(s, q) + around.1,
        forall|i: int| 0 <= i < around.0.len() ==> #[trigger] around.0[i] == q,
        forall|i: int| 0 <= i < around.1.len() ==> #[trigger] around.1[i] == q,
        text::trimmed_of(s, q).len() > 0 ==> text::trimmed_of(s, q)[0] != q && text::trimmed_of(
            s,
            q,
        ).last() != q,
{
    let p = text::only(q);
    let front = skipped(s, p);
    let middle = text::skip_while(s, p);
    let back = dropped(middle, p);
    assert(s =~= front + text::trimmed_of(s, q) + back);
    assert forall|i: int| 0 <= i < front.len() implies #[trigger] front[i] == q by {
        assert(p(front[i]));
    }
    assert forall|i: int| 0 <= i < back.len() implies #[trigger] back[i] == q by {
        assert(p(back[i]));
    }
    (front, back)
}

// ---------------------------------------------------------------------------
// Splitting and joining
// ---------------------------------------------------------------------------
/// A text without a separator is one piece.
proof fn unsplit(s: Seq<char>, p: spec_fn(char) -> bool)
    requires
        forall|i: int| 0 <= i < s.len() ==> !p(#[trigger] s[i]),
    ensures
        text::split(s, p) == seq![s],
    decreases s.len(),
{
    if s.len() > 0 {
        unsplit(s.drop_last(), p);
        assert(!p(s[s.len() - 1]));
        assert(s.drop_last().push(s.last()) =~= s);
        assert(text::split(s, p) =~= seq![s]);
    } else {
        assert(s =~= Seq::empty());
        assert(text::split(s, p) =~= seq![s]);
    }
}

/// There is always a piece.
proof fn some_piece(s: Seq<char>, p: spec_fn(char) -> bool)
    ensures
        text::split(s, p).len() > 0,
    decreases s.len(),
{
    if s.len() > 0 {
        some_piece(s.drop_last(), p);
    }
}

/// At a separator a text falls into the pieces before it and those behind it.
proof fn split_apart(a: Seq<char>, c: char, b: Seq<char>, p: spec_fn(char) -> bool)
    requires
        p(c),
    ensures
        text::split(a.push(c) + b, p) == text::split(a, p) + text::split(b, p),
    decreases b.len(),
{
    let s = a.push(c) + b;
    some_piece(b, p);
    if b.len() == 0 {
        assert(s.drop_last() =~= a);
        assert(text::split(s, p) =~= text::split(a, p) + text::split(b, p));
    } else {
        split_apart(a, c, b.drop_last(), p);
        some_piece(b.drop_last(), p);
        assert(s.drop_last() =~= a.push(c) + b.drop_last());
        assert(text::split(s, p) =~= text::split(a, p) + text::split(b, p));
    }
}

/// A text is split at a character, each time that it occurs, and nowhere else.
pub proof fn texts_are_split_at_the_character(a: Seq<char>, b: Seq<char>, q: char)
    ensures
        text::split(a.push(q) + b, text::only(q)) == text::split(a, text::only(q)) + text::split(
            b,
            text::only(q),
        ),
        !a.contains(q) ==> text::split(a, text::only(q)) == seq![a],
{
    split_apart(a, q, b, text::only(q));
    if !a.contains(q) {
        assert forall|i: int| 0 <= i < a.len() implies !text::only(q)(#[trigger] a[i]) by {
            assert(a.contains(a[i]));
        }
        unsplit(a, text::only(q));
    }
}

/// What is not empty of two lists is what is not empty of each.
proof fn filled_both(a: Seq<Seq<char>>, b: Seq<Seq<char>>)
    ensures
        text::filled(a + b) == text::filled(a) + text::filled(b),
    decreases b.len(),
{
    if b.len() == 0 {
        assert(a + b =~= a);
        reveal(Seq::filter);
        assert(text::filled(b) =~= Seq::empty());
        assert(text::filled(a) + text::filled(b) =~= text::filled(a));
    } else {
        filled_both(a, b.drop_last());
        text::filled_step(b);
        text::filled_step(a + b);
        assert((a + b).drop_last() =~= a + b.drop_last());
        assert(text::filled(a + b) =~= text::filled(a) + text::filled(b));
    }
}

/// White space separates the words of a text, and nothing else does: what has none is one
/// word, and nothing is none.
pub proof fn words_stand_between_white_space(a: Seq<char>, c: char, b: Seq<char>)
    ensures
        text::white_space(c) ==> text::words_of(a.push(c) + b) == text::words_of(a)
            + text::words_of(b),
        a.len() > 0 && none_blank(a) ==> text::words_of(a) == seq![a],
        a.len() == 0 ==> text::words_of(a) == Seq::<Seq<char>>::empty(),
{
    let p = text::blank();
    if text::white_space(c) {
        split_apart(a, c, b, p);
        filled_both(text::split(a, p), text::split(b, p));
    }
    if none_blank(a) {
        assert forall|i: int| 0 <= i < a.len() implies !p(#[trigger] a[i]) by {}
        unsplit(a, p);
        text::filled_step(seq![a]);
        assert(seq![a].drop_last() =~= Seq::empty());
        reveal(Seq::filter);
        assert(text::filled(Seq::empty()) =~= Seq::empty());
        if a.len() > 0 {
            assert(text::words_of(a) =~= seq![a]);
        }
    }
}

/// A line feed ends a line, and so does a carriage return with a line feed. What has no
/// line feed is one line, and nothing is none.
pub proof fn lines_end_at_line_feeds(line: Seq<char>, rest: Seq<char>)
    requires
        !line.contains('\n'),
    ensures
        text::lines_of(line.push('\r').push('\n') + rest) == seq![line] + text::lines_of(rest),
        line.len() == 0 || line.last() != '\r' ==> text::lines_of(line.push('\n') + rest)
            == seq![line] + text::lines_of(rest),
        line.len() > 0 ==> text::lines_of(line) == seq![line],
        text::lines_of(Seq::empty()) == Seq::<Seq<char>>::empty(),
{
    let p = text::only('\n');
    let returned = line.push('\r');
    assert forall|i: int| 0 <= i < line.len() implies !p(#[trigger] line[i]) by {
        assert(line.contains(line[i]));
    }
    assert forall|i: int| 0 <= i < returned.len() implies !p(#[trigger] returned[i]) by {
        if i < line.len() {
            assert(!p(line[i]));
        }
    }
    unsplit(line, p);
    unsplit(returned, p);
    split_apart(line, '\n', rest, p);
    split_apart(returned, '\n', rest, p);
    some_piece(rest, p);
    assert(returned.drop_last() =~= line);
    assert(text::lines_of(returned.push('\n') + rest) =~= seq![line] + text::lines_of(rest));
    if line.len() == 0 || line.last() != '\r' {
        assert(text::lines_of(line.push('\n') + rest) =~= seq![line] + text::lines_of(rest));
    }
    if line.len() > 0 {
        assert(text::lines_of(line) =~= seq![line]);
    }
    unsplit(Seq::empty(), p);
    assert(text::lines_of(Seq::empty()) =~= Seq::<Seq<char>>::empty());
}

/// Joined lists of parts are the one, the separator and the other.
pub proof fn parts_are_joined(a: Seq<Seq<char>>, b: Seq<Seq<char>>, sep: Seq<char>)
    requires
        a.len() > 0,
        b.len() > 0,
    ensures
        text::join(a + b, sep) == text::join(a, sep) + sep + text::join(b, sep),
        a.len() == 1 ==> text::join(a, sep) == a[0],
    decreases b.len(),
{
    let all = a + b;
    assert(all.drop_last() =~= a + b.drop_last());
    if b.len() == 1 {
        assert(all.drop_last() =~= a);
        assert(text::join(all, sep) =~= text::join(a, sep) + sep + text::join(b, sep));
    } else {
        parts_are_joined(a, b.drop_last(), sep);
        assert(text::join(all, sep) =~= text::join(a, sep) + sep + text::join(b, sep));
    }
}

/// A text starts with another where it is that one with something behind it, and ends with
/// it where it is that one with something before it.
pub proof fn texts_start_and_end(s: Seq<char>, p: Seq<char>, more: Seq<char>)
    ensures
        text::starts_with(p + more, p),
        text::ends_with(more + p, p),
        text::starts_with(s, p) ==> s == p + s.skip(p.len() as int),
        text::ends_with(s, p) ==> s == s.take(s.len() - p.len()) + p,
{
    assert((p + more).subrange(0, p.len() as int) =~= p);
    assert((more + p).subrange(more.len() as int, (more + p).len() as int) =~= p);
    if text::starts_with(s, p) {
        assert(s =~= s.subrange(0, p.len() as int) + s.skip(p.len() as int));
    }
    if text::ends_with(s, p) {
        assert(s =~= s.take(s.len() - p.len()) + s.subrange(s.len() - p.len(), s.len() as int));
    }
}

// ---------------------------------------------------------------------------
// Escaping
// ---------------------------------------------------------------------------
/// Escaping two texts is escaping them one after the other.
proof fn escaped_both(a: Seq<char>, b: Seq<char>, special: spec_fn(char) -> bool)
    ensures
        markup::escaped(a + b, special) == markup::escaped(a, special) + markup::escaped(b, special),
    decreases b.len(),
{
    if b.len() == 0 {
        assert(a + b =~= a);
        assert(markup::escaped(a, special) + markup::escaped(b, special) =~= markup::escaped(
            a,
            special,
        ));
    } else {
        escaped_both(a, b.drop_last(), special);
        assert((a + b).drop_last() =~= a + b.drop_last());
        assert(markup::escaped(a + b, special) =~= markup::escaped(a, special) + markup::escaped(
            b,
            special,
        ));
    }
}

/// One character is escaped by itself.
proof fn escaped_one(c: char, special: spec_fn(char) -> bool)
    ensures
        markup::escaped(seq![c], special) == markup::escaped_char(c, special),
{
    assert(seq![c].drop_last() =~= Seq::empty());
    assert(markup::escaped(Seq::empty(), special) =~= Seq::<char>::empty());
    assert(markup::escaped(seq![c], special) =~= Seq::<char>::empty() + markup::escaped_char(
        c,
        special,
    ));
}

/// In markup each of these characters gets a backslash, and every other one stays; texts
/// are escaped one after the other.
pub proof fn markup_is_escaped_by_its_characters(a: Seq<char>, b: Seq<char>, c: char)
    ensures
        markup::content(a + b) == markup::content(a) + markup::content(b),
        "\\#$*_`<>@=~/-+\"'[]"@.contains(c) ==> markup::content(seq![c]) == seq!['\\', c],
        !"\\#$*_`<>@=~/-+\"'[]"@.contains(c) ==> markup::content(seq![c]) == seq![c],
{
    escaped_both(a, b, markup::markup_special());
    escaped_one(c, markup::markup_special());
    reveal_strlit("\\#$*_`<>@=~/-+\"'[]");
    let listed = "\\#$*_`<>@=~/-+\"'[]"@;
    assert(listed[0] == '\\' && listed[1] == '#' && listed[2] == '$' && listed[3] == '*'
        && listed[4] == '_' && listed[5] == '`' && listed[6] == '<' && listed[7] == '>' && listed[8]
        == '@' && listed[9] == '=' && listed[10] == '~' && listed[11] == '/' && listed[12] == '-'
        && listed[13] == '+' && listed[14] == '"' && listed[15] == '\'' && listed[16] == '['
        && listed[17] == ']');
    if markup::markup_special()(c) {
        assert(listed.contains(c));
    }
    if listed.contains(c) {
        let i = choose|i: int| 0 <= i < listed.len() && listed[i] == c;
        assert(listed.len() == 18);
        assert(markup::markup_special()(c));
    }
}

/// In a string literal a backslash and a double quote get a backslash, and every other
/// character stays; texts are escaped one after the other.
pub proof fn literals_are_escaped_by_their_characters(a: Seq<char>, b: Seq<char>, c: char)
    ensures
        markup::literal(a + b) == markup::literal(a) + markup::literal(b),
        c as u32 == 92 || c as u32 == 34 ==> markup::literal(seq![c]) == seq!['\\', c],
        c as u32 != 92 && c as u32 != 34 ==> markup::literal(seq![c]) == seq![c],
{
    escaped_both(a, b, markup::literal_special());
    escaped_one(c, markup::literal_special());
}

// ---------------------------------------------------------------------------
// The configuration
// ---------------------------------------------------------------------------
/// A configuration is in order where a folder is watched, the backend is one of the two,
/// and the suffixes differ. It lacks folders whatever else is wrong, and its backend is
/// told before its suffixes.
pub proof fn configurations_are_in_order(config: Config)
    ensures
        ({
            let watched = config.watched_paths@.len() >= 1;
            let known = config.deploy.backend@ == "rmapi"@ || config.deploy.backend@ == "none"@;
            let differ = config.output.annotated_suffix@ != config.output.digest_suffix@;
            &&& config.fault() is None <==> watched && known && differ
            &&& config.fault() == Some(ConfigError::NoPaths) <==> !watched
            &&& config.fault() == Some(ConfigError::BadBackend) <==> watched && !known
            &&& config.fault() == Some(ConfigError::SameSuffix) <==> watched && known && !differ
        }),
{
}

} // verus!

//! Text primitives on sequences of characters: trimming, searching, splitting,
//! replacing and decimal numbers, each with the sequence it yields.

use vstd::prelude::*;
use vstd::string::*;
use vstd::utf8::*;

verus! {

/// `String::push`: the character is appended to the text.
pub assume_specification[ String::push ](to: &mut String, c: char)
    ensures
        final(to)@ == old(to)@.push(c),
;

/// The characters with the Unicode property `White_Space`.
pub open spec fn white_space(c: char) -> bool {
    ||| '\u{9}' <= c <= '\u{d}'
    ||| c == ' '
    ||| c == '\u{85}'
    ||| c == '\u{a0}'
    ||| c == '\u{1680}'
    ||| '\u{2000}' <= c <= '\u{200a}'
    ||| c == '\u{2028}'
    ||| c == '\u{2029}'
    ||| c == '\u{202f}'
    ||| c == '\u{205f}'
    ||| c == '\u{3000}'
}

/// Whether `c` has the Unicode property `White_Space`.
pub fn is_white_space(c: char) -> (r: bool)
    ensures
        r == white_space(c),
{
    ('\u{9}' <= c && c <= '\u{d}') || c == ' ' || c == '\u{85}' || c == '\u{a0}' || c == '\u{1680}'
        || ('\u{2000}' <= c && c <= '\u{200a}') || c == '\u{2028}' || c == '\u{2029}' || c
        == '\u{202f}' || c == '\u{205f}' || c == '\u{3000}'
}

/// The characters of `s`, in order.
pub fn chars_of(s: &str) -> (v: Vec<char>)
    ensures
        v@ == s@,
{
    let mut v: Vec<char> = Vec::new();
    for c in it: s.chars()
        invariant
            v@ == s@.take(it.index() as int),
            it.seq() == s@,
    {
        v.push(c);
        assert(s@.take(it.index() as int + 1) =~= s@.take(it.index() as int).push(c));
    }
    assert(s@.take(s@.len() as int) =~= s@);
    v
}

/// The text made of the characters `v[from..to]`.
pub fn string_of(v: &Vec<char>, from: usize, to: usize) -> (s: String)
    requires
        from <= to <= v@.len(),
    ensures
        s@ == v@.subrange(from as int, to as int),
{
    let mut s = String::new();
    let mut i: usize = from;
    while i < to
        invariant
            from <= i <= to <= v@.len(),
            s@ == v@.subrange(from as int, i as int),
        decreases to - i,
    {
        s.push(v[i]);
        assert(v@.subrange(from as int, i + 1) =~= v@.subrange(from as int, i as int).push(
            v@[i as int],
        ));
        i = i + 1;
    }
    s
}

/// The subsequence of `v` from `from` up to `to`.
pub fn slice_of(v: &Vec<char>, from: usize, to: usize) -> (r: Vec<char>)
    requires
        from <= to <= v@.len(),
    ensures
        r@ == v@.subrange(from as int, to as int),
{
    let mut r: Vec<char> = Vec::new();
    let mut i: usize = from;
    while i < to
        invariant
            from <= i <= to <= v@.len(),
            r@ == v@.subrange(from as int, i as int),
        decreases to - i,
    {
        r.push(v[i]);
        assert(v@.subrange(from as int, i + 1) =~= v@.subrange(from as int, i as int).push(
            v@[i as int],
        ));
        i = i + 1;
    }
    r
}

/// Appends the characters of `v` to `text`.
pub fn append_chars(text: &mut String, v: &Vec<char>)
    ensures
        final(text)@ == old(text)@ + v@,
{
    let mut i: usize = 0;
    while i < v.len()
        invariant
            i <= v@.len(),
            text@ == old(text)@ + v@.take(i as int),
        decreases v@.len() - i,
    {
        text.push(v[i]);
        assert(v@.take(i + 1) =~= v@.take(i as int).push(v@[i as int]));
        i = i + 1;
    }
    assert(v@.take(v@.len() as int) =~= v@);
}

// ---------------------------------------------------------------------------
// Trimming
// ---------------------------------------------------------------------------
/// `s` without the longest prefix of characters that satisfy `p`.
pub open spec fn skip_while(s: Seq<char>, p: spec_fn(char) -> bool) -> Seq<char>
    decreases s.len(),
{
    if s.len() > 0 && p(s[0]) {
        skip_while(s.drop_first(), p)
    } else {
        s
    }
}

/// `s` without the longest suffix of characters that satisfy `p`.
pub open spec fn drop_while(s: Seq<char>, p: spec_fn(char) -> bool) -> Seq<char>
    decreases s.len(),
{
    if s.len() > 0 && p(s.last()) {
        drop_while(s.drop_last(), p)
    } else {
        s
    }
}

/// The test for white space.
pub open spec fn blank() -> spec_fn(char) -> bool {
    |c: char| white_space(c)
}

/// The test for the character `q`.
pub open spec fn only(q: char) -> spec_fn(char) -> bool {
    |c: char| c == q
}

/// `s` without leading and trailing white space.
pub open spec fn trimmed(s: Seq<char>) -> Seq<char> {
    drop_while(skip_while(s, blank()), blank())
}

/// `s` without any leading and trailing `q`.
pub open spec fn trimmed_of(s: Seq<char>, q: char) -> Seq<char> {
    drop_while(skip_while(s, only(q)), only(q))
}

/// Skipping makes no text longer.
pub proof fn skipping_is_short(s: Seq<char>, p: spec_fn(char) -> bool)
    ensures
        skip_while(s, p).len() <= s.len(),
    decreases s.len(),
{
    if s.len() > 0 && p(s[0]) {
        skipping_is_short(s.drop_first(), p);
    }
}

/// Dropping makes no text longer.
pub proof fn dropping_is_short(s: Seq<char>, p: spec_fn(char) -> bool)
    ensures
        drop_while(s, p).len() <= s.len(),
    decreases s.len(),
{
    if s.len() > 0 && p(s.last()) {
        dropping_is_short(s.drop_last(), p);
    }
}

/// What is left of a text does not end in what was dropped.
pub proof fn drop_while_ends(s: Seq<char>, p: spec_fn(char) -> bool)
    ensures
        drop_while(s, p).len() > 0 ==> !p(drop_while(s, p).last()),
    decreases s.len(),
{
    if s.len() > 0 && p(s.last()) {
        drop_while_ends(s.drop_last(), p);
    }
}

/// The text of `v` without leading and trailing white space.
pub fn trim(v: &Vec<char>) -> (r: Vec<char>)
    ensures
        r@ == trimmed(v@),
{
    let ghost p = blank();
    let mut from: usize = 0;
    let n = v.len();
    assert(v@.subrange(0, n as int) =~= v@);
    while from < n && is_white_space(v[from])
        invariant
            from <= n == v@.len(),
            p == blank(),
            skip_while(v@, p) == skip_while(v@.subrange(from as int, n as int), p),
        decreases n - from,
    {
        assert(v@.subrange(from as int, n as int).drop_first() =~= v@.subrange(from + 1, n as int));
        from = from + 1;
    }
    assert(skip_while(v@, p) == v@.subrange(from as int, n as int));
    let mut to: usize = n;
    while from < to && is_white_space(v[to - 1])
        invariant
            from <= to <= n == v@.len(),
            p == blank(),
            drop_while(v@.subrange(from as int, n as int), p) == drop_while(
                v@.subrange(from as int, to as int),
                p,
            ),
        decreases to,
    {
        assert(v@.subrange(from as int, to as int).drop_last() =~= v@.subrange(
            from as int,
            to - 1,
        ));
        to = to - 1;
    }
    slice_of(v, from, to)
}

/// The text of `v` without any leading `q`.
pub fn skip_char(v: &Vec<char>, q: char) -> (r: Vec<char>)
    ensures
        r@ == skip_while(v@, only(q)),
{
    let ghost p = only(q);
    let mut from: usize = 0;
    let n = v.len();
    assert(v@.subrange(0, n as int) =~= v@);
    while from < n && v[from] == q
        invariant
            from <= n == v@.len(),
            p == only(q),
            skip_while(v@, p) == skip_while(v@.subrange(from as int, n as int), p),
        decreases n - from,
    {
        assert(v@.subrange(from as int, n as int).drop_first() =~= v@.subrange(from + 1, n as int));
        from = from + 1;
    }
    slice_of(v, from, n)
}

/// The text of `v` without any leading and trailing `q`.
pub fn trim_char(v: &Vec<char>, q: char) -> (r: Vec<char>)
    ensures
        r@ == trimmed_of(v@, q),
{
    let ghost p = only(q);
    let w = skip_char(v, q);
    let n = w.len();
    let mut to: usize = n;
    assert(w@.subrange(0, n as int) =~= w@);
    while 0 < to && w[to - 1] == q
        invariant
            to <= n == w@.len(),
            p == only(q),
            drop_while(w@, p) == drop_while(w@.subrange(0, to as int), p),
        decreases to,
    {
        assert(w@.subrange(0, to as int).drop_last() =~= w@.subrange(0, to - 1));
        to = to - 1;
    }
    slice_of(&w, 0, to)
}

// ---------------------------------------------------------------------------
// Searching
// ---------------------------------------------------------------------------
/// `p` stands in `s` at index `i`.
pub open spec fn occurs_at<T>(s: Seq<T>, p: Seq<T>, i: int) -> bool {
    0 <= i && i + p.len() <= s.len() && s.subrange(i, i + p.len()) == p
}

/// What stands in a text stands in every text around it.
pub proof fn occurs_within<T>(before: Seq<T>, s: Seq<T>, after: Seq<T>, p: Seq<T>, i: int)
    requires
        occurs_at(s, p, i),
    ensures
        occurs_at(before + s + after, p, before.len() + i),
{
    let all = before + s + after;
    let at = before.len() + i;
    assert(all.subrange(at, at + p.len()) =~= s.subrange(i, i + p.len()));
}

/// What stands at an index stands at the front of the rest.
pub proof fn occurs_behind<T>(s: Seq<T>, p: Seq<T>, i: int)
    requires
        0 <= i <= s.len(),
    ensures
        occurs_at(s, p, i) == occurs_at(s.skip(i), p, 0),
{
    if i + p.len() <= s.len() {
        assert(s.skip(i).subrange(0, p.len() as int) =~= s.subrange(i, i + p.len()));
    }
}

/// The first index, `i` or later, at which `p` stands in `s`.
pub open spec fn find_from<T>(s: Seq<T>, p: Seq<T>, i: int) -> Option<int>
    decreases s.len() - i + 1,
{
    if i + p.len() > s.len() {
        None
    } else if occurs_at(s, p, i) {
        Some(i)
    } else {
        find_from(s, p, i + 1)
    }
}

/// The first index at which `p` stands in `s`.
pub open spec fn find<T>(s: Seq<T>, p: Seq<T>) -> Option<int> {
    find_from(s, p, 0)
}

/// A search that starts at `i` yields the least index from `i` on at which the
/// pattern stands, and nothing exactly when there is none.
pub proof fn find_from_is_least<T>(s: Seq<T>, p: Seq<T>, i: int)
    requires
        0 <= i,
    ensures
        match find_from(s, p, i) {
            Some(k) => i <= k && occurs_at(s, p, k) && forall|j: int|
                i <= j < k ==> !#[trigger] occurs_at(s, p, j),
            None => forall|j: int| i <= j ==> !#[trigger] occurs_at(s, p, j),
        },
    decreases s.len() - i + 1,
{
    if i + p.len() > s.len() {
    } else if occurs_at(s, p, i) {
    } else {
        find_from_is_least(s, p, i + 1);
    }
}

/// Whether `p` stands in `v` at index `i`.
pub fn stands_at(v: &Vec<char>, p: &Vec<char>, i: usize) -> (r: bool)
    ensures
        r == occurs_at(v@, p@, i as int),
{
    if p.len() > v.len() || i > v.len() - p.len() {
        return false;
    }
    let mut k: usize = 0;
    while k < p.len()
        invariant
            k <= p.len(),
            i + p.len() <= v.len(),
            forall|j: int| 0 <= j < k ==> v@[i + j] == p@[j],
        decreases p.len() - k,
    {
        if v[i + k] != p[k] {
            assert(v@.subrange(i as int, i + p@.len())[k as int] != p@[k as int]);
            return false;
        }
        k = k + 1;
    }
    assert(v@.subrange(i as int, i + p@.len()) =~= p@);
    true
}

/// The first index, `from` or later, at which `p` stands in `v`.
pub fn find_in(v: &Vec<char>, p: &Vec<char>, from: usize) -> (r: Option<usize>)
    ensures
        match r {
            Some(k) => find_from(v@, p@, from as int) == Some(k as int) && from <= k && k + p.len()
                <= v.len(),
            None => find_from(v@, p@, from as int) is None,
        },
{
    if p.len() > v.len() || from > v.len() - p.len() {
        return None;
    }
    let last = v.len() - p.len();
    let mut i: usize = from;
    while !stands_at(v, p, i)
        invariant
            from <= i <= last,
            last == v@.len() - p@.len(),
            find_from(v@, p@, from as int) == find_from(v@, p@, i as int),
        decreases last - i,
    {
        if i == last {
            assert(find_from(v@, p@, i + 1) is None);
            return None;
        }
        i = i + 1;
    }
    Some(i)
}

/// Whether the two texts are equal.
pub fn same(a: &Vec<char>, b: &Vec<char>) -> (r: bool)
    ensures
        r == (a@ == b@),
{
    if a.len() != b.len() {
        return false;
    }
    let r = stands_at(a, b, 0);
    assert(a@.subrange(0, a@.len() as int) =~= a@);
    r
}

/// Whether the two texts are equal.
pub fn same_text(a: &str, b: &str) -> (r: bool)
    ensures
        r == (a@ == b@),
{
    same(&chars_of(a), &chars_of(b))
}

/// `s` starts with `p`.
pub open spec fn starts_with(s: Seq<char>, p: Seq<char>) -> bool {
    occurs_at(s, p, 0)
}

/// `s` ends with `p`.
pub open spec fn ends_with(s: Seq<char>, p: Seq<char>) -> bool {
    occurs_at(s, p, s.len() - p.len())
}

/// Whether `v` ends with `p`.
pub fn has_suffix(v: &Vec<char>, p: &Vec<char>) -> (r: bool)
    ensures
        r == ends_with(v@, p@),
{
    v.len() >= p.len() && stands_at(v, p, v.len() - p.len())
}

/// The text of `v` behind the prefix `p`, if it starts with it.
pub fn without_prefix(v: &Vec<char>, p: &Vec<char>) -> (r: Option<Vec<char>>)
    ensures
        match r {
            Some(rest) => starts_with(v@, p@) && rest@ == v@.skip(p@.len() as int),
            None => !starts_with(v@, p@),
        },
{
    if stands_at(v, p, 0) {
        Some(slice_of(v, p.len(), v.len()))
    } else {
        None
    }
}

// ---------------------------------------------------------------------------
// Splitting and joining
// ---------------------------------------------------------------------------
/// The texts that the vectors hold.
pub open spec fn texts(v: Seq<Vec<char>>) -> Seq<Seq<char>> {
    Seq::new(v.len(), |i: int| v[i]@)
}

/// The texts that the strings hold.
pub open spec fn strings(v: Seq<String>) -> Seq<Seq<char>> {
    Seq::new(v.len(), |i: int| v[i]@)
}

/// The pieces of `s` between the characters that satisfy `p`: each of those
/// starts a new piece, and every other character extends the last one.
pub open spec fn split(s: Seq<char>, p: spec_fn(char) -> bool) -> Seq<Seq<char>>
    decreases s.len(),
{
    if s.len() == 0 {
        seq![Seq::empty()]
    } else {
        let pieces = split(s.drop_last(), p);
        if p(s.last()) {
            pieces.push(Seq::empty())
        } else {
            pieces.drop_last().push(pieces.last().push(s.last()))
        }
    }
}

/// Splits `v` at each character of which `f` says what `p` does.
fn split_by<F: Fn(char) -> bool>(v: &Vec<char>, f: F, Ghost(p): Ghost<spec_fn(char) -> bool>) -> (r:
    Vec<Vec<char>>)
    requires
        forall|c: char| call_requires(f, (c,)),
        forall|c: char, b: bool| call_ensures(f, (c,), b) ==> b == p(c),
    ensures
        texts(r@) == split(v@, p),
        r@.len() > 0,
{
    let mut done: Vec<Vec<char>> = Vec::new();
    let mut piece: Vec<char> = Vec::new();
    let mut i: usize = 0;
    assert(texts(done@).push(piece@) =~= split(v@.take(0), p));
    while i < v.len()
        invariant
            i <= v@.len(),
            forall|c: char| call_requires(f, (c,)),
            forall|c: char, b: bool| call_ensures(f, (c,), b) ==> b == p(c),
            texts(done@).push(piece@) == split(v@.take(i as int), p),
        decreases v@.len() - i,
    {
        let ghost before = texts(done@).push(piece@);
        assert(v@.take(i + 1).drop_last() =~= v@.take(i as int));
        assert(before.drop_last() =~= texts(done@));
        let c = v[i];
        if f(c) {
            done.push(piece);
            piece = Vec::new();
            assert(texts(done@) =~= before);
        } else {
            piece.push(c);
        }
        i = i + 1;
    }
    assert(v@.take(v@.len() as int) =~= v@);
    let ghost prior = done@;
    let ghost last = piece@;
    done.push(piece);
    assert(texts(done@) =~= texts(prior).push(last));
    done
}

/// Splits `v` at each `q`.
pub fn split_char(v: &Vec<char>, q: char) -> (r: Vec<Vec<char>>)
    ensures
        texts(r@) == split(v@, only(q)),
        r@.len() > 0,
{
    let is_q = |c: char| -> (b: bool)
        ensures
            b == (c == q),
        { c == q };
    split_by(v, is_q, Ghost(only(q)))
}

/// Splits `v` at each white space character.
pub fn split_blank(v: &Vec<char>) -> (r: Vec<Vec<char>>)
    ensures
        texts(r@) == split(v@, blank()),
{
    let is_blank = |c: char| -> (b: bool)
        ensures
            b == blank()(c),
        { is_white_space(c) };
    split_by(v, is_blank, Ghost(blank()))
}

/// `s` without one carriage return at its end.
pub open spec fn without_return(s: Seq<char>) -> Seq<char> {
    if s.len() > 0 && s.last() == '\r' {
        s.drop_last()
    } else {
        s
    }
}

/// The lines of `s`. Each ends at a line feed, which may follow a carriage
/// return; neither is part of the line. What follows the last line feed is a line
/// too, unless it is empty.
pub open spec fn lines_of(s: Seq<char>) -> Seq<Seq<char>> {
    let pieces = split(s, only('\n'));
    let ended = Seq::new((pieces.len() - 1) as nat, |i: int| without_return(pieces[i]));
    if pieces.last().len() == 0 {
        ended
    } else {
        ended.push(pieces.last())
    }
}

/// The lines of `v`.
pub fn lines(v: &Vec<char>) -> (r: Vec<Vec<char>>)
    ensures
        texts(r@) == lines_of(v@),
{
    let pieces = split_char(v, '\n');
    let n = pieces.len();
    let mut r: Vec<Vec<char>> = Vec::new();
    let mut i: usize = 0;
    assert(texts(pieces@)[n - 1] == pieces@[n - 1]@);
    while i < n - 1
        invariant
            i <= n - 1,
            n == pieces@.len(),
            n > 0,
            r@.len() == i,
            forall|k: int| 0 <= k < i ==> r@[k]@ == without_return(#[trigger] pieces@[k]@),
        decreases n - i,
    {
        let p = &pieces[i];
        let l = p.len();
        if l > 0 && p[l - 1] == '\r' {
            let line = slice_of(p, 0, l - 1);
            assert(line@ =~= without_return(p@));
            r.push(line);
        } else {
            let line = slice_of(p, 0, l);
            assert(line@ =~= without_return(p@));
            r.push(line);
        }
        i = i + 1;
    }
    let last = &pieces[n - 1];
    if last.len() > 0 {
        let line = slice_of(last, 0, last.len());
        assert(line@ =~= last@);
        r.push(line);
    }
    assert(texts(r@) =~= lines_of(v@));
    r
}

/// The parts, with `sep` between one and the next.
pub open spec fn join(parts: Seq<Seq<char>>, sep: Seq<char>) -> Seq<char>
    decreases parts.len(),
{
    if parts.len() == 0 {
        Seq::empty()
    } else if parts.len() == 1 {
        parts[0]
    } else {
        join(parts.drop_last(), sep) + sep + parts.last()
    }
}

/// Joins the parts with one space between one and the next.
pub fn join_spaced(parts: &Vec<Vec<char>>) -> (r: Vec<char>)
    ensures
        r@ == join(texts(parts@), seq![' ']),
{
    let mut r: Vec<char> = Vec::new();
    let mut i: usize = 0;
    assert(texts(parts@).take(0) =~= Seq::empty());
    while i < parts.len()
        invariant
            i <= parts@.len(),
            r@ == join(texts(parts@).take(i as int), seq![' ']),
        decreases parts@.len() - i,
    {
        let ghost all = texts(parts@);
        assert(all.take(i + 1).drop_last() =~= all.take(i as int));
        if i > 0 {
            r.push(' ');
        }
        let mut part = slice_of(&parts[i], 0, parts[i].len());
        assert(part@ =~= parts@[i as int]@);
        r.append(&mut part);
        assert(r@ =~= join(all.take(i + 1), seq![' ']));
        i = i + 1;
    }
    assert(texts(parts@).take(parts@.len() as int) =~= texts(parts@));
    r
}

/// The parts that are not empty.
pub open spec fn filled(parts: Seq<Seq<char>>) -> Seq<Seq<char>> {
    parts.filter(|w: Seq<char>| w.len() > 0)
}

/// One part more adds itself unless it is empty.
pub proof fn filled_step(parts: Seq<Seq<char>>)
    requires
        parts.len() > 0,
    ensures
        filled(parts) == if parts.last().len() > 0 {
            filled(parts.drop_last()).push(parts.last())
        } else {
            filled(parts.drop_last())
        },
{
    reveal(Seq::filter);
}

/// Keeps the parts that are not empty.
pub fn keep_filled(parts: &Vec<Vec<char>>) -> (r: Vec<Vec<char>>)
    ensures
        texts(r@) == filled(texts(parts@)),
{
    let ghost all = texts(parts@);
    let mut r: Vec<Vec<char>> = Vec::new();
    let mut i: usize = 0;
    assert(texts(r@) =~= filled(all.take(0))) by {
        reveal(Seq::filter);
    }
    while i < parts.len()
        invariant
            i <= parts@.len(),
            all == texts(parts@),
            texts(r@) == filled(all.take(i as int)),
        decreases parts@.len() - i,
    {
        let ghost prior = texts(r@);
        proof {
            filled_step(all.take(i + 1));
            assert(all.take(i + 1).drop_last() =~= all.take(i as int));
        }
        let part = &parts[i];
        if part.len() > 0 {
            let copy = slice_of(part, 0, part.len());
            assert(copy@ =~= all[i as int]);
            r.push(copy);
            assert(texts(r@) =~= prior.push(all[i as int]));
        }
        i = i + 1;
    }
    assert(all.take(all.len() as int) =~= all);
    r
}

/// The words of `s`, which white space separates.
pub open spec fn words_of(s: Seq<char>) -> Seq<Seq<char>> {
    filled(split(s, blank()))
}

/// The words of `v`.
pub fn words(v: &Vec<char>) -> (r: Vec<Vec<char>>)
    ensures
        texts(r@) == words_of(v@),
{
    let pieces = split_blank(v);
    keep_filled(&pieces)
}

// ---------------------------------------------------------------------------
// Numbers
// ---------------------------------------------------------------------------
/// The decimal digit for `d`.
pub open spec fn digit(d: nat) -> char {
    (0x30 + d) as char
}

/// `n` in decimal digits, without leading zeros.
pub open spec fn decimal(n: nat) -> Seq<char>
    decreases n,
{
    if n < 10 {
        seq![digit(n)]
    } else {
        decimal(n / 10).push(digit(n % 10))
    }
}

/// The number that the digits of `s` stand for.
pub open spec fn value(s: Seq<char>) -> nat
    decreases s.len(),
{
    if s.len() == 0 {
        0
    } else {
        (value(s.drop_last()) * 10 + (s.last() as int - 0x30)) as nat
    }
}

/// The digits of `n` stand for `n`.
pub proof fn decimal_stands_for(n: nat)
    ensures
        value(decimal(n)) == n,
        decimal(n).len() > 0,
    decreases n,
{
    if n < 10 {
        assert(seq![digit(n)].drop_last() =~= Seq::empty());
        assert(value(Seq::empty()) == 0);
    } else {
        decimal_stands_for(n / 10);
        assert(decimal(n).drop_last() =~= decimal(n / 10));
    }
}

/// No two numbers have the same digits.
pub proof fn decimal_is_injective(a: nat, b: nat)
    ensures
        decimal(a) == decimal(b) ==> a == b,
{
    decimal_stands_for(a);
    decimal_stands_for(b);
}

/// The decimal digit for `d`.
fn digit_char(d: u64) -> (c: char)
    requires
        d < 10,
    ensures
        c == digit(d as nat),
{
    match d {
        0 => '0',
        1 => '1',
        2 => '2',
        3 => '3',
        4 => '4',
        5 => '5',
        6 => '6',
        7 => '7',
        8 => '8',
        _ => '9',
    }
}

/// Appends `n` in decimal digits to `text`.
pub fn append_decimal(text: &mut String, n: u64)
    ensures
        final(text)@ == old(text)@ + decimal(n as nat),
    decreases n,
{
    let ghost before = text@;
    if n >= 10 {
        append_decimal(text, n / 10);
    }
    text.push(digit_char(n % 10));
    assert(text@ =~= before + decimal(n as nat));
}

// ---------------------------------------------------------------------------
// Bytes
// ---------------------------------------------------------------------------
/// Bytes as text, as `String::from_utf8_lossy` reads them.
pub uninterp spec fn lossy_text(bytes: Seq<u8>) -> Seq<char>;

/// `String::from_utf8_lossy`: bytes as text. Bytes that are UTF-8 are read as that;
/// what is not is replaced, which is named [`lossy_text`].
#[verifier::external_body]
pub(crate) fn from_utf8_lossy(bytes: &[u8]) -> (r: String)
    ensures
        r@ == lossy_text(bytes@),
        valid_utf8(bytes@) ==> r@ == decode_utf8(bytes@),
{
    String::from_utf8_lossy(bytes).into_owned()
}

} // verus!

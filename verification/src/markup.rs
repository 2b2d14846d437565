//! Text in Typst sources: escaping for string literals and for markup.

use crate::text::chars_of;
use vstd::prelude::*;

verus! {

/// The characters with a meaning inside a string literal.
pub open spec fn literal_special() -> spec_fn(char) -> bool {
    |c: char| c == '\\' || c == '"'
}

/// The characters with a meaning in markup. A slash is one of a comment, and at the
/// start of a line a slash, a minus or a plus starts an item of a list.
pub open spec fn markup_special() -> spec_fn(char) -> bool {
    |c: char|
        {
            ||| c == '\\'
            ||| c == '#'
            ||| c == '$'
            ||| c == '*'
            ||| c == '_'
            ||| c == '`'
            ||| c == '<'
            ||| c == '>'
            ||| c == '@'
            ||| c == '='
            ||| c == '~'
            ||| c == '/'
            ||| c == '-'
            ||| c == '+'
            ||| c == '"'
            ||| c == '\''
            ||| c == '['
            ||| c == ']'
        }
}

/// One character, behind a backslash if it is special.
pub open spec fn escaped_char(c: char, special: spec_fn(char) -> bool) -> Seq<char> {
    if special(c) {
        seq!['\\', c]
    } else {
        seq![c]
    }
}

/// The text with a backslash before each special character.
pub open spec fn escaped(s: Seq<char>, special: spec_fn(char) -> bool) -> Seq<char>
    decreases s.len(),
{
    if s.len() == 0 {
        Seq::empty()
    } else {
        escaped(s.drop_last(), special) + escaped_char(s.last(), special)
    }
}

/// The text as it stands inside a string literal.
pub open spec fn literal(s: Seq<char>) -> Seq<char> {
    escaped(s, literal_special())
}

/// The text as it stands in markup.
pub open spec fn content(s: Seq<char>) -> Seq<char> {
    escaped(s, markup_special())
}

/// Escapes text for a string literal in double quotes.
pub fn esc(s: &str) -> (r: String)
    ensures
        r@ == literal(s@),
{
    let v = chars_of(s);
    let mut out = String::new();
    let mut i: usize = 0;
    while i < v.len()
        invariant
            i <= v@.len(),
            out@ == literal(v@.take(i as int)),
        decreases v@.len() - i,
    {
        assert(v@.take(i + 1).drop_last() =~= v@.take(i as int));
        let c = v[i];
        let ghost before = out@;
        if c == '\\' || c == '"' {
            out.push('\\');
        }
        out.push(c);
        assert(out@ =~= before + escaped_char(c, literal_special()));
        i = i + 1;
    }
    assert(v@.take(v@.len() as int) =~= v@);
    out
}

/// Escapes text for markup.
pub fn esc_markup(s: &str) -> (r: String)
    ensures
        r@ == content(s@),
{
    let v = chars_of(s);
    let mut out = String::new();
    let mut i: usize = 0;
    while i < v.len()
        invariant
            i <= v@.len(),
            out@ == content(v@.take(i as int)),
        decreases v@.len() - i,
    {
        assert(v@.take(i + 1).drop_last() =~= v@.take(i as int));
        let c = v[i];
        let ghost before = out@;
        match c {
            '\\' | '#' | '$' | '*' | '_' | '`' | '<' | '>' | '@' | '=' | '~' | '/' | '-' | '+'
            | '"' | '\'' | '[' | ']' => {
                out.push('\\');
            },
            _ => {},
        }
        out.push(c);
        assert(out@ =~= before + escaped_char(c, markup_special()));
        i = i + 1;
    }
    assert(v@.take(v@.len() as int) =~= v@);
    out
}

// ---------------------------------------------------------------------------
// What escaping keeps
// ---------------------------------------------------------------------------
/// The text that a reader gets: a backslash stands for the character behind it.
pub open spec fn unescaped(t: Seq<char>) -> Seq<char>
    decreases t.len(),
{
    if t.len() == 0 {
        Seq::empty()
    } else if t[0] == '\\' && t.len() > 1 {
        seq![t[1]] + unescaped(t.skip(2))
    } else {
        seq![t[0]] + unescaped(t.skip(1))
    }
}

/// A special character stands in the text without a backslash before it, or the
/// text ends in a backslash.
pub open spec fn exposed(t: Seq<char>, special: spec_fn(char) -> bool) -> bool
    decreases t.len(),
{
    if t.len() == 0 {
        false
    } else if t[0] == '\\' {
        t.len() == 1 || exposed(t.skip(2), special)
    } else {
        special(t[0]) || exposed(t.skip(1), special)
    }
}

/// Escaping works character by character from the front too.
proof fn escaped_from_front(s: Seq<char>, special: spec_fn(char) -> bool)
    requires
        s.len() > 0,
    ensures
        escaped(s, special) == escaped_char(s[0], special) + escaped(s.skip(1), special),
    decreases s.len(),
{
    if s.len() == 1 {
        assert(s.drop_last() =~= Seq::empty());
        assert(s.skip(1) =~= Seq::empty());
        assert(escaped(s, special) =~= escaped_char(s[0], special) + escaped(s.skip(1), special));
    } else {
        escaped_from_front(s.drop_last(), special);
        assert(s.drop_last().skip(1) =~= s.skip(1).drop_last());
        assert(escaped(s, special) =~= escaped_char(s[0], special) + escaped(s.skip(1), special));
    }
}

/// Escaped text reads as the text that it was made from, and no special character
/// in it is left without a backslash, as long as the backslash is special itself.
pub proof fn escaping_is_faithful(s: Seq<char>, special: spec_fn(char) -> bool)
    requires
        special('\\'),
    ensures
        unescaped(escaped(s, special)) == s,
        !exposed(escaped(s, special), special),
    decreases s.len(),
{
    if s.len() > 0 {
        escaped_from_front(s, special);
        escaping_is_faithful(s.skip(1), special);
        let t = escaped(s, special);
        let rest = escaped(s.skip(1), special);
        if special(s[0]) {
            assert(t.skip(2) =~= rest);
        } else {
            assert(t.skip(1) =~= rest);
        }
        assert(seq![s[0]] + s.skip(1) =~= s);
    }
}

/// Text in a string literal reads as it was, and cannot end the literal.
pub proof fn literals_are_faithful(s: Seq<char>)
    ensures
        unescaped(literal(s)) == s,
        !exposed(literal(s), literal_special()),
{
    escaping_is_faithful(s, literal_special());
}

/// Text in markup reads as it was, and each of its characters with a meaning in markup
/// stands behind a backslash.
pub proof fn markup_is_faithful(s: Seq<char>)
    ensures
        unescaped(content(s)) == s,
        !exposed(content(s), markup_special()),
{
    escaping_is_faithful(s, markup_special());
}

} // verus!

//! Which files are turned away before they are read.

use crate::linked_doc;
use crate::pdf;
use crate::reading;
use vstd::prelude::*;

verus! {

/// The number that decimal digits stand for, behind those that stand for `n`.
pub open spec fn number_behind(n: int, digits: Seq<u8>) -> int
    decreases digits.len(),
{
    if digits.len() == 0 {
        n
    } else {
        10 * number_behind(n, digits.drop_last()) + (digits.last() - 48)
    }
}

/// The bytes are decimal digits.
pub open spec fn are_digits(digits: Seq<u8>) -> bool {
    forall|i: int| 0 <= i < digits.len() ==> 48 <= #[trigger] digits[i] <= 57
}

/// The number from the front on.
proof fn number_from_front(n: int, digits: Seq<u8>)
    requires
        digits.len() > 0,
    ensures
        number_behind(n, digits) == number_behind(10 * n + (digits[0] - 48), digits.drop_first()),
    decreases digits.len(),
{
    if digits.len() == 1 {
        assert(digits.drop_last() =~= Seq::empty());
        assert(digits.drop_first() =~= Seq::empty());
        assert(number_behind(n, digits.drop_last()) == n);
    } else {
        number_from_front(n, digits.drop_last());
        assert(digits.drop_last().drop_first() =~= digits.drop_first().drop_last());
    }
}

/// More digits make no number smaller.
proof fn number_grows(n: int, digits: Seq<u8>)
    requires
        0 <= n,
        are_digits(digits),
    ensures
        n <= number_behind(n, digits),
    decreases digits.len(),
{
    if digits.len() > 0 {
        number_grows(n, digits.drop_last());
    }
}

/// A number that exceeds the limit does not fit, wherever it stands.
proof fn large_does_not_fit(bytes: Seq<u8>, i: int, digits: Seq<u8>, value: int, limit: int)
    requires
        0 <= value <= limit,
        0 <= i <= bytes.len() - digits.len(),
        are_digits(digits),
        bytes.subrange(i, i + digits.len()) == digits,
        number_behind(value, digits) > limit,
    ensures
        !reading::numbers_fit(bytes, i, false, value, limit),
    decreases digits.len(),
{
    if digits.len() > 0 {
        assert(bytes[i] == bytes.subrange(i, i + digits.len())[0]);
        let read = value * 10 + (bytes[i] - 0x30);
        number_from_front(value, digits);
        if read <= limit {
            let rest = digits.drop_first();
            assert(bytes.subrange(i + 1, i + 1 + rest.len()) =~= rest);
            assert(are_digits(rest)) by {
                assert forall|j: int| 0 <= j < rest.len() implies 48 <= #[trigger] rest[j] <= 57 by {
                    assert(rest[j] == digits[j + 1]);
                }
            }
            large_does_not_fit(bytes, i + 1, rest, read, limit);
        }
    }
}

/// A word ends behind its last byte.
proof fn word_ends(bytes: Seq<u8>, i: int, word: Seq<u8>, k: int)
    requires
        0 <= k <= word.len(),
        0 <= i - k,
        i - k + word.len() <= bytes.len(),
        forall|j: int| 0 <= j < word.len() ==> bytes[i - k + j] == #[trigger] word[j],
    ensures
        reading::behind_word(bytes, i, word, k) == Some(i - k + word.len()),
    decreases word.len() - k,
{
    if k < word.len() {
        assert(bytes[i - k + k] == word[k]);
        word_ends(bytes, i + 1, word, k + 1);
    }
}

/// A number too large for a list, or for the rows of data, directly behind the word that
/// announces it is turned away, whatever else the file holds.
pub proof fn large_numbers_are_turned_away(
    front: Seq<u8>,
    word: &str,
    digits: Seq<u8>,
    rest: Seq<u8>,
)
    requires
        are_digits(digits),
        (word == "[" || word == "xref") && number_behind(0, digits) >= 0x1_0000_0000 || (word
            == "/Columns" || word == "/Colors" || word == "/BitsPerComponent") && number_behind(
            0,
            digits,
        ) >= 0x10_0000,
    ensures
        !reading::readable(front + pdf::key(word) + digits + rest),
{
    let k = pdf::key(word);
    let bytes = front + k + digits + rest;
    let i = front.len() as int;
    let limit = if word == "[" || word == "xref" {
        0xffff_ffffint
    } else {
        0xf_ffffint
    };
    word_ends(bytes, i, k, 0);
    assert(digits.len() > 0);
    assert(bytes.subrange(i + k.len(), i + k.len() + digits.len()) =~= digits);
    large_does_not_fit(bytes, i + k.len(), digits, 0, limit);
    assert(reading::behind_word(bytes, i, k, 0) == Some(i + k.len()));
    assert(!reading::fit_behind(bytes, k, limit));
}

/// A number within the limit fits, where nothing of a list follows it.
proof fn small_fits(bytes: Seq<u8>, i: int, digits: Seq<u8>, value: int, limit: int)
    requires
        0 <= value,
        0 <= i,
        i + digits.len() <= bytes.len(),
        are_digits(digits),
        bytes.subrange(i, i + digits.len()) == digits,
        number_behind(value, digits) <= limit,
        i + digits.len() == bytes.len() || ends_list(bytes[i + digits.len()]),
    ensures
        reading::numbers_fit(bytes, i, false, value, limit),
    decreases digits.len(),
{
    if digits.len() > 0 {
        assert(bytes[i] == bytes.subrange(i, i + digits.len())[0]);
        let read = value * 10 + (bytes[i] - 0x30);
        number_from_front(value, digits);
        let rest = digits.drop_first();
        assert(bytes.subrange(i + 1, i + 1 + rest.len()) =~= rest);
        assert(are_digits(rest)) by {
            assert forall|j: int| 0 <= j < rest.len() implies 48 <= #[trigger] rest[j] <= 57 by {
                assert(rest[j] == digits[j + 1]);
            }
        }
        number_grows(read, rest);
        small_fits(bytes, i + 1, rest, read, limit);
    }
}

/// The byte is neither part of a number nor between two: no digit, sign, blank or comment,
/// and not the `n` or `f` of a table.
pub open spec fn ends_list(b: u8) -> bool {
    !(48 <= b <= 57) && b != 43 && b != 45 && b != 110 && b != 102 && b != 32 && b != 9 && b != 10
        && b != 13 && b != 12 && b != 0 && b != 37
}

/// A number of a list is let through up to 32 bits, and one that describes rows up to 20.
pub proof fn small_numbers_are_let_through(front: Seq<u8>, digits: Seq<u8>, rest: Seq<u8>)
    requires
        are_digits(digits),
        rest.len() == 0 || ends_list(rest[0]),
    ensures
        number_behind(0, digits) < 0x1_0000_0000 ==> reading::numbers_fit(
            front + digits + rest,
            front.len() as int,
            false,
            0,
            reading::LIST_LIMIT as int,
        ),
        number_behind(0, digits) < 0x10_0000 ==> reading::numbers_fit(
            front + digits + rest,
            front.len() as int,
            false,
            0,
            reading::ROW_LIMIT as int,
        ),
{
    let bytes = front + digits + rest;
    let i = front.len() as int;
    assert(bytes.subrange(i, i + digits.len()) =~= digits);
    if rest.len() > 0 {
        assert(bytes[i + digits.len()] == rest[0]);
    }
    if number_behind(0, digits) < 0x1_0000_0000 {
        small_fits(bytes, i, digits, 0, reading::LIST_LIMIT as int);
    }
    if number_behind(0, digits) < 0x10_0000 {
        small_fits(bytes, i, digits, 0, reading::ROW_LIMIT as int);
    }
}

/// Where digits to the base of 85 are to be decoded, five that exceed 32 bits are turned
/// away: `s8W-` with a digit above zero behind it.
pub proof fn large_digits_are_turned_away(front: Seq<u8>, middle: Seq<u8>, last: u8, rest: Seq<u8>)
    requires
        33 < last < 127,
    ensures
        !reading::readable(
            front + pdf::key("/ASCII85Decode") + middle + seq![115u8, 56u8, 87u8, 45u8, last]
                + rest,
        ),
{
    let word = pdf::key("/ASCII85Decode");
    let digits = seq![115u8, 56u8, 87u8, 45u8, last];
    let bytes = front + word + middle + digits + rest;
    let i = front.len() as int;
    word_ends(bytes, i, word, 0);
    assert(reading::behind_word(bytes, i, word, 0) is Some);
    assert(reading::has_word(bytes, word));
    let at = i + word.len() + middle.len();
    assert(bytes[at] == digits[0] && bytes[at + 1] == digits[1] && bytes[at + 2] == digits[2]
        && bytes[at + 3] == digits[3] && bytes[at + 4] == digits[4]);
    reveal_with_fuel(reading::exceeds, 6);
    assert(reading::exceeds(bytes, at, 0));
}

/// A file that is encrypted is turned away where such digits are to be decoded.
pub proof fn encrypted_digits_are_turned_away(
    front: Seq<u8>,
    middle: Seq<u8>,
    rest: Seq<u8>,
)
    ensures
        !reading::readable(
            front + pdf::key("/ASCII85Decode") + middle + pdf::key("/Encrypt") + rest,
        ),
{
    let word = pdf::key("/ASCII85Decode");
    let other = pdf::key("/Encrypt");
    let bytes = front + word + middle + other + rest;
    let i = front.len() as int;
    let at = i + word.len() + middle.len();
    word_ends(bytes, i, word, 0);
    word_ends(bytes, at, other, 0);
    reveal_strlit("/Encrypt");
    linked_doc::no_more_characters("/Encrypt"@);
    assert(reading::behind_word(bytes, i, word, 0) is Some);
    assert(reading::behind_word(bytes, at, other, 0) is Some);
    assert(reading::has_word(bytes, word));
    assert(reading::has_word(bytes, other));
}

} // verus!

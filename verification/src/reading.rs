//! The bytes of a PDF file, before and behind `lopdf`'s reader.
//!
//! That reader takes some numbers of a file at their word: it adds them up, multiplies
//! them, or sets aside as many bytes. A file in which one of these is out of all
//! proportion is turned away here, as one that cannot be read.

use crate::pdf;
use lopdf::Document;
use vstd::prelude::*;

verus! {

/// The largest number in a list of numbers: an object's number, or an offset.
pub const LIST_LIMIT: u64 = 0xffff_ffff;

/// The largest number that describes the rows of data: three of them, multiplied, fit
/// in 64 bits.
pub const ROW_LIMIT: u64 = 0xf_ffff;

// ---------------------------------------------------------------------------
// Numbers in the text of a file
// ---------------------------------------------------------------------------
/// A space, a tab, the end of a line or of a page, or zero.
pub open spec fn is_gap(b: u8) -> bool {
    b == 0x20 || b == 0x09 || ends_line(b) || b == 0x0c || b == 0
}

/// The end of a line, and so of a comment.
pub open spec fn ends_line(b: u8) -> bool {
    b == 0x0a || b == 0x0d
}

/// A decimal digit.
pub open spec fn is_digit(b: u8) -> bool {
    0x30 <= b <= 0x39
}

/// What can stand beside the numbers of a list: a sign, or the `n` and `f` of a table.
pub open spec fn is_beside(b: u8) -> bool {
    b == 0x2b || b == 0x2d || b == 0x6e || b == 0x66
}

/// None of the numbers from `i` on exceeds the limit, up to the first byte that is
/// neither part of one nor between two; a comment, from `%` to the end of its line, is
/// between. `value` is what the digits before `i` amount to, and `comment` tells that
/// `i` is in a comment.
pub open spec fn numbers_fit(
    bytes: Seq<u8>,
    i: int,
    comment: bool,
    value: int,
    limit: int,
) -> bool
    decreases bytes.len() - i,
{
    if i < 0 || i >= bytes.len() {
        true
    } else if comment {
        numbers_fit(bytes, i + 1, !ends_line(bytes[i]), 0, limit)
    } else if is_digit(bytes[i]) {
        let read = value * 10 + (bytes[i] - 0x30);
        read <= limit && numbers_fit(bytes, i + 1, false, read, limit)
    } else if is_gap(bytes[i]) || is_beside(bytes[i]) {
        numbers_fit(bytes, i + 1, false, 0, limit)
    } else if bytes[i] == 0x25 {
        numbers_fit(bytes, i + 1, true, 0, limit)
    } else {
        true
    }
}

/// The value of a hexadecimal digit, or none.
pub open spec fn hex_digit(b: u8) -> Option<int> {
    if is_digit(b) {
        Some(b - 0x30)
    } else if 0x41 <= b <= 0x46 {
        Some(b - 0x41 + 10)
    } else if 0x61 <= b <= 0x66 {
        Some(b - 0x61 + 10)
    } else {
        None
    }
}

/// The byte that `#` and two hexadecimal digits stand for at `i`, if they do.
pub open spec fn escaped(bytes: Seq<u8>, i: int) -> Option<int> {
    if 0 <= i && i + 2 < bytes.len() && bytes[i] == 0x23 {
        match (hex_digit(bytes[i + 1]), hex_digit(bytes[i + 2])) {
            (Some(high), Some(low)) => Some(high * 16 + low),
            _ => None,
        }
    } else {
        None
    }
}

/// Where the word ends that starts at `i`, if it does: each of its bytes, from the one
/// at `k` on, stands for itself or is escaped.
pub open spec fn behind_word(bytes: Seq<u8>, i: int, word: Seq<u8>, k: int) -> Option<int>
    decreases word.len() - k,
{
    if k < 0 || k >= word.len() {
        Some(i)
    } else if 0 <= i < bytes.len() && bytes[i] == word[k] {
        behind_word(bytes, i + 1, word, k + 1)
    } else if escaped(bytes, i) == Some(word[k] as int) {
        behind_word(bytes, i + 3, word, k + 1)
    } else {
        None
    }
}

/// The numbers that follow fit, wherever the word stands.
pub open spec fn fit_behind(bytes: Seq<u8>, word: Seq<u8>, limit: int) -> bool {
    forall|i: int|
        0 <= i < bytes.len() ==> match #[trigger] behind_word(bytes, i, word, 0) {
            Some(end) => numbers_fit(bytes, end, false, 0, limit),
            None => true,
        }
}

// ---------------------------------------------------------------------------
// Digits to the base of 85
// ---------------------------------------------------------------------------
/// The word stands somewhere.
pub open spec fn has_word(bytes: Seq<u8>, word: Seq<u8>) -> bool {
    exists|i: int|
        0 <= i < bytes.len() && #[trigger] behind_word(bytes, i, word, 0) is Some
}

/// Where the blanks and comments from `i` on end. `comment` tells that `i` is in a
/// comment.
pub open spec fn behind_gap(bytes: Seq<u8>, i: int, comment: bool) -> int
    decreases bytes.len() - i,
{
    if i < 0 || i >= bytes.len() {
        i
    } else if comment {
        behind_gap(bytes, i + 1, !ends_line(bytes[i]))
    } else if is_gap(bytes[i]) {
        behind_gap(bytes, i + 1, false)
    } else if bytes[i] == 0x25 {
        behind_gap(bytes, i + 1, true)
    } else {
        i
    }
}

/// One word is followed by the other, somewhere, with at most blanks and comments between.
pub open spec fn has_words(bytes: Seq<u8>, word: Seq<u8>, next: Seq<u8>) -> bool {
    exists|i: int|
        0 <= i < bytes.len() && match #[trigger] behind_word(bytes, i, word, 0) {
            Some(end) => behind_word(bytes, behind_gap(bytes, end, false), next, 0) is Some,
            None => false,
        }
}

/// A blank that digits may have between them.
pub open spec fn is_blank(b: u8) -> bool {
    b == 0x20 || b == 0x09 || ends_line(b) || b == 0x0c
}

/// The digits `s8W-`, one by one.
pub open spec fn leading(k: int) -> u8 {
    if k == 0 {
        0x73
    } else if k == 1 {
        0x38
    } else if k == 2 {
        0x57
    } else {
        0x2d
    }
}

/// The digits `s8W-` stand at `i`, of which `k` were before it, and not the digit zero,
/// `!`, behind them: five digits with these in front are a number of 33 bits.
pub open spec fn exceeds(bytes: Seq<u8>, i: int, k: int) -> bool
    decreases bytes.len() - i,
{
    if i < 0 || i >= bytes.len() {
        k >= 4
    } else if k > 0 && is_blank(bytes[i]) {
        exceeds(bytes, i + 1, k)
    } else if k >= 4 {
        bytes[i] != 0x21
    } else if bytes[i] == leading(k) {
        exceeds(bytes, i + 1, k + 1)
    } else {
        false
    }
}

/// No five digits exceed 32 bits where they are to be decoded: they stand in the file as
/// they are, neither encrypted nor behind another encoding.
pub open spec fn digits_fit(bytes: Seq<u8>) -> bool {
    let decoder = pdf::key("/ASCII85Decode");
    has_word(bytes, decoder) ==> {
        &&& !has_word(bytes, pdf::key("/Encrypt"))
        &&& !has_words(bytes, pdf::key("/FlateDecode"), decoder)
        &&& !has_words(bytes, pdf::key("/LZWDecode"), decoder)
        &&& !has_words(bytes, decoder, decoder)
        &&& forall|i: int| 0 <= i < bytes.len() ==> !#[trigger] exceeds(bytes, i, 0)
    }
}

// ---------------------------------------------------------------------------
// What is readable
// ---------------------------------------------------------------------------
/// The bytes can be handed to `lopdf`'s reader. The lists of numbers are fit for it:
/// those of an array, such as the `/Index` and the `/W` of a table that is a stream, and
/// those behind `xref`. So are the numbers by which it undoes the prediction of rows, and
/// the digits to the base of 85.
pub open spec fn readable(bytes: Seq<u8>) -> bool {
    &&& fit_behind(bytes, pdf::key("["), LIST_LIMIT as int)
    &&& fit_behind(bytes, pdf::key("xref"), LIST_LIMIT as int)
    &&& fit_behind(bytes, pdf::key("/Columns"), ROW_LIMIT as int)
    &&& fit_behind(bytes, pdf::key("/Colors"), ROW_LIMIT as int)
    &&& fit_behind(bytes, pdf::key("/BitsPerComponent"), ROW_LIMIT as int)
    &&& digits_fit(bytes)
}

/// Tests the numbers from `start` on.
fn test_numbers(bytes: &[u8], start: usize, limit: u64) -> (r: bool)
    requires
        limit <= LIST_LIMIT,
    ensures
        r == numbers_fit(bytes@, start as int, false, 0, limit as int),
{
    let mut i: usize = start;
    let mut comment = false;
    let mut value: u64 = 0;
    while i < bytes.len()
        invariant
            value <= limit <= LIST_LIMIT,
            numbers_fit(bytes@, start as int, false, 0, limit as int) == numbers_fit(
                bytes@,
                i as int,
                comment,
                value as int,
                limit as int,
            ),
        decreases bytes.len() - i,
    {
        let b = bytes[i];
        let line = b == 0x0a || b == 0x0d;
        if comment {
            comment = !line;
            value = 0;
        } else if b >= 0x30 && b <= 0x39 {
            let read: u64 = value * 10 + (b - 0x30) as u64;
            if read > limit {
                return false;
            }
            value = read;
        } else if b == 0x20 || b == 0x09 || line || b == 0x0c || b == 0 || b == 0x2b || b == 0x2d
            || b == 0x6e || b == 0x66 {
            value = 0;
        } else if b == 0x25 {
            comment = true;
            value = 0;
        } else {
            return true;
        }
        i = i + 1;
    }
    true
}

/// The value of a hexadecimal digit, or none.
fn read_hex(b: u8) -> (r: Option<u8>)
    ensures
        r matches Some(n) ==> n < 16,
        match r {
            Some(n) => hex_digit(b) == Some(n as int),
            None => hex_digit(b) is None,
        },
{
    if b >= 0x30 && b <= 0x39 {
        Some(b - 0x30)
    } else if b >= 0x41 && b <= 0x46 {
        Some(b - 0x41 + 10)
    } else if b >= 0x61 && b <= 0x66 {
        Some(b - 0x61 + 10)
    } else {
        None
    }
}

/// Whether `#` and two hexadecimal digits stand for the byte `b` at `i`.
fn is_escaped(bytes: &[u8], i: usize, b: u8) -> (r: bool)
    ensures
        r == (escaped(bytes@, i as int) == Some(b as int)),
{
    if i >= bytes.len() || bytes.len() - i <= 2 || bytes[i] != 0x23 {
        return false;
    }
    match (read_hex(bytes[i + 1]), read_hex(bytes[i + 2])) {
        (Some(high), Some(low)) => high * 16 + low == b,
        _ => false,
    }
}

/// Finds where the word ends that starts at `start`, if it does.
fn find_end(bytes: &[u8], start: usize, word: &[u8]) -> (r: Option<usize>)
    requires
        start <= bytes@.len(),
    ensures
        r matches Some(end) ==> end <= bytes@.len(),
        match r {
            Some(end) => behind_word(bytes@, start as int, word@, 0) == Some(end as int),
            None => behind_word(bytes@, start as int, word@, 0) is None,
        },
{
    let mut i: usize = start;
    let mut k: usize = 0;
    while k < word.len()
        invariant
            k <= word@.len(),
            i <= bytes@.len(),
            behind_word(bytes@, start as int, word@, 0) == behind_word(
                bytes@,
                i as int,
                word@,
                k as int,
            ),
        decreases word@.len() - k,
    {
        if i < bytes.len() && bytes[i] == word[k] {
            i = i + 1;
        } else if is_escaped(bytes, i, word[k]) {
            i = i + 3;
        } else {
            return None;
        }
        k = k + 1;
    }
    Some(i)
}

/// Tests the numbers behind the word, wherever it stands.
fn test_behind(bytes: &[u8], word: &[u8], limit: u64) -> (r: bool)
    requires
        limit <= LIST_LIMIT,
    ensures
        r == fit_behind(bytes@, word@, limit as int),
{
    let mut i: usize = 0;
    while i < bytes.len()
        invariant
            i <= bytes@.len(),
            limit <= LIST_LIMIT,
            forall|j: int|
                0 <= j < i ==> match #[trigger] behind_word(bytes@, j, word@, 0) {
                    Some(end) => numbers_fit(bytes@, end, false, 0, limit as int),
                    None => true,
                },
        decreases bytes.len() - i,
    {
        if let Some(end) = find_end(bytes, i, word) {
            if !test_numbers(bytes, end, limit) {
                assert(behind_word(bytes@, i as int, word@, 0) == Some(end as int));
                return false;
            }
        }
        i = i + 1;
    }
    true
}

/// Whether the word stands somewhere.
fn find_word(bytes: &[u8], word: &[u8]) -> (r: bool)
    ensures
        r == has_word(bytes@, word@),
{
    let mut i: usize = 0;
    while i < bytes.len()
        invariant
            i <= bytes@.len(),
            forall|j: int| 0 <= j < i ==> #[trigger] behind_word(bytes@, j, word@, 0) is None,
        decreases bytes.len() - i,
    {
        if find_end(bytes, i, word).is_some() {
            return true;
        }
        i = i + 1;
    }
    false
}

/// Finds where the blanks and comments from `start` on end.
fn skip_gap(bytes: &[u8], start: usize) -> (r: usize)
    requires
        start <= bytes@.len(),
    ensures
        r == behind_gap(bytes@, start as int, false),
        r <= bytes@.len(),
{
    let mut i: usize = start;
    let mut comment = false;
    while i < bytes.len()
        invariant
            i <= bytes@.len(),
            behind_gap(bytes@, start as int, false) == behind_gap(bytes@, i as int, comment),
        decreases bytes.len() - i,
    {
        let b = bytes[i];
        let line = b == 0x0a || b == 0x0d;
        if comment {
            comment = !line;
        } else if b == 0x25 {
            comment = true;
        } else if !(b == 0x20 || b == 0x09 || line || b == 0x0c || b == 0) {
            return i;
        }
        i = i + 1;
    }
    i
}

/// Whether one word is followed by the other, somewhere.
fn find_words(bytes: &[u8], word: &[u8], next: &[u8]) -> (r: bool)
    ensures
        r == has_words(bytes@, word@, next@),
{
    let mut i: usize = 0;
    while i < bytes.len()
        invariant
            i <= bytes@.len(),
            forall|j: int|
                0 <= j < i ==> match #[trigger] behind_word(bytes@, j, word@, 0) {
                    Some(end) => behind_word(bytes@, behind_gap(bytes@, end, false), next@, 0)
                        is None,
                    None => true,
                },
        decreases bytes.len() - i,
    {
        if let Some(end) = find_end(bytes, i, word) {
            if find_end(bytes, skip_gap(bytes, end), next).is_some() {
                assert(behind_word(bytes@, i as int, word@, 0) == Some(end as int));
                return true;
            }
        }
        i = i + 1;
    }
    false
}

/// Whether the digits at `start` and behind it exceed 32 bits.
fn test_digits(bytes: &[u8], start: usize) -> (r: bool)
    requires
        start <= bytes@.len(),
    ensures
        r == exceeds(bytes@, start as int, 0),
{
    let mut i: usize = start;
    let mut k: usize = 0;
    while i < bytes.len()
        invariant
            i <= bytes@.len(),
            k <= 4,
            exceeds(bytes@, start as int, 0) == exceeds(bytes@, i as int, k as int),
        decreases bytes.len() - i,
    {
        let b = bytes[i];
        if k > 0 && (b == 0x20 || b == 0x09 || b == 0x0a || b == 0x0d || b == 0x0c) {
        } else if k >= 4 {
            return b != 0x21;
        } else {
            let digit: u8 = if k == 0 {
                0x73
            } else if k == 1 {
                0x38
            } else if k == 2 {
                0x57
            } else {
                0x2d
            };
            if b != digit {
                return false;
            }
            k = k + 1;
        }
        i = i + 1;
    }
    k >= 4
}

/// Whether any digits exceed 32 bits.
fn find_excess(bytes: &[u8]) -> (r: bool)
    ensures
        r == exists|i: int| 0 <= i < bytes@.len() && #[trigger] exceeds(bytes@, i, 0),
{
    let mut i: usize = 0;
    while i < bytes.len()
        invariant
            i <= bytes@.len(),
            forall|j: int| 0 <= j < i ==> !#[trigger] exceeds(bytes@, j, 0),
        decreases bytes.len() - i,
    {
        if test_digits(bytes, i) {
            return true;
        }
        i = i + 1;
    }
    false
}

/// Tests the digits to the base of 85.
fn test_decoded(bytes: &[u8]) -> (r: bool)
    ensures
        r == digits_fit(bytes@),
{
    let decoder = "/ASCII85Decode".as_bytes();
    !find_word(bytes, decoder) || !(find_word(bytes, "/Encrypt".as_bytes()) || find_words(
        bytes,
        "/FlateDecode".as_bytes(),
        decoder,
    ) || find_words(bytes, "/LZWDecode".as_bytes(), decoder) || find_words(bytes, decoder, decoder)
        || find_excess(bytes))
}

/// Tests whether the bytes can be handed to `lopdf`'s reader.
pub fn is_readable(bytes: &[u8]) -> (r: bool)
    ensures
        r == readable(bytes@),
{
    test_behind(bytes, "[".as_bytes(), LIST_LIMIT) && test_behind(
        bytes,
        "xref".as_bytes(),
        LIST_LIMIT,
    ) && test_behind(bytes, "/Columns".as_bytes(), ROW_LIMIT) && test_behind(
        bytes,
        "/Colors".as_bytes(),
        ROW_LIMIT,
    ) && test_behind(bytes, "/BitsPerComponent".as_bytes(), ROW_LIMIT) && test_decoded(bytes)
}

// ---------------------------------------------------------------------------
// Reading
// ---------------------------------------------------------------------------
/// `lopdf::Document::load_mem`: reads the bytes of a PDF file, or reports that they are
/// none. The objects that it reads are finitely many. Which they are is left unsaid:
/// streams of objects are read side by side, or in the order of a hash map, and which
/// of two objects of one number stays can differ from call to call. Left out are the
/// bytes whose numbers it cannot hold: the first number of a section in the table of
/// objects, to which it adds, the widths of a table's columns, for which it sets bytes
/// aside, the size of a row, which it multiplies, and the digits to the base of 85, which
/// it adds up. Left to the machine are the stack on which nested arrays and dictionaries
/// are read, and that a `usize` has 64 bits.
pub assume_specification[ lopdf::Document::load_mem ](buffer: &[u8]) -> (r: Result<
    lopdf::Document,
    lopdf::Error,
>)
    requires
        readable(buffer@),
    ensures
        match r {
            Ok(doc) => pdf::objects(doc).dom().finite(),
            Err(_) => true,
        },
;

/// `r` can come of reading the bytes with `lopdf::Document::load_mem`.
pub open spec fn loaded(bytes: Seq<u8>, r: Result<Document, lopdf::Error>) -> bool {
    exists|buffer: &[u8]|
        buffer@ == bytes && #[trigger] call_ensures(Document::load_mem, (buffer,), r)
}

/// What can come of reading the bytes: the document that they were loaded as, or none,
/// where they were not even tried or loading them failed.
pub open spec fn read_as(bytes: Seq<u8>, r: Option<Document>) -> bool {
    match r {
        Some(doc) => readable(bytes) && loaded(bytes, Ok(doc)) && pdf::objects(
            doc,
        ).dom().finite(),
        None => !readable(bytes) || exists|e: lopdf::Error| #[trigger] loaded(bytes, Err(e)),
    }
}

/// Loads the bytes with the function, which is `lopdf::Document::load_mem`.
fn load_with<F: Fn(&[u8]) -> Result<Document, lopdf::Error>>(load: F, bytes: &[u8]) -> (r: Result<
    Document,
    lopdf::Error,
>)
    requires
        call_requires(load, (bytes,)),
    ensures
        call_ensures(load, (bytes,), r),
{
    load(bytes)
}

/// Reads the bytes of a PDF file, if they are one that can be read.
pub fn read(bytes: &[u8]) -> (r: Option<Document>)
    ensures
        read_as(bytes@, r),
{
    if !is_readable(bytes) {
        return None;
    }
    match load_with(Document::load_mem, bytes) {
        Ok(doc) => {
            assert(loaded(bytes@, Ok(doc)));
            Some(doc)
        },
        Err(e) => {
            assert(loaded(bytes@, Err(e)));
            None
        },
    }
}

} // verus!

//! Decides which pages of a notebook have changed since it was last digested.

use crate::state::{DocState, Table};
use crate::text::same_text;
use sha2::{Digest, Sha256};
use vstd::prelude::*;
use vstd::string::*;

verus! {

/// A page of a notebook.
pub struct PageData {
    pub id: String,
    /// Its place in the notebook.
    pub index: usize,
    /// What is written on it, if anything is.
    pub scene: Option<Vec<u8>>,
}

/// What a page of a notebook holds.
#[verifier::ext_equal]
pub struct PageView {
    pub id: Seq<char>,
    pub index: nat,
    pub scene: Seq<u8>,
}

impl View for PageData {
    type V = PageView;

    open spec fn view(&self) -> PageView {
        PageView {
            id: self.id@,
            index: self.index as nat,
            scene: match self.scene {
                Some(bytes) => bytes@,
                None => Seq::empty(),
            },
        }
    }
}

/// What the pages hold.
pub open spec fn page_views(pages: Seq<PageData>) -> Seq<PageView> {
    Seq::new(pages.len(), |i: int| pages[i]@)
}

// ---------------------------------------------------------------------------
// Hashes
// ---------------------------------------------------------------------------
/// The hash of the bytes, as `sha2::Sha256` has it.
pub uninterp spec fn sha256(bytes: Seq<u8>) -> Seq<u8>;

/// `sha2::Sha256::digest`: the hash of the bytes. It is named [`sha256`] and has 32
/// bytes.
#[verifier::external_body]
fn sha256_digest(bytes: &[u8]) -> (r: Vec<u8>)
    ensures
        r@ == sha256(bytes@),
        r@.len() == 32,
{
    Sha256::digest(bytes).to_vec()
}

/// The digit of base sixteen.
pub open spec fn hex_digit(n: int) -> char {
    if n < 10 {
        ('0' as u32 + n) as char
    } else {
        ('a' as u32 + (n - 10)) as char
    }
}

/// The bytes in base sixteen, two digits each.
pub open spec fn hex(bytes: Seq<u8>) -> Seq<char> {
    Seq::new(
        2 * bytes.len(),
        |i: int|
            if i % 2 == 0 {
                hex_digit(bytes[i / 2] as int / 16)
            } else {
                hex_digit(bytes[i / 2] as int % 16)
            },
    )
}

/// Two digits differ where their values do.
proof fn digits_differ(m: int, n: int)
    requires
        0 <= m < 16,
        0 <= n < 16,
        hex_digit(m) == hex_digit(n),
    ensures
        m == n,
{
}

/// Bytes that are written alike are alike.
pub proof fn hex_is_faithful(a: Seq<u8>, b: Seq<u8>)
    requires
        hex(a) == hex(b),
    ensures
        a == b,
{
    assert(hex(a).len() == 2 * a.len());
    assert(hex(b).len() == 2 * b.len());
    assert forall|i: int| 0 <= i < a.len() implies a[i] == b[i] by {
        assert((2 * i) / 2 == i && (2 * i) % 2 == 0);
        assert((2 * i + 1) / 2 == i && (2 * i + 1) % 2 == 1);
        assert(hex(a)[2 * i] == hex_digit(a[i] as int / 16));
        assert(hex(b)[2 * i] == hex_digit(b[i] as int / 16));
        assert(hex(a)[2 * i + 1] == hex_digit(a[i] as int % 16));
        assert(hex(b)[2 * i + 1] == hex_digit(b[i] as int % 16));
        digits_differ(a[i] as int / 16, b[i] as int / 16);
        digits_differ(a[i] as int % 16, b[i] as int % 16);
    }
    assert(a =~= b);
}

/// Makes the digit of base sixteen.
fn to_hex_digit(n: u8) -> (r: char)
    requires
        n < 16,
    ensures
        r == hex_digit(n as int),
{
    if n < 10 {
        (0x30 + n) as char
    } else {
        (0x61 + (n - 10)) as char
    }
}

/// Writes the bytes in base sixteen.
pub fn to_hex(bytes: &[u8]) -> (r: String)
    ensures
        r@ == hex(bytes@),
{
    let mut text = String::new();
    let mut i: usize = 0;
    while i < bytes.len()
        invariant
            i <= bytes@.len(),
            text@ == hex(bytes@.take(i as int)),
        decreases bytes@.len() - i,
    {
        text.push(to_hex_digit(bytes[i] / 16));
        text.push(to_hex_digit(bytes[i] % 16));
        assert(text@ =~= hex(bytes@.take(i + 1)));
        i = i + 1;
    }
    assert(bytes@.take(bytes@.len() as int) =~= bytes@);
    text
}

/// The hash of the bytes as text.
pub fn page_hash(bytes: &[u8]) -> (r: String)
    ensures
        r@ == hex(sha256(bytes@)),
{
    to_hex(sha256_digest(bytes).as_slice())
}

// ---------------------------------------------------------------------------
// Changes
// ---------------------------------------------------------------------------
/// The key of a page.
pub open spec fn page_key(id: Seq<char>) -> Seq<char> {
    id + ".rm"@
}

/// The hashes by their keys.
pub open spec fn hashes(table: Map<Seq<char>, String>) -> Map<Seq<char>, Seq<char>> {
    table.map_values(|hash: String| hash@)
}

/// The page has changed: another hash was remembered of it, or none.
pub open spec fn has_changed(page: PageView, known: Map<Seq<char>, Seq<char>>) -> bool {
    !known.contains_key(page_key(page.id)) || known[page_key(page.id)] != hex(sha256(page.scene))
}

/// The places of the pages that have changed, in the order of the pages.
pub open spec fn changed_pages(pages: Seq<PageView>, known: Map<Seq<char>, Seq<char>>) -> Seq<nat>
    decreases pages.len(),
{
    if pages.len() == 0 {
        Seq::empty()
    } else {
        let before = changed_pages(pages.drop_last(), known);
        if has_changed(pages.last(), known) {
            before.push(pages.last().index)
        } else {
            before
        }
    }
}

/// The hashes of the pages by their keys.
pub open spec fn page_hashes(pages: Seq<PageView>) -> Map<Seq<char>, Seq<char>>
    decreases pages.len(),
{
    if pages.len() == 0 {
        Map::empty()
    } else {
        page_hashes(pages.drop_last()).insert(
            page_key(pages.last().id),
            hex(sha256(pages.last().scene)),
        )
    }
}

/// What changed in a notebook.
pub struct Ingested {
    /// The places of the pages that changed or are new.
    pub changed: Vec<usize>,
    /// The hashes of all pages, to be remembered once the digest is made.
    pub new_hashes: Table<String>,
}

/// The places as numbers.
pub open spec fn numbers(v: Seq<usize>) -> Seq<nat> {
    Seq::new(v.len(), |i: int| v[i] as nat)
}

/// Hashes the pages and tells those that changed since `prev` was remembered.
pub fn ingest(pages: &Vec<PageData>, prev: &DocState) -> (r: Ingested)
    ensures
        numbers(r.changed@) == changed_pages(page_views(pages@), hashes(prev.page_hashes@)),
        hashes(r.new_hashes@) == page_hashes(page_views(pages@)),
{
    let ghost views = page_views(pages@);
    let ghost known = hashes(prev.page_hashes@);
    let mut changed: Vec<usize> = Vec::new();
    let mut new_hashes: Table<String> = Table::new();
    assert(views.take(0) =~= Seq::empty());
    assert(numbers(changed@) =~= changed_pages(views.take(0), known));
    assert(hashes(new_hashes@) =~= page_hashes(views.take(0)));
    let mut i: usize = 0;
    while i < pages.len()
        invariant
            i <= pages@.len(),
            views == page_views(pages@),
            known == hashes(prev.page_hashes@),
            numbers(changed@) == changed_pages(views.take(i as int), known),
            hashes(new_hashes@) == page_hashes(views.take(i as int)),
        decreases pages@.len() - i,
    {
        let page = &pages[i];
        proof {
            assert(views.take(i + 1).drop_last() =~= views.take(i as int));
            assert(views.take(i + 1).last() == page@);
        }
        let mut key = page.id.as_str().to_owned();
        key.append(".rm");
        let hash = match &page.scene {
            Some(bytes) => page_hash(bytes.as_slice()),
            None => {
                let nothing: Vec<u8> = Vec::new();
                assert(nothing@ =~= Seq::<u8>::empty());
                page_hash(nothing.as_slice())
            },
        };
        let is_known = match prev.page_hashes.get(key.as_str()) {
            Some(old_hash) => same_text(old_hash.as_str(), hash.as_str()),
            None => false,
        };
        if !is_known {
            changed.push(page.index);
        }
        assert(numbers(changed@) =~= changed_pages(views.take(i + 1), known));
        let ghost before = new_hashes@;
        new_hashes.insert(key, hash);
        assert(hashes(new_hashes@) =~= page_hashes(views.take(i + 1)));
        i = i + 1;
    }
    assert(views.take(views.len() as int) =~= views);
    Ingested { changed, new_hashes }
}

// ---------------------------------------------------------------------------
// Laws
// ---------------------------------------------------------------------------
/// At first sight every page has changed.
pub proof fn first_sight_reports_every_page(pages: Seq<PageView>)
    ensures
        changed_pages(pages, Map::empty()) == Seq::new(pages.len(), |i: int| pages[i].index),
    decreases pages.len(),
{
    if pages.len() > 0 {
        first_sight_reports_every_page(pages.drop_last());
    }
    assert(changed_pages(pages, Map::empty()) =~= Seq::new(
        pages.len(),
        |i: int| pages[i].index,
    ));
}

/// Pages with the same id hold the same.
pub open spec fn ids_agree(pages: Seq<PageView>) -> bool {
    forall|i: int, j: int|
        0 <= i < pages.len() && 0 <= j < pages.len() && (#[trigger] pages[i]).id == (
        #[trigger] pages[j]).id ==> pages[i].scene == pages[j].scene
}

/// Pages with different ids have different keys.
proof fn keys_tell_ids(a: Seq<char>, b: Seq<char>)
    requires
        page_key(a) == page_key(b),
    ensures
        a == b,
{
    assert(page_key(a).take(a.len() as int) =~= a);
    assert(page_key(b).take(b.len() as int) =~= b);
    assert(page_key(a).len() == a.len() + ".rm"@.len());
    assert(page_key(b).len() == b.len() + ".rm"@.len());
}

/// The hash of each page is among the hashes.
proof fn page_is_hashed(pages: Seq<PageView>, i: int)
    requires
        ids_agree(pages),
        0 <= i < pages.len(),
    ensures
        page_hashes(pages).contains_key(page_key(pages[i].id)),
        page_hashes(pages)[page_key(pages[i].id)] == hex(sha256(pages[i].scene)),
    decreases pages.len(),
{
    let last = pages.len() - 1;
    if page_key(pages[i].id) == page_key(pages.last().id) {
        keys_tell_ids(pages[i].id, pages.last().id);
        assert(pages[i].scene == pages[last].scene);
    } else {
        let before = pages.drop_last();
        assert forall|m: int, n: int|
            0 <= m < before.len() && 0 <= n < before.len() && (#[trigger] before[m]).id == (
            #[trigger] before[n]).id implies before[m].scene == before[n].scene by {
            assert(pages[m].id == pages[n].id);
        }
        page_is_hashed(before, i);
    }
}

/// Where every hash is known, nothing has changed.
proof fn known_pages_are_silent(pages: Seq<PageView>, known: Map<Seq<char>, Seq<char>>)
    requires
        forall|i: int| 0 <= i < pages.len() ==> !has_changed(#[trigger] pages[i], known),
    ensures
        changed_pages(pages, known) == Seq::<nat>::empty(),
    decreases pages.len(),
{
    if pages.len() > 0 {
        let before = pages.drop_last();
        assert forall|i: int| 0 <= i < before.len() implies !has_changed(
            #[trigger] before[i],
            known,
        ) by {
            assert(before[i] == pages[i]);
        }
        known_pages_are_silent(before, known);
        assert(!has_changed(pages[pages.len() - 1], known));
    }
}

/// Against the hashes of the same pages, nothing has changed.
pub proof fn unchanged_pages_are_silent(pages: Seq<PageView>)
    requires
        ids_agree(pages),
    ensures
        changed_pages(pages, page_hashes(pages)) == Seq::<nat>::empty(),
{
    let known = page_hashes(pages);
    assert forall|i: int| 0 <= i < pages.len() implies !has_changed(#[trigger] pages[i], known) by {
        page_is_hashed(pages, i);
    }
    known_pages_are_silent(pages, known);
}

/// Against the hashes of earlier pages, a page that was among them has changed exactly
/// where the hash of what is written on it has.
pub proof fn rewritten_pages_are_reported(earlier: Seq<PageView>, i: int, page: PageView)
    requires
        ids_agree(earlier),
        0 <= i < earlier.len(),
        page.id == earlier[i].id,
    ensures
        has_changed(page, page_hashes(earlier)) == (sha256(page.scene) != sha256(
            earlier[i].scene,
        )),
{
    page_is_hashed(earlier, i);
    if hex(sha256(page.scene)) == hex(sha256(earlier[i].scene)) {
        hex_is_faithful(sha256(page.scene), sha256(earlier[i].scene));
    }
}

} // verus!

//! What is remembered between runs: for each document the version that was seen, the
//! hashes of its pages and the digests that were made of it.

use crate::deploy;
use crate::deploy::join_path;
use crate::text::same_text;
use vstd::prelude::*;
use vstd::string::*;

verus! {

/// A map from text, as a list in which no key occurs twice.
#[derive(Debug)]
pub struct Table<V> {
    entries: Vec<(String, V)>,
}

/// The key stands at index `i`.
pub open spec fn key_at<V>(entries: Seq<(String, V)>, key: Seq<char>, i: int) -> bool {
    0 <= i < entries.len() && entries[i].0@ == key
}

/// The key stands somewhere.
pub open spec fn has_key<V>(entries: Seq<(String, V)>, key: Seq<char>) -> bool {
    exists|i: int| key_at(entries, key, i)
}

/// No key occurs twice.
pub open spec fn keys_are_unique<V>(entries: Seq<(String, V)>) -> bool {
    forall|i: int, j: int|
        0 <= i < j < entries.len() ==> (#[trigger] entries[i]).0@ != (#[trigger] entries[j]).0@
}

/// The map that the list stands for.
pub open spec fn map_of<V>(entries: Seq<(String, V)>) -> Map<Seq<char>, V> {
    Map::new(
        |key: Seq<char>| has_key(entries, key),
        |key: Seq<char>| entries[choose|i: int| key_at(entries, key, i)].1,
    )
}

/// A key that stands at `i` maps to what stands beside it.
proof fn map_at<V>(entries: Seq<(String, V)>, i: int)
    requires
        keys_are_unique(entries),
        0 <= i < entries.len(),
    ensures
        map_of(entries).contains_key(entries[i].0@),
        map_of(entries)[entries[i].0@] == entries[i].1,
{
    let key = entries[i].0@;
    assert(key_at(entries, key, i));
    let k = choose|k: int| key_at(entries, key, k);
    if k < i {
        assert(entries[k].0@ != entries[i].0@);
    } else if i < k {
        assert(entries[i].0@ != entries[k].0@);
    }
}

impl<V> View for Table<V> {
    type V = Map<Seq<char>, V>;

    closed spec fn view(&self) -> Map<Seq<char>, V> {
        map_of(self.entries@)
    }
}

impl<V> Table<V> {
    /// No key occurs twice.
    #[verifier::type_invariant]
    spec fn unique(&self) -> bool {
        keys_are_unique(self.entries@)
    }

    /// Makes an empty map.
    pub fn new() -> (r: Self)
        ensures
            r@ == Map::<Seq<char>, V>::empty(),
    {
        let r = Table { entries: Vec::new() };
        assert(r@ =~= Map::<Seq<char>, V>::empty()) by {
            assert forall|key: Seq<char>| !has_key(r.entries@, key) by {}
        }
        r
    }

    /// The entries, in the order in which their keys came.
    pub fn entries(&self) -> (r: &Vec<(String, V)>)
        ensures
            keys_are_unique(r@),
            map_of(r@) == self@,
    {
        proof {
            use_type_invariant(self);
        }
        &self.entries
    }

    /// The index of the key.
    fn position(&self, key: &str) -> (r: Option<usize>)
        ensures
            match r {
                Some(i) => key_at(self.entries@, key@, i as int),
                None => !has_key(self.entries@, key@),
            },
    {
        let mut i: usize = 0;
        while i < self.entries.len()
            invariant
                i <= self.entries@.len(),
                forall|j: int| 0 <= j < i ==> (#[trigger] self.entries@[j]).0@ != key@,
            decreases self.entries@.len() - i,
        {
            if same_text(self.entries[i].0.as_str(), key) {
                return Some(i);
            }
            i = i + 1;
        }
        None
    }

    /// What the key maps to.
    pub fn get(&self, key: &str) -> (r: Option<&V>)
        ensures
            match r {
                Some(value) => self@.contains_key(key@) && *value == self@[key@],
                None => !self@.contains_key(key@),
            },
    {
        proof {
            use_type_invariant(self);
        }
        match self.position(key) {
            Some(i) => {
                proof {
                    map_at(self.entries@, i as int);
                }
                Some(&self.entries[i].1)
            },
            None => None,
        }
    }

    /// Maps the key to the value, whatever it mapped to before.
    pub fn insert(&mut self, key: String, value: V)
        ensures
            final(self)@ == old(self)@.insert(key@, value),
    {
        proof {
            use_type_invariant(&*self);
        }
        let ghost before = self.entries@;
        let place = self.position(key.as_str());
        let mut entries: Vec<(String, V)> = Vec::new();
        std::mem::swap(&mut entries, &mut self.entries);
        match place {
            Some(i) => {
                entries.set(i, (key, value));
            },
            None => {
                entries.push((key, value));
            },
        }
        let ghost after = entries@;
        proof {
            match place {
                Some(i) => {
                    assert(after == before.update(i as int, (key, value)));
                },
                None => {
                    assert forall|j: int| 0 <= j < before.len() implies (#[trigger] before[j]).0@
                        != key@ by {
                        assert(!key_at(before, key@, j));
                    }
                },
            }
            replaced(before, after, key, value);
        }
        self.entries = entries;
    }

    /// Whether there is no entry.
    pub fn is_empty(&self) -> (r: bool)
        ensures
            r == (self@ == Map::<Seq<char>, V>::empty()),
    {
        if self.entries.len() == 0 {
            assert(self@ =~= Map::<Seq<char>, V>::empty());
            true
        } else {
            assert(key_at(self.entries@, self.entries@[0].0@, 0));
            assert(self@.contains_key(self.entries@[0].0@));
            false
        }
    }
}

/// Setting or adding an entry is an insertion.
proof fn replaced<V>(
    before: Seq<(String, V)>,
    after: Seq<(String, V)>,
    key: String,
    value: V,
)
    requires
        keys_are_unique(before),
        after == before.push((key, value)) && !has_key(before, key@) || exists|i: int|
            key_at(before, key@, i) && after == #[trigger] before.update(i, (key, value)),
    ensures
        keys_are_unique(after),
        map_of(after) == map_of(before).insert(key@, value),
{
    let at = if after == before.push((key, value)) && !has_key(before, key@) {
        before.len() as int
    } else {
        choose|i: int| key_at(before, key@, i) && after == #[trigger] before.update(i, (key, value))
    };
    assert(after[at] == (key, value));
    assert forall|i: int, j: int| 0 <= i < j < after.len() implies (#[trigger] after[i]).0@ != (
    #[trigger] after[j]).0@ by {
        if i < before.len() {
            assert(key_at(before, before[i].0@, i));
        }
        if j < before.len() {
            assert(key_at(before, before[j].0@, j));
        }
    }
    let expected = map_of(before).insert(key@, value);
    assert forall|k: Seq<char>| map_of(after).contains_key(k) == expected.contains_key(k) by {
        if has_key(after, k) {
            let i = choose|i: int| key_at(after, k, i);
            if i != at {
                assert(key_at(before, k, i));
            }
        }
        if has_key(before, k) {
            let i = choose|i: int| key_at(before, k, i);
            assert(key_at(after, k, i));
        }
        assert(key_at(after, key@, at));
    }
    assert forall|k: Seq<char>| map_of(after).contains_key(k) implies map_of(after)[k]
        == expected[k] by {
        let i = choose|i: int| key_at(after, k, i);
        map_at(after, i);
        if i != at {
            assert(after[i] == before[i]);
            map_at(before, i);
        }
    }
    assert(map_of(after) =~= expected);
}

/// What is remembered of all documents.
#[derive(Debug)]
pub struct State {
    /// Under the path of each document in the cloud, what is remembered of it.
    pub docs: Table<DocState>,
}

/// What is remembered of a document.
#[derive(Debug)]
pub struct DocState {
    /// The version of the document in the cloud.
    pub cloud_version: Option<String>,
    /// Under the key of each page, the hash of what was written on it.
    pub page_hashes: Table<String>,
    /// The digests that were made of the document.
    pub digest_uuids: Vec<String>,
}

impl Default for State {
    fn default() -> (r: Self)
        ensures
            r.docs@ == Map::<Seq<char>, DocState>::empty(),
    {
        State { docs: Table::new() }
    }
}

impl Default for DocState {
    fn default() -> (r: Self)
        ensures
            r.cloud_version is None,
            r.page_hashes@ == Map::<Seq<char>, String>::empty(),
            r.digest_uuids@.len() == 0,
    {
        DocState { cloud_version: None, page_hashes: Table::new(), digest_uuids: Vec::new() }
    }
}

impl State {
    /// The file that the state is kept in, under the home directory.
    pub fn default_path(home: &str) -> (r: String)
        ensures
            r@ == deploy::joined(home@, ".local/state/rmdigest/state.json"@),
    {
        join_path(home, ".local/state/rmdigest/state.json")
    }
}

} // verus!

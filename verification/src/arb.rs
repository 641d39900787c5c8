//! The catalog data model: an ordered mapping from string keys to entries
//! that are either a text value or a metadata object, validated at load time.
//!
//! A catalog file holds one such mapping per language; the template catalog
//! is the canonical key universe.  Keys are unique within a catalog; a key
//! starting with `@` is a metadata key paired with the content key of the
//! same suffix.  A text value whose first character is the sentinel `#` is an
//! untranslated placeholder whose remainder is the fallback text.

use vstd::prelude::*;

use crate::text::str_eq;
use vstd::string::StringExecFns;

verus! {

/// One placeholder discovered in a literal: its name and its type
/// descriptor.
#[derive(Debug, Clone, PartialEq, Eq)]
pub struct Placeholder {
    pub name: String,
    pub ptype: String,
}

/// The metadata object paired with a content key.
#[derive(Debug, Clone, PartialEq, Eq)]
pub struct Metadata {
    pub placeholders: Vec<Placeholder>,
}

/// A catalog entry value: translatable text, or a metadata object.
#[derive(Debug, Clone, PartialEq, Eq)]
pub enum ArbValue {
    Text(String),
    Meta(Metadata),
}

/// One key together with its value.
#[derive(Debug, Clone, PartialEq, Eq)]
pub struct Entry {
    pub key: String,
    pub value: ArbValue,
}

/// An ordered key-to-value mapping with unique keys: the in-memory form of
/// one catalog file.
#[derive(Debug, Clone, PartialEq, Eq)]
pub struct Catalog {
    pub entries: Vec<Entry>,
}

/// Whether a key is a metadata key: it starts with `@`.
pub open spec fn is_meta_key(k: Seq<char>) -> bool {
    k.len() > 0 && k[0] == '@'
}

/// The metadata key paired with a content key.
pub open spec fn meta_key_of(k: Seq<char>) -> Seq<char> {
    seq!['@'] + k
}

impl Catalog {
    /// The key sequence, in catalog order.
    pub open spec fn keys(self) -> Seq<Seq<char>> {
        self.entries@.map_values(|e: Entry| e.key@)
    }

    /// Whether the catalog holds an entry with key `k`.
    pub open spec fn has_key(self, k: Seq<char>) -> bool {
        self.keys().contains(k)
    }

    /// Keys are unique within a catalog.
    pub open spec fn wf(self) -> bool {
        forall|i: int, j: int|
            0 <= i < j < self.entries@.len() ==> self.entries@[i].key@ != self.entries@[j].key@
    }

    /// The index of the entry with key `k` (meaningful when the catalog is
    /// well formed and holds the key).
    pub open spec fn idx_of(self, k: Seq<char>) -> int {
        choose|i: int| 0 <= i < self.entries@.len() && self.entries@[i].key@ == k
    }

    /// The value stored under key `k`.
    pub open spec fn val_of(self, k: Seq<char>) -> ArbValue {
        self.entries@[self.idx_of(k)].value
    }

    /// A catalog holding a key holds it at `idx_of`, and at no other index.
    pub proof fn lemma_idx(self, k: Seq<char>)
        requires
            self.wf(),
            self.has_key(k),
        ensures
            0 <= self.idx_of(k) < self.entries@.len(),
            self.entries@[self.idx_of(k)].key@ == k,
            forall|i: int|
                0 <= i < self.entries@.len() && self.entries@[i].key@ == k
                    ==> i == self.idx_of(k),
    {
        let j = choose|i: int|
            0 <= i < self.keys().len() && self.keys()[i] == k;
        assert(self.entries@[j].key@ == k);
    }

    /// An empty catalog.
    pub fn new() -> (r: Catalog)
        ensures
            r.entries@.len() == 0,
            r.wf(),
    {
        Catalog { entries: Vec::new() }
    }

    /// Finds the index of the entry with the given key, if any.
    pub fn find_index(&self, key: &str) -> (r: Option<usize>)
        ensures
            r is Some <==> self.has_key(key@),
            r matches Some(i) ==> 0 <= i < self.entries@.len() && self.entries@[i as int].key@
                == key@,
    {
        let mut i: usize = 0;
        while i < self.entries.len()
            invariant
                i <= self.entries@.len(),
                forall|j: int| 0 <= j < i as int ==> self.entries@[j].key@ != key@,
            decreases self.entries@.len() - i,
        {
            if str_eq(self.entries[i].key.as_str(), key) {
                assert(self.keys()[i as int] == key@);
                return Some(i);
            }
            i = i + 1;
        }
        proof {
            assert(forall|j: int| 0 <= j < self.keys().len() ==> self.keys()[j] != key@);
        }
        None
    }

    /// Returns the value stored under the given key, if any.
    pub fn get(&self, key: &str) -> (r: Option<&ArbValue>)
        ensures
            r is Some <==> self.has_key(key@),
            self.wf() && self.has_key(key@) ==> (r matches Some(v) && *v == self.val_of(key@)),
    {
        match self.find_index(key) {
            Some(i) => {
                proof {
                    if self.wf() {
                        self.lemma_idx(key@);
                    }
                }
                Some(&self.entries[i].value)
            },
            None => None,
        }
    }

    /// Stores `value` under `key`: replaces the value in place when the key
    /// exists (the entry count does not change), appends a new entry
    /// otherwise.  No other entry is touched.
    pub fn set_value(&mut self, key: &str, value: ArbValue)
        requires
            old(self).wf(),
        ensures
            final(self).wf(),
            final(self).has_key(key@),
            old(self).has_key(key@) ==> {
                &&& final(self).entries@.len() == old(self).entries@.len()
                &&& forall|i: int|
                    0 <= i < old(self).entries@.len() && i != old(self).idx_of(key@)
                        ==> final(self).entries@[i] == old(self).entries@[i]
                &&& final(self).entries@[old(self).idx_of(key@)].key@ == key@
                &&& final(self).entries@[old(self).idx_of(key@)].value == value
                &&& final(self).idx_of(key@) == old(self).idx_of(key@)
                &&& final(self).val_of(key@) == value
            },
            !old(self).has_key(key@) ==> {
                &&& final(self).entries@.len() == old(self).entries@.len() + 1
                &&& forall|i: int|
                    0 <= i < old(self).entries@.len()
                        ==> final(self).entries@[i] == old(self).entries@[i]
                &&& final(self).entries@.last().key@ == key@
                &&& final(self).entries@.last().value == value
                &&& final(self).val_of(key@) == value
            },
    {
        let owned_key = String::from_str(key);
        match self.find_index(key) {
            Some(i) => {
                proof {
                    old(self).lemma_idx(key@);
                }
                self.entries.set(i, Entry { key: owned_key, value });
                proof {
                    assert(final(self).keys() =~= old(self).keys().update(i as int, key@));
                    assert(forall|j: int|
                        0 <= j < final(self).keys().len() && j != i as int
                            ==> final(self).keys()[j] == old(self).keys()[j]);
                    assert(final(self).wf());
                    assert(final(self).has_key(key@)) by {
                        assert(final(self).keys()[i as int] == key@);
                    }
                    final(self).lemma_idx(key@);
                    assert(final(self).idx_of(key@) == i as int);
                }
            },
            None => {
                self.entries.push(Entry { key: owned_key, value });
                proof {
                    let n = old(self).entries@.len() as int;
                    assert(final(self).keys() =~= old(self).keys().push(key@));
                    assert(forall|j: int|
                        0 <= j < old(self).keys().len()
                            ==> final(self).keys()[j] == old(self).keys()[j]);
                    assert forall|j: int|
                        0 <= j < old(self).entries@.len() implies old(self).entries@[j].key@
                        != key@ by {
                        assert(old(self).keys()[j] == old(self).entries@[j].key@);
                    }
                    assert(final(self).entries@.last().key@ == key@);
                    assert(forall|j: int|
                        0 <= j < old(self).entries@.len() ==> final(self).entries@[j] == old(
                            self,
                        ).entries@[j]);
                    assert(final(self).wf());
                    assert(final(self).has_key(key@)) by {
                        assert(final(self).keys()[n] == key@);
                    }
                    final(self).lemma_idx(key@);
                    assert(final(self).idx_of(key@) == n);
                }
            },
        }
    }

    /// Stores `value` as the text of `key`: replaces the value in place when
    /// the key exists (the entry count does not change), appends a new entry
    /// otherwise.  No other entry is touched.  This is the only operation
    /// that ever removes a placeholder sentinel from a stored value.
    pub fn add_key(&mut self, key: &str, value: &str)
        requires
            old(self).wf(),
        ensures
            final(self).wf(),
            final(self).has_key(key@),
            old(self).has_key(key@) ==> {
                &&& final(self).entries@.len() == old(self).entries@.len()
                &&& forall|i: int|
                    0 <= i < old(self).entries@.len() && i != old(self).idx_of(key@)
                        ==> final(self).entries@[i] == old(self).entries@[i]
                &&& final(self).entries@[old(self).idx_of(key@)].key@ == key@
                &&& final(self).val_of(key@) matches ArbValue::Text(t) && t@ == value@
            },
            !old(self).has_key(key@) ==> {
                &&& final(self).entries@.len() == old(self).entries@.len() + 1
                &&& forall|i: int|
                    0 <= i < old(self).entries@.len()
                        ==> final(self).entries@[i] == old(self).entries@[i]
                &&& final(self).entries@.last().key@ == key@
                &&& final(self).val_of(key@) matches ArbValue::Text(t) && t@ == value@
            },
    {
        let owned_value = String::from_str(value);
        self.set_value(key, ArbValue::Text(owned_value));
    }

    /// Appends an entry under a key the catalog does not hold yet.
    pub fn insert_absent(&mut self, key: &str, value: ArbValue)
        requires
            old(self).wf(),
            !old(self).has_key(key@),
        ensures
            final(self).wf(),
            final(self).has_key(key@),
            final(self).entries@.len() == old(self).entries@.len() + 1,
            forall|i: int|
                0 <= i < old(self).entries@.len() ==> final(self).entries@[i] == old(
                    self,
                ).entries@[i],
            final(self).entries@.last().key@ == key@,
            final(self).entries@.last().value == value,
            final(self).val_of(key@) == value,
    {
        self.set_value(key, value);
    }
}

/// A catalog that extends another one entry for entry holds every key of the
/// smaller one at the same place, with the same value.
pub proof fn lemma_extend_val(c1: Catalog, c2: Catalog, k: Seq<char>)
    requires
        c1.wf(),
        c2.wf(),
        c2.entries@.len() >= c1.entries@.len(),
        forall|i: int| 0 <= i < c1.entries@.len() ==> c2.entries@[i] == c1.entries@[i],
        c1.has_key(k),
    ensures
        c2.has_key(k),
        c2.idx_of(k) == c1.idx_of(k),
        c2.val_of(k) == c1.val_of(k),
{
    c1.lemma_idx(k);
    let i1 = c1.idx_of(k);
    assert(c2.entries@[i1].key@ == k);
    assert(c2.has_key(k)) by {
        assert(c2.keys()[i1] == k);
    }
    c2.lemma_idx(k);
}

/// The metadata key paired with a content key, as a string.
pub fn meta_key_exec(key: &str) -> (r: String)
    ensures
        r@ == meta_key_of(key@),
{
    let mut r = String::new();
    r.push('@');
    r.append(key);
    proof {
        assert(r@ =~= meta_key_of(key@));
    }
    r
}

/// A catalog file on disk, identified by its path.  All file access goes
/// through the surrounding application; the library works on the parsed
/// `Catalog`.
#[derive(Debug, Clone, PartialEq, Eq)]
pub struct ArbFile {
    pub path: String,
}

impl ArbFile {
    /// A handle on the catalog file at `path`.
    pub fn new(path: String) -> (r: Self)
        ensures
            r.path@ == path@,
    {
        Self { path }
    }
}

} // verus!

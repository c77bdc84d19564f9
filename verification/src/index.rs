//! The in-memory index: a map from key to the locator of the most recent
//! `Put` record for that key.
//!
//! The index is an association vector with pairwise-distinct keys; its
//! mathematical value is the finite map the entries spell out.  It offers
//! point lookup, insert and remove, and indexed access to its entries for the
//! compactor's single pass over everything live.

use vstd::prelude::*;

verus! {

/// Where one record lies: the generation of its segment and the byte range
/// `[start, end)` it occupies there.
#[derive(Clone, Copy, Debug, PartialEq, Eq, Structural)]
pub struct Locator {
    /// The generation number of the segment holding the record.
    pub generation: u64,
    /// The offset of the record's first byte.
    pub start: u64,
    /// The offset one past the record's last byte.
    pub end: u64,
}

/// The finite map that a sequence of entries spells out, later entries
/// overriding earlier ones.
pub open spec fn map_of(entries: Seq<(Vec<u8>, Locator)>) -> Map<Seq<u8>, Locator>
    decreases entries.len(),
{
    if entries.len() == 0 {
        Map::empty()
    } else {
        map_of(entries.drop_last()).insert(entries.last().0@, entries.last().1)
    }
}

/// No two entries name the same key.
pub open spec fn unique_keys(entries: Seq<(Vec<u8>, Locator)>) -> bool {
    forall|i: int, j: int| 0 <= i < j < entries.len() ==> entries[i].0@ != entries[j].0@
}

/// A key is in the map exactly when some entry names it.
proof fn lemma_map_of_dom(entries: Seq<(Vec<u8>, Locator)>, k: Seq<u8>)
    ensures
        map_of(entries).contains_key(k) <==> exists|i: int|
            0 <= i < entries.len() && entries[i].0@ == k,
    decreases entries.len(),
{
    if entries.len() > 0 {
        let pre = entries.drop_last();
        lemma_map_of_dom(pre, k);
        if map_of(entries).contains_key(k) {
            if entries.last().0@ == k {
                assert(entries[entries.len() - 1].0@ == k);
            } else {
                let i = choose|i: int| 0 <= i < pre.len() && pre[i].0@ == k;
                assert(entries[i].0@ == k);
            }
        }
        if exists|i: int| 0 <= i < entries.len() && entries[i].0@ == k {
            let i = choose|i: int| 0 <= i < entries.len() && entries[i].0@ == k;
            if i < entries.len() - 1 {
                assert(pre[i].0@ == k);
            }
        }
    }
}

/// With distinct keys, the map sends each entry's key to that entry's
/// locator.
proof fn lemma_map_of_index(entries: Seq<(Vec<u8>, Locator)>, i: int)
    requires
        unique_keys(entries),
        0 <= i < entries.len(),
    ensures
        map_of(entries).contains_key(entries[i].0@),
        map_of(entries)[entries[i].0@] == entries[i].1,
    decreases entries.len(),
{
    let pre = entries.drop_last();
    if i < entries.len() - 1 {
        assert(unique_keys(pre));
        lemma_map_of_index(pre, i);
        assert(entries.last().0@ != entries[i].0@);
    }
}

/// The in-memory index of the store.
pub struct Index {
    entries: Vec<(Vec<u8>, Locator)>,
}

impl View for Index {
    type V = Map<Seq<u8>, Locator>;

    closed spec fn view(&self) -> Map<Seq<u8>, Locator> {
        map_of(self.entries@)
    }
}

impl Index {
    /// Entries name pairwise-distinct keys.
    pub closed spec fn wf(self) -> bool {
        unique_keys(self.entries@)
    }

    /// How many entries the index holds.
    pub closed spec fn num_entries(self) -> nat {
        self.entries@.len()
    }

    /// The key of entry `i`.
    pub closed spec fn entry_key(self, i: int) -> Seq<u8> {
        self.entries@[i].0@
    }

    /// The locator of entry `i`.
    pub closed spec fn entry_loc(self, i: int) -> Locator {
        self.entries@[i].1
    }

    /// Each entry is in the map, at its own key.
    pub proof fn lemma_entry_in_view(self, i: int)
        requires
            self.wf(),
            0 <= i < self.num_entries(),
        ensures
            self@.contains_key(self.entry_key(i)),
            self@[self.entry_key(i)] == self.entry_loc(i),
    {
        lemma_map_of_index(self.entries@, i);
    }

    /// Every key of the map is some entry's key.
    pub proof fn lemma_view_has_entry(self, k: Seq<u8>)
        requires
            self@.contains_key(k),
        ensures
            exists|i: int| 0 <= i < self.num_entries() && self.entry_key(i) == k,
    {
        lemma_map_of_dom(self.entries@, k);
        let i = choose|i: int| 0 <= i < self.entries@.len() && self.entries@[i].0@ == k;
        assert(0 <= i < self.num_entries() && self.entry_key(i) == k);
    }

    /// Distinct entries name distinct keys.
    pub proof fn lemma_entry_keys_distinct(self, i: int, j: int)
        requires
            self.wf(),
            0 <= i < j < self.num_entries(),
        ensures
            self.entry_key(i) != self.entry_key(j),
    {
    }

    /// A fresh, empty index.
    pub fn new() -> (r: Index)
        ensures
            r.wf(),
            r@ == Map::<Seq<u8>, Locator>::empty(),
            r.num_entries() == 0,
    {
        Index { entries: Vec::new() }
    }

    /// How many entries the index holds.
    pub fn len(&self) -> (r: usize)
        ensures
            r == self.num_entries(),
    {
        self.entries.len()
    }

    /// The key of entry `i`.
    pub fn key_at(&self, i: usize) -> (r: &Vec<u8>)
        requires
            i < self.num_entries(),
        ensures
            r@ == self.entry_key(i as int),
    {
        &self.entries[i].0
    }

    /// The locator of entry `i`.
    pub fn loc_at(&self, i: usize) -> (r: Locator)
        requires
            i < self.num_entries(),
        ensures
            r == self.entry_loc(i as int),
    {
        self.entries[i].1
    }

    /// The locator bound to `key`, or `None` when the key is absent.
    pub fn lookup(&self, key: &Vec<u8>) -> (r: Option<Locator>)
        requires
            self.wf(),
        ensures
            match r {
                Some(loc) => self@.contains_key(key@) && self@[key@] == loc,
                None => !self@.contains_key(key@),
            },
    {
        let n: usize = self.entries.len();
        let mut i: usize = 0;
        while i < n
            invariant
                i <= n,
                n == self.entries@.len(),
                unique_keys(self.entries@),
                forall|j: int| 0 <= j < i ==> self.entries@[j].0@ != key@,
            decreases n - i,
        {
            if bytes_eq(&self.entries[i].0, key) {
                proof {
                    lemma_map_of_index(self.entries@, i as int);
                }
                return Some(self.entries[i].1);
            }
            i = i + 1;
        }
        proof {
            lemma_map_of_dom(self.entries@, key@);
        }
        None
    }

    /// Deletes `key`; reports whether it was present.
    pub fn remove(&mut self, key: &Vec<u8>) -> (r: bool)
        requires
            old(self).wf(),
        ensures
            final(self).wf(),
            r == old(self)@.contains_key(key@),
            final(self)@ == old(self)@.remove(key@),
    {
        let n: usize = self.entries.len();
        let mut i: usize = 0;
        while i < n
            invariant
                i <= n,
                self == old(self),
                n == self.entries@.len(),
                unique_keys(self.entries@),
                forall|j: int| 0 <= j < i ==> self.entries@[j].0@ != key@,
            decreases n - i,
        {
            if bytes_eq(&self.entries[i].0, key) {
                proof {
                    lemma_map_of_index(self.entries@, i as int);
                    lemma_map_of_remove(self.entries@, i as int);
                }
                self.entries.remove(i);
                return true;
            }
            i = i + 1;
        }
        proof {
            lemma_map_of_dom(self.entries@, key@);
            assert(old(self)@.remove(key@) =~= old(self)@);
        }
        false
    }

    /// Binds `key` to `loc`, replacing any earlier binding.
    pub fn insert(&mut self, key: Vec<u8>, loc: Locator)
        requires
            old(self).wf(),
        ensures
            final(self).wf(),
            final(self)@ == old(self)@.insert(key@, loc),
    {
        self.remove(&key);
        proof {
            lemma_map_of_dom(self.entries@, key@);
        }
        let ghost pre = self.entries@;
        self.entries.push((key, loc));
        proof {
            assert(self.entries@.drop_last() =~= pre);
            assert(self@ =~= old(self)@.insert(key@, loc));
        }
    }
}

/// Whether two byte vectors hold the same bytes.
pub fn bytes_eq(a: &Vec<u8>, b: &Vec<u8>) -> (r: bool)
    ensures
        r <==> a@ == b@,
{
    let n: usize = a.len();
    if n != b.len() {
        return false;
    }
    let mut i: usize = 0;
    while i < n
        invariant
            i <= n,
            n == a@.len(),
            a@.len() == b@.len(),
            forall|j: int| 0 <= j < i ==> a@[j] == b@[j],
        decreases n - i,
    {
        if a[i] != b[i] {
            return false;
        }
        i = i + 1;
    }
    proof {
        assert(a@ =~= b@);
    }
    true
}

/// Removing entry `i` removes exactly its key from the map.
proof fn lemma_map_of_remove(entries: Seq<(Vec<u8>, Locator)>, i: int)
    requires
        unique_keys(entries),
        0 <= i < entries.len(),
    ensures
        unique_keys(entries.remove(i)),
        map_of(entries.remove(i)) == map_of(entries).remove(entries[i].0@),
{
    let er = entries.remove(i);
    let k0 = entries[i].0@;
    assert forall|a: int, b: int| 0 <= a < b < er.len() implies er[a].0@ != er[b].0@ by {
        let a2: int = if a < i {
            a
        } else {
            a + 1
        };
        let b2: int = if b < i {
            b
        } else {
            b + 1
        };
        assert(er[a].0@ == entries[a2].0@ && er[b].0@ == entries[b2].0@);
    }
    assert forall|k: Seq<u8>| #[trigger] map_of(er).contains_key(k) implies map_of(
        entries,
    ).remove(k0).contains_key(k) && map_of(er)[k] == map_of(entries).remove(k0)[k] by {
        lemma_map_of_dom(er, k);
        let j = choose|j: int| 0 <= j < er.len() && er[j].0@ == k;
        let j2: int = if j < i {
            j
        } else {
            j + 1
        };
        assert(entries[j2].0@ == k);
        assert(k != k0);
        lemma_map_of_dom(entries, k);
        lemma_map_of_index(entries, j2);
        lemma_map_of_index(er, j);
    }
    assert forall|k: Seq<u8>| #[trigger] map_of(entries).remove(k0).contains_key(k) implies map_of(
        er,
    ).contains_key(k) by {
        lemma_map_of_dom(entries, k);
        let j2 = choose|j2: int| 0 <= j2 < entries.len() && entries[j2].0@ == k;
        assert(j2 != i);
        let j: int = if j2 < i {
            j2
        } else {
            j2 - 1
        };
        assert(er[j].0@ == k);
        lemma_map_of_dom(er, k);
    }
    assert(map_of(er) =~= map_of(entries).remove(k0));
}

} // verus!

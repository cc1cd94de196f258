//! The in-memory index: for each live key, where its current value lies on disk.

use crate::record::MAX_KV;
use std::collections::hash_map::DefaultHasher;
use std::collections::HashMap;
use std::hash::Hasher;
use vstd::prelude::*;
use vstd::slice::slice_to_vec;
use vstd::std_specs::hash::DefaultHasherAdditionalSpecFns;

verus! {

broadcast use vstd::std_specs::hash::group_hash_axioms;

/// Where a key's current value lies on disk.
#[derive(Clone, Copy, Debug, PartialEq, Eq, Structural)]
pub struct Loc {
    /// The segment that holds the value.
    pub file_id: u64,
    /// The offset of the value's first byte in that segment.
    pub val_pos: u64,
    /// The length of the value.
    pub val_len: u32,
}

/// What a keydir stands for.
pub type Index = Map<Seq<u8>, Loc>;

/// No key of the index is above `MAX_KV`.
pub open spec fn keys_bounded(index: Index) -> bool {
    forall|key: Seq<u8>| #[trigger] index.contains_key(key) ==> key.len() <= MAX_KV
}

/// A key and the place of its value.
pub struct Entry {
    pub key: Vec<u8>,
    pub loc: Loc,
}

/// The number under which a key is filed.
spec fn slot(key: Seq<u8>) -> u64 {
    DefaultHasher::spec_finish(seq![key])
}

/// `key` is the key of one of the entries.
spec fn holds(entries: Seq<Entry>, key: Seq<u8>) -> bool {
    exists|i: int| 0 <= i < entries.len() && (#[trigger] entries[i]).key@ == key
}

/// The place that the entries give to `key`.
spec fn place(entries: Seq<Entry>, key: Seq<u8>) -> Loc {
    entries[choose|i: int| 0 <= i < entries.len() && (#[trigger] entries[i]).key@ == key].loc
}

/// No key occurs twice.
spec fn distinct(entries: Seq<Entry>) -> bool {
    forall|i: int, j: int|
        0 <= i < j < entries.len() ==> (#[trigger] entries[i]).key@ != (#[trigger] entries[j]).key@
}

proof fn lemma_place(entries: Seq<Entry>, i: int)
    requires
        distinct(entries),
        0 <= i < entries.len(),
    ensures
        holds(entries, entries[i].key@),
        place(entries, entries[i].key@) == entries[i].loc,
{
}

/// The index of a store. The entries stand side by side; a hash table files the
/// position of each under the number of its key.
pub struct Keydir {
    entries: Vec<Entry>,
    slots: HashMap<u64, Vec<usize>>,
}

impl View for Keydir {
    type V = Index;

    closed spec fn view(&self) -> Index {
        listed(self.entries@)
    }
}

/// The index that the entries spell out.
spec fn listed(entries: Seq<Entry>) -> Index {
    Map::new(|key: Seq<u8>| holds(entries, key), |key: Seq<u8>| place(entries, key))
}

/// The position `i` is filed under the number `s`.
spec fn under(slots: Map<u64, Vec<usize>>, s: u64, i: usize) -> bool {
    slots.contains_key(s) && slots[s]@.contains(i)
}

/// Nothing is filed twice.
spec fn filed_once(slots: Map<u64, Vec<usize>>) -> bool {
    forall|s: u64| #[trigger] slots.contains_key(s) ==> slots[s]@.no_duplicates()
}

/// Each position is filed under the number of its key, once, and nothing else is
/// filed.
spec fn filed(entries: Seq<Entry>, slots: Map<u64, Vec<usize>>) -> bool {
    &&& filed_once(slots)
    &&& forall|s: u64, i: usize| #[trigger]
        under(slots, s, i) <==> i < entries.len() && slot(entries[i as int].key@) == s
}

/// Whether two byte strings are the same.
pub(crate) fn same_bytes(a: &[u8], b: &[u8]) -> (same: bool)
    ensures
        same == (a@ == b@),
{
    if a.len() != b.len() {
        return false;
    }
    let mut i: usize = 0;
    while i < a.len()
        invariant
            a@.len() == b@.len(),
            0 <= i <= a@.len(),
            forall|j: int| 0 <= j < i ==> a@[j] == b@[j],
        decreases a@.len() - i,
    {
        if a[i] != b[i] {
            return false;
        }
        i += 1;
    }
    assert(a@ =~= b@);
    true
}

fn slot_of(key: &[u8]) -> (s: u64)
    ensures
        s == slot(key@),
{
    let mut hasher = DefaultHasher::new();
    hasher.write(key);
    assert(hasher@ =~= seq![key@]);
    hasher.finish()
}

/// The position of `x` in `v`.
fn position(v: &Vec<usize>, x: usize) -> (at: usize)
    requires
        v@.contains(x),
    ensures
        at < v@.len(),
        v@[at as int] == x,
{
    let mut i: usize = 0;
    while i < v.len() - 1 && v[i] != x
        invariant
            i < v@.len(),
            forall|j: int| 0 <= j < i ==> v@[j] != x,
        decreases v@.len() - i,
    {
        i += 1;
    }
    i
}

/// The entries name each key of the index once, with its place.
pub open spec fn lists(entries: Seq<Entry>, index: Index) -> bool {
    &&& forall|i: int, j: int|
        0 <= i < j < entries.len() ==> (#[trigger] entries[i]).key@ != (#[trigger] entries[j]).key@
    &&& forall|i: int|
        0 <= i < entries.len() ==> index.contains_key((#[trigger] entries[i]).key@)
            && index[entries[i].key@] == entries[i].loc
    &&& forall|key: Seq<u8>| #[trigger]
        index.contains_key(key) ==> exists|i: int|
            0 <= i < entries.len() && (#[trigger] entries[i]).key@ == key
}

proof fn lemma_replace(entries: Seq<Entry>, i: int, entry: Entry)
    requires
        distinct(entries),
        0 <= i < entries.len(),
        entries[i].key@ == entry.key@,
    ensures
        distinct(entries.update(i, entry)),
        listed(entries.update(i, entry)) == listed(entries).insert(entry.key@, entry.loc),
{
    let after = entries.update(i, entry);
    assert(forall|j: int| 0 <= j < entries.len() ==> (#[trigger] after[j]).key@ == entries[j].key@);
    assert(listed(after) =~= listed(entries).insert(entry.key@, entry.loc)) by {
        assert forall|k: Seq<u8>| holds(after, k) <==> holds(entries, k) || k == entry.key@ by {
            if holds(entries, k) {
                let j = choose|j: int| 0 <= j < entries.len() && (#[trigger] entries[j]).key@ == k;
                assert(after[j].key@ == k);
            }
            assert(after[i].key@ == entry.key@);
        }
        assert forall|k: Seq<u8>| holds(after, k) implies place(after, k) == listed(entries).insert(
            entry.key@,
            entry.loc,
        )[k] by {
            let j = choose|j: int| 0 <= j < after.len() && (#[trigger] after[j]).key@ == k;
            lemma_place(after, j);
            lemma_place(entries, j);
        }
    }
}

proof fn lemma_push(entries: Seq<Entry>, entry: Entry)
    requires
        distinct(entries),
        !holds(entries, entry.key@),
    ensures
        distinct(entries.push(entry)),
        listed(entries.push(entry)) == listed(entries).insert(entry.key@, entry.loc),
{
    let after = entries.push(entry);
    let n = entries.len() as int;
    assert(after[n] == entry);
    assert(listed(after) =~= listed(entries).insert(entry.key@, entry.loc)) by {
        assert forall|k: Seq<u8>| holds(after, k) <==> holds(entries, k) || k == entry.key@ by {
            if holds(entries, k) {
                let j = choose|j: int| 0 <= j < entries.len() && (#[trigger] entries[j]).key@ == k;
                assert(after[j].key@ == k);
            }
        }
        assert forall|k: Seq<u8>| holds(after, k) implies place(after, k) == listed(entries).insert(
            entry.key@,
            entry.loc,
        )[k] by {
            let j = choose|j: int| 0 <= j < after.len() && (#[trigger] after[j]).key@ == k;
            lemma_place(after, j);
            if j < n {
                lemma_place(entries, j);
            }
        }
    }
}

proof fn lemma_found(entries: &Vec<Entry>, slots: Map<u64, Vec<usize>>, key: Seq<u8>)
    requires
        filed(entries@, slots),
        holds(entries@, key),
    ensures
        slots.contains_key(slot(key)),
        exists|j: int|
            0 <= j < slots[slot(key)]@.len() && entries@[(
            #[trigger] slots[slot(key)]@[j]) as int].key@ == key,
{
    let i = choose|i: int| 0 <= i < entries@.len() && (#[trigger] entries@[i]).key@ == key;
    assert(entries.len() == entries@.len());
    assert(under(slots, slot(key), i as usize));
}

proof fn lemma_swap_remove(entries: Seq<Entry>, i: int)
    requires
        distinct(entries),
        0 <= i < entries.len(),
    ensures
        distinct(entries.update(i, entries.last()).drop_last()),
        listed(entries.update(i, entries.last()).drop_last()) == listed(entries).remove(
            entries[i].key@,
        ),
{
    let after = entries.update(i, entries.last()).drop_last();
    let n = after.len() as int;
    let key = entries[i].key@;
    assert(forall|j: int| 0 <= j < n && j != i ==> #[trigger] after[j] == entries[j]);
    assert(i < n ==> after[i] == entries[n]);
    assert(distinct(after)) by {
        assert forall|j: int, l: int| 0 <= j < l < n implies (#[trigger] after[j]).key@ != (
        #[trigger] after[l]).key@ by {
            let j2 = if j == i { n } else { j };
            let l2 = if l == i { n } else { l };
            assert(after[j] == entries[j2] && after[l] == entries[l2]);
        }
    }
    assert(listed(after) =~= listed(entries).remove(key)) by {
        assert forall|k: Seq<u8>| holds(after, k) <==> holds(entries, k) && k != key by {
            if holds(after, k) {
                let j = choose|j: int| 0 <= j < n && (#[trigger] after[j]).key@ == k;
                let j2 = if j == i { n } else { j };
                assert(entries[j2].key@ == k);
            }
            if holds(entries, k) && k != key {
                let j = choose|j: int| 0 <= j <= n && (#[trigger] entries[j]).key@ == k;
                let j2 = if j == n { i } else { j };
                assert(after[j2].key@ == k);
            }
        }
        assert forall|k: Seq<u8>| holds(after, k) implies place(after, k) == place(entries, k) by {
            let j = choose|j: int| 0 <= j < n && (#[trigger] after[j]).key@ == k;
            let j2 = if j == i { n } else { j };
            lemma_place(after, j);
            lemma_place(entries, j2);
        }
    }
}

/// As many keys are listed as there are entries.
proof fn lemma_listed_len(entries: Seq<Entry>)
    requires
        distinct(entries),
    ensures
        listed(entries).dom().finite(),
        listed(entries).dom().len() == entries.len(),
{
    let keys = entries.map_values(|e: Entry| e.key@);
    assert(keys.no_duplicates());
    keys.unique_seq_to_set();
    assert(listed(entries).dom() =~= keys.to_set()) by {
        assert forall|k: Seq<u8>| holds(entries, k) implies keys.contains(k) by {
            let i = choose|i: int| 0 <= i < entries.len() && (#[trigger] entries[i]).key@ == k;
            assert(keys[i] == k);
        }
        assert forall|k: Seq<u8>| keys.contains(k) implies holds(entries, k) by {
            let i = choose|i: int| 0 <= i < keys.len() && keys[i] == k;
            assert(entries[i].key@ == k);
        }
    }
}

proof fn lemma_swap_remove_places(places: Seq<usize>, j: int)
    requires
        places.no_duplicates(),
        0 <= j < places.len(),
    ensures
        ({
            let after = places.update(j, places.last()).drop_last();
            &&& after.no_duplicates()
            &&& forall|x: usize| #[trigger]
                after.contains(x) <==> places.contains(x) && x != places[j]
        }),
{
    let after = places.update(j, places.last()).drop_last();
    assert forall|x: usize| #[trigger] after.contains(x) <==> places.contains(x) && x
        != places[j] by {
        if after.contains(x) {
            let l = choose|l: int| 0 <= l < after.len() && after[l] == x;
            if l == j {
                assert(places[places.len() - 1] == x);
            } else {
                assert(places[l] == x);
            }
        }
        if places.contains(x) && x != places[j] {
            let l = choose|l: int| 0 <= l < places.len() && places[l] == x;
            if l == places.len() - 1 {
                assert(after[j] == x);
            } else {
                assert(after[l] == x);
            }
        }
    }
}

impl Keydir {
    /// No key is listed twice, and every entry is found through its number.
    pub closed spec fn wf(&self) -> bool {
        &&& distinct(self.entries@)
        &&& filed(self.entries@, self.slots@)
    }

    /// An index without keys.
    pub fn new() -> (keydir: Keydir)
        ensures
            keydir.wf(),
            keydir@ == Index::empty(),
    {
        let keydir = Keydir { entries: Vec::new(), slots: HashMap::new() };
        assert(keydir@ =~= Index::empty());
        keydir
    }

    /// The number of keys.
    pub fn len(&self) -> (n: usize)
        requires
            self.wf(),
        ensures
            self@.dom().finite(),
            n == self@.dom().len(),
    {
        proof {
            lemma_listed_len(self.entries@);
        }
        self.entries.len()
    }

    /// The position of the entry for `key`.
    fn find(&self, key: &[u8]) -> (at: Option<usize>)
        requires
            self.wf(),
        ensures
            match at {
                Some(i) => i < self.entries@.len() && self.entries@[i as int].key@ == key@,
                None => !holds(self.entries@, key@),
            },
    {
        let s = slot_of(key);
        proof {
            if holds(self.entries@, key@) {
                lemma_found(&self.entries, self.slots@, key@);
            }
        }
        match self.slots.get(&s) {
            None => None,
            Some(filed) => {
                let mut j: usize = 0;
                while j < filed.len()
                    invariant
                        self.wf(),
                        s == slot(key@),
                        self.slots@.contains_key(s),
                        filed == self.slots@[s],
                        0 <= j <= filed@.len(),
                        forall|l: int|
                            0 <= l < j ==> self.entries@[#[trigger] filed@[l] as int].key@ != key@,
                    decreases filed@.len() - j,
                {
                    let i = filed[j];
                    assert(under(self.slots@, s, i));
                    if same_bytes(self.entries[i].key.as_slice(), key) {
                        return Some(i);
                    }
                    j += 1;
                }
                None
            },
        }
    }

    /// The place of `key`, if it is there.
    pub fn get(&self, key: &[u8]) -> (loc: Option<Loc>)
        requires
            self.wf(),
        ensures
            loc == (if self@.contains_key(key@) {
                Some(self@[key@])
            } else {
                None
            }),
    {
        match self.find(key) {
            None => None,
            Some(i) => {
                proof {
                    lemma_place(self.entries@, i as int);
                }
                Some(self.entries[i].loc)
            },
        }
    }

    /// Gives `key` the place `loc`, whether or not it had one.
    pub fn insert(&mut self, key: Vec<u8>, loc: Loc)
        requires
            old(self).wf(),
        ensures
            final(self).wf(),
            final(self)@ == old(self)@.insert(key@, loc),
    {
        let ghost entries = self.entries@;
        let ghost slots = self.slots@;
        match self.find(key.as_slice()) {
            Some(i) => {
                self.entries.set(i, Entry { key, loc });
                proof {
                    lemma_replace(entries, i as int, self.entries@[i as int]);
                    assert(filed(self.entries@, self.slots@));
                }
            },
            None => {
                let s = slot_of(key.as_slice());
                let n = self.entries.len();
                self.file(s, n);
                self.entries.push(Entry { key, loc });
                proof {
                    lemma_push(entries, self.entries@[n as int]);
                }
            },
        }
    }

    /// Files the position `i` under the number `s`.
    fn file(&mut self, s: u64, i: usize)
        requires
            filed_once(old(self).slots@),
            !under(old(self).slots@, s, i),
        ensures
            final(self).entries == old(self).entries,
            filed_once(final(self).slots@),
            forall|t: u64, x: usize| #[trigger]
                under(final(self).slots@, t, x) <==> under(old(self).slots@, t, x) || (t == s && x
                    == i),
    {
        let ghost slots = self.slots@;
        let mut places = match self.slots.remove(&s) {
            Some(v) => v,
            None => Vec::new(),
        };
        let ghost before = places@;
        places.push(i);
        proof {
            assert(places@ == before.push(i));
            assert forall|x: usize| #[trigger] places@.contains(x) <==> before.contains(x) || x
                == i by {
                assert(places@[before.len() as int] == i);
                if before.contains(x) {
                    let j = choose|j: int| 0 <= j < before.len() && before[j] == x;
                    assert(places@[j] == x);
                }
            }
        }
        self.slots.insert(s, places);
    }

    /// Takes the position `i` from under the number `s`.
    fn unfile(&mut self, s: u64, i: usize)
        requires
            filed_once(old(self).slots@),
            under(old(self).slots@, s, i),
        ensures
            final(self).entries == old(self).entries,
            filed_once(final(self).slots@),
            forall|t: u64, x: usize| #[trigger]
                under(final(self).slots@, t, x) <==> under(old(self).slots@, t, x) && !(t == s && x
                    == i),
    {
        let ghost slots = self.slots@;
        if let Some(mut places) = self.slots.remove(&s) {
            let ghost before = places@;
            let j = position(&places, i);
            places.swap_remove(j);
            proof {
                lemma_swap_remove_places(before, j as int);
            }
            if places.len() > 0 {
                self.slots.insert(s, places);
            }
            proof {
                assert forall|t: u64, x: usize| #[trigger]
                    under(self.slots@, t, x) <==> under(slots, t, x) && !(t == s && x == i) by {
                    if t == s {
                        assert(places@.contains(x) <==> before.contains(x) && x != i);
                    }
                }
            }
        }
    }

    /// Drops `key`, if it is there.
    pub fn remove(&mut self, key: &[u8])
        requires
            old(self).wf(),
        ensures
            final(self).wf(),
            final(self)@ == old(self)@.remove(key@),
    {
        let ghost entries = self.entries@;
        match self.find(key) {
            None => {
                assert(self@ =~= old(self)@.remove(key@));
            },
            Some(i) => {
                let last = self.entries.len() - 1;
                self.unfile(slot_of(key), i);
                if i != last {
                    let s = slot_of(self.entries[last].key.as_slice());
                    self.unfile(s, last);
                    self.file(s, i);
                }
                self.entries.swap_remove(i);
                proof {
                    lemma_swap_remove(entries, i as int);
                }
            },
        }
    }

    /// Every key with its place, in no particular order.
    pub fn entries(&self) -> (list: Vec<Entry>)
        requires
            self.wf(),
        ensures
            lists(list@, self@),
    {
        let mut list: Vec<Entry> = Vec::new();
        let mut i: usize = 0;
        while i < self.entries.len()
            invariant
                0 <= i <= self.entries@.len(),
                list@.len() == i,
                forall|j: int|
                    0 <= j < i ==> (#[trigger] list@[j]).key@ == self.entries@[j].key@
                        && list@[j].loc == self.entries@[j].loc,
            decreases self.entries@.len() - i,
        {
            let entry = Entry {
                key: slice_to_vec(self.entries[i].key.as_slice()),
                loc: self.entries[i].loc,
            };
            list.push(entry);
            i += 1;
        }
        proof {
            assert forall|j: int| 0 <= j < list@.len() implies self@.contains_key(
                (#[trigger] list@[j]).key@,
            ) && self@[list@[j].key@] == list@[j].loc by {
                lemma_place(self.entries@, j);
            }
            assert forall|key: Seq<u8>| #[trigger] self@.contains_key(key) implies exists|j: int|
                0 <= j < list@.len() && (#[trigger] list@[j]).key@ == key by {
                let j = choose|j: int|
                    0 <= j < self.entries@.len() && (#[trigger] self.entries@[j]).key@ == key;
                assert(list@[j].key@ == key);
            }
            assert forall|j: int, l: int| 0 <= j < l < list@.len() implies (
            #[trigger] list@[j]).key@ != (#[trigger] list@[l]).key@ by {
                assert(self.entries@[j].key@ != self.entries@[l].key@);
            }
        }
        list
    }
}

} // verus!

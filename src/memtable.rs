use crossbeam_skiplist::SkipMap;
use crate::bytes::{bytes_eq, copy_bytes};
use vstd::prelude::*;

verus! {

/// What the index keeps for one key: the value (`None` for a tombstone) and
/// the write time.
pub type Slot = (Option<Vec<u8>>, u128);

/// The abstract form of a `Slot`.
pub type SlotView = (Option<Seq<u8>>, u128);

pub open spec fn opt_bytes(o: Option<Vec<u8>>) -> Option<Seq<u8>> {
    match o {
        Some(v) => Some(v@),
        None => None,
    }
}

pub open spec fn slot_view(s: Slot) -> SlotView {
    (opt_bytes(s.0), s.1)
}

/// `m` has finitely many keys, `n` of them.
pub open spec fn holds_keys(m: Map<Seq<u8>, SlotView>, n: nat) -> bool {
    m.dom().finite() && m.len() == n
}

/// The index with no key.
pub open spec fn no_slots() -> Map<Seq<u8>, SlotView> {
    Map::empty()
}

#[verifier::external_type_specification]
#[verifier::external_body]
#[verifier::reject_recursive_types(K)]
#[verifier::reject_recursive_types(V)]
pub struct ExSkipMap<K, V>(SkipMap<K, V>);

/// The skip map that backs the index.
pub type SlotMap = SkipMap<Vec<u8>, Slot>;

/// The key/slot pairs that a skip map holds.
pub uninterp spec fn skip_contents(m: SlotMap) -> Map<Seq<u8>, SlotView>;

/// Relies on `SkipMap::new`: a new map is empty.
#[verifier::external_body]
fn skip_new() -> (r: SlotMap)
    ensures
        skip_contents(r) == no_slots(),
{
    SkipMap::new()
}

/// Relies on `SkipMap::len`: the number of entries in the map.
#[verifier::external_body]
fn skip_len(m: &SlotMap) -> (r: usize)
    ensures
        holds_keys(skip_contents(*m), r as nat),
{
    m.len()
}

/// Relies on `SkipMap::is_empty`: whether the map holds no entry.
#[verifier::external_body]
fn skip_is_empty(m: &SlotMap) -> (r: bool)
    ensures
        r == (skip_contents(*m).len() == 0),
{
    m.is_empty()
}

/// Relies on `SkipMap::get`: the entry stored under `key`, if any; its value
/// is cloned out of the entry.
#[verifier::external_body]
fn skip_get(m: &SlotMap, key: &[u8]) -> (r: Option<Slot>)
    ensures
        r.is_some() == skip_contents(*m).contains_key(key@),
        r.is_some() ==> slot_view(r.unwrap()) == skip_contents(*m)[key@],
{
    m.get(key).map(|e| e.value().clone())
}

/// Relies on `SkipMap::insert`: an existing entry under the key is replaced.
#[verifier::external_body]
fn skip_insert(m: &mut SlotMap, key: Vec<u8>, slot: Slot)
    ensures
        skip_contents(*final(m)) == skip_contents(*old(m)).insert(key@, slot_view(slot)),
{
    m.insert(key, slot);
}

/// Relies on `SkipMap::remove`: the entry under `key`, if any, leaves the map.
#[verifier::external_body]
fn skip_remove(m: &mut SlotMap, key: &[u8])
    ensures
        skip_contents(*final(m)) == skip_contents(*old(m)).remove(key@),
{
    m.remove(key);
}

/// `a` comes before `b` in lexicographic byte order, the order of `Vec<u8>`.
pub open spec fn bytes_lt(a: Seq<u8>, b: Seq<u8>) -> bool {
    exists|i: int|
        0 <= i <= a.len() && i <= b.len() && #[trigger] a.subrange(0, i) == b.subrange(0, i) && (
        (i == a.len() && i < b.len()) || (i < a.len() && i < b.len() && a[i] < b[i]))
}

/// Relies on `SkipMap::iter`: every entry of the map, sorted by key, so each
/// key once.
#[verifier::external_body]
fn skip_entries(m: &SlotMap) -> (r: Vec<(Vec<u8>, Slot)>)
    ensures
        forall|k: Seq<u8>|
            skip_contents(*m).contains_key(k) ==> exists|i: int|
                0 <= i < r@.len() && #[trigger] r@[i].0@ == k,
        forall|i: int|
            0 <= i < r@.len() ==> skip_contents(*m).contains_key(#[trigger] r@[i].0@)
                && skip_contents(*m)[r@[i].0@] == slot_view(r@[i].1),
        forall|i: int, j: int|
            0 <= i < j < r@.len() ==> bytes_lt(#[trigger] r@[i].0@, #[trigger] r@[j].0@),
{
    m.iter().map(|e| (e.key().clone(), e.value().clone())).collect()
}

/// One logical record of the index.
#[derive(Debug, Clone, PartialEq, Eq, PartialOrd, Ord)]
pub struct MemTableEntry {
    pub key: Vec<u8>,
    pub value: Option<Vec<u8>>,
    pub timestamp: u128,
}

impl MemTableEntry {
    pub open spec fn view(&self) -> (Seq<u8>, SlotView) {
        (self.key@, (opt_bytes(self.value), self.timestamp))
    }
}

/// A sorted map from byte-string keys to their latest entry.
#[derive(Debug)]
pub struct MemTable {
    entries: SlotMap,
}

/// Whether two optional byte strings are equal.
fn opt_bytes_eq(a: &Option<Vec<u8>>, b: &Option<Vec<u8>>) -> (r: bool)
    ensures
        r == (opt_bytes(*a) == opt_bytes(*b)),
{
    match (a, b) {
        (Some(x), Some(y)) => bytes_eq(x.as_slice(), y.as_slice()),
        (None, None) => true,
        _ => false,
    }
}

impl MemTable {
    /// The latest slot of each key.
    pub closed spec fn view(&self) -> Map<Seq<u8>, SlotView> {
        skip_contents(self.entries)
    }

    /// The index holds finitely many keys.
    pub open spec fn wf(&self) -> bool {
        self@.dom().finite()
    }

    pub fn new() -> (r: MemTable)
        ensures
            r.wf(),
            r@ == no_slots(),
    {
        MemTable { entries: skip_new() }
    }

    pub fn len(&self) -> (r: usize)
        ensures
            r as nat == self@.len(),
    {
        skip_len(&self.entries)
    }

    pub fn is_empty(&self) -> (r: bool)
        ensures
            r == (self@.len() == 0),
    {
        skip_is_empty(&self.entries)
    }

    pub fn get_value_by_key(&self, key: &[u8]) -> (r: Option<MemTableEntry>)
        ensures
            r.is_some() == self@.contains_key(key@),
            r.is_some() ==> r.unwrap()@ == (key@, self@[key@]),
    {
        match skip_get(&self.entries, key) {
            Some(slot) => Some(MemTableEntry { key: copy_bytes(key), value: slot.0, timestamp: slot.1 }),
            None => None,
        }
    }

    /// Stores `entry` under its key, replacing what was there.
    pub fn insert(&mut self, entry: MemTableEntry)
        requires
            old(self).wf(),
        ensures
            final(self).wf(),
            final(self)@ == old(self)@.insert(entry@.0, entry@.1),
            final(self)@.len() == old(self)@.len() + if old(self)@.contains_key(entry@.0) {
                0int
            } else {
                1int
            },
    {
        let MemTableEntry { key, value, timestamp } = entry;
        skip_insert(&mut self.entries, key, (value, timestamp));
    }

    /// Stores a live value for `key`, replacing what was there.
    pub fn set(&mut self, key: &[u8], value: &[u8], timestamp: u128)
        requires
            old(self).wf(),
        ensures
            final(self).wf(),
            final(self)@ == old(self)@.insert(key@, (Some(value@), timestamp)),
            final(self)@.len() == old(self)@.len() + if old(self)@.contains_key(key@) {
                0int
            } else {
                1int
            },
    {
        let entry = MemTableEntry { key: copy_bytes(key), value: Some(copy_bytes(value)), timestamp };
        self.insert(entry);
    }

    /// Removes `key` from the index; an absent key leaves it unchanged.
    pub fn delete(&mut self, key: &[u8])
        requires
            old(self).wf(),
        ensures
            final(self).wf(),
            final(self)@ == old(self)@.remove(key@),
            final(self)@.len() == old(self)@.len() - if old(self)@.contains_key(key@) {
                1int
            } else {
                0int
            },
    {
        if self.get_value_by_key(key).is_some() {
            skip_remove(&mut self.entries, key);
        } else {
            assert(self@.remove(key@) =~= self@);
        }
    }

    /// Every entry of the index, in ascending key order.
    pub fn entries(&self) -> (r: Vec<MemTableEntry>)
        requires
            self.wf(),
        ensures
            r@.len() == self@.len(),
            forall|i: int|
                0 <= i < r@.len() ==> self@.contains_key(#[trigger] r@[i].key@) && r@[i]@ == (
                r@[i].key@,
                self@[r@[i].key@],
            ),
            forall|k: Seq<u8>|
                self@.contains_key(k) ==> exists|i: int| 0 <= i < r@.len() && #[trigger] r@[i].key@ == k,
            forall|i: int, j: int|
                0 <= i < j < r@.len() ==> bytes_lt(#[trigger] r@[i].key@, #[trigger] r@[j].key@),
    {
        let items = skip_entries(&self.entries);
        let mut out: Vec<MemTableEntry> = Vec::new();
        let mut i: usize = 0;
        while i < items.len()
            invariant
                i <= items@.len(),
                out@.len() == i,
                forall|j: int|
                    0 <= j < i ==> (#[trigger] out@[j]).key@ == items@[j].0@ && out@[j]@.1
                        == slot_view(items@[j].1),
            decreases items@.len() - i,
        {
            let item = &items[i];
            let value = match &(item.1).0 {
                Some(v) => Some(copy_bytes(v.as_slice())),
                None => None,
            };
            out.push(MemTableEntry { key: copy_bytes(item.0.as_slice()), value, timestamp: (item.1).1 });
            i += 1;
        }
        proof {
            let keys = items@.map_values(|p: (Vec<u8>, Slot)| p.0@);
            assert forall|a: int, b: int|
                0 <= a < keys.len() && 0 <= b < keys.len() && a != b implies keys[a] != keys[b] by {
                if a < b {
                    lemma_bytes_lt_irreflexive(keys[a]);
                    assert(bytes_lt(items@[a].0@, items@[b].0@));
                } else {
                    lemma_bytes_lt_irreflexive(keys[b]);
                    assert(bytes_lt(items@[b].0@, items@[a].0@));
                }
            }
            assert(keys.no_duplicates());
            keys.unique_seq_to_set();
            assert forall|k: Seq<u8>| keys.to_set().contains(k) == self@.dom().contains(k) by {
                if self@.dom().contains(k) {
                    let j = choose|j: int| 0 <= j < items@.len() && #[trigger] items@[j].0@ == k;
                    assert(keys[j] == k);
                }
                if keys.to_set().contains(k) {
                    let j = choose|j: int| 0 <= j < keys.len() && keys[j] == k;
                    assert(items@[j].0@ == k);
                }
            }
            assert(keys.to_set() =~= self@.dom());
            assert forall|k: Seq<u8>| self@.contains_key(k) implies exists|i: int|
                0 <= i < out@.len() && #[trigger] out@[i].key@ == k by {
                let j = choose|j: int| 0 <= j < items@.len() && #[trigger] items@[j].0@ == k;
                assert(out@[j].key@ == k);
            }
        }
        out
    }

    pub fn get(&self, key: &[u8]) -> (r: Option<MemTableEntry>)
        ensures
            r.is_some() == self@.contains_key(key@),
            r.is_some() ==> r.unwrap()@ == (key@, self@[key@]),
    {
        self.get_value_by_key(key)
    }
}

/// Two indexes are equal when they hold the same number of keys and every
/// key of one is in the other with an identical slot.
impl PartialEq for MemTable {
    fn eq(&self, other: &MemTable) -> (r: bool) {
        let n = skip_len(&self.entries);
        if n != skip_len(&other.entries) {
            return false;
        }
        let items = skip_entries(&self.entries);
        let mut i: usize = 0;
        while i < items.len()
            invariant
                i <= items@.len(),
                forall|j: int|
                    0 <= j < items@.len() ==> self@.contains_key(#[trigger] items@[j].0@)
                        && self@[items@[j].0@] == slot_view(items@[j].1),
                forall|k: Seq<u8>|
                    self@.contains_key(k) ==> exists|j: int|
                        0 <= j < items@.len() && #[trigger] items@[j].0@ == k,
                forall|j: int|
                    0 <= j < i ==> other@.contains_key(#[trigger] items@[j].0@)
                        && other@[items@[j].0@] == self@[items@[j].0@],
            decreases items@.len() - i,
        {
            let item = &items[i];
            match skip_get(&other.entries, item.0.as_slice()) {
                Some(found) => {
                    if !(opt_bytes_eq(&found.0, &(item.1).0) && found.1 == (item.1).1) {
                        return false;
                    }
                },
                None => {
                    return false;
                },
            }
            i += 1;
        }
        proof {
            assert(self@.dom().subset_of(other@.dom())) by {
                assert forall|k: Seq<u8>| self@.dom().contains(k) implies other@.dom().contains(
                    k,
                ) by {
                    let j = choose|j: int| 0 <= j < items@.len() && #[trigger] items@[j].0@ == k;
                    assert(other@.contains_key(items@[j].0@));
                }
            }
            vstd::set_lib::lemma_subset_equality(self@.dom(), other@.dom());
            assert forall|k: Seq<u8>| #[trigger] self@.contains_key(k) implies other@[k]
                == self@[k] by {
                let j = choose|j: int| 0 <= j < items@.len() && #[trigger] items@[j].0@ == k;
                assert(other@[items@[j].0@] == self@[items@[j].0@]);
            }
            assert(self@ =~= other@);
        }
        true
    }
}

impl vstd::std_specs::cmp::PartialEqSpecImpl for MemTable {
    open spec fn obeys_eq_spec() -> bool {
        true
    }

    open spec fn eq_spec(&self, other: &MemTable) -> bool {
        self@ == other@
    }
}

impl Default for MemTable {
    fn default() -> (r: MemTable)
        ensures
            r.wf(),
            r@ == no_slots(),
    {
        MemTable::new()
    }
}

/// No byte string comes before itself.
pub proof fn lemma_bytes_lt_irreflexive(a: Seq<u8>)
    ensures
        !bytes_lt(a, a),
{
}

/// After a key is set, looking it up gives that key, the live value and the
/// timestamp.
pub proof fn lemma_set_then_get(
    m: Map<Seq<u8>, SlotView>,
    key: Seq<u8>,
    value: Seq<u8>,
    timestamp: u128,
)
    ensures
        m.insert(key, (Some(value), timestamp)).contains_key(key),
        m.insert(key, (Some(value), timestamp))[key] == (Some(value), timestamp),
{
}

/// Setting a key and then deleting it leaves the key absent, with one key
/// fewer than after the set.
pub proof fn lemma_delete_removes(
    m: Map<Seq<u8>, SlotView>,
    key: Seq<u8>,
    value: Seq<u8>,
    timestamp: u128,
)
    requires
        m.dom().finite(),
    ensures
        !m.insert(key, (Some(value), timestamp)).remove(key).contains_key(key),
        m.insert(key, (Some(value), timestamp)).remove(key).len() + 1 == m.insert(
            key,
            (Some(value), timestamp),
        ).len(),
{
}

/// A second set of the same key replaces the first: one slot remains for
/// the key, the later one, and the number of keys does not change.
pub proof fn lemma_overwrite(
    m: Map<Seq<u8>, SlotView>,
    key: Seq<u8>,
    v1: Seq<u8>,
    t1: u128,
    v2: Seq<u8>,
    t2: u128,
)
    requires
        m.dom().finite(),
    ensures
        m.insert(key, (Some(v1), t1)).insert(key, (Some(v2), t2)) == m.insert(
            key,
            (Some(v2), t2),
        ),
        m.insert(key, (Some(v1), t1)).insert(key, (Some(v2), t2))[key] == (Some(v2), t2),
        m.insert(key, (Some(v1), t1)).insert(key, (Some(v2), t2)).len() == m.insert(
            key,
            (Some(v1), t1),
        ).len(),
{
    let a = m.insert(key, (Some(v1), t1));
    assert(a.insert(key, (Some(v2), t2)) =~= m.insert(key, (Some(v2), t2)));
    assert(a.insert(key, (Some(v2), t2)).dom() =~= a.dom());
}

/// Index equality as the store defines it: two indexes are equal exactly
/// when they hold as many keys and every key of one is in the other with an
/// identical slot.
pub proof fn lemma_index_eq_definition(a: Map<Seq<u8>, SlotView>, b: Map<Seq<u8>, SlotView>)
    requires
        a.dom().finite(),
        b.dom().finite(),
    ensures
        (a == b) <==> (a.len() == b.len() && forall|k: Seq<u8>|
            #[trigger] a.contains_key(k) ==> b.contains_key(k) && b[k] == a[k]),
{
    if a.len() == b.len() && forall|k: Seq<u8>|
        #[trigger] a.contains_key(k) ==> b.contains_key(k) && b[k] == a[k] {
        assert(a.dom().subset_of(b.dom()));
        vstd::set_lib::lemma_subset_equality(a.dom(), b.dom());
        assert(a =~= b);
    }
}

} // verus!

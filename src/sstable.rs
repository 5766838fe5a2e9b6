use crate::bytes::copy_bytes;
use crate::memtable::{no_slots, MemTable, MemTableEntry, SlotView};
use crate::wal::{
    delete_record, fits, lemma_log_round_trip, encode_record, encode_records, lemma_encode_records_push, parse_all,
    set_record, LogRecord, WALIterator, WAL,
};
use vstd::prelude::*;

verus! {

/// The index after one record is applied to it: a live value is stored
/// under its key, a deletion removes the key.
pub open spec fn apply_record(m: Map<Seq<u8>, SlotView>, r: LogRecord) -> Map<Seq<u8>, SlotView> {
    match r.value {
        Some(v) => m.insert(r.key, (Some(v), r.timestamp)),
        None => m.remove(r.key),
    }
}

/// The index after the records are applied to it in order.
pub open spec fn replay(m: Map<Seq<u8>, SlotView>, rs: Seq<LogRecord>) -> Map<Seq<u8>, SlotView>
    decreases rs.len(),
{
    if rs.len() == 0 {
        m
    } else {
        apply_record(replay(m, rs.drop_last()), rs.last())
    }
}

/// The bytes of each segment.
pub open spec fn views_of(segments: Seq<Vec<u8>>) -> Seq<Seq<u8>> {
    segments.map_values(|s: Vec<u8>| s@)
}

/// The records of the segments, segment after segment, each in file order.
pub open spec fn segment_records(segments: Seq<Seq<u8>>) -> Seq<LogRecord>
    decreases segments.len(),
{
    if segments.len() == 0 {
        Seq::empty()
    } else {
        segment_records(segments.drop_last()) + parse_all(segments.last())
    }
}

/// An index together with the log segment that records its writes.
pub struct SSTable {
    pub memtable: MemTable,
    pub wal: WAL,
}

impl SSTable {
    pub open spec fn wf(&self) -> bool {
        self.memtable.wf()
    }

    /// The bytes written to the log since its last flush.
    pub open spec fn pending(&self) -> Seq<u8> {
        self.wal.pending()
    }

    /// The path of the log segment.
    pub open spec fn path_view(&self) -> Seq<char> {
        self.wal.path_view()
    }

    /// Recovers a store from the bytes of the old segments, oldest first: each
    /// record is applied to a fresh index and written again to a fresh log
    /// segment at `path`, whose pending bytes are then those records.
    pub fn new(path: String, segments: &Vec<Vec<u8>>) -> (r: SSTable)
        ensures
            r.wf(),
            r.memtable@ == replay(no_slots(), segment_records(views_of(segments@))),
            r.pending() == encode_records(segment_records(views_of(segments@))),
            r.path_view() == path@,
    {
        let mut memtable = MemTable::new();
        let mut wal = WAL::new(path);
        let ghost segs = views_of(segments@);
        let mut s: usize = 0;
        assert(segs.subrange(0, 0) =~= Seq::<Seq<u8>>::empty());
        assert(encode_records(Seq::<LogRecord>::empty()) == Seq::<u8>::empty());
        while s < segments.len()
            invariant
                s <= segments@.len(),
                segs == views_of(segments@),
                memtable.wf(),
                memtable@ == replay(no_slots(), segment_records(segs.subrange(0, s as int))),
                wal.pending() == encode_records(segment_records(segs.subrange(0, s as int))),
                wal.path_view() == path@,
            decreases segments@.len() - s,
        {
            let ghost done = segment_records(segs.subrange(0, s as int));
            let mut it = WALIterator::new(copy_bytes(segments[s].as_slice()));
            let ghost all = it@;
            let ghost mut consumed: Seq<LogRecord> = Seq::empty();
            assert(done + consumed =~= done);
            let mut next = it.next();
            while next.is_some()
                invariant
                    it.wf(),
                    memtable.wf(),
                    memtable@ == replay(no_slots(), done + consumed),
                    wal.pending() == encode_records(done + consumed),
                    wal.path_view() == path@,
                    next.is_some() ==> consumed + seq![next.unwrap()@] + it@ == all,
                    next.is_none() ==> consumed == all,
                decreases it@.len() + if next.is_some() { 1int } else { 0int },
            {
                let entry = next.unwrap();
                let ghost r = entry@;
                let ghost before = done + consumed;
                match &entry.value {
                    Some(v) => {
                        memtable.set(entry.key.as_slice(), v.as_slice(), entry.timestamp);
                        wal.set(entry.key.as_slice(), v.as_slice(), entry.timestamp);
                        assert(r == set_record(entry.key@, v@, entry.timestamp));
                    },
                    None => {
                        memtable.delete(entry.key.as_slice());
                        wal.delete(entry.key.as_slice(), entry.timestamp);
                        assert(r == delete_record(entry.key@, entry.timestamp));
                    },
                }
                proof {
                    lemma_encode_records_push(before, r);
                    assert(before.push(r).drop_last() =~= before);
                    consumed = consumed.push(r);
                    assert(done + consumed =~= before.push(r));
                }
                next = it.next();
                proof {
                    if next.is_some() {
                        assert(consumed + seq![next.unwrap()@] + it@ =~= all);
                    } else {
                        assert(consumed =~= all);
                    }
                }
            }
            proof {
                let upto = segs.subrange(0, s + 1);
                assert(upto.drop_last() =~= segs.subrange(0, s as int));
                assert(segments@[s as int]@ == segs[s as int]);
                assert(upto.last() == segs[s as int]);
            }
            s += 1;
        }
        assert(segs.subrange(0, s as int) =~= segs);
        SSTable { memtable, wal }
    }

    pub fn len(&self) -> (r: usize)
        ensures
            r as nat == self.memtable@.len(),
    {
        self.memtable.len()
    }

    pub fn is_empty(&self) -> (r: bool)
        ensures
            r == (self.memtable@.len() == 0),
    {
        self.memtable.is_empty()
    }

    /// Stores a live value for `key` in the index, then logs it.
    pub fn set(&mut self, key: &[u8], value: &[u8], timestamp: u128)
        requires
            old(self).wf(),
        ensures
            final(self).wf(),
            final(self).memtable@ == old(self).memtable@.insert(key@, (Some(value@), timestamp)),
            final(self).memtable@.len() == old(self).memtable@.len() + if old(
                self,
            ).memtable@.contains_key(key@) {
                0int
            } else {
                1int
            },
            final(self).pending() == old(self).pending() + encode_record(
                set_record(key@, value@, timestamp),
            ),
            final(self).path_view() == old(self).path_view(),
    {
        self.memtable.set(key, value, timestamp);
        self.wal.set(key, value, timestamp);
    }

    /// Removes `key` from the index, then logs the deletion.
    pub fn delete(&mut self, key: &[u8], timestamp: u128)
        requires
            old(self).wf(),
        ensures
            final(self).wf(),
            final(self).memtable@ == old(self).memtable@.remove(key@),
            final(self).memtable@.len() == old(self).memtable@.len() - if old(
                self,
            ).memtable@.contains_key(key@) {
                1int
            } else {
                0int
            },
            final(self).pending() == old(self).pending() + encode_record(
                delete_record(key@, timestamp),
            ),
            final(self).path_view() == old(self).path_view(),
    {
        self.memtable.delete(key);
        self.wal.delete(key, timestamp);
    }

    pub fn get(&self, key: &[u8]) -> (r: Option<MemTableEntry>)
        ensures
            r.is_some() == self.memtable@.contains_key(key@),
            r.is_some() ==> r.unwrap()@ == (key@, self.memtable@[key@]),
    {
        self.memtable.get(key)
    }

    /// Hands out the log bytes written since the last flush, to be written to
    /// the segment's file.
    pub fn flush(&mut self) -> (r: Vec<u8>)
        requires
            old(self).wf(),
        ensures
            final(self).wf(),
            r@ == old(self).pending(),
            final(self).pending() == Seq::<u8>::empty(),
            final(self).memtable@ == old(self).memtable@,
            final(self).path_view() == old(self).path_view(),
    {
        self.wal.flush()
    }

    /// The path of the log segment.
    pub fn path(&self) -> (r: &String)
        ensures
            r@ == self.path_view(),
    {
        self.wal.path()
    }
}

/// The slot that the records leave for `key`: that of the last record of
/// `key`, or `None` where there is none or it is a deletion.
pub open spec fn final_slot(rs: Seq<LogRecord>, key: Seq<u8>) -> Option<SlotView>
    decreases rs.len(),
{
    if rs.len() == 0 {
        None
    } else if rs.last().key == key {
        match rs.last().value {
            Some(v) => Some((Some(v), rs.last().timestamp)),
            None => None,
        }
    } else {
        final_slot(rs.drop_last(), key)
    }
}

/// Each key of an index built from nothing by the records holds the slot
/// that the last record of that key left.
pub proof fn lemma_replay_final_slot(rs: Seq<LogRecord>, key: Seq<u8>)
    ensures
        replay(no_slots(), rs).contains_key(key) == final_slot(rs, key).is_some(),
        replay(no_slots(), rs).contains_key(key) ==> replay(no_slots(), rs)[key]
            == final_slot(rs, key).unwrap(),
    decreases rs.len(),
{
    if rs.len() > 0 {
        lemma_replay_final_slot(rs.drop_last(), key);
    }
}

/// Two indexes built from nothing by record sequences that leave the same
/// final slot for every key are equal, whatever the order of the writes.
pub proof fn lemma_index_equality(rs1: Seq<LogRecord>, rs2: Seq<LogRecord>)
    requires
        forall|key: Seq<u8>| #[trigger] final_slot(rs1, key) == final_slot(rs2, key),
    ensures
        replay(no_slots(), rs1) == replay(no_slots(), rs2),
{
    let a = replay(no_slots(), rs1);
    let b = replay(no_slots(), rs2);
    assert forall|key: Seq<u8>| #[trigger] a.contains_key(key) == b.contains_key(key) by {
        lemma_replay_final_slot(rs1, key);
        lemma_replay_final_slot(rs2, key);
        assert(final_slot(rs1, key) == final_slot(rs2, key));
    }
    assert forall|key: Seq<u8>| a.contains_key(key) implies #[trigger] a[key] == b[key] by {
        lemma_replay_final_slot(rs1, key);
        lemma_replay_final_slot(rs2, key);
        assert(final_slot(rs1, key) == final_slot(rs2, key));
    }
    assert(a =~= b);
}

/// A segment that holds one whole record decodes to that record alone.
proof fn lemma_single_record(r: LogRecord)
    requires
        fits(r),
    ensures
        parse_all(encode_record(r)) == seq![r],
{
    let rs = seq![r];
    assert(rs.drop_first() =~= Seq::<LogRecord>::empty());
    assert(encode_records(rs) =~= encode_record(r) + encode_records(Seq::<LogRecord>::empty()));
    assert(encode_records(rs) =~= encode_record(r));
    lemma_log_round_trip(rs);
}

/// Recovering from an older segment that sets `key` and a newer one that
/// deletes it leaves `key` absent, and logs both records again in that order.
pub proof fn lemma_recovery_consolidation(key: Seq<u8>, a: Seq<u8>, t1: u128, t2: u128)
    requires
        key.len() <= u64::MAX,
        a.len() <= u64::MAX,
    ensures
        !replay(
            no_slots(),
            segment_records(
                seq![encode_record(set_record(key, a, t1)), encode_record(delete_record(key, t2))],
            ),
        ).contains_key(key),
        segment_records(
            seq![encode_record(set_record(key, a, t1)), encode_record(delete_record(key, t2))],
        ) == seq![set_record(key, a, t1), delete_record(key, t2)],
{
    let s1 = encode_record(set_record(key, a, t1));
    let s2 = encode_record(delete_record(key, t2));
    let segs = seq![s1, s2];
    lemma_single_record(set_record(key, a, t1));
    lemma_single_record(delete_record(key, t2));
    assert(segs.drop_last() =~= seq![s1]);
    assert(seq![s1].drop_last() =~= Seq::<Seq<u8>>::empty());
    assert(segs.last() == s2);
    assert(seq![s1].last() == s1);
    assert(segment_records(Seq::<Seq<u8>>::empty()) == Seq::<LogRecord>::empty());
    assert(segment_records(seq![s1]) =~= seq![set_record(key, a, t1)]);
    let rs = segment_records(segs);
    assert(rs =~= seq![set_record(key, a, t1), delete_record(key, t2)]);
    assert(rs.drop_last() =~= seq![set_record(key, a, t1)]);
    assert(rs.drop_last().drop_last() =~= Seq::<LogRecord>::empty());
}

/// Recovering from no segment gives an empty index and an empty log.
pub proof fn lemma_recovery_empty()
    ensures
        replay(no_slots(), segment_records(Seq::<Seq<u8>>::empty())) == no_slots(),
        replay(no_slots(), segment_records(Seq::<Seq<u8>>::empty())).len() == 0,
        encode_records(segment_records(Seq::<Seq<u8>>::empty())) == Seq::<u8>::empty(),
{
    assert(no_slots().dom() =~= Set::<Seq<u8>>::empty());
}

} // verus!

use crate::bytes::{copy_range, push_bytes};
use vstd::prelude::*;

verus! {

/// The byte that opens a record holding a live value.
pub const SET_TAG: u8 = 0;

/// The byte that opens a record holding a deletion.
pub const DELETE_TAG: u8 = 1;

/// `256` to the power `n`.
pub open spec fn pow256(n: nat) -> nat
    decreases n,
{
    if n == 0 {
        1
    } else {
        256 * pow256((n - 1) as nat)
    }
}

/// The `width` low bytes of `n`, least significant first.
pub open spec fn le_bytes(n: nat, width: nat) -> Seq<u8>
    decreases width,
{
    if width == 0 {
        Seq::empty()
    } else {
        seq![(n % 256) as u8] + le_bytes(n / 256, (width - 1) as nat)
    }
}

/// The number that `b` spells with its least significant byte first.
pub open spec fn le_value(b: Seq<u8>) -> nat
    decreases b.len(),
{
    if b.len() == 0 {
        0
    } else {
        b[0] as nat + 256 * le_value(b.drop_first())
    }
}

pub proof fn lemma_pow256_values()
    ensures
        pow256(8) == 0x1_0000_0000_0000_0000,
        pow256(15) == 0x1_0000_0000_0000_0000_0000_0000_0000_00,
        pow256(16) == 0x1_0000_0000_0000_0000_0000_0000_0000_0000,
{
    reveal_with_fuel(pow256, 17);
}

pub proof fn lemma_pow256_mono(a: nat, b: nat)
    requires
        a <= b,
    ensures
        pow256(a) <= pow256(b),
    decreases b,
{
    if a < b {
        lemma_pow256_mono(a, (b - 1) as nat);
    }
}

pub proof fn lemma_le_value_bound(b: Seq<u8>)
    ensures
        le_value(b) < pow256(b.len()),
    decreases b.len(),
{
    if b.len() > 0 {
        lemma_le_value_bound(b.drop_first());
        let v = le_value(b.drop_first());
        let p = pow256((b.len() - 1) as nat);
        let x = b[0] as nat;
        assert(x + 256 * v < 256 * p) by (nonlinear_arith)
            requires
                x < 256,
                v < p,
        ;
    }
}

/// Reading back the bytes that `le_bytes` wrote gives the number again.
pub proof fn lemma_le_round_trip(n: nat, width: nat)
    requires
        n < pow256(width),
    ensures
        le_bytes(n, width).len() == width,
        le_value(le_bytes(n, width)) == n,
    decreases width,
{
    if width > 0 {
        let w1 = (width - 1) as nat;
        assert(n / 256 < pow256(w1)) by (nonlinear_arith)
            requires
                n < 256 * pow256(w1),
        ;
        lemma_le_round_trip(n / 256, w1);
        let b = le_bytes(n, width);
        assert(b.drop_first() =~= le_bytes(n / 256, w1));
        assert(n % 256 + 256 * (n / 256) == n) by (nonlinear_arith);
    }
}

/// Appends the `width` low bytes of `n` to `out`, least significant first.
pub fn push_le(out: &mut Vec<u8>, n: u128, width: usize)
    ensures
        final(out)@ == old(out)@ + le_bytes(n as nat, width as nat),
{
    let ghost start = out@;
    let mut x: u128 = n;
    let mut i: usize = 0;
    while i < width
        invariant
            i <= width,
            out@ + le_bytes(x as nat, (width - i) as nat) == start + le_bytes(n as nat, width as nat),
        decreases width - i,
    {
        let ghost before = out@;
        let ghost rest = le_bytes(x as nat / 256, (width - i - 1) as nat);
        assert(le_bytes(x as nat, (width - i) as nat) == seq![(x as nat % 256) as u8] + rest);
        out.push((x % 256) as u8);
        assert(out@ + rest =~= before + (seq![(x as nat % 256) as u8] + rest));
        x = x / 256;
        i += 1;
    }
    assert(le_bytes(x as nat, 0) =~= Seq::<u8>::empty());
    assert(out@ + le_bytes(x as nat, 0) =~= out@);
}

/// The number that the `width` bytes of `b` from `pos` spell, least
/// significant first.
pub fn read_le(b: &[u8], pos: usize, width: usize) -> (r: u128)
    requires
        width <= 16,
        pos + width <= b@.len(),
    ensures
        r as nat == le_value(b@.subrange(pos as int, pos + width)),
{
    let mut acc: u128 = 0;
    let mut i: usize = width;
    assert(b@.subrange(pos + width, pos + width) =~= Seq::<u8>::empty());
    while i > 0
        invariant
            i <= width <= 16,
            pos + width <= b@.len(),
            acc as nat == le_value(b@.subrange(pos + i, pos + width)),
        decreases i,
    {
        i -= 1;
        let ghost s = b@.subrange(pos + i, pos + width);
        proof {
            assert(s.drop_first() =~= b@.subrange(pos + i + 1, pos + width));
            lemma_le_value_bound(b@.subrange(pos + i + 1, pos + width));
            lemma_pow256_mono((width - i - 1) as nat, 15);
            lemma_pow256_values();
            let a = acc as nat;
            assert(a * 256 + 255 <= u128::MAX) by (nonlinear_arith)
                requires
                    a < 0x1_0000_0000_0000_0000_0000_0000_0000_00,
            ;
        }
        assert(pos + i < b.len());
        acc = acc * 256 + b[pos + i] as u128;
    }
    acc
}

/// The abstract form of one log record: a value of `None` is a deletion.
pub struct LogRecord {
    pub key: Seq<u8>,
    pub value: Option<Seq<u8>>,
    pub timestamp: u128,
}

/// The bytes of one record: a tag byte, then
/// `key_len: u64 | value_len: u64 | key | value | timestamp: u128` for a live
/// value, or `key_len: u64 | key | timestamp: u128` for a deletion.
pub open spec fn encode_record(r: LogRecord) -> Seq<u8> {
    match r.value {
        Some(v) => seq![SET_TAG] + le_bytes(r.key.len(), 8) + le_bytes(v.len(), 8) + r.key + v
            + le_bytes(r.timestamp as nat, 16),
        None => seq![DELETE_TAG] + le_bytes(r.key.len(), 8) + r.key + le_bytes(
            r.timestamp as nat,
            16,
        ),
    }
}

/// The bytes of a sequence of records, one after the other.
pub open spec fn encode_records(rs: Seq<LogRecord>) -> Seq<u8>
    decreases rs.len(),
{
    if rs.len() == 0 {
        Seq::empty()
    } else {
        encode_record(rs[0]) + encode_records(rs.drop_first())
    }
}

/// The record for a live value.
pub open spec fn set_record(key: Seq<u8>, value: Seq<u8>, timestamp: u128) -> LogRecord {
    LogRecord { key, value: Some(value), timestamp }
}

/// The record for a deletion.
pub open spec fn delete_record(key: Seq<u8>, timestamp: u128) -> LogRecord {
    LogRecord { key, value: None, timestamp }
}

/// Appends the encoding of a live value for `key` to `out`.
pub fn encode_set(out: &mut Vec<u8>, key: &[u8], value: &[u8], timestamp: u128)
    ensures
        final(out)@ == old(out)@ + encode_record(set_record(key@, value@, timestamp)),
{
    let ghost start = out@;
    out.push(SET_TAG);
    push_le(out, key.len() as u128, 8);
    push_le(out, value.len() as u128, 8);
    push_bytes(out, key);
    push_bytes(out, value);
    push_le(out, timestamp, 16);
    assert(out@ =~= start + encode_record(set_record(key@, value@, timestamp)));
}

/// Appends the encoding of a deletion of `key` to `out`.
pub fn encode_delete(out: &mut Vec<u8>, key: &[u8], timestamp: u128)
    ensures
        final(out)@ == old(out)@ + encode_record(delete_record(key@, timestamp)),
{
    let ghost start = out@;
    out.push(DELETE_TAG);
    push_le(out, key.len() as u128, 8);
    push_bytes(out, key);
    push_le(out, timestamp, 16);
    assert(out@ =~= start + encode_record(delete_record(key@, timestamp)));
}

/// One decoded log record; a value of `None` is a deletion.
#[derive(Debug, Clone, PartialEq, Eq)]
pub struct WALEntry {
    pub key: Vec<u8>,
    pub value: Option<Vec<u8>>,
    pub timestamp: u128,
}

impl WALEntry {
    pub open spec fn view(&self) -> LogRecord {
        LogRecord { key: self.key@, value: crate::memtable::opt_bytes(self.value), timestamp: self.timestamp }
    }
}

/// A log segment being written: its file path and the encoded records that
/// were appended since the last flush.
pub struct WAL {
    path: String,
    buffer: Vec<u8>,
}

impl WAL {
    /// The bytes appended since the last flush.
    pub closed spec fn pending(&self) -> Seq<u8> {
        self.buffer@
    }

    /// The path of the segment's file.
    pub closed spec fn path_view(&self) -> Seq<char> {
        self.path@
    }

    /// A segment at `path` with nothing appended yet.
    pub fn new(path: String) -> (r: WAL)
        ensures
            r.pending() == Seq::<u8>::empty(),
            r.path_view() == path@,
    {
        WAL { path, buffer: Vec::new() }
    }

    pub fn path(&self) -> (r: &String)
        ensures
            r@ == self.path_view(),
    {
        &self.path
    }

    /// Appends a record that sets `key` to `value`.
    pub fn set(&mut self, key: &[u8], value: &[u8], timestamp: u128)
        ensures
            final(self).pending() == old(self).pending() + encode_record(
                set_record(key@, value@, timestamp),
            ),
            final(self).path_view() == old(self).path_view(),
    {
        encode_set(&mut self.buffer, key, value, timestamp);
    }

    /// Appends a record that deletes `key`.
    pub fn delete(&mut self, key: &[u8], timestamp: u128)
        ensures
            final(self).pending() == old(self).pending() + encode_record(
                delete_record(key@, timestamp),
            ),
            final(self).path_view() == old(self).path_view(),
    {
        encode_delete(&mut self.buffer, key, timestamp);
    }

    /// Hands out the bytes appended since the last flush, to be written to
    /// the segment's file, and starts a new batch.
    pub fn flush(&mut self) -> (r: Vec<u8>)
        ensures
            r@ == old(self).pending(),
            final(self).pending() == Seq::<u8>::empty(),
            final(self).path_view() == old(self).path_view(),
    {
        let mut out: Vec<u8> = Vec::new();
        std::mem::swap(&mut out, &mut self.buffer);
        out
    }
}

/// The bytes of `b` from `pos` on.
pub open spec fn rest_of(b: Seq<u8>, pos: int) -> Seq<u8> {
    b.subrange(pos, b.len() as int)
}

/// The record at the start of `b` and the number of bytes it takes, or
/// `None` where `b` does not start with a whole record (too short, or an
/// unknown tag).
pub open spec fn parse_record(b: Seq<u8>) -> Option<(LogRecord, nat)> {
    if b.len() >= 25 && b[0] == DELETE_TAG {
        let kl = le_value(b.subrange(1, 9)) as int;
        if b.len() >= 25 + kl {
            Some(
                (
                    delete_record(
                        b.subrange(9, 9 + kl),
                        le_value(b.subrange(9 + kl, 25 + kl)) as u128,
                    ),
                    (25 + kl) as nat,
                ),
            )
        } else {
            None
        }
    } else if b.len() >= 33 && b[0] == SET_TAG {
        let kl = le_value(b.subrange(1, 9)) as int;
        let vl = le_value(b.subrange(9, 17)) as int;
        if b.len() >= 33 + kl + vl {
            Some(
                (
                    set_record(
                        b.subrange(17, 17 + kl),
                        b.subrange(17 + kl, 17 + kl + vl),
                        le_value(b.subrange(17 + kl + vl, 33 + kl + vl)) as u128,
                    ),
                    (33 + kl + vl) as nat,
                ),
            )
        } else {
            None
        }
    } else {
        None
    }
}

/// The records that `b` holds, read from the start up to the first place
/// where no whole record follows.
pub open spec fn parse_all(b: Seq<u8>) -> Seq<LogRecord>
    decreases b.len(),
{
    match parse_record(b) {
        Some((r, n)) => if 0 < n <= b.len() {
            seq![r] + parse_all(b.subrange(n as int, b.len() as int))
        } else {
            Seq::empty()
        },
        None => Seq::empty(),
    }
}

/// Decodes the record that starts at `pos` in `b`, and returns it with the
/// position just after it.
pub fn decode_record(b: &[u8], pos: usize) -> (r: Option<(WALEntry, usize)>)
    requires
        pos <= b@.len(),
    ensures
        r.is_some() == parse_record(rest_of(b@, pos as int)).is_some(),
        r.is_some() ==> r.unwrap().0@ == parse_record(rest_of(b@, pos as int)).unwrap().0,
        r.is_some() ==> r.unwrap().1 == pos + parse_record(rest_of(b@, pos as int)).unwrap().1,
{
    let ghost t = rest_of(b@, pos as int);
    let rem = b.len() - pos;
    if rem < 1 {
        return None;
    }
    let tag = b[pos];
    if tag == DELETE_TAG && rem >= 25 {
        let kl = read_le(b, pos + 1, 8);
        assert(t.subrange(1, 9) =~= b@.subrange(pos as int + 1, pos as int + 9));
        if kl > (rem - 25) as u128 {
            return None;
        }
        let kl = kl as usize;
        let key = copy_range(b, pos + 9, pos + 9 + kl);
        let ts = read_le(b, pos + 9 + kl, 16);
        assert(t.subrange(9, 9 + (kl as int)) =~= b@.subrange(pos as int + 9, pos as int + 9 + (kl as int)));
        assert(t.subrange(9 + (kl as int), 25 + (kl as int)) =~= b@.subrange(pos as int + 9 + (kl as int), pos as int + 25 + (kl as int)));
        Some((WALEntry { key, value: None, timestamp: ts }, pos + 25 + kl))
    } else if tag == SET_TAG && rem >= 33 {
        let kl = read_le(b, pos + 1, 8);
        let vl = read_le(b, pos + 9, 8);
        assert(t.subrange(1, 9) =~= b@.subrange(pos as int + 1, pos as int + 9));
        assert(t.subrange(9, 17) =~= b@.subrange(pos as int + 9, pos as int + 17));
        if kl > (rem - 33) as u128 || vl > (rem - 33) as u128 - kl {
            return None;
        }
        let kl = kl as usize;
        let vl = vl as usize;
        let key = copy_range(b, pos + 17, pos + 17 + kl);
        let value = copy_range(b, pos + 17 + kl, pos + 17 + kl + vl);
        let ts = read_le(b, pos + 17 + kl + vl, 16);
        assert(t.subrange(17, 17 + (kl as int)) =~= b@.subrange(pos as int + 17, pos as int + 17 + (kl as int)));
        assert(t.subrange(17 + (kl as int), 17 + (kl as int) + (vl as int)) =~= b@.subrange(
            pos as int + 17 + (kl as int),
            pos as int + 17 + (kl as int) + (vl as int),
        ));
        assert(t.subrange(17 + (kl as int) + (vl as int), 33 + (kl as int) + (vl as int)) =~= b@.subrange(
            pos as int + 17 + (kl as int) + (vl as int),
            pos + 33 + kl + vl,
        ));
        Some((WALEntry { key, value: Some(value), timestamp: ts }, pos + 33 + kl + vl))
    } else {
        None
    }
}

/// A single pass over the records of a segment's bytes, from the start.
pub struct WALIterator {
    bytes: Vec<u8>,
    pos: usize,
}

impl WALIterator {
    pub closed spec fn wf(&self) -> bool {
        self.pos <= self.bytes@.len()
    }

    /// The records that are still to come.
    pub closed spec fn view(&self) -> Seq<LogRecord> {
        parse_all(rest_of(self.bytes@, self.pos as int))
    }

    pub fn new(bytes: Vec<u8>) -> (r: WALIterator)
        ensures
            r.wf(),
            r@ == parse_all(bytes@),
    {
        assert(rest_of(bytes@, 0) =~= bytes@);
        WALIterator { bytes, pos: 0 }
    }

    /// The next record, or `None` once no whole record follows.
    pub fn next(&mut self) -> (r: Option<WALEntry>)
        requires
            old(self).wf(),
        ensures
            final(self).wf(),
            r.is_some() == (old(self)@.len() > 0),
            r.is_some() ==> r.unwrap()@ == old(self)@[0],
            r.is_some() ==> final(self)@ == old(self)@.drop_first(),
            r.is_none() ==> final(self)@ == old(self)@,
    {
        let ghost t = rest_of(self.bytes@, self.pos as int);
        match decode_record(self.bytes.as_slice(), self.pos) {
            Some((entry, next)) => {
                let ghost n = parse_record(t).unwrap().1;
                assert(t.subrange(n as int, t.len() as int) =~= rest_of(
                    self.bytes@,
                    next as int,
                ));
                self.pos = next;
                assert(old(self)@ == seq![entry@] + self@);
                assert(old(self)@.drop_first() =~= self@);
                Some(entry)
            },
            None => None,
        }
    }
}

/// A record whose lengths fit the format's 64-bit length fields.
pub open spec fn fits(r: LogRecord) -> bool {
    &&& r.key.len() <= u64::MAX
    &&& r.value matches Some(v) ==> v.len() <= u64::MAX
}

/// A whole encoded record is decoded as itself, whatever follows it.
pub proof fn lemma_parse_record_encoded(r: LogRecord, rest: Seq<u8>)
    requires
        fits(r),
    ensures
        parse_record(encode_record(r) + rest) == Some((r, encode_record(r).len())),
{
    lemma_pow256_values();
    let kl = r.key.len() as int;
    lemma_le_round_trip(r.key.len(), 8);
    lemma_le_round_trip(r.timestamp as nat, 16);
    let b = encode_record(r) + rest;
    match r.value {
        Some(v) => {
            let vl = v.len() as int;
            lemma_le_round_trip(v.len(), 8);
            assert(b.subrange(1, 9) =~= le_bytes(r.key.len(), 8));
            assert(b.subrange(9, 17) =~= le_bytes(v.len(), 8));
            assert(b.subrange(17, 17 + kl) =~= r.key);
            assert(b.subrange(17 + kl, 17 + kl + vl) =~= v);
            assert(b.subrange(17 + kl + vl, 33 + kl + vl) =~= le_bytes(r.timestamp as nat, 16));
        },
        None => {
            assert(b.subrange(1, 9) =~= le_bytes(r.key.len(), 8));
            assert(b.subrange(9, 9 + kl) =~= r.key);
            assert(b.subrange(9 + kl, 25 + kl) =~= le_bytes(r.timestamp as nat, 16));
        },
    }
}

/// Decoding the encoding of a sequence of records gives back exactly those
/// records, in the same order.
pub proof fn lemma_log_round_trip(rs: Seq<LogRecord>)
    requires
        forall|i: int| 0 <= i < rs.len() ==> fits(#[trigger] rs[i]),
    ensures
        parse_all(encode_records(rs)) == rs,
    decreases rs.len(),
{
    if rs.len() == 0 {
        assert(parse_record(Seq::<u8>::empty()) is None);
    } else {
        let tail = rs.drop_first();
        assert forall|i: int| 0 <= i < tail.len() implies fits(#[trigger] tail[i]) by {
            assert(tail[i] == rs[i + 1]);
        }
        lemma_log_round_trip(tail);
        let b = encode_records(rs);
        let e = encode_record(rs[0]);
        assert(fits(rs[0]));
        lemma_parse_record_encoded(rs[0], encode_records(tail));
        assert(b.subrange(e.len() as int, b.len() as int) =~= encode_records(tail));
        assert(seq![rs[0]] + tail =~= rs);
    }
}

/// Appending one record to a sequence appends its bytes to the encoding.
pub proof fn lemma_encode_records_push(rs: Seq<LogRecord>, r: LogRecord)
    ensures
        encode_records(rs.push(r)) == encode_records(rs) + encode_record(r),
    decreases rs.len(),
{
    if rs.len() == 0 {
        let one = rs.push(r);
        assert(one.drop_first() =~= Seq::<LogRecord>::empty());
        assert(encode_records(one.drop_first()) == Seq::<u8>::empty());
        assert(one[0] == r);
        assert(encode_records(one) =~= encode_record(r));
        assert(encode_records(rs) == Seq::<u8>::empty());
    } else {
        lemma_encode_records_push(rs.drop_first(), r);
        assert(rs.push(r).drop_first() =~= rs.drop_first().push(r));
        assert(encode_records(rs.push(r)) =~= encode_records(rs) + encode_record(r));
    }
}

} // verus!

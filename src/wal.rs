//! The write-ahead log: an append-only sequence of records, held as the bytes of
//! the log file, and the replay that derives the index from them.
use vstd::prelude::*;

use crate::index::{Index, LogPointer};
use crate::record::{
    get_le32, lemma_le32_round_trip, push_delete_record, push_put_record, put_record,
    delete_record, read_le32, le32, DELETE_HEADER, PUT_HEADER, TAG_DELETE, TAG_PUT,
};

verus! {

/// Why a log cannot be replayed.
#[derive(Clone, Copy, Debug, PartialEq, Eq, Structural)]
pub enum LogError {
    /// A record starts with a tag byte that is neither PUT nor DELETE.
    UnknownTag,
    /// A record claims more bytes than the log has left.
    Truncated,
}

/// Replays the records of `b` from position `pos` onto `idx`: a PUT maps its key to
/// the place of its value, a DELETE removes its key.
pub open spec fn replay_from(b: Seq<u8>, pos: int, idx: Map<Seq<u8>, LogPointer>) -> Result<
    Map<Seq<u8>, LogPointer>,
    LogError,
>
    decreases b.len() - pos,
{
    if pos < 0 || pos >= b.len() {
        Ok(idx)
    } else if b[pos] == TAG_PUT {
        if pos + PUT_HEADER > b.len() {
            Err(LogError::Truncated)
        } else {
            let key_len = read_le32(b, pos + 1);
            let value_len = read_le32(b, pos + 5);
            let start = pos + PUT_HEADER + key_len;
            if start + value_len > b.len() {
                Err(LogError::Truncated)
            } else {
                replay_from(
                    b,
                    start + value_len,
                    idx.insert(
                        b.subrange(pos + PUT_HEADER, start),
                        LogPointer { offset: start as u64, value_len: value_len as u32 },
                    ),
                )
            }
        }
    } else if b[pos] == TAG_DELETE {
        if pos + DELETE_HEADER > b.len() {
            Err(LogError::Truncated)
        } else {
            let end = pos + DELETE_HEADER + read_le32(b, pos + 1);
            if end > b.len() {
                Err(LogError::Truncated)
            } else {
                replay_from(b, end, idx.remove(b.subrange(pos + DELETE_HEADER, end)))
            }
        }
    } else {
        Err(LogError::UnknownTag)
    }
}

/// The index that replaying the whole log `b` from an empty index gives.
pub open spec fn replay_spec(b: Seq<u8>) -> Result<Map<Seq<u8>, LogPointer>, LogError> {
    replay_from(b, 0, Map::empty())
}

/// The bytes that `p` points at in `b`.
pub open spec fn value_at(b: Seq<u8>, p: LogPointer) -> Seq<u8> {
    b.subrange(p.offset as int, p.offset + p.value_len)
}

/// Every pointer of `m` ends at or before `n`.
pub open spec fn pointers_within(m: Map<Seq<u8>, LogPointer>, n: int) -> bool {
    forall|k: Seq<u8>| #[trigger] m.contains_key(k) ==> m[k].offset + m[k].value_len <= n
}

/// Every key of `m` is short enough for a record's key length.
pub open spec fn keys_bounded(m: Map<Seq<u8>, LogPointer>) -> bool {
    forall|k: Seq<u8>| #[trigger] m.contains_key(k) ==> k.len() <= u32::MAX
}

/// What the log `b` holds: each live key with its latest value; nothing where the
/// log cannot be replayed.
pub open spec fn log_contents(b: Seq<u8>) -> Map<Seq<u8>, Seq<u8>> {
    match replay_spec(b) {
        Ok(m) => Map::new(|k: Seq<u8>| m.contains_key(k), |k: Seq<u8>| value_at(b, m[k])),
        Err(_) => Map::empty(),
    }
}

/// The pointers that a replay finds lie inside the log, and its keys fit a
/// record's key length.
pub proof fn lemma_replay_within(b: Seq<u8>, pos: int, idx: Map<Seq<u8>, LogPointer>)
    requires
        0 <= pos <= b.len(),
        pointers_within(idx, pos),
        keys_bounded(idx),
        replay_from(b, pos, idx) is Ok,
    ensures
        pointers_within(replay_from(b, pos, idx)->Ok_0, b.len() as int),
        keys_bounded(replay_from(b, pos, idx)->Ok_0),
    decreases b.len() - pos,
{
    if pos < b.len() {
        if b[pos] == TAG_PUT {
            let key_len = read_le32(b, pos + 1);
            let value_len = read_le32(b, pos + 5);
            let start = pos + PUT_HEADER + key_len;
            let p = LogPointer { offset: start as u64, value_len: value_len as u32 };
            let next = idx.insert(b.subrange(pos + PUT_HEADER, start), p);
            assert(pointers_within(next, start + value_len));
            assert(key_len <= u32::MAX);
            assert(keys_bounded(next));
            lemma_replay_within(b, start + value_len, next);
        } else {
            let end = pos + DELETE_HEADER + read_le32(b, pos + 1);
            let next = idx.remove(b.subrange(pos + DELETE_HEADER, end));
            assert(pointers_within(next, end));
            assert(keys_bounded(next));
            lemma_replay_within(b, end, next);
        }
    }
}

/// Bytes appended after a log that replays in full do not change how its records
/// replay: the replay of the whole goes on from the end of the first part.
pub proof fn lemma_replay_append(b: Seq<u8>, r: Seq<u8>, pos: int, idx: Map<Seq<u8>, LogPointer>)
    requires
        0 <= pos <= b.len(),
        replay_from(b, pos, idx) is Ok,
    ensures
        replay_from(b + r, pos, idx) == replay_from(b + r, b.len() as int, replay_from(b, pos, idx)->Ok_0),
    decreases b.len() - pos,
{
    let c = b + r;
    if pos < b.len() {
        assert(c[pos] == b[pos]);
        if b[pos] == TAG_PUT {
            assert(c[pos + 1] == b[pos + 1] && c[pos + 2] == b[pos + 2] && c[pos + 3] == b[pos + 3] && c[pos + 4] == b[pos + 4]);
            assert(c[pos + 5] == b[pos + 5] && c[pos + 6] == b[pos + 6] && c[pos + 7] == b[pos + 7] && c[pos + 8] == b[pos + 8]);
            let key_len = read_le32(b, pos + 1);
            let value_len = read_le32(b, pos + 5);
            let start = pos + PUT_HEADER + key_len;
            assert(c.subrange(pos + PUT_HEADER, start) =~= b.subrange(pos + PUT_HEADER, start));
            let p = LogPointer { offset: start as u64, value_len: value_len as u32 };
            lemma_replay_append(b, r, start + value_len, idx.insert(b.subrange(pos + PUT_HEADER, start), p));
        } else {
            assert(c[pos + 1] == b[pos + 1] && c[pos + 2] == b[pos + 2] && c[pos + 3] == b[pos + 3] && c[pos + 4] == b[pos + 4]);
            let end = pos + DELETE_HEADER + read_le32(b, pos + 1);
            assert(c.subrange(pos + DELETE_HEADER, end) =~= b.subrange(pos + DELETE_HEADER, end));
            lemma_replay_append(b, r, end, idx.remove(b.subrange(pos + DELETE_HEADER, end)));
        }
    }
}

/// Replaying a PUT record that ends the log maps its key to its value.
pub proof fn lemma_replay_put_record(b: Seq<u8>, key: Seq<u8>, value: Seq<u8>, idx: Map<Seq<u8>, LogPointer>)
    requires
        key.len() <= u32::MAX,
        value.len() <= u32::MAX,
        b.len() + PUT_HEADER + key.len() <= u64::MAX,
    ensures
        replay_from(b + put_record(key, value), b.len() as int, idx) == Ok::<_, LogError>(idx.insert(
            key,
            LogPointer { offset: (b.len() + PUT_HEADER + key.len()) as u64, value_len: value.len() as u32 },
        )),
{
    let r = put_record(key, value);
    let c = b + r;
    let pos = b.len() as int;
    let start = pos + PUT_HEADER + key.len();
    let k = le32(key.len() as u32);
    let v = le32(value.len() as u32);
    assert(r.len() == PUT_HEADER + key.len() + value.len());
    assert(c.len() == start + value.len());
    assert(r[0] == TAG_PUT);
    assert(c[pos] == r[0]);
    assert forall|i: int| 0 <= i < 4 implies c[pos + 1 + i] == k[i] && c[pos + 5 + i] == v[i] by {
        assert(c[pos + 1 + i] == r[1 + i]);
        assert(c[pos + 5 + i] == r[5 + i]);
    }
    assert(c.subrange(pos + 1, pos + 5) =~= k);
    assert(c.subrange(pos + 5, pos + 9) =~= v);
    lemma_le32_round_trip(key.len() as u32, c, pos + 1);
    lemma_le32_round_trip(value.len() as u32, c, pos + 5);
    assert forall|i: int| 0 <= i < key.len() implies c[pos + PUT_HEADER + i] == key[i] by {
        assert(c[pos + PUT_HEADER + i] == r[PUT_HEADER + i]);
    }
    assert(c.subrange(pos + PUT_HEADER, start) =~= key);
    let p = LogPointer { offset: start as u64, value_len: value.len() as u32 };
    assert(replay_from(c, c.len() as int, idx.insert(key, p)) == Ok::<_, LogError>(idx.insert(key, p)));
}

/// Replaying a DELETE record that ends the log removes its key.
pub proof fn lemma_replay_delete_record(b: Seq<u8>, key: Seq<u8>, idx: Map<Seq<u8>, LogPointer>)
    requires
        key.len() <= u32::MAX,
    ensures
        replay_from(b + delete_record(key), b.len() as int, idx) == Ok::<_, LogError>(idx.remove(key)),
{
    let r = delete_record(key);
    let c = b + r;
    let pos = b.len() as int;
    let k = le32(key.len() as u32);
    assert(r.len() == DELETE_HEADER + key.len());
    assert(c.len() == pos + DELETE_HEADER + key.len());
    assert(r[0] == TAG_DELETE);
    assert(c[pos] == r[0]);
    assert forall|i: int| 0 <= i < 4 implies c[pos + 1 + i] == k[i] by {
        assert(c[pos + 1 + i] == r[1 + i]);
    }
    assert(c.subrange(pos + 1, pos + 5) =~= k);
    lemma_le32_round_trip(key.len() as u32, c, pos + 1);
    assert forall|i: int| 0 <= i < key.len() implies c[pos + DELETE_HEADER + i] == key[i] by {
        assert(c[pos + DELETE_HEADER + i] == r[DELETE_HEADER + i]);
    }
    assert(c.subrange(pos + DELETE_HEADER, c.len() as int) =~= key);
    assert(replay_from(c, c.len() as int, idx.remove(key)) == Ok::<_, LogError>(idx.remove(key)));
}

/// Appending a PUT record to a log that replays makes its key map to its value
/// and leaves every other key as it was.
pub proof fn lemma_contents_put(b: Seq<u8>, key: Seq<u8>, value: Seq<u8>)
    requires
        replay_spec(b) is Ok,
        key.len() <= u32::MAX,
        value.len() <= u32::MAX,
        b.len() + put_record(key, value).len() <= u64::MAX,
    ensures
        replay_spec(b + put_record(key, value)) == Ok::<_, LogError>(replay_spec(b)->Ok_0.insert(
            key,
            LogPointer { offset: (b.len() + PUT_HEADER + key.len()) as u64, value_len: value.len() as u32 },
        )),
        log_contents(b + put_record(key, value)) == log_contents(b).insert(key, value),
{
    let r = put_record(key, value);
    let c = b + r;
    let m = replay_spec(b)->Ok_0;
    lemma_replay_append(b, r, 0, Map::empty());
    lemma_replay_put_record(b, key, value, m);
    lemma_replay_within(b, 0, Map::empty());
    let start = b.len() + PUT_HEADER + key.len();
    assert(value_at(c, LogPointer { offset: start as u64, value_len: value.len() as u32 }) =~= value);
    assert forall|k: Seq<u8>| #[trigger] m.contains_key(k) implies value_at(c, m[k]) == value_at(b, m[k]) by {
        assert(value_at(c, m[k]) =~= value_at(b, m[k]));
    }
    assert(log_contents(c) =~= log_contents(b).insert(key, value));
}

/// Appending a DELETE record to a log that replays removes its key and leaves
/// every other key as it was.
pub proof fn lemma_contents_delete(b: Seq<u8>, key: Seq<u8>)
    requires
        replay_spec(b) is Ok,
        key.len() <= u32::MAX,
    ensures
        replay_spec(b + delete_record(key)) == Ok::<_, LogError>(replay_spec(b)->Ok_0.remove(key)),
        log_contents(b + delete_record(key)) == log_contents(b).remove(key),
{
    let r = delete_record(key);
    let c = b + r;
    let m = replay_spec(b)->Ok_0;
    lemma_replay_append(b, r, 0, Map::empty());
    lemma_replay_delete_record(b, key, m);
    lemma_replay_within(b, 0, Map::empty());
    assert forall|k: Seq<u8>| #[trigger] m.contains_key(k) implies value_at(c, m[k]) == value_at(b, m[k]) by {
        assert(value_at(c, m[k]) =~= value_at(b, m[k]));
    }
    assert(log_contents(c) =~= log_contents(b).remove(key));
}

/// Bytes of the PUT record that a (key, pointer) pair stands for.
pub open spec fn record_size(kp: (Seq<u8>, LogPointer)) -> int {
    PUT_HEADER + kp.0.len() + kp.1.value_len
}

/// Adds the size of one more record to a running total.
pub open spec fn add_record_size() -> spec_fn(int, (Seq<u8>, LogPointer)) -> int {
    |acc: int, kp: (Seq<u8>, LogPointer)| acc + record_size(kp)
}

/// The (key, pointer) pairs of `m`.
pub open spec fn live_pairs(m: Map<Seq<u8>, LogPointer>) -> Set<(Seq<u8>, LogPointer)> {
    Set::new(|kp: (Seq<u8>, LogPointer)| m.contains_key(kp.0) && m[kp.0] == kp.1)
}

/// Bytes that one PUT record per key of `m` takes.
pub open spec fn live_size(m: Map<Seq<u8>, LogPointer>) -> int {
    live_pairs(m).fold(0int, add_record_size())
}

proof fn lemma_live_pairs_finite(m: Map<Seq<u8>, LogPointer>)
    requires
        m.dom().finite(),
    ensures
        live_pairs(m).finite(),
{
    let f = |k: Seq<u8>| (k, m[k]);
    m.dom().lemma_map_finite(f);
    assert forall|kp: (Seq<u8>, LogPointer)| live_pairs(m).contains(kp) implies m.dom().map(f).contains(kp) by {
        assert(f(kp.0) == kp);
    }
    assert(live_pairs(m).subset_of(m.dom().map(f)));
    vstd::set_lib::lemma_set_subset_finite(m.dom().map(f), live_pairs(m));
}

proof fn lemma_add_record_size_commutative()
    ensures
        vstd::set::fold::is_fun_commutative(add_record_size()),
{
}

/// The empty map takes no bytes.
pub proof fn lemma_live_size_empty()
    ensures
        live_size(Map::empty()) == 0,
{
    assert(live_pairs(Map::empty()) =~= Set::empty());
    vstd::set::fold::lemma_fold_empty(0int, add_record_size());
}

/// A new key adds the size of its record.
pub proof fn lemma_live_size_insert(m: Map<Seq<u8>, LogPointer>, k: Seq<u8>, p: LogPointer)
    requires
        m.dom().finite(),
        !m.contains_key(k),
    ensures
        live_size(m.insert(k, p)) == live_size(m) + record_size((k, p)),
{
    lemma_live_pairs_finite(m);
    lemma_add_record_size_commutative();
    assert(live_pairs(m.insert(k, p)) =~= live_pairs(m).insert((k, p)));
    vstd::set::fold::lemma_fold_insert(live_pairs(m), 0int, add_record_size(), (k, p));
}

/// Removing a key takes away the size of its record.
pub proof fn lemma_live_size_remove(m: Map<Seq<u8>, LogPointer>, k: Seq<u8>)
    requires
        m.dom().finite(),
        m.contains_key(k),
    ensures
        live_size(m) == live_size(m.remove(k)) + record_size((k, m[k])),
{
    lemma_live_size_insert(m.remove(k), k, m[k]);
    assert(m.remove(k).insert(k, m[k]) =~= m);
}

/// One PUT record per live key takes no more bytes than the log they were replayed
/// from.
pub proof fn lemma_replay_size(b: Seq<u8>, pos: int, idx: Map<Seq<u8>, LogPointer>)
    requires
        0 <= pos <= b.len(),
        idx.dom().finite(),
        live_size(idx) <= pos,
        replay_from(b, pos, idx) is Ok,
    ensures
        (replay_from(b, pos, idx)->Ok_0).dom().finite(),
        live_size(replay_from(b, pos, idx)->Ok_0) <= b.len(),
    decreases b.len() - pos,
{
    if pos < b.len() {
        if b[pos] == TAG_PUT {
            let key_len = read_le32(b, pos + 1);
            let value_len = read_le32(b, pos + 5);
            let start = pos + PUT_HEADER + key_len;
            let key = b.subrange(pos + PUT_HEADER, start);
            let p = LogPointer { offset: start as u64, value_len: value_len as u32 };
            let next = idx.insert(key, p);
            if idx.contains_key(key) {
                lemma_live_size_remove(idx, key);
                lemma_live_size_insert(idx.remove(key), key, p);
                assert(idx.remove(key).insert(key, p) =~= next);
            } else {
                lemma_live_size_insert(idx, key, p);
            }
            lemma_replay_size(b, start + value_len, next);
        } else {
            let end = pos + DELETE_HEADER + read_le32(b, pos + 1);
            let key = b.subrange(pos + DELETE_HEADER, end);
            let next = idx.remove(key);
            if idx.contains_key(key) {
                lemma_live_size_remove(idx, key);
            } else {
                assert(next =~= idx);
            }
            lemma_replay_size(b, end, next);
        }
    }
}

/// Copies the bytes of `b` from `start` up to `end`.
pub fn copy_range(b: &[u8], start: usize, end: usize) -> (r: Vec<u8>)
    requires
        start <= end <= b@.len(),
    ensures
        r@ == b@.subrange(start as int, end as int),
{
    let mut r: Vec<u8> = Vec::new();
    let mut i: usize = start;
    while i < end
        invariant
            start <= i <= end <= b@.len(),
            r@ == b@.subrange(start as int, i as int),
        decreases end - i,
    {
        r.push(b[i]);
        i = i + 1;
        assert(r@ =~= b@.subrange(start as int, i as int));
    }
    r
}

/// A log file's bytes, in the order they were appended.
pub struct Wal {
    data: Vec<u8>,
}

impl View for Wal {
    type V = Seq<u8>;

    closed spec fn view(&self) -> Seq<u8> {
        self.data@
    }
}

impl Wal {
    /// The log whose bytes are `data`, as read from its file; an empty vector is a
    /// fresh log.
    pub fn open(data: Vec<u8>) -> (r: Wal)
        ensures
            r@ == data@,
    {
        Wal { data }
    }

    /// The bytes of the log.
    pub fn as_bytes(&self) -> (r: &[u8])
        ensures
            r@ == self@,
    {
        self.data.as_slice()
    }

    /// Length of the log in bytes.
    pub fn len(&self) -> (r: usize)
        ensures
            r == self@.len(),
    {
        self.data.len()
    }

    /// Appends a PUT record for `key` and `value`.
    pub fn append_put(&mut self, key: &[u8], value: &[u8])
        requires
            key@.len() <= u32::MAX,
            value@.len() <= u32::MAX,
        ensures
            final(self)@ == old(self)@ + put_record(key@, value@),
    {
        push_put_record(&mut self.data, key, value);
    }

    /// Appends a DELETE record for `key`.
    pub fn append_del(&mut self, key: &[u8])
        requires
            key@.len() <= u32::MAX,
        ensures
            final(self)@ == old(self)@ + delete_record(key@),
    {
        push_delete_record(&mut self.data, key);
    }

    /// The `len` bytes from `offset`; `None` where the log is shorter than
    /// `offset + len`.
    pub fn read_val(&self, offset: u64, len: u32) -> (r: Option<Vec<u8>>)
        ensures
            match r {
                Some(v) => offset + len <= self@.len() && v@ == value_at(
                    self@,
                    LogPointer { offset, value_len: len },
                ),
                None => offset + len > self@.len(),
            },
    {
        let n = self.data.len() as u64;
        if offset > n || len as u64 > n - offset {
            None
        } else {
            Some(copy_range(self.data.as_slice(), offset as usize, (offset + len as u64) as usize))
        }
    }

    /// Rebuilds the index by replaying every record of the log from the start.
    pub fn replay(&self) -> (r: Result<Index, LogError>)
        ensures
            match r {
                Ok(idx) => idx.wf() && replay_spec(self@) == Ok::<_, LogError>(idx@),
                Err(e) => replay_spec(self@) == Err::<Map<Seq<u8>, LogPointer>, _>(e),
            },
    {
        let b = self.data.as_slice();
        let mut idx = Index::new();
        let mut pos: usize = 0;
        while pos < b.len()
            invariant
                pos <= b@.len(),
                b@ == self@,
                idx.wf(),
                replay_from(b@, pos as int, idx@) == replay_spec(b@),
            decreases b@.len() - pos,
        {
            let rest = b.len() - pos;
            if b[pos] == TAG_PUT {
                if rest < PUT_HEADER {
                    return Err(LogError::Truncated);
                }
                let key_len = get_le32(b, pos + 1) as usize;
                let value_len = get_le32(b, pos + 5);
                if key_len > rest - PUT_HEADER || value_len as usize > rest - PUT_HEADER - key_len {
                    return Err(LogError::Truncated);
                }
                let start = pos + PUT_HEADER + key_len;
                let key = copy_range(b, pos + PUT_HEADER, start);
                idx.insert(key, LogPointer { offset: start as u64, value_len });
                pos = start + value_len as usize;
            } else if b[pos] == TAG_DELETE {
                if rest < DELETE_HEADER {
                    return Err(LogError::Truncated);
                }
                let key_len = get_le32(b, pos + 1) as usize;
                if key_len > rest - DELETE_HEADER {
                    return Err(LogError::Truncated);
                }
                let end = pos + DELETE_HEADER + key_len;
                let key = copy_range(b, pos + DELETE_HEADER, end);
                idx.remove(key.as_slice());
                pos = end;
            } else {
                return Err(LogError::UnknownTag);
            }
        }
        Ok(idx)
    }
}

} // verus!

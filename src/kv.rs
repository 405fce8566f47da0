//! The store: the log and the index kept in step, with put, get, delete and
//! compaction.
use vstd::prelude::*;

use crate::index::{Index, LogPointer};
use crate::record::{delete_record, put_record, PUT_HEADER};
use crate::wal::{
    keys_bounded, lemma_contents_delete, lemma_contents_put, lemma_live_size_empty,
    lemma_live_size_insert, lemma_replay_size, live_size, lemma_replay_within, log_contents, pointers_within,
    replay_spec, value_at, LogError, Wal,
};

verus! {

/// The bytes of one PUT record for each (key, value) pair of `es`, in order.
pub open spec fn put_records(es: Seq<(Seq<u8>, Seq<u8>)>) -> Seq<u8>
    decreases es.len(),
{
    if es.len() == 0 {
        Seq::empty()
    } else {
        put_records(es.drop_last()) + put_record(es.last().0, es.last().1)
    }
}

/// `log` is a compacted log of `m`: exactly one PUT record for each key of `m`,
/// carrying that key's value, and nothing else.
pub open spec fn is_compacted_log(log: Seq<u8>, m: Map<Seq<u8>, Seq<u8>>) -> bool {
    exists|es: Seq<(Seq<u8>, Seq<u8>)>|
        {
            &&& log == put_records(es)
            &&& es.len() == m.dom().len()
            &&& forall|i: int, j: int| 0 <= i < j < es.len() ==> es[i].0 != es[j].0
            &&& forall|i: int|
                0 <= i < es.len() ==> m.contains_key(#[trigger] es[i].0) && m[es[i].0] == es[i].1
            &&& forall|k: Seq<u8>|
                m.contains_key(k) ==> exists|i: int| 0 <= i < es.len() && #[trigger] es[i].0 == k
        }
}

/// After a PUT of `value` under `key`, reading `key` gives `value`.
pub proof fn lemma_put_then_get(log: Seq<u8>, key: Seq<u8>, value: Seq<u8>)
    requires
        replay_spec(log) is Ok,
        key.len() <= u32::MAX,
        value.len() <= u32::MAX,
        log.len() + put_record(key, value).len() <= u64::MAX,
    ensures
        replay_spec(log + put_record(key, value)) is Ok,
        log_contents(log + put_record(key, value)).get(key) == Some(value),
{
    lemma_contents_put(log, key, value);
}

/// Of two PUTs under one key, the later one wins.
pub proof fn lemma_last_write_wins(log: Seq<u8>, key: Seq<u8>, v1: Seq<u8>, v2: Seq<u8>)
    requires
        replay_spec(log) is Ok,
        key.len() <= u32::MAX,
        v1.len() <= u32::MAX,
        v2.len() <= u32::MAX,
        log.len() + put_record(key, v1).len() + put_record(key, v2).len() <= u64::MAX,
    ensures
        log_contents(log + put_record(key, v1) + put_record(key, v2)).get(key) == Some(v2),
{
    lemma_contents_put(log, key, v1);
    lemma_contents_put(log + put_record(key, v1), key, v2);
}

/// After a DELETE of `key`, reading `key` finds nothing, whatever was put before.
pub proof fn lemma_delete_then_get(log: Seq<u8>, key: Seq<u8>)
    requires
        replay_spec(log) is Ok,
        key.len() <= u32::MAX,
    ensures
        replay_spec(log + delete_record(key)) is Ok,
        log_contents(log + delete_record(key)).get(key) == None::<Seq<u8>>,
{
    lemma_contents_delete(log, key);
}

/// Deleting a key that is absent succeeds, changes nothing that the log holds, and
/// the key stays absent.
pub proof fn lemma_delete_absent(log: Seq<u8>, key: Seq<u8>)
    requires
        replay_spec(log) is Ok,
        key.len() <= u32::MAX,
        !log_contents(log).contains_key(key),
    ensures
        replay_spec(log + delete_record(key)) is Ok,
        log_contents(log + delete_record(key)) == log_contents(log),
        !log_contents(log + delete_record(key)).contains_key(key),
{
    lemma_contents_delete(log, key);
    assert(log_contents(log).remove(key) =~= log_contents(log));
}

/// A key-value store over an append-only log, with an index rebuilt from the log.
pub struct KvStore {
    wal: Wal,
    index: Index,
}

impl View for KvStore {
    type V = Map<Seq<u8>, Seq<u8>>;

    /// What the store holds: each live key with its latest value.
    open spec fn view(&self) -> Map<Seq<u8>, Seq<u8>> {
        log_contents(self.log())
    }
}

impl KvStore {
    /// The bytes of the store's log.
    pub closed spec fn log(&self) -> Seq<u8> {
        self.wal@
    }

    /// The index is the one that replaying the log gives.
    pub closed spec fn wf(&self) -> bool {
        &&& self.index.wf()
        &&& replay_spec(self.wal@) == Ok::<_, LogError>(self.index@)
    }

    /// The store whose log holds `data`, with the index rebuilt by replaying it;
    /// the replay's error where the log is corrupt.
    pub fn open(data: Vec<u8>) -> (r: Result<KvStore, LogError>)
        ensures
            match r {
                Ok(s) => s.wf() && s.log() == data@ && s@ == log_contents(data@),
                Err(e) => replay_spec(data@) == Err::<Map<Seq<u8>, LogPointer>, _>(e),
            },
    {
        let wal = Wal::open(data);
        match wal.replay() {
            Ok(index) => Ok(KvStore { wal, index }),
            Err(e) => Err(e),
        }
    }

    /// The store's index, as a map from key to pointer.
    pub closed spec fn index_view(&self) -> Map<Seq<u8>, LogPointer> {
        self.index@
    }

    /// Reopening a store from its log recovers it: the replay succeeds and yields
    /// the very index the store holds, so every key reads as it did before.
    pub proof fn lemma_recovery(&self)
        requires
            self.wf(),
        ensures
            replay_spec(self.log()) == Ok::<_, LogError>(self.index_view()),
            log_contents(self.log()) == self@,
            forall|k: Seq<u8>|
                #[trigger] self@.contains_key(k) ==> self.index_view().contains_key(k) && self@[k]
                    == value_at(self.log(), self.index_view()[k]),
    {
    }

    /// The bytes of the store's log, as they stand on disk once flushed.
    pub fn log_bytes(&self) -> (r: &[u8])
        ensures
            r@ == self.log(),
    {
        self.wal.as_bytes()
    }

    /// Stores `value` under `key`: appends a PUT record, then points the index at
    /// the new value.
    pub fn put(&mut self, key: Vec<u8>, value: Vec<u8>)
        requires
            old(self).wf(),
            key@.len() <= u32::MAX,
            value@.len() <= u32::MAX,
        ensures
            final(self).wf(),
            final(self).log() == old(self).log() + put_record(key@, value@),
            final(self)@ == old(self)@.insert(key@, value@),
    {
        self.wal.append_put(key.as_slice(), value.as_slice());
        let n = self.wal.len();
        proof {
            lemma_contents_put(old(self).wal@, key@, value@);
        }
        let p = LogPointer { offset: (n - value.len()) as u64, value_len: value.len() as u32 };
        self.index.insert(key, p);
    }

    /// The latest value stored under `key`; `None` where the key is absent.
    pub fn get(&self, key: &[u8]) -> (r: Option<Vec<u8>>)
        requires
            self.wf(),
        ensures
            match r {
                Some(v) => self@.contains_key(key@) && v@ == self@[key@],
                None => !self@.contains_key(key@),
            },
    {
        match self.index.get(key) {
            Some(p) => {
                proof {
                    lemma_replay_within(self.wal@, 0, Map::empty());
                    assert(self.index@.contains_key(key@));
                }
                self.wal.read_val(p.offset, p.value_len)
            },
            None => None,
        }
    }

    /// Removes `key`: appends a DELETE record, then drops the key from the index.
    /// Removing an absent key is no error.
    pub fn delete(&mut self, key: &[u8])
        requires
            old(self).wf(),
            key@.len() <= u32::MAX,
        ensures
            final(self).wf(),
            final(self).log() == old(self).log() + delete_record(key@),
            final(self)@ == old(self)@.remove(key@),
    {
        self.wal.append_del(key);
        proof {
            lemma_contents_delete(old(self).wal@, key@);
        }
        self.index.remove(key);
    }

    /// Rewrites the log so that it holds one PUT record per live key and nothing
    /// else, then rebuilds the index by replaying the new log. What the store
    /// holds does not change.
    pub fn compact(&mut self)
        requires
            old(self).wf(),
        ensures
            final(self).wf(),
            final(self)@ == old(self)@,
            is_compacted_log(final(self).log(), old(self)@),
            final(self).log().len() <= old(self).log().len(),
    {
        let ghost live = self@;
        let ghost entries = self.index.entry_seq();
        proof {
            self.index.lemma_entries();
            lemma_replay_within(self.wal@, 0, Map::empty());
            lemma_live_size_empty();
            lemma_replay_size(self.wal@, 0, Map::empty());
        }
        let n = self.index.len();
        let mut target = Wal::open(Vec::new());
        let ghost mut es: Seq<(Seq<u8>, Seq<u8>)> = Seq::empty();
        proof {
            assert(log_contents(target@) =~= Map::empty());
            let done = Set::new(|k: Seq<u8>| exists|j: int| 0 <= j < 0 && es[j].0 == k);
            assert(done =~= Set::empty());
            assert(live.restrict(done) =~= Map::empty());
            assert(self.index@.restrict(done) =~= Map::empty());
        }
        let mut i: usize = 0;
        while i < n
            invariant
                self.wf(),
                self@ == live,
                self.index.entry_seq() == entries,
                entries.len() == n,
                n == self.index@.dom().len(),
                forall|k: Seq<u8>| live.contains_key(k) <==> self.index@.contains_key(k),
                pointers_within(self.index@, self.wal@.len() as int),
                keys_bounded(self.index@),
                crate::index::keys_distinct(entries),
                forall|k: Seq<u8>|
                    self.index@.contains_key(k) <==> exists|j: int|
                        0 <= j < entries.len() && #[trigger] entries[j].0 == k,
                i <= n,
                es.len() == i,
                forall|j: int|
                    0 <= j < i ==> (#[trigger] es[j]).0 == entries[j].0 && live.contains_key(es[j].0)
                        && live[es[j].0] == es[j].1,
                target@ == put_records(es),
                replay_spec(target@) is Ok,
                log_contents(target@) == live.restrict(
                    Set::new(|k: Seq<u8>| exists|j: int| 0 <= j < i && es[j].0 == k),
                ),
                self.index@.dom().finite(),
                target@.len() == live_size(
                    self.index@.restrict(
                        Set::new(|k: Seq<u8>| exists|j: int| 0 <= j < i && es[j].0 == k),
                    ),
                ),
            decreases n - i,
        {
            let (key, p) = self.index.entry(i);
            proof {
                assert(self.index@.contains_key(key@));
            }
            // every pointer of the index lies inside the log, so the read succeeds
            let value = match self.wal.read_val(p.offset, p.value_len) {
                Some(v) => v,
                None => Vec::new(),
            };
            target.append_put(key.as_slice(), value.as_slice());
            // bounds the new log's length, which the record's pointer needs
            let _len = target.len();
            proof {
                let b = put_records(es);
                lemma_contents_put(b, key@, value@);
                assert(value@ == live[key@]);
                let es2 = es.push((key@, value@));
                assert(es2.drop_last() =~= es);
                let done = Set::new(|k: Seq<u8>| exists|j: int| 0 <= j < i && es[j].0 == k);
                let done2 = Set::new(|k: Seq<u8>| exists|j: int| 0 <= j < i + 1 && es2[j].0 == k);
                assert(done2 =~= done.insert(key@)) by {
                    assert(es2[i as int].0 == key@);
                    assert forall|k: Seq<u8>| done.contains(k) implies done2.contains(k) by {
                        let j = choose|j: int| 0 <= j < i && es[j].0 == k;
                        assert(es2[j].0 == k);
                    }
                    assert forall|k: Seq<u8>| done2.contains(k) implies done.insert(key@).contains(k) by {
                        let j = choose|j: int| 0 <= j < i + 1 && es2[j].0 == k;
                        if j < i {
                            assert(es[j].0 == k);
                        }
                    }
                }
                assert(live.restrict(done2) =~= live.restrict(done).insert(key@, value@));
                assert(!done.contains(key@)) by {
                    if done.contains(key@) {
                        let j = choose|j: int| 0 <= j < i && es[j].0 == key@;
                        assert(entries[j].0 == entries[i as int].0);
                    }
                }
                let before = self.index@.restrict(done);
                vstd::set_lib::lemma_set_subset_finite(self.index@.dom(), before.dom());
                lemma_live_size_insert(before, key@, p);
                assert(self.index@.restrict(done2) =~= before.insert(key@, p));
                es = es2;
            }
            i = i + 1;
        }
        proof {
            let done = Set::new(|k: Seq<u8>| exists|j: int| 0 <= j < i && es[j].0 == k);
            assert forall|k: Seq<u8>| live.contains_key(k) implies done.contains(k) by {
                assert(self.index@.contains_key(k));
                let j = choose|j: int| 0 <= j < entries.len() && #[trigger] entries[j].0 == k;
                assert(es[j].0 == k);
            }
            assert(live.restrict(done) =~= live);
            assert(self.index@.restrict(done) =~= self.index@);
            assert forall|a: int, b: int| 0 <= a < b < es.len() implies es[a].0 != es[b].0 by {
                assert(es[a].0 == entries[a].0);
                assert(es[b].0 == entries[b].0);
            }
            assert forall|k: Seq<u8>| live.contains_key(k) implies exists|j: int|
                0 <= j < es.len() && #[trigger] es[j].0 == k by {
                assert(self.index@.contains_key(k));
                let j = choose|j: int| 0 <= j < entries.len() && #[trigger] entries[j].0 == k;
                assert(es[j].0 == k);
            }
            assert(live.dom() =~= self.index@.dom());
            assert(is_compacted_log(target@, live));
        }
        match target.replay() {
            Ok(index) => {
                self.wal = target;
                self.index = index;
            },
            Err(_) => {
                proof {
                    assert(false);
                }
            },
        }
    }
}

} // verus!

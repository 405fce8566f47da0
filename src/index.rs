//! The in-memory index: for each live key, where its value lies in the log.
use vstd::prelude::*;

verus! {

/// Where the bytes of a value lie in the log: `value_len` bytes from `offset`.
#[derive(Clone, Copy, Debug, PartialEq, Eq, Structural)]
pub struct LogPointer {
    pub offset: u64,
    pub value_len: u32,
}

/// The map that a sequence of (key, pointer) entries stands for; a later entry for
/// a key wins over an earlier one.
pub open spec fn entries_map(s: Seq<(Seq<u8>, LogPointer)>) -> Map<Seq<u8>, LogPointer>
    decreases s.len(),
{
    if s.len() == 0 {
        Map::empty()
    } else {
        entries_map(s.drop_last()).insert(s.last().0, s.last().1)
    }
}

/// No two entries share a key.
pub open spec fn keys_distinct(s: Seq<(Seq<u8>, LogPointer)>) -> bool {
    forall|i: int, j: int| 0 <= i < j < s.len() ==> s[i].0 != s[j].0
}

/// A mapping from keys to log pointers, one pointer per key.
pub struct Index {
    entries: Vec<(Vec<u8>, LogPointer)>,
}

pub open spec fn entry_view(e: (Vec<u8>, LogPointer)) -> (Seq<u8>, LogPointer) {
    (e.0@, e.1)
}

/// Whether `a` and `b` hold the same bytes.
pub fn bytes_eq(a: &[u8], b: &[u8]) -> (r: bool)
    ensures
        r == (a@ == b@),
{
    if a.len() != b.len() {
        return false;
    }
    let mut i: usize = 0;
    while i < a.len()
        invariant
            a@.len() == b@.len(),
            i <= a@.len(),
            a@.subrange(0, i as int) == b@.subrange(0, i as int),
        decreases a@.len() - i,
    {
        if a[i] != b[i] {
            assert(a@[i as int] != b@[i as int]);
            return false;
        }
        assert(a@.subrange(0, i + 1) =~= a@.subrange(0, i as int).push(a@[i as int]));
        assert(b@.subrange(0, i + 1) =~= b@.subrange(0, i as int).push(b@[i as int]));
        i = i + 1;
    }
    assert(a@ =~= a@.subrange(0, i as int));
    assert(b@ =~= b@.subrange(0, i as int));
    true
}

proof fn lemma_entries_map_contains(s: Seq<(Seq<u8>, LogPointer)>, k: Seq<u8>)
    ensures
        entries_map(s).contains_key(k) <==> exists|i: int| 0 <= i < s.len() && s[i].0 == k,
    decreases s.len(),
{
    if s.len() > 0 {
        lemma_entries_map_contains(s.drop_last(), k);
        if exists|i: int| 0 <= i < s.len() && s[i].0 == k {
            let i = choose|i: int| 0 <= i < s.len() && s[i].0 == k;
            if i < s.len() - 1 {
                assert(s.drop_last()[i].0 == k);
            }
        }
        if exists|i: int| 0 <= i < s.len() - 1 && s.drop_last()[i].0 == k {
            let i = choose|i: int| 0 <= i < s.len() - 1 && s.drop_last()[i].0 == k;
            assert(s[i].0 == k);
        }
    }
}

proof fn lemma_entries_map_at(s: Seq<(Seq<u8>, LogPointer)>, i: int)
    requires
        keys_distinct(s),
        0 <= i < s.len(),
    ensures
        entries_map(s).contains_key(s[i].0),
        entries_map(s)[s[i].0] == s[i].1,
    decreases s.len(),
{
    if i < s.len() - 1 {
        lemma_entries_map_at(s.drop_last(), i);
    }
}

proof fn lemma_entries_map_update(s: Seq<(Seq<u8>, LogPointer)>, i: int, p: LogPointer)
    requires
        keys_distinct(s),
        0 <= i < s.len(),
    ensures
        entries_map(s.update(i, (s[i].0, p))) == entries_map(s).insert(s[i].0, p),
    decreases s.len(),
{
    let t = s.update(i, (s[i].0, p));
    if i == s.len() - 1 {
        assert(t.drop_last() =~= s.drop_last());
    } else {
        assert(t.drop_last() =~= s.drop_last().update(i, (s[i].0, p)));
        lemma_entries_map_update(s.drop_last(), i, p);
    }
    assert(entries_map(t) =~= entries_map(s).insert(s[i].0, p));
}

proof fn lemma_entries_map_remove(s: Seq<(Seq<u8>, LogPointer)>, i: int)
    requires
        keys_distinct(s),
        0 <= i < s.len(),
    ensures
        entries_map(s.remove(i)) == entries_map(s).remove(s[i].0),
    decreases s.len(),
{
    let t = s.remove(i);
    if i == s.len() - 1 {
        assert(t =~= s.drop_last());
        lemma_entries_map_contains(s.drop_last(), s[i].0);
        assert(!entries_map(s.drop_last()).contains_key(s[i].0));
    } else {
        assert(t.drop_last() =~= s.drop_last().remove(i));
        lemma_entries_map_remove(s.drop_last(), i);
        assert(t.last() == s.last());
    }
    assert(entries_map(t) =~= entries_map(s).remove(s[i].0));
}

impl View for Index {
    type V = Map<Seq<u8>, LogPointer>;

    open spec fn view(&self) -> Map<Seq<u8>, LogPointer> {
        entries_map(self.entry_seq())
    }
}

impl Index {
    /// The entries as plain sequences.
    pub closed spec fn entry_seq(&self) -> Seq<(Seq<u8>, LogPointer)> {
        self.entries@.map_values(|e: (Vec<u8>, LogPointer)| entry_view(e))
    }

    /// One entry per key.
    pub closed spec fn wf(&self) -> bool {
        keys_distinct(self.entry_seq())
    }

    /// Number of keys in the index.
    pub closed spec fn len_spec(&self) -> nat {
        self.entries@.len()
    }

    /// The index that maps no key.
    pub fn new() -> (r: Index)
        ensures
            r.wf(),
            r@ == Map::<Seq<u8>, LogPointer>::empty(),
            r.len_spec() == 0,
    {
        let r = Index { entries: Vec::new() };
        assert(r.entry_seq() =~= Seq::empty());
        r
    }

    proof fn lemma_len(&self)
        requires
            self.wf(),
        ensures
            self@.dom().len() == self.len_spec(),
            self@.dom().finite(),
        decreases self.entries@.len(),
    {
        lemma_dom_len(self.entry_seq());
    }

    fn find(&self, key: &[u8]) -> (r: Option<usize>)
        requires
            self.wf(),
        ensures
            match r {
                Some(i) => i < self.entries@.len() && self.entries@[i as int].0@ == key@,
                None => !self@.contains_key(key@),
            },
    {
        let mut i: usize = 0;
        while i < self.entries.len()
            invariant
                i <= self.entries@.len(),
                forall|j: int| 0 <= j < i ==> self.entries@[j].0@ != key@,
            decreases self.entries@.len() - i,
        {
            if bytes_eq(self.entries[i].0.as_slice(), key) {
                return Some(i);
            }
            i = i + 1;
        }
        proof {
            lemma_entries_map_contains(self.entry_seq(), key@);
        }
        None
    }

    /// The entries hold each key of the index exactly once.
    pub proof fn lemma_entries(&self)
        requires
            self.wf(),
        ensures
            keys_distinct(self.entry_seq()),
            self@.dom().finite(),
            self@.dom().len() == self.entry_seq().len(),
            forall|k: Seq<u8>|
                self@.contains_key(k) <==> exists|i: int|
                    0 <= i < self.entry_seq().len() && #[trigger] self.entry_seq()[i].0 == k,
    {
        self.lemma_len();
        assert forall|k: Seq<u8>|
            self@.contains_key(k) <==> exists|i: int|
                0 <= i < self.entry_seq().len() && #[trigger] self.entry_seq()[i].0 == k by {
            lemma_entries_map_contains(self.entry_seq(), k);
        }
    }

    /// The pointer for `key`, if the index holds one.
    pub fn get(&self, key: &[u8]) -> (r: Option<LogPointer>)
        requires
            self.wf(),
        ensures
            r == self@.get(key@),
    {
        match self.find(key) {
            Some(i) => {
                proof {
                    lemma_entries_map_at(self.entry_seq(), i as int);
                }
                Some(self.entries[i].1)
            },
            None => None,
        }
    }

    /// Maps `key` to `p`, replacing the pointer it had.
    pub fn insert(&mut self, key: Vec<u8>, p: LogPointer)
        requires
            old(self).wf(),
        ensures
            final(self).wf(),
            final(self)@ == old(self)@.insert(key@, p),
    {
        match self.find(key.as_slice()) {
            Some(i) => {
                let ghost s = self.entry_seq();
                proof {
                    lemma_entries_map_update(s, i as int, p);
                }
                self.entries.set(i, (key, p));
                assert(self.entry_seq() =~= s.update(i as int, (s[i as int].0, p)));
            },
            None => {
                let ghost s = self.entry_seq();
                proof {
                    lemma_entries_map_contains(s, key@);
                }
                let ghost kv = key@;
                self.entries.push((key, p));
                assert(self.entry_seq() =~= s.push((kv, p)));
                assert(self.entry_seq().drop_last() =~= s);
            },
        }
    }

    /// Takes `key` out of the index; nothing changes where it is absent.
    pub fn remove(&mut self, key: &[u8])
        requires
            old(self).wf(),
        ensures
            final(self).wf(),
            final(self)@ == old(self)@.remove(key@),
    {
        match self.find(key) {
            Some(i) => {
                let ghost s = self.entry_seq();
                proof {
                    lemma_entries_map_remove(s, i as int);
                }
                self.entries.remove(i);
                assert(self.entry_seq() =~= s.remove(i as int));
            },
            None => {
                assert(self@ =~= old(self)@.remove(key@));
            },
        }
    }

    /// Number of keys in the index.
    pub fn len(&self) -> (r: usize)
        requires
            self.wf(),
        ensures
            r == self@.dom().len(),
    {
        proof {
            self.lemma_len();
        }
        self.entries.len()
    }

    /// The key and the pointer of the `i`-th entry; the entries hold every key once,
    /// in an order that is not specified.
    pub fn entry(&self, i: usize) -> (r: (&Vec<u8>, LogPointer))
        requires
            self.wf(),
            i < self@.dom().len(),
        ensures
            self@.contains_key(r.0@),
            self@[r.0@] == r.1,
            r.0@ == self.entry_seq()[i as int].0,
    {
        proof {
            self.lemma_len();
            lemma_entries_map_at(self.entry_seq(), i as int);
        }
        (&self.entries[i].0, self.entries[i].1)
    }
}

proof fn lemma_dom_len(s: Seq<(Seq<u8>, LogPointer)>)
    requires
        keys_distinct(s),
    ensures
        entries_map(s).dom().finite(),
        entries_map(s).dom().len() == s.len(),
    decreases s.len(),
{
    if s.len() > 0 {
        lemma_dom_len(s.drop_last());
        lemma_entries_map_contains(s.drop_last(), s.last().0);
        assert(!entries_map(s.drop_last()).contains_key(s.last().0));
    }
}

} // verus!

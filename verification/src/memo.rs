//! The transposition table: which node of a search stands for which board.
//!
//! Boards are remembered under their canonical encoding. The table is a
//! fixed array of buckets; a key goes to the bucket that its digest names.

use vstd::prelude::*;

verus! {

/// Number of buckets of a table.
pub const BUCKETS: usize = 65_536;

/// One step of the digest: the digest so far and the next byte of the key.
pub open spec fn mix(h: u64, b: u8) -> u64 {
    h.wrapping_mul(1_099_511_628_211u64).wrapping_add(b as u64)
}

/// Digest of a key.
pub open spec fn digest(key: Seq<u8>) -> u64
    decreases key.len(),
{
    if key.len() == 0 {
        14_695_981_039_346_656_037u64
    } else {
        mix(digest(key.drop_last()), key.last())
    }
}

/// The bucket that a key goes to.
pub open spec fn slot(key: Seq<u8>) -> int {
    digest(key) as int % (BUCKETS as int)
}

/// A key and the node that stands for it.
#[derive(Debug)]
pub struct Entry {
    /// The key.
    pub key: Vec<u8>,
    /// The number of the node.
    pub id: usize,
}

/// A map from keys to nodes.
pub struct TranspositionTable {
    /// The entries, each in the bucket of its key.
    pub buckets: Vec<Vec<Entry>>,
    /// The map that the entries make up.
    pub model: Ghost<Map<Seq<u8>, usize>>,
}

impl View for TranspositionTable {
    type V = Map<Seq<u8>, usize>;

    open spec fn view(&self) -> Map<Seq<u8>, usize> {
        self.model@
    }
}

/// Some entry of the bucket has the key.
pub open spec fn listed(bucket: Seq<Entry>, key: Seq<u8>) -> bool {
    exists|j: int| 0 <= j < bucket.len() && (#[trigger] bucket[j]).key@ == key
}

impl TranspositionTable {
    /// The buckets hold exactly what the map holds, each key in its bucket.
    pub open spec fn wf(&self) -> bool {
        &&& self.buckets@.len() == BUCKETS
        &&& forall|b: int, j: int|
            0 <= b < BUCKETS && 0 <= j < self.buckets@[b]@.len() ==> {
                let e = #[trigger] self.buckets@[b]@[j];
                &&& slot(e.key@) == b
                &&& self@.contains_key(e.key@)
                &&& self@[e.key@] == e.id
            }
        &&& forall|k: Seq<u8>| #[trigger]
            self@.contains_key(k) ==> listed(self.buckets@[slot(k)]@, k)
    }

    /// The table without any key.
    pub fn new() -> (t: TranspositionTable)
        ensures
            t.wf(),
            t@ == Map::<Seq<u8>, usize>::empty(),
    {
        let mut buckets: Vec<Vec<Entry>> = Vec::new();
        let mut b: usize = 0;
        while b < BUCKETS
            invariant
                b <= BUCKETS,
                buckets@.len() == b,
                forall|i: int| 0 <= i < b ==> (#[trigger] buckets@[i])@.len() == 0,
            decreases BUCKETS - b,
        {
            buckets.push(Vec::new());
            b += 1;
        }
        TranspositionTable { buckets, model: Ghost(Map::empty()) }
    }

    /// The node that stands for the key, if the table holds the key.
    pub fn probe(&self, key: &Vec<u8>) -> (r: Option<usize>)
        requires
            self.wf(),
        ensures
            r == (if self@.contains_key(key@) {
                Some(self@[key@])
            } else {
                None
            }),
    {
        let b = bucket_of(key);
        let bucket = &self.buckets[b];
        let mut j: usize = 0;
        while j < bucket.len()
            invariant
                self.wf(),
                b == slot(key@),
                bucket@ == self.buckets@[b as int]@,
                j <= bucket@.len(),
                forall|i: int| 0 <= i < j ==> (#[trigger] bucket@[i]).key@ != key@,
            decreases bucket@.len() - j,
        {
            if same_key(&bucket[j].key, key) {
                let ghost e = self.buckets@[b as int]@[j as int];
                assert(self@[e.key@] == e.id);
                return Some(bucket[j].id);
            }
            j += 1;
        }
        proof {
            if self@.contains_key(key@) {
                assert(listed(self.buckets@[slot(key@)]@, key@));
            }
        }
        None
    }

    /// Looks the key up and, if the table does not hold it, lets `id` stand
    /// for it from now on. Returns the node that stands for the key after
    /// the call.
    pub fn get_or_insert(&mut self, key: Vec<u8>, id: usize) -> (r: usize)
        requires
            old(self).wf(),
        ensures
            final(self).wf(),
            old(self)@.contains_key(key@) ==> r == old(self)@[key@] && final(self)@ == old(self)@,
            !old(self)@.contains_key(key@) ==> r == id && final(self)@ == old(self)@.insert(
                key@,
                id,
            ),
    {
        match self.probe(&key) {
            Some(found) => found,
            None => {
                let b = bucket_of(&key);
                let ghost before = *self;
                let ghost k = key@;
                self.buckets[b].push(Entry { key, id });
                self.model = Ghost(before@.insert(k, id));
                proof {
                    assert forall|c: int, j: int|
                        0 <= c < BUCKETS && 0 <= j < self.buckets@[c]@.len() implies {
                        let e = #[trigger] self.buckets@[c]@[j];
                        &&& slot(e.key@) == c
                        &&& self@.contains_key(e.key@)
                        &&& self@[e.key@] == e.id
                    } by {
                        if c == b && j == before.buckets@[c]@.len() {
                        } else {
                            let e = before.buckets@[c]@[j];
                            assert(self.buckets@[c]@[j] == e);
                            assert(before@.contains_key(e.key@));
                        }
                    }
                    assert forall|q: Seq<u8>| #[trigger] self@.contains_key(q) implies listed(
                        self.buckets@[slot(q)]@,
                        q,
                    ) by {
                        if q == k {
                            assert(self.buckets@[b as int]@[before.buckets@[b as int]@.len() as int].key@
                                == k);
                        } else {
                            assert(before@.contains_key(q));
                            let j = choose|j: int|
                                0 <= j < before.buckets@[slot(q)]@.len() && (
                                #[trigger] before.buckets@[slot(q)]@[j]).key@ == q;
                            assert(self.buckets@[slot(q)]@[j].key@ == q);
                        }
                    }
                }
                id
            },
        }
    }
}

/// The digest of a key.
pub fn hash(key: &Vec<u8>) -> (h: u64)
    ensures
        h == digest(key@),
{
    let mut h: u64 = 14_695_981_039_346_656_037u64;
    let mut i: usize = 0;
    while i < key.len()
        invariant
            i <= key@.len(),
            h == digest(key@.take(i as int)),
        decreases key@.len() - i,
    {
        proof {
            assert(key@.take(i as int + 1).drop_last() =~= key@.take(i as int));
        }
        h = h.wrapping_mul(1_099_511_628_211u64).wrapping_add(key[i] as u64);
        i += 1;
    }
    assert(key@.take(i as int) =~= key@);
    h
}

/// The bucket that a key goes to.
pub fn bucket_of(key: &Vec<u8>) -> (b: usize)
    ensures
        b == slot(key@),
        b < BUCKETS,
{
    (hash(key) % 65_536u64) as usize
}

/// Whether two keys are the same.
pub fn same_key(a: &Vec<u8>, b: &Vec<u8>) -> (r: bool)
    ensures
        r == (a@ == b@),
{
    if a.len() != b.len() {
        return false;
    }
    let mut i: usize = 0;
    while i < a.len()
        invariant
            a@.len() == b@.len(),
            i <= a@.len(),
            forall|k: int| 0 <= k < i ==> a@[k] == b@[k],
        decreases a@.len() - i,
    {
        if a[i] != b[i] {
            return false;
        }
        i += 1;
    }
    assert(a@ =~= b@);
    true
}

} // verus!

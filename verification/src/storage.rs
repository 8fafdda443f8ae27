//! What the ring asks of a store: values kept under keys, both plain bytes.
//! A store that keeps them in memory is here; one that keeps them on disk is
//! brought by whoever runs the node.

use vstd::prelude::*;
use vstd::slice::slice_to_vec;
use crate::did::Did;
use crate::ring::PeerRing;
use crate::snapshot::{decoded, encoded, readable, restored, slot_list, RestoreError, Snapshot};

verus! {

/// A store failed to read or write.
#[derive(Clone, Copy, Debug, PartialEq, Eq, Structural)]
pub enum StorageError {
    /// The medium behind the store failed.
    Io,
}

/// A store of values under keys. Nothing is promised of what a store gives
/// back: one on disk may fail, or hold what another process wrote.
pub trait Storage {
    /// The value kept under `key`, if there is one.
    fn get(&self, key: &[u8]) -> Option<Vec<u8>>;

    /// Keeps `value` under `key`, in place of what was there.
    fn put(&mut self, key: &[u8], value: &[u8]) -> Result<(), StorageError>;

    /// Forgets what is kept under `key`.
    fn remove(&mut self, key: &[u8]) -> Result<(), StorageError>;

    /// The keys under which something is kept.
    fn list_keys(&self) -> Vec<Vec<u8>>;
}

/// Whether two runs of bytes are the same.
pub fn same_bytes(a: &[u8], b: &[u8]) -> (r: bool)
    ensures
        r == (a@ == b@),
{
    if a.len() != b.len() {
        return false;
    }
    let mut i: usize = 0;
    while i < a.len()
        invariant
            0 <= i <= a.len(),
            a@.len() == b@.len(),
            forall|j: int| 0 <= j < i ==> a@[j] == b@[j],
        decreases a.len() - i,
    {
        if a[i] != b[i] {
            return false;
        }
        i += 1;
    }
    assert(a@ =~= b@);
    true
}

/// A store in memory: what is put there stays until it is removed or the
/// store is dropped.
pub struct MemStorage {
    entries: Vec<(Vec<u8>, Vec<u8>)>,
}

/// Entry `i` of the list is kept under `key`.
pub open spec fn holds_at(entries: Seq<(Vec<u8>, Vec<u8>)>, key: Seq<u8>, i: int) -> bool {
    0 <= i < entries.len() && entries[i].0@ == key
}

/// No two entries share a key.
pub open spec fn distinct_keys(entries: Seq<(Vec<u8>, Vec<u8>)>) -> bool {
    forall|i: int, j: int|
        0 <= i < entries.len() && 0 <= j < entries.len() && i != j ==> (#[trigger] entries[i]).0@
            != (#[trigger] entries[j]).0@
}

/// The entries as a map from keys to values.
pub open spec fn as_map(entries: Seq<(Vec<u8>, Vec<u8>)>) -> Map<Seq<u8>, Seq<u8>> {
    Map::new(
        |k: Seq<u8>| exists|i: int| holds_at(entries, k, i),
        |k: Seq<u8>| entries[choose|i: int| holds_at(entries, k, i)].1@,
    )
}

impl View for MemStorage {
    type V = Map<Seq<u8>, Seq<u8>>;

    closed spec fn view(&self) -> Map<Seq<u8>, Seq<u8>> {
        as_map(self.entries@)
    }
}

impl MemStorage {
    #[verifier::type_invariant]
    spec fn distinct(&self) -> bool {
        distinct_keys(self.entries@)
    }

    /// A store that keeps nothing yet.
    pub fn new() -> (r: MemStorage)
        ensures
            r@ == Map::<Seq<u8>, Seq<u8>>::empty(),
    {
        let r = MemStorage { entries: Vec::new() };
        assert(r@ =~= Map::<Seq<u8>, Seq<u8>>::empty());
        r
    }

    /// How many keys hold a value.
    pub fn len(&self) -> (r: usize)
        ensures
            r == self@.dom().len(),
            self@.dom().finite(),
    {
        proof {
            use_type_invariant(self);
            lemma_map_size(self.entries@);
        }
        self.entries.len()
    }

    /// Where `key` stands among the entries, if it does.
    fn position(&self, key: &[u8]) -> (r: Option<usize>)
        ensures
            r matches Some(i) ==> holds_at(self.entries@, key@, i as int),
            r is None ==> !self@.contains_key(key@),
    {
        let mut i: usize = 0;
        while i < self.entries.len()
            invariant
                0 <= i <= self.entries.len(),
                forall|j: int| 0 <= j < i ==> !holds_at(self.entries@, key@, j),
            decreases self.entries.len() - i,
        {
            if same_bytes(self.entries[i].0.as_slice(), key) {
                return Some(i);
            }
            i += 1;
        }
        None
    }
}

/// A list with distinct keys holds as many entries as its map has keys.
pub proof fn lemma_map_size(entries: Seq<(Vec<u8>, Vec<u8>)>)
    requires
        distinct_keys(entries),
    ensures
        as_map(entries).dom().finite(),
        as_map(entries).dom().len() == entries.len(),
    decreases entries.len(),
{
    if entries.len() == 0 {
        assert(as_map(entries).dom() =~= Set::<Seq<u8>>::empty());
    } else {
        let rest = entries.drop_last();
        let last = entries.last();
        assert forall|i: int, j: int|
            0 <= i < rest.len() && 0 <= j < rest.len() && i != j implies (#[trigger] rest[i]).0@
            != (#[trigger] rest[j]).0@ by {
            assert(rest[i] == entries[i] && rest[j] == entries[j]);
        }
        lemma_map_size(rest);
        assert forall|k: Seq<u8>|
            as_map(entries).dom().contains(k) <==> as_map(rest).dom().insert(last.0@).contains(
                k,
            ) by {
            if as_map(entries).dom().contains(k) {
                let i = choose|i: int| holds_at(entries, k, i);
                if i < rest.len() {
                    assert(holds_at(rest, k, i));
                }
            }
            if as_map(rest).dom().contains(k) {
                let i = choose|i: int| holds_at(rest, k, i);
                assert(holds_at(entries, k, i));
            }
            if k == last.0@ {
                assert(holds_at(entries, k, entries.len() - 1));
            }
        }
        assert(as_map(entries).dom() =~= as_map(rest).dom().insert(last.0@));
        if as_map(rest).dom().contains(last.0@) {
            let i = choose|i: int| holds_at(rest, last.0@, i);
            assert(entries[i].0@ == entries[entries.len() - 1].0@);
            assert(false);
        }
    }
}

/// With distinct keys, the entry that holds a key is the one the map speaks
/// of.
pub proof fn lemma_map_value(entries: Seq<(Vec<u8>, Vec<u8>)>, key: Seq<u8>, i: int)
    requires
        distinct_keys(entries),
        holds_at(entries, key, i),
    ensures
        as_map(entries).contains_key(key),
        as_map(entries)[key] == entries[i].1@,
{
    let j = choose|j: int| holds_at(entries, key, j);
    if i != j {
        assert(entries[i].0@ != entries[j].0@);
    }
}

impl Storage for MemStorage {
    fn get(&self, key: &[u8]) -> (r: Option<Vec<u8>>)
        ensures
            self@.contains_key(key@) ==> (r matches Some(v) && v@ == self@[key@]),
            !self@.contains_key(key@) ==> r is None,
    {
        proof {
            use_type_invariant(self);
        }
        match self.position(key) {
            Some(i) => {
                proof {
                    lemma_map_value(self.entries@, key@, i as int);
                }
                Some(slice_to_vec(self.entries[i].1.as_slice()))
            },
            None => None,
        }
    }

    fn put(&mut self, key: &[u8], value: &[u8]) -> (r: Result<(), StorageError>)
        ensures
            r is Ok,
            final(self)@ == old(self)@.insert(key@, value@),
    {
        proof {
            use_type_invariant(&*self);
        }
        let ghost before = self.entries@;
        let entry = (slice_to_vec(key), slice_to_vec(value));
        let found = self.position(key);
        let mut entries: Vec<(Vec<u8>, Vec<u8>)> = Vec::new();
        core::mem::swap(&mut self.entries, &mut entries);
        match found {
            Some(i) => {
                entries.set(i, entry);
                proof {
                    let after = entries@;
                    assert forall|a: int, b: int|
                        0 <= a < after.len() && 0 <= b < after.len() && a != b implies (
                    #[trigger] after[a]).0@ != (#[trigger] after[b]).0@ by {
                        assert(after[a].0@ == before[a].0@ && after[b].0@ == before[b].0@);
                    }
                    lemma_put_map(before, after, key@, value@, i as int);
                }
            },
            None => {
                entries.push(entry);
                proof {
                    let after = entries@;
                    assert forall|a: int, b: int|
                        0 <= a < after.len() && 0 <= b < after.len() && a != b implies (
                    #[trigger] after[a]).0@ != (#[trigger] after[b]).0@ by {
                        if a < before.len() {
                            assert(after[a] == before[a]);
                            assert(!holds_at(before, key@, a));
                        }
                        if b < before.len() {
                            assert(after[b] == before[b]);
                            assert(!holds_at(before, key@, b));
                        }
                    }
                    lemma_put_map(before, after, key@, value@, before.len() as int);
                }
            },
        }
        core::mem::swap(&mut self.entries, &mut entries);
        Ok(())
    }

    fn remove(&mut self, key: &[u8]) -> (r: Result<(), StorageError>)
        ensures
            r is Ok,
            final(self)@ == old(self)@.remove(key@),
    {
        proof {
            use_type_invariant(&*self);
        }
        let ghost before = self.entries@;
        let found = self.position(key);
        let mut entries: Vec<(Vec<u8>, Vec<u8>)> = Vec::new();
        core::mem::swap(&mut self.entries, &mut entries);
        match found {
            Some(i) => {
                entries.remove(i);
                proof {
                    let after = entries@;
                    assert forall|a: int| 0 <= a < after.len() implies #[trigger] after[a]
                        == before[if a < i { a } else { a + 1 }] by {}
                    assert forall|a: int, b: int|
                        0 <= a < after.len() && 0 <= b < after.len() && a != b implies (
                    #[trigger] after[a]).0@ != (#[trigger] after[b]).0@ by {
                        let a0 = if a < i { a } else { a + 1 };
                        let b0 = if b < i { b } else { b + 1 };
                        assert(before[a0].0@ != before[b0].0@);
                    }
                    assert forall|k: Seq<u8>| #[trigger]
                        as_map(after).contains_key(k) <==> (k != key@ && as_map(
                            before,
                        ).contains_key(k)) by {
                        if as_map(after).contains_key(k) {
                            let a = choose|a: int| holds_at(after, k, a);
                            let a0 = if a < i { a } else { a + 1 };
                            assert(holds_at(before, k, a0));
                            if k == key@ {
                                assert(before[a0].0@ != before[i as int].0@);
                            }
                        }
                        if k != key@ && as_map(before).contains_key(k) {
                            let b = choose|b: int| holds_at(before, k, b);
                            let a = if b < i { b } else { b - 1 };
                            assert(holds_at(after, k, a));
                        }
                    }
                    assert forall|k: Seq<u8>| #[trigger]
                        as_map(after).contains_key(k) implies as_map(after)[k] == as_map(
                        before,
                    )[k] by {
                        let a = choose|a: int| holds_at(after, k, a);
                        let a0 = if a < i { a } else { a + 1 };
                        lemma_map_value(after, k, a);
                        lemma_map_value(before, k, a0);
                    }
                    assert(as_map(after) =~= as_map(before).remove(key@));
                }
            },
            None => {
                assert(as_map(before) =~= as_map(before).remove(key@));
            },
        }
        core::mem::swap(&mut self.entries, &mut entries);
        Ok(())
    }

    fn list_keys(&self) -> (r: Vec<Vec<u8>>)
        ensures
            r@.len() == self@.dom().len(),
            forall|i: int| 0 <= i < r@.len() ==> self@.contains_key(#[trigger] r@[i]@),
            forall|k: Seq<u8>|
                self@.contains_key(k) ==> exists|i: int| 0 <= i < r@.len() && #[trigger] r@[i]@ == k,
            forall|i: int, j: int|
                0 <= i < r@.len() && 0 <= j < r@.len() && i != j ==> (#[trigger] r@[i])@ != (
                #[trigger] r@[j])@,
    {
        proof {
            use_type_invariant(self);
            lemma_map_size(self.entries@);
        }
        let mut out: Vec<Vec<u8>> = Vec::new();
        let mut i: usize = 0;
        while i < self.entries.len()
            invariant
                0 <= i <= self.entries.len(),
                out@.len() == i,
                forall|j: int| 0 <= j < i ==> (#[trigger] out@[j])@ == self.entries@[j].0@,
            decreases self.entries.len() - i,
        {
            out.push(slice_to_vec(self.entries[i].0.as_slice()));
            i += 1;
        }
        proof {
            assert forall|j: int| 0 <= j < out@.len() implies self@.contains_key(
                #[trigger] out@[j]@,
            ) by {
                assert(holds_at(self.entries@, out@[j]@, j));
            }
            assert forall|k: Seq<u8>| self@.contains_key(k) implies exists|j: int|
                0 <= j < out@.len() && #[trigger] out@[j]@ == k by {
                let j = choose|j: int| holds_at(self.entries@, k, j);
                assert(out@[j]@ == k);
            }
            assert forall|a: int, b: int|
                0 <= a < out@.len() && 0 <= b < out@.len() && a != b implies (#[trigger] out@[a])@
                != (#[trigger] out@[b])@ by {
                assert(self.entries@[a].0@ != self.entries@[b].0@);
            }
        }
        out
    }
}

/// Putting a value at the place of its key, or at the end where the key is
/// new, gives the map with that key set.
pub proof fn lemma_put_map(
    before: Seq<(Vec<u8>, Vec<u8>)>,
    after: Seq<(Vec<u8>, Vec<u8>)>,
    key: Seq<u8>,
    value: Seq<u8>,
    i: int,
)
    requires
        distinct_keys(before),
        distinct_keys(after),
        0 <= i <= before.len(),
        i < before.len() ==> before[i].0@ == key && after.len() == before.len(),
        i == before.len() ==> after.len() == before.len() + 1 && !as_map(before).contains_key(key),
        after[i].0@ == key,
        after[i].1@ == value,
        forall|j: int| 0 <= j < before.len() && j != i ==> after[j] == before[j],
    ensures
        as_map(after) == as_map(before).insert(key, value),
{
    let want = as_map(before).insert(key, value);
    assert(holds_at(after, key, i));
    assert forall|k: Seq<u8>| #[trigger] as_map(after).contains_key(k) <==> want.contains_key(
        k,
    ) by {
        if as_map(after).contains_key(k) && k != key {
            let a = choose|a: int| holds_at(after, k, a);
            assert(holds_at(before, k, a));
        }
        if as_map(before).contains_key(k) && k != key {
            let b = choose|b: int| holds_at(before, k, b);
            assert(holds_at(after, k, b));
        }
    }
    assert forall|k: Seq<u8>| #[trigger] as_map(after).contains_key(k) implies as_map(after)[k]
        == want[k] by {
        let a = choose|a: int| holds_at(after, k, a);
        lemma_map_value(after, k, a);
        if k == key {
            lemma_map_value(after, k, i);
        } else {
            assert(holds_at(before, k, a));
            lemma_map_value(before, k, a);
        }
    }
    assert(as_map(after) =~= want);
}

/// The key under which a ring's successors are kept: the letters of
/// "successors".
pub open spec fn successors_key_bytes() -> Seq<u8> {
    seq![115u8, 117u8, 99u8, 99u8, 101u8, 115u8, 115u8, 111u8, 114u8, 115u8]
}

/// The key under which a ring's predecessor is kept: the letters of
/// "predecessor".
pub open spec fn predecessor_key_bytes() -> Seq<u8> {
    seq![112u8, 114u8, 101u8, 100u8, 101u8, 99u8, 101u8, 115u8, 115u8, 111u8, 114u8]
}

/// The key under which a ring's successors are kept.
pub fn successors_key() -> (r: Vec<u8>)
    ensures
        r@ == successors_key_bytes(),
{
    let r: Vec<u8> = vec![115u8, 117u8, 99u8, 99u8, 101u8, 115u8, 115u8, 111u8, 114u8, 115u8];
    assert(r@ =~= successors_key_bytes());
    r
}

/// The key under which a ring's predecessor is kept.
pub fn predecessor_key() -> (r: Vec<u8>)
    ensures
        r@ == predecessor_key_bytes(),
        r@ != successors_key_bytes(),
{
    let r: Vec<u8> = vec![
        112u8,
        114u8,
        101u8,
        100u8,
        101u8,
        99u8,
        101u8,
        115u8,
        115u8,
        111u8,
        114u8,
    ];
    assert(r@ =~= predecessor_key_bytes());
    assert(predecessor_key_bytes().len() != successors_key_bytes().len());
    r
}

/// What was read of a ring from a store: the value under each of the two
/// keys, or no bytes where the store had none.
pub fn snapshot_of(successors: Option<Vec<u8>>, predecessor: Option<Vec<u8>>) -> (r: Snapshot)
    ensures
        r.successors@ == (match successors {
            Some(bytes) => bytes@,
            None => Seq::empty(),
        }),
        r.predecessor@ == (match predecessor {
            Some(bytes) => bytes@,
            None => Seq::empty(),
        }),
{
    let successors = match successors {
        Some(bytes) => bytes,
        None => Vec::new(),
    };
    let predecessor = match predecessor {
        Some(bytes) => bytes,
        None => Vec::new(),
    };
    Snapshot { successors, predecessor }
}

/// What a store holds of a ring, read as the store gives it: what `get`
/// returns under the key of the successors and under the key of the
/// predecessor, with no bytes where it returns nothing.
pub fn read_snapshot<S: Storage>(storage: &S) -> (r: Snapshot)
    ensures
        read_as(storage, r.successors@, r.predecessor@),
{
    let successors_key = successors_key();
    let predecessor_key = predecessor_key();
    let under_successors: &[u8] = successors_key.as_slice();
    let under_predecessor: &[u8] = predecessor_key.as_slice();
    let successors = storage.get(under_successors);
    let predecessor = storage.get(under_predecessor);
    proof {
        assert(call_ensures(S::get, (storage, under_successors), successors));
        assert(call_ensures(S::get, (storage, under_predecessor), predecessor));
        assert(store_gives(storage, successors_key_bytes(), successors));
        assert(store_gives(storage, predecessor_key_bytes(), predecessor));
    }
    snapshot_of(successors, predecessor)
}

/// Of two writes, the failure that came first, if one came.
pub fn first_failure(first: Result<(), StorageError>, second: Result<(), StorageError>) -> (r:
    Result<(), StorageError>)
    ensures
        r == (match first {
            Err(e) => Err::<(), StorageError>(e),
            Ok(()) => second,
        }),
{
    match first {
        Err(e) => Err(e),
        Ok(()) => second,
    }
}

impl PeerRing {
    /// Writes the ring to `storage`: one `put` of the successors under
    /// their key, then one `put` of the predecessor under its key, each as
    /// `snapshot` gives it. A failure of the store does not stop the node:
    /// both writes are tried, and the first failure is returned.
    pub fn flush<S: Storage>(&self, storage: &mut S) -> (r: Result<(), StorageError>)
        requires
            self.wf(),
        ensures
            exists|
                one: &mut S,
                two: &mut S,
                under_one: &[u8],
                under_two: &[u8],
                successors: &[u8],
                predecessor: &[u8],
                first: Result<(), StorageError>,
                second: Result<(), StorageError>,
            |
                {
                    &&& mut_ref_current(one) == *old(storage)
                    &&& mut_ref_future(one) == mut_ref_current(two)
                    &&& mut_ref_future(two) == *final(storage)
                    &&& under_one@ == successors_key_bytes()
                    &&& successors@ == encoded(self@.successors)
                    &&& under_two@ == predecessor_key_bytes()
                    &&& predecessor@ == encoded(slot_list(self@.predecessor))
                    &&& #[trigger] call_ensures(S::put, (one, under_one, successors), first)
                    &&& #[trigger] call_ensures(S::put, (two, under_two, predecessor), second)
                    &&& r == (match first {
                        Err(e) => Err::<(), StorageError>(e),
                        Ok(()) => second,
                    })
                },
    {
        let written = self.snapshot();
        let successors_key = successors_key();
        let predecessor_key = predecessor_key();
        let first = storage.put(successors_key.as_slice(), written.successors.as_slice());
        let second = storage.put(predecessor_key.as_slice(), written.predecessor.as_slice());
        first_failure(first, second)
    }

    /// Takes up the ring of node `did` from `storage` when the node starts:
    /// what `from_snapshot` makes of what the store gives under the two
    /// keys. Where that cannot be read, no ring is made.
    pub fn restore<S: Storage>(did: Did, capacity: usize, storage: &S) -> (r: Result<
        PeerRing,
        RestoreError,
    >)
        ensures
            r matches Ok(ring) ==> ring.wf() && ring@.did == did && ring@.capacity == capacity,
            r matches Err(e) ==> e == RestoreError::Corrupt,
            exists|successors: Seq<u8>, predecessor: Seq<u8>|
                {
                    &&& #[trigger] read_as(storage, successors, predecessor)
                    &&& readable(successors, predecessor) ==> (r matches Ok(ring) && ring@
                        == restored(
                        did,
                        capacity as nat,
                        decoded(successors),
                        decoded(predecessor),
                    ))
                    &&& !readable(successors, predecessor) ==> r is Err
                },
    {
        let written = read_snapshot(storage);
        let r = PeerRing::from_snapshot(did, capacity, &written);
        proof {
            crate::theorems::lemma_restored_wf(
                did,
                capacity as nat,
                decoded(written.successors@),
                decoded(written.predecessor@),
            );
            assert(read_as(storage, written.successors@, written.predecessor@));
        }
        r
    }
}

/// The bytes that a store gave, or none where it gave nothing.
pub open spec fn bytes_of(found: Option<Vec<u8>>) -> Seq<u8> {
    match found {
        Some(bytes) => bytes@,
        None => Seq::empty(),
    }
}

/// `found` is what the store's `get` returns under `key`.
pub open spec fn store_gives<S: Storage>(storage: &S, key: Seq<u8>, found: Option<Vec<u8>>) -> bool {
    exists|k: &[u8]| k@ == key && #[trigger] call_ensures(S::get, (storage, k), found)
}

/// The two runs of bytes are what the store gives of a ring: its `get`
/// under the key of the successors and under the key of the predecessor,
/// with no bytes where it returns nothing.
pub open spec fn read_as<S: Storage>(storage: &S, successors: Seq<u8>, predecessor: Seq<u8>) -> bool {
    exists|a: Option<Vec<u8>>, b: Option<Vec<u8>>|
        {
            &&& #[trigger] store_gives(storage, successors_key_bytes(), a)
            &&& #[trigger] store_gives(storage, predecessor_key_bytes(), b)
            &&& successors == bytes_of(a)
            &&& predecessor == bytes_of(b)
        }
}

} // verus!

//! The storage abstraction that the request plane consumes, and its one
//! engine: a hash-indexed store held in memory.

use crate::text::{le, same_text, text_le};
use vstd::hash_map::StringHashMap;
use vstd::prelude::*;
use vstd::string::*;

verus! {

/// The pairs of `contents` whose key lies between `start` and `end`, both
/// ends included, keys compared as byte strings.
pub open spec fn in_range(key: Seq<char>, start: Seq<char>, end: Seq<char>) -> bool {
    text_le(start, key) && text_le(key, end)
}

/// Whether `listing` holds, each once and in any order, exactly the pairs of
/// `contents` whose key lies in the range.
pub open spec fn lists_range(
    listing: Seq<(Seq<char>, Seq<char>)>,
    contents: Map<Seq<char>, Seq<char>>,
    start: Seq<char>,
    end: Seq<char>,
) -> bool {
    &&& forall|i: int|
        0 <= i < listing.len() ==> {
            &&& contents.contains_key((#[trigger] listing[i]).0)
            &&& contents[listing[i].0] == listing[i].1
            &&& in_range(listing[i].0, start, end)
        }
    &&& forall|i: int, j: int|
        0 <= i < j < listing.len() ==> (#[trigger] listing[i]).0 != (#[trigger] listing[j]).0
    &&& forall|k: Seq<char>|
        #[trigger] contents.contains_key(k) && in_range(k, start, end) ==> exists|i: int|
            0 <= i < listing.len() && (#[trigger] listing[i]).0 == k
}

/// `contents` after the pairs were put one after the other, later pairs
/// overwriting earlier ones.
pub open spec fn put_all(
    contents: Map<Seq<char>, Seq<char>>,
    pairs: Seq<(Seq<char>, Seq<char>)>,
) -> Map<Seq<char>, Seq<char>>
    decreases pairs.len(),
{
    if pairs.len() == 0 {
        contents
    } else {
        put_all(contents, pairs.drop_last()).insert(pairs.last().0, pairs.last().1)
    }
}

/// What a storage engine offers to the request plane.
pub trait Storage {
    /// The mapping from key to value that the engine holds.
    spec fn contents(&self) -> Map<Seq<char>, Seq<char>>;

    /// The engine's own consistency; every operation keeps it.
    spec fn valid(&self) -> bool;

    /// Whether `put`, `batch_put` and `read_key_by_range` always succeed.
    spec fn never_fails(&self) -> bool;

    /// Stores `value` under `key`, replacing what was there.
    fn put(&mut self, key: String, value: String) -> (r: Result<(), String>)
        requires
            old(self).valid(),
        ensures
            final(self).valid(),
            final(self).never_fails() == old(self).never_fails(),
            old(self).never_fails() ==> r is Ok,
            r is Ok ==> final(self).contents() == old(self).contents().insert(key@, value@),
    ;

    /// The value under `key`; fails exactly when there is none.
    fn read(&self, key: &String) -> (r: Result<String, String>)
        requires
            self.valid(),
        ensures
            match r {
                Ok(value) => self.contents().contains_key(key@) && value@ == self.contents()[key@],
                Err(reason) => !self.contents().contains_key(key@) && reason@
                    == "Key not found"@,
            },
    ;

    /// The pairs whose key lies between `start` and `end`, in no stated order.
    fn read_key_by_range(&self, start: &String, end: &String) -> (r: Result<
        Vec<(String, String)>,
        String,
    >)
        requires
            self.valid(),
        ensures
            self.never_fails() ==> r is Ok,
            r matches Ok(pairs) ==> lists_range(pairs.deep_view(), self.contents(), start@, end@),
    ;

    /// Stores every pair, in order.
    fn batch_put(&mut self, entries: Vec<(String, String)>) -> (r: Result<(), String>)
        requires
            old(self).valid(),
        ensures
            final(self).valid(),
            final(self).never_fails() == old(self).never_fails(),
            old(self).never_fails() ==> r is Ok,
            r is Ok ==> final(self).contents() == put_all(
                old(self).contents(),
                entries.deep_view(),
            ),
    ;

    /// Removes `key`; fails, and changes nothing, exactly when it is absent.
    fn delete(&mut self, key: &String) -> (r: Result<(), String>)
        requires
            old(self).valid(),
        ensures
            final(self).valid(),
            final(self).never_fails() == old(self).never_fails(),
            match r {
                Ok(_) => old(self).contents().contains_key(key@) && final(self).contents()
                    == old(self).contents().remove(key@),
                Err(reason) => !old(self).contents().contains_key(key@) && final(self).contents()
                    == old(self).contents() && reason@ == "Key not found"@,
            },
    ;
}

/// The engine in memory: the pairs in a vector, and a hash index from each
/// key to the slot that holds it.
pub struct InMemoryStorage {
    slots: Vec<(String, String)>,
    index: StringHashMap<usize>,
}

impl InMemoryStorage {
    /// Every slot is indexed under its key, and the index names nothing else.
    pub closed spec fn consistent(&self) -> bool {
        &&& forall|i: int|
            0 <= i < self.slots.len() ==> self.index@.contains_key(
                (#[trigger] self.slots@[i]).0@,
            ) && self.index@[self.slots@[i].0@] == i
        &&& forall|k: Seq<char>| #[trigger]
            self.index@.contains_key(k) ==> self.index@[k] < self.slots.len()
                && self.slots@[self.index@[k] as int].0@ == k
    }

    /// The mapping that the slots hold.
    pub closed spec fn mapping(&self) -> Map<Seq<char>, Seq<char>> {
        Map::new(
            |k: Seq<char>| self.index@.contains_key(k),
            |k: Seq<char>| self.slots@[self.index@[k] as int].1@,
        )
    }

    /// An empty store.
    pub fn new() -> (store: Self)
        ensures
            store.valid(),
            store.never_fails(),
            store.contents() == Map::<Seq<char>, Seq<char>>::empty(),
    {
        let store = InMemoryStorage { slots: Vec::new(), index: StringHashMap::new() };
        assert(store.mapping() =~= Map::<Seq<char>, Seq<char>>::empty());
        store
    }
}

impl Storage for InMemoryStorage {
    open spec fn contents(&self) -> Map<Seq<char>, Seq<char>> {
        self.mapping()
    }

    open spec fn valid(&self) -> bool {
        self.consistent()
    }

    open spec fn never_fails(&self) -> bool {
        true
    }

    fn put(&mut self, key: String, value: String) -> (r: Result<(), String>) {
        let found = match self.index.get(key.as_str()) {
            Some(i) => Some(*i),
            None => None,
        };
        match found {
            Some(i) => {
                self.slots.set(i, (key, value));
            },
            None => {
                let n = self.slots.len();
                self.index.insert(key.clone(), n);
                self.slots.push((key, value));
            },
        }
        assert(self.mapping() =~= old(self).mapping().insert(key@, value@));
        Ok(())
    }

    fn read(&self, key: &String) -> (r: Result<String, String>) {
        match self.index.get(key.as_str()) {
            Some(i) => Ok(self.slots[*i].1.clone()),
            None => Err(String::from_str("Key not found")),
        }
    }

    fn read_key_by_range(&self, start: &String, end: &String) -> (r: Result<
        Vec<(String, String)>,
        String,
    >) {
        let mut result: Vec<(String, String)> = Vec::new();
        let ghost mut origin: Seq<int> = Seq::empty();
        let mut i: usize = 0;
        while i < self.slots.len()
            invariant
                i <= self.slots.len(),
                self.consistent(),
                origin.len() == result.len(),
                forall|j: int|
                    0 <= j < result.len() ==> {
                        &&& 0 <= #[trigger] origin[j] < i
                        &&& result@[j].0@ == self.slots@[origin[j]].0@
                        &&& result@[j].1@ == self.slots@[origin[j]].1@
                        &&& in_range(result@[j].0@, start@, end@)
                    },
                forall|a: int, b: int|
                    0 <= a < b < result.len() ==> #[trigger] origin[a] < #[trigger] origin[b],
                forall|s: int|
                    0 <= s < i && in_range((#[trigger] self.slots@[s]).0@, start@, end@)
                        ==> exists|j: int| 0 <= j < result.len() && #[trigger] origin[j] == s,
            decreases self.slots.len() - i,
        {
            let key = &self.slots[i].0;
            let ghost earlier = origin;
            if le(start.as_str(), key.as_str()) && le(key.as_str(), end.as_str()) {
                result.push((key.clone(), self.slots[i].1.clone()));
                proof {
                    origin = origin.push(i as int);
                }
            }
            proof {
                assert forall|s: int|
                    0 <= s < i + 1 && in_range(
                        (#[trigger] self.slots@[s]).0@,
                        start@,
                        end@,
                    ) implies exists|j: int| 0 <= j < result.len() && #[trigger] origin[j] == s by {
                    if s < i {
                        let j = choose|j: int| 0 <= j < earlier.len() && #[trigger] earlier[j] == s;
                        assert(origin[j] == s);
                    } else {
                        assert(origin[result.len() - 1] == s);
                    }
                }
            }
            i += 1;
        }
        proof {
            let listing = result.deep_view();
            assert forall|k: Seq<char>| #[trigger]
                self.mapping().contains_key(k) && in_range(k, start@, end@) implies exists|
                j: int,
            |
                0 <= j < listing.len() && (#[trigger] listing[j]).0 == k by {
                let s = self.index@[k] as int;
                assert(self.slots@[s].0@ == k);
                let j = choose|j: int| 0 <= j < result.len() && #[trigger] origin[j] == s;
                assert(listing[j].0 == k);
            }
            assert forall|a: int, b: int| 0 <= a < b < listing.len() implies (
            #[trigger] listing[a]).0 != (#[trigger] listing[b]).0 by {
                assert(origin[a] < origin[b]);
                assert(self.index@[self.slots@[origin[a]].0@] == origin[a]);
                assert(self.index@[self.slots@[origin[b]].0@] == origin[b]);
            }
            assert forall|j: int| 0 <= j < listing.len() implies {
                &&& self.mapping().contains_key((#[trigger] listing[j]).0)
                &&& self.mapping()[listing[j].0] == listing[j].1
                &&& in_range(listing[j].0, start@, end@)
            } by {
                assert(self.index@[self.slots@[origin[j]].0@] == origin[j]);
            }
        }
        Ok(result)
    }

    fn batch_put(&mut self, entries: Vec<(String, String)>) -> (r: Result<(), String>) {
        let mut i: usize = 0;
        while i < entries.len()
            invariant
                i <= entries.len(),
                self.consistent(),
                self.mapping() == put_all(old(self).mapping(), entries.deep_view().take(i as int)),
            decreases entries.len() - i,
        {
            let ghost upto = entries.deep_view().take(i + 1);
            assert(upto.drop_last() == entries.deep_view().take(i as int));
            let _ = self.put(entries[i].0.clone(), entries[i].1.clone());
            i += 1;
        }
        assert(entries.deep_view().take(entries.len() as int) == entries.deep_view());
        Ok(())
    }

    fn delete(&mut self, key: &String) -> (r: Result<(), String>) {
        let found = match self.index.get(key.as_str()) {
            Some(i) => Some(*i),
            None => None,
        };
        match found {
            None => Err(String::from_str("Key not found")),
            Some(i) => {
                let last = self.slots.len() - 1;
                if i != last {
                    let moved = self.slots[last].0.clone();
                    assert(moved@ != key@);
                    self.index.insert(moved, i);
                }
                self.slots.swap_remove(i);
                self.index.remove(key.as_str());
                assert(self.mapping() =~= old(self).mapping().remove(key@));
                Ok(())
            },
        }
    }
}

/// Selects the storage engine by its tag.
pub struct StorageBuilder {
    storage_type: String,
}

impl StorageBuilder {
    #[verifier::type_invariant]
    spec fn memory_only(&self) -> bool {
        self.storage_type@ == "memory"@
    }

    /// The tag of the engine that will be built.
    pub closed spec fn selected(&self) -> Seq<char> {
        self.storage_type@
    }

    /// Whether `storage_type` names an engine; the only one is `memory`.
    pub fn knows(storage_type: &str) -> (known: bool)
        ensures
            known == (storage_type@ == "memory"@),
    {
        same_text(storage_type, "memory")
    }

    /// A builder for the engine that `storage_type` names; a tag that names
    /// none selects the engine in memory.
    pub fn builder(storage_type: &str) -> (b: Self)
        ensures
            b.selected() == "memory"@,
    {
        StorageBuilder { storage_type: String::from_str("memory") }
    }

    /// The selected engine, empty.
    pub fn build(self) -> (engine: impl Storage)
        ensures
            engine.valid(),
            engine.never_fails(),
            engine.contents() == Map::<Seq<char>, Seq<char>>::empty(),
    {
        InMemoryStorage::new()
    }
}

} // verus!

//! The store capability: keyed, string-valued storage the accumulator uses
//! to persist node hashes and bookkeeping values.
//!
//! The accumulator assumes a single logical writer per store; it never
//! deletes, so the contract here covers lookup and upsert.  A trivial
//! in-memory backend is provided for tests and self-contained use; durable
//! backends implement the same trait.

use crate::errors::MmrError;
use vstd::prelude::*;

verus! {

/// The bookkeeping entries an accumulator keeps beside the node hashes.
#[derive(Debug, Clone, Copy, PartialEq, Eq, Structural)]
pub enum TreeMetadataKeys {
    LeafCount,
    ElementCount,
    RootHash,
}

/// A storage key: one node's hash, by 1-based node index, or one of the
/// bookkeeping entries.
#[derive(Debug, Clone, Copy, PartialEq, Eq, Structural)]
pub enum StoreKey {
    Node(u64),
    Meta(TreeMetadataKeys),
}

/// Keyed, string-valued storage.  `contents` is the mapping the store
/// currently holds; `get` and `set` are tied to it, so every caller's proof
/// carries over to any backend that honours this contract.
pub trait IStore: Sized {
    /// The key-value mapping the store currently holds.
    spec fn contents(&self) -> Map<StoreKey, Seq<char>>;

    /// Retrieve the value stored under `key`; `None` when the key is absent
    /// (absence is not an error).
    fn get(&self, key: &StoreKey) -> (r: Result<Option<String>, MmrError>)
        ensures
            r matches Ok(v) ==> match v {
                Some(s) => self.contents().contains_key(*key) && s@ == self.contents()[*key],
                None => !self.contents().contains_key(*key),
            },
            r matches Err(e) ==> e == MmrError::BackendFailure,
    ;

    /// Store `value` under `key`, replacing any previous value; on failure
    /// the contents are unchanged.
    fn set(&mut self, key: &StoreKey, value: &str) -> (r: Result<(), MmrError>)
        ensures
            r is Ok ==> final (self).contents() == old(self).contents().insert(*key, value@),
            r is Err ==> final (self).contents() == old(self).contents(),
            r matches Err(e) ==> e == MmrError::BackendFailure,
    ;
}

/// What a sequence of writes leaves behind: later writes win.
pub open spec fn entries_map(entries: Seq<(StoreKey, String)>) -> Map<StoreKey, Seq<char>>
    decreases entries.len(),
{
    if entries.len() == 0 {
        Map::empty()
    } else {
        entries_map(entries.drop_last()).insert(entries.last().0, entries.last().1@)
    }
}

/// A trivial in-memory backend: the write log itself, searched backward.
pub struct InMemoryStore {
    entries: Vec<(StoreKey, String)>,
}

impl InMemoryStore {
    /// An empty store.
    pub fn new() -> (s: Self)
        ensures
            s.contents() == Map::<StoreKey, Seq<char>>::empty(),
    {
        let s = InMemoryStore { entries: Vec::new() };
        proof {
            assert(s.entries@.len() == 0);
        }
        s
    }
}

impl IStore for InMemoryStore {
    closed spec fn contents(&self) -> Map<StoreKey, Seq<char>> {
        entries_map(self.entries@)
    }

    fn get(&self, key: &StoreKey) -> (r: Result<Option<String>, MmrError>) {
        let mut i = self.entries.len();
        proof {
            assert(self.entries@.take(i as int) =~= self.entries@);
        }
        while i > 0
            invariant
                i <= self.entries@.len(),
                entries_map(self.entries@).contains_key(*key) == entries_map(
                    self.entries@.take(i as int),
                ).contains_key(*key),
                entries_map(self.entries@).contains_key(*key) ==> entries_map(self.entries@)[*key]
                    == entries_map(self.entries@.take(i as int))[*key],
            decreases i,
        {
            i = i - 1;
            proof {
                assert(self.entries@.take(i + 1).drop_last() =~= self.entries@.take(i as int));
            }
            if self.entries[i].0 == *key {
                return Ok(Some(self.entries[i].1.clone()));
            }
        }
        proof {
            assert(self.entries@.take(0).len() == 0);
        }
        Ok(None)
    }

    fn set(&mut self, key: &StoreKey, value: &str) -> (r: Result<(), MmrError>) {
        let ghost old_entries = self.entries@;
        let pair = (*key, value.to_owned());
        self.entries.push(pair);
        proof {
            assert(self.entries@.drop_last() =~= old_entries);
        }
        Ok(())
    }
}

} // verus!

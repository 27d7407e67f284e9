//! A sorted source over entries held in memory.
use vstd::prelude::*;
use crate::key::{compare_keys, key_lt, lemma_key_lt_transitive};
use crate::source::{Entry, StorageIterator, strictly_ascending};

verus! {

/// The entries of `v` as keys and values.
pub open spec fn entries_of(v: Seq<(Vec<u8>, Vec<u8>)>) -> Seq<Entry> {
    v.map_values(|e: (Vec<u8>, Vec<u8>)| (e.0@, e.1@))
}

/// Steps through entries held in memory, in ascending key order.
pub struct MemTableIterator {
    entries: Vec<(Vec<u8>, Vec<u8>)>,
    pos: usize,
}

impl MemTableIterator {
    /// A source over `entries`, positioned at the first; `None` unless the
    /// keys are strictly ascending.
    pub fn create(entries: Vec<(Vec<u8>, Vec<u8>)>) -> (r: Option<Self>)
        ensures
            r is Some <==> strictly_ascending(entries_of(entries@)),
            r matches Some(it) ==> it.well_formed() && it.entries() == entries_of(entries@),
    {
        let ghost all = entries_of(entries@);
        let mut i: usize = 1;
        while i < entries.len()
            invariant
                all == entries_of(entries@),
                1 <= i,
                forall|a: int, b: int| 0 <= a < b < i && b < all.len() ==> key_lt(#[trigger] all[a].0, #[trigger] all[b].0),
            decreases entries@.len() - i,
        {
            let ascending: bool = match compare_keys(entries[i - 1].0.as_slice(), entries[i].0.as_slice()) {
                std::cmp::Ordering::Less => true,
                _ => false,
            };
            if !ascending {
                assert(!key_lt(all[i - 1].0, all[i as int].0));
                return None;
            }
            proof {
                assert forall|a: int, b: int| 0 <= a < b < i + 1 && b < all.len() implies key_lt(#[trigger] all[a].0, #[trigger] all[b].0) by {
                    if b == i && a < i - 1 {
                        lemma_key_lt_transitive(all[a].0, all[i - 1].0, all[b].0);
                    }
                }
            }
            i = i + 1;
        }
        let r = MemTableIterator { entries, pos: 0 };
        assert(r.entries() =~= all);
        Some(r)
    }
}

impl StorageIterator for MemTableIterator {
    closed spec fn entries(&self) -> Seq<Entry> {
        entries_of(self.entries@).skip(self.pos as int)
    }

    closed spec fn well_formed(&self) -> bool {
        &&& self.pos <= self.entries@.len()
        &&& strictly_ascending(entries_of(self.entries@))
    }

    proof fn lemma_ascending(&self) {
        let all = entries_of(self.entries@);
        let s = self.entries();
        assert forall|i: int, j: int| 0 <= i < j < s.len() implies key_lt(#[trigger] s[i].0, #[trigger] s[j].0) by {
            assert(s[i] == all[self.pos + i]);
            assert(s[j] == all[self.pos + j]);
        }
    }

    fn key(&self) -> (r: &[u8]) {
        self.entries[self.pos].0.as_slice()
    }

    fn value(&self) -> (r: &[u8]) {
        self.entries[self.pos].1.as_slice()
    }

    fn is_valid(&self) -> (r: bool) {
        self.pos < self.entries.len()
    }

    fn next(&mut self) -> (r: Result<(), anyhow::Error>) {
        let n: usize = self.entries.len();
        assert(entries_of(self.entries@).len() == n);
        self.pos = self.pos + 1;
        assert(final(self).entries() =~= old(self).entries().drop_first());
        Ok(())
    }
}

} // verus!

//! The capability that every sorted source offers: a current entry, and a
//! step to the next one.
use vstd::prelude::*;
use crate::key::key_lt;

verus! {

/// `anyhow::Error`, the error of a failed step, passed on unchanged.
#[verifier::external_type_specification]
#[verifier::external_body]
pub struct ExError(anyhow::Error);

/// A key and its value.
pub type Entry = (Seq<u8>, Seq<u8>);

/// Keys rise strictly from each entry to the next.
pub open spec fn strictly_ascending(s: Seq<Entry>) -> bool {
    forall|i: int, j: int| 0 <= i < j < s.len() ==> key_lt(#[trigger] s[i].0, #[trigger] s[j].0)
}

/// A sorted source of entries, read from its current position onwards.
pub trait StorageIterator {
    /// The entries not yet stepped past; the first is the current one.
    spec fn entries(&self) -> Seq<Entry>;

    /// The source's internal invariant.
    spec fn well_formed(&self) -> bool;

    /// A source yields its keys in strictly ascending order.
    proof fn lemma_ascending(&self)
        requires
            self.well_formed(),
        ensures
            strictly_ascending(self.entries()),
    ;

    /// The key of the current entry.
    fn key(&self) -> (r: &[u8])
        requires
            self.well_formed(),
            self.entries().len() > 0,
        ensures
            r@ == self.entries()[0].0,
    ;

    /// The value of the current entry.
    fn value(&self) -> (r: &[u8])
        requires
            self.well_formed(),
            self.entries().len() > 0,
        ensures
            r@ == self.entries()[0].1,
    ;

    /// Whether a current entry exists.
    fn is_valid(&self) -> (r: bool)
        requires
            self.well_formed(),
        ensures
            r == (self.entries().len() > 0),
    ;

    /// Steps past the current entry. On failure the source is left exhausted.
    fn next(&mut self) -> (r: Result<(), anyhow::Error>)
        requires
            old(self).well_formed(),
            old(self).entries().len() > 0,
        ensures
            final(self).well_formed(),
            r is Ok ==> final(self).entries() == old(self).entries().drop_first(),
            r is Err ==> final(self).entries().len() == 0,
    ;
}

} // verus!

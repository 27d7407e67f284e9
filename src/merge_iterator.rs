//! A merge of sorted sources into one sorted stream without repeated keys.
use vstd::prelude::*;
use crate::key::{compare_keys, key_lt};
use crate::merge_model::{all_ascending, is_live, leader, lemma_leader_unique, merged};
use crate::heap::{
    HeapWrapper, head_key, heap_ordered, heap_pop, heap_push, holds, items_match, lemma_contains_holds,
    lemma_holds_after_pop, lemma_push_contains, lemma_push_match, lemma_root_first, precedes,
};
use crate::source::{Entry, StorageIterator};

verus! {

/// Merges sources of one type. Where a key occurs in several sources, the
/// entry of the source with the lowest position wins and the others are
/// skipped.
pub struct MergeIterator<I: StorageIterator> {
    /// The live sources other than the current one, as a binary min-heap.
    iters: Vec<HeapWrapper<I>>,
    /// The source whose entry is exposed.
    current: Option<HeapWrapper<I>>,
    /// What remains of each source, by position.
    sources: Ghost<Seq<Seq<Entry>>>,
}

impl<I: StorageIterator> MergeIterator<I> {
    /// What remains of each source, by position; an exhausted source is empty.
    pub closed spec fn remaining(&self) -> Seq<Seq<Entry>> {
        self.sources@
    }

    /// The merge's invariant: the current source comes before every other
    /// live source, and every live source is held.
    pub closed spec fn inv(&self) -> bool {
        let srcs = self.sources@;
        let items = self.iters@;
        &&& items_match(items, srcs)
        &&& heap_ordered(items)
        &&& all_ascending(srcs)
        &&& match self.current {
            Some(c) => {
                &&& c.0 < srcs.len()
                &&& c.1.well_formed()
                &&& c.1.entries().len() > 0
                &&& srcs[c.0 as int] == c.1.entries()
                &&& forall|j: int| 0 <= j < items.len() ==> (#[trigger] items[j]).0 != c.0 && precedes(c, items[j])
                &&& forall|i: int| is_live(srcs, i) && i != c.0 ==> holds(items, i)
            },
            None => {
                &&& items.len() == 0
                &&& forall|i: int| !#[trigger] is_live(srcs, i)
            },
        }
    }

    /// The current source is the leader of the merge model.
    proof fn lemma_current_leads(&self)
        requires
            self.inv(),
        ensures
            self.current matches Some(c) ==> leader(self.sources@) == c.0 as int,
            self.current is None ==> merged(self.sources@) == Seq::<Entry>::empty(),
    {
        let srcs = self.sources@;
        let items = self.iters@;
        match self.current {
            Some(c) => {
                assert forall|j: int| #[trigger] is_live(srcs, j) && j != c.0 implies crate::merge_model::ranks_before(srcs, c.0 as int, j) by {
                    let q = choose|q: int| 0 <= q < items.len() && (#[trigger] items[q]).0 == j;
                    assert(precedes(c, items[q]));
                }
                lemma_leader_unique(srcs, c.0 as int);
            },
            None => {
                crate::merge_model::lemma_merged_empty(srcs);
            },
        }
    }

    /// Builds the merge over `iters`; a source's position in `iters` is its
    /// priority. Exhausted sources are dropped at once.
    pub fn create(iters: Vec<Box<I>>) -> (r: Self)
        requires
            forall|i: int| 0 <= i < iters@.len() ==> (#[trigger] iters@[i]).well_formed(),
        ensures
            r.inv(),
            r.remaining() == iters@.map_values(|b: Box<I>| b.entries()),
            r.entries() == merged(iters@.map_values(|b: Box<I>| b.entries())),
    {
        let ghost srcs = iters@.map_values(|b: Box<I>| b.entries());
        let n: usize = iters.len();
        let mut rest = iters;
        let mut heap: Vec<HeapWrapper<I>> = Vec::new();
        let mut index: usize = 0;
        while rest.len() > 0
            invariant
                index + rest@.len() == n,
                srcs.len() == n,
                forall|i: int| 0 <= i < rest@.len() ==> (#[trigger] rest@[i]).well_formed() && rest@[i].entries() == srcs[index + i],
                items_match(heap@, srcs),
                heap_ordered(heap@),
                forall|j: int| 0 <= j < heap@.len() ==> (#[trigger] heap@[j]).0 < index,
                forall|i: int| 0 <= i < index && is_live(srcs, i) ==> holds(heap@, i),
                forall|i: int| 0 <= i < index ==> crate::source::strictly_ascending(#[trigger] srcs[i]),
            decreases rest@.len(),
        {
            let ghost before = rest@;
            let it = rest.remove(0);
            assert(it == before[0]);
            proof {
                it.lemma_ascending();
                assert forall|i: int| 0 <= i < rest@.len() implies (#[trigger] rest@[i]).well_formed() && rest@[i].entries() == srcs[index + 1 + i] by {
                    assert(rest@[i] == before[i + 1]);
                }
            }
            if it.is_valid() {
                let ghost old_heap = heap@;
                let w = HeapWrapper(index, it);
                proof {
                    lemma_push_match(old_heap, w, srcs);
                    lemma_push_contains(old_heap, w);
                }
                heap_push(&mut heap, w, Ghost(srcs));
                proof {
                    let now = heap@;
                    assert forall|j: int| 0 <= j < now.len() implies (#[trigger] now[j]).0 < index + 1 by {
                        assert(now.contains(now[j]));
                        if now[j] != w {
                            let q = choose|q: int| 0 <= q < old_heap.len() && old_heap[q] == now[j];
                            assert(old_heap[q].0 < index);
                        }
                    }
                    assert forall|i: int| 0 <= i < index + 1 && is_live(srcs, i) implies holds(now, i) by {
                        if i < index {
                            let q = choose|q: int| 0 <= q < old_heap.len() && (#[trigger] old_heap[q]).0 == i;
                            assert(old_heap.contains(old_heap[q]));
                            lemma_contains_holds(now, old_heap[q]);
                        } else {
                            assert(now.contains(w));
                            lemma_contains_holds(now, w);
                        }
                    }
                }
            }
            index = index + 1;
        }
        let ghost full = heap@;
        let current = heap_pop(&mut heap, Ghost(srcs));
        let r = MergeIterator { iters: heap, current, sources: Ghost(srcs) };
        proof {
            if r.current is Some {
                let c = r.current->0;
                assert(full[0] == c);
                assert forall|i: int| is_live(srcs, i) && i != c.0 implies holds(heap@, i) by {
                    lemma_holds_after_pop(full, heap@, c, i);
                }
            } else {
                assert forall|i: int| !#[trigger] is_live(srcs, i) by {
                    if is_live(srcs, i) {
                        assert(holds(full, i));
                    }
                }
            }
        }
        r
    }
}

impl<I: StorageIterator> MergeIterator<I> {
    /// Drops every source after a failed step: the merge is exhausted.
    fn abandon(&mut self)
        ensures
            final(self).inv(),
            final(self).current is None,
            final(self).sources@.len() == old(self).sources@.len(),
    {
        self.current = None;
        self.iters = Vec::new();
        self.sources = Ghost(Seq::new(self.sources@.len(), |i: int| Seq::<Entry>::empty()));
        proof {
            let srcs = self.sources@;
            assert forall|i: int| 0 <= i < srcs.len() implies crate::source::strictly_ascending(#[trigger] srcs[i]) by {}
        }
    }
}

impl<I: StorageIterator> StorageIterator for MergeIterator<I> {
    open spec fn entries(&self) -> Seq<Entry> {
        merged(self.remaining())
    }

    open spec fn well_formed(&self) -> bool {
        self.inv()
    }

    proof fn lemma_ascending(&self) {
        crate::merge_model::lemma_merged_ascending(self.remaining());
    }

    fn key(&self) -> (r: &[u8]) {
        proof {
            self.lemma_current_leads();
            if self.current is Some {
                crate::merge_model::lemma_merged_unfold(self.sources@);
            }
        }
        self.current.as_ref().unwrap().1.key()
    }

    fn value(&self) -> (r: &[u8]) {
        proof {
            self.lemma_current_leads();
            if self.current is Some {
                crate::merge_model::lemma_merged_unfold(self.sources@);
            }
        }
        self.current.as_ref().unwrap().1.value()
    }

    fn is_valid(&self) -> (r: bool) {
        proof {
            self.lemma_current_leads();
            if self.current is Some {
                crate::merge_model::lemma_merged_unfold(self.sources@);
            }
        }
        match &self.current {
            Some(c) => c.1.is_valid(),
            None => false,
        }
    }

    fn next(&mut self) -> (r: Result<(), anyhow::Error>) {
        let ghost srcs0 = self.sources@;
        proof {
            self.lemma_current_leads();
        }
        let mut cur = match self.current.take() {
            Some(c) => c,
            None => {
                proof {
                    assert(false);
                }
                return Ok(());
            },
        };
        let ghost ci = cur.0 as int;
        let ghost k = srcs0[ci][0].0;
        let ghost target = crate::merge_model::advance_all(srcs0, k);
        proof {
            crate::merge_model::lemma_merged_unfold(srcs0);
            crate::merge_model::lemma_advance_above(srcs0);
            crate::merge_model::lemma_advance_ascending(srcs0, k);
            crate::merge_model::lemma_leader(srcs0);
            let items = self.iters@;
            assert forall|j: int| 0 <= j < items.len() implies !key_lt(head_key(#[trigger] items[j]), k) by {
                assert(precedes(cur, items[j]));
                crate::key::lemma_key_lt_asymmetric(k, head_key(items[j]));
                crate::key::lemma_key_lt_irreflexive(k);
            }
        }
        let ghost mut srcs = srcs0;
        loop
            invariant
                self.current is None,
                self.sources@ == srcs0,
                all_ascending(srcs0),
                leader(srcs0) == ci,
                is_live(srcs0, ci),
                k == srcs0[ci][0].0,
                target == crate::merge_model::advance_all(srcs0, k),
                forall|i: int, j: int|
                    0 <= i < srcs0.len() && 0 <= j < target[i].len() ==> key_lt(k, #[trigger] target[i][j].0),
                cur.0 == ci,
                cur.1.well_formed(),
                cur.1.entries() == srcs0[ci],
                srcs.len() == srcs0.len(),
                srcs[ci] == srcs0[ci],
                items_match(self.iters@, srcs),
                heap_ordered(self.iters@),
                forall|j: int| 0 <= j < self.iters@.len() ==> (#[trigger] self.iters@[j]).0 != ci,
                forall|j: int| 0 <= j < self.iters@.len() ==> !key_lt(head_key(#[trigger] self.iters@[j]), k),
                forall|i: int|
                    0 <= i < srcs.len() && i != ci ==> #[trigger] srcs[i] == target[i] || (srcs[i] == srcs0[i]
                        && is_live(srcs0, i) && srcs0[i][0].0 == k),
                forall|i: int| is_live(srcs, i) && i != ci ==> holds(self.iters@, i),
            ensures
                forall|j: int| 0 <= j < self.iters@.len() ==> head_key(#[trigger] self.iters@[j]) != k,
            decreases crate::merge_model::total_len(srcs),
        {
            if self.iters.len() == 0 {
                break;
            }
            let same: bool = match compare_keys(self.iters[0].1.key(), cur.1.key()) {
                std::cmp::Ordering::Equal => true,
                _ => false,
            };
            if !same {
                proof {
                    let items = self.iters@;
                    assert forall|j: int| 0 <= j < items.len() implies head_key(#[trigger] items[j]) != k by {
                        if j != 0 && head_key(items[j]) == k {
                            lemma_root_first(items, j);
                        }
                    }
                }
                break;
            }
            let ghost items_before = self.iters@;
            let mut w = heap_pop(&mut self.iters, Ghost(srcs)).unwrap();
            let ghost wi = w.0 as int;
            proof {
                assert(items_before[0] == w);
                assert(srcs[wi] == w.1.entries());
                assert(is_live(srcs, wi));
                if srcs[wi] == target[wi] {
                    assert(key_lt(k, target[wi][0].0));
                    crate::key::lemma_key_lt_irreflexive(k);
                }
                assert(srcs[wi] == srcs0[wi]);
            }
            match w.1.next() {
                Ok(()) => {},
                Err(e) => {
                    self.abandon();
                    return Err(e);
                },
            }
            let ghost srcs_before = srcs;
            let ghost popped = self.iters@;
            proof {
                srcs = srcs.update(wi, w.1.entries());
                assert(srcs[wi] == target[wi]);
                crate::merge_model::lemma_total_len_le(srcs, srcs_before);
                assert forall|j: int| 0 <= j < popped.len() implies srcs[(#[trigger] popped[j]).0 as int] == popped[j].1.entries() by {
                    assert(popped[j].0 != w.0);
                }
            }
            if w.1.is_valid() {
                proof {
                    let pw = popped.push(w);
                    assert(key_lt(k, target[wi][0].0));
                    assert forall|j: int| 0 <= j < pw.len() implies (#[trigger] pw[j]) == if j < popped.len() { popped[j] } else { w } by {}
                    assert forall|p: int, q: int| 0 <= p < pw.len() && 0 <= q < pw.len() && p != q implies (#[trigger] pw[p]).0 != (#[trigger] pw[q]).0 by {
                        if p < popped.len() && q < popped.len() {
                        } else if p < popped.len() {
                            assert(popped[p].0 != w.0);
                        } else {
                            assert(popped[q].0 != w.0);
                        }
                    }
                }
                heap_push(&mut self.iters, w, Ghost(srcs));
            }
            proof {
                let items = self.iters@;
                assert(key_lt(k, target[wi][0].0) || srcs[wi].len() == 0);
                crate::key::lemma_key_lt_asymmetric(k, target[wi][0].0);
                // what the heap holds now: what it held, with the stepped source back in if still live
                assert forall|x: HeapWrapper<I>| items.contains(x) implies (items_before.contains(x) && x != w) || (x == w && is_live(srcs, wi)) by {
                    if items.contains(x) && x != w {
                        if is_live(srcs, wi) {
                            assert(popped.push(w).contains(x));
                            let q = choose|q: int| 0 <= q < popped.push(w).len() && popped.push(w)[q] == x;
                            assert(popped.contains(x));
                        }
                    }
                }
                assert forall|j: int| 0 <= j < items.len() implies (#[trigger] items[j]).0 != ci && !key_lt(head_key(items[j]), k) by {
                    assert(items.contains(items[j]));
                    if items[j] != w {
                        let q = choose|q: int| 0 <= q < items_before.len() && items_before[q] == items[j];
                        assert(items_before[q].0 != ci);
                    }
                }
                assert forall|i: int| is_live(srcs, i) && i != ci implies holds(items, i) by {
                    if i == wi {
                        assert(popped.push(w).contains(w)) by {
                            assert(popped.push(w)[popped.len() as int] == w);
                        }
                        assert(items.contains(w));
                        let q = choose|q: int| 0 <= q < items.len() && items[q] == w;
                        assert(items[q].0 == i);
                    } else {
                        assert(srcs_before[i] == srcs[i]);
                        assert(is_live(srcs_before, i));
                        assert(holds(items_before, i));
                        let q = choose|q: int| 0 <= q < items_before.len() && (#[trigger] items_before[q]).0 == i;
                        let x = items_before[q];
                        assert(items_before.contains(x));
                        assert(popped.contains(x));
                        if is_live(srcs, wi) {
                            let r = choose|r: int| 0 <= r < popped.len() && popped[r] == x;
                            assert(popped.push(w)[r] == x);
                            assert(popped.push(w).contains(x));
                        }
                        assert(items.contains(x));
                        let z = choose|z: int| 0 <= z < items.len() && items[z] == x;
                        assert(items[z].0 == i);
                    }
                }
            }
        }
        proof {
            let items = self.iters@;
            assert forall|i: int| 0 <= i < srcs.len() && i != ci implies #[trigger] srcs[i] == target[i] by {
                if is_live(srcs, i) && !(srcs[i] == target[i]) {
                    let q = choose|q: int| 0 <= q < items.len() && (#[trigger] items[q]).0 == i;
                    assert(head_key(items[q]) != k);
                }
            }
        }
        match cur.1.next() {
            Ok(()) => {},
            Err(e) => {
                self.abandon();
                return Err(e);
            },
        }
        proof {
            assert(cur.1.entries() == target[ci]);
            assert(srcs.update(ci, cur.1.entries()) =~= target);
        }
        let ghost mid = self.iters@;
        proof {
            assert forall|j: int| 0 <= j < mid.len() implies target[(#[trigger] mid[j]).0 as int] == mid[j].1.entries() by {
                assert(mid[j].0 != ci);
            }
            assert(items_match(mid, target));
        }
        if cur.1.is_valid() {
            proof {
                lemma_push_match(mid, cur, target);
            }
            heap_push(&mut self.iters, cur, Ghost(target));
        }
        let ghost pushed = self.iters@;
        proof {
            lemma_push_contains(mid, cur);
            assert forall|i: int| is_live(target, i) implies holds(pushed, i) by {
                if i == ci {
                    assert(pushed.contains(cur));
                    lemma_contains_holds(pushed, cur);
                } else {
                    assert(is_live(srcs, i));
                    let q = choose|q: int| 0 <= q < mid.len() && (#[trigger] mid[q]).0 == i;
                    assert(mid.contains(mid[q]));
                    assert(pushed.contains(mid[q]));
                    lemma_contains_holds(pushed, mid[q]);
                }
            }
        }
        self.current = heap_pop(&mut self.iters, Ghost(target));
        self.sources = Ghost(target);
        proof {
            let items = self.iters@;
            if self.current is Some {
                let c = self.current->0;
                assert(pushed[0] == c);
                assert forall|i: int| is_live(target, i) && i != c.0 implies holds(items, i) by {
                    lemma_holds_after_pop(pushed, items, c, i);
                }
            } else {
                assert forall|i: int| !#[trigger] is_live(target, i) by {
                    if is_live(target, i) {
                        assert(holds(pushed, i));
                    }
                }
            }
            assert(merged(srcs0).drop_first() =~= merged(target));
        }
        Ok(())
    }
}

/// A merge built over two merges yields what one merge over all their
/// sources yields, with the first merge's sources ahead of the second's.
pub proof fn lemma_nested_merge<I: StorageIterator>(
    outer: MergeIterator<MergeIterator<I>>,
    first: MergeIterator<I>,
    second: MergeIterator<I>,
)
    requires
        first.inv(),
        second.inv(),
        outer.remaining() == seq![first.entries(), second.entries()],
    ensures
        outer.entries() == merged(first.remaining() + second.remaining()),
{
    crate::merge_model::lemma_merge_of_merges(first.remaining(), second.remaining());
}

} // verus!

//! A binary min-heap of wrapped sources, stored in a vector.
use vstd::prelude::*;
use crate::merge_model::{before, lemma_before_total, lemma_before_transitive};
use crate::source::{Entry, StorageIterator};

verus! {

/// A source and its position in the list the merge was built from; a lower
/// position has priority.
pub struct HeapWrapper<I: StorageIterator>(pub usize, pub Box<I>);

/// The key of a wrapped source's current entry.
pub open spec fn head_key<I: StorageIterator>(w: HeapWrapper<I>) -> Seq<u8> {
    w.1.entries()[0].0
}

/// Wrapped source `a` comes before wrapped source `b`.
pub open spec fn precedes<I: StorageIterator>(a: HeapWrapper<I>, b: HeapWrapper<I>) -> bool {
    before(head_key(a), a.0 as int, head_key(b), b.0 as int)
}

/// Each wrapped source is well formed, live, and holds what `srcs` gives for
/// its position; no two share a position.
pub open spec fn items_match<I: StorageIterator>(items: Seq<HeapWrapper<I>>, srcs: Seq<Seq<Entry>>) -> bool {
    &&& forall|j: int|
        0 <= j < items.len() ==> {
            &&& (#[trigger] items[j]).0 < srcs.len()
            &&& items[j].1.well_formed()
            &&& items[j].1.entries().len() > 0
            &&& srcs[items[j].0 as int] == items[j].1.entries()
        }
    &&& forall|a: int, b: int| 0 <= a < items.len() && 0 <= b < items.len() && a != b ==> (#[trigger] items[a]).0 != (#[trigger] items[b]).0
}

/// Some wrapped source carries list position `i`.
pub open spec fn holds<I: StorageIterator>(items: Seq<HeapWrapper<I>>, i: int) -> bool {
    exists|j: int| 0 <= j < items.len() && (#[trigger] items[j]).0 == i
}

/// Exchanges the elements at `a` and `b`.
fn swap_at<T>(v: &mut Vec<T>, a: usize, b: usize)
    requires
        a < b < old(v)@.len(),
    ensures
        final(v)@ == old(v)@.update(a as int, old(v)@[b as int]).update(b as int, old(v)@[a as int]),
{
    let s = v.as_mut_slice();
    let (left, right) = s.split_at_mut(b);
    let (_, from_a) = left.split_at_mut(a);
    match (from_a.first_mut(), right.first_mut()) {
        (Some(x), Some(y)) => core::mem::swap(x, y),
        _ => {},
    }
    assert(final(v)@ =~= old(v)@.update(a as int, old(v)@[b as int]).update(b as int, old(v)@[a as int]));
}

/// Position of the parent of position `i` in the heap.
pub open spec fn parent(i: int) -> int {
    (i - 1) / 2
}

/// Every wrapped source but the first comes after its parent.
pub open spec fn heap_ordered<I: StorageIterator>(items: Seq<HeapWrapper<I>>) -> bool {
    forall|i: int| 0 < i < items.len() ==> precedes(items[parent(i)], #[trigger] items[i])
}

/// `b` holds the same wrapped sources as `a`.
pub open spec fn same_items<I: StorageIterator>(a: Seq<HeapWrapper<I>>, b: Seq<HeapWrapper<I>>) -> bool {
    &&& a.len() == b.len()
    &&& forall|x: HeapWrapper<I>| a.contains(x) <==> b.contains(x)
}

/// The first wrapped source of a heap comes before every other.
pub proof fn lemma_root_first<I: StorageIterator>(items: Seq<HeapWrapper<I>>, j: int)
    requires
        heap_ordered(items),
        0 < j < items.len(),
    ensures
        precedes(items[0], items[j]),
    decreases j,
{
    let p = parent(j);
    assert(precedes(items[p], items[j]));
    if p > 0 {
        lemma_root_first(items, p);
        lemma_before_transitive(
            head_key(items[0]), items[0].0 as int,
            head_key(items[p]), items[p].0 as int,
            head_key(items[j]), items[j].0 as int,
        );
    }
}

/// Exchanging two elements keeps the same sources, matched as before.
proof fn lemma_swap_keeps<I: StorageIterator>(s: Seq<HeapWrapper<I>>, a: int, b: int, srcs: Seq<Seq<Entry>>)
    requires
        0 <= a < b < s.len(),
        items_match(s, srcs),
    ensures
        same_items(s, s.update(a, s[b]).update(b, s[a])),
        items_match(s.update(a, s[b]).update(b, s[a]), srcs),
{
    let t = s.update(a, s[b]).update(b, s[a]);
    assert forall|j: int| 0 <= j < t.len() implies #[trigger] t[j] == s[if j == a { b } else if j == b { a } else { j }] by {}
    assert forall|x: HeapWrapper<I>| s.contains(x) <==> t.contains(x) by {
        if s.contains(x) {
            let j = choose|j: int| 0 <= j < s.len() && s[j] == x;
            let k = if j == a { b } else if j == b { a } else { j };
            assert(t[k] == x);
        }
        if t.contains(x) {
            let j = choose|j: int| 0 <= j < t.len() && t[j] == x;
            let k = if j == a { b } else if j == b { a } else { j };
            assert(s[k] == x);
        }
    }
    assert forall|p: int, q: int| 0 <= p < t.len() && 0 <= q < t.len() && p != q implies (#[trigger] t[p]).0 != (#[trigger] t[q]).0 by {
        let p2 = if p == a { b } else if p == b { a } else { p };
        let q2 = if q == a { b } else if q == b { a } else { q };
        assert(s[p2].0 != s[q2].0);
    }
}

/// Two distinct wrapped sources of a matched sequence are ordered one way
/// or the other.
proof fn lemma_items_total<I: StorageIterator>(s: Seq<HeapWrapper<I>>, p: int, q: int, srcs: Seq<Seq<Entry>>)
    requires
        items_match(s, srcs),
        0 <= p < s.len(),
        0 <= q < s.len(),
        p != q,
    ensures
        precedes(s[p], s[q]) || precedes(s[q], s[p]),
        !(precedes(s[p], s[q]) && precedes(s[q], s[p])),
{
    assert(s[p].0 != s[q].0);
    lemma_before_total(head_key(s[p]), s[p].0 as int, head_key(s[q]), s[q].0 as int);
}

proof fn lemma_precedes_transitive<I: StorageIterator>(a: HeapWrapper<I>, b: HeapWrapper<I>, c: HeapWrapper<I>)
    requires
        precedes(a, b),
        precedes(b, c),
    ensures
        precedes(a, c),
{
    lemma_before_transitive(head_key(a), a.0 as int, head_key(b), b.0 as int, head_key(c), c.0 as int);
}

/// Whether wrapped source `a` comes before wrapped source `b`.
fn comes_before<I: StorageIterator>(a: &HeapWrapper<I>, b: &HeapWrapper<I>) -> (r: bool)
    requires
        a.1.well_formed(),
        a.1.entries().len() > 0,
        b.1.well_formed(),
        b.1.entries().len() > 0,
    ensures
        r == precedes(*a, *b),
{
    match crate::key::compare_keys(a.1.key(), b.1.key()) {
        std::cmp::Ordering::Less => true,
        std::cmp::Ordering::Equal => a.0 < b.0,
        std::cmp::Ordering::Greater => false,
    }
}

/// Adds `w` to the heap.
pub fn heap_push<I: StorageIterator>(items: &mut Vec<HeapWrapper<I>>, w: HeapWrapper<I>, Ghost(srcs): Ghost<Seq<Seq<Entry>>>)
    requires
        items_match(old(items)@.push(w), srcs),
        heap_ordered(old(items)@),
    ensures
        items_match(final(items)@, srcs),
        heap_ordered(final(items)@),
        same_items(old(items)@.push(w), final(items)@),
{
    let ghost start = items@.push(w);
    items.push(w);
    let mut i: usize = items.len() - 1;
    proof {
        assert forall|k: int| 0 < k < items@.len() && k != i implies precedes(items@[parent(k)], #[trigger] items@[k]) by {
            assert(items@[k] == old(items)@[k]);
            assert(items@[parent(k)] == old(items)@[parent(k)]);
        }
    }
    while i > 0
        invariant
            i < items@.len(),
            items_match(items@, srcs),
            same_items(start, items@),
            forall|k: int| 0 < k < items@.len() && k != i ==> precedes(items@[parent(k)], #[trigger] items@[k]),
            i > 0 ==> forall|k: int| 0 < k < items@.len() && parent(k) == i ==> precedes(items@[parent(i as int)], #[trigger] items@[k]),
        ensures
            heap_ordered(items@),
            items_match(items@, srcs),
            same_items(start, items@),
        decreases i,
    {
        let p: usize = (i - 1) / 2;
        if !comes_before(&items[i], &items[p]) {
            proof {
                lemma_items_total(items@, i as int, p as int, srcs);
                assert(precedes(items@[parent(i as int)], items@[i as int]));
            }
            break;
        }
        let ghost s = items@;
        swap_at(items, p, i);
        proof {
            lemma_swap_keeps(s, p as int, i as int, srcs);
            let t = items@;
            assert forall|k: int| 0 < k < t.len() && k != p implies precedes(t[parent(k)], #[trigger] t[k]) by {
                if k == i {
                } else if parent(k) == i {
                    assert(t[k] == s[k]);
                } else if parent(k) == p {
                    assert(t[k] == s[k]);
                    lemma_precedes_transitive(s[i as int], s[p as int], s[k]);
                } else {
                    assert(t[k] == s[k]);
                    assert(t[parent(k)] == s[parent(k)]);
                }
            }
            if p > 0 {
                assert forall|k: int| 0 < k < t.len() && parent(k) == p implies precedes(t[parent(p as int)], #[trigger] t[k]) by {
                    assert(t[parent(p as int)] == s[parent(p as int)]);
                    assert(precedes(s[parent(p as int)], s[p as int]));
                    if k != i {
                        assert(t[k] == s[k]);
                        lemma_precedes_transitive(s[parent(p as int)], s[p as int], s[k]);
                    }
                }
            }
            assert forall|x: HeapWrapper<I>| start.contains(x) <==> t.contains(x) by {
                assert(start.contains(x) <==> s.contains(x));
            }
        }
        i = p;
    }
}

/// Moves the first wrapped source down until the heap is in order again.
fn sift_down<I: StorageIterator>(items: &mut Vec<HeapWrapper<I>>, Ghost(srcs): Ghost<Seq<Seq<Entry>>>)
    requires
        items_match(old(items)@, srcs),
        forall|k: int| 0 < k < old(items)@.len() && parent(k) != 0 ==> precedes(old(items)@[parent(k)], #[trigger] old(items)@[k]),
    ensures
        items_match(final(items)@, srcs),
        heap_ordered(final(items)@),
        same_items(old(items)@, final(items)@),
{
    let ghost start = items@;
    let len: usize = items.len();
    let mut i: usize = 0;
    while i < len / 2
        invariant
            len == items@.len(),
            i < len || len == 0,
            items_match(items@, srcs),
            same_items(start, items@),
            forall|k: int| 0 < k < items@.len() && parent(k) != i ==> precedes(items@[parent(k)], #[trigger] items@[k]),
            i > 0 ==> forall|k: int| 0 < k < items@.len() && parent(k) == i ==> precedes(items@[parent(i as int)], #[trigger] items@[k]),
        ensures
            heap_ordered(items@),
            items_match(items@, srcs),
            same_items(start, items@),
        decreases len - i,
    {
        let l: usize = 2 * i + 1;
        let r: usize = 2 * i + 2;
        let mut c: usize = l;
        if r < len && comes_before(&items[r], &items[l]) {
            c = r;
        }
        proof {
            assert(parent(l as int) == i);
            assert(parent(r as int) == i);
            if r < len {
                lemma_items_total(items@, l as int, r as int, srcs);
            }
        }
        if !comes_before(&items[c], &items[i]) {
            proof {
                let s = items@;
                lemma_items_total(s, c as int, i as int, srcs);
                assert forall|k: int| 0 < k < s.len() implies precedes(s[parent(k)], #[trigger] s[k]) by {
                    if parent(k) == i {
                        if k != c {
                            lemma_precedes_transitive(s[i as int], s[c as int], s[k]);
                        }
                    }
                }
            }
            break;
        }
        let ghost s = items@;
        swap_at(items, i, c);
        proof {
            lemma_swap_keeps(s, i as int, c as int, srcs);
            let t = items@;
            assert forall|k: int| 0 < k < t.len() && parent(k) != c implies precedes(t[parent(k)], #[trigger] t[k]) by {
                if k == i {
                    assert(t[parent(k)] == s[parent(k)]);
                } else if k == c {
                } else if parent(k) == i {
                    assert(t[k] == s[k]);
                } else {
                    assert(t[k] == s[k]);
                    assert(t[parent(k)] == s[parent(k)]);
                }
            }
            assert forall|k: int| 0 < k < t.len() && parent(k) == c implies precedes(t[parent(c as int)], #[trigger] t[k]) by {
                assert(t[k] == s[k]);
            }
            assert forall|x: HeapWrapper<I>| start.contains(x) <==> t.contains(x) by {
                assert(start.contains(x) <==> s.contains(x));
            }
        }
        i = c;
    }
}

/// Removes and returns the wrapped source that comes before all others.
pub fn heap_pop<I: StorageIterator>(items: &mut Vec<HeapWrapper<I>>, Ghost(srcs): Ghost<Seq<Seq<Entry>>>) -> (r: Option<HeapWrapper<I>>)
    requires
        items_match(old(items)@, srcs),
        heap_ordered(old(items)@),
    ensures
        items_match(final(items)@, srcs),
        heap_ordered(final(items)@),
        r is None <==> old(items)@.len() == 0,
        r is None ==> final(items)@ == old(items)@,
        r matches Some(w) ==> {
            &&& w == old(items)@[0]
            &&& final(items)@.len() + 1 == old(items)@.len()
            &&& forall|j: int| 0 <= j < final(items)@.len() ==> precedes(w, #[trigger] final(items)@[j]) && final(items)@[j].0 != w.0
            &&& forall|x: HeapWrapper<I>| old(items)@.contains(x) <==> (final(items)@.contains(x) || x == w)
        },
{
    let n: usize = items.len();
    if n == 0 {
        return None;
    }
    let ghost s0 = items@;
    if n > 1 {
        swap_at(items, 0, n - 1);
        proof {
            lemma_swap_keeps(s0, 0, n - 1, srcs);
        }
    }
    let ghost s1 = items@;
    let w = items.pop().unwrap();
    proof {
        assert(w == s0[0]);
        assert forall|k: int| 0 < k < items@.len() && parent(k) != 0 implies precedes(items@[parent(k)], #[trigger] items@[k]) by {
            assert(items@[k] == s0[k]);
            assert(items@[parent(k)] == s0[parent(k)]);
        }
        assert forall|j: int| 0 <= j < items@.len() implies (#[trigger] items@[j]) == s0[if j == 0 { n - 1 } else { j }] by {}
        assert forall|x: HeapWrapper<I>| s0.contains(x) <==> (items@.contains(x) || x == w) by {
            if s0.contains(x) && x != w {
                let j = choose|j: int| 0 <= j < s0.len() && s0[j] == x;
                assert(j != 0);
                let k = if j == n - 1 { 0 } else { j };
                assert(items@[k] == x);
            }
            if items@.contains(x) {
                let j = choose|j: int| 0 <= j < items@.len() && items@[j] == x;
                assert(s0[if j == 0 { n - 1 } else { j }] == x);
            }
        }
        assert forall|j: int| 0 <= j < items@.len() implies precedes(w, #[trigger] items@[j]) && items@[j].0 != w.0 by {
            let k = if j == 0 { n - 1 } else { j };
            lemma_root_first(s0, k);
            assert(s0[0].0 != s0[k].0);
        }
        assert(items_match(items@, srcs));
    }
    let ghost after_pop = items@;
    sift_down(items, Ghost(srcs));
    proof {
        let s = items@;
        assert forall|x: HeapWrapper<I>| s0.contains(x) <==> (s.contains(x) || x == w) by {
            assert(after_pop.contains(x) <==> s.contains(x));
        }
        assert forall|j: int| 0 <= j < s.len() implies precedes(w, #[trigger] s[j]) && s[j].0 != w.0 by {
            assert(s.contains(s[j]));
            assert(after_pop.contains(s[j]));
            let q = choose|q: int| 0 <= q < after_pop.len() && after_pop[q] == s[j];
            assert(precedes(w, after_pop[q]));
        }
    }
    Some(w)
}

/// A contained wrapped source is held at its position.
pub proof fn lemma_contains_holds<I: StorageIterator>(s: Seq<HeapWrapper<I>>, x: HeapWrapper<I>)
    requires
        s.contains(x),
    ensures
        holds(s, x.0 as int),
{
    let q = choose|q: int| 0 <= q < s.len() && s[q] == x;
    assert(s[q].0 == x.0);
}

/// What a heap held before a pop it holds after, but the popped source.
pub proof fn lemma_holds_after_pop<I: StorageIterator>(a: Seq<HeapWrapper<I>>, b: Seq<HeapWrapper<I>>, w: HeapWrapper<I>, i: int)
    requires
        forall|x: HeapWrapper<I>| a.contains(x) <==> (b.contains(x) || x == w),
        holds(a, i),
        i != w.0,
    ensures
        holds(b, i),
{
    let j = choose|j: int| 0 <= j < a.len() && (#[trigger] a[j]).0 == i;
    assert(a.contains(a[j]));
    lemma_contains_holds(b, a[j]);
}

/// A pushed sequence contains the new element and all the old ones.
pub proof fn lemma_push_contains<I: StorageIterator>(s: Seq<HeapWrapper<I>>, w: HeapWrapper<I>)
    ensures
        s.push(w).contains(w),
        forall|x: HeapWrapper<I>| s.contains(x) ==> s.push(w).contains(x),
        forall|x: HeapWrapper<I>| s.push(w).contains(x) ==> s.contains(x) || x == w,
{
    assert(s.push(w)[s.len() as int] == w);
    assert forall|x: HeapWrapper<I>| s.contains(x) implies s.push(w).contains(x) by {
        let q = choose|q: int| 0 <= q < s.len() && s[q] == x;
        assert(s.push(w)[q] == x);
    }
    assert forall|x: HeapWrapper<I>| s.push(w).contains(x) implies s.contains(x) || x == w by {
        let q = choose|q: int| 0 <= q < s.push(w).len() && s.push(w)[q] == x;
        if q < s.len() {
            assert(s[q] == x);
        }
    }
}

/// Pushing a source at a new position onto matched sources keeps them matched.
pub proof fn lemma_push_match<I: StorageIterator>(s: Seq<HeapWrapper<I>>, w: HeapWrapper<I>, srcs: Seq<Seq<Entry>>)
    requires
        items_match(s, srcs),
        forall|j: int| 0 <= j < s.len() ==> (#[trigger] s[j]).0 != w.0,
        w.0 < srcs.len(),
        w.1.well_formed(),
        w.1.entries().len() > 0,
        srcs[w.0 as int] == w.1.entries(),
    ensures
        items_match(s.push(w), srcs),
{
    let pw = s.push(w);
    assert forall|j: int| 0 <= j < pw.len() implies (#[trigger] pw[j]) == if j < s.len() { s[j] } else { w } by {}
    assert forall|p: int, q: int| 0 <= p < pw.len() && 0 <= q < pw.len() && p != q implies (#[trigger] pw[p]).0 != (#[trigger] pw[q]).0 by {
        if p < s.len() && q < s.len() {
        } else if p < s.len() {
            assert(s[p].0 != w.0);
        } else {
            assert(s[q].0 != w.0);
        }
    }
}

} // verus!

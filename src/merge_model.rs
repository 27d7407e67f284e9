//! What a merge of sorted sources yields, stated over the sources' entries.
//! Source `i` of a sequence of sources has priority over every source after it.
use vstd::prelude::*;
use crate::key::{key_lt, lemma_key_lt_asymmetric, lemma_key_lt_irreflexive, lemma_key_lt_total, lemma_key_lt_transitive};
use crate::source::{Entry, strictly_ascending};

verus! {

/// Source `i` has a current entry.
pub open spec fn is_live(srcs: Seq<Seq<Entry>>, i: int) -> bool {
    0 <= i < srcs.len() && srcs[i].len() > 0
}

/// The head of live source `i` comes before the head of live source `j`:
/// its key is smaller, or equal and `i` has priority.
pub open spec fn ranks_before(srcs: Seq<Seq<Entry>>, i: int, j: int) -> bool {
    key_lt(srcs[i][0].0, srcs[j][0].0) || (srcs[i][0].0 == srcs[j][0].0 && i < j)
}

/// The first-ranked live source among the first `n`, or -1 if none is live.
pub open spec fn leader_in(srcs: Seq<Seq<Entry>>, n: int) -> int
    decreases n,
{
    if n <= 0 {
        -1
    } else {
        let p = leader_in(srcs, n - 1);
        if !is_live(srcs, n - 1) {
            p
        } else if p < 0 {
            n - 1
        } else if key_lt(srcs[n - 1][0].0, srcs[p][0].0) {
            n - 1
        } else {
            p
        }
    }
}

/// The first-ranked live source, or -1 if none is live.
pub open spec fn leader(srcs: Seq<Seq<Entry>>) -> int {
    leader_in(srcs, srcs.len() as int)
}

/// `s` with its head dropped if the head has key `k`.
pub open spec fn past_key(s: Seq<Entry>, k: Seq<u8>) -> Seq<Entry> {
    if s.len() > 0 && s[0].0 == k {
        s.drop_first()
    } else {
        s
    }
}

/// Every source stepped past key `k`.
pub open spec fn advance_all(srcs: Seq<Seq<Entry>>, k: Seq<u8>) -> Seq<Seq<Entry>> {
    srcs.map_values(|s: Seq<Entry>| past_key(s, k))
}

/// The number of entries in all sources together.
pub open spec fn total_len(srcs: Seq<Seq<Entry>>) -> nat
    decreases srcs.len(),
{
    if srcs.len() == 0 {
        0
    } else {
        total_len(srcs.drop_last()) + srcs.last().len()
    }
}

/// The merged stream: the smallest current key, with the value of the
/// first source that holds it, then the merge of all sources stepped past
/// that key.
pub open spec fn merged(srcs: Seq<Seq<Entry>>) -> Seq<Entry>
    decreases total_len(srcs),
{
    let l = leader(srcs);
    if is_live(srcs, l) {
        let rest = advance_all(srcs, srcs[l][0].0);
        if total_len(rest) < total_len(srcs) {
            seq![srcs[l][0]] + merged(rest)
        } else {
            seq![]
        }
    } else {
        seq![]
    }
}

/// Every source is strictly ascending.
pub open spec fn all_ascending(srcs: Seq<Seq<Entry>>) -> bool {
    forall|i: int| 0 <= i < srcs.len() ==> strictly_ascending(#[trigger] srcs[i])
}

/// The leader is live and ranks before every other live source; with no
/// leader, no source is live.
pub proof fn lemma_leader(srcs: Seq<Seq<Entry>>)
    ensures
        leader(srcs) == -1 || is_live(srcs, leader(srcs)),
        leader(srcs) == -1 ==> forall|j: int| !is_live(srcs, j),
        is_live(srcs, leader(srcs)) ==> forall|j: int|
            #[trigger] is_live(srcs, j) && j != leader(srcs) ==> ranks_before(srcs, leader(srcs), j),
{
    lemma_leader_in(srcs, srcs.len() as int);
}

proof fn lemma_leader_in(srcs: Seq<Seq<Entry>>, n: int)
    requires
        0 <= n <= srcs.len(),
    ensures
        leader_in(srcs, n) == -1 || (is_live(srcs, leader_in(srcs, n)) && leader_in(srcs, n) < n),
        leader_in(srcs, n) == -1 ==> forall|j: int| 0 <= j < n ==> !is_live(srcs, j),
        leader_in(srcs, n) != -1 ==> forall|j: int|
            0 <= j < n && #[trigger] is_live(srcs, j) && j != leader_in(srcs, n) ==> ranks_before(
                srcs,
                leader_in(srcs, n),
                j,
            ),
    decreases n,
{
    if n > 0 {
        lemma_leader_in(srcs, n - 1);
        let p = leader_in(srcs, n - 1);
        if is_live(srcs, n - 1) && p >= 0 {
            let kn = srcs[n - 1][0].0;
            let kp = srcs[p][0].0;
            lemma_key_lt_total(kn, kp);
            lemma_key_lt_asymmetric(kn, kp);
            assert forall|j: int|
                0 <= j < n && #[trigger] is_live(srcs, j) && j != leader_in(srcs, n) implies ranks_before(
                srcs,
                leader_in(srcs, n),
                j,
            ) by {
                if j != n - 1 && j != p {
                    let kj = srcs[j][0].0;
                    if key_lt(kn, kp) {
                        if key_lt(kp, kj) {
                            lemma_key_lt_transitive(kn, kp, kj);
                        }
                    }
                }
            }
        }
    }
}

/// A live source that ranks before every other live source is the leader.
pub proof fn lemma_leader_unique(srcs: Seq<Seq<Entry>>, l: int)
    requires
        is_live(srcs, l),
        forall|j: int| #[trigger] is_live(srcs, j) && j != l ==> ranks_before(srcs, l, j),
    ensures
        leader(srcs) == l,
{
    lemma_leader(srcs);
    let m = leader(srcs);
    if m != l {
        assert(ranks_before(srcs, l, m));
        assert(ranks_before(srcs, m, l));
        lemma_key_lt_asymmetric(srcs[l][0].0, srcs[m][0].0);
        lemma_key_lt_irreflexive(srcs[l][0].0);
    }
}

/// Sources that are pointwise no longer hold no more entries, and strictly
/// fewer where one of them is shorter.
pub proof fn lemma_total_len_le(a: Seq<Seq<Entry>>, b: Seq<Seq<Entry>>)
    requires
        a.len() == b.len(),
        forall|i: int| 0 <= i < a.len() ==> #[trigger] a[i].len() <= b[i].len(),
    ensures
        total_len(a) <= total_len(b),
        (exists|i: int| 0 <= i < a.len() && #[trigger] a[i].len() < b[i].len()) ==> total_len(a) < total_len(b),
    decreases a.len(),
{
    if a.len() > 0 {
        let a1 = a.drop_last();
        let b1 = b.drop_last();
        assert forall|i: int| 0 <= i < a1.len() implies #[trigger] a1[i].len() <= b1[i].len() by {
            assert(a1[i] == a[i]);
        }
        lemma_total_len_le(a1, b1);
        if exists|i: int| 0 <= i < a.len() && #[trigger] a[i].len() < b[i].len() {
            let i = choose|i: int| 0 <= i < a.len() && #[trigger] a[i].len() < b[i].len();
            if i < a1.len() {
                assert(a1[i] == a[i]);
                assert(b1[i] == b[i]);
            }
        }
    }
}

/// Stepping every source past the leader's key removes at least one entry.
pub proof fn lemma_advance_shrinks(srcs: Seq<Seq<Entry>>, l: int)
    requires
        is_live(srcs, l),
    ensures
        total_len(advance_all(srcs, srcs[l][0].0)) < total_len(srcs),
{
    let rest = advance_all(srcs, srcs[l][0].0);
    assert(rest[l].len() < srcs[l].len());
    lemma_total_len_le(rest, srcs);
}

/// One step of the merge: the leader's head, then the merge of the rest.
pub proof fn lemma_merged_unfold(srcs: Seq<Seq<Entry>>)
    requires
        is_live(srcs, leader(srcs)),
    ensures
        merged(srcs) == seq![srcs[leader(srcs)][0]] + merged(advance_all(srcs, srcs[leader(srcs)][0].0)),
{
    lemma_advance_shrinks(srcs, leader(srcs));
}

/// With no live source the merge is empty.
pub proof fn lemma_merged_empty(srcs: Seq<Seq<Entry>>)
    requires
        forall|j: int| !#[trigger] is_live(srcs, j),
    ensures
        merged(srcs) == Seq::<Entry>::empty(),
{
    lemma_leader(srcs);
}

/// Stepping every source past a key keeps each source strictly ascending.
pub proof fn lemma_advance_ascending(srcs: Seq<Seq<Entry>>, k: Seq<u8>)
    requires
        all_ascending(srcs),
    ensures
        all_ascending(advance_all(srcs, k)),
{
    let rest = advance_all(srcs, k);
    assert forall|i: int| 0 <= i < rest.len() implies strictly_ascending(#[trigger] rest[i]) by {
        let s = srcs[i];
        if s.len() > 0 && s[0].0 == k {
            assert forall|a: int, b: int| 0 <= a < b < rest[i].len() implies key_lt(
                #[trigger] rest[i][a].0,
                #[trigger] rest[i][b].0,
            ) by {
                assert(rest[i][a] == s[a + 1]);
                assert(rest[i][b] == s[b + 1]);
            }
        }
    }
}

/// Once every source is stepped past the leader's key, every key left in
/// every source lies above it.
pub proof fn lemma_advance_above(srcs: Seq<Seq<Entry>>)
    requires
        all_ascending(srcs),
        is_live(srcs, leader(srcs)),
    ensures
        forall|i: int, j: int|
            0 <= i < srcs.len() && 0 <= j < advance_all(srcs, srcs[leader(srcs)][0].0)[i].len() ==> key_lt(
                srcs[leader(srcs)][0].0,
                #[trigger] advance_all(srcs, srcs[leader(srcs)][0].0)[i][j].0,
            ),
{
    let l = leader(srcs);
    let k = srcs[l][0].0;
    let rest = advance_all(srcs, k);
    lemma_leader(srcs);
    assert forall|i: int, j: int| 0 <= i < srcs.len() && 0 <= j < rest[i].len() implies key_lt(
        k,
        #[trigger] rest[i][j].0,
    ) by {
        let s = srcs[i];
        assert(is_live(srcs, i));
        let h = s[0].0;
        assert(strictly_ascending(s));
        if h == k {
            assert(rest[i][j] == s[j + 1]);
            assert(key_lt(s[0].0, s[j + 1].0));
        } else {
            if i != l {
                assert(ranks_before(srcs, l, i));
            }
            assert(key_lt(k, h));
            assert(rest[i][j] == s[j]);
            if j > 0 {
                assert(key_lt(s[0].0, s[j].0));
                lemma_key_lt_transitive(k, h, s[j].0);
            }
        }
    }
}

/// When every key in every source lies above `b`, so does every key of the merge.
pub proof fn lemma_merged_above(srcs: Seq<Seq<Entry>>, b: Seq<u8>)
    requires
        forall|i: int, j: int| 0 <= i < srcs.len() && 0 <= j < srcs[i].len() ==> key_lt(b, #[trigger] srcs[i][j].0),
    ensures
        forall|m: int| 0 <= m < merged(srcs).len() ==> key_lt(b, #[trigger] merged(srcs)[m].0),
    decreases total_len(srcs),
{
    let l = leader(srcs);
    if is_live(srcs, l) {
        let k = srcs[l][0].0;
        let rest = advance_all(srcs, k);
        lemma_merged_unfold(srcs);
        lemma_advance_shrinks(srcs, l);
        assert forall|i: int, j: int| 0 <= i < rest.len() && 0 <= j < rest[i].len() implies key_lt(
            b,
            #[trigger] rest[i][j].0,
        ) by {
            if srcs[i].len() > 0 && srcs[i][0].0 == k {
                assert(rest[i][j] == srcs[i][j + 1]);
            } else {
                assert(rest[i][j] == srcs[i][j]);
            }
        }
        lemma_merged_above(rest, b);
        assert forall|m: int| 0 <= m < merged(srcs).len() implies key_lt(b, #[trigger] merged(srcs)[m].0) by {
            if m > 0 {
                assert(merged(srcs)[m] == merged(rest)[m - 1]);
            }
        }
    }
}

/// The merge of strictly ascending sources is strictly ascending.
pub proof fn lemma_merged_ascending(srcs: Seq<Seq<Entry>>)
    requires
        all_ascending(srcs),
    ensures
        strictly_ascending(merged(srcs)),
    decreases total_len(srcs),
{
    let l = leader(srcs);
    if is_live(srcs, l) {
        let k = srcs[l][0].0;
        let rest = advance_all(srcs, k);
        lemma_merged_unfold(srcs);
        lemma_advance_shrinks(srcs, l);
        lemma_advance_ascending(srcs, k);
        lemma_merged_ascending(rest);
        lemma_advance_above(srcs);
        lemma_merged_above(rest, k);
        let m = merged(srcs);
        assert forall|a: int, b: int| 0 <= a < b < m.len() implies key_lt(#[trigger] m[a].0, #[trigger] m[b].0) by {
            assert(m[b] == merged(rest)[b - 1]);
            if a > 0 {
                assert(m[a] == merged(rest)[a - 1]);
            }
        }
    }
}

/// Key `ka` of source `ia` comes before key `kb` of source `ib`: it is
/// smaller, or equal with `ia` the lower position.
pub open spec fn before(ka: Seq<u8>, ia: int, kb: Seq<u8>, ib: int) -> bool {
    key_lt(ka, kb) || (ka == kb && ia < ib)
}

/// Of two distinct sources, one comes before the other, and never both.
pub proof fn lemma_before_total(ka: Seq<u8>, ia: int, kb: Seq<u8>, ib: int)
    requires
        ia != ib,
    ensures
        before(ka, ia, kb, ib) || before(kb, ib, ka, ia),
        !(before(ka, ia, kb, ib) && before(kb, ib, ka, ia)),
{
    lemma_key_lt_total(ka, kb);
    lemma_key_lt_asymmetric(ka, kb);
    lemma_key_lt_irreflexive(ka);
}

/// Coming before is transitive.
pub proof fn lemma_before_transitive(ka: Seq<u8>, ia: int, kb: Seq<u8>, ib: int, kc: Seq<u8>, ic: int)
    requires
        before(ka, ia, kb, ib),
        before(kb, ib, kc, ic),
    ensures
        before(ka, ia, kc, ic),
{
    if key_lt(ka, kb) && key_lt(kb, kc) {
        lemma_key_lt_transitive(ka, kb, kc);
    }
}

/// The merge starts with the leader's head, and is empty without a leader.
proof fn lemma_merged_head(srcs: Seq<Seq<Entry>>)
    ensures
        is_live(srcs, leader(srcs)) ==> merged(srcs).len() > 0 && merged(srcs)[0] == srcs[leader(srcs)][0],
        !is_live(srcs, leader(srcs)) ==> merged(srcs) == Seq::<Entry>::empty(),
{
    lemma_leader(srcs);
    if is_live(srcs, leader(srcs)) {
        lemma_merged_unfold(srcs);
    }
}

/// Stepping past a key that lies below every current key changes nothing.
proof fn lemma_advance_below(srcs: Seq<Seq<Entry>>, k: Seq<u8>)
    requires
        forall|j: int| #[trigger] is_live(srcs, j) ==> key_lt(k, srcs[j][0].0),
    ensures
        advance_all(srcs, k) == srcs,
{
    assert forall|j: int| 0 <= j < srcs.len() implies #[trigger] advance_all(srcs, k)[j] == srcs[j] by {
        if is_live(srcs, j) {
            lemma_key_lt_irreflexive(k);
        }
    }
    assert(advance_all(srcs, k) =~= srcs);
}

/// With a live source there is a leader, and its current key lies at or
/// below that source's.
proof fn lemma_leader_lowest(srcs: Seq<Seq<Entry>>, j: int)
    requires
        is_live(srcs, j),
    ensures
        is_live(srcs, leader(srcs)),
        !key_lt(srcs[j][0].0, srcs[leader(srcs)][0].0),
{
    lemma_leader(srcs);
    let l = leader(srcs);
    if j != l {
        lemma_key_lt_asymmetric(srcs[l][0].0, srcs[j][0].0);
    } else {
        lemma_key_lt_irreflexive(srcs[l][0].0);
    }
}

/// Merging two merges gives the merge of all their sources, the first
/// merge's sources ahead of the second's in priority.
pub proof fn lemma_merge_of_merges(a: Seq<Seq<Entry>>, b: Seq<Seq<Entry>>)
    requires
        all_ascending(a),
        all_ascending(b),
    ensures
        merged(seq![merged(a), merged(b)]) == merged(a + b),
    decreases total_len(a) + total_len(b),
{
    let s = a + b;
    let t = seq![merged(a), merged(b)];
    let la = leader(a);
    let lb = leader(b);
    lemma_leader(a);
    lemma_leader(b);
    lemma_merged_head(a);
    lemma_merged_head(b);
    let live_a = is_live(a, la);
    let live_b = is_live(b, lb);
    assert forall|j: int| 0 <= j < s.len() implies #[trigger] s[j] == if j < a.len() { a[j] } else { b[j - a.len()] } by {}
    if !live_a && !live_b {
        assert forall|j: int| !#[trigger] is_live(s, j) by {
            if 0 <= j < a.len() {
                assert(!is_live(a, j));
            } else if a.len() <= j < s.len() {
                assert(!is_live(b, j - a.len()));
            }
        }
        lemma_merged_empty(s);
        assert forall|j: int| !#[trigger] is_live(t, j) by {}
        lemma_merged_empty(t);
    } else {
        let ka = if live_a { a[la][0].0 } else { Seq::<u8>::empty() };
        let kb = if live_b { b[lb][0].0 } else { Seq::<u8>::empty() };
        lemma_key_lt_total(ka, kb);
        lemma_key_lt_asymmetric(ka, kb);
        let a_first = live_a && (!live_b || !key_lt(kb, ka));
        let l = if a_first { la } else { a.len() + lb };
        let lt: int = if a_first { 0 } else { 1 };
        let k = if a_first { ka } else { kb };
        // the leader of all sources
        assert forall|j: int| #[trigger] is_live(s, j) && j != l implies ranks_before(s, l, j) by {
            if j < a.len() {
                assert(is_live(a, j));
                lemma_leader_lowest(a, j);
                let kj = a[j][0].0;
                lemma_key_lt_total(kj, ka);
                if a_first {
                    assert(ranks_before(a, la, j));
                } else if key_lt(kb, ka) && key_lt(ka, kj) {
                    lemma_key_lt_transitive(kb, ka, kj);
                }
            } else {
                let jb = j - a.len();
                assert(is_live(b, jb));
                lemma_leader_lowest(b, jb);
                let kj = b[jb][0].0;
                lemma_key_lt_total(kj, kb);
                if !a_first {
                    assert(ranks_before(b, lb, jb));
                } else if key_lt(ka, kb) && key_lt(kb, kj) {
                    lemma_key_lt_transitive(ka, kb, kj);
                }
            }
        }
        lemma_leader_unique(s, l);
        // the leader of the two merges
        assert forall|j: int| #[trigger] is_live(t, j) && j != lt implies ranks_before(t, lt, j) by {}
        lemma_leader_unique(t, lt);
        assert(s[l][0] == t[lt][0]);
        assert(s[l][0].0 == k);
        lemma_merged_unfold(s);
        lemma_merged_unfold(t);
        // each side stepped past k
        let a2 = advance_all(a, k);
        let b2 = advance_all(b, k);
        assert(advance_all(s, k) =~= a2 + b2);
        if live_a && ka == k {
            lemma_merged_unfold(a);
            assert(past_key(merged(a), k) == merged(a2));
        } else {
            assert forall|j: int| #[trigger] is_live(a, j) implies key_lt(k, a[j][0].0) by {
                lemma_leader_lowest(a, j);
                lemma_key_lt_total(a[j][0].0, ka);
                if key_lt(k, ka) && key_lt(ka, a[j][0].0) {
                    lemma_key_lt_transitive(k, ka, a[j][0].0);
                }
            }
            lemma_advance_below(a, k);
            assert(past_key(merged(a), k) == merged(a2));
        }
        if live_b && kb == k {
            lemma_merged_unfold(b);
            assert(past_key(merged(b), k) == merged(b2));
        } else {
            assert forall|j: int| #[trigger] is_live(b, j) implies key_lt(k, b[j][0].0) by {
                lemma_leader_lowest(b, j);
                lemma_key_lt_total(b[j][0].0, kb);
                if key_lt(k, kb) && key_lt(kb, b[j][0].0) {
                    lemma_key_lt_transitive(k, kb, b[j][0].0);
                }
            }
            lemma_advance_below(b, k);
            assert(past_key(merged(b), k) == merged(b2));
        }
        assert(advance_all(t, k) =~= seq![merged(a2), merged(b2)]);
        lemma_advance_ascending(a, k);
        lemma_advance_ascending(b, k);
        lemma_advance_shrinks(s, l);
        lemma_total_len_append(a2, b2);
        lemma_total_len_append(a, b);
        lemma_merge_of_merges(a2, b2);
    }
}

/// The entries of two lists of sources together.
pub proof fn lemma_total_len_append(a: Seq<Seq<Entry>>, b: Seq<Seq<Entry>>)
    ensures
        total_len(a + b) == total_len(a) + total_len(b),
    decreases b.len(),
{
    if b.len() > 0 {
        assert((a + b).drop_last() =~= a + b.drop_last());
        lemma_total_len_append(a, b.drop_last());
    } else {
        assert(a + b =~= a);
    }
}

/// Merging sources that are all empty yields nothing.
pub proof fn lemma_merge_of_empty_sources(srcs: Seq<Seq<Entry>>)
    requires
        forall|i: int| 0 <= i < srcs.len() ==> (#[trigger] srcs[i]).len() == 0,
    ensures
        merged(srcs).len() == 0,
{
    assert forall|j: int| !#[trigger] is_live(srcs, j) by {}
    lemma_merged_empty(srcs);
}

} // verus!

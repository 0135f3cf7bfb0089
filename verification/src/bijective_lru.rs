//! A bijective, capacity-bounded, recency-evicted table between translation
//! keys and original flows.
//!
//! The table is one arena of (key, flow) entries kept in recency order
//! (index 0 is the least recently used, the last index the most recently
//! used), with both directions answered from the same arena. A lookup on
//! either side refreshes the recency of the whole pair, so the two
//! directions can never drift apart: eviction always removes a key and its
//! paired flow together, and the mapping stays a bijection at every step.

use vstd::prelude::*;

use crate::flow::Flow;
use crate::flow::TransKey;

verus! {

/// Pairwise distinctness of both sides: no key appears twice and no flow
/// appears twice. This is the bijection invariant of the table.
pub open spec fn entries_wf(s: Seq<(TransKey, Flow)>) -> bool {
    forall|i: int, j: int|
        0 <= i < j < s.len() ==> (#[trigger] s[i]).0 != (#[trigger] s[j]).0 && s[i].1 != s[j].1
}

/// Whether some entry carries the key `k`.
pub open spec fn has_key(s: Seq<(TransKey, Flow)>, k: TransKey) -> bool {
    exists|i: int| 0 <= i <= s.len() - 1 && (#[trigger] s[i]).0 == k
}

/// Whether some entry carries the flow `f`.
pub open spec fn has_flow(s: Seq<(TransKey, Flow)>, f: Flow) -> bool {
    exists|i: int| 0 <= i <= s.len() - 1 && (#[trigger] s[i]).1 == f
}

/// The position of the entry carrying key `k` (meaningful when `has_key`).
pub open spec fn key_index(s: Seq<(TransKey, Flow)>, k: TransKey) -> int {
    choose|i: int| 0 <= i <= s.len() - 1 && (#[trigger] s[i]).0 == k
}

/// The position of the entry carrying flow `f` (meaningful when `has_flow`).
pub open spec fn flow_index(s: Seq<(TransKey, Flow)>, f: Flow) -> int {
    choose|i: int| 0 <= i <= s.len() - 1 && (#[trigger] s[i]).1 == f
}

/// The flow paired with key `k` (meaningful when `has_key`).
pub open spec fn value_of(s: Seq<(TransKey, Flow)>, k: TransKey) -> Flow {
    s[key_index(s, k)].1
}

/// The key paired with flow `f` (meaningful when `has_flow`).
pub open spec fn key_of(s: Seq<(TransKey, Flow)>, f: Flow) -> TransKey {
    s[flow_index(s, f)].0
}

/// `s` without the entry carrying key `k`, if any.
pub open spec fn drop_key(s: Seq<(TransKey, Flow)>, k: TransKey) -> Seq<(TransKey, Flow)> {
    if has_key(s, k) {
        s.remove(key_index(s, k))
    } else {
        s
    }
}

/// `s` without the entry carrying flow `f`, if any.
pub open spec fn drop_flow(s: Seq<(TransKey, Flow)>, f: Flow) -> Seq<(TransKey, Flow)> {
    if has_flow(s, f) {
        s.remove(flow_index(s, f))
    } else {
        s
    }
}

/// What an insert does to the table: the entries sharing the new pair's key
/// or flow leave (both sides are mended in the same step), the least
/// recently used pair is evicted if the table would overflow `cap`, and the
/// new pair enters as the most recently used.
pub open spec fn spec_push(s: Seq<(TransKey, Flow)>, cap: nat, k: TransKey, f: Flow) -> Seq<
    (TransKey, Flow),
> {
    let s1 = drop_flow(drop_key(s, k), f);
    let s2 = if s1.len() >= cap {
        s1.remove(0)
    } else {
        s1
    };
    s2.push((k, f))
}

/// The pair an insert evicts for capacity, if any.
pub open spec fn spec_push_evicted(s: Seq<(TransKey, Flow)>, cap: nat, k: TransKey, f: Flow) -> Option<
    (TransKey, Flow),
> {
    let s1 = drop_flow(drop_key(s, k), f);
    if s1.len() >= cap {
        Some(s1[0])
    } else {
        None
    }
}

/// What a successful lookup by key does to the table: the whole pair moves
/// to the most recently used position, so both directions share one recency.
pub open spec fn spec_touch_key(s: Seq<(TransKey, Flow)>, k: TransKey) -> Seq<(TransKey, Flow)> {
    if has_key(s, k) {
        let i = key_index(s, k);
        s.remove(i).push(s[i])
    } else {
        s
    }
}

/// What a successful lookup by flow does to the table.
pub open spec fn spec_touch_flow(s: Seq<(TransKey, Flow)>, f: Flow) -> Seq<(TransKey, Flow)> {
    if has_flow(s, f) {
        let i = flow_index(s, f);
        s.remove(i).push(s[i])
    } else {
        s
    }
}

/// An entry's own position is what `key_index` and `flow_index` name, since
/// keys and flows are pairwise distinct.
pub proof fn lemma_index_is(s: Seq<(TransKey, Flow)>, i: int)
    requires
        entries_wf(s),
        0 <= i < s.len(),
    ensures
        has_key(s, s[i].0),
        key_index(s, s[i].0) == i,
        has_flow(s, s[i].1),
        flow_index(s, s[i].1) == i,
{
    assert(has_key(s, s[i].0)) by {
        assert(0 <= i <= s.len() - 1 && s[i].0 == s[i].0);
    }
    let j = key_index(s, s[i].0);
    if j < i {
        assert(s[j].0 != s[i].0);
    } else if i < j {
        assert(s[i].0 != s[j].0);
    }
    assert(has_flow(s, s[i].1)) by {
        assert(0 <= i <= s.len() - 1 && s[i].1 == s[i].1);
    }
    let j2 = flow_index(s, s[i].1);
    if j2 < i {
        assert(s[j2].1 != s[i].1);
    } else if i < j2 {
        assert(s[i].1 != s[j2].1);
    }
}

/// Removing one entry keeps the table well formed; the removed entry's key
/// and flow leave entirely, and every other pair stays where a lookup finds
/// it.
pub proof fn lemma_remove_keeps(s: Seq<(TransKey, Flow)>, i: int)
    requires
        entries_wf(s),
        0 <= i < s.len(),
    ensures
        entries_wf(s.remove(i)),
        s.remove(i).len() == s.len() - 1,
        !has_key(s.remove(i), s[i].0),
        !has_flow(s.remove(i), s[i].1),
        forall|k: TransKey| #[trigger] has_key(s.remove(i), k) ==> has_key(s, k),
        forall|f: Flow| #[trigger] has_flow(s.remove(i), f) ==> has_flow(s, f),
        forall|k: TransKey|
            has_key(s, k) && k != s[i].0 ==> #[trigger] has_key(s.remove(i), k) && value_of(
                s.remove(i),
                k,
            ) == value_of(s, k),
        forall|f: Flow|
            has_flow(s, f) && f != s[i].1 ==> #[trigger] has_flow(s.remove(i), f) && key_of(
                s.remove(i),
                f,
            ) == key_of(s, f),
{
    s.remove_ensures(i);
    let t = s.remove(i);
    assert forall|a: int, b: int| 0 <= a < b < t.len() implies (#[trigger] t[a]).0 != (
    #[trigger] t[b]).0 && t[a].1 != t[b].1 by {
        let a2 = if a < i {
            a
        } else {
            a + 1
        };
        let b2 = if b < i {
            b
        } else {
            b + 1
        };
        assert(t[a] == s[a2]);
        assert(t[b] == s[b2]);
        assert(s[a2].0 != s[b2].0 && s[a2].1 != s[b2].1);
    }
    assert forall|j: int| 0 <= j < t.len() implies (#[trigger] t[j]).0 != s[i].0 && t[j].1
        != s[i].1 by {
        if j < i {
            assert(t[j] == s[j]);
            assert(s[j].0 != s[i].0 && s[j].1 != s[i].1);
        } else {
            assert(t[j] == s[j + 1]);
            assert(s[i].0 != s[j + 1].0 && s[i].1 != s[j + 1].1);
        }
    }
    assert forall|k: TransKey| #[trigger] has_key(t, k) implies has_key(s, k) by {
        let j = choose|j: int| 0 <= j <= t.len() - 1 && (#[trigger] t[j]).0 == k;
        let j2 = if j < i {
            j
        } else {
            j + 1
        };
        assert(s[j2] == t[j]);
        assert(has_key(s, k)) by {
            assert(0 <= j2 <= s.len() - 1 && s[j2].0 == k);
        }
    }
    assert forall|f: Flow| #[trigger] has_flow(t, f) implies has_flow(s, f) by {
        let j = choose|j: int| 0 <= j <= t.len() - 1 && (#[trigger] t[j]).1 == f;
        let j2 = if j < i {
            j
        } else {
            j + 1
        };
        assert(s[j2] == t[j]);
        assert(has_flow(s, f)) by {
            assert(0 <= j2 <= s.len() - 1 && s[j2].1 == f);
        }
    }
    assert forall|k: TransKey| has_key(s, k) && k != s[i].0 implies #[trigger] has_key(t, k)
        && value_of(t, k) == value_of(s, k) by {
        let j = key_index(s, k);
        lemma_index_is(s, j);
        let j2 = if j < i {
            j
        } else {
            j - 1
        };
        assert(t[j2] == s[j]);
        assert(has_key(t, k)) by {
            assert(0 <= j2 <= t.len() - 1 && t[j2].0 == k);
        }
        lemma_index_is(t, j2);
    }
    assert forall|f: Flow| has_flow(s, f) && f != s[i].1 implies #[trigger] has_flow(t, f)
        && key_of(t, f) == key_of(s, f) by {
        let j = flow_index(s, f);
        lemma_index_is(s, j);
        let j2 = if j < i {
            j
        } else {
            j - 1
        };
        assert(t[j2] == s[j]);
        assert(has_flow(t, f)) by {
            assert(0 <= j2 <= t.len() - 1 && t[j2].1 == f);
        }
        lemma_index_is(t, j2);
    }
}

/// Appending a pair whose key and flow are fresh keeps the table well
/// formed, and the new pair is found by both lookups.
pub proof fn lemma_push_keeps(t: Seq<(TransKey, Flow)>, k: TransKey, f: Flow)
    requires
        entries_wf(t),
        !has_key(t, k),
        !has_flow(t, f),
    ensures
        entries_wf(t.push((k, f))),
        has_key(t.push((k, f)), k),
        key_index(t.push((k, f)), k) == t.len(),
        value_of(t.push((k, f)), k) == f,
        has_flow(t.push((k, f)), f),
        key_of(t.push((k, f)), f) == k,
        forall|k2: TransKey|
            k2 != k ==> (#[trigger] has_key(t.push((k, f)), k2) <==> has_key(t, k2)),
        forall|f2: Flow|
            f2 != f ==> (#[trigger] has_flow(t.push((k, f)), f2) <==> has_flow(t, f2)),
        forall|k2: TransKey|
            k2 != k && has_key(t, k2) ==> #[trigger] value_of(t.push((k, f)), k2) == value_of(
                t,
                k2,
            ),
        forall|f2: Flow|
            f2 != f && has_flow(t, f2) ==> #[trigger] key_of(t.push((k, f)), f2) == key_of(t, f2),
{
    let u = t.push((k, f));
    let n = t.len() as int;
    assert(u[n] == (k, f));
    assert forall|j: int| 0 <= j < n implies #[trigger] u[j] == t[j] && t[j].0 != k && t[j].1
        != f by {
        assert(u[j] == t[j]);
        if t[j].0 == k {
            assert(has_key(t, k)) by {
                assert(0 <= j <= t.len() - 1 && t[j].0 == k);
            }
        }
        if t[j].1 == f {
            assert(has_flow(t, f)) by {
                assert(0 <= j <= t.len() - 1 && t[j].1 == f);
            }
        }
    }
    assert forall|a: int, b: int| 0 <= a < b < u.len() implies (#[trigger] u[a]).0 != (
    #[trigger] u[b]).0 && u[a].1 != u[b].1 by {
        if b < n {
            assert(u[a] == t[a] && u[b] == t[b]);
            assert(t[a].0 != t[b].0 && t[a].1 != t[b].1);
        } else {
            assert(u[a] == t[a] && u[b] == (k, f));
        }
    }
    lemma_index_is(u, n);
    assert forall|k2: TransKey|
        k2 != k implies (#[trigger] has_key(u, k2) <==> has_key(t, k2)) by {
        if has_key(u, k2) {
            let j = key_index(u, k2);
            lemma_index_is(u, j);
            assert(j < n);
            assert(has_key(t, k2)) by {
                assert(0 <= j <= t.len() - 1 && t[j].0 == k2);
            }
        }
        if has_key(t, k2) {
            let j = key_index(t, k2);
            lemma_index_is(t, j);
            assert(has_key(u, k2)) by {
                assert(0 <= j <= u.len() - 1 && u[j].0 == k2);
            }
        }
    }
    assert forall|f2: Flow|
        f2 != f implies (#[trigger] has_flow(u, f2) <==> has_flow(t, f2)) by {
        if has_flow(u, f2) {
            let j = flow_index(u, f2);
            lemma_index_is(u, j);
            assert(j < n);
            assert(has_flow(t, f2)) by {
                assert(0 <= j <= t.len() - 1 && t[j].1 == f2);
            }
        }
        if has_flow(t, f2) {
            let j = flow_index(t, f2);
            lemma_index_is(t, j);
            assert(has_flow(u, f2)) by {
                assert(0 <= j <= u.len() - 1 && u[j].1 == f2);
            }
        }
    }
    assert forall|k2: TransKey|
        k2 != k && has_key(t, k2) implies #[trigger] value_of(u, k2) == value_of(t, k2) by {
        let j = key_index(t, k2);
        lemma_index_is(t, j);
        lemma_index_is(u, j);
    }
    assert forall|f2: Flow|
        f2 != f && has_flow(t, f2) implies #[trigger] key_of(u, f2) == key_of(t, f2) by {
        let j = flow_index(t, f2);
        lemma_index_is(t, j);
        lemma_index_is(u, j);
    }
}

/// An insert keeps the table well formed and within capacity, and the new
/// pair is what both lookups then find.
pub proof fn lemma_spec_push(s: Seq<(TransKey, Flow)>, cap: nat, k: TransKey, f: Flow)
    requires
        entries_wf(s),
        s.len() <= cap,
        1 <= cap,
    ensures
        ({
            let r = spec_push(s, cap, k, f);
            &&& entries_wf(r)
            &&& 1 <= r.len() <= cap
            &&& has_key(r, k) && value_of(r, k) == f
            &&& has_flow(r, f) && key_of(r, f) == k
            &&& r.last() == (k, f)
        }),
{
    let s1a = drop_key(s, k);
    if has_key(s, k) {
        lemma_index_is(s, key_index(s, k));
        lemma_remove_keeps(s, key_index(s, k));
    }
    assert(entries_wf(s1a) && !has_key(s1a, k) && s1a.len() <= s.len());
    let s1 = drop_flow(s1a, f);
    if has_flow(s1a, f) {
        lemma_index_is(s1a, flow_index(s1a, f));
        lemma_remove_keeps(s1a, flow_index(s1a, f));
    }
    assert(entries_wf(s1) && !has_key(s1, k) && !has_flow(s1, f) && s1.len() <= s.len());
    let s2 = if s1.len() >= cap {
        s1.remove(0)
    } else {
        s1
    };
    if s1.len() >= cap {
        lemma_remove_keeps(s1, 0);
    }
    assert(entries_wf(s2) && !has_key(s2, k) && !has_flow(s2, f) && s2.len() < cap);
    lemma_push_keeps(s2, k, f);
}

/// A lookup's recency refresh keeps the table well formed, keeps its length,
/// and changes no pairing.
pub proof fn lemma_spec_touch_key(s: Seq<(TransKey, Flow)>, k: TransKey)
    requires
        entries_wf(s),
    ensures
        entries_wf(spec_touch_key(s, k)),
        spec_touch_key(s, k).len() == s.len(),
        forall|k2: TransKey| #[trigger] has_key(spec_touch_key(s, k), k2) <==> has_key(s, k2),
        forall|k2: TransKey|
            has_key(s, k2) ==> #[trigger] value_of(spec_touch_key(s, k), k2) == value_of(s, k2),
        forall|f2: Flow| #[trigger] has_flow(spec_touch_key(s, k), f2) <==> has_flow(s, f2),
        forall|f2: Flow|
            has_flow(s, f2) ==> #[trigger] key_of(spec_touch_key(s, k), f2) == key_of(s, f2),
{
    if has_key(s, k) {
        let i = key_index(s, k);
        lemma_index_is(s, i);
        lemma_touch_at(s, i);
    }
}

/// The flow-side counterpart of `lemma_spec_touch_key`.
pub proof fn lemma_spec_touch_flow(s: Seq<(TransKey, Flow)>, f: Flow)
    requires
        entries_wf(s),
    ensures
        entries_wf(spec_touch_flow(s, f)),
        spec_touch_flow(s, f).len() == s.len(),
        forall|k2: TransKey| #[trigger] has_key(spec_touch_flow(s, f), k2) <==> has_key(s, k2),
        forall|k2: TransKey|
            has_key(s, k2) ==> #[trigger] value_of(spec_touch_flow(s, f), k2) == value_of(s, k2),
        forall|f2: Flow| #[trigger] has_flow(spec_touch_flow(s, f), f2) <==> has_flow(s, f2),
        forall|f2: Flow|
            has_flow(s, f2) ==> #[trigger] key_of(spec_touch_flow(s, f), f2) == key_of(s, f2),
{
    if has_flow(s, f) {
        let i = flow_index(s, f);
        lemma_index_is(s, i);
        lemma_touch_at(s, i);
    }
}

/// Moving the entry at `i` to the most recently used position changes no
/// pairing.
proof fn lemma_touch_at(s: Seq<(TransKey, Flow)>, i: int)
    requires
        entries_wf(s),
        0 <= i < s.len(),
    ensures
        ({
            let r = s.remove(i).push(s[i]);
            &&& entries_wf(r)
            &&& r.len() == s.len()
            &&& forall|k2: TransKey| #[trigger] has_key(r, k2) <==> has_key(s, k2)
            &&& forall|k2: TransKey|
                has_key(s, k2) ==> #[trigger] value_of(r, k2) == value_of(s, k2)
            &&& forall|f2: Flow| #[trigger] has_flow(r, f2) <==> has_flow(s, f2)
            &&& forall|f2: Flow| has_flow(s, f2) ==> #[trigger] key_of(r, f2) == key_of(s, f2)
        }),
{
    let t = s.remove(i);
    let e = s[i];
    let r = t.push(e);
    lemma_remove_keeps(s, i);
    lemma_push_keeps(t, e.0, e.1);
    lemma_index_is(s, i);
    assert forall|k2: TransKey| #[trigger] has_key(r, k2) implies has_key(s, k2) by {
        if k2 != e.0 {
            assert(has_key(t, k2));
        }
    }
    assert forall|k2: TransKey| has_key(s, k2) implies #[trigger] has_key(r, k2) by {
        if k2 != e.0 {
            assert(has_key(t, k2));
        }
    }
    assert forall|k2: TransKey| has_key(s, k2) implies #[trigger] value_of(r, k2) == value_of(
        s,
        k2,
    ) by {
        if k2 == e.0 {
            assert(value_of(s, k2) == e.1);
        } else {
            assert(has_key(t, k2));
            assert(value_of(t, k2) == value_of(s, k2));
            assert(value_of(r, k2) == value_of(t, k2));
        }
    }
    assert forall|f2: Flow| #[trigger] has_flow(r, f2) implies has_flow(s, f2) by {
        if f2 != e.1 {
            assert(has_flow(t, f2));
        }
    }
    assert forall|f2: Flow| has_flow(s, f2) implies #[trigger] has_flow(r, f2) by {
        if f2 != e.1 {
            assert(has_flow(t, f2));
        }
    }
    assert forall|f2: Flow| has_flow(s, f2) implies #[trigger] key_of(r, f2) == key_of(s, f2) by {
        if f2 == e.1 {
            assert(key_of(s, f2) == e.0);
        } else {
            assert(has_flow(t, f2));
            assert(key_of(t, f2) == key_of(s, f2));
            assert(key_of(r, f2) == key_of(t, f2));
        }
    }
}

/// Law: the table is a bijection. At any moment, looking a present key up
/// and then looking the found flow up returns the original key, and
/// symmetrically starting from a flow. Since every operation keeps
/// `entries_wf`, this holds of every reachable table state.
pub proof fn lemma_bijection(s: Seq<(TransKey, Flow)>)
    requires
        entries_wf(s),
    ensures
        forall|k: TransKey|
            #[trigger] has_key(s, k) ==> has_flow(s, value_of(s, k)) && key_of(s, value_of(s, k))
                == k,
        forall|f: Flow|
            #[trigger] has_flow(s, f) ==> has_key(s, key_of(s, f)) && value_of(s, key_of(s, f))
                == f,
{
    assert forall|k: TransKey| #[trigger] has_key(s, k) implies has_flow(s, value_of(s, k))
        && key_of(s, value_of(s, k)) == k by {
        let i = key_index(s, k);
        lemma_index_is(s, i);
    }
    assert forall|f: Flow| #[trigger] has_flow(s, f) implies has_key(s, key_of(s, f)) && value_of(
        s,
        key_of(s, f),
    ) == f by {
        let i = flow_index(s, f);
        lemma_index_is(s, i);
    }
}

/// The table state after inserting a run of pairs, oldest first, into an
/// empty table with no intervening lookups.
pub open spec fn fill(cap: nat, pairs: Seq<(TransKey, Flow)>) -> Seq<(TransKey, Flow)>
    decreases pairs.len(),
{
    if pairs.len() == 0 {
        Seq::empty()
    } else {
        spec_push(fill(cap, pairs.drop_last()), cap, pairs.last().0, pairs.last().1)
    }
}

/// Every sequence of inserts, from the empty table, keeps the table well
/// formed and within capacity — so `lemma_bijection` applies at every point
/// in time, whatever was inserted.
pub proof fn lemma_fill_wf(cap: nat, pairs: Seq<(TransKey, Flow)>)
    requires
        1 <= cap,
    ensures
        entries_wf(fill(cap, pairs)),
        fill(cap, pairs).len() <= cap,
    decreases pairs.len(),
{
    if pairs.len() > 0 {
        lemma_fill_wf(cap, pairs.drop_last());
        lemma_spec_push(fill(cap, pairs.drop_last()), cap, pairs.last().0, pairs.last().1);
    }
}

/// While the run of pairwise distinct inserts fits the capacity, nothing is
/// evicted: the table holds exactly the run, in insertion order.
pub proof fn lemma_fill_under_cap(cap: nat, pairs: Seq<(TransKey, Flow)>)
    requires
        1 <= cap,
        entries_wf(pairs),
        pairs.len() <= cap,
    ensures
        fill(cap, pairs) == pairs,
    decreases pairs.len(),
{
    if pairs.len() == 0 {
        assert(fill(cap, pairs) =~= pairs);
    } else {
        let dl = pairs.drop_last();
        let last = pairs.last();
        let n = pairs.len() as int;
        assert(entries_wf(dl)) by {
            assert(forall|j: int| 0 <= j < dl.len() ==> #[trigger] dl[j] == pairs[j]);
        }
        lemma_fill_under_cap(cap, dl);
        assert(!has_key(dl, last.0)) by {
            if has_key(dl, last.0) {
                let j = key_index(dl, last.0);
                assert(dl[j] == pairs[j]);
                assert(pairs[j].0 != pairs[n - 1].0);
            }
        }
        assert(!has_flow(dl, last.1)) by {
            if has_flow(dl, last.1) {
                let j = flow_index(dl, last.1);
                assert(dl[j] == pairs[j]);
                assert(pairs[j].1 != pairs[n - 1].1);
            }
        }
        assert(fill(cap, pairs) =~= pairs) by {
            assert(drop_key(dl, last.0) == dl);
            assert(drop_flow(dl, last.1) == dl);
            assert(dl.len() < cap);
        }
    }
}

/// Law: capacity bound. After inserting `cap + 1` pairwise distinct pairs
/// into an empty table with no intervening lookups, exactly `cap` pairs
/// remain, and the pair evicted is the first one inserted.
pub proof fn lemma_capacity_bound(cap: nat, pairs: Seq<(TransKey, Flow)>)
    requires
        1 <= cap,
        entries_wf(pairs),
        pairs.len() == cap + 1,
    ensures
        fill(cap, pairs) == pairs.subrange(1, pairs.len() as int),
        fill(cap, pairs).len() == cap,
        !has_key(fill(cap, pairs), pairs[0].0),
        !has_flow(fill(cap, pairs), pairs[0].1),
        forall|i: int|
            1 <= i < pairs.len() ==> has_key(fill(cap, pairs), (#[trigger] pairs[i]).0),
{
    let dl = pairs.drop_last();
    let last = pairs.last();
    let n = pairs.len() as int;
    assert(entries_wf(dl)) by {
        assert(forall|j: int| 0 <= j < dl.len() ==> #[trigger] dl[j] == pairs[j]);
    }
    lemma_fill_under_cap(cap, dl);
    assert(!has_key(dl, last.0)) by {
        if has_key(dl, last.0) {
            let j = key_index(dl, last.0);
            assert(dl[j] == pairs[j]);
            assert(pairs[j].0 != pairs[n - 1].0);
        }
    }
    assert(!has_flow(dl, last.1)) by {
        if has_flow(dl, last.1) {
            let j = flow_index(dl, last.1);
            assert(dl[j] == pairs[j]);
            assert(pairs[j].1 != pairs[n - 1].1);
        }
    }
    assert(drop_key(dl, last.0) == dl);
    assert(drop_flow(dl, last.1) == dl);
    dl.remove_ensures(0);
    let r = fill(cap, pairs);
    assert(r =~= pairs.subrange(1, n));
    assert forall|i: int| 1 <= i < n implies has_key(r, (#[trigger] pairs[i]).0) by {
        assert(r[i - 1] == pairs[i]);
        assert(has_key(r, pairs[i].0)) by {
            assert(0 <= i - 1 <= r.len() - 1 && r[i - 1].0 == pairs[i].0);
        }
    }
    assert(!has_key(r, pairs[0].0)) by {
        if has_key(r, pairs[0].0) {
            let j = key_index(r, pairs[0].0);
            assert(r[j] == pairs[j + 1]);
            assert(pairs[0].0 != pairs[j + 1].0);
        }
    }
    assert(!has_flow(r, pairs[0].1)) by {
        if has_flow(r, pairs[0].1) {
            let j = flow_index(r, pairs[0].1);
            assert(r[j] == pairs[j + 1]);
            assert(pairs[0].1 != pairs[j + 1].1);
        }
    }
}

/// The bijective bounded cache itself.
pub struct BijectiveLru {
    entries: Vec<(TransKey, Flow)>,
    cap: usize,
}

impl View for BijectiveLru {
    type V = Seq<(TransKey, Flow)>;

    closed spec fn view(&self) -> Seq<(TransKey, Flow)> {
        self.entries@
    }
}

impl BijectiveLru {
    /// The fixed capacity chosen at construction.
    pub closed spec fn capacity(&self) -> nat {
        self.cap as nat
    }

    /// Well-formedness: the bijection invariant, and both sides within the
    /// (positive) capacity.
    pub open spec fn wf(&self) -> bool {
        &&& entries_wf(self@)
        &&& self@.len() <= self.capacity()
        &&& 1 <= self.capacity()
    }

    /// Makes an empty table of the given capacity.
    pub fn new(cap: usize) -> (r: BijectiveLru)
        requires
            1 <= cap,
        ensures
            r.wf(),
            r@ == Seq::<(TransKey, Flow)>::empty(),
            r.capacity() == cap,
    {
        BijectiveLru { entries: Vec::new(), cap }
    }

    /// How many pairs the table holds.
    pub fn len(&self) -> (r: usize)
        ensures
            r == self@.len(),
    {
        self.entries.len()
    }

    /// Finds the position of the entry carrying `key`, without refreshing
    /// recency.
    fn find_key(&self, key: &TransKey) -> (r: Option<usize>)
        requires
            entries_wf(self@),
        ensures
            match r {
                Some(i) => i < self@.len() && self@[i as int].0 == *key && has_key(self@, *key)
                    && key_index(self@, *key) == i,
                None => !has_key(self@, *key),
            },
    {
        let n = self.entries.len();
        let mut idx: usize = 0;
        while idx < n
            invariant
                n == self@.len(),
                idx <= n,
                entries_wf(self@),
                forall|j: int| 0 <= j < idx ==> (#[trigger] self@[j]).0 != *key,
            decreases n - idx,
        {
            if self.entries[idx].0 == *key {
                proof {
                    lemma_index_is(self@, idx as int);
                }
                return Some(idx);
            }
            idx += 1;
        }
        return None;
    }

    /// Finds the position of the entry carrying `value`, without refreshing
    /// recency.
    fn find_flow(&self, value: &Flow) -> (r: Option<usize>)
        requires
            entries_wf(self@),
        ensures
            match r {
                Some(i) => i < self@.len() && self@[i as int].1 == *value && has_flow(self@, *value)
                    && flow_index(self@, *value) == i,
                None => !has_flow(self@, *value),
            },
    {
        let n = self.entries.len();
        let mut idx: usize = 0;
        while idx < n
            invariant
                n == self@.len(),
                idx <= n,
                entries_wf(self@),
                forall|j: int| 0 <= j < idx ==> (#[trigger] self@[j]).1 != *value,
            decreases n - idx,
        {
            if self.entries[idx].1 == *value {
                proof {
                    lemma_index_is(self@, idx as int);
                }
                return Some(idx);
            }
            idx += 1;
        }
        return None;
    }

    /// Whether a key is present, without refreshing recency.
    pub fn contains_key(&self, key: &TransKey) -> (r: bool)
        requires
            entries_wf(self@),
        ensures
            r == has_key(self@, *key),
    {
        self.find_key(key).is_some()
    }

    /// The key paired with a flow, if any, without refreshing recency.
    pub fn peek_key(&self, value: &Flow) -> (r: Option<TransKey>)
        requires
            entries_wf(self@),
        ensures
            r == if has_flow(self@, *value) {
                Some(key_of(self@, *value))
            } else {
                None::<TransKey>
            },
    {
        match self.find_flow(value) {
            Some(i) => Some(self.entries[i].0),
            None => None,
        }
    }

    /// Returns the flow paired with `key`, refreshing the pair's recency on
    /// both sides.
    pub fn get_value(&mut self, key: &TransKey) -> (r: Option<Flow>)
        requires
            old(self).wf(),
        ensures
            final(self).wf(),
            final(self).capacity() == old(self).capacity(),
            final(self)@ == spec_touch_key(old(self)@, *key),
            r == if has_key(old(self)@, *key) {
                Some(value_of(old(self)@, *key))
            } else {
                None::<Flow>
            },
    {
        proof {
            lemma_spec_touch_key(old(self)@, *key);
        }
        match self.find_key(key) {
            Some(i) => {
                let e = self.entries[i];
                self.entries.remove(i);
                self.entries.push(e);
                Some(e.1)
            },
            None => None,
        }
    }

    /// Returns the key paired with `value`, refreshing the pair's recency on
    /// both sides.
    pub fn get_key(&mut self, value: &Flow) -> (r: Option<TransKey>)
        requires
            old(self).wf(),
        ensures
            final(self).wf(),
            final(self).capacity() == old(self).capacity(),
            final(self)@ == spec_touch_flow(old(self)@, *value),
            r == if has_flow(old(self)@, *value) {
                Some(key_of(old(self)@, *value))
            } else {
                None::<TransKey>
            },
    {
        proof {
            lemma_spec_touch_flow(old(self)@, *value);
        }
        match self.find_flow(value) {
            Some(i) => {
                let e = self.entries[i];
                self.entries.remove(i);
                self.entries.push(e);
                Some(e.0)
            },
            None => None,
        }
    }

    /// Establishes `key <-> value` as the most recently used pair. Any entry
    /// sharing the key or the flow leaves together with its partner, and the
    /// least recently used pair is evicted (and returned) if the table would
    /// overflow. The bijection therefore never degrades to a one-sided
    /// mapping.
    pub fn push(&mut self, key: TransKey, value: Flow) -> (r: Option<(TransKey, Flow)>)
        requires
            old(self).wf(),
        ensures
            final(self).wf(),
            final(self).capacity() == old(self).capacity(),
            final(self)@ == spec_push(old(self)@, old(self).capacity(), key, value),
            r == spec_push_evicted(old(self)@, old(self).capacity(), key, value),
    {
        proof {
            lemma_spec_push(old(self)@, old(self).capacity(), key, value);
        }
        if let Some(i) = self.find_key(&key) {
            self.entries.remove(i);
            proof {
                lemma_remove_keeps(old(self)@, i as int);
            }
        }
        assert(self@ == drop_key(old(self)@, key));
        assert(entries_wf(self@) && self@.len() <= old(self).capacity());
        if let Some(j) = self.find_flow(&value) {
            let ghost mid = self@;
            self.entries.remove(j);
            proof {
                lemma_remove_keeps(mid, j as int);
            }
        }
        assert(self@ == drop_flow(drop_key(old(self)@, key), value));
        assert(entries_wf(self@) && self@.len() <= old(self).capacity());
        let evicted = if self.entries.len() == self.cap {
            Some(self.entries.remove(0))
        } else {
            None
        };
        self.entries.push((key, value));
        evicted
    }
}

} // verus!

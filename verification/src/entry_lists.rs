//! Listings of the range entries of a sheet: the keys of range targets that
//! a position reaches through the entries depend only on the entries, not
//! on the order in which they are walked.
use vstd::prelude::*;
use crate::sheet_functions::{
    CellInfo, RangeTargets, covered, dep_key, in_rect, other_than, target_added, target_dropped, target_key,
    range_keys, entry_keys, entry_values, lemma_range_keys_concat,
};
use vstd::multiset::Multiset;
use vstd::std_specs::iter::IteratorSpec;
use std::collections::HashMap;

verus! {

/// `w` lists the entries of `t`: each of its pairs is an entry of `t`,
/// every key of `t` occurs, and no key occurs twice.
pub open spec fn is_listing(w: Seq<(i64, RangeTargets)>, t: Map<i64, RangeTargets>) -> bool {
    &&& forall|i: int, j: int| 0 <= i < j < w.len() ==> (#[trigger] w[i]).0 != (#[trigger] w[j]).0
    &&& forall|i: int| 0 <= i < w.len() ==> t.contains_key((#[trigger] w[i]).0) && t[w[i].0] == w[i].1
    &&& forall|k: i64| #[trigger] t.contains_key(k) ==> exists|i: int| 0 <= i < w.len() && (#[trigger] w[i]).0 == k
}

/// The entries of a listing, in its order.
pub open spec fn listed_values(w: Seq<(i64, RangeTargets)>) -> Seq<RangeTargets> {
    w.map_values(|p: (i64, RangeTargets)| p.1)
}

/// The keys of the targets of the entries listed in `w` whose rectangle
/// holds `(row, col)`, each counted as often as it occurs.
pub open spec fn listed_keys(w: Seq<(i64, RangeTargets)>, row: int, col: int) -> Multiset<i32> {
    range_keys(listed_values(w), row, col).to_multiset()
}

/// The keys of the targets of entry `e` at `(row, col)`, counted.
pub open spec fn entry_ms(e: RangeTargets, row: int, col: int) -> Multiset<i32> {
    entry_keys(e, row, col).to_multiset()
}

/// Taking out the entry at `i` takes out its keys.
pub(crate) proof fn lemma_range_keys_split(es: Seq<RangeTargets>, i: int, row: int, col: int)
    requires
        0 <= i < es.len(),
    ensures
        range_keys(es, row, col).to_multiset() =~= range_keys(es.remove(i), row, col).to_multiset().add(
            entry_ms(es[i], row, col),
        ),
{
    broadcast use vstd::multiset::group_multiset_axioms;

    let a = es.subrange(0, i);
    let x = seq![es[i]];
    let b = es.subrange(i + 1, es.len() as int);
    assert(es =~= a + x + b);
    assert(es.remove(i) =~= a + b);
    lemma_range_keys_concat(a + x, b, row, col);
    lemma_range_keys_concat(a, x, row, col);
    lemma_range_keys_concat(a, b, row, col);
    assert(x.drop_last() =~= Seq::<RangeTargets>::empty());
    assert(range_keys(x.drop_last(), row, col) =~= Seq::<i32>::empty());
    assert(x.last() == es[i]);
    assert(range_keys(x, row, col) =~= entry_keys(es[i], row, col));
    let ra = range_keys(a, row, col);
    let rb = range_keys(b, row, col);
    let rx = range_keys(x, row, col);
    vstd::seq_lib::lemma_multiset_commutative(ra + rx, rb);
    vstd::seq_lib::lemma_multiset_commutative(ra, rx);
    vstd::seq_lib::lemma_multiset_commutative(ra, rb);
}

/// Two listings of the same entries give the same keys at every position.
pub proof fn lemma_listings_agree(
    w1: Seq<(i64, RangeTargets)>,
    w2: Seq<(i64, RangeTargets)>,
    t: Map<i64, RangeTargets>,
    row: int,
    col: int,
)
    requires
        is_listing(w1, t),
        is_listing(w2, t),
    ensures
        listed_keys(w1, row, col) =~= listed_keys(w2, row, col),
    decreases w1.len(),
{
    broadcast use vstd::multiset::group_multiset_axioms;

    if w1.len() == 0 {
        if w2.len() > 0 {
            assert(t.contains_key(w2[0].0));
            let i = choose|i: int| 0 <= i < w1.len() && (#[trigger] w1[i]).0 == w2[0].0;
        }
        assert(listed_values(w1) =~= Seq::<RangeTargets>::empty());
        assert(listed_values(w2) =~= Seq::<RangeTargets>::empty());
    } else {
        let x = w1.last();
        let t2 = t.remove(x.0);
        let a = w1.drop_last();
        assert(t.contains_key(x.0));
        let i = choose|i: int| 0 <= i < w2.len() && (#[trigger] w2[i]).0 == x.0;
        assert(w2[i] == x);
        let b = w2.remove(i);
        assert forall|k: i64| #[trigger] t2.contains_key(k) implies exists|j: int| 0 <= j < a.len() && (#[trigger] a[j]).0 == k by {
            let j = choose|j: int| 0 <= j < w1.len() && (#[trigger] w1[j]).0 == k;
            assert(j != w1.len() - 1);
            assert(a[j] == w1[j]);
        }
        assert forall|j: int| 0 <= j < a.len() implies t2.contains_key((#[trigger] a[j]).0) && t2[a[j].0] == a[j].1 by {
            assert(a[j] == w1[j]);
            assert(w1[j].0 != w1[w1.len() - 1].0);
        }
        assert forall|j1: int, j2: int| 0 <= j1 < j2 < a.len() implies (#[trigger] a[j1]).0 != (#[trigger] a[j2]).0 by {
            assert(a[j1] == w1[j1] && a[j2] == w1[j2]);
        }
        assert(is_listing(a, t2));
        assert forall|k: i64| #[trigger] t2.contains_key(k) implies exists|j: int| 0 <= j < b.len() && (#[trigger] b[j]).0 == k by {
            let j = choose|j: int| 0 <= j < w2.len() && (#[trigger] w2[j]).0 == k;
            assert(j != i);
            if j < i {
                assert(b[j] == w2[j]);
            } else {
                assert(b[j - 1] == w2[j]);
            }
        }
        assert forall|j: int| 0 <= j < b.len() implies t2.contains_key((#[trigger] b[j]).0) && t2[b[j].0] == b[j].1 by {
            if j < i {
                assert(b[j] == w2[j]);
                assert(w2[j].0 != w2[i].0);
            } else {
                assert(b[j] == w2[j + 1]);
                assert(w2[j + 1].0 != w2[i].0);
            }
        }
        assert forall|j1: int, j2: int| 0 <= j1 < j2 < b.len() implies (#[trigger] b[j1]).0 != (#[trigger] b[j2]).0 by {
            let o1 = if j1 < i { j1 } else { j1 + 1 };
            let o2 = if j2 < i { j2 } else { j2 + 1 };
            assert(b[j1] == w2[o1] && b[j2] == w2[o2]);
        }
        assert(is_listing(b, t2));
        lemma_listings_agree(a, b, t2, row, col);
        assert(listed_values(a) =~= listed_values(w1).drop_last());
        assert(listed_values(b) =~= listed_values(w2).remove(i));
        lemma_range_keys_split(listed_values(w2), i, row, col);
        assert(listed_values(w1).last() == x.1);
        assert(listed_values(w2)[i] == x.1);
        vstd::seq_lib::lemma_multiset_commutative(
            range_keys(listed_values(a), row, col),
            entry_keys(x.1, row, col),
        );
    }
}

/// The walk of a map of range entries lists its entries, and the entries
/// it gives are those of the listing.
pub proof fn lemma_walk_listing(t: HashMap<i64, RangeTargets>)
    ensures
        is_listing(vstd::std_specs::hash::spec_hash_map_iter(&t).remaining().unref(), t@),
        listed_values(vstd::std_specs::hash::spec_hash_map_iter(&t).remaining().unref()) == entry_values(
            vstd::std_specs::hash::spec_hash_map_iter(&t).remaining(),
        ),
{
    broadcast use vstd::std_specs::hash::axiom_spec_hash_map_iter, vstd::std_specs::hash::axiom_hashmap_view_finite_dom;

    let v = vstd::std_specs::hash::spec_hash_map_iter(&t).remaining();
    let w = v.unref();
    let ks = Seq::new(v.len(), |i: int| *v[i].0);
    assert forall|k: i64| ks.to_set().contains(k) <==> t@.dom().contains(k) by {
        if ks.to_set().contains(k) {
            let i = choose|i: int| 0 <= i < ks.len() && ks[i] == k;
            assert(t@.contains_key(*v[i].0));
        }
        if t@.contains_key(k) {
            assert(v.contains((&k, &t@[k])));
            let i = choose|i: int| 0 <= i < v.len() && v[i] == (&k, &t@[k]);
            assert(ks[i] == k);
        }
    }
    assert(ks.to_set() =~= t@.dom());
    ks.lemma_no_dup_set_cardinality();
    assert forall|i: int, j: int| 0 <= i < j < w.len() implies (#[trigger] w[i]).0 != (#[trigger] w[j]).0 by {
        assert(w[i].0 == ks[i] && w[j].0 == ks[j]);
    }
    assert forall|i: int| 0 <= i < w.len() implies t@.contains_key((#[trigger] w[i]).0) && t@[w[i].0] == w[i].1 by {
        assert(t@.contains_key(*v[i].0) && t@[*v[i].0] == *v[i].1);
    }
    assert forall|k: i64| #[trigger] t@.contains_key(k) implies exists|i: int| 0 <= i < w.len() && (#[trigger] w[i]).0 == k by {
        assert(ks.to_set().contains(k));
        let i = choose|i: int| 0 <= i < ks.len() && ks[i] == k;
        assert(w[i].0 == k);
    }
    assert(listed_values(w) =~= entry_values(v));
}

/// A listing of `t` with the entry under `k` set to `e`: its keys gain
/// those of `e` and lose those of the entry it replaces.
pub(crate) proof fn lemma_listing_insert(
    w: Seq<(i64, RangeTargets)>,
    t: Map<i64, RangeTargets>,
    k: i64,
    e: RangeTargets,
    row: int,
    col: int,
) -> (w2: Seq<(i64, RangeTargets)>)
    requires
        is_listing(w, t),
    ensures
        is_listing(w2, t.insert(k, e)),
        listed_keys(w2, row, col).add(
            if t.contains_key(k) {
                entry_ms(t[k], row, col)
            } else {
                Multiset::empty()
            },
        ) =~= listed_keys(w, row, col).add(entry_ms(e, row, col)),
{
    broadcast use vstd::multiset::group_multiset_axioms;

    let t2 = t.insert(k, e);
    if t.contains_key(k) {
        let i = choose|i: int| 0 <= i < w.len() && (#[trigger] w[i]).0 == k;
        let w2 = w.update(i, (k, e));
        assert forall|j1: int, j2: int| 0 <= j1 < j2 < w2.len() implies (#[trigger] w2[j1]).0 != (#[trigger] w2[j2]).0 by {
            assert(w[j1].0 != w[j2].0);
        }
        assert forall|j: int| 0 <= j < w2.len() implies t2.contains_key((#[trigger] w2[j]).0) && t2[w2[j].0] == w2[j].1 by {
            if j != i {
                assert(w[j].0 != w[i].0);
            }
        }
        assert forall|q: i64| #[trigger] t2.contains_key(q) implies exists|j: int| 0 <= j < w2.len() && (#[trigger] w2[j]).0 == q by {
            if q != k {
                let j = choose|j: int| 0 <= j < w.len() && (#[trigger] w[j]).0 == q;
                assert(w2[j].0 == q);
            } else {
                assert(w2[i].0 == q);
            }
        }
        let es = listed_values(w);
        let es2 = listed_values(w2);
        lemma_range_keys_split(es, i, row, col);
        lemma_range_keys_split(es2, i, row, col);
        assert(es.remove(i) =~= es2.remove(i));
        assert(es[i] == t[k]);
        assert(es2[i] == e);
        w2
    } else {
        let w2 = w.push((k, e));
        assert forall|j1: int, j2: int| 0 <= j1 < j2 < w2.len() implies (#[trigger] w2[j1]).0 != (#[trigger] w2[j2]).0 by {
            if j2 < w.len() {
                assert(w[j1].0 != w[j2].0);
            } else {
                assert(t.contains_key(w[j1].0));
            }
        }
        assert forall|j: int| 0 <= j < w2.len() implies t2.contains_key((#[trigger] w2[j]).0) && t2[w2[j].0] == w2[j].1 by {
            if j < w.len() {
                assert(w2[j] == w[j]);
                assert(t.contains_key(w[j].0));
            }
        }
        assert forall|q: i64| #[trigger] t2.contains_key(q) implies exists|j: int| 0 <= j < w2.len() && (#[trigger] w2[j]).0 == q by {
            if q != k {
                let j = choose|j: int| 0 <= j < w.len() && (#[trigger] w[j]).0 == q;
                assert(w2[j].0 == q);
            } else {
                assert(w2[w.len() as int].0 == q);
            }
        }
        let es = listed_values(w);
        let es2 = listed_values(w2);
        lemma_range_keys_split(es2, w.len() as int, row, col);
        assert(es2.remove(w.len() as int) =~= es);
        w2
    }
}

/// A listing of `t` without the entry under `k`: its keys lose those of
/// that entry.
pub(crate) proof fn lemma_listing_remove(
    w: Seq<(i64, RangeTargets)>,
    t: Map<i64, RangeTargets>,
    k: i64,
    row: int,
    col: int,
) -> (w2: Seq<(i64, RangeTargets)>)
    requires
        is_listing(w, t),
    ensures
        is_listing(w2, t.remove(k)),
        listed_keys(w2, row, col).add(
            if t.contains_key(k) {
                entry_ms(t[k], row, col)
            } else {
                Multiset::empty()
            },
        ) =~= listed_keys(w, row, col),
{
    broadcast use vstd::multiset::group_multiset_axioms;

    let t2 = t.remove(k);
    if t.contains_key(k) {
        let i = choose|i: int| 0 <= i < w.len() && (#[trigger] w[i]).0 == k;
        let w2 = w.remove(i);
        assert forall|j1: int, j2: int| 0 <= j1 < j2 < w2.len() implies (#[trigger] w2[j1]).0 != (#[trigger] w2[j2]).0 by {
            let o1 = if j1 < i { j1 } else { j1 + 1 };
            let o2 = if j2 < i { j2 } else { j2 + 1 };
            assert(w2[j1] == w[o1] && w2[j2] == w[o2]);
        }
        assert forall|j: int| 0 <= j < w2.len() implies t2.contains_key((#[trigger] w2[j]).0) && t2[w2[j].0] == w2[j].1 by {
            let o = if j < i { j } else { j + 1 };
            assert(w2[j] == w[o]);
            assert(w[o].0 != w[i].0);
        }
        assert forall|q: i64| #[trigger] t2.contains_key(q) implies exists|j: int| 0 <= j < w2.len() && (#[trigger] w2[j]).0 == q by {
            let j = choose|j: int| 0 <= j < w.len() && (#[trigger] w[j]).0 == q;
            assert(j != i);
            if j < i {
                assert(w2[j] == w[j]);
            } else {
                assert(w2[j - 1] == w[j]);
            }
        }
        let es = listed_values(w);
        lemma_range_keys_split(es, i, row, col);
        assert(listed_values(w2) =~= es.remove(i));
        assert(es[i] == t[k]);
        w2
    } else {
        assert(t2 =~= t);
        w
    }
}

/// The dependency keys of the targets `ts`, in order.
pub open spec fn keys_of_targets(ts: Seq<(i16, i16)>) -> Seq<i32> {
    Seq::new(ts.len(), |t: int| dep_key(ts[t].1 as int, ts[t].0 as int) as i32)
}

/// Dropping target `pt` drops no key but that of `pt`.
pub(crate) proof fn lemma_filter_keys(ts: Seq<(i16, i16)>, pt: (i16, i16), v: i32)
    ensures
        keys_of_targets(ts.filter(other_than(pt))).to_multiset().count(v) <= keys_of_targets(ts).to_multiset().count(v),
        v != dep_key(pt.1 as int, pt.0 as int) as i32 ==> keys_of_targets(ts.filter(other_than(pt))).to_multiset().count(v)
            == keys_of_targets(ts).to_multiset().count(v),
    decreases ts.len(),
{
    broadcast use vstd::multiset::group_multiset_axioms, vstd::seq_lib::group_to_multiset_ensures;

    if ts.len() > 0 {
        let a = ts.drop_last();
        let x = ts.last();
        lemma_filter_keys(a, pt, v);
        assert(keys_of_targets(ts) =~= keys_of_targets(a).push(dep_key(x.1 as int, x.0 as int) as i32));
        let f = a.filter(other_than(pt));
        assert(ts =~= a.push(x));
        a.lemma_filter_push(x, other_than(pt));
        if other_than(pt)(x) {
            assert(ts.filter(other_than(pt)) == f.push(x));
            assert(keys_of_targets(f.push(x)) =~= keys_of_targets(f).push(dep_key(x.1 as int, x.0 as int) as i32));
        } else {
            assert(ts.filter(other_than(pt)) == f);
            assert(x == pt);
        }
    } else {
        reveal(Seq::filter);
        assert(ts.filter(other_than(pt)) == ts);
    }
}

/// The keys of an entry whose rectangle holds the position are those of
/// its targets.
pub(crate) proof fn lemma_entry_keys_targets(e: RangeTargets, row: int, col: int)
    ensures
        in_rect(e, row, col) ==> entry_keys(e, row, col) =~= keys_of_targets(e.targets@),
        !in_rect(e, row, col) ==> entry_ms(e, row, col) =~= Multiset::<i32>::empty(),
{
    broadcast use vstd::seq_lib::group_to_multiset_ensures;

    if !in_rect(e, row, col) {
        assert(entry_keys(e, row, col) =~= Seq::<i32>::empty());
        assert(Seq::<i32>::empty().to_multiset() =~= Multiset::<i32>::empty()) by {
            broadcast use vstd::multiset::group_multiset_axioms;
        }
    }
}

/// Dropping target `pt` from the entry under `k` of `t0`, giving `tr`: a
/// listing of `tr` counts every key at most as often, and every key but
/// that of `pt` as often.
pub(crate) proof fn lemma_drop_step(
    t0: Map<i64, RangeTargets>,
    tr: Map<i64, RangeTargets>,
    k: i64,
    pt: (i16, i16),
    w0: Seq<(i64, RangeTargets)>,
    row: int,
    col: int,
    v: i32,
) -> (wr: Seq<(i64, RangeTargets)>)
    requires
        is_listing(w0, t0),
        target_dropped(t0, tr, k, pt),
    ensures
        is_listing(wr, tr),
        listed_keys(wr, row, col).count(v) <= listed_keys(w0, row, col).count(v),
        v != dep_key(pt.1 as int, pt.0 as int) as i32 ==> listed_keys(wr, row, col).count(v) == listed_keys(
            w0,
            row,
            col,
        ).count(v),
{
    broadcast use vstd::multiset::group_multiset_axioms, vstd::seq_lib::group_to_multiset_ensures;

    if t0.contains_key(k) {
        let e = t0[k];
        let kept = e.targets@.filter(other_than(pt));
        lemma_filter_keys(e.targets@, pt, v);
        lemma_entry_keys_targets(e, row, col);
        if kept.len() == 0 {
            assert(tr == t0.remove(k));
            assert(keys_of_targets(kept) =~= Seq::<i32>::empty());
            assert(keys_of_targets(kept).to_multiset() =~= Multiset::<i32>::empty());
            let w = lemma_listing_remove(w0, t0, k, row, col);
            let m1 = listed_keys(w, row, col).add(entry_ms(e, row, col));
            assert(m1 == listed_keys(w0, row, col));
            assert(m1.count(v) == listed_keys(w0, row, col).count(v));
            w
        } else {
            let e2 = tr[k];
            assert(tr =~= t0.insert(k, e2));
            lemma_entry_keys_targets(e2, row, col);
            assert(in_rect(e2, row, col) == in_rect(e, row, col));
            assert(e2.targets@ == kept);
            let w = lemma_listing_insert(w0, t0, k, e2, row, col);
            let m1 = listed_keys(w, row, col).add(entry_ms(e, row, col));
            let m2 = listed_keys(w0, row, col).add(entry_ms(e2, row, col));
            assert(m1 == m2);
            assert(m1.count(v) == m2.count(v));
            assert(entry_ms(e2, row, col).count(v) <= entry_ms(e, row, col).count(v));
            w
        }
    } else {
        assert(tr == t0);
        w0
    }
}

/// Adding target `pt` to the entry under `k` of `tr` (a new entry over
/// `c1 ..= c2` if none), giving `t1`: a listing of `t1` counts every key
/// but that of `pt` as often, and every key as often where that entry does
/// not hold the position.
pub(crate) proof fn lemma_add_step(
    tr: Map<i64, RangeTargets>,
    t1: Map<i64, RangeTargets>,
    k: i64,
    pt: (i16, i16),
    c1: CellInfo,
    c2: CellInfo,
    wr: Seq<(i64, RangeTargets)>,
    row: int,
    col: int,
    v: i32,
) -> (w1: Seq<(i64, RangeTargets)>)
    requires
        is_listing(wr, tr),
        target_added(tr, t1, k, pt, c1, c2),
    ensures
        is_listing(w1, t1),
        v != dep_key(pt.1 as int, pt.0 as int) as i32 || !in_rect(t1[k], row, col) ==> listed_keys(w1, row, col).count(v)
            == listed_keys(wr, row, col).count(v),
{
    broadcast use vstd::multiset::group_multiset_axioms, vstd::seq_lib::group_to_multiset_ensures;

    let d = dep_key(pt.1 as int, pt.0 as int) as i32;
    let e1 = t1[k];
    assert(t1 =~= tr.insert(k, e1));
    lemma_entry_keys_targets(e1, row, col);
    let w = lemma_listing_insert(wr, tr, k, e1, row, col);
    if tr.contains_key(k) {
        let e = tr[k];
        lemma_entry_keys_targets(e, row, col);
        assert(in_rect(e, row, col) == in_rect(e1, row, col));
        assert(keys_of_targets(e1.targets@) =~= keys_of_targets(e.targets@).push(d));
        let m1 = listed_keys(w, row, col).add(entry_ms(e, row, col));
        let m2 = listed_keys(wr, row, col).add(entry_ms(e1, row, col));
        assert(m1 == m2);
        assert(m1.count(v) == m2.count(v));
        if v != d || !in_rect(e1, row, col) {
            assert(entry_ms(e1, row, col).count(v) == entry_ms(e, row, col).count(v));
        }
    } else {
        assert(keys_of_targets(e1.targets@) =~= Seq::<i32>::empty().push(d));
        let m1 = listed_keys(w, row, col).add(Multiset::empty());
        let m2 = listed_keys(wr, row, col).add(entry_ms(e1, row, col));
        assert(m1 == m2);
        assert(m1.count(v) == m2.count(v));
        if v != d || !in_rect(e1, row, col) {
            assert(entry_ms(e1, row, col).count(v) == 0);
        }
    }
    w
}

/// Range keys of entries none of which holds the position: none.
pub(crate) proof fn lemma_keys_none(es: Seq<RangeTargets>, row: int, col: int)
    requires
        forall|j: int| 0 <= j < es.len() ==> !in_rect(#[trigger] es[j], row, col),
    ensures
        range_keys(es, row, col) =~= Seq::<i32>::empty(),
    decreases es.len(),
{
    if es.len() > 0 {
        assert forall|j: int| 0 <= j < es.drop_last().len() implies !in_rect(#[trigger] es.drop_last()[j], row, col) by {
            assert(es.drop_last()[j] == es[j]);
        }
        lemma_keys_none(es.drop_last(), row, col);
        assert(!in_rect(es[es.len() - 1], row, col));
    }
}

/// A range key at a position comes from a target of an entry that holds
/// the position.
pub(crate) proof fn lemma_keys_found(es: Seq<RangeTargets>, row: int, col: int, x: i32)
    requires
        range_keys(es, row, col).contains(x),
    ensures
        exists|j: int, t: int|
            #![trigger es[j].targets@[t]]
            0 <= j < es.len() && in_rect(es[j], row, col) && 0 <= t < es[j].targets@.len() && x
                == target_key(es[j], t) as i32,
    decreases es.len(),
{
    let a = es.drop_last();
    let ek = entry_keys(es.last(), row, col);
    assert(range_keys(es, row, col) == range_keys(a, row, col) + ek);
    let i = choose|i: int| 0 <= i < range_keys(es, row, col).len() && range_keys(es, row, col)[i] == x;
    if i < range_keys(a, row, col).len() {
        assert(range_keys(a, row, col)[i] == x);
        lemma_keys_found(a, row, col, x);
        let (j, t) = choose|j: int, t: int|
            #![trigger a[j].targets@[t]]
            0 <= j < a.len() && in_rect(a[j], row, col) && 0 <= t < a[j].targets@.len() && x
                == target_key(a[j], t) as i32;
        assert(es[j] == a[j]);
        assert(es[j].targets@[t] == a[j].targets@[t]);
    } else {
        let t = i - range_keys(a, row, col).len();
        assert(ek[t] == x);
        assert(in_rect(es.last(), row, col));
        assert(es[es.len() - 1] == es.last());
        assert(es[es.len() - 1].targets@[t] == es.last().targets@[t]);
    }
}

/// A listing of entries none of which holds the position gives no key
/// there.
pub(crate) proof fn lemma_listing_uncovered(w: Seq<(i64, RangeTargets)>, t: Map<i64, RangeTargets>, row: int, col: int)
    requires
        is_listing(w, t),
        !covered(t, row, col),
    ensures
        listed_keys(w, row, col) =~= Multiset::<i32>::empty(),
{
    broadcast use vstd::seq_lib::group_to_multiset_ensures;

    let es = listed_values(w);
    assert forall|j: int| 0 <= j < es.len() implies !in_rect(#[trigger] es[j], row, col) by {
        assert(es[j] == w[j].1);
        assert(t.contains_key(w[j].0));
        if in_rect(es[j], row, col) {
            assert(in_rect(t[w[j].0], row, col));
        }
    }
    lemma_keys_none(es, row, col);
    assert(Seq::<i32>::empty().to_multiset() =~= Multiset::<i32>::empty()) by {
        broadcast use vstd::multiset::group_multiset_axioms;
    }
}

/// A key counted at a position of a listing comes from a target of an
/// entry of the map that holds the position.
pub(crate) proof fn lemma_listing_found(w: Seq<(i64, RangeTargets)>, t: Map<i64, RangeTargets>, row: int, col: int, x: i32)
    requires
        is_listing(w, t),
        listed_keys(w, row, col).count(x) > 0,
    ensures
        exists|k: i64, u: int|
            #![trigger t[k].targets@[u]]
            t.contains_key(k) && in_rect(t[k], row, col) && 0 <= u < t[k].targets@.len() && x == target_key(t[k], u) as i32,
        covered(t, row, col),
{
    broadcast use vstd::seq_lib::group_to_multiset_ensures;

    let es = listed_values(w);
    assert(range_keys(es, row, col).contains(x));
    lemma_keys_found(es, row, col, x);
    let (j, u) = choose|j: int, u: int|
        #![trigger es[j].targets@[u]]
        0 <= j < es.len() && in_rect(es[j], row, col) && 0 <= u < es[j].targets@.len() && x
            == target_key(es[j], u) as i32;
    assert(es[j] == w[j].1);
    let k = w[j].0;
    assert(t.contains_key(k) && t[k] == es[j]);
    assert(t[k].targets@[u] == es[j].targets@[u]);
}

/// From the entries `t0`, through `tr` (target `pt` dropped from the entry
/// under `k_old`, when `old_range`) to `t1` (`pt` added to the entry under
/// `k_new`, when `new_range`): at every position the keys other than that of
/// `pt` are counted alike, and none is counted more often unless the entry
/// under `k_new` holds the position.
pub(crate) proof fn lemma_range_counts(
    t0: Map<i64, RangeTargets>,
    tr: Map<i64, RangeTargets>,
    t1: Map<i64, RangeTargets>,
    old_range: bool,
    k_old: i64,
    new_range: bool,
    k_new: i64,
    pt: (i16, i16),
    c1: CellInfo,
    c2: CellInfo,
    w0: Seq<(i64, RangeTargets)>,
    w1: Seq<(i64, RangeTargets)>,
    row: int,
    col: int,
    v: i32,
)
    requires
        is_listing(w0, t0),
        is_listing(w1, t1),
        if old_range {
            target_dropped(t0, tr, k_old, pt)
        } else {
            tr == t0
        },
        if new_range {
            target_added(tr, t1, k_new, pt, c1, c2)
        } else {
            t1 == tr
        },
    ensures
        v != dep_key(pt.1 as int, pt.0 as int) as i32 ==> listed_keys(w1, row, col).count(v) == listed_keys(
            w0,
            row,
            col,
        ).count(v),
        !(new_range && in_rect(t1[k_new], row, col)) ==> listed_keys(w1, row, col).count(v) <= listed_keys(
            w0,
            row,
            col,
        ).count(v),
        v != dep_key(pt.1 as int, pt.0 as int) as i32 && listed_keys(w0, row, col).count(v) > 0 ==> covered(
            tr,
            row,
            col,
        ),
{
    let wr = if old_range {
        lemma_drop_step(t0, tr, k_old, pt, w0, row, col, v)
    } else {
        w0
    };
    if v != dep_key(pt.1 as int, pt.0 as int) as i32 && listed_keys(w0, row, col).count(v) > 0 {
        lemma_listing_found(wr, tr, row, col, v);
    }
    let w1b = if new_range {
        lemma_add_step(tr, t1, k_new, pt, c1, c2, wr, row, col, v)
    } else {
        wr
    };
    lemma_listings_agree(w1b, w1, t1, row, col);
}

} // verus!

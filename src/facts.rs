//! What holds of every listing: order, uniqueness, where each entry comes
//! from, its depth, the filter and the skip flag.

use vstd::prelude::*;
use crate::ctl_tree::{
    candidate, child_depth, filter_view, has_name, insert_entry, insert_point, listed_name,
    listing, listing_upto, views, CtlRecord, CtlTree, SKIP_FLAG,
};
use crate::dotted::{contains_sub, name_lt, segments};
use crate::tree_entry::{EntryView, TreeEntry};

verus! {

/// What record `j` of `recs` contributes to the listing of `p` under `f`.
pub open spec fn contribution(recs: Seq<CtlRecord>, f: Option<Seq<char>>, p: Seq<char>, j: int) -> Option<EntryView> {
    candidate(recs[j], j as usize, p, f)
}

/// Names strictly increase along `v`.
pub open spec fn strictly_sorted(v: Seq<EntryView>) -> bool {
    forall|i: int| 0 <= i < v.len() - 1 ==> name_lt(#[trigger] v[i].name, v[i + 1].name)
}

/// No two entries of `v` share a name.
pub open spec fn names_distinct(v: Seq<EntryView>) -> bool {
    forall|i: int, j: int| 0 <= i < j < v.len() ==> #[trigger] v[i].name != #[trigger] v[j].name
}

/// Two different names are ordered one way or the other.
pub proof fn lemma_name_lt_total(a: Seq<char>, b: Seq<char>)
    requires
        a != b,
    ensures
        name_lt(a, b) || name_lt(b, a),
    decreases a.len(),
{
    if a.len() > 0 && b.len() > 0 && a[0] == b[0] {
        assert(a.drop_first() != b.drop_first()) by {
            if a.drop_first() == b.drop_first() {
                assert(a =~= seq![a[0]] + a.drop_first());
                assert(b =~= seq![b[0]] + b.drop_first());
            }
        }
        lemma_name_lt_total(a.drop_first(), b.drop_first());
    } else if a.len() == 0 && b.len() == 0 {
        assert(a =~= b);
    }
}

proof fn lemma_insert_point(v: Seq<EntryView>, name: Seq<char>)
    ensures
        insert_point(v, name) <= v.len(),
        forall|i: int| 0 <= i < insert_point(v, name) ==> name_lt(#[trigger] v[i].name, name),
        insert_point(v, name) < v.len() ==> !name_lt(v[insert_point(v, name) as int].name, name),
    decreases v.len(),
{
    if v.len() > 0 && name_lt(v[0].name, name) {
        lemma_insert_point(v.drop_first(), name);
        assert forall|i: int| 0 <= i < insert_point(v, name) implies name_lt(#[trigger] v[i].name, name) by {
            if i > 0 {
                assert(v[i] == v.drop_first()[i - 1]);
            }
        }
    }
}

proof fn lemma_insert_sorted(v: Seq<EntryView>, e: EntryView)
    requires
        strictly_sorted(v),
        !has_name(v, e.name),
    ensures
        strictly_sorted(v.insert(insert_point(v, e.name) as int, e)),
{
    let q = insert_point(v, e.name) as int;
    let w = v.insert(q, e);
    lemma_insert_point(v, e.name);
    if q < v.len() {
        assert(v[q].name != e.name);
        lemma_name_lt_total(v[q].name, e.name);
    }
    assert forall|i: int| 0 <= i < w.len() - 1 implies name_lt(#[trigger] w[i].name, w[i + 1].name) by {
        if i < q - 1 {
            assert(w[i] == v[i] && w[i + 1] == v[i + 1]);
        } else if i == q - 1 {
            assert(w[i] == v[i] && w[i + 1] == e);
        } else if i == q {
            assert(w[i] == e && w[i + 1] == v[i]);
        } else {
            assert(w[i] == v[i - 1] && w[i + 1] == v[i]);
        }
    }
}

proof fn lemma_insert_distinct(v: Seq<EntryView>, e: EntryView, q: int)
    requires
        names_distinct(v),
        !has_name(v, e.name),
        0 <= q <= v.len(),
    ensures
        names_distinct(v.insert(q, e)),
{
    let w = v.insert(q, e);
    assert forall|i: int, j: int| 0 <= i < j < w.len() implies #[trigger] w[i].name != #[trigger] w[j].name by {
        if i == q {
            assert(w[j] == v[j - 1]);
        } else if j == q {
            assert(w[i] == v[i]);
        } else {
            let i0 = if i < q { i } else { i - 1 };
            let j0 = if j < q { j } else { j - 1 };
            assert(w[i] == v[i0] && w[j] == v[j0]);
        }
    }
}

proof fn lemma_insert_members(v: Seq<EntryView>, e: EntryView, q: int)
    requires
        0 <= q <= v.len(),
    ensures
        has_name(v.insert(q, e), e.name),
        forall|i: int| #![trigger v.insert(q, e)[i]] 0 <= i < v.len() + 1 ==>
            v.insert(q, e)[i] == e || exists|m: int| 0 <= m < v.len() && v[m] == v.insert(q, e)[i],
        forall|n: Seq<char>| has_name(v, n) ==> #[trigger] has_name(v.insert(q, e), n),
{
    let w = v.insert(q, e);
    assert(w[q].name == e.name);
    assert forall|i: int| #![trigger w[i]] 0 <= i < v.len() + 1 implies w[i] == e || exists|m: int| 0 <= m < v.len() && v[m] == w[i] by {
        if i < q {
            assert(v[i] == w[i]);
        } else if i > q {
            assert(v[i - 1] == w[i]);
        }
    }
    assert forall|n: Seq<char>| has_name(v, n) implies #[trigger] has_name(w, n) by {
        let m = choose|m: int| 0 <= m < v.len() && #[trigger] v[m].name == n;
        if m < q {
            assert(w[m].name == n);
        } else {
            assert(w[m + 1].name == n);
        }
    }
}

proof fn lemma_insert_entry(v: Seq<EntryView>, e: EntryView)
    requires
        strictly_sorted(v),
        names_distinct(v),
    ensures
        strictly_sorted(insert_entry(v, e)),
        names_distinct(insert_entry(v, e)),
        has_name(insert_entry(v, e), e.name),
        forall|i: int| #![trigger insert_entry(v, e)[i]] 0 <= i < insert_entry(v, e).len() ==>
            insert_entry(v, e)[i] == e || exists|m: int| 0 <= m < v.len() && v[m] == insert_entry(v, e)[i],
        forall|n: Seq<char>| has_name(v, n) ==> #[trigger] has_name(insert_entry(v, e), n),
{
    if !has_name(v, e.name) {
        let q = insert_point(v, e.name) as int;
        lemma_insert_point(v, e.name);
        lemma_insert_sorted(v, e);
        lemma_insert_distinct(v, e, q);
        lemma_insert_members(v, e, q);
    } else {
        assert forall|i: int| #![trigger v[i]] 0 <= i < v.len() implies v[i] == e || exists|m: int| 0 <= m < v.len() && v[m] == v[i] by {
        }
    }
}

/// Each listing is sorted strictly by name, holds each name once, holds only
/// what some record contributes, and holds a name for every contribution.
pub proof fn lemma_listing_upto(recs: Seq<CtlRecord>, f: Option<Seq<char>>, p: Seq<char>, k: nat)
    requires
        k <= recs.len(),
    ensures
        strictly_sorted(listing_upto(recs, f, p, k)),
        names_distinct(listing_upto(recs, f, p, k)),
        forall|i: int| #![trigger listing_upto(recs, f, p, k)[i]] 0 <= i < listing_upto(recs, f, p, k).len() ==> exists|j: int|
            0 <= j < k && #[trigger] contribution(recs, f, p, j) == Some(listing_upto(recs, f, p, k)[i]),
        forall|j: int| 0 <= j < k && (#[trigger] contribution(recs, f, p, j)) is Some ==>
            has_name(listing_upto(recs, f, p, k), contribution(recs, f, p, j)->0.name),
    decreases k,
{
    if k > 0 {
        lemma_listing_upto(recs, f, p, (k - 1) as nat);
        let prev = listing_upto(recs, f, p, (k - 1) as nat);
        let cur = listing_upto(recs, f, p, k);
        match contribution(recs, f, p, k - 1) {
            None => {},
            Some(e) => {
                lemma_insert_entry(prev, e);
                assert forall|i: int| #![trigger cur[i]] 0 <= i < cur.len() implies exists|j: int|
                    0 <= j < k && #[trigger] contribution(recs, f, p, j) == Some(cur[i]) by {
                    if cur[i] != e {
                        let m = choose|m: int| 0 <= m < prev.len() && prev[m] == cur[i];
                        let j = choose|j: int| 0 <= j < k - 1 && #[trigger] contribution(recs, f, p, j) == Some(prev[m]);
                        assert(contribution(recs, f, p, j) == Some(cur[i]));
                    } else {
                        assert(contribution(recs, f, p, k - 1) == Some(cur[i]));
                    }
                }
                assert forall|j: int| 0 <= j < k && (#[trigger] contribution(recs, f, p, j)) is Some implies
                    has_name(cur, contribution(recs, f, p, j)->0.name) by {
                    if j < k - 1 {
                        assert(has_name(prev, contribution(recs, f, p, j)->0.name));
                    }
                }
            },
        }
    }
}

/// The root listing without a filter holds one container entry at depth 0
/// for each distinct first segment of a listed record name, and nothing else,
/// sorted strictly by name.
pub proof fn lemma_root_listing(recs: Seq<CtlRecord>)
    ensures
        strictly_sorted(listing(recs, None, Seq::empty())),
        names_distinct(listing(recs, None, Seq::empty())),
        forall|i: int| #![trigger listing(recs, None, Seq::empty())[i]]
            0 <= i < listing(recs, None, Seq::empty()).len() ==> {
                let e = listing(recs, None, Seq::empty())[i];
                &&& e.ctl is None
                &&& e.depth == 0
                &&& e.name == segments(e.ctlname)[0]
                &&& exists|j: int| 0 <= j < recs.len() && listed_name(#[trigger] recs[j]) == Some(e.ctlname)
            },
        forall|j: int| 0 <= j < recs.len() && (#[trigger] listed_name(recs[j])) is Some ==>
            has_name(listing(recs, None, Seq::empty()), segments(listed_name(recs[j])->0)[0]),
{
    reveal(candidate);
    let p = Seq::<char>::empty();
    lemma_listing_upto(recs, None, p, recs.len());
    let l = listing(recs, None, p);
    assert forall|i: int| #![trigger l[i]] 0 <= i < l.len() implies {
        let e = l[i];
        &&& e.ctl is None
        &&& e.depth == 0
        &&& e.name == segments(e.ctlname)[0]
        &&& exists|j: int| 0 <= j < recs.len() && listed_name(#[trigger] recs[j]) == Some(e.ctlname)
    } by {
        let j = choose|j: int| 0 <= j < recs.len() && #[trigger] contribution(recs, None, p, j) == Some(l[i]);
        assert(listed_name(recs[j]) == Some(l[i].ctlname));
    }
    assert forall|j: int| 0 <= j < recs.len() && (#[trigger] listed_name(recs[j])) is Some implies
        has_name(l, segments(listed_name(recs[j])->0)[0]) by {
        assert(contribution(recs, None, p, j) is Some);
    }
}

/// Every entry of a listing of `p` has the depth of `p`'s children: 0 under
/// the root, else one more than the number of dots in `p`.
pub proof fn lemma_listing_depth(recs: Seq<CtlRecord>, f: Option<Seq<char>>, p: Seq<char>)
    ensures
        forall|i: int| 0 <= i < listing(recs, f, p).len() ==> (#[trigger] listing(recs, f, p)[i]).depth == child_depth(p),
{
    reveal(candidate);
    lemma_listing_upto(recs, f, p, recs.len());
    let l = listing(recs, f, p);
    assert forall|i: int| 0 <= i < l.len() implies (#[trigger] l[i]).depth == child_depth(p) by {
        let j = choose|j: int| 0 <= j < recs.len() && #[trigger] contribution(recs, f, p, j) == Some(l[i]);
    }
}

/// Asking twice for the contents of one path, with the filter unchanged in
/// between, gives the same entries in the same order.
pub proof fn lemma_contents_repeatable(t: CtlTree, path: Seq<char>, r1: Seq<TreeEntry>, r2: Seq<TreeEntry>)
    requires
        views(r1) == listing(t.ctls@, filter_view(t.filter), path),
        views(r2) == listing(t.ctls@, filter_view(t.filter), path),
    ensures
        views(r1) == views(r2),
{
}

/// Under an active filter, every listed entry's full name holds the filter text.
pub proof fn lemma_filter_kept(recs: Seq<CtlRecord>, text: Seq<char>, p: Seq<char>)
    ensures
        forall|i: int| 0 <= i < listing(recs, Some(text), p).len() ==>
            contains_sub(#[trigger] listing(recs, Some(text), p)[i].ctlname, text),
{
    reveal(candidate);
    let f = Some(text);
    lemma_listing_upto(recs, f, p, recs.len());
    let l = listing(recs, f, p);
    assert forall|i: int| 0 <= i < l.len() implies contains_sub(#[trigger] l[i].ctlname, text) by {
        let j = choose|j: int| 0 <= j < recs.len() && #[trigger] contribution(recs, f, p, j) == Some(l[i]);
    }
}

/// Setting a filter and then clearing it gives back, for every path, what the
/// tree listed before any filter was set.
pub proof fn lemma_filter_cleared(t0: CtlTree, t1: CtlTree, t2: CtlTree, p: Seq<char>)
    requires
        t0.filter is None,
        t1.ctls@ == t0.ctls@,
        t2.ctls@ == t1.ctls@,
        t2.filter is None,
    ensures
        listing(t2.ctls@, filter_view(t2.filter), p) == listing(t0.ctls@, filter_view(t0.filter), p),
{
}

/// A record flagged to be skipped gives no entry, whatever the path and the
/// filter: no entry refers to it, and each entry's full name is that of
/// another record, one that is listed.
pub proof fn lemma_skipped_never_listed(recs: Seq<CtlRecord>, f: Option<Seq<char>>, p: Seq<char>, h: usize)
    requires
        recs.len() <= usize::MAX,
        h < recs.len(),
        recs[h as int].flags is Some,
        recs[h as int].flags->0 & SKIP_FLAG == SKIP_FLAG,
    ensures
        forall|i: int| #![trigger listing(recs, f, p)[i]] 0 <= i < listing(recs, f, p).len() ==> {
            &&& listing(recs, f, p)[i].ctl != Some(h)
            &&& exists|j: int| 0 <= j < recs.len() && j != h as int && listed_name(#[trigger] recs[j]) == Some(listing(recs, f, p)[i].ctlname)
        },
{
    reveal(candidate);
    lemma_listing_upto(recs, f, p, recs.len());
    let l = listing(recs, f, p);
    assert forall|i: int| #![trigger l[i]] 0 <= i < l.len() implies {
        &&& l[i].ctl != Some(h)
        &&& exists|j: int| 0 <= j < recs.len() && j != h as int && listed_name(#[trigger] recs[j]) == Some(l[i].ctlname)
    } by {
        let j = choose|j: int| 0 <= j < recs.len() && #[trigger] contribution(recs, f, p, j) == Some(l[i]);
        assert(listed_name(recs[h as int]) is None);
        assert(j != h);
        assert(j as usize != h);
        assert(listed_name(recs[j]) == Some(l[i].ctlname));
    }
}

proof fn lemma_listing_complete(recs: Seq<CtlRecord>, f: Option<Seq<char>>, p: Seq<char>, k: nat)
    requires
        k <= recs.len(),
    ensures
        forall|j: int| 0 <= j < k && (#[trigger] contribution(recs, f, p, j)) is Some ==>
            has_name(listing_upto(recs, f, p, k), contribution(recs, f, p, j)->0.name),
{
    lemma_listing_upto(recs, f, p, k);
}

/// Record `j` gives `e`, and no earlier record gives an entry of that name.
#[verifier::opaque]
pub open spec fn first_to_give(recs: Seq<CtlRecord>, f: Option<Seq<char>>, p: Seq<char>, j: int, e: EntryView) -> bool {
    &&& contribution(recs, f, p, j) == Some(e)
    &&& forall|j2: int| 0 <= j2 < j && (#[trigger] contribution(recs, f, p, j2)) is Some ==>
            contribution(recs, f, p, j2)->0.name != e.name
}

/// Some record among the first `k` is the first to give `e`.
pub open spec fn given_first_within(recs: Seq<CtlRecord>, f: Option<Seq<char>>, p: Seq<char>, k: int, e: EntryView) -> bool {
    exists|j: int| 0 <= j < k && #[trigger] first_to_give(recs, f, p, j, e)
}

proof fn lemma_new_name_first(recs: Seq<CtlRecord>, f: Option<Seq<char>>, p: Seq<char>, k: nat)
    requires
        0 < k <= recs.len(),
        contribution(recs, f, p, k - 1) is Some,
        !has_name(listing_upto(recs, f, p, (k - 1) as nat), contribution(recs, f, p, k - 1)->0.name),
        forall|j: int| 0 <= j < k - 1 && (#[trigger] contribution(recs, f, p, j)) is Some ==>
            has_name(listing_upto(recs, f, p, (k - 1) as nat), contribution(recs, f, p, j)->0.name),
    ensures
        first_to_give(recs, f, p, k - 1, contribution(recs, f, p, k - 1)->0),
{
    reveal(first_to_give);
}

proof fn lemma_first_upto(recs: Seq<CtlRecord>, f: Option<Seq<char>>, p: Seq<char>, k: nat)
    requires
        k <= recs.len(),
    ensures
        forall|i: int| #![trigger listing_upto(recs, f, p, k)[i]] 0 <= i < listing_upto(recs, f, p, k).len() ==>
            given_first_within(recs, f, p, k as int, listing_upto(recs, f, p, k)[i]),
    decreases k,
{
    if k > 0 {
        lemma_first_upto(recs, f, p, (k - 1) as nat);
        lemma_listing_complete(recs, f, p, (k - 1) as nat);
        let prev = listing_upto(recs, f, p, (k - 1) as nat);
        let cur = listing_upto(recs, f, p, k);
        match contribution(recs, f, p, k - 1) {
            None => {
                assert(cur == prev);
                assert forall|i: int| #![trigger cur[i]] 0 <= i < cur.len() implies
                    given_first_within(recs, f, p, k as int, cur[i]) by {
                    let j = choose|j: int| 0 <= j < k - 1 && #[trigger] first_to_give(recs, f, p, j, prev[i]);
                    assert(first_to_give(recs, f, p, j, cur[i]));
                }
            },
            Some(e) => {
                assert(cur == insert_entry(prev, e));
                if has_name(prev, e.name) {
                    assert(cur == prev);
                    assert forall|i: int| #![trigger cur[i]] 0 <= i < cur.len() implies
                        given_first_within(recs, f, p, k as int, cur[i]) by {
                        let j = choose|j: int| 0 <= j < k - 1 && #[trigger] first_to_give(recs, f, p, j, prev[i]);
                        assert(first_to_give(recs, f, p, j, cur[i]));
                    }
                } else {
                    lemma_insert_point(prev, e.name);
                    lemma_insert_members(prev, e, insert_point(prev, e.name) as int);
                    lemma_new_name_first(recs, f, p, k);
                    assert forall|i: int| #![trigger cur[i]] 0 <= i < cur.len() implies
                        given_first_within(recs, f, p, k as int, cur[i]) by {
                        if cur[i] == e {
                            assert(first_to_give(recs, f, p, k - 1, cur[i]));
                        } else {
                            let m = choose|m: int| 0 <= m < prev.len() && prev[m] == cur[i];
                            let j = choose|j: int| 0 <= j < k - 1 && #[trigger] first_to_give(recs, f, p, j, prev[m]);
                            assert(first_to_give(recs, f, p, j, cur[i]));
                        }
                    }
                }
            },
        }
    }
}

/// The listing of `p` under `f`, stated without its construction: its names
/// strictly increase, each entry is what the first record to give its name
/// gives, and every name that some record gives is there.
pub proof fn lemma_listing_characterized(recs: Seq<CtlRecord>, f: Option<Seq<char>>, p: Seq<char>)
    ensures
        strictly_sorted(listing(recs, f, p)),
        names_distinct(listing(recs, f, p)),
        forall|i: int| #![trigger listing(recs, f, p)[i]] 0 <= i < listing(recs, f, p).len() ==>
            given_first_within(recs, f, p, recs.len() as int, listing(recs, f, p)[i]),
        forall|j: int| 0 <= j < recs.len() && (#[trigger] contribution(recs, f, p, j)) is Some ==>
            has_name(listing(recs, f, p), contribution(recs, f, p, j)->0.name),
{
    lemma_listing_upto(recs, f, p, recs.len());
    lemma_first_kept(recs, f, p);
}

proof fn lemma_first_kept(recs: Seq<CtlRecord>, f: Option<Seq<char>>, p: Seq<char>)
    ensures
        forall|i: int| #![trigger listing(recs, f, p)[i]] 0 <= i < listing(recs, f, p).len() ==>
            given_first_within(recs, f, p, recs.len() as int, listing(recs, f, p)[i]),
{
    lemma_first_upto(recs, f, p, recs.len());
    let l = listing(recs, f, p);
    let n = recs.len();
    assert forall|i: int| #![trigger l[i]] 0 <= i < l.len() implies
        given_first_within(recs, f, p, recs.len() as int, l[i]) by {
        assert(l[i] == listing_upto(recs, f, p, n)[i]);
        let j = choose|j: int| 0 <= j < n && #[trigger] first_to_give(recs, f, p, j, listing_upto(recs, f, p, n)[i]);
        assert(first_to_give(recs, f, p, j, l[i]));
    }
}

} // verus!

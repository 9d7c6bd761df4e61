//! The tree index: a snapshot of control records and an optional filter,
//! queried one level at a time.

use vstd::prelude::*;
use crate::dotted::{
    chars_of, contains_sub, count_dots, dot_count, has_substring, is_direct_child, is_under,
    lemma_dot_count_concat, lemma_segments_len, name_less, name_lt, segments,
};
use crate::tree_entry::{entry_at, EntryView, TreeEntry};

verus! {

/// The flag bit that marks a control as skipped when listing (`CTLFLAG_DORMANT`).
pub const SKIP_FLAG: u32 = 0x20000000;

/// One record of the control tree as enumerated: its name and its flag bits,
/// each `None` where it could not be read. Both are read once, when the
/// snapshot is taken, so a record's skip flag is the one it had then.
#[derive(Debug, Clone)]
pub struct CtlRecord {
    pub name: Option<String>,
    pub flags: Option<u32>,
}

/// The name under which a record is listed: `None` when its name or flags
/// could not be read, or when it is flagged to be skipped.
pub open spec fn listed_name(r: CtlRecord) -> Option<Seq<char>> {
    match (r.name, r.flags) {
        (Some(n), Some(f)) => if f & SKIP_FLAG == SKIP_FLAG {
            None
        } else {
            Some(n@)
        },
        _ => None,
    }
}

/// A name passes the filter when there is none or when it holds the filter text.
pub open spec fn passes(n: Seq<char>, f: Option<Seq<char>>) -> bool {
    match f {
        None => true,
        Some(t) => contains_sub(n, t),
    }
}

/// The filter text of an optional string.
pub open spec fn filter_view(f: Option<String>) -> Option<Seq<char>> {
    match f {
        None => None,
        Some(s) => Some(s@),
    }
}

/// Depth of the children of `p`: 0 under the root, else one more than `p`'s own.
pub open spec fn child_depth(p: Seq<char>) -> nat {
    if p.len() == 0 {
        0
    } else {
        dot_count(p) + 1
    }
}

/// What record `r`, at index `i` of the snapshot, contributes to the listing
/// of `p` under filter `f`. Under the root it is the container for its first
/// segment. Under another path it is a leaf when its name is `p`, a dot and one
/// more segment, and the container for the next segment when it lies deeper.
#[verifier::opaque]
pub open spec fn candidate(r: CtlRecord, i: usize, p: Seq<char>, f: Option<Seq<char>>) -> Option<EntryView> {
    match listed_name(r) {
        None => None,
        Some(n) => if !passes(n, f) {
            None
        } else if p.len() == 0 {
            Some(entry_at(n, 0, None))
        } else if is_direct_child(n, p) {
            Some(entry_at(n, child_depth(p), Some(i)))
        } else if is_under(n, p) {
            Some(entry_at(n, child_depth(p), None))
        } else {
            None
        },
    }
}

/// Some entry of `v` has name `name`.
pub open spec fn has_name(v: Seq<EntryView>, name: Seq<char>) -> bool {
    exists|j: int| 0 <= j < v.len() && #[trigger] v[j].name == name
}

/// The index of the first entry of `v` whose name is not below `name`.
pub open spec fn insert_point(v: Seq<EntryView>, name: Seq<char>) -> nat
    decreases v.len(),
{
    if v.len() == 0 {
        0
    } else if name_lt(v[0].name, name) {
        1 + insert_point(v.drop_first(), name)
    } else {
        0
    }
}

/// `v` with `e` put in its sorted place, unless an entry of that name is there.
pub open spec fn insert_entry(v: Seq<EntryView>, e: EntryView) -> Seq<EntryView> {
    if has_name(v, e.name) {
        v
    } else {
        v.insert(insert_point(v, e.name) as int, e)
    }
}

/// The listing made from the first `k` records.
pub open spec fn listing_upto(recs: Seq<CtlRecord>, f: Option<Seq<char>>, p: Seq<char>, k: nat) -> Seq<EntryView>
    decreases k,
{
    if k == 0 || k > recs.len() {
        Seq::empty()
    } else {
        let prev = listing_upto(recs, f, p, (k - 1) as nat);
        match candidate(recs[k - 1], (k - 1) as usize, p, f) {
            None => prev,
            Some(e) => insert_entry(prev, e),
        }
    }
}

/// The children of `p` in snapshot `recs` under filter `f`: one entry per
/// name, the first record to give it winning, sorted by name.
pub open spec fn listing(recs: Seq<CtlRecord>, f: Option<Seq<char>>, p: Seq<char>) -> Seq<EntryView> {
    listing_upto(recs, f, p, recs.len())
}

/// The views of a sequence of entries.
pub open spec fn views(v: Seq<TreeEntry>) -> Seq<EntryView> {
    v.map_values(|e: TreeEntry| e@)
}

/// Relies on sysctl's `CtlFlags::from_bits_truncate` and `CtlFlags::contains`
/// with `CtlFlags::SKIP`, which sysctl defines as `CTLFLAG_DORMANT`.
#[verifier::external_body]
fn flags_skip(bits: u32) -> (r: bool)
    ensures
        r == (bits & SKIP_FLAG == SKIP_FLAG),
{
    sysctl::CtlFlags::from_bits_truncate(bits).contains(sysctl::CtlFlags::SKIP)
}

/// The snapshot of control records and the active filter.
pub struct CtlTree {
    /// The records, enumerated once.
    pub ctls: Vec<CtlRecord>,
    /// The active filter: only names holding this text are listed.
    pub filter: Option<String>,
}

impl CtlTree {
    /// A tree over the given snapshot, with no filter.
    pub fn new(ctls: Vec<CtlRecord>) -> (r: CtlTree)
        ensures
            r.ctls@ == ctls@,
            r.filter is None,
    {
        CtlTree { ctls, filter: None }
    }

    /// Replaces the active filter.
    pub fn filter(&mut self, string: Option<String>)
        ensures
            final(self).ctls@ == old(self).ctls@,
            final(self).filter == string,
    {
        self.filter = string;
    }

    /// The children of `path` (the root when it is empty) in the snapshot,
    /// under the active filter: one entry per name, sorted by name.
    pub fn contents(&self, path: &str) -> (r: Vec<TreeEntry>)
        ensures
            views(r@) == listing(self.ctls@, filter_view(self.filter), path@),
            forall|i: int| 0 <= i < r@.len() ==> (#[trigger] r@[i]).wf(),
    {
        let p = chars_of(path);
        let f: Option<Vec<char>> = match &self.filter {
            None => None,
            Some(t) => Some(chars_of(t.as_str())),
        };
        let dots = count_dots(&p);
        let mut v: Vec<TreeEntry> = Vec::new();
        let mut i: usize = 0;
        while i < self.ctls.len()
            invariant
                i <= self.ctls@.len(),
                filter_of(&f) == filter_view(self.filter),
                p@ == path@,
                dots == dot_count(p@),
                dots <= p@.len(),
                views(v@) == listing_upto(self.ctls@, filter_view(self.filter), path@, i as nat),
                forall|j: int| 0 <= j < v@.len() ==> (#[trigger] v@[j]).wf(),
            decreases self.ctls@.len() - i,
        {
            match self.entry_for(i, &p, &f, dots) {
                None => {},
                Some(e) => insert_sorted(&mut v, e),
            }
            i = i + 1;
        }
        v
    }

    /// The entry that record `i` contributes to the listing of `p`.
    fn entry_for(&self, i: usize, p: &Vec<char>, f: &Option<Vec<char>>, dots: usize) -> (r: Option<TreeEntry>)
        requires
            i < self.ctls@.len(),
            dots == dot_count(p@),
            dots <= p@.len(),
        ensures
            match r {
                None => candidate(self.ctls@[i as int], i, p@, filter_of(f)) is None,
                Some(e) => candidate(self.ctls@[i as int], i, p@, filter_of(f)) == Some(e@) && e.wf(),
            },
    {
        proof {
            reveal(candidate);
        }
        let rec = &self.ctls[i];
        match &rec.flags {
            None => return None,
            Some(b) => {
                if flags_skip(*b) {
                    return None;
                }
            },
        }
        let name: &String = match &rec.name {
            None => return None,
            Some(n) => n,
        };
        let n = chars_of(name.as_str());
        match f {
            None => {},
            Some(fv) => {
                if !has_substring(&n, fv) {
                    return None;
                }
            },
        }
        proof {
            lemma_segments_len(n@);
        }
        if p.len() == 0 {
            return Some(TreeEntry::new(name.as_str(), 0, None));
        }
        if n.len() <= p.len() {
            return None;
        }
        let mut j: usize = 0;
        while j < p.len() && n[j] == p[j]
            invariant
                p@.len() < n@.len(),
                j <= p@.len(),
                forall|j0: int| 0 <= j0 < j ==> n@[j0] == p@[j0],
            decreases p@.len() - j,
        {
            j = j + 1;
        }
        if j < p.len() {
            assert(n@.take(p@.len() as int)[j as int] != p@[j as int]);
            return None;
        }
        if n[p.len()] != '.' {
            return None;
        }
        let plen = p.len();
        proof {
            assert(n@.take(plen as int) =~= p@);
            let rest = n@.skip(plen + 1);
            assert(n@ =~= (p@ + seq!['.']) + rest);
            lemma_dot_count_concat(p@ + seq!['.'], rest);
            lemma_dot_count_concat(p@, seq!['.']);
            assert(seq!['.'].drop_last() =~= Seq::<char>::empty());
        }
        let mut k: usize = plen + 1;
        while k < n.len() && n[k] != '.'
            invariant
                plen < k <= n@.len(),
                forall|k0: int| plen < k0 < k ==> n@[k0] != '.',
            decreases n@.len() - k,
        {
            k = k + 1;
        }
        if k == n.len() {
            Some(TreeEntry::new(name.as_str(), dots + 1, Some(i)))
        } else {
            Some(TreeEntry::new(name.as_str(), dots + 1, None))
        }
    }
}

/// Puts `e` in its sorted place in `v`, unless an entry of that name is there.
fn insert_sorted(v: &mut Vec<TreeEntry>, e: TreeEntry)
    requires
        e.wf(),
        forall|j: int| 0 <= j < old(v)@.len() ==> (#[trigger] old(v)@[j]).wf(),
    ensures
        views(final(v)@) == insert_entry(views(old(v)@), e@),
        forall|j: int| 0 <= j < final(v)@.len() ==> (#[trigger] final(v)@[j]).wf(),
{
    let ghost w = views(v@);
    let mut j: usize = 0;
    while j < v.len()
        invariant
            v@ == old(v)@,
            w == views(v@),
            j <= v@.len(),
            forall|j0: int| 0 <= j0 < v@.len() ==> (#[trigger] v@[j0]).wf(),
            forall|j0: int| 0 <= j0 < j ==> #[trigger] w[j0].name != e.name@,
        decreases v@.len() - j,
    {
        if v[j].name == e.name {
            assert(w[j as int].name == e.name@);
            return;
        }
        j = j + 1;
    }
    assert(!has_name(w, e.name@));
    let en = chars_of(e.name.as_str());
    let mut k: usize = 0;
    assert(w.skip(0) =~= w);
    while k < v.len() && name_less(&chars_of(v[k].name.as_str()), &en)
        invariant
            v@ == old(v)@,
            w == views(v@),
            k <= v@.len(),
            forall|j0: int| 0 <= j0 < v@.len() ==> (#[trigger] v@[j0]).wf(),
            en@ == e.name@,
            insert_point(w, e.name@) == k + insert_point(w.skip(k as int), e.name@),
        decreases v@.len() - k,
    {
        assert(w.skip(k as int).drop_first() =~= w.skip(k + 1));
        k = k + 1;
    }
    proof {
        if k < v@.len() {
            assert(w.skip(k as int)[0] == w[k as int]);
        }
    }
    v.insert(k, e);
    assert(views(v@) =~= w.insert(k as int, e@));
}

/// The filter text of an optional character vector.
pub open spec fn filter_of(f: &Option<Vec<char>>) -> Option<Seq<char>> {
    match f {
        None => None,
        Some(v) => Some(v@),
    }
}

} // verus!

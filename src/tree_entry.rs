//! One node of the displayed tree.

use vstd::prelude::*;
use crate::dotted::{chars_of, dot_count, name_less, name_lt, segment_bounds, segments};

verus! {

/// What a `TreeEntry` stands for: its segment, the full name it came from,
/// its depth and, for a leaf, the index of its record in the snapshot.
pub struct EntryView {
    pub name: Seq<char>,
    pub ctlname: Seq<char>,
    pub depth: nat,
    pub ctl: Option<usize>,
}

/// The entry for full name `n` at depth `d`: its name is segment `d` of `n`.
pub open spec fn entry_at(n: Seq<char>, d: nat, ctl: Option<usize>) -> EntryView {
    EntryView { name: segments(n)[d as int], ctlname: n, depth: d, ctl }
}

/// `p` is the prefix of `s` made of its first `d + 1` segments: it ends at a
/// dot of `s` or at its end, and holds `d` dots.
pub open spec fn is_path_through(s: Seq<char>, d: nat, p: Seq<char>) -> bool {
    &&& p.len() <= s.len()
    &&& p == s.take(p.len() as int)
    &&& dot_count(p) == d
    &&& (p.len() == s.len() || s[p.len() as int] == '.')
}

/// A node of the tree. Two entries are equal when their names are equal.
#[derive(Debug, Clone)]
pub struct TreeEntry {
    /// The segment of `ctlname` at `depth`.
    pub name: String,
    /// The full dotted name of the record this entry was made from.
    pub ctlname: String,
    /// Level in the hierarchy; entries under the root have depth 0.
    pub depth: usize,
    /// Index of the record in the snapshot, present for a leaf only.
    pub ctl: Option<usize>,
}

impl View for TreeEntry {
    type V = EntryView;

    open spec fn view(&self) -> EntryView {
        EntryView { name: self.name@, ctlname: self.ctlname@, depth: self.depth as nat, ctl: self.ctl }
    }
}

impl TreeEntry {
    /// The name is segment `depth` of `ctlname`, and `ctlname` has that segment.
    pub open spec fn wf(&self) -> bool {
        &&& self.depth < segments(self.ctlname@).len()
        &&& self.name@ == segments(self.ctlname@)[self.depth as int]
    }

    /// The entry for `ctlname` at `depth`; `ctlname` must have at least
    /// `depth + 1` dot-separated segments.
    pub fn new(ctlname: &str, depth: usize, ctl: Option<usize>) -> (r: TreeEntry)
        requires
            depth < segments(ctlname@).len(),
        ensures
            r@ == entry_at(ctlname@, depth as nat, ctl),
            r.wf(),
    {
        let chars = chars_of(ctlname);
        let (start, end) = segment_bounds(&chars, depth);
        let name = ctlname.substring_char(start, end).to_owned();
        TreeEntry { name, ctlname: ctlname.to_owned(), depth, ctl }
    }

    /// The dotted path from the root down to this entry: the first `depth + 1`
    /// segments of `ctlname`.
    pub fn path(&self) -> (r: String)
        requires
            self.wf(),
        ensures
            is_path_through(self.ctlname@, self.depth as nat, r@),
    {
        let chars = chars_of(self.ctlname.as_str());
        let (_start, end) = segment_bounds(&chars, self.depth);
        self.ctlname.as_str().substring_char(0, end).to_owned()
    }

    /// The text shown for this entry: its name.
    pub fn to_string(&self) -> (r: String)
        ensures
            r@ == self.name@,
    {
        self.name.clone()
    }
}

impl PartialEq for TreeEntry {
    fn eq(&self, other: &TreeEntry) -> (r: bool)
        ensures
            r == (self.name@ == other.name@),
    {
        self.name == other.name
    }
}

impl vstd::std_specs::cmp::PartialEqSpecImpl for TreeEntry {
    open spec fn obeys_eq_spec() -> bool {
        true
    }

    open spec fn eq_spec(&self, other: &TreeEntry) -> bool {
        self.name@ == other.name@
    }
}

impl Eq for TreeEntry {
}

/// How name `a` compares with name `b` in the order of `name_lt`.
pub open spec fn name_order(a: Seq<char>, b: Seq<char>) -> Option<std::cmp::Ordering> {
    if name_lt(a, b) {
        Some(std::cmp::Ordering::Less)
    } else if a == b {
        Some(std::cmp::Ordering::Equal)
    } else {
        Some(std::cmp::Ordering::Greater)
    }
}

impl PartialOrd for TreeEntry {
    fn partial_cmp(&self, other: &TreeEntry) -> (r: Option<std::cmp::Ordering>)
        ensures
            r == name_order(self.name@, other.name@),
    {
        let a = chars_of(self.name.as_str());
        let b = chars_of(other.name.as_str());
        if name_less(&a, &b) {
            Some(std::cmp::Ordering::Less)
        } else if self.name == other.name {
            Some(std::cmp::Ordering::Equal)
        } else {
            Some(std::cmp::Ordering::Greater)
        }
    }
}

impl vstd::std_specs::cmp::PartialOrdSpecImpl for TreeEntry {
    open spec fn obeys_partial_cmp_spec() -> bool {
        true
    }

    open spec fn partial_cmp_spec(&self, other: &TreeEntry) -> Option<std::cmp::Ordering> {
        name_order(self.name@, other.name@)
    }
}

} // verus!

//! Dotted names: segments, dot counts, prefixes, substrings and ordering,
//! stated over character sequences.

use vstd::prelude::*;

verus! {

/// Number of '.' characters in `s`.
pub open spec fn dot_count(s: Seq<char>) -> nat
    decreases s.len(),
{
    if s.len() == 0 {
        0
    } else {
        dot_count(s.drop_last()) + if s.last() == '.' { 1nat } else { 0nat }
    }
}

/// The '.'-separated segments of `s`, as `str::split('.')` yields them.
pub open spec fn segments(s: Seq<char>) -> Seq<Seq<char>>
    decreases s.len(),
{
    if s.len() == 0 {
        seq![Seq::empty()]
    } else {
        let prev = segments(s.drop_last());
        if s.last() == '.' {
            prev.push(Seq::empty())
        } else {
            prev.update(prev.len() - 1, prev.last().push(s.last()))
        }
    }
}

/// `n` lies below `p` in the dotted hierarchy: it starts with `p` followed by a dot.
pub open spec fn is_under(n: Seq<char>, p: Seq<char>) -> bool {
    &&& n.len() > p.len()
    &&& n.take(p.len() as int) == p
    &&& n[p.len() as int] == '.'
}

/// `n` is an immediate child of `p`: dropping its last segment leaves exactly `p`.
pub open spec fn is_direct_child(n: Seq<char>, p: Seq<char>) -> bool {
    &&& is_under(n, p)
    &&& forall|j: int| p.len() < j < n.len() ==> n[j] != '.'
}

/// `f` occurs in `s` as a contiguous substring.
pub open spec fn contains_sub(s: Seq<char>, f: Seq<char>) -> bool {
    exists|k: int| 0 <= k && k + f.len() <= s.len() && #[trigger] s.subrange(k, k + f.len()) == f
}

/// Lexicographic order on character sequences, by code point (the order of `str`).
pub open spec fn name_lt(a: Seq<char>, b: Seq<char>) -> bool
    decreases a.len(),
{
    if a.len() == 0 {
        b.len() > 0
    } else if b.len() == 0 {
        false
    } else if a[0] != b[0] {
        a[0] < b[0]
    } else {
        name_lt(a.drop_first(), b.drop_first())
    }
}

pub proof fn lemma_segments_len(s: Seq<char>)
    ensures
        segments(s).len() == dot_count(s) + 1,
    decreases s.len(),
{
    if s.len() > 0 {
        lemma_segments_len(s.drop_last());
    }
}

proof fn lemma_take_step(s: Seq<char>, i: int)
    requires
        0 <= i < s.len(),
    ensures
        s.take(i + 1).drop_last() == s.take(i),
        s.take(i + 1).last() == s[i],
{
    assert(s.take(i + 1).drop_last() =~= s.take(i));
}

/// Segments that are already closed by a dot in a prefix stay fixed in longer prefixes.
proof fn lemma_segments_stable(s: Seq<char>, j: int, m: int, k: int)
    requires
        0 <= j <= m <= s.len(),
        0 <= k < dot_count(s.take(j)),
    ensures
        segments(s.take(m))[k] == segments(s.take(j))[k],
        dot_count(s.take(j)) <= dot_count(s.take(m)),
    decreases m - j,
{
    if m > j {
        lemma_segments_stable(s, j, m - 1, k);
        lemma_take_step(s, m - 1);
        lemma_segments_len(s.take(m - 1));
    }
}

pub proof fn lemma_dot_count_concat(a: Seq<char>, b: Seq<char>)
    ensures
        dot_count(a + b) == dot_count(a) + dot_count(b),
    decreases b.len(),
{
    if b.len() == 0 {
        assert(a + b =~= a);
    } else {
        lemma_dot_count_concat(a, b.drop_last());
        assert((a + b).drop_last() =~= a + b.drop_last());
    }
}

/// The characters of `s`, one per element.
pub fn chars_of(s: &str) -> (r: Vec<char>)
    ensures
        r@ == s@,
{
    let n = s.unicode_len();
    let mut r: Vec<char> = Vec::new();
    let mut i: usize = 0;
    while i < n
        invariant
            n == s@.len(),
            i <= n,
            r@ == s@.take(i as int),
        decreases n - i,
    {
        r.push(s.get_char(i));
        i = i + 1;
        assert(r@ =~= s@.take(i as int));
    }
    assert(r@ =~= s@);
    r
}

/// Number of dots in `s`.
pub fn count_dots(s: &Vec<char>) -> (r: usize)
    ensures
        r == dot_count(s@),
        r <= s@.len(),
{
    let mut c: usize = 0;
    let mut i: usize = 0;
    while i < s.len()
        invariant
            i <= s@.len(),
            c == dot_count(s@.take(i as int)),
            c <= i,
        decreases s@.len() - i,
    {
        proof {
            lemma_take_step(s@, i as int);
        }
        if s[i] == '.' {
            c = c + 1;
        }
        i = i + 1;
    }
    assert(s@.take(s@.len() as int) =~= s@);
    c
}

/// Bounds of segment `depth` of `s`: it is `s[start..end]`, and `end` is the
/// dot that closes it, or the end of `s`.
pub fn segment_bounds(s: &Vec<char>, depth: usize) -> (r: (usize, usize))
    requires
        depth < segments(s@).len(),
    ensures
        r.0 <= r.1 <= s@.len(),
        s@.subrange(r.0 as int, r.1 as int) == segments(s@)[depth as int],
        dot_count(s@.take(r.1 as int)) == depth,
        r.1 == s@.len() || s@[r.1 as int] == '.',
{
    proof {
        lemma_segments_len(s@);
    }
    let mut seg: usize = 0;
    let mut start: usize = 0;
    let mut i: usize = 0;
    while i < s.len() && !(seg == depth && s[i] == '.')
        invariant
            start <= i <= s@.len(),
            seg <= depth <= dot_count(s@),
            seg == dot_count(s@.take(i as int)),
            segments(s@.take(i as int)).len() == seg + 1,
            segments(s@.take(i as int)).last() == s@.subrange(start as int, i as int),
        decreases s@.len() - i,
    {
        proof {
            lemma_take_step(s@, i as int);
            lemma_segments_len(s@.take(i as int));
        }
        if s[i] == '.' {
            seg = seg + 1;
            start = i + 1;
            proof {
                lemma_segments_stable(s@, i + 1, s@.len() as int, (seg - 1) as int);
                assert(s@.take(s@.len() as int) =~= s@);
            }
        } else {
            assert(s@.subrange(start as int, i + 1) =~= s@.subrange(start as int, i as int).push(s@[i as int]));
        }
        i = i + 1;
    }
    proof {
        assert(s@.take(s@.len() as int) =~= s@);
        if i < s@.len() {
            lemma_take_step(s@, i as int);
            lemma_segments_len(s@.take(i as int));
            lemma_segments_stable(s@, i + 1, s@.len() as int, depth as int);
        }
    }
    (start, i)
}

/// Whether `s` holds `f` as a contiguous substring.
pub fn has_substring(s: &Vec<char>, f: &Vec<char>) -> (r: bool)
    ensures
        r == contains_sub(s@, f@),
{
    if f.len() > s.len() {
        return false;
    }
    let last: usize = s.len() - f.len();
    let mut k: usize = 0;
    while k <= last
        invariant
            f@.len() <= s@.len(),
            last == s@.len() - f@.len(),
            s@.len() <= usize::MAX,
            k <= last + 1,
            forall|k0: int| 0 <= k0 < k ==> #[trigger] s@.subrange(k0, k0 + f@.len()) != f@,
        decreases s@.len() - k,
    {
        let mut j: usize = 0;
        while j < f.len() && s[k + j] == f[j]
            invariant
                k <= last,
                last == s@.len() - f@.len(),
                k + f@.len() <= s@.len(),
                s@.len() <= usize::MAX,
                j <= f@.len(),
                forall|j0: int| 0 <= j0 < j ==> s@[k + j0] == f@[j0],
            decreases f@.len() - j,
        {
            j = j + 1;
        }
        if j == f.len() {
            assert(s@.subrange(k as int, k + f@.len()) =~= f@);
            return true;
        }
        assert(s@.subrange(k as int, k + f@.len())[j as int] != f@[j as int]);
        if k == last {
            return false;
        }
        k = k + 1;
    }
    false
}

/// Whether `a` comes strictly before `b` in the order of `name_lt`.
pub fn name_less(a: &Vec<char>, b: &Vec<char>) -> (r: bool)
    ensures
        r == name_lt(a@, b@),
{
    let mut i: usize = 0;
    assert(a@.skip(0) =~= a@ && b@.skip(0) =~= b@);
    while i < a.len() && i < b.len() && a[i] == b[i]
        invariant
            i <= a@.len(),
            i <= b@.len(),
            name_lt(a@, b@) == name_lt(a@.skip(i as int), b@.skip(i as int)),
        decreases a@.len() - i,
    {
        assert(a@.skip(i as int).drop_first() =~= a@.skip(i + 1));
        assert(b@.skip(i as int).drop_first() =~= b@.skip(i + 1));
        i = i + 1;
    }
    if i == a.len() {
        i < b.len()
    } else if i == b.len() {
        false
    } else {
        a[i] < b[i]
    }
}

} // verus!

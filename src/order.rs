//! Orders on the values of a plot: a total order on the bit patterns of
//! doubles that agrees with IEEE `<` on numbers and puts every NaN after every
//! number, the lexicographic order on labels, and the order of points.
use vstd::prelude::*;
use vstd::multiset::group_multiset_axioms;
use vstd::seq_lib::group_to_multiset_ensures;

use crate::bench_id::UtcTimestamp;
use crate::text::chars_of;

verus! {

/// `2^63`: the sign bit of a double.
pub const SIGN_BIT: u64 = 0x8000_0000_0000_0000;

/// Bit pattern of `+inf` without its sign; anything above it is a NaN.
pub const INF_MAGNITUDE: u64 = 0x7FF0_0000_0000_0000;

/// The bits of a double without its sign.
pub open spec fn magnitude(b: u64) -> int {
    b as int % (SIGN_BIT as int)
}

/// Whether the bits are those of a NaN.
pub open spec fn is_nan(b: u64) -> bool {
    magnitude(b) > INF_MAGNITUDE as int
}

/// Position of a double on the number line: negatives below `2^63`,
/// positives above, `-0` and `+0` together, and every NaN at the very top.
pub open spec fn y_key(b: u64) -> int {
    if is_nan(b) {
        u64::MAX as int
    } else if b as int >= SIGN_BIT as int {
        SIGN_BIT as int - magnitude(b)
    } else {
        SIGN_BIT as int + magnitude(b)
    }
}

/// IEEE 754 `a < b` on the doubles with bits `a` and `b`: false where a NaN
/// takes part.
pub open spec fn float_lt(a: u64, b: u64) -> bool {
    !is_nan(a) && !is_nan(b) && y_key(a) < y_key(b)
}

/// Computes [`y_key`].
pub fn y_key_exec(b: u64) -> (r: u64)
    ensures
        r as int == y_key(b),
{
    let m = b % SIGN_BIT;
    if m > INF_MAGNITUDE {
        u64::MAX
    } else if b >= SIGN_BIT {
        SIGN_BIT - m
    } else {
        SIGN_BIT + m
    }
}

/// Whether the double with bits `b` is a NaN.
pub fn is_nan_exec(b: u64) -> (r: bool)
    ensures
        r == is_nan(b),
{
    b % SIGN_BIT > INF_MAGNITUDE
}

/// IEEE 754 `<` on bit patterns.
pub fn float_lt_exec(a: u64, b: u64) -> (r: bool)
    ensures
        r == float_lt(a, b),
{
    !is_nan_exec(a) && !is_nan_exec(b) && y_key_exec(a) < y_key_exec(b)
}

/// Lexicographic order on character sequences (code point by code point, a
/// proper prefix first): the order of `str`.
pub open spec fn seq_lt(a: Seq<char>, b: Seq<char>) -> bool
    decreases a.len(),
{
    if a.len() == 0 {
        b.len() > 0
    } else if b.len() == 0 {
        false
    } else if a[0] != b[0] {
        (a[0] as u32) < (b[0] as u32)
    } else {
        seq_lt(a.drop_first(), b.drop_first())
    }
}

pub proof fn lemma_seq_lt_transitive(a: Seq<char>, b: Seq<char>, c: Seq<char>)
    requires
        seq_lt(a, b),
        seq_lt(b, c),
    ensures
        seq_lt(a, c),
    decreases a.len(),
{
    if a.len() > 0 && b.len() > 0 && c.len() > 0 && a[0] == b[0] && b[0] == c[0] {
        lemma_seq_lt_transitive(a.drop_first(), b.drop_first(), c.drop_first());
    }
}

pub proof fn lemma_seq_lt_irreflexive(a: Seq<char>)
    ensures
        !seq_lt(a, a),
    decreases a.len(),
{
    if a.len() > 0 {
        lemma_seq_lt_irreflexive(a.drop_first());
    }
}

/// Compares two character sequences lexicographically.
pub fn seq_lt_exec(a: &Vec<char>, b: &Vec<char>) -> (r: bool)
    ensures
        r == seq_lt(a@, b@),
{
    let mut i: usize = 0;
    assert(a@.subrange(0, a@.len() as int) =~= a@);
    assert(b@.subrange(0, b@.len() as int) =~= b@);
    while i < a.len() && i < b.len()
        invariant
            i <= a.len(),
            i <= b.len(),
            seq_lt(a@, b@) == seq_lt(
                a@.subrange(i as int, a@.len() as int),
                b@.subrange(i as int, b@.len() as int),
            ),
        decreases a.len() - i,
    {
        let ghost sa = a@.subrange(i as int, a@.len() as int);
        let ghost sb = b@.subrange(i as int, b@.len() as int);
        if a[i] != b[i] {
            return (a[i] as u32) < (b[i] as u32);
        }
        assert(sa.drop_first() =~= a@.subrange(i + 1, a@.len() as int));
        assert(sb.drop_first() =~= b@.subrange(i + 1, b@.len() as int));
        i = i + 1;
    }
    i == a.len() && i < b.len()
}

/// A point of a line: the commit time, the statistic's bits, the commit hash.
#[derive(Debug, PartialEq)]
pub struct Point {
    pub x: UtcTimestamp,
    pub y_bits: u64,
    pub label: String,
}

/// Mathematical form of a [`Point`]: instant, bits of the value, label.
pub type PointView = ((int, int), u64, Seq<char>);

impl Point {
    pub open spec fn view(&self) -> PointView {
        (self.x.instant(), self.y_bits, self.label@)
    }
}

/// Order of instants: by seconds, then by nanoseconds.
pub open spec fn instant_lt(a: (int, int), b: (int, int)) -> bool {
    a.0 < b.0 || (a.0 == b.0 && a.1 < b.1)
}

/// Compares two instants.
pub fn instant_lt_exec(a: UtcTimestamp, b: UtcTimestamp) -> (r: bool)
    ensures
        r == instant_lt(a.instant(), b.instant()),
{
    a.secs < b.secs || (a.secs == b.secs && a.nanos < b.nanos)
}

/// The order of points: by time, then by value (NaN last, `-0` and `+0`
/// equal), then by label. Points equal on all three are neither before nor
/// after each other.
pub open spec fn point_lt(p: PointView, q: PointView) -> bool {
    if p.0 != q.0 {
        instant_lt(p.0, q.0)
    } else if y_key(p.1) != y_key(q.1) {
        y_key(p.1) < y_key(q.1)
    } else {
        seq_lt(p.2, q.2)
    }
}

pub proof fn lemma_point_lt_transitive(p: PointView, q: PointView, r: PointView)
    requires
        point_lt(p, q),
        point_lt(q, r),
    ensures
        point_lt(p, r),
{
    if p.0 == q.0 && q.0 == r.0 && y_key(p.1) == y_key(q.1) && y_key(q.1) == y_key(r.1) {
        lemma_seq_lt_transitive(p.2, q.2, r.2);
    }
}

/// Compares two points in the order of [`point_lt`].
pub fn point_lt_exec(p: &Point, q: &Point) -> (r: bool)
    ensures
        r == point_lt(p.view(), q.view()),
{
    if p.x.secs != q.x.secs || p.x.nanos != q.x.nanos {
        return instant_lt_exec(p.x, q.x);
    }
    let kp = y_key_exec(p.y_bits);
    let kq = y_key_exec(q.y_bits);
    if kp != kq {
        return kp < kq;
    }
    let lp = chars_of(p.label.as_str());
    let lq = chars_of(q.label.as_str());
    seq_lt_exec(&lp, &lq)
}

/// Mathematical form of a sequence of points.
pub open spec fn points_view(s: Seq<Point>) -> Seq<PointView> {
    s.map_values(|p: Point| p.view())
}

/// No point comes after a later one.
pub open spec fn sorted(s: Seq<PointView>) -> bool {
    forall|i: int, j: int| 0 <= i < j < s.len() ==> !point_lt(s[j], s[i])
}

/// Where `p` goes into `s`: before the first point that comes after it,
/// so after every point equal to it.
pub open spec fn insert_pos(s: Seq<PointView>, p: PointView) -> int
    decreases s.len(),
{
    if s.len() == 0 {
        0
    } else if point_lt(p, s[0]) {
        0
    } else {
        1 + insert_pos(s.drop_first(), p)
    }
}

/// The stable sort of `s`: its points inserted one by one, in their order,
/// each after the points already placed that it does not come before. Points
/// equal in the order keep the order they had in `s`.
pub open spec fn stable_sort(s: Seq<PointView>) -> Seq<PointView>
    decreases s.len(),
{
    if s.len() == 0 {
        s
    } else {
        let t = stable_sort(s.drop_last());
        t.insert(insert_pos(t, s.last()), s.last())
    }
}

/// `s` is the stable sort of `t`: sorted, with the same points.
pub open spec fn sorted_from(s: Seq<PointView>, t: Seq<PointView>) -> bool {
    &&& s == stable_sort(t)
    &&& sorted(s)
    &&& s.to_multiset() == t.to_multiset()
}

/// A position past every point `p` does not come before, and at one it does
/// come before (or at the end), is the insertion position.
proof fn lemma_insert_pos(s: Seq<PointView>, p: PointView, k: int)
    requires
        0 <= k <= s.len(),
        forall|j: int| 0 <= j < k ==> !point_lt(p, #[trigger] s[j]),
        k == s.len() || point_lt(p, s[k]),
    ensures
        insert_pos(s, p) == k,
    decreases s.len(),
{
    if s.len() > 0 && k > 0 {
        let t = s.drop_first();
        assert forall|j: int| 0 <= j < k - 1 implies !point_lt(p, #[trigger] t[j]) by {
            assert(t[j] == s[j + 1]);
        }
        lemma_insert_pos(t, p, k - 1);
    }
}

/// Sorting a line that is already sorted leaves it exactly as it was.
pub proof fn lemma_stable_sort_of_sorted(s: Seq<PointView>)
    requires
        sorted(s),
    ensures
        stable_sort(s) == s,
    decreases s.len(),
{
    if s.len() > 0 {
        let t = s.drop_last();
        assert(sorted(t));
        lemma_stable_sort_of_sorted(t);
        assert forall|j: int| 0 <= j < t.len() implies !point_lt(s.last(), #[trigger] t[j]) by {
            assert(t[j] == s[j]);
        }
        lemma_insert_pos(t, s.last(), t.len() as int);
        assert(t.insert(t.len() as int, s.last()) =~= s);
    }
}

proof fn lemma_insert_multiset(s: Seq<PointView>, k: int, x: PointView)
    requires
        0 <= k <= s.len(),
    ensures
        s.insert(k, x).to_multiset() =~= s.to_multiset().insert(x),
{
    broadcast use group_to_multiset_ensures, group_multiset_axioms;

    let t = s.insert(k, x);
    assert(t.remove(k) =~= s);
    assert(t[k] == x);
    assert(t.contains(x));
}

/// Sorts points by insertion; points equal in the order keep their order.
pub fn sort_points(v: Vec<Point>) -> (r: Vec<Point>)
    ensures
        sorted_from(points_view(r@), points_view(v@)),
{
    broadcast use group_to_multiset_ensures;

    let ghost orig = points_view(v@);
    let mut v = v;
    let mut out: Vec<Point> = Vec::new();
    let ghost mut i: int = 0;
    while v.len() > 0
        invariant
            0 <= i <= orig.len(),
            points_view(v@) =~= orig.subrange(i, orig.len() as int),
            sorted(points_view(out@)),
            points_view(out@).to_multiset() == orig.subrange(0, i).to_multiset(),
            points_view(out@) == stable_sort(orig.subrange(0, i)),
        decreases v.len(),
    {
        let ghost pre = v@;
        assert(points_view(pre).len() == orig.len() - i);
        assert(points_view(pre)[0] == orig.subrange(i, orig.len() as int)[0]);
        let p = v.remove(0);
        assert(p.view() == orig[i]);
        assert(v@ =~= pre.subrange(1, pre.len() as int));
        assert forall|j: int| 0 <= j < v@.len() implies points_view(v@)[j] == orig[i + 1 + j] by {
            assert(points_view(v@)[j] == pre[j + 1].view());
            assert(points_view(pre)[j + 1] == orig.subrange(i, orig.len() as int)[j + 1]);
        }
        assert(points_view(v@) =~= orig.subrange(i + 1, orig.len() as int));
        let mut k: usize = 0;
        while k < out.len() && !point_lt_exec(&p, &out[k])
            invariant
                k <= out.len(),
                forall|j: int| 0 <= j < k ==> !point_lt(p.view(), #[trigger] points_view(out@)[j]),
            decreases out.len() - k,
        {
            k = k + 1;
        }
        let ghost before = points_view(out@);
        proof {
            lemma_insert_pos(before, orig[i], k as int);
            assert(orig.subrange(0, i + 1).drop_last() =~= orig.subrange(0, i));
        }
        out.insert(k, p);
        proof {
            let s = points_view(out@);
            assert(s =~= before.insert(k as int, orig[i]));
            assert forall|a: int, b: int| 0 <= a < b < s.len() implies !point_lt(s[b], s[a]) by {
                if b < k {
                    assert(s[a] == before[a] && s[b] == before[b]);
                } else if b == k {
                    assert(s[a] == before[a]);
                } else if a == k {
                    assert(s[b] == before[b - 1]);
                    if point_lt(before[b - 1], orig[i]) {
                        lemma_point_lt_transitive(before[b - 1], orig[i], before[k as int]);
                        lemma_seq_lt_irreflexive(before[k as int].2);
                    }
                } else if a < k {
                    assert(s[a] == before[a] && s[b] == before[b - 1]);
                } else {
                    assert(s[a] == before[a - 1] && s[b] == before[b - 1]);
                }
            }
            lemma_insert_multiset(before, k as int, orig[i]);
            assert(orig.subrange(0, i + 1) =~= orig.subrange(0, i).push(orig[i]));
            orig.subrange(0, i).to_multiset_ensures();
            assert(orig.subrange(0, i).push(orig[i]).to_multiset() =~= orig.subrange(
                0,
                i,
            ).to_multiset().insert(orig[i]));
            i = i + 1;
        }
    }
    assert(points_view(v@).len() == 0);
    assert(orig.subrange(0, i) =~= orig);
    out
}

} // verus!

//! Character-sequence helpers: counting and locating a delimiter, slicing,
//! and moving between `String` and `Vec<char>`.
use vstd::prelude::*;

verus! {

/// Number of occurrences of `c` in `s`.
pub open spec fn count_of(s: Seq<char>, c: char) -> nat
    decreases s.len(),
{
    if s.len() == 0 {
        0
    } else {
        count_of(s.drop_last(), c) + if s.last() == c {
            1nat
        } else {
            0nat
        }
    }
}

/// Index of the occurrence of `c` in `s` that has exactly `n` occurrences of `c`
/// before it, if there is one.
pub open spec fn nth_pos(s: Seq<char>, c: char, n: nat) -> Option<int>
    decreases s.len(),
{
    if s.len() == 0 {
        None
    } else {
        match nth_pos(s.drop_last(), c, n) {
            Some(i) => Some(i),
            None => if s.last() == c && count_of(s.drop_last(), c) == n {
                Some(s.len() - 1)
            } else {
                None
            },
        }
    }
}

pub proof fn lemma_count_concat(a: Seq<char>, b: Seq<char>, c: char)
    ensures
        count_of(a + b, c) == count_of(a, c) + count_of(b, c),
    decreases b.len(),
{
    if b.len() == 0 {
        assert(a + b =~= a);
    } else {
        lemma_count_concat(a, b.drop_last(), c);
        assert((a + b).drop_last() =~= a + b.drop_last());
    }
}

/// A position found in a prefix stays the answer for the whole sequence.
pub proof fn lemma_nth_pos_prefix(s: Seq<char>, k: int, c: char, n: nat)
    requires
        0 <= k <= s.len(),
        nth_pos(s.subrange(0, k), c, n) is Some,
    ensures
        nth_pos(s, c, n) == nth_pos(s.subrange(0, k), c, n),
    decreases s.len() - k,
{
    if s.len() == k {
        assert(s.subrange(0, k) =~= s);
    } else {
        let t = s.drop_last();
        assert(t.subrange(0, k) =~= s.subrange(0, k));
        lemma_nth_pos_prefix(t, k, c, n);
    }
}

/// With no more than `n` occurrences there is no `n`-th one.
pub proof fn lemma_nth_pos_none(s: Seq<char>, c: char, n: nat)
    requires
        count_of(s, c) <= n,
    ensures
        nth_pos(s, c, n) is None,
    decreases s.len(),
{
    if s.len() > 0 {
        lemma_nth_pos_none(s.drop_last(), c, n);
    }
}

/// With more than `n` occurrences the `n`-th one exists.
pub proof fn lemma_nth_pos_some(s: Seq<char>, c: char, n: nat)
    requires
        count_of(s, c) > n,
    ensures
        nth_pos(s, c, n) matches Some(i) && 0 <= i < s.len() && s[i] == c,
    decreases s.len(),
{
    let t = s.drop_last();
    if count_of(t, c) > n {
        lemma_nth_pos_some(t, c, n);
    } else {
        lemma_nth_pos_none(t, c, n);
    }
}

/// In `a + [c] + b`, the occurrence of `c` right after `a` is the one that
/// has `count_of(a, c)` occurrences before it.
pub proof fn lemma_nth_pos_after(a: Seq<char>, b: Seq<char>, c: char)
    ensures
        nth_pos(a.push(c) + b, c, count_of(a, c)) == Some(a.len() as int),
{
    let s = a.push(c) + b;
    lemma_nth_pos_none(a, c, count_of(a, c));
    assert(s.subrange(0, a.len() + 1int) =~= a.push(c));
    assert(a.push(c).drop_last() =~= a);
    lemma_nth_pos_prefix(s, a.len() + 1int, c, count_of(a, c));
}

/// What a found position is: an occurrence of `c` with `n` before it.
pub proof fn lemma_nth_pos_facts(s: Seq<char>, c: char, n: nat)
    requires
        nth_pos(s, c, n) is Some,
    ensures
        0 <= nth_pos(s, c, n)->0 < s.len(),
        s[nth_pos(s, c, n)->0] == c,
        count_of(s.subrange(0, nth_pos(s, c, n)->0), c) == n,
    decreases s.len(),
{
    let t = s.drop_last();
    if nth_pos(t, c, n) is Some {
        lemma_nth_pos_facts(t, c, n);
        let i = nth_pos(t, c, n)->0;
        assert(t.subrange(0, i) =~= s.subrange(0, i));
    } else {
        assert(s.subrange(0, s.len() - 1) =~= t);
    }
}

/// Earlier counts come at earlier positions.
pub proof fn lemma_nth_pos_order(s: Seq<char>, c: char, n: nat, m: nat)
    requires
        n < m,
        nth_pos(s, c, n) is Some,
        nth_pos(s, c, m) is Some,
    ensures
        nth_pos(s, c, n)->0 < nth_pos(s, c, m)->0,
{
    lemma_nth_pos_facts(s, c, n);
    lemma_nth_pos_facts(s, c, m);
    let i = nth_pos(s, c, n)->0;
    let j = nth_pos(s, c, m)->0;
    if j <= i {
        lemma_count_concat(s.subrange(0, j), s.subrange(j, i), c);
        assert(s.subrange(0, j) + s.subrange(j, i) =~= s.subrange(0, i));
    }
}

/// Counts the occurrences of `c` in `v`.
pub fn count_char(v: &Vec<char>, c: char) -> (r: usize)
    ensures
        r == count_of(v@, c),
{
    let mut i: usize = 0;
    let mut n: usize = 0;
    while i < v.len()
        invariant
            i <= v.len(),
            n <= i,
            n == count_of(v@.subrange(0, i as int), c),
        decreases v.len() - i,
    {
        assert(v@.subrange(0, i + 1).drop_last() =~= v@.subrange(0, i as int));
        if v[i] == c {
            n = n + 1;
        }
        i = i + 1;
    }
    assert(v@.subrange(0, i as int) =~= v@);
    n
}

/// Finds the occurrence of `c` that has exactly `n` occurrences before it.
pub fn find_nth(v: &Vec<char>, c: char, n: usize) -> (r: Option<usize>)
    ensures
        r matches Some(i) ==> nth_pos(v@, c, n as nat) == Some(i as int) && i < v@.len() && v@[i as int]
            == c,
        r is None ==> nth_pos(v@, c, n as nat) is None,
{
    let mut i: usize = 0;
    let mut k: usize = 0;
    while i < v.len()
        invariant
            i <= v.len(),
            k <= i,
            k == count_of(v@.subrange(0, i as int), c),
            nth_pos(v@.subrange(0, i as int), c, n as nat) is None,
        decreases v.len() - i,
    {
        assert(v@.subrange(0, i + 1).drop_last() =~= v@.subrange(0, i as int));
        if v[i] == c && k == n {
            proof {
                lemma_nth_pos_prefix(v@, i + 1, c, n as nat);
            }
            return Some(i);
        }
        if v[i] == c {
            k = k + 1;
        }
        i = i + 1;
    }
    assert(v@.subrange(0, i as int) =~= v@);
    None
}

/// Copies `v[lo..hi]`.
pub fn copy_range(v: &Vec<char>, lo: usize, hi: usize) -> (r: Vec<char>)
    requires
        lo <= hi <= v.len(),
    ensures
        r@ == v@.subrange(lo as int, hi as int),
{
    let mut r: Vec<char> = Vec::new();
    let mut i: usize = lo;
    while i < hi
        invariant
            lo <= i <= hi,
            hi <= v.len(),
            r@ == v@.subrange(lo as int, i as int),
        decreases hi - i,
    {
        r.push(v[i]);
        i = i + 1;
        assert(r@ =~= v@.subrange(lo as int, i as int));
    }
    r
}

/// Joins `a`, the separator `sep` and `b` into one string.
pub fn join_with(a: &str, sep: char, b: &str) -> (r: String)
    ensures
        r@ == a@ + seq![sep] + b@,
{
    let mut v = chars_of(a);
    v.push(sep);
    let w = chars_of(b);
    let mut i: usize = 0;
    let ghost head = v@;
    while i < w.len()
        invariant
            i <= w.len(),
            v@ == head + w@.subrange(0, i as int),
        decreases w.len() - i,
    {
        v.push(w[i]);
        i = i + 1;
        assert(v@ =~= head + w@.subrange(0, i as int));
    }
    assert(w@.subrange(0, i as int) =~= w@);
    string_of(&v)
}

/// Concatenates `a` and `b`.
pub fn concat_str(a: &str, b: &str) -> (r: String)
    ensures
        r@ == a@ + b@,
{
    let mut v = chars_of(a);
    let w = chars_of(b);
    let mut i: usize = 0;
    let ghost head = v@;
    while i < w.len()
        invariant
            i <= w.len(),
            v@ == head + w@.subrange(0, i as int),
        decreases w.len() - i,
    {
        v.push(w[i]);
        i = i + 1;
        assert(v@ =~= head + w@.subrange(0, i as int));
    }
    assert(w@.subrange(0, i as int) =~= w@);
    string_of(&v)
}

/// Relies on `str::chars`: the characters of `s`, in order.
#[verifier::external_body]
pub(crate) fn chars_of(s: &str) -> (r: Vec<char>)
    ensures
        r@ == s@,
{
    s.chars().collect()
}

/// Relies on `String: FromIterator<&char>`: the string made of the characters of `v`.
#[verifier::external_body]
pub(crate) fn string_of(v: &Vec<char>) -> (r: String)
    ensures
        r@ == v@,
{
    v.iter().collect()
}

} // verus!

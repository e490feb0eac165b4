//! Counting the indices below a bound that satisfy a predicate.

use vstd::prelude::*;

verus! {

/// How many `i` with `0 <= i < m` satisfy `p`.
pub open spec fn count(m: int, p: spec_fn(int) -> bool) -> int
    decreases m,
{
    if m <= 0 {
        0
    } else {
        count(m - 1, p) + if p(m - 1) {
            1int
        } else {
            0int
        }
    }
}

/// A count lies between nothing and everything.
pub proof fn lemma_count_range(m: int, p: spec_fn(int) -> bool)
    requires
        0 <= m,
    ensures
        0 <= count(m, p) <= m,
    decreases m,
{
    if m > 0 {
        lemma_count_range(m - 1, p);
    }
}

/// Predicates that agree below `m` have the same count.
pub proof fn lemma_count_same(m: int, p: spec_fn(int) -> bool, q: spec_fn(int) -> bool)
    requires
        forall|i: int| 0 <= i < m ==> #[trigger] p(i) == q(i),
    ensures
        count(m, p) == count(m, q),
    decreases m,
{
    if m > 0 {
        lemma_count_same(m - 1, p, q);
    }
}

/// Where `p` holds exactly when one of `q` and `r` holds, and these two never
/// hold together, the count of `p` is the sum of their counts.
pub proof fn lemma_count_split(
    m: int,
    p: spec_fn(int) -> bool,
    q: spec_fn(int) -> bool,
    r: spec_fn(int) -> bool,
)
    requires
        forall|i: int| 0 <= i < m ==> (#[trigger] p(i) <==> q(i) || r(i)),
        forall|i: int| 0 <= i < m ==> !(#[trigger] q(i) && r(i)),
    ensures
        count(m, p) == count(m, q) + count(m, r),
    decreases m,
{
    if m > 0 {
        lemma_count_split(m - 1, p, q, r);
    }
}

/// Counting once around a cycle of `n` indices gives the same number wherever
/// the round starts: asking `t` of the index after `i`, for every `i`, counts
/// what asking `t` of `i` counts.
pub proof fn lemma_count_rotated(n: int, t: spec_fn(int) -> bool, shifted: spec_fn(int) -> bool)
    requires
        1 <= n,
        forall|i: int| 0 <= i < n - 1 ==> #[trigger] shifted(i) == t(i + 1),
        shifted(n - 1) == t(0),
    ensures
        count(n, shifted) == count(n, t),
{
    lemma_count_shifted(n - 1, t, shifted);
}

/// The first `m` answers of `shifted` are the answers of `t` from 1 to `m`.
proof fn lemma_count_shifted(m: int, t: spec_fn(int) -> bool, shifted: spec_fn(int) -> bool)
    requires
        0 <= m,
        forall|i: int| 0 <= i < m ==> #[trigger] shifted(i) == t(i + 1),
    ensures
        count(m, shifted) + (if t(0) { 1int } else { 0int }) == count(m + 1, t),
    decreases m,
{
    if m > 0 {
        lemma_count_shifted(m - 1, t, shifted);
    } else {
        assert(count(0, t) == 0);
    }
}

/// How many values of `s` are less than `x`.
pub open spec fn count_below(s: Seq<int>, x: int) -> int {
    count(s.len() as int, |k: int| s[k] < x)
}

/// Removing a value takes it out of the count, if it was counted.
proof fn lemma_count_below_remove(s: Seq<int>, j: int, x: int)
    requires
        0 <= j < s.len(),
    ensures
        count_below(s, x) == count_below(s.remove(j), x) + if s[j] < x {
            1int
        } else {
            0int
        },
    decreases s.len(),
{
    let r = s.remove(j);
    let last = s.len() - 1;
    if j == last {
        assert(r =~= s.drop_last());
        lemma_count_same(last, |k: int| s[k] < x, |k: int| r[k] < x);
    } else {
        let s1 = s.drop_last();
        lemma_count_below_remove(s1, j, x);
        assert(s1.remove(j) =~= r.drop_last());
        let r1 = r.drop_last();
        lemma_count_same(last, |k: int| s[k] < x, |k: int| s1[k] < x);
        lemma_count_same(last - 1, |k: int| r[k] < x, |k: int| r1[k] < x);
        assert(r[last - 1] == s[last]);
    }
}

/// Two sequences that hold the same values, in whatever order, have as many
/// below `x`.
pub proof fn lemma_count_below_rearranged(a: Seq<int>, b: Seq<int>, x: int)
    requires
        a.to_multiset() == b.to_multiset(),
    ensures
        count_below(a, x) == count_below(b, x),
    decreases a.len(),
{
    broadcast use vstd::seq_lib::group_to_multiset_ensures;

    vstd::seq_lib::to_multiset_len(a);
    vstd::seq_lib::to_multiset_len(b);
    if a.len() > 0 {
        let last = a.len() - 1;
        let v = a[last];
        assert(a.contains(v));
        vstd::seq_lib::to_multiset_contains(a, v);
        vstd::seq_lib::to_multiset_contains(b, v);
        assert(b.contains(v));
        let j = choose|j: int| 0 <= j < b.len() && b[j] == v;
        vstd::seq_lib::to_multiset_remove(a, last);
        vstd::seq_lib::to_multiset_remove(b, j);
        lemma_count_below_rearranged(a.remove(last), b.remove(j), x);
        lemma_count_below_remove(a, last, x);
        lemma_count_below_remove(b, j, x);
    }
}

/// In an ascending sequence the values below `x` come first.
pub proof fn lemma_count_below_sorted(s: Seq<int>, x: int)
    requires
        forall|a: int, b: int| 0 <= a < b < s.len() ==> s[a] <= s[b],
    ensures
        0 <= count_below(s, x) <= s.len(),
        forall|k: int| 0 <= k < s.len() ==> (s[k] < x <==> k < count_below(s, x)),
    decreases s.len(),
{
    if s.len() > 0 {
        let last = s.len() - 1;
        let s1 = s.drop_last();
        lemma_count_below_sorted(s1, x);
        lemma_count_same(last, |k: int| s[k] < x, |k: int| s1[k] < x);
        assert forall|k: int| 0 <= k < s.len() implies (s[k] < x <==> k < count_below(s, x)) by {
            if k < last {
                assert(s1[k] == s[k]);
            }
            if last > 0 {
                assert(s1[last - 1] == s[last - 1]);
            }
        }
    }
}

} // verus!

//! Descriptive statistics over integer columns, computed exactly.
//!
//! Every statistic whose value may be fractional is returned as a [`Ratio`]
//! (a numerator over a positive denominator), in the unit of the column
//! (squared, for the variance).
use vstd::prelude::*;
use vstd::relations::sorted_by;
use vstd::arithmetic::mul::{lemma_mul_inequality, lemma_mul_is_associative, lemma_mul_is_commutative};
use vstd::seq_lib::lemma_sorted_unique;

verus! {

broadcast use vstd::seq_lib::group_to_multiset_ensures;

/// The largest magnitude a value may have for [`variance`].
pub const MAX_MAGNITUDE: i64 = 0x100_0000_0000;

/// The largest column length that [`variance`] accepts.
pub const MAX_COUNT: usize = 0x10_0000;

/// A column of machine integers seen as mathematical integers.
pub open spec fn ints(v: Seq<i64>) -> Seq<int> {
    v.map_values(|x: i64| x as int)
}

/// Sum of a sequence of integers.
pub open spec fn sum(s: Seq<int>) -> int
    decreases s.len(),
{
    if s.len() == 0 {
        0
    } else {
        sum(s.drop_last()) + s.last()
    }
}

/// Sum of the squares of a sequence of integers.
pub open spec fn sum_sq(s: Seq<int>) -> int
    decreases s.len(),
{
    if s.len() == 0 {
        0
    } else {
        sum_sq(s.drop_last()) + s.last() * s.last()
    }
}

/// Sum of `(a * x - b)^2` over the elements `x` of `s`.
///
/// With `a` the length of `s` and `b` its sum, each term is `a^2` times the
/// squared deviation of `x` from the mean.
pub open spec fn sum_sq_dev(s: Seq<int>, a: int, b: int) -> int
    decreases s.len(),
{
    if s.len() == 0 {
        0
    } else {
        sum_sq_dev(s.drop_last(), a, b) + (a * s.last() - b) * (a * s.last() - b)
    }
}

/// Ascending order on integers.
pub open spec fn ascending() -> spec_fn(int, int) -> bool {
    |x: int, y: int| x <= y
}

/// Median of a non-empty sequence, as a (numerator, denominator) pair:
/// the middle element of the sorted sequence, or the halved sum of the two
/// middle elements when the length is even.
pub open spec fn median_of(s: Seq<int>) -> (int, int) {
    let t = s.sort();
    let n = t.len() as int;
    if n % 2 == 0 {
        (t[n / 2 - 1] + t[n / 2], 2)
    } else {
        (t[n / 2], 1)
    }
}

/// An exact fraction `num / den`.
#[derive(Clone, Copy, Debug, PartialEq, Eq)]
pub struct Ratio {
    pub num: i128,
    pub den: i128,
}

impl Ratio {
    /// The denominator is positive.
    pub open spec fn wf(&self) -> bool {
        self.den > 0
    }
}

/// The arithmetic mean `sum / n`, or `None` for an empty column.
pub fn mean(data: &[i64]) -> (r: Option<Ratio>)
    ensures
        r is None <==> data@.len() == 0,
        r matches Some(q) ==> q.num == sum(ints(data@)) && q.den == data@.len() && q.wf(),
{
    let n = data.len();
    let mut acc: i128 = 0;
    let mut i: usize = 0;
    while i < n
        invariant
            n == data@.len(),
            0 <= i <= n,
            acc == sum(ints(data@.take(i as int))),
            -(i as int) * 0x8000_0000_0000_0000 <= acc <= (i as int) * 0x8000_0000_0000_0000,
        decreases n - i,
    {
        assert(ints(data@.take(i as int + 1)).drop_last() =~= ints(data@.take(i as int)));
        acc = acc + data[i] as i128;
        i = i + 1;
    }
    assert(data@.take(n as int) =~= data@);
    if n == 0 {
        None
    } else {
        Some(Ratio { num: acc, den: n as i128 })
    }
}

/// Swapping two positions keeps the multiset of a sequence.
proof fn lemma_swap_multiset(s: Seq<int>, i: int, j: int)
    requires
        0 <= i < s.len(),
        0 <= j < s.len(),
    ensures
        s.update(i, s[j]).update(j, s[i]).to_multiset() =~= s.to_multiset(),
{
    broadcast use vstd::multiset::group_multiset_axioms;
    broadcast use vstd::seq_lib::to_multiset_update;

    let t = s.update(i, s[j]);
    assert(t[j] == s[j]);
}

/// Sorts the column in ascending order, keeping its values.
pub fn sort_ascending(v: &mut Vec<i64>)
    ensures
        final(v)@.len() == old(v)@.len(),
        sorted_by(ints(final(v)@), ascending()),
        ints(final(v)@).to_multiset() == ints(old(v)@).to_multiset(),
{
    let n = v.len();
    let mut i: usize = 0;
    while i < n
        invariant
            n == v@.len(),
            0 <= i <= n,
            forall|a: int, b: int| 0 <= a < b < i ==> v@[a] <= v@[b],
            ints(v@).to_multiset() == ints(old(v)@).to_multiset(),
        decreases n - i,
    {
        let mut j: usize = i;
        while j > 0 && v[j - 1] > v[j]
            invariant
                n == v@.len(),
                0 <= j <= i < n,
                forall|a: int, b: int|
                    0 <= a < b <= i && a != j && b != j ==> v@[a] <= v@[b],
                forall|a: int, b: int| 0 <= a < j < b <= i ==> v@[a] <= v@[b],
                forall|b: int| j < b <= i ==> v@[j as int] <= v@[b],
                ints(v@).to_multiset() == ints(old(v)@).to_multiset(),
            decreases j,
        {
            let ghost before = v@;
            let x = v[j - 1];
            let y = v[j];
            v.set(j - 1, y);
            v.set(j, x);
            proof {
                lemma_swap_multiset(ints(before), j as int - 1, j as int);
                assert(ints(v@) =~= ints(before).update(j as int - 1, ints(before)[j as int]).update(
                    j as int,
                    ints(before)[j as int - 1],
                ));
            }
            j = j - 1;
        }
        i = i + 1;
    }
}

/// The median, or `None` for an empty column. The column is left sorted.
pub fn median(data: &mut Vec<i64>) -> (r: Option<Ratio>)
    ensures
        ints(final(data)@) == ints(old(data)@).sort(),
        r is None <==> old(data)@.len() == 0,
        r matches Some(q) ==> q.num == median_of(ints(old(data)@)).0 && q.den == median_of(
            ints(old(data)@),
        ).1 && q.wf(),
{
    sort_ascending(data);
    proof {
        ints(old(data)@).lemma_sort_ensures();
        lemma_sorted_unique(ints(data@), ints(old(data)@).sort(), ascending());
    }
    let len = data.len();
    if len == 0 {
        None
    } else if len % 2 == 0 {
        let mid1 = data[len / 2 - 1] as i128;
        let mid2 = data[len / 2] as i128;
        Some(Ratio { num: mid1 + mid2, den: 2 })
    } else {
        Some(Ratio { num: data[len / 2] as i128, den: 1 })
    }
}

/// The difference between the largest and the smallest value.
pub fn range(data: &[i64]) -> (r: i128)
    requires
        data@.len() > 0,
    ensures
        r == ints(data@).max() - ints(data@).min(),
{
    let n = data.len();
    let mut hi: i64 = data[0];
    let mut lo: i64 = data[0];
    let mut i: usize = 1;
    while i < n
        invariant
            n == data@.len(),
            1 <= i <= n,
            exists|k: int| 0 <= k < i && data@[k] == hi,
            exists|k: int| 0 <= k < i && data@[k] == lo,
            forall|k: int| 0 <= k < i ==> lo <= #[trigger] data@[k] <= hi,
        decreases n - i,
    {
        if data[i] > hi {
            hi = data[i];
        }
        if data[i] < lo {
            lo = data[i];
        }
        i = i + 1;
    }
    proof {
        let s = ints(data@);
        s.max_ensures();
        s.min_ensures();
        let kh = choose|k: int| 0 <= k < n && data@[k] == hi;
        let kl = choose|k: int| 0 <= k < n && data@[k] == lo;
        assert(s[kh] == hi as int);
        assert(s[kl] == lo as int);
        let km = choose|k: int| 0 <= k < s.len() && s[k] == s.max();
        let kn = choose|k: int| 0 <= k < s.len() && s[k] == s.min();
        assert(s[km] <= hi);
        assert(s[kn] >= lo);
    }
    hi as i128 - lo as i128
}


/// Expands `sum_sq_dev` into the plain sums of the sequence.
proof fn lemma_sum_sq_dev(s: Seq<int>, a: int, b: int)
    ensures
        sum_sq_dev(s, a, b) == a * a * sum_sq(s) - 2 * a * b * sum(s) + s.len() * b * b,
    decreases s.len(),
{
    if s.len() > 0 {
        let t = s.drop_last();
        let x = s.last();
        lemma_sum_sq_dev(t, a, b);
        let k = t.len() as int;
        assert((a * x - b) * (a * x - b) == a * a * (x * x) - 2 * a * b * x + b * b)
            by (nonlinear_arith);
        assert(a * a * (sum_sq(t) + x * x) == a * a * sum_sq(t) + a * a * (x * x))
            by (nonlinear_arith);
        assert(2 * a * b * (sum(t) + x) == 2 * a * b * sum(t) + 2 * a * b * x)
            by (nonlinear_arith);
        assert((k + 1) * b * b == k * b * b + b * b) by (nonlinear_arith);
    }
}

/// The population variance: the mean of the squared deviations from the
/// mean, or `None` for an empty column.
///
/// The result `q` satisfies `q.num / q.den == sum((x - m)^2) / n` with
/// `m = sum / n`, stated without fractions: `q.den == n^2` and
/// `q.num * n == sum((n * x - sum)^2)`.
pub fn variance(data: &[i64]) -> (r: Option<Ratio>)
    requires
        data@.len() <= MAX_COUNT,
        forall|k: int| 0 <= k < data@.len() ==> -MAX_MAGNITUDE <= #[trigger] data@[k] <= MAX_MAGNITUDE,
    ensures
        r is None <==> data@.len() == 0,
        r matches Some(q) ==> q.wf() && q.den == data@.len() * data@.len() && q.num * data@.len()
            == sum_sq_dev(ints(data@), data@.len() as int, sum(ints(data@))),
{
    let n = data.len();
    let mut s: i128 = 0;
    let mut q: i128 = 0;
    let mut i: usize = 0;
    while i < n
        invariant
            n == data@.len(),
            n <= MAX_COUNT,
            forall|k: int| 0 <= k < n ==> -MAX_MAGNITUDE <= #[trigger] data@[k] <= MAX_MAGNITUDE,
            0 <= i <= n,
            s == sum(ints(data@.take(i as int))),
            q == sum_sq(ints(data@.take(i as int))),
            -(i as int) * 0x100_0000_0000 <= s <= (i as int) * 0x100_0000_0000,
            0 <= q <= (i as int) * 0x1_0000_0000_0000_0000_0000,
        decreases n - i,
    {
        assert(ints(data@.take(i as int + 1)).drop_last() =~= ints(data@.take(i as int)));
        let x = data[i] as i128;
        assert(0 <= x * x <= 0x1_0000_0000_0000_0000_0000) by (nonlinear_arith)
            requires
                -0x100_0000_0000 <= x <= 0x100_0000_0000,
        ;
        s = s + x;
        q = q + x * x;
        i = i + 1;
    }
    assert(data@.take(n as int) =~= data@);
    if n == 0 {
        return None;
    }
    let ghost gs = s as int;
    let ghost gq = q as int;
    let ghost gn = n as int;
    assert(0 < gn * gn <= 0x100_0000_0000) by (nonlinear_arith)
        requires
            0 < gn <= 0x10_0000,
    ;
    proof {
        let c: int = 0x1_0000_0000_0000_0000_0000;
        lemma_mul_inequality(gq, gn * c, gn);
        lemma_mul_is_associative(gn, gn, c);
        lemma_mul_inequality(gn * gn, 0x100_0000_0000, c);
        let b: int = 0x1000_0000_0000_0000;
        assert(gn * 0x100_0000_0000 <= 0x1000_0000_0000_0000) by (nonlinear_arith)
            requires
                0 < gn <= 0x10_0000,
        ;
        let a: int = if gs >= 0 {
            gs
        } else {
            -gs
        };
        assert(a * a == gs * gs) by (nonlinear_arith)
            requires
                a == gs || a == -gs,
        ;
        lemma_mul_inequality(a, b, a);
        lemma_mul_inequality(a, b, b);
        lemma_mul_is_commutative(a, b);
        assert(0 <= a * a) by (nonlinear_arith);
    }
    let nn = n as i128;
    let num = nn * q - s * s;
    let den = nn * nn;
    proof {
        lemma_sum_sq_dev(ints(data@), gn, gs);
        assert(gn * gn * gq - 2 * gn * gs * gs + gn * gs * gs == (gn * gq - gs * gs) * gn)
            by (nonlinear_arith);
    }
    Some(Ratio { num, den })
}

/// The mean of a non-empty column lies between its smallest and its largest
/// value: `min * n <= sum <= max * n`, where `sum / n` is what [`mean`]
/// returns.
pub proof fn lemma_mean_within_bounds(v: Seq<i64>)
    requires
        v.len() > 0,
    ensures
        ints(v).min() * v.len() <= sum(ints(v)) <= ints(v).max() * v.len(),
{
    let s = ints(v);
    s.min_ensures();
    s.max_ensures();
    lemma_sum_between(s, s.min(), s.max());
}

/// A sum of elements that all lie in `[lo, hi]` lies in `[lo * n, hi * n]`.
pub proof fn lemma_sum_between(s: Seq<int>, lo: int, hi: int)
    requires
        forall|k: int| 0 <= k < s.len() ==> lo <= #[trigger] s[k] <= hi,
    ensures
        lo * s.len() <= sum(s) <= hi * s.len(),
    decreases s.len(),
{
    if s.len() > 0 {
        let t = s.drop_last();
        assert forall|k: int| 0 <= k < t.len() implies lo <= #[trigger] t[k] <= hi by {
            assert(t[k] == s[k]);
        }
        lemma_sum_between(t, lo, hi);
        let k = t.len() as int;
        assert(lo * (k + 1) == lo * k + lo) by (nonlinear_arith);
        assert(hi * (k + 1) == hi * k + hi) by (nonlinear_arith);
    }
}

/// The median does not depend on the order of the values: two columns that
/// hold the same values, each as often, have the same median.
pub proof fn lemma_median_order_independent(v: Seq<i64>, w: Seq<i64>)
    requires
        ints(v).to_multiset() == ints(w).to_multiset(),
    ensures
        ints(v).sort() == ints(w).sort(),
        median_of(ints(v)) == median_of(ints(w)),
{
    ints(v).lemma_sort_ensures();
    ints(w).lemma_sort_ensures();
    lemma_sorted_unique(ints(v).sort(), ints(w).sort(), ascending());
}

} // verus!

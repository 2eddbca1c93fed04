//! Numeric features derived from the records: standard scores of the
//! salaries, a job-title index, one-hot vectors over it, and an indicator of
//! companies located in the US.
use vstd::prelude::*;
use crate::record::{get_salaries, SalaryRecord};
use crate::stats::{ints, lemma_sum_between, mean, sum, sum_sq_dev, variance, MAX_COUNT, MAX_MAGNITUDE};
use crate::text::spells_pair;

verus! {

/// The job title of each record, in order.
pub open spec fn titles(d: Seq<SalaryRecord>) -> Seq<Seq<char>> {
    d.map_values(|r: SalaryRecord| r.job_title@)
}

/// The characters of each string, in order.
pub open spec fn string_views(m: Seq<String>) -> Seq<Seq<char>> {
    m.map_values(|s: String| s@)
}

/// The distinct elements of `s`, in the order of their first occurrence.
pub open spec fn first_seen(s: Seq<Seq<char>>) -> Seq<Seq<char>>
    decreases s.len(),
{
    if s.len() == 0 {
        Seq::empty()
    } else {
        let rest = first_seen(s.drop_last());
        if rest.contains(s.last()) {
            rest
        } else {
            rest.push(s.last())
        }
    }
}

/// The first-seen order holds each element of `s` once, and nothing else.
pub proof fn lemma_first_seen(s: Seq<Seq<char>>)
    ensures
        first_seen(s).no_duplicates(),
        first_seen(s).to_set() == s.to_set(),
        first_seen(s).len() == s.to_set().len(),
    decreases s.len(),
{
    broadcast use vstd::set::group_set_axioms;
    broadcast use vstd::seq_lib::group_seq_properties;

    if s.len() > 0 {
        let t = s.drop_last();
        lemma_first_seen(t);
        assert(s =~= t.push(s.last()));
        assert(s.to_set() =~= t.to_set().insert(s.last()));
        let rest = first_seen(t);
        if !rest.contains(s.last()) {
            assert(rest.push(s.last()).to_set() =~= rest.to_set().insert(s.last()));
        }
    }
    first_seen(s).unique_seq_to_set();
}

/// Exactly one entry is 1 and all others are 0.
pub open spec fn is_one_hot(v: Seq<u8>) -> bool {
    exists|i: int|
        0 <= i < v.len() && v[i] == 1 && forall|j: int| 0 <= j < v.len() && j != i ==> v[j] == 0
}

/// The job-title mapping built from a dataset covers it: it holds no title
/// twice, holds the title of every record, and has as many entries as the
/// dataset has distinct titles. So it meets what
/// [`one_hot_encode_job_titles`] asks of a mapping, and each one-hot vector
/// is as long as there are distinct titles.
pub proof fn lemma_mapping_covers_dataset(d: Seq<SalaryRecord>, m: Seq<String>)
    requires
        string_views(m) == first_seen(titles(d)),
    ensures
        string_views(m).no_duplicates(),
        m.len() == titles(d).to_set().len(),
        forall|k: int| 0 <= k < d.len() ==> string_views(m).contains(#[trigger] d[k].job_title@),
{
    broadcast use vstd::set::group_set_axioms;
    broadcast use vstd::seq_lib::group_seq_properties;

    lemma_first_seen(titles(d));
    assert forall|k: int| 0 <= k < d.len() implies string_views(m).contains(
        #[trigger] d[k].job_title@,
    ) by {
        assert(titles(d)[k] == d[k].job_title@);
        assert(titles(d).to_set().contains(d[k].job_title@));
        assert(string_views(m).to_set().contains(d[k].job_title@));
    }
}

/// The position of `title` in `mapping`, if it is there.
fn position_of(mapping: &[String], title: &String) -> (r: Option<usize>)
    ensures
        r matches Some(i) ==> i < mapping@.len() && mapping@[i as int]@ == title@,
        r is None ==> !string_views(mapping@).contains(title@),
{
    let n = mapping.len();
    let mut i: usize = 0;
    while i < n
        invariant
            n == mapping@.len(),
            0 <= i <= n,
            forall|j: int| 0 <= j < i ==> mapping@[j]@ != title@,
        decreases n - i,
    {
        if mapping[i] == *title {
            return Some(i);
        }
        i = i + 1;
    }
    proof {
        if string_views(mapping@).contains(title@) {
            let j = choose|j: int| 0 <= j < n && string_views(mapping@)[j] == title@;
            assert(mapping@[j]@ == title@);
        }
    }
    None
}

/// The distinct job titles of the dataset, in the order in which they first
/// occur; a title's index is its position.
pub fn create_job_title_mapping(dataset: &[SalaryRecord]) -> (r: Vec<String>)
    ensures
        string_views(r@) == first_seen(titles(dataset@)),
        string_views(r@).no_duplicates(),
        string_views(r@).to_set() == titles(dataset@).to_set(),
        r@.len() == titles(dataset@).to_set().len(),
{
    let n = dataset.len();
    let mut mapping: Vec<String> = Vec::new();
    let mut i: usize = 0;
    while i < n
        invariant
            n == dataset@.len(),
            0 <= i <= n,
            string_views(mapping@) == first_seen(titles(dataset@.take(i as int))),
        decreases n - i,
    {
        let title = &dataset[i].job_title;
        assert(titles(dataset@.take(i as int + 1)).drop_last() =~= titles(dataset@.take(i as int)));
        assert(titles(dataset@.take(i as int + 1)).last() == title@);
        if position_of(mapping.as_slice(), title).is_none() {
            mapping.push(title.clone());
            assert(string_views(mapping@) =~= first_seen(titles(dataset@.take(i as int))).push(
                title@,
            ));
        } else {
            proof {
                let k = choose|k: int| 0 <= k < mapping@.len() && mapping@[k]@ == title@;
                assert(string_views(mapping@)[k] == title@);
            }
        }
        i = i + 1;
    }
    assert(dataset@.take(n as int) =~= dataset@);
    proof {
        lemma_first_seen(titles(dataset@));
    }
    mapping
}

/// For each record, a vector as long as the mapping with a 1 at the index of
/// the record's job title and 0 elsewhere.
pub fn one_hot_encode_job_titles(dataset: &[SalaryRecord], mapping: &[String]) -> (r: Vec<
    Vec<u8>,
>)
    requires
        string_views(mapping@).no_duplicates(),
        forall|k: int|
            0 <= k < dataset@.len() ==> string_views(mapping@).contains(
                #[trigger] dataset@[k].job_title@,
            ),
    ensures
        r@.len() == dataset@.len(),
        forall|k: int|
            0 <= k < r@.len() ==> (#[trigger] r@[k])@.len() == mapping@.len() && (forall|i: int|
                0 <= i < mapping@.len() ==> r@[k]@[i] == (if mapping@[i]@ == dataset@[k].job_title@ {
                    1u8
                } else {
                    0u8
                })),
        forall|k: int| 0 <= k < r@.len() ==> is_one_hot(#[trigger] r@[k]@),
{
    let n = dataset.len();
    let m = mapping.len();
    let mut out: Vec<Vec<u8>> = Vec::new();
    let mut k: usize = 0;
    while k < n
        invariant
            n == dataset@.len(),
            m == mapping@.len(),
            0 <= k <= n,
            string_views(mapping@).no_duplicates(),
            forall|q: int|
                0 <= q < dataset@.len() ==> string_views(mapping@).contains(
                    #[trigger] dataset@[q].job_title@,
                ),
            out@.len() == k,
            forall|q: int|
                0 <= q < k ==> (#[trigger] out@[q])@.len() == m && (forall|i: int|
                    0 <= i < m ==> out@[q]@[i] == (if mapping@[i]@ == dataset@[q].job_title@ {
                        1u8
                    } else {
                        0u8
                    })),
            forall|q: int| 0 <= q < k ==> is_one_hot(#[trigger] out@[q]@),
        decreases n - k,
    {
        let title = &dataset[k].job_title;
        assert(string_views(mapping@).contains(dataset@[k as int].job_title@));
        let pos = position_of(mapping, title);
        let idx = match pos {
            Some(p) => p,
            None => {
                // every record's title is in the mapping
                assert(false);
                0
            },
        };
        let mut v: Vec<u8> = Vec::new();
        let mut i: usize = 0;
        while i < m
            invariant
                0 <= i <= m,
                v@.len() == i,
                forall|j: int| 0 <= j < i ==> v@[j] == 0,
            decreases m - i,
        {
            v.push(0);
            i = i + 1;
        }
        v.set(idx, 1);
        proof {
            assert forall|j: int| 0 <= j < m implies v@[j] == (if mapping@[j]@ == title@ {
                1u8
            } else {
                0u8
            }) by {
                if j != idx && mapping@[j]@ == title@ {
                    assert(string_views(mapping@)[j] == string_views(mapping@)[idx as int]);
                }
            }
        }
        let ghost before = out@;
        out.push(v);
        proof {
            assert forall|q: int| 0 <= q < k + 1 implies is_one_hot(#[trigger] out@[q]@) by {
                if q < k {
                    assert(out@[q] == before[q]);
                } else {
                    assert(out@[q]@[idx as int] == 1);
                }
            }
        }
        k = k + 1;
    }
    out
}

/// For each record, 1 if its company is located in the US, else 0.
pub fn create_us_based_feature(dataset: &[SalaryRecord]) -> (r: Vec<u8>)
    ensures
        r@.len() == dataset@.len(),
        forall|k: int|
            0 <= k < r@.len() ==> #[trigger] r@[k] == (if dataset@[k].company_location@ == seq![
                'U',
                'S',
            ] {
                1u8
            } else {
                0u8
            }),
        forall|k: int| 0 <= k < r@.len() ==> #[trigger] r@[k] == 0 || r@[k] == 1,
{
    let n = dataset.len();
    let mut out: Vec<u8> = Vec::new();
    let mut k: usize = 0;
    while k < n
        invariant
            n == dataset@.len(),
            0 <= k <= n,
            out@.len() == k,
            forall|q: int|
                0 <= q < k ==> #[trigger] out@[q] == (if dataset@[q].company_location@ == seq![
                    'U',
                    'S',
                ] {
                    1u8
                } else {
                    0u8
                }),
        decreases n - k,
    {
        if spells_pair(dataset[k].company_location.as_str(), 'U', 'S') {
            out.push(1);
        } else {
            out.push(0);
        }
        k = k + 1;
    }
    out
}

/// The exact parts of the standard scores of a column: the score of the
/// `k`-th value is `deviations[k] / sqrt(spread)`.
///
/// With `n` values summing to `s`, `deviations[k] == n * x[k] - s` and
/// `spread == n^2 * variance`, so that the quotient is `(x[k] - mean) / std_dev`.
#[derive(Debug)]
pub struct Standardized {
    pub deviations: Vec<i128>,
    pub spread: i128,
}

/// Why standard scores do not exist.
#[derive(Clone, Copy, Debug, PartialEq, Eq)]
pub enum StandardizeError {
    /// There are no records.
    Empty,
    /// All salaries are equal: the standard deviation is zero.
    ZeroSpread,
}

/// The salary in USD of each record, as a column of integers.
pub open spec fn usd_column(d: Seq<SalaryRecord>) -> Seq<int> {
    ints(d.map_values(|rec: SalaryRecord| rec.salary_in_usd))
}

/// The standard scores of the salaries in USD, in exact parts.
pub fn standardize_salaries(dataset: &[SalaryRecord]) -> (r: Result<Standardized, StandardizeError>)
    requires
        dataset@.len() <= MAX_COUNT,
        forall|k: int|
            0 <= k < dataset@.len() ==> -MAX_MAGNITUDE <= #[trigger] dataset@[k].salary_in_usd
                <= MAX_MAGNITUDE,
    ensures
        r == Err::<Standardized, StandardizeError>(StandardizeError::Empty) <==> dataset@.len()
            == 0,
        r == Err::<Standardized, StandardizeError>(StandardizeError::ZeroSpread) <==> dataset@.len()
            > 0 && sum_sq_dev(usd_column(dataset@), dataset@.len() as int, sum(usd_column(dataset@)))
            == 0,
        r matches Ok(z) ==> {
            let xs = usd_column(dataset@);
            let n = dataset@.len() as int;
            &&& z.spread > 0
            &&& z.spread * n == sum_sq_dev(xs, n, sum(xs))
            &&& z.deviations@.len() == n
            &&& forall|k: int|
                0 <= k < n ==> #[trigger] z.deviations@[k] == n * xs[k] - sum(xs)
        },
{
    let salaries = get_salaries(dataset);
    let ghost xs = usd_column(dataset@);
    assert(ints(salaries@) == xs);
    let n = salaries.len();
    assert forall|k: int| 0 <= k < n implies -MAX_MAGNITUDE <= #[trigger] salaries@[k]
        <= MAX_MAGNITUDE by {
        assert(salaries@[k] == dataset@[k].salary_in_usd);
    }
    let total = match mean(salaries.as_slice()) {
        Some(q) => q.num,
        None => return Err(StandardizeError::Empty),
    };
    let spread = match variance(salaries.as_slice()) {
        Some(q) => q.num,
        None => return Err(StandardizeError::Empty),
    };
    proof {
        let nn = n as int;
        vstd::arithmetic::mul::lemma_mul_strictly_positive(nn, 1);
        if spread < 0 {
            lemma_sum_sq_dev_nonneg(xs, nn, total as int);
            assert(spread * nn < 0) by (nonlinear_arith)
                requires
                    spread < 0,
                    nn > 0,
            ;
        }
        if spread == 0 {
            assert(spread * nn == 0) by (nonlinear_arith)
                requires
                    spread == 0,
            ;
        } else {
            assert(spread * nn != 0) by (nonlinear_arith)
                requires
                    spread != 0,
                    nn > 0,
            ;
        }
    }
    if spread == 0 {
        return Err(StandardizeError::ZeroSpread);
    }
    proof {
        assert forall|k: int| 0 <= k < xs.len() implies -MAX_MAGNITUDE <= #[trigger] xs[k]
            <= MAX_MAGNITUDE by {
            assert(xs[k] == salaries@[k] as int);
        }
        lemma_sum_between(xs, -MAX_MAGNITUDE as int, MAX_MAGNITUDE as int);
    }
    let nn = n as i128;
    let mut deviations: Vec<i128> = Vec::new();
    let mut k: usize = 0;
    while k < n
        invariant
            n == salaries@.len(),
            n <= MAX_COUNT,
            nn == n,
            total == sum(xs),
            xs == ints(salaries@),
            forall|j: int| 0 <= j < n ==> -MAX_MAGNITUDE <= #[trigger] salaries@[j] <= MAX_MAGNITUDE,
            -(n as int) * MAX_MAGNITUDE <= total <= (n as int) * MAX_MAGNITUDE,
            0 <= k <= n,
            deviations@.len() == k,
            forall|j: int| 0 <= j < k ==> #[trigger] deviations@[j] == (n as int) * xs[j] - total,
        decreases n - k,
    {
        let x = salaries[k] as i128;
        assert(-0x1000_0000_0000_0000 <= nn * x <= 0x1000_0000_0000_0000) by (nonlinear_arith)
            requires
                0 <= nn <= 0x10_0000,
                -0x100_0000_0000 <= x <= 0x100_0000_0000,
        ;
        deviations.push(nn * x - total);
        k = k + 1;
    }
    Ok(Standardized { deviations, spread })
}

/// A sum of squares is not negative.
proof fn lemma_sum_sq_dev_nonneg(s: Seq<int>, a: int, b: int)
    ensures
        sum_sq_dev(s, a, b) >= 0,
    decreases s.len(),
{
    if s.len() > 0 {
        lemma_sum_sq_dev_nonneg(s.drop_last(), a, b);
        let d = a * s.last() - b;
        assert(d * d >= 0) by (nonlinear_arith);
    }
}

} // verus!

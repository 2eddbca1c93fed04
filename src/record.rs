//! Salary records, read from comma-separated text.
use vstd::prelude::*;
use crate::number::{amount_of, parse_amount, parse_year, year_of};
use crate::text::{
    chars_of, lemma_split_nonempty, spells_pair, split_chars, split_on, string_of, views,
};

verus! {

/// The number of fields a data line must have.
pub const FIELD_COUNT: usize = 11;

/// One row of the dataset. Amounts are in hundredths of their unit, rounded
/// to the nearest hundredth.
#[derive(Debug)]
pub struct SalaryRecord {
    pub work_year: i32,
    pub experience_level: String,
    pub employment_type: String,
    pub job_title: String,
    pub salary: i64,
    pub salary_currency: String,
    pub salary_in_usd: i64,
    pub employee_residence: String,
    pub remote_ratio: i64,
    pub company_location: String,
    pub company_size: String,
}

/// Where loading stopped: the 1-based line number and the 0-based position
/// of the field that is not a number.
#[derive(Clone, Copy, Debug, PartialEq, Eq)]
pub struct LoadError {
    pub line: usize,
    pub field: usize,
}

/// The lines of a text.
pub open spec fn lines_of(text: Seq<char>) -> Seq<Seq<char>> {
    split_on(text, '\n')
}

/// The fields of a line.
pub open spec fn row_of(line: Seq<char>) -> Seq<Seq<char>> {
    split_on(line, ',')
}

/// Whether the numeric fields of a row (year, salary, salary in USD, remote
/// ratio) all read as numbers.
pub open spec fn fields_parse(f: Seq<Seq<char>>) -> bool {
    &&& year_of(f[0]) is Some
    &&& amount_of(f[4]) is Some
    &&& amount_of(f[6]) is Some
    &&& amount_of(f[8]) is Some
}

/// The first numeric field of a row that does not read as a number.
pub open spec fn first_bad_field(f: Seq<Seq<char>>) -> int {
    if year_of(f[0]) is None {
        0
    } else if amount_of(f[4]) is None {
        4
    } else if amount_of(f[6]) is None {
        6
    } else {
        8
    }
}

/// The rows of the lines after the first (the header) that have at least
/// `FIELD_COUNT` fields, in order.
pub open spec fn data_rows(lines: Seq<Seq<char>>) -> Seq<Seq<Seq<char>>>
    decreases lines.len(),
{
    if lines.len() <= 1 {
        Seq::empty()
    } else {
        let rest = data_rows(lines.drop_last());
        let f = row_of(lines.last());
        if f.len() >= FIELD_COUNT {
            rest.push(f)
        } else {
            rest
        }
    }
}

/// Whether every data line among `lines[1..end]` reads.
pub open spec fn rows_parse_before(lines: Seq<Seq<char>>, end: int) -> bool {
    forall|j: int|
        1 <= j < end && #[trigger] row_of(lines[j]).len() >= FIELD_COUNT ==> fields_parse(
            row_of(lines[j]),
        )
}

impl SalaryRecord {
    /// The record holds what the row `f` spells, field by field.
    pub open spec fn from_fields(&self, f: Seq<Seq<char>>) -> bool {
        &&& year_of(f[0]) == Some(self.work_year as int)
        &&& self.experience_level@ == f[1]
        &&& self.employment_type@ == f[2]
        &&& self.job_title@ == f[3]
        &&& amount_of(f[4]) == Some(self.salary as int)
        &&& self.salary_currency@ == f[5]
        &&& amount_of(f[6]) == Some(self.salary_in_usd as int)
        &&& self.employee_residence@ == f[7]
        &&& amount_of(f[8]) == Some(self.remote_ratio as int)
        &&& self.company_location@ == f[9]
        &&& self.company_size@ == f[10]
    }
}

/// Builds a record from a row of at least `FIELD_COUNT` fields, or names the
/// first numeric field that does not read.
fn parse_record(f: &Vec<Vec<char>>) -> (r: Result<SalaryRecord, usize>)
    requires
        f@.len() >= FIELD_COUNT,
    ensures
        r is Ok <==> fields_parse(views(f@)),
        r matches Ok(rec) ==> rec.from_fields(views(f@)),
        r matches Err(k) ==> k == first_bad_field(views(f@)),
{
    let ghost v = views(f@);
    assert(v[0] == f@[0]@ && v[4] == f@[4]@ && v[6] == f@[6]@ && v[8] == f@[8]@);
    let work_year = match parse_year(f[0].as_slice()) {
        Some(y) => y,
        None => return Err(0),
    };
    let salary = match parse_amount(f[4].as_slice()) {
        Some(a) => a,
        None => return Err(4),
    };
    let salary_in_usd = match parse_amount(f[6].as_slice()) {
        Some(a) => a,
        None => return Err(6),
    };
    let remote_ratio = match parse_amount(f[8].as_slice()) {
        Some(a) => a,
        None => return Err(8),
    };
    Ok(
        SalaryRecord {
            work_year,
            experience_level: string_of(f[1].as_slice()),
            employment_type: string_of(f[2].as_slice()),
            job_title: string_of(f[3].as_slice()),
            salary,
            salary_currency: string_of(f[5].as_slice()),
            salary_in_usd,
            employee_residence: string_of(f[7].as_slice()),
            remote_ratio,
            company_location: string_of(f[9].as_slice()),
            company_size: string_of(f[10].as_slice()),
        },
    )
}

/// Reads the records of a comma-separated text whose first line is a header.
///
/// Lines with fewer than `FIELD_COUNT` fields are skipped. If a numeric field
/// of a data line does not read, the whole load fails at the first such
/// line.
pub fn load_dataset(csv_data: &str) -> (r: Result<Vec<SalaryRecord>, LoadError>)
    ensures
        r is Ok <==> rows_parse_before(lines_of(csv_data@), lines_of(csv_data@).len() as int),
        r matches Ok(recs) ==> recs@.len() == data_rows(lines_of(csv_data@)).len() && forall|k: int|
            0 <= k < recs@.len() ==> #[trigger] recs@[k].from_fields(
                data_rows(lines_of(csv_data@))[k],
            ),
        r matches Err(e) ==> {
            let lines = lines_of(csv_data@);
            let j = e.line - 1;
            &&& 1 <= j < lines.len()
            &&& row_of(lines[j]).len() >= FIELD_COUNT
            &&& !fields_parse(row_of(lines[j]))
            &&& e.field == first_bad_field(row_of(lines[j]))
            &&& rows_parse_before(lines, j)
        },
{
    let text = chars_of(csv_data);
    let lines = split_chars(text.as_slice(), '\n');
    let ghost ls = lines_of(csv_data@);
    proof {
        lemma_split_nonempty(text@, '\n');
    }
    let n = lines.len();
    let mut records: Vec<SalaryRecord> = Vec::new();
    let mut i: usize = 1;
    assert(data_rows(ls.take(1)) =~= Seq::<Seq<Seq<char>>>::empty());
    while i < n
        invariant
            n == lines@.len(),
            views(lines@) == ls,
            ls == lines_of(csv_data@),
            ls.len() == n,
            1 <= i <= n,
            rows_parse_before(ls, i as int),
            records@.len() == data_rows(ls.take(i as int)).len(),
            forall|k: int|
                0 <= k < records@.len() ==> #[trigger] records@[k].from_fields(
                    data_rows(ls.take(i as int))[k],
                ),
        decreases n - i,
    {
        let fields = split_chars(lines[i].as_slice(), ',');
        assert(ls[i as int] == lines@[i as int]@);
        assert(ls.take(i as int + 1).drop_last() =~= ls.take(i as int));
        assert(ls.take(i as int + 1).last() == ls[i as int]);
        if fields.len() >= FIELD_COUNT {
            match parse_record(&fields) {
                Ok(rec) => {
                    records.push(rec);
                },
                Err(k) => {
                    assert(row_of(ls[i as int]) == views(fields@));
                    assert(row_of(ls[i as int]).len() >= FIELD_COUNT);
                    assert(!rows_parse_before(ls, n as int));
                    return Err(LoadError { line: i + 1, field: k });
                },
            }
        }
        i = i + 1;
    }
    assert(ls.take(n as int) =~= ls);
    Ok(records)
}

/// Whether a record is of the senior experience level, `SE`.
pub open spec fn is_senior(r: SalaryRecord) -> bool {
    r.experience_level@ == seq!['S', 'E']
}

/// The senior records, in order.
pub open spec fn seniors(d: Seq<SalaryRecord>) -> Seq<SalaryRecord>
    decreases d.len(),
{
    if d.len() == 0 {
        Seq::empty()
    } else {
        let rest = seniors(d.drop_last());
        if is_senior(d.last()) {
            rest.push(d.last())
        } else {
            rest
        }
    }
}

/// An amount in hundredths rounded to whole units, halves away from zero.
pub open spec fn round_units(c: int) -> int {
    if c >= 0 {
        (c + 50) / 100
    } else {
        -((50 - c) / 100)
    }
}

/// The year, job title and salary in USD rounded to whole units of each
/// senior record, in order.
pub fn filter_and_convert(dataset: &[SalaryRecord]) -> (r: Vec<(i32, String, i64)>)
    ensures
        r@.len() == seniors(dataset@).len(),
        forall|k: int|
            0 <= k < r@.len() ==> {
                let s = #[trigger] seniors(dataset@)[k];
                &&& r@[k].0 == s.work_year
                &&& r@[k].1@ == s.job_title@
                &&& r@[k].2 == round_units(s.salary_in_usd as int)
            },
{
    let n = dataset.len();
    let mut out: Vec<(i32, String, i64)> = Vec::new();
    let mut i: usize = 0;
    while i < n
        invariant
            n == dataset@.len(),
            0 <= i <= n,
            out@.len() == seniors(dataset@.take(i as int)).len(),
            forall|k: int|
                0 <= k < out@.len() ==> {
                    let s = #[trigger] seniors(dataset@.take(i as int))[k];
                    &&& out@[k].0 == s.work_year
                    &&& out@[k].1@ == s.job_title@
                    &&& out@[k].2 == round_units(s.salary_in_usd as int)
                },
        decreases n - i,
    {
        let rec = &dataset[i];
        assert(dataset@.take(i as int + 1).drop_last() =~= dataset@.take(i as int));
        assert(dataset@.take(i as int + 1).last() == *rec);
        if spells_pair(rec.experience_level.as_str(), 'S', 'E') {
            let c = rec.salary_in_usd as i128;
            let units: i128 = if c >= 0 {
                (c + 50) / 100
            } else {
                -((50 - c) / 100)
            };
            out.push((rec.work_year, rec.job_title.clone(), units as i64));
        }
        i = i + 1;
    }
    assert(dataset@.take(n as int) =~= dataset@);
    out
}

/// The salary in USD of each record, in hundredths, in order.
pub fn get_salaries(dataset: &[SalaryRecord]) -> (r: Vec<i64>)
    ensures
        r@ == dataset@.map_values(|rec: SalaryRecord| rec.salary_in_usd),
{
    let n = dataset.len();
    let mut out: Vec<i64> = Vec::new();
    let mut i: usize = 0;
    while i < n
        invariant
            n == dataset@.len(),
            0 <= i <= n,
            out@ == dataset@.take(i as int).map_values(|rec: SalaryRecord| rec.salary_in_usd),
        decreases n - i,
    {
        out.push(dataset[i].salary_in_usd);
        i = i + 1;
        assert(out@ =~= dataset@.take(i as int).map_values(|rec: SalaryRecord| rec.salary_in_usd));
    }
    assert(dataset@.take(n as int) =~= dataset@);
    out
}

} // verus!

use salary_stats::number::{parse_amount, parse_year};
use salary_stats::record::{filter_and_convert, get_salaries, load_dataset, LoadError};
use salary_stats::text::split_chars;

fn chars(s: &str) -> Vec<char> {
    s.chars().collect()
}

const ROW: &str = "2023,SE,FT,Engineer,100000,USD,100000,US,100,US,M";

#[test]
fn two_line_input_gives_one_record() {
    let text = format!("header\n{}", ROW);
    let recs = load_dataset(&text).unwrap();
    assert_eq!(recs.len(), 1);
    let r = &recs[0];
    assert_eq!(r.work_year, 2023);
    assert_eq!(r.salary_in_usd, 10_000_000);
    assert_eq!(r.salary, 10_000_000);
    assert_eq!(r.remote_ratio, 10_000);
    assert_eq!(r.experience_level, "SE");
    assert_eq!(r.employment_type, "FT");
    assert_eq!(r.job_title, "Engineer");
    assert_eq!(r.salary_currency, "USD");
    assert_eq!(r.employee_residence, "US");
    assert_eq!(r.company_location, "US");
    assert_eq!(r.company_size, "M");
}

#[test]
fn short_lines_are_skipped() {
    let text = format!("header\n{}\nshort,line\n{}\n", ROW, ROW);
    let recs = load_dataset(&text).unwrap();
    assert_eq!(recs.len(), 2);
}

#[test]
fn header_only_gives_no_records() {
    assert_eq!(load_dataset("header").unwrap().len(), 0);
    assert_eq!(load_dataset("").unwrap().len(), 0);
}

#[test]
fn bad_year_fails_the_load() {
    let text = format!("header\n{}\n20x3,SE,FT,Engineer,1,USD,1,US,0,US,M", ROW);
    assert_eq!(load_dataset(&text).unwrap_err(), LoadError { line: 3, field: 0 });
}

#[test]
fn bad_amounts_name_their_field() {
    let bad_salary = "header\n2023,SE,FT,Engineer,abc,USD,1,US,0,US,M";
    assert_eq!(load_dataset(bad_salary).unwrap_err(), LoadError { line: 2, field: 4 });
    let bad_usd = "header\n2023,SE,FT,Engineer,1,USD,,US,0,US,M";
    assert_eq!(load_dataset(bad_usd).unwrap_err(), LoadError { line: 2, field: 6 });
    let bad_ratio = "header\n2023,SE,FT,Engineer,1,USD,1,US,1.2x,US,M";
    assert_eq!(load_dataset(bad_ratio).unwrap_err(), LoadError { line: 2, field: 8 });
}

#[test]
fn years_read_with_sign() {
    assert_eq!(parse_year(&chars("2023")), Some(2023));
    assert_eq!(parse_year(&chars("-17")), Some(-17));
    assert_eq!(parse_year(&chars("+8")), Some(8));
    assert_eq!(parse_year(&chars("2147483647")), Some(i32::MAX));
    assert_eq!(parse_year(&chars("-2147483648")), Some(i32::MIN));
    assert_eq!(parse_year(&chars("2147483648")), None);
    assert_eq!(parse_year(&chars("")), None);
    assert_eq!(parse_year(&chars("-")), None);
    assert_eq!(parse_year(&chars("12a")), None);
}

#[test]
fn amounts_read_in_hundredths() {
    assert_eq!(parse_amount(&chars("85000")), Some(8_500_000));
    assert_eq!(parse_amount(&chars("85000.5")), Some(8_500_050));
    assert_eq!(parse_amount(&chars("85000.25")), Some(8_500_025));
    assert_eq!(parse_amount(&chars("-3.")), Some(-300));
    assert_eq!(parse_amount(&chars(".75")), Some(75));
    assert_eq!(parse_amount(&chars("+1")), Some(100));
    assert_eq!(parse_amount(&chars("10000000000")), Some(1_000_000_000_000));
    assert_eq!(parse_amount(&chars("10000000000.01")), Some(1_000_000_000_001));
    assert_eq!(parse_amount(&chars("92233720368547758.07")), Some(i64::MAX));
    assert_eq!(parse_amount(&chars("-92233720368547758.07")), Some(-i64::MAX));
    assert_eq!(parse_amount(&chars("92233720368547758.08")), None);
    assert_eq!(parse_amount(&chars("99999999999999999999")), None);
    assert_eq!(parse_amount(&chars(".")), None);
    assert_eq!(parse_amount(&chars("1.2.3")), None);
    assert_eq!(parse_amount(&chars("1e5")), None);
}

#[test]
fn long_fractions_round_to_hundredths() {
    assert_eq!(parse_amount(&chars("1.234")), Some(123));
    assert_eq!(parse_amount(&chars("1.235")), Some(124));
    assert_eq!(parse_amount(&chars("1.2349999")), Some(123));
    assert_eq!(parse_amount(&chars("-0.005")), Some(-1));
    assert_eq!(parse_amount(&chars("-0.0049")), Some(0));
    assert_eq!(parse_amount(&chars("0.999")), Some(100));
    assert_eq!(parse_amount(&chars("85000.123456789012345678901234567890")), Some(8_500_012));
    assert_eq!(parse_amount(&chars("1.23x")), None);
}

#[test]
fn long_fraction_fields_load() {
    let text = "header\n2023,SE,FT,Engineer,1.234,USD,100000.505,US,33.333,US,M";
    let recs = load_dataset(text).unwrap();
    assert_eq!(recs.len(), 1);
    assert_eq!(recs[0].salary, 123);
    assert_eq!(recs[0].salary_in_usd, 10_000_051);
    assert_eq!(recs[0].remote_ratio, 3333);
}

#[test]
fn split_keeps_empty_pieces() {
    let parts = split_chars(&chars("a,,b,"), ',');
    assert_eq!(parts, vec![chars("a"), vec![], chars("b"), vec![]]);
    assert_eq!(split_chars(&[], ','), vec![Vec::<char>::new()]);
}

#[test]
fn filter_without_seniors_is_empty() {
    let text = "header\n2023,MI,FT,Analyst,1,USD,1,US,0,US,M\n2022,EN,FT,Analyst,1,USD,1,US,0,GB,S";
    let recs = load_dataset(text).unwrap();
    assert!(filter_and_convert(&recs).is_empty());
}

#[test]
fn filter_keeps_seniors_with_rounded_salary() {
    let text = "header\n2023,SE,FT,Engineer,1,USD,85000.49,US,0,US,M\n\
                2022,MI,FT,Analyst,1,USD,1,US,0,US,M\n\
                2021,SE,FT,Scientist,1,USD,85000.50,US,0,US,M\n\
                2020,SE,FT,Tester,1,USD,-2.5,US,0,US,M";
    let recs = load_dataset(text).unwrap();
    let out = filter_and_convert(&recs);
    assert_eq!(
        out,
        vec![
            (2023, "Engineer".to_string(), 85000),
            (2021, "Scientist".to_string(), 85001),
            (2020, "Tester".to_string(), -3),
        ]
    );
}

#[test]
fn salaries_follow_record_order() {
    let text = "header\n2023,SE,FT,A,1,USD,3,US,0,US,M\n2023,SE,FT,B,1,USD,1.5,US,0,US,M";
    let recs = load_dataset(text).unwrap();
    assert_eq!(get_salaries(&recs), vec![300, 150]);
}

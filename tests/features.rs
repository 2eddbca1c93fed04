use salary_stats::features::{
    create_job_title_mapping, create_us_based_feature, one_hot_encode_job_titles,
    standardize_salaries, StandardizeError,
};
use salary_stats::record::load_dataset;

const TEXT: &str = "header\n\
    2023,SE,FT,Engineer,1,USD,1000,US,0,US,M\n\
    2023,MI,FT,Analyst,1,USD,2000,US,0,GB,M\n\
    2022,SE,FT,Engineer,1,USD,3000,US,0,US,M\n\
    2021,EN,PT,Scientist,1,USD,4000,US,0,us,S";

#[test]
fn mapping_lists_distinct_titles_in_first_seen_order() {
    let recs = load_dataset(TEXT).unwrap();
    let m = create_job_title_mapping(&recs);
    assert_eq!(m, vec!["Engineer".to_string(), "Analyst".to_string(), "Scientist".to_string()]);
}

#[test]
fn one_hot_vectors_have_a_single_one() {
    let recs = load_dataset(TEXT).unwrap();
    let m = create_job_title_mapping(&recs);
    let enc = one_hot_encode_job_titles(&recs, &m);
    assert_eq!(enc.len(), 4);
    for v in &enc {
        assert_eq!(v.len(), 3);
        assert_eq!(v.iter().filter(|&&x| x == 1).count(), 1);
        assert_eq!(v.iter().filter(|&&x| x == 0).count(), 2);
    }
    assert_eq!(enc[0], vec![1, 0, 0]);
    assert_eq!(enc[1], vec![0, 1, 0]);
    assert_eq!(enc[2], vec![1, 0, 0]);
    assert_eq!(enc[3], vec![0, 0, 1]);
}

#[test]
fn us_indicator_is_zero_or_one_per_record() {
    let recs = load_dataset(TEXT).unwrap();
    let f = create_us_based_feature(&recs);
    assert_eq!(f, vec![1, 0, 1, 0]);
}

#[test]
fn standard_scores_in_exact_parts() {
    let recs = load_dataset(TEXT).unwrap();
    let z = standardize_salaries(&recs).unwrap();
    // salaries in hundredths: 100000, 200000, 300000, 400000; sum 1000000
    assert_eq!(z.deviations, vec![-600000, -200000, 200000, 600000]);
    assert_eq!(z.spread, 4 * 300_000_000_000 - 1_000_000_000_000);
    let scores: Vec<f64> = z
        .deviations
        .iter()
        .map(|&d| d as f64 / (z.spread as f64).sqrt())
        .collect();
    assert!((scores[0] + 1.3416).abs() < 1e-3);
    assert!((scores[3] - 1.3416).abs() < 1e-3);
}

#[test]
fn standardizing_equal_salaries_is_an_error() {
    let text = "header\n2023,SE,FT,A,1,USD,5,US,0,US,M\n2023,SE,FT,B,1,USD,5,US,0,US,M";
    let recs = load_dataset(text).unwrap();
    assert_eq!(standardize_salaries(&recs).unwrap_err(), StandardizeError::ZeroSpread);
    let none = load_dataset("header").unwrap();
    assert_eq!(standardize_salaries(&none).unwrap_err(), StandardizeError::Empty);
}

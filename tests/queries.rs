use imdb::env::AppEnvVars;
use imdb::json_fetcher::JsonFetcherError;
use imdb::{paginate_matches, HomeAwayOption, IMDBError, PagPerPage, QueryParams};

#[test]
fn page_defaults_to_ten_from_the_start() {
    let items: Vec<u32> = (0..30).collect();
    let q = QueryParams::default();
    assert_eq!(paginate_matches(&q, &items), (0..10).collect::<Vec<u32>>());
}

#[test]
fn page_skips_the_offset() {
    let items: Vec<u32> = (0..30).collect();
    let q = QueryParams { offset: Some(25), per_page: Some(PagPerPage::Ten), home_away: None };
    assert_eq!(paginate_matches(&q, &items), (25..30).collect::<Vec<u32>>());
    let q = QueryParams { offset: Some(40), per_page: None, home_away: None };
    assert!(paginate_matches(&q, &items).is_empty());
}

#[test]
fn page_sizes() {
    assert_eq!(PagPerPage::Ten.size(), 10);
    assert_eq!(PagPerPage::TwentyFive.size(), 25);
    assert_eq!(PagPerPage::Fifty.size(), 50);
    assert_eq!(PagPerPage::Hundred.size(), 100);
    assert_eq!(PagPerPage::TwoHundredFifty.size(), 250);
    assert_eq!(PagPerPage::from_size(25), Some(PagPerPage::TwentyFive));
    assert_eq!(PagPerPage::from_size(7), None);
}

#[test]
fn home_away_defaults_to_both() {
    assert_eq!(HomeAwayOption::default(), HomeAwayOption::Both);
}

#[test]
fn settings_defaults() {
    let e = AppEnvVars::from_values(None, Some("http://example.org".to_string()), None);
    assert_eq!(e.host_address, "127.0.0.1:3000");
    assert_eq!(e.host_origin, "http://example.org");
    assert_eq!(e.fe_dev_origin, "http://127.0.0.1:5173");
}

#[test]
fn error_messages() {
    assert_eq!(IMDBError::NoDataAvailable.message(), "Could not parse any useful data from json files.");
    assert_eq!(JsonFetcherError::DatadirNotFound.message(), "Main data directory not found.");
}

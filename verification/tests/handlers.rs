use rates_cache::db::Db;
use rates_cache::errors::Error;
use rates_cache::handlers::index;
use rates_cache::handlers::order_for_display;
use rates_cache::handlers::rank_of;
use rates_cache::snapshot::Currency;
use rates_cache::snapshot::Snapshot;
use tempfile::tempdir;

fn currencies(names: &[&str]) -> Vec<Currency> {
    names
        .iter()
        .enumerate()
        .map(|(at, name)| Currency::new(name.to_string(), (at as f64).to_bits()))
        .collect()
}

fn names(currencies: &[Currency]) -> Vec<String> {
    currencies.iter().map(|currency| currency.name.clone()).collect()
}

#[test]
fn ranks() {
    assert_eq!(rank_of(&"EUR".to_string()), 0);
    assert_eq!(rank_of(&"USD".to_string()), 1);
    assert_eq!(rank_of(&"GBP".to_string()), 1);
    assert_eq!(rank_of(&"JPY".to_string()), 2);
    assert_eq!(rank_of(&"eur".to_string()), 2);
    assert_eq!(rank_of(&"".to_string()), 2);
}

#[test]
fn the_euro_comes_first_then_dollar_and_pound() {
    let given = currencies(&["JPY", "GBP", "CHF", "USD", "AUD", "EUR"]);
    let shown = order_for_display(&given);
    assert_eq!(names(&shown), vec!["EUR", "GBP", "USD", "JPY", "CHF", "AUD"]);
    let given = currencies(&["USD", "JPY", "GBP", "EUR"]);
    let shown = order_for_display(&given);
    assert_eq!(names(&shown), vec!["EUR", "USD", "GBP", "JPY"]);
}

#[test]
fn the_order_is_that_of_a_stable_sort_by_rank() {
    let given = currencies(&["JPY", "GBP", "CHF", "USD", "AUD", "EUR", "GBP", "ZAR", "USD"]);
    let mut sorted = given.clone();
    sorted.sort_by_key(|currency| rank_of(&currency.name));
    assert_eq!(order_for_display(&given), sorted);
    assert_eq!(order_for_display(&Vec::new()), Vec::<Currency>::new());
}

#[test]
fn the_front_page_shows_the_newest_rates_in_order() {
    let dir = tempdir().unwrap();
    let feed = vec![
        Snapshot::new("2020-01-02".to_string(), currencies(&["JPY", "GBP", "USD"])),
        Snapshot::new("2020-01-01".to_string(), currencies(&["USD"])),
    ];
    let db = Db::bootstrap_new(dir.path().join("db").to_str().unwrap(), feed).unwrap();
    let shown = index(&db).unwrap();
    assert_eq!(shown.value, "2020-01-02");
    assert_eq!(names(&shown.currencies), vec!["EUR", "GBP", "USD", "JPY"]);
    assert_eq!(f64::from_bits(shown.currencies[0].rate_bits), 1.0);
    assert_eq!(f64::from_bits(shown.currencies[3].rate_bits), 0.0);
}

#[test]
fn the_front_page_of_an_empty_store_is_not_found() {
    let dir = tempdir().unwrap();
    let db = Db::open(dir.path().join("db").to_str().unwrap()).unwrap();
    assert!(matches!(index(&db), Err(Error::DateNotFound(_))));
}

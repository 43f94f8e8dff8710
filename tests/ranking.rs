use vaccine_watch::location::Location;
use vaccine_watch::ranking::{decimal_string, filter_allowed, filtered_notice, is_allowed, sort_by_count};
use vaccine_watch::watch::default_regions;

fn loc(region: &str, organization: &str, count: u64) -> Location {
    Location::new(region.to_string(), organization.to_string(), format!("/{}", organization), count)
}

fn counts(v: &[Location]) -> Vec<u64> {
    v.iter().map(|l| l.available_count).collect()
}

#[test]
fn sorts_by_ascending_count() {
    let changed = vec![loc("Ale", "A", 12), loc("Ale", "B", 3), loc("Ale", "C", 8)];
    let sorted = sort_by_count(&changed);
    assert_eq!(counts(&sorted), vec![3, 8, 12]);
    let shown = filter_allowed(&sorted, &default_regions());
    assert_eq!(shown[0].organization, "B");
    assert_eq!(shown[0].available_count, 3);
}

#[test]
fn sort_is_stable() {
    let changed = vec![loc("Ale", "A", 4), loc("Ale", "B", 1), loc("Ale", "C", 4), loc("Ale", "D", 1)];
    let sorted = sort_by_count(&changed);
    let names: Vec<&str> = sorted.iter().map(|l| l.organization.as_str()).collect();
    assert_eq!(names, vec!["B", "D", "A", "C"]);
    assert!(sort_by_count(&vec![]).is_empty());
}

#[test]
fn filter_keeps_allowed_regions_only() {
    let allowed = default_regions();
    let v = vec![loc("Ale", "A", 1), loc("Borås", "B", 2), loc("Mölndal", "C", 3), loc("ale", "D", 4)];
    let shown = filter_allowed(&v, &allowed);
    let names: Vec<&str> = shown.iter().map(|l| l.organization.as_str()).collect();
    assert_eq!(names, vec!["A", "C"]);
    assert_eq!(v.len() - shown.len(), 2);
}

#[test]
fn allow_list_is_exact() {
    let allowed = default_regions();
    assert_eq!(allowed, vec!["Ale", "Göteborg", "Kungälv", "Mölndal"]);
    assert!(is_allowed(&allowed, &"Göteborg".to_string()));
    assert!(!is_allowed(&allowed, &"göteborg".to_string()));
    assert!(!is_allowed(&allowed, &"Ale ".to_string()));
}

#[test]
fn notice_phrasing() {
    assert_eq!(filtered_notice(0), None);
    assert_eq!(filtered_notice(1), Some("Filtered 1 location.".to_string()));
    assert_eq!(filtered_notice(2), Some("Filtered 2 locations.".to_string()));
    assert_eq!(filtered_notice(40), Some("Filtered 40 locations.".to_string()));
}

#[test]
fn decimal_text() {
    assert_eq!(decimal_string(0), "0");
    assert_eq!(decimal_string(7), "7");
    assert_eq!(decimal_string(10), "10");
    assert_eq!(decimal_string(1203), "1203");
    assert_eq!(decimal_string(usize::MAX), usize::MAX.to_string());
}

use vaccine_watch::location::Location;
use vaccine_watch::watch::{default_regions, Watcher};

fn loc(region: &str, organization: &str, count: u64) -> Location {
    Location::new(region.to_string(), organization.to_string(), format!("/{}", organization), count)
}

#[test]
fn first_cycle_never_opens_a_link() {
    let mut w = Watcher::new(default_regions());
    assert!(w.is_first_run());
    let report = w.cycle(&vec![loc("Ale", "A", 12), loc("Ale", "B", 3)]);
    assert_eq!(report.shown.len(), 2);
    assert_eq!(report.shown[0].organization, "B");
    assert_eq!(report.open_link, None);
    assert!(!w.is_first_run());
}

#[test]
fn second_cycle_opens_best_link() {
    let mut w = Watcher::new(default_regions());
    w.cycle(&vec![loc("Ale", "A", 12)]);
    let report = w.cycle(&vec![loc("Ale", "A", 12), loc("Ale", "B", 8), loc("Kungälv", "C", 3)]);
    let names: Vec<&str> = report.shown.iter().map(|l| l.organization.as_str()).collect();
    assert_eq!(names, vec!["C", "B"]);
    assert_eq!(report.open_link, Some("/C".to_string()));
    assert_eq!(w.snapshot().len(), 3);
}

#[test]
fn second_cycle_without_changes_opens_nothing() {
    let mut w = Watcher::new(default_regions());
    w.cycle(&vec![loc("Ale", "A", 12)]);
    let report = w.cycle(&vec![loc("Ale", "A", 12)]);
    assert!(report.shown.is_empty());
    assert_eq!(report.open_link, None);
    assert_eq!(report.notice, None);
}

#[test]
fn filtered_changes_are_counted() {
    let mut w = Watcher::new(default_regions());
    let report = w.cycle(&vec![loc("Borås", "X", 1), loc("Ale", "A", 5)]);
    assert_eq!(report.filtered_out, 1);
    assert_eq!(report.notice, Some("Filtered 1 location.".to_string()));
    let report = w.cycle(&vec![loc("Borås", "Y", 1), loc("Lerum", "Z", 2), loc("Borås", "X", 4)]);
    assert_eq!(report.filtered_out, 3);
    assert_eq!(report.notice, Some("Filtered 3 locations.".to_string()));
    assert!(report.shown.is_empty());
    assert_eq!(report.open_link, None);
}

use vaccine_watch::grammar::{BlockFields, ParseError};
use vaccine_watch::page::{extract_locations, records_from_blocks, ExtractError};

const PAGE: &str = r#"<html><body>
<div class="mottagningbookabletimeslistblock">
  <div class="block__row media">
    <h3>Ale: Vårdcentral Nödinge</h3>
    <a href="/boka/ale">Boka</a>
    <span>(12 lediga tider)</span>
  </div>
  <div class="block__row media">
    <h3>Göteborg: Hälsocentralen</h3>
    <span>(3 lediga tider)</span>
  </div>
  <div class="block__row media">
    <h3>
      Mölndal: Vårdcentral Krokslätt</h3>
    <a href="https://example.org/m">Boka</a>
    <span> (8)</span>
  </div>
  <div class="block__row">
    <h3>Kungälv: Not a row</h3>
    <a href="/k">Boka</a>
    <span>(1)</span>
  </div>
</div>
<div class="block__row media">
  <h3>Ale: Outside the list</h3>
  <a href="/o">Boka</a>
  <span>(4)</span>
</div>
</body></html>"#;

#[test]
fn page_yields_complete_blocks_in_order() {
    let locations = extract_locations(PAGE).unwrap();
    assert_eq!(locations.len(), 2);
    assert_eq!(locations[0].region, "Ale");
    assert_eq!(locations[0].organization, "Vårdcentral Nödinge");
    assert_eq!(locations[0].booking_link, "/boka/ale");
    assert_eq!(locations[0].available_count, 12);
    assert_eq!(locations[1].region, "Mölndal");
    assert_eq!(locations[1].organization, "Vårdcentral Krokslätt");
    assert_eq!(locations[1].booking_link, "https://example.org/m");
    assert_eq!(locations[1].available_count, 8);
}

#[test]
fn page_without_blocks_is_empty() {
    assert_eq!(extract_locations("<html><body><p>Inga tider</p></body></html>").unwrap().len(), 0);
    assert_eq!(extract_locations("").unwrap().len(), 0);
}

#[test]
fn page_with_huge_count_fails() {
    let page = r#"<div class="mottagningbookabletimeslistblock"><div class="block__row media">
        <h3>Ale: A</h3><a href="/a">x</a><span>(99999999999999999999999)</span></div></div>"#;
    assert_eq!(
        extract_locations(page).unwrap_err(),
        ExtractError::Record(ParseError::InvalidCount)
    );
}

#[test]
fn blocks_keep_records_and_drop_noise() {
    let blocks = vec![
        BlockFields::new(Some("Ale: A".to_string()), Some("/a".to_string()), Some("(2)".to_string())),
        BlockFields::new(Some("Ale: B".to_string()), None, Some("(4)".to_string())),
        BlockFields::new(Some("Ale: C".to_string()), Some("/c".to_string()), Some("(1)".to_string())),
    ];
    let records = records_from_blocks(&blocks).unwrap();
    assert_eq!(records.len(), 2);
    assert_eq!(records[0].organization, "A");
    assert_eq!(records[1].organization, "C");
    assert_eq!(records[1].available_count, 1);
}

#[test]
fn blocks_with_malformed_record_fail() {
    let blocks = vec![
        BlockFields::new(Some("Ale: A".to_string()), Some("/a".to_string()), Some("(2)".to_string())),
        BlockFields::new(
            Some("Ale: B".to_string()),
            Some("/b".to_string()),
            Some("(777777777777777777777)".to_string()),
        ),
    ];
    assert_eq!(records_from_blocks(&blocks).unwrap_err(), ParseError::InvalidCount);
}

#[test]
fn page_with_other_script_count_fails() {
    let page = r#"<div class="mottagningbookabletimeslistblock"><div class="block__row media">
        <h3>Ale: A</h3><a href="/a">x</a><span>(١٢ tider)</span></div></div>"#;
    assert_eq!(
        extract_locations(page).unwrap_err(),
        ExtractError::Record(ParseError::InvalidCount)
    );
}

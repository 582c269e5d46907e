use xeno_canto_scraper::links::Anchor;
use xeno_canto_scraper::links::CrawlState;
use xeno_canto_scraper::links::extract_entries;
use xeno_canto_scraper::links::next_page_url;

fn anchor(href: &str, title: &str) -> Anchor {
    Anchor { href: href.to_string(), title: Some(title.to_string()) }
}

#[test]
fn extract_builds_entries_from_anchors() {
    let anchors = vec![
        anchor("https://example.org/12345/download", "XC - American Robin - Turdus migratorius.mp3"),
        anchor("/67890/download", "XC - Great Tit - Parus major.mp3"),
    ];
    let entries = extract_entries("https://example.org/list?pg=1", &anchors);
    assert_eq!(entries.len(), 2);
    assert_eq!(entries[0].url, "https://example.org/12345/download");
    assert_eq!(entries[0].id, "12345");
    assert_eq!(entries[0].common_name, "American Robin");
    assert_eq!(entries[0].scientific_name, "Turdus migratorius");
    assert_eq!(entries[1].url, "https://example.org/67890/download");
    assert_eq!(entries[1].id, "67890");
}

#[test]
fn extract_defaults_missing_title_to_unknown() {
    let anchors = vec![Anchor {
        href: "https://example.org/1/download".to_string(),
        title: None,
    }];
    let entries = extract_entries("https://example.org/", &anchors);
    assert_eq!(entries[0].common_name, "unknown");
    assert_eq!(entries[0].scientific_name, "unknown");
}

#[test]
fn extract_skips_unresolvable_links() {
    let anchors = vec![
        anchor("/1/download", "XC - Wren - T.mp3"),
        anchor("https://example.org/2/download", "XC - Robin - U.mp3"),
    ];
    let entries = extract_entries("not a base url", &anchors);
    assert_eq!(entries.len(), 1);
    assert_eq!(entries[0].id, "2");
}

#[test]
fn link_id_falls_back_to_unknown() {
    let anchors = vec![anchor("http", "XC - Wren - T.mp3")];
    let entries = extract_entries("https://example.org/", &anchors);
    assert_eq!(entries[0].id, "unknown");
}

#[test]
fn next_page_prefers_explicit_link() {
    let next = next_page_url(
        "https://example.org/birds?pg=3&sort=date",
        Some(&"/birds?pg=9".to_string()),
    );
    assert_eq!(next, Some("https://example.org/birds?pg=9".to_string()));
}

#[test]
fn next_page_numeric_fallback_increments_page_number() {
    let next = next_page_url("https://example.org/birds?pg=3&sort=date", None);
    assert_eq!(next, Some("https://example.org/birds?pg=4&sort=date".to_string()));
}

#[test]
fn next_page_numeric_fallback_without_other_query() {
    let next = next_page_url("https://example.org/birds?pg=12", None);
    assert_eq!(next, Some("https://example.org/birds?pg=13".to_string()));
}

#[test]
fn next_page_none_without_fragment_or_link() {
    assert_eq!(next_page_url("https://example.org/birds", None), None);
}

#[test]
fn next_page_none_for_non_numeric_fragment() {
    assert_eq!(next_page_url("https://example.org/birds?pg=abc&x=1", None), None);
}

#[test]
fn crawl_stops_on_empty_page_despite_next_link() {
    let mut state = CrawlState::start("https://example.org/list?pg=1");
    let page1 = vec![
        anchor("https://example.org/1/download", "XC - Wren - T.mp3"),
        anchor("https://example.org/2/download", "XC - Robin - U.mp3"),
    ];
    state.step(&page1, Some(&"https://example.org/list?pg=2".to_string()));
    assert_eq!(state.discovered.len(), 2);
    assert_eq!(state.current_url, Some("https://example.org/list?pg=2".to_string()));
    let page2: Vec<Anchor> = vec![];
    state.step(&page2, Some(&"https://example.org/list?pg=3".to_string()));
    assert_eq!(state.discovered.len(), 2);
    assert_eq!(state.current_url, None);
}

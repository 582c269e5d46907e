use xeno_canto_scraper::ledger::Discovered;
use xeno_canto_scraper::ledger::Entry;
use xeno_canto_scraper::ledger::Ledger;

fn discovered(id: &str, common: &str) -> Discovered {
    Discovered {
        url: format!("https://example.org/{}/download", id),
        id: id.to_string(),
        common_name: common.to_string(),
        scientific_name: "unknown".to_string(),
    }
}

#[test]
fn merge_assigns_species_and_numbered_filenames() {
    let mut led = Ledger::new();
    let ds = vec![discovered("100", "American Robin"), discovered("101", "American Robin")];
    led.merge_discovered(&ds);
    assert_eq!(led.entries.len(), 2);
    assert_eq!(led.entries[0].species, "american_robin");
    assert_eq!(led.entries[0].filename, "american_robin_1.wav");
    assert_eq!(led.entries[1].filename, "american_robin_2.wav");
    assert!(!led.entries[0].downloaded);
}

#[test]
fn merge_twice_is_idempotent() {
    let mut led = Ledger::new();
    let ds = vec![
        discovered("100", "American Robin"),
        discovered("101", "Great Tit"),
        discovered("102", "American Robin"),
    ];
    led.merge_discovered(&ds);
    let size_after_first = led.entries.len();
    let filenames: Vec<String> = led.entries.iter().map(|e| e.filename.clone()).collect();
    led.merge_discovered(&ds);
    assert_eq!(led.entries.len(), size_after_first);
    let filenames_again: Vec<String> = led.entries.iter().map(|e| e.filename.clone()).collect();
    assert_eq!(filenames, filenames_again);
}

#[test]
fn merge_skips_known_ids() {
    let mut led = Ledger::new();
    led.merge_discovered(&vec![discovered("100", "Wren")]);
    led.merge_discovered(&vec![discovered("100", "Wren"), discovered("200", "Wren")]);
    assert_eq!(led.entries.len(), 2);
    assert_eq!(led.entries[1].filename, "wren_2.wav");
}

#[test]
fn suffixes_contiguous_across_disk_and_discovery() {
    let mut led = Ledger::new();
    led.reconcile_with_disk(&vec!["robin_2.wav".to_string()]);
    led.merge_discovered(&vec![discovered("300", "Robin"), discovered("301", "Robin")]);
    assert_eq!(led.entries.len(), 3);
    assert_eq!(led.entries[1].filename, "robin_3.wav");
    assert_eq!(led.entries[2].filename, "robin_4.wav");
}

#[test]
fn merge_seeds_from_loaded_suffixes() {
    let mut led = Ledger::new();
    led.entries.push(Entry {
        id: "old".to_string(),
        source_url: "https://example.org/old/download".to_string(),
        common_name: "Robin".to_string(),
        scientific_name: "unknown".to_string(),
        species: "robin".to_string(),
        filename: "robin_7.wav".to_string(),
        downloaded: true,
    });
    led.merge_discovered(&vec![discovered("400", "Robin")]);
    assert_eq!(led.entries[1].filename, "robin_8.wav");
}

#[test]
fn merge_reads_suffixes_with_leading_zeros() {
    let mut led = Ledger::new();
    led.entries.push(Entry {
        id: "old".to_string(),
        source_url: "u".to_string(),
        common_name: "Robin".to_string(),
        scientific_name: "unknown".to_string(),
        species: "robin".to_string(),
        filename: "robin_07.wav".to_string(),
        downloaded: false,
    });
    led.merge_discovered(&vec![discovered("500", "Robin")]);
    assert_eq!(led.entries[1].filename, "robin_8.wav");
}

#[test]
fn merge_seeds_from_filename_prefix_not_species_field() {
    let mut led = Ledger::new();
    led.entries.push(Entry {
        id: "old".to_string(),
        source_url: "u".to_string(),
        common_name: "Odd".to_string(),
        scientific_name: "unknown".to_string(),
        species: "odd".to_string(),
        filename: "robin_3.wav".to_string(),
        downloaded: false,
    });
    led.merge_discovered(&vec![discovered("600", "Robin")]);
    assert_eq!(led.entries[1].filename, "robin_4.wav");
}

#[test]
fn reconciliation_marks_known_file_downloaded() {
    let mut led = Ledger::new();
    led.merge_discovered(&vec![discovered("100", "Wren")]);
    assert!(!led.entries[0].downloaded);
    led.reconcile_with_disk(&vec!["wren_1.wav".to_string()]);
    assert_eq!(led.entries.len(), 1);
    assert!(led.entries[0].downloaded);
}

#[test]
fn reconciliation_adds_unknown_file_with_synthesized_id() {
    let mut led = Ledger::new();
    led.reconcile_with_disk(&vec!["robin_2.wav".to_string()]);
    assert_eq!(led.entries.len(), 1);
    let e = &led.entries[0];
    assert_eq!(e.species, "robin");
    assert_eq!(e.common_name, "robin");
    assert_eq!(e.scientific_name, "unknown");
    assert_eq!(e.filename, "robin_2.wav");
    assert_eq!(e.id, "local_robin_2_wav");
    assert_eq!(e.source_url, "file://local");
    assert!(e.downloaded);
}

#[test]
fn reconciliation_disambiguates_colliding_synthesized_ids() {
    let mut led = Ledger::new();
    led.entries.push(Entry {
        id: "local_robin_2_wav".to_string(),
        source_url: "file://local".to_string(),
        common_name: "robin".to_string(),
        scientific_name: "unknown".to_string(),
        species: "robin".to_string(),
        filename: "other.wav".to_string(),
        downloaded: true,
    });
    led.reconcile_with_disk(&vec!["robin_2.wav".to_string()]);
    assert_eq!(led.entries.len(), 2);
    assert_eq!(led.entries[1].id, "local_robin_2_wav_1");
}

#[test]
fn reconciliation_never_demotes_or_removes() {
    let mut led = Ledger::new();
    led.merge_discovered(&vec![discovered("100", "Wren"), discovered("101", "Great Tit")]);
    led.reconcile_with_disk(&vec!["wren_1.wav".to_string()]);
    assert!(led.entries[0].downloaded);
    led.reconcile_with_disk(&vec![]);
    assert_eq!(led.entries.len(), 2);
    assert!(led.entries[0].downloaded);
    assert!(!led.entries[1].downloaded);
}

#[test]
fn reconciliation_ignores_non_canonical_files() {
    let mut led = Ledger::new();
    led.reconcile_with_disk(&vec!["notes.txt".to_string(), "song.mp3".to_string()]);
    assert_eq!(led.entries.len(), 0);
}

#[test]
fn reconciliation_species_falls_back_to_stem() {
    let mut led = Ledger::new();
    led.reconcile_with_disk(&vec!["robin.wav".to_string()]);
    assert_eq!(led.entries[0].species, "robin");
    assert_eq!(led.entries[0].filename, "robin.wav");
}

#[test]
fn apply_results_marks_listed_ids_and_ignores_unknown() {
    let mut led = Ledger::new();
    led.merge_discovered(&vec![discovered("100", "Wren"), discovered("101", "Great Tit")]);
    led.apply_download_results(&vec!["101".to_string(), "no_such_id".to_string()]);
    assert!(!led.entries[0].downloaded);
    assert!(led.entries[1].downloaded);
    assert_eq!(led.entries.len(), 2);
}

#[test]
fn pending_entries_are_the_not_downloaded_ones_in_order() {
    let mut led = Ledger::new();
    led.merge_discovered(&vec![
        discovered("100", "Wren"),
        discovered("101", "Great Tit"),
        discovered("102", "Robin"),
    ]);
    led.apply_download_results(&vec!["101".to_string()]);
    let pending = led.pending_entries();
    assert_eq!(pending.len(), 2);
    assert_eq!(pending[0].id, "100");
    assert_eq!(pending[1].id, "102");
}

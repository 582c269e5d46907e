use xeno_canto_scraper::csvio::ledger_from_csv;
use xeno_canto_scraper::csvio::ledger_to_csv;
use xeno_canto_scraper::ledger::Entry;
use xeno_canto_scraper::ledger::Ledger;

fn entry(id: &str, common: &str, species: &str, filename: &str, downloaded: bool) -> Entry {
    Entry {
        id: id.to_string(),
        source_url: format!("https://example.org/{}/download", id),
        common_name: common.to_string(),
        scientific_name: "unknown".to_string(),
        species: species.to_string(),
        filename: filename.to_string(),
        downloaded,
    }
}

#[test]
fn persist_then_load_reproduces_entries() {
    let mut led = Ledger::new();
    led.entries.push(entry("100", "American Robin", "american_robin", "american_robin_1.wav", true));
    led.entries.push(entry("101", "Great Tit", "great_tit", "great_tit_1.wav", false));
    let text = ledger_to_csv(&led);
    let back = ledger_from_csv(text.as_str());
    assert_eq!(back.entries.len(), 2);
    for (a, b) in led.entries.iter().zip(back.entries.iter()) {
        assert_eq!(a.id, b.id);
        assert_eq!(a.source_url, b.source_url);
        assert_eq!(a.common_name, b.common_name);
        assert_eq!(a.scientific_name, b.scientific_name);
        assert_eq!(a.species, b.species);
        assert_eq!(a.filename, b.filename);
        assert_eq!(a.downloaded, b.downloaded);
    }
}

#[test]
fn persist_round_trips_special_characters() {
    let mut led = Ledger::new();
    led.entries.push(entry("1", "He said \"chirp\", twice\na lot", "odd", "odd_1.wav", false));
    let text = ledger_to_csv(&led);
    let back = ledger_from_csv(text.as_str());
    assert_eq!(back.entries.len(), 1);
    assert_eq!(back.entries[0].common_name, "He said \"chirp\", twice\na lot");
}

#[test]
fn persist_writes_header_first() {
    let led = Ledger::new();
    let text = ledger_to_csv(&led);
    assert_eq!(
        text,
        "filename,species,original_url,id,common_name,scientific_name,is_downloaded\n"
    );
}

#[test]
fn load_tolerates_missing_downloaded_column() {
    let text = "filename,species,original_url,id,common_name,scientific_name\n\
                wren_1.wav,wren,https://example.org/1/download,1,Wren,unknown\n";
    let led = ledger_from_csv(text);
    assert_eq!(led.entries.len(), 1);
    assert!(!led.entries[0].downloaded);
}

#[test]
fn load_skips_short_rows() {
    let text = "filename,species,original_url,id,common_name,scientific_name,is_downloaded\n\
                only,three,fields\n\
                wren_1.wav,wren,https://example.org/1/download,1,Wren,unknown,true\n";
    let led = ledger_from_csv(text);
    assert_eq!(led.entries.len(), 1);
    assert_eq!(led.entries[0].id, "1");
    assert!(led.entries[0].downloaded);
}

#[test]
fn load_skips_duplicate_ids_and_filenames() {
    let text = "filename,species,original_url,id,common_name,scientific_name,is_downloaded\n\
                wren_1.wav,wren,u,1,Wren,unknown,false\n\
                wren_2.wav,wren,u,1,Wren,unknown,true\n\
                wren_1.wav,wren,u,2,Wren,unknown,true\n";
    let led = ledger_from_csv(text);
    assert_eq!(led.entries.len(), 1);
    assert_eq!(led.entries[0].id, "1");
    assert_eq!(led.entries[0].filename, "wren_1.wav");
}

#[test]
fn load_treats_non_true_flag_as_false() {
    let text = "filename,species,original_url,id,common_name,scientific_name,is_downloaded\n\
                wren_1.wav,wren,u,1,Wren,unknown,maybe\n";
    let led = ledger_from_csv(text);
    assert_eq!(led.entries.len(), 1);
    assert!(!led.entries[0].downloaded);
}

#[test]
fn load_of_empty_text_is_empty() {
    let led = ledger_from_csv("");
    assert_eq!(led.entries.len(), 0);
}

#[test]
fn persisted_form_is_readable_by_a_csv_reader() {
    let mut led = Ledger::new();
    led.entries.push(entry("100", "With, comma", "with_comma", "with_comma_1.wav", true));
    let text = ledger_to_csv(&led);
    let mut reader = csv::Reader::from_reader(text.as_bytes());
    let headers = reader.headers().unwrap().clone();
    assert_eq!(&headers[0], "filename");
    assert_eq!(&headers[6], "is_downloaded");
    let records: Vec<csv::StringRecord> = reader.records().map(|r| r.unwrap()).collect();
    assert_eq!(records.len(), 1);
    assert_eq!(&records[0][4], "With, comma");
    assert_eq!(&records[0][6], "true");
}

#[test]
fn csv_writer_output_loads_back() {
    let mut w = csv::Writer::from_writer(Vec::new());
    w.write_record(&[
        "filename",
        "species",
        "original_url",
        "id",
        "common_name",
        "scientific_name",
        "is_downloaded",
    ])
    .unwrap();
    w.write_record(&["wren_1.wav", "wren", "u", "1", "say \"hi\"", "unknown", "true"]).unwrap();
    let bytes = w.into_inner().unwrap();
    let text = String::from_utf8(bytes).unwrap();
    let led = ledger_from_csv(text.as_str());
    assert_eq!(led.entries.len(), 1);
    assert_eq!(led.entries[0].common_name, "say \"hi\"");
    assert!(led.entries[0].downloaded);
}

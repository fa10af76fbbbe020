//! Tests of the stardict engine: loading, exact lookup, fuzzy lookup,
//! and the load-time invariants.

use std::io::Write;

use dioxionary::error::Error;
use dioxionary::stardict::StarDict;

fn gzip(data: &[u8]) -> Vec<u8> {
    let mut enc = flate2::write::GzEncoder::new(Vec::new(), flate2::Compression::default());
    enc.write_all(data).unwrap();
    enc.finish().unwrap()
}

fn record32(word_bytes: &[u8], off: u32, len: u32) -> Vec<u8> {
    let mut r = Vec::new();
    r.extend_from_slice(word_bytes);
    r.push(0);
    r.extend_from_slice(&off.to_be_bytes());
    r.extend_from_slice(&len.to_be_bytes());
    r
}

fn record64(word_bytes: &[u8], off: u64, len: u64) -> Vec<u8> {
    let mut r = Vec::new();
    r.extend_from_slice(word_bytes);
    r.push(0);
    r.extend_from_slice(&off.to_be_bytes());
    r.extend_from_slice(&len.to_be_bytes());
    r
}

fn ifo_text() -> String {
    String::from(
        "StarDict's dict ifo file\nversion=2.4.2\nbookname=CDICT5英汉辞典\nwordcount=57510\nsametypesequence=m\n",
    )
}

/// Build a payload and an index over it from (headword, translation)
/// pairs, with the index records in the order given.
fn build_dict(entries: &[(&str, &str)]) -> (Vec<u8>, Vec<u8>) {
    let mut payload = String::new();
    let mut idx = Vec::new();
    for (word, trans) in entries {
        let off = payload.len() as u32;
        let len = trans.len() as u32;
        payload.push_str(trans);
        idx.extend_from_slice(&record32(word.as_bytes(), off, len));
    }
    (idx, payload.into_bytes())
}

fn sample() -> StarDict {
    let (idx, payload) = build_dict(&[
        ("rust", "iron oxide"),
        ("cargo", "goods carried by ship"),
        ("crate", "a slatted wooden case"),
        ("锈", "rust on metal"),
    ]);
    StarDict::new(&ifo_text(), &idx, gzip(&payload), true).unwrap()
}

#[test]
fn stardict_load_stardict() {
    let stardict = sample();
    assert_eq!(stardict.dict_name(), "CDICT5英汉辞典");
    assert_eq!(stardict.wordcount(), 57510);
}

#[test]
fn stardict_lookup_offline() {
    let stardict = sample();
    stardict.exact_lookup("rust").unwrap();
}

#[test]
fn stardict_lookup_offline_fuzzy() {
    let stardict = sample();
    let misspell = ["rst", "cago", "crade"];
    let correct = ["rust", "cargo", "crate"];
    for i in 0..misspell.len() {
        let fuzzy = stardict.fuzzy_lookup(misspell[i]).unwrap();
        fuzzy.iter().find(|w| w.word == correct[i]).unwrap();
    }
}

#[test]
fn exact_lookup_is_case_insensitive() {
    let stardict = sample();
    let entry = stardict.exact_lookup("RUST").unwrap();
    assert_eq!(entry.word, "rust");
    assert_eq!(entry.trans, "iron oxide");
}

#[test]
fn exact_lookup_absent_returns_none() {
    let stardict = sample();
    assert!(stardict.exact_lookup("ferrous").is_none());
}

#[test]
fn exact_lookup_round_trip_every_entry() {
    let words = ["rust", "cargo", "crate", "锈"];
    let stardict = sample();
    for w in words {
        let entry = stardict.exact_lookup(w).unwrap();
        assert_eq!(entry.word, w);
    }
}

#[test]
fn exact_lookup_prefers_exact_case() {
    let (idx, payload) = build_dict(&[("Rust", "the language"), ("rust", "iron oxide")]);
    let d = StarDict::new(&ifo_text(), &idx, gzip(&payload), true).unwrap();
    let upper = d.exact_lookup("Rust").unwrap();
    assert_eq!(upper.word, "Rust");
    assert_eq!(upper.trans, "the language");
    let lower = d.exact_lookup("rust").unwrap();
    assert_eq!(lower.word, "rust");
    assert_eq!(lower.trans, "iron oxide");
    // a third casing still finds one of the two
    let mixed = d.exact_lookup("rUsT").unwrap();
    assert_eq!(mixed.word.to_lowercase(), "rust");
}

#[test]
fn unsorted_input_is_sorted_at_load() {
    // records deliberately out of order on disk
    let (idx, payload) = build_dict(&[
        ("zebra", "striped animal"),
        ("apple", "a fruit"),
        ("Mango", "a tropical fruit"),
    ]);
    let d = StarDict::new(&ifo_text(), &idx, gzip(&payload), true).unwrap();
    for (w, t) in [("apple", "a fruit"), ("Mango", "a tropical fruit"), ("zebra", "striped animal")] {
        let e = d.exact_lookup(w).unwrap();
        assert_eq!(e.word, w);
        assert_eq!(e.trans, t);
    }
    // binary search relies on the sorted order, including across cases
    assert_eq!(d.exact_lookup("MANGO").unwrap().trans, "a tropical fruit");
}

#[test]
fn fuzzy_lookup_empty_dictionary_returns_none() {
    let d = StarDict::new(&ifo_text(), &Vec::new(), gzip(b"payload"), true).unwrap();
    assert!(d.fuzzy_lookup("anything").is_none());
}

#[test]
fn fuzzy_lookup_one_edit_away() {
    let stardict = sample();
    let fuzzy = stardict.fuzzy_lookup("rsut").unwrap();
    assert!(fuzzy.iter().any(|e| e.word == "rust"));
}

#[test]
fn fuzzy_lookup_returns_all_ties() {
    let (idx, payload) = build_dict(&[("cat", "a cat"), ("car", "a car"), ("dog", "a dog")]);
    let d = StarDict::new(&ifo_text(), &idx, gzip(&payload), true).unwrap();
    // "cax" is one edit from both "cat" and "car", three from "dog"
    let fuzzy = d.fuzzy_lookup("cax").unwrap();
    assert_eq!(fuzzy.len(), 2);
    assert!(fuzzy.iter().any(|e| e.word == "cat"));
    assert!(fuzzy.iter().any(|e| e.word == "car"));
}

#[test]
fn concrete_reference_dictionary_scenario() {
    let stardict = sample();
    // (a) the declared entry count from metadata
    assert_eq!(stardict.wordcount(), 57510);
    // (b) exactly the known translation for a differently-cased query
    assert_eq!(stardict.exact_lookup("RUST").unwrap().trans, "iron oxide");
    // (c) "rust" among the fuzzy results of close misspellings
    for q in ["rst", "rsut"] {
        let fuzzy = stardict.fuzzy_lookup(q).unwrap();
        assert!(fuzzy.iter().any(|e| e.word == "rust"));
    }
}

#[test]
fn fuzzy_lookup_works_across_scripts() {
    let stardict = sample();
    let fuzzy = stardict.fuzzy_lookup("铁锈").unwrap();
    assert!(fuzzy.iter().any(|e| e.word == "锈"));
}

#[test]
fn loaded_entry_count_reflects_surviving_records() {
    let payload = b"short".to_vec();
    let mut idx = Vec::new();
    idx.extend_from_slice(&record32(b"good", 0, 5));
    idx.extend_from_slice(&record32(b"bad", 2, 100));
    let d = StarDict::new(&ifo_text(), &idx, gzip(&payload), true).unwrap();
    // the declared count and the surviving count legitimately diverge
    assert_eq!(d.wordcount(), 57510);
    assert_eq!(d.loaded_entry_count(), 1);
}

#[test]
fn plain_payload_is_served_uncompressed() {
    let (idx, payload) = build_dict(&[("rust", "iron oxide")]);
    let d = StarDict::new(&ifo_text(), &idx, payload, false).unwrap();
    assert_eq!(d.exact_lookup("rust").unwrap().trans, "iron oxide");
}

#[test]
fn version_300_uses_eight_byte_integers() {
    let ifo = ifo_text().replace("2.4.2", "3.0.0");
    let payload = b"wide format".to_vec();
    let mut idx = Vec::new();
    idx.extend_from_slice(&record64(b"wide", 0, 11));
    let d = StarDict::new(&ifo, &idx, gzip(&payload), true).unwrap();
    assert_eq!(d.exact_lookup("wide").unwrap().trans, "wide format");
}

#[test]
fn invalid_utf8_headword_is_stripped_not_kept() {
    // "r\xFFst" decodes lossily to r<replacement>st; the replacement
    // character is filtered out, leaving the headword "rst"
    let payload = b"stripped entry".to_vec();
    let idx = record32(&[0x72, 0xFF, 0x73, 0x74], 0, 14);
    let d = StarDict::new(&ifo_text(), &idx, gzip(&payload), true).unwrap();
    let e = d.exact_lookup("rst").unwrap();
    assert_eq!(e.word, "rst");
    assert_eq!(e.trans, "stripped entry");
}

#[test]
fn empty_headword_records_are_dropped() {
    let payload = b"orphan".to_vec();
    let mut idx = Vec::new();
    idx.extend_from_slice(&record32(&[], 0, 6));
    idx.extend_from_slice(&record32(&[0xFF], 0, 6));
    let d = StarDict::new(&ifo_text(), &idx, gzip(&payload), true).unwrap();
    // nothing survived loading, so even fuzzy lookup has nothing
    assert!(d.fuzzy_lookup("orphan").is_none());
}

#[test]
fn out_of_range_entries_are_dropped_silently() {
    let payload = b"short".to_vec();
    let mut idx = Vec::new();
    idx.extend_from_slice(&record32(b"good", 0, 5));
    idx.extend_from_slice(&record32(b"bad", 2, 100));
    let d = StarDict::new(&ifo_text(), &idx, gzip(&payload), true).unwrap();
    assert_eq!(d.exact_lookup("good").unwrap().trans, "short");
    assert!(d.exact_lookup("bad").is_none());
}

#[test]
fn entry_ending_at_payload_end_is_kept() {
    let payload = b"0123456789".to_vec();
    let idx = record32(b"tail", 5, 5);
    let d = StarDict::new(&ifo_text(), &idx, gzip(&payload), true).unwrap();
    assert_eq!(d.exact_lookup("tail").unwrap().trans, "56789");
}

#[test]
fn truncated_index_record_is_an_error() {
    let payload = gzip(b"payload");
    let mut idx = Vec::new();
    idx.extend_from_slice(b"cut");
    idx.push(0);
    idx.extend_from_slice(&[0, 0, 0]); // three bytes where eight are owed
    let err = StarDict::new(&ifo_text(), &idx, payload, true).unwrap_err();
    assert_eq!(err, Error::IoError);
}

#[test]
fn malformed_numeric_metadata_is_a_parse_error() {
    let ifo = ifo_text().replace("wordcount=57510", "wordcount=many");
    let err = StarDict::new(&ifo, &Vec::new(), gzip(b"p"), true).unwrap_err();
    assert_eq!(err, Error::ParseError);
}

#[test]
fn unrecognized_version_is_rejected() {
    let ifo = ifo_text().replace("2.4.2", "9.9.9");
    let err = StarDict::new(&ifo, &Vec::new(), gzip(b"p"), true).unwrap_err();
    assert_eq!(err, Error::UnsupportedVersion);
}

#[test]
fn missing_version_is_rejected() {
    let ifo = String::from("bookname=nameless\nwordcount=0\n");
    let err = StarDict::new(&ifo, &Vec::new(), gzip(b"p"), true).unwrap_err();
    assert_eq!(err, Error::UnsupportedVersion);
}

#[test]
fn corrupt_gzip_payload_is_a_decode_error() {
    let (idx, _) = build_dict(&[("rust", "iron oxide")]);
    let err = StarDict::new(&ifo_text(), &idx, b"not gzip at all".to_vec(), true).unwrap_err();
    assert_eq!(err, Error::DecodeError);
}

#[test]
fn non_utf8_payload_is_a_decode_error() {
    let (idx, _) = build_dict(&[("rust", "iron oxide")]);
    let err = StarDict::new(&ifo_text(), &idx, gzip(&[0xFF, 0xFE, 0xFD]), true).unwrap_err();
    assert_eq!(err, Error::DecodeError);
}

//! Tests of the stardict engine behind the dictionary-source interface.

use std::io::Write;

use dioxionary::dict::stardict::StarDict;

fn gzip(data: &[u8]) -> Vec<u8> {
    let mut enc = flate2::write::GzEncoder::new(Vec::new(), flate2::Compression::default());
    enc.write_all(data).unwrap();
    enc.finish().unwrap()
}

fn record32(word_bytes: &[u8], off: u32, len: u32) -> Vec<u8> {
    let mut r = Vec::new();
    r.extend_from_slice(word_bytes);
    r.push(0);
    r.extend_from_slice(&off.to_be_bytes());
    r.extend_from_slice(&len.to_be_bytes());
    r
}

fn ifo_text() -> String {
    String::from(
        "StarDict's dict ifo file\nversion=2.4.2\nbookname=CDICT5英汉辞典\nwordcount=57510\nsametypesequence=m\n",
    )
}

fn build_dict(entries: &[(&str, &str)]) -> (Vec<u8>, Vec<u8>) {
    let mut payload = String::new();
    let mut idx = Vec::new();
    for (word, trans) in entries {
        let off = payload.len() as u32;
        let len = trans.len() as u32;
        payload.push_str(trans);
        idx.extend_from_slice(&record32(word.as_bytes(), off, len));
    }
    (idx, payload.into_bytes())
}

fn sample() -> StarDict {
    let (idx, payload) = build_dict(&[
        ("rust", "iron oxide"),
        ("cargo", "goods carried by ship"),
        ("crate", "a slatted wooden case"),
    ]);
    StarDict::new(&ifo_text(), &idx, gzip(&payload), true).unwrap()
}

#[test]
fn mod_load_stardict() {
    let stardict = sample();
    assert_eq!(stardict.dict_name(), "CDICT5英汉辞典");
    assert_eq!(stardict.word_count(), 57510);
}

#[test]
fn mod_lookup_offline() {
    let stardict = sample();
    stardict.exact_look_up("rust").unwrap();
}

#[test]
fn mod_lookup_offline_fuzzy() {
    let stardict = sample();
    let misspell = ["rst", "cago", "crade"];
    let correct = ["rust", "cargo", "crate"];
    for i in 0..misspell.len() {
        let fuzzy = stardict.fuzzy_look_up(misspell[i]).unwrap();
        fuzzy.iter().find(|w| w.word == correct[i]).unwrap();
    }
}

#[test]
fn mod_exact_look_up_translation() {
    let stardict = sample();
    let e = stardict.exact_look_up("CARGO").unwrap();
    assert_eq!(e.word, "cargo");
    assert_eq!(e.translation, "goods carried by ship");
}

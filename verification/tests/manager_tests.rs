//! Tests of the dictionary manager, the query-prefix options, and the
//! offline dictionary source.

use std::io::Write;

use dioxionary::dict::offline::OfflineDict;
use dioxionary::dict::stardict::StarDict;
use dioxionary::dict::{Dict, DictType, LookUpResult, LookUpResultItem};
use dioxionary::dicts::{split_non_alphanumeric_prefix, DictManager, DictOptions};

fn gzip(data: &[u8]) -> Vec<u8> {
    let mut enc = flate2::write::GzEncoder::new(Vec::new(), flate2::Compression::default());
    enc.write_all(data).unwrap();
    enc.finish().unwrap()
}

fn record32(word_bytes: &[u8], off: u32, len: u32) -> Vec<u8> {
    let mut r = Vec::new();
    r.extend_from_slice(word_bytes);
    r.push(0);
    r.extend_from_slice(&off.to_be_bytes());
    r.extend_from_slice(&len.to_be_bytes());
    r
}

fn build_dict(name: &str, entries: &[(&str, &str)]) -> OfflineDict {
    let ifo = format!("version=2.4.2\nbookname={}\nwordcount={}\n", name, entries.len());
    let mut payload = String::new();
    let mut idx = Vec::new();
    for (word, trans) in entries {
        let off = payload.len() as u32;
        let len = trans.len() as u32;
        payload.push_str(trans);
        idx.extend_from_slice(&record32(word.as_bytes(), off, len));
    }
    let sd = StarDict::new(&ifo, &idx, gzip(payload.as_bytes()), true).unwrap();
    OfflineDict::new(sd)
}

#[test]
fn test_split() {
    assert_eq!(split_non_alphanumeric_prefix("123abc"), ("", "123abc"));
    assert_eq!(split_non_alphanumeric_prefix("!!hello"), ("!!", "hello"));
    assert_eq!(split_non_alphanumeric_prefix("abcdef"), ("", "abcdef"));
    assert_eq!(split_non_alphanumeric_prefix("***123"), ("***", "123"));
    assert_eq!(split_non_alphanumeric_prefix(""), ("", ""));
    assert_eq!(split_non_alphanumeric_prefix("치123"), ("", "치123"));
    assert_eq!(split_non_alphanumeric_prefix("&&&치bc"), ("&&&", "치bc"));
}

#[test]
fn parse_prefixed_word_reads_markers() {
    let (opts, word) = DictOptions::parse_prefixed_word("@|rust");
    let opts = opts.unwrap();
    assert!(opts.prioritize_online_dict);
    assert!(opts.exact_match_only);
    assert!(!opts.use_llm_dicts);
    assert!(!opts.read_aloud);
    assert_eq!(word, "rust");

    let (opts, word) = DictOptions::parse_prefixed_word("%~word");
    let opts = opts.unwrap();
    assert!(opts.use_llm_dicts);
    assert!(opts.read_aloud);
    assert_eq!(word, "word");
}

#[test]
fn parse_unprefixed_word_changes_nothing() {
    let (opts, word) = DictOptions::parse_prefixed_word("rust");
    assert!(opts.is_none());
    assert_eq!(word, "rust");
}

#[test]
fn dict_options_builders() {
    let o = DictOptions::default()
        .prioritize_online(true)
        .prioritize_offline(false)
        .use_llm_dicts(true)
        .require_exact_match(true)
        .read_aloud(true);
    assert!(o.prioritize_online_dict);
    assert!(!o.prioritize_offline_dicts);
    assert!(o.use_llm_dicts);
    assert!(o.exact_match_only);
    assert!(o.read_aloud);
}

#[test]
fn offline_dict_answers_through_the_interface() {
    let d = build_dict("first", &[("rust", "iron oxide")]);
    assert_eq!(d.name(), "first");
    assert!(matches!(d.type_(), DictType::StarDict));
    assert!(d.supports_fuzzy_search());
    assert_eq!(d.word_count(), Some(1));
    match d.look_up(false, "RUST") {
        LookUpResult::Exact(item) => {
            assert_eq!(item.word, "rust");
            assert_eq!(item.translation, "iron oxide");
            assert!(item.difficulty_levels.is_empty());
        },
        _ => panic!("expected an exact match"),
    }
}

#[test]
fn manager_first_exact_match_wins() {
    let d1 = build_dict("first", &[("cargo", "first cargo")]);
    let d2 = build_dict("second", &[("cargo", "second cargo"), ("rust", "iron oxide")]);
    let manager = DictManager::new(vec![d1, d2], DictOptions::default());
    assert_eq!(manager.dict_count(), 2);
    match manager.look_up_offline(true, "cargo") {
        LookUpResult::Exact(item) => assert_eq!(item.translation, "first cargo"),
        _ => panic!("expected an exact match"),
    }
    match manager.look_up_offline(true, "rust") {
        LookUpResult::Exact(item) => assert_eq!(item.translation, "iron oxide"),
        _ => panic!("expected an exact match"),
    }
}

#[test]
fn manager_falls_back_to_fuzzy() {
    let d1 = build_dict("first", &[("rust", "iron oxide")]);
    let manager = DictManager::new(vec![d1], DictOptions::default());
    match manager.look_up_offline(true, "rst") {
        LookUpResult::Fuzzy(items) => {
            assert!(items.iter().any(|i| i.word == "rust"));
        },
        _ => panic!("expected fuzzy candidates"),
    }
}

#[test]
fn manager_exact_only_finds_nothing_for_misspellings() {
    let d1 = build_dict("first", &[("rust", "iron oxide")]);
    let manager = DictManager::new(vec![d1], DictOptions::default());
    assert!(matches!(manager.look_up_offline(false, "rst"), LookUpResult::NotFound));
}

#[test]
fn look_up_result_item_constructors() {
    let a = LookUpResultItem::new(String::from("w"), String::from("t"));
    assert_eq!(a.word, "w");
    assert_eq!(a.translation, "t");
    assert!(a.difficulty_levels.is_empty());
    let b = LookUpResultItem::new_with_difficulty_levels(
        String::from("w"),
        String::from("t"),
        vec![String::from("CET4")],
    );
    assert_eq!(b.difficulty_levels, vec![String::from("CET4")]);
}

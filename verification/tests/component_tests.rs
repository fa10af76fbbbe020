//! Tests of the individual components: payload materialization, file
//! selection, metadata parsing, the edit distance, and the small
//! helpers.

use std::io::Write;

use dioxionary::dict::online::is_english;
use dioxionary::dict::DictType;
use dioxionary::edit_distance::levenshtein;
use dioxionary::error::Error;
use dioxionary::metadata::{parse_usize, Metadata, Version};
use dioxionary::payload::PayloadStore;
use dioxionary::review_helper::{get_width_and_height, AnswerStatus};
use dioxionary::stardict::select_files;

fn gzip(data: &[u8]) -> Vec<u8> {
    let mut enc = flate2::write::GzEncoder::new(Vec::new(), flate2::Compression::default());
    enc.write_all(data).unwrap();
    enc.finish().unwrap()
}

#[test]
fn payload_materialization_is_idempotent() {
    let mut store = PayloadStore::new(gzip(b"the payload text"), true);
    assert_eq!(store.invocations(), 0);
    store.materialize().unwrap();
    assert_eq!(store.invocations(), 1);
    let len = store.byte_len();
    let first = store.slice(0, len);
    // a second (and third) materialization decodes nothing anew
    store.materialize().unwrap();
    store.materialize().unwrap();
    assert_eq!(store.invocations(), 1);
    assert_eq!(store.byte_len(), len);
    assert_eq!(store.slice(0, len), first);
    assert_eq!(first, "the payload text");
}

#[test]
fn payload_failure_is_cached_too() {
    let mut store = PayloadStore::new(b"not a gzip stream".to_vec(), true);
    assert_eq!(store.materialize().unwrap_err(), Error::DecodeError);
    assert_eq!(store.materialize().unwrap_err(), Error::DecodeError);
    assert_eq!(store.invocations(), 1);
}

#[test]
fn payload_plain_source_needs_no_inflation() {
    let mut store = PayloadStore::new(b"plain text".to_vec(), false);
    store.materialize().unwrap();
    let len = store.byte_len();
    assert_eq!(store.slice(0, len), "plain text");
    assert_eq!(store.slice(6, 4), "text");
}

#[test]
fn select_files_picks_one_per_role() {
    let names = vec![
        String::from("readme.txt"),
        String::from("a.ifo"),
        String::from("a.idx"),
        String::from("a.dict.dz"),
    ];
    let s = select_files(&names).unwrap();
    assert_eq!(s.ifo, 1);
    assert_eq!(s.idx, 2);
    assert_eq!(s.payload, 3);
    assert!(s.compressed);
}

#[test]
fn select_files_accepts_plain_payload() {
    let names = vec![String::from("a.ifo"), String::from("a.idx"), String::from("a.dict")];
    let s = select_files(&names).unwrap();
    assert!(!s.compressed);
}

#[test]
fn select_files_missing_role_fails() {
    let names = vec![String::from("a.ifo"), String::from("a.dict.dz")];
    assert_eq!(select_files(&names).unwrap_err(), Error::MissingFile);
}

#[test]
fn select_files_ambiguous_payload_fails() {
    let names = vec![
        String::from("a.ifo"),
        String::from("a.idx"),
        String::from("a.dict.dz"),
        String::from("b.dict"),
    ];
    assert_eq!(select_files(&names).unwrap_err(), Error::MissingFile);
}

#[test]
fn select_files_last_candidate_wins_for_metadata() {
    let names = vec![
        String::from("old.ifo"),
        String::from("new.ifo"),
        String::from("a.idx"),
        String::from("a.dict.dz"),
    ];
    let s = select_files(&names).unwrap();
    assert_eq!(s.ifo, 1);
}

#[test]
fn metadata_accepts_crlf_line_endings() {
    let m = Metadata::new("version=2.4.2\r\nbookname=windows\r\nwordcount=7\r\n").unwrap();
    assert_eq!(m.version(), Version::V242);
    assert_eq!(m.bookname, "windows");
    assert_eq!(m.wordcount, 7);
}

#[test]
fn metadata_reads_recognized_keys() {
    let m = Metadata::new(
        "version=3.0.0\nbookname=Example\nwordcount=42\nauthor=someone\nnot a pair\nunknownkey=kept out\n",
    )
    .unwrap();
    assert_eq!(m.version(), Version::V300);
    assert_eq!(m.bookname, "Example");
    assert_eq!(m.wordcount, 42);
    assert_eq!(m.author, "someone");
}

#[test]
fn metadata_numeric_field_must_be_numeric() {
    let err = Metadata::new("wordcount=12a\n").unwrap_err();
    assert_eq!(err, Error::ParseError);
}

#[test]
fn metadata_other_version_strings_are_unknown() {
    let m = Metadata::new("version=2.8.2\n").unwrap();
    assert_eq!(m.version(), Version::Unknown);
}

#[test]
fn parse_usize_reads_digits_only() {
    assert_eq!(parse_usize("0"), Some(0));
    assert_eq!(parse_usize("57510"), Some(57510));
    assert_eq!(parse_usize(""), None);
    assert_eq!(parse_usize("12a"), None);
    assert_eq!(parse_usize("-3"), None);
    // larger than any machine word
    assert_eq!(parse_usize("99999999999999999999999999"), None);
}

#[test]
fn levenshtein_exact_values() {
    let a: Vec<char> = "kitten".chars().collect();
    let b: Vec<char> = "sitting".chars().collect();
    assert_eq!(levenshtein(&a, &b), 3);
    let c: Vec<char> = "rust".chars().collect();
    let d: Vec<char> = "rst".chars().collect();
    assert_eq!(levenshtein(&c, &d), 1);
    let empty: Vec<char> = Vec::new();
    assert_eq!(levenshtein(&c, &empty), 4);
    assert_eq!(levenshtein(&c, &c), 0);
}

#[test]
fn is_english_classifies_queries() {
    assert!(is_english("rust"));
    assert!(is_english("hello world"));
    assert!(!is_english("铁锈"));
    assert!(!is_english("rust2"));
}

#[test]
fn answer_status_flip_toggles() {
    assert!(AnswerStatus::Show.flip() == AnswerStatus::Hide);
    assert!(AnswerStatus::Hide.flip() == AnswerStatus::Show);
    assert!(AnswerStatus::Show.flip().flip() == AnswerStatus::Show);
}

#[test]
fn width_and_height_of_text() {
    assert_eq!(get_width_and_height("ab\ncdef"), (2, 10));
    assert_eq!(get_width_and_height(""), (1, 10));
    assert_eq!(get_width_and_height("a very long single line here"), (1, 28));
    assert_eq!(get_width_and_height("one\ntwo\nthree\n"), (4, 10));
}

#[test]
fn dict_type_labels() {
    assert_eq!(DictType::OnlineDict.label(), "OnlineDict");
    assert_eq!(DictType::StarDict.label(), "StarDict");
    assert_eq!(DictType::LLM.label(), "LLM");
}

#[test]
fn error_messages_name_the_failure() {
    assert!(Error::MissingFile.message().contains("missing"));
    assert!(Error::ParseError.message().contains("malformed"));
    assert!(Error::UnsupportedVersion.message().contains("version"));
    assert!(Error::DecodeError.message().contains("decoded"));
    assert!(Error::IoError.message().contains("ended"));
}

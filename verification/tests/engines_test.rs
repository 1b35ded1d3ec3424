use scripture_os::engines::content::readable_verse;
use scripture_os::engines::ingestion::build_atom;
use scripture_os::engines::search::{keyword_search_window, SearchError, PAGE_SIZE};
use scripture_os::fsi::models::{Coordinate, LexKey, LexiconID, MacroID, NamespaceID, WorkID};
use scripture_os::lexicon::engine::register_tokens;
use scripture_os::parsers::quran::QuranPipeParser;
use scripture_os::parsers::{ParsedEntry, ScriptureParser};
use scripture_os::utils::errors::ScriptureError;

fn coordinate(w: i32, m: i32, k: &str) -> Coordinate {
    Coordinate { work_id: WorkID(w), macro_id: MacroID(m), lex_key: LexKey(k.to_string()) }
}

#[test]
fn coordinate_paths_are_dotted() {
    assert_eq!(coordinate(786, 1, "00001.a").to_path_string(), "786.1.00001.a");
    assert_eq!(coordinate(-5, 0, "").to_path_string(), "-5.0.");
    assert_eq!(coordinate(i32::MIN, i32::MAX, "k").to_path_string(), "-2147483648.2147483647.k");
}

#[test]
fn readable_verse_carries_path_and_text() {
    let v = readable_verse(&coordinate(786, 2, "00003"), "text".to_string());
    assert_eq!(v.coordinate, "786.2.00003");
    assert_eq!(v.text, "text");
}

#[test]
fn test_search_validation_logic() {
    // Under three characters is refused.
    assert!(matches!(keyword_search_window("ab", 1), Err(SearchError::QueryTooShort)));
    assert!(matches!(keyword_search_window("  ab  ", 1), Err(SearchError::QueryTooShort)));
    // Page -5 is normalized to page 1.
    let (q, limit, offset) = keyword_search_window("love", -5).unwrap();
    assert_eq!(q, "love");
    assert_eq!(limit, PAGE_SIZE);
    assert_eq!(offset, 0);
}

#[test]
fn search_windows_follow_pages() {
    let (q, limit, offset) = keyword_search_window("  mercy ", 3).unwrap();
    assert_eq!((q.as_str(), limit, offset), ("mercy", 20, 40));
    // The length is counted in characters, not in bytes of UTF-8.
    assert!(keyword_search_window("αβ", 1).is_err());
    assert!(keyword_search_window("éé", 1).is_err());
    assert!(keyword_search_window(" éèê ", 1).is_ok());
    // A short query is refused whatever the page.
    assert!(matches!(keyword_search_window("ab", i64::MAX), Err(SearchError::QueryTooShort)));
    assert_eq!(
        SearchError::QueryTooShort.message(),
        "Search query must be at least 3 characters long."
    );
}

#[test]
fn pipe_parser_reads_entries() {
    let parser = QuranPipeParser { work_id: WorkID(786), namespace_id: NamespaceID(1000) };
    let raw = "# copyright\r\n\n1|00001|In the name | of GOD \r\nx|2|text\n  \n";
    let entries = parser.parse(raw).unwrap();
    assert_eq!(entries.len(), 2);
    assert_eq!(entries[0].coordinate.to_path_string(), "786.1.00001");
    assert_eq!(entries[0].text, "In the name | of GOD");
    assert_eq!(entries[0].namespace_id, NamespaceID(1000));
    assert_eq!(entries[1].coordinate.macro_id, MacroID(0));
    assert_eq!(entries[1].text, "text");
}

#[test]
fn pipe_parser_reports_malformed_lines() {
    let parser = QuranPipeParser { work_id: WorkID(1), namespace_id: NamespaceID(2) };
    let err = parser.parse("1|1|a\n# c\n1|2\n1|3|b").unwrap_err();
    match &err {
        ScriptureError::ParseError(m) => assert_eq!(m, "Invalid format at line 3"),
        _ => panic!("wrong error"),
    }
    assert_eq!(err.message(), "Parsing error: Invalid format at line 3");
    assert_eq!(ScriptureError::NotFound.message(), "Coordinate not found in FSI");
}

#[test]
fn ingested_atoms_are_hashed_with_blake3() {
    let entry = ParsedEntry {
        coordinate: coordinate(786, 1, "00001"),
        text: "abc".to_string(),
        namespace_id: NamespaceID(1000),
    };
    let atom = build_atom(entry, LexiconID(42));
    assert_eq!(atom.merkle_hash.len(), 32);
    // BLAKE3("abc")
    assert_eq!(
        atom.merkle_hash[..4].to_vec(),
        vec![0x64, 0x37, 0xb3, 0xac]
    );
    assert_eq!(atom.lexicon_id, LexiconID(42));
    assert_eq!(atom.sub_mask.0, 0);
    assert_eq!(atom.coordinate.to_path_string(), "786.1.00001");
}

#[test]
fn text_blocks_are_tokenized_by_whitespace() {
    let tokens = register_tokens("  In\tthe\u{3000}name  of\nGOD ");
    assert_eq!(tokens, vec!["In", "the", "name", "of", "GOD"]);
    assert!(register_tokens(" \n ").is_empty());
}

#[test]
fn parsing_joined_texts_concatenates_entries() {
    let parser = QuranPipeParser { work_id: WorkID(786), namespace_id: NamespaceID(1) };
    let a = "1|1|first\r\n# note\r\n1|2|second\r";
    let b = "\n2|1|third\n";
    let joined = format!("{}\n{}", a, b);
    let whole: Vec<String> = parser.parse(&joined).unwrap().into_iter().map(|e| e.text).collect();
    let mut parts: Vec<String> = parser.parse(a).unwrap().into_iter().map(|e| e.text).collect();
    parts.extend(parser.parse(b).unwrap().into_iter().map(|e| e.text));
    assert_eq!(whole, parts);
    assert_eq!(whole, vec!["first", "second", "third"]);
    // A malformed line in the first text is reported at the same place.
    assert!(matches!(parser.parse("1|1|a\nbad\n"), Err(ScriptureError::ParseError(_))));
    let err = parser.parse(&format!("{}\n{}", "1|1|a\nbad", "2|1|c")).unwrap_err();
    assert_eq!(err.message(), "Parsing error: Invalid format at line 2");
}

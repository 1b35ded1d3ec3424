use scripture_os::engines::resolution::{
    build_coordinate_paths, complete_address, extract_alias_and_coords, sanitize_path_input,
    ResolutionError, ResolvedAddress,
};

/// Resolves `input` against a lookup that knows one work and one alias.
fn parse_address(work_slug: &str, input: &str) -> Result<ResolvedAddress, ResolutionError> {
    let (alias, coords) = extract_alias_and_coords(input)?;
    let base = if work_slug == "mock_work" && alias == "MockAlias" {
        Some("mock.canonical.path")
    } else {
        None
    };
    complete_address(&alias, base, &coords)
}

#[test]
fn test_universal_coordinate_parsing() {
    // 1. Standard single node
    let res = parse_address("mock_work", "MockAlias 3:16").unwrap();
    assert_eq!(res.start_path, "mock.canonical.path.3.16");

    // 2. Alpha-numeric node (e.g., 16a)
    let res_alpha = parse_address("mock_work", "MockAlias 3:16a").unwrap();
    assert_eq!(res_alpha.start_path, "mock.canonical.path.3.16a");

    // 3. Short range (inherits chapter)
    let res_short = parse_address("mock_work", "MockAlias 3:16-18").unwrap();
    assert_eq!(res_short.start_path, "mock.canonical.path.3.16");
    assert_eq!(res_short.end_path.unwrap(), "mock.canonical.path.3.18");

    // 4. Cross-chapter range
    let res_cross = parse_address("mock_work", "MockAlias 3:1-4:55").unwrap();
    assert_eq!(res_cross.start_path, "mock.canonical.path.3.1");
    assert_eq!(res_cross.end_path.unwrap(), "mock.canonical.path.4.55");

    // 5. Whole book (no coordinates)
    let res_book = parse_address("mock_work", "MockAlias").unwrap();
    assert_eq!(res_book.start_path, "mock.canonical.path");
}

#[test]
fn alias_and_coordinates_are_split() {
    let (a, c) = extract_alias_and_coords("Jn 17:3").unwrap();
    assert_eq!(a, "Jn");
    assert_eq!(c, "17:3");
    let (a, c) = extract_alias_and_coords("1 John 3:16-18").unwrap();
    assert_eq!(a, "1 John");
    assert_eq!(c, "3:16-18");
    let (a, c) = extract_alias_and_coords("Song of Songs 2:1").unwrap();
    assert_eq!(a, "Song of Songs");
    assert_eq!(c, "2:1");
    let (a, c) = extract_alias_and_coords("Rigveda1.1.1").unwrap();
    assert_eq!(a, "Rigveda");
    assert_eq!(c, "1.1.1");
    let (a, c) = extract_alias_and_coords("Jn   abc").unwrap();
    assert_eq!(a, "Jn   abc");
    assert_eq!(c, "");
    let (a, c) = extract_alias_and_coords("Quran ٣:١").unwrap();
    assert_eq!(a, "Quran");
    assert_eq!(c, "٣:١");
}

#[test]
fn malformed_addresses_are_refused() {
    for bad in ["", "17:3", "1John 3", "Jn 3 4", "Jn 3:1,5", "Jn?", " Jn 3"] {
        assert!(matches!(extract_alias_and_coords(bad), Err(ResolutionError::InvalidFormat)), "{}", bad);
    }
    assert_eq!(ResolutionError::InvalidFormat.message(), "Invalid address format.");
}

#[test]
fn unknown_alias_is_reported() {
    let err = parse_address("other_work", "MockAlias 3:16").err().unwrap();
    match &err {
        ResolutionError::AliasNotFound(a) => assert_eq!(a, "MockAlias"),
        _ => panic!("wrong error"),
    }
    assert_eq!(err.message(), "Book alias 'MockAlias' not found");
}

#[test]
fn ranges_inherit_leading_components() {
    let r = build_coordinate_paths("bible.nt.john", "17:2-3");
    assert_eq!(r.start_path, "bible.nt.john.17.2");
    assert_eq!(r.end_path.unwrap(), "bible.nt.john.17.3");
    let r = build_coordinate_paths("rigveda", "1.1.1-5");
    assert_eq!(r.end_path.unwrap(), "rigveda.1.1.5");
    let r = build_coordinate_paths("rigveda", "1.1.1-2.5");
    assert_eq!(r.end_path.unwrap(), "rigveda.1.2.5");
    let r = build_coordinate_paths("b", "1-2-3");
    assert_eq!(r.start_path, "b.1");
    assert_eq!(r.end_path.unwrap(), "b.2");
    let r = build_coordinate_paths("bible", "");
    assert_eq!(r.start_path, "bible");
    assert!(r.end_path.is_none());
}

#[test]
fn path_input_is_trimmed_and_lowercased() {
    assert_eq!(sanitize_path_input("  Quran.1.1 \n"), "quran.1.1");
    assert_eq!(sanitize_path_input("ÄB"), "äb");
}

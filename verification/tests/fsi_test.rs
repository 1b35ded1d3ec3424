use scripture_os::engines::fsi_content::assemble_atoms;
use scripture_os::fsi::format_seeder::{
    tanzil_line_segment, verse_marker, Ingestor as FormatIngestor, WORD_BATCH_LIMIT,
};
use scripture_os::fsi::lex_key::{generate_sequential, key_as_slice, key_from_slice, midpoint};
use scripture_os::fsi::scroll::{Coordinate, MacroID, NamespaceID, ScriptureAtom, SubMask, WorkID};
use scripture_os::fsi::seeder::{
    ayah_marker, khalifa_ingestor, uthmani_ingestor, uthmani_line_segment, Ingestor, BATCH_LIMIT,
};
use scripture_os::repository::fsi_mock::MockFsiRepository;

fn key(i: usize) -> Vec<u8> {
    key_as_slice(&generate_sequential(i)).to_vec()
}

fn atom(w: i32, m: i32, n: i16, mask: u16, k: &[u8], text: &str) -> ScriptureAtom {
    ScriptureAtom {
        coordinate: Coordinate {
            work: WorkID(w),
            macro_level: MacroID(m),
            namespace: NamespaceID(n),
            sub_mask: SubMask(mask),
            lex_key: key_from_slice(k),
        },
        text_content: text.to_string(),
    }
}

#[test]
fn sequential_keys_are_padded_base62() {
    assert_eq!(key(0), b"0".to_vec());
    assert_eq!(key(1), b"00001".to_vec());
    assert_eq!(key(9), b"00009".to_vec());
    assert_eq!(key(10), b"0000A".to_vec());
    assert_eq!(key(35), b"0000Z".to_vec());
    assert_eq!(key(36), b"0000a".to_vec());
    assert_eq!(key(61), b"0000z".to_vec());
    assert_eq!(key(62), b"00010".to_vec());
    assert_eq!(key(916_132_831), b"zzzzz".to_vec());
    assert_eq!(key(916_132_832), b"100000".to_vec());
}

#[test]
fn sequential_keys_sort_like_their_indexes() {
    let mut prev = key(0);
    for i in 1..5000usize {
        let k = key(i);
        assert!(prev < k, "{} {:?} {:?}", i, prev, k);
        prev = k;
    }
    assert!(key(61) < key(62));
    assert!(key(3843) < key(3844));
}

#[test]
fn midpoint_sorts_between_neighbours() {
    let a = b"00001".to_vec();
    let b = b"00002".to_vec();
    let m = key_as_slice(&midpoint(&a, &b)).to_vec();
    assert_eq!(m, b"000011".to_vec());
    assert!(a < m && m < b);
}

fn mid(prev: &[u8], next: &[u8]) -> Vec<u8> {
    key_as_slice(&midpoint(prev, next)).to_vec()
}

#[test]
fn midpoint_stays_below_an_extension_of_prev() {
    // `next` extends `prev`: appending `1` would reach or pass it.
    assert_eq!(mid(b"a", b"a1"), b"a0".to_vec());
    assert_eq!(mid(b"a", b"a0"), b"a/".to_vec());
    assert_eq!(mid(b"a", b"a\x00\x05"), b"a\x00".to_vec());
    // A tail sorting after `1` keeps the plain strategy.
    assert_eq!(mid(b"a", b"a12"), b"a1".to_vec());
    assert_eq!(mid(b"a", b"a5"), b"a1".to_vec());
    let pairs: [(&[u8], &[u8]); 5] =
        [(b"a", b"a1"), (b"a", b"a0"), (b"a", b"a\x00\x05"), (b"a", b"b"), (b"", b"0")];
    for (p, n) in pairs {
        let m = mid(p, n);
        assert!(p < &m[..] && &m[..] < n, "{:?} {:?} {:?}", p, n, m);
    }
}

#[test]
fn test_assemble_macro_mock() {
    let w = 786;
    let m = 1;
    let n = 0x02;
    let atom1 = atom(w, m, n, SubMask::LOGICAL_ANCHOR, &key(0), "بِسْمِ");
    let atom2 = atom(w, m, n, SubMask::LOGICAL_ANCHOR, &key(1), "ٱللَّهِ");
    let repo = MockFsiRepository::with_data(vec![atom1, atom2]);
    let seq = repo.get_sequence(WorkID(w), MacroID(m), NamespaceID(n), None, None);
    let result = assemble_atoms(&seq);
    assert_eq!(result, "بِسْمِ ٱللَّهِ");
}

#[test]
fn get_sequence_filters_bounds_and_sorts_stably() {
    let mut repo = MockFsiRepository::new();
    repo.insert_atoms(vec![
        atom(1, 1, 1, 0, b"00003", "c"),
        atom(1, 1, 1, 0, b"00001", "a"),
        atom(1, 2, 1, 0, b"00002", "other macro"),
        atom(1, 1, 2, 0, b"00002", "other namespace"),
        atom(2, 1, 1, 0, b"00002", "other work"),
        atom(1, 1, 1, 0, b"00002", "b1"),
        atom(1, 1, 1, 0, b"00002", "b2"),
        atom(1, 1, 1, 0, b"00004", "d"),
    ]);
    let all = repo.get_sequence(WorkID(1), MacroID(1), NamespaceID(1), None, None);
    let texts: Vec<&str> = all.iter().map(|a| a.text_content.as_str()).collect();
    assert_eq!(texts, vec!["a", "b1", "b2", "c", "d"]);
    let some = repo.get_sequence(WorkID(1), MacroID(1), NamespaceID(1), Some(b"00002"), Some(b"00003"));
    let texts: Vec<&str> = some.iter().map(|a| a.text_content.as_str()).collect();
    assert_eq!(texts, vec!["b1", "b2", "c"]);
    let none = repo.get_sequence(WorkID(9), MacroID(1), NamespaceID(1), None, None);
    assert!(none.is_empty());
}

const FATIHAH: &str = "# comment line
1|1|بِسْمِ ٱللَّهِ ٱلرَّحْمَٰنِ ٱلرَّحِيمِ
1|2|ٱلْحَمْدُ لِلَّهِ رَبِّ ٱلْعَٰلَمِينَ
1|3|ٱلرَّحْمَٰنِ ٱلرَّحِيمِ
1|4|مَٰلِكِ يَوْمِ ٱلدِّينِ
1|5|إِيَّاكَ نَعْبُدُ وَإِيَّاكَ نَسْتَعِينُ
1|6|ٱهْدِنَا ٱلصِّرَٰطَ ٱلْمُسْتَقِيمَ
1|7|صِرَٰطَ ٱلَّذِينَ أَنْعَمْتَ عَلَيْهِمْ غَيْرِ ٱلْمَغْضُوبِ عَلَيْهِمْ وَلَا ٱلضَّآلِّينَ

2|1|الٓمٓ
";

fn store(repo: &mut MockFsiRepository, batch: Option<Vec<ScriptureAtom>>) {
    if let Some(b) = batch {
        repo.insert_atoms(b);
    }
}

fn ingest_uthmani(repo: &mut MockFsiRepository, text: &str) {
    let mut ingestor = uthmani_ingestor();
    for line in text.lines() {
        if let Some((surah, marker, words)) = uthmani_line_segment(line) {
            if let Some(b) = ingestor.process_segment(surah, &marker, &words) {
                repo.insert_atoms(b);
                ingestor.confirm_flushed();
            }
        }
    }
    store(repo, ingestor.finish());
}

#[test]
fn test_fsi_end_to_end_pipeline() {
    let mut repo = MockFsiRepository::new();
    ingest_uthmani(&mut repo, FATIHAH);
    let seq = repo.get_sequence(WorkID(786), MacroID(1), NamespaceID(0x02), None, None);
    let result = assemble_atoms(&seq);
    let expected_fatihah = "\n[AYAH:1] بِسْمِ ٱللَّهِ ٱلرَّحْمَٰنِ ٱلرَّحِيمِ \n[AYAH:2] ٱلْحَمْدُ لِلَّهِ رَبِّ ٱلْعَٰلَمِينَ \n[AYAH:3] ٱلرَّحْمَٰنِ ٱلرَّحِيمِ \n[AYAH:4] مَٰلِكِ يَوْمِ ٱلدِّينِ \n[AYAH:5] إِيَّاكَ نَعْبُدُ وَإِيَّاكَ نَسْتَعِينُ \n[AYAH:6] ٱهْدِنَا ٱلصِّرَٰطَ ٱلْمُسْتَقِيمَ \n[AYAH:7] صِرَٰطَ ٱلَّذِينَ أَنْعَمْتَ عَلَيْهِمْ غَيْرِ ٱلْمَغْضُوبِ عَلَيْهِمْ وَلَا ٱلضَّآلِّينَ";
    assert_eq!(result, expected_fatihah);
}

#[test]
fn test_fsi_dual_track_pipeline() {
    let mut repo = MockFsiRepository::new();
    ingest_uthmani(&mut repo, FATIHAH);
    let verses = [
        (1, 1, "In the name of GOD, Most Gracious, Most Merciful."),
        (1, 2, "Praise be to GOD, Lord of the universe."),
        (1, 3, "Most Gracious, Most Merciful."),
        (1, 4, "Master of the Day of Judgment."),
        (1, 5, "You alone we worship; You alone we ask for help."),
        (1, 6, "Guide us in the right path;"),
        (1, 7, "the path of those whom You blessed; not of those who have deserved wrath, nor of the strayers."),
    ];
    let mut ingestor = khalifa_ingestor();
    for (surah, verse, text) in verses {
        if let Some(b) = ingestor.process_segment(surah, &ayah_marker(verse), text) {
            repo.insert_atoms(b);
            ingestor.confirm_flushed();
        }
    }
    store(&mut repo, ingestor.finish());
    let english = assemble_atoms(&repo.get_sequence(WorkID(786), MacroID(1), NamespaceID(19), None, None));
    let expected_english = "\n[AYAH:1] In the name of GOD, Most Gracious, Most Merciful. \n[AYAH:2] Praise be to GOD, Lord of the universe. \n[AYAH:3] Most Gracious, Most Merciful. \n[AYAH:4] Master of the Day of Judgment. \n[AYAH:5] You alone we worship; You alone we ask for help. \n[AYAH:6] Guide us in the right path; \n[AYAH:7] the path of those whom You blessed; not of those who have deserved wrath, nor of the strayers.";
    assert_eq!(english, expected_english);
    let arabic = assemble_atoms(&repo.get_sequence(WorkID(786), MacroID(2), NamespaceID(0x02), None, None));
    assert_eq!(arabic, "\n[AYAH:1] الٓمٓ");
}

#[test]
fn ingestor_restarts_keys_per_macro_and_flushes_full_batches() {
    let mut ingestor = Ingestor::new(WorkID(5), NamespaceID(7), SubMask(0));
    let out = ingestor.process_segment(3, "AYAH:1", "a b");
    assert!(out.is_none());
    let out = ingestor.process_segment(4, "AYAH:1", "c");
    assert!(out.is_none());
    let rest = ingestor.finish().unwrap();
    let keys: Vec<Vec<u8>> = rest.iter().map(|a| key_as_slice(&a.coordinate.lex_key).to_vec()).collect();
    assert_eq!(keys, vec![key(0), key(1), key(2), key(0), key(1)]);
    assert_eq!(rest[0].coordinate.sub_mask.0, SubMask::STRUCTURAL_MARKER);
    assert_eq!(rest[1].coordinate.sub_mask.0, 0);
    assert_eq!(rest[3].coordinate.macro_level, MacroID(4));

    let mut big = Ingestor::new(WorkID(1), NamespaceID(1), SubMask(0));
    let words = vec!["w"; BATCH_LIMIT].join(" ");
    let out = big.process_segment(1, "M", &words).unwrap();
    assert_eq!(out.len(), BATCH_LIMIT + 1);
    big.confirm_flushed();
    assert!(big.finish().is_none());
}

#[test]
fn unconfirmed_batch_stays_pending() {
    // The storage of the handed-out batch failed: nothing is confirmed.
    let mut ing = Ingestor::new(WorkID(1), NamespaceID(1), SubMask(0));
    let words = vec!["w"; BATCH_LIMIT].join(" ");
    let out = ing.process_segment(1, "M", &words).unwrap();
    assert_eq!(out.len(), BATCH_LIMIT + 1);
    // The next full batch holds the failed one too, and so does `finish`.
    let again = ing.process_segment(1, "N", "x").unwrap();
    assert_eq!(again.len(), BATCH_LIMIT + 3);
    assert_eq!(again[0].text_content, "M");
    let rest = ing.finish().unwrap();
    assert_eq!(rest.len(), BATCH_LIMIT + 3);
}

#[test]
fn format_ingestor_flushes_after_words() {
    let mut ing = FormatIngestor::new(WorkID(1), NamespaceID(1), SubMask(0));
    let words = vec!["w"; 12000].join(" ");
    let first = ing.process_segment(1, &verse_marker(1), &words).unwrap();
    assert_eq!(first.len(), WORD_BATCH_LIMIT);
    assert_eq!(first[0].text_content, "VERSE:1");
    // The rest of the segment is atomized only once the batch is confirmed.
    let second = ing.confirm_flushed().unwrap();
    assert_eq!(second.len(), WORD_BATCH_LIMIT);
    assert_eq!(key_as_slice(&second[0].coordinate.lex_key).to_vec(), key(WORD_BATCH_LIMIT));
    assert!(ing.confirm_flushed().is_none());
    let rest = ing.finish().unwrap();
    assert_eq!(rest.len(), 12001 - 2 * WORD_BATCH_LIMIT);
}

#[test]
fn format_ingestor_checks_the_batch_after_the_marker() {
    let mut ing = FormatIngestor::new(WorkID(1), NamespaceID(1), SubMask(0));
    let words = vec!["w"; WORD_BATCH_LIMIT - 2].join(" ");
    assert!(ing.process_segment(1, "V", &words).is_none());
    // A segment without words still brings the batch to the limit with its marker.
    let full = ing.process_segment(1, "M", "").unwrap();
    assert_eq!(full.len(), WORD_BATCH_LIMIT);
    assert!(ing.confirm_flushed().is_none());
    assert!(ing.finish().is_none());
}

#[test]
fn format_ingestor_keeps_an_unconfirmed_batch() {
    let mut ing = FormatIngestor::new(WorkID(1), NamespaceID(1), SubMask(0));
    let words = vec!["w"; WORD_BATCH_LIMIT + 10].join(" ");
    let first = ing.process_segment(1, "V", &words).unwrap();
    assert_eq!(first.len(), WORD_BATCH_LIMIT);
    // The storage failed: the batch is still pending and the rest of the segment is
    // never atomized.
    let rest = ing.finish().unwrap();
    assert_eq!(rest.len(), WORD_BATCH_LIMIT);
}

#[test]
fn source_lines_become_segments() {
    let (s, m, t) = uthmani_line_segment("2|255|  text here  ").unwrap();
    assert_eq!((s, m.as_str(), t.as_str()), (2, "AYAH:255", "text here"));
    assert!(uthmani_line_segment("#1|2|3").is_none());
    assert!(uthmani_line_segment("   ").is_none());
    assert!(uthmani_line_segment("1|2").is_none());
    assert!(uthmani_line_segment("1|2|3|4").is_none());
    let (s, _, _) = uthmani_line_segment("x|1|t").unwrap();
    assert_eq!(s, 0);
    let (s, m, t) = tanzil_line_segment("-3|9|a").unwrap();
    assert_eq!((s, m.as_str(), t.as_str()), (-3, "VERSE:9", "a"));
    // A blank (but not empty) line still has fewer than three fields.
    assert!(tanzil_line_segment("   ").is_none());
    assert!(tanzil_line_segment("").is_none());
    assert_eq!(ayah_marker(-12), "AYAH:-12");
    assert_eq!(verse_marker(0), "VERSE:0");
}

#[test]
fn tanzil_and_uthmani_lines_agree() {
    let lines = ["1|1|a b", "  ", "", "#1|2|3", "1|2", "x|7|  t  ", "1|2|3|4", "\t|\t|\t"];
    for line in lines {
        match (tanzil_line_segment(line), uthmani_line_segment(line)) {
            (None, None) => {}
            (Some((c, m, t)), Some((c2, m2, t2))) => {
                assert_eq!((c, &t), (c2, &t2));
                assert_eq!(&m["VERSE:".len()..], &m2["AYAH:".len()..]);
            }
            other => panic!("{:?} {:?}", line, other),
        }
    }
}

fn run_all_uthmani(text: &str) -> Vec<ScriptureAtom> {
    let mut out = Vec::new();
    let mut ing = uthmani_ingestor();
    for line in text.lines() {
        if let Some((s, m, t)) = uthmani_line_segment(line) {
            if let Some(b) = ing.process_segment(s, &m, &t) {
                out.extend(b);
                ing.confirm_flushed();
            }
        }
    }
    out.extend(ing.finish().unwrap_or_default());
    out
}

fn run_all_tanzil(text: &str) -> Vec<ScriptureAtom> {
    let mut out = Vec::new();
    let mut ing = FormatIngestor::new(WorkID(786), NamespaceID(2), SubMask(3));
    for line in text.lines() {
        if let Some((s, m, t)) = tanzil_line_segment(line) {
            let mut next = ing.process_segment(s, &m, &t);
            while let Some(b) = next {
                out.extend(b);
                next = ing.confirm_flushed();
            }
        }
    }
    out.extend(ing.finish().unwrap_or_default());
    out
}

#[test]
fn tanzil_and_uthmani_runs_agree_but_for_markers() {
    let u = run_all_uthmani(FATIHAH);
    let t = run_all_tanzil(FATIHAH);
    assert_eq!(u.len(), t.len());
    for (a, b) in u.iter().zip(t.iter()) {
        assert_eq!(a.coordinate.work, b.coordinate.work);
        assert_eq!(a.coordinate.macro_level, b.coordinate.macro_level);
        assert_eq!(a.coordinate.namespace, b.coordinate.namespace);
        assert_eq!(a.coordinate.sub_mask, b.coordinate.sub_mask);
        assert_eq!(key_as_slice(&a.coordinate.lex_key), key_as_slice(&b.coordinate.lex_key));
        if a.coordinate.sub_mask.0 == SubMask::STRUCTURAL_MARKER {
            assert_eq!(a.text_content.replacen("AYAH:", "VERSE:", 1), b.text_content);
        } else {
            assert_eq!(a.text_content, b.text_content);
        }
    }
}

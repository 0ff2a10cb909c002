use fus::copy_names::{
    copy_score, is_copy_pattern, originality_score, originality_score_lowered, remove_copy_patterns,
};
use fus::normalize::{blank_and_collapse, extension_key, normalize_decomposed, normalize_name};

#[test]
fn copy_pattern_numbered_parenthesis() {
    assert!(is_copy_pattern("file (2).txt"));
    assert!(is_copy_pattern("file (copy).txt"));
    assert!(is_copy_pattern("photo (+7).jpg"));
    assert!(is_copy_pattern("photo (4294967295).jpg"));
}

#[test]
fn copy_pattern_rejects_other_parentheses() {
    assert!(!is_copy_pattern("file (x).txt"));
    assert!(!is_copy_pattern("photo (-7).jpg"));
    assert!(!is_copy_pattern("photo (4294967296).jpg"));
    assert!(!is_copy_pattern("photo ().jpg"));
    assert!(!is_copy_pattern("file.txt"));
}

#[test]
fn copy_pattern_uses_last_parenthesis() {
    assert!(is_copy_pattern("a (x) (3).txt"));
    assert!(!is_copy_pattern("a (3) (x).txt"));
}

#[test]
fn copy_pattern_copy_words() {
    assert!(is_copy_pattern("my copy.txt"));
    assert!(is_copy_pattern("a - copy.txt"));
    assert!(!is_copy_pattern("mycopy.txt"));
}

#[test]
fn copy_score_is_case_insensitive() {
    assert_eq!(copy_score("Photo COPY.jpg"), 1);
    assert_eq!(copy_score("Photo (COPY).jpg"), 1);
    assert_eq!(copy_score("Photo.jpg"), 0);
}

#[test]
fn copy_score_without_closing_parenthesis() {
    assert_eq!(copy_score("a) b (c"), 0);
    assert_eq!(copy_score("part 1) notes (old.txt"), 0);
    assert_eq!(copy_score("a (2)"), 1);
    assert_eq!(copy_score("a (c"), 0);
    assert!(!is_copy_pattern("x (2) y (z"));
}

#[test]
fn originality_score_values() {
    assert_eq!(originality_score("report.txt"), 1);
    assert_eq!(originality_score("report (2).txt"), 11);
    assert_eq!(originality_score("report_copy.txt"), 11);
    assert_eq!(originality_score("Report (Copy) copy.txt"), 22);
    assert_eq!(originality_score("a"), 0);
}

#[test]
fn originality_score_counts_utf8_bytes() {
    // five characters, ten bytes
    assert_eq!(originality_score("ééééé"), 1);
    assert_eq!(originality_score("eeeee"), 0);
}

#[test]
fn originality_score_without_closing_parenthesis() {
    assert_eq!(originality_score("x) y (z"), 0);
    assert_eq!(originality_score("part 1) notes (old.txt"), 2);
    assert_eq!(originality_score("x (1)"), 10);
}

#[test]
fn originality_score_from_lowercase_form() {
    assert_eq!(originality_score_lowered("a (2) copy.txt", 14), 21);
    assert_eq!(originality_score_lowered("a.txt", 5), 0);
}

#[test]
fn remove_copy_patterns_repeated_groups() {
    assert_eq!(remove_copy_patterns("song (1) (2)"), "song");
    assert_eq!(remove_copy_patterns("song (copy)"), "song");
}

#[test]
fn remove_copy_patterns_skips_other_groups() {
    assert_eq!(remove_copy_patterns("song (live) (2)"), "song (live)");
    assert_eq!(remove_copy_patterns("x (a) (2)"), "x (a)");
    assert_eq!(remove_copy_patterns("a (1) b (x) c (copy) d"), "a b (x) c d");
    assert_eq!(remove_copy_patterns("song (x"), "song (x");
    assert_eq!(remove_copy_patterns("a (x (2)"), "a (x");
}

#[test]
fn remove_copy_patterns_suffixes() {
    assert_eq!(remove_copy_patterns("doc - copy"), "doc");
    assert_eq!(remove_copy_patterns("doc copy 2"), "doc");
    assert_eq!(remove_copy_patterns("doc_copy2"), "doc");
    assert_eq!(remove_copy_patterns("x-copy"), "x");
    assert_eq!(remove_copy_patterns("plain"), "plain");
}

#[test]
fn normalize_strips_diacritics_and_copy_marks() {
    assert_eq!(normalize_name("Café Déjà Vu (2).mp3"), "cafe deja vu");
    assert_eq!(normalize_name("Photo (draft) (2).jpg"), "photo draft");
}

#[test]
fn normalize_collapses_separators() {
    assert_eq!(normalize_name("My_File-Name  copy.TXT"), "my file name");
    assert_eq!(normalize_name("  a...b  "), "a");
}

#[test]
fn normalize_keeps_leading_dot_names() {
    assert_eq!(normalize_name(".hidden"), "hidden");
    assert_eq!(normalize_name("a.b.c"), "a b");
}

#[test]
fn normalize_empty_and_symbols() {
    assert_eq!(normalize_name(""), "");
    assert_eq!(normalize_name("!!!.txt"), "");
}

#[test]
fn extension_key_values() {
    assert_eq!(extension_key("Photo.JPG"), "jpg");
    assert_eq!(extension_key("archive.tar.GZ"), "gz");
    assert_eq!(extension_key(".bashrc"), "");
    assert_eq!(extension_key("noext"), "");
    assert_eq!(extension_key("trailing."), "");
}

#[test]
fn normalize_drops_combining_marks() {
    assert_eq!(normalize_name("e\u{301}cole.txt"), "ecole");
    assert_eq!(normalize_name("Tie\u{302}\u{301}ng Vie\u{323}t.mp3"), "tieng viet");
}

#[test]
fn normalize_trims_and_collapses() {
    assert_eq!(normalize_name("  a   b  .doc"), "a b");
    assert_eq!(normalize_name("\ta\u{3000}b"), "a b");
}

#[test]
fn normalize_decomposed_from_lowercase_nfd() {
    let d: Vec<char> = "e\u{301}te\u{301} (2)".chars().collect();
    assert_eq!(normalize_decomposed(&d), "ete");
    let d2: Vec<char> = "  a__b (copy) (x)".chars().collect();
    assert_eq!(normalize_decomposed(&d2), "a b x");
    assert_eq!(normalize_decomposed(&[]), "");
}

#[test]
fn normalized_names_have_no_stray_spaces() {
    for name in ["  x  y  .txt", " (2) a", "a - b - c.doc", "\u{a0}q\u{2003}r\u{a0}"] {
        let n = normalize_name(name);
        assert!(!n.starts_with(' '));
        assert!(!n.ends_with(' '));
        assert!(!n.contains("  "));
    }
    assert_eq!(normalize_name("\u{a0}q\u{2003}r\u{a0}"), "q r");
}

#[test]
fn copy_marker_costs_at_least_ten() {
    let plain = originality_score("holiday photo.jpg");
    assert!(originality_score("holiday photo (2).jpg") >= plain + 10);
    assert!(originality_score("holiday photo (copy).jpg") >= plain + 10);
    assert!(originality_score("holiday photo - Copy.jpg") >= plain + 10);
}

#[test]
fn remove_copy_patterns_finds_group_formed_by_a_cut() {
    assert_eq!(remove_copy_patterns("x  (1)(2)"), "x");
    assert_eq!(remove_copy_patterns("x (1) (2)"), "x");
}

#[test]
fn blank_and_collapse_by_flags() {
    let v: Vec<char> = "a-b  c!".chars().collect();
    let keep = vec![true, false, true, true, true, true, false];
    assert_eq!(blank_and_collapse(&v, &keep), "a b c");
    assert_eq!(blank_and_collapse(&v, &vec![false; 7]), "");
}

#[test]
fn ascii_case_does_not_matter() {
    assert_eq!(normalize_name("My Photo (2).JPG"), normalize_name("my photo (2).jpg"));
    assert_eq!(normalize_name("My Photo (2).JPG"), "my photo");
    assert_eq!(copy_score("Report - COPY.txt"), copy_score("report - copy.txt"));
    assert_eq!(copy_score("Report - COPY.txt"), 1);
    assert_eq!(extension_key("A.TaR.Gz"), "gz");
}

#[test]
fn mixed_case_copy_marker_costs_at_least_ten() {
    let plain = originality_score("Holiday.JPG");
    assert!(originality_score("Holiday (2).JPG") >= plain + 10);
    assert!(originality_score("Holiday (Copy).JPG") >= plain + 10);
    assert!(originality_score("Holiday - Copy.JPG") >= plain + 10);
}

use fus::renumber::{
    is_listed_name, is_strip_temp_name, numbered_name, plan_renumbering, prefix_width,
    rename_temp_name, shuffled_numbers, strip_matched_prefix, strip_prefix, strip_temp_name,
};

#[test]
fn strip_prefix_removes_number() {
    assert_eq!(strip_prefix("12_song.mp3"), "song.mp3");
    assert_eq!(strip_prefix("007_a_b.txt"), "a_b.txt");
    assert_eq!(strip_prefix("1_2_x"), "2_x");
}

#[test]
fn strip_prefix_leaves_other_names() {
    assert_eq!(strip_prefix("song.mp3"), "song.mp3");
    assert_eq!(strip_prefix("_x"), "_x");
    assert_eq!(strip_prefix("12a_x"), "12a_x");
    assert_eq!(strip_prefix("12"), "12");
    assert_eq!(strip_prefix(""), "");
}

#[test]
fn strip_prefix_unicode_digits() {
    assert_eq!(strip_prefix("\u{0661}\u{0662}_x"), "x");
}

#[test]
fn listed_names() {
    assert!(!is_listed_name(".x"));
    assert!(!is_listed_name("._x"));
    assert!(is_listed_name("x"));
    assert!(is_listed_name("x."));
    assert!(is_listed_name(""));
}

#[test]
fn prefix_width_is_digit_count() {
    assert_eq!(prefix_width(0), 1);
    assert_eq!(prefix_width(9), 1);
    assert_eq!(prefix_width(10), 2);
    assert_eq!(prefix_width(1000), 4);
}

#[test]
fn numbered_names_are_zero_padded() {
    assert_eq!(numbered_name(7, 3, "a.txt"), "007_a.txt");
    assert_eq!(numbered_name(123, 2, "b"), "123_b");
    assert_eq!(numbered_name(5, 1, ""), "5_");
}

#[test]
fn padded_prefixes_share_width() {
    let w = prefix_width(120);
    for n in 1..=120 {
        let name = numbered_name(n, w, "f");
        assert_eq!(name.len(), w + 2);
    }
}

#[test]
fn clear_undoes_numbering() {
    for n in [1usize, 9, 10, 42, 100] {
        let name = numbered_name(n, 3, "song_01.mp3");
        assert_eq!(strip_prefix(&name), "song_01.mp3");
    }
}

#[test]
fn shuffled_numbers_are_a_permutation() {
    let mut v = shuffled_numbers(50);
    v.sort();
    assert_eq!(v, (1..=50).collect::<Vec<usize>>());
    assert!(shuffled_numbers(0).is_empty());
}

#[test]
fn plan_sorts_by_clean_name() {
    let names: Vec<String> = vec!["b".to_string(), "a".to_string(), "c".to_string()];
    let plan = plan_renumbering(&names, &vec![3, 1, 2]);
    assert_eq!(
        plan,
        vec![(1, "3_a".to_string()), (0, "1_b".to_string()), (2, "2_c".to_string())]
    );
}

#[test]
fn plan_pads_to_count_width() {
    let names: Vec<String> = (0..10).map(|i| format!("f{}", i)).collect();
    let numbers: Vec<usize> = (1..=10).collect();
    let plan = plan_renumbering(&names, &numbers);
    assert_eq!(plan[0], (0, "01_f0".to_string()));
    assert_eq!(plan[9], (9, "10_f9".to_string()));
}

#[test]
fn temp_names() {
    assert_eq!(strip_temp_name("a.txt"), ".fus_strip_a.txt");
    assert_eq!(rename_temp_name("01_a.txt"), ".fus_tmp_01_a.txt");
    assert!(is_strip_temp_name(".fus_strip_a.txt"));
    assert!(!is_strip_temp_name(".fus_tmp_a.txt"));
    assert!(!is_strip_temp_name(".fus_strip"));
}

#[test]
fn padded_numbers_sort_by_value() {
    let w = prefix_width(12);
    let names: Vec<String> = (1..=12).map(|n| numbered_name(n, w, "x")).collect();
    let mut sorted = names.clone();
    sorted.sort();
    assert_eq!(names, sorted);
    assert!(numbered_name(2, w, "zzz") < numbered_name(10, w, "aaa"));
}

#[test]
fn numbered_names_are_distinct() {
    let w = prefix_width(30);
    let names: Vec<String> = (1..=30).map(|n| numbered_name(n, w, "same.txt")).collect();
    for i in 0..names.len() {
        for j in (i + 1)..names.len() {
            assert_ne!(names[i], names[j]);
        }
    }
}

#[test]
fn temp_names_are_hidden() {
    assert!(!is_listed_name(&strip_temp_name("a.txt")));
    assert!(!is_listed_name(&rename_temp_name("01_a.txt")));
    assert!(is_listed_name(&numbered_name(1, 2, ".x")));
    assert_ne!(numbered_name(1, 2, "a"), rename_temp_name("a"));
}

#[test]
fn strip_matched_prefix_follows_the_verdict() {
    assert_eq!(strip_matched_prefix("12_x", true), "x");
    assert_eq!(strip_matched_prefix("12_x", false), "12_x");
    assert_eq!(strip_matched_prefix("_x", true), "_x");
    assert_eq!(strip_matched_prefix("x", true), "x");
    assert_eq!(strip_matched_prefix("ab_c_d", true), "c_d");
}

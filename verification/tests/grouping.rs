use fus::content::{digest_hex, key_groups, size_groups, to_hex_lower, wasted_bytes};
use fus::grouping::{candidate_pairs, groups_of_labels, link_similar, similar_groups};
use fus::ordering::{order_by_name, order_by_score_and_name};
use fus::report::{byte_count_text, size_unit, SizeUnit};
use fus::union_find::UnionFind;

fn strings(v: &[&str]) -> Vec<String> {
    v.iter().map(|s| s.to_string()).collect()
}

#[test]
fn union_find_starts_with_singletons() {
    let mut uf = UnionFind::new(3);
    assert_eq!(uf.len(), 3);
    assert_eq!(uf.find(0), 0);
    assert_eq!(uf.find(1), 1);
    assert_eq!(uf.find(2), 2);
}

#[test]
fn union_then_find_agrees() {
    let mut uf = UnionFind::new(5);
    uf.union(0, 1);
    assert_eq!(uf.find(0), uf.find(1));
    uf.union(3, 4);
    assert_eq!(uf.find(3), uf.find(4));
    assert_ne!(uf.find(1), uf.find(3));
    assert_eq!(uf.find(2), 2);
    uf.union(1, 4);
    let r = uf.find(0);
    assert_eq!(uf.find(3), r);
    assert_eq!(uf.find(4), r);
    assert_ne!(uf.find(2), r);
}

#[test]
fn union_by_rank_keeps_first_root_on_ties() {
    let mut uf = UnionFind::new(4);
    uf.union(0, 1);
    assert_eq!(uf.find(1), 0);
    uf.union(2, 3);
    assert_eq!(uf.find(3), 2);
    // equal ranks again: the representative of the first argument survives
    uf.union(3, 1);
    assert_eq!(uf.find(0), 2);
    // a singleton joins under the higher-ranked root
    let mut uf2 = UnionFind::new(3);
    uf2.union(0, 1);
    uf2.union(2, 1);
    assert_eq!(uf2.find(2), 0);
}

#[test]
fn union_twice_changes_nothing() {
    let mut uf = UnionFind::new(3);
    uf.union(0, 2);
    let r = uf.find(2);
    uf.union(2, 0);
    assert_eq!(uf.find(0), r);
    assert_eq!(uf.find(2), r);
    assert_eq!(uf.find(1), 1);
}

#[test]
fn groups_of_labels_example() {
    assert_eq!(groups_of_labels(&[5, 3, 5, 7, 3]), vec![vec![0, 2], vec![1, 4]]);
    assert_eq!(groups_of_labels(&[1, 2, 3]), Vec::<Vec<usize>>::new());
    assert_eq!(groups_of_labels(&[]), Vec::<Vec<usize>>::new());
    assert_eq!(groups_of_labels(&[9, 9, 9]), vec![vec![0, 1, 2]]);
}

#[test]
fn groups_are_disjoint() {
    let groups = groups_of_labels(&[1, 2, 1, 2, 3, 1]);
    assert_eq!(groups, vec![vec![0, 2, 5], vec![1, 3]]);
    for (a, g1) in groups.iter().enumerate() {
        for g2 in groups.iter().skip(a + 1) {
            assert!(g1.iter().all(|x| !g2.contains(x)));
        }
    }
}

#[test]
fn candidate_pairs_same_extension() {
    let keys = strings(&["jpg", "png", "jpg", "jpg"]);
    assert_eq!(candidate_pairs(&keys), vec![(0, 2), (0, 3), (2, 3)]);
    assert_eq!(candidate_pairs(&strings(&["a"])), vec![]);
}

#[test]
fn similar_groups_follow_chains() {
    // 0~1 and 1~2 put 0, 1, 2 together though 0 and 2 are not similar
    let pairs = vec![(0, 1), (0, 2), (1, 2), (3, 4)];
    let flags = vec![true, false, true, false];
    assert_eq!(similar_groups(5, &pairs, &flags), vec![vec![0, 1, 2]]);
    let flags2 = vec![false, false, false, true];
    assert_eq!(similar_groups(5, &pairs, &flags2), vec![vec![3, 4]]);
}

#[test]
fn link_similar_partition() {
    let pairs = vec![(0, 3), (1, 2)];
    let flags = vec![true, true];
    let mut uf = link_similar(4, &pairs, &flags);
    assert_eq!(uf.find(0), uf.find(3));
    assert_eq!(uf.find(1), uf.find(2));
    assert_ne!(uf.find(0), uf.find(1));
}

#[test]
fn order_by_score_then_name() {
    let scores = vec![1, 0, 0];
    let names = strings(&["b", "z", "a"]);
    assert_eq!(order_by_score_and_name(&scores, &names), vec![2, 1, 0]);
}

#[test]
fn first_in_order_has_lowest_score() {
    let scores = vec![11, 1, 21, 1];
    let names = strings(&["a (2).txt", "b.txt", "a copy (3).txt", "a.txt"]);
    let order = order_by_score_and_name(&scores, &names);
    assert_eq!(order, vec![3, 1, 0, 2]);
    assert!(scores.iter().all(|&s| scores[order[0]] <= s));
}

#[test]
fn order_is_stable_on_equal_names() {
    let names = strings(&["b", "a", "b", "a"]);
    assert_eq!(order_by_name(&names), vec![1, 3, 0, 2]);
    assert_eq!(order_by_name(&strings(&["ab", "a", "b", ""])), vec![3, 1, 0, 2]);
}

#[test]
fn order_by_code_point() {
    let names = strings(&["é", "z", "Z"]);
    assert_eq!(order_by_name(&names), vec![2, 1, 0]);
}

#[test]
fn digest_hex_of_abc() {
    assert_eq!(
        digest_hex(b"abc"),
        "ba7816bf8f01cfea414140de5dae2223b00361a396177a9cb410ff61f20015ad"
    );
    assert_eq!(
        digest_hex(b""),
        "e3b0c44298fc1c149afbf4c8996fb92427ae41e4649b934ca495991b7852b855"
    );
}

#[test]
fn hex_lower_digits() {
    assert_eq!(to_hex_lower(&[0x0a, 0x14, 0x1e]), "0a141e");
    assert_eq!(to_hex_lower(&[0x00, 0xff]), "00ff");
    assert_eq!(to_hex_lower(&[]), "");
}

#[test]
fn size_groups_example() {
    assert_eq!(size_groups(&vec![10, 20, 10, 30, 20]), vec![vec![0, 2], vec![1, 4]]);
}

#[test]
fn key_groups_example() {
    assert_eq!(key_groups(&strings(&["x", "y", "x", "z", "y", "x"])), vec![vec![0, 2, 5], vec![1, 4]]);
    assert_eq!(key_groups(&strings(&["x"])), Vec::<Vec<usize>>::new());
}

#[test]
fn wasted_bytes_values() {
    assert_eq!(wasted_bytes(100, 3), 200);
    assert_eq!(wasted_bytes(100, 1), 0);
    assert_eq!(wasted_bytes(u64::MAX, 2), u64::MAX);
}

#[test]
fn size_unit_thresholds() {
    assert_eq!(size_unit(0), SizeUnit::Bytes);
    assert_eq!(size_unit(1023), SizeUnit::Bytes);
    assert_eq!(size_unit(1024), SizeUnit::Kilobytes);
    assert_eq!(size_unit(1024 * 1024 - 1), SizeUnit::Kilobytes);
    assert_eq!(size_unit(1024 * 1024), SizeUnit::Megabytes);
    assert_eq!(size_unit(1024 * 1024 * 1024), SizeUnit::Gigabytes);
    assert_eq!(size_unit(u64::MAX), SizeUnit::Gigabytes);
}

#[test]
fn size_unit_range_law() {
    for bytes in [1u64, 1023, 1024, 5000, 1048575, 1048576, 3 << 30] {
        let u = size_unit(bytes);
        if u != SizeUnit::Bytes {
            assert!(u.divisor() <= bytes);
        }
        if u != SizeUnit::Gigabytes {
            assert!(bytes < 1024 * u.divisor());
        }
    }
}

#[test]
fn size_unit_symbols() {
    assert_eq!(SizeUnit::Bytes.symbol(), "B");
    assert_eq!(SizeUnit::Kilobytes.symbol(), "KB");
    assert_eq!(SizeUnit::Megabytes.symbol(), "MB");
    assert_eq!(SizeUnit::Gigabytes.symbol(), "GB");
    assert_eq!(SizeUnit::Gigabytes.divisor(), 1 << 30);
}

#[test]
fn union_order_does_not_change_partition() {
    let mut a = UnionFind::new(4);
    let mut b = UnionFind::new(4);
    a.union(0, 1);
    b.union(0, 1);
    a.union(1, 2);
    b.union(2, 1);
    for i in 0..4 {
        for j in 0..4 {
            assert_eq!(a.find(i) == a.find(j), b.find(i) == b.find(j));
        }
    }
}

#[test]
fn representatives_are_their_own() {
    let mut uf = UnionFind::new(6);
    uf.union(0, 5);
    uf.union(4, 5);
    uf.union(1, 2);
    for i in 0..6 {
        let r = uf.find(i);
        assert_eq!(uf.find(r), r);
    }
}

#[test]
fn unique_extension_is_never_grouped() {
    let keys = strings(&["jpg", "png", "jpg", "gif", "jpg"]);
    let pairs = candidate_pairs(&keys);
    let flags = vec![true; pairs.len()];
    let groups = similar_groups(keys.len(), &pairs, &flags);
    assert_eq!(groups, vec![vec![0, 2, 4]]);
    for g in &groups {
        assert!(!g.contains(&1));
        assert!(!g.contains(&3));
    }
}

#[test]
fn more_flags_give_coarser_groups() {
    let pairs = vec![(0, 1), (1, 2), (2, 3), (3, 4)];
    let few = vec![true, false, false, true];
    let more = vec![true, true, false, true];
    assert_eq!(similar_groups(5, &pairs, &few), vec![vec![0, 1], vec![3, 4]]);
    assert_eq!(similar_groups(5, &pairs, &more), vec![vec![0, 1, 2], vec![3, 4]]);
}

#[test]
fn find_again_gives_the_same_representative() {
    let mut uf = UnionFind::new(6);
    uf.union(0, 1);
    uf.union(2, 3);
    uf.union(0, 2);
    uf.union(4, 5);
    uf.union(4, 0);
    let r = uf.find(3);
    assert_eq!(uf.find(3), r);
    assert_eq!(uf.find(3), r);
    assert_eq!(uf.find(5), r);
}

#[test]
fn byte_counts_as_text() {
    assert_eq!(byte_count_text(0), "0 B");
    assert_eq!(byte_count_text(7), "7 B");
    assert_eq!(byte_count_text(1023), "1023 B");
}

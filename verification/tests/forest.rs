use ccl_8k::forest::{find_and_compress, find_root, unite, BACKGROUND};

#[test]
fn background_label_is_minus_one() {
    assert_eq!(BACKGROUND, -1);
}

#[test]
fn find_root_follows_the_parent_chain() {
    let labels = vec![0, 0, 1, -1, 2, 5];
    assert_eq!(find_root(&labels, 0), 0);
    assert_eq!(find_root(&labels, 2), 0);
    assert_eq!(find_root(&labels, 4), 0);
    assert_eq!(find_root(&labels, 5), 5);
    assert_eq!(find_root(&labels, 3), -1);
    assert_eq!(labels, vec![0, 0, 1, -1, 2, 5]);
}

#[test]
fn compression_points_the_whole_chain_at_the_root() {
    let mut labels = vec![0, 0, 1, -1, 2, 5, 4];
    let root = find_and_compress(&mut labels, 4);
    assert_eq!(root, 0);
    assert_eq!(labels, vec![0, 0, 0, -1, 0, 5, 4]);
}

#[test]
fn compression_of_a_background_cell_changes_nothing() {
    let mut labels = vec![0, 0, 1, -1];
    assert_eq!(find_and_compress(&mut labels, 3), -1);
    assert_eq!(labels, vec![0, 0, 1, -1]);
}

#[test]
fn unite_hangs_the_later_root_under_the_earlier() {
    let mut labels = vec![0, 1, 2, 3];
    unite(&mut labels, 3, 1);
    assert_eq!(labels, vec![0, 1, 2, 1]);
    unite(&mut labels, 2, 3);
    assert_eq!(labels, vec![0, 1, 1, 1]);
    unite(&mut labels, 0, 2);
    assert_eq!(labels, vec![0, 0, 1, 1]);
    assert_eq!(find_root(&labels, 3), 0);
}

#[test]
fn unite_compresses_both_chains() {
    let mut labels = vec![0, 0, 1, 3, 3, 4];
    unite(&mut labels, 2, 5);
    assert_eq!(labels, vec![0, 0, 0, 0, 3, 3]);
}

#[test]
fn unite_within_one_tree_only_compresses() {
    let mut labels = vec![0, 0, 1, 2];
    unite(&mut labels, 3, 1);
    assert_eq!(labels, vec![0, 0, 0, 0]);
}

#[test]
fn unite_with_a_background_cell_does_nothing() {
    let mut labels = vec![0, -1, 0, 2];
    let before = labels.clone();
    unite(&mut labels, 1, 3);
    assert_eq!(labels, before);
    unite(&mut labels, 3, 1);
    assert_eq!(labels, before);
}

#[test]
fn unite_never_raises_a_label() {
    let mut labels = vec![0, 1, 2, 3, 4, 5, 6, 7];
    let pairs = [(7, 6), (5, 4), (6, 4), (3, 2), (1, 0), (2, 0), (4, 0)];
    for &(a, b) in &pairs {
        let before = labels.clone();
        unite(&mut labels, a, b);
        for k in 0..labels.len() {
            assert!(labels[k] <= before[k]);
            assert!(labels[k] >= 0);
        }
    }
    for k in 0..labels.len() {
        assert_eq!(find_root(&labels, k), 0);
    }
}

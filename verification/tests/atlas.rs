use toroidal_prime_clock::atlas_correspondence::{
    atlas_label_to_n, compute_atlas_labels, n_to_atlas_label, AtlasLabel, ATLAS_TO_R_INDEX,
    R_TO_ATLAS_INDEX,
};
use toroidal_prime_clock::parameters::R_CARDINALITY;
use toroidal_prime_clock::r360::ELEMENTS;

#[test]
fn atlas_label_count_is_96() {
    let labels = compute_atlas_labels();
    assert_eq!(labels.len(), R_CARDINALITY);
    assert_eq!(R_CARDINALITY, 96);
}

#[test]
fn atlas_labels_pairwise_distinct() {
    let labels = compute_atlas_labels();
    for i in 0..R_CARDINALITY {
        for j in (i + 1)..R_CARDINALITY {
            assert_ne!(labels[i], labels[j], "duplicate at ({i}, {j})");
        }
    }
}

#[test]
fn atlas_label_coordinate_ranges() {
    for &l in &compute_atlas_labels() {
        assert!((0..=1).contains(&l.e1));
        assert!((0..=1).contains(&l.e2));
        assert!((0..=1).contains(&l.e3));
        assert!((0..=1).contains(&l.e6));
        assert!((0..=1).contains(&l.e7));
        assert!((-1..=1).contains(&l.d45));
    }
}

#[test]
fn iteration_order_matches_index_decomposition() {
    for (i, &l) in compute_atlas_labels().iter().enumerate() {
        let expected_d45 = (i as i32 % 3) - 1;
        let expected_e7 = (i / 3) % 2;
        let expected_e6 = (i / 6) % 2;
        let expected_e3 = (i / 12) % 2;
        let expected_e2 = (i / 24) % 2;
        let expected_e1 = (i / 48) % 2;
        assert_eq!(l.d45 as i32, expected_d45, "d45 at index {i}");
        assert_eq!(l.e7 as usize, expected_e7, "e7 at index {i}");
        assert_eq!(l.e6 as usize, expected_e6, "e6 at index {i}");
        assert_eq!(l.e3 as usize, expected_e3, "e3 at index {i}");
        assert_eq!(l.e2 as usize, expected_e2, "e2 at index {i}");
        assert_eq!(l.e1 as usize, expected_e1, "e1 at index {i}");
    }
}

#[test]
fn mirror_is_involution() {
    for &l in &compute_atlas_labels() {
        assert_eq!(l.mirror().mirror(), l);
    }
}

#[test]
fn mirror_permutes_atlas_labels() {
    for &l in &compute_atlas_labels() {
        let m = l.mirror();
        assert!(atlas_label_to_n(m).is_some(), "mirror of {l:?} not in ATLAS_LABELS");
    }
}

#[test]
fn permutations_are_mutual_inverses() {
    for i in 0..R_CARDINALITY {
        assert_eq!(ATLAS_TO_R_INDEX[R_TO_ATLAS_INDEX[i]], i);
    }
    for j in 0..R_CARDINALITY {
        assert_eq!(R_TO_ATLAS_INDEX[ATLAS_TO_R_INDEX[j]], j);
    }
}

#[test]
fn n_to_label_to_n_is_identity() {
    for &n in &ELEMENTS {
        let label = n_to_atlas_label(n).expect("R(360) element must map");
        let n_back = atlas_label_to_n(label).expect("valid label must map back");
        assert_eq!(n, n_back, "round-trip failure at n = {n}");
    }
}

#[test]
fn label_to_n_to_label_is_identity() {
    for &label in &compute_atlas_labels() {
        let n = atlas_label_to_n(label).expect("Atlas vertex must map");
        let label_back = n_to_atlas_label(n).expect("R(360) element must map back");
        assert_eq!(label, label_back, "round-trip failure at {label:?}");
    }
}

#[test]
fn n_to_label_rejects_non_r360() {
    for n in [0u32, 2, 3, 5, 6, 30, 60, 360, 361, 1000] {
        assert!(n_to_atlas_label(n).is_none(), "{n} should not have an Atlas label");
    }
}

#[test]
fn malformed_labels_have_no_member() {
    let bad = [
        AtlasLabel { e1: 2, e2: 0, e3: 0, d45: 0, e6: 0, e7: 0 },
        AtlasLabel { e1: 0, e2: 0, e3: 0, d45: 2, e6: 0, e7: 0 },
        AtlasLabel { e1: 0, e2: 0, e3: 0, d45: -2, e6: 0, e7: 1 },
    ];
    for l in bad {
        assert_eq!(atlas_label_to_n(l), None);
    }
}

#[test]
fn first_and_last_correspondences() {
    assert_eq!(n_to_atlas_label(1), Some(AtlasLabel::new(0, 0, 0, -1, 0, 0)));
    assert_eq!(n_to_atlas_label(359), Some(AtlasLabel::new(1, 1, 1, 1, 1, 1)));
    assert_eq!(atlas_label_to_n(AtlasLabel::new(0, 0, 0, 0, 0, 0)), Some(7));
    assert_eq!(AtlasLabel::new(1, 0, 1, 0, 1, 0).mirror(), AtlasLabel::new(1, 0, 1, 0, 1, 1));
}

#[test]
fn r360_elements_are_coprime_to_30() {
    let derived: Vec<u32> =
        (1u32..=360).filter(|&n| toroidal_prime_clock::arithmetic::gcd(n as u64, 30) == 1).collect();
    assert_eq!(derived, ELEMENTS.to_vec());
}

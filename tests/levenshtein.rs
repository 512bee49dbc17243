use levenshtein_diff::{
    all_edit_scripts, apply_edits, distance, generate_edits, levenshtein_memoization,
    reconstruct_edit_script, DistanceMatrix, EditError, EditOperation, ReconstructionMode,
};

fn non_matches(script: &[EditOperation<u8>]) -> usize {
    script
        .iter()
        .filter(|op| !matches!(op, EditOperation::Match(_, _)))
        .count()
}

#[test]
fn default_distance_test() {
    let s1 = "FLOWER";
    let s2 = "FOLLOWER";

    let expected_dist = 2;

    let (dist, _) = distance(s1.as_bytes(), s2.as_bytes());

    assert_eq!(expected_dist, dist);
}

#[test]
fn flaw_lawn() {
    let (dist, _) = distance("FLAW".as_bytes(), "LAWN".as_bytes());
    assert_eq!(dist, 2);
}

#[test]
fn vectors_of_integers() {
    let v1 = vec![0, 1, 2];
    let v2 = vec![1, 2, 3, 4];
    let (dist, _) = distance(&v1, &v2);
    assert_eq!(dist, 3);
}

#[test]
fn kitten_sitting_round_trip() {
    let source = "KITTEN".as_bytes();
    let target = "SITTING".as_bytes();
    let (dist, table) = distance(source, target);
    assert_eq!(dist, 3);
    let script = generate_edits(source, target, &table).unwrap();
    assert_eq!(non_matches(&script), 3);
    assert_eq!(apply_edits(source, &script), target.to_vec());
}

#[test]
fn empty_source_gives_insertions() {
    let source = "".as_bytes();
    let target = "ABC".as_bytes();
    let (dist, table) = distance(source, target);
    assert_eq!(dist, 3);
    let script = generate_edits(source, target, &table).unwrap();
    assert_eq!(
        script,
        vec![
            EditOperation::Insert(0, b'A'),
            EditOperation::Insert(1, b'B'),
            EditOperation::Insert(2, b'C'),
        ]
    );
}

#[test]
fn equal_sequences_give_matches() {
    let source = "ABC".as_bytes();
    let (dist, table) = distance(source, source);
    assert_eq!(dist, 0);
    let script = generate_edits(source, source, &table).unwrap();
    assert_eq!(
        script,
        vec![
            EditOperation::Match(0, 0),
            EditOperation::Match(1, 1),
            EditOperation::Match(2, 2),
        ]
    );
}

#[test]
fn empty_target_gives_deletions() {
    let source = "XYZW".as_bytes();
    let target = "".as_bytes();
    let (dist, table) = distance(source, target);
    assert_eq!(dist, 4);
    let script = generate_edits(source, target, &table).unwrap();
    assert_eq!(
        script,
        vec![
            EditOperation::Delete(0),
            EditOperation::Delete(1),
            EditOperation::Delete(2),
            EditOperation::Delete(3),
        ]
    );
    assert!(apply_edits(source, &script).is_empty());
}

#[test]
fn both_empty() {
    let empty: Vec<u8> = Vec::new();
    let (dist, table) = distance(&empty, &empty);
    assert_eq!(dist, 0);
    assert_eq!(table.rows(), 1);
    assert_eq!(table.cols(), 1);
    assert_eq!(table.get(0, 0), 0);
    let script = generate_edits(&empty, &empty, &table).unwrap();
    assert!(script.is_empty());
    let all = all_edit_scripts(&empty, &empty, &table).unwrap();
    assert_eq!(all.len(), 1);
    assert!(all[0].is_empty());
}

#[test]
fn distance_is_symmetric() {
    let pairs = [("FLAW", "LAWN"), ("KITTEN", "SITTING"), ("", "ABC"), ("SUNDAY", "SATURDAY")];
    for (a, b) in pairs {
        let (ab, _) = distance(a.as_bytes(), b.as_bytes());
        let (ba, _) = distance(b.as_bytes(), a.as_bytes());
        assert_eq!(ab, ba);
    }
}

#[test]
fn reversed_direction_swaps_insertions_and_deletions() {
    let (_, forward_table) = distance("AB".as_bytes(), "ABC".as_bytes());
    let forward = generate_edits("AB".as_bytes(), "ABC".as_bytes(), &forward_table).unwrap();
    assert_eq!(forward.last(), Some(&EditOperation::Insert(2, b'C')));
    let (_, backward_table) = distance("ABC".as_bytes(), "AB".as_bytes());
    let backward = generate_edits("ABC".as_bytes(), "AB".as_bytes(), &backward_table).unwrap();
    assert_eq!(backward.last(), Some(&EditOperation::Delete(2)));
}

#[test]
fn distance_to_itself_is_zero() {
    for a in ["", "A", "MISSISSIPPI"] {
        let (d, table) = distance(a.as_bytes(), a.as_bytes());
        assert_eq!(d, 0);
        let script = generate_edits(a.as_bytes(), a.as_bytes(), &table).unwrap();
        assert!(script.iter().all(|op| matches!(op, EditOperation::Match(_, _))));
        assert_eq!(script.len(), a.len());
    }
}

#[test]
fn triangle_inequality_holds() {
    let words = ["FLAW", "LAWN", "KITTEN", "SITTING", "", "SATURDAY"];
    for a in words {
        for b in words {
            for c in words {
                let (ac, _) = distance(a.as_bytes(), c.as_bytes());
                let (ab, _) = distance(a.as_bytes(), b.as_bytes());
                let (bc, _) = distance(b.as_bytes(), c.as_bytes());
                assert!(ac <= ab + bc);
            }
        }
    }
}

#[test]
fn boundary_distance_is_length() {
    let s = "HELLO".as_bytes();
    let empty = "".as_bytes();
    assert_eq!(distance(empty, s).0, 5);
    assert_eq!(distance(s, empty).0, 5);
}

#[test]
fn table_holds_prefix_distances() {
    let (dist, table) = distance("FLAW".as_bytes(), "LAWN".as_bytes());
    assert_eq!(table.rows(), 5);
    assert_eq!(table.cols(), 5);
    for j in 0..5 {
        assert_eq!(table.get(0, j), j);
    }
    for i in 0..5 {
        assert_eq!(table.get(i, 0), i);
    }
    assert_eq!(table.get(1, 1), 1);
    assert_eq!(table.get(2, 1), 1);
    assert_eq!(table.get(4, 3), 1);
    assert_eq!(table.get(4, 4), dist);
}

#[test]
fn memoization_matches_distance() {
    let (d1, t1) = levenshtein_memoization("SUNDAY".as_bytes(), "SATURDAY".as_bytes());
    let (d2, _) = distance("SUNDAY".as_bytes(), "SATURDAY".as_bytes());
    assert_eq!(d1, 3);
    assert_eq!(d1, d2);
    assert_eq!(t1.get(6, 8), 3);
}

#[test]
fn round_trip_on_several_pairs() {
    let pairs = [
        ("FLAW", "LAWN"),
        ("KITTEN", "SITTING"),
        ("SUNDAY", "SATURDAY"),
        ("", "ABC"),
        ("ABC", ""),
        ("INTENTION", "EXECUTION"),
    ];
    for (a, b) in pairs {
        let (d, table) = distance(a.as_bytes(), b.as_bytes());
        let script = generate_edits(a.as_bytes(), b.as_bytes(), &table).unwrap();
        assert_eq!(apply_edits(a.as_bytes(), &script), b.as_bytes().to_vec());
        assert_eq!(non_matches(&script), d);
    }
}

#[test]
fn substitution_preferred_on_ties() {
    let (_, table) = distance("A".as_bytes(), "B".as_bytes());
    let script = generate_edits("A".as_bytes(), "B".as_bytes(), &table).unwrap();
    assert_eq!(script, vec![EditOperation::Substitute(0, 0, b'B')]);
}

#[test]
fn all_scripts_of_a_swap() {
    let source = "AB".as_bytes();
    let target = "BA".as_bytes();
    let (d, table) = distance(source, target);
    assert_eq!(d, 2);
    let all = all_edit_scripts(source, target, &table).unwrap();
    assert_eq!(all.len(), 3);
    assert!(all.contains(&vec![
        EditOperation::Substitute(0, 0, b'B'),
        EditOperation::Substitute(1, 1, b'A'),
    ]));
    assert!(all.contains(&vec![
        EditOperation::Insert(0, b'B'),
        EditOperation::Match(0, 1),
        EditOperation::Delete(1),
    ]));
    assert!(all.contains(&vec![
        EditOperation::Delete(0),
        EditOperation::Match(1, 0),
        EditOperation::Insert(1, b'A'),
    ]));
    for script in &all {
        assert_eq!(apply_edits(source, script), target.to_vec());
        assert_eq!(non_matches(script), 2);
    }
}

#[test]
fn all_scripts_are_minimal_and_include_single() {
    let source = "KITTEN".as_bytes();
    let target = "SITTING".as_bytes();
    let (d, table) = distance(source, target);
    let all = all_edit_scripts(source, target, &table).unwrap();
    assert!(!all.is_empty());
    for script in &all {
        assert_eq!(apply_edits(source, script), target.to_vec());
        assert_eq!(non_matches(script), d);
    }
    let single = generate_edits(source, target, &table).unwrap();
    assert!(all.contains(&single));
}

#[test]
fn reconstruct_in_both_modes() {
    let source = "AB".as_bytes();
    let target = "BA".as_bytes();
    let (_, table) = distance(source, target);
    let single = reconstruct_edit_script(source, target, &table, ReconstructionMode::Single).unwrap();
    assert_eq!(single.len(), 1);
    assert_eq!(single[0], generate_edits(source, target, &table).unwrap());
    let all = reconstruct_edit_script(source, target, &table, ReconstructionMode::All).unwrap();
    assert_eq!(all.len(), 3);
}

#[test]
fn mismatched_table_is_rejected() {
    let (_, table) = distance("ABC".as_bytes(), "AB".as_bytes());
    assert_eq!(
        generate_edits("AB".as_bytes(), "AB".as_bytes(), &table),
        Err(EditError::DimensionMismatch)
    );
    assert_eq!(
        all_edit_scripts("ABC".as_bytes(), "ABCD".as_bytes(), &table),
        Err(EditError::DimensionMismatch)
    );
    assert_eq!(
        reconstruct_edit_script("A".as_bytes(), "AB".as_bytes(), &table, ReconstructionMode::Single),
        Err(EditError::DimensionMismatch)
    );
}

#[test]
fn arbitrary_table_still_gives_a_correct_script() {
    let source = "AB".as_bytes();
    let target = "XYZ".as_bytes();
    let table = DistanceMatrix::new(3, 4);
    let script = generate_edits(source, target, &table).unwrap();
    assert_eq!(apply_edits(source, &script), target.to_vec());
}

#[test]
fn matrix_storage() {
    let mut m = DistanceMatrix::new(3, 4);
    assert_eq!(m.rows(), 3);
    assert_eq!(m.cols(), 4);
    for i in 0..3 {
        for j in 0..4 {
            assert_eq!(m.get(i, j), 0);
        }
    }
    m.set(1, 2, 7);
    m.set(2, 3, 9);
    assert_eq!(m.get(1, 2), 7);
    assert_eq!(m.get(2, 3), 9);
    assert_eq!(m.get(2, 1), 0);
    assert_eq!(m.get(0, 2), 0);
}

#[test]
fn apply_edits_writes_each_operation() {
    let source = "AXC".as_bytes();
    let script = vec![
        EditOperation::Match(0, 0),
        EditOperation::Substitute(1, 1, b'B'),
        EditOperation::Delete(2),
        EditOperation::Insert(2, b'D'),
    ];
    assert_eq!(apply_edits(source, &script), "ABD".as_bytes().to_vec());
}

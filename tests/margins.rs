use splitcycle::VotingMarginsGraph;

fn four_candidates() -> VotingMarginsGraph {
    VotingMarginsGraph::build(vec![vec![1, 2, 3], vec![4, 5], vec![6]]).unwrap()
}

#[test]
fn build_rejects_ragged_rows() {
    let r = VotingMarginsGraph::build(vec![vec![1], vec![2, 3]]);
    match r {
        Ok(_) => panic!("a ragged triangle was accepted"),
        Err(e) => assert_eq!(e, "incorrect number of candidates in row 0"),
    }
}

#[test]
fn check_shape_names_first_bad_row() {
    let rows = vec![vec![1, 2], vec![3, 4]];
    assert_eq!(
        VotingMarginsGraph::check_shape(&rows),
        Err("incorrect number of candidates in row 1".to_string())
    );
}

#[test]
fn check_shape_names_row_with_two_digits() {
    let mut rows: Vec<Vec<isize>> = Vec::new();
    for i in 0..13usize {
        rows.push(vec![0; 13 - i]);
    }
    rows[12] = vec![0, 0];
    assert_eq!(
        VotingMarginsGraph::check_shape(&rows),
        Err("incorrect number of candidates in row 12".to_string())
    );
}

#[test]
fn check_shape_accepts_triangles() {
    assert_eq!(VotingMarginsGraph::check_shape(&[]), Ok(()));
    assert_eq!(VotingMarginsGraph::check_shape(&[vec![7]]), Ok(()));
    assert_eq!(
        VotingMarginsGraph::check_shape(&[vec![1, 2, 3], vec![4, 5], vec![6]]),
        Ok(())
    );
}

#[test]
fn index_reads_the_full_matrix() {
    let g = four_candidates();
    assert_eq!(g.index(0, 1), 1);
    assert_eq!(g.index(0, 2), 2);
    assert_eq!(g.index(0, 3), 3);
    assert_eq!(g.index(1, 2), 4);
    assert_eq!(g.index(1, 3), 5);
    assert_eq!(g.index(2, 3), 6);
    assert_eq!(g.index(3, 0), -3);
    assert_eq!(g.index(2, 1), -4);
    assert_eq!(g.index(3, 2), -6);
}

#[test]
fn index_is_antisymmetric_with_zero_diagonal() {
    let g = four_candidates();
    for i in 0..4 {
        assert_eq!(g.index(i, i), 0);
        for j in 0..4 {
            assert_eq!(g.index(i, j), -g.index(j, i));
        }
    }
}

#[test]
fn get_is_absent_out_of_range() {
    let g = four_candidates();
    let n = g.size();
    assert_eq!(n, 4);
    assert_eq!(g.get(n, 0), None);
    assert_eq!(g.get(0, n), None);
    assert_eq!(g.get(n, n), None);
    assert_eq!(g.get(usize::MAX, 1), None);
    assert_eq!(g.get(1, 3), Some(5));
    assert_eq!(g.get(3, 1), Some(-5));
    assert_eq!(g.get(2, 2), Some(0));
}

#[test]
fn new_and_build_agree() {
    let a = VotingMarginsGraph::new(vec![vec![1, -2], vec![3]]);
    let b = VotingMarginsGraph::build(vec![vec![1, -2], vec![3]]).unwrap();
    assert_eq!(a.size(), 3);
    for i in 0..3 {
        for j in 0..3 {
            assert_eq!(a.index(i, j), b.index(i, j));
        }
    }
}

#[test]
fn single_candidate_store() {
    let g = VotingMarginsGraph::build(Vec::new()).unwrap();
    assert_eq!(g.size(), 1);
    assert_eq!(g.get(0, 0), Some(0));
    assert_eq!(g.get(1, 0), None);
}

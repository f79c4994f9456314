use splitcycle::VotingMarginsGraph;

fn uniform(n: usize, value: isize) -> VotingMarginsGraph {
    let mut rows: Vec<Vec<isize>> = Vec::new();
    for i in 0..n - 1 {
        rows.push(vec![value; n - 1 - i]);
    }
    VotingMarginsGraph::build(rows).unwrap()
}

#[test]
fn single_candidate_wins() {
    let g = VotingMarginsGraph::new(Vec::new());
    assert_eq!(g.winners(), vec![0]);
}

#[test]
fn linear_order_has_first_as_only_winner() {
    let n = 5usize;
    let mut rows: Vec<Vec<isize>> = Vec::new();
    for k in 0..n - 1 {
        rows.push(vec![(k + 1) as isize; n - 1 - k]);
    }
    let g = VotingMarginsGraph::build(rows).unwrap();
    assert_eq!(g.winners(), vec![0]);
    let s = g.path_strengths();
    assert_eq!(s[1][0], 0);
    assert_eq!(s[0][4], 1);
    assert_eq!(s[3][4], 4);
}

#[test]
fn all_ties_make_everyone_win() {
    let g = uniform(4, 0);
    assert_eq!(g.winners(), vec![0, 1, 2, 3]);
    for row in g.path_strengths() {
        assert_eq!(row, vec![0, 0, 0, 0]);
    }
}

#[test]
fn three_cycle_discards_weakest_edges() {
    // 0 beats 1 by 1, 1 beats 2 by 1, 2 beats 0 by 3.
    let g = VotingMarginsGraph::build(vec![vec![1, -3], vec![1]]).unwrap();
    assert_eq!(g.index(2, 0), 3);
    let s = g.path_strengths();
    assert_eq!(s[0][1], 1);
    assert_eq!(s[1][2], 1);
    assert_eq!(s[2][0], 3);
    assert_eq!(s[1][0], 1);
    assert_eq!(s[2][1], 1);
    assert_eq!(s[0][2], 1);
    // Only 2 -> 0 survives: its margin 3 exceeds the strongest way back, 0 -> 1 -> 2 at 1.
    assert_eq!(g.winners(), vec![1, 2]);
}

#[test]
fn equal_cycle_has_no_defeats() {
    let g = VotingMarginsGraph::build(vec![vec![1, -1], vec![1]]).unwrap();
    assert_eq!(g.winners(), vec![0, 1, 2]);
}

#[test]
fn condorcet_winner_wins_alone() {
    // 2 beats everyone; 0, 1 and 3 form a cycle among themselves.
    let g = VotingMarginsGraph::build(vec![vec![2, -1, 3], vec![-2, 2], vec![4]]).unwrap();
    assert_eq!(g.winners(), vec![2]);
}

#[test]
fn resolving_twice_gives_the_same_winners() {
    let g = VotingMarginsGraph::build(vec![vec![1, -3], vec![1]]).unwrap();
    let first = g.winners();
    let second = g.winners();
    assert_eq!(first, second);
}

#[test]
fn winners_are_never_empty() {
    let stores = vec![
        VotingMarginsGraph::build(vec![vec![5, -5], vec![5]]).unwrap(),
        VotingMarginsGraph::build(vec![vec![3, -1, 2], vec![4, -6], vec![2]]).unwrap(),
        VotingMarginsGraph::build(vec![vec![-1, -1, -1], vec![-1, -1], vec![-1]]).unwrap(),
        uniform(6, 7),
    ];
    for g in stores {
        assert!(!g.winners().is_empty());
    }
}

#[test]
fn path_strength_covers_direct_edges() {
    let g = VotingMarginsGraph::build(vec![vec![3, -1, 2], vec![4, -6], vec![2]]).unwrap();
    let s = g.path_strengths();
    let n = g.size();
    for i in 0..n {
        for j in 0..n {
            let m = g.index(i, j);
            if m > 0 {
                assert!(s[i][j] >= m);
            }
        }
    }
}

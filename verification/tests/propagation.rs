use ground_segmentation::propagation::{propagate_ground, spreading_neighbours};

#[test]
fn growth_follows_chains() {
    // 0 -> 1 -> 2, 3 isolated, 4 reachable only from 3
    let nb = vec![vec![1], vec![2], vec![], vec![4], vec![]];
    let mut ground = vec![false; 5];
    propagate_ground(&nb, &[0], &mut ground);
    assert_eq!(ground, vec![false, true, true, false, false]);
}

#[test]
fn seeds_are_not_marked_themselves() {
    let nb = vec![vec![], vec![0]];
    let mut ground = vec![false; 2];
    propagate_ground(&nb, &[0], &mut ground);
    assert_eq!(ground, vec![false, false]);
}

#[test]
fn initial_ground_blocks_growth() {
    // 1 is ground already: it is not expanded, so 2 stays unmarked
    let nb = vec![vec![1], vec![2], vec![]];
    let mut ground = vec![false, true, false];
    propagate_ground(&nb, &[0], &mut ground);
    assert_eq!(ground, vec![false, true, false]);
}

#[test]
fn cycles_terminate() {
    let nb = vec![vec![1, 2], vec![0, 2], vec![0, 1]];
    let mut ground = vec![false; 3];
    propagate_ground(&nb, &[0, 0], &mut ground);
    assert_eq!(ground, vec![true, true, true]);
}

#[test]
fn second_run_changes_nothing() {
    let nb = vec![vec![1, 3], vec![2], vec![0], vec![], vec![0]];
    let mut ground = vec![false; 5];
    propagate_ground(&nb, &[4], &mut ground);
    let once = ground.clone();
    assert_eq!(once, vec![true, true, true, true, false]);
    propagate_ground(&nb, &[4], &mut ground);
    assert_eq!(ground, once);
}

#[test]
fn no_seeds_no_growth() {
    let nb = vec![vec![1], vec![0]];
    let mut ground = vec![false, false];
    propagate_ground(&nb, &[], &mut ground);
    assert_eq!(ground, vec![false, false]);
}

#[test]
fn spreading_needs_three_neighbours() {
    let nbs = vec![vec![1, 2], vec![0, 2, 3], vec![0, 1, 2, 3]];
    let passes = vec![vec![true, true], vec![true, false, true], vec![false, false, false, false]];
    assert_eq!(spreading_neighbours(&nbs, &passes), vec![vec![], vec![0, 3], vec![]]);
}

#[test]
fn spreading_then_growth() {
    let nbs = vec![vec![0, 1, 2], vec![1, 0, 3], vec![2, 0, 1], vec![3, 1, 2]];
    let passes = vec![
        vec![false, true, false],
        vec![false, false, true],
        vec![true, true, true],
        vec![false, false, false],
    ];
    let lists = spreading_neighbours(&nbs, &passes);
    let mut ground = vec![false; 4];
    propagate_ground(&lists, &[0], &mut ground);
    assert_eq!(ground, vec![false, true, false, true]);
}

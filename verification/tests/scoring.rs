use ground_segmentation::scoring::{mark_ground, score_classification, GROUND_CLASS};

#[test]
fn confusion_counts_and_marks() {
    let ground = [true, true, false, false, true];
    let classes = [2u8, 1, 2, 1, 2];
    let mut wrong = vec![0u8; 5];
    let c = score_classification(&ground, &classes, &mut wrong);
    assert_eq!(c.true_positives, 2);
    assert_eq!(c.false_positives, 1);
    assert_eq!(c.false_negatives, 1);
    assert_eq!(wrong, vec![0, 1, 2, 0, 0]);
    // flagged ground = tp + fp, reference ground = tp + fn
    assert_eq!(c.true_positives + c.false_positives, 3);
    assert_eq!(c.true_positives + c.false_negatives, 3);
}

#[test]
fn scoring_stops_at_shorter_input() {
    let ground = [true, false, true];
    let classes = [GROUND_CLASS];
    let mut wrong = vec![7u8, 7, 7];
    let c = score_classification(&ground, &classes, &mut wrong);
    assert_eq!((c.true_positives, c.false_positives, c.false_negatives), (1, 0, 0));
    assert_eq!(wrong, vec![7, 7, 7]);
}

#[test]
fn correct_points_keep_their_mark() {
    let ground = [false, true];
    let classes = [1u8, 2];
    let mut wrong = vec![5u8, 6];
    let c = score_classification(&ground, &classes, &mut wrong);
    assert_eq!((c.true_positives, c.false_positives, c.false_negatives), (1, 0, 0));
    assert_eq!(wrong, vec![5, 6]);
}

#[test]
fn marking_sets_listed_points() {
    let mut ground = vec![false, true, false, false];
    mark_ground(&mut ground, &[2, 2, 0]);
    assert_eq!(ground, vec![true, true, true, false]);
}

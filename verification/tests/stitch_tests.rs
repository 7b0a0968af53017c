use implicit::stitch::{
    assert_same, is_equal, pick_candidate, query_decision, recombine_paths, reverse_and_return,
    segments_to_prune, DqtId, Neighbors, PathSegment, QueryAction, SameMismatch,
};

fn seg(path: Vec<(i32, i32)>, closed: bool) -> PathSegment<(i32, i32)> {
    PathSegment { path, closed }
}

#[test]
fn first_last_and_reverse() {
    let s = seg(vec![(0, 0), (1, 1), (2, 2)], false);
    assert_eq!(s.first(), (0, 0));
    assert_eq!(s.last(), (2, 2));
    let r = reverse_and_return(s);
    assert_eq!(r.path, vec![(2, 2), (1, 1), (0, 0)]);
    assert!(!r.closed);
}

#[test]
fn candidates() {
    let ids = [DqtId(4), DqtId(7)];
    assert_eq!(pick_candidate(&[], false), Ok(None));
    assert_eq!(pick_candidate(&ids[..1], false), Ok(Some(DqtId(4))));
    assert_eq!(pick_candidate(&ids, false), Err(()));
    assert_eq!(pick_candidate(&ids, true), Ok(Some(DqtId(4))));
}

#[test]
fn decisions_only_starts() {
    let a = DqtId(1);
    let b = DqtId(2);
    assert_eq!(query_decision(false, Ok(Some(a)), Ok(Some(b)), true, true), QueryAction::MarkAmbiguous);
    assert_eq!(query_decision(false, Ok(Some(a)), Err(()), true, false), QueryAction::Take(a));
    assert_eq!(query_decision(false, Ok(None), Ok(Some(b)), true, false), QueryAction::Stop);
    assert_eq!(query_decision(false, Err(()), Ok(None), true, false), QueryAction::MarkAmbiguous);
    // Going backwards the ends play the part of the starts.
    assert_eq!(query_decision(true, Ok(None), Ok(Some(b)), true, false), QueryAction::Take(b));
}

#[test]
fn decisions_both_directions() {
    let a = DqtId(1);
    let b = DqtId(2);
    assert_eq!(query_decision(false, Ok(None), Ok(None), false, false), QueryAction::Stop);
    assert_eq!(query_decision(false, Ok(Some(a)), Ok(Some(b)), false, true), QueryAction::Take(a));
    assert_eq!(query_decision(false, Ok(Some(a)), Ok(Some(b)), false, false), QueryAction::MarkAmbiguous);
    assert_eq!(query_decision(false, Ok(Some(a)), Ok(None), false, false), QueryAction::Take(a));
    assert_eq!(query_decision(false, Ok(None), Ok(Some(b)), false, false), QueryAction::TakeReversed(b));
    assert_eq!(query_decision(false, Ok(Some(a)), Err(()), false, true), QueryAction::MarkAmbiguous);
    assert_eq!(query_decision(true, Ok(Some(a)), Ok(None), false, false), QueryAction::TakeReversed(a));
}

fn report(id: u32, sf: bool, sb: bool, eb: bool, ef: bool) -> Neighbors {
    Neighbors { id: DqtId(id), start_forward: sf, start_backward: sb, end_backward: eb, end_forward: ef }
}

#[test]
fn pruning_decisions() {
    let reports = [
        report(0, true, false, true, false),
        report(1, false, true, false, true),
        report(2, true, false, false, false),
        report(3, false, false, true, true),
    ];
    let only_starts: Vec<u32> = segments_to_prune(&reports, true).iter().map(|d| d.0).collect();
    assert_eq!(only_starts, vec![1, 2, 3]);
    let both: Vec<u32> = segments_to_prune(&reports, false).iter().map(|d| d.0).collect();
    assert_eq!(both, vec![2, 3]);
}

#[test]
fn recombine_drops_shared_points() {
    let chain = vec![
        seg(vec![(0, 0), (1, 1)], false),
        seg(vec![(1, 1), (2, 2), (3, 3)], false),
        seg(vec![(3, 3)], false),
        seg(vec![(3, 3), (4, 4)], false),
    ];
    assert_eq!(recombine_paths(&chain), vec![(0, 0), (1, 1), (2, 2), (3, 3), (4, 4)]);
}

#[test]
fn equality_up_to_rotation_and_direction() {
    let a = seg(vec![(0, 0), (1, 0), (1, 1)], true);
    let rotated = seg(vec![(1, 1), (0, 0), (1, 0)], true);
    let reversed = seg(vec![(1, 1), (1, 0), (0, 0)], true);
    let open = seg(vec![(0, 0), (1, 0), (1, 1)], false);
    assert!(is_equal(&a, &rotated, false));
    assert!(!is_equal(&a, &reversed, false));
    assert!(is_equal(&a, &reversed, true));
    assert!(!is_equal(&a, &open, true));
}

#[test]
fn same_collections() {
    let a = seg(vec![(0, 0), (1, 0)], false);
    let b = seg(vec![(5, 5), (6, 6)], false);
    let actual = vec![seg(vec![(6, 6), (5, 5)], false), seg(vec![(1, 0), (0, 0)], false)];
    assert_eq!(assert_same(&actual, &[seg(vec![(0, 0), (1, 0)], false), seg(vec![(5, 5), (6, 6)], false)], true), Ok(()));
    let expected = vec![a, b];
    // Without reversal the paths are only rotations of each other here,
    // which for two points is the same as the reversal.
    assert_eq!(assert_same(&actual, &expected, false), Ok(()));
    let other = vec![seg(vec![(0, 0), (1, 0)], false), seg(vec![(7, 7), (6, 6)], false)];
    assert_eq!(assert_same(&other, &expected, true), Err(SameMismatch::NotFound(1)));
    assert_eq!(
        assert_same(&other[..1], &expected, true),
        Err(SameMismatch::WrongLengths { actual: 1, expected: 2 })
    );
}

use implicit::graph_stitch::select_loops;
use implicit::routes::select_route;
use implicit::stitch::{
    combine_candidates, nearest_count, plain_query_decision, worth_keeping, DqtId, PathSegment,
    QueryAction,
};

#[test]
fn loops_sharing_items_are_dropped() {
    let loops = vec![vec![0, 1], vec![1, 2], vec![2, 3], vec![4]];
    assert_eq!(select_loops(&loops, 5), vec![true, false, true, true]);
}

#[test]
fn kept_loops_never_overlap() {
    let loops = vec![vec![3, 4, 5], vec![5, 6], vec![0, 1], vec![1, 3], vec![6, 7]];
    let keep = select_loops(&loops, 8);
    assert_eq!(keep, vec![true, false, true, false, true]);
    let mut seen = vec![false; 8];
    for (l, k) in loops.iter().zip(keep.iter()) {
        if *k {
            for &x in l {
                assert!(!seen[x]);
                seen[x] = true;
            }
        }
    }
}

#[test]
fn no_loops_nothing_kept() {
    let loops: Vec<Vec<usize>> = vec![];
    assert_eq!(select_loops(&loops, 3), Vec::<bool>::new());
    let loops = vec![vec![], vec![0]];
    assert_eq!(select_loops(&loops, 1), vec![true, true]);
}

#[test]
fn route_with_most_captures_wins() {
    assert_eq!(select_route(&[]), None);
    assert_eq!(select_route(&[(0, Some(1)), (1, Some(3)), (2, Some(2))]), Some(1));
    assert_eq!(select_route(&[(0, Some(2)), (1, Some(2))]), Some(0));
    assert_eq!(select_route(&[(4, Some(0)), (7, None), (9, Some(1))]), Some(9));
    assert_eq!(select_route(&[(4, Some(2)), (7, None)]), Some(4));
}

#[test]
fn plain_decisions() {
    let a = Some(DqtId(1));
    let b = Some(DqtId(2));
    assert_eq!(plain_query_decision(false, a, None, false, false), QueryAction::Take(DqtId(1)));
    assert_eq!(plain_query_decision(true, a, None, false, false), QueryAction::TakeReversed(DqtId(1)));
    assert_eq!(plain_query_decision(true, a, None, true, false), QueryAction::Stop);
    assert_eq!(plain_query_decision(false, None, b, false, false), QueryAction::TakeReversed(DqtId(2)));
    assert_eq!(plain_query_decision(false, None, b, true, false), QueryAction::Stop);
    assert_eq!(plain_query_decision(false, None, None, false, true), QueryAction::Stop);
    assert_eq!(plain_query_decision(false, a, b, false, false), QueryAction::Stop);
    assert_eq!(plain_query_decision(false, a, b, false, true), QueryAction::Take(DqtId(1)));
    assert_eq!(plain_query_decision(true, a, b, false, true), QueryAction::Take(DqtId(2)));
}

#[test]
fn ambiguous_lists_give_no_candidates() {
    let a = Some(DqtId(5));
    let b = Some(DqtId(6));
    assert_eq!(combine_candidates(Ok(a), Ok(b)), (a, b));
    assert_eq!(combine_candidates(Ok(a), Ok(None)), (a, None));
    assert_eq!(combine_candidates(Err(()), Ok(b)), (None, None));
    assert_eq!(combine_candidates(Ok(a), Err(())), (None, None));
}

#[test]
fn nearest_counts_the_ties_with_the_first() {
    assert_eq!(nearest_count::<u32>(&[]), 0);
    assert_eq!(nearest_count(&[3u32, 3, 3, 4, 3]), 3);
    assert_eq!(nearest_count(&[1u32, 2]), 1);
    assert_eq!(nearest_count(&[7u32, 7]), 2);
}

#[test]
fn chains_need_two_points() {
    let seg = |n: usize| PathSegment { path: vec![0u8; n], closed: false };
    assert!(!worth_keeping::<u8>(&vec![]));
    assert!(!worth_keeping(&vec![seg(1)]));
    assert!(!worth_keeping(&vec![seg(0), seg(1), seg(0)]));
    assert!(worth_keeping(&vec![seg(1), seg(1)]));
    assert!(worth_keeping(&vec![seg(0), seg(3)]));
}

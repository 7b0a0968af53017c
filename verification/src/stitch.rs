use vstd::prelude::*;
use vstd::std_specs::cmp::PartialEqSpec;
use crate::shift::{elementwise_eq, is_shifted_of, rotate_left};

verus! {

/// The key under which the dual quad tree files a path segment.
#[derive(Clone, Copy, Hash, PartialEq, Eq, Structural, Debug)]
pub struct DqtId(pub u32);

/// A polyline that may be merged with other polylines. `closed` is true when
/// the end of the path meets its beginning.
#[derive(Debug)]
pub struct PathSegment<P> {
    pub path: Vec<P>,
    pub closed: bool,
}

impl<P: Copy> PathSegment<P> {
    /// The first point of the path.
    pub fn first(&self) -> (r: P)
        requires
            self.path@.len() > 0,
        ensures
            r == self.path@[0],
    {
        self.path[0]
    }

    /// The last point of the path.
    pub fn last(&self) -> (r: P)
        requires
            self.path@.len() > 0,
        ensures
            r == self.path@.last(),
    {
        self.path[self.path.len() - 1]
    }
}

/// `v` with its path reversed.
pub fn reverse_and_return<P>(v: PathSegment<P>) -> (r: PathSegment<P>)
    ensures
        r.path@ == v.path@.reverse(),
        r.closed == v.closed,
{
    let mut v = v;
    v.path.as_mut_slice().reverse();
    v
}

/// What the candidates found at one end of a chain ask the dual quad tree
/// to do.
#[derive(PartialEq, Eq, Structural, Debug, Clone, Copy)]
pub enum QueryAction {
    /// Remove the segment and append it as it is.
    Take(DqtId),
    /// Remove the segment and append it reversed.
    TakeReversed(DqtId),
    /// Record the query point as ambiguous and stop the chain.
    MarkAmbiguous,
    /// Stop the chain.
    Stop,
}

/// The decision of a query in the forward direction, given the candidate
/// among segments that start (`start`) and that end (`end`) near the query
/// point; `Err` stands for several candidates.
pub open spec fn decide_spec(
    start: Result<Option<DqtId>, ()>,
    end: Result<Option<DqtId>, ()>,
    only_starts: bool,
    allow_ambiguous: bool,
) -> QueryAction {
    if only_starts {
        match (start, end) {
            (Ok(Some(_)), Ok(Some(_))) => QueryAction::MarkAmbiguous,
            (Ok(Some(a)), _) => QueryAction::Take(a),
            (Ok(None), _) => QueryAction::Stop,
            (Err(_), _) => QueryAction::MarkAmbiguous,
        }
    } else {
        match (start, end) {
            (Ok(None), Ok(None)) => QueryAction::Stop,
            (Ok(Some(a)), Ok(Some(_))) => if allow_ambiguous {
                QueryAction::Take(a)
            } else {
                QueryAction::MarkAmbiguous
            },
            (Ok(Some(a)), Ok(None)) => QueryAction::Take(a),
            (Ok(None), Ok(Some(b))) => QueryAction::TakeReversed(b),
            _ => QueryAction::MarkAmbiguous,
        }
    }
}

/// Decides how a chain continues at a query point. Going backwards
/// (`should_swap`) the roles of starts and ends are exchanged.
pub fn query_decision(
    should_swap: bool,
    start: Result<Option<DqtId>, ()>,
    end: Result<Option<DqtId>, ()>,
    only_starts: bool,
    allow_ambiguous: bool,
) -> (r: QueryAction)
    ensures
        r == if should_swap {
            decide_spec(end, start, only_starts, allow_ambiguous)
        } else {
            decide_spec(start, end, only_starts, allow_ambiguous)
        },
{
    let (start, end) = if should_swap {
        (end, start)
    } else {
        (start, end)
    };
    if only_starts {
        match (start, end) {
            (Ok(Some(_)), Ok(Some(_))) => QueryAction::MarkAmbiguous,
            (Ok(Some(a)), _) => QueryAction::Take(a),
            (Ok(None), _) => QueryAction::Stop,
            (Err(_), _) => QueryAction::MarkAmbiguous,
        }
    } else {
        match (start, end) {
            (Ok(None), Ok(None)) => QueryAction::Stop,
            (Ok(Some(a)), Ok(Some(_))) => if allow_ambiguous {
                QueryAction::Take(a)
            } else {
                QueryAction::MarkAmbiguous
            },
            (Ok(Some(a)), Ok(None)) => QueryAction::Take(a),
            (Ok(None), Ok(Some(b))) => QueryAction::TakeReversed(b),
            _ => QueryAction::MarkAmbiguous,
        }
    }
}

/// What a query decides at a point, read from the candidates: `lead` are
/// those the chain would continue through as they are (starts going
/// forward, ends going backward), `trail` those it would continue through
/// reversed. Wherever a candidate list the query looks at is ambiguous the
/// point is marked ambiguous and nothing is taken: unless `only_starts`
/// that is either list, with `only_starts` the leading one, the other
/// being ignored. A segment is taken as it is only when it is the leading
/// candidate, reversed only when the reversed ones may be used and there is
/// no leading candidate, and the chain stops only when there is no leading
/// candidate and no usable trailing one.
pub proof fn lemma_query_decision(
    should_swap: bool,
    start: Result<Option<DqtId>, ()>,
    end: Result<Option<DqtId>, ()>,
    only_starts: bool,
    allow_ambiguous: bool,
)
    ensures
        ({
            let lead = if should_swap {
                end
            } else {
                start
            };
            let trail = if should_swap {
                start
            } else {
                end
            };
            let r = if should_swap {
                decide_spec(end, start, only_starts, allow_ambiguous)
            } else {
                decide_spec(start, end, only_starts, allow_ambiguous)
            };
            &&& !only_starts && (start is Err || end is Err) ==> r == QueryAction::MarkAmbiguous
            &&& only_starts && lead is Err ==> r == QueryAction::MarkAmbiguous
            &&& forall|a: DqtId| r == QueryAction::Take(a) ==> lead == Ok::<Option<DqtId>, ()>(Some(a))
            &&& forall|b: DqtId| r == QueryAction::TakeReversed(b) ==> {
                &&& !only_starts
                &&& lead == Ok::<Option<DqtId>, ()>(None)
                &&& trail == Ok::<Option<DqtId>, ()>(Some(b))
            }
            &&& r == QueryAction::Stop ==> {
                &&& lead == Ok::<Option<DqtId>, ()>(None)
                &&& (only_starts || trail == Ok::<Option<DqtId>, ()>(None))
            }
        }),
{
}

/// Which segments one pruning pass removes, report by report: none of an
/// empty list, and a further report adds its segment exactly when one of
/// its ends cannot continue. Without `only_starts` an end continues when
/// any segment starts or ends near it, since a neighbour may be reversed;
/// with `only_starts` the start continues only through a segment ending
/// near it and the end only through a segment starting near it.
pub proof fn lemma_prune_each_end(reports: Seq<Neighbors>, n: Neighbors)
    ensures
        prunable(Seq::<Neighbors>::empty(), false) == Seq::<DqtId>::empty(),
        prunable(Seq::<Neighbors>::empty(), true) == Seq::<DqtId>::empty(),
        prunable(reports.push(n), false) == prunable(reports, false) + if (n.start_forward
            || n.start_backward) && (n.end_forward || n.end_backward) {
            Seq::<DqtId>::empty()
        } else {
            seq![n.id]
        },
        prunable(reports.push(n), true) == prunable(reports, true) + if n.start_forward
            && n.end_backward {
            Seq::<DqtId>::empty()
        } else {
            seq![n.id]
        },
{
    let all = reports.push(n);
    assert(all.drop_last() =~= reports);
    assert(all.last() == n);
    assert(prunable(reports, false) + Seq::<DqtId>::empty() =~= prunable(reports, false));
    assert(prunable(reports, true) + Seq::<DqtId>::empty() =~= prunable(reports, true));
    assert(prunable(reports, false) + seq![n.id] =~= prunable(reports, false).push(n.id));
    assert(prunable(reports, true) + seq![n.id] =~= prunable(reports, true).push(n.id));
}

/// The candidate among the segments found near a query point: with
/// `allow_ambiguous` the first one; otherwise the only one, or `Err` when
/// there are several. No segment gives `Ok(None)`.
pub fn pick_candidate(found: &[DqtId], allow_ambiguous: bool) -> (r: Result<Option<DqtId>, ()>)
    ensures
        found@.len() == 0 ==> r == Ok::<Option<DqtId>, ()>(None),
        found@.len() > 0 && allow_ambiguous ==> r == Ok::<Option<DqtId>, ()>(Some(found@[0])),
        found@.len() == 1 ==> r == Ok::<Option<DqtId>, ()>(Some(found@[0])),
        found@.len() > 1 && !allow_ambiguous ==> r == Err::<Option<DqtId>, ()>(()),
{
    let mut out: Option<DqtId> = None;
    let mut i: usize = 0;
    while i < found.len()
        invariant
            i <= found@.len(),
            i > 0 ==> !allow_ambiguous,
            i == 0 ==> out == None::<DqtId>,
            i == 1 ==> out == Some(found@[0]),
            i <= 1,
        decreases found@.len() - i,
    {
        let id = found[i];
        if allow_ambiguous {
            return Ok(Some(id));
        } else {
            if out.is_some() {
                return Err(());
            }
            out = Some(id);
        }
        i = i + 1;
    }
    Ok(out)
}

/// Which neighbours a segment has near its two ends: a segment ending near
/// its start (`start_forward`), a segment starting near its start
/// (`start_backward`), a segment starting near its end (`end_backward`) and a
/// segment ending near its end (`end_forward`).
#[derive(Clone, Copy, Debug)]
pub struct Neighbors {
    pub id: DqtId,
    pub start_forward: bool,
    pub start_backward: bool,
    pub end_backward: bool,
    pub end_forward: bool,
}

/// A segment can be part of a cycle only if both of its ends continue: the
/// start through a segment ending there and the end through a segment
/// starting there, or, unless `only_starts`, through a segment running the
/// other way.
pub open spec fn can_be_on_cycle(n: Neighbors, only_starts: bool) -> bool {
    (n.start_forward || (!only_starts && n.start_backward)) && (n.end_backward || (!only_starts
        && n.end_forward))
}

/// The ids, in order, of the segments in `reports` that cannot be part of a
/// cycle.
pub open spec fn prunable(reports: Seq<Neighbors>, only_starts: bool) -> Seq<DqtId>
    decreases reports.len(),
{
    if reports.len() == 0 {
        seq![]
    } else {
        let rest = prunable(reports.drop_last(), only_starts);
        if can_be_on_cycle(reports.last(), only_starts) {
            rest
        } else {
            rest.push(reports.last().id)
        }
    }
}

/// The segments of one pruning pass that are to be removed.
pub fn segments_to_prune(reports: &[Neighbors], only_starts: bool) -> (r: Vec<DqtId>)
    ensures
        r@ == prunable(reports@, only_starts),
{
    let mut out: Vec<DqtId> = Vec::new();
    let mut i: usize = 0;
    while i < reports.len()
        invariant
            i <= reports@.len(),
            out@ == prunable(reports@.subrange(0, i as int), only_starts),
        decreases reports@.len() - i,
    {
        let n = reports[i];
        let keep = (n.start_forward || (!only_starts && n.start_backward)) && (n.end_backward || (
        !only_starts && n.end_forward));
        if !keep {
            out.push(n.id);
        }
        assert(reports@.subrange(0, i + 1).drop_last() =~= reports@.subrange(0, i as int));
        i = i + 1;
    }
    assert(reports@.subrange(0, reports@.len() as int) =~= reports@);
    out
}

/// The points of a chain of segments joined into one path: the whole first
/// path, then each following path without its first point, which repeats
/// the previous path's last point.
pub open spec fn joined<P>(segments: Seq<PathSegment<P>>) -> Seq<P>
    decreases segments.len(),
{
    if segments.len() <= 1 {
        if segments.len() == 1 {
            segments[0].path@
        } else {
            seq![]
        }
    } else {
        let last = segments.last().path@;
        joined(segments.drop_last()) + last.subrange(1, last.len() as int)
    }
}

/// Joins a chain of segments into one path.
pub fn recombine_paths<P: Copy>(segments: &[PathSegment<P>]) -> (r: Vec<P>)
    requires
        segments@.len() >= 1,
        forall|i: int| 1 <= i < segments@.len() ==> #[trigger] segments@[i].path@.len() >= 1,
    ensures
        r@ == joined(segments@),
{
    let mut out: Vec<P> = Vec::new();
    let first = &segments[0].path;
    let mut j: usize = 0;
    while j < first.len()
        invariant
            j <= first@.len(),
            out@ == first@.subrange(0, j as int),
        decreases first@.len() - j,
    {
        out.push(first[j]);
        assert(out@ =~= first@.subrange(0, j + 1));
        j = j + 1;
    }
    assert(out@ =~= joined(segments@.subrange(0, 1)));
    let mut i: usize = 1;
    while i < segments.len()
        invariant
            1 <= i <= segments@.len(),
            forall|k: int| 1 <= k < segments@.len() ==> #[trigger] segments@[k].path@.len() >= 1,
            out@ == joined(segments@.subrange(0, i as int)),
        decreases segments@.len() - i,
    {
        let path = &segments[i].path;
        let ghost before = out@;
        let mut j: usize = 1;
        while j < path.len()
            invariant
                1 <= j <= path@.len(),
                out@ == before + path@.subrange(1, j as int),
            decreases path@.len() - j,
        {
            out.push(path[j]);
            assert(out@ =~= before + path@.subrange(1, j + 1));
            j = j + 1;
        }
        assert(segments@.subrange(0, i + 1).drop_last() =~= segments@.subrange(0, i as int));
        assert(segments@.subrange(0, i + 1).last() == segments@[i as int]);
        i = i + 1;
    }
    assert(segments@.subrange(0, segments@.len() as int) =~= segments@);
    out
}

/// `actual` is a rotation of `goal`, comparing points with `==`.
pub open spec fn shifted<P: PartialEq>(goal: Seq<P>, actual: Seq<P>) -> bool {
    exists|k: int| 0 <= k < actual.len() && #[trigger] elementwise_eq(goal, rotate_left(actual, k))
}

/// `actual` traces the same figure as `expected`: the same closedness and
/// the same points starting anywhere, and with `permit_reversed` possibly in
/// the opposite direction.
pub open spec fn same_segment<P: PartialEq>(
    expected: PathSegment<P>,
    actual: PathSegment<P>,
    permit_reversed: bool,
) -> bool {
    &&& expected.path@.len() == actual.path@.len()
    &&& expected.closed == actual.closed
    &&& (shifted(expected.path@, actual.path@) || (permit_reversed && shifted(
        expected.path@,
        actual.path@.reverse(),
    )))
}

/// A copy of the points of `s`.
fn copy_points<P: Copy>(s: &Vec<P>) -> (r: Vec<P>)
    ensures
        r@ == s@,
{
    let mut r: Vec<P> = Vec::with_capacity(s.len());
    let mut i: usize = 0;
    while i < s.len()
        invariant
            i <= s@.len(),
            r@ == s@.subrange(0, i as int),
        decreases s@.len() - i,
    {
        r.push(s[i]);
        assert(r@ =~= s@.subrange(0, i + 1));
        i = i + 1;
    }
    assert(r@ =~= s@);
    r
}

/// Whether `actual` traces the same figure as `expected` (see
/// `same_segment`).
pub fn is_equal<P: PartialEq + Copy + std::fmt::Debug>(
    expected: &PathSegment<P>,
    actual: &PathSegment<P>,
    permit_reversed: bool,
) -> (r: bool)
    ensures
        expected.path@.len() != actual.path@.len() || expected.closed != actual.closed ==> !r,
        P::obeys_eq_spec() ==> (r <==> same_segment(*expected, *actual, permit_reversed)),
{
    if expected.path.len() != actual.path.len() || expected.closed != actual.closed {
        return false;
    }
    let mut path = copy_points(&actual.path);
    let basic_shifted = is_shifted_of(expected.path.as_slice(), path.as_mut_slice());
    let reverse_shifted = permit_reversed && {
        path.as_mut_slice().reverse();
        is_shifted_of(expected.path.as_slice(), path.as_mut_slice())
    };
    basic_shifted || reverse_shifted
}

/// Why two collections of segments do not match.
#[derive(PartialEq, Eq, Structural, Debug, Clone, Copy)]
pub enum SameMismatch {
    /// The collections have different sizes.
    WrongLengths { actual: usize, expected: usize },
    /// The expected segment at this index has no counterpart.
    NotFound(usize),
}

/// Some segment of `actual` traces the same figure as `ex`.
pub open spec fn has_counterpart<P: PartialEq>(
    actual: Seq<PathSegment<P>>,
    ex: PathSegment<P>,
    permit_reversed: bool,
) -> bool {
    exists|a: int| 0 <= a < actual.len() && #[trigger] same_segment(ex, actual[a], permit_reversed)
}

/// Each of the first `upto` segments of `expected` has a counterpart in
/// `actual`.
pub open spec fn all_found<P: PartialEq>(
    actual: Seq<PathSegment<P>>,
    expected: Seq<PathSegment<P>>,
    permit_reversed: bool,
    upto: int,
) -> bool {
    forall|e: int| 0 <= e < upto ==> #[trigger] has_counterpart(actual, expected[e], permit_reversed)
}

/// Whether some segment of `actual` traces the same figure as `ex`.
fn find_counterpart<P: PartialEq + Copy + std::fmt::Debug>(
    actual: &[PathSegment<P>],
    ex: &PathSegment<P>,
    permit_reversed: bool,
) -> (r: bool)
    ensures
        P::obeys_eq_spec() ==> (r <==> has_counterpart(actual@, *ex, permit_reversed)),
{
    let mut a: usize = 0;
    while a < actual.len()
        invariant
            a <= actual@.len(),
            P::obeys_eq_spec() ==> forall|k: int|
                0 <= k < a ==> !#[trigger] same_segment(*ex, actual@[k], permit_reversed),
        decreases actual@.len() - a,
    {
        if is_equal(ex, &actual[a], permit_reversed) {
            return true;
        }
        a = a + 1;
    }
    false
}

/// Checks that `actual` and `expected` have the same size and that each
/// expected segment has a counterpart in `actual`; on failure tells the first
/// problem found.
pub fn assert_same<P: PartialEq + Copy + std::fmt::Debug>(
    actual: &[PathSegment<P>],
    expected: &[PathSegment<P>],
    permit_reversed: bool,
) -> (r: Result<(), SameMismatch>)
    ensures
        actual@.len() != expected@.len() <==> r == Err::<(), SameMismatch>(
            SameMismatch::WrongLengths { actual: actual@.len() as usize, expected: expected@.len() as usize },
        ),
        P::obeys_eq_spec() ==> (r is Ok <==> actual@.len() == expected@.len() && all_found(
            actual@,
            expected@,
            permit_reversed,
            expected@.len() as int,
        )),
        P::obeys_eq_spec() ==> forall|e: usize|
            r == Err::<(), SameMismatch>(SameMismatch::NotFound(e)) ==> e < expected@.len()
                && all_found(actual@, expected@, permit_reversed, e as int) && !has_counterpart(
                actual@,
                expected@[e as int],
                permit_reversed,
            ),
{
    if actual.len() != expected.len() {
        return Err(SameMismatch::WrongLengths { actual: actual.len(), expected: expected.len() });
    }
    let mut e: usize = 0;
    while e < expected.len()
        invariant
            actual@.len() == expected@.len(),
            e <= expected@.len(),
            P::obeys_eq_spec() ==> all_found(actual@, expected@, permit_reversed, e as int),
        decreases expected@.len() - e,
    {
        let found = find_counterpart(actual, &expected[e], permit_reversed);
        if !found {
            return Err(SameMismatch::NotFound(e));
        }
        e = e + 1;
    }
    Ok(())
}

/// How many of the candidates, sorted by distance, are as near as the
/// first one: the length of the leading run of distances equal to the first.
pub fn nearest_count<T: PartialEq>(dists: &[T]) -> (r: usize)
    ensures
        r <= dists@.len(),
        T::obeys_eq_spec() ==> forall|i: int| 0 <= i < r ==> #[trigger] dists@[i].eq_spec(&dists@[0]),
        T::obeys_eq_spec() && r < dists@.len() ==> !dists@[r as int].eq_spec(&dists@[0]),
{
    if dists.len() == 0 {
        return 0;
    }
    let dsmall = &dists[0];
    let mut n: usize = 0;
    while n < dists.len()
        invariant
            n <= dists@.len(),
            dists@.len() > 0,
            *dsmall == dists@[0],
            T::obeys_eq_spec() ==> forall|i: int| 0 <= i < n ==> #[trigger] dists@[i].eq_spec(&dists@[0]),
        decreases dists@.len() - n,
    {
        if dists[n] == *dsmall {
            n = n + 1;
        } else {
            return n;
        }
    }
    n
}

/// The candidates of a plain query: both lists must be unambiguous,
/// otherwise the query finds nothing.
pub fn combine_candidates(
    start: Result<Option<DqtId>, ()>,
    end: Result<Option<DqtId>, ()>,
) -> (r: (Option<DqtId>, Option<DqtId>))
    ensures
        r == match (start, end) {
            (Ok(a), Ok(b)) => (a, b),
            _ => (None::<DqtId>, None::<DqtId>),
        },
{
    match (start, end) {
        (Ok(a), Ok(b)) => (a, b),
        _ => (None, None),
    }
}

/// The decision of a plain forward query from the segment starting
/// (`start`) and the segment ending (`end`) near the query point. Nothing
/// is marked as ambiguous; an ambiguous pair just ends the chain.
pub open spec fn plain_decide_spec(
    start: Option<DqtId>,
    end: Option<DqtId>,
    only_starts: bool,
    allow_ambiguous: bool,
) -> QueryAction {
    match (start, end) {
        (Some(a), None) => QueryAction::Take(a),
        (None, Some(b)) => if only_starts {
            QueryAction::Stop
        } else {
            QueryAction::TakeReversed(b)
        },
        (None, None) => QueryAction::Stop,
        (Some(a), Some(_)) => if allow_ambiguous {
            QueryAction::Take(a)
        } else {
            QueryAction::Stop
        },
    }
}

/// What a plain query decides, read from the candidates: `lead` is the
/// one the chain would continue through as it is, `trail` the one it would
/// continue through reversed. It never marks a point as ambiguous; it takes
/// a segment as it is only when that is the leading candidate, reversed
/// only when reversed ones may be used and there is no leading candidate,
/// and it stops otherwise, in particular when both are found and ambiguity
/// is not allowed.
pub proof fn lemma_plain_query_decision(
    backward: bool,
    start: Option<DqtId>,
    end: Option<DqtId>,
    only_starts: bool,
    allow_ambiguous: bool,
)
    ensures
        ({
            let lead = if backward {
                end
            } else {
                start
            };
            let trail = if backward {
                start
            } else {
                end
            };
            let r = if backward {
                plain_decide_spec(end, start, only_starts, allow_ambiguous)
            } else {
                plain_decide_spec(start, end, only_starts, allow_ambiguous)
            };
            &&& r != QueryAction::MarkAmbiguous
            &&& forall|a: DqtId| r == QueryAction::Take(a) ==> lead == Some(a)
            &&& forall|b: DqtId| r == QueryAction::TakeReversed(b) ==> {
                &&& !only_starts
                &&& lead == None::<DqtId>
                &&& trail == Some(b)
            }
            &&& lead is Some && trail is Some && !allow_ambiguous ==> r == QueryAction::Stop
            &&& lead is Some && (trail is None || allow_ambiguous) ==> r == QueryAction::Take(
                lead->0,
            )
        }),
{
}

/// Decides how a chain continues with the plain query; going backwards
/// (`backward`) the ends play the part of the starts.
pub fn plain_query_decision(
    backward: bool,
    start: Option<DqtId>,
    end: Option<DqtId>,
    only_starts: bool,
    allow_ambiguous: bool,
) -> (r: QueryAction)
    ensures
        r == if backward {
            plain_decide_spec(end, start, only_starts, allow_ambiguous)
        } else {
            plain_decide_spec(start, end, only_starts, allow_ambiguous)
        },
{
    let (first, second) = if backward {
        (end, start)
    } else {
        (start, end)
    };
    match (first, second) {
        (Some(a), None) => QueryAction::Take(a),
        (None, Some(b)) => if only_starts {
            QueryAction::Stop
        } else {
            QueryAction::TakeReversed(b)
        },
        (None, None) => QueryAction::Stop,
        (Some(a), Some(_)) => if allow_ambiguous {
            QueryAction::Take(a)
        } else {
            QueryAction::Stop
        },
    }
}

/// Whether a chain of segments has more than one point in all, and so is
/// worth keeping.
pub fn worth_keeping<P>(chain: &Vec<PathSegment<P>>) -> (r: bool)
    ensures
        r == (total_points(chain@) > 1),
{
    let mut total: usize = 0;
    let mut i: usize = 0;
    while i < chain.len()
        invariant
            i <= chain@.len(),
            total == if total_points(chain@.subrange(0, i as int)) > 1 {
                2
            } else {
                total_points(chain@.subrange(0, i as int))
            },
        decreases chain@.len() - i,
    {
        let n = chain[i].path.len();
        assert(chain@.subrange(0, i + 1).drop_last() =~= chain@.subrange(0, i as int));
        total = if n > 1 || total + n > 1 {
            2
        } else {
            total + n
        };
        i = i + 1;
    }
    assert(chain@.subrange(0, chain@.len() as int) =~= chain@);
    total > 1
}

/// The number of points in all the paths of `chain`.
pub open spec fn total_points<P>(chain: Seq<PathSegment<P>>) -> nat
    decreases chain.len(),
{
    if chain.len() == 0 {
        0
    } else {
        total_points(chain.drop_last()) + chain.last().path@.len()
    }
}

} // verus!

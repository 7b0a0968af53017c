use vstd::prelude::*;

verus! {

/// The route chosen among `candidates`, each a route number and the number
/// of capture groups its pattern produced on the request path (`None` when
/// it produced no captures), folded in order: a candidate replaces the best
/// so far when no captures are held yet or when it has strictly more
/// capture groups. Returns the best captures held and the route they came
/// with.
pub open spec fn route_fold(candidates: Seq<(usize, Option<usize>)>) -> (Option<usize>, Option<usize>)
    decreases candidates.len(),
{
    if candidates.len() == 0 {
        (None, None)
    } else {
        let (best_capture, best_index) = route_fold(candidates.drop_last());
        let (index, capture) = candidates.last();
        match (best_capture, capture) {
            (None, new) => (new, Some(index)),
            (Some(old), None) => (Some(old), best_index),
            (Some(old), Some(new)) => if new > old {
                (Some(new), Some(index))
            } else {
                (Some(old), best_index)
            },
        }
    }
}

/// Some route was considered but none produced captures: the router
/// treats this as impossible and stops.
pub open spec fn route_fold_stuck(candidates: Seq<(usize, Option<usize>)>) -> bool {
    route_fold(candidates).0 is None && route_fold(candidates).1 is Some
}

/// The route whose pattern matched the request with the most capture groups,
/// the earliest among equals; `None` when no route applies.
pub fn select_route(candidates: &[(usize, Option<usize>)]) -> (r: Option<usize>)
    requires
        !route_fold_stuck(candidates@),
    ensures
        r == route_fold(candidates@).1,
        r is Some <==> route_fold(candidates@).0 is Some,
{
    let mut best_capture: Option<usize> = None;
    let mut best_index: Option<usize> = None;
    let mut i: usize = 0;
    while i < candidates.len()
        invariant
            i <= candidates@.len(),
            (best_capture, best_index) == route_fold(candidates@.subrange(0, i as int)),
        decreases candidates@.len() - i,
    {
        let (index, capture) = candidates[i];
        let (nc, ni) = match (best_capture, capture) {
            (None, new) => (new, Some(index)),
            (old, None) => (old, best_index),
            (Some(old), Some(new)) => {
                if new > old {
                    (Some(new), Some(index))
                } else {
                    (Some(old), best_index)
                }
            },
        };
        best_capture = nc;
        best_index = ni;
        assert(candidates@.subrange(0, i + 1).drop_last() =~= candidates@.subrange(0, i as int));
        i = i + 1;
    }
    assert(candidates@.subrange(0, candidates@.len() as int) =~= candidates@);
    proof {
        lemma_route_fold_consistent(candidates@);
    }
    match (best_capture, best_index) {
        (Some(_), Some(bi)) => Some(bi),
        _ => None,
    }
}

/// Captures are only ever held together with the route they came from.
pub proof fn lemma_route_fold_consistent(candidates: Seq<(usize, Option<usize>)>)
    ensures
        route_fold(candidates).0 is Some ==> route_fold(candidates).1 is Some,
    decreases candidates.len(),
{
    if candidates.len() > 0 {
        lemma_route_fold_consistent(candidates.drop_last());
    }
}

/// The chosen route is one of the candidates, holds the captures kept, and
/// no candidate produced more capture groups.
pub proof fn lemma_route_is_best(candidates: Seq<(usize, Option<usize>)>)
    ensures
        route_fold(candidates).1 matches Some(index) ==> exists|k: int|
            0 <= k < candidates.len() && #[trigger] candidates[k] == (
                index,
                route_fold(candidates).0,
            ),
        route_fold(candidates).0 matches Some(best) ==> forall|k: int|
            0 <= k < candidates.len() ==> ((#[trigger] candidates[k]).1 matches Some(n) ==> n
                <= best),
        route_fold(candidates).0 is None ==> forall|k: int|
            0 <= k < candidates.len() ==> (#[trigger] candidates[k]).1 is None,
    decreases candidates.len(),
{
    if candidates.len() > 0 {
        let rest = candidates.drop_last();
        lemma_route_is_best(rest);
        let last = candidates.last();
        assert(candidates[candidates.len() - 1] == last);
        assert forall|k: int| 0 <= k < rest.len() implies candidates[k] == rest[k] by {}
        if let Some(index) = route_fold(candidates).1 {
            if route_fold(candidates).1 == route_fold(rest).1 && route_fold(candidates).0 == route_fold(rest).0 {
                let k = choose|k: int| 0 <= k < rest.len() && #[trigger] rest[k] == (index, route_fold(rest).0);
                assert(candidates[k] == (index, route_fold(candidates).0));
            }
        }
    }
}

/// `pattern` compiles as a regular expression.
pub uninterp spec fn valid_pattern(pattern: Seq<char>) -> bool;

/// The regular expression `pattern` matches somewhere in `target`.
pub uninterp spec fn pattern_matches(pattern: Seq<char>, target: Seq<char>) -> bool;

/// The number of capture groups of `pattern`, the whole match included.
pub uninterp spec fn group_count(pattern: Seq<char>) -> usize;

/// What capture group `group` of the first match of `pattern` in `target`
/// matched, if it took part in the match.
pub uninterp spec fn captured(pattern: Seq<char>, target: Seq<char>, group: int) -> Option<Seq<char>>;

/// `regex::Regex::new`: whether `pattern` compiles. The crate decides this
/// from the pattern alone (its syntax and the default size limit).
#[verifier::external_body]
fn regex_compiles(pattern: &str) -> (r: bool)
    ensures
        r == valid_pattern(pattern@),
{
    regex::Regex::new(pattern).is_ok()
}

/// `regex::Regex::is_match` on the compiled `pattern`: whether it matches
/// anywhere in `target`.
#[verifier::external_body]
fn regex_is_match(pattern: &str, target: &str) -> (r: bool)
    requires
        valid_pattern(pattern@),
    ensures
        r == pattern_matches(pattern@, target@),
{
    regex::Regex::new(pattern).unwrap().is_match(target)
}

/// `regex::Regex::captures_len` on the compiled `pattern`: its number of
/// capture groups, counting the implicit group of the whole match.
#[verifier::external_body]
fn regex_captures_len(pattern: &str) -> (r: usize)
    requires
        valid_pattern(pattern@),
    ensures
        r == group_count(pattern@),
{
    regex::Regex::new(pattern).unwrap().captures_len()
}

/// `regex::Regex::captures` on the compiled `pattern`, each group's match
/// taken as text: `None` exactly when the pattern does not match, and
/// otherwise one entry per capture group.
#[verifier::external_body]
fn regex_captures(pattern: &str, target: &str) -> (r: Option<Vec<Option<String>>>)
    requires
        valid_pattern(pattern@),
    ensures
        r is Some <==> pattern_matches(pattern@, target@),
        r matches Some(groups) ==> groups@.len() == group_count(pattern@) && forall|i: int|
            0 <= i < groups@.len() ==> (match #[trigger] groups@[i] {
                Some(g) => captured(pattern@, target@, i) == Some(g@),
                None => captured(pattern@, target@, i) is None,
            }),
{
    let caps = regex::Regex::new(pattern).unwrap().captures(target)?;
    let mut groups = Vec::new();
    for i in 0..caps.len() {
        groups.push(caps.get(i).map(|m| m.as_str().to_string()));
    }
    Some(groups)
}

/// A route accepts requests with method `verb`: it names no method or
/// names this one.
pub open spec fn accepts(method: Option<Seq<char>>, verb: Seq<char>) -> bool {
    method is None || method == Some(verb)
}

/// The routes, in order, as method and pattern text.
pub open spec fn route_views(routes: Seq<(Option<String>, String)>) -> Seq<(Option<Seq<char>>, Seq<char>)> {
    routes.map_values(
        |r: (Option<String>, String)|
            (
                match r.0 {
                    Some(m) => Some(m@),
                    None => None,
                },
                r.1@,
            ),
    )
}

/// The candidates for a request with method `verb` on `target`: each route,
/// in order, that accepts the method and whose pattern matches, with its
/// number of capture groups.
pub open spec fn route_candidates(
    routes: Seq<(Option<Seq<char>>, Seq<char>)>,
    verb: Seq<char>,
    target: Seq<char>,
) -> Seq<(usize, Option<usize>)>
    decreases routes.len(),
{
    if routes.len() == 0 {
        seq![]
    } else {
        let before = route_candidates(routes.drop_last(), verb, target);
        let (method, pattern) = routes.last();
        if accepts(method, verb) && pattern_matches(pattern, target) {
            before.push(((routes.len() - 1) as usize, Some(group_count(pattern))))
        } else {
            before
        }
    }
}

/// A table of routes: a method (or any), a regular expression for the
/// path, and the value that a matching request is routed to.
pub struct RouteBuilder<T> {
    routes: Vec<(Option<String>, String)>,
    values: Vec<T>,
}

impl<T> RouteBuilder<T> {
    /// The routes, as method and pattern text.
    pub closed spec fn routes(&self) -> Seq<(Option<Seq<char>>, Seq<char>)> {
        route_views(self.routes@)
    }

    /// The value of each route.
    pub closed spec fn values(&self) -> Seq<T> {
        self.values@
    }

    /// One value per route, and every pattern compiles.
    pub closed spec fn wf(&self) -> bool {
        &&& self.routes@.len() == self.values@.len()
        &&& forall|i: int| 0 <= i < self.routes@.len() ==> valid_pattern(#[trigger] self.routes@[i].1@)
    }

    /// The table of `routes`, each a method (or any), a pattern and a value.
    pub fn new(routes: Vec<(Option<String>, String, T)>) -> (r: RouteBuilder<T>)
        requires
            forall|i: int| 0 <= i < routes@.len() ==> valid_pattern(#[trigger] routes@[i].1@),
        ensures
            r.wf(),
            r.routes().len() == routes@.len(),
            forall|i: int|
                0 <= i < routes@.len() ==> #[trigger] r.routes()[i] == (
                    match routes@[i].0 {
                        Some(m) => Some(m@),
                        None => None,
                    },
                    routes@[i].1@,
                ) && r.values()[i] == routes@[i].2,
    {
        let mut table: Vec<(Option<String>, String)> = Vec::new();
        let mut values: Vec<T> = Vec::new();
        let ghost all = routes@;
        let mut rest = routes;
        rest.as_mut_slice().reverse();
        let n = rest.len();
        let mut k: usize = 0;
        while k < n
            invariant
                n == all.len(),
                rest@.len() == n - k,
                forall|j: int| 0 <= j < n - k ==> #[trigger] rest@[j] == all[n - 1 - j],
                forall|i: int| 0 <= i < all.len() ==> valid_pattern(#[trigger] all[i].1@),
                k <= n,
                table@.len() == k,
                values@.len() == k,
                forall|i: int|
                    0 <= i < k ==> #[trigger] table@[i].1@ == all[i].1@ && table@[i].0 == all[i].0
                        && values@[i] == all[i].2,
            decreases n - k,
        {
            let (method, pattern, value) = rest.pop().unwrap();
            table.push((method, pattern));
            values.push(value);
            k = k + 1;
        }
        let r = RouteBuilder { routes: table, values };
        assert forall|i: int| 0 <= i < all.len() implies #[trigger] r.routes()[i] == (
            match all[i].0 {
                Some(m) => Some(m@),
                None => None,
            },
            all[i].1@,
        ) by {
            assert(r.routes@[i] == table@[i]);
        }
        r
    }

    /// The table of `routes`, or `None` when a pattern does not compile.
    pub fn try_new(routes: Vec<(Option<String>, String, T)>) -> (r: Option<RouteBuilder<T>>)
        ensures
            r is Some <==> forall|i: int| 0 <= i < routes@.len() ==> valid_pattern(#[trigger] routes@[i].1@),
            r matches Some(b) ==> b.wf() && b.routes().len() == routes@.len() && forall|i: int|
                0 <= i < routes@.len() ==> #[trigger] b.routes()[i] == (
                    match routes@[i].0 {
                        Some(m) => Some(m@),
                        None => None,
                    },
                    routes@[i].1@,
                ) && b.values()[i] == routes@[i].2,
    {
        let mut i: usize = 0;
        while i < routes.len()
            invariant
                i <= routes@.len(),
                forall|j: int| 0 <= j < i ==> valid_pattern(#[trigger] routes@[j].1@),
            decreases routes@.len() - i,
        {
            if !regex_compiles(routes[i].1.as_str()) {
                return None;
            }
            i = i + 1;
        }
        let ghost given = routes@;
        let b = RouteBuilder::new(routes);
        assert forall|i: int| 0 <= i < given.len() implies #[trigger] b.routes()[i] == (
            match given[i].0 {
                Some(m) => Some(m@),
                None => None,
            },
            given[i].1@,
        ) && b.values()[i] == given[i].2 by {}
        Some(b)
    }

    /// The value of the route for a request with method `verb` on the path
    /// `target`, with what the route's capture groups matched: among the
    /// routes that accept the method and whose pattern matches, the one with
    /// the most capture groups, the earliest among equals. `None` when no
    /// route applies.
    pub fn match_path(&self, verb: &str, target: &str) -> (r: Option<(&T, Vec<Option<String>>)>)
        requires
            self.wf(),
        ensures
            r is Some <==> route_candidates(self.routes(), verb@, target@).len() > 0,
            r matches Some((value, groups)) ==> {
                let best = route_fold(route_candidates(self.routes(), verb@, target@)).1->0;
                let pattern = self.routes()[best as int].1;
                &&& best < self.values().len()
                &&& *value == self.values()[best as int]
                &&& groups@.len() == group_count(pattern)
                &&& forall|i: int|
                    0 <= i < groups@.len() ==> (match #[trigger] groups@[i] {
                        Some(g) => captured(pattern, target@, i) == Some(g@),
                        None => captured(pattern, target@, i) is None,
                    })
            },
    {
        let ghost routes = self.routes();
        let mut candidates: Vec<(usize, Option<usize>)> = Vec::new();
        let mut i: usize = 0;
        while i < self.routes.len()
            invariant
                self.wf(),
                routes == self.routes(),
                i <= self.routes@.len(),
                candidates@ == route_candidates(routes.subrange(0, i as int), verb@, target@),
                forall|k: int| 0 <= k < candidates@.len() ==> (#[trigger] candidates@[k]).1 is Some
                    && candidates@[k].0 < i,
            decreases self.routes@.len() - i,
        {
            let (method, pattern) = &self.routes[i];
            assert(routes.subrange(0, i + 1).drop_last() =~= routes.subrange(0, i as int));
            assert(routes[i as int].1 == pattern@);
            let accepted = match method {
                Some(m) => crate::text::str_equal(m.as_str(), verb),
                None => true,
            };
            if accepted && regex_is_match(pattern.as_str(), target) {
                let groups = regex_captures_len(pattern.as_str());
                candidates.push((i, Some(groups)));
            }
            i = i + 1;
        }
        assert(routes.subrange(0, self.routes@.len() as int) =~= routes);
        proof {
            lemma_candidates_not_stuck(candidates@);
            lemma_route_is_best(candidates@);
        }
        match select_route(candidates.as_slice()) {
            Some(best) => {
                proof {
                    let k = choose|k: int| 0 <= k < candidates@.len() && #[trigger] candidates@[k] == (
                        best,
                        route_fold(candidates@).0,
                    );
                    assert(candidates@[k].0 < self.routes@.len());
                }
                let pattern = self.routes[best].1.as_str();
                assert(pattern@ == routes[best as int].1);
                match regex_captures(pattern, target) {
                    Some(groups) => Some((&self.values[best], groups)),
                    None => {
                        proof {
                            lemma_candidate_matches(routes, verb@, target@, best);
                        }
                        None
                    },
                }
            },
            None => None,
        }
    }
}

/// Candidates that all hold captures cannot leave the choice stuck, and
/// some route is chosen when there is a candidate.
proof fn lemma_candidates_not_stuck(candidates: Seq<(usize, Option<usize>)>)
    requires
        forall|k: int| 0 <= k < candidates.len() ==> (#[trigger] candidates[k]).1 is Some,
    ensures
        !route_fold_stuck(candidates),
        candidates.len() > 0 <==> route_fold(candidates).0 is Some,
    decreases candidates.len(),
{
    if candidates.len() > 0 {
        let rest = candidates.drop_last();
        assert forall|k: int| 0 <= k < rest.len() implies (#[trigger] rest[k]).1 is Some by {
            assert(rest[k] == candidates[k]);
        }
        lemma_candidates_not_stuck(rest);
        assert(candidates[candidates.len() - 1].1 is Some);
    }
}

/// A candidate route accepts the method and its pattern matches.
proof fn lemma_candidate_matches(
    routes: Seq<(Option<Seq<char>>, Seq<char>)>,
    verb: Seq<char>,
    target: Seq<char>,
    index: usize,
)
    requires
        routes.len() <= usize::MAX,
        exists|k: int|
            0 <= k < route_candidates(routes, verb, target).len()
                && #[trigger] route_candidates(routes, verb, target)[k].0 == index,
    ensures
        index < routes.len(),
        pattern_matches(routes[index as int].1, target),
    decreases routes.len(),
{
    let c = route_candidates(routes, verb, target);
    let k = choose|k: int| 0 <= k < c.len() && #[trigger] c[k].0 == index;
    let before = route_candidates(routes.drop_last(), verb, target);
    let (method, pattern) = routes.last();
    let hit = accepts(method, verb) && pattern_matches(pattern, target);
    if k < before.len() {
        assert(c[k] == before[k]);
        lemma_candidate_matches(routes.drop_last(), verb, target, index);
        assert(routes.drop_last()[index as int] == routes[index as int]);
    } else {
        assert(hit);
        assert(c[k] == ((routes.len() - 1) as usize, Some(group_count(pattern))));
        assert(routes[index as int] == routes.last());
    }
}

/// How a request is answered.
#[derive(PartialEq, Eq, Structural, Debug, Clone, Copy)]
pub enum Dispatch {
    /// With the static file found for its path.
    StaticFile,
    /// By the handler of the route that matched.
    Handler,
    /// With "404 not found".
    NotFound,
}

/// How a request is answered: a static file for its path comes first, then
/// the handler of a matching route, and otherwise "not found".
pub fn dispatch(static_found: bool, route_found: bool) -> (r: Dispatch)
    ensures
        r == if static_found {
            Dispatch::StaticFile
        } else if route_found {
            Dispatch::Handler
        } else {
            Dispatch::NotFound
        },
{
    if static_found {
        Dispatch::StaticFile
    } else if route_found {
        Dispatch::Handler
    } else {
        Dispatch::NotFound
    }
}

} // verus!

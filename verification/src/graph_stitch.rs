use vstd::prelude::*;

verus! {

/// The items covered by the loops whose flag is set.
pub open spec fn covered(loops: Seq<Vec<usize>>, taken: Seq<bool>) -> Set<usize>
    decreases loops.len(),
{
    if loops.len() == 0 || taken.len() == 0 {
        Set::empty()
    } else {
        let rest = covered(loops.drop_last(), taken.drop_last());
        if taken.last() {
            rest.union(loops.last()@.to_set())
        } else {
            rest
        }
    }
}

/// No item of `items` is in `seen`.
pub open spec fn disjoint_from(items: Seq<usize>, seen: Set<usize>) -> bool {
    forall|j: int| 0 <= j < items.len() ==> !seen.contains(#[trigger] items[j])
}

/// Which loops are kept when the loops are taken greedily in order: a loop
/// is kept when it shares no item with the loops kept before it.
pub open spec fn kept(loops: Seq<Vec<usize>>) -> Seq<bool>
    decreases loops.len(),
{
    if loops.len() == 0 {
        seq![]
    } else {
        let before = kept(loops.drop_last());
        before.push(disjoint_from(loops.last()@, covered(loops.drop_last(), before)))
    }
}

/// `kept` decides one loop per loop.
pub proof fn lemma_kept_len(loops: Seq<Vec<usize>>)
    ensures
        kept(loops).len() == loops.len(),
    decreases loops.len(),
{
    if loops.len() > 0 {
        lemma_kept_len(loops.drop_last());
    }
}

/// Chooses, in order, the loops that share no item with a loop chosen
/// before them; items are numbered below `n_items`.
pub fn select_loops(loops: &Vec<Vec<usize>>, n_items: usize) -> (r: Vec<bool>)
    requires
        forall|i: int, j: int|
            0 <= i < loops@.len() && 0 <= j < loops@[i]@.len() ==> #[trigger] loops@[i]@[j] < n_items,
    ensures
        r@ == kept(loops@),
{
    let mut visited: Vec<bool> = Vec::new();
    let mut t: usize = 0;
    while t < n_items
        invariant
            t <= n_items,
            visited@.len() == t,
            forall|x: int| 0 <= x < t ==> !visited@[x],
        decreases n_items - t,
    {
        visited.push(false);
        t = t + 1;
    }
    let mut out: Vec<bool> = Vec::new();
    let mut i: usize = 0;
    while i < loops.len()
        invariant
            i <= loops@.len(),
            visited@.len() == n_items,
            forall|a: int, b: int|
                0 <= a < loops@.len() && 0 <= b < loops@[a]@.len() ==> #[trigger] loops@[a]@[b]
                    < n_items,
            out@ == kept(loops@.subrange(0, i as int)),
            forall|x: usize| x < n_items ==> (visited@[x as int] <==> covered(
                loops@.subrange(0, i as int),
                out@,
            ).contains(x)),
            forall|x: usize| covered(loops@.subrange(0, i as int), out@).contains(x) ==> x < n_items,
        decreases loops@.len() - i,
    {
        let l = &loops[i];
        let ghost prefix = loops@.subrange(0, i as int);
        let ghost seen = covered(prefix, out@);
        let mut intersects = false;
        let mut j: usize = 0;
        while j < l.len()
            invariant
                j <= l@.len(),
                i < loops@.len(),
                l == loops@[i as int],
                visited@.len() == n_items,
                forall|b: int| 0 <= b < l@.len() ==> #[trigger] l@[b] < n_items,
                forall|x: usize| x < n_items ==> (visited@[x as int] <==> seen.contains(x)),
                intersects <==> !disjoint_from(l@.subrange(0, j as int), seen),
            decreases l@.len() - j,
        {
            assert(l@[j as int] < n_items);
            if visited[l[j]] {
                intersects = true;
            }
            proof {
                let s1 = l@.subrange(0, j + 1);
                assert forall|k: int| 0 <= k < j implies s1[k] == l@.subrange(0, j as int)[k] by {}
                assert(s1[j as int] == l@[j as int]);
            }
            j = j + 1;
        }
        assert(l@.subrange(0, l@.len() as int) =~= l@);
        let keep = !intersects;
        proof {
            lemma_kept_len(prefix);
            assert(loops@.subrange(0, i + 1).drop_last() =~= prefix);
            assert(loops@.subrange(0, i + 1).last() == l);
        }
        if keep {
            let mut j: usize = 0;
            while j < l.len()
                invariant
                    j <= l@.len(),
                    i < loops@.len(),
                    l == loops@[i as int],
                    visited@.len() == n_items,
                    forall|b: int| 0 <= b < l@.len() ==> #[trigger] l@[b] < n_items,
                    forall|x: usize|
                        #![trigger visited@[x as int]]
                        x < n_items ==> (visited@[x as int] <==> (seen.contains(x) || l@.subrange(
                            0,
                            j as int,
                        ).to_set().contains(x))),
                decreases l@.len() - j,
            {
                assert(l@[j as int] < n_items);
                let ghost before = visited@;
                visited.set(l[j], true);
                proof {
                    assert(l@.subrange(0, j + 1) =~= l@.subrange(0, j as int).push(l@[j as int]));
                    l@.subrange(0, j as int).lemma_push_to_set_commute(l@[j as int]);
                    assert forall|x: usize|
                        #![trigger visited@[x as int]]
                        x < n_items implies (visited@[x as int] <==> (seen.contains(x)
                            || l@.subrange(0, j + 1).to_set().contains(x))) by {
                        let pre = l@.subrange(0, j as int);
                        assert(l@.subrange(0, j + 1).to_set() == pre.to_set().insert(l@[j as int]));
                        if x == l@[j as int] {
                            assert(visited@[x as int]);
                            assert(l@.subrange(0, j + 1).to_set().contains(x));
                        } else {
                            assert(before[x as int] <==> (seen.contains(x) || pre.to_set().contains(x)));
                            assert(visited@[x as int] == before[x as int]);
                            assert(l@.subrange(0, j + 1).to_set().contains(x) == l@.subrange(
                                0,
                                j as int,
                            ).to_set().contains(x));
                        }
                    }
                }
                j = j + 1;
            }
        }
        out.push(keep);
        proof {
            assert(l@.subrange(0, l@.len() as int) =~= l@);
            let next = loops@.subrange(0, i + 1);
            assert(out@.drop_last() =~= kept(prefix));
            assert forall|x: usize| x < n_items implies (visited@[x as int] <==> covered(
                next,
                out@,
            ).contains(x)) by {
            }
            assert forall|x: usize| covered(next, out@).contains(x) implies x < n_items by {
                if keep && l@.to_set().contains(x) {
                    let k = choose|k: int| 0 <= k < l@.len() && #[trigger] l@[k] == x;
                    assert(l@[k] < n_items);
                }
            }
        }
        i = i + 1;
    }
    assert(loops@.subrange(0, loops@.len() as int) =~= loops@);
    out
}

/// Every item of a flagged loop is covered.
proof fn lemma_covered_contains(loops: Seq<Vec<usize>>, taken: Seq<bool>, i: int, j: int)
    requires
        loops.len() == taken.len(),
        0 <= i < loops.len(),
        taken[i],
        0 <= j < loops[i]@.len(),
    ensures
        covered(loops, taken).contains(loops[i]@[j]),
    decreases loops.len(),
{
    if i < loops.len() - 1 {
        lemma_covered_contains(loops.drop_last(), taken.drop_last(), i, j);
    } else {
        assert(loops.last()@.to_set().contains(loops[i]@[j]));
    }
}

/// Taking loops greedily in a prefix decides the same as in the whole list.
proof fn lemma_kept_prefix(loops: Seq<Vec<usize>>, n: int)
    requires
        0 <= n <= loops.len(),
    ensures
        kept(loops.subrange(0, n)) == kept(loops).subrange(0, n),
    decreases loops.len(),
{
    lemma_kept_len(loops);
    if n < loops.len() {
        lemma_kept_prefix(loops.drop_last(), n);
        assert(loops.drop_last().subrange(0, n) =~= loops.subrange(0, n));
        assert(kept(loops).drop_last().subrange(0, n) =~= kept(loops).subrange(0, n));
    } else {
        assert(loops.subrange(0, n) =~= loops);
        assert(kept(loops).subrange(0, n) =~= kept(loops));
    }
}

/// The loops kept by the greedy choice never share an item.
pub proof fn lemma_kept_loops_disjoint(loops: Seq<Vec<usize>>, a: int, b: int, k: int)
    requires
        0 <= a < b < loops.len(),
        kept(loops)[a],
        kept(loops)[b],
        0 <= k < loops[a]@.len(),
    ensures
        !loops[b]@.contains(loops[a]@[k]),
{
    lemma_kept_len(loops);
    let prefix = loops.subrange(0, b);
    lemma_kept_prefix(loops, b + 1);
    lemma_kept_prefix(loops, b);
    let upto = loops.subrange(0, b + 1);
    assert(upto.drop_last() =~= prefix);
    assert(upto.last() == loops[b]);
    lemma_kept_len(prefix);
    let flags = kept(prefix);
    assert(kept(upto) == flags.push(disjoint_from(loops[b]@, covered(prefix, flags))));
    assert(kept(upto)[b] == kept(loops)[b]);
    assert(flags[a] == kept(loops)[a]);
    assert(prefix[a] == loops[a]);
    lemma_covered_contains(prefix, flags, a, k);
    if loops[b]@.contains(loops[a]@[k]) {
        let j = choose|j: int| 0 <= j < loops[b]@.len() && loops[b]@[j] == loops[a]@[k];
        assert(!covered(prefix, flags).contains(loops[b]@[j]));
    }
}

} // verus!

use vstd::prelude::*;
use vstd::std_specs::cmp::PartialEqSpec;

verus! {

/// `slice::reverse`: the elements end up in reverse order.
pub assume_specification<A>[ <[A]>::reverse ](s: &mut [A])
    ensures
        final(s)@ == old(s)@.reverse(),
;

/// `s` rotated left by `k`: the element at position `k` comes first.
pub open spec fn rotate_left<T>(s: Seq<T>, k: int) -> Seq<T> {
    s.subrange(k, s.len() as int) + s.subrange(0, k)
}

/// `a` and `b` have the same length and `==` holds between the elements at
/// each position.
pub open spec fn elementwise_eq<T: PartialEq>(a: Seq<T>, b: Seq<T>) -> bool {
    &&& a.len() == b.len()
    &&& forall|i: int| 0 <= i < a.len() ==> #[trigger] a[i].eq_spec(&b[i])
}

/// Rotates `arr` left by one place: the first element moves to the end.
pub fn rotate_1<T>(arr: &mut [T])
    requires
        old(arr)@.len() >= 1,
    ensures
        final(arr)@ == rotate_left(old(arr)@, 1),
{
    let ghost s = arr@;
    {
        let (left, right) = arr.split_at_mut(1);
        left.reverse();
        right.reverse();
    }
    assert(arr@ =~= s.subrange(0, 1).reverse() + s.subrange(1, s.len() as int).reverse());
    arr.reverse();
    assert(arr@ =~= rotate_left(s, 1));
}

/// `==` on slices: equal lengths and `==` between the elements at each
/// position.
fn slices_equal<T: PartialEq>(a: &[T], b: &[T]) -> (r: bool)
    ensures
        r ==> a@.len() == b@.len(),
        T::obeys_eq_spec() ==> (r <==> elementwise_eq(a@, b@)),
{
    if a.len() != b.len() {
        return false;
    }
    let mut i: usize = 0;
    while i < a.len()
        invariant
            a@.len() == b@.len(),
            i <= a@.len(),
            T::obeys_eq_spec() ==> forall|j: int| 0 <= j < i ==> #[trigger] a@[j].eq_spec(&b@[j]),
        decreases a@.len() - i,
    {
        if !(a[i] == b[i]) {
            return false;
        }
        i = i + 1;
    }
    true
}

/// Rotating a sequence by its full length gives it back.
pub proof fn lemma_rotate_full<T>(s: Seq<T>)
    ensures
        rotate_left(s, s.len() as int) == s,
{
    assert(rotate_left(s, s.len() as int) =~= s);
}

/// Rotating by `k` and then by one more place is rotating by `k + 1`.
pub proof fn lemma_rotate_step<T>(s: Seq<T>, k: int)
    requires
        0 <= k < s.len(),
    ensures
        rotate_left(rotate_left(s, k), 1) == rotate_left(s, k + 1),
{
    assert(rotate_left(rotate_left(s, k), 1) =~= rotate_left(s, k + 1));
}

/// Whether `actual` is a rotation of `goal`. `actual` is rotated left one
/// place at a time until it equals `goal`; it is left at the first matching
/// rotation, or back in the order it came in when there is none.
pub fn is_shifted_of<T: PartialEq + std::fmt::Debug>(goal: &[T], actual: &mut [T]) -> (r: bool)
    ensures
        goal@.len() != old(actual)@.len() ==> !r,
        r ==> exists|k: int|
            0 <= k < old(actual)@.len() && final(actual)@ == rotate_left(old(actual)@, k),
        !r ==> final(actual)@ == old(actual)@,
        T::obeys_eq_spec() ==> (r <==> exists|k: int|
            0 <= k < old(actual)@.len() && #[trigger] elementwise_eq(
                goal@,
                rotate_left(old(actual)@, k),
            )),
        T::obeys_eq_spec() && r ==> elementwise_eq(goal@, final(actual)@),
{
    if goal.len() != actual.len() {
        return false;
    }
    let ghost orig = actual@;
    let n = goal.len();
    let mut i: usize = 0;
    assert(rotate_left(orig, 0) =~= orig);
    while i < n
        invariant
            n == goal@.len(),
            n == orig.len(),
            orig == old(actual)@,
            i <= n,
            actual@ == rotate_left(orig, i as int),
            T::obeys_eq_spec() ==> forall|k: int|
                0 <= k < i ==> !#[trigger] elementwise_eq(goal@, rotate_left(orig, k)),
        decreases n - i,
    {
        if slices_equal(goal, actual) {
            assert(actual@ == rotate_left(orig, i as int));
            return true;
        }
        proof {
            lemma_rotate_step(orig, i as int);
        }
        rotate_1(actual);
        i = i + 1;
    }
    proof {
        lemma_rotate_full(orig);
    }
    false
}

} // verus!

//! The escape-time loop: starting from a seed, test the current value and,
//! unless it has escaped, advance it by one step of the recurrence, up to
//! an iteration budget. The arithmetic of the recurrence and of the escape
//! test is handed in by the caller.
use vstd::prelude::*;

verus! {

/// `orbit` holds successive values of the recurrence `step` from `start`:
/// its first value is `start` and each next one is a result of `step` on
/// the one before.
pub open spec fn is_orbit<Z, G: Fn(Z) -> Z>(start: Z, step: G, orbit: Seq<Z>) -> bool {
    &&& orbit.len() > 0 ==> orbit[0] == start
    &&& forall|k: int| 0 <= k < orbit.len() - 1 ==> #[trigger] step.ensures((orbit[k],), orbit[k + 1])
}

/// None of the values of `orbit` before index `n` passes the escape test.
pub open spec fn stays_bounded<Z, F: Fn(Z) -> bool>(escaped: F, orbit: Seq<Z>, n: int) -> bool {
    forall|k: int| 0 <= k < n ==> #[trigger] escaped.ensures((orbit[k],), false)
}

/// What the escape-time loop may return for a seed, a budget and the two
/// operations: `Some(n)` when the `n`-th value of an orbit is the first to
/// escape and `n` is below the budget; `None` when the first `limit` values
/// of an orbit all stay bounded.
pub open spec fn escape_outcome<Z, F: Fn(Z) -> bool, G: Fn(Z) -> Z>(
    start: Z,
    limit: u32,
    escaped: F,
    step: G,
    r: Option<u32>,
) -> bool {
    match r {
        Some(n) => n < limit && exists|orbit: Seq<Z>|
            #[trigger] is_orbit(start, step, orbit) && orbit.len() == n + 1 && stays_bounded(
                escaped,
                orbit,
                n as int,
            ) && escaped.ensures((orbit[n as int],), true),
        None => exists|orbit: Seq<Z>|
            #[trigger] is_orbit(start, step, orbit) && orbit.len() == limit && stays_bounded(
                escaped,
                orbit,
                limit as int,
            ),
    }
}

/// Runs the escape-time loop: at the top of iteration `i` the current value
/// is tested first, and `Some(i)` is returned if it has escaped; otherwise
/// it is replaced by `step` of itself. After `limit` iterations without an
/// escape the result is `None`.
pub fn escape_time<Z: Copy, F: Fn(Z) -> bool, G: Fn(Z) -> Z>(
    start: Z,
    limit: u32,
    escaped: &F,
    step: &G,
) -> (r: Option<u32>)
    requires
        forall|z: Z| escaped.requires((z,)),
        forall|z: Z| step.requires((z,)),
    ensures
        escape_outcome(start, limit, *escaped, *step, r),
{
    let mut z = start;
    let ghost mut orbit: Seq<Z> = seq![start];
    let mut i: u32 = 0;
    while i < limit
        invariant
            forall|z: Z| escaped.requires((z,)),
            forall|z: Z| step.requires((z,)),
            i <= limit,
            orbit.len() == i + 1,
            orbit[i as int] == z,
            is_orbit(start, *step, orbit),
            stays_bounded(*escaped, orbit, i as int),
        decreases limit - i,
    {
        if escaped(z) {
            proof {
                assert(is_orbit(start, *step, orbit));
            }
            return Some(i);
        }
        let next = step(z);
        proof {
            let old_orbit = orbit;
            orbit = orbit.push(next);
            assert forall|k: int| 0 <= k < orbit.len() - 1 implies #[trigger] step.ensures(
                (orbit[k],),
                orbit[k + 1],
            ) by {
                if k < old_orbit.len() - 1 {
                    assert(step.ensures((old_orbit[k],), old_orbit[k + 1]));
                }
            }
            assert forall|k: int| 0 <= k < i + 1 implies #[trigger] escaped.ensures(
                (orbit[k],),
                false,
            ) by {
                if k < i {
                    assert(escaped.ensures((old_orbit[k],), false));
                }
            }
        }
        z = next;
        i = i + 1;
    }
    proof {
        let prefix = orbit.take(limit as int);
        assert forall|k: int| 0 <= k < prefix.len() - 1 implies #[trigger] step.ensures(
            (prefix[k],),
            prefix[k + 1],
        ) by {
            assert(step.ensures((orbit[k],), orbit[k + 1]));
        }
        assert forall|k: int| 0 <= k < limit implies #[trigger] escaped.ensures(
            (prefix[k],),
            false,
        ) by {
            assert(escaped.ensures((orbit[k],), false));
        }
        assert(is_orbit(start, *step, prefix));
    }
    None
}

/// A seed that already passes the escape test is reported after zero
/// iterations, whatever the budget, as long as it is positive.
pub proof fn lemma_escaped_seed<Z, F: Fn(Z) -> bool, G: Fn(Z) -> Z>(
    start: Z,
    limit: u32,
    escaped: F,
    step: G,
    r: Option<u32>,
)
    requires
        limit > 0,
        forall|b: bool| #[trigger] escaped.ensures((start,), b) ==> b,
        escape_outcome(start, limit, escaped, step, r),
    ensures
        r == Some(0u32),
{
    match r {
        Some(n) => {
            let orbit = choose|orbit: Seq<Z>|
                #[trigger] is_orbit(start, step, orbit) && orbit.len() == n + 1 && stays_bounded(
                    escaped,
                    orbit,
                    n as int,
                ) && escaped.ensures((orbit[n as int],), true);
            if n > 0 {
                assert(escaped.ensures((orbit[0],), false));
            }
        },
        None => {
            let orbit = choose|orbit: Seq<Z>|
                #[trigger] is_orbit(start, step, orbit) && orbit.len() == limit && stays_bounded(
                    escaped,
                    orbit,
                    limit as int,
                );
            assert(escaped.ensures((orbit[0],), false));
        },
    }
}

/// Every value of an orbit that starts at a fixed point of the recurrence
/// is that point.
proof fn lemma_orbit_of_fixed_point<Z, G: Fn(Z) -> Z>(start: Z, step: G, orbit: Seq<Z>, k: int)
    requires
        forall|z: Z| #[trigger] step.ensures((start,), z) ==> z == start,
        is_orbit(start, step, orbit),
        0 <= k < orbit.len(),
    ensures
        orbit[k] == start,
    decreases k,
{
    if k > 0 {
        lemma_orbit_of_fixed_point(start, step, orbit, k - 1);
        let j = k - 1;
        assert(step.ensures((orbit[j],), orbit[j + 1]));
    }
}

/// A seed that is a fixed point of the recurrence and does not pass the
/// escape test never escapes, whatever the budget.
pub proof fn lemma_fixed_point_never_escapes<Z, F: Fn(Z) -> bool, G: Fn(Z) -> Z>(
    start: Z,
    limit: u32,
    escaped: F,
    step: G,
    r: Option<u32>,
)
    requires
        forall|z: Z| #[trigger] step.ensures((start,), z) ==> z == start,
        forall|b: bool| #[trigger] escaped.ensures((start,), b) ==> !b,
        escape_outcome(start, limit, escaped, step, r),
    ensures
        r is None,
{
    if let Some(n) = r {
        let orbit = choose|orbit: Seq<Z>|
            #[trigger] is_orbit(start, step, orbit) && orbit.len() == n + 1 && stays_bounded(
                escaped,
                orbit,
                n as int,
            ) && escaped.ensures((orbit[n as int],), true);
        lemma_orbit_of_fixed_point(start, step, orbit, n as int);
    }
}

} // verus!

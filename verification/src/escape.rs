//! Counting the rounds of an iteration until it escapes.

use vstd::prelude::*;

verus! {

/// Whether `orbit` is a run of the iteration from `point`: it begins with
/// `point`, and `advance` leads from each of its values to the next.
pub open spec fn is_orbit<Z, F: Fn(Z) -> Option<Z>>(advance: F, point: Z, orbit: Seq<Z>) -> bool {
    &&& orbit.len() >= 1
    &&& orbit[0] == point
    &&& forall|k: int|
        0 <= k < orbit.len() - 1 ==> advance.ensures((#[trigger] orbit[k],), Some(orbit[k + 1]))
}

/// Whether `count` is the escape count of a run: the number of the round,
/// counted from 0, in which the run's last value was found to have escaped,
/// or 0 where the run went through all `max_iterations` rounds without
/// escaping.
pub open spec fn is_escape_count<Z, F: Fn(Z) -> Option<Z>>(
    advance: F,
    orbit: Seq<Z>,
    max_iterations: u32,
    count: u32,
) -> bool {
    ||| (orbit.len() <= max_iterations && advance.ensures((orbit.last(),), None) && count
        == orbit.len() - 1)
    ||| (orbit.len() == max_iterations + 1 && count == 0)
}

/// Returns the number of rounds it takes the iteration that starts at
/// `point` to escape, or 0 if it has not escaped after `max_iterations`
/// rounds.
///
/// In each round `advance` is given the current value; it returns `None`
/// where that value has escaped, else the value for the next round. The
/// first round has the number 0, so a point that has escaped at the outset
/// gives 0 as well.
pub fn escape_iterations<Z, F: Fn(Z) -> Option<Z>>(point: Z, max_iterations: u32, advance: F) -> (count:
    u32)
    requires
        forall|z: Z| advance.requires((z,)),
    ensures
        count < max_iterations || count == 0,
        exists|orbit: Seq<Z>| #[trigger]
            is_orbit(advance, point, orbit) && is_escape_count(
                advance,
                orbit,
                max_iterations,
                count,
            ),
{
    let ghost mut orbit: Seq<Z> = seq![point];
    let mut z = point;
    let mut i: u32 = 0;
    while i < max_iterations
        invariant
            forall|v: Z| advance.requires((v,)),
            i <= max_iterations,
            orbit.len() == i + 1,
            orbit.last() == z,
            is_orbit(advance, point, orbit),
        decreases max_iterations - i,
    {
        let ghost current = z;
        match advance(z) {
            None => {
                assert(is_escape_count(advance, orbit, max_iterations, i));
                return i;
            },
            Some(next) => {
                proof {
                    let ghost longer = orbit.push(next);
                    assert forall|k: int| 0 <= k < longer.len() - 1 implies advance.ensures(
                        (#[trigger] longer[k],),
                        Some(longer[k + 1]),
                    ) by {
                        if k < orbit.len() - 1 {
                            assert(longer[k] == orbit[k]);
                            assert(longer[k + 1] == orbit[k + 1]);
                        } else {
                            assert(longer[k] == current);
                        }
                    }
                    orbit = longer;
                }
                z = next;
            },
        }
        i += 1;
    }
    assert(is_escape_count(advance, orbit, max_iterations, 0));
    0
}

/// Whether `advance` has one outcome only for every value.
pub open spec fn is_deterministic<Z, F: Fn(Z) -> Option<Z>>(advance: F) -> bool {
    forall|z: Z, a: Option<Z>, b: Option<Z>|
        #[trigger] advance.ensures((z,), a) && #[trigger] advance.ensures((z,), b) ==> a == b
}

proof fn lemma_orbits_agree<Z, F: Fn(Z) -> Option<Z>>(
    advance: F,
    point: Z,
    first: Seq<Z>,
    second: Seq<Z>,
    k: int,
)
    requires
        is_deterministic(advance),
        is_orbit(advance, point, first),
        is_orbit(advance, point, second),
        0 <= k < first.len(),
        k < second.len(),
    ensures
        first[k] == second[k],
    decreases k,
{
    if k > 0 {
        lemma_orbits_agree(advance, point, first, second, k - 1);
        assert(advance.ensures((first[k - 1],), Some(first[k])));
        assert(advance.ensures((second[k - 1],), Some(second[k])));
    }
}

proof fn lemma_escaped_run_is_longest<Z, F: Fn(Z) -> Option<Z>>(
    advance: F,
    point: Z,
    first: Seq<Z>,
    second: Seq<Z>,
)
    requires
        is_deterministic(advance),
        is_orbit(advance, point, first),
        is_orbit(advance, point, second),
        advance.ensures((first.last(),), None),
    ensures
        second.len() <= first.len(),
{
    if second.len() > first.len() {
        let at = first.len() - 1;
        lemma_orbits_agree(advance, point, first, second, at);
        assert(advance.ensures((second[at],), Some(second[at + 1])));
        assert(advance.ensures((second[at],), None));
    }
}

/// The escape count depends on nothing but the point, the limit and the
/// step: where the step has one outcome only for every value, there is one
/// escape count only.
pub proof fn lemma_escape_count_unique<Z, F: Fn(Z) -> Option<Z>>(
    advance: F,
    point: Z,
    max_iterations: u32,
    first: Seq<Z>,
    first_count: u32,
    second: Seq<Z>,
    second_count: u32,
)
    requires
        is_deterministic(advance),
        is_orbit(advance, point, first),
        is_escape_count(advance, first, max_iterations, first_count),
        is_orbit(advance, point, second),
        is_escape_count(advance, second, max_iterations, second_count),
    ensures
        first_count == second_count,
{
    if first.len() <= max_iterations && advance.ensures((first.last(),), None) {
        lemma_escaped_run_is_longest(advance, point, first, second);
    }
    if second.len() <= max_iterations && advance.ensures((second.last(),), None) {
        lemma_escaped_run_is_longest(advance, point, second, first);
    }
}

/// A point that has escaped at the outset has the escape count 0, whatever
/// the limit.
pub proof fn lemma_immediate_escape<Z, F: Fn(Z) -> Option<Z>>(
    advance: F,
    point: Z,
    max_iterations: u32,
    orbit: Seq<Z>,
    count: u32,
)
    requires
        forall|outcome: Option<Z>| advance.ensures((point,), outcome) ==> outcome is None,
        is_orbit(advance, point, orbit),
        is_escape_count(advance, orbit, max_iterations, count),
    ensures
        count == 0,
{
    if orbit.len() >= 2 {
        assert(advance.ensures((orbit[0],), Some(orbit[1])));
    }
}

} // verus!

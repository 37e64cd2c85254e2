use vstd::prelude::*;

verus! {

/// The state after `n` steps from `z0`.
pub open spec fn orbit<Z>(z0: Z, next: spec_fn(Z) -> Z, n: nat) -> Z
    decreases n,
{
    if n == 0 {
        z0
    } else {
        next(orbit(z0, next, (n - 1) as nat))
    }
}

/// `r` is the escape count of the orbit of `z0`: the first step below
/// `limit` whose state passes `out`, tested before that step is taken, or
/// nothing when no state before `limit` passes it.
pub open spec fn is_escape_count<Z>(
    z0: Z,
    next: spec_fn(Z) -> Z,
    out: spec_fn(Z) -> bool,
    limit: nat,
    r: Option<usize>,
) -> bool {
    match r {
        Some(i) => {
            &&& i < limit
            &&& out(orbit(z0, next, i as nat))
            &&& forall|j: nat| j < i ==> !#[trigger] out(orbit(z0, next, j))
        },
        None => forall|j: nat| j < limit ==> !#[trigger] out(orbit(z0, next, j)),
    }
}

/// `f` computes `next` on every state.
pub open spec fn computes<Z, F: Fn(Z) -> Z>(f: F, next: spec_fn(Z) -> Z) -> bool {
    forall|z: Z, w: Z| #[trigger] f.ensures((z,), w) ==> w == next(z)
}

/// `f` computes the test `out` on every state.
pub open spec fn decides<Z, F: Fn(Z) -> bool>(f: F, out: spec_fn(Z) -> bool) -> bool {
    forall|z: Z, b: bool| #[trigger] f.ensures((z,), b) ==> b == out(z)
}

/// Steps the orbit of `start` with `step` until `escaped` holds of the
/// current state, testing each state before the step that would leave it.
/// Returns the number of steps taken when the test first held, or nothing
/// when it did not hold within `limit` steps.
pub fn escape_count<Z: Copy, E: Fn(Z) -> bool, S: Fn(Z) -> Z>(
    start: Z,
    limit: usize,
    escaped: &E,
    step: &S,
) -> (r: Option<usize>)
    requires
        forall|z: Z| #[trigger] escaped.requires((z,)),
        forall|z: Z| #[trigger] step.requires((z,)),
    ensures
        r matches Some(i) ==> i < limit,
        forall|next: spec_fn(Z) -> Z, out: spec_fn(Z) -> bool|
            #![trigger computes(*step, next), decides(*escaped, out)]
            computes(*step, next) && decides(*escaped, out) ==> is_escape_count(
                start,
                next,
                out,
                limit as nat,
                r,
            ),
{
    let mut z = start;
    let mut i: usize = 0;
    let ghost mut zs: Seq<Z> = seq![start];
    let ghost mut tests: Seq<bool> = Seq::empty();
    while i < limit
        invariant
            i <= limit,
            zs.len() == i + 1,
            tests.len() == i,
            zs[i as int] == z,
            zs[0] == start,
            forall|j: int| 0 <= j < i ==> #[trigger] step.ensures((zs[j],), zs[j + 1]),
            forall|j: int| 0 <= j < i ==> #[trigger] escaped.ensures((zs[j],), tests[j]),
            forall|j: int| 0 <= j < i ==> !#[trigger] tests[j],
            forall|z: Z| #[trigger] escaped.requires((z,)),
            forall|z: Z| #[trigger] step.requires((z,)),
        decreases limit - i,
    {
        let out = escaped(z);
        if out {
            proof {
                assert forall|next: spec_fn(Z) -> Z, o: spec_fn(Z) -> bool|
                    #![trigger computes(*step, next), decides(*escaped, o)]
                    computes(*step, next) && decides(*escaped, o) implies is_escape_count(
                        start,
                        next,
                        o,
                        limit as nat,
                        Some(i),
                    ) by {
                    lemma_states_follow_orbit(start, next, zs, *step);
                    assert(o(orbit(start, next, i as nat)));
                    assert forall|j: nat| j < i implies !#[trigger] o(orbit(start, next, j)) by {
                        assert(escaped.ensures((zs[j as int],), tests[j as int]));
                    }
                }
            }
            return Some(i);
        }
        let w = step(z);
        proof {
            tests = tests.push(out);
            zs = zs.push(w);
        }
        z = w;
        i = i + 1;
    }
    proof {
        assert forall|next: spec_fn(Z) -> Z, o: spec_fn(Z) -> bool|
            #![trigger computes(*step, next), decides(*escaped, o)]
            computes(*step, next) && decides(*escaped, o) implies is_escape_count(
                start,
                next,
                o,
                limit as nat,
                None,
            ) by {
            lemma_states_follow_orbit(start, next, zs, *step);
            assert forall|j: nat| j < limit implies !#[trigger] o(orbit(start, next, j)) by {
                assert(escaped.ensures((zs[j as int],), tests[j as int]));
            }
        }
    }
    None
}

proof fn lemma_states_follow_orbit<Z, S: Fn(Z) -> Z>(
    start: Z,
    next: spec_fn(Z) -> Z,
    zs: Seq<Z>,
    step: S,
)
    requires
        computes(step, next),
        zs.len() >= 1,
        zs[0] == start,
        forall|j: int| 0 <= j < zs.len() - 1 ==> #[trigger] step.ensures((zs[j],), zs[j + 1]),
    ensures
        forall|j: int| 0 <= j < zs.len() ==> #[trigger] zs[j] == orbit(start, next, j as nat),
{
    assert forall|j: int| 0 <= j < zs.len() implies #[trigger] zs[j] == orbit(start, next, j as nat) by {
        lemma_orbit_prefix(start, next, zs, step, j);
    }
}

proof fn lemma_orbit_prefix<Z, S: Fn(Z) -> Z>(
    start: Z,
    next: spec_fn(Z) -> Z,
    zs: Seq<Z>,
    step: S,
    j: int,
)
    requires
        computes(step, next),
        0 <= j < zs.len(),
        zs[0] == start,
        forall|k: int| 0 <= k < zs.len() - 1 ==> #[trigger] step.ensures((zs[k],), zs[k + 1]),
    ensures
        zs[j] == orbit(start, next, j as nat),
    decreases j,
{
    if j > 0 {
        lemma_orbit_prefix(start, next, zs, step, j - 1);
        assert(step.ensures((zs[j - 1],), zs[(j - 1) + 1]));
    }
}

/// An orbit that starts on a fixed point of the step, at a state that has
/// not escaped, never escapes, whatever the limit.
pub proof fn lemma_fixed_point_never_escapes<Z>(
    z0: Z,
    next: spec_fn(Z) -> Z,
    out: spec_fn(Z) -> bool,
    limit: nat,
)
    requires
        next(z0) == z0,
        !out(z0),
    ensures
        is_escape_count(z0, next, out, limit, None),
{
    assert forall|j: nat| j < limit implies !#[trigger] out(orbit(z0, next, j)) by {
        lemma_fixed_orbit(z0, next, j);
    }
}

proof fn lemma_fixed_orbit<Z>(z0: Z, next: spec_fn(Z) -> Z, n: nat)
    requires
        next(z0) == z0,
    ensures
        orbit(z0, next, n) == z0,
    decreases n,
{
    if n > 0 {
        lemma_fixed_orbit(z0, next, (n - 1) as nat);
    }
}

/// The start itself is tested before any step: a start that has already
/// escaped gives a count of zero, and one that has not, but whose first
/// step has, gives a count of one.
pub proof fn lemma_first_counts<Z>(z0: Z, next: spec_fn(Z) -> Z, out: spec_fn(Z) -> bool, limit: nat)
    ensures
        out(z0) && limit > 0 ==> is_escape_count(z0, next, out, limit, Some(0)),
        !out(z0) && out(next(z0)) && limit > 1 ==> is_escape_count(z0, next, out, limit, Some(1)),
{
    assert(orbit(z0, next, 0) == z0);
    assert(orbit(z0, next, 1) == next(orbit(z0, next, 0)));
}

} // verus!

use vstd::prelude::*;

verus! {

/// What an iteration limit makes of a run of threshold tests, where `flags[k]`
/// says whether the point lay outside the disk after update `k`: `Some(i)` for
/// the first `i` below the limit whose test held, `None` when none of the
/// first `limit` tests held.
pub open spec fn escape_result(flags: Seq<bool>, limit: nat, r: Option<u32>) -> bool {
    match r {
        Some(i) => {
            &&& i < limit
            &&& i < flags.len()
            &&& flags[i as int]
            &&& forall|j: int| 0 <= j < i ==> !flags[j]
        },
        None => {
            &&& limit <= flags.len()
            &&& forall|j: int| 0 <= j < limit ==> !flags[j]
        },
    }
}

/// `orbit` starts at `start` and follows `step`; `flags[k]` is what `outside`
/// says of `orbit[k + 1]`.
pub open spec fn is_run<S, Step: Fn(S) -> S, Outside: Fn(S) -> bool>(
    start: S,
    step: Step,
    outside: Outside,
    orbit: Seq<S>,
    flags: Seq<bool>,
) -> bool {
    &&& orbit.len() == flags.len() + 1
    &&& orbit[0] == start
    &&& forall|k: int| 0 < k <= flags.len() ==> step.ensures((orbit[k - 1],), #[trigger] orbit[k])
    &&& forall|k: int| 0 <= k < flags.len() ==> outside.ensures((orbit[k + 1],), #[trigger] flags[k])
}

/// `r` is what iterating `step` from `start`, testing each new value with
/// `outside`, gives under `limit`.
pub open spec fn escape_outcome<S, Step: Fn(S) -> S, Outside: Fn(S) -> bool>(
    start: S,
    limit: u32,
    step: Step,
    outside: Outside,
    r: Option<u32>,
) -> bool {
    exists|orbit: Seq<S>, flags: Seq<bool>|
        is_run(start, step, outside, orbit, flags) && escape_result(flags, limit as nat, r)
}

/// Both closures give one result for each argument.
pub open spec fn is_deterministic<S, Step: Fn(S) -> S, Outside: Fn(S) -> bool>(
    step: Step,
    outside: Outside,
) -> bool {
    &&& forall|z: S, a: S, b: S| step.ensures((z,), a) && step.ensures((z,), b) ==> a == b
    &&& forall|z: S, a: bool, b: bool|
        outside.ensures((z,), a) && outside.ensures((z,), b) ==> a == b
}

/// Escape-time evaluation: from `start`, applies `step` up to `limit` times and
/// tests each new value with `outside`. Returns the 0-based index of the first
/// update after which the value lay outside, or `None` if it never did.
pub fn escape_time<S: Copy, Step: Fn(S) -> S, Outside: Fn(S) -> bool>(
    start: S,
    limit: u32,
    step: &Step,
    outside: &Outside,
) -> (r: Option<u32>)
    requires
        forall|z: S| step.requires((z,)),
        forall|z: S| outside.requires((z,)),
    ensures
        escape_outcome(start, limit, *step, *outside, r),
{
    let mut z = start;
    let ghost mut orbit: Seq<S> = seq![start];
    let ghost mut flags: Seq<bool> = Seq::empty();
    let mut i: u32 = 0;
    while i < limit
        invariant
            forall|w: S| step.requires((w,)),
            forall|w: S| outside.requires((w,)),
            i <= limit,
            flags.len() == i,
            is_run(start, *step, *outside, orbit, flags),
            orbit.last() == z,
            forall|j: int| 0 <= j < i ==> !flags[j],
        decreases limit - i,
    {
        let next = step(z);
        let out = outside(next);
        proof {
            orbit = orbit.push(next);
            flags = flags.push(out);
        }
        z = next;
        assert(is_run(start, *step, *outside, orbit, flags));
        if out {
            assert(escape_result(flags, limit as nat, Some(i)));
            return Some(i);
        }
        i += 1;
    }
    assert(escape_result(flags, limit as nat, None));
    None
}

proof fn lemma_runs_agree<S, Step: Fn(S) -> S, Outside: Fn(S) -> bool>(
    start: S,
    step: Step,
    outside: Outside,
    o1: Seq<S>,
    f1: Seq<bool>,
    o2: Seq<S>,
    f2: Seq<bool>,
    k: int,
)
    requires
        is_deterministic(step, outside),
        is_run(start, step, outside, o1, f1),
        is_run(start, step, outside, o2, f2),
        0 <= k <= f1.len(),
        k <= f2.len(),
    ensures
        o1[k] == o2[k],
    decreases k,
{
    if k > 0 {
        lemma_runs_agree(start, step, outside, o1, f1, o2, f2, k - 1);
        assert(step.ensures((o1[k - 1],), o1[k]));
        assert(step.ensures((o2[k - 1],), o2[k]));
    }
}

proof fn lemma_flags_agree<S, Step: Fn(S) -> S, Outside: Fn(S) -> bool>(
    start: S,
    step: Step,
    outside: Outside,
    o1: Seq<S>,
    f1: Seq<bool>,
    o2: Seq<S>,
    f2: Seq<bool>,
    k: int,
)
    requires
        is_deterministic(step, outside),
        is_run(start, step, outside, o1, f1),
        is_run(start, step, outside, o2, f2),
        0 <= k < f1.len(),
        k < f2.len(),
    ensures
        f1[k] == f2[k],
{
    lemma_runs_agree(start, step, outside, o1, f1, o2, f2, k + 1);
    assert(outside.ensures((o1[k + 1],), f1[k]));
    assert(outside.ensures((o2[k + 1],), f2[k]));
}

/// Once a point has escaped under some limit, any larger limit reports the
/// same escape index.
pub proof fn lemma_escape_index_stable<S, Step: Fn(S) -> S, Outside: Fn(S) -> bool>(
    start: S,
    step: Step,
    outside: Outside,
    limit: u32,
    larger: u32,
    i: u32,
    r: Option<u32>,
)
    requires
        is_deterministic(step, outside),
        limit <= larger,
        escape_outcome(start, limit, step, outside, Some(i)),
        escape_outcome(start, larger, step, outside, r),
    ensures
        r == Some(i),
{
    let (o1, f1) = choose|o: Seq<S>, f: Seq<bool>|
        is_run(start, step, outside, o, f) && escape_result(f, limit as nat, Some(i));
    let (o2, f2) = choose|o: Seq<S>, f: Seq<bool>|
        is_run(start, step, outside, o, f) && escape_result(f, larger as nat, r);
    match r {
        Some(i2) => {
            if i2 < i {
                lemma_flags_agree(start, step, outside, o1, f1, o2, f2, i2 as int);
            } else if i2 > i {
                lemma_flags_agree(start, step, outside, o1, f1, o2, f2, i as int);
            }
        },
        None => {
            lemma_flags_agree(start, step, outside, o1, f1, o2, f2, i as int);
        },
    }
}

proof fn lemma_fixed_run<S, Step: Fn(S) -> S, Outside: Fn(S) -> bool>(
    start: S,
    step: Step,
    outside: Outside,
    orbit: Seq<S>,
    flags: Seq<bool>,
    k: int,
)
    requires
        is_run(start, step, outside, orbit, flags),
        forall|w: S| step.ensures((start,), w) ==> w == start,
        0 <= k <= flags.len(),
    ensures
        orbit[k] == start,
    decreases k,
{
    if k > 0 {
        lemma_fixed_run(start, step, outside, orbit, flags, k - 1);
        assert(step.ensures((orbit[k - 1],), orbit[k]));
    }
}

/// A start that `step` leaves in place and that `outside` rejects never
/// escapes, whatever the limit.
pub proof fn lemma_fixed_point_never_escapes<S, Step: Fn(S) -> S, Outside: Fn(S) -> bool>(
    start: S,
    step: Step,
    outside: Outside,
    limit: u32,
    r: Option<u32>,
)
    requires
        forall|w: S| step.ensures((start,), w) ==> w == start,
        forall|b: bool| outside.ensures((start,), b) ==> !b,
        escape_outcome(start, limit, step, outside, r),
    ensures
        r is None,
{
    let (o, f) = choose|o: Seq<S>, f: Seq<bool>|
        is_run(start, step, outside, o, f) && escape_result(f, limit as nat, r);
    if let Some(i) = r {
        lemma_fixed_run(start, step, outside, o, f, i + 1);
        assert(outside.ensures((o[i + 1],), f[i as int]));
    }
}

/// A start whose first step already lands outside escapes at index 0 under
/// any positive limit.
pub proof fn lemma_first_step_outside_escapes_at_zero<S, Step: Fn(S) -> S, Outside: Fn(S) -> bool>(
    start: S,
    step: Step,
    outside: Outside,
    limit: u32,
    r: Option<u32>,
)
    requires
        forall|w: S, b: bool| step.ensures((start,), w) && outside.ensures((w,), b) ==> b,
        0 < limit,
        escape_outcome(start, limit, step, outside, r),
    ensures
        r == Some(0u32),
{
    let (o, f) = choose|o: Seq<S>, f: Seq<bool>|
        is_run(start, step, outside, o, f) && escape_result(f, limit as nat, r);
    assert(step.ensures((o[0],), o[1]));
    assert(outside.ensures((o[1],), f[0]));
}

} // verus!

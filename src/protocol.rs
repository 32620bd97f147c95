//! The Sumcheck protocol: a prover sends one univariate polynomial per
//! variable and the verifier checks each against the previous one, ending
//! with a single evaluation of the original polynomial.
//!
//! Rounds are numbered `1..=n` for a polynomial in `n` variables; the
//! challenge `r_k` (`challenges[k - 1]`) is the value at which the verifier
//! fixes variable `k - 1`.
use crate::polynomial::{
    degree_of, indices_in_range, indices_unique, MultiVarPolynomial, PolyModel,
};
use crate::completeness::lemma_completeness;
use rand::Rng;
use std::collections::HashMap;
use vstd::prelude::*;

verus! {

broadcast use vstd::std_specs::hash::group_hash_axioms;

/// Why the verifier rejected a proof.
#[derive(Clone, Copy, Debug, PartialEq, Eq, Structural)]
pub enum RejectReason {
    /// The round message does not have exactly one variable.
    NotUnivariate,
    /// The round message has a higher degree than the original polynomial
    /// in that round's variable.
    DegreeExceeded,
    /// The round message does not sum to the previous claim.
    ConsistencyFailure,
    /// The last message disagrees with the original polynomial at the
    /// challenge point.
    FinalCheckFailure,
}

/// A rejected proof: the failed check and the round at which it failed.
#[derive(Clone, Copy, Debug, PartialEq, Eq, Structural)]
pub struct Rejection {
    pub reason: RejectReason,
    pub round: usize,
}

/// Equality of polynomials as the verifier decides it: by value, a missing
/// term counting as `0`.
pub open spec fn poly_equal(a: PolyModel, b: PolyModel) -> bool {
    a.same_values(b)
}

/// Applies `bool_sum` until at most `k` variables are left.
pub open spec fn sum_down(p: PolyModel, k: nat) -> PolyModel
    decreases p.num_vars,
{
    if p.num_vars > k {
        sum_down(p.bool_sum_model(), k)
    } else {
        p
    }
}

/// The honest message: the original polynomial with `fixed` substituted,
/// summed over the hypercube down to `remaining` free variables.
pub open spec fn honest_message(p: PolyModel, fixed: Seq<(usize, i32)>, remaining: nat) -> PolyModel {
    sum_down(p.partial_eval_model(fixed), remaining)
}

/// The assignment of the first `k` challenges: variable `i` fixed to `challenges[i]`.
pub open spec fn fixed_prefix(challenges: Seq<i32>, k: nat) -> Seq<(usize, i32)> {
    Seq::new(k, |i: int| (i as usize, challenges[i]))
}

/// The message of round `j`: the override for `j` if there is one, else the
/// honest message.
pub open spec fn round_message(
    p: PolyModel,
    overrides: Map<usize, PolyModel>,
    challenges: Seq<i32>,
    j: nat,
) -> PolyModel {
    if overrides.contains_key(j as usize) {
        overrides[j as usize]
    } else {
        honest_message(p, fixed_prefix(challenges, (j - 1) as nat), 1)
    }
}

/// The claim that round `j` must sum to: the claimed total for round `1`,
/// else the previous message at the previous challenge.
pub open spec fn round_claim(
    p: PolyModel,
    overrides: Map<usize, PolyModel>,
    challenges: Seq<i32>,
    j: nat,
) -> PolyModel {
    if j <= 1 {
        honest_message(p, Seq::empty(), 0).partial_eval_model(Seq::empty())
    } else {
        round_message(p, overrides, challenges, (j - 1) as nat).partial_eval_model(
            seq![(0usize, challenges[j - 2])],
        )
    }
}

/// The first check that round `j` fails, if any.
pub open spec fn round_failure(
    p: PolyModel,
    overrides: Map<usize, PolyModel>,
    challenges: Seq<i32>,
    j: nat,
) -> Option<RejectReason> {
    let g = round_message(p, overrides, challenges, j);
    if g.num_vars != 1 {
        Some(RejectReason::NotUnivariate)
    } else if degree_of(g.terms, 0) > degree_of(p.terms, j - 1) {
        Some(RejectReason::DegreeExceeded)
    } else if !poly_equal(round_claim(p, overrides, challenges, j), g.bool_sum_model()) {
        Some(RejectReason::ConsistencyFailure)
    } else {
        None
    }
}

/// Whether the last message agrees with the original polynomial at the
/// point of all challenges.
pub open spec fn final_check_passes(
    p: PolyModel,
    overrides: Map<usize, PolyModel>,
    challenges: Seq<i32>,
) -> bool {
    let n = p.num_vars;
    poly_equal(
        p.partial_eval_model(fixed_prefix(challenges, n)),
        round_message(p, overrides, challenges, n).partial_eval_model(
            seq![(0usize, challenges[n - 1])],
        ),
    )
}

/// The outcome of the protocol from round `j` on.
pub open spec fn outcome_from(
    p: PolyModel,
    overrides: Map<usize, PolyModel>,
    challenges: Seq<i32>,
    j: nat,
) -> Result<(), Rejection>
    decreases p.num_vars + 1 - j,
{
    if j > p.num_vars || j == 0 {
        if final_check_passes(p, overrides, challenges) {
            Ok(())
        } else {
            Err(Rejection { reason: RejectReason::FinalCheckFailure, round: p.num_vars as usize })
        }
    } else {
        match round_failure(p, overrides, challenges, j) {
            Some(reason) => Err(Rejection { reason, round: j as usize }),
            None => outcome_from(p, overrides, challenges, j + 1),
        }
    }
}

/// The outcome of a whole run with the given challenges.
pub open spec fn protocol_outcome(
    p: PolyModel,
    overrides: Map<usize, PolyModel>,
    challenges: Seq<i32>,
) -> Result<(), Rejection> {
    outcome_from(p, overrides, challenges, 1)
}

/// The overrides as models.
pub open spec fn override_models(overrides: Map<usize, MultiVarPolynomial>) -> Map<usize, PolyModel> {
    overrides.map_values(|g: MultiVarPolynomial| g@)
}

/// Every override is a well-formed polynomial.
pub open spec fn overrides_wf(overrides: Map<usize, MultiVarPolynomial>) -> bool {
    forall|k: usize| #[trigger] overrides.contains_key(k) ==> overrides[k]@.wf()
}

/// The honest message for the given fixed variables: the polynomial with
/// `values` substituted, boolean-summed down to `num_remaining_vars` free
/// variables.
pub fn compute_g_j(
    poly: &MultiVarPolynomial,
    num_remaining_vars: usize,
    values: Vec<(usize, i32)>,
) -> (r: MultiVarPolynomial)
    requires
        poly@.wf(),
        indices_in_range(values@, poly.num_vars as nat),
        indices_unique(values@),
    ensures
        r@ == honest_message(poly@, values@, num_remaining_vars as nat),
        r@.wf(),
{
    let mut reduced = poly.substitute(&values);
    while reduced.num_vars > num_remaining_vars
        invariant
            reduced@.wf(),
            sum_down(reduced@, num_remaining_vars as nat) == honest_message(
                poly@,
                values@,
                num_remaining_vars as nat,
            ),
        decreases reduced.num_vars,
    {
        reduced = reduced.bool_sum();
    }
    reduced
}

/// The number of rounds whose message passed its checks: all `n` when the
/// run was accepted or failed the final check, else those before the
/// rejected round.
pub open spec fn rounds_passed(outcome: Result<(), Rejection>, n: nat) -> nat {
    match outcome {
        Ok(_) => n,
        Err(rejection) => if rejection.reason == RejectReason::FinalCheckFailure {
            n
        } else {
            (rejection.round - 1) as nat
        },
    }
}

/// The challenges that a run may use: `r_k` is the verifier's override for
/// round `k` where there is one, else any field element.
pub open spec fn challenges_allowed(
    challenges: Seq<i32>,
    verifier_overrides: Map<usize, i32>,
    n: nat,
    modulus: int,
) -> bool {
    &&& challenges.len() == n
    &&& forall|k: int|
        0 <= k < n ==> if verifier_overrides.contains_key((k + 1) as usize) {
            #[trigger] challenges[k] == verifier_overrides[(k + 1) as usize]
        } else {
            0 <= challenges[k] < modulus
        }
}

/// `transcript` holds, after its first `start` entries, the pair
/// `(g_k, r_k)` for each of the first `count` rounds.
pub open spec fn transcript_holds(
    transcript: Seq<(MultiVarPolynomial, i32)>,
    start: int,
    count: nat,
    p: PolyModel,
    overrides: Map<usize, PolyModel>,
    challenges: Seq<i32>,
) -> bool {
    forall|k: int|
        0 <= k < count ==> {
            &&& (#[trigger] transcript[start + k]).0@ == round_message(
                p,
                overrides,
                challenges,
                (k + 1) as nat,
            )
            &&& transcript[start + k].1 == challenges[k]
        }
}

/// Round `j`'s message depends only on the challenges before it.
proof fn lemma_message_prefix(
    p: PolyModel,
    overrides: Map<usize, PolyModel>,
    a: Seq<i32>,
    b: Seq<i32>,
    j: nat,
)
    requires
        1 <= j,
        a.len() >= j - 1,
        b.len() >= j - 1,
        forall|q: int| 0 <= q < j - 1 ==> a[q] == b[q],
    ensures
        round_message(p, overrides, a, j) == round_message(p, overrides, b, j),
{
    assert(fixed_prefix(a, (j - 1) as nat) =~= fixed_prefix(b, (j - 1) as nat));
}

/// The checks of round `j` depend only on the challenges before it.
proof fn lemma_failure_prefix(
    p: PolyModel,
    overrides: Map<usize, PolyModel>,
    a: Seq<i32>,
    b: Seq<i32>,
    j: nat,
)
    requires
        1 <= j,
        a.len() >= j - 1,
        b.len() >= j - 1,
        forall|q: int| 0 <= q < j - 1 ==> a[q] == b[q],
    ensures
        round_failure(p, overrides, a, j) == round_failure(p, overrides, b, j),
{
    lemma_message_prefix(p, overrides, a, b, j);
    if j > 1 {
        lemma_message_prefix(p, overrides, a, b, (j - 1) as nat);
        assert(a[j - 2] == b[j - 2]);
    }
}

/// Runs the protocol on `polynomial`. In round `j` the prover sends the
/// override for `j` if `prover_overrides` has one, else the honest message;
/// the verifier checks it and, only when it passes, obtains the challenge
/// `r_j`: the override for `j` from `verifier_overrides`, else a value drawn
/// at random from the field. Each passed round appends `(g_j, r_j)` to
/// `transcript`. The outcome is the protocol's outcome on the challenges so
/// obtained, completed by any allowed values for the rounds never reached.
pub fn run_protocol(
    polynomial: &MultiVarPolynomial,
    prover_overrides: &HashMap<usize, MultiVarPolynomial>,
    verifier_overrides: &HashMap<usize, i32>,
    transcript: &mut Vec<(MultiVarPolynomial, i32)>,
) -> (r: Result<(), Rejection>)
    requires
        polynomial@.wf(),
        polynomial.num_vars >= 1,
        overrides_wf(prover_overrides@),
    ensures
        exists|ch: Seq<i32>|
            {
                &&& challenges_allowed(
                    ch,
                    verifier_overrides@,
                    polynomial.num_vars as nat,
                    polynomial.modulus as int,
                )
                &&& r == protocol_outcome(polynomial@, override_models(prover_overrides@), ch)
                &&& transcript_holds(
                    final(transcript)@,
                    old(transcript)@.len() as int,
                    rounds_passed(r, polynomial.num_vars as nat),
                    polynomial@,
                    override_models(prover_overrides@),
                    ch,
                )
            },
        final(transcript)@.len() == old(transcript)@.len() + rounds_passed(
            r,
            polynomial.num_vars as nat,
        ),
        final(transcript)@.subrange(0, old(transcript)@.len() as int) == old(transcript)@,
        prover_overrides@ == Map::<usize, MultiVarPolynomial>::empty() ==> r == Ok::<
            (),
            Rejection,
        >(()),
{
    let ghost p = polynomial@;
    let ghost ov = override_models(prover_overrides@);
    let ghost vo = verifier_overrides@;
    let ghost start = transcript@;
    let n = polynomial.num_vars;
    let m = polynomial.modulus;
    let mut values: Vec<(usize, i32)> = Vec::new();
    let mut drawn: Vec<i32> = Vec::new();
    let mut g_prev = compute_g_j(polynomial, 0, Vec::new());
    let mut k: usize = 0;
    assert(values@ =~= fixed_prefix(drawn@, 0));
    while k < n
        invariant
            p == polynomial@,
            ov == override_models(prover_overrides@),
            vo == verifier_overrides@,
            n == polynomial.num_vars,
            m == polynomial.modulus,
            p.wf(),
            n >= 1,
            overrides_wf(prover_overrides@),
            k <= n,
            drawn@.len() == k,
            forall|q: int|
                0 <= q < k ==> if vo.contains_key((q + 1) as usize) {
                    #[trigger] drawn@[q] == vo[(q + 1) as usize]
                } else {
                    0 <= drawn@[q] < m
                },
            values@ == fixed_prefix(drawn@, k as nat),
            forall|i: nat| 1 <= i <= k ==> #[trigger] round_failure(p, ov, drawn@, i) is None,
            k == 0 ==> g_prev@ == honest_message(p, Seq::empty(), 0),
            k > 0 ==> g_prev@ == round_message(p, ov, drawn@, k as nat),
            k > 0 ==> g_prev.num_vars == 1,
            g_prev@.wf(),
            start == old(transcript)@,
            transcript@.len() == start.len() + k,
            transcript@.subrange(0, start.len() as int) == start,
            transcript_holds(transcript@, start.len() as int, k as nat, p, ov, drawn@),
        decreases n - k,
    {
        let j: usize = k + 1;
        let ghost w = Seq::new(
            n as nat,
            |i: int|
                if i < k {
                    drawn@[i]
                } else if vo.contains_key((i + 1) as usize) {
                    vo[(i + 1) as usize]
                } else {
                    0i32
                },
        );
        proof {
            assert forall|i: nat| 1 <= i <= j implies #[trigger] round_failure(p, ov, w, i)
                == round_failure(p, ov, drawn@, i) by {
                lemma_failure_prefix(p, ov, w, drawn@, i);
            }
            assert(challenges_allowed(w, vo, n as nat, m as int));
            assert(transcript_holds(transcript@, start.len() as int, k as nat, p, ov, w)) by {
                assert forall|q: int| 0 <= q < k implies {
                    &&& (#[trigger] transcript@[start.len() + q]).0@ == round_message(
                        p,
                        ov,
                        w,
                        (q + 1) as nat,
                    )
                    &&& transcript@[start.len() + q].1 == w[q]
                } by {
                    lemma_message_prefix(p, ov, w, drawn@, (q + 1) as nat);
                }
            }
            if prover_overrides@ == Map::<usize, MultiVarPolynomial>::empty() {
                assert(ov =~= Map::<usize, PolyModel>::empty());
                lemma_completeness(p, w);
            }
            lemma_outcome_after_passed_rounds(p, ov, w, j as nat);
        }
        let g = match prover_overrides.get(&j) {
            Some(o) => o.duplicate(),
            None => compute_g_j(polynomial, 1, copy_assignment(&values)),
        };
        assert(g@ == round_message(p, ov, drawn@, j as nat));
        if g.num_vars != 1 {
            return Err(Rejection { reason: RejectReason::NotUnivariate, round: j });
        }
        let dg = g.degree_in_var(0);
        let dp = polynomial.degree_in_var(j - 1);
        // both indices are below the number of variables, so both are `Ok`
        match (dg, dp) {
            (Ok(a), Ok(b)) => {
                if a > b {
                    return Err(Rejection { reason: RejectReason::DegreeExceeded, round: j });
                }
            },
            _ => {},
        }
        let mut point: Vec<(usize, i32)> = Vec::new();
        if j > 1 {
            point.push((0, drawn[j - 2]));
        }
        let claim = g_prev.substitute(&point);
        let sum = g.bool_sum();
        proof {
            if j > 1 {
                assert(point@ =~= seq![(0usize, drawn@[j - 2])]);
            } else {
                assert(point@ =~= Seq::<(usize, i32)>::empty());
            }
        }
        if !claim.same_values(&sum) {
            return Err(Rejection { reason: RejectReason::ConsistencyFailure, round: j });
        }
        let r = match verifier_overrides.get(&j) {
            Some(v) => *v,
            None => sample_challenge(m),
        };
        let ghost old_drawn = drawn@;
        drawn.push(r);
        values.push((k, r));
        transcript.push((g.duplicate(), r));
        proof {
            assert(values@ =~= fixed_prefix(drawn@, j as nat));
            assert forall|i: nat| 1 <= i <= j implies #[trigger] round_failure(p, ov, drawn@, i)
                is None by {
                lemma_failure_prefix(p, ov, drawn@, old_drawn, i);
            }
            lemma_message_prefix(p, ov, drawn@, old_drawn, j as nat);
            assert(transcript@.subrange(0, start.len() as int) =~= start);
            assert forall|q: int| 0 <= q < j implies {
                &&& (#[trigger] transcript@[start.len() + q]).0@ == round_message(
                    p,
                    ov,
                    drawn@,
                    (q + 1) as nat,
                )
                &&& transcript@[start.len() + q].1 == drawn@[q]
            } by {
                lemma_message_prefix(p, ov, drawn@, old_drawn, (q + 1) as nat);
            }
        }
        g_prev = g;
        k = k + 1;
    }
    proof {
        assert(challenges_allowed(drawn@, vo, n as nat, m as int));
        if prover_overrides@ == Map::<usize, MultiVarPolynomial>::empty() {
            assert(ov =~= Map::<usize, PolyModel>::empty());
            lemma_completeness(p, drawn@);
        }
        lemma_outcome_after_passed_rounds(p, ov, drawn@, (n + 1) as nat);
    }
    let lhs = polynomial.substitute(&values);
    let mut point: Vec<(usize, i32)> = Vec::new();
    point.push((0, drawn[n - 1]));
    assert(point@ =~= seq![(0usize, drawn@[n - 1])]);
    let rhs = g_prev.substitute(&point);
    if !lhs.same_values(&rhs) {
        return Err(Rejection { reason: RejectReason::FinalCheckFailure, round: n });
    }
    Ok(())
}

/// Runs the protocol with the verifier's challenges given in order
/// (`challenges[k - 1]` is `r_k`), the prover answering as in `run_protocol`.
pub fn run_protocol_with_challenges(
    polynomial: &MultiVarPolynomial,
    prover_overrides: &HashMap<usize, MultiVarPolynomial>,
    challenges: &Vec<i32>,
    transcript: &mut Vec<(MultiVarPolynomial, i32)>,
) -> (r: Result<(), Rejection>)
    requires
        polynomial@.wf(),
        polynomial.num_vars >= 1,
        overrides_wf(prover_overrides@),
        challenges@.len() == polynomial.num_vars,
    ensures
        r == protocol_outcome(polynomial@, override_models(prover_overrides@), challenges@),
        prover_overrides@ == Map::<usize, MultiVarPolynomial>::empty() ==> r == Ok::<
            (),
            Rejection,
        >(()),
        final(transcript)@.len() == old(transcript)@.len() + rounds_passed(
            r,
            polynomial.num_vars as nat,
        ),
        final(transcript)@.subrange(0, old(transcript)@.len() as int) == old(transcript)@,
        transcript_holds(
            final(transcript)@,
            old(transcript)@.len() as int,
            rounds_passed(r, polynomial.num_vars as nat),
            polynomial@,
            override_models(prover_overrides@),
            challenges@,
        ),
{
    let n = challenges.len();
    let mut forced: HashMap<usize, i32> = HashMap::new();
    let mut i: usize = 0;
    while i < n
        invariant
            n == challenges@.len(),
            i <= n,
            forall|key: usize| #[trigger] forced@.contains_key(key) <==> 1 <= key <= i,
            forall|key: usize| 1 <= key <= i ==> #[trigger] forced@[key] == challenges@[key - 1],
        decreases n - i,
    {
        forced.insert(i + 1, challenges[i]);
        i = i + 1;
    }
    let r = run_protocol(polynomial, prover_overrides, &forced, transcript);
    proof {
        let ch = choose|ch: Seq<i32>|
            {
                &&& challenges_allowed(ch, forced@, n as nat, polynomial.modulus as int)
                &&& r == protocol_outcome(polynomial@, override_models(prover_overrides@), ch)
                &&& transcript_holds(
                    transcript@,
                    old(transcript)@.len() as int,
                    rounds_passed(r, n as nat),
                    polynomial@,
                    override_models(prover_overrides@),
                    ch,
                )
            };
        assert forall|q: int| 0 <= q < n implies ch[q] == challenges@[q] by {
            assert(forced@.contains_key((q + 1) as usize));
            assert(ch[q] == forced@[(q + 1) as usize]);
        }
        assert(ch =~= challenges@);
    }
    r
}

/// A copy of an assignment.
fn copy_assignment(values: &Vec<(usize, i32)>) -> (r: Vec<(usize, i32)>)
    ensures
        r@ == values@,
{
    let mut r: Vec<(usize, i32)> = Vec::new();
    let mut i: usize = 0;
    while i < values.len()
        invariant
            i <= values@.len(),
            r@ == values@.subrange(0, i as int),
        decreases values.len() - i,
    {
        r.push(values[i]);
        i = i + 1;
        assert(r@ =~= values@.subrange(0, i as int));
    }
    assert(values@.subrange(0, values@.len() as int) =~= values@);
    r
}

/// Relies on rand's `thread_rng` and `Rng::gen_range`: a value drawn from
/// `[0, modulus)`. `gen_range` panics on an empty range, which `modulus > 0`
/// rules out.
#[verifier::external_body]
fn sample_challenge(modulus: i32) -> (r: i32)
    requires
        modulus > 0,
    ensures
        0 <= r < modulus,
{
    rand::thread_rng().gen_range(0..modulus)
}

pub(crate) proof fn lemma_outcome_after_passed_rounds(
    p: PolyModel,
    overrides: Map<usize, PolyModel>,
    challenges: Seq<i32>,
    j: nat,
)
    requires
        1 <= j <= p.num_vars + 1,
        forall|i: nat| 1 <= i < j ==> #[trigger] round_failure(p, overrides, challenges, i) is None,
    ensures
        protocol_outcome(p, overrides, challenges) == outcome_from(p, overrides, challenges, j),
    decreases j,
{
    if j > 1 {
        lemma_outcome_after_passed_rounds(p, overrides, challenges, (j - 1) as nat);
        assert(round_failure(p, overrides, challenges, (j - 1) as nat) is None);
    }
}

/// A substituted message that is univariate and within the degree bound but
/// does not sum to the claim of its round is rejected in that round, with
/// `ConsistencyFailure`, whenever every earlier round passed. This holds for
/// every choice of challenges.
pub proof fn lemma_inconsistent_message_rejected(
    p: PolyModel,
    overrides: Map<usize, PolyModel>,
    challenges: Seq<i32>,
    j: nat,
)
    requires
        1 <= j <= p.num_vars,
        forall|i: nat| 1 <= i < j ==> #[trigger] round_failure(p, overrides, challenges, i) is None,
        overrides.contains_key(j as usize),
        overrides[j as usize].num_vars == 1,
        degree_of(overrides[j as usize].terms, 0) <= degree_of(p.terms, j - 1),
        !poly_equal(
            round_claim(p, overrides, challenges, j),
            overrides[j as usize].bool_sum_model(),
        ),
    ensures
        protocol_outcome(p, overrides, challenges) == Err::<(), Rejection>(
            Rejection { reason: RejectReason::ConsistencyFailure, round: j as usize },
        ),
{
    lemma_outcome_after_passed_rounds(p, overrides, challenges, j);
    assert(round_failure(p, overrides, challenges, j) == Some(RejectReason::ConsistencyFailure));
}

} // verus!

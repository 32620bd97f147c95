use std::collections::HashMap;
use sumcheck::{
    compute_g_j, run_protocol, run_protocol_with_challenges, MultiVarPolynomial, RejectReason,
    Rejection,
};

fn poly(num_vars: usize, modulus: i32, terms: &[(&[usize], i32)]) -> MultiVarPolynomial {
    let mut p = MultiVarPolynomial::new(num_vars, modulus).unwrap();
    for (e, c) in terms {
        p.add_term(e.to_vec(), *c).unwrap();
    }
    p
}

fn example() -> MultiVarPolynomial {
    // 2*x_1^3 + x_1*x_3 + x_2*x_3 over Z/97
    let mut polynomial = MultiVarPolynomial::new(3, 97).unwrap();
    polynomial.add_term(vec![3, 0, 0], 2).unwrap();
    polynomial.add_term(vec![1, 0, 1], 1).unwrap();
    polynomial.add_term(vec![0, 1, 1], 1).unwrap();
    polynomial
}

#[test]
fn test_run_protocol_with_success() {
    let polynomial = example();
    let mut verifier_overrides: HashMap<usize, i32> = HashMap::new();
    verifier_overrides.insert(1, 2);
    verifier_overrides.insert(2, 3);
    verifier_overrides.insert(3, 6);
    let prover_overrides: HashMap<usize, MultiVarPolynomial> = HashMap::new();
    let result = run_protocol(&polynomial, &prover_overrides, &verifier_overrides, &mut Vec::new());
    assert!(result.is_ok(), "The protocol should have succeeded");
}

#[test]
fn test_run_protocol_with_fail() {
    let polynomial = example();
    let verifier_overrides: HashMap<usize, i32> = HashMap::new();
    let mut incorrect_g1 = MultiVarPolynomial::new(1, 97).unwrap();
    incorrect_g1.add_term(vec![3], 8).unwrap();
    incorrect_g1.add_term(vec![1], 2).unwrap();
    let mut prover_overrides: HashMap<usize, MultiVarPolynomial> = HashMap::new();
    prover_overrides.insert(1, incorrect_g1);
    let result = run_protocol(&polynomial, &prover_overrides, &verifier_overrides, &mut Vec::new());
    assert_eq!(
        result,
        Err(Rejection { reason: RejectReason::ConsistencyFailure, round: 1 })
    );
}

#[test]
fn honest_runs_accept_with_random_challenges() {
    for _ in 0..20 {
        let r = run_protocol(&example(), &HashMap::new(), &HashMap::new(), &mut Vec::new());
        assert_eq!(r, Ok(()));
    }
    let p = poly(2, 5, &[(&[1, 0], 2), (&[0, 1], 3), (&[2, 2], 4)]);
    for _ in 0..20 {
        assert_eq!(run_protocol(&p, &HashMap::new(), &HashMap::new(), &mut Vec::new()), Ok(()));
    }
}

#[test]
fn honest_runs_accept_with_fixed_challenges() {
    let p = example();
    for r in [vec![0, 0, 0], vec![1, 96, 50], vec![5, 7, 11]] {
        assert_eq!(run_protocol_with_challenges(&p, &HashMap::new(), &r, &mut Vec::new()), Ok(()));
    }
}

#[test]
fn compute_g_j_claimed_sum() {
    // sum over {0,1}^3 of 2x^3 + xz + yz = 8 + 2 + 2 = 12
    let p = example();
    let c = compute_g_j(&p, 0, vec![]);
    assert_eq!(c.num_vars, 0);
    assert_eq!(c.coefficient(&vec![]), Some(12));
    // g_1(X) = 8X^3 + 2X + 1... computed: sum over y,z of 2X^3 + Xz + yz = 8X^3 + 2X + 1
    let g1 = compute_g_j(&p, 1, vec![]);
    assert_eq!(g1, poly(1, 97, &[(&[3], 8), (&[1], 2), (&[0], 1)]));
}

#[test]
fn rejects_message_that_is_not_univariate() {
    let p = example();
    let mut ov = HashMap::new();
    ov.insert(2, poly(2, 97, &[(&[1, 0], 1)]));
    let r = run_protocol_with_challenges(&p, &ov, &vec![2, 3, 6], &mut Vec::new());
    assert_eq!(r, Err(Rejection { reason: RejectReason::NotUnivariate, round: 2 }));
}

#[test]
fn rejects_message_of_too_high_degree() {
    let p = poly(1, 97, &[(&[1], 1)]);
    let mut ov = HashMap::new();
    ov.insert(1, poly(1, 97, &[(&[2], 1)]));
    let r = run_protocol_with_challenges(&p, &ov, &vec![4], &mut Vec::new());
    assert_eq!(r, Err(Rejection { reason: RejectReason::DegreeExceeded, round: 1 }));
}

#[test]
fn rejects_at_final_check() {
    // p = x, claim 1; g_1 = 1 - x sums to 1 but g_1(5) = 93 != 5
    let p = poly(1, 97, &[(&[1], 1)]);
    let mut ov = HashMap::new();
    ov.insert(1, poly(1, 97, &[(&[0], 1), (&[1], 96)]));
    let r = run_protocol_with_challenges(&p, &ov, &vec![5], &mut Vec::new());
    assert_eq!(r, Err(Rejection { reason: RejectReason::FinalCheckFailure, round: 1 }));
}

#[test]
fn rejects_wrong_message_at_later_round() {
    // an honest g_1, then a g_2 that does not sum to g_1(r_1)
    let p = example();
    let mut ov = HashMap::new();
    ov.insert(2, poly(1, 97, &[(&[1], 1)]));
    let r = run_protocol_with_challenges(&p, &ov, &vec![2, 3, 6], &mut Vec::new());
    assert_eq!(r, Err(Rejection { reason: RejectReason::ConsistencyFailure, round: 2 }));
}

#[test]
fn transcript_records_each_message_and_challenge() {
    let p = example();
    let mut transcript = Vec::new();
    let r = run_protocol_with_challenges(&p, &HashMap::new(), &vec![2, 3, 6], &mut transcript);
    assert_eq!(r, Ok(()));
    assert_eq!(transcript.len(), 3);
    assert_eq!(transcript[0].0, poly(1, 97, &[(&[3], 8), (&[1], 2), (&[0], 1)]));
    let challenges: Vec<i32> = transcript.iter().map(|t| t.1).collect();
    assert_eq!(challenges, vec![2, 3, 6]);
    // g_3(X) = 2*2^3 + 2X + 3X = 16 + 5X
    assert_eq!(transcript[2].0, poly(1, 97, &[(&[0], 16), (&[1], 5)]));
}

#[test]
fn transcript_stops_at_rejected_round() {
    let p = example();
    let mut ov = HashMap::new();
    ov.insert(2, poly(1, 97, &[(&[1], 1)]));
    let mut transcript = Vec::new();
    let r = run_protocol_with_challenges(&p, &ov, &vec![2, 3, 6], &mut transcript);
    assert_eq!(r, Err(Rejection { reason: RejectReason::ConsistencyFailure, round: 2 }));
    // only round 1 passed, so only (g_1, r_1) is recorded
    assert_eq!(transcript.len(), 1);
    assert_eq!(transcript[0].1, 2);
}

#[test]
fn random_challenges_follow_overrides_and_range() {
    let mut vo = HashMap::new();
    vo.insert(2, 40);
    for _ in 0..50 {
        let mut transcript = Vec::new();
        let r = run_protocol(&example(), &HashMap::new(), &vo, &mut transcript);
        assert_eq!(r, Ok(()));
        assert_eq!(transcript.len(), 3);
        assert!(0 <= transcript[0].1 && transcript[0].1 < 97);
        assert_eq!(transcript[1].1, 40);
        assert!(0 <= transcript[2].1 && transcript[2].1 < 97);
    }
}

#[test]
fn checks_compare_values_not_stored_terms() {
    // x + 2 over Z/5: the claimed sum is 2 + 3 = 0, stored as an explicit zero term
    let p = poly(1, 5, &[(&[1], 1), (&[0], 2)]);
    let c = compute_g_j(&p, 0, vec![]);
    assert_eq!(c.coefficient(&vec![]), Some(0));
    // the empty message also sums to 0, so round 1 passes
    let mut ov = HashMap::new();
    ov.insert(1, MultiVarPolynomial::new(1, 5).unwrap());
    let mut vo = HashMap::new();
    vo.insert(1, 1);
    let mut transcript = Vec::new();
    let r = run_protocol(&p, &ov, &vo, &mut transcript);
    assert_eq!(r, Err(Rejection { reason: RejectReason::FinalCheckFailure, round: 1 }));
    assert_eq!(transcript.len(), 1);
    // at r_1 = 3 both are 0 and the run is accepted
    vo.insert(1, 3);
    assert_eq!(run_protocol(&p, &ov, &vo, &mut Vec::new()), Ok(()));
}

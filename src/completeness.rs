//! Completeness of the protocol: with an honest prover every check passes,
//! whatever the challenges. The argument evaluates every intermediate
//! polynomial at points of the field and sums over the boolean hypercube.
use crate::algebra::lemma_add_terms_coeff;
use crate::polynomial::{
    accumulate, add_terms, assigned_factor, assigned_value, degree_of, evaluated_term, has_key,
    key_index, kept_exponents, lemma_accumulate_ok, lemma_assigned_value, lemma_degree_is_max,
    partial_eval_terms, terms_ok, PolyModel, TermModel,
};
use crate::protocol::{
    final_check_passes, fixed_prefix, honest_message, lemma_inconsistent_message_rejected,
    lemma_outcome_after_passed_rounds, poly_equal, protocol_outcome, round_claim, round_failure,
    round_message, sum_down, RejectReason, Rejection,
};
use vstd::arithmetic::div_mod::{
    lemma_add_mod_noop, lemma_fundamental_div_mod, lemma_mod_multiples_vanish,
    lemma_mul_mod_noop_left, lemma_small_mod,
};
use vstd::arithmetic::mul::lemma_mul_is_associative;
use vstd::arithmetic::power::pow;
use vstd::prelude::*;

verus! {

proof fn lemma_sum_down_num_vars(x: PolyModel, k: nat)
    requires
        x.num_vars >= k,
    ensures
        sum_down(x, k).num_vars == k,
        sum_down(x, k).modulus == x.modulus,
    decreases x.num_vars,
{
    if x.num_vars > k {
        lemma_sum_down_num_vars(x.bool_sum_model(), k);
    }
}

/// Every honest round message has exactly one variable, so an honest prover
/// never fails the univariate check.
pub proof fn lemma_honest_message_univariate(p: PolyModel, challenges: Seq<i32>, j: nat)
    requires
        1 <= j <= p.num_vars,
    ensures
        honest_message(p, fixed_prefix(challenges, (j - 1) as nat), 1).num_vars == 1,
{
    lemma_sum_down_num_vars(p.partial_eval_model(fixed_prefix(challenges, (j - 1) as nat)), 1);
}

/// Every exponent tuple has `r` entries and its first entry is at most `d`.
spec fn shaped(s: Seq<TermModel>, r: nat, d: nat) -> bool {
    forall|i: int| 0 <= i < s.len() ==> (#[trigger] s[i]).0.len() == r && s[i].0[0] <= d
}

proof fn lemma_accumulate_shaped(s: Seq<TermModel>, k: Seq<usize>, v: int, m: int, r: nat, d: nat)
    requires
        shaped(s, r, d),
        k.len() == r,
        k[0] <= d,
    ensures
        shaped(accumulate(s, k, v, m), r, d),
{
    let acc = accumulate(s, k, v, m);
    if has_key(s, k) {
        let idx = key_index(s, k);
        assert forall|i: int| 0 <= i < acc.len() implies (#[trigger] acc[i]).0.len() == r
            && acc[i].0[0] <= d by {
            if i != idx {
                assert(acc[i] == s[i]);
            }
        }
    } else {
        assert forall|i: int| 0 <= i < acc.len() implies (#[trigger] acc[i]).0.len() == r
            && acc[i].0[0] <= d by {
            if i < s.len() {
                assert(acc[i] == s[i]);
            }
        }
    }
}

proof fn lemma_add_shaped(s: Seq<TermModel>, t: Seq<TermModel>, m: int, r: nat, d: nat)
    requires
        shaped(s, r, d),
        shaped(t, r, d),
    ensures
        shaped(add_terms(s, t, m), r, d),
    decreases t.len(),
{
    if t.len() > 0 {
        let t2 = t.drop_last();
        assert forall|i: int| 0 <= i < t2.len() implies (#[trigger] t2[i]).0.len() == r
            && t2[i].0[0] <= d by {
            assert(t2[i] == t[i]);
        }
        lemma_add_shaped(s, t2, m, r, d);
        assert(t.last() == t[t.len() - 1]);
        lemma_accumulate_shaped(add_terms(s, t2, m), t.last().0, t.last().1, m, r, d);
    }
}

proof fn lemma_partial_eval_shaped(s: Seq<TermModel>, a: Seq<(usize, i32)>, m: int, r: nat, d: nat)
    requires
        forall|j: int|
            0 <= j < s.len() ==> (#[trigger] kept_exponents(s[j].0, a, s[j].0.len())).len() == r
                && kept_exponents(s[j].0, a, s[j].0.len())[0] <= d,
    ensures
        shaped(partial_eval_terms(s, a, m), r, d),
    decreases s.len(),
{
    if s.len() == 0 {
    } else {
        let s2 = s.drop_last();
        assert forall|j: int| 0 <= j < s2.len() implies (#[trigger] kept_exponents(
            s2[j].0,
            a,
            s2[j].0.len(),
        )).len() == r && kept_exponents(s2[j].0, a, s2[j].0.len())[0] <= d by {
            assert(s2[j] == s[j]);
        }
        lemma_partial_eval_shaped(s2, a, m, r, d);
        assert(s.last() == s[s.len() - 1]);
        let t = evaluated_term(s.last(), a, m);
        lemma_accumulate_shaped(partial_eval_terms(s2, a, m), t.0, t.1, m, r, d);
    }
}

proof fn lemma_prefix_assigned(challenges: Seq<i32>, k: nat, p: int)
    requires
        k <= usize::MAX,
    ensures
        assigned_value(fixed_prefix(challenges, k), p) is Some <==> 0 <= p < k,
{
    let a = fixed_prefix(challenges, k);
    lemma_assigned_value(a, p);
    if 0 <= p < k {
        assert(a[p].0 == p);
    }
}

proof fn lemma_kept_prefix(e: Seq<usize>, challenges: Seq<i32>, k: nat, len: nat)
    requires
        k <= usize::MAX,
        len <= e.len(),
    ensures
        len <= k ==> kept_exponents(e, fixed_prefix(challenges, k), len) == Seq::<usize>::empty(),
        len >= k ==> kept_exponents(e, fixed_prefix(challenges, k), len) == e.subrange(
            k as int,
            len as int,
        ),
    decreases len,
{
    if len > 0 {
        lemma_kept_prefix(e, challenges, k, (len - 1) as nat);
        lemma_prefix_assigned(challenges, k, len - 1);
        let prev = kept_exponents(e, fixed_prefix(challenges, k), (len - 1) as nat);
        if len > k {
            if len - 1 >= k {
                assert(prev + seq![e[len - 1]] =~= e.subrange(k as int, len as int));
            } else {
                assert(prev + seq![e[len - 1]] =~= e.subrange(k as int, len as int));
            }
        } else {
            assert(prev + Seq::<usize>::empty() =~= Seq::<usize>::empty());
        }
    } else if k == 0 {
        assert(e.subrange(0, 0) =~= Seq::<usize>::empty());
    }
}

proof fn lemma_kept_last(e: Seq<usize>, v: i32, r: nat, len: nat)
    requires
        1 <= r <= usize::MAX,
        len <= r,
        e.len() == r,
    ensures
        len < r ==> kept_exponents(e, seq![((r - 1) as usize, v)], len) == e.subrange(0, len as int),
        len == r ==> kept_exponents(e, seq![((r - 1) as usize, v)], len) == e.subrange(
            0,
            r - 1,
        ),
    decreases len,
{
    let a = seq![((r - 1) as usize, v)];
    if len > 0 {
        lemma_kept_last(e, v, r, (len - 1) as nat);
        assert(a.drop_last() =~= Seq::<(usize, i32)>::empty());
        let prev = kept_exponents(e, a, (len - 1) as nat);
        if len < r {
            assert(a.last().0 as int == r - 1);
            assert(assigned_value(a.drop_last(), len - 1) is None);
            assert(assigned_value(a, len - 1) is None);
            assert(prev + seq![e[len - 1]] =~= e.subrange(0, len as int));
        } else {
            assert(assigned_value(a, len - 1) is Some);
            assert(prev + Seq::<usize>::empty() =~= e.subrange(0, r - 1));
        }
    } else {
        assert(e.subrange(0, 0) =~= Seq::<usize>::empty());
    }
}

proof fn lemma_sum_down_shaped(x: PolyModel, d: nat)
    requires
        1 <= x.num_vars <= usize::MAX,
        shaped(x.terms, x.num_vars, d),
    ensures
        shaped(sum_down(x, 1).terms, 1, d),
    decreases x.num_vars,
{
    if x.num_vars > 1 {
        let r = x.num_vars;
        assert forall|j: int| 0 <= j < x.terms.len() implies (#[trigger] kept_exponents(
            x.terms[j].0,
            seq![((r - 1) as usize, 0i32)],
            x.terms[j].0.len(),
        )).len() == (r - 1) as nat && kept_exponents(
            x.terms[j].0,
            seq![((r - 1) as usize, 0i32)],
            x.terms[j].0.len(),
        )[0] <= d by {
            lemma_kept_last(x.terms[j].0, 0, r, r);
        }
        assert forall|j: int| 0 <= j < x.terms.len() implies (#[trigger] kept_exponents(
            x.terms[j].0,
            seq![((r - 1) as usize, 1i32)],
            x.terms[j].0.len(),
        )).len() == (r - 1) as nat && kept_exponents(
            x.terms[j].0,
            seq![((r - 1) as usize, 1i32)],
            x.terms[j].0.len(),
        )[0] <= d by {
            lemma_kept_last(x.terms[j].0, 1, r, r);
        }
        let f0 = x.fix_last(0);
        let f1 = x.fix_last(1);
        lemma_partial_eval_shaped(x.terms, seq![((r - 1) as usize, 0i32)], x.modulus, (r - 1) as nat, d);
        lemma_partial_eval_shaped(x.terms, seq![((r - 1) as usize, 1i32)], x.modulus, (r - 1) as nat, d);
        lemma_add_shaped(f0.terms, f1.terms, x.modulus, (r - 1) as nat, d);
        lemma_sum_down_shaped(x.bool_sum_model(), d);
    }
}

/// An honest round message is never of higher degree in its variable than
/// the original polynomial in the variable of that round, so an honest
/// prover never fails the degree check.
pub proof fn lemma_honest_message_degree(p: PolyModel, challenges: Seq<i32>, j: nat)
    requires
        p.wf(),
        1 <= j <= p.num_vars,
        p.num_vars <= usize::MAX,
    ensures
        degree_of(honest_message(p, fixed_prefix(challenges, (j - 1) as nat), 1).terms, 0)
            <= degree_of(p.terms, j - 1),
{
    let k = (j - 1) as nat;
    let a = fixed_prefix(challenges, k);
    let n = p.num_vars;
    let d = degree_of(p.terms, j - 1);
    lemma_degree_is_max(p.terms, j - 1);
    assert forall|i: int| 0 <= i < p.terms.len() implies (#[trigger] kept_exponents(
        p.terms[i].0,
        a,
        p.terms[i].0.len(),
    )).len() == (n - k) as nat && kept_exponents(p.terms[i].0, a, p.terms[i].0.len())[0]
        <= d by {
        lemma_kept_prefix(p.terms[i].0, challenges, k, n);
    }
    lemma_partial_eval_shaped(p.terms, a, p.modulus, (n - k) as nat, d);
    let x = p.partial_eval_model(a);
    assert(x.num_vars == n - k);
    lemma_sum_down_shaped(x, d);
    let g = honest_message(p, a, 1);
    lemma_degree_is_max(g.terms, 0);
    if g.terms.len() > 0 {
        let i = choose|i: int| 0 <= i < g.terms.len() && (#[trigger] g.terms[i]).0[0] == degree_of(g.terms, 0);
        assert(g.terms[i].0[0] <= d);
    }
}

/// The product of `pt[j]^e[j]` over the positions of `e`.
pub open spec fn monomial(e: Seq<usize>, pt: Seq<int>) -> int
    decreases e.len(),
{
    if e.len() == 0 || pt.len() == 0 {
        1
    } else {
        monomial(e.drop_last(), pt.drop_last()) * pow(pt.last(), e.last() as nat)
    }
}

/// The value of a term list at a point, before reduction modulo the modulus.
pub open spec fn value_at(s: Seq<TermModel>, pt: Seq<int>) -> int
    decreases s.len(),
{
    if s.len() == 0 {
        0
    } else {
        value_at(s.drop_last(), pt) + s.last().1 * monomial(s.last().0, pt)
    }
}

proof fn lemma_value_push(s: Seq<TermModel>, t: TermModel, pt: Seq<int>)
    ensures
        value_at(s.push(t), pt) == value_at(s, pt) + t.1 * monomial(t.0, pt),
{
    assert(s.push(t).drop_last() =~= s);
}

proof fn lemma_value_update(s: Seq<TermModel>, i: int, c: int, pt: Seq<int>)
    requires
        0 <= i < s.len(),
    ensures
        value_at(s.update(i, (s[i].0, c)), pt) == value_at(s, pt) + (c - s[i].1) * monomial(
            s[i].0,
            pt,
        ),
    decreases s.len(),
{
    let u = s.update(i, (s[i].0, c));
    if i == s.len() - 1 {
        assert(u.drop_last() =~= s.drop_last());
        assert((c - s[i].1) * monomial(s[i].0, pt) == c * monomial(s[i].0, pt) - s[i].1 * monomial(
            s[i].0,
            pt,
        )) by (nonlinear_arith);
    } else {
        lemma_value_update(s.drop_last(), i, c, pt);
        assert(u.drop_last() =~= s.drop_last().update(i, (s[i].0, c)));
    }
}

/// Accumulating `v` at `k` adds `v * monomial(k, pt)` to the value, modulo `m`.
proof fn lemma_accumulate_value(s: Seq<TermModel>, k: Seq<usize>, v: int, m: int, pt: Seq<int>)
    requires
        m > 0,
    ensures
        value_at(accumulate(s, k, v, m), pt) % m == (value_at(s, pt) + v * monomial(k, pt)) % m,
{
    let mk = monomial(k, pt);
    if has_key(s, k) {
        let i = key_index(s, k);
        let x = s[i].1 + v;
        lemma_value_update(s, i, x % m, pt);
        lemma_fundamental_div_mod(x, m);
        let q = x / m;
        assert(value_at(s, pt) + (x % m - s[i].1) * mk == m * (-q * mk) + (value_at(s, pt) + v
            * mk)) by (nonlinear_arith)
            requires
                x == m * q + x % m,
                x == s[i].1 + v,
        ;
        lemma_mod_multiples_vanish(-q * mk, value_at(s, pt) + v * mk, m);
    } else {
        lemma_value_push(s, (k, v % m), pt);
        lemma_mul_mod_noop_left(v, mk, m);
        lemma_add_mod_noop(value_at(s, pt), (v % m) * mk, m);
        lemma_add_mod_noop(value_at(s, pt), v * mk, m);
    }
}

/// The value of a term-wise sum is the sum of the values, modulo `m`.
pub proof fn lemma_add_value(s: Seq<TermModel>, t: Seq<TermModel>, m: int, pt: Seq<int>)
    requires
        m > 0,
    ensures
        value_at(add_terms(s, t, m), pt) % m == (value_at(s, pt) + value_at(t, pt)) % m,
    decreases t.len(),
{
    if t.len() > 0 {
        let t2 = t.drop_last();
        lemma_add_value(s, t2, m, pt);
        let a2 = add_terms(s, t2, m);
        lemma_accumulate_value(a2, t.last().0, t.last().1, m, pt);
        let w = t.last().1 * monomial(t.last().0, pt);
        lemma_add_mod_noop(value_at(a2, pt), w, m);
        lemma_add_mod_noop(value_at(s, pt) + value_at(t2, pt), w, m);
    }
}

/// Substitution keeps the value: where each term's substituted factor times
/// its free monomial at `q` is its monomial at `full`, the substituted list
/// has at `q` the value of the original at `full`, modulo `m`.
proof fn lemma_partial_eval_value(
    s: Seq<TermModel>,
    a: Seq<(usize, i32)>,
    m: int,
    q: Seq<int>,
    full: Seq<int>,
)
    requires
        m > 0,
        forall|i: int|
            0 <= i < s.len() ==> assigned_factor(#[trigger] s[i].0, a, s[i].0.len()) * monomial(
                kept_exponents(s[i].0, a, s[i].0.len()),
                q,
            ) == monomial(s[i].0, full),
    ensures
        value_at(partial_eval_terms(s, a, m), q) % m == value_at(s, full) % m,
    decreases s.len(),
{
    if s.len() > 0 {
        let s2 = s.drop_last();
        assert forall|i: int| 0 <= i < s2.len() implies assigned_factor(
            #[trigger] s2[i].0,
            a,
            s2[i].0.len(),
        ) * monomial(kept_exponents(s2[i].0, a, s2[i].0.len()), q) == monomial(s2[i].0, full) by {
            assert(s2[i] == s[i]);
        }
        lemma_partial_eval_value(s2, a, m, q, full);
        let e = s.last().0;
        let c = s.last().1;
        assert(s.last() == s[s.len() - 1]);
        let f = assigned_factor(e, a, e.len());
        let mk = monomial(kept_exponents(e, a, e.len()), q);
        let t = evaluated_term(s.last(), a, m);
        let prev = partial_eval_terms(s2, a, m);
        lemma_accumulate_value(prev, t.0, t.1, m, q);
        // ((c * f) % m) * mk and c * f * mk agree modulo m
        lemma_mul_mod_noop_left(c * f, mk, m);
        lemma_mul_is_associative(c, f, mk);
        lemma_add_mod_noop(value_at(prev, q), t.1 * mk, m);
        lemma_add_mod_noop(value_at(s2, full), c * monomial(e, full), m);
        lemma_add_mod_noop(value_at(prev, q), c * monomial(e, full), m);
        lemma_add_mod_noop(value_at(s2, full), c * monomial(e, full), m);
    }
}

/// The first `k` challenges as a point.
pub open spec fn as_point(challenges: Seq<i32>, k: nat) -> Seq<int> {
    Seq::new(k, |i: int| challenges[i] as int)
}

proof fn lemma_prefix_value(challenges: Seq<i32>, k: nat, p: int)
    requires
        k <= usize::MAX,
        0 <= p,
    ensures
        p < k ==> assigned_value(fixed_prefix(challenges, k), p) == Some(challenges[p]),
        p >= k ==> assigned_value(fixed_prefix(challenges, k), p) is None,
    decreases k,
{
    if k > 0 {
        let a = fixed_prefix(challenges, k);
        assert(a.drop_last() =~= fixed_prefix(challenges, (k - 1) as nat));
        lemma_prefix_value(challenges, (k - 1) as nat, p);
    }
}

proof fn lemma_monomial_split(e: Seq<usize>, x: Seq<int>, y: Seq<int>)
    requires
        e.len() == x.len() + y.len(),
    ensures
        monomial(e, x + y) == monomial(e.subrange(0, x.len() as int), x) * monomial(
            e.subrange(x.len() as int, e.len() as int),
            y,
        ),
    decreases y.len(),
{
    let l = x.len() as int;
    if y.len() == 0 {
        assert(x + y =~= x);
        assert(e.subrange(0, l) =~= e);
        assert(monomial(e.subrange(l, e.len() as int), y) == 1);
    } else {
        let y2 = y.drop_last();
        lemma_monomial_split(e.drop_last(), x, y2);
        assert((x + y).drop_last() =~= x + y2);
        assert(e.drop_last().subrange(0, l) =~= e.subrange(0, l));
        let tail = e.subrange(l, e.len() as int);
        assert(tail.drop_last() =~= e.drop_last().subrange(l, e.len() - 1));
        assert((x + y).last() == y.last());
        assert(tail.last() == e.last());
        if x.len() == 0 && e.len() > 0 {
        }
        let a = monomial(e.subrange(0, l), x);
        let b = monomial(e.drop_last().subrange(l, e.len() - 1), y2);
        let w = pow(y.last(), e.last() as nat);
        lemma_mul_is_associative(a, b, w);
        if e.len() == 0 {
        } else if x.len() + y.len() == 0 {
        } else {
            assert(monomial(e, x + y) == monomial(e.drop_last(), x + y2) * w);
            assert(monomial(tail, y) == b * w);
        }
    }
}

proof fn lemma_factor_prefix(e: Seq<usize>, challenges: Seq<i32>, k: nat, len: nat)
    requires
        k <= usize::MAX,
        len <= e.len(),
        k <= challenges.len(),
    ensures
        len <= k ==> assigned_factor(e, fixed_prefix(challenges, k), len) == monomial(
            e.subrange(0, len as int),
            as_point(challenges, len),
        ),
        len >= k ==> assigned_factor(e, fixed_prefix(challenges, k), len) == monomial(
            e.subrange(0, k as int),
            as_point(challenges, k),
        ),
    decreases len,
{
    if len == 0 {
        assert(monomial(e.subrange(0, 0), as_point(challenges, 0)) == 1);
    } else {
        lemma_factor_prefix(e, challenges, k, (len - 1) as nat);
        lemma_prefix_value(challenges, k, len - 1);
        if len <= k {
            let es = e.subrange(0, len as int);
            let pt = as_point(challenges, len);
            assert(es.drop_last() =~= e.subrange(0, len - 1));
            assert(pt.drop_last() =~= as_point(challenges, (len - 1) as nat));
        }
    }
}

proof fn lemma_factor_last(e: Seq<usize>, v: i32, r: nat, len: nat)
    requires
        1 <= r <= usize::MAX,
        len <= r,
        e.len() == r,
    ensures
        len < r ==> assigned_factor(e, seq![((r - 1) as usize, v)], len) == 1,
        len == r ==> assigned_factor(e, seq![((r - 1) as usize, v)], len) == pow(
            v as int,
            e[r - 1] as nat,
        ),
    decreases len,
{
    let a = seq![((r - 1) as usize, v)];
    if len > 0 {
        lemma_factor_last(e, v, r, (len - 1) as nat);
        assert(a.drop_last() =~= Seq::<(usize, i32)>::empty());
        assert(a.last().0 as int == r - 1);
        assert(assigned_value(a.drop_last(), len - 1) is None);
    }
}

/// Every exponent tuple has `r` entries.
pub open spec fn keys_len(s: Seq<TermModel>, r: nat) -> bool {
    forall|i: int| 0 <= i < s.len() ==> (#[trigger] s[i]).0.len() == r
}

proof fn lemma_accumulate_keys_len(s: Seq<TermModel>, k: Seq<usize>, v: int, m: int, r: nat)
    requires
        keys_len(s, r),
        k.len() == r,
    ensures
        keys_len(accumulate(s, k, v, m), r),
        accumulate(s, k, v, m).len() >= s.len(),
        accumulate(s, k, v, m).len() > 0,
{
    let acc = accumulate(s, k, v, m);
    if has_key(s, k) {
        let idx = key_index(s, k);
        assert forall|i: int| 0 <= i < acc.len() implies (#[trigger] acc[i]).0.len() == r by {
            if i != idx {
                assert(acc[i] == s[i]);
            }
        }
    } else {
        assert forall|i: int| 0 <= i < acc.len() implies (#[trigger] acc[i]).0.len() == r by {
            if i < s.len() {
                assert(acc[i] == s[i]);
            }
        }
    }
}

proof fn lemma_add_keys_len(s: Seq<TermModel>, t: Seq<TermModel>, m: int, r: nat)
    requires
        keys_len(s, r),
        keys_len(t, r),
    ensures
        keys_len(add_terms(s, t, m), r),
        add_terms(s, t, m).len() >= s.len(),
    decreases t.len(),
{
    if t.len() > 0 {
        let t2 = t.drop_last();
        assert forall|i: int| 0 <= i < t2.len() implies (#[trigger] t2[i]).0.len() == r by {
            assert(t2[i] == t[i]);
        }
        lemma_add_keys_len(s, t2, m, r);
        assert(t.last() == t[t.len() - 1]);
        lemma_accumulate_keys_len(add_terms(s, t2, m), t.last().0, t.last().1, m, r);
    }
}

proof fn lemma_partial_eval_keys_len(s: Seq<TermModel>, a: Seq<(usize, i32)>, m: int, r: nat)
    requires
        forall|j: int|
            0 <= j < s.len() ==> (#[trigger] kept_exponents(s[j].0, a, s[j].0.len())).len() == r,
    ensures
        keys_len(partial_eval_terms(s, a, m), r),
        partial_eval_terms(s, a, m).len() > 0 <==> s.len() > 0,
    decreases s.len(),
{
    if s.len() > 0 {
        let s2 = s.drop_last();
        assert forall|j: int| 0 <= j < s2.len() implies (#[trigger] kept_exponents(
            s2[j].0,
            a,
            s2[j].0.len(),
        )).len() == r by {
            assert(s2[j] == s[j]);
        }
        lemma_partial_eval_keys_len(s2, a, m, r);
        assert(s.last() == s[s.len() - 1]);
        let t = evaluated_term(s.last(), a, m);
        lemma_accumulate_keys_len(partial_eval_terms(s2, a, m), t.0, t.1, m, r);
    }
}

/// Fixing the last variable to `v` gives, at `q`, the value at `q` extended by `v`.
proof fn lemma_fix_last_value(x: PolyModel, v: i32, q: Seq<int>)
    requires
        1 <= x.num_vars <= usize::MAX,
        x.modulus > 0,
        keys_len(x.terms, x.num_vars),
        q.len() == x.num_vars - 1,
    ensures
        value_at(x.fix_last(v).terms, q) % x.modulus == value_at(x.terms, q.push(v as int))
            % x.modulus,
        keys_len(x.fix_last(v).terms, (x.num_vars - 1) as nat),
        x.fix_last(v).terms.len() > 0 <==> x.terms.len() > 0,
{
    let r = x.num_vars;
    let a = seq![((r - 1) as usize, v)];
    assert forall|i: int| 0 <= i < x.terms.len() implies assigned_factor(
        #[trigger] x.terms[i].0,
        a,
        x.terms[i].0.len(),
    ) * monomial(kept_exponents(x.terms[i].0, a, x.terms[i].0.len()), q) == monomial(
        x.terms[i].0,
        q.push(v as int),
    ) && kept_exponents(x.terms[i].0, a, x.terms[i].0.len()).len() == (r - 1) as nat by {
        let e = x.terms[i].0;
        lemma_factor_last(e, v, r, r);
        lemma_kept_last(e, v, r, r);
        assert(e.drop_last() =~= e.subrange(0, r - 1));
        assert(q.push(v as int).drop_last() =~= q);
        assert(e.last() == e[r - 1]);
        assert(e.len() == r);
        let w = pow(v as int, e[r - 1] as nat);
        let mk = monomial(e.subrange(0, r - 1), q);
        assert(kept_exponents(e, a, e.len()) == e.subrange(0, r - 1));
        assert(assigned_factor(e, a, e.len()) == w);
        assert(monomial(e, q.push(v as int)) == monomial(e.drop_last(), q) * w);
        assert(w * mk == mk * w) by (nonlinear_arith);
    }
    lemma_partial_eval_value(x.terms, a, x.modulus, q, q.push(v as int));
    assert forall|j: int| 0 <= j < x.terms.len() implies (#[trigger] kept_exponents(
        x.terms[j].0,
        a,
        x.terms[j].0.len(),
    )).len() == (r - 1) as nat by {
        assert(assigned_factor(x.terms[j].0, a, x.terms[j].0.len()) * monomial(
            kept_exponents(x.terms[j].0, a, x.terms[j].0.len()),
            q,
        ) == monomial(x.terms[j].0, q.push(v as int)));
    }
    lemma_partial_eval_keys_len(x.terms, a, x.modulus, (r - 1) as nat);
}

/// Summing out the last variable: the value at `q` is the sum of the values
/// at `q` extended by `0` and by `1`.
proof fn lemma_bool_sum_value(x: PolyModel, q: Seq<int>)
    requires
        1 <= x.num_vars <= usize::MAX,
        x.modulus > 0,
        keys_len(x.terms, x.num_vars),
        q.len() == x.num_vars - 1,
    ensures
        value_at(x.bool_sum_model().terms, q) % x.modulus == (value_at(x.terms, q.push(0))
            + value_at(x.terms, q.push(1))) % x.modulus,
        keys_len(x.bool_sum_model().terms, (x.num_vars - 1) as nat),
        x.bool_sum_model().terms.len() > 0 <==> x.terms.len() > 0,
{
    let m = x.modulus;
    let f0 = x.fix_last(0);
    let f1 = x.fix_last(1);
    lemma_fix_last_value(x, 0, q);
    lemma_fix_last_value(x, 1, q);
    lemma_add_value(f0.terms, f1.terms, m, q);
    lemma_add_mod_noop(value_at(f0.terms, q), value_at(f1.terms, q), m);
    lemma_add_mod_noop(value_at(x.terms, q.push(0)), value_at(x.terms, q.push(1)), m);
    lemma_add_keys_len(f0.terms, f1.terms, m, (x.num_vars - 1) as nat);
    if f0.terms.len() == 0 {
        assert(f1.terms.len() == 0);
        assert(add_terms(f0.terms, f1.terms, m) == f0.terms);
    }
}

/// The sum of the values at `pt` extended by every point of `{0, 1}^d`.
pub open spec fn hypercube_sum(s: Seq<TermModel>, pt: Seq<int>, d: nat) -> int
    decreases d,
{
    if d == 0 {
        value_at(s, pt)
    } else {
        hypercube_sum(s, pt.push(0), (d - 1) as nat) + hypercube_sum(s, pt.push(1), (d - 1) as nat)
    }
}

/// Hypercube sums agree modulo `m` where the values agree at every extension.
proof fn lemma_hypercube_congruent(
    s: Seq<TermModel>,
    t: Seq<TermModel>,
    q: Seq<int>,
    q2: Seq<int>,
    d: nat,
    m: int,
)
    requires
        m > 0,
        forall|b: Seq<int>| b.len() == d ==> #[trigger] value_at(s, q + b) % m == value_at(t, q2 + b) % m,
    ensures
        hypercube_sum(s, q, d) % m == hypercube_sum(t, q2, d) % m,
    decreases d,
{
    if d == 0 {
        assert(value_at(s, q + Seq::<int>::empty()) % m == value_at(t, q2 + Seq::<int>::empty()) % m);
        assert(q + Seq::<int>::empty() =~= q);
        assert(q2 + Seq::<int>::empty() =~= q2);
    } else {
        assert forall|b: Seq<int>| b.len() == d - 1 implies #[trigger] value_at(s, q.push(0) + b) % m
            == value_at(t, q2.push(0) + b) % m by {
            let bb = seq![0int] + b;
            assert(value_at(s, q + bb) % m == value_at(t, q2 + bb) % m);
            assert(q + bb =~= q.push(0) + b);
            assert(q2 + bb =~= q2.push(0) + b);
        }
        assert forall|b: Seq<int>| b.len() == d - 1 implies #[trigger] value_at(s, q.push(1) + b) % m
            == value_at(t, q2.push(1) + b) % m by {
            let bb = seq![1int] + b;
            assert(value_at(s, q + bb) % m == value_at(t, q2 + bb) % m);
            assert(q + bb =~= q.push(1) + b);
            assert(q2 + bb =~= q2.push(1) + b);
        }
        lemma_hypercube_congruent(s, t, q.push(0), q2.push(0), (d - 1) as nat, m);
        lemma_hypercube_congruent(s, t, q.push(1), q2.push(1), (d - 1) as nat, m);
        lemma_add_mod_noop(hypercube_sum(s, q.push(0), (d - 1) as nat), hypercube_sum(s, q.push(1), (d - 1) as nat), m);
        lemma_add_mod_noop(hypercube_sum(t, q2.push(0), (d - 1) as nat), hypercube_sum(t, q2.push(1), (d - 1) as nat), m);
    }
}

/// Summing out the last variable first and then the other `d` free ones is
/// summing out all `d + 1`.
proof fn lemma_hypercube_bool_sum(x: PolyModel, q: Seq<int>, d: nat)
    requires
        1 <= x.num_vars <= usize::MAX,
        x.modulus > 0,
        keys_len(x.terms, x.num_vars),
        q.len() + d == x.num_vars - 1,
    ensures
        hypercube_sum(x.bool_sum_model().terms, q, d) % x.modulus == hypercube_sum(x.terms, q, d + 1)
            % x.modulus,
    decreases d,
{
    let m = x.modulus;
    let bs = x.bool_sum_model().terms;
    if d == 0 {
        lemma_bool_sum_value(x, q);
        assert(hypercube_sum(x.terms, q.push(0), 0) == value_at(x.terms, q.push(0)));
        assert(hypercube_sum(x.terms, q.push(1), 0) == value_at(x.terms, q.push(1)));
        assert(hypercube_sum(x.terms, q, 1) == hypercube_sum(x.terms, q.push(0), 0) + hypercube_sum(
            x.terms,
            q.push(1),
            0,
        ));
        assert(hypercube_sum(bs, q, 0) == value_at(bs, q));
    } else {
        let d1 = (d - 1) as nat;
        lemma_hypercube_bool_sum(x, q.push(0), d1);
        lemma_hypercube_bool_sum(x, q.push(1), d1);
        lemma_add_mod_noop(hypercube_sum(bs, q.push(0), d1), hypercube_sum(bs, q.push(1), d1), m);
        lemma_add_mod_noop(hypercube_sum(x.terms, q.push(0), d), hypercube_sum(x.terms, q.push(1), d), m);
    }
}

/// The value of a polynomial summed down to `k` free variables is the
/// hypercube sum over the variables that were summed out.
proof fn lemma_sum_down_value(x: PolyModel, k: nat, q: Seq<int>)
    requires
        k <= x.num_vars <= usize::MAX,
        x.modulus > 0,
        keys_len(x.terms, x.num_vars),
        q.len() == k,
    ensures
        value_at(sum_down(x, k).terms, q) % x.modulus == hypercube_sum(
            x.terms,
            q,
            (x.num_vars - k) as nat,
        ) % x.modulus,
        keys_len(sum_down(x, k).terms, k),
        sum_down(x, k).terms.len() > 0 <==> x.terms.len() > 0,
        sum_down(x, k).num_vars == k,
        sum_down(x, k).modulus == x.modulus,
    decreases x.num_vars,
{
    if x.num_vars > k {
        let bs = x.bool_sum_model();
        lemma_bool_sum_value(x, Seq::new((x.num_vars - 1) as nat, |i: int| 0int));
        lemma_sum_down_value(bs, k, q);
        lemma_hypercube_bool_sum(x, q, (x.num_vars - 1 - k) as nat);
    }
}

/// Substituting the first `k` challenges: the value at `q` is the original
/// value at the challenges followed by `q`.
proof fn lemma_prefix_eval_value(p: PolyModel, challenges: Seq<i32>, k: nat, q: Seq<int>)
    requires
        k <= p.num_vars <= usize::MAX,
        k <= challenges.len(),
        p.modulus > 0,
        keys_len(p.terms, p.num_vars),
        q.len() == p.num_vars - k,
    ensures
        value_at(p.partial_eval_model(fixed_prefix(challenges, k)).terms, q) % p.modulus
            == value_at(p.terms, as_point(challenges, k) + q) % p.modulus,
        keys_len(p.partial_eval_model(fixed_prefix(challenges, k)).terms, (p.num_vars - k) as nat),
        p.partial_eval_model(fixed_prefix(challenges, k)).terms.len() > 0 <==> p.terms.len() > 0,
        p.partial_eval_model(fixed_prefix(challenges, k)).num_vars == p.num_vars - k,
{
    let a = fixed_prefix(challenges, k);
    let n = p.num_vars;
    let pt = as_point(challenges, k);
    assert forall|i: int| 0 <= i < p.terms.len() implies assigned_factor(
        #[trigger] p.terms[i].0,
        a,
        p.terms[i].0.len(),
    ) * monomial(kept_exponents(p.terms[i].0, a, p.terms[i].0.len()), q) == monomial(
        p.terms[i].0,
        pt + q,
    ) && kept_exponents(p.terms[i].0, a, p.terms[i].0.len()).len() == (n - k) as nat by {
        let e = p.terms[i].0;
        lemma_factor_prefix(e, challenges, k, n);
        lemma_kept_prefix(e, challenges, k, n);
        lemma_monomial_split(e, pt, q);
    }
    lemma_partial_eval_value(p.terms, a, p.modulus, q, pt + q);
    assert forall|j: int| 0 <= j < p.terms.len() implies (#[trigger] kept_exponents(
        p.terms[j].0,
        a,
        p.terms[j].0.len(),
    )).len() == (n - k) as nat by {
        assert(assigned_factor(p.terms[j].0, a, p.terms[j].0.len()) * monomial(
            kept_exponents(p.terms[j].0, a, p.terms[j].0.len()),
            q,
        ) == monomial(p.terms[j].0, pt + q));
    }
    lemma_partial_eval_keys_len(p.terms, a, p.modulus, (n - k) as nat);
}

pub(crate) proof fn lemma_partial_eval_ok(s: Seq<TermModel>, a: Seq<(usize, i32)>, m: int, r: nat)
    requires
        m > 0,
        forall|j: int|
            0 <= j < s.len() ==> (#[trigger] kept_exponents(s[j].0, a, s[j].0.len())).len() == r,
    ensures
        terms_ok(partial_eval_terms(s, a, m), r, m),
    decreases s.len(),
{
    if s.len() > 0 {
        let s2 = s.drop_last();
        assert forall|j: int| 0 <= j < s2.len() implies (#[trigger] kept_exponents(
            s2[j].0,
            a,
            s2[j].0.len(),
        )).len() == r by {
            assert(s2[j] == s[j]);
        }
        lemma_partial_eval_ok(s2, a, m, r);
        assert(s.last() == s[s.len() - 1]);
        let t = evaluated_term(s.last(), a, m);
        lemma_accumulate_ok(partial_eval_terms(s2, a, m), t.0, t.1, r, m);
    }
}

proof fn lemma_bool_sum_ok(x: PolyModel)
    requires
        1 <= x.num_vars <= usize::MAX,
        x.modulus > 0,
        keys_len(x.terms, x.num_vars),
    ensures
        terms_ok(x.bool_sum_model().terms, (x.num_vars - 1) as nat, x.modulus),
{
    let r = x.num_vars;
    assert forall|j: int| 0 <= j < x.terms.len() implies (#[trigger] kept_exponents(
        x.terms[j].0,
        seq![((r - 1) as usize, 0i32)],
        x.terms[j].0.len(),
    )).len() == (r - 1) as nat by {
        lemma_kept_last(x.terms[j].0, 0, r, r);
    }
    assert forall|j: int| 0 <= j < x.terms.len() implies (#[trigger] kept_exponents(
        x.terms[j].0,
        seq![((r - 1) as usize, 1i32)],
        x.terms[j].0.len(),
    )).len() == (r - 1) as nat by {
        lemma_kept_last(x.terms[j].0, 1, r, r);
    }
    lemma_partial_eval_ok(x.terms, seq![((r - 1) as usize, 0i32)], x.modulus, (r - 1) as nat);
    lemma_partial_eval_ok(x.terms, seq![((r - 1) as usize, 1i32)], x.modulus, (r - 1) as nat);
    lemma_add_terms_coeff(
        x.fix_last(0).terms,
        x.fix_last(1).terms,
        (r - 1) as nat,
        x.modulus,
    );
}

/// Two lists of constant terms with no tuple repeated, both empty or both
/// not, whose values agree modulo `m`, are the same list.
proof fn lemma_constant_lists_equal(a: Seq<TermModel>, b: Seq<TermModel>, m: int)
    requires
        m > 0,
        terms_ok(a, 0, m),
        terms_ok(b, 0, m),
        a.len() > 0 <==> b.len() > 0,
        value_at(a, Seq::empty()) % m == value_at(b, Seq::empty()) % m,
    ensures
        a == b,
{
    lemma_constant_list(a, m);
    lemma_constant_list(b, m);
    if a.len() > 0 {
        assert(a[0].0 =~= b[0].0);
        assert(a =~= b);
    } else {
        assert(a =~= b);
    }
}

proof fn lemma_constant_list(a: Seq<TermModel>, m: int)
    requires
        m > 0,
        terms_ok(a, 0, m),
    ensures
        a.len() <= 1,
        a.len() == 1 ==> value_at(a, Seq::empty()) % m == a[0].1,
{
    if a.len() >= 2 {
        assert(a[0].0 =~= a[1].0);
    }
    if a.len() == 1 {
        assert(a.drop_last() =~= Seq::<TermModel>::empty());
        assert(monomial(a[0].0, Seq::empty()) == 1);
        assert(a.last() == a[0]);
        assert(value_at(a.drop_last(), Seq::empty()) == 0);
        assert(value_at(a, Seq::empty()) == a[0].1 * 1);
        assert(0 <= a[0].1 < m);
        lemma_small_mod(a[0].1 as nat, m as nat);
        assert(a[0].1 % m == a[0].1);
    }
}

proof fn lemma_wf_keys_len(p: PolyModel)
    requires
        p.wf(),
    ensures
        keys_len(p.terms, p.num_vars),
{
}

/// In an honest run every round's message sums to the claim of its round.
proof fn lemma_honest_round_consistent(p: PolyModel, challenges: Seq<i32>, j: nat)
    requires
        p.wf(),
        1 <= j <= p.num_vars <= usize::MAX,
        challenges.len() == p.num_vars,
    ensures
        poly_equal(
            round_claim(p, Map::empty(), challenges, j),
            round_message(p, Map::empty(), challenges, j).bool_sum_model(),
        ),
{
    let n = p.num_vars;
    let m = p.modulus;
    let ov = Map::<usize, PolyModel>::empty();
    let zeros = Seq::new(n, |i: int| 0int);
    lemma_wf_keys_len(p);
    let e = Seq::<int>::empty();
    assert(e.push(0) =~= seq![0int]);
    assert(e.push(1) =~= seq![1int]);
    if j == 1 {
        assert(fixed_prefix(challenges, 0) =~= Seq::<(usize, i32)>::empty());
        let x0 = p.partial_eval_model(Seq::empty());
        lemma_prefix_eval_value(p, challenges, 0, zeros);
        let c = sum_down(x0, 0);
        let claim = round_claim(p, ov, challenges, j);
        lemma_sum_down_value(x0, 0, e);
        lemma_prefix_eval_value(c, challenges, 0, e);
        assert(as_point(challenges, 0) + e =~= e);
        let g = round_message(p, ov, challenges, j);
        lemma_sum_down_value(x0, 1, seq![0int]);
        lemma_sum_down_value(x0, 1, seq![1int]);
        lemma_bool_sum_value(g, e);
        assert(hypercube_sum(x0.terms, e, n) == hypercube_sum(x0.terms, seq![0int], (n - 1) as nat)
            + hypercube_sum(x0.terms, seq![1int], (n - 1) as nat));
        lemma_add_mod_noop(value_at(g.terms, seq![0int]), value_at(g.terms, seq![1int]), m);
        lemma_add_mod_noop(
            hypercube_sum(x0.terms, seq![0int], (n - 1) as nat),
            hypercube_sum(x0.terms, seq![1int], (n - 1) as nat),
            m,
        );
        lemma_partial_eval_ok(c.terms, Seq::empty(), m, 0);
        lemma_bool_sum_ok(g);
        lemma_constant_lists_equal(claim.terms, g.bool_sum_model().terms, m);
    } else {
        let k = (j - 2) as nat;
        let r = challenges[k as int];
        let x = p.partial_eval_model(fixed_prefix(challenges, k));
        let y = p.partial_eval_model(fixed_prefix(challenges, k + 1));
        lemma_prefix_eval_value(p, challenges, k, Seq::new((n - k) as nat, |i: int| 0int));
        lemma_prefix_eval_value(p, challenges, k + 1, Seq::new((n - k - 1) as nat, |i: int| 0int));
        let g_prev = sum_down(x, 1);
        let g = sum_down(y, 1);
        let claim = round_claim(p, ov, challenges, j);
        let one = seq![r];
        assert(fixed_prefix(one, 1) =~= seq![(0usize, r)]);
        lemma_sum_down_value(x, 1, seq![r as int]);
        lemma_prefix_eval_value(g_prev, one, 1, e);
        assert(as_point(one, 1) + e =~= seq![r as int]);
        let d = (n - k - 1) as nat;
        lemma_sum_down_value(y, 1, seq![0int]);
        lemma_sum_down_value(y, 1, seq![1int]);
        lemma_bool_sum_value(g, e);
        assert(hypercube_sum(y.terms, e, d) == hypercube_sum(y.terms, seq![0int], (d - 1) as nat)
            + hypercube_sum(y.terms, seq![1int], (d - 1) as nat));
        lemma_add_mod_noop(value_at(g.terms, seq![0int]), value_at(g.terms, seq![1int]), m);
        lemma_add_mod_noop(
            hypercube_sum(y.terms, seq![0int], (d - 1) as nat),
            hypercube_sum(y.terms, seq![1int], (d - 1) as nat),
            m,
        );
        assert forall|b: Seq<int>| b.len() == d implies #[trigger] value_at(x.terms, seq![r as int] + b) % m
            == value_at(y.terms, e + b) % m by {
            lemma_prefix_eval_value(p, challenges, k, seq![r as int] + b);
            lemma_prefix_eval_value(p, challenges, k + 1, e + b);
            assert(as_point(challenges, k) + (seq![r as int] + b) =~= as_point(challenges, k + 1) + (e + b));
        }
        lemma_hypercube_congruent(x.terms, y.terms, seq![r as int], e, d, m);
        assert forall|i: int| 0 <= i < g_prev.terms.len() implies (#[trigger] kept_exponents(
            g_prev.terms[i].0,
            seq![(0usize, r)],
            g_prev.terms[i].0.len(),
        )).len() == 0 by {
            lemma_kept_prefix(g_prev.terms[i].0, one, 1, 1);
        }
        lemma_partial_eval_ok(g_prev.terms, seq![(0usize, r)], m, 0);
        lemma_bool_sum_ok(g);
        lemma_constant_lists_equal(claim.terms, g.bool_sum_model().terms, m);
    }
}

/// In an honest run the last message agrees with the original polynomial at
/// the point of all challenges.
proof fn lemma_honest_final_check(p: PolyModel, challenges: Seq<i32>)
    requires
        p.wf(),
        1 <= p.num_vars <= usize::MAX,
        challenges.len() == p.num_vars,
    ensures
        final_check_passes(p, Map::empty(), challenges),
{
    let n = p.num_vars;
    let m = p.modulus;
    let ov = Map::<usize, PolyModel>::empty();
    let e = Seq::<int>::empty();
    lemma_wf_keys_len(p);
    let r = challenges[n - 1];
    let one = seq![r];
    assert(fixed_prefix(one, 1) =~= seq![(0usize, r)]);
    let lhs = p.partial_eval_model(fixed_prefix(challenges, n));
    lemma_prefix_eval_value(p, challenges, n, e);
    let y = p.partial_eval_model(fixed_prefix(challenges, (n - 1) as nat));
    lemma_prefix_eval_value(p, challenges, (n - 1) as nat, seq![r as int]);
    let g = round_message(p, ov, challenges, n);
    assert(g == y);
    let rhs = g.partial_eval_model(seq![(0usize, r)]);
    lemma_prefix_eval_value(g, one, 1, e);
    assert(as_point(one, 1) + e =~= seq![r as int]);
    assert(as_point(challenges, (n - 1) as nat) + seq![r as int] =~= as_point(challenges, n) + e);
    assert forall|i: int| 0 <= i < p.terms.len() implies (#[trigger] kept_exponents(
        p.terms[i].0,
        fixed_prefix(challenges, n),
        p.terms[i].0.len(),
    )).len() == 0 by {
        lemma_kept_prefix(p.terms[i].0, challenges, n, n);
    }
    lemma_partial_eval_ok(p.terms, fixed_prefix(challenges, n), m, 0);
    assert forall|i: int| 0 <= i < g.terms.len() implies (#[trigger] kept_exponents(
        g.terms[i].0,
        seq![(0usize, r)],
        g.terms[i].0.len(),
    )).len() == 0 by {
        lemma_kept_prefix(g.terms[i].0, one, 1, 1);
    }
    lemma_partial_eval_ok(g.terms, seq![(0usize, r)], m, 0);
    lemma_constant_lists_equal(lhs.terms, rhs.terms, m);
}

/// Completeness: when the prover answers every round honestly, the verifier
/// accepts, whatever the challenges.
pub proof fn lemma_completeness(p: PolyModel, challenges: Seq<i32>)
    requires
        p.wf(),
        1 <= p.num_vars <= usize::MAX,
        challenges.len() == p.num_vars,
    ensures
        protocol_outcome(p, Map::empty(), challenges) == Ok::<(), Rejection>(()),
{
    let ov = Map::<usize, PolyModel>::empty();
    assert forall|i: nat| 1 <= i < p.num_vars + 1 implies #[trigger] round_failure(
        p,
        ov,
        challenges,
        i,
    ) is None by {
        lemma_honest_message_univariate(p, challenges, i);
        lemma_honest_message_degree(p, challenges, i);
        lemma_honest_round_consistent(p, challenges, i);
    }
    lemma_outcome_after_passed_rounds(p, ov, challenges, p.num_vars + 1);
    lemma_honest_final_check(p, challenges);
}

/// Soundness against a wrong message after honest rounds: when the rounds
/// before `j` are answered honestly and the message substituted in round `j`
/// is univariate, within the degree bound, and sums over `{0, 1}` to
/// something other than the honest message does, the run is rejected in
/// round `j` with `ConsistencyFailure`, whatever the challenges.
pub proof fn lemma_wrong_sum_rejected(
    p: PolyModel,
    overrides: Map<usize, PolyModel>,
    challenges: Seq<i32>,
    j: nat,
)
    requires
        p.wf(),
        1 <= j <= p.num_vars <= usize::MAX,
        challenges.len() == p.num_vars,
        forall|i: nat| 1 <= i < j ==> !overrides.contains_key(#[trigger] (i as usize)),
        overrides.contains_key(j as usize),
        overrides[j as usize].num_vars == 1,
        degree_of(overrides[j as usize].terms, 0) <= degree_of(p.terms, j - 1),
        !poly_equal(
            overrides[j as usize].bool_sum_model(),
            round_message(p, Map::empty(), challenges, j).bool_sum_model(),
        ),
    ensures
        protocol_outcome(p, overrides, challenges) == Err::<(), Rejection>(
            Rejection { reason: RejectReason::ConsistencyFailure, round: j as usize },
        ),
{
    let empty = Map::<usize, PolyModel>::empty();
    assert forall|i: nat| 1 <= i < j implies #[trigger] round_failure(p, overrides, challenges, i)
        is None by {
        assert(!overrides.contains_key(i as usize));
        if i > 1 {
            assert(!overrides.contains_key((i - 1) as nat as usize));
        }
        assert(round_failure(p, overrides, challenges, i) == round_failure(p, empty, challenges, i));
        lemma_honest_message_univariate(p, challenges, i);
        lemma_honest_message_degree(p, challenges, i);
        lemma_honest_round_consistent(p, challenges, j);
        lemma_honest_round_consistent(p, challenges, i);
    }
    if j > 1 {
        assert(!overrides.contains_key((j - 1) as nat as usize));
    }
    assert(round_claim(p, overrides, challenges, j) == round_claim(p, empty, challenges, j));
    lemma_honest_round_consistent(p, challenges, j);
    lemma_inconsistent_message_rejected(p, overrides, challenges, j);
}

/// Soundness against a wrong message whose sums are right: when every other
/// round is answered honestly, the message substituted in round `j` is
/// univariate, within the degree bound and has the honest message's sum over
/// `{0, 1}`, but differs from the honest message at the challenge `r_j`, the
/// run is rejected at the next check that reads `r_j`: with
/// `ConsistencyFailure` in round `j + 1`, or with `FinalCheckFailure` when
/// `j` is the last round.
pub proof fn lemma_wrong_value_caught(
    p: PolyModel,
    overrides: Map<usize, PolyModel>,
    challenges: Seq<i32>,
    j: nat,
)
    requires
        p.wf(),
        1 <= j <= p.num_vars <= usize::MAX,
        challenges.len() == p.num_vars,
        forall|i: usize| #[trigger] overrides.contains_key(i) ==> i == j,
        overrides.contains_key(j as usize),
        overrides[j as usize].num_vars == 1,
        degree_of(overrides[j as usize].terms, 0) <= degree_of(p.terms, j - 1),
        poly_equal(
            overrides[j as usize].bool_sum_model(),
            round_message(p, Map::empty(), challenges, j).bool_sum_model(),
        ),
        !poly_equal(
            overrides[j as usize].partial_eval_model(seq![(0usize, challenges[j - 1])]),
            round_message(p, Map::empty(), challenges, j).partial_eval_model(
                seq![(0usize, challenges[j - 1])],
            ),
        ),
    ensures
        j < p.num_vars ==> protocol_outcome(p, overrides, challenges) == Err::<(), Rejection>(
            Rejection { reason: RejectReason::ConsistencyFailure, round: (j + 1) as usize },
        ),
        j == p.num_vars ==> protocol_outcome(p, overrides, challenges) == Err::<(), Rejection>(
            Rejection { reason: RejectReason::FinalCheckFailure, round: j as usize },
        ),
{
    let empty = Map::<usize, PolyModel>::empty();
    let n = p.num_vars;
    assert forall|i: nat| 1 <= i < j implies #[trigger] round_failure(p, overrides, challenges, i)
        is None by {
        assert(!overrides.contains_key(i as usize));
        if i > 1 {
            assert(!overrides.contains_key((i - 1) as nat as usize));
        }
        assert(round_failure(p, overrides, challenges, i) == round_failure(p, empty, challenges, i));
        lemma_honest_message_univariate(p, challenges, i);
        lemma_honest_message_degree(p, challenges, i);
        lemma_honest_round_consistent(p, challenges, i);
    }
    if j > 1 {
        assert(!overrides.contains_key((j - 1) as nat as usize));
    }
    assert(round_claim(p, overrides, challenges, j) == round_claim(p, empty, challenges, j));
    lemma_honest_round_consistent(p, challenges, j);
    assert(round_failure(p, overrides, challenges, j) is None);
    if j < n {
        let j1 = (j + 1) as nat;
        assert(!overrides.contains_key(j1 as usize));
        assert forall|i: nat| 1 <= i < j1 implies #[trigger] round_failure(p, overrides, challenges, i)
            is None by {
            if i == j {
            } else {
                assert(round_failure(p, overrides, challenges, i) is None);
            }
        }
        lemma_honest_message_univariate(p, challenges, j1);
        lemma_honest_message_degree(p, challenges, j1);
        lemma_honest_round_consistent(p, challenges, j1);
        assert(round_message(p, overrides, challenges, j1) == round_message(p, empty, challenges, j1));
        lemma_outcome_after_passed_rounds(p, overrides, challenges, j1);
        assert(round_failure(p, overrides, challenges, j1) == Some(RejectReason::ConsistencyFailure));
    } else {
        lemma_honest_final_check(p, challenges);
        lemma_outcome_after_passed_rounds(p, overrides, challenges, n + 1);
        assert(!final_check_passes(p, overrides, challenges));
    }
}

} // verus!

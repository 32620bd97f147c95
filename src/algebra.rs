//! Laws of the polynomial operations, stated over the models that their
//! contracts use.
use crate::polynomial::{
    accumulate, add_terms, assigned_factor, coeff_of, evaluated_term, has_key, indices_in_range,
    indices_unique, key_index, kept_exponents, lemma_accumulate_ok, lemma_count_full, lemma_key_index,
    lemma_kept_len, partial_eval_terms, same_terms, terms_ok, unique_keys, PolyModel, TermModel,
};
use crate::completeness::lemma_partial_eval_ok;
use vstd::arithmetic::div_mod::{
    lemma_add_mod_noop, lemma_add_mod_noop_right, lemma_mod_twice, lemma_small_mod,
};
use vstd::prelude::*;

verus! {

proof fn lemma_mod_add_left(x: int, y: int, m: int)
    requires
        m > 0,
    ensures
        ((x % m) + y) % m == (x + y) % m,
{
    lemma_add_mod_noop_right(y, x, m);
}

/// In a list without repeated tuples, a term is stored exactly when its
/// tuple has a stored coefficient equal to its own.
proof fn lemma_contains_iff(s: Seq<TermModel>, x: TermModel)
    requires
        unique_keys(s),
    ensures
        s.contains(x) <==> has_key(s, x.0) && coeff_of(s, x.0) == x.1,
{
    if s.contains(x) {
        let i = choose|i: int| 0 <= i < s.len() && s[i] == x;
        lemma_key_index(s, x.0, i);
    }
    if has_key(s, x.0) && coeff_of(s, x.0) == x.1 {
        let i = key_index(s, x.0);
        assert(s[i] == x);
    }
}

/// Lists without repeated tuples that agree on which tuples are stored and
/// on their coefficients hold the same terms.
proof fn lemma_same_terms(s: Seq<TermModel>, t: Seq<TermModel>)
    requires
        unique_keys(s),
        unique_keys(t),
        forall|k: Seq<usize>| has_key(s, k) <==> has_key(t, k),
        forall|k: Seq<usize>| has_key(s, k) ==> coeff_of(s, k) == coeff_of(t, k),
    ensures
        same_terms(s, t),
{
    assert forall|x: TermModel| s.contains(x) <==> t.contains(x) by {
        lemma_contains_iff(s, x);
        lemma_contains_iff(t, x);
    }
}

/// How one accumulation changes the stored tuples and their coefficients.
proof fn lemma_accumulate_coeff(s: Seq<TermModel>, k: Seq<usize>, v: int, n: nat, m: int)
    requires
        terms_ok(s, n, m),
        k.len() == n,
        m > 0,
    ensures
        forall|q: Seq<usize>| has_key(accumulate(s, k, v, m), q) <==> has_key(s, q) || q == k,
        forall|q: Seq<usize>|
            q != k ==> coeff_of(accumulate(s, k, v, m), q) == coeff_of(s, q),
        coeff_of(accumulate(s, k, v, m), k) == (coeff_of(s, k) + v) % m,
{
    let r = accumulate(s, k, v, m);
    lemma_accumulate_ok(s, k, v, n, m);
    if has_key(s, k) {
        let i = key_index(s, k);
        assert forall|q: Seq<usize>| has_key(r, q) <==> has_key(s, q) || q == k by {
            if has_key(r, q) {
                let j = choose|j: int| 0 <= j < r.len() && (#[trigger] r[j]).0 == q;
                if j != i {
                    assert(s[j].0 == q);
                }
            }
            if has_key(s, q) {
                let j = choose|j: int| 0 <= j < s.len() && (#[trigger] s[j]).0 == q;
                assert(r[j].0 == q);
            }
            if q == k {
                assert(r[i].0 == q);
            }
        }
        assert forall|q: Seq<usize>| q != k implies coeff_of(r, q) == coeff_of(s, q) by {
            if has_key(s, q) {
                let j = key_index(s, q);
                assert(r[j] == s[j]);
                lemma_key_index(r, q, j);
            }
        }
        lemma_key_index(r, k, i);
    } else {
        let i = s.len() as int;
        assert forall|q: Seq<usize>| has_key(r, q) <==> has_key(s, q) || q == k by {
            if has_key(r, q) {
                let j = choose|j: int| 0 <= j < r.len() && (#[trigger] r[j]).0 == q;
                if j != i {
                    assert(s[j].0 == q);
                }
            }
            if has_key(s, q) {
                let j = choose|j: int| 0 <= j < s.len() && (#[trigger] s[j]).0 == q;
                assert(r[j].0 == q);
            }
            if q == k {
                assert(r[i].0 == q);
            }
        }
        assert forall|q: Seq<usize>| q != k implies coeff_of(r, q) == coeff_of(s, q) by {
            if has_key(s, q) {
                let j = key_index(s, q);
                assert(r[j] == s[j]);
                lemma_key_index(r, q, j);
            }
        }
        lemma_key_index(r, k, i);
    }
}

/// The tuples and coefficients of a term-wise sum.
pub(crate) proof fn lemma_add_terms_coeff(s: Seq<TermModel>, t: Seq<TermModel>, n: nat, m: int)
    requires
        terms_ok(s, n, m),
        terms_ok(t, n, m),
        m > 0,
    ensures
        terms_ok(add_terms(s, t, m), n, m),
        forall|q: Seq<usize>| has_key(add_terms(s, t, m), q) <==> has_key(s, q) || has_key(t, q),
        forall|q: Seq<usize>|
            coeff_of(add_terms(s, t, m), q) == (coeff_of(s, q) + coeff_of(t, q)) % m,
    decreases t.len(),
{
    if t.len() == 0 {
        assert forall|q: Seq<usize>| coeff_of(s, q) == (coeff_of(s, q) + coeff_of(t, q)) % m by {
            assert(!has_key(t, q));
            assert(coeff_of(t, q) == 0);
            if has_key(s, q) {
                let i = key_index(s, q);
                assert(0 <= i < s.len());
                assert(0 <= s[i].1 < m);
                assert(coeff_of(s, q) == s[i].1);
                lemma_small_mod(s[i].1 as nat, m as nat);
                assert(s[i].1 % m == s[i].1);
                assert(coeff_of(s, q) + coeff_of(t, q) == s[i].1);
            } else {
                assert(coeff_of(s, q) == 0);
                assert(0int % m == 0);
            }
        }
    } else {
        let t2 = t.drop_last();
        let last = t.last();
        assert(terms_ok(t2, n, m)) by {
            assert forall|i: int| 0 <= i < t2.len() implies (#[trigger] t2[i]) == t[i] by {}
        }
        lemma_add_terms_coeff(s, t2, n, m);
        let a2 = add_terms(s, t2, m);
        assert(add_terms(s, t, m) == accumulate(a2, last.0, last.1, m));
        assert(last == t[t.len() - 1]);
        lemma_accumulate_ok(a2, last.0, last.1, n, m);
        lemma_accumulate_coeff(a2, last.0, last.1, n, m);
        lemma_key_index(t, last.0, t.len() - 1);
        assert(!has_key(t2, last.0)) by {
            if has_key(t2, last.0) {
                let j = choose|j: int| 0 <= j < t2.len() && (#[trigger] t2[j]).0 == last.0;
                assert(t[j].0 == t[t.len() - 1].0);
            }
        }
        assert forall|q: Seq<usize>| has_key(t, q) <==> has_key(t2, q) || q == last.0 by {
            if has_key(t, q) {
                let j = choose|j: int| 0 <= j < t.len() && (#[trigger] t[j]).0 == q;
                if j < t.len() - 1 {
                    assert(t2[j].0 == q);
                }
            }
            if has_key(t2, q) {
                let j = choose|j: int| 0 <= j < t2.len() && (#[trigger] t2[j]).0 == q;
                assert(t[j].0 == q);
            }
        }
        assert forall|q: Seq<usize>|
            coeff_of(add_terms(s, t, m), q) == (coeff_of(s, q) + coeff_of(t, q)) % m by {
            let acc = add_terms(s, t, m);
            if q == last.0 {
                assert(coeff_of(acc, q) == (coeff_of(a2, q) + last.1) % m);
                assert(coeff_of(t2, q) == 0);
                assert(coeff_of(t, q) == last.1);
                assert(coeff_of(a2, q) == (coeff_of(s, q) + 0) % m);
                lemma_mod_add_left(coeff_of(s, q), last.1, m);
            } else if has_key(t2, q) {
                let j = key_index(t2, q);
                assert(t[j] == t2[j]);
                lemma_key_index(t, q, j);
                assert(coeff_of(t, q) == coeff_of(t2, q));
                assert(coeff_of(acc, q) == coeff_of(a2, q));
            } else {
                assert(!has_key(t, q));
                assert(coeff_of(t, q) == 0 && coeff_of(t2, q) == 0);
                assert(coeff_of(acc, q) == coeff_of(a2, q));
            }
        }
    }
}

/// Both operands share the shape of the left one.
pub open spec fn compatible(a: PolyModel, b: PolyModel) -> bool {
    &&& a.wf()
    &&& b.wf()
    &&& a.num_vars == b.num_vars
    &&& a.modulus == b.modulus
}

/// The term-wise sum holds the exponent tuples of either operand, each with
/// the sum of the operands' coefficients modulo the modulus (a missing term
/// counting as `0`).
pub proof fn lemma_add_term_map(a: PolyModel, b: PolyModel)
    requires
        compatible(a, b),
    ensures
        a.add_model(b).wf(),
        forall|q: Seq<usize>|
            #[trigger] has_key(a.add_model(b).terms, q) <==> has_key(a.terms, q) || has_key(
                b.terms,
                q,
            ),
        forall|q: Seq<usize>|
            #[trigger] coeff_of(a.add_model(b).terms, q) == (coeff_of(a.terms, q) + coeff_of(
                b.terms,
                q,
            )) % a.modulus,
{
    lemma_add_terms_coeff(a.terms, b.terms, a.num_vars, a.modulus);
}

/// Addition is commutative: `a + b` and `b + a` hold the same terms, so
/// they compare equal.
pub proof fn lemma_add_commutative(a: PolyModel, b: PolyModel)
    requires
        compatible(a, b),
    ensures
        same_terms(a.add_model(b).terms, b.add_model(a).terms),
        a.add_model(b).term_map() == b.add_model(a).term_map(),
{
    let m = a.modulus;
    lemma_add_terms_coeff(a.terms, b.terms, a.num_vars, m);
    lemma_add_terms_coeff(b.terms, a.terms, a.num_vars, m);
    let x = a.add_model(b).terms;
    let y = b.add_model(a).terms;
    assert(x == add_terms(a.terms, b.terms, m));
    assert(y == add_terms(b.terms, a.terms, m));
    assert forall|q: Seq<usize>| has_key(x, q) <==> has_key(y, q) by {
        assert(has_key(x, q) <==> has_key(a.terms, q) || has_key(b.terms, q));
        assert(has_key(y, q) <==> has_key(a.terms, q) || has_key(b.terms, q));
    }
    assert forall|q: Seq<usize>| coeff_of(x, q) == coeff_of(y, q) by {
        assert(coeff_of(x, q) == (coeff_of(a.terms, q) + coeff_of(b.terms, q)) % m);
        assert(coeff_of(y, q) == (coeff_of(b.terms, q) + coeff_of(a.terms, q)) % m);
    }
    lemma_same_terms(x, y);
    assert(a.add_model(b).term_map() =~= b.add_model(a).term_map());
}

/// Addition is associative: `(a + b) + c` and `a + (b + c)` hold the same
/// terms, so they compare equal.
pub proof fn lemma_add_associative(a: PolyModel, b: PolyModel, c: PolyModel)
    requires
        compatible(a, b),
        compatible(b, c),
    ensures
        a.add_model(b).wf(),
        b.add_model(c).wf(),
        same_terms(a.add_model(b).add_model(c).terms, a.add_model(b.add_model(c)).terms),
        a.add_model(b).add_model(c).term_map() == a.add_model(b.add_model(c)).term_map(),
{
    let m = a.modulus;
    let n = a.num_vars;
    let ab = a.add_model(b);
    let bc = b.add_model(c);
    lemma_add_terms_coeff(a.terms, b.terms, n, m);
    lemma_add_terms_coeff(b.terms, c.terms, n, m);
    lemma_add_terms_coeff(ab.terms, c.terms, n, m);
    lemma_add_terms_coeff(a.terms, bc.terms, n, m);
    let x = ab.add_model(c).terms;
    let y = a.add_model(bc).terms;
    assert(x == add_terms(ab.terms, c.terms, m));
    assert(y == add_terms(a.terms, bc.terms, m));
    assert forall|q: Seq<usize>| has_key(x, q) <==> has_key(y, q) by {
        assert(has_key(x, q) <==> has_key(ab.terms, q) || has_key(c.terms, q));
        assert(has_key(y, q) <==> has_key(a.terms, q) || has_key(bc.terms, q));
        assert(has_key(ab.terms, q) <==> has_key(a.terms, q) || has_key(b.terms, q));
        assert(has_key(bc.terms, q) <==> has_key(b.terms, q) || has_key(c.terms, q));
    }
    assert forall|q: Seq<usize>| coeff_of(x, q) == coeff_of(y, q) by {
        assert(coeff_of(x, q) == (coeff_of(ab.terms, q) + coeff_of(c.terms, q)) % m);
        assert(coeff_of(y, q) == (coeff_of(a.terms, q) + coeff_of(bc.terms, q)) % m);
        assert(coeff_of(ab.terms, q) == (coeff_of(a.terms, q) + coeff_of(b.terms, q)) % m);
        assert(coeff_of(bc.terms, q) == (coeff_of(b.terms, q) + coeff_of(c.terms, q)) % m);
        let (ca, cb, cc) = (coeff_of(a.terms, q), coeff_of(b.terms, q), coeff_of(c.terms, q));
        lemma_mod_add_left(ca + cb, cc, m);
        lemma_add_mod_noop_right(ca, cb + cc, m);
        assert((ca + cb) + cc == ca + (cb + cc));
    }
    lemma_same_terms(x, y);
    assert(ab.add_model(c).term_map() =~= a.add_model(bc).term_map());
}

/// The polynomial after `add_term(e, cs[0])`, ..., `add_term(e, cs[k - 1])`.
pub open spec fn add_term_all(p: PolyModel, e: Seq<usize>, cs: Seq<int>) -> PolyModel
    decreases cs.len(),
{
    if cs.len() == 0 {
        p
    } else {
        add_term_all(p, e, cs.drop_last()).add_term_model(e, cs.last())
    }
}

/// The sum of a sequence of integers.
pub open spec fn total(cs: Seq<int>) -> int
    decreases cs.len(),
{
    if cs.len() == 0 {
        0
    } else {
        total(cs.drop_last()) + cs.last()
    }
}

proof fn lemma_add_term_all_coeff(p: PolyModel, e: Seq<usize>, cs: Seq<int>)
    requires
        p.wf(),
        e.len() == p.num_vars,
    ensures
        add_term_all(p, e, cs).wf(),
        add_term_all(p, e, cs).num_vars == p.num_vars,
        add_term_all(p, e, cs).modulus == p.modulus,
        coeff_of(add_term_all(p, e, cs).terms, e) == (coeff_of(p.terms, e) + total(cs)) % p.modulus,
        forall|q: Seq<usize>|
            q != e ==> #[trigger] coeff_of(add_term_all(p, e, cs).terms, q) == coeff_of(p.terms, q),
    decreases cs.len(),
{
    let m = p.modulus;
    let n = p.num_vars;
    let c0 = coeff_of(p.terms, e);
    if cs.len() == 0 {
        assert(0 <= c0 < m) by {
            if has_key(p.terms, e) {
                assert(p.terms[key_index(p.terms, e)].1 == c0);
            }
        }
        lemma_small_mod(c0 as nat, m as nat);
    } else {
        let prev = add_term_all(p, e, cs.drop_last());
        lemma_add_term_all_coeff(p, e, cs.drop_last());
        lemma_accumulate_ok(prev.terms, e, cs.last(), n, m);
        lemma_accumulate_coeff(prev.terms, e, cs.last(), n, m);
        lemma_mod_add_left(c0 + total(cs.drop_last()), cs.last(), m);
        assert(c0 + total(cs.drop_last()) + cs.last() == c0 + total(cs));
        let cur = add_term_all(p, e, cs);
        assert(cur.terms == accumulate(prev.terms, e, cs.last(), m));
        assert forall|q: Seq<usize>| q != e implies #[trigger] coeff_of(cur.terms, q) == coeff_of(
            p.terms,
            q,
        ) by {
            assert(coeff_of(cur.terms, q) == coeff_of(prev.terms, q));
            assert(coeff_of(prev.terms, q) == coeff_of(p.terms, q));
        }
    }
}

/// Adding coefficients at one exponent tuple in any number of calls, with a
/// total that is a multiple of the modulus, leaves every coefficient as it
/// was. The term list may keep an explicit zero term, so the result need not
/// compare equal under `==`; it is equal as a polynomial.
pub proof fn lemma_add_terms_cancel(p: PolyModel, e: Seq<usize>, cs: Seq<int>)
    requires
        p.wf(),
        e.len() == p.num_vars,
        total(cs) % p.modulus == 0,
    ensures
        add_term_all(p, e, cs).wf(),
        add_term_all(p, e, cs).same_values(p),
{
    let m = p.modulus;
    let c0 = coeff_of(p.terms, e);
    lemma_add_term_all_coeff(p, e, cs);
    assert(0 <= c0 < m) by {
        if has_key(p.terms, e) {
            assert(p.terms[key_index(p.terms, e)].1 == c0);
        }
    }
    lemma_add_mod_noop_right(c0, total(cs), m);
    lemma_small_mod(c0 as nat, m as nat);
    assert(add_term_all(p, e, cs).coefficient_map() =~= p.coefficient_map());
}

/// The sum, over the terms whose free exponents after substituting `a` are
/// `k`, of each coefficient times its substituted factor.
pub open spec fn fiber_sum(s: Seq<TermModel>, a: Seq<(usize, i32)>, k: Seq<usize>) -> int
    decreases s.len(),
{
    if s.len() == 0 {
        0
    } else {
        let t = s.last();
        fiber_sum(s.drop_last(), a, k) + if kept_exponents(t.0, a, t.0.len()) == k {
            t.1 * assigned_factor(t.0, a, t.0.len())
        } else {
            0
        }
    }
}

proof fn lemma_partial_eval_terms_map(s: Seq<TermModel>, a: Seq<(usize, i32)>, m: int, r: nat)
    requires
        m > 0,
        forall|j: int|
            0 <= j < s.len() ==> (#[trigger] kept_exponents(s[j].0, a, s[j].0.len())).len() == r,
    ensures
        forall|k: Seq<usize>|
            #[trigger] has_key(partial_eval_terms(s, a, m), k) <==> exists|i: int|
                0 <= i < s.len() && kept_exponents(s[i].0, a, s[i].0.len()) == k,
        forall|k: Seq<usize>|
            #[trigger] coeff_of(partial_eval_terms(s, a, m), k) == fiber_sum(s, a, k) % m,
    decreases s.len(),
{
    if s.len() > 0 {
        let s2 = s.drop_last();
        assert forall|j: int| 0 <= j < s2.len() implies (#[trigger] kept_exponents(
            s2[j].0,
            a,
            s2[j].0.len(),
        )).len() == r by {
            assert(s2[j] == s[j]);
        }
        lemma_partial_eval_terms_map(s2, a, m, r);
        lemma_partial_eval_ok(s2, a, m, r);
        assert(s.last() == s[s.len() - 1]);
        let t = s.last();
        let kt = kept_exponents(t.0, a, t.0.len());
        let f = t.1 * assigned_factor(t.0, a, t.0.len());
        let prev = partial_eval_terms(s2, a, m);
        lemma_accumulate_coeff(prev, kt, f % m, r, m);
        assert forall|k: Seq<usize>| #[trigger] has_key(partial_eval_terms(s, a, m), k) <==> exists|i: int|
            0 <= i < s.len() && kept_exponents(s[i].0, a, s[i].0.len()) == k by {
            if exists|i: int| 0 <= i < s.len() && kept_exponents(s[i].0, a, s[i].0.len()) == k {
                let i = choose|i: int| 0 <= i < s.len() && kept_exponents(s[i].0, a, s[i].0.len()) == k;
                if i < s2.len() {
                    assert(s2[i] == s[i]);
                }
            }
            if has_key(prev, k) {
                let i = choose|i: int| 0 <= i < s2.len() && kept_exponents(s2[i].0, a, s2[i].0.len()) == k;
                assert(s2[i] == s[i]);
            }
        }
        assert(partial_eval_terms(s, a, m) == accumulate(prev, kt, f % m, m));
        assert forall|k: Seq<usize>| #[trigger] coeff_of(partial_eval_terms(s, a, m), k) == fiber_sum(s, a, k) % m by {
            assert(coeff_of(prev, k) == fiber_sum(s2, a, k) % m);
            if k == kt {
                assert(fiber_sum(s, a, k) == fiber_sum(s2, a, k) + f);
                lemma_add_mod_noop(fiber_sum(s2, a, k), f, m);
                lemma_mod_twice(f, m);
            } else {
                assert(fiber_sum(s, a, k) == fiber_sum(s2, a, k));
            }
        }
    } else {
        assert forall|k: Seq<usize>| #[trigger] coeff_of(partial_eval_terms(s, a, m), k) == fiber_sum(s, a, k) % m by {
            assert(!has_key(partial_eval_terms(s, a, m), k));
            assert(fiber_sum(s, a, k) == 0);
            assert(0int % m == 0);
        }
    }
}

/// What substitution computes, term by term: the result stores exactly the
/// free-exponent tuples that some term leaves, each with the sum of the
/// coefficients times substituted factors of the terms that leave it,
/// modulo the modulus.
pub proof fn lemma_partial_eval_term_map(p: PolyModel, a: Seq<(usize, i32)>)
    requires
        p.wf(),
        indices_in_range(a, p.num_vars),
        indices_unique(a),
    ensures
        forall|k: Seq<usize>|
            #[trigger] has_key(p.partial_eval_model(a).terms, k) <==> exists|i: int|
                0 <= i < p.terms.len() && kept_exponents(p.terms[i].0, a, p.terms[i].0.len()) == k,
        forall|k: Seq<usize>|
            #[trigger] coeff_of(p.partial_eval_model(a).terms, k) == fiber_sum(p.terms, a, k)
                % p.modulus,
{
    let n = p.num_vars;
    lemma_count_full(a, n);
    assert forall|j: int| 0 <= j < p.terms.len() implies (#[trigger] kept_exponents(
        p.terms[j].0,
        a,
        p.terms[j].0.len(),
    )).len() == (n - a.len()) as nat by {
        lemma_kept_len(p.terms[j].0, a, n);
    }
    lemma_partial_eval_terms_map(p.terms, a, p.modulus, (n - a.len()) as nat);
}

/// The sum over the terms of each coefficient times the product of the
/// assigned values raised to the term's exponents.
pub open spec fn term_sum(s: Seq<TermModel>, a: Seq<(usize, i32)>) -> int
    decreases s.len(),
{
    if s.len() == 0 {
        0
    } else {
        term_sum(s.drop_last(), a) + s.last().1 * assigned_factor(s.last().0, a, s.last().0.len())
    }
}

/// Substituting a value for every variable leaves no variable and a single
/// term, the constant one, whose coefficient is the polynomial's value at
/// that point (no term at all for a polynomial without terms).
pub proof fn lemma_full_evaluation(p: PolyModel, a: Seq<(usize, i32)>)
    requires
        p.wf(),
        indices_in_range(a, p.num_vars),
        indices_unique(a),
        a.len() == p.num_vars,
    ensures
        p.partial_eval_model(a).num_vars == 0,
        p.terms.len() == 0 ==> p.partial_eval_model(a).terms.len() == 0,
        p.terms.len() > 0 ==> p.partial_eval_model(a).terms == seq![
            (Seq::<usize>::empty(), term_sum(p.terms, a) % p.modulus),
        ],
{
    lemma_count_full(a, p.num_vars);
    lemma_full_evaluation_terms(p.terms, a, p.num_vars, p.modulus);
}

proof fn lemma_full_evaluation_terms(s: Seq<TermModel>, a: Seq<(usize, i32)>, n: nat, m: int)
    requires
        m > 0,
        terms_ok(s, n, m),
        indices_in_range(a, n),
        indices_unique(a),
        a.len() == n,
    ensures
        s.len() == 0 ==> partial_eval_terms(s, a, m).len() == 0,
        s.len() > 0 ==> partial_eval_terms(s, a, m) == seq![
            (Seq::<usize>::empty(), term_sum(s, a) % m),
        ],
    decreases s.len(),
{
    if s.len() > 0 {
        let s2 = s.drop_last();
        let last = s.last();
        assert(last == s[s.len() - 1]);
        assert(terms_ok(s2, n, m)) by {
            assert forall|i: int| 0 <= i < s2.len() implies (#[trigger] s2[i]) == s[i] by {}
        }
        lemma_full_evaluation_terms(s2, a, n, m);
        lemma_count_full(a, n);
        lemma_kept_len(last.0, a, n);
        let t = evaluated_term(last, a, m);
        assert(t.0 =~= Seq::<usize>::empty());
        let f = last.1 * assigned_factor(last.0, a, last.0.len());
        let prev = partial_eval_terms(s2, a, m);
        if s2.len() == 0 {
            assert(!has_key(prev, t.0));
            lemma_mod_add_left(f, 0, m);
            assert(term_sum(s, a) == f);
            assert(partial_eval_terms(s, a, m) =~= seq![(Seq::<usize>::empty(), term_sum(s, a) % m)]);
        } else {
            lemma_key_index(prev, t.0, 0);
            lemma_mod_add_left(term_sum(s2, a), f % m, m);
            lemma_add_mod_noop_right(term_sum(s2, a), f, m);
            assert(partial_eval_terms(s, a, m) =~= seq![(Seq::<usize>::empty(), term_sum(s, a) % m)]);
        }
    }
}

} // verus!

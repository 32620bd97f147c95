//! Sparse multivariate polynomials over `Z/pZ`.
//!
//! A polynomial keeps its terms as a list of `(exponents, coefficient)` pairs
//! in which no exponent tuple occurs twice. Every exponent tuple has exactly
//! `num_vars` entries and every coefficient is a canonical residue in
//! `[0, modulus)`. A term whose coefficient has become `0` stays in the list.
//! Equality as polynomials is `same_values`, for which a zero term and a
//! missing term count alike; the protocol's checks use it, as do the laws
//! stated over `coefficient_map`. `==` compares the stored terms, so it tells
//! an explicit zero term from a missing one.
use crate::field::{is_prime, is_prime_spec, modular_pow, reduce};
use vstd::arithmetic::div_mod::{lemma_add_mod_noop, lemma_mod_twice, lemma_small_mod, lemma_mul_mod_noop};
use vstd::arithmetic::mul::lemma_mul_upper_bound;
use vstd::arithmetic::power::pow;
use vstd::prelude::*;

verus! {

/// Misuse of the polynomial API, reported at the call that caused it.
#[derive(Clone, Copy, Debug, PartialEq, Eq, Structural)]
pub enum PolyError {
    /// An exponent tuple does not have one entry per variable.
    ArityMismatch,
    /// The modulus is not a prime greater than one.
    InvalidModulus,
    /// A variable index is not below the number of variables.
    IndexOutOfRange,
    /// The same variable is assigned twice.
    DuplicateAssignment,
    /// The operands differ in their number of variables or their modulus.
    IncompatibleOperands,
}

/// One term in the mathematical model: its exponent tuple and coefficient.
pub type TermModel = (Seq<usize>, int);

/// The mathematical model of a polynomial.
pub struct PolyModel {
    pub terms: Seq<TermModel>,
    pub num_vars: nat,
    pub modulus: int,
}

/// A sparse polynomial in `num_vars` variables with coefficients in `Z/modulus`.
#[derive(Debug, Clone)]
pub struct MultiVarPolynomial {
    pub terms: Vec<(Vec<usize>, i32)>,
    pub num_vars: usize,
    pub modulus: i32,
}

/// The terms of a term vector as model terms.
pub open spec fn terms_view(v: Seq<(Vec<usize>, i32)>) -> Seq<TermModel> {
    v.map_values(|t: (Vec<usize>, i32)| (t.0@, t.1 as int))
}

impl View for MultiVarPolynomial {
    type V = PolyModel;

    open spec fn view(&self) -> PolyModel {
        PolyModel {
            terms: terms_view(self.terms@),
            num_vars: self.num_vars as nat,
            modulus: self.modulus as int,
        }
    }
}

/// No exponent tuple occurs twice.
pub open spec fn unique_keys(s: Seq<TermModel>) -> bool {
    forall|i: int, j: int| 0 <= i < s.len() && 0 <= j < s.len() && i != j ==> s[i].0 != s[j].0
}

/// Every tuple has `n` entries, every coefficient lies in `[0, m)`, no tuple repeats.
pub open spec fn terms_ok(s: Seq<TermModel>, n: nat, m: int) -> bool {
    &&& forall|i: int| 0 <= i < s.len() ==> (#[trigger] s[i]).0.len() == n
    &&& forall|i: int| 0 <= i < s.len() ==> 0 <= (#[trigger] s[i]).1 < m
    &&& unique_keys(s)
}

/// Some term has the exponent tuple `k`.
pub open spec fn has_key(s: Seq<TermModel>, k: Seq<usize>) -> bool {
    exists|i: int| 0 <= i < s.len() && (#[trigger] s[i]).0 == k
}

/// The position of the term with tuple `k` (meaningful when `has_key(s, k)`).
pub open spec fn key_index(s: Seq<TermModel>, k: Seq<usize>) -> int {
    choose|i: int| 0 <= i < s.len() && (#[trigger] s[i]).0 == k
}

/// Adds `v` into the term with tuple `k`, or appends that term, modulo `m`.
pub open spec fn accumulate(s: Seq<TermModel>, k: Seq<usize>, v: int, m: int) -> Seq<TermModel> {
    if has_key(s, k) {
        let i = key_index(s, k);
        s.update(i, (k, (s[i].1 + v) % m))
    } else {
        s.push((k, v % m))
    }
}

/// The coefficient function of a term list: a missing tuple has coefficient `0`.
pub open spec fn coeff_of(s: Seq<TermModel>, k: Seq<usize>) -> int {
    if has_key(s, k) {
        s[key_index(s, k)].1
    } else {
        0
    }
}

impl PolyModel {
    /// A prime modulus and a well-formed term list.
    pub open spec fn wf(self) -> bool {
        &&& is_prime_spec(self.modulus)
        &&& terms_ok(self.terms, self.num_vars, self.modulus)
    }

    /// The stored terms as a map from exponent tuple to coefficient.
    pub open spec fn term_map(self) -> Map<Seq<usize>, int> {
        Map::new(|k: Seq<usize>| has_key(self.terms, k), |k: Seq<usize>| coeff_of(self.terms, k))
    }

    /// The polynomial as a function of exponent tuples: zero where no term is stored.
    pub open spec fn coefficient_map(self) -> Map<Seq<usize>, int> {
        Map::new(|k: Seq<usize>| k.len() == self.num_vars, |k: Seq<usize>| coeff_of(self.terms, k))
    }

    /// Equal as polynomials: the same variables, the same modulus and the
    /// same coefficient for every exponent tuple, a missing term counting as `0`.
    pub open spec fn same_values(self, other: PolyModel) -> bool {
        &&& self.num_vars == other.num_vars
        &&& self.modulus == other.modulus
        &&& self.coefficient_map() == other.coefficient_map()
    }

    /// The result of `add_term(e, c)`.
    pub open spec fn add_term_model(self, e: Seq<usize>, c: int) -> PolyModel {
        PolyModel { terms: accumulate(self.terms, e, c, self.modulus), ..self }
    }
}

pub(crate) proof fn lemma_key_index(s: Seq<TermModel>, k: Seq<usize>, i: int)
    requires
        unique_keys(s),
        0 <= i < s.len(),
        s[i].0 == k,
    ensures
        has_key(s, k),
        key_index(s, k) == i,
{
    assert(has_key(s, k));
}

pub(crate) proof fn lemma_accumulate_ok(s: Seq<TermModel>, k: Seq<usize>, v: int, n: nat, m: int)
    requires
        terms_ok(s, n, m),
        k.len() == n,
        m > 0,
    ensures
        terms_ok(accumulate(s, k, v, m), n, m),
        accumulate(s, k, v, m).len() == if has_key(s, k) { s.len() } else { s.len() + 1 },
{
    let r = accumulate(s, k, v, m);
    if has_key(s, k) {
        let i = key_index(s, k);
        assert forall|a: int, b: int| 0 <= a < r.len() && 0 <= b < r.len() && a != b implies r[a].0
            != r[b].0 by {
            assert(r[a].0 == s[a].0 && r[b].0 == s[b].0);
        }
    } else {
        assert forall|a: int, b: int| 0 <= a < r.len() && 0 <= b < r.len() && a != b implies r[a].0
            != r[b].0 by {
            if a < s.len() && b < s.len() {
            } else if a < s.len() {
                assert(s[a].0 != k);
            } else {
                assert(s[b].0 != k);
            }
        }
    }
}

/// Whether two exponent tuples are equal.
fn same_exponents(a: &Vec<usize>, b: &Vec<usize>) -> (r: bool)
    ensures
        r == (a@ == b@),
{
    if a.len() != b.len() {
        return false;
    }
    let mut i: usize = 0;
    while i < a.len()
        invariant
            a.len() == b.len(),
            i <= a.len(),
            forall|j: int| 0 <= j < i ==> a@[j] == b@[j],
        decreases a.len() - i,
    {
        if a[i] != b[i] {
            return false;
        }
        i = i + 1;
    }
    assert(a@ =~= b@);
    true
}

/// A copy of an exponent tuple.
fn copy_exponents(a: &Vec<usize>) -> (r: Vec<usize>)
    ensures
        r@ == a@,
{
    let mut r: Vec<usize> = Vec::new();
    let mut i: usize = 0;
    while i < a.len()
        invariant
            i <= a.len(),
            r@ == a@.subrange(0, i as int),
        decreases a.len() - i,
    {
        r.push(a[i]);
        i = i + 1;
        assert(r@ =~= a@.subrange(0, i as int));
    }
    assert(a@.subrange(0, a.len() as int) =~= a@);
    r
}

/// The position of the term with tuple `e`, if there is one.
fn find_term(terms: &Vec<(Vec<usize>, i32)>, e: &Vec<usize>) -> (r: Option<usize>)
    ensures
        match r {
            Some(i) => i < terms@.len() && terms_view(terms@)[i as int].0 == e@,
            None => !has_key(terms_view(terms@), e@),
        },
{
    let mut i: usize = 0;
    while i < terms.len()
        invariant
            i <= terms@.len(),
            forall|j: int| 0 <= j < i ==> terms_view(terms@)[j].0 != e@,
        decreases terms.len() - i,
    {
        if same_exponents(&terms[i].0, e) {
            return Some(i);
        }
        i = i + 1;
    }
    None
}

/// Adds `v` (a residue in `[0, m)`) into the term with tuple `e`, or appends it.
fn accumulate_term(terms: &mut Vec<(Vec<usize>, i32)>, e: Vec<usize>, v: i32, m: i32)
    requires
        unique_keys(terms_view(old(terms)@)),
        forall|i: int|
            0 <= i < old(terms)@.len() ==> 0 <= (#[trigger] terms_view(old(terms)@)[i]).1 < m,
        0 <= v < m,
    ensures
        terms_view(final(terms)@) == accumulate(terms_view(old(terms)@), e@, v as int, m as int),
{
    let ghost s = terms_view(terms@);
    match find_term(terms, &e) {
        Some(i) => {
            proof {
                lemma_key_index(s, e@, i as int);
            }
            let c: i32 = terms[i].1;
            let sum: i32 = ((c as i64 + v as i64) % (m as i64)) as i32;
            terms[i].1 = sum;
            assert(terms_view(terms@) =~= s.update(i as int, (e@, (s[i as int].1 + v) % m as int)));
        },
        None => {
            terms.push((e, v));
            proof {
                lemma_small_mod(v as nat, m as nat);
            }
            assert(terms_view(terms@) =~= s.push((e@, v as int % m as int)));
        },
    }
}


/// The largest entry at position `v` over the exponent tuples, `0` for no terms.
pub open spec fn degree_of(s: Seq<TermModel>, v: int) -> nat
    decreases s.len(),
{
    if s.len() == 0 {
        0
    } else {
        let d = degree_of(s.drop_last(), v);
        let x = s.last().0[v] as nat;
        if x > d {
            x
        } else {
            d
        }
    }
}

/// The degree in a variable is the largest exponent stored at its position,
/// and `0` when no term is stored.
pub proof fn lemma_degree_is_max(s: Seq<TermModel>, v: int)
    ensures
        forall|i: int| 0 <= i < s.len() ==> (#[trigger] s[i]).0[v] <= degree_of(s, v),
        s.len() == 0 ==> degree_of(s, v) == 0,
        s.len() > 0 ==> exists|i: int| 0 <= i < s.len() && (#[trigger] s[i]).0[v] == degree_of(s, v),
    decreases s.len(),
{
    if s.len() > 0 {
        let t = s.drop_last();
        lemma_degree_is_max(t, v);
        assert forall|i: int| 0 <= i < s.len() implies (#[trigger] s[i]).0[v] <= degree_of(s, v) by {
            if i < t.len() {
                assert(t[i] == s[i]);
            }
        }
        if s.last().0[v] as nat <= degree_of(t, v) && t.len() > 0 {
            let j = choose|j: int| 0 <= j < t.len() && (#[trigger] t[j]).0[v] == degree_of(t, v);
            assert(s[j] == t[j]);
        } else {
            assert(s[s.len() - 1] == s.last());
        }
    }
}

/// The value that an assignment gives variable `p`, if it gives one.
pub open spec fn assigned_value(a: Seq<(usize, i32)>, p: int) -> Option<i32>
    decreases a.len(),
{
    if a.len() == 0 {
        None
    } else if a.last().0 as int == p {
        Some(a.last().1)
    } else {
        assigned_value(a.drop_last(), p)
    }
}

/// The exponents among the first `len` positions of `e` whose variable the
/// assignment leaves free, in their order.
pub open spec fn kept_exponents(e: Seq<usize>, a: Seq<(usize, i32)>, len: nat) -> Seq<usize>
    decreases len,
{
    if len == 0 {
        Seq::empty()
    } else {
        kept_exponents(e, a, (len - 1) as nat) + if assigned_value(a, len - 1) is Some {
            Seq::empty()
        } else {
            seq![e[len - 1]]
        }
    }
}

/// The product of `v^e[p]` over the positions `p < len` that the assignment fixes to `v`.
pub open spec fn assigned_factor(e: Seq<usize>, a: Seq<(usize, i32)>, len: nat) -> int
    decreases len,
{
    if len == 0 {
        1
    } else {
        assigned_factor(e, a, (len - 1) as nat) * match assigned_value(a, len - 1) {
            Some(v) => pow(v as int, e[len - 1] as nat),
            None => 1,
        }
    }
}

/// One term after substitution: the free exponents and the scaled coefficient.
pub open spec fn evaluated_term(t: TermModel, a: Seq<(usize, i32)>, m: int) -> TermModel {
    (kept_exponents(t.0, a, t.0.len()), (t.1 * assigned_factor(t.0, a, t.0.len())) % m)
}

/// Substitutes the assignment into every term and merges terms whose free
/// exponents coincide.
pub open spec fn partial_eval_terms(s: Seq<TermModel>, a: Seq<(usize, i32)>, m: int) -> Seq<
    TermModel,
>
    decreases s.len(),
{
    if s.len() == 0 {
        Seq::empty()
    } else {
        let t = evaluated_term(s.last(), a, m);
        accumulate(partial_eval_terms(s.drop_last(), a, m), t.0, t.1, m)
    }
}

/// Adds the terms of `t`, in order, into `s`.
pub open spec fn add_terms(s: Seq<TermModel>, t: Seq<TermModel>, m: int) -> Seq<TermModel>
    decreases t.len(),
{
    if t.len() == 0 {
        s
    } else {
        accumulate(add_terms(s, t.drop_last(), m), t.last().0, t.last().1, m)
    }
}

/// Every assigned variable index is below `n`.
pub open spec fn indices_in_range(a: Seq<(usize, i32)>, n: nat) -> bool {
    forall|j: int| 0 <= j < a.len() ==> (#[trigger] a[j]).0 < n
}

/// No variable is assigned twice.
pub open spec fn indices_unique(a: Seq<(usize, i32)>) -> bool {
    forall|i: int, j: int| 0 <= i < a.len() && 0 <= j < a.len() && i != j ==> a[i].0 != a[j].0
}

impl PolyModel {
    /// The result of `partial_eval(a)`.
    pub open spec fn partial_eval_model(self, a: Seq<(usize, i32)>) -> PolyModel {
        PolyModel {
            terms: partial_eval_terms(self.terms, a, self.modulus),
            num_vars: (self.num_vars - a.len()) as nat,
            modulus: self.modulus,
        }
    }

    /// The result of `add(other)` on operands of the same shape.
    pub open spec fn add_model(self, other: PolyModel) -> PolyModel {
        PolyModel { terms: add_terms(self.terms, other.terms, self.modulus), ..self }
    }

    /// Fixing the last variable to `value`.
    pub open spec fn fix_last(self, value: i32) -> PolyModel {
        self.partial_eval_model(seq![((self.num_vars - 1) as usize, value)])
    }

    /// The result of `bool_sum()`: the last variable summed over `{0, 1}`.
    pub open spec fn bool_sum_model(self) -> PolyModel {
        self.fix_last(0).add_model(self.fix_last(1))
    }
}

pub(crate) proof fn lemma_assigned_value(a: Seq<(usize, i32)>, p: int)
    ensures
        assigned_value(a, p) is Some <==> exists|j: int| 0 <= j < a.len() && (#[trigger] a[j]).0 == p,
    decreases a.len(),
{
    if a.len() > 0 {
        lemma_assigned_value(a.drop_last(), p);
        if exists|j: int| 0 <= j < a.len() && (#[trigger] a[j]).0 == p {
            let j = choose|j: int| 0 <= j < a.len() && (#[trigger] a[j]).0 == p;
            if j < a.len() - 1 {
                assert(a.drop_last()[j].0 == p);
            }
        }
        if exists|j: int| 0 <= j < a.len() - 1 && (#[trigger] a.drop_last()[j]).0 == p {
            let j = choose|j: int| 0 <= j < a.len() - 1 && (#[trigger] a.drop_last()[j]).0 == p;
            assert(a[j].0 == p);
        }
    }
}

/// The number of positions below `len` that the assignment fixes.
pub(crate) open spec fn count_assigned(a: Seq<(usize, i32)>, len: nat) -> nat
    decreases len,
{
    if len == 0 {
        0
    } else {
        count_assigned(a, (len - 1) as nat) + if assigned_value(a, len - 1) is Some {
            1nat
        } else {
            0nat
        }
    }
}

pub(crate) proof fn lemma_kept_len(e: Seq<usize>, a: Seq<(usize, i32)>, len: nat)
    ensures
        kept_exponents(e, a, len).len() == len - count_assigned(a, len),
        count_assigned(a, len) <= len,
    decreases len,
{
    if len > 0 {
        lemma_kept_len(e, a, (len - 1) as nat);
    }
}

proof fn lemma_count_step(a: Seq<(usize, i32)>, len: nat)
    requires
        a.len() > 0,
        indices_unique(a),
    ensures
        count_assigned(a, len) == count_assigned(a.drop_last(), len) + if a.last().0 < len {
            1nat
        } else {
            0nat
        },
    decreases len,
{
    if len > 0 {
        lemma_count_step(a, (len - 1) as nat);
        let p = a.last().0 as int;
        if len - 1 == p {
            lemma_assigned_value(a.drop_last(), p);
            if exists|j: int| 0 <= j < a.len() - 1 && (#[trigger] a.drop_last()[j]).0 == p {
                let j = choose|j: int| 0 <= j < a.len() - 1 && (#[trigger] a.drop_last()[j]).0 == p;
                assert(a[j].0 == a[a.len() - 1].0);
            }
        }
    }
}

pub(crate) proof fn lemma_count_full(a: Seq<(usize, i32)>, n: nat)
    requires
        indices_in_range(a, n),
        indices_unique(a),
    ensures
        count_assigned(a, n) == a.len(),
    decreases a.len(),
{
    if a.len() == 0 {
        lemma_count_empty(a, n);
    } else {
        lemma_count_step(a, n);
        assert(a.last().0 < n);
        lemma_count_full(a.drop_last(), n);
    }
}

proof fn lemma_count_empty(a: Seq<(usize, i32)>, len: nat)
    requires
        a.len() == 0,
    ensures
        count_assigned(a, len) == 0,
    decreases len,
{
    if len > 0 {
        lemma_count_empty(a, (len - 1) as nat);
    }
}

/// The value that `values` gives variable `p`, if any.
fn lookup_assignment(values: &Vec<(usize, i32)>, p: usize) -> (r: Option<i32>)
    ensures
        r == assigned_value(values@, p as int),
{
    let mut i: usize = values.len();
    assert(values@.subrange(0, values@.len() as int) =~= values@);
    while i > 0
        invariant
            i <= values@.len(),
            assigned_value(values@, p as int) == assigned_value(values@.subrange(0, i as int), p as int),
        decreases i,
    {
        let ghost sub = values@.subrange(0, i as int);
        assert(sub.drop_last() =~= values@.subrange(0, i - 1));
        if values[i - 1].0 == p {
            return Some(values[i - 1].1);
        }
        i = i - 1;
    }
    None
}

/// A copy of a term list.
fn copy_terms(terms: &Vec<(Vec<usize>, i32)>) -> (r: Vec<(Vec<usize>, i32)>)
    ensures
        terms_view(r@) == terms_view(terms@),
{
    let mut r: Vec<(Vec<usize>, i32)> = Vec::new();
    let mut i: usize = 0;
    while i < terms.len()
        invariant
            i <= terms@.len(),
            terms_view(r@) == terms_view(terms@).subrange(0, i as int),
        decreases terms.len() - i,
    {
        let e = copy_exponents(&terms[i].0);
        let c = terms[i].1;
        let ghost prev = r@;
        let ghost t = (e@, c as int);
        r.push((e, c));
        assert(terms_view(r@) =~= terms_view(prev).push(t));
        i = i + 1;
        assert(terms_view(r@) =~= terms_view(terms@).subrange(0, i as int));
    }
    assert(terms_view(terms@).subrange(0, terms@.len() as int) =~= terms_view(terms@));
    r
}

/// Substitutes the assignment into one term: its free exponents and scaled coefficient.
fn evaluate_term(e: &Vec<usize>, c: i32, values: &Vec<(usize, i32)>, m: i32) -> (r: (
    Vec<usize>,
    i32,
))
    requires
        m > 1,
        0 <= c < m,
    ensures
        (r.0@, r.1 as int) == evaluated_term((e@, c as int), values@, m as int),
        0 <= r.1 < m,
{
    let mut coeff: i32 = c;
    let mut kept: Vec<usize> = Vec::new();
    let mut k: usize = 0;
    proof {
        lemma_small_mod(c as nat, m as nat);
    }
    while k < e.len()
        invariant
            m > 1,
            k <= e@.len(),
            0 <= coeff < m,
            kept@ == kept_exponents(e@, values@, k as nat),
            coeff as int == (c * assigned_factor(e@, values@, k as nat)) % m as int,
        decreases e.len() - k,
    {
        let ghost f = assigned_factor(e@, values@, k as nat);
        match lookup_assignment(values, k) {
            Some(v) => {
                let mp = modular_pow(v, e[k], m);
                proof {
                    let pw = pow(v as int, e@[k as int] as nat);
                    lemma_mul_mod_noop(c * f, pw, m as int);
                    lemma_small_mod(mp as nat, m as nat);
                    assert((c * f) * pw == c * (f * pw)) by (nonlinear_arith);
                    assert(kept_exponents(e@, values@, (k + 1) as nat) =~= kept@);
                    lemma_mul_upper_bound(coeff as int, 0x8000_0000, mp as int, 0x8000_0000);
                }
                coeff = ((coeff as u64 * mp as u64) % (m as u64)) as i32;
            },
            None => {
                kept.push(e[k]);
                assert(kept_exponents(e@, values@, (k + 1) as nat) =~= kept@);
            },
        }
        k = k + 1;
    }
    (kept, coeff)
}

impl MultiVarPolynomial {
    /// The polynomial with no terms in `num_vars` variables over `Z/modulus`.
    pub fn new(num_vars: usize, modulus: i32) -> (r: Result<MultiVarPolynomial, PolyError>)
        ensures
            is_prime_spec(modulus as int) <==> r is Ok,
            !is_prime_spec(modulus as int) ==> r == Err::<MultiVarPolynomial, PolyError>(
                PolyError::InvalidModulus,
            ),
            r matches Ok(p) ==> p@.wf() && p@.terms.len() == 0 && p.num_vars == num_vars
                && p.modulus == modulus,
    {
        if !is_prime(modulus) {
            return Err(PolyError::InvalidModulus);
        }
        let p = MultiVarPolynomial { terms: Vec::new(), num_vars, modulus };
        assert(p@.terms =~= Seq::<TermModel>::empty());
        Ok(p)
    }

    /// Adds `coefficient * x^exponents`: an existing term with the same
    /// exponents has the reduced coefficient added into it.
    pub fn add_term(&mut self, exponents: Vec<usize>, coefficient: i32) -> (r: Result<(), PolyError>)
        requires
            old(self)@.wf(),
        ensures
            r is Ok <==> exponents@.len() == old(self).num_vars,
            r is Err ==> r == Err::<(), PolyError>(PolyError::ArityMismatch) && *final(self)
                == *old(self),
            r is Ok ==> final(self)@ == old(self)@.add_term_model(exponents@, coefficient as int),
            final(self)@.wf(),
    {
        if exponents.len() != self.num_vars {
            return Err(PolyError::ArityMismatch);
        }
        let ghost s = self@.terms;
        let v = reduce(coefficient, self.modulus);
        accumulate_term(&mut self.terms, exponents, v, self.modulus);
        proof {
            let m = self.modulus as int;
            if has_key(s, exponents@) {
                let x = s[key_index(s, exponents@)].1;
                lemma_small_mod(x as nat, m as nat);
                lemma_add_mod_noop(x, coefficient as int, m);
                assert((x + v) % m == (x + coefficient) % m);
            } else {
                lemma_mod_twice(coefficient as int, m);
            }
            assert(accumulate(s, exponents@, v as int, m) =~= accumulate(
                s,
                exponents@,
                coefficient as int,
                m,
            ));
            lemma_accumulate_ok(s, exponents@, coefficient as int, self.num_vars as nat, m);
        }
        Ok(())
    }
}


/// Whether `terms` holds the term `(e, c)`.
fn contains_term(terms: &Vec<(Vec<usize>, i32)>, e: &Vec<usize>, c: i32) -> (r: bool)
    ensures
        r == terms_view(terms@).contains((e@, c as int)),
{
    let mut i: usize = 0;
    while i < terms.len()
        invariant
            i <= terms@.len(),
            forall|j: int| 0 <= j < i ==> terms_view(terms@)[j] != (e@, c as int),
        decreases terms.len() - i,
    {
        if terms[i].1 == c && same_exponents(&terms[i].0, e) {
            assert(terms_view(terms@)[i as int] == (e@, c as int));
            return true;
        }
        i = i + 1;
    }
    false
}

/// Whether every term of `a` is also a term of `b`.
fn all_terms_in(a: &Vec<(Vec<usize>, i32)>, b: &Vec<(Vec<usize>, i32)>) -> (r: bool)
    ensures
        r == (forall|x: TermModel| terms_view(a@).contains(x) ==> terms_view(b@).contains(x)),
{
    let mut i: usize = 0;
    while i < a.len()
        invariant
            i <= a@.len(),
            forall|j: int| 0 <= j < i ==> terms_view(b@).contains(#[trigger] terms_view(a@)[j]),
        decreases a.len() - i,
    {
        if !contains_term(b, &a[i].0, a[i].1) {
            assert(terms_view(a@).contains(terms_view(a@)[i as int]));
            return false;
        }
        i = i + 1;
    }
    true
}

/// The two term lists hold the same terms.
pub open spec fn same_terms(a: Seq<TermModel>, b: Seq<TermModel>) -> bool {
    forall|x: TermModel| a.contains(x) <==> b.contains(x)
}

impl PartialEq for MultiVarPolynomial {
    fn eq(&self, other: &MultiVarPolynomial) -> (r: bool) {
        self.num_vars == other.num_vars && self.modulus == other.modulus && all_terms_in(
            &self.terms,
            &other.terms,
        ) && all_terms_in(&other.terms, &self.terms)
    }
}

impl vstd::std_specs::cmp::PartialEqSpecImpl for MultiVarPolynomial {
    open spec fn obeys_eq_spec() -> bool {
        true
    }

    open spec fn eq_spec(&self, other: &MultiVarPolynomial) -> bool {
        &&& self.num_vars == other.num_vars
        &&& self.modulus == other.modulus
        &&& same_terms(self@.terms, other@.terms)
    }
}

impl MultiVarPolynomial {
    /// A copy of this polynomial with the same terms in the same order.
    pub fn duplicate(&self) -> (r: MultiVarPolynomial)
        ensures
            r@ == self@,
    {
        MultiVarPolynomial {
            terms: copy_terms(&self.terms),
            num_vars: self.num_vars,
            modulus: self.modulus,
        }
    }

    /// The coefficient stored for `exponents`, if a term with them is stored.
    pub fn coefficient(&self, exponents: &Vec<usize>) -> (r: Option<i32>)
        requires
            self@.wf(),
        ensures
            r is Some <==> has_key(self@.terms, exponents@),
            r matches Some(c) ==> c as int == coeff_of(self@.terms, exponents@),
    {
        match find_term(&self.terms, exponents) {
            Some(i) => {
                proof {
                    lemma_key_index(self@.terms, exponents@, i as int);
                }
                Some(self.terms[i].1)
            },
            None => None,
        }
    }

    /// Whether every stored term of `self` has the same coefficient in `other`
    /// (`0` where `other` stores no such term).
    fn coefficients_agree(&self, other: &MultiVarPolynomial) -> (r: bool)
        requires
            self@.wf(),
            other@.wf(),
        ensures
            r == forall|i: int|
                0 <= i < self@.terms.len() ==> coeff_of(other@.terms, (#[trigger] self@.terms[i]).0)
                    == self@.terms[i].1,
    {
        let mut i: usize = 0;
        while i < self.terms.len()
            invariant
                self@.wf(),
                other@.wf(),
                i <= self@.terms.len(),
                forall|j: int|
                    0 <= j < i ==> coeff_of(other@.terms, (#[trigger] self@.terms[j]).0)
                        == self@.terms[j].1,
            decreases self@.terms.len() - i,
        {
            let c = match other.coefficient(&self.terms[i].0) {
                Some(c) => c,
                None => 0,
            };
            assert(self@.terms[i as int] == (self.terms@[i as int].0@, self.terms@[i as int].1 as int));
            if c != self.terms[i].1 {
                return false;
            }
            i = i + 1;
        }
        true
    }

    /// Whether the two polynomials are equal as polynomials: a term stored
    /// with coefficient `0` and a missing term count alike.
    pub fn same_values(&self, other: &MultiVarPolynomial) -> (r: bool)
        requires
            self@.wf(),
            other@.wf(),
        ensures
            r == self@.same_values(other@),
    {
        if self.num_vars != other.num_vars || self.modulus != other.modulus {
            return false;
        }
        let a = self.coefficients_agree(other);
        let b = other.coefficients_agree(self);
        proof {
            let (s, t) = (self@.terms, other@.terms);
            if a && b {
                assert forall|k: Seq<usize>| coeff_of(s, k) == coeff_of(t, k) by {
                    if has_key(s, k) {
                        assert(coeff_of(t, s[key_index(s, k)].0) == s[key_index(s, k)].1);
                    } else if has_key(t, k) {
                        assert(coeff_of(s, t[key_index(t, k)].0) == t[key_index(t, k)].1);
                    }
                }
                assert(self@.coefficient_map() =~= other@.coefficient_map());
            } else if !a {
                let i = choose|i: int|
                    0 <= i < s.len() && coeff_of(t, (#[trigger] s[i]).0) != s[i].1;
                lemma_key_index(s, s[i].0, i);
                assert(self@.coefficient_map()[s[i].0] != other@.coefficient_map()[s[i].0]);
            } else {
                let i = choose|i: int|
                    0 <= i < t.len() && coeff_of(s, (#[trigger] t[i]).0) != t[i].1;
                lemma_key_index(t, t[i].0, i);
                assert(self@.coefficient_map()[t[i].0] != other@.coefficient_map()[t[i].0]);
            }
        }
        a && b
    }

    /// The largest exponent of variable `var_index` over the stored terms,
    /// `0` when no term is stored.
    pub fn degree_in_var(&self, var_index: usize) -> (r: Result<usize, PolyError>)
        requires
            self@.wf(),
        ensures
            r is Err <==> var_index >= self.num_vars,
            r is Err ==> r == Err::<usize, PolyError>(PolyError::IndexOutOfRange),
            r matches Ok(d) ==> d == degree_of(self@.terms, var_index as int),
            r matches Ok(d) ==> {
                &&& forall|i: int|
                    0 <= i < self@.terms.len() ==> (#[trigger] self@.terms[i]).0[var_index as int]
                        <= d
                &&& self@.terms.len() == 0 ==> d == 0
                &&& self@.terms.len() > 0 ==> exists|i: int|
                    0 <= i < self@.terms.len() && (#[trigger] self@.terms[i]).0[var_index as int]
                        == d
            },
    {
        if var_index >= self.num_vars {
            return Err(PolyError::IndexOutOfRange);
        }
        let ghost s = self@.terms;
        let ghost v = var_index as int;
        let mut d: usize = 0;
        let mut i: usize = 0;
        assert(s.subrange(0, 0) =~= Seq::<TermModel>::empty());
        while i < self.terms.len()
            invariant
                s == self@.terms,
                self@.wf(),
                v == var_index,
                var_index < self.num_vars,
                i <= s.len(),
                d == degree_of(s.subrange(0, i as int), v),
            decreases s.len() - i,
        {
            assert(s[i as int].0.len() == self.num_vars);
            let x = self.terms[i].0[var_index];
            assert(s.subrange(0, i + 1).drop_last() =~= s.subrange(0, i as int));
            if x > d {
                d = x;
            }
            i = i + 1;
        }
        assert(s.subrange(0, s.len() as int) =~= s);
        proof {
            lemma_degree_is_max(s, v);
        }
        Ok(d)
    }

    /// Substitutes a valid assignment: the work of `partial_eval` once the
    /// assignment has been checked.
    pub(crate) fn substitute(&self, values: &Vec<(usize, i32)>) -> (r: MultiVarPolynomial)
        requires
            self@.wf(),
            indices_in_range(values@, self.num_vars as nat),
            indices_unique(values@),
        ensures
            r@ == self@.partial_eval_model(values@),
            r@.wf(),
    {
        let ghost s = self@.terms;
        let ghost a = values@;
        let ghost n = self.num_vars as nat;
        let m = self.modulus;
        let mut out: Vec<(Vec<usize>, i32)> = Vec::new();
        proof {
            lemma_count_full(a, n);
            lemma_kept_len(Seq::empty(), a, n);
            assert(s.subrange(0, 0) =~= Seq::<TermModel>::empty());
        }
        let mut i: usize = 0;
        while i < self.terms.len()
            invariant
                s == self@.terms,
                a == values@,
                n == self.num_vars,
                m == self.modulus,
                self@.wf(),
                a.len() <= n,
                count_assigned(a, n) == a.len(),
                i <= s.len(),
                terms_view(out@) == partial_eval_terms(s.subrange(0, i as int), a, m as int),
                terms_ok(terms_view(out@), (n - a.len()) as nat, m as int),
            decreases s.len() - i,
        {
            assert(s[i as int] == (self.terms@[i as int].0@, self.terms@[i as int].1 as int));
            let (ke, kc) = evaluate_term(&self.terms[i].0, self.terms[i].1, values, m);
            let ghost prev = terms_view(out@);
            proof {
                lemma_kept_len(s[i as int].0, a, n);
                lemma_accumulate_ok(prev, ke@, kc as int, (n - a.len()) as nat, m as int);
                assert(s.subrange(0, i + 1).drop_last() =~= s.subrange(0, i as int));
                lemma_small_mod(kc as nat, m as nat);
            }
            accumulate_term(&mut out, ke, kc, m);
            i = i + 1;
        }
        assert(s.subrange(0, s.len() as int) =~= s);
        MultiVarPolynomial { terms: out, num_vars: self.num_vars - values.len(), modulus: m }
    }

    /// Fixes the variables named in `values` to the given values and drops
    /// them, keeping the remaining variables in their order. Terms that
    /// become alike are merged.
    pub fn partial_eval(&self, values: Vec<(usize, i32)>) -> (r: Result<
        MultiVarPolynomial,
        PolyError,
    >)
        requires
            self@.wf(),
        ensures
            !indices_in_range(values@, self.num_vars as nat) <==> r == Err::<
                MultiVarPolynomial,
                PolyError,
            >(PolyError::IndexOutOfRange),
            indices_in_range(values@, self.num_vars as nat) && !indices_unique(values@) <==> r
                == Err::<MultiVarPolynomial, PolyError>(PolyError::DuplicateAssignment),
            r is Ok <==> indices_in_range(values@, self.num_vars as nat) && indices_unique(
                values@,
            ),
            r matches Ok(q) ==> q@ == self@.partial_eval_model(values@) && q@.wf(),
    {
        let mut j: usize = 0;
        while j < values.len()
            invariant
                j <= values@.len(),
                forall|q: int| 0 <= q < j ==> (#[trigger] values@[q]).0 < self.num_vars,
            decreases values.len() - j,
        {
            if values[j].0 >= self.num_vars {
                return Err(PolyError::IndexOutOfRange);
            }
            j = j + 1;
        }
        let mut i: usize = 0;
        while i < values.len()
            invariant
                i <= values@.len(),
                indices_in_range(values@, self.num_vars as nat),
                forall|p: int, q: int|
                    0 <= p < i && 0 <= q < values@.len() && p != q ==> values@[p].0 != values@[q].0,
            decreases values.len() - i,
        {
            let mut k: usize = 0;
            while k < values.len()
                invariant
                    i < values@.len(),
                    indices_in_range(values@, self.num_vars as nat),
                    k <= values@.len(),
                    forall|q: int| 0 <= q < k && q != i ==> values@[i as int].0 != values@[q].0,
                decreases values.len() - k,
            {
                if k != i && values[k].0 == values[i].0 {
                    return Err(PolyError::DuplicateAssignment);
                }
                k = k + 1;
            }
            i = i + 1;
        }
        Ok(self.substitute(&values))
    }

    /// The term-wise sum of two polynomials of the same shape.
    fn sum(&self, other: &MultiVarPolynomial) -> (r: MultiVarPolynomial)
        requires
            self@.wf(),
            other@.wf(),
            self.num_vars == other.num_vars,
            self.modulus == other.modulus,
        ensures
            r@ == self@.add_model(other@),
            r@.wf(),
    {
        let ghost s = self@.terms;
        let ghost t = other@.terms;
        let ghost n = self.num_vars as nat;
        let m = self.modulus;
        let mut out = copy_terms(&self.terms);
        let mut j: usize = 0;
        assert(t.subrange(0, 0) =~= Seq::<TermModel>::empty());
        while j < other.terms.len()
            invariant
                s == self@.terms,
                t == other@.terms,
                n == self.num_vars,
                m == self.modulus,
                self@.wf(),
                other@.wf(),
                self.num_vars == other.num_vars,
                self.modulus == other.modulus,
                j <= t.len(),
                terms_view(out@) == add_terms(s, t.subrange(0, j as int), m as int),
                terms_ok(terms_view(out@), n, m as int),
            decreases t.len() - j,
        {
            let e = copy_exponents(&other.terms[j].0);
            let c = other.terms[j].1;
            assert(t[j as int] == (e@, c as int));
            proof {
                lemma_accumulate_ok(terms_view(out@), e@, c as int, n, m as int);
                assert(t.subrange(0, j + 1).drop_last() =~= t.subrange(0, j as int));
            }
            accumulate_term(&mut out, e, c, m);
            j = j + 1;
        }
        assert(t.subrange(0, t.len() as int) =~= t);
        MultiVarPolynomial { terms: out, num_vars: self.num_vars, modulus: m }
    }

    /// The term-wise sum modulo the common modulus: coefficients of the same
    /// exponents are added, every other term is kept.
    pub fn add(&self, other: &MultiVarPolynomial) -> (r: Result<MultiVarPolynomial, PolyError>)
        requires
            self@.wf(),
            other@.wf(),
        ensures
            r is Ok <==> self.num_vars == other.num_vars && self.modulus == other.modulus,
            r is Err ==> r == Err::<MultiVarPolynomial, PolyError>(
                PolyError::IncompatibleOperands,
            ),
            r matches Ok(q) ==> q@ == self@.add_model(other@) && q@.wf(),
    {
        if self.num_vars != other.num_vars || self.modulus != other.modulus {
            return Err(PolyError::IncompatibleOperands);
        }
        Ok(self.sum(other))
    }

    /// Fixes the last variable to `value`.
    fn fix_last(&self, value: i32) -> (r: MultiVarPolynomial)
        requires
            self@.wf(),
            self.num_vars >= 1,
        ensures
            r@ == self@.fix_last(value),
            r@.wf(),
    {
        let mut a: Vec<(usize, i32)> = Vec::new();
        a.push((self.num_vars - 1, value));
        assert(a@ =~= seq![((self.num_vars - 1) as usize, value)]);
        self.substitute(&a)
    }

    /// Sums out the last variable over `{0, 1}`: the polynomial with it fixed
    /// to `0` plus the polynomial with it fixed to `1`.
    pub fn bool_sum(&self) -> (r: MultiVarPolynomial)
        requires
            self@.wf(),
            self.num_vars >= 1,
        ensures
            r@ == self@.bool_sum_model(),
            r@.wf(),
            r.num_vars == self.num_vars - 1,
            r.modulus == self.modulus,
    {
        let p0 = self.fix_last(0);
        let p1 = self.fix_last(1);
        p0.sum(&p1)
    }
}

} // verus!

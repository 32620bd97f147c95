//! Arithmetic in the prime field `Z/pZ`: canonical residues, modular
//! exponentiation and primality of the modulus.
use vstd::arithmetic::div_mod::{
    lemma_fundamental_div_mod, lemma_fundamental_div_mod_converse_mod, lemma_mod_multiples_basic,
    lemma_mul_mod_noop_left, lemma_mul_mod_noop_right,
};
use vstd::arithmetic::power::{
    lemma_pow0, lemma_pow_adds, lemma_pow1, lemma_pow_mod_noop, lemma_pow_multiplies,
    lemma_square_is_pow2, pow,
};
use vstd::arithmetic::mul::lemma_mul_upper_bound;
use vstd::prelude::*;

verus! {

/// A number is prime when it is greater than one and has no divisor strictly
/// between one and itself.
pub open spec fn is_prime_spec(n: int) -> bool {
    &&& n > 1
    &&& forall|d: int| 1 < d < n ==> #[trigger] (n % d) != 0
}

/// The canonical residue of `c` modulo `m`, in `[0, m)` (`i32::rem_euclid`).
pub fn reduce(c: i32, m: i32) -> (r: i32)
    requires
        m > 0,
    ensures
        r == c as int % m as int,
        0 <= r < m,
{
    if c >= 0 {
        ((c as u32) % (m as u32)) as i32
    } else {
        let a: u64 = (0i64 - c as i64) as u64;
        let t: u64 = a % (m as u64);
        proof {
            let q = a as int / m as int;
            lemma_fundamental_div_mod(a as int, m as int);
            if t == 0 {
                assert(c as int == (-q) * m as int) by (nonlinear_arith)
                    requires
                        a as int == m as int * q,
                        c as int == -(a as int),
                ;
                lemma_fundamental_div_mod_converse_mod(c as int, m as int, -q, 0);
            } else {
                assert(c as int == (-q - 1) * m as int + (m as int - t as int)) by (nonlinear_arith)
                    requires
                        a as int == m as int * q + t as int,
                        c as int == -(a as int),
                ;
                lemma_fundamental_div_mod_converse_mod(
                    c as int,
                    m as int,
                    -q - 1,
                    m as int - t as int,
                );
            }
        }
        if t == 0 {
            0
        } else {
            (m as i64 - t as i64) as i32
        }
    }
}

proof fn lemma_square_step(r: int, b: int, e: nat, m: int)
    requires
        m > 0,
    ensures
        e % 2 == 1 ==> ((r * b) % m * pow((b * b) % m, e / 2)) % m == (r * pow(b, e)) % m,
        e % 2 == 0 ==> (r * pow((b * b) % m, e / 2)) % m == (r * pow(b, e)) % m,
{
    let h: nat = e / 2;
    lemma_square_is_pow2(b);
    lemma_pow_multiplies(b, 2, h);
    assert(pow(b * b, h) == pow(b, 2 * h));
    lemma_pow_mod_noop(b * b, h, m);
    let x = pow((b * b) % m, h);
    let y = pow(b, 2 * h);
    assert(x % m == y % m);
    if e % 2 == 1 {
        lemma_pow_adds(b, 2 * h, 1);
        lemma_pow1(b);
        assert(pow(b, e) == y * b);
        lemma_mul_mod_noop_left(r * b, x, m);
        lemma_mul_mod_noop_right(r * b, x, m);
        lemma_mul_mod_noop_right(r * b, y, m);
        assert((r * b) * y == r * (y * b)) by (nonlinear_arith);
    } else {
        assert(e == 2 * h);
        lemma_mul_mod_noop_right(r, x, m);
        lemma_mul_mod_noop_right(r, y, m);
    }
}

/// `base^exp mod modulus` by binary exponentiation; every intermediate
/// product is taken in 64 bits before it is reduced.
pub fn modular_pow(base: i32, exp: usize, modulus: i32) -> (r: i32)
    requires
        modulus > 1,
    ensures
        r == pow(base as int, exp as nat) % modulus as int,
        0 <= r < modulus,
{
    let m: u64 = modulus as u64;
    let mut result: u64 = 1;
    let mut b: u64 = reduce(base, modulus) as u64;
    let mut e: usize = exp;
    proof {
        lemma_pow_mod_noop(base as int, exp as nat, m as int);
        lemma_mul_mod_noop_right(1, pow(b as int, exp as nat), m as int);
    }
    while e > 0
        invariant
            m == modulus as int,
            1 < m <= i32::MAX,
            result < m,
            b < m,
            (result as int * pow(b as int, e as nat)) % m as int == pow(base as int, exp as nat)
                % m as int,
        decreases e,
    {
        proof {
            lemma_square_step(result as int, b as int, e as nat, m as int);
        }
        proof {
            lemma_mul_upper_bound(result as int, 0x8000_0000, b as int, 0x8000_0000);
            lemma_mul_upper_bound(b as int, 0x8000_0000, b as int, 0x8000_0000);
        }
        if e % 2 == 1 {
            result = (result * b) % m;
        }
        b = (b * b) % m;
        e = e / 2;
    }
    proof {
        lemma_pow0(b as int);
        lemma_fundamental_div_mod_converse_mod(result as int, m as int, 0, result as int);
    }
    result as i32
}

proof fn lemma_divides_transitive(n: int, d: int, k: int)
    requires
        k > 0,
        d > 0,
        n % d == 0,
        d % k == 0,
    ensures
        n % k == 0,
{
    lemma_fundamental_div_mod(n, d);
    lemma_fundamental_div_mod(d, k);
    let q = n / d;
    let p = d / k;
    assert(n == k * (p * q)) by (nonlinear_arith)
        requires
            n == d * q,
            d == k * p,
    ;
    lemma_mod_multiples_basic(p * q, k);
    assert(k * (p * q) == (p * q) * k) by (nonlinear_arith);
}

/// Decides whether `num` is prime by trial division with the candidates
/// `6k - 1` and `6k + 1` up to the square root of `num`.
pub fn is_prime(num: i32) -> (r: bool)
    ensures
        r == is_prime_spec(num as int),
{
    if num <= 1 {
        return false;
    }
    if num <= 3 {
        assert(forall|d: int| 1 < d < num ==> #[trigger] (num as int % d) != 0) by {
            assert forall|d: int| 1 < d < num implies #[trigger] (num as int % d) != 0 by {
                assert(d == 2 && num == 3);
            }
        }
        return true;
    }
    let n: u64 = num as u64;
    if n % 2 == 0 {
        assert((num as int) % 2 == 0);
        return false;
    }
    if n % 3 == 0 {
        assert((num as int) % 3 == 0);
        return false;
    }
    assert(forall|d: int| 1 < d < 5 && d < n ==> #[trigger] (n as int % d) != 0) by {
        assert forall|d: int| 1 < d < 5 && d < n implies #[trigger] (n as int % d) != 0 by {
            if d == 4 {
                if n as int % 4 == 0 {
                    lemma_divides_transitive(n as int, 4, 2);
                }
            }
        }
    }
    let mut i: u64 = 5;
    let mut sq: u64 = 25;
    while sq <= n
        invariant
            sq == i * i,
            n == num as int,
            n > 3,
            n <= i32::MAX,
            5 <= i <= n + 6,
            i % 6 == 5,
            n % 2 != 0,
            n % 3 != 0,
            forall|d: int| 1 < d < i && d < n ==> #[trigger] (n as int % d) != 0,
        decreases n + 6 - i,
    {
        assert(i + 2 < n) by (nonlinear_arith)
            requires
                i * i <= n,
                i >= 5,
        ;
        if n % i == 0 {
            return false;
        }
        if n % (i + 2) == 0 {
            return false;
        }
        assert forall|d: int| 1 < d < i + 6 && d < n implies #[trigger] (n as int % d) != 0 by {
            if d >= i && n as int % d == 0 {
                if d == i + 1 || d == i + 3 || d == i + 5 {
                    assert(d % 2 == 0);
                    lemma_divides_transitive(n as int, d, 2);
                } else if d == i + 4 {
                    assert(d % 3 == 0);
                    lemma_divides_transitive(n as int, d, 3);
                }
            }
        }
        assert(i <= n) by (nonlinear_arith)
            requires
                i * i <= n,
                i >= 5,
        ;
        i = i + 6;
        proof {
            lemma_mul_upper_bound(i as int, 0x8000_0006, i as int, 0x8000_0006);
        }
        sq = i * i;
    }
    assert forall|d: int| 1 < d < n implies #[trigger] (n as int % d) != 0 by {
        if d >= i && n as int % d == 0 {
            lemma_fundamental_div_mod(n as int, d);
            let q = n as int / d;
            assert(1 < q < i) by (nonlinear_arith)
                requires
                    n as int == d * q,
                    d >= i,
                    d < n,
                    i * i > n,
                    i >= 5,
            ;
            assert(n as int == q * d) by (nonlinear_arith)
                requires
                    n as int == d * q,
            ;
            lemma_mod_multiples_basic(d, q);
            assert(d * q == n as int) by (nonlinear_arith)
                requires
                    n as int == q * d,
            ;
        }
    }
    true
}

} // verus!

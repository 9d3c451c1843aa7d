//! Stateless number-theory primitives: gcd, lcm, primality, Fibonacci.

use vstd::prelude::*;

use vstd::arithmetic::div_mod::{lemma_fundamental_div_mod, lemma_div_is_ordered_by_denominator};

use crate::modules::error::ProjectError;

verus! {

/// `d` divides `x`: some whole multiple of `d` equals `x`.
pub open spec fn divides(d: nat, x: nat) -> bool {
    exists|k: nat| x == #[trigger] (k * d)
}

/// The greatest common divisor, by the Euclidean recurrence.
pub open spec fn gcd_spec(a: nat, b: nat) -> nat
    decreases b,
{
    if b == 0 {
        a
    } else {
        gcd_spec(b, a % b)
    }
}

/// The factorial of `n`.
pub open spec fn factorial_spec(n: nat) -> nat
    decreases n,
{
    if n == 0 {
        1
    } else {
        n * factorial_spec((n - 1) as nat)
    }
}

/// The Fibonacci sequence: 0, 1, 1, 2, 3, ...
pub open spec fn fib(n: nat) -> nat
    decreases n,
{
    if n == 0 {
        0
    } else if n == 1 {
        1
    } else {
        fib((n - 1) as nat) + fib((n - 2) as nat)
    }
}

/// A number is prime when it is at least 2 and has no divisor strictly
/// between 1 and itself.
pub open spec fn is_prime_spec(n: nat) -> bool {
    n >= 2 && forall|d: nat| 2 <= d < n ==> #[trigger] (n % d) != 0
}

/// Every number divides itself, and every number divides zero.
proof fn lemma_divides_basics(d: nat)
    ensures
        divides(d, d),
        divides(d, 0),
{
    assert(d == 1 * d) by (nonlinear_arith);
    assert(0 == 0 * d) by (nonlinear_arith);
}

/// The Euclidean gcd divides both of its arguments, and every common divisor
/// of the arguments divides it. This is the defining property of the
/// greatest common divisor.
pub proof fn lemma_gcd_properties(a: nat, b: nat)
    ensures
        divides(gcd_spec(a, b), a),
        divides(gcd_spec(a, b), b),
        forall|d: nat| divides(d, a) && divides(d, b) ==> divides(d, gcd_spec(a, b)),
        a != 0 || b != 0 ==> gcd_spec(a, b) != 0,
    decreases b,
{
    if b == 0 {
        lemma_divides_basics(a);
        assert forall|d: nat| divides(d, a) && divides(d, 0) implies divides(d, gcd_spec(a, b)) by {
        }
    } else {
        lemma_gcd_properties(b, a % b);
        let g = gcd_spec(b, a % b);
        lemma_fundamental_div_mod(a as int, b as int);
        // g divides b and a % b, so g divides a == (a / b) * b + a % b.
        let k1 = choose|k: nat| b == #[trigger] (k * g);
        let k2 = choose|k: nat| (a % b) as nat == #[trigger] (k * g);
        let q = a as int / b as int;
        assert(q >= 0) by {
            vstd::arithmetic::div_mod::lemma_div_pos_is_pos(a as int, b as int);
        }
        assert(q * k1 >= 0) by {
            vstd::arithmetic::mul::lemma_mul_nonnegative(q, k1 as int);
        }
        assert(a == (q * k1 + k2) * g) by (nonlinear_arith)
            requires
                a == (b as int) * q + (a % b),
                b == k1 * g,
                (a % b) as nat == k2 * g,
        ;
        assert(divides(g, a)) by {
            assert(a as nat == ((q * k1 + k2) as nat) * g);
        }
        // Every common divisor d of a and b divides a % b, hence divides g.
        assert forall|d: nat| divides(d, a) && divides(d, b) implies divides(d, g) by {
            let ka = choose|k: nat| a == #[trigger] (k * d);
            let kb = choose|k: nat| b == #[trigger] (k * d);
            // a % b == a - q * b == ka * d - q * kb * d == (ka - q * kb) * d
            assert((a % b) as int == (ka - q * kb) * (d as int)) by (nonlinear_arith)
                requires
                    a == (b as int) * q + (a % b),
                    a == ka * d,
                    b == kb * d,
            ;
            if d == 0 {
                assert(a == ka * 0);
                assert(a == 0) by (nonlinear_arith)
                    requires a == ka * 0;
                assert(b == kb * 0);
                assert(b == 0) by (nonlinear_arith)
                    requires b == kb * 0;
                assert(false);
            }
            let km = ka - q * kb;
            assert(km * (d as int) == (a % b) as int);
            assert(km >= 0) by {
                if km < 0 {
                    assert(km * (d as int) < 0) by (nonlinear_arith)
                        requires km < 0, d > 0;
                }
            }
            assert((a % b) as nat == (km as nat) * d);
            assert(divides(d, (a % b) as nat));
        }
        assert(gcd_spec(a, b) == g);
    }
}

/// Namespace for the stateless number-theory helpers.
pub struct MathUtils;

impl MathUtils {
    /// Greatest common divisor by the Euclidean algorithm.
    /// `gcd(a, 0) == a` and `gcd(0, b) == b`.
    pub fn gcd(a: u64, b: u64) -> (r: u64)
        ensures
            r == gcd_spec(a as nat, b as nat),
        decreases b,
    {
        if b == 0 {
            a
        } else {
            Self::gcd(b, a % b)
        }
    }

    /// Least common multiple: `(a / gcd(a, b)) * b`.
    /// Zero arguments are rejected, and a product beyond `u64::MAX` reports
    /// an overflow.
    pub fn lcm(a: u64, b: u64) -> (r: Result<u64, ProjectError>)
        ensures
            (a == 0 || b == 0) ==> (r matches Err(e) && e matches ProjectError::InvalidInput(m)
                && m@ == "LCM von Null ist nicht definiert"@),
            a != 0 && b != 0 && lcm_value(a as nat, b as nat) <= u64::MAX ==> (r matches Ok(v)
                && v == lcm_value(a as nat, b as nat)),
            a != 0 && b != 0 && lcm_value(a as nat, b as nat) > u64::MAX ==> (r matches Err(e)
                && e matches ProjectError::OverflowError(m) && m@ == "LCM Overflow"@),
    {
        if a == 0 || b == 0 {
            return Err(ProjectError::InvalidInput(String::from_str(
                "LCM von Null ist nicht definiert",
            )));
        }
        let g = Self::gcd(a, b);
        proof {
            lemma_gcd_properties(a as nat, b as nat);
            let k = choose|k: nat| a as nat == #[trigger] (k * (gcd_spec(a as nat, b as nat)));
            assert(a as int / g as int == k) by {
                vstd::arithmetic::div_mod::lemma_div_by_multiple(k as int, g as int);
            }
        }
        let q = a / g;
        match q.checked_mul(b) {
            Some(v) => Ok(v),
            None => Err(ProjectError::OverflowError(String::from_str("LCM Overflow"))),
        }
    }
}

/// The value `(a / gcd(a, b)) * b`, the least common multiple of two
/// positive numbers.
pub open spec fn lcm_value(a: nat, b: nat) -> nat {
    (a / gcd_spec(a, b)) * b
}

/// A number with an even divisor is itself even.
proof fn lemma_even_divisor(n: nat, e: nat)
    requires
        e > 0,
        e % 2 == 0,
        n % e == 0,
    ensures
        n % 2 == 0,
{
    lemma_fundamental_div_mod(n as int, e as int);
    lemma_fundamental_div_mod(e as int, 2);
    let q = n as int / e as int;
    let h = e as int / 2;
    assert(n == (q * h) * 2) by (nonlinear_arith)
        requires
            n == (e as int) * q + (n % e),
            n % e == 0,
            e == 2 * h + (e % 2),
            e % 2 == 0,
    ;
    assert(((q * h) * 2) % 2 == 0) by {
        vstd::arithmetic::div_mod::lemma_mod_multiples_basic(q * h, 2);
    }
}

/// The Fibonacci sequence never decreases.
pub proof fn lemma_fib_monotone(i: nat, j: nat)
    requires
        i <= j,
    ensures
        fib(i) <= fib(j),
    decreases j,
{
    if i < j && j >= 2 {
        lemma_fib_monotone(i, (j - 1) as nat);
    } else if i < j && j == 1 {
        assert(fib(0) == 0 && fib(1) == 1);
    }
}

/// The 93rd Fibonacci number is the largest one a `u64` can hold, and the
/// 94th is the first that cannot.
#[verifier::rlimit(60)]
pub proof fn lemma_fib_93()
    ensures
        fib(93) == 12200160415121876738,
        fib(94) > u64::MAX,
{
    assert(fib(8) == 21 && fib(9) == 34) by {
        reveal_with_fuel(fib, 10);
    }
    assert(fib(16) == 987 && fib(17) == 1597) by {
        reveal_with_fuel(fib, 10);
    }
    assert(fib(24) == 46368 && fib(25) == 75025) by {
        reveal_with_fuel(fib, 10);
    }
    assert(fib(32) == 2178309 && fib(33) == 3524578) by {
        reveal_with_fuel(fib, 10);
    }
    assert(fib(40) == 102334155 && fib(41) == 165580141) by {
        reveal_with_fuel(fib, 10);
    }
    assert(fib(48) == 4807526976 && fib(49) == 7778742049) by {
        reveal_with_fuel(fib, 10);
    }
    assert(fib(56) == 225851433717 && fib(57) == 365435296162) by {
        reveal_with_fuel(fib, 10);
    }
    assert(fib(64) == 10610209857723 && fib(65) == 17167680177565) by {
        reveal_with_fuel(fib, 10);
    }
    assert(fib(72) == 498454011879264 && fib(73) == 806515533049393) by {
        reveal_with_fuel(fib, 10);
    }
    assert(fib(80) == 23416728348467685 && fib(81) == 37889062373143906) by {
        reveal_with_fuel(fib, 10);
    }
    assert(fib(88) == 1100087778366101931 && fib(89) == 1779979416004714189) by {
        reveal_with_fuel(fib, 10);
    }
    assert(fib(93) == 12200160415121876738 && fib(94) == 19740274219868223167) by {
        reveal_with_fuel(fib, 8);
    }
}

/// The factorial never decreases.
pub proof fn lemma_factorial_monotone(i: nat, j: nat)
    requires
        i <= j,
    ensures
        factorial_spec(i) <= factorial_spec(j),
    decreases j,
{
    if i < j {
        lemma_factorial_monotone(i, (j - 1) as nat);
        assert(factorial_spec(j) == j * factorial_spec((j - 1) as nat));
        assert(factorial_spec(j) >= factorial_spec((j - 1) as nat)) by (nonlinear_arith)
            requires
                factorial_spec(j) == j * factorial_spec((j - 1) as nat),
                j >= 1,
        ;
    }
}

/// The factorial of 20 is the largest that fits in a `u64`.
pub proof fn lemma_factorial_20()
    ensures
        factorial_spec(20) == 2432902008176640000,
        factorial_spec(21) > u64::MAX,
{
    assert(factorial_spec(4) == 24) by {
        reveal_with_fuel(factorial_spec, 6);
    }
    assert(factorial_spec(8) == 40320) by {
        reveal_with_fuel(factorial_spec, 6);
    }
    assert(factorial_spec(12) == 479001600) by {
        reveal_with_fuel(factorial_spec, 6);
    }
    assert(factorial_spec(16) == 20922789888000) by {
        reveal_with_fuel(factorial_spec, 6);
    }
    assert(factorial_spec(20) == 2432902008176640000) by {
        reveal_with_fuel(factorial_spec, 6);
    }
    assert(factorial_spec(21) == 51090942171709440000) by {
        reveal_with_fuel(factorial_spec, 3);
    }
}

impl MathUtils {
    /// Primality by trial division: odd candidate divisors are tried up to
    /// the square root.
    pub fn is_prime(n: u64) -> (r: bool)
        ensures
            r == is_prime_spec(n as nat),
    {
        if n < 2 {
            return false;
        }
        if n == 2 {
            return true;
        }
        if n % 2 == 0 {
            assert(!is_prime_spec(n as nat)) by {
                assert(2 <= 2 < n && n as nat % 2 == 0);
            }
            return false;
        }
        let mut i: u64 = 3;
        while i <= n / i
            invariant
                n >= 3,
                n % 2 != 0,
                3 <= i <= n + 2,
                i % 2 == 1,
                forall|d: nat| 2 <= d < i ==> #[trigger] ((n as nat) % d) != 0,
            decreases n + 2 - i,
        {
            if n % i == 0 {
                assert(!is_prime_spec(n as nat)) by {
                    assert(i < n) by {
                        lemma_fundamental_div_mod(n as int, i as int);
                        assert(i < n) by (nonlinear_arith)
                            requires
                                n == (i as int) * (n as int / i as int) + (n % i),
                                n % i >= 0,
                                n as int / i as int >= i,
                                i >= 3,
                        ;
                    }
                    assert(2 <= i < n && (n as nat) % (i as nat) == 0);
                }
                return false;
            }
            proof {
                // The next even candidate cannot divide n either, since n is odd.
                assert(forall|d: nat| 2 <= d < i + 2 ==> #[trigger] ((n as nat) % d) != 0) by {
                    assert forall|d: nat| 2 <= d < i + 2 implies #[trigger] ((n as nat) % d) != 0 by {
                        if d == i + 1 {
                            if (n as nat) % d == 0 {
                                lemma_even_divisor(n as nat, d);
                            }
                        }
                    }
                }
                // i stays far below the u64 bound: i * i <= n.
                lemma_fundamental_div_mod(n as int, i as int);
                assert((i as int) * (i as int) <= n) by (nonlinear_arith)
                    requires
                        n == (i as int) * (n as int / i as int) + (n % i),
                        n % i >= 0,
                        n as int / i as int >= i,
                        i > 0,
                ;
                assert(i <= 0x1_0000_0000u64) by (nonlinear_arith)
                    requires
                        (i as int) * (i as int) <= n,
                        n <= u64::MAX,
                        i >= 0,
                ;
                assert(i <= n) by (nonlinear_arith)
                    requires
                        (i as int) * (i as int) <= n,
                        i >= 1,
                ;
            }
            i += 2;
        }
        proof {
            // Any divisor d >= i would have a cofactor q = n / d below i,
            // and every candidate below i has been ruled out.
            assert forall|d: nat| 2 <= d < n implies #[trigger] ((n as nat) % d) != 0 by {
                if d >= i && (n as nat) % d == 0 {
                    lemma_fundamental_div_mod(n as int, d as int);
                    let q = (n as nat) / d;
                    assert(n == d * q);
                    assert(q >= 2) by (nonlinear_arith)
                        requires
                            n == d * q,
                            d < n,
                            q >= 0,
                    ;
                    assert(q < i) by {
                        lemma_div_is_ordered_by_denominator(n as int, i as int, d as int);
                        assert((n as nat) / (i as nat) < i);
                    }
                    assert((n as nat) % q == 0) by {
                        vstd::arithmetic::div_mod::lemma_mod_multiples_basic(d as int, q as int);
                        assert(((d as int) * (q as int)) % (q as int) == 0);
                    }
                    assert(false);
                }
            }
        }
        true
    }

    /// The n-th Fibonacci number, by linear accumulation with checked
    /// addition. Indices above 93 overflow a `u64` and are rejected.
    pub fn fibonacci(n: u64) -> (r: Result<u64, ProjectError>)
        ensures
            n <= 93 ==> (r matches Ok(v) && v == fib(n as nat)),
            n > 93 ==> (r matches Err(e) && e matches ProjectError::OverflowError(m)
                && m@ == "Fibonacci Overflow"@),
    {
        if n > 93 {
            return Err(ProjectError::OverflowError(String::from_str("Fibonacci Overflow")));
        }
        if n <= 1 {
            return Ok(n);
        }
        let mut a: u64 = 0;
        let mut b: u64 = 1;
        let mut k: u64 = 2;
        while k <= n
            invariant
                2 <= k <= n + 1,
                n <= 93,
                a == fib((k - 2) as nat),
                b == fib((k - 1) as nat),
            decreases n + 1 - k,
        {
            proof {
                lemma_fib_monotone(k as nat, 93);
                lemma_fib_93();
                assert(fib(k as nat) == fib((k - 2) as nat) + fib((k - 1) as nat));
            }
            let t = match a.checked_add(b) {
                Some(v) => v,
                None => {
                    // Unreachable: fib(k) fits in a u64 for every k up to 93.
                    return Err(ProjectError::OverflowError(String::from_str(
                        "Fibonacci Overflow",
                    )));
                },
            };
            a = b;
            b = t;
            k += 1;
        }
        Ok(b)
    }
}

} // verus!

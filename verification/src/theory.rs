//! What the arithmetic of the proof guarantees: an honest prover is accepted, and
//! a response that was computed from another secret is refused.

use crate::bignat::mod_exp;
use crate::zkp::{leg_holds, order_divides, proof_accepted, response};
use vstd::arithmetic::div_mod::{
    lemma_add_mod_noop, lemma_fundamental_div_mod, lemma_mod_bound, lemma_mod_multiples_vanish,
    lemma_mod_twice, lemma_mul_mod_noop_left, lemma_mul_mod_noop_right, lemma_small_mod,
    lemma_sub_mod_noop,
};
use vstd::arithmetic::power::{
    lemma1_pow, lemma_pow_adds, lemma_pow_mod_noop, lemma_pow_multiplies, pow,
};
use vstd::prelude::*;

verus! {

/// `g` has the order `q` among the residues modulo `p`: `g^e` is congruent to 1
/// for the multiples `e` of `q` and for no other exponent.
pub open spec fn has_order(g: nat, q: nat, p: nat) -> bool {
    forall|e: nat| (#[trigger] mod_exp(g, e, p) == 1) <==> e % q == 0
}

/// `q` is a prime number.
pub open spec fn is_prime(q: nat) -> bool {
    q > 1 && forall|d: nat| 1 < d < q ==> #[trigger] (q % d) != 0
}

/// A generator whose order divides `q` gives 1 for every multiple of `q`.
pub proof fn lemma_pow_of_multiple(g: nat, p: nat, q: nat, m: nat)
    requires
        p > 0,
        order_divides(g, q, p),
    ensures
        mod_exp(g, q * m, p) == 1,
{
    let gi = g as int;
    let pi = p as int;
    assert(p > 1) by {
        if p == 1 {
            lemma_mod_bound(pow(gi, q), 1);
        }
    }
    lemma_pow_multiplies(gi, q, m);
    lemma_pow_mod_noop(pow(gi, q), m, pi);
    lemma1_pow(m);
    lemma_small_mod(1, p);
}

/// Exponents that are congruent modulo `q` give the same power of a generator
/// whose order divides `q`.
pub proof fn lemma_pow_congruent(g: nat, p: nat, q: nat, a: nat, b: nat)
    requires
        p > 0,
        q > 0,
        order_divides(g, q, p),
        a % q == b % q,
    ensures
        mod_exp(g, a, p) == mod_exp(g, b, p),
{
    if a < b {
        lemma_pow_congruent_ordered(g, p, q, b, a);
    } else {
        lemma_pow_congruent_ordered(g, p, q, a, b);
    }
}

proof fn lemma_pow_congruent_ordered(g: nat, p: nat, q: nat, a: nat, b: nat)
    requires
        p > 0,
        q > 0,
        order_divides(g, q, p),
        a % q == b % q,
        a >= b,
    ensures
        mod_exp(g, a, p) == mod_exp(g, b, p),
{
    let gi = g as int;
    let pi = p as int;
    let qi = q as int;
    // `a` is `b` and a multiple `q * m` of `q`.
    lemma_fundamental_div_mod(a as int, qi);
    lemma_fundamental_div_mod(b as int, qi);
    let mi = a as int / qi - b as int / qi;
    assert(a == b + qi * mi && mi >= 0) by (nonlinear_arith)
        requires
            a == qi * (a as int / qi) + a % q,
            b == qi * (b as int / qi) + b % q,
            a % q == b % q,
            a >= b,
            qi > 0,
            mi == a as int / qi - b as int / qi,
    ;
    let m = mi as nat;
    let qm: nat = q * m;
    assert(a == b + qm) by (nonlinear_arith)
        requires
            a == b + qi * mi,
            qm == q * m,
            m == mi,
            qi == q,
    ;
    // g^a = g^b * g^(q * m) = g^b * 1, modulo p.
    lemma_pow_of_multiple(g, p, q, m);
    lemma_mod_bound(pow(gi, qm), pi);
    lemma_pow_adds(gi, b, qm);
    lemma_mul_mod_noop_right(pow(gi, b), pow(gi, qm), pi);
    assert(pow(gi, a) % pi == (pow(gi, b) * 1) % pi);
}

/// Powers of a generator of order `q` are the same only for exponents that are
/// congruent modulo `q`.
pub proof fn lemma_pow_cancel(g: nat, p: nat, q: nat, a: nat, b: nat)
    requires
        p > 0,
        q > 0,
        has_order(g, q, p),
        mod_exp(g, a, p) == mod_exp(g, b, p),
    ensures
        a % q == b % q,
{
    if a < b {
        lemma_pow_cancel_ordered(g, p, q, b, a);
    } else {
        lemma_pow_cancel_ordered(g, p, q, a, b);
    }
}

proof fn lemma_pow_cancel_ordered(g: nat, p: nat, q: nat, a: nat, b: nat)
    requires
        p > 0,
        q > 0,
        has_order(g, q, p),
        mod_exp(g, a, p) == mod_exp(g, b, p),
        a >= b,
    ensures
        a % q == b % q,
{
    let gi = g as int;
    let pi = p as int;
    let qi = q as int;
    let d = (a - b) as nat;
    // `b + fill` is a multiple of `q`, so `g^(b + fill)` is congruent to 1.
    lemma_fundamental_div_mod(b as int, qi);
    lemma_mod_bound(b as int, qi);
    let fill = (q - b % q) as nat;
    let full: nat = b + fill;
    assert(full % q == 0) by {
        assert(full == qi * (b as int / qi + 1) + 0) by (nonlinear_arith)
            requires
                b == qi * (b as int / qi) + b % q,
                full == b + (qi - b % q),
        ;
        lemma_mod_multiples_vanish(b as int / qi + 1, 0, qi);
        lemma_small_mod(0, q);
    }
    assert(mod_exp(g, full, p) == 1);
    lemma_mod_bound(pow(gi, full), pi);
    lemma_mod_bound(pow(gi, a), pi);
    lemma_mod_bound(pow(gi, b), pi);
    lemma_mod_bound(pow(gi, d), pi);
    // g^d = g^d * g^(b + fill) = g^a * g^fill = g^b * g^fill = 1, modulo p.
    assert(pow(gi, d) % pi == pow(gi, d + full) % pi) by {
        lemma_pow_adds(gi, d, full);
        lemma_mul_mod_noop_right(pow(gi, d), pow(gi, full), pi);
        assert(pow(gi, d + full) % pi == (pow(gi, d) * 1) % pi);
    }
    assert(pow(gi, a + fill) % pi == pow(gi, full) % pi) by {
        lemma_pow_adds(gi, a, fill);
        lemma_pow_adds(gi, b, fill);
        lemma_mul_mod_noop_left(pow(gi, a), pow(gi, fill), pi);
        lemma_mul_mod_noop_left(pow(gi, b), pow(gi, fill), pi);
    }
    assert(d + full == a + fill);
    assert(mod_exp(g, d, p) == 1);
    // So `q` divides `d`, the difference of `a` and `b`.
    assert(d % q == 0);
    lemma_add_mod_noop(b as int, d as int, qi);
    lemma_mod_twice(b as int, qi);
}

/// The response and `c * x` add up to the nonce, modulo `q`.
pub proof fn lemma_response_congruent(k: nat, c: nat, x: nat, q: nat)
    requires
        q > 0,
    ensures
        response(k, c, x, q) < q,
        (response(k, c, x, q) + c * x) % q == k % q,
{
    let qi = q as int;
    let diff = k as int - c as int * x as int;
    lemma_fundamental_div_mod(diff, qi);
    lemma_mod_bound(diff, qi);
    let s = response(k, c, x, q);
    assert(s + c * x == qi * (-(diff / qi)) + k) by (nonlinear_arith)
        requires
            diff == qi * (diff / qi) + diff % qi,
            s == diff % qi,
            diff == k - c * x,
    ;
    lemma_mod_multiples_vanish(-(diff / qi), k as int, qi);
}

/// With `y = g^x`, the product `g^s * y^c` is congruent to `g^(s + c * x)`.
pub proof fn lemma_leg_exponent(g: nat, p: nat, x: nat, c: nat, s: nat)
    requires
        p > 0,
    ensures
        (pow(g as int, s) * pow(mod_exp(g, x, p) as int, c)) % (p as int) == mod_exp(
            g,
            s + c * x,
            p,
        ),
{
    let gi = g as int;
    let pi = p as int;
    let y = mod_exp(g, x, p);
    let cx: nat = c * x;
    lemma_mod_bound(pow(gi, x), pi);
    lemma_mod_bound(pow(gi, s + cx), pi);
    assert(pow(y as int, c) % pi == pow(gi, cx) % pi) by {
        lemma_pow_mod_noop(pow(gi, x), c, pi);
        lemma_pow_multiplies(gi, x, c);
        assert(x * c == cx) by (nonlinear_arith)
            requires
                cx == c * x,
        ;
    }
    lemma_mul_mod_noop_right(pow(gi, s), pow(y as int, c), pi);
    lemma_mul_mod_noop_right(pow(gi, s), pow(gi, cx), pi);
    lemma_pow_adds(gi, s, cx);
}

/// One leg of the proof of an honest prover is accepted: with `y = g^x`, `r = g^k`
/// and `s` the response to `c`, `r` is congruent to `g^s * y^c`.
pub proof fn lemma_honest_leg(g: nat, p: nat, q: nat, x: nat, k: nat, c: nat)
    requires
        p > 0,
        q > 0,
        order_divides(g, q, p),
    ensures
        leg_holds(g, mod_exp(g, x, p), mod_exp(g, k, p), c, response(k, c, x, q), p),
{
    let s = response(k, c, x, q);
    lemma_response_congruent(k, c, x, q);
    lemma_pow_congruent(g, p, q, s + c * x, k);
    lemma_leg_exponent(g, p, x, c, s);
    lemma_mod_bound(pow(g as int, k), p as int);
    lemma_mod_twice(pow(g as int, k), p as int);
}

/// Completeness: where both generators lie in a subgroup whose order divides `q`,
/// the proof of a prover who knows the secret `x` behind `y1 = alpha^x` and
/// `y2 = beta^x` is accepted, for every nonce `k` and every challenge `c`.
pub proof fn lemma_honest_proof_accepted(
    p: nat,
    q: nat,
    alpha: nat,
    beta: nat,
    x: nat,
    k: nat,
    c: nat,
)
    requires
        p > 0,
        q > 0,
        order_divides(alpha, q, p),
        order_divides(beta, q, p),
    ensures
        proof_accepted(
            p,
            alpha,
            beta,
            mod_exp(alpha, k, p),
            mod_exp(beta, k, p),
            mod_exp(alpha, x, p),
            mod_exp(beta, x, p),
            c,
            response(k, c, x, q),
        ),
{
    lemma_honest_leg(alpha, p, q, x, k, c);
    lemma_honest_leg(beta, p, q, x, k, c);
}

/// A prime that divides `a * b`, with `a` positive and below the prime, divides `b`.
proof fn lemma_prime_divides_factor(a: nat, b: nat, q: nat)
    requires
        is_prime(q),
        0 < a < q,
        (a * b) % q == 0,
    ensures
        b % q == 0,
    decreases a,
{
    if a == 1 {
        assert(a * b == b) by (nonlinear_arith)
            requires
                a == 1,
        ;
    } else {
        // `q` leaves a remainder `r` on division by `a`, with `0 < r < a`, and
        // `r * b = q * b - (q / a) * (a * b)` is a multiple of `q` again.
        let qi = q as int;
        let ai = a as int;
        let r = q % a;
        assert(r != 0);
        lemma_fundamental_div_mod(qi, ai);
        lemma_mod_bound(qi, ai);
        let ab = (a * b) as int;
        lemma_fundamental_div_mod(ab, qi);
        let t = qi / ai;
        let u = ab / qi;
        assert(r * b == qi * (b - t * u) + 0) by (nonlinear_arith)
            requires
                qi == ai * t + r,
                ab == qi * u,
                ab == ai * b,
        ;
        lemma_mod_multiples_vanish(b - t * u, 0, qi);
        lemma_small_mod(0, q);
        lemma_prime_divides_factor(r, b, q);
    }
}

/// Euclid's lemma: a prime that divides a product divides one of its factors.
pub proof fn lemma_prime_divides_product(a: nat, b: nat, q: nat)
    requires
        is_prime(q),
        (a * b) % q == 0,
    ensures
        a % q == 0 || b % q == 0,
{
    if a % q != 0 {
        let qi = q as int;
        lemma_mod_bound(a as int, qi);
        lemma_mul_mod_noop_left(a as int, b as int, qi);
        lemma_prime_divides_factor(a % q, b, q);
    }
}

/// Modulo a prime `q`, the products `c * x` and `c * x_fake` differ as soon as `c`
/// is no multiple of `q` and the two secrets are not congruent.
pub proof fn lemma_products_differ(c: nat, x: nat, x_fake: nat, q: nat)
    requires
        is_prime(q),
        c % q != 0,
        x % q != x_fake % q,
    ensures
        (c * x) % q != (c * x_fake) % q,
{
    if x < x_fake {
        lemma_products_differ_ordered(c, x_fake, x, q);
    } else {
        lemma_products_differ_ordered(c, x, x_fake, q);
    }
}

proof fn lemma_products_differ_ordered(c: nat, x: nat, y: nat, q: nat)
    requires
        is_prime(q),
        c % q != 0,
        x % q != y % q,
        x >= y,
    ensures
        (c * x) % q != (c * y) % q,
{
    if (c * x) % q == (c * y) % q {
        // Then `q` divides `c * (x - y)`, hence `x - y`: `x` and `y` are congruent.
        let qi = q as int;
        let d = (x - y) as nat;
        assert(c * d == c * x - c * y) by (nonlinear_arith)
            requires
                d == x - y,
        ;
        lemma_sub_mod_noop((c * x) as int, (c * y) as int, qi);
        lemma_small_mod(0, q);
        assert((c * d) % q == 0);
        lemma_prime_divides_product(c, d, q);
        lemma_add_mod_noop(y as int, d as int, qi);
        lemma_mod_twice(y as int, qi);
        assert(false);
    }
}

/// A response computed from another secret fails the leg of a generator of order
/// `q`, unless `c * x` and `c * x_fake` happen to be congruent modulo `q`.
pub proof fn lemma_wrong_secret_leg(
    g: nat,
    p: nat,
    q: nat,
    x: nat,
    x_fake: nat,
    k: nat,
    c: nat,
)
    requires
        p > 0,
        q > 0,
        has_order(g, q, p),
        (c * x) % q != (c * x_fake) % q,
    ensures
        !leg_holds(g, mod_exp(g, x, p), mod_exp(g, k, p), c, response(k, c, x_fake, q), p),
{
    let s = response(k, c, x_fake, q);
    let qi = q as int;
    if leg_holds(g, mod_exp(g, x, p), mod_exp(g, k, p), c, s, p) {
        lemma_leg_exponent(g, p, x, c, s);
        lemma_mod_bound(pow(g as int, k), p as int);
        lemma_mod_twice(pow(g as int, k), p as int);
        assert(mod_exp(g, s + c * x, p) == mod_exp(g, k, p));
        lemma_pow_cancel(g, p, q, s + c * x, k);
        lemma_response_congruent(k, c, x_fake, q);
        let a = (s + c * x) as int;
        let b = (s + c * x_fake) as int;
        assert(a % qi == b % qi);
        lemma_sub_mod_noop(a, s as int, qi);
        lemma_sub_mod_noop(b, s as int, qi);
        assert(a - s == c * x);
        assert(b - s == c * x_fake);
        assert(false);
    }
}

/// A response computed from another secret is refused: where `alpha` has the
/// order `q`, the proof built from the nonce `k` and the secret `x_fake` does not
/// pass for the commitments to `x`, unless `c * x` and `c * x_fake` are congruent
/// modulo `q`.
pub proof fn lemma_wrong_secret_refused(
    p: nat,
    q: nat,
    alpha: nat,
    beta: nat,
    x: nat,
    x_fake: nat,
    k: nat,
    c: nat,
)
    requires
        p > 0,
        q > 0,
        has_order(alpha, q, p),
        (c * x) % q != (c * x_fake) % q,
    ensures
        !proof_accepted(
            p,
            alpha,
            beta,
            mod_exp(alpha, k, p),
            mod_exp(beta, k, p),
            mod_exp(alpha, x, p),
            mod_exp(beta, x, p),
            c,
            response(k, c, x_fake, q),
        ),
{
    lemma_wrong_secret_leg(alpha, p, q, x, x_fake, k, c);
}

/// Soundness against a wrong secret in a group of prime order: where `q` is prime
/// and `alpha` has the order `q`, a response computed from a secret that is not
/// congruent to `x` modulo `q` is refused for every challenge but the multiples of
/// `q`. A challenge drawn from `[0, q)` is such a multiple only if it is zero.
pub proof fn lemma_wrong_secret_refused_prime(
    p: nat,
    q: nat,
    alpha: nat,
    beta: nat,
    x: nat,
    x_fake: nat,
    k: nat,
    c: nat,
)
    requires
        p > 0,
        is_prime(q),
        has_order(alpha, q, p),
        x % q != x_fake % q,
        c % q != 0,
    ensures
        !proof_accepted(
            p,
            alpha,
            beta,
            mod_exp(alpha, k, p),
            mod_exp(beta, k, p),
            mod_exp(alpha, x, p),
            mod_exp(beta, x, p),
            c,
            response(k, c, x_fake, q),
        ),
{
    lemma_products_differ(c, x, x_fake, q);
    lemma_wrong_secret_refused(p, q, alpha, beta, x, x_fake, k, c);
}

} // verus!

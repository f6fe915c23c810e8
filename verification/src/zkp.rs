//! The arithmetic of the Chaum–Pedersen proof: commitments, the prover's response
//! and the verifier's acceptance test.

use crate::bignat::{mod_exp, BigNat};
use rand::distributions::{Alphanumeric, DistString};
use vstd::arithmetic::div_mod::{
    lemma_fundamental_div_mod, lemma_fundamental_div_mod_converse_mod, lemma_mod_bound,
    lemma_mul_mod_noop, lemma_small_mod,
};
use vstd::arithmetic::power::{lemma_pow0, lemma_pow1, pow};
use vstd::prelude::*;

verus! {

/// The response to challenge `c` of a prover who holds the secret `x` and committed
/// with the nonce `k`: the residue of `k - c * x` modulo `q`, in `[0, q)`.
pub open spec fn response(k: nat, c: nat, x: nat, q: nat) -> nat {
    ((k as int - c as int * x as int) % (q as int)) as nat
}

/// One leg of the acceptance test: `r` is congruent to `g^s * y^c` modulo `p`.
pub open spec fn leg_holds(g: nat, y: nat, r: nat, c: nat, s: nat, p: nat) -> bool {
    (r as int) % (p as int) == (pow(g as int, s) * pow(y as int, c)) % (p as int)
}

/// The acceptance test: both legs hold, the one on `alpha` and the one on `beta`.
pub open spec fn proof_accepted(
    p: nat,
    alpha: nat,
    beta: nat,
    r1: nat,
    r2: nat,
    y1: nat,
    y2: nat,
    c: nat,
    s: nat,
) -> bool {
    leg_holds(alpha, y1, r1, c, s, p) && leg_holds(beta, y2, r2, c, s, p)
}

/// `g` lies in a subgroup of the residues modulo `p` whose order divides `q`:
/// `g^q` is congruent to 1.
pub open spec fn order_divides(g: nat, q: nat, p: nat) -> bool {
    mod_exp(g, q, p) == 1
}

/// A character that the token generator can produce: an ASCII letter or digit.
pub open spec fn is_alphanumeric(ch: char) -> bool {
    ('a' <= ch && ch <= 'z') || ('A' <= ch && ch <= 'Z') || ('0' <= ch && ch <= '9')
}

/// Every character of `text` is an ASCII letter or digit.
pub open spec fn all_alphanumeric(text: Seq<char>) -> bool {
    forall|i: int| 0 <= i < text.len() ==> is_alphanumeric(#[trigger] text[i])
}

/// The group parameters that prover and verifier share: the modulus `p`, the order
/// `q` of the subgroup, and its two generators `alpha` and `beta`.
#[derive(Clone, Debug)]
pub struct ZKP {
    pub p: BigNat,
    pub q: BigNat,
    pub alpha: BigNat,
    pub beta: BigNat,
}

impl ZKP {
    /// The parameters as they are given. Nothing is checked here:
    /// [`ZKP::generators_fit`] tests what can be tested.
    pub fn new(p: BigNat, q: BigNat, alpha: BigNat, beta: BigNat) -> (zkp: Self)
        ensures
            zkp.p == p,
            zkp.q == q,
            zkp.alpha == alpha,
            zkp.beta == beta,
    {
        Self { p, q, alpha, beta }
    }

    /// Whether both generators lie in a subgroup whose order divides `q`. This is
    /// the part of the validity of the parameters that can be tested; that `p` and
    /// `q` are prime and that nobody knows the logarithm of one generator to the
    /// base of the other is left to those who choose the group.
    pub fn generators_fit(&self) -> (ok: bool)
        requires
            self.p@ > 0,
        ensures
            ok == (order_divides(self.alpha@, self.q@, self.p@) && order_divides(
                self.beta@,
                self.q@,
                self.p@,
            )),
    {
        let one = BigNat::from_u32(1);
        let fits = self.alpha.modpow(&self.q, &self.p).equals(&one);
        fits && self.beta.modpow(&self.q, &self.p).equals(&one)
    }

    /// `n` to the power `exponent` modulo `modulus`. The power with the exponent
    /// zero is 1, also of zero. Like [`BigNat::modpow`], this takes no constant
    /// time.
    pub fn exponantiate(n: &BigNat, exponent: &BigNat, modulus: &BigNat) -> (r: BigNat)
        requires
            modulus@ > 0,
        ensures
            r@ == mod_exp(n@, exponent@, modulus@),
            r@ < modulus@,
            exponent@ == 0 && modulus@ > 1 ==> r@ == 1,
    {
        proof {
            lemma_pow0(n@ as int);
            if modulus@ > 1 {
                lemma_small_mod(1, modulus@);
            }
        }
        n.modpow(exponent, modulus)
    }

    /// The response `s = k - c * x mod q`, normalised into `[0, q)`, also where
    /// `c * x` exceeds `k`.
    pub fn solve(&self, k: &BigNat, c: &BigNat, x: &BigNat) -> (s: BigNat)
        requires
            self.q@ > 0,
        ensures
            s@ == response(k@, c@, x@, self.q@),
            s@ < self.q@,
    {
        let one = BigNat::from_u32(1);
        let cx = c.mul(x);
        proof {
            lemma_mod_bound(k@ as int - c@ as int * x@ as int, self.q@ as int);
        }
        if k.ge(&cx) {
            let s = k.sub(&cx).modpow(&one, &self.q);
            proof {
                lemma_pow1((k@ - cx@) as int);
            }
            s
        } else {
            let over = cx.sub(k).modpow(&one, &self.q);
            proof {
                lemma_pow1((cx@ - k@) as int);
                lemma_negated_residue((cx@ - k@) as nat, self.q@);
            }
            if over.is_zero() {
                over
            } else {
                self.q.sub(&over)
            }
        }
    }

    /// Whether `s` answers the challenge `c` for the commitments `r1`, `r2` of this
    /// attempt and `y1`, `y2` of the registration: `r1` is congruent to
    /// `alpha^s * y1^c` and `r2` to `beta^s * y2^c`, modulo `p`.
    pub fn verify(
        &self,
        r1: &BigNat,
        r2: &BigNat,
        y1: &BigNat,
        y2: &BigNat,
        c: &BigNat,
        s: &BigNat,
    ) -> (ok: bool)
        requires
            self.p@ > 0,
        ensures
            ok == proof_accepted(self.p@, self.alpha@, self.beta@, r1@, r2@, y1@, y2@, c@, s@),
    {
        let cond1 = self.leg(&self.alpha, y1, r1, c, s);
        let cond2 = self.leg(&self.beta, y2, r2, c, s);
        cond1 && cond2
    }

    fn leg(&self, g: &BigNat, y: &BigNat, r: &BigNat, c: &BigNat, s: &BigNat) -> (ok: bool)
        requires
            self.p@ > 0,
        ensures
            ok == leg_holds(g@, y@, r@, c@, s@, self.p@),
    {
        let one = BigNat::from_u32(1);
        let gs = g.modpow(s, &self.p);
        let yc = y.modpow(c, &self.p);
        let product = gs.mul(&yc);
        proof {
            lemma_pow1(r@ as int);
            lemma_pow1(product@ as int);
            lemma_mul_mod_noop(pow(g@ as int, s@), pow(y@ as int, c@), self.p@ as int);
        }
        r.modpow(&one, &self.p).equals(&product.modpow(&one, &self.p))
    }

    /// A number drawn at random from `[0, bound)` by a cryptographically secure
    /// generator.
    pub fn generate_random_below(bound: &BigNat) -> (r: BigNat)
        requires
            bound@ > 0,
        ensures
            r@ < bound@,
    {
        BigNat::random_below(bound)
    }

    /// A string of `size` letters and digits drawn at random by a cryptographically
    /// secure generator.
    pub fn generate_random_string(size: usize) -> (text: String)
        requires
            size < isize::MAX,
        ensures
            text@.len() == size,
            all_alphanumeric(text@),
    {
        alphanumeric_string(size)
    }
}

/// The residue of `-d` modulo `q` is zero where `q` divides `d`, and `q` minus the
/// residue of `d` elsewhere.
pub proof fn lemma_negated_residue(d: nat, q: nat)
    requires
        q > 0,
    ensures
        (-(d as int)) % (q as int) == if d % q == 0 {
            0
        } else {
            q - d % q
        },
{
    let d = d as int;
    let q = q as int;
    lemma_fundamental_div_mod(d, q);
    lemma_mod_bound(d, q);
    if d % q == 0 {
        assert(-d == (-(d / q)) * q + 0) by (nonlinear_arith)
            requires
                d == q * (d / q) + d % q,
                d % q == 0,
        ;
        lemma_fundamental_div_mod_converse_mod(-d, q, -(d / q), 0);
    } else {
        assert(-d == (-(d / q) - 1) * q + (q - d % q)) by (nonlinear_arith)
            requires
                d == q * (d / q) + d % q,
        ;
        lemma_fundamental_div_mod_converse_mod(-d, q, -(d / q) - 1, q - d % q);
    }
}

/// `DistString::sample_string` of rand's `Alphanumeric` on `thread_rng`, a
/// cryptographically secure generator seeded by the operating system: a string of
/// `len` characters, each an ASCII letter or digit. The bound on `len` keeps the
/// allocation within what a `String` can hold.
#[verifier::external_body]
fn alphanumeric_string(len: usize) -> (text: String)
    requires
        len < isize::MAX,
    ensures
        text@.len() == len,
        all_alphanumeric(text@),
{
    Alphanumeric.sample_string(&mut rand::thread_rng(), len)
}

} // verus!

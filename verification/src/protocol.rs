//! The session protocol as a state machine.
//!
//! [`AuthView`] holds the registry and the live attempts as maps. Its functions say
//! what each call decides and how it changes the state; the lemmas state what
//! follows for every state and every sequence of calls.

use crate::bignat::mod_exp;
use crate::theory::{
    has_order, lemma_honest_proof_accepted, lemma_response_congruent,
    lemma_wrong_secret_refused,
};
use crate::zkp::{order_divides, proof_accepted, response};
use vstd::prelude::*;

verus! {

/// The least number of characters of an attempt token.
pub const MIN_TOKEN_LEN: usize = 12;

/// The number of characters of a session credential.
pub const SESSION_ID_LEN: usize = 12;

/// Why a call was refused.
#[derive(Clone, Copy, Debug, PartialEq, Eq, Structural)]
pub enum AuthError {
    /// The identity is not registered, or the token is unknown or already used.
    NotFound,
    /// A number lies outside its range, or a token cannot be taken.
    InvalidArgument,
    /// The answer does not pass the acceptance test.
    InvalidProof,
    /// A live attempt names an identity that has no registration.
    Internal,
}

/// What is registered for an identity: the commitments `y1 = alpha^x` and
/// `y2 = beta^x` to its secret `x`.
pub struct Commitment {
    pub y1: nat,
    pub y2: nat,
}

/// What is kept of a live attempt: the identity it belongs to, the prover's
/// commitments `r1` and `r2`, the challenge `c`, and when it was opened.
pub struct Attempt {
    pub user: Seq<char>,
    pub r1: nat,
    pub r2: nat,
    pub c: nat,
    pub issued_at: nat,
}

/// The state of the verifier: the group parameters, the registry of identities,
/// and the live attempts by token.
pub struct AuthView {
    pub p: nat,
    pub q: nat,
    pub alpha: nat,
    pub beta: nat,
    pub users: Map<Seq<char>, Commitment>,
    pub challenges: Map<Seq<char>, Attempt>,
}

impl AuthView {
    /// The state of a verifier that has seen no call yet.
    pub open spec fn init(p: nat, q: nat, alpha: nat, beta: nat) -> AuthView {
        AuthView { p, q, alpha, beta, users: Map::empty(), challenges: Map::empty() }
    }

    /// What holds of every state that calls can lead to: the moduli are positive,
    /// every number kept lies in its range, every token has its least length, and
    /// every live attempt belongs to a registered identity.
    pub open spec fn wf(self) -> bool {
        &&& self.p > 0
        &&& self.q > 0
        &&& forall|name: Seq<char>| #[trigger]
            self.users.contains_key(name) ==> self.users[name].y1 < self.p && self.users[name].y2
                < self.p
        &&& forall|token: Seq<char>| #[trigger]
            self.challenges.contains_key(token) ==> {
                &&& token.len() >= MIN_TOKEN_LEN
                &&& self.challenges[token].r1 < self.p
                &&& self.challenges[token].r2 < self.p
                &&& self.challenges[token].c < self.q
                &&& self.users.contains_key(self.challenges[token].user)
            }
    }

    /// Registration is refused exactly when a commitment lies outside `[0, p)`.
    pub open spec fn register_outcome(self, y1: nat, y2: nat) -> Result<(), AuthError> {
        if y1 < self.p && y2 < self.p {
            Ok(())
        } else {
            Err(AuthError::InvalidArgument)
        }
    }

    /// Registration stores the commitments under the identity, in place of what was
    /// there; a refused registration changes nothing.
    pub open spec fn register(self, name: Seq<char>, y1: nat, y2: nat) -> AuthView {
        if self.register_outcome(y1, y2) is Ok {
            AuthView { users: self.users.insert(name, Commitment { y1, y2 }), ..self }
        } else {
            self
        }
    }

    /// Whether an attempt may be opened for `user` with the commitments `r1` and
    /// `r2`: the identity must be registered, and then both numbers must lie in
    /// `[0, p)`.
    pub open spec fn admission(self, user: Seq<char>, r1: nat, r2: nat) -> Result<(), AuthError> {
        if !self.users.contains_key(user) {
            Err(AuthError::NotFound)
        } else if r1 < self.p && r2 < self.p {
            Ok(())
        } else {
            Err(AuthError::InvalidArgument)
        }
    }

    /// Whether an admitted attempt can be stored under `token` with the challenge
    /// `c`: the token must have its least length and must not be live, and the
    /// challenge must lie in `[0, q)`.
    pub open spec fn open_outcome(
        self,
        user: Seq<char>,
        r1: nat,
        r2: nat,
        token: Seq<char>,
        c: nat,
    ) -> Result<(), AuthError> {
        if self.admission(user, r1, r2) is Err {
            self.admission(user, r1, r2)
        } else if token.len() >= MIN_TOKEN_LEN && !self.challenges.contains_key(token) && c
            < self.q {
            Ok(())
        } else {
            Err(AuthError::InvalidArgument)
        }
    }

    /// Opening an attempt stores it under its token and leaves every other attempt
    /// and the registry as they were; a refused attempt changes nothing.
    pub open spec fn open(
        self,
        user: Seq<char>,
        r1: nat,
        r2: nat,
        token: Seq<char>,
        c: nat,
        now: nat,
    ) -> AuthView {
        if self.open_outcome(user, r1, r2, token, c) is Ok {
            AuthView {
                challenges: self.challenges.insert(
                    token,
                    Attempt { user, r1, r2, c, issued_at: now },
                ),
                ..self
            }
        } else {
            self
        }
    }

    /// What the answer `s` to the attempt under `token` leads to. An unknown token
    /// is not found, whatever `s` is. For a live token: `s` must lie in `[0, q)`,
    /// the identity of the attempt must still be registered, and the answer
    /// succeeds exactly when the acceptance test holds of the commitments that are
    /// registered now.
    pub open spec fn answer_outcome(self, token: Seq<char>, s: nat) -> Result<(), AuthError> {
        if !self.challenges.contains_key(token) {
            Err(AuthError::NotFound)
        } else if s >= self.q {
            Err(AuthError::InvalidArgument)
        } else if !self.users.contains_key(self.challenges[token].user) {
            Err(AuthError::Internal)
        } else {
            let attempt = self.challenges[token];
            let known = self.users[attempt.user];
            if proof_accepted(
                self.p,
                self.alpha,
                self.beta,
                attempt.r1,
                attempt.r2,
                known.y1,
                known.y2,
                attempt.c,
                s,
            ) {
                Ok(())
            } else {
                Err(AuthError::InvalidProof)
            }
        }
    }

    /// An answer uses its token up, whatever it leads to.
    pub open spec fn answer(self, token: Seq<char>) -> AuthView {
        AuthView { challenges: self.challenges.remove(token), ..self }
    }

    /// The attempt under `token` was opened at least `ttl` before `now`.
    pub open spec fn expired(self, token: Seq<char>, now: nat, ttl: nat) -> bool {
        self.challenges.contains_key(token) && self.challenges[token].issued_at + ttl <= now
    }

    /// Reclaiming drops the expired attempts and keeps the others as they are.
    pub open spec fn reclaim(self, now: nat, ttl: nat) -> AuthView {
        AuthView {
            challenges: Map::new(
                |token: Seq<char>|
                    self.challenges.contains_key(token) && !self.expired(token, now, ttl),
                |token: Seq<char>| self.challenges[token],
            ),
            ..self
        }
    }
}

impl AuthView {
    /// The first state is well formed.
    pub proof fn lemma_init_wf(p: nat, q: nat, alpha: nat, beta: nat)
        requires
            p > 0,
            q > 0,
        ensures
            AuthView::init(p, q, alpha, beta).wf(),
    {
    }

    /// Registration keeps the state well formed.
    pub proof fn lemma_register_wf(self, name: Seq<char>, y1: nat, y2: nat)
        requires
            self.wf(),
        ensures
            self.register(name, y1, y2).wf(),
    {
        let next = self.register(name, y1, y2);
        assert forall|token: Seq<char>| #[trigger]
            next.challenges.contains_key(token) implies next.users.contains_key(
            next.challenges[token].user,
        ) by {
            assert(self.challenges.contains_key(token));
        }
    }

    /// Opening an attempt keeps the state well formed.
    pub proof fn lemma_open_wf(
        self,
        user: Seq<char>,
        r1: nat,
        r2: nat,
        token: Seq<char>,
        c: nat,
        now: nat,
    )
        requires
            self.wf(),
        ensures
            self.open(user, r1, r2, token, c, now).wf(),
    {
        let next = self.open(user, r1, r2, token, c, now);
        assert forall|t: Seq<char>| #[trigger] next.challenges.contains_key(t) implies {
            &&& t.len() >= MIN_TOKEN_LEN
            &&& next.challenges[t].r1 < next.p
            &&& next.challenges[t].r2 < next.p
            &&& next.challenges[t].c < next.q
            &&& next.users.contains_key(next.challenges[t].user)
        } by {
            if t != token || !(self.open_outcome(user, r1, r2, token, c) is Ok) {
                assert(self.challenges.contains_key(t));
            }
        }
    }

    /// An answer keeps the state well formed.
    pub proof fn lemma_answer_wf(self, token: Seq<char>)
        requires
            self.wf(),
        ensures
            self.answer(token).wf(),
    {
        let next = self.answer(token);
        assert forall|t: Seq<char>| #[trigger] next.challenges.contains_key(t) implies {
            &&& t.len() >= MIN_TOKEN_LEN
            &&& next.challenges[t].r1 < next.p
            &&& next.challenges[t].r2 < next.p
            &&& next.challenges[t].c < next.q
            &&& next.users.contains_key(next.challenges[t].user)
        } by {
            assert(self.challenges.contains_key(t));
        }
    }

    /// Reclaiming keeps the state well formed.
    pub proof fn lemma_reclaim_wf(self, now: nat, ttl: nat)
        requires
            self.wf(),
        ensures
            self.reclaim(now, ttl).wf(),
    {
        let next = self.reclaim(now, ttl);
        assert forall|t: Seq<char>| #[trigger] next.challenges.contains_key(t) implies {
            &&& t.len() >= MIN_TOKEN_LEN
            &&& next.challenges[t].r1 < next.p
            &&& next.challenges[t].r2 < next.p
            &&& next.challenges[t].c < next.q
            &&& next.users.contains_key(next.challenges[t].user)
        } by {
            assert(self.challenges.contains_key(t));
        }
    }

    /// No attempt is opened for an identity that is not registered, whatever its
    /// commitments, token and challenge are.
    pub proof fn lemma_unregistered_is_not_found(
        self,
        user: Seq<char>,
        r1: nat,
        r2: nat,
        token: Seq<char>,
        c: nat,
        now: nat,
    )
        requires
            !self.users.contains_key(user),
        ensures
            self.admission(user, r1, r2) == Err::<(), AuthError>(AuthError::NotFound),
            self.open_outcome(user, r1, r2, token, c) == Err::<(), AuthError>(
                AuthError::NotFound,
            ),
            self.open(user, r1, r2, token, c, now) == self,
    {
    }

    /// An answer under a token that is not live is not found, whatever the answer
    /// is, and changes nothing.
    pub proof fn lemma_unknown_token_is_not_found(self, token: Seq<char>, s: nat)
        requires
            !self.challenges.contains_key(token),
        ensures
            self.answer_outcome(token, s) == Err::<(), AuthError>(AuthError::NotFound),
            self.answer(token) == self,
    {
        assert(self.challenges.remove(token) =~= self.challenges);
    }

    /// An attempt that has expired is gone after reclaiming: its token is not found.
    /// An attempt that has not expired is answered as before.
    pub proof fn lemma_reclaim_drops_expired_only(
        self,
        token: Seq<char>,
        now: nat,
        ttl: nat,
        s: nat,
    )
        ensures
            self.expired(token, now, ttl) ==> self.reclaim(now, ttl).answer_outcome(token, s)
                == Err::<(), AuthError>(AuthError::NotFound),
            !self.expired(token, now, ttl) ==> self.reclaim(now, ttl).answer_outcome(token, s)
                == self.answer_outcome(token, s),
            self.reclaim(now, ttl).users == self.users,
    {
    }

    /// A token serves once: after an answer, whatever it led to, the same token is
    /// not found.
    pub proof fn lemma_token_serves_once(self, token: Seq<char>, s: nat)
        ensures
            !self.answer(token).challenges.contains_key(token),
            self.answer(token).answer_outcome(token, s) == Err::<(), AuthError>(
                AuthError::NotFound,
            ),
    {
    }

    /// An answer leaves the registry and every other attempt as they were.
    pub proof fn lemma_answer_spares_others(self, token: Seq<char>, other: Seq<char>, s: nat)
        requires
            other != token,
        ensures
            self.answer(token).users == self.users,
            self.answer(token).challenges.contains_key(other) == self.challenges.contains_key(
                other,
            ),
            self.answer(token).challenges[other] == self.challenges[other],
            self.answer(token).answer_outcome(other, s) == self.answer_outcome(other, s),
    {
    }

    /// In a well-formed state no answer finds the registration of its attempt
    /// missing.
    pub proof fn lemma_registration_is_there(self, token: Seq<char>, s: nat)
        requires
            self.wf(),
        ensures
            self.answer_outcome(token, s) != Err::<(), AuthError>(AuthError::Internal),
    {
    }

    /// Two attempts that are opened one after the other stand apart: their tokens
    /// differ, each is stored with its own identity, commitments and challenge, and
    /// what an answer to one of them leads to does not depend on whether the other
    /// was opened or answered.
    pub proof fn lemma_attempts_stand_apart(
        self,
        user_a: Seq<char>,
        r1_a: nat,
        r2_a: nat,
        token_a: Seq<char>,
        c_a: nat,
        now_a: nat,
        user_b: Seq<char>,
        r1_b: nat,
        r2_b: nat,
        token_b: Seq<char>,
        c_b: nat,
        now_b: nat,
        s: nat,
    )
        requires
            self.open_outcome(user_a, r1_a, r2_a, token_a, c_a) is Ok,
            self.open(user_a, r1_a, r2_a, token_a, c_a, now_a).open_outcome(
                user_b,
                r1_b,
                r2_b,
                token_b,
                c_b,
            ) is Ok,
        ensures
            ({
                let one = self.open(user_a, r1_a, r2_a, token_a, c_a, now_a);
                let both = one.open(user_b, r1_b, r2_b, token_b, c_b, now_b);
                &&& token_a != token_b
                &&& both.challenges[token_a] == Attempt {
                    user: user_a,
                    r1: r1_a,
                    r2: r2_a,
                    c: c_a,
                    issued_at: now_a,
                }
                &&& both.challenges[token_b] == Attempt {
                    user: user_b,
                    r1: r1_b,
                    r2: r2_b,
                    c: c_b,
                    issued_at: now_b,
                }
                &&& both.answer_outcome(token_a, s) == one.answer_outcome(token_a, s)
                &&& both.answer(token_a).answer_outcome(token_b, s) == both.answer_outcome(
                    token_b,
                    s,
                )
                &&& both.answer(token_b).answer_outcome(token_a, s) == both.answer_outcome(
                    token_a,
                    s,
                )
            }),
    {
    }

    /// An honest prover is verified: where both generators lie in a subgroup whose
    /// order divides `q` and `user` is registered with the commitments to the
    /// secret `x`, an attempt opened with the commitments to a nonce `k` is answered
    /// successfully by the response to its challenge.
    pub proof fn lemma_honest_prover_verified(
        self,
        user: Seq<char>,
        x: nat,
        k: nat,
        token: Seq<char>,
        c: nat,
        now: nat,
    )
        requires
            self.p > 0,
            self.q > 0,
            order_divides(self.alpha, self.q, self.p),
            order_divides(self.beta, self.q, self.p),
            self.users.contains_key(user),
            self.users[user] == (Commitment {
                y1: mod_exp(self.alpha, x, self.p),
                y2: mod_exp(self.beta, x, self.p),
            }),
            self.open_outcome(
                user,
                mod_exp(self.alpha, k, self.p),
                mod_exp(self.beta, k, self.p),
                token,
                c,
            ) is Ok,
        ensures
            self.open(
                user,
                mod_exp(self.alpha, k, self.p),
                mod_exp(self.beta, k, self.p),
                token,
                c,
                now,
            ).answer_outcome(token, response(k, c, x, self.q)) is Ok,
    {
        lemma_honest_proof_accepted(self.p, self.q, self.alpha, self.beta, x, k, c);
        lemma_response_congruent(k, c, x, self.q);
    }

    /// A prover without the secret is refused: where `alpha` has the order `q`, a
    /// response computed from another secret `x_fake` leads to `InvalidProof`,
    /// unless `c * x` and `c * x_fake` are congruent modulo `q`.
    pub proof fn lemma_wrong_secret_rejected(
        self,
        user: Seq<char>,
        x: nat,
        x_fake: nat,
        k: nat,
        token: Seq<char>,
        c: nat,
        now: nat,
    )
        requires
            self.p > 0,
            self.q > 0,
            has_order(self.alpha, self.q, self.p),
            (c * x) % self.q != (c * x_fake) % self.q,
            self.users.contains_key(user),
            self.users[user] == (Commitment {
                y1: mod_exp(self.alpha, x, self.p),
                y2: mod_exp(self.beta, x, self.p),
            }),
            self.open_outcome(
                user,
                mod_exp(self.alpha, k, self.p),
                mod_exp(self.beta, k, self.p),
                token,
                c,
            ) is Ok,
        ensures
            self.open(
                user,
                mod_exp(self.alpha, k, self.p),
                mod_exp(self.beta, k, self.p),
                token,
                c,
                now,
            ).answer_outcome(token, response(k, c, x_fake, self.q)) == Err::<(), AuthError>(
                AuthError::InvalidProof,
            ),
    {
        lemma_wrong_secret_refused(self.p, self.q, self.alpha, self.beta, x, x_fake, k, c);
        lemma_response_congruent(k, c, x_fake, self.q);
    }
}

} // verus!

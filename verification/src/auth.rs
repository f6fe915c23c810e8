//! The verifier: registration, challenge and answer.
//!
//! [`AuthImpl`] keeps the registry and the live attempts and runs the protocol of
//! [`AuthView`]; each of its methods is proved against the functions of that state
//! machine.

use crate::bignat::{be_value, is_minimal, BigNat};
use crate::keyed::{
    as_map, distinct_keys, lemma_absent, lemma_lookup, lemma_push, lemma_remove, lemma_update,
    position,
};
use crate::protocol::{Attempt, AuthError, AuthView, Commitment, MIN_TOKEN_LEN, SESSION_ID_LEN};
use crate::zkp::{all_alphanumeric, is_alphanumeric, ZKP};
use vstd::prelude::*;
use vstd::string::*;

verus! {

/// The registration of one identity.
#[derive(Clone, Debug)]
pub struct UserInfo {
    pub user_name: String,
    pub y1: BigNat,
    pub y2: BigNat,
}

impl View for UserInfo {
    type V = Commitment;

    open spec fn view(&self) -> Commitment {
        Commitment { y1: self.y1@, y2: self.y2@ }
    }
}

/// One live attempt.
#[derive(Clone, Debug)]
pub struct Challenge {
    pub auth_id: String,
    pub user_name: String,
    pub r1: BigNat,
    pub r2: BigNat,
    pub c: BigNat,
    pub issued_at: u64,
}

impl View for Challenge {
    type V = Attempt;

    open spec fn view(&self) -> Attempt {
        Attempt {
            user: self.user_name@,
            r1: self.r1@,
            r2: self.r2@,
            c: self.c@,
            issued_at: self.issued_at as nat,
        }
    }
}

spec fn user_pairs(users: Seq<UserInfo>) -> Seq<(Seq<char>, Commitment)> {
    users.map_values(|u: UserInfo| (u.user_name@, u@))
}

spec fn challenge_pairs(challenges: Seq<Challenge>) -> Seq<(Seq<char>, Attempt)> {
    challenges.map_values(|ch: Challenge| (ch.auth_id@, ch@))
}

/// The verifier: the group parameters, the registry and the live attempts.
#[derive(Debug)]
pub struct AuthImpl {
    zkp: ZKP,
    user_info: Vec<UserInfo>,
    challenges: Vec<Challenge>,
}

impl View for AuthImpl {
    type V = AuthView;

    closed spec fn view(&self) -> AuthView {
        AuthView {
            p: self.zkp.p@,
            q: self.zkp.q@,
            alpha: self.zkp.alpha@,
            beta: self.zkp.beta@,
            users: as_map(user_pairs(self.user_info@)),
            challenges: as_map(challenge_pairs(self.challenges@)),
        }
    }
}

impl AuthImpl {
    /// The verifier is well formed: no identity is registered twice, no token is
    /// live twice, and its state is well formed.
    pub closed spec fn wf(&self) -> bool {
        &&& distinct_keys(user_pairs(self.user_info@))
        &&& distinct_keys(challenge_pairs(self.challenges@))
        &&& self@.wf()
    }

    /// The state of a well-formed verifier is well formed.
    pub proof fn lemma_wf_state(&self)
        requires
            self.wf(),
        ensures
            self@.wf(),
    {
    }

    /// A verifier for the given group with nobody registered and no attempt open.
    /// The moduli `p` and `q` must be positive; there is no verifier for others.
    pub fn new(zkp: ZKP) -> (r: Option<AuthImpl>)
        ensures
            r is Some <==> zkp.p@ > 0 && zkp.q@ > 0,
            r matches Some(auth) ==> auth.wf() && auth@ == AuthView::init(
                zkp.p@,
                zkp.q@,
                zkp.alpha@,
                zkp.beta@,
            ),
    {
        if zkp.p.is_zero() || zkp.q.is_zero() {
            return None;
        }
        let auth = AuthImpl { zkp, user_info: Vec::new(), challenges: Vec::new() };
        assert(auth@.users =~= Map::empty());
        assert(auth@.challenges =~= Map::empty());
        Some(auth)
    }

    fn find_user(&self, name: &String) -> (r: Option<usize>)
        requires
            self.wf(),
        ensures
            match r {
                Some(i) => {
                    &&& i < self.user_info@.len()
                    &&& self.user_info@[i as int].user_name@ == name@
                    &&& self@.users.contains_key(name@)
                    &&& self@.users[name@] == self.user_info@[i as int]@
                },
                None => !self@.users.contains_key(name@),
            },
    {
        let mut i: usize = 0;
        while i < self.user_info.len()
            invariant
                self.wf(),
                i <= self.user_info@.len(),
                forall|j: int| 0 <= j < i ==> (#[trigger] self.user_info@[j]).user_name@ != name@,
            decreases self.user_info@.len() - i,
        {
            if self.user_info[i].user_name == *name {
                proof {
                    lemma_lookup(user_pairs(self.user_info@), i as int);
                }
                return Some(i);
            }
            i += 1;
        }
        proof {
            lemma_absent(user_pairs(self.user_info@), name@);
        }
        None
    }

    /// The registration of `name`, where there is one.
    pub fn lookup(&self, name: &str) -> (r: Option<&UserInfo>)
        requires
            self.wf(),
        ensures
            r is Some <==> self@.users.contains_key(name@),
            r matches Some(user) ==> user.user_name@ == name@ && user@ == self@.users[name@],
    {
        let key = name.to_owned();
        match self.find_user(&key) {
            Some(i) => Some(&self.user_info[i]),
            None => None,
        }
    }

    /// Registers `name` with the commitments `y1` and `y2`, given as big-endian
    /// bytes. A later registration of the same identity replaces the earlier one.
    /// No proof is asked that whoever registers knows the secret behind the
    /// commitments.
    pub fn register(&mut self, name: &str, y1: &[u8], y2: &[u8]) -> (res: Result<(), AuthError>)
        requires
            old(self).wf(),
        ensures
            final(self).wf(),
            res == old(self)@.register_outcome(be_value(y1@), be_value(y2@)),
            final(self)@ == old(self)@.register(name@, be_value(y1@), be_value(y2@)),
    {
        proof {
            old(self)@.lemma_register_wf(name@, be_value(y1@), be_value(y2@));
        }
        let y1 = BigNat::from_bytes_be(y1);
        let y2 = BigNat::from_bytes_be(y2);
        if y1.ge(&self.zkp.p) || y2.ge(&self.zkp.p) {
            return Err(AuthError::InvalidArgument);
        }
        let key = name.to_owned();
        let ghost pairs = user_pairs(self.user_info@);
        let ghost value = Commitment { y1: y1@, y2: y2@ };
        match self.find_user(&key) {
            Some(i) => {
                let user = UserInfo { user_name: key, y1, y2 };
                proof {
                    lemma_update(pairs, i as int, value);
                    assert(user_pairs(self.user_info@.update(i as int, user)) =~= pairs.update(
                        i as int,
                        (pairs[i as int].0, value),
                    ));
                }
                self.user_info.set(i, user);
            },
            None => {
                let user = UserInfo { user_name: key, y1, y2 };
                proof {
                    lemma_push(pairs, name@, value);
                    assert(user_pairs(self.user_info@.push(user)) =~= pairs.push((name@, value)));
                }
                self.user_info.push(user);
            },
        }
        Ok(())
    }

    fn find_challenge(&self, auth_id: &String) -> (r: Option<usize>)
        requires
            self.wf(),
        ensures
            match r {
                Some(i) => {
                    &&& i < self.challenges@.len()
                    &&& self.challenges@[i as int].auth_id@ == auth_id@
                    &&& self@.challenges.contains_key(auth_id@)
                    &&& self@.challenges[auth_id@] == self.challenges@[i as int]@
                },
                None => !self@.challenges.contains_key(auth_id@),
            },
    {
        let mut i: usize = 0;
        while i < self.challenges.len()
            invariant
                self.wf(),
                i <= self.challenges@.len(),
                forall|j: int| 0 <= j < i ==> (#[trigger] self.challenges@[j]).auth_id@ != auth_id@,
            decreases self.challenges@.len() - i,
        {
            if self.challenges[i].auth_id == *auth_id {
                proof {
                    lemma_lookup(challenge_pairs(self.challenges@), i as int);
                }
                return Some(i);
            }
            i += 1;
        }
        proof {
            lemma_absent(challenge_pairs(self.challenges@), auth_id@);
        }
        None
    }

    /// The live attempt under `auth_id`, where there is one.
    pub fn challenge(&self, auth_id: &str) -> (r: Option<&Challenge>)
        requires
            self.wf(),
        ensures
            r is Some <==> self@.challenges.contains_key(auth_id@),
            r matches Some(attempt) ==> attempt.auth_id@ == auth_id@ && attempt@
                == self@.challenges[auth_id@],
    {
        let key = auth_id.to_owned();
        match self.find_challenge(&key) {
            Some(i) => Some(&self.challenges[i]),
            None => None,
        }
    }

    /// The group parameters of the verifier.
    pub fn zkp(&self) -> (r: &ZKP)
        ensures
            r.p@ == self@.p,
            r.q@ == self@.q,
            r.alpha@ == self@.alpha,
            r.beta@ == self@.beta,
    {
        &self.zkp
    }

    /// Whether an attempt is live under `auth_id`.
    pub fn is_live(&self, auth_id: &str) -> (r: bool)
        requires
            self.wf(),
        ensures
            r == self@.challenges.contains_key(auth_id@),
    {
        let key = auth_id.to_owned();
        self.find_challenge(&key).is_some()
    }

    /// Whether an attempt may be opened for `user` with the commitments `r1` and
    /// `r2`, given as big-endian bytes.
    pub fn check_admission(&self, user: &str, r1: &[u8], r2: &[u8]) -> (res: Result<(), AuthError>)
        requires
            self.wf(),
        ensures
            res == self@.admission(user@, be_value(r1@), be_value(r2@)),
    {
        let user_name = user.to_owned();
        if self.find_user(&user_name).is_none() {
            return Err(AuthError::NotFound);
        }
        let r1 = BigNat::from_bytes_be(r1);
        let r2 = BigNat::from_bytes_be(r2);
        if r1.ge(&self.zkp.p) || r2.ge(&self.zkp.p) {
            return Err(AuthError::InvalidArgument);
        }
        Ok(())
    }

    /// Opens an attempt for `user` under the token `auth_id` with the challenge `c`.
    /// The prover's commitments `r1` and `r2` come as big-endian bytes; `now` is the
    /// time of the call on the caller's clock.
    ///
    /// The protocol is only as strong as the token and the challenge are hard to
    /// guess: a caller draws both from a cryptographically secure generator, as
    /// [`AuthImpl::create_authentication_challenge`] does.
    pub fn open_challenge(
        &mut self,
        user: &str,
        r1: &[u8],
        r2: &[u8],
        auth_id: String,
        c: BigNat,
        now: u64,
    ) -> (res: Result<(), AuthError>)
        requires
            old(self).wf(),
        ensures
            final(self).wf(),
            !old(self)@.users.contains_key(user@) ==> res == Err::<(), AuthError>(
                AuthError::NotFound,
            ),
            res == old(self)@.open_outcome(user@, be_value(r1@), be_value(r2@), auth_id@, c@),
            final(self)@ == old(self)@.open(
                user@,
                be_value(r1@),
                be_value(r2@),
                auth_id@,
                c@,
                now as nat,
            ),
    {
        proof {
            old(self)@.lemma_open_wf(
                user@,
                be_value(r1@),
                be_value(r2@),
                auth_id@,
                c@,
                now as nat,
            );
        }
        match self.check_admission(user, r1, r2) {
            Ok(()) => {},
            Err(e) => {
                return Err(e);
            },
        }
        if auth_id.as_str().unicode_len() < MIN_TOKEN_LEN || c.ge(&self.zkp.q) {
            return Err(AuthError::InvalidArgument);
        }
        match self.find_challenge(&auth_id) {
            Some(_) => Err(AuthError::InvalidArgument),
            None => {
                let challenge = Challenge {
                    auth_id,
                    user_name: user.to_owned(),
                    r1: BigNat::from_bytes_be(r1),
                    r2: BigNat::from_bytes_be(r2),
                    c,
                    issued_at: now,
                };
                proof {
                    let pairs = challenge_pairs(self.challenges@);
                    lemma_push(pairs, challenge.auth_id@, challenge@);
                    assert(challenge_pairs(self.challenges@.push(challenge)) =~= pairs.push(
                        (challenge.auth_id@, challenge@),
                    ));
                }
                self.challenges.push(challenge);
                Ok(())
            },
        }
    }

    /// A token of letters and digits that is not live. It starts with a random
    /// token of the least length; as long as the token is live, one more random
    /// character is added, so that it ends up longer than every live token at the
    /// latest.
    fn fresh_auth_id(&self) -> (auth_id: String)
        requires
            self.wf(),
        ensures
            auth_id@.len() >= MIN_TOKEN_LEN,
            all_alphanumeric(auth_id@),
            !self@.challenges.contains_key(auth_id@),
    {
        let mut auth_id = ZKP::generate_random_string(MIN_TOKEN_LEN);
        loop
            invariant
                self.wf(),
                auth_id@.len() >= MIN_TOKEN_LEN,
                all_alphanumeric(auth_id@),
            ensures
                !self@.challenges.contains_key(auth_id@),
            decreases longest_token(self.challenges@) + 1 - auth_id@.len(),
        {
            match self.find_challenge(&auth_id) {
                None => {
                    break ;
                },
                Some(i) => {
                    proof {
                        lemma_longest_token(self.challenges@, i as int);
                    }
                },
            }
            let extra = ZKP::generate_random_string(1);
            proof {
                let longer = auth_id@ + extra@;
                assert forall|i: int| 0 <= i < longer.len() implies is_alphanumeric(
                    #[trigger] longer[i],
                ) by {
                    if i < auth_id@.len() {
                        assert(longer[i] == auth_id@[i]);
                    } else {
                        assert(longer[i] == extra@[i - auth_id@.len()]);
                    }
                }
            }
            auth_id.append(extra.as_str());
        }
        auth_id
    }

    /// Opens an attempt for `user`, where one may be opened: draws the challenge
    /// below `q` and a token that is not live, stores the attempt and returns the
    /// token with the challenge in its minimal big-endian encoding. Nothing is drawn
    /// for a call that is refused. The prover's commitments `r1` and `r2` come as
    /// big-endian bytes; `now` is the time of the call on the caller's clock.
    pub fn create_authentication_challenge(
        &mut self,
        user: &str,
        r1: &[u8],
        r2: &[u8],
        now: u64,
    ) -> (res: Result<(String, Vec<u8>), AuthError>)
        requires
            old(self).wf(),
        ensures
            final(self).wf(),
            !old(self)@.users.contains_key(user@) ==> res matches Err(AuthError::NotFound),
            match res {
                Ok((auth_id, c)) => {
                    &&& old(self)@.admission(user@, be_value(r1@), be_value(r2@)) is Ok
                    &&& auth_id@.len() >= MIN_TOKEN_LEN
                    &&& all_alphanumeric(auth_id@)
                    &&& !old(self)@.challenges.contains_key(auth_id@)
                    &&& is_minimal(c@)
                    &&& be_value(c@) < old(self)@.q
                    &&& final(self)@ == old(self)@.open(
                        user@,
                        be_value(r1@),
                        be_value(r2@),
                        auth_id@,
                        be_value(c@),
                        now as nat,
                    )
                },
                Err(e) => {
                    &&& old(self)@.admission(user@, be_value(r1@), be_value(r2@)) == Err::<
                        (),
                        AuthError,
                    >(e)
                    &&& final(self)@ == old(self)@
                },
            },
    {
        match self.check_admission(user, r1, r2) {
            Ok(()) => {},
            Err(e) => {
                return Err(e);
            },
        }
        let c = ZKP::generate_random_below(&self.zkp.q);
        let auth_id = self.fresh_auth_id();
        let token = auth_id.clone();
        let encoded = c.to_bytes_be();
        match self.open_challenge(user, r1, r2, auth_id, c, now) {
            Ok(()) => Ok((token, encoded)),
            Err(e) => Err(e),
        }
    }

    /// Decides on the answer `s`, given as big-endian bytes, to the attempt under
    /// `auth_id`, and uses the token up.
    pub fn check_answer(&mut self, auth_id: &str, s: &[u8]) -> (res: Result<(), AuthError>)
        requires
            old(self).wf(),
        ensures
            final(self).wf(),
            !old(self)@.challenges.contains_key(auth_id@) ==> res == Err::<(), AuthError>(
                AuthError::NotFound,
            ),
            res == old(self)@.answer_outcome(auth_id@, be_value(s@)),
            final(self)@ == old(self)@.answer(auth_id@),
            !final(self)@.challenges.contains_key(auth_id@),
    {
        proof {
            old(self)@.lemma_answer_wf(auth_id@);
        }
        let key = auth_id.to_owned();
        let i = match self.find_challenge(&key) {
            Some(i) => i,
            None => {
                assert(self@.challenges.remove(auth_id@) =~= self@.challenges);
                return Err(AuthError::NotFound);
            },
        };
        proof {
            lemma_remove(challenge_pairs(self.challenges@), i as int);
            assert(challenge_pairs(self.challenges@.remove(i as int)) =~= challenge_pairs(
                self.challenges@,
            ).remove(i as int));
        }
        let attempt = self.challenges.remove(i);
        let s = BigNat::from_bytes_be(s);
        if s.ge(&self.zkp.q) {
            return Err(AuthError::InvalidArgument);
        }
        let known = match self.find_user(&attempt.user_name) {
            Some(u) => &self.user_info[u],
            None => {
                return Err(AuthError::Internal);
            },
        };
        if self.zkp.verify(&attempt.r1, &attempt.r2, &known.y1, &known.y2, &attempt.c, &s) {
            Ok(())
        } else {
            Err(AuthError::InvalidProof)
        }
    }

    /// Decides on the answer `s`, given as big-endian bytes, to the attempt under
    /// `auth_id`, and uses the token up. An accepted answer is given a session
    /// credential, drawn at random; a refused one is given none.
    pub fn verify_authentication(&mut self, auth_id: &str, s: &[u8]) -> (res: Result<
        String,
        AuthError,
    >)
        requires
            old(self).wf(),
        ensures
            final(self).wf(),
            final(self)@ == old(self)@.answer(auth_id@),
            !final(self)@.challenges.contains_key(auth_id@),
            !old(self)@.challenges.contains_key(auth_id@) ==> res matches Err(AuthError::NotFound),
            match res {
                Ok(session_id) => {
                    &&& old(self)@.answer_outcome(auth_id@, be_value(s@)) is Ok
                    &&& session_id@.len() == SESSION_ID_LEN
                    &&& all_alphanumeric(session_id@)
                },
                Err(e) => old(self)@.answer_outcome(auth_id@, be_value(s@)) == Err::<
                    (),
                    AuthError,
                >(e),
            },
    {
        match self.check_answer(auth_id, s) {
            Ok(()) => Ok(ZKP::generate_random_string(SESSION_ID_LEN)),
            Err(e) => Err(e),
        }
    }

    /// Drops every attempt that was opened at least `ttl` before `now`, on the
    /// clock that gave the attempts their times, so that attempts which are never
    /// answered do not pile up.
    pub fn reclaim_expired(&mut self, now: u64, ttl: u64)
        requires
            old(self).wf(),
        ensures
            final(self).wf(),
            final(self)@ == old(self)@.reclaim(now as nat, ttl as nat),
    {
        proof {
            old(self)@.lemma_reclaim_wf(now as nat, ttl as nat);
        }
        let ghost before = self@.challenges;
        let mut i: usize = 0;
        while i < self.challenges.len()
            invariant
                i <= self.challenges@.len(),
                self.zkp == old(self).zkp,
                self.user_info == old(self).user_info,
                distinct_keys(challenge_pairs(self.challenges@)),
                forall|j: int|
                    0 <= j < i ==> (#[trigger] self.challenges@[j]).issued_at + ttl > now,
                forall|token: Seq<char>| #[trigger]
                    self@.challenges.contains_key(token) ==> before.contains_key(token)
                        && before[token] == self@.challenges[token],
                forall|token: Seq<char>| #[trigger]
                    before.contains_key(token) && before[token].issued_at + ttl > now
                        ==> self@.challenges.contains_key(token),
            decreases self.challenges@.len() - i,
        {
            let issued_at = self.challenges[i].issued_at;
            if now >= issued_at && now - issued_at >= ttl {
                let ghost live = self@.challenges;
                proof {
                    let pairs = challenge_pairs(self.challenges@);
                    lemma_lookup(pairs, i as int);
                    lemma_remove(pairs, i as int);
                    assert(challenge_pairs(self.challenges@.remove(i as int)) =~= pairs.remove(
                        i as int,
                    ));
                }
                self.challenges.remove(i);
                proof {
                    assert forall|token: Seq<char>| #[trigger]
                        self@.challenges.contains_key(token) implies before.contains_key(token)
                        && before[token] == self@.challenges[token] by {
                        assert(live.contains_key(token));
                    }
                }
            } else {
                i += 1;
            }
        }
        proof {
            let kept = self@.challenges;
            assert forall|token: Seq<char>| #[trigger]
                kept.contains_key(token) implies before[token].issued_at + ttl > now by {
                let pairs = challenge_pairs(self.challenges@);
                let j = position(pairs, token);
                lemma_lookup(pairs, j);
                assert(self.challenges@[j].issued_at + ttl > now);
            }
            assert(kept =~= old(self)@.reclaim(now as nat, ttl as nat).challenges);
        }
    }
}

spec fn longest_token(challenges: Seq<Challenge>) -> nat
    decreases challenges.len(),
{
    if challenges.len() == 0 {
        0
    } else {
        let before = longest_token(challenges.drop_last());
        let last = challenges.last().auth_id@.len();
        if last > before {
            last
        } else {
            before
        }
    }
}

proof fn lemma_longest_token(challenges: Seq<Challenge>, i: int)
    requires
        0 <= i < challenges.len(),
    ensures
        challenges[i].auth_id@.len() <= longest_token(challenges),
    decreases challenges.len(),
{
    if i < challenges.len() - 1 {
        lemma_longest_token(challenges.drop_last(), i);
    }
}

} // verus!

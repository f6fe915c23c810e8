use zkp_chaum_pedersen::{AuthError, AuthImpl, BigNat, ZKP};

fn number(value: u32) -> BigNat {
    BigNat::from_u32(value)
}

fn group() -> ZKP {
    ZKP::new(number(23), number(11), number(4), number(9))
}

fn fresh_auth() -> AuthImpl {
    AuthImpl::new(group()).expect("the moduli are positive")
}

/// A verifier with alice registered for the secret 6.
fn auth_with_alice() -> AuthImpl {
    let mut auth = fresh_auth();
    assert_eq!(auth.register("alice", &[2], &[3]), Ok(()));
    auth
}

fn token(text: &str) -> String {
    text.to_string()
}

#[test]
fn new_refuses_a_zero_modulus() {
    assert!(AuthImpl::new(ZKP::new(number(0), number(11), number(4), number(9))).is_none());
    assert!(AuthImpl::new(ZKP::new(number(23), number(0), number(4), number(9))).is_none());
    assert!(AuthImpl::new(ZKP::new(number(0), number(0), number(4), number(9))).is_none());
    assert!(AuthImpl::new(ZKP::new(number(1), number(1), number(0), number(0))).is_some());
}

#[test]
fn new_starts_empty() {
    let auth = fresh_auth();
    assert!(auth.lookup("alice").is_none());
    assert!(!auth.is_live("aaaaaaaaaaaa"));
    assert_eq!(auth.zkp().p, number(23));
    assert_eq!(auth.zkp().q, number(11));
    assert_eq!(auth.zkp().alpha, number(4));
    assert_eq!(auth.zkp().beta, number(9));
}

#[test]
fn register_stores_the_commitments() {
    let auth = auth_with_alice();
    let alice = auth.lookup("alice").expect("alice is registered");
    assert_eq!(alice.user_name, "alice");
    assert_eq!(alice.y1, number(2));
    assert_eq!(alice.y2, number(3));
    assert!(auth.lookup("bob").is_none());
    assert!(auth.lookup("Alice").is_none());
}

#[test]
fn register_again_overwrites() {
    let mut auth = auth_with_alice();
    assert_eq!(auth.register("bob", &[5], &[6]), Ok(()));
    assert_eq!(auth.register("alice", &[7], &[8]), Ok(()));
    let alice = auth.lookup("alice").expect("alice is registered");
    assert_eq!(alice.y1, number(7));
    assert_eq!(alice.y2, number(8));
    let bob = auth.lookup("bob").expect("bob is registered");
    assert_eq!(bob.y1, number(5));
    assert_eq!(bob.y2, number(6));
}

#[test]
fn register_refuses_commitments_out_of_range() {
    let mut auth = fresh_auth();
    assert_eq!(auth.register("alice", &[23], &[3]), Err(AuthError::InvalidArgument));
    assert_eq!(auth.register("alice", &[2], &[23]), Err(AuthError::InvalidArgument));
    assert_eq!(auth.register("alice", &[1, 0], &[3]), Err(AuthError::InvalidArgument));
    assert!(auth.lookup("alice").is_none());
    assert_eq!(auth.register("alice", &[22], &[0]), Ok(()));
    assert_eq!(auth.register("alice", &[0, 0, 22], &[]), Ok(()));
}

#[test]
fn refused_registration_keeps_the_earlier_one() {
    let mut auth = auth_with_alice();
    assert_eq!(auth.register("alice", &[40], &[3]), Err(AuthError::InvalidArgument));
    let alice = auth.lookup("alice").expect("alice is registered");
    assert_eq!(alice.y1, number(2));
    assert_eq!(alice.y2, number(3));
}

#[test]
fn create_challenge_for_unregistered_identity_is_not_found() {
    let mut auth = auth_with_alice();
    assert_eq!(
        auth.create_authentication_challenge("bob", &[8], &[4], 0),
        Err(AuthError::NotFound)
    );
    // also with commitments out of range
    assert_eq!(
        auth.create_authentication_challenge("bob", &[99], &[4], 0),
        Err(AuthError::NotFound)
    );
    assert_eq!(
        AuthImpl::new(group()).unwrap().create_authentication_challenge("alice", &[8], &[4], 0),
        Err(AuthError::NotFound)
    );
}

#[test]
fn create_challenge_refuses_commitments_out_of_range() {
    let mut auth = auth_with_alice();
    assert_eq!(
        auth.create_authentication_challenge("alice", &[23], &[4], 0),
        Err(AuthError::InvalidArgument)
    );
    assert_eq!(
        auth.create_authentication_challenge("alice", &[8], &[200], 0),
        Err(AuthError::InvalidArgument)
    );
}

#[test]
fn create_challenge_gives_token_and_challenge() {
    let mut auth = auth_with_alice();
    for round in 0..40u64 {
        let (auth_id, c) = auth
            .create_authentication_challenge("alice", &[8], &[4], round)
            .expect("alice is registered");
        assert!(auth_id.chars().count() >= 12);
        assert!(auth_id.chars().all(|ch| ch.is_ascii_alphanumeric()));
        assert!(auth.is_live(&auth_id));
        let challenge = BigNat::from_bytes_be(&c);
        assert!(!challenge.ge(&number(11)));
        assert_eq!(challenge.to_bytes_be(), c);
        let stored = auth.challenge(&auth_id).expect("the attempt is live");
        assert_eq!(stored.auth_id, auth_id);
        assert_eq!(stored.user_name, "alice");
        assert_eq!(stored.r1, number(8));
        assert_eq!(stored.r2, number(4));
        assert_eq!(stored.c, challenge);
        assert_eq!(stored.issued_at, round);
    }
}

#[test]
fn honest_prover_gets_a_session() {
    let mut auth = auth_with_alice();
    let zkp = group();
    for _ in 0..20 {
        let k = ZKP::generate_random_below(&zkp.q);
        let r1 = ZKP::exponantiate(&zkp.alpha, &k, &zkp.p);
        let r2 = ZKP::exponantiate(&zkp.beta, &k, &zkp.p);
        let (auth_id, c) = auth
            .create_authentication_challenge("alice", &r1.to_bytes_be(), &r2.to_bytes_be(), 0)
            .expect("alice is registered");
        let s = zkp.solve(&k, &BigNat::from_bytes_be(&c), &number(6));
        let session_id = auth
            .verify_authentication(&auth_id, &s.to_bytes_be())
            .expect("the proof is honest");
        assert_eq!(session_id.chars().count(), 12);
        assert!(session_id.chars().all(|ch| ch.is_ascii_alphanumeric()));
        assert!(!auth.is_live(&auth_id));
    }
}

#[test]
fn verify_answer_on_unknown_token_is_not_found() {
    let mut auth = auth_with_alice();
    assert_eq!(auth.verify_authentication("aaaaaaaaaaaa", &[5]), Err(AuthError::NotFound));
    assert_eq!(auth.check_answer("aaaaaaaaaaaa", &[5]), Err(AuthError::NotFound));
    // also with an answer out of range
    assert_eq!(auth.verify_authentication("aaaaaaaaaaaa", &[11]), Err(AuthError::NotFound));
    assert_eq!(auth.verify_authentication("", &[5]), Err(AuthError::NotFound));
}

#[test]
fn verify_answer_on_consumed_token_is_not_found() {
    let mut auth = auth_with_alice();
    assert_eq!(
        auth.open_challenge("alice", &[8], &[4], token("aaaaaaaaaaaa"), number(4), 0),
        Ok(())
    );
    assert!(auth.verify_authentication("aaaaaaaaaaaa", &[5]).is_ok());
    assert_eq!(auth.verify_authentication("aaaaaaaaaaaa", &[5]), Err(AuthError::NotFound));
    assert_eq!(auth.check_answer("aaaaaaaaaaaa", &[5]), Err(AuthError::NotFound));
}

#[test]
fn refused_answer_consumes_the_token_too() {
    let mut auth = auth_with_alice();
    assert_eq!(
        auth.open_challenge("alice", &[8], &[4], token("aaaaaaaaaaaa"), number(4), 0),
        Ok(())
    );
    // 7 - 4 * 7 = 1 mod 11: the response of a prover who takes 7 for the secret
    assert_eq!(auth.verify_authentication("aaaaaaaaaaaa", &[1]), Err(AuthError::InvalidProof));
    assert!(!auth.is_live("aaaaaaaaaaaa"));
    // the right answer comes too late
    assert_eq!(auth.verify_authentication("aaaaaaaaaaaa", &[5]), Err(AuthError::NotFound));
}

#[test]
fn answer_out_of_range_is_an_invalid_argument_and_consumes_the_token() {
    let mut auth = auth_with_alice();
    assert_eq!(
        auth.open_challenge("alice", &[8], &[4], token("aaaaaaaaaaaa"), number(4), 0),
        Ok(())
    );
    // 16 = 5 mod 11, but it is not below q
    assert_eq!(
        auth.verify_authentication("aaaaaaaaaaaa", &[16]),
        Err(AuthError::InvalidArgument)
    );
    assert_eq!(auth.verify_authentication("aaaaaaaaaaaa", &[5]), Err(AuthError::NotFound));
}

#[test]
fn check_answer_decides_like_verify() {
    let mut auth = auth_with_alice();
    for (id, answer, expected) in [
        ("aaaaaaaaaaaa", 5u8, Ok(())),
        ("bbbbbbbbbbbb", 1u8, Err(AuthError::InvalidProof)),
        ("cccccccccccc", 0u8, Err(AuthError::InvalidProof)),
        ("dddddddddddd", 11u8, Err(AuthError::InvalidArgument)),
    ] {
        assert_eq!(auth.open_challenge("alice", &[8], &[4], token(id), number(4), 0), Ok(()));
        assert_eq!(auth.check_answer(id, &[answer]), expected);
        assert!(!auth.is_live(id));
    }
}

#[test]
fn open_challenge_refusals() {
    let mut auth = auth_with_alice();
    let good = "aaaaaaaaaaaa";
    assert_eq!(
        auth.open_challenge("bob", &[8], &[4], token(good), number(4), 0),
        Err(AuthError::NotFound)
    );
    assert_eq!(
        auth.open_challenge("alice", &[23], &[4], token(good), number(4), 0),
        Err(AuthError::InvalidArgument)
    );
    assert_eq!(
        auth.open_challenge("alice", &[8], &[23], token(good), number(4), 0),
        Err(AuthError::InvalidArgument)
    );
    // eleven characters
    assert_eq!(
        auth.open_challenge("alice", &[8], &[4], token("aaaaaaaaaaa"), number(4), 0),
        Err(AuthError::InvalidArgument)
    );
    // the challenge is not below q
    assert_eq!(
        auth.open_challenge("alice", &[8], &[4], token(good), number(11), 0),
        Err(AuthError::InvalidArgument)
    );
    assert!(!auth.is_live(good));
    assert_eq!(auth.open_challenge("alice", &[8], &[4], token(good), number(10), 0), Ok(()));
    // the token is live
    assert_eq!(
        auth.open_challenge("alice", &[8], &[4], token(good), number(4), 0),
        Err(AuthError::InvalidArgument)
    );
    assert_eq!(auth.challenge(good).expect("live").c, number(10));
}

#[test]
fn token_length_counts_characters() {
    let mut auth = auth_with_alice();
    // twelve characters of two bytes each
    let wide = "éééééééééééé";
    assert_eq!(auth.open_challenge("alice", &[8], &[4], token(wide), number(4), 0), Ok(()));
    // six characters in twelve bytes
    assert_eq!(
        auth.open_challenge("alice", &[8], &[4], token("éééééé"), number(4), 0),
        Err(AuthError::InvalidArgument)
    );
}

#[test]
fn attempts_of_one_identity_do_not_clobber_each_other() {
    let mut auth = auth_with_alice();
    let zkp = group();
    // nonce 7 and nonce 3
    let r1_b = ZKP::exponantiate(&zkp.alpha, &number(3), &zkp.p);
    let r2_b = ZKP::exponantiate(&zkp.beta, &number(3), &zkp.p);
    assert_eq!(auth.open_challenge("alice", &[8], &[4], token("aaaaaaaaaaaa"), number(4), 0), Ok(()));
    assert_eq!(
        auth.open_challenge(
            "alice",
            &r1_b.to_bytes_be(),
            &r2_b.to_bytes_be(),
            token("bbbbbbbbbbbb"),
            number(9),
            1
        ),
        Ok(())
    );
    let s_b = zkp.solve(&number(3), &number(9), &number(6));
    assert_eq!(auth.check_answer("bbbbbbbbbbbb", &s_b.to_bytes_be()), Ok(()));
    assert!(auth.is_live("aaaaaaaaaaaa"));
    assert_eq!(auth.check_answer("aaaaaaaaaaaa", &[5]), Ok(()));
}

#[test]
fn attempts_of_two_identities_stand_apart() {
    let mut auth = auth_with_alice();
    let zkp = group();
    // bob holds the secret 9
    let y1 = ZKP::exponantiate(&zkp.alpha, &number(9), &zkp.p);
    let y2 = ZKP::exponantiate(&zkp.beta, &number(9), &zkp.p);
    assert_eq!(auth.register("bob", &y1.to_bytes_be(), &y2.to_bytes_be()), Ok(()));

    let k_a = number(7);
    let k_b = number(2);
    let r1_b = ZKP::exponantiate(&zkp.alpha, &k_b, &zkp.p);
    let r2_b = ZKP::exponantiate(&zkp.beta, &k_b, &zkp.p);
    let (id_a, c_a) = auth.create_authentication_challenge("alice", &[8], &[4], 0).unwrap();
    let (id_b, c_b) = auth
        .create_authentication_challenge("bob", &r1_b.to_bytes_be(), &r2_b.to_bytes_be(), 0)
        .unwrap();
    assert_ne!(id_a, id_b);
    assert_eq!(auth.challenge(&id_a).unwrap().user_name, "alice");
    assert_eq!(auth.challenge(&id_b).unwrap().user_name, "bob");
    assert_eq!(auth.challenge(&id_a).unwrap().r1, number(8));
    assert_eq!(auth.challenge(&id_b).unwrap().r1, r1_b);
    assert_eq!(auth.challenge(&id_a).unwrap().c.to_bytes_be(), c_a);
    assert_eq!(auth.challenge(&id_b).unwrap().c.to_bytes_be(), c_b);

    let s_a = zkp.solve(&k_a, &BigNat::from_bytes_be(&c_a), &number(6));
    let s_b = zkp.solve(&k_b, &BigNat::from_bytes_be(&c_b), &number(9));
    // answering bob's attempt leaves alice's as it was
    assert!(auth.verify_authentication(&id_b, &s_b.to_bytes_be()).is_ok());
    assert!(auth.is_live(&id_a));
    assert_eq!(auth.challenge(&id_a).unwrap().c.to_bytes_be(), c_a);
    assert!(auth.verify_authentication(&id_a, &s_a.to_bytes_be()).is_ok());
}

#[test]
fn answer_is_checked_against_the_identity_of_the_attempt() {
    let mut auth = auth_with_alice();
    let zkp = group();
    let y1 = ZKP::exponantiate(&zkp.alpha, &number(9), &zkp.p);
    let y2 = ZKP::exponantiate(&zkp.beta, &number(9), &zkp.p);
    assert_eq!(auth.register("bob", &y1.to_bytes_be(), &y2.to_bytes_be()), Ok(()));
    assert_eq!(auth.open_challenge("bob", &[8], &[4], token("aaaaaaaaaaaa"), number(4), 0), Ok(()));
    // alice's response to the same nonce and challenge does not open bob's attempt
    assert_eq!(auth.check_answer("aaaaaaaaaaaa", &[5]), Err(AuthError::InvalidProof));
    assert_eq!(auth.open_challenge("bob", &[8], &[4], token("bbbbbbbbbbbb"), number(4), 0), Ok(()));
    let s = zkp.solve(&number(7), &number(4), &number(9));
    assert_eq!(auth.check_answer("bbbbbbbbbbbb", &s.to_bytes_be()), Ok(()));
}

#[test]
fn answer_is_checked_against_the_latest_registration() {
    let mut auth = auth_with_alice();
    let zkp = group();
    assert_eq!(auth.open_challenge("alice", &[8], &[4], token("aaaaaaaaaaaa"), number(4), 0), Ok(()));
    // alice registers again, for the secret 9
    let y1 = ZKP::exponantiate(&zkp.alpha, &number(9), &zkp.p);
    let y2 = ZKP::exponantiate(&zkp.beta, &number(9), &zkp.p);
    assert_eq!(auth.register("alice", &y1.to_bytes_be(), &y2.to_bytes_be()), Ok(()));
    assert!(auth.is_live("aaaaaaaaaaaa"));
    let s = zkp.solve(&number(7), &number(4), &number(9));
    assert_eq!(auth.check_answer("aaaaaaaaaaaa", &s.to_bytes_be()), Ok(()));
}

#[test]
fn reclaim_expired_drops_old_attempts_only() {
    let mut auth = auth_with_alice();
    assert_eq!(auth.open_challenge("alice", &[8], &[4], token("aaaaaaaaaaaa"), number(4), 100), Ok(()));
    assert_eq!(auth.open_challenge("alice", &[8], &[4], token("bbbbbbbbbbbb"), number(4), 150), Ok(()));
    assert_eq!(auth.open_challenge("alice", &[8], &[4], token("cccccccccccc"), number(4), 200), Ok(()));
    assert_eq!(auth.open_challenge("alice", &[8], &[4], token("dddddddddddd"), number(4), 120), Ok(()));

    auth.reclaim_expired(159, 60);
    assert!(auth.is_live("aaaaaaaaaaaa"));
    auth.reclaim_expired(160, 60);
    assert!(!auth.is_live("aaaaaaaaaaaa"));
    assert!(auth.is_live("bbbbbbbbbbbb"));
    assert!(auth.is_live("cccccccccccc"));
    assert!(auth.is_live("dddddddddddd"));

    auth.reclaim_expired(210, 60);
    assert!(!auth.is_live("bbbbbbbbbbbb"));
    assert!(auth.is_live("cccccccccccc"));
    assert!(!auth.is_live("dddddddddddd"));
    assert_eq!(auth.check_answer("bbbbbbbbbbbb", &[5]), Err(AuthError::NotFound));
    assert_eq!(auth.check_answer("cccccccccccc", &[5]), Ok(()));
    assert!(auth.lookup("alice").is_some());
}

#[test]
fn reclaim_expired_edge_cases() {
    let mut auth = auth_with_alice();
    auth.reclaim_expired(0, 0);
    assert_eq!(auth.open_challenge("alice", &[8], &[4], token("aaaaaaaaaaaa"), number(4), 100), Ok(()));
    // the clock stands before the attempt was opened
    auth.reclaim_expired(50, 0);
    assert!(auth.is_live("aaaaaaaaaaaa"));
    // no overflow at the far end
    auth.reclaim_expired(u64::MAX, u64::MAX);
    assert!(auth.is_live("aaaaaaaaaaaa"));
    auth.reclaim_expired(99, u64::MAX);
    assert!(auth.is_live("aaaaaaaaaaaa"));
    // a time to live of zero drops what was opened up to now
    auth.reclaim_expired(100, 0);
    assert!(!auth.is_live("aaaaaaaaaaaa"));
}

#[test]
fn full_run_with_1024_bit_group() {
    let p = BigNat::from_bytes_be(
        &hex::decode(
            "B10B8F96A080E01DDE92DE5EAE5D54EC52C99FBCFB06A3C69A6A9DCA52D23B616073E28675A23D189838EF1E2EE652C013ECB4AEA906112324975C3CD49B83BFACCBDD7D90C4BD7098488E9C219A73724EFFD6FAE5644738FAA31A4FF55BCCC0A151AF5F0DC8B4BD45BF37DF365C1A65E68CFDA76D4DA708DF1FB2BC2E4A4371",
        )
        .unwrap(),
    );
    let q = BigNat::from_bytes_be(&hex::decode("F518AA8781A8DF278ABA4E7D64B7CB9D49462353").unwrap());
    let alpha = BigNat::from_bytes_be(
        &hex::decode(
            "A4D1CBD5C3FD34126765A442EFB99905F8104DD258AC507FD6406CFF14266D31266FEA1E5C41564B777E690F5504F213160217B4B01B886A5E91547F9E2749F4D7FBD7D3B9A92EE1909D0D2263F80A76A6A24C087A091F531DBF0A0169B6A28AD662A4D18E73AFA32D779D5918D08BC8858F4DCEF97C2A24855E6EEB22B3B2E5",
        )
        .unwrap(),
    );
    let beta = alpha.modpow(&number(0x266F_EA1E), &p);
    let zkp = ZKP::new(p.clone(), q.clone(), alpha.clone(), beta.clone());
    let mut auth = AuthImpl::new(ZKP::new(p, q, alpha, beta)).unwrap();

    let x = ZKP::generate_random_below(&zkp.q);
    let y1 = ZKP::exponantiate(&zkp.alpha, &x, &zkp.p);
    let y2 = ZKP::exponantiate(&zkp.beta, &x, &zkp.p);
    assert_eq!(auth.register("carol", &y1.to_bytes_be(), &y2.to_bytes_be()), Ok(()));

    let k = ZKP::generate_random_below(&zkp.q);
    let r1 = ZKP::exponantiate(&zkp.alpha, &k, &zkp.p);
    let r2 = ZKP::exponantiate(&zkp.beta, &k, &zkp.p);
    let (auth_id, c) = auth
        .create_authentication_challenge("carol", &r1.to_bytes_be(), &r2.to_bytes_be(), 7)
        .unwrap();
    let s = zkp.solve(&k, &BigNat::from_bytes_be(&c), &x);
    assert!(auth.verify_authentication(&auth_id, &s.to_bytes_be()).is_ok());
    assert_eq!(
        auth.verify_authentication(&auth_id, &s.to_bytes_be()),
        Err(AuthError::NotFound)
    );

    // a prover who does not know the secret
    let (auth_id, c) = auth
        .create_authentication_challenge("carol", &r1.to_bytes_be(), &r2.to_bytes_be(), 8)
        .unwrap();
    let challenge = BigNat::from_bytes_be(&c);
    let guess = x.mul(&number(2)).modpow(&number(1), &zkp.q);
    let s = zkp.solve(&k, &challenge, &guess);
    let expected = if challenge.is_zero() || x.is_zero() {
        Ok(())
    } else {
        Err(AuthError::InvalidProof)
    };
    assert_eq!(auth.verify_authentication(&auth_id, &s.to_bytes_be()).map(|_| ()), expected);
}

#[test]
fn error_kinds_are_told_apart() {
    let kinds = [
        AuthError::NotFound,
        AuthError::InvalidArgument,
        AuthError::InvalidProof,
        AuthError::Internal,
    ];
    for (i, a) in kinds.iter().enumerate() {
        for (j, b) in kinds.iter().enumerate() {
            assert_eq!(a == b, i == j);
        }
    }
}

#[test]
fn identities_are_exact_strings() {
    let mut auth = auth_with_alice();
    assert_eq!(auth.register("", &[1], &[1]), Ok(()));
    assert!(auth.lookup("").is_some());
    assert_eq!(
        auth.create_authentication_challenge("alice ", &[8], &[4], 0),
        Err(AuthError::NotFound)
    );
    assert!(auth.create_authentication_challenge("", &[8], &[4], 0).is_ok());
}

#[test]
fn check_admission_decides_before_anything_is_drawn() {
    let auth = auth_with_alice();
    assert_eq!(auth.check_admission("alice", &[8], &[4]), Ok(()));
    assert_eq!(auth.check_admission("alice", &[22], &[0]), Ok(()));
    assert_eq!(auth.check_admission("bob", &[8], &[4]), Err(AuthError::NotFound));
    assert_eq!(auth.check_admission("bob", &[23], &[4]), Err(AuthError::NotFound));
    assert_eq!(auth.check_admission("alice", &[23], &[4]), Err(AuthError::InvalidArgument));
    assert_eq!(auth.check_admission("alice", &[8], &[1, 0]), Err(AuthError::InvalidArgument));
}

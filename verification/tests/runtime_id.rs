use ouisync_network::runtime_id::{Exchange, ExchangeError, SecretRuntimeId};

#[test]
fn honest_exchange_accepts_both_ids() {
    let alice = SecretRuntimeId::random();
    let bob = SecretRuntimeId::random();
    assert_ne!(alice.public(), bob.public());

    let alice_exchange = Exchange::start(&alice);
    let bob_exchange = Exchange::start(&bob);
    assert_eq!(alice_exchange.our_id, alice.public());

    // Each side reads what the other opened with.
    let (challenge_for_alice, bob_id) = Exchange::read_opening(&bob_exchange.opening());
    let (challenge_for_bob, alice_id) = Exchange::read_opening(&alice_exchange.opening());
    assert_eq!(challenge_for_alice, bob_exchange.our_challenge);
    assert_eq!(bob_id, bob.public());
    assert_eq!(alice_id, alice.public());

    let alice_signature = alice.sign_challenge(&challenge_for_alice);
    let bob_signature = bob.sign_challenge(&challenge_for_bob);

    assert_eq!(alice_exchange.finish(bob_id, &bob_signature), Ok(bob.public()));
    assert_eq!(bob_exchange.finish(alice_id, &alice_signature), Ok(alice.public()));
}

#[test]
fn forged_answers_are_rejected() {
    let alice = SecretRuntimeId::random();
    let bob = SecretRuntimeId::random();
    let mallory = SecretRuntimeId::random();
    let exchange = Exchange::start(&alice);

    // Mallory claims Bob's id but can only sign with her own key.
    let forged = mallory.sign_challenge(&exchange.our_challenge);
    assert_eq!(exchange.finish(bob.public(), &forged), Err(ExchangeError::VerificationFailed));

    // Bob's answer to some other challenge does not answer this one.
    let mut other = exchange.our_challenge;
    other[0] ^= 1;
    let stale = bob.sign_challenge(&other);
    assert_eq!(exchange.finish(bob.public(), &stale), Err(ExchangeError::VerificationFailed));

    // A tampered signature is rejected.
    let mut tampered = bob.sign_challenge(&exchange.our_challenge);
    tampered[5] ^= 0x40;
    assert_eq!(exchange.finish(bob.public(), &tampered), Err(ExchangeError::VerificationFailed));
}

#[test]
fn signing_is_deterministic_and_ids_stable() {
    let alice = SecretRuntimeId::random();
    let challenge = [9u8; 32];
    assert_eq!(alice.sign_challenge(&challenge), alice.sign_challenge(&challenge));
    assert_eq!(alice.public(), alice.public());
    assert!(alice.public().verify_challenge(&challenge, &alice.sign_challenge(&challenge)));
}

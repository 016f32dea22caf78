use forgedbackup::fsas::{
    answer_challenge, generate_challenge, generate_keypair, keypair_from_signing_key,
    read_signing_key, read_verifying_key, verify_answer, AuthError,
};
use forgedbackup::KeyError;

#[test]
fn challenge_answer_verifies() {
    let kp = keypair_from_signing_key([42u8; 32]).unwrap();
    let challenge = generate_challenge();
    let answer = answer_challenge(&kp.signing_key, &challenge);
    assert_eq!(verify_answer(&kp.verifying_key, &challenge, &answer), Ok(()));
    assert_eq!(answer_challenge(&kp.signing_key, &challenge), answer);
}

#[test]
fn wrong_signing_key_is_rejected() {
    let expected = keypair_from_signing_key([1u8; 32]).unwrap();
    let impostor = keypair_from_signing_key([2u8; 32]).unwrap();
    let challenge = generate_challenge();
    let answer = answer_challenge(&impostor.signing_key, &challenge);
    assert_eq!(
        verify_answer(&expected.verifying_key, &challenge, &answer),
        Err(AuthError::BadSignature)
    );
}

#[test]
fn answer_to_other_challenge_is_rejected() {
    let kp = keypair_from_signing_key([3u8; 32]).unwrap();
    let answer = answer_challenge(&kp.signing_key, &generate_challenge());
    assert_eq!(
        verify_answer(&kp.verifying_key, &generate_challenge(), &answer),
        Err(AuthError::BadSignature)
    );
}

#[test]
fn malformed_answer() {
    let kp = keypair_from_signing_key([3u8; 32]).unwrap();
    let challenge = generate_challenge();
    assert_eq!(
        verify_answer(&kp.verifying_key, &challenge, &[0u8; 63]),
        Err(AuthError::MalformedAnswer)
    );
}

#[test]
fn challenges_are_fresh() {
    let a = generate_challenge();
    let b = generate_challenge();
    assert_eq!(a.len(), 512);
    assert_ne!(a, b);
}

#[test]
fn generated_keypair_is_consistent() {
    let kp = generate_keypair().unwrap();
    let again = keypair_from_signing_key(kp.signing_key).unwrap();
    assert_eq!(again.verifying_key, kp.verifying_key);
    assert_ne!(kp.verifying_key, kp.signing_key);
}

#[test]
fn small_order_public_key_still_reads() {
    // The identity point (y = 1) has small order.
    let mut identity = [0u8; 32];
    identity[0] = 1;
    assert_eq!(read_verifying_key(&identity), Ok(identity));
    assert_eq!(read_signing_key(&[5u8; 32]), Ok([5u8; 32]));
}

#[test]
fn key_file_errors() {
    assert_eq!(read_signing_key(&[0u8; 31]), Err(KeyError::InvalidLength));
    assert_eq!(read_verifying_key(&[0u8; 64]), Err(KeyError::InvalidLength));
    // y = 2 is not the y-coordinate of a curve point.
    let mut bad = [0u8; 32];
    bad[0] = 2;
    assert_eq!(read_verifying_key(&bad), Err(KeyError::InvalidKey));
}

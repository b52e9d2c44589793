use toy_pkc::cryptosystem::{decrypt, encrypt, generate_keys, PrivateKey, PublicKey, Scheme};
use toy_pkc::error::CryptoError;
use toy_pkc::paillier::{PaillierPrivateKey, PaillierPublicKey};
use toy_pkc::rsa::{RsaPrivateKey, RsaPublicKey};

#[test]
fn dispatch_rsa_textbook_vector() {
    let public = PublicKey::Rsa(RsaPublicKey { n: 3233, e: 17 });
    let private = PrivateKey::Rsa(RsaPrivateKey { n: 3233, d: 2753 });
    let c = encrypt(65, &public, 999).unwrap();
    assert_eq!(c, 2790);
    assert_eq!(decrypt(c, &private), 65);
}

#[test]
fn dispatch_paillier_round_trip() {
    let public = PublicKey::Paillier(PaillierPublicKey { n: 323, g: 324 });
    let private = PrivateKey::Paillier(PaillierPrivateKey { n: 323, lambda: 144, mu: 83 });
    for m in [0u64, 1, 89, 322] {
        let c = encrypt(m, &public, 7).unwrap();
        assert_eq!(decrypt(c, &private), m);
    }
    assert_eq!(encrypt(323, &public, 7), Err(CryptoError::PlaintextOutOfRange));
}

#[test]
fn generated_keys_of_each_scheme_round_trip() {
    for scheme in [Scheme::Rsa, Scheme::Paillier] {
        let (public, private) = generate_keys(scheme, 60000, 30000, 20, 65537).unwrap();
        match (&public, scheme) {
            (PublicKey::Rsa(_), Scheme::Rsa) | (PublicKey::Paillier(_), Scheme::Paillier) => {}
            _ => panic!("key of the wrong scheme"),
        }
        for m in [0u64, 42, 255, 29999] {
            let c = encrypt(m, &public, 12345).unwrap();
            assert_eq!(decrypt(c, &private), m);
        }
    }
}

#[test]
fn generate_keys_rejects_empty_range() {
    assert_eq!(
        generate_keys(Scheme::Paillier, 500, 500, 20, 17),
        Err(CryptoError::InvalidRange)
    );
}

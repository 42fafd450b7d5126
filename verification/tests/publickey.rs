use polylang::publickey::{
    coordinate_from_decoded, from_url_safe_base64, to_url_safe_base64, Alg, Base64Error, CoordinateError, Crv, Key,
    Kty, Use, WIDTH,
};

#[test]
fn key_part_codes() {
    assert_eq!(u8::from(Kty::EC), 1);
    assert_eq!(u8::from(Crv::Secp256k1), 1);
    assert_eq!(u8::from(Alg::ES256K), 1);
    assert_eq!(u8::from(Use::Sig), 1);
    assert_eq!(Kty::from_u8(1), Kty::EC);
    assert_eq!(Crv::from_u8(1), Crv::Secp256k1);
    assert_eq!(Alg::from_u8(1), Alg::ES256K);
    assert_eq!(Use::from_u8(1), Use::Sig);
    assert_eq!(Kty::from_u8(u8::from(Kty::default())), Kty::default());
    assert_eq!(WIDTH, 5);
}

#[test]
fn key_part_names() {
    assert_eq!(Kty::from_str("EC"), Ok(Kty::EC));
    assert_eq!(Kty::from_str("ec"), Err(()));
    assert_eq!(Crv::from_str("secp256k1"), Ok(Crv::Secp256k1));
    assert_eq!(Crv::from_str("Secp256k1"), Err(()));
    assert_eq!(Alg::from_str("ES256K"), Ok(Alg::ES256K));
    assert_eq!(Alg::from_str("ES256"), Err(()));
    assert_eq!(Use::from_str("sig"), Ok(Use::Sig));
    assert_eq!(Use::from_str(""), Err(()));
}

#[test]
fn default_key() {
    let key = Key::default();
    assert_eq!(key.kty, Kty::EC);
    assert_eq!(key.crv, Crv::Secp256k1);
    assert_eq!(key.x, [0u8; 32]);
    assert_eq!(key.y, [0u8; 32]);
}

#[test]
fn coordinate_base64_uses_url_safe_alphabet() {
    let mut bytes = [0u8; 32];
    bytes[30] = 0xfb;
    bytes[31] = 0xff;
    let text = to_url_safe_base64(&bytes);
    assert_eq!(text, format!("{}-_8=", "A".repeat(40)));
    assert_eq!(to_url_safe_base64(&[0u8; 32]), format!("{}=", "A".repeat(43)));
}

#[test]
fn coordinate_base64_round_trip() {
    let mut bytes = [0u8; 32];
    for (i, b) in bytes.iter_mut().enumerate() {
        *b = (i as u8).wrapping_mul(37).wrapping_add(5);
    }
    let text = to_url_safe_base64(&bytes);
    assert_eq!(from_url_safe_base64(&text), Ok(bytes));
}

#[test]
fn coordinate_base64_errors() {
    assert_eq!(from_url_safe_base64("AAE="), Err(CoordinateError::InvalidLength));
    assert_eq!(
        from_url_safe_base64("A*=="),
        Err(CoordinateError::Decode(Base64Error::InvalidByte(1, b'*')))
    );
    assert_eq!(from_url_safe_base64("AAE"), Err(CoordinateError::Decode(Base64Error::InvalidPadding)));
    assert_eq!(
        from_url_safe_base64("AB=="),
        Err(CoordinateError::Decode(Base64Error::InvalidLastSymbol(1, b'B')))
    );
    assert_eq!(from_url_safe_base64("A"), Err(CoordinateError::Decode(Base64Error::InvalidLength)));
    assert_eq!(
        coordinate_from_decoded(Err(Base64Error::InvalidLength)),
        Err(CoordinateError::Decode(Base64Error::InvalidLength))
    );
    assert_eq!(coordinate_from_decoded(Ok(vec![1; 31])), Err(CoordinateError::InvalidLength));
    assert_eq!(coordinate_from_decoded(Ok(vec![7; 32])), Ok([7; 32]));
}

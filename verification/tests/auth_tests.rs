use spread_server::auth::{parse_basic_auth, AuthError};

#[test]
fn parses_username_and_secret() {
    // "dXNlcjpwYXNz" is the standard base64 of "user:pass"
    let c = parse_basic_auth("Basic dXNlcjpwYXNz").unwrap();
    assert_eq!(c.username, "user");
    assert_eq!(c.password, "pass");
}

#[test]
fn header_without_token_is_rejected() {
    assert!(matches!(parse_basic_auth("Basic"), Err(AuthError::HeaderShape)));
}

#[test]
fn header_with_extra_words_is_rejected() {
    assert!(matches!(
        parse_basic_auth("Basic one two"),
        Err(AuthError::HeaderShape)
    ));
}

#[test]
fn invalid_base64_is_rejected() {
    assert!(matches!(parse_basic_auth("Basic %%%"), Err(AuthError::Base64)));
}

#[test]
fn invalid_utf8_is_rejected() {
    // "/w==" decodes to the single byte 0xFF, which is not UTF-8
    assert!(matches!(parse_basic_auth("Basic /w=="), Err(AuthError::Utf8)));
}

#[test]
fn empty_username_is_kept() {
    // "OnBhc3M=" is the base64 of ":pass"
    let c = parse_basic_auth("Basic OnBhc3M=").unwrap();
    assert_eq!(c.username, "");
    assert_eq!(c.password, "pass");
}

#[test]
fn missing_separator_is_rejected() {
    // "dXNlcg==" is the base64 of "user", with no separator at all
    assert!(matches!(
        parse_basic_auth("Basic dXNlcg=="),
        Err(AuthError::MissingCredentials)
    ));
}

#[test]
fn separator_alone_is_rejected() {
    // "Og==" is the base64 of ":"
    assert!(matches!(
        parse_basic_auth("Basic Og=="),
        Err(AuthError::MissingCredentials)
    ));
}

#[test]
fn secret_keeps_only_first_piece() {
    // "dXNlcjpwYTpzcw==" is the base64 of "user:pa:ss"
    let c = parse_basic_auth("Basic dXNlcjpwYTpzcw==").unwrap();
    assert_eq!(c.username, "user");
    assert_eq!(c.password, "pa");
}

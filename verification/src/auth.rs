use vstd::prelude::*;

use crate::text::{chars_of, split_chars, string_from_chars, Sep};
use base64::Engine;
use vstd::utf8::{decode_utf8, valid_utf8};

verus! {

/// What the base64 crate's standard-alphabet decoder yields for a given
/// character sequence, when it accepts it.
pub uninterp spec fn base64_decoded(s: Seq<char>) -> Option<Seq<u8>>;

/// Relies on base64's `Engine::decode` with the `STANDARD` engine: the
/// outcome is a function of the input characters alone.
#[verifier::external_body]
fn b64_decode(s: &str) -> (r: Option<Vec<u8>>)
    ensures
        match r {
            Some(v) => base64_decoded(s@) == Some(v@),
            None => base64_decoded(s@) is None,
        },
{
    base64::engine::general_purpose::STANDARD.decode(s).ok()
}

/// Relies on std's `String::from_utf8`: it succeeds exactly on valid UTF-8
/// and returns its decoding.
#[verifier::external_body]
fn utf8_to_string(v: Vec<u8>) -> (r: Option<String>)
    ensures
        valid_utf8(v@) <==> r is Some,
        r matches Some(s) ==> s@ == decode_utf8(v@),
{
    String::from_utf8(v).ok()
}

/// A username and secret pulled out of a basic-auth header.
pub struct Credentials {
    pub username: String,
    pub password: String,
}

/// Why a basic-auth header was rejected.
#[derive(Clone, Copy, PartialEq, Eq, Structural, Debug)]
pub enum AuthError {
    /// The header does not split on one space into exactly two words.
    HeaderShape,
    /// The second word is not valid base64.
    Base64,
    /// The decoded bytes are not valid UTF-8.
    Utf8,
    /// The decoded text carries no username or secret.
    MissingCredentials,
}

/// The pieces of the decoded credential text, cut on `:`.
pub open spec fn credential_pieces(d: Seq<char>) -> Seq<Seq<char>> {
    crate::text::segments(d, Sep::Pair)
}

/// The decoded text holds something besides separators: some piece is
/// non-empty.
pub open spec fn has_credential_text(d: Seq<char>) -> bool {
    exists|i: int|
        0 <= i < credential_pieces(d).len() && (#[trigger] credential_pieces(d)[i]).len() > 0
}

/// Whether the pieces carry both a username and a secret position.
pub open spec fn credentials_ok(d: Seq<char>) -> bool {
    credential_pieces(d).len() >= 2 && has_credential_text(d)
}

/// Pulls the username and secret out of a basic-auth header value of the
/// shape `Basic <base64 of username:secret>`: the header is cut on one
/// space, the second word base64-decoded, the decoded text read as UTF-8
/// and cut on `:`; the first piece is the username, the second the secret.
pub fn parse_basic_auth(header: &str) -> (r: Result<Credentials, AuthError>)
    ensures
        match r {
            Ok(c) => ({
                let parts = crate::text::segments(header@, Sep::Single);
                &&& parts.len() == 2
                &&& base64_decoded(parts[1]) matches Some(bs)
                &&& utf8_decoded_of(bs) matches Some(d)
                &&& credentials_ok(d)
                &&& c.username@ == credential_pieces(d)[0]
                &&& c.password@ == credential_pieces(d)[1]
            }),
            Err(AuthError::HeaderShape) => crate::text::segments(header@, Sep::Single).len() != 2,
            Err(AuthError::Base64) => ({
                let parts = crate::text::segments(header@, Sep::Single);
                parts.len() == 2 && base64_decoded(parts[1]) is None
            }),
            Err(AuthError::Utf8) => ({
                let parts = crate::text::segments(header@, Sep::Single);
                &&& parts.len() == 2
                &&& base64_decoded(parts[1]) matches Some(bs)
                &&& utf8_decoded_of(bs) is None
            }),
            Err(AuthError::MissingCredentials) => ({
                let parts = crate::text::segments(header@, Sep::Single);
                &&& parts.len() == 2
                &&& base64_decoded(parts[1]) matches Some(bs)
                &&& utf8_decoded_of(bs) matches Some(d)
                &&& !credentials_ok(d)
            }),
        },
{
    let hs = chars_of(header);
    let parts = split_chars(&hs, Sep::Single);
    if parts.len() != 2 {
        return Err(AuthError::HeaderShape);
    }
    let token = string_from_chars(&parts[1]);
    proof {
        assert(token@ == crate::text::segments(header@, Sep::Single)[1]);
    }
    let bytes = match b64_decode(token.as_str()) {
        Some(v) => v,
        None => {
            return Err(AuthError::Base64);
        },
    };
    let decoded = match utf8_to_string(bytes) {
        Some(s) => s,
        None => {
            return Err(AuthError::Utf8);
        },
    };
    let ds = chars_of(decoded.as_str());
    let pieces = split_chars(&ds, Sep::Pair);
    let mut some_text = false;
    let np = pieces.len();
    for i in 0..np
        invariant
            np == pieces@.len(),
            pieces.deep_view() == credential_pieces(decoded@),
            some_text == exists|t: int|
                0 <= t < i && (#[trigger] pieces.deep_view()[t]).len() > 0,
    {
        if pieces[i].len() > 0 {
            some_text = true;
            proof {
                assert(pieces.deep_view()[i as int].len() > 0);
            }
        }
    }
    if !some_text || pieces.len() < 2 {
        proof {
            if some_text {
                let t = choose|t: int|
                    0 <= t < np && (#[trigger] pieces.deep_view()[t]).len() > 0;
                assert(credential_pieces(decoded@)[t].len() > 0);
            }
        }
        return Err(AuthError::MissingCredentials);
    }
    let username = string_from_chars(&pieces[0]);
    let password = string_from_chars(&pieces[1]);
    proof {
        let t = choose|t: int| 0 <= t < np && (#[trigger] pieces.deep_view()[t]).len() > 0;
        assert(credential_pieces(decoded@)[t].len() > 0);
    }
    Ok(Credentials { username, password })
}

/// The character sequence a byte sequence decodes to as UTF-8, when it is
/// valid.
pub open spec fn utf8_decoded_of(bs: Seq<u8>) -> Option<Seq<char>> {
    if valid_utf8(bs) {
        Some(decode_utf8(bs))
    } else {
        None
    }
}

} // verus!

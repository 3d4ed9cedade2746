use vstd::prelude::*;

use crate::text::str_eq;
use vstd::string::StringExecFns;

verus! {

/// The usernames that count as authorized out of the box.
pub open spec fn spec_authorized(u: Seq<char>) -> bool {
    u == "Brooklyn"@ || u == "Daniel"@ || u == "Leo"@
}

/// The built-in account names.
enum AuthUserName {
    Brooklyn,
    Daniel,
    Leo,
}

impl AuthUserName {
    fn string_values(&self) -> (r: &str)
        ensures
            match self {
                AuthUserName::Brooklyn => r@ == "Brooklyn"@,
                AuthUserName::Daniel => r@ == "Daniel"@,
                AuthUserName::Leo => r@ == "Leo"@,
            },
    {
        match *self {
            AuthUserName::Brooklyn => "Brooklyn",
            AuthUserName::Daniel => "Daniel",
            AuthUserName::Leo => "Leo",
        }
    }

    fn is_authorized(username: &str) -> (r: bool)
        ensures
            r == spec_authorized(username@),
    {
        str_eq(AuthUserName::Brooklyn.string_values(), username) || str_eq(
            AuthUserName::Daniel.string_values(),
            username,
        ) || str_eq(AuthUserName::Leo.string_values(), username)
    }
}

/// An account as the early in-memory server kept it: a name, a secret and
/// whether the name is one of the built-in authorized ones.
pub struct User {
    pub username: String,
    pub password: String,
    pub is_authorized: bool,
}

impl User {
    /// The blank account: empty names, not authorized.
    pub fn default() -> (r: User)
        ensures
            r.username@.len() == 0,
            r.password@.len() == 0,
            !r.is_authorized,
    {
        User { username: String::new(), password: String::new(), is_authorized: false }
    }

    /// An account under the given name: authorized exactly when the name
    /// is one of the built-in ones.
    pub fn new(username: String, password: String) -> (r: User)
        ensures
            r.username == username,
            r.password == password,
            r.is_authorized == spec_authorized(username@),
    {
        let is_authorized = AuthUserName::is_authorized(username.as_str());
        User { username, password, is_authorized }
    }
}

} // verus!

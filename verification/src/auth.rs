use argon2::password_hash::rand_core::OsRng;
use argon2::password_hash::SaltString;
use argon2::{Argon2, PasswordHash, PasswordHasher, PasswordVerifier};
use vstd::prelude::*;

verus! {

/// `PasswordHash::new` accepts `hash` as a PHC hash string.
pub uninterp spec fn phc_parses(hash: Seq<char>) -> bool;

/// Argon2 verification of `password` against the parsed PHC string `hash` succeeds.
pub uninterp spec fn argon2_accepts(password: Seq<char>, hash: Seq<char>) -> bool;

/// The PHC string of `password` hashed under the default Argon2 parameters
/// with a fresh salt, by `SaltString::generate(&mut OsRng)` and then
/// `Argon2::default().hash_password`.
///
/// Trusted: a generated salt is 16 random bytes, and with it and the default
/// parameters `hash_password` fails only for a password of more than
/// `0xFFFF_FFFF` bytes, so it succeeds for one of at most `0x3FFF_FFFF`
/// characters (a character takes at most 4 bytes in UTF-8). As the argon2
/// crate documents, the hash string it produces parses again with
/// `PasswordHash::new` and verifies against the same password. Which string
/// comes out (it depends on the random salt) is left unsaid.
#[verifier::external_body]
fn hash_with_fresh_salt(password: &str) -> (r: Result<String, String>)
    ensures
        password@.len() <= 0x3FFF_FFFF ==> r is Ok,
        r matches Ok(h) ==> phc_parses(h@) && argon2_accepts(password@, h@),
{
    let salt = SaltString::generate(&mut OsRng);
    Argon2::default().hash_password(password.as_bytes(), &salt).map(|h| h.to_string()).map_err(
        |e| e.to_string(),
    )
}

/// Whether `password` matches the stored PHC string, by
/// `PasswordHash::new(stored_hash)` and then `Argon2::default().verify_password`.
///
/// Trusted: an error exactly when the stored string does not parse, else
/// whether verification succeeds; the error text is left unsaid.
#[verifier::external_body]
fn verify_with_hash(password: &str, stored_hash: &str) -> (r: Result<bool, String>)
    ensures
        r is Ok <==> phc_parses(stored_hash@),
        r matches Ok(b) ==> b == argon2_accepts(password@, stored_hash@),
{
    let parsed = PasswordHash::new(stored_hash).map_err(|e| e.to_string())?;
    Ok(Argon2::default().verify_password(password.as_bytes(), &parsed).is_ok())
}

/// The answer to a login: `Some(ok)`, or `None` for an error. A user
/// without a stored hash is refused; otherwise the password must verify
/// against the stored hash, which must parse.
pub open spec fn login_outcome(stored: Option<Seq<char>>, password: Seq<char>) -> Option<bool> {
    match stored {
        None => Some(false),
        Some(h) => if phc_parses(h) {
            Some(argon2_accepts(password, h))
        } else {
            None
        },
    }
}

/// The hash to store for a new player's password, salted at random: it
/// succeeds for any password of at most `0x3FFF_FFFF` characters, and the
/// password logs in against it.
pub fn hash_new_password(password: &str) -> (r: Result<String, String>)
    ensures
        password@.len() <= 0x3FFF_FFFF ==> r is Ok,
        r matches Ok(h) ==> login_outcome(Some(h@), password@) == Some(true),
{
    hash_with_fresh_salt(password)
}

/// Decides a login from the hash stored for the user, if the user is known.
pub fn check_login(stored_hash: Option<&str>, password: &str) -> (r: Result<bool, String>)
    ensures
        match r {
            Ok(b) => login_outcome(
                match stored_hash {
                    Some(h) => Some(h@),
                    None => None,
                },
                password@,
            ) == Some(b),
            Err(_) => login_outcome(
                match stored_hash {
                    Some(h) => Some(h@),
                    None => None,
                },
                password@,
            ) is None,
        },
{
    match stored_hash {
        Some(h) => verify_with_hash(password, h),
        None => Ok(false),
    }
}

/// What a client asks for before it may play.
#[derive(Clone, Copy, Debug, PartialEq, Eq, Structural)]
pub enum AuthRequest {
    Login,
    Register,
}

/// The reason given to a client whose request was refused.
pub open spec fn refusal_text(request: AuthRequest) -> Seq<char> {
    match request {
        AuthRequest::Register => "Username already taken"@,
        AuthRequest::Login => "Invalid username or password"@,
    }
}

/// The answer to an authentication request that came out as `outcome`:
/// `Ok(true)` lets the client play (`None`); anything else, an error
/// included, refuses it with the reason for its kind of request.
pub fn auth_refusal(request: AuthRequest, outcome: &Result<bool, String>) -> (r: Option<String>)
    ensures
        match outcome {
            Ok(true) => r is None,
            _ => r matches Some(t) && t@ == refusal_text(request),
        },
{
    match outcome {
        Ok(true) => None,
        _ => {
            let reason = match request {
                AuthRequest::Register => "Username already taken",
                AuthRequest::Login => "Invalid username or password",
            };
            Some(reason.to_owned())
        },
    }
}

/// A player who registered can log in with the same password: a hash that
/// parses and accepts the password (as the one stored at registration does)
/// lets the login succeed.
pub proof fn lemma_register_then_login(hash: Seq<char>, password: Seq<char>)
    requires
        phc_parses(hash),
        argon2_accepts(password, hash),
    ensures
        login_outcome(Some(hash), password) == Some(true),
{
}

/// An unknown user never logs in, whatever the password.
pub proof fn lemma_unknown_user_refused(password: Seq<char>)
    ensures
        login_outcome(None, password) == Some(false),
{
}

} // verus!

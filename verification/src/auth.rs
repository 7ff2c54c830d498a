//! Credentials and sessions: password hashing and verification, bearer
//! tokens, and the login and registration paths.
//!
//! Password hashing is done by argon2 behind two trusted wrappers; what the
//! verifier decides is named [`argon2_verifies`], a function of the password
//! and the hash string alone. Everything downstream is verified against that
//! name.

use vstd::prelude::*;

verus! {

use argon2::password_hash::{rand_core::OsRng, PasswordHasher, SaltString};
use argon2::{Argon2, PasswordHash, PasswordVerifier};
use rand_core::RngCore;
use vstd::string::StringSliceAdditionalSpecFns;
use vstd::utf8::{
    decode_utf8_encode_utf8,
    encode_utf8,
    encode_utf8_valid_utf8,
    valid_utf8_concat,
};

use crate::codec::{
    dec_bytes,
    dec_bytes_i64,
    i64_to_dec,
    lemma_ascii_valid_utf8,
    lemma_dec_bytes_ascii,
    parse_i64_dec,
    parsed_i64,
    string_from_utf8,
};
use crate::allocator::step_issues;
use crate::snowflake::Snowflake;
use crate::state::AppState;
use crate::store::{has_session_token, has_user_id, has_user_name, Database, Session, User};

/// A name for what argon2's verifier decides: whether `password` matches
/// the PHC hash string `hash`. The decision recomputes the hash from the
/// salt and parameters stored in the string, so it is a function of the two
/// arguments alone.
pub uninterp spec fn argon2_verifies(password: Seq<char>, hash: Seq<char>) -> bool;

/// Relies on argon2's PasswordHasher (default parameters, fresh OsRng
/// salt): the returned PHC string embeds algorithm, version and salt, and
/// verifying it against the same password recomputes the same hash, so it
/// succeeds.
#[verifier::external_body]
fn argon2_hash(password: &str) -> (r: Option<String>)
    ensures
        r is Some ==> argon2_verifies(password@, r->0@),
{
    let salt = SaltString::generate(&mut OsRng);
    Argon2::default().hash_password(password.as_bytes(), &salt).ok().map(|h| h.to_string())
}

/// Relies on argon2's PasswordVerifier: parsing the PHC string and
/// recomputing the hash decides exactly whether the password matches; a
/// string that does not parse matches nothing.
#[verifier::external_body]
fn argon2_verify(password: &str, hash: &str) -> (r: bool)
    ensures
        r == argon2_verifies(password@, hash@),
{
    match PasswordHash::new(hash) {
        Ok(parsed) => Argon2::default().verify_password(password.as_bytes(), &parsed).is_ok(),
        Err(_) => false,
    }
}

/// Hashes a password into a self-describing PHC string. Every call salts
/// anew, so two hashes of the same password differ; any returned hash
/// verifies against the password. `None` only if the hashing backend
/// refuses.
pub fn hash_password(password: String) -> (r: Option<String>)
    ensures
        r is Some ==> argon2_verifies(password@, r->0@),
{
    argon2_hash(password.as_str())
}

/// Whether a password matches a stored hash. Fails closed: a malformed
/// stored hash matches nothing rather than crashing.
pub fn check_passwords(password: String, hash: String) -> (r: bool)
    ensures
        r == argon2_verifies(password@, hash@),
{
    argon2_verify(password.as_str(), hash.as_str())
}

/// LAW (password round trip): whenever hashing succeeds, the very password
/// that was hashed verifies against the returned hash. The law is stated
/// over the two calls because each call of [`hash_password`] salts anew, so
/// there is no function of the password alone to state it over.
pub fn hash_and_check(password: String) -> (r: Option<bool>)
    ensures
        r is Some ==> r->0,
{
    let plain = password.clone();
    match hash_password(password) {
        Some(hash) => Some(check_passwords(plain, hash)),
        None => None,
    }
}

/// Relies on rand_core's OsRng (RngCore::next_u64): a fresh 64-bit value
/// from the operating system's secure generator. Nothing is promised of its
/// value; uniqueness is enforced where tokens are stored.
#[verifier::external_body]
pub fn generate_token() -> i64 {
    OsRng.next_u64() as i64
}

impl Session {
    /// A session for `user_id` under a fresh random bearer token.
    pub fn generate(id: Snowflake, user_id: Snowflake) -> (r: Session)
        ensures
            r.id == id,
            r.user_id == user_id,
    {
        let token = generate_token();
        Session { id, token, user_id }
    }
}

/// How session verification can fail.
#[derive(Clone, Copy, PartialEq, Eq, Structural, Debug)]
pub enum Error {
    /// The token matches no session: treat the caller as anonymous.
    SessionNotFound,
    /// The backing storage failed: a server error, never an authentication
    /// failure. The in-memory store never raises it; a persistent backing
    /// maps its failures onto it.
    DatabaseError,
}

/// Resolves a bearer token to its session: `Ok` exactly when some stored
/// session carries the token.
pub fn verify_session(token: i64, database: &Database) -> (r: Result<Session, Error>)
    ensures
        r is Ok <==> has_session_token(database.sessions@, token),
        r is Ok ==> database.sessions@.contains(r->Ok_0) && r->Ok_0.token == token,
        r is Err ==> r->Err_0 == Error::SessionNotFound,
{
    match database.get_session_from_token(&token) {
        Some(session) => Ok(session),
        None => Err(Error::SessionNotFound),
    }
}

/// Reads a bearer token from its textual (cookie) form: a signed decimal
/// string.
pub fn parse_token(token: &str) -> (r: Option<i64>)
    ensures
        r == parsed_i64(token.spec_bytes()),
{
    parse_i64_dec(token.as_bytes())
}

/// The bytes of the Set-Cookie value carrying a session token.
pub open spec fn cookie_bytes(token: i64) -> Seq<u8> {
    encode_utf8("token="@) + dec_bytes_i64(token as int) + encode_utf8(
        "; HttpOnly; SameSite=Lax; Path=/;"@,
    )
}

/// The Set-Cookie value that carries a freshly issued session token.
pub fn make_cookie(token: i64) -> (r: String)
    ensures
        encode_utf8(r@) == cookie_bytes(token),
{
    let mut v: Vec<u8> = Vec::new();
    v.extend_from_slice("token=".as_bytes());
    let mut digits = i64_to_dec(token);
    v.append(&mut digits);
    v.extend_from_slice("; HttpOnly; SameSite=Lax; Path=/;".as_bytes());
    proof {
        let e1 = encode_utf8("token="@);
        let d = dec_bytes_i64(token as int);
        let e2 = encode_utf8("; HttpOnly; SameSite=Lax; Path=/;"@);
        assert(v@ =~= (e1 + d) + e2);
        encode_utf8_valid_utf8("token="@);
        encode_utf8_valid_utf8("; HttpOnly; SameSite=Lax; Path=/;"@);
        lemma_dec_bytes_ascii(token as int);
        lemma_ascii_valid_utf8(d);
        valid_utf8_concat(e1, d);
        valid_utf8_concat(e1 + d, e2);
    }
    match string_from_utf8(v) {
        Some(s) => {
            proof {
                decode_utf8_encode_utf8(cookie_bytes(token));
            }
            s
        },
        None => {
            proof {
                assert(false);
            }
            String::new()
        },
    }
}

/// The request body offered at registration.
pub struct PartialUser {
    pub name: String,
    pub password: String,
}

/// The request body offered at login.
pub struct CreateUser {
    pub name: String,
    pub password: String,
}

/// How login can fail. An unknown name and a wrong password are presented
/// to clients identically; the two variants exist so the server can log the
/// difference, never to leak it.
#[derive(Clone, Copy, PartialEq, Eq, Structural, Debug)]
pub enum LoginError {
    UserNotFound,
    WrongPassword,
    /// The generator or the store refused; transient, retry later.
    ServerError,
}

/// Checks credentials and, on success, persists a fresh session and
/// returns the Set-Cookie value carrying its token.
pub fn login(state: &mut AppState, user_body: CreateUser) -> (r: Result<String, LoginError>)
    requires
        old(state).wf(),
    ensures
        final(state).wf(),
        final(state).database.users == old(state).database.users,
        final(state).database.rooms == old(state).database.rooms,
        final(state).database.messages == old(state).database.messages,
        ({
            let users = old(state).database.users@;
            let name = user_body.name@;
            let password = user_body.password@;
            &&& (!has_user_name(users, name) ==> r == Result::<String, LoginError>::Err(
                LoginError::UserNotFound,
            ) && *final(state) == *old(state))
            &&& ((has_user_name(users, name) && !crate::conn::auth_ok(users, name, password))
                ==> r == Result::<String, LoginError>::Err(LoginError::WrongPassword)
                    && *final(state) == *old(state))
            &&& (r is Err && r->Err_0 == LoginError::ServerError
                ==> final(state).database.sessions == old(state).database.sessions)
            &&& (r is Ok ==> crate::conn::auth_ok(users, name, password) && exists|s: Session|
                {
                    &&& final(state).database.sessions@ == old(state).database.sessions@.push(s)
                    &&& exists|u: User|
                        #[trigger] users.contains(u) && u.name@ == name && argon2_verifies(
                            password,
                            u.password@,
                        ) && s.user_id == u.id
                    &&& encode_utf8(r->Ok_0@) == #[trigger] cookie_bytes(s.token)
                })
        }),
{
    let ghost users = state.database.users@;
    let user_db = match state.database.get_user_by_name(user_body.name.as_str()) {
        Some(u) => u,
        None => {
            return Err(LoginError::UserNotFound);
        },
    };
    if !check_passwords(user_body.password, user_db.password.clone()) {
        proof {
            if crate::conn::auth_ok(users, user_body.name@, user_body.password@) {
                let u = choose|u: User|
                    #[trigger] users.contains(u) && u.name@ == user_body.name@ && argon2_verifies(
                        user_body.password@,
                        u.password@,
                    );
                crate::store::lemma_user_name_unique(users, u, user_db);
            }
        }
        return Err(LoginError::WrongPassword);
    }
    proof {
        assert(crate::conn::auth_ok(users, user_body.name@, user_body.password@)) by {
            assert(users.contains(user_db) && user_db.name@ == user_body.name@ && argon2_verifies(
                user_body.password@,
                user_db.password@,
            ));
        }
    }
    let id = match state.next_snowflake() {
        Ok(id) => id,
        Err(_) => {
            return Err(LoginError::ServerError);
        },
    };
    let token = generate_token();
    let session = Session::new(id, token, user_db.id);
    let ghost sess = session;
    match state.database.add_session(session) {
        Ok(()) => {
            let cookie = make_cookie(token);
            proof {
                assert(final(state).database.sessions@ == old(state).database.sessions@.push(
                    sess,
                ));
            }
            Ok(cookie)
        },
        Err(_) => Err(LoginError::ServerError),
    }
}

/// How registration can fail.
#[derive(Clone, Copy, PartialEq, Eq, Structural, Debug)]
pub enum RegisterError {
    /// The display name, or (impossibly, while identifiers come from one
    /// generator) the freshly issued identifier, is already taken.
    NameTaken,
    /// The generator or the hashing backend refused; transient.
    ServerError,
}

/// Creates a user under a fresh identifier with a salted password hash and
/// returns the identifier's decimal form.
pub fn register(state: &mut AppState, user: PartialUser) -> (r: Result<String, RegisterError>)
    requires
        old(state).wf(),
    ensures
        final(state).wf(),
        final(state).database.sessions == old(state).database.sessions,
        final(state).database.rooms == old(state).database.rooms,
        final(state).database.messages == old(state).database.messages,
        r is Err ==> final(state).database.users == old(state).database.users,
        has_user_name(old(state).database.users@, user.name@) ==> r is Err,
        (r is Err && r->Err_0 == RegisterError::NameTaken) ==> exists|now_rel: int, id: Snowflake|
            #[trigger] step_issues(old(state).allocator, now_rel, final(state).allocator, id) && (
            has_user_name(old(state).database.users@, user.name@) || has_user_id(
                old(state).database.users@,
                id.id,
            )),
        r is Ok ==> exists|u: User|
            {
                &&& final(state).database.users@ == old(state).database.users@.push(u)
                &&& u.name@ == user.name@
                &&& argon2_verifies(user.password@, u.password@)
                &&& u.id.valid()
                &&& encode_utf8(r->Ok_0@) == #[trigger] dec_bytes(u.id.id as nat)
            },
{
    let id = match state.next_snowflake() {
        Ok(id) => id,
        Err(_) => {
            return Err(RegisterError::ServerError);
        },
    };
    let password = match hash_password(user.password) {
        Some(h) => h,
        None => {
            return Err(RegisterError::ServerError);
        },
    };
    let new_user = User { id, name: user.name, password };
    let ghost u = new_user;
    match state.database.add_user(new_user) {
        Ok(()) => {
            let out = crate::codec::i64_to_string(id.id());
            proof {
                assert(dec_bytes_i64(u.id.id as int) == dec_bytes(u.id.id as nat));
            }
            Ok(out)
        },
        Err(_) => {
            proof {
                let now_rel = choose|now_rel: int|
                    step_issues(old(state).allocator, now_rel, state.allocator, id);
                assert(step_issues(old(state).allocator, now_rel, state.allocator, id));
            }
            Err(RegisterError::NameTaken)
        },
    }
}

} // verus!

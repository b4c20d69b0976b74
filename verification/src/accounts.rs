//! Server-side account rules: registration, login, session claims, bearer
//! headers, and the administration views of users.

use vstd::prelude::*;
use crate::text::{chars_of, digit_char, digits, push_digits, push_str, str_eq, string_from_chars};
use crate::groups::UserAdminDto;

verus! {

broadcast use vstd::string::group_string_axioms;

#[verifier::external_type_specification]
#[verifier::external_body]
pub struct ExBcryptError(bcrypt::BcryptError);

/// What `bcrypt::verify(password, hash)` returns: `Some(matches)` when `hash`
/// is a well-formed bcrypt hash, `None` when the call fails.
pub uninterp spec fn bcrypt_verify_outcome(password: Seq<char>, hash: Seq<char>) -> Option<bool>;

/// Why `bcrypt::hash` failed.
#[derive(Debug)]
pub enum HashError {
    /// The cost is outside `4..=31` (`BcryptError::CostNotAllowed`).
    CostNotAllowed(u32),
    /// The operating system gave no random salt (`BcryptError::Rand`), with
    /// bcrypt's own description of the failure.
    Rand(String),
    /// Any other bcrypt error, which hashing never reports.
    Unexpected,
}

/// The two decimal digits of a cost below one hundred, as bcrypt writes it.
pub open spec fn two_digits(n: u32) -> Seq<char> {
    seq![digit_char((n / 10) as nat), digit_char((n % 10) as nat)]
}

/// `bcrypt::hash(password, cost)`. The salt is drawn from the operating
/// system, so the hash itself is not determined by the arguments. What holds
/// of every outcome: a cost outside `4..=31` is refused (though a failure of
/// the salt source, which is asked first, may be reported instead); with an
/// allowed cost only the salt source can fail; a hash is the 60-character
/// `$2b$<cost as two digits>$<salt><hash>` text, and `bcrypt::verify` accepts
/// `password` against it (it re-derives the hash from the salt and cost it holds).
#[verifier::external_body]
fn bcrypt_hash(password: &str, cost: u32) -> (r: Result<String, HashError>)
    ensures
        r matches Ok(h) ==> 4 <= cost <= 31 && h@.len() == 60 && h@.subrange(0, 4) == "$2b$"@
            && h@.subrange(4, 6) == two_digits(cost) && h@[6] == '$'
            && bcrypt_verify_outcome(password@, h@) == Some(true),
        r matches Err(HashError::CostNotAllowed(c)) ==> c == cost && !(4 <= cost <= 31),
        4 <= cost <= 31 ==> (r is Ok || r matches Err(HashError::Rand(_))),
        !(r matches Err(HashError::Unexpected)),
{
    match bcrypt::hash(password, cost) {
        Ok(h) => Ok(h),
        Err(bcrypt::BcryptError::CostNotAllowed(c)) => Err(HashError::CostNotAllowed(c)),
        Err(e @ bcrypt::BcryptError::Rand(_)) => Err(HashError::Rand(e.to_string())),
        Err(_) => Err(HashError::Unexpected),
    }
}

/// `bcrypt::verify(password, hash)`: its result is the named outcome.
#[verifier::external_body]
fn bcrypt_verify(password: &str, hash: &str) -> (r: Result<bool, bcrypt::BcryptError>)
    ensures
        match r {
            Ok(b) => bcrypt_verify_outcome(password@, hash@) == Some(b),
            Err(_) => bcrypt_verify_outcome(password@, hash@) is None,
        },
{
    bcrypt::verify(password, hash)
}

/// The bcrypt cost used for new passwords.
pub const PASSWORD_HASH_COST: u32 = 4;

/// How long a session token stays valid: thirty days, in seconds.
pub const SESSION_SECONDS: i64 = 2592000;

/// The claims carried by a session token.
pub struct Claims {
    /// The user's id.
    pub sub: i32,
    /// When the token expires, in seconds since the epoch.
    pub exp: usize,
}

impl Claims {
    /// The claims of a session for `user_id` opened at `now` (seconds since the epoch).
    pub fn for_session(user_id: i32, now: i64) -> (c: Claims)
        requires
            now <= i64::MAX - SESSION_SECONDS,
        ensures
            c.sub == user_id,
            c.exp == (now + SESSION_SECONDS) as usize,
    {
        let t: i64 = now + SESSION_SECONDS;
        Claims { sub: user_id, exp: t as usize }
    }
}

/// The body of a login or registration request.
pub struct AuthPayload {
    pub email: String,
    pub password: String,
}

/// What a successful login or registration answers.
pub struct AuthResponse {
    pub token: String,
    pub user: UserDto,
}

/// The public facts about a user.
pub struct UserDto {
    pub id: i32,
    pub email: String,
    pub is_admin: bool,
}

/// A user as stored.
pub struct UserRecord {
    pub id: i32,
    pub username: String,
    pub password_hash: String,
    pub is_admin: bool,
    pub is_deleted: bool,
}

/// A user about to be stored by a registration.
pub struct NewUser {
    pub username: String,
    pub password_hash: String,
    pub is_admin: bool,
    pub is_deleted: bool,
}

/// Why a request about an account was refused.
#[derive(Debug)]
pub enum AuthError {
    /// The email or the password is empty.
    MissingCredentials,
    /// Another user has that email.
    EmailTaken,
    /// No such user, or the password does not match.
    InvalidCredentials,
    /// The account is blocked.
    AccountBlocked,
    /// No `Authorization` header.
    MissingAuthHeader,
    /// An `Authorization` header that is not a bearer token.
    InvalidAuthHeader,
    /// The password could not be hashed.
    Hashing(HashError),
    /// The session token was refused (bad signature, expired, or malformed),
    /// with the token library's description.
    InvalidToken(String),
}

impl AuthError {
    /// The HTTP status of the refusal.
    pub fn status(&self) -> (code: u16)
        ensures
            code == match self {
                AuthError::MissingCredentials => 400u16,
                AuthError::EmailTaken => 409u16,
                AuthError::InvalidCredentials => 401u16,
                AuthError::AccountBlocked => 403u16,
                AuthError::MissingAuthHeader => 401u16,
                AuthError::InvalidAuthHeader => 401u16,
                AuthError::Hashing(_) => 500u16,
                AuthError::InvalidToken(_) => 401u16,
            },
    {
        match self {
            AuthError::MissingCredentials => 400,
            AuthError::EmailTaken => 409,
            AuthError::InvalidCredentials => 401,
            AuthError::AccountBlocked => 403,
            AuthError::MissingAuthHeader => 401,
            AuthError::InvalidAuthHeader => 401,
            AuthError::Hashing(_) => 500,
            AuthError::InvalidToken(_) => 401,
        }
    }

    /// The text the refusal is answered with (none for a hashing failure that
    /// bcrypt never reports).
    pub fn message(&self) -> (r: Option<String>)
        ensures
            match r {
                Some(m) => auth_message(*self) == Some(m@),
                None => auth_message(*self) is None,
            },
    {
        match self {
            AuthError::MissingCredentials => Some("Missing email or password".to_owned()),
            AuthError::EmailTaken => Some("Email already taken".to_owned()),
            AuthError::InvalidCredentials => Some("Invalid credentials".to_owned()),
            AuthError::AccountBlocked => Some("Account blocked".to_owned()),
            AuthError::MissingAuthHeader => Some("Missing Auth header".to_owned()),
            AuthError::InvalidAuthHeader => Some("Invalid Auth header".to_owned()),
            AuthError::Hashing(HashError::CostNotAllowed(c)) => {
                let mut v: Vec<char> = Vec::new();
                push_str(&mut v, "Cost needs to be between 4 and 31, got ");
                push_digits(&mut v, *c as u64);
                Some(string_from_chars(v.as_slice()))
            },
            AuthError::Hashing(HashError::Rand(t)) => Some(t.clone()),
            AuthError::Hashing(HashError::Unexpected) => None,
            AuthError::InvalidToken(t) => {
                let mut v: Vec<char> = Vec::new();
                push_str(&mut v, "Invalid Token: ");
                push_str(&mut v, t.as_str());
                Some(string_from_chars(v.as_slice()))
            },
        }
    }
}

/// The text a refusal is answered with (none for a hashing failure that
/// bcrypt never reports).
pub open spec fn auth_message(e: AuthError) -> Option<Seq<char>> {
    match e {
        AuthError::MissingCredentials => Some("Missing email or password"@),
        AuthError::EmailTaken => Some("Email already taken"@),
        AuthError::InvalidCredentials => Some("Invalid credentials"@),
        AuthError::AccountBlocked => Some("Account blocked"@),
        AuthError::MissingAuthHeader => Some("Missing Auth header"@),
        AuthError::InvalidAuthHeader => Some("Invalid Auth header"@),
        AuthError::Hashing(HashError::CostNotAllowed(c)) => Some("Cost needs to be between 4 and 31, got "@ + digits(c as nat)),
        AuthError::Hashing(HashError::Rand(t)) => Some(t@),
        AuthError::Hashing(HashError::Unexpected) => None,
        AuthError::InvalidToken(t) => Some("Invalid Token: "@ + t@),
    }
}

/// The password hash the initial administrator is created with; it stands for
/// the password `admin` and is not a bcrypt hash.
pub open spec fn placeholder_hash() -> Seq<char> {
    seq!['h', 'a', 's', 'h']
}

/// The password of the initial administrator.
pub open spec fn placeholder_password() -> Seq<char> {
    seq!['a', 'd', 'm', 'i', 'n']
}

/// Whether `password` is accepted against the stored hash.
pub open spec fn password_accepted(password: Seq<char>, stored_hash: Seq<char>) -> bool {
    if stored_hash == placeholder_hash() {
        password == placeholder_password()
    } else {
        bcrypt_verify_outcome(password, stored_hash) == Some(true)
    }
}

/// Checks a password against a stored hash; a hash bcrypt cannot read accepts nothing.
pub fn check_password(password: &str, stored_hash: &str) -> (ok: bool)
    ensures
        ok == password_accepted(password@, stored_hash@),
{
    proof {
        reveal_strlit("hash");
        reveal_strlit("admin");
    }
    if str_eq(stored_hash, "hash") {
        assert("hash"@ =~= placeholder_hash());
        assert("admin"@ =~= placeholder_password());
        str_eq(password, "admin")
    } else {
        assert("hash"@ =~= placeholder_hash());
        match bcrypt_verify(password, stored_hash) {
            Ok(b) => b,
            Err(_) => false,
        }
    }
}

/// What a login answers, given the stored user with that email (if any) and
/// whether the password is accepted for it.
pub fn login_outcome(user: Option<&UserRecord>, password_ok: bool) -> (r: Result<UserDto, AuthError>)
    ensures
        match user {
            None => r matches Err(AuthError::InvalidCredentials),
            Some(u) => if u.is_deleted {
                r matches Err(AuthError::AccountBlocked)
            } else if !password_ok {
                r matches Err(AuthError::InvalidCredentials)
            } else {
                r matches Ok(d) && d.id == u.id && d.email@ == u.username@ && d.is_admin == u.is_admin
            },
        },
{
    match user {
        None => Err(AuthError::InvalidCredentials),
        Some(u) => {
            if u.is_deleted {
                Err(AuthError::AccountBlocked)
            } else if !password_ok {
                Err(AuthError::InvalidCredentials)
            } else {
                Ok(UserDto { id: u.id, email: u.username.clone(), is_admin: u.is_admin })
            }
        },
    }
}

/// Logs in with `password` as the stored user with that email (if any): an
/// unknown user or a wrong password is refused as invalid credentials, a
/// blocked account as blocked.
pub fn login(user: Option<&UserRecord>, password: &str) -> (r: Result<UserDto, AuthError>)
    ensures
        match user {
            None => r matches Err(AuthError::InvalidCredentials),
            Some(u) => if u.is_deleted {
                r matches Err(AuthError::AccountBlocked)
            } else if !password_accepted(password@, u.password_hash@) {
                r matches Err(AuthError::InvalidCredentials)
            } else {
                r matches Ok(d) && d.id == u.id && d.email@ == u.username@ && d.is_admin == u.is_admin
            },
        },
{
    let ok = match user {
        Some(u) => if u.is_deleted { false } else { check_password(password, u.password_hash.as_str()) },
        None => false,
    };
    login_outcome(user, ok)
}

/// Whether a registration request names both an email and a password.
pub fn has_credentials(payload: &AuthPayload) -> (r: bool)
    ensures
        r == (payload.email@.len() > 0 && payload.password@.len() > 0),
{
    !payload.email.as_str().is_empty() && !payload.password.as_str().is_empty()
}

/// The user a registration stores, given whether the email is already taken:
/// refused when the email or password is empty, then when the email is taken;
/// otherwise an ordinary, unblocked user whose hash accepts the password
/// (unless hashing fails).
pub fn new_account(payload: &AuthPayload, email_taken: bool) -> (r: Result<NewUser, AuthError>)
    ensures
        (r matches Err(AuthError::MissingCredentials)) <==> (payload.email@.len() == 0 || payload.password@.len() == 0),
        (r matches Err(AuthError::EmailTaken)) <==> (payload.email@.len() > 0 && payload.password@.len() > 0 && email_taken),
        (payload.email@.len() > 0 && payload.password@.len() > 0 && !email_taken)
            ==> (r is Ok || r matches Err(AuthError::Hashing(HashError::Rand(_)))),
        r matches Err(AuthError::Hashing(e)) ==> e is Rand,
        r matches Ok(u) ==> u.username@ == payload.email@ && !u.is_admin && !u.is_deleted
            && u.password_hash@.len() == 60 && u.password_hash@.subrange(0, 4) == "$2b$"@
            && u.password_hash@.subrange(4, 6) == "04"@
            && bcrypt_verify_outcome(payload.password@, u.password_hash@) == Some(true),
        !(r matches Err(AuthError::InvalidCredentials) || r matches Err(AuthError::AccountBlocked)
            || r matches Err(AuthError::MissingAuthHeader) || r matches Err(AuthError::InvalidAuthHeader)
            || r matches Err(AuthError::InvalidToken(_))),
{
    proof {
        reveal_strlit("04");
        assert(two_digits(PASSWORD_HASH_COST) =~= "04"@);
    }
    if !has_credentials(payload) {
        return Err(AuthError::MissingCredentials);
    }
    if email_taken {
        return Err(AuthError::EmailTaken);
    }
    match bcrypt_hash(payload.password.as_str(), PASSWORD_HASH_COST) {
        Ok(h) => Ok(NewUser { username: payload.email.clone(), password_hash: h, is_admin: false, is_deleted: false }),
        Err(e) => Err(AuthError::Hashing(e)),
    }
}

/// Law: whoever registers can log in with the password they registered with,
/// as long as the account is not blocked.
pub proof fn lemma_registered_password_accepted(password: Seq<char>, stored_hash: Seq<char>)
    requires
        stored_hash.len() == 60,
        bcrypt_verify_outcome(password, stored_hash) == Some(true),
    ensures
        password_accepted(password, stored_hash),
{
}

/// The session token `jsonwebtoken::encode` makes, under the default header
/// (HS256) and the HMAC key `secret`, for the claims object `{"sub": sub, "exp": exp}`.
pub uninterp spec fn hs256_token(sub: i32, exp: usize, secret: Seq<u8>) -> Seq<char>;

/// `jsonwebtoken::encode(&Header::default(), claims, &EncodingKey::from_secret(secret))`
/// with the claims object `{"sub": sub, "exp": exp}` (keys in that order, which
/// the JSON map keeps as inserted). The
/// header is HS256, which matches the HMAC key, a JSON object always
/// serialises, and HMAC signing cannot fail, so the call always succeeds; the
/// token depends on the arguments alone (HMAC-SHA256 is deterministic).
#[verifier::external_body]
fn jwt_encode(sub: i32, exp: usize, secret: &[u8]) -> (r: Result<String, String>)
    ensures
        r is Ok,
        r matches Ok(t) ==> t@ == hs256_token(sub, exp, secret@),
{
    let mut claims = serde_json::Map::new();
    claims.insert("sub".to_owned(), serde_json::Value::from(sub));
    claims.insert("exp".to_owned(), serde_json::Value::from(exp));
    let key = jsonwebtoken::EncodingKey::from_secret(secret);
    jsonwebtoken::encode(&jsonwebtoken::Header::default(), &claims, &key).map_err(|e| e.to_string())
}

/// `jsonwebtoken::decode` of `token` under the HMAC key `secret` with the
/// default validation (HS256 signature, an `exp` claim not past by more than
/// the 60 s leeway), the claims read as JSON values, and then the `sub` claim
/// read as an `i64` and the `exp` claim as a `u64` (`None` when missing or not
/// such a whole number); an error carries the library's description. Whether
/// a token passes depends on the clock. What holds of every outcome: the
/// decoder checks the HMAC over the token's own header and payload and then
/// reads that payload back, so a token made by `jwt_encode` for `sub` and `exp`
/// under the same secret, when it passes, gives back exactly `sub` and `exp`.
#[verifier::external_body]
fn jwt_decode(token: &str, secret: &[u8]) -> (r: Result<(Option<i64>, Option<u64>), String>)
    ensures
        r matches Ok(v) ==> (forall|sub: i32, exp: usize| #![trigger hs256_token(sub, exp, secret@)]
            token@ == hs256_token(sub, exp, secret@) ==> v == (Some(sub as i64), Some(exp as u64))),
{
    let key = jsonwebtoken::DecodingKey::from_secret(secret);
    let validation = jsonwebtoken::Validation::default();
    match jsonwebtoken::decode::<std::collections::BTreeMap<String, serde_json::Value>>(token, &key, &validation) {
        Ok(data) => Ok((
            match data.claims.get("sub") { Some(v) => v.as_i64(), None => None },
            match data.claims.get("exp") { Some(v) => v.as_u64(), None => None },
        )),
        Err(e) => Err(e.to_string()),
    }
}

/// The text a token is refused with when it names no user: its `sub` claim is
/// missing, not a whole number, or outside `i32`.
pub open spec fn bad_sub_text() -> Seq<char> {
    "the token names no user (`sub` must be an i32)"@
}

/// The text a token is refused with when its `exp` claim is missing, not a
/// whole number, or outside `usize`.
pub open spec fn bad_exp_text() -> Seq<char> {
    "the token has no expiry (`exp` must be a usize)"@
}

/// What the claims of a decoded token come to: with both claims present,
/// `sub` inside `i32` and `exp` inside `usize` they are the session's claims;
/// a missing or out-of-range `sub` (checked first) or `exp` refuses the token
/// as invalid with its own text; a token the decoder refused is refused as
/// invalid with the decoder's description.
pub open spec fn claims_of_decoded(d: Result<(Option<i64>, Option<u64>), String>, r: Result<Claims, AuthError>) -> bool {
    match d {
        Ok((Some(s), Some(e))) => if i32::MIN <= s <= i32::MAX && e <= usize::MAX {
            r matches Ok(c) && c.sub == s && c.exp == e
        } else if !(i32::MIN <= s <= i32::MAX) {
            r matches Err(AuthError::InvalidToken(m)) && m@ == bad_sub_text()
        } else {
            r matches Err(AuthError::InvalidToken(m)) && m@ == bad_exp_text()
        },
        Ok((None, _)) => r matches Err(AuthError::InvalidToken(m)) && m@ == bad_sub_text(),
        Ok((Some(_), None)) => r matches Err(AuthError::InvalidToken(m)) && m@ == bad_exp_text(),
        Err(t) => r matches Err(AuthError::InvalidToken(m)) && m@ == t@,
    }
}

/// The claims of a decoded token (`sub` and `exp` as the decoder read them,
/// or the decoder's refusal), as `claims_of_decoded` describes.
pub fn claims_from_decoded(d: Result<(Option<i64>, Option<u64>), String>) -> (r: Result<Claims, AuthError>)
    ensures
        claims_of_decoded(d, r),
{
    proof {
        reveal_strlit("the token names no user (`sub` must be an i32)");
        reveal_strlit("the token has no expiry (`exp` must be a usize)");
    }
    match d {
        Ok((Some(sub), Some(exp))) => {
            if sub < i32::MIN as i64 || sub > i32::MAX as i64 {
                Err(AuthError::InvalidToken("the token names no user (`sub` must be an i32)".to_owned()))
            } else if exp > usize::MAX as u64 {
                Err(AuthError::InvalidToken("the token has no expiry (`exp` must be a usize)".to_owned()))
            } else {
                Ok(Claims { sub: sub as i32, exp: exp as usize })
            }
        },
        Ok((None, _)) => Err(AuthError::InvalidToken("the token names no user (`sub` must be an i32)".to_owned())),
        Ok((Some(_), None)) => Err(AuthError::InvalidToken("the token has no expiry (`exp` must be a usize)".to_owned())),
        Err(t) => Err(AuthError::InvalidToken(t)),
    }
}

/// The signed token of a session for `user_id` opened at `now` (seconds since
/// the epoch), valid for thirty days.
pub fn session_token(user_id: i32, now: i64, secret: &[u8]) -> (r: String)
    requires
        now <= i64::MAX - SESSION_SECONDS,
    ensures
        r@ == hs256_token(user_id, (now + SESSION_SECONDS) as usize, secret@),
{
    let c = Claims::for_session(user_id, now);
    match jwt_encode(c.sub, c.exp, secret) {
        Ok(t) => t,
        Err(e) => e,
    }
}

/// The answer to a registration or login of `user` at `now`: the user and a
/// session token for that user, valid for thirty days.
pub fn session_response(user: UserDto, now: i64, secret: &[u8]) -> (r: AuthResponse)
    requires
        now <= i64::MAX - SESSION_SECONDS,
    ensures
        r.token@ == hs256_token(user.id, (now + SESSION_SECONDS) as usize, secret@),
        r.user == user,
{
    let token = session_token(user.id, now, secret);
    AuthResponse { token, user }
}

/// What `session_claims` answers for the header text `h` (none when the
/// request has no `Authorization` header) under the key `secret`.
pub open spec fn session_claims_outcome(h: Option<Seq<char>>, secret: Seq<u8>, r: Result<Claims, AuthError>) -> bool {
    match h {
        None => r matches Err(AuthError::MissingAuthHeader),
        Some(h) => if h.len() >= 7 && h.take(7) == bearer_prefix() {
            &&& exists|d: Result<(Option<i64>, Option<u64>), String>| #![trigger claims_of_decoded(d, r)]
                claims_of_decoded(d, r) && (d matches Ok(v) ==> (forall|sub: i32, exp: usize|
                    #![trigger hs256_token(sub, exp, secret)]
                    h.skip(7) == hs256_token(sub, exp, secret) ==> v == (Some(sub as i64), Some(exp as u64))))
            &&& forall|sub: i32, exp: usize| #![trigger hs256_token(sub, exp, secret)]
                h.skip(7) == hs256_token(sub, exp, secret) && r is Ok
                    ==> (r matches Ok(c) && c.sub == sub && c.exp == exp)
        } else {
            r matches Err(AuthError::InvalidAuthHeader)
        },
    }
}

/// The claims of the session named by an `Authorization` header: refused as
/// missing or invalid like any bearer header; otherwise the token is decoded
/// (signature and expiry checked) and the result is what `claims_from_decoded`
/// makes of the decoder's outcome. A token made by `session_token` for a user
/// and expiry, when it passes, gives back exactly that user and expiry.
pub fn session_claims(header: Option<&str>, secret: &[u8]) -> (r: Result<Claims, AuthError>)
    ensures
        session_claims_outcome(match header { Some(h) => Some(h@), None => None }, secret@, r),
{
    let token = match bearer_token(header) {
        Ok(t) => t,
        Err(e) => {
            return Err(e);
        },
    };
    let d = jwt_decode(token.as_str(), secret);
    claims_from_decoded(d)
}

/// Law: a session token is read back as the session it was issued for. The
/// header `"Bearer "` followed by the token `session_token` issued for a user
/// and expiry, when `session_claims` accepts it under the same key, gives
/// back exactly that user and expiry.
pub proof fn lemma_session_token_read_back(user_id: i32, exp: usize, secret: Seq<u8>, r: Result<Claims, AuthError>)
    requires
        session_claims_outcome(Some(bearer_prefix() + hs256_token(user_id, exp, secret)), secret, r),
        r is Ok,
    ensures
        r matches Ok(c) && c.sub == user_id && c.exp == exp,
{
    let h = bearer_prefix() + hs256_token(user_id, exp, secret);
    assert(h.take(7) =~= bearer_prefix());
    assert(h.skip(7) =~= hs256_token(user_id, exp, secret));
}

/// The token of an `Authorization` header: refused when there is no header or
/// when it does not start with `"Bearer "`.
pub fn bearer_token(header: Option<&str>) -> (r: Result<String, AuthError>)
    ensures
        match header {
            None => r matches Err(AuthError::MissingAuthHeader),
            Some(h) => if h@.len() >= 7 && h@.take(7) == bearer_prefix() {
                r matches Ok(t) && t@ == h@.skip(7)
            } else {
                r matches Err(AuthError::InvalidAuthHeader)
            },
        },
{
    match header {
        None => Err(AuthError::MissingAuthHeader),
        Some(h) => {
            let v = chars_of(h);
            if v.len() >= 7 && v[0] == 'B' && v[1] == 'e' && v[2] == 'a' && v[3] == 'r' && v[4] == 'e'
                && v[5] == 'r' && v[6] == ' ' {
                assert(v@.take(7) =~= bearer_prefix());
                let mut out: Vec<char> = Vec::new();
                let mut i: usize = 7;
                while i < v.len()
                    invariant
                        7 <= i <= v@.len(),
                        out@ == v@.subrange(7, i as int),
                    decreases v@.len() - i,
                {
                    out.push(v[i]);
                    proof {
                        assert(v@.subrange(7, i + 1) =~= v@.subrange(7, i as int).push(v@[i as int]));
                    }
                    i += 1;
                }
                assert(out@ =~= h@.skip(7));
                Ok(crate::text::string_from_chars(out.as_slice()))
            } else {
                proof {
                    if v@.len() >= 7 && v@.take(7) == bearer_prefix() {
                        assert(v@.take(7)[0] == v@[0]);
                        assert(v@.take(7)[1] == v@[1]);
                        assert(v@.take(7)[2] == v@[2]);
                        assert(v@.take(7)[3] == v@[3]);
                        assert(v@.take(7)[4] == v@[4]);
                        assert(v@.take(7)[5] == v@[5]);
                        assert(v@.take(7)[6] == v@[6]);
                    }
                }
                Err(AuthError::InvalidAuthHeader)
            }
        },
    }
}

/// The text a bearer `Authorization` header starts with: `"Bearer "`.
pub open spec fn bearer_prefix() -> Seq<char> {
    seq!['B', 'e', 'a', 'r', 'e', 'r', ' ']
}


/// A user's membership in a group.
pub struct Membership {
    pub user_id: i32,
    pub group_id: i32,
}

/// The groups of user `uid` among the first `k` memberships, in order.
pub open spec fn groups_of(ms: Seq<Membership>, uid: i32, k: int) -> Seq<i32>
    decreases k,
{
    if k <= 0 || k > ms.len() {
        Seq::empty()
    } else if ms[k - 1].user_id == uid {
        groups_of(ms, uid, k - 1).push(ms[k - 1].group_id)
    } else {
        groups_of(ms, uid, k - 1)
    }
}

/// Whether a membership belongs to the user `uid`.
pub open spec fn membership_of(uid: i32) -> spec_fn(Membership) -> bool {
    |m: Membership| m.user_id == uid
}

proof fn lemma_groups_of_upto(ms: Seq<Membership>, uid: i32, k: int)
    requires
        0 <= k <= ms.len(),
    ensures
        groups_of(ms, uid, k) == ms.take(k).filter(membership_of(uid)).map_values(|m: Membership| m.group_id),
    decreases k,
{
    reveal(Seq::filter);
    if k == 0 {
        assert(ms.take(0) =~= Seq::<Membership>::empty());
        assert(ms.take(0).filter(membership_of(uid)).map_values(|m: Membership| m.group_id) =~= Seq::<i32>::empty());
    } else {
        lemma_groups_of_upto(ms, uid, k - 1);
        assert(ms.take(k).drop_last() =~= ms.take(k - 1));
        assert(ms.take(k).last() == ms[k - 1]);
        let before = ms.take(k - 1).filter(membership_of(uid));
        if ms[k - 1].user_id == uid {
            assert(ms.take(k).filter(membership_of(uid)) == before.push(ms[k - 1]));
            assert(before.push(ms[k - 1]).map_values(|m: Membership| m.group_id)
                =~= before.map_values(|m: Membership| m.group_id).push(ms[k - 1].group_id));
        } else {
            assert(ms.take(k).filter(membership_of(uid)) == before);
        }
    }
}

/// Law: a user's groups in the administration view are exactly the group ids
/// of the memberships that name that user, in membership order: every such
/// membership's group is listed, and every listed group comes from one.
pub proof fn lemma_user_groups_are_memberships(ms: Seq<Membership>, uid: i32)
    ensures
        groups_of(ms, uid, ms.len() as int) == ms.filter(membership_of(uid)).map_values(|m: Membership| m.group_id),
        forall|i: int| 0 <= i < ms.len() && #[trigger] ms[i].user_id == uid ==> groups_of(ms, uid, ms.len() as int).contains(ms[i].group_id),
        forall|x: i32| #[trigger] groups_of(ms, uid, ms.len() as int).contains(x)
            ==> exists|i: int| 0 <= i < ms.len() && #[trigger] ms[i].user_id == uid && ms[i].group_id == x,
{
    lemma_groups_of_upto(ms, uid, ms.len() as int);
    assert(ms.take(ms.len() as int) =~= ms);
    let f = ms.filter(membership_of(uid));
    let g = groups_of(ms, uid, ms.len() as int);
    assert forall|i: int| 0 <= i < ms.len() && #[trigger] ms[i].user_id == uid implies g.contains(ms[i].group_id) by {
        ms.lemma_filter_contains(membership_of(uid), i);
        let j = choose|j: int| 0 <= j < f.len() && f[j] == ms[i];
        assert(g[j] == ms[i].group_id);
    }
    assert forall|x: i32| #[trigger] g.contains(x) implies exists|i: int| 0 <= i < ms.len() && #[trigger] ms[i].user_id == uid && ms[i].group_id == x by {
        let j = choose|j: int| 0 <= j < g.len() && g[j] == x;
        assert(f.contains(f[j]));
        ms.lemma_filter_contains_rev(membership_of(uid), f[j]);
        ms.lemma_filter_pred(membership_of(uid), j);
        let i = choose|i: int| 0 <= i < ms.len() && ms[i] == f[j];
        assert(ms[i].user_id == uid && ms[i].group_id == x);
    }
}

/// The administration view of one stored user with the given groups.
pub open spec fn admin_view(u: UserRecord, groups: Seq<i32>, d: UserAdminDto) -> bool {
    d.id == u.id && d.email@ == u.username@ && d.is_admin == u.is_admin && d.is_deleted == u.is_deleted && d.groups@ == groups
}

/// The groups of user `uid`, in membership order.
fn groups_of_user(memberships: &Vec<Membership>, uid: i32) -> (r: Vec<i32>)
    ensures
        r@ == groups_of(memberships@, uid, memberships@.len() as int),
{
    let mut out: Vec<i32> = Vec::new();
    let mut i: usize = 0;
    while i < memberships.len()
        invariant
            i <= memberships@.len(),
            out@ == groups_of(memberships@, uid, i as int),
        decreases memberships@.len() - i,
    {
        if memberships[i].user_id == uid {
            out.push(memberships[i].group_id);
        }
        i += 1;
    }
    out
}

/// The users as the administration panel lists them: each with the groups it
/// is a member of.
pub fn admin_users(users: &Vec<UserRecord>, memberships: &Vec<Membership>) -> (r: Vec<UserAdminDto>)
    ensures
        r@.len() == users@.len(),
        forall|i: int| 0 <= i < users@.len() ==> admin_view(users@[i], groups_of(memberships@, users@[i].id, memberships@.len() as int), #[trigger] r@[i]),
{
    let mut out: Vec<UserAdminDto> = Vec::new();
    let mut i: usize = 0;
    while i < users.len()
        invariant
            i <= users@.len(),
            out@.len() == i,
            forall|k: int| 0 <= k < i ==> admin_view(users@[k], groups_of(memberships@, users@[k].id, memberships@.len() as int), #[trigger] out@[k]),
        decreases users@.len() - i,
    {
        let u = &users[i];
        let groups = groups_of_user(memberships, u.id);
        out.push(UserAdminDto { id: u.id, email: u.username.clone(), is_admin: u.is_admin, is_deleted: u.is_deleted, groups });
        i += 1;
    }
    out
}

impl UserRecord {
    /// Blocks an active user or unblocks a blocked one.
    pub fn toggle_blocked(&mut self)
        ensures
            final(self).is_deleted == !old(self).is_deleted,
            final(self).id == old(self).id,
            final(self).username == old(self).username,
            final(self).password_hash == old(self).password_hash,
            final(self).is_admin == old(self).is_admin,
    {
        self.is_deleted = !self.is_deleted;
    }

    /// The administration view of this user, without its groups.
    pub fn admin_dto(&self) -> (d: UserAdminDto)
        ensures
            admin_view(*self, Seq::empty(), d),
    {
        UserAdminDto { id: self.id, email: self.username.clone(), is_admin: self.is_admin, is_deleted: self.is_deleted, groups: Vec::new() }
    }
}

/// What starting the server does with its database.
#[derive(PartialEq, Eq, Structural, Clone, Copy, Debug)]
pub enum SchemaStep {
    /// Apply the pending migrations.
    Migrate,
    /// Refuse: the database has the tables but predates versioned migrations.
    RefuseCutover,
}

/// Decides, from which tables exist, whether the migrations can run: a
/// database with a user table but no migration table predates them.
pub fn schema_step(has_user_table: bool, has_migrations_table: bool) -> (r: SchemaStep)
    ensures
        r == (if has_user_table && !has_migrations_table { SchemaStep::RefuseCutover } else { SchemaStep::Migrate }),
{
    if has_user_table && !has_migrations_table { SchemaStep::RefuseCutover } else { SchemaStep::Migrate }
}

/// The development records to add (administrator group 1, user 1 `admin` with
/// the placeholder password, membership 1): each only when missing.
pub struct SeedPlan {
    pub admin_group: bool,
    pub admin_user: bool,
    pub membership: bool,
}

/// The plan for development records present as `(group, user, membership)`:
/// each missing one is to be added.
pub open spec fn seed_plan_for(present: (bool, bool, bool)) -> SeedPlan {
    SeedPlan { admin_group: !present.0, admin_user: !present.1, membership: !present.2 }
}

/// Which development records are present once the plan `p` is carried out.
pub open spec fn after_seeding(present: (bool, bool, bool), p: SeedPlan) -> (bool, bool, bool) {
    (present.0 || p.admin_group, present.1 || p.admin_user, present.2 || p.membership)
}

/// Law: seeding is idempotent. Once the planned records are added every
/// development record is present, and a second setup plans to add nothing.
pub proof fn lemma_seeding_is_idempotent(present: (bool, bool, bool))
    ensures
        after_seeding(present, seed_plan_for(present)) == (true, true, true),
        seed_plan_for(after_seeding(present, seed_plan_for(present)))
            == (SeedPlan { admin_group: false, admin_user: false, membership: false }),
{
}

/// Which development records are missing and to be added.
pub fn seed_plan(group_exists: bool, user_exists: bool, membership_exists: bool) -> (p: SeedPlan)
    ensures
        p == seed_plan_for((group_exists, user_exists, membership_exists)),
{
    SeedPlan { admin_group: !group_exists, admin_user: !user_exists, membership: !membership_exists }
}

/// The development administrator: user 1, `admin`, the placeholder hash.
pub fn seed_admin_user() -> (u: UserRecord)
    ensures
        u.id == 1,
        u.username@ == "admin"@,
        u.password_hash@ == placeholder_hash(),
        u.is_admin,
        !u.is_deleted,
{
    proof {
        reveal_strlit("hash");
        assert("hash"@ =~= placeholder_hash());
    }
    UserRecord { id: 1, username: "admin".to_owned(), password_hash: "hash".to_owned(), is_admin: true, is_deleted: false }
}

/// Law: the development administrator logs in with the password `admin`.
pub proof fn lemma_seed_admin_logs_in(u: UserRecord)
    requires
        u.password_hash@ == placeholder_hash(),
    ensures
        password_accepted(placeholder_password(), u.password_hash@),
{
}

} // verus!

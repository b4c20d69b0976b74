use rsahp::accounts::{
    admin_users, bearer_token, check_password, claims_from_decoded, has_credentials, login, login_outcome, new_account, schema_step,
    seed_admin_user, seed_plan, session_claims, session_response, session_token, AuthError, AuthPayload, Claims, HashError, Membership, UserDto,
    SchemaStep, UserRecord, SESSION_SECONDS,
};

fn payload(email: &str, password: &str) -> AuthPayload {
    AuthPayload { email: email.to_string(), password: password.to_string() }
}

fn stored(id: i32, hash: &str, deleted: bool) -> UserRecord {
    UserRecord {
        id,
        username: "user@example.com".to_string(),
        password_hash: hash.to_string(),
        is_admin: false,
        is_deleted: deleted,
    }
}

#[test]
fn registration_then_login_accepts_the_password() {
    let account = new_account(&payload("user@example.com", "password123"), false).expect("hashing works");
    assert_eq!(account.username, "user@example.com");
    assert!(!account.is_admin);
    assert!(!account.is_deleted);
    assert_eq!(account.password_hash.len(), 60);
    assert_ne!(account.password_hash, "password123");
    let rec = stored(5, &account.password_hash, false);
    let dto = login(Some(&rec), "password123").expect("login succeeds");
    assert_eq!(dto.id, 5);
    assert_eq!(dto.email, "user@example.com");
    assert!(!dto.is_admin);
}

#[test]
fn login_with_wrong_password_is_refused() {
    let account = new_account(&payload("a@b.c", "right"), false).unwrap();
    let rec = stored(1, &account.password_hash, false);
    assert!(matches!(login(Some(&rec), "wrong"), Err(AuthError::InvalidCredentials)));
}

#[test]
fn login_of_unknown_or_blocked_user_is_refused() {
    assert!(matches!(login(None, "x"), Err(AuthError::InvalidCredentials)));
    let rec = stored(1, "hash", true);
    assert!(matches!(login(Some(&rec), "admin"), Err(AuthError::AccountBlocked)));
}

#[test]
fn placeholder_hash_accepts_only_admin() {
    assert!(check_password("admin", "hash"));
    assert!(!check_password("Admin", "hash"));
    let admin = seed_admin_user();
    assert_eq!(admin.id, 1);
    assert_eq!(admin.username, "admin");
    assert!(admin.is_admin);
    let dto = login(Some(&admin), "admin").unwrap();
    assert_eq!(dto.email, "admin");
    assert!(dto.is_admin);
}

#[test]
fn malformed_hash_accepts_nothing() {
    assert!(!check_password("anything", "not-a-bcrypt-hash"));
}

#[test]
fn login_outcome_follows_the_rules() {
    let rec = stored(3, "x", false);
    assert!(matches!(login_outcome(Some(&rec), false), Err(AuthError::InvalidCredentials)));
    assert_eq!(login_outcome(Some(&rec), true).unwrap().id, 3);
}

#[test]
fn registration_refusals() {
    assert!(matches!(new_account(&payload("", "pw"), false), Err(AuthError::MissingCredentials)));
    assert!(matches!(new_account(&payload("a@b.c", ""), true), Err(AuthError::MissingCredentials)));
    assert!(matches!(new_account(&payload("a@b.c", "pw"), true), Err(AuthError::EmailTaken)));
    assert!(!has_credentials(&payload("", "")));
    assert!(has_credentials(&payload("a", "b")));
}

#[test]
fn auth_error_statuses() {
    assert_eq!(AuthError::MissingCredentials.status(), 400);
    assert_eq!(AuthError::EmailTaken.status(), 409);
    assert_eq!(AuthError::InvalidCredentials.status(), 401);
    assert_eq!(AuthError::AccountBlocked.status(), 403);
    assert_eq!(AuthError::MissingAuthHeader.status(), 401);
    assert_eq!(AuthError::InvalidAuthHeader.status(), 401);
}

#[test]
fn bearer_header_parsing() {
    assert_eq!(bearer_token(Some("Bearer abc.def")).unwrap(), "abc.def");
    assert_eq!(bearer_token(Some("Bearer ")).unwrap(), "");
    assert!(matches!(bearer_token(Some("Basic abc")), Err(AuthError::InvalidAuthHeader)));
    assert!(matches!(bearer_token(Some("bearer abc")), Err(AuthError::InvalidAuthHeader)));
    assert!(matches!(bearer_token(None), Err(AuthError::MissingAuthHeader)));
}

#[test]
fn session_claims_expire_after_thirty_days() {
    let c = Claims::for_session(9, 1_700_000_000);
    assert_eq!(c.sub, 9);
    assert_eq!(c.exp, 1_700_000_000 + 2_592_000);
}

#[test]
fn admin_users_attach_memberships() {
    let users = vec![stored(1, "h", false), stored(2, "h", true)];
    let ms = vec![
        Membership { user_id: 2, group_id: 7 },
        Membership { user_id: 1, group_id: 3 },
        Membership { user_id: 2, group_id: 4 },
    ];
    let list = admin_users(&users, &ms);
    assert_eq!(list.len(), 2);
    assert_eq!(list[0].groups, vec![3]);
    assert_eq!(list[1].groups, vec![7, 4]);
    assert!(list[1].is_deleted);
}

#[test]
fn toggling_block_flips_and_reports_without_groups() {
    let mut u = stored(4, "h", false);
    u.toggle_blocked();
    assert!(u.is_deleted);
    let d = u.admin_dto();
    assert_eq!(d.id, 4);
    assert!(d.is_deleted);
    assert!(d.groups.is_empty());
    u.toggle_blocked();
    assert!(!u.is_deleted);
}

#[test]
fn schema_cutover_and_seed() {
    assert_eq!(schema_step(true, false), SchemaStep::RefuseCutover);
    assert_eq!(schema_step(true, true), SchemaStep::Migrate);
    assert_eq!(schema_step(false, false), SchemaStep::Migrate);
    let p = seed_plan(true, false, true);
    assert!(!p.admin_group && p.admin_user && !p.membership);
}

#[test]
fn refusals_carry_their_status_and_text() {
    let cases = [
        (AuthError::MissingCredentials, 400, "Missing email or password"),
        (AuthError::EmailTaken, 409, "Email already taken"),
        (AuthError::InvalidCredentials, 401, "Invalid credentials"),
        (AuthError::AccountBlocked, 403, "Account blocked"),
        (AuthError::MissingAuthHeader, 401, "Missing Auth header"),
        (AuthError::InvalidAuthHeader, 401, "Invalid Auth header"),
    ];
    for (e, status, text) in cases {
        assert_eq!(e.status(), status);
        assert_eq!(e.message().as_deref(), Some(text));
    }
}

#[test]
fn stored_hashes_are_bcrypt_at_cost_four() {
    let account = new_account(&payload("c@d.e", "secret"), false).unwrap();
    assert!(account.password_hash.starts_with("$2b$04$"));
    assert_ne!(account.password_hash, "secret");
}

#[test]
fn session_tokens_carry_their_claims() {
    let now = std::time::SystemTime::now().duration_since(std::time::UNIX_EPOCH).unwrap().as_secs() as i64;
    let token = session_token(42, now, b"k1");
    assert_ne!(token, "42");
    assert_eq!(token.split('.').count(), 3);
    let header = format!("Bearer {}", token);
    let claims = session_claims(Some(&header), b"k1").expect("valid token");
    assert_eq!(claims.sub, 42);
    assert_eq!(claims.exp, (now + SESSION_SECONDS) as usize);
    match session_claims(Some(&header), b"other") {
        Err(e) => {
            assert_eq!(e.status(), 401);
            assert!(e.message().unwrap().starts_with("Invalid Token: "));
        }
        Ok(_) => panic!("a token signed with another key must be refused"),
    }
    assert!(matches!(session_claims(None, b"k1"), Err(AuthError::MissingAuthHeader)));
    assert!(matches!(session_claims(Some("Token x"), b"k1"), Err(AuthError::InvalidAuthHeader)));
    let stale = session_token(1, now - 40 * 24 * 3600, b"k1");
    assert!(matches!(session_claims(Some(&format!("Bearer {}", stale)), b"k1"), Err(AuthError::InvalidToken(_))));
}

#[test]
fn hashing_refusals_are_described() {
    let e = AuthError::Hashing(HashError::CostNotAllowed(0));
    assert_eq!(e.status(), 500);
    assert_eq!(e.message().as_deref(), Some("Cost needs to be between 4 and 31, got 0"));
}

#[test]
fn decoded_claims_are_checked_for_range() {
    let c = claims_from_decoded(Ok((Some(7), Some(1_800_000_000)))).expect("claims in range");
    assert_eq!((c.sub, c.exp), (7, 1_800_000_000));
    let too_big = i64::from(i32::MAX) + 1;
    match claims_from_decoded(Ok((Some(too_big), Some(1)))) {
        Err(AuthError::InvalidToken(m)) => assert_eq!(m, "the token names no user (`sub` must be an i32)"),
        other => panic!("unexpected {:?}", other.is_ok()),
    }
    match claims_from_decoded(Ok((None, Some(1)))) {
        Err(AuthError::InvalidToken(m)) => assert_eq!(m, "the token names no user (`sub` must be an i32)"),
        other => panic!("unexpected {:?}", other.is_ok()),
    }
    match claims_from_decoded(Ok((Some(1), None))) {
        Err(AuthError::InvalidToken(m)) => assert_eq!(m, "the token has no expiry (`exp` must be a usize)"),
        other => panic!("unexpected {:?}", other.is_ok()),
    }
    match claims_from_decoded(Err("ExpiredSignature".to_string())) {
        Err(e) => {
            assert_eq!(e.status(), 401);
            assert_eq!(e.message().as_deref(), Some("Invalid Token: ExpiredSignature"));
        }
        Ok(_) => panic!("a refused token must stay refused"),
    }
}

fn base64url_decode(s: &str) -> Vec<u8> {
    let alphabet = b"ABCDEFGHIJKLMNOPQRSTUVWXYZabcdefghijklmnopqrstuvwxyz0123456789-_";
    let mut bits: u32 = 0;
    let mut n: u32 = 0;
    let mut out = Vec::new();
    for b in s.bytes() {
        let v = alphabet.iter().position(|&a| a == b).expect("base64url character") as u32;
        bits = (bits << 6) | v;
        n += 6;
        if n >= 8 {
            n -= 8;
            out.push((bits >> n) as u8);
            bits &= (1 << n) - 1;
        }
    }
    out
}

#[test]
fn session_token_payload_lists_sub_then_exp() {
    let token = session_token(42, 1_700_000_000, b"k1");
    let parts: Vec<&str> = token.split('.').collect();
    assert_eq!(parts.len(), 3);
    let header = String::from_utf8(base64url_decode(parts[0])).unwrap();
    assert_eq!(header, r#"{"typ":"JWT","alg":"HS256"}"#);
    let payload = String::from_utf8(base64url_decode(parts[1])).unwrap();
    assert_eq!(payload, r#"{"sub":42,"exp":1702592000}"#);
}

#[test]
fn a_second_setup_seeds_nothing() {
    let first = seed_plan(false, true, false);
    assert!(first.admin_group && !first.admin_user && first.membership);
    let present = (false || first.admin_group, true || first.admin_user, false || first.membership);
    let second = seed_plan(present.0, present.1, present.2);
    assert!(!second.admin_group && !second.admin_user && !second.membership);
}

#[test]
fn a_login_answer_carries_a_token_for_its_user() {
    let now = std::time::SystemTime::now().duration_since(std::time::UNIX_EPOCH).unwrap().as_secs() as i64;
    let r = session_response(UserDto { id: 17, email: "test@example.com".to_string(), is_admin: false }, now, b"k1");
    assert_eq!(r.user.id, 17);
    assert_eq!(r.user.email, "test@example.com");
    let claims = session_claims(Some(&format!("Bearer {}", r.token)), b"k1").expect("fresh token");
    assert_eq!(claims.sub, 17);
    assert_eq!(claims.exp, (now + SESSION_SECONDS) as usize);
}

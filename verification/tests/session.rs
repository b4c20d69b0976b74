use rsahp::accounts::{AuthResponse, UserDto};
use rsahp::session::{api_root, auth_url, classify_auth_reply, reply_error, AuthReply, AuthState};

#[test]
fn auth_urls_leave_out_the_documents_part() {
    assert_eq!(auth_url("http://127.0.0.1:4002/api/documents", false), "http://127.0.0.1:4002/api/auth/login");
    assert_eq!(auth_url("http://127.0.0.1:4002/api/documents", true), "http://127.0.0.1:4002/api/auth/register");
    assert_eq!(api_root("http://h/api"), "http://h/api");
}

#[test]
fn replies_are_classified_by_status() {
    assert_eq!(classify_auth_reply(200, true), AuthReply::Parse);
    assert_eq!(classify_auth_reply(200, false), AuthReply::NoBody);
    assert_eq!(classify_auth_reply(401, true), AuthReply::BadCredentials);
    assert_eq!(classify_auth_reply(500, true), AuthReply::Status(500));
}

#[test]
fn a_sign_in_cycle() {
    let mut s = AuthState::default();
    assert!(s.jwt_token.is_none() && !s.is_registering);
    s.toggle_mode();
    assert!(s.is_registering);
    s.error_msg = Some("old".to_string());
    s.toggle_mode();
    assert!(!s.is_registering && s.error_msg.is_none());
    s.email_input = "a@b.c".to_string();
    s.password_input = "pw".to_string();
    let (url, payload) = s.begin_request("http://h/api/documents");
    assert_eq!(url, "http://h/api/auth/login");
    assert_eq!((payload.email.as_str(), payload.password.as_str()), ("a@b.c", "pw"));
    assert!(s.auth_request_in_progress);
    s.apply_reply(Err("Invalid username or password".to_string()));
    assert!(!s.auth_request_in_progress);
    assert_eq!(s.error_msg.as_deref(), Some("Invalid username or password"));
    let reply = AuthResponse { token: "tok".to_string(), user: UserDto { id: 3, email: "a@b.c".to_string(), is_admin: true } };
    s.apply_reply(Ok(reply));
    assert_eq!(s.jwt_token.as_deref(), Some("tok"));
    assert_eq!(s.logged_in_user_id, Some(3));
    assert!(s.is_admin && s.error_msg.is_none());
}

#[test]
fn replies_are_ignored_while_signed_in() {
    let mut s = AuthState::default();
    s.jwt_token = Some("old".to_string());
    s.logged_in_user_id = Some(1);
    s.auth_request_in_progress = true;
    let reply = AuthResponse { token: "new".to_string(), user: UserDto { id: 5, email: "e@x".to_string(), is_admin: true } };
    s.apply_reply(Ok(reply));
    assert_eq!(s.jwt_token.as_deref(), Some("old"));
    assert_eq!(s.logged_in_user_id, Some(1));
    assert!(s.auth_request_in_progress && !s.is_admin);
    s.apply_reply(Err("nope".to_string()));
    assert!(s.error_msg.is_none());
}

#[test]
fn refused_sign_ins_show_their_reason() {
    assert_eq!(reply_error(&AuthReply::Parse, Some("{}")), None);
    assert_eq!(reply_error(&AuthReply::NoBody, None).as_deref(), Some("No response body"));
    assert_eq!(reply_error(&AuthReply::BadCredentials, Some("x")).as_deref(), Some("Invalid username or password"));
    assert_eq!(reply_error(&AuthReply::Status(500), Some("boom")).as_deref(), Some("Error 500: Some(\"boom\")"));
    assert_eq!(reply_error(&AuthReply::Status(404), None).as_deref(), Some("Error 404: None"));
}

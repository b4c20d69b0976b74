//! The client's sign-in state: what the login dialog holds, where it sends a
//! request, and what a reply does to it.

use vstd::prelude::*;
use crate::accounts::{AuthPayload, AuthResponse};
use crate::text::{int_text, push_int, push_str, replace, replace_all, string_from_chars};

verus! {

broadcast use vstd::string::group_string_axioms;

/// The state of the sign-in dialog and of the signed-in user.
pub struct AuthState {
    pub email_input: String,
    pub password_input: String,
    pub is_registering: bool,
    pub error_msg: Option<String>,
    pub jwt_token: Option<String>,
    pub logged_in_email: Option<String>,
    pub logged_in_user_id: Option<i32>,
    pub is_admin: bool,
    pub auth_request_in_progress: bool,
}

impl Default for AuthState {
    /// Nobody signed in, empty inputs, login mode, no request running.
    fn default() -> (s: AuthState)
        ensures
            s.email_input@.len() == 0,
            s.password_input@.len() == 0,
            !s.is_registering,
            s.error_msg is None,
            s.jwt_token is None,
            s.logged_in_email is None,
            s.logged_in_user_id is None,
            !s.is_admin,
            !s.auth_request_in_progress,
    {
        AuthState {
            email_input: String::new(),
            password_input: String::new(),
            is_registering: false,
            error_msg: None,
            jwt_token: None,
            logged_in_email: None,
            logged_in_user_id: None,
            is_admin: false,
            auth_request_in_progress: false,
        }
    }
}

/// `"/documents"`, the part of the documents address that the other services leave out.
pub open spec fn documents_segment() -> Seq<char> {
    seq!['/', 'd', 'o', 'c', 'u', 'm', 'e', 'n', 't', 's']
}

/// The server's API root, from the documents address: every `"/documents"` removed.
pub fn api_root(api_base_url: &str) -> (r: String)
    ensures
        r@ == replace_all(api_base_url@, documents_segment(), Seq::empty()),
{
    proof {
        reveal_strlit("/documents");
        reveal_strlit("");
        assert("/documents"@ =~= documents_segment());
        assert(""@ =~= Seq::<char>::empty());
    }
    replace(api_base_url, "/documents", "")
}

/// The path of the sign-in service, for registering or for logging in.
pub open spec fn auth_path(registering: bool) -> Seq<char> {
    if registering {
        seq!['/', 'a', 'u', 't', 'h', '/', 'r', 'e', 'g', 'i', 's', 't', 'e', 'r']
    } else {
        seq!['/', 'a', 'u', 't', 'h', '/', 'l', 'o', 'g', 'i', 'n']
    }
}

/// Where a registration or a login is sent.
pub fn auth_url(api_base_url: &str, registering: bool) -> (r: String)
    ensures
        r@ == replace_all(api_base_url@, documents_segment(), Seq::empty()) + auth_path(registering),
{
    let root = api_root(api_base_url);
    let mut out: Vec<char> = Vec::new();
    push_str(&mut out, root.as_str());
    push_str(&mut out, "/auth");
    if registering {
        push_str(&mut out, "/register");
    } else {
        push_str(&mut out, "/login");
    }
    proof {
        reveal_strlit("/auth");
        reveal_strlit("/register");
        reveal_strlit("/login");
        assert(out@ =~= root@ + auth_path(registering));
    }
    string_from_chars(out.as_slice())
}

/// How the dialog reads the server's answer to a sign-in request.
#[derive(Debug, PartialEq, Eq)]
pub enum AuthReply {
    /// Success with a body, to be read as an `AuthResponse`.
    Parse,
    /// Success without a body.
    NoBody,
    /// The credentials were refused.
    BadCredentials,
    /// Any other status.
    Status(u16),
}

/// Sorts the server's answer by its status and whether it has a body.
pub fn classify_auth_reply(status: u16, has_body: bool) -> (r: AuthReply)
    ensures
        r == (if status == 200 {
            if has_body { AuthReply::Parse } else { AuthReply::NoBody }
        } else if status == 401 {
            AuthReply::BadCredentials
        } else {
            AuthReply::Status(status)
        }),
{
    if status == 200 {
        if has_body { AuthReply::Parse } else { AuthReply::NoBody }
    } else if status == 401 {
        AuthReply::BadCredentials
    } else {
        AuthReply::Status(status)
    }
}

/// The `Debug` form of an optional text, as `format!("{:?}", body)` writes it.
pub uninterp spec fn debug_text_option(body: Option<Seq<char>>) -> Seq<char>;

/// `format!("{:?}", body)`: `None` when there is no text; otherwise `Some(`,
/// the text in double quotes with quotes, backslashes and unprintable
/// characters escaped, and `)`. Only the first form is stated here.
#[verifier::external_body]
fn debug_of_body(body: Option<&str>) -> (r: String)
    ensures
        r@ == debug_text_option(match body { Some(t) => Some(t@), None => None }),
        body is None ==> r@ == "None"@,
{
    format!("{:?}", body)
}

/// What the sign-in dialog shows for an answer it cannot sign in with, given
/// the answer's body text; nothing for a successful answer with a body, which
/// is read as the signed-in user.
pub open spec fn reply_error_text(reply: AuthReply, body: Option<Seq<char>>) -> Option<Seq<char>> {
    match reply {
        AuthReply::Parse => None,
        AuthReply::NoBody => Some("No response body"@),
        AuthReply::BadCredentials => Some("Invalid username or password"@),
        AuthReply::Status(s) => Some("Error "@ + int_text(s as int) + ": "@ + debug_text_option(body)),
    }
}

/// The error the sign-in dialog shows for the answer `reply` with the body
/// `body`: "No response body", "Invalid username or password", or
/// "Error <status>: <body>" with the body written as `Debug` writes it;
/// `None` for a successful answer with a body.
pub fn reply_error(reply: &AuthReply, body: Option<&str>) -> (r: Option<String>)
    ensures
        r is None <==> *reply is Parse,
        r matches Some(t) ==> reply_error_text(*reply, match body { Some(b) => Some(b@), None => None }) == Some(t@),
{
    match reply {
        AuthReply::Parse => None,
        AuthReply::NoBody => Some("No response body".to_owned()),
        AuthReply::BadCredentials => Some("Invalid username or password".to_owned()),
        AuthReply::Status(s) => {
            let shown = debug_of_body(body);
            let mut out: Vec<char> = Vec::new();
            push_str(&mut out, "Error ");
            push_int(&mut out, *s as i64);
            push_str(&mut out, ": ");
            push_str(&mut out, shown.as_str());
            Some(string_from_chars(out.as_slice()))
        },
    }
}

impl AuthState {
    /// Switches between logging in and registering, clearing the error.
    pub fn toggle_mode(&mut self)
        ensures
            final(self).is_registering == !old(self).is_registering,
            final(self).error_msg is None,
            final(self).email_input == old(self).email_input,
            final(self).password_input == old(self).password_input,
            final(self).jwt_token == old(self).jwt_token,
            final(self).logged_in_email == old(self).logged_in_email,
            final(self).logged_in_user_id == old(self).logged_in_user_id,
            final(self).is_admin == old(self).is_admin,
            final(self).auth_request_in_progress == old(self).auth_request_in_progress,
    {
        self.is_registering = !self.is_registering;
        self.error_msg = None;
    }

    /// Starts a sign-in request: the address and body to send; the dialog waits
    /// for the answer from then on.
    pub fn begin_request(&mut self, api_base_url: &str) -> (r: (String, AuthPayload))
        ensures
            r.0@ == replace_all(api_base_url@, documents_segment(), Seq::empty()) + auth_path(old(self).is_registering),
            r.1.email@ == old(self).email_input@,
            r.1.password@ == old(self).password_input@,
            final(self).auth_request_in_progress,
            final(self).is_registering == old(self).is_registering,
            final(self).email_input == old(self).email_input,
            final(self).password_input == old(self).password_input,
            final(self).error_msg == old(self).error_msg,
            final(self).jwt_token == old(self).jwt_token,
            final(self).logged_in_email == old(self).logged_in_email,
            final(self).logged_in_user_id == old(self).logged_in_user_id,
            final(self).is_admin == old(self).is_admin,
    {
        let url = auth_url(api_base_url, self.is_registering);
        let payload = AuthPayload { email: self.email_input.clone(), password: self.password_input.clone() };
        self.auth_request_in_progress = true;
        (url, payload)
    }

    /// Takes in the answer to a sign-in request. While a user is signed in the
    /// dialog is not shown and the answer is left unread: nothing changes.
    /// Otherwise, on success the user is signed in and the error cleared; on
    /// failure the error is shown.
    pub fn apply_reply(&mut self, reply: Result<AuthResponse, String>)
        ensures
            old(self).jwt_token is Some ==> *final(self) == *old(self),
            old(self).jwt_token is None ==> {
                &&& !final(self).auth_request_in_progress
                &&& match reply {
                    Ok(a) => {
                        &&& final(self).jwt_token == Some(a.token)
                        &&& final(self).logged_in_email == Some(a.user.email)
                        &&& final(self).logged_in_user_id == Some(a.user.id)
                        &&& final(self).is_admin == a.user.is_admin
                        &&& final(self).error_msg is None
                    },
                    Err(e) => {
                        &&& final(self).error_msg == Some(e)
                        &&& final(self).jwt_token == old(self).jwt_token
                        &&& final(self).logged_in_email == old(self).logged_in_email
                        &&& final(self).logged_in_user_id == old(self).logged_in_user_id
                        &&& final(self).is_admin == old(self).is_admin
                    },
                }
                &&& *final(self) == (AuthState {
                    error_msg: final(self).error_msg,
                    jwt_token: final(self).jwt_token,
                    logged_in_email: final(self).logged_in_email,
                    logged_in_user_id: final(self).logged_in_user_id,
                    is_admin: final(self).is_admin,
                    auth_request_in_progress: false,
                    ..*old(self)
                })
            },
    {
        if self.jwt_token.is_some() {
            return;
        }
        self.auth_request_in_progress = false;
        match reply {
            Ok(a) => {
                self.jwt_token = Some(a.token);
                self.logged_in_email = Some(a.user.email);
                self.logged_in_user_id = Some(a.user.id);
                self.is_admin = a.user.is_admin;
                self.error_msg = None;
            },
            Err(e) => {
                self.error_msg = Some(e);
            },
        }
    }
}

} // verus!

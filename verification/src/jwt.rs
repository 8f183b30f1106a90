//! The authentication boundary's data: verified identity claims, the
//! structured authorization error, bearer-token extraction, and the agent
//! shared-key check.
use vstd::prelude::*;
use vstd::string::StrSliceExecFns;

verus! {

/// The verified identity injected into request context.
#[derive(Debug)]
pub struct AuthInfo {
    pub sub: String,
    pub client_id: Option<String>,
    pub organization_id: Option<String>,
    pub scopes: Vec<String>,
    pub audience: Vec<String>,
}

impl AuthInfo {
    pub fn new(
        sub: String,
        client_id: Option<String>,
        organization_id: Option<String>,
        scopes: Vec<String>,
        audience: Vec<String>,
    ) -> (r: AuthInfo)
        ensures
            r.sub == sub,
            r.client_id == client_id,
            r.organization_id == organization_id,
            r.scopes == scopes,
            r.audience == audience,
    {
        AuthInfo { sub, client_id, organization_id, scopes, audience }
    }
}

/// A structured authorization failure: a message and the HTTP status it
/// maps to.
#[derive(Debug)]
pub struct AuthorizationError {
    pub message: String,
    pub status_code: u16,
}

impl AuthorizationError {
    /// A forbidden-level error.
    pub fn new(message: String) -> (r: AuthorizationError)
        ensures
            r.message == message,
            r.status_code == 403,
    {
        AuthorizationError { message, status_code: 403 }
    }

    /// An error carried under a chosen status.
    pub fn with_status(message: String, status_code: u16) -> (r: AuthorizationError)
        ensures
            r.message == message,
            r.status_code == status_code,
    {
        AuthorizationError { message, status_code }
    }
}

/// The scheme prefix a bearer header must carry.
pub open spec fn bearer_prefix() -> Seq<char> {
    seq!['B', 'e', 'a', 'r', 'e', 'r', ' ']
}

pub open spec fn has_bearer_prefix(h: Seq<char>) -> bool {
    h.len() >= 7 && h.subrange(0, 7) == bearer_prefix()
}

/// Pulls the token out of an `Authorization: Bearer` header value: absent
/// headers and other schemes are refused with a 401-level error.
pub fn extract_bearer_token<'a>(authorization: Option<&'a str>) -> (r: Result<
    &'a str,
    AuthorizationError,
>)
    ensures
        match authorization {
            None => (r matches Err(e) && e.message@ == "Authorization header is missing"@
                && e.status_code == 401),
            Some(h) => {
                if has_bearer_prefix(h@) {
                    r matches Ok(t) && t@ == h@.subrange(7, h@.len() as int)
                } else {
                    (r matches Err(e) && e.message@
                        == "Authorization header must start with \"Bearer \""@ && e.status_code
                        == 401)
                }
            },
        },
{
    let h = match authorization {
        Some(h) => h,
        None => {
            return Err(
                AuthorizationError::with_status(
                    String::from_str("Authorization header is missing"),
                    401,
                ),
            );
        },
    };
    let n = h.unicode_len();
    let ok = n >= 7 && h.get_char(0) == 'B' && h.get_char(1) == 'e' && h.get_char(2) == 'a'
        && h.get_char(3) == 'r' && h.get_char(4) == 'e' && h.get_char(5) == 'r' && h.get_char(6)
        == ' ';
    if !ok {
        proof {
            if h@.len() >= 7 && h@.subrange(0, 7) == bearer_prefix() {
                assert(h@.subrange(0, 7)[0] == h@[0]);
                assert(h@.subrange(0, 7)[1] == h@[1]);
                assert(h@.subrange(0, 7)[2] == h@[2]);
                assert(h@.subrange(0, 7)[3] == h@[3]);
                assert(h@.subrange(0, 7)[4] == h@[4]);
                assert(h@.subrange(0, 7)[5] == h@[5]);
                assert(h@.subrange(0, 7)[6] == h@[6]);
            }
        }
        return Err(
            AuthorizationError::with_status(
                String::from_str("Authorization header must start with \"Bearer \""),
                401,
            ),
        );
    }
    proof {
        assert(h@.subrange(0, 7) =~= bearer_prefix());
    }
    Ok(h.substring_char(7, n))
}

/// Compares a presented secret with the configured one without an early
/// exit on the first differing character: every position is visited, so
/// how long the comparison takes does not depend on where the two differ,
/// only on their lengths.
fn constant_time_str_eq(a: &str, b: &str) -> (r: bool)
    ensures
        r <==> a@ == b@,
{
    let na = a.unicode_len();
    let nb = b.unicode_len();
    if na != nb {
        return false;
    }
    let mut acc: u8 = 0;
    let mut i: usize = 0;
    while i < na
        invariant
            na == a@.len(),
            na == b@.len(),
            i <= na,
            acc != 0 <==> exists|j: int| 0 <= j < i && #[trigger] a@[j] != b@[j],
        decreases na - i,
    {
        let unequal: u8 = if a.get_char(i) != b.get_char(i) {
            1
        } else {
            0
        };
        proof {
            assert((acc | unequal) == 0 <==> (acc == 0 && unequal == 0)) by (bit_vector);
            if unequal != 0 {
                assert(a@[i as int] != b@[i as int]);
            }
        }
        acc = acc | unequal;
        i += 1;
    }
    proof {
        if acc == 0 {
            assert(a@ =~= b@);
        }
    }
    acc == 0
}

/// Whether the presented `Authorization` header carries exactly the
/// configured agent key as a bearer token. The token is held against the
/// key in constant time per length, so a caller cannot time out where the
/// two strings first differ.
pub fn agent_key_matches(authorization: Option<&str>, agent_key: &str) -> (r: bool)
    ensures
        r <==> (authorization matches Some(h) && has_bearer_prefix(h@) && h@.subrange(
            7,
            h@.len() as int,
        ) == agent_key@),
{
    match extract_bearer_token(authorization) {
        Ok(token) => constant_time_str_eq(token, agent_key),
        Err(_) => false,
    }
}

/// Splits a scope claim on single spaces, as the scopes it grants.
pub fn split_scopes(s: &str) -> (r: Vec<String>)
    requires
        vstd::string::is_ascii(s),
    ensures
        r@.map_values(|x: String| x@) == crate::text::split_on(s@, ' '),
{
    let parts = crate::text::split_str(s, 32);
    let mut out: Vec<String> = Vec::new();
    let mut i: usize = 0;
    while i < parts.len()
        invariant
            i <= parts@.len(),
            parts@.map_values(|seg: Vec<u8>| crate::text::chars_of_bytes(seg@)) == crate::text::split_on(
                s@,
                ' ',
            ),
            forall|k: int| 0 <= k < parts@.len() ==> forall|j: int|
                0 <= j < (#[trigger] parts@[k])@.len() ==> (#[trigger] parts@[k]@[j]) < 128,
            out@.len() == i,
            forall|k: int|
                0 <= k < i ==> (#[trigger] out@[k])@ == crate::text::chars_of_bytes(parts@[k]@),
        decreases parts@.len() - i,
    {
        let ghost before = out@;
        let piece = crate::text::ascii_string(parts[i].clone());
        out.push(piece);
        i += 1;
    }
    proof {
        assert(out@.map_values(|x: String| x@) =~= parts@.map_values(
            |seg: Vec<u8>| crate::text::chars_of_bytes(seg@),
        ));
    }
    out
}

} // verus!

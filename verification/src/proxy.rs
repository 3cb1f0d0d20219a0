use vstd::prelude::*;
use vstd::string::{StrSliceExecFns, StringExecFns};
use vstd::utf8::encode_utf8;
use crate::Credentials;
use crate::oauth::{
    OAuthHeaders, header_value_parts, signature_chars, is_alphanumeric_char, create_signature,
    generate_nonce, random_alphanumeric, now_unix_seconds, opt_str_bytes, opt_str_chars,
};
use crate::params::params_bytes;
use crate::target::{
    is_absolute_uri, check_absolute_uri, base_url_of, extract_base_url, query_of, split_on,
    pairs_of, params_chars, extract_query_params,
};
use crate::text::{dec_digits, u64_to_decimal};

verus! {

/// Why a proxied request failed.
#[derive(Clone, Copy, PartialEq, Eq, Structural, Debug)]
pub enum ProxyError {
    /// The request target is not an absolute URI: the client's fault,
    /// answered with a client error and never forwarded.
    InvalidRequestTarget,
    /// The forward call to the origin failed: answered with a server
    /// error, never retried.
    UpstreamTransportError,
}

impl ProxyError {
    /// A short description of the error, for logging.
    pub fn message(&self) -> (r: &'static str)
        ensures
            *self is InvalidRequestTarget ==> r@ == "Require absolute url."@,
            *self is UpstreamTransportError ==> r@ == "Request to remote server failed."@,
    {
        match self {
            ProxyError::InvalidRequestTarget => "Require absolute url.",
            ProxyError::UpstreamTransportError => "Request to remote server failed.",
        }
    }
}

/// How one proxied request ends, seen from the proxy's side.
pub enum RequestEvent {
    /// The request target was not an absolute URI; nothing was sent
    /// upstream.
    BadTarget,
    /// The origin answered; its response is relayed verbatim.
    UpstreamResponse { status: u16, headers: Vec<(String, String)>, body: Vec<u8> },
    /// The forward call failed at the transport level.
    UpstreamFailure,
}

/// What is sent back to the client.
pub struct ClientResponse {
    pub status: u16,
    pub headers: Vec<(String, String)>,
    pub body: Vec<u8>,
}

/// The client response for each way a proxied request can end: an
/// upstream response is passed through with its status, header set and
/// body bytes unchanged; a request without an absolute target is a
/// client error; a failed forward is a server error.
pub fn respond_to(event: RequestEvent) -> (r: ClientResponse)
    ensures
        event matches RequestEvent::UpstreamResponse { status, headers, body } ==> r.status
            == status && r.headers@ == headers@ && r.body@ == body@,
        event is BadTarget ==> r.status == 400 && r.headers@.len() == 0 && r.body@.len() == 0,
        event is UpstreamFailure ==> r.status == 500 && r.headers@.len() == 0 && r.body@.len()
            == 0,
{
    match event {
        RequestEvent::UpstreamResponse { status, headers, body } => ClientResponse {
            status,
            headers,
            body,
        },
        RequestEvent::BadTarget => ClientResponse {
            status: 400,
            headers: Vec::new(),
            body: Vec::new(),
        },
        RequestEvent::UpstreamFailure => ClientResponse {
            status: 500,
            headers: Vec::new(),
            body: Vec::new(),
        },
    }
}

/// The credentials' token, when present.
pub open spec fn cred_token(c: Credentials) -> Option<Seq<char>> {
    match c.token {
        Some(t) => Some(t@),
        None => None,
    }
}

/// The credentials' token secret; absent means empty.
pub open spec fn cred_token_secret(c: Credentials) -> Seq<char> {
    match c.token_secret {
        Some(t) => t@,
        None => Seq::empty(),
    }
}

/// An optional string; absent means empty.
pub open spec fn opt_seq_chars(t: Option<Seq<char>>) -> Seq<char> {
    match t {
        Some(s) => s,
        None => Seq::empty(),
    }
}

/// The UTF-8 bytes of an optional string, kept optional.
pub open spec fn opt_seq_bytes(t: Option<Seq<char>>) -> Option<Seq<u8>> {
    match t {
        Some(s) => Some(encode_utf8(s)),
        None => None,
    }
}

/// Pairs of strings as pairs of their UTF-8 bytes.
pub open spec fn pairs_bytes(ps: Seq<(Seq<char>, Seq<char>)>) -> Seq<(Seq<u8>, Seq<u8>)> {
    ps.map_values(|p: (Seq<char>, Seq<char>)| (encode_utf8(p.0), encode_utf8(p.1)))
}

/// The query parameters a request target carries, as byte pairs.
pub open spec fn target_query_params(target: Seq<char>) -> Seq<(Seq<u8>, Seq<u8>)> {
    pairs_bytes(pairs_of(split_on(query_of(target), '&')))
}

/// The Authorization header value the proxy attaches to a request with
/// the given target, credentials, nonce and timestamp.
pub open spec fn request_header_value(
    method: Seq<char>,
    target: Seq<char>,
    consumer_key: Seq<char>,
    consumer_secret: Seq<char>,
    token: Option<Seq<char>>,
    token_secret: Seq<char>,
    nonce: Seq<char>,
    timestamp: Seq<char>,
) -> Seq<char> {
    header_value_parts(
        "1.0"@,
        consumer_key,
        opt_seq_chars(token),
        timestamp,
        nonce,
        "HMAC-SHA1"@,
        signature_chars(
            method,
            base_url_of(target),
            target_query_params(target),
            nonce,
            timestamp,
            consumer_key,
            consumer_secret,
            opt_seq_bytes(token),
            token_secret,
        ),
    )
}

/// Sign a request whose nonce and timestamp are already fixed: parse
/// the target, derive base URL and query parameters, and serialize the
/// header. A target that is not an absolute URI is rejected and
/// nothing else happens.
pub fn generate_oauth_header_with(
    method: &str,
    target: &str,
    credentials: &Credentials,
    nonce: &str,
    timestamp: &str,
) -> (r: Result<String, ProxyError>)
    ensures
        r is Ok <==> is_absolute_uri(target@),
        !is_absolute_uri(target@) ==> r == Err::<String, ProxyError>(
            ProxyError::InvalidRequestTarget,
        ),
        r matches Ok(h) ==> h@ == request_header_value(
            method@,
            target@,
            credentials.consumer_key@,
            credentials.consumer_secret@,
            cred_token(*credentials),
            cred_token_secret(*credentials),
            nonce@,
            timestamp@,
        ),
{
    if !check_absolute_uri(target) {
        return Err(ProxyError::InvalidRequestTarget);
    }
    let base_url = extract_base_url(target);
    let query_params = extract_query_params(target);
    let token_ref: Option<&str> = match &credentials.token {
        Some(t) => Some(t.as_str()),
        None => None,
    };
    let tsec_ref: Option<&str> = match &credentials.token_secret {
        Some(t) => Some(t.as_str()),
        None => None,
    };
    let signature = create_signature(
        method,
        base_url.as_str(),
        &query_params,
        nonce,
        timestamp,
        credentials.consumer_key.as_str(),
        credentials.consumer_secret.as_str(),
        token_ref,
        tsec_ref,
    );
    proof {
        assert(params_bytes(query_params@) =~= pairs_bytes(params_chars(query_params@)));
        assert(opt_str_bytes(token_ref) == opt_seq_bytes(cred_token(*credentials)));
        assert(opt_str_chars(tsec_ref) == cred_token_secret(*credentials));
    }
    let hdr = OAuthHeaders {
        oauth_version: String::from_str("1.0"),
        oauth_signature_method: String::from_str("HMAC-SHA1"),
        oauth_nonce: String::from_str(nonce),
        oauth_timestamp: String::from_str(timestamp),
        oauth_consumer_key: String::from_str(credentials.consumer_key.as_str()),
        oauth_signature: signature,
        oauth_token: match token_ref {
            Some(t) => Some(String::from_str(t)),
            None => None,
        },
    };
    let out = hdr.to_string();
    Ok(out)
}

/// A header value freshly signed for this target and these
/// credentials: serialized with some 16-character alphanumeric nonce
/// and some decimal timestamp.
pub open spec fn fresh_header_for(
    h: Seq<char>,
    method: Seq<char>,
    target: Seq<char>,
    consumer_key: Seq<char>,
    consumer_secret: Seq<char>,
    token: Option<Seq<char>>,
    token_secret: Seq<char>,
) -> bool {
    exists|nonce: Seq<char>, timestamp: Seq<char>|
        #![trigger request_header_value(method, target, consumer_key, consumer_secret, token, token_secret, nonce, timestamp)]
        nonce.len() == 16 && (forall|i: int|
            0 <= i < nonce.len() ==> is_alphanumeric_char(#[trigger] nonce[i])) && (exists|t: int|
            t >= 0 && timestamp == dec_digits(t)) && h == request_header_value(
            method,
            target,
            consumer_key,
            consumer_secret,
            token,
            token_secret,
            nonce,
            timestamp,
        )
}

/// Sign one proxied request: generate a fresh nonce and the current
/// timestamp, and serialize the Authorization header for its target.
/// A target that is not an absolute URI is rejected and nothing is
/// forwarded.
pub fn generate_oauth_header_for_request(
    method: &str,
    target: &str,
    credentials: &Credentials,
) -> (r: Result<String, ProxyError>)
    ensures
        r is Ok <==> is_absolute_uri(target@),
        !is_absolute_uri(target@) ==> r == Err::<String, ProxyError>(
            ProxyError::InvalidRequestTarget,
        ),
        r matches Ok(h) ==> fresh_header_for(
            h@,
            method@,
            target@,
            credentials.consumer_key@,
            credentials.consumer_secret@,
            cred_token(*credentials),
            cred_token_secret(*credentials),
        ),
{
    let nonce = generate_nonce();
    let clock = now_unix_seconds();
    let seconds: u64 = if clock < 0 {
        0
    } else {
        clock as u64
    };
    let timestamp = u64_to_decimal(seconds);
    let r = generate_oauth_header_with(method, target, credentials, nonce.as_str(), timestamp.as_str());
    proof {
        if r is Ok {
            assert(nonce@.len() == 16 && (forall|i: int|
                0 <= i < nonce@.len() ==> is_alphanumeric_char(#[trigger] nonce@[i])) && (exists|
                t: int,
            |
                t >= 0 && timestamp@ == dec_digits(t)) && r->Ok_0@ == request_header_value(
                method@,
                target@,
                credentials.consumer_key@,
                credentials.consumer_secret@,
                cred_token(*credentials),
                cred_token_secret(*credentials),
                nonce@,
                timestamp@,
            ));
        }
    }
    r
}

/// A fresh correlation id for one request's log lines: 20 random
/// alphanumeric characters, no protocol role.
pub fn create_correlation_id() -> (r: String)
    ensures
        r@.len() == 20,
        forall|i: int| 0 <= i < r@.len() ==> is_alphanumeric_char(#[trigger] r@[i]),
{
    random_alphanumeric(20)
}

} // verus!

use vstd::prelude::*;
use vstd::string::{StrSliceExecFns, StringExecFns};
use vstd::utf8::{encode_utf8, decode_utf8};
use crate::encoding::{pct_encode_bytes, pct_encode_str, percent_encode_bytes, url_encode};
use crate::params::{param_string, params_bytes, parameters_to_parameter_string};
use crate::text::{upper_str, ascii_uppercase, dec_digits, u64_to_decimal};

verus! {

/// What HMAC-SHA1 returns for a key and a message: a fixed function of
/// the two byte sequences, not spelled out here.
pub uninterp spec fn hmac_sha1_of(key: Seq<u8>, data: Seq<u8>) -> Seq<u8>;

/// Relies on `crypto::hmac::Hmac` over `crypto::sha1::Sha1`: computes
/// the HMAC-SHA1 of `data` under `key`; the digest is 20 bytes.
#[verifier::external_body]
fn hmac_sha1(key: &[u8], data: &[u8]) -> (r: Vec<u8>)
    ensures
        r@ == hmac_sha1_of(key@, data@),
        r@.len() == 20,
{
    let mut mac = crypto::hmac::Hmac::new(crypto::sha1::Sha1::new(), key);
    crypto::mac::Mac::input(&mut mac, data);
    let out = crypto::mac::Mac::result(&mut mac);
    out.code().to_vec()
}

/// What standard base64 encoding returns for a byte sequence.
pub uninterp spec fn base64_of(bytes: Seq<u8>) -> Seq<char>;

/// Relies on base64's `STANDARD` engine: RFC 4648 standard alphabet
/// with `=` padding, four output characters for every started block of
/// three input bytes.
#[verifier::external_body]
fn base64_encode(bytes: &[u8]) -> (r: String)
    ensures
        r@ == base64_of(bytes@),
        r@.len() == ((bytes@.len() + 2) / 3) * 4,
{
    base64::Engine::encode(&base64::engine::general_purpose::STANDARD, bytes)
}

/// An ASCII letter or digit.
pub open spec fn is_alphanumeric_char(c: char) -> bool {
    ('a' <= c && c <= 'z') || ('A' <= c && c <= 'Z') || ('0' <= c && c <= '9')
}

/// Relies on rand's `Alphanumeric` distribution with the thread RNG: a
/// fresh string of exactly `len` characters drawn uniformly from A-Z,
/// a-z and 0-9. Nothing relates two calls: every outcome is possible.
#[verifier::external_body]
pub(crate) fn random_alphanumeric(len: usize) -> (r: String)
    ensures
        r@.len() == len as int,
        forall|i: int| 0 <= i < r@.len() ==> is_alphanumeric_char(#[trigger] r@[i]),
{
    rand::distr::SampleString::sample_string(&rand::distr::Alphanumeric, &mut rand::rng(), len)
}

/// Relies on `time::OffsetDateTime::now_utc`: the current Unix time in
/// whole seconds. Nothing can be promised of the clock's value.
#[verifier::external_body]
pub(crate) fn now_unix_seconds() -> (r: i64) {
    time::OffsetDateTime::now_utc().unix_timestamp()
}

/// The view of an optional borrowed string; absent means empty.
pub open spec fn opt_str_chars(t: Option<&str>) -> Seq<char> {
    match t {
        Some(s) => s@,
        None => Seq::empty(),
    }
}

/// The UTF-8 bytes of an optional borrowed string, kept optional.
pub open spec fn opt_str_bytes(t: Option<&str>) -> Option<Seq<u8>> {
    match t {
        Some(s) => Some(encode_utf8(s@)),
        None => None,
    }
}

/// The view of an optional owned string; absent means empty.
pub open spec fn opt_string_chars(t: Option<String>) -> Seq<char> {
    match t {
        Some(s) => s@,
        None => Seq::empty(),
    }
}

/// The HMAC-SHA1 signing key: the percent-encoded consumer
/// secret and the percent-encoded token secret joined with `&`.
pub open spec fn signing_key(consumer_secret: Seq<u8>, token_secret: Seq<u8>) -> Seq<u8> {
    pct_encode_bytes(consumer_secret) + seq![0x26u8] + pct_encode_bytes(token_secret)
}

/// The full signed parameter set: the query parameters followed by the
/// protocol parameters; `oauth_token` joins only when a token is
/// present.
pub open spec fn signed_params(
    query: Seq<(Seq<u8>, Seq<u8>)>,
    nonce: Seq<u8>,
    consumer_key: Seq<u8>,
    timestamp: Seq<u8>,
    token: Option<Seq<u8>>,
) -> Seq<(Seq<u8>, Seq<u8>)> {
    let base = query.push((encode_utf8("oauth_nonce"@), nonce)).push(
        (encode_utf8("oauth_consumer_key"@), consumer_key),
    ).push((encode_utf8("oauth_timestamp"@), timestamp)).push(
        (encode_utf8("oauth_version"@), encode_utf8("1.0"@)),
    ).push((encode_utf8("oauth_signature_method"@), encode_utf8("HMAC-SHA1"@)));
    match token {
        Some(t) => base.push((encode_utf8("oauth_token"@), t)),
        None => base,
    }
}

/// The signature base string: uppercased method, encoded base
/// URL and encoded normalized parameter string, joined with `&`.
pub open spec fn base_string_chars(
    method: Seq<char>,
    base_url: Seq<char>,
    params: Seq<(Seq<u8>, Seq<u8>)>,
) -> Seq<char> {
    upper_str(method) + "&"@ + pct_encode_str(base_url) + "&"@ + pct_encode_str(
        decode_utf8(param_string(params)),
    )
}

/// The signature of a request: base64 of the
/// HMAC-SHA1 of the base string under the signing key.
pub open spec fn signature_chars(
    method: Seq<char>,
    base_url: Seq<char>,
    query: Seq<(Seq<u8>, Seq<u8>)>,
    nonce: Seq<char>,
    timestamp: Seq<char>,
    consumer_key: Seq<char>,
    consumer_secret: Seq<char>,
    token: Option<Seq<u8>>,
    token_secret: Seq<char>,
) -> Seq<char> {
    base64_of(
        hmac_sha1_of(
            signing_key(encode_utf8(consumer_secret), encode_utf8(token_secret)),
            encode_utf8(
                base_string_chars(
                    method,
                    base_url,
                    signed_params(
                        query,
                        encode_utf8(nonce),
                        encode_utf8(consumer_key),
                        encode_utf8(timestamp),
                        token,
                    ),
                ),
            ),
        ),
    )
}

/// Build the signature base string from the method, the base
/// URL (query already stripped) and the full request parameter list.
pub fn build_signature_base_string(
    method: &str,
    base_url: &str,
    request_parameters: &Vec<(String, String)>,
) -> (r: String)
    ensures
        r@ == base_string_chars(method@, base_url@, params_bytes(request_parameters@)),
{
    let upper_method = ascii_uppercase(method);
    let encoded_base_url = url_encode(base_url);
    let parameter_string = parameters_to_parameter_string(request_parameters);
    let encoded_parameter_string = url_encode(parameter_string.as_str());
    let mut r = upper_method;
    r.append("&");
    r.append(encoded_base_url.as_str());
    r.append("&");
    r.append(encoded_parameter_string.as_str());
    r
}

/// Compute the OAuth 1.0a HMAC-SHA1 signature for a request whose
/// nonce and timestamp are already fixed.
pub fn create_signature(
    method: &str,
    base_url: &str,
    query_parameters: &Vec<(String, String)>,
    oauth_nonce: &str,
    oauth_timestamp: &str,
    oauth_consumer_key: &str,
    oauth_consumer_secret: &str,
    oauth_token: Option<&str>,
    oauth_token_secret: Option<&str>,
) -> (r: String)
    ensures
        r@ == signature_chars(
            method@,
            base_url@,
            params_bytes(query_parameters@),
            oauth_nonce@,
            oauth_timestamp@,
            oauth_consumer_key@,
            oauth_consumer_secret@,
            opt_str_bytes(oauth_token),
            opt_str_chars(oauth_token_secret),
        ),
{
    let mut request_params: Vec<(String, String)> = Vec::new();
    let mut i: usize = 0;
    while i < query_parameters.len()
        invariant
            i <= query_parameters@.len(),
            request_params@ == query_parameters@.take(i as int),
        decreases query_parameters@.len() - i,
    {
        request_params.push((query_parameters[i].0.clone(), query_parameters[i].1.clone()));
        proof {
            assert(request_params@ =~= query_parameters@.take(i + 1));
        }
        i = i + 1;
    }
    proof {
        assert(query_parameters@.take(query_parameters@.len() as int) =~= query_parameters@);
    }
    let ghost q = params_bytes(query_parameters@);
    request_params.push((String::from_str("oauth_nonce"), String::from_str(oauth_nonce)));
    request_params.push((String::from_str("oauth_consumer_key"), String::from_str(oauth_consumer_key)));
    request_params.push((String::from_str("oauth_timestamp"), String::from_str(oauth_timestamp)));
    request_params.push((String::from_str("oauth_version"), String::from_str("1.0")));
    request_params.push((String::from_str("oauth_signature_method"), String::from_str("HMAC-SHA1")));
    if let Some(t) = oauth_token {
        request_params.push((String::from_str("oauth_token"), String::from_str(t)));
    }
    proof {
        assert(params_bytes(request_params@) =~= signed_params(
            q,
            encode_utf8(oauth_nonce@),
            encode_utf8(oauth_consumer_key@),
            encode_utf8(oauth_timestamp@),
            opt_str_bytes(oauth_token),
        ));
    }
    let base_string = build_signature_base_string(method, base_url, &request_params);
    let csb = oauth_consumer_secret.as_bytes_vec();
    let mut key = percent_encode_bytes(csb.as_slice());
    key.push(0x26);
    let ts: &str = match oauth_token_secret {
        Some(t) => t,
        None => "",
    };
    let tsb = ts.as_bytes_vec();
    let mut enc_ts = percent_encode_bytes(tsb.as_slice());
    key.append(&mut enc_ts);
    proof {
        if oauth_token_secret is None {
            reveal_strlit("");
            assert(""@ =~= Seq::<char>::empty());
        }
        assert(key@ =~= signing_key(
            encode_utf8(oauth_consumer_secret@),
            encode_utf8(opt_str_chars(oauth_token_secret)),
        ));
    }
    let digest = hmac_sha1(key.as_slice(), base_string.as_str().as_bytes());
    base64_encode(digest.as_slice())
}

/// A fresh random nonce: 16 alphanumeric characters, header-safe and
/// left unchanged by percent-encoding.
pub fn generate_nonce() -> (r: String)
    ensures
        r@.len() == 16,
        forall|i: int| 0 <= i < r@.len() ==> is_alphanumeric_char(#[trigger] r@[i]),
{
    random_alphanumeric(16)
}

/// The Authorization header fields of one signed request.
pub struct OAuthHeaders {
    pub oauth_version: String,
    pub oauth_signature_method: String,
    pub oauth_nonce: String,
    pub oauth_timestamp: String,
    pub oauth_consumer_key: String,
    pub oauth_signature: String,
    pub oauth_token: Option<String>,
}

/// The serialized header value, field by field: fixed field order,
/// every field value percent-encoded and wrapped in double quotes.
pub open spec fn header_value_parts(
    version: Seq<char>,
    consumer_key: Seq<char>,
    token: Seq<char>,
    timestamp: Seq<char>,
    nonce: Seq<char>,
    signature_method: Seq<char>,
    signature: Seq<char>,
) -> Seq<char> {
    "OAuth oauth_version=\""@ + pct_encode_str(version) + "\",oauth_consumer_key=\""@
        + pct_encode_str(consumer_key) + "\",oauth_token=\""@ + pct_encode_str(token)
        + "\",oauth_timestamp=\""@ + pct_encode_str(timestamp) + "\",oauth_nonce=\""@
        + pct_encode_str(nonce) + "\",oauth_signature_method=\""@ + pct_encode_str(
        signature_method,
    ) + "\",oauth_signature=\""@ + pct_encode_str(signature) + "\""@
}

/// The serialized Authorization header value; a missing token is an empty
/// quoted string.
pub open spec fn header_value(h: OAuthHeaders) -> Seq<char> {
    header_value_parts(
        h.oauth_version@,
        h.oauth_consumer_key@,
        opt_string_chars(h.oauth_token),
        h.oauth_timestamp@,
        h.oauth_nonce@,
        h.oauth_signature_method@,
        h.oauth_signature@,
    )
}

impl OAuthHeaders {
    /// Serialize the fields to the single Authorization header value.
    pub fn to_string(&self) -> (r: String)
        ensures
            r@ == header_value(*self),
    {
        let mut r = String::from_str("OAuth oauth_version=\"");
        let v = url_encode(self.oauth_version.as_str());
        r.append(v.as_str());
        r.append("\",oauth_consumer_key=\"");
        let ck = url_encode(self.oauth_consumer_key.as_str());
        r.append(ck.as_str());
        r.append("\",oauth_token=\"");
        let tok = match &self.oauth_token {
            Some(t) => url_encode(t.as_str()),
            None => url_encode(""),
        };
        proof {
            if self.oauth_token is None {
                reveal_strlit("");
                assert(""@ =~= Seq::<char>::empty());
            }
        }
        r.append(tok.as_str());
        r.append("\",oauth_timestamp=\"");
        let ts = url_encode(self.oauth_timestamp.as_str());
        r.append(ts.as_str());
        r.append("\",oauth_nonce=\"");
        let n = url_encode(self.oauth_nonce.as_str());
        r.append(n.as_str());
        r.append("\",oauth_signature_method=\"");
        let sm = url_encode(self.oauth_signature_method.as_str());
        r.append(sm.as_str());
        r.append("\",oauth_signature=\"");
        let sig = url_encode(self.oauth_signature.as_str());
        r.append(sig.as_str());
        r.append("\"");
        proof {
            assert(r@ =~= header_value(*self));
        }
        r
    }
}

/// Sign one request: generate a fresh nonce and the current timestamp,
/// compute the signature over the query parameters and the protocol
/// parameters, and return the complete header field set.
pub fn create_auth_header(
    method: &str,
    base_url: &str,
    query_parameters: &Vec<(String, String)>,
    oauth_consumer_key: &str,
    oauth_consumer_secret: &str,
    oauth_token: Option<&str>,
    oauth_token_secret: Option<&str>,
) -> (r: OAuthHeaders)
    ensures
        r.oauth_version@ == "1.0"@,
        r.oauth_signature_method@ == "HMAC-SHA1"@,
        r.oauth_consumer_key@ == oauth_consumer_key@,
        r.oauth_token matches Some(t) ==> oauth_token matches Some(u) && t@ == u@,
        r.oauth_token is None <==> oauth_token is None,
        r.oauth_nonce@.len() == 16,
        forall|i: int|
            0 <= i < r.oauth_nonce@.len() ==> is_alphanumeric_char(#[trigger] r.oauth_nonce@[i]),
        exists|t: int| t >= 0 && r.oauth_timestamp@ == dec_digits(t),
        r.oauth_signature@ == signature_chars(
            method@,
            base_url@,
            params_bytes(query_parameters@),
            r.oauth_nonce@,
            r.oauth_timestamp@,
            oauth_consumer_key@,
            oauth_consumer_secret@,
            opt_str_bytes(oauth_token),
            opt_str_chars(oauth_token_secret),
        ),
{
    let oauth_nonce = generate_nonce();
    let clock = now_unix_seconds();
    let seconds: u64 = if clock < 0 {
        0
    } else {
        clock as u64
    };
    let oauth_timestamp = u64_to_decimal(seconds);
    proof {
        assert(seconds as int >= 0 && oauth_timestamp@ == dec_digits(seconds as int));
    }
    let signature = create_signature(
        method,
        base_url,
        query_parameters,
        oauth_nonce.as_str(),
        oauth_timestamp.as_str(),
        oauth_consumer_key,
        oauth_consumer_secret,
        oauth_token,
        oauth_token_secret,
    );
    let token_copy: Option<String> = match oauth_token {
        Some(t) => Some(String::from_str(t)),
        None => None,
    };
    OAuthHeaders {
        oauth_version: String::from_str("1.0"),
        oauth_signature_method: String::from_str("HMAC-SHA1"),
        oauth_nonce,
        oauth_timestamp,
        oauth_consumer_key: String::from_str(oauth_consumer_key),
        oauth_signature: signature,
        oauth_token: token_copy,
    }
}

} // verus!

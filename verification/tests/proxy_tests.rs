use oauth_proxy::Credentials;
use oauth_proxy::encoding::url_encode;
use oauth_proxy::oauth::generate_nonce;
use oauth_proxy::proxy::{
    generate_oauth_header_with, generate_oauth_header_for_request, respond_to, RequestEvent,
    ProxyError, create_correlation_id,
};
use oauth_proxy::target::{check_absolute_uri, extract_base_url, extract_query_params};
use oauth_proxy::text::u64_to_decimal;
use std::collections::HashSet;

fn test_credentials() -> Credentials {
    Credentials {
        consumer_key: "dpf43f3p2l4k3l03".to_string(),
        consumer_secret: "kd94hf93k423kf44".to_string(),
        token: Some("nnch734d00sl2jdk".to_string()),
        token_secret: Some("pfkkdhi9sl3r4s00".to_string()),
    }
}

#[test]
fn test_extract_query_params() {
    let query_params = extract_query_params("http://is24.de/test?a=a&b=c");
    assert_eq!(
        vec![("a".to_string(), "a".to_string()), ("b".to_string(), "c".to_string())],
        query_params
    )
}

#[test]
fn test_extract_base_url() {
    let base_url = extract_base_url("http://is24.de/test?a=a&b=b");
    assert_eq!("http://is24.de/test", base_url)
}

#[test]
fn url_encoding_uses_percent_twenty_for_space() {
    assert_eq!(url_encode("hello world"), "hello%20world");
    assert!(!url_encode("a b c").contains('+'));
}

#[test]
fn url_encoding_leaves_unreserved_characters_alone() {
    let safe = "AZaz09-._~";
    let once = url_encode(safe);
    assert_eq!(once, safe);
    let twice = url_encode(&once);
    assert_eq!(twice, once);
}

#[test]
fn url_encoding_uses_uppercase_hex() {
    assert_eq!(url_encode("/"), "%2F");
    assert_eq!(url_encode("="), "%3D");
    assert_eq!(url_encode("\u{e9}"), "%C3%A9");
}

#[test]
fn absolute_uri_targets_are_recognized() {
    assert!(check_absolute_uri("http://example.com/path"));
    assert!(check_absolute_uri("https://h/"));
    assert!(!check_absolute_uri("/relative/path"));
    assert!(!check_absolute_uri("example.com/no/scheme"));
    assert!(!check_absolute_uri(""));
}

#[test]
fn query_decoding_unescapes_plus_and_percent() {
    let params = extract_query_params("http://h/p?a=%C3%A9&b=x+y&c");
    assert_eq!(
        params,
        vec![
            ("a".to_string(), "\u{e9}".to_string()),
            ("b".to_string(), "x y".to_string()),
            ("c".to_string(), "".to_string()),
        ]
    );
}

#[test]
fn query_decoding_keeps_duplicates_and_order() {
    let params = extract_query_params("http://h/p?a=1&a=2&b=3");
    assert_eq!(
        params,
        vec![
            ("a".to_string(), "1".to_string()),
            ("a".to_string(), "2".to_string()),
            ("b".to_string(), "3".to_string()),
        ]
    );
}

#[test]
fn non_absolute_target_is_rejected_without_forwarding() {
    let credentials = test_credentials();
    let result = generate_oauth_header_for_request("GET", "/relative", &credentials);
    assert_eq!(result, Err(ProxyError::InvalidRequestTarget));
}

#[test]
fn absolute_target_yields_an_oauth_header() {
    let credentials = test_credentials();
    let result = generate_oauth_header_for_request("get", "http://example.com/a?b=c", &credentials);
    let header = result.expect("absolute target must be signed");
    assert!(header.starts_with("OAuth oauth_version=\"1.0\""));
    assert!(header.contains("oauth_signature=\""));
}

#[test]
fn signing_with_fixed_nonce_and_timestamp_reproduces_known_header() {
    let credentials = test_credentials();
    let result = generate_oauth_header_with(
        "POST",
        "http://photos.example.net/photos?file=vacation.jpg&size=original",
        &credentials,
        "kllo9940pd9333jh",
        "1191242096",
    );
    let expected = "OAuth oauth_version=\"1.0\",oauth_consumer_key=\"dpf43f3p2l4k3l03\",\
                    oauth_token=\"nnch734d00sl2jdk\",oauth_timestamp=\"1191242096\",\
                    oauth_nonce=\"kllo9940pd9333jh\",oauth_signature_method=\"HMAC-SHA1\",\
                    oauth_signature=\"wPkvxykrw%2BBTdCcGqKr%2B3I%2BPsiM%3D\"";
    assert_eq!(result, Ok(expected.to_string()));
}

#[test]
fn upstream_responses_are_relayed_verbatim() {
    let headers = vec![
        ("Content-Type".to_string(), "text/plain".to_string()),
        ("X-Custom".to_string(), "value".to_string()),
    ];
    let body = vec![1u8, 2, 3, 0, 255];
    let response = respond_to(RequestEvent::UpstreamResponse {
        status: 418,
        headers: headers.clone(),
        body: body.clone(),
    });
    assert_eq!(response.status, 418);
    assert_eq!(response.headers, headers);
    assert_eq!(response.body, body);
}

#[test]
fn bad_target_maps_to_client_error() {
    let response = respond_to(RequestEvent::BadTarget);
    assert_eq!(response.status, 400);
}

#[test]
fn upstream_failure_maps_to_server_error() {
    let response = respond_to(RequestEvent::UpstreamFailure);
    assert_eq!(response.status, 500);
    assert!(response.headers.is_empty());
    assert!(response.body.is_empty());
}

#[test]
fn nonce_is_sixteen_alphanumeric_characters() {
    let nonce = generate_nonce();
    assert_eq!(nonce.len(), 16);
    assert!(nonce.chars().all(|c| c.is_ascii_alphanumeric()));
}

#[test]
fn nonces_do_not_repeat_over_ten_thousand_calls() {
    let mut seen = HashSet::new();
    for _ in 0..10_000 {
        assert!(seen.insert(generate_nonce()));
    }
}

#[test]
fn correlation_id_is_twenty_characters() {
    let id = create_correlation_id();
    assert_eq!(id.len(), 20);
    assert!(id.chars().all(|c| c.is_ascii_alphanumeric()));
}

#[test]
fn auth_header_carries_request_credentials() {
    let parameters = vec![("file".to_string(), "vacation.jpg".to_string())];
    let headers = oauth_proxy::oauth::create_auth_header(
        "post",
        "http://photos.example.net/photos",
        &parameters,
        "dpf43f3p2l4k3l03",
        "kd94hf93k423kf44",
        Some("nnch734d00sl2jdk"),
        Some("pfkkdhi9sl3r4s00"),
    );
    assert_eq!(headers.oauth_version, "1.0");
    assert_eq!(headers.oauth_signature_method, "HMAC-SHA1");
    assert_eq!(headers.oauth_consumer_key, "dpf43f3p2l4k3l03");
    assert_eq!(headers.oauth_token.as_deref(), Some("nnch734d00sl2jdk"));
    assert_eq!(headers.oauth_nonce.len(), 16);
    assert!(headers.oauth_timestamp.chars().all(|c| c.is_ascii_digit()));
    assert!(!headers.oauth_signature.is_empty());
    assert!(headers.to_string().starts_with("OAuth oauth_version=\"1.0\""));
}

#[test]
fn error_messages_name_the_failure() {
    assert_eq!(ProxyError::InvalidRequestTarget.message(), "Require absolute url.");
    assert_eq!(ProxyError::UpstreamTransportError.message(), "Request to remote server failed.");
}

#[test]
fn decimal_formatting_is_exact() {
    assert_eq!(u64_to_decimal(0), "0");
    assert_eq!(u64_to_decimal(7), "7");
    assert_eq!(u64_to_decimal(10), "10");
    assert_eq!(u64_to_decimal(1191242096), "1191242096");
    assert_eq!(u64_to_decimal(u64::MAX), "18446744073709551615");
}

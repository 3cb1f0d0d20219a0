use oauth_proxy::oauth::{create_signature, build_signature_base_string, OAuthHeaders};
use oauth_proxy::params::{encode_parameters, parameters_to_parameter_string};

fn owned(pairs: Vec<(&str, &str)>) -> Vec<(String, String)> {
    pairs.iter().map(|p| (p.0.to_string(), p.1.to_string())).collect()
}

#[test]
fn build_a_signature_base_string() {
    let base_url = "http://example.com/request";
    let request_parameters =
        owned(vec![("b5", "=%3D"), ("a3", "a"), ("c@", ""), ("a2", "r b"), ("c2", ""), ("a3", "2 q")]);

    let expected_signature_base_string =
        String::new() + "GET&" + "http%3A%2F%2Fexample.com%2Frequest" + "&a2%3Dr%2520b%26"
            + "a3%3D2%2520q%26" + "a3%3Da%26" + "b5%3D%253D%25253D%26" + "c%2540%3D%26" + "c2%3D";

    let signature = build_signature_base_string("GET", base_url, &request_parameters);
    assert_eq!(signature, expected_signature_base_string);
}

#[test]
fn should_format_an_oauth_header() {
    let oauth_headers = OAuthHeaders {
        oauth_version: "1.0".to_string(),
        oauth_signature_method: "HMAC-SHA1".to_string(),
        oauth_nonce: "kllo9940pd9333jh".to_string(),
        oauth_timestamp: "1191242096".to_string(),
        oauth_consumer_key: "dpf43f3p2l4k3l03".to_string(),
        oauth_signature: "wPkvxykrw+BTdCcGqKr+3I+PsiM=".to_string(),
        oauth_token: Some("nnch734d00sl2jdk".to_string()),
    };
    let expected_header = "OAuth oauth_version=\"1.0\",oauth_consumer_key=\"dpf43f3p2l4k3l03\",\
                           oauth_token=\"nnch734d00sl2jdk\",oauth_timestamp=\"1191242096\",\
                           oauth_nonce=\"kllo9940pd9333jh\",oauth_signature_method=\"HMAC-SHA1\",\
                           oauth_signature=\"wPkvxykrw%2BBTdCcGqKr%2B3I%2BPsiM%3D\"";
    assert_eq!(expected_header, oauth_headers.to_string());
}

#[test]
fn should_build_correct_signature() {
    let method = "POST";
    let base_url = "http://photos.example.net/photos";
    let parameters = owned(vec![("file", "vacation.jpg"), ("size", "original")]);

    let oauth_headers = OAuthHeaders {
        oauth_version: "1.0".to_string(),
        oauth_signature_method: "HMAC-SHA1".to_string(),
        oauth_nonce: "kllo9940pd9333jh".to_string(),
        oauth_timestamp: "1191242096".to_string(),
        oauth_consumer_key: "dpf43f3p2l4k3l03".to_string(),
        oauth_signature: "wPkvxykrw+BTdCcGqKr+3I+PsiM=".to_string(),
        oauth_token: Some("nnch734d00sl2jdk".to_string()),
    };

    let base_string = build_signature_base_string(method, base_url, &parameters);
    assert_eq!(
        base_string,
        "POST&http%3A%2F%2Fphotos.example.net%2Fphotos&file%3Dvacation.\
         jpg%26size%3Doriginal"
    );

    let signature = create_signature(
        method,
        base_url,
        &parameters,
        &oauth_headers.oauth_nonce,
        &oauth_headers.oauth_timestamp,
        &oauth_headers.oauth_consumer_key,
        "kd94hf93k423kf44",
        oauth_headers.oauth_token.as_deref(),
        Some("pfkkdhi9sl3r4s00"),
    );
    assert_eq!(signature, oauth_headers.oauth_signature)
}

#[test]
fn normalizes_parameters_in_sorted_encoded_order() {
    let parameters =
        owned(vec![("b5", "=%3D"), ("a3", "a"), ("c@", ""), ("a2", "r b"), ("c2", ""), ("a3", "2 q")]);
    let normalized = parameters_to_parameter_string(&parameters);
    assert_eq!(normalized, "a2=r%20b&a3=2%20q&a3=a&b5=%3D%253D&c%40=&c2=");
}

#[test]
fn normalization_is_order_independent() {
    let one = owned(vec![("b5", "=%3D"), ("a3", "a"), ("c@", ""), ("a2", "r b"), ("c2", ""), ("a3", "2 q")]);
    let two = owned(vec![("a3", "2 q"), ("c2", ""), ("a2", "r b"), ("c@", ""), ("a3", "a"), ("b5", "=%3D")]);
    assert_eq!(parameters_to_parameter_string(&one), parameters_to_parameter_string(&two));
}

#[test]
fn normalization_of_empty_list_is_empty() {
    let parameters: Vec<(String, String)> = Vec::new();
    assert_eq!(parameters_to_parameter_string(&parameters), "");
}

#[test]
fn signature_without_token_omits_token_parameter() {
    // With no token, `oauth_token` must stay out of the signed set: the
    // signature equals one computed over the five protocol parameters.
    let parameters = owned(vec![("file", "vacation.jpg")]);
    let with_none = create_signature(
        "GET",
        "http://photos.example.net/photos",
        &parameters,
        "kllo9940pd9333jh",
        "1191242096",
        "dpf43f3p2l4k3l03",
        "kd94hf93k423kf44",
        None,
        None,
    );
    let with_token = create_signature(
        "GET",
        "http://photos.example.net/photos",
        &parameters,
        "kllo9940pd9333jh",
        "1191242096",
        "dpf43f3p2l4k3l03",
        "kd94hf93k423kf44",
        Some("nnch734d00sl2jdk"),
        None,
    );
    assert_ne!(with_none, with_token);
}

#[test]
fn encode_parameters_encodes_keys_and_values_independently() {
    let parameters = owned(vec![("a b", "=x"), ("c@", "r b")]);
    let encoded = encode_parameters(&parameters);
    assert_eq!(encoded, owned(vec![("a%20b", "%3Dx"), ("c%40", "r%20b")]));
}

#[test]
fn header_with_no_token_has_empty_token_field() {
    let oauth_headers = OAuthHeaders {
        oauth_version: "1.0".to_string(),
        oauth_signature_method: "HMAC-SHA1".to_string(),
        oauth_nonce: "abcdef".to_string(),
        oauth_timestamp: "1".to_string(),
        oauth_consumer_key: "ck".to_string(),
        oauth_signature: "sig".to_string(),
        oauth_token: None,
    };
    let header = oauth_headers.to_string();
    assert!(header.contains("oauth_token=\"\""));
}

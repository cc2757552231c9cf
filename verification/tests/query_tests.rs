use krrr::launch::{response_body, LaunchOutcome};
use krrr::query::{decode_component, parse_query, QueryError};

#[test]
fn full_query_is_accepted() {
    let req = parse_query("client=myhost&user=alice&path=/home/alice/project").unwrap();
    assert_eq!(req.client, "myhost");
    assert_eq!(req.user, "alice");
    assert_eq!(req.path, "/home/alice/project");
}

#[test]
fn parameter_order_does_not_matter() {
    let req = parse_query("path=/tmp&client=h&user=u").unwrap();
    assert_eq!(req.client, "h");
    assert_eq!(req.user, "u");
    assert_eq!(req.path, "/tmp");
}

#[test]
fn missing_path_is_rejected_before_any_launch() {
    assert_eq!(parse_query("client=myhost&user=alice"), Err(QueryError::MissingParam));
}

#[test]
fn missing_client_or_user_is_rejected() {
    assert_eq!(parse_query("user=alice&path=/p"), Err(QueryError::MissingParam));
    assert_eq!(parse_query("client=h&path=/p"), Err(QueryError::MissingParam));
    assert_eq!(parse_query(""), Err(QueryError::MissingParam));
}

#[test]
fn duplicate_parameter_is_rejected() {
    assert_eq!(
        parse_query("client=a&client=b&user=u&path=/p"),
        Err(QueryError::DuplicateParam)
    );
}

#[test]
fn unknown_parameters_are_ignored() {
    let req = parse_query("client=h&user=u&path=/p&extra=1&flag").unwrap();
    assert_eq!(req.client, "h");
    assert_eq!(req.path, "/p");
}

#[test]
fn values_are_form_decoded() {
    let req = parse_query("client=my%2Dhost&user=a+b&path=%2Fhome%2Fa%20b").unwrap();
    assert_eq!(req.client, "my-host");
    assert_eq!(req.user, "a b");
    assert_eq!(req.path, "/home/a b");
}

#[test]
fn keys_are_form_decoded_too() {
    let req = parse_query("%63lient=h&user=u&path=/p").unwrap();
    assert_eq!(req.client, "h");
}

#[test]
fn empty_values_are_allowed() {
    let req = parse_query("client=&user&path=/p").unwrap();
    assert_eq!(req.client, "");
    assert_eq!(req.user, "");
    assert_eq!(req.path, "/p");
}

#[test]
fn non_ascii_escapes_are_decoded_as_utf8() {
    let req = parse_query("client=h&user=u&path=%2Fhome%2Fcaf%C3%A9").unwrap();
    assert_eq!(req.path, "/home/café");
}

#[test]
fn multibyte_escape_sequences_decode() {
    assert_eq!(decode_component("%C3%A9"), "é");
    assert_eq!(decode_component("%E2%82%AC"), "€");
    assert_eq!(decode_component("%F0%9F%92%96"), "\u{1F496}");
}

#[test]
fn raw_characters_pass_through() {
    assert_eq!(decode_component("café"), "café");
    assert_eq!(decode_component("a€b"), "a€b");
}

#[test]
fn ill_formed_utf8_is_replaced_not_rejected() {
    assert_eq!(decode_component("%80"), "\u{FFFD}");
    assert_eq!(decode_component("%FF"), "\u{FFFD}");
    assert_eq!(decode_component("%80%80"), "\u{FFFD}\u{FFFD}");
    // a truncated sequence costs one replacement per maximal prefix
    assert_eq!(decode_component("%C3"), "\u{FFFD}");
    assert_eq!(decode_component("%E2%82"), "\u{FFFD}");
    assert_eq!(decode_component("%E0%80"), "\u{FFFD}\u{FFFD}");
    // an overlong encoding is ill-formed
    assert_eq!(decode_component("%C0%AF"), "\u{FFFD}\u{FFFD}");
    // a surrogate code point is ill-formed
    assert_eq!(decode_component("%ED%A0%80"), "\u{FFFD}\u{FFFD}\u{FFFD}");
    assert_eq!(decode_component("a%C3z"), "a\u{FFFD}z");
}

#[test]
fn decode_escape_range_boundary() {
    assert_eq!(decode_component("%7F"), "\u{7f}");
    assert_eq!(decode_component("%00"), "\u{0}");
}

#[test]
fn lone_percent_stands_for_itself() {
    assert_eq!(decode_component("100%"), "100%");
    assert_eq!(decode_component("%zz"), "%zz");
    assert_eq!(decode_component("%2"), "%2");
}

#[test]
fn decode_handles_case_and_plus() {
    assert_eq!(decode_component("a%2fb%2Fc"), "a/b/c");
    assert_eq!(decode_component("+"), " ");
    assert_eq!(decode_component(""), "");
}

#[test]
fn parsed_request_feeds_the_response() {
    let req = parse_query("client=myhost&user=alice&path=/home/alice/project").unwrap();
    let body = response_body(&req.client, &req.user, &req.path, &LaunchOutcome::Spawned);
    assert_eq!(body, "client = myhost, user = alice, path = /home/alice/project : success");
}

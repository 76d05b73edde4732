use invoker::greeting::Greeting;
use invoker::json::{JsonMap, JsonValue};
use invoker::outcome::{interpret_response, BodyHandling, FailureReason, Outcome, Response};
use invoker::request::{url_is_absolute, Method, Request, RequestBody, RequestError};

#[test]
fn serialize_is_the_fixed_literal() {
    assert_eq!(Greeting.serialize(), "Hello, world!");
    let another = Greeting;
    assert_eq!(another.serialize(), "Hello, world!");
}

#[test]
fn json_reply_decodes_to_mapping() {
    let reply = Ok(Response { status: 200, body: String::from("{\"lang\":\"x\",\"body\":\"y\"}") });
    let outcome = interpret_response(BodyHandling::DecodeJson, reply);
    let mut expected = JsonMap::new();
    expected.insert(String::from("lang"), JsonValue::Text(String::from("x")));
    expected.insert(String::from("body"), JsonValue::Text(String::from("y")));
    assert_eq!(outcome, Outcome::Json(expected));
}

#[test]
fn text_reply_is_kept_as_text() {
    let reply = Ok(Response { status: 200, body: String::from("Hello world") });
    let outcome = interpret_response(BodyHandling::RawText, reply);
    assert_eq!(outcome, Outcome::Text(String::from("Hello world")));
}

#[test]
fn refused_connection_is_a_failure() {
    let reply = Err(String::from("connection refused"));
    let outcome = interpret_response(BodyHandling::RawText, reply);
    assert_eq!(
        outcome,
        Outcome::Failure(FailureReason::Transport(String::from("connection refused")))
    );
}

#[test]
fn refused_connection_fails_json_handling_too() {
    let reply = Err(String::from("connection refused"));
    let outcome = interpret_response(BodyHandling::DecodeJson, reply);
    assert_eq!(
        outcome,
        Outcome::Failure(FailureReason::Transport(String::from("connection refused")))
    );
}

#[test]
fn non_json_body_fails_json_handling() {
    let reply = Ok(Response { status: 200, body: String::from("Hello world") });
    let outcome = interpret_response(BodyHandling::DecodeJson, reply);
    assert_eq!(outcome, Outcome::Failure(FailureReason::MalformedBody));
}

#[test]
fn absolute_urls_are_recognised() {
    assert!(url_is_absolute("https://www.rust-lang.org"));
    assert!(url_is_absolute("http://a"));
    assert!(!url_is_absolute("www.rust-lang.org"));
    assert!(!url_is_absolute("://no-scheme"));
    assert!(!url_is_absolute(""));
}

#[test]
fn build_accepts_an_absolute_url() {
    let req = Request::build(
        Method::Get,
        String::from("https://www.rust-lang.org"),
        Vec::new(),
        None,
    )
    .unwrap();
    assert_eq!(req.method, Method::Get);
    assert_eq!(req.url, "https://www.rust-lang.org");
    assert!(req.headers.is_empty());
    assert_eq!(req.body, None);
}

#[test]
fn build_rejects_an_empty_url() {
    let r = Request::build(Method::Get, String::new(), Vec::new(), None);
    assert_eq!(r, Err(RequestError::EmptyUrl));
}

#[test]
fn build_rejects_a_relative_url() {
    let r = Request::build(Method::Post, String::from("www.rust-lang.org"), Vec::new(), None);
    assert_eq!(r, Err(RequestError::NotAbsolute));
}

#[test]
fn build_keeps_headers() {
    let headers = vec![(String::from("transfer-encoding"), String::from("chunked"))];
    let req = Request::build(
        Method::Post,
        String::from("https://www.rust-lang.org"),
        headers.clone(),
        Some(RequestBody::Text(String::from("payload"))),
    )
    .unwrap();
    assert_eq!(req.headers, headers);
}

#[test]
fn wire_body_of_a_bodyless_request() {
    let req = Request::build(Method::Get, String::from("https://a.example/x"), Vec::new(), None)
        .unwrap();
    assert_eq!(req.wire_body(), None);
}

#[test]
fn wire_body_passes_text_through() {
    let req = Request::build(
        Method::Post,
        String::from("https://a.example/x"),
        Vec::new(),
        Some(RequestBody::Text(String::from("raw text"))),
    )
    .unwrap();
    assert_eq!(req.wire_body(), Some(String::from("raw text")));
}

#[test]
fn wire_body_encodes_a_json_object() {
    let mut m = JsonMap::new();
    m.insert(String::from("lang"), JsonValue::Text(String::from("rust")));
    m.insert(String::from("body"), JsonValue::Text(String::from("json")));
    let req = Request::build(
        Method::Post,
        String::from("https://www.rust-lang.org"),
        Vec::new(),
        Some(RequestBody::Json(m)),
    )
    .unwrap();
    assert_eq!(req.wire_body(), Some(String::from("{\"lang\":\"rust\",\"body\":\"json\"}")));
}

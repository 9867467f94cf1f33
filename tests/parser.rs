use rq_core::parser::{parse, HttpFile, ParseErrorKind};
use rq_core::request::{Method, Version};
use rq_core::template::{Fragment, HashTemplateMap, TemplateString};

fn assert_parses(input: &str) -> HttpFile {
    let parsed = parse(input);
    match parsed {
        Ok(parsed) => parsed,
        Err(e) => panic!("{:?}", e),
    }
}

#[test]
fn test_empty_input() {
    let file = assert_parses("");
    assert_eq!(file.requests.len(), 0);
}

#[test]
fn test_single_requst() {
    let input = r#"
GET foo.bar HTTP/1.1

"#;
    let file = assert_parses(input);
    assert_eq!(file.requests.len(), 1);
    assert_eq!(file.requests[0].method, Method::GET);
    assert_eq!(file.requests[0].url.to_string(), "foo.bar");
    assert_eq!(file.requests[0].version, Version::HTTP_11);
}

#[test]
fn test_optional_method() {
    let input = r#"
foo.bar HTTP/1.1

"#;
    let file = assert_parses(input);
    assert_eq!(file.requests.len(), 1);
    assert_eq!(file.requests[0].method, Method::default());
}

#[test]
fn test_optional_version() {
    let input = r#"
GET foo.bar

"#;
    let file = assert_parses(input);
    assert_eq!(file.requests.len(), 1);
    assert_eq!(file.requests[0].version, Version::default());
}

#[test]
fn test_var_in_url() {
    let input = r#"
GET foo{{url}}bar HTTP/1.1

"#;
    let file = assert_parses(input);
    assert_eq!(
        file.requests[0].url,
        TemplateString::new(vec![
            Fragment::raw("foo"),
            Fragment::var("url"),
            Fragment::raw("bar")
        ])
    );
}

#[test]
fn test_headers() {
    let input = r#"
POST test.dev HTTP/1.0
authorization: Bearer xxxx

"#;
    let file = assert_parses(input);
    assert_eq!(file.requests.len(), 1);
    assert_eq!(file.requests[0].headers.len(), 1);
    assert_eq!(
        file.requests[0]
            .headers
            .get("authorization")
            .unwrap()
            .to_string(),
        "Bearer xxxx"
    );
}

#[test]
fn test_var_in_headers() {
    let input = r#"
POST test.dev HTTP/1.0
aabb: {{value}}{{barbar}}

"#;
    let file = assert_parses(input);
    assert_eq!(
        file.requests[0].headers.get("aabb"),
        Some(&TemplateString::new(vec![
            Fragment::var("value"),
            Fragment::var("barbar")
        ]))
    );
}

#[test]
fn test_body() {
    let input = r#"
POST test.dev HTTP/1.0

{ "test": "body" }"#;
    let file = assert_parses(input);
    assert_eq!(file.requests[0].body.to_string(), "{ \"test\": \"body\" }");
}

#[test]
fn test_var_in_body() {
    let input = r#"
POST test.dev HTTP/1.0

aaa{{var}}bbb"#;
    let file = assert_parses(input);
    assert_eq!(
        file.requests[0].body,
        TemplateString::new(vec![
            Fragment::raw("aaa"),
            Fragment::var("var"),
            Fragment::raw("bbb")
        ])
    )
}

#[test]
fn test_multiple_requests() {
    let input = r#"
POST test.dev HTTP/1.0
authorization: token

###

GET test.dev HTTP/1.0

"#;
    let file = assert_parses(input);
    assert_eq!(file.requests.len(), 2);
}

#[test]
fn test_query_params() {
    let input = r#"
POST test.dev?foo=bar&baz=2&fif=fof HTTP/1.0
authorization: token

"#;
    let file = assert_parses(input);
    assert_eq!(file.requests.len(), 1);
    assert_eq!(file.requests[0].query.len(), 3);
    assert_eq!(
        file.requests[0].query.get("foo"),
        Some(&TemplateString::new(vec![Fragment::raw("bar")]))
    );
    assert_eq!(
        file.requests[0].query.get("baz"),
        Some(&TemplateString::new(vec![Fragment::raw("2")]))
    );
}

#[test]
fn test_query_params_with_quotes() {
    let input = r#"
POST test.dev?foo=" bar"&baz='  &ciao' HTTP/1.0
authorization: token

"#;
    let file = assert_parses(input);
    assert_eq!(file.requests.len(), 1);
    assert_eq!(file.requests[0].query.len(), 2);
    assert_eq!(
        file.requests[0].query.get("foo"),
        Some(&TemplateString::raw(" bar"))
    );
    assert_eq!(
        file.requests[0].query.get("baz"),
        Some(&TemplateString::raw("  &ciao"))
    );
}

#[test]
fn test_multiline_query() {
    let input = r#"
POST test.dev
        ?foo=bar
        &baz=42 HTTP/1.0
authorization: token

"#;
    let file = assert_parses(input);
    assert_eq!(file.requests.len(), 1);
    assert_eq!(file.requests[0].query.len(), 2);
    assert_eq!(
        file.requests[0].query.get("foo"),
        Some(&TemplateString::raw("bar"))
    );
    assert_eq!(
        file.requests[0].query.get("baz"),
        Some(&TemplateString::raw("42"))
    );
}

#[test]
fn test_var_in_query() {
    let input = r#"
POST test.dev
        ?foo=aaa{{var}}
        &baz="bbb"{{var2}} HTTP/1.0
authorization: token

"#;
    let file = assert_parses(input);
    assert_eq!(
        file.requests[0].query.get("foo"),
        Some(&TemplateString::new(vec![
            Fragment::raw("aaa"),
            Fragment::var("var")
        ]))
    );
}

#[test]
fn test_file_variable() {
    let input = r#"
@name = foo
@bar = baz
@foo = " 123"

###

POST test.dev
        ?foo=bar
        &baz=42 HTTP/1.0
authorization: token

"#;
    let file = assert_parses(input);
    assert_eq!(file.variables.len(), 3);
    assert_eq!(
        file.variables.get("name"),
        Some(&TemplateString::raw("foo"))
    );
    assert_eq!(file.variables.get("bar"), Some(&TemplateString::raw("baz")));
    assert_eq!(
        file.variables.get("foo"),
        Some(&TemplateString::raw(" 123"))
    );
}

#[test]
fn test_var_in_file_var() {
    let input = r#"
@name = foo
@bar = aaa{{var}}
@foo = " 123"

###

POST test.dev
        ?foo=bar
        &baz=42 HTTP/1.0
authorization: token

"#;
    let file = assert_parses(input);
    assert_eq!(
        file.variables.get("bar"),
        Some(&TemplateString::new(vec![
            Fragment::raw("aaa"),
            Fragment::var("var")
        ]))
    );
}

#[test]
fn scenario_plain_request() {
    let file = assert_parses("GET foo.bar HTTP/1.1\n\n");
    assert_eq!(file.requests.len(), 1);
    let r = &file.requests[0];
    assert_eq!(r.method, Method::GET);
    assert_eq!(r.url.to_string(), "foo.bar");
    assert_eq!(r.version, Version::HTTP_11);
    assert_eq!(r.headers.len(), 0);
    assert!(r.body.is_empty());
    assert_eq!(r.body, TemplateString::new(vec![]));
}

#[test]
fn scenario_method_defaults_to_get() {
    let file = assert_parses("foo.bar HTTP/1.1\n\n");
    assert_eq!(file.requests.len(), 1);
    assert_eq!(file.requests[0].method, Method::GET);
    assert_eq!(file.requests[0].url.to_string(), "foo.bar");
}

#[test]
fn scenario_query_and_header() {
    let file = assert_parses("POST test.dev?foo=bar&baz=2 HTTP/1.0\nauthorization: token\n\n");
    assert_eq!(file.requests.len(), 1);
    let r = &file.requests[0];
    assert_eq!(r.method, Method::POST);
    assert_eq!(r.version, Version::HTTP_10);
    assert_eq!(r.query.len(), 2);
    assert_eq!(r.query.get("foo"), Some(&TemplateString::raw("bar")));
    assert_eq!(r.query.get("baz"), Some(&TemplateString::raw("2")));
    assert_eq!(r.headers.len(), 1);
    assert_eq!(r.headers.get("authorization"), Some(&TemplateString::raw("token")));
}

#[test]
fn scenario_file_variables_fill() {
    let file = assert_parses("@name = foo\n@bar = aaa{{var}}\n\n###\n\nGET {{name}} HTTP/1.1\n\n");
    let vars = HashTemplateMap::from_pairs(vec![("var".to_string(), TemplateString::raw("X"))]);
    assert_eq!(file.variables.get("bar").unwrap().fill(&vars), Ok("aaaX".to_string()));
    let names = HashTemplateMap::from_pairs(vec![("name".to_string(), TemplateString::raw("foo"))]);
    assert_eq!(file.requests.len(), 1);
    assert_eq!(file.requests[0].url.fill(&names), Ok("foo".to_string()));
    assert_eq!(file.requests[0].url.fill(&file.variables), Ok("foo".to_string()));
}

#[test]
fn multiline_query_reads_as_single_line() {
    let spread = assert_parses("POST test.dev\n\t?foo=bar\n\t&baz=42 HTTP/1.0\nauthorization: token\n\n");
    let single = assert_parses("POST test.dev?foo=bar&baz=42 HTTP/1.0\nauthorization: token\n\n");
    assert_eq!(spread.requests.len(), 1);
    assert_eq!(spread.requests, single.requests);
    assert_eq!(spread.requests[0].query.get("baz"), Some(&TemplateString::raw("42")));
}

#[test]
fn body_keeps_inner_lines_and_drops_outer_blank_ones() {
    let file = assert_parses("POST a.b\n\n\nline one\n\nline two\n\n\n###\nGET c.d\n");
    assert_eq!(file.requests.len(), 2);
    assert_eq!(file.requests[0].body.to_string(), "line one\n\nline two");
    assert_eq!(file.requests[1].url.to_string(), "c.d");
    assert!(file.requests[1].body.is_empty());
}

#[test]
fn each_method_word_is_read() {
    let words = [
        ("GET", Method::GET),
        ("POST", Method::POST),
        ("PUT", Method::PUT),
        ("DELETE", Method::DELETE),
        ("PATCH", Method::PATCH),
        ("HEAD", Method::HEAD),
        ("OPTIONS", Method::OPTIONS),
        ("CONNECT", Method::CONNECT),
        ("TRACE", Method::TRACE),
    ];
    for (w, m) in words {
        let file = assert_parses(&format!("{} x.y\n", w));
        assert_eq!(file.requests[0].method, m);
        assert_eq!(file.requests[0].url.to_string(), "x.y");
    }
}

#[test]
fn each_version_word_is_read() {
    let words = [
        ("HTTP/0.9", Version::HTTP_09),
        ("HTTP/1.0", Version::HTTP_10),
        ("HTTP/1.1", Version::HTTP_11),
        ("HTTP/2.0", Version::HTTP_2),
        ("HTTP/3.0", Version::HTTP_3),
    ];
    for (w, v) in words {
        let file = assert_parses(&format!("GET x.y {}\n", w));
        assert_eq!(file.requests[0].version, v);
    }
}

#[test]
fn lone_method_word_is_the_url() {
    let file = assert_parses("GET\n");
    assert_eq!(file.requests[0].method, Method::GET);
    assert_eq!(file.requests[0].url.to_string(), "GET");
}

#[test]
fn unknown_version_fails_with_its_line() {
    let e = parse("\n\nGET x.y HTTP/4\n").unwrap_err();
    assert_eq!(e.kind, ParseErrorKind::UnknownVersion);
    assert_eq!(e.line, 3);
}

#[test]
fn extra_words_fail() {
    let e = parse("GET x.y HTTP/1.1 more\n").unwrap_err();
    assert_eq!(e.kind, ParseErrorKind::UnexpectedToken);
    assert_eq!(e.line, 1);
}

#[test]
fn open_quote_fails() {
    let e = parse("GET x.y?a=\"b HTTP/1.1\n").unwrap_err();
    assert_eq!(e.kind, ParseErrorKind::UnterminatedQuote);
}

#[test]
fn missing_url_fails() {
    let e = parse("GET ?a=b\n").unwrap_err();
    assert_eq!(e.kind, ParseErrorKind::MissingUrl);
}

#[test]
fn malformed_query_fails() {
    assert_eq!(parse("GET x.y?a\n").unwrap_err().kind, ParseErrorKind::MalformedQuery);
    assert_eq!(parse("GET x.y?a=1&\n").unwrap_err().kind, ParseErrorKind::MalformedQuery);
    assert_eq!(parse("GET x.y?=1\n").unwrap_err().kind, ParseErrorKind::MalformedQuery);
}

#[test]
fn malformed_header_fails_with_its_line() {
    let e = parse("GET x.y\nno colon here\n").unwrap_err();
    assert_eq!(e.kind, ParseErrorKind::MalformedHeader);
    assert_eq!(e.line, 2);
}

#[test]
fn malformed_variable_fails_with_its_line() {
    let e = parse("@a = 1\n@b 2\n###\nGET x.y\n").unwrap_err();
    assert_eq!(e.kind, ParseErrorKind::MalformedVariable);
    assert_eq!(e.line, 2);
}

#[test]
fn later_query_key_replaces_earlier() {
    let file = assert_parses("GET x.y?a=1&b=2&a=3\n");
    assert_eq!(file.requests[0].query.len(), 2);
    assert_eq!(file.requests[0].query.get("a"), Some(&TemplateString::raw("3")));
}

#[test]
fn blank_blocks_are_skipped() {
    let file = assert_parses("###\n\n###\nGET a.b\n###\n\n");
    assert_eq!(file.requests.len(), 1);
    assert_eq!(file.variables.len(), 0);
}

#[test]
fn open_quote_in_variable_value_fails() {
    let e = parse("@a = \"x\n###\nGET a.b\n").unwrap_err();
    assert_eq!(e.kind, ParseErrorKind::UnterminatedQuote);
    assert_eq!(e.line, 1);
}

#[test]
fn open_quote_in_header_value_fails() {
    let e = parse("GET a.b\nh: \"abc\n").unwrap_err();
    assert_eq!(e.kind, ParseErrorKind::UnterminatedQuote);
    assert_eq!(e.line, 2);
}

#[test]
fn open_quote_in_body_is_kept() {
    let file = assert_parses("POST a.b\n\nit's fine\n");
    assert_eq!(file.requests[0].body.to_string(), "it's fine");
}

#[test]
fn delimiter_is_three_hashes_alone() {
    let e = parse("GET a.b\n ### \nGET c.d\n").unwrap_err();
    assert_eq!(e.kind, ParseErrorKind::MalformedHeader);
    assert_eq!(e.line, 2);
    let file = assert_parses("GET a.b\r\n###\r\nGET c.d\r\n");
    assert_eq!(file.requests.len(), 2);
}

use rq_core::payload::parse_extension;
use rq_core::request::{Method, Version};
use rq_core::template::{FillError, Fragment, HashTemplateMap, TemplateString, Variable};
use rq_core::values::{parse_value, unquote};

#[test]
fn test_display() {
    let ts = TemplateString::new(vec![Fragment::var("foo")]);
    let ts2 = TemplateString::raw("barbar");
    let ts_quoted = TemplateString::raw("  baz  ");

    assert_eq!(ts.to_string(), "{{foo}}");
    assert_eq!(ts2.to_string(), "barbar");
    assert_eq!(ts_quoted.to_string(), "\"  baz  \"");
}

#[test]
fn test_parse_str() {
    let s = "' foo'{{bar}}baz";
    let expected = TemplateString::new(vec![
        Fragment::raw(" foo"),
        Fragment::var("bar"),
        Fragment::raw("baz"),
    ]);

    assert_eq!(s.parse::<TemplateString>().unwrap(), expected);
}

#[test]
fn test_fill() {
    let ts = TemplateString::new(vec![
        Fragment::raw(" foo"),
        Fragment::var("bar"),
        Fragment::raw("baz"),
    ]);
    let ts2 = TemplateString::raw("foobarbaz");
    let ts3 = TemplateString::new(vec![Fragment::var("baz")]);
    let values =
        HashTemplateMap::from_pairs(vec![("bar".into(), "FOOBAR".parse::<TemplateString>().unwrap())]);

    assert_eq!(ts.fill(&values).unwrap(), " fooFOOBARbaz");
    assert_eq!(ts2.fill(&values).unwrap(), "foobarbaz");
    assert_eq!(
        ts3.fill(&values),
        Err(FillError::from(Variable::new("baz")))
    )
}

#[test]
fn test_is_empty() {
    let ts = TemplateString::new(vec![]);
    let ts2 = TemplateString::raw("");
    let ts3 = TemplateString::new(vec![Fragment::raw(""), Fragment::raw("")]);

    assert!(ts.is_empty());
    assert!(ts2.is_empty());
    assert!(ts3.is_empty());
}

#[test]
fn reference_or_text_is_not_empty() {
    assert!(!TemplateString::new(vec![Fragment::var("a")]).is_empty());
    assert!(!TemplateString::new(vec![Fragment::raw(""), Fragment::raw("x")]).is_empty());
}

#[test]
fn plain_literal_round_trips() {
    for text in ["abc", "a b", "x.y/z?q=1", "\"a", "'"] {
        let t = TemplateString::raw(text);
        assert_eq!(parse_value(&t.to_string()), t);
    }
    let empty = TemplateString::new(vec![]);
    assert_eq!(parse_value(&empty.to_string()), empty);
}

#[test]
fn acyclic_fill_concatenates_fragments() {
    let vars = HashTemplateMap::from_pairs(vec![
        ("host".to_string(), parse_value("{{name}}.dev")),
        ("name".to_string(), TemplateString::raw("test")),
        ("port".to_string(), TemplateString::raw("8080")),
    ]);
    let t = parse_value("http://{{host}}:{{port}}/x");
    assert_eq!(t.fill(&vars), Ok("http://test.dev:8080/x".to_string()));
    let mut parts = String::new();
    for f in t.fragments() {
        parts.push_str(&TemplateString::new(vec![f.clone()]).fill(&vars).unwrap());
    }
    assert_eq!(parts, "http://test.dev:8080/x");
}

#[test]
fn first_missing_variable_is_reported() {
    let vars = HashTemplateMap::from_pairs(vec![("a".to_string(), TemplateString::raw("1"))]);
    let t = parse_value("{{a}}{{first}}{{second}}");
    assert_eq!(t.fill(&vars), Err(FillError::MissingVariable(Variable::new("first"))));
    let nested = HashTemplateMap::from_pairs(vec![("a".to_string(), parse_value("{{inner}}"))]);
    assert_eq!(
        parse_value("{{a}}{{outer}}").fill(&nested),
        Err(FillError::MissingVariable(Variable::new("inner")))
    );
}

#[test]
fn cyclic_variables_fail() {
    let vars = HashTemplateMap::from_pairs(vec![
        ("a".to_string(), parse_value("{{b}}")),
        ("b".to_string(), parse_value("{{a}}")),
    ]);
    assert_eq!(
        parse_value("x{{a}}").fill(&vars),
        Err(FillError::CyclicVariable(Variable::new("a")))
    );
    let selfref = HashTemplateMap::from_pairs(vec![("s".to_string(), parse_value("-{{s}}"))]);
    assert_eq!(
        parse_value("{{s}}").fill(&selfref),
        Err(FillError::CyclicVariable(Variable::new("s")))
    );
}

#[test]
fn a_variable_used_twice_is_no_cycle() {
    let vars = HashTemplateMap::from_pairs(vec![
        ("a".to_string(), parse_value("{{b}}{{b}}")),
        ("b".to_string(), TemplateString::raw("z")),
    ]);
    assert_eq!(parse_value("{{a}}{{b}}").fill(&vars), Ok("zzz".to_string()));
}

#[test]
fn quotes_are_stripped_per_literal_run() {
    assert_eq!(parse_value("\"foo\""), TemplateString::raw("foo"));
    assert_eq!(parse_value("'  x  '"), TemplateString::raw("  x  "));
    assert_eq!(
        parse_value("\"foo\"{{bar}}\"baz\""),
        TemplateString::new(vec![Fragment::raw("foo"), Fragment::var("bar"), Fragment::raw("baz")])
    );
    assert_eq!(parse_value("'a\""), TemplateString::raw("'a\""));
    assert_eq!(TemplateString::raw(" x").to_string(), "\" x\"");
    assert_eq!(TemplateString::raw("x ").to_string(), "\"x \"");
}

#[test]
fn broken_references_are_text() {
    assert_eq!(parse_value("{{a b}}"), TemplateString::raw("{{a b}}"));
    assert_eq!(parse_value("{{}}"), TemplateString::raw("{{}}"));
    assert_eq!(
        parse_value("{{{a}}"),
        TemplateString::new(vec![Fragment::raw("{"), Fragment::var("a")])
    );
    assert_eq!(parse_value(""), TemplateString::new(vec![]));
}

#[test]
fn unquote_takes_one_pair() {
    assert_eq!(unquote("\"abc\""), "abc");
    assert_eq!(unquote("'abc'"), "abc");
    assert_eq!(unquote("\"\"abc\"\""), "\"abc\"");
    assert_eq!(unquote("\"abc'"), "\"abc'");
    assert_eq!(unquote("\""), "\"");
    assert_eq!(unquote("plain"), "plain");
}

#[test]
fn table_insert_replaces_in_place() {
    let mut m = HashTemplateMap::new();
    m.insert("a".to_string(), TemplateString::raw("1"));
    m.insert("b".to_string(), TemplateString::raw("2"));
    m.insert("a".to_string(), TemplateString::raw("3"));
    assert_eq!(m.len(), 2);
    assert_eq!(m.get("a"), Some(&TemplateString::raw("3")));
    assert_eq!(m.entries()[0].0, "a");
    assert_eq!(m.get("c"), None);
    let vars = HashTemplateMap::new();
    assert_eq!(
        m.fill(&vars),
        Ok(vec![("a".to_string(), "3".to_string()), ("b".to_string(), "2".to_string())])
    );
}

#[test]
fn request_fill_resolves_every_part() {
    let file = rq_core::parser::parse(
        "@host = api.dev\n@tok = t{{n}}\n###\nPUT {{host}}/x?id={{n}} HTTP/2.0\nauth: {{tok}}\n\nbody {{n}}\n",
    )
    .unwrap();
    let mut vars = file.variables.clone();
    vars.insert("n".to_string(), TemplateString::raw("7"));
    let r = file.requests[0].fill(&vars).unwrap();
    assert_eq!(r.method, Method::PUT);
    assert_eq!(r.version, Version::HTTP_2);
    assert_eq!(r.url, "api.dev/x");
    assert_eq!(r.query, vec![("id".to_string(), "7".to_string())]);
    assert_eq!(r.headers, vec![("auth".to_string(), "t7".to_string())]);
    assert_eq!(r.body, "body 7");
    assert_eq!(
        file.requests[0].fill(&file.variables),
        Err(FillError::MissingVariable(Variable::new("n")))
    );
}

#[test]
fn extensions_of_subtypes() {
    assert_eq!(parse_extension("json"), Some("json".to_string()));
    assert_eq!(parse_extension("javascript"), Some("js".to_string()));
    assert_eq!(parse_extension("jpeg"), Some("jpg".to_string()));
    assert_eq!(parse_extension("pdf"), Some("pdf".to_string()));
    assert_eq!(parse_extension("plain"), None);
    assert_eq!(parse_extension(""), None);
}

#[test]
fn from_str_reads_quoted_runs() {
    assert_eq!("\"foo\"".parse::<TemplateString>(), Ok(TemplateString::raw("foo")));
    assert_eq!("'  x  '".parse::<TemplateString>(), Ok(TemplateString::raw("  x  ")));
    assert_eq!(
        "\"foo\"{{bar}}\"baz\"".parse::<TemplateString>(),
        Ok(TemplateString::new(vec![Fragment::raw("foo"), Fragment::var("bar"), Fragment::raw("baz")]))
    );
    assert_eq!("".parse::<TemplateString>(), Ok(TemplateString::new(vec![])));
}

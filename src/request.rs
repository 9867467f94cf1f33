//! Requests: methods and versions, the request line, and templated and resolved
//! requests.

use vstd::prelude::*;
use crate::lines::{find_char, lemma_find_char, words, words_exec};
use crate::parser::ParseErrorKind;
use crate::template::{
    fill_entries, insert_entry, resolve, Entries, FillError, FillFault, HashTemplateMap, Piece,
    TemplateString,
};
use crate::text::string_of;
use crate::values::{is_quote, slice_chars, tokenize, tokenize_chars};

verus! {

/// An HTTP method.
#[derive(Clone, Copy, Debug, PartialEq, Eq, Structural, Hash)]
pub enum Method {
    GET,
    POST,
    PUT,
    DELETE,
    PATCH,
    HEAD,
    OPTIONS,
    CONNECT,
    TRACE,
}

impl Default for Method {
    fn default() -> (r: Method)
        ensures
            r == Method::GET,
    {
        Method::GET
    }
}

/// An HTTP version.
#[allow(non_camel_case_types)]
#[derive(Clone, Copy, Debug, PartialEq, Eq, Structural, Hash)]
pub enum Version {
    HTTP_09,
    HTTP_10,
    HTTP_11,
    HTTP_2,
    HTTP_3,
}

impl Default for Version {
    fn default() -> (r: Version)
        ensures
            r == Version::HTTP_11,
    {
        Version::HTTP_11
    }
}

/// The method that a word names, if it names one.
pub open spec fn method_of(w: Seq<char>) -> Option<Method> {
    if w == "GET"@ {
        Some(Method::GET)
    } else if w == "POST"@ {
        Some(Method::POST)
    } else if w == "PUT"@ {
        Some(Method::PUT)
    } else if w == "DELETE"@ {
        Some(Method::DELETE)
    } else if w == "PATCH"@ {
        Some(Method::PATCH)
    } else if w == "HEAD"@ {
        Some(Method::HEAD)
    } else if w == "OPTIONS"@ {
        Some(Method::OPTIONS)
    } else if w == "CONNECT"@ {
        Some(Method::CONNECT)
    } else if w == "TRACE"@ {
        Some(Method::TRACE)
    } else {
        None
    }
}

/// The version that a word names, if it names one.
pub open spec fn version_of(w: Seq<char>) -> Option<Version> {
    if w == "HTTP/0.9"@ {
        Some(Version::HTTP_09)
    } else if w == "HTTP/1.0"@ {
        Some(Version::HTTP_10)
    } else if w == "HTTP/1.1"@ {
        Some(Version::HTTP_11)
    } else if w == "HTTP/2.0"@ {
        Some(Version::HTTP_2)
    } else if w == "HTTP/3.0"@ {
        Some(Version::HTTP_3)
    } else {
        None
    }
}

/// The first index in `[i, b)` that holds `c` outside quotes, or `b`.
pub open spec fn find_unquoted(l: Seq<char>, i: int, b: int, c: char) -> int
    decreases b - i,
{
    if i < 0 || i >= b || b > l.len() {
        b
    } else if l[i] == c {
        i
    } else if is_quote(l[i]) {
        proof {
            lemma_find_char(l, i + 1, l[i]);
        }
        let q = find_char(l, i + 1, l[i]);
        if q >= b {
            b
        } else {
            find_unquoted(l, q + 1, b, c)
        }
    } else {
        find_unquoted(l, i + 1, b, c)
    }
}

/// `find_unquoted` stays within its range.
pub proof fn lemma_find_unquoted(l: Seq<char>, i: int, b: int, c: char)
    requires
        0 <= i <= b <= l.len(),
    ensures
        i <= find_unquoted(l, i, b, c) <= b,
    decreases b - i,
{
    if i < b && l[i] != c {
        if is_quote(l[i]) {
            lemma_find_char(l, i + 1, l[i]);
            let q = find_char(l, i + 1, l[i]);
            if q < b {
                lemma_find_unquoted(l, q + 1, b, c);
            }
        } else {
            lemma_find_unquoted(l, i + 1, b, c);
        }
    }
}

/// The query pairs `key=value` of `l[i..b]`, separated by `&`, inserted into `acc`.
pub open spec fn query_from(l: Seq<char>, i: int, b: int, acc: Entries) -> Result<
    Entries,
    ParseErrorKind,
>
    decreases b - i,
{
    if i < 0 || i > b || b > l.len() {
        Ok(acc)
    } else {
        proof {
            lemma_find_unquoted(l, i, b, '&');
        }
        let e = find_unquoted(l, i, b, '&');
        let eq = find_unquoted(l, i, e, '=');
        if eq <= i || eq >= e {
            Err(ParseErrorKind::MalformedQuery)
        } else {
            let acc2 = insert_entry(acc, l.subrange(i, eq), tokenize(l.subrange(eq + 1, e)));
            if e >= b {
                Ok(acc2)
            } else {
                query_from(l, e + 1, b, acc2)
            }
        }
    }
}

/// The target word `l[a..b]`: a URL, then optionally `?` and query pairs.
pub open spec fn target(l: Seq<char>, a: int, b: int) -> Result<(Seq<Piece>, Entries), ParseErrorKind> {
    let q = find_unquoted(l, a, b, '?');
    if q <= a {
        Err(ParseErrorKind::MissingUrl)
    } else if q >= b {
        Ok((tokenize(l.subrange(a, b)), Seq::empty()))
    } else {
        match query_from(l, q + 1, b, Seq::empty()) {
            Err(k) => Err(k),
            Ok(qs) => Ok((tokenize(l.subrange(a, q)), qs)),
        }
    }
}

/// What the request line gives.
pub struct Head {
    pub method: Method,
    pub url: Seq<Piece>,
    pub query: Entries,
    pub version: Version,
}

/// The request line: an optional method, the target, an optional version.
/// The first word is a method only when it names one and another word follows.
pub open spec fn request_line(l: Seq<char>) -> Result<Head, ParseErrorKind> {
    match words(l) {
        None => Err(ParseErrorKind::UnterminatedQuote),
        Some(ws) => if ws.len() == 0 {
            Err(ParseErrorKind::MissingUrl)
        } else {
            let m = method_of(l.subrange(ws[0].0, ws[0].1));
            let u: int = if ws.len() >= 2 && m is Some {
                1
            } else {
                0
            };
            let method = if u == 1 {
                m->Some_0
            } else {
                Method::GET
            };
            if ws.len() > u + 2 {
                Err(ParseErrorKind::UnexpectedToken)
            } else {
                let v = if ws.len() == u + 2 {
                    version_of(l.subrange(ws[u + 1].0, ws[u + 1].1))
                } else {
                    Some(Version::HTTP_11)
                };
                match v {
                    None => Err(ParseErrorKind::UnknownVersion),
                    Some(version) => match target(l, ws[u].0, ws[u].1) {
                        Err(k) => Err(k),
                        Ok(t) => Ok(Head { method, url: t.0, query: t.1, version }),
                    },
                }
            }
        },
    }
}

/// Whether `l[a..b]` is the text `lit`.
pub(crate) fn word_is(l: &Vec<char>, a: usize, b: usize, lit: &str) -> (r: bool)
    requires
        a <= b <= l.len(),
    ensures
        r == (l@.subrange(a as int, b as int) == lit@),
{
    let n = lit.unicode_len();
    if b - a != n {
        return false;
    }
    let mut k: usize = 0;
    while k < n
        invariant
            k <= n,
            n == b - a,
            a <= b <= l.len(),
            n == lit@.len(),
            forall|j: int| 0 <= j < k ==> l@[a + j] == lit@[j],
        decreases n - k,
    {
        if l[a + k] != lit.get_char(k) {
            assert(l@.subrange(a as int, b as int)[k as int] != lit@[k as int]);
            return false;
        }
        k += 1;
    }
    assert(l@.subrange(a as int, b as int) =~= lit@);
    true
}

fn method_at(l: &Vec<char>, a: usize, b: usize) -> (r: Option<Method>)
    requires
        a <= b <= l.len(),
    ensures
        r == method_of(l@.subrange(a as int, b as int)),
{
    if word_is(l, a, b, "GET") {
        Some(Method::GET)
    } else if word_is(l, a, b, "POST") {
        Some(Method::POST)
    } else if word_is(l, a, b, "PUT") {
        Some(Method::PUT)
    } else if word_is(l, a, b, "DELETE") {
        Some(Method::DELETE)
    } else if word_is(l, a, b, "PATCH") {
        Some(Method::PATCH)
    } else if word_is(l, a, b, "HEAD") {
        Some(Method::HEAD)
    } else if word_is(l, a, b, "OPTIONS") {
        Some(Method::OPTIONS)
    } else if word_is(l, a, b, "CONNECT") {
        Some(Method::CONNECT)
    } else if word_is(l, a, b, "TRACE") {
        Some(Method::TRACE)
    } else {
        None
    }
}

fn version_at(l: &Vec<char>, a: usize, b: usize) -> (r: Option<Version>)
    requires
        a <= b <= l.len(),
    ensures
        r == version_of(l@.subrange(a as int, b as int)),
{
    if word_is(l, a, b, "HTTP/0.9") {
        Some(Version::HTTP_09)
    } else if word_is(l, a, b, "HTTP/1.0") {
        Some(Version::HTTP_10)
    } else if word_is(l, a, b, "HTTP/1.1") {
        Some(Version::HTTP_11)
    } else if word_is(l, a, b, "HTTP/2.0") {
        Some(Version::HTTP_2)
    } else if word_is(l, a, b, "HTTP/3.0") {
        Some(Version::HTTP_3)
    } else {
        None
    }
}

fn find_unquoted_at(l: &Vec<char>, i: usize, b: usize, c: char) -> (r: usize)
    requires
        i <= b <= l.len(),
    ensures
        r == find_unquoted(l@, i as int, b as int, c),
        i <= r <= b,
{
    proof {
        lemma_find_unquoted(l@, i as int, b as int, c);
    }
    let mut j = i;
    while j < b
        invariant
            i <= j <= b <= l.len(),
            find_unquoted(l@, j as int, b as int, c) == find_unquoted(l@, i as int, b as int, c),
        decreases b - j,
    {
        let d = l[j];
        if d == c {
            return j;
        }
        if d == '"' || d == '\'' {
            let q = crate::lines::find_char_at(l, j + 1, d);
            if q >= b {
                return b;
            }
            j = q + 1;
        } else {
            j += 1;
        }
    }
    b
}

/// The entries' views, seen from an outcome of query parsing.
pub open spec fn query_view(r: Result<HashTemplateMap, ParseErrorKind>) -> Result<Entries, ParseErrorKind> {
    match r {
        Ok(m) => Ok(m@),
        Err(k) => Err(k),
    }
}

fn query_exec(l: &Vec<char>, start: usize, b: usize) -> (r: Result<HashTemplateMap, ParseErrorKind>)
    requires
        start <= b <= l.len(),
    ensures
        query_view(r) == query_from(l@, start as int, b as int, Seq::empty()),
{
    let mut acc = HashTemplateMap::new();
    let mut i = start;
    loop
        invariant
            i <= b <= l.len(),
            query_from(l@, i as int, b as int, acc@) == query_from(l@, start as int, b as int, Seq::empty()),
        decreases b - i,
    {
        let e = find_unquoted_at(l, i, b, '&');
        let eq = find_unquoted_at(l, i, e, '=');
        if eq <= i || eq >= e {
            return Err(ParseErrorKind::MalformedQuery);
        }
        let key = string_of(l, i, eq);
        let value = tokenize_chars(&slice_chars(l, eq + 1, e));
        acc.insert(key, value);
        if e >= b {
            return Ok(acc);
        }
        i = e + 1;
    }
}

/// The outcome of reading a request line, seen through views.
pub open spec fn head_view(r: Result<(Method, TemplateString, HashTemplateMap, Version), ParseErrorKind>) -> Result<
    Head,
    ParseErrorKind,
> {
    match r {
        Ok(h) => Ok(Head { method: h.0, url: h.1@, query: h.2@, version: h.3 }),
        Err(k) => Err(k),
    }
}

/// Reads a request line.
pub(crate) fn request_line_exec(l: &Vec<char>) -> (r: Result<(Method, TemplateString, HashTemplateMap, Version), ParseErrorKind>)
    ensures
        head_view(r) == request_line(l@),
{
    let ws = match words_exec(l) {
        None => {
            return Err(ParseErrorKind::UnterminatedQuote);
        },
        Some(ws) => ws,
    };
    let ghost wv = ws@.map_values(|p: (usize, usize)| (p.0 as int, p.1 as int));
    if ws.len() == 0 {
        return Err(ParseErrorKind::MissingUrl);
    }
    assert(wv[0] == (ws@[0].0 as int, ws@[0].1 as int));
    let m = method_at(l, ws[0].0, ws[0].1);
    let u: usize = if ws.len() >= 2 && m.is_some() {
        1
    } else {
        0
    };
    let method = if u == 1 {
        m.unwrap()
    } else {
        Method::GET
    };
    if ws.len() > u + 2 {
        return Err(ParseErrorKind::UnexpectedToken);
    }
    let v = if ws.len() == u + 2 {
        assert(wv[u + 1] == (ws@[u + 1].0 as int, ws@[u + 1].1 as int));
        version_at(l, ws[u + 1].0, ws[u + 1].1)
    } else {
        Some(Version::HTTP_11)
    };
    let version = match v {
        None => {
            return Err(ParseErrorKind::UnknownVersion);
        },
        Some(version) => version,
    };
    assert(wv[u as int] == (ws@[u as int].0 as int, ws@[u as int].1 as int));
    let a = ws[u].0;
    let b = ws[u].1;
    let q = find_unquoted_at(l, a, b, '?');
    if q <= a {
        return Err(ParseErrorKind::MissingUrl);
    }
    if q >= b {
        let url = tokenize_chars(&slice_chars(l, a, b));
        let query = HashTemplateMap::new();
        return Ok((method, url, query, version));
    }
    match query_exec(l, q + 1, b) {
        Err(k) => Err(k),
        Ok(query) => {
            let url = tokenize_chars(&slice_chars(l, a, q));
            Ok((method, url, query, version))
        },
    }
}

/// A request as read from a file, before its templates are resolved.
pub struct RequestModel {
    pub method: Method,
    pub url: Seq<Piece>,
    pub query: Entries,
    pub version: Version,
    pub headers: Entries,
    pub body: Seq<Piece>,
}

/// A request whose templates are resolved.
pub struct ResolvedModel {
    pub method: Method,
    pub url: Seq<char>,
    pub query: Seq<(Seq<char>, Seq<char>)>,
    pub version: Version,
    pub headers: Seq<(Seq<char>, Seq<char>)>,
    pub body: Seq<char>,
}

/// Resolves the URL, the query values, the header values and the body, in that
/// order; fails with the first fault.
pub open spec fn fill_request(r: RequestModel, vars: Entries) -> Result<ResolvedModel, FillFault> {
    match resolve(r.url, vars) {
        Err(e) => Err(e),
        Ok(url) => match fill_entries(r.query, vars) {
            Err(e) => Err(e),
            Ok(query) => match fill_entries(r.headers, vars) {
                Err(e) => Err(e),
                Ok(headers) => match resolve(r.body, vars) {
                    Err(e) => Err(e),
                    Ok(body) => Ok(
                        ResolvedModel {
                            method: r.method,
                            url,
                            query,
                            version: r.version,
                            headers,
                            body,
                        },
                    ),
                },
            },
        },
    }
}

/// A request of a request file; its URL, query and header values and body may
/// hold `{{name}}` references.
#[derive(Debug, Clone, PartialEq, Eq)]
pub struct HttpRequest {
    pub method: Method,
    pub url: TemplateString,
    pub query: HashTemplateMap,
    pub version: Version,
    pub headers: HashTemplateMap,
    pub body: TemplateString,
}

impl View for HttpRequest {
    type V = RequestModel;

    open spec fn view(&self) -> RequestModel {
        RequestModel {
            method: self.method,
            url: self.url@,
            query: self.query@,
            version: self.version,
            headers: self.headers@,
            body: self.body@,
        }
    }
}

/// A request ready to be sent: every template resolved.
#[derive(Debug, Clone, PartialEq, Eq)]
pub struct Request {
    pub method: Method,
    pub url: String,
    pub query: Vec<(String, String)>,
    pub version: Version,
    pub headers: Vec<(String, String)>,
    pub body: String,
}

pub open spec fn pairs_view(v: Seq<(String, String)>) -> Seq<(Seq<char>, Seq<char>)> {
    v.map_values(|e: (String, String)| (e.0@, e.1@))
}

impl View for Request {
    type V = ResolvedModel;

    open spec fn view(&self) -> ResolvedModel {
        ResolvedModel {
            method: self.method,
            url: self.url@,
            query: pairs_view(self.query@),
            version: self.version,
            headers: pairs_view(self.headers@),
            body: self.body@,
        }
    }
}

/// The outcome of resolving a request, seen through views.
pub open spec fn request_fill_view(r: Result<Request, FillError>) -> Result<ResolvedModel, FillFault> {
    match r {
        Ok(q) => Ok(q@),
        Err(e) => Err(e@),
    }
}

impl HttpRequest {
    /// Resolves the request against `vars`: URL, query values, header values and
    /// body in that order, method and version unchanged; fails with the first fault.
    pub fn fill(&self, vars: &HashTemplateMap) -> (r: Result<Request, FillError>)
        ensures
            request_fill_view(r) == fill_request(self@, vars@),
    {
        let url = self.url.fill(vars);
        let url = match url {
            Err(e) => {
                return Err(e);
            },
            Ok(u) => u,
        };
        let query = self.query.fill(vars);
        let query = match query {
            Err(e) => {
                return Err(e);
            },
            Ok(q) => q,
        };
        let headers = self.headers.fill(vars);
        let headers = match headers {
            Err(e) => {
                return Err(e);
            },
            Ok(h) => h,
        };
        let body = self.body.fill(vars);
        let body = match body {
            Err(e) => {
                return Err(e);
            },
            Ok(b) => b,
        };
        Ok(Request { method: self.method, url, query, version: self.version, headers, body })
    }
}

} // verus!

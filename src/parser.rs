//! The request-file grammar: a block of variable definitions and a sequence of
//! request blocks separated by `###` lines.

use vstd::prelude::*;
use crate::lines::{
    ends_solid, lemma_skip_ws, lemma_trim_back, lemma_trimmed, quotes_closed, quotes_closed_exec,
    is_blank, is_blank_line, is_delim, is_delim_line, is_space, is_ws, lines_view, skip_ws,
    skip_ws_at, split_lines, split_lines_exec, trim, trim_back, trim_back_at, trim_end,
};
use crate::request::{request_line, request_line_exec, HttpRequest, RequestModel};
use crate::template::{insert_entry, Entries, HashTemplateMap, Piece, TemplateString};
use crate::text::{chars_of, string_of};
use crate::values::{ident_run, is_ident, slice_chars, tokenize, tokenize_chars};

verus! {

/// What made a request file unreadable.
#[derive(Clone, Copy, Debug, PartialEq, Eq, Structural, Hash)]
pub enum ParseErrorKind {
    /// A quote opened on the request line, or in a header or variable value, is
    /// not closed on its line.
    UnterminatedQuote,
    /// The request line has no URL.
    MissingUrl,
    /// The word after the URL is not a known HTTP version.
    UnknownVersion,
    /// The request line has words after the version.
    UnexpectedToken,
    /// A query pair is not of the form `key=value`.
    MalformedQuery,
    /// A header line is not of the form `name: value`.
    MalformedHeader,
    /// A line of the variable block is not of the form `@name = value`.
    MalformedVariable,
}

/// A parse failure and the line (counted from 1) where it was found.
#[derive(Clone, Copy, Debug, PartialEq, Eq, Structural, Hash)]
pub struct ParseError {
    pub line: usize,
    pub kind: ParseErrorKind,
}

/// The failure of kind `kind` on the line of index `i`.
pub open spec fn fault_at(i: int, kind: ParseErrorKind) -> ParseError {
    ParseError { line: (i + 1) as usize, kind }
}

/// The first line in `[i, b)` that is not blank, or `b`.
pub open spec fn first_filled(ls: Seq<Seq<char>>, i: int, b: int) -> int
    decreases b - i,
{
    if i < 0 || i >= b || !is_blank(ls[i]) {
        i
    } else {
        first_filled(ls, i + 1, b)
    }
}

/// The first `###` line at or after `i`, or the number of lines.
pub open spec fn next_delim(ls: Seq<Seq<char>>, i: int) -> int
    decreases ls.len() - i,
{
    if i < 0 || i >= ls.len() || is_delim(ls[i]) {
        i
    } else {
        next_delim(ls, i + 1)
    }
}

/// A line that goes on with the query of the line before: it starts with `?` or `&`.
pub open spec fn is_cont(l: Seq<char>) -> bool {
    let a = skip_ws(l, 0);
    a < l.len() && (l[a] == '?' || l[a] == '&')
}

/// The first line in `[i, b)` that does not go on with the query, or `b`.
pub open spec fn cont_end(ls: Seq<Seq<char>>, i: int, b: int) -> int
    decreases b - i,
{
    if i < 0 || i >= b || !is_cont(ls[i]) {
        i
    } else {
        cont_end(ls, i + 1, b)
    }
}

/// `acc` followed by the trimmed lines of `[i, c)`.
pub open spec fn joined_from(ls: Seq<Seq<char>>, i: int, c: int, acc: Seq<char>) -> Seq<char>
    decreases c - i,
{
    if i < 0 || i >= c {
        acc
    } else {
        joined_from(ls, i + 1, c, acc + trim(ls[i]))
    }
}

/// The request line `r` joined with its continuation lines `(r, c)`, so that a
/// query spread over several lines reads as if written on one.
pub open spec fn request_text(ls: Seq<Seq<char>>, r: int, c: int) -> Seq<char> {
    joined_from(ls, r + 1, c, trim_end(ls[r]))
}

/// The first blank line in `[i, b)`, or `b`.
pub open spec fn headers_end(ls: Seq<Seq<char>>, i: int, b: int) -> int
    decreases b - i,
{
    if i < 0 || i >= b || is_blank(ls[i]) {
        i
    } else {
        headers_end(ls, i + 1, b)
    }
}

/// The end of a header name that starts at `i`: the next whitespace or `:`.
pub open spec fn name_end(l: Seq<char>, i: int) -> int
    decreases l.len() - i,
{
    if i < 0 || i >= l.len() || is_ws(l[i]) || l[i] == ':' {
        i
    } else {
        name_end(l, i + 1)
    }
}

/// A header line `name: value`, whose value closes the quotes it opens.
pub open spec fn header(l: Seq<char>) -> Result<(Seq<char>, Seq<Piece>), ParseErrorKind> {
    let a = skip_ws(l, 0);
    let p = name_end(l, a);
    if a < p && p < l.len() && l[p] == ':' {
        let v0 = skip_ws(l, p + 1);
        let v1 = trim_back(l, v0, l.len() as int);
        if quotes_closed(l.subrange(v0, v1)) {
            Ok((l.subrange(a, p), tokenize(l.subrange(v0, v1))))
        } else {
            Err(ParseErrorKind::UnterminatedQuote)
        }
    } else {
        Err(ParseErrorKind::MalformedHeader)
    }
}

/// The header lines `[i, h)`, inserted into `acc`.
pub open spec fn headers_from(ls: Seq<Seq<char>>, i: int, h: int, acc: Entries) -> Result<
    Entries,
    ParseError,
>
    decreases h - i,
{
    if i < 0 || i >= h {
        Ok(acc)
    } else {
        match header(ls[i]) {
            Err(kind) => Err(fault_at(i, kind)),
            Ok(kv) => headers_from(ls, i + 1, h, insert_entry(acc, kv.0, kv.1)),
        }
    }
}

/// The end of `[lo, hi)` once trailing blank lines are dropped.
pub open spec fn last_filled_end(ls: Seq<Seq<char>>, lo: int, hi: int) -> int
    decreases hi - lo,
{
    if hi <= lo || !is_blank(ls[hi - 1]) {
        hi
    } else {
        last_filled_end(ls, lo, hi - 1)
    }
}

/// `acc` followed by the lines of `[i, hi)`, each after a newline.
pub open spec fn join_from(ls: Seq<Seq<char>>, i: int, hi: int, acc: Seq<char>) -> Seq<char>
    decreases hi - i,
{
    if i < 0 || i >= hi {
        acc
    } else {
        join_from(ls, i + 1, hi, acc + seq!['\n'] + ls[i])
    }
}

/// The body: the lines of `[lo, hi)` without leading and trailing blank lines,
/// joined by newlines.
pub open spec fn body_text(ls: Seq<Seq<char>>, lo: int, hi: int) -> Seq<char> {
    let f = first_filled(ls, lo, hi);
    let e = last_filled_end(ls, f, hi);
    if f >= e {
        Seq::empty()
    } else {
        join_from(ls, f + 1, e, ls[f])
    }
}

/// The request block of lines `[a, b)`: `None` when they are all blank. The first
/// filled line and its continuation lines make the request line, header lines
/// follow up to the first blank line, and the rest is the body.
pub open spec fn block(ls: Seq<Seq<char>>, a: int, b: int) -> Result<Option<RequestModel>, ParseError> {
    let r = first_filled(ls, a, b);
    if r >= b {
        Ok(None)
    } else {
        let c = cont_end(ls, r + 1, b);
        match request_line(request_text(ls, r, c)) {
            Err(kind) => Err(fault_at(r, kind)),
            Ok(head) => {
                let h = headers_end(ls, c, b);
                match headers_from(ls, c, h, Seq::empty()) {
                    Err(e) => Err(e),
                    Ok(headers) => Ok(
                        Some(
                            RequestModel {
                                method: head.method,
                                url: head.url,
                                query: head.query,
                                version: head.version,
                                headers,
                                body: tokenize(
                                    if h < b {
                                        body_text(ls, h + 1, b)
                                    } else {
                                        Seq::empty()
                                    },
                                ),
                            },
                        ),
                    ),
                }
            },
        }
    }
}

/// The next `###` line is at or after `i`.
pub proof fn lemma_next_delim(ls: Seq<Seq<char>>, i: int)
    requires
        0 <= i <= ls.len(),
    ensures
        i <= next_delim(ls, i) <= ls.len(),
    decreases ls.len() - i,
{
    if i < ls.len() && !is_delim(ls[i]) {
        lemma_next_delim(ls, i + 1);
    }
}

/// The requests of the blocks from line `i` on, after those in `acc`.
pub open spec fn blocks_from(ls: Seq<Seq<char>>, i: int, acc: Seq<RequestModel>) -> Result<
    Seq<RequestModel>,
    ParseError,
>
    decreases ls.len() - i,
{
    if i < 0 || i >= ls.len() {
        Ok(acc)
    } else {
        proof {
            lemma_next_delim(ls, i);
        }
        let d = next_delim(ls, i);
        match block(ls, i, d) {
            Err(e) => Err(e),
            Ok(o) => {
                let acc2 = match o {
                    Some(r) => acc.push(r),
                    None => acc,
                };
                if d >= ls.len() {
                    Ok(acc2)
                } else {
                    blocks_from(ls, d + 1, acc2)
                }
            },
        }
    }
}

fn first_filled_at(ls: &Vec<Vec<char>>, i: usize, b: usize) -> (r: usize)
    requires
        i <= b <= ls.len(),
    ensures
        r == first_filled(lines_view(ls@), i as int, b as int),
        i <= r <= b,
{
    let ghost v = lines_view(ls@);
    let mut j = i;
    while j < b
        invariant
            i <= j <= b <= ls.len(),
            v == lines_view(ls@),
            first_filled(v, j as int, b as int) == first_filled(v, i as int, b as int),
        ensures
            i <= j <= b,
            j == first_filled(v, i as int, b as int),
        decreases b - j,
    {
        if !is_blank_line(&ls[j]) {
            break;
        }
        j += 1;
    }
    j
}

fn next_delim_at(ls: &Vec<Vec<char>>, i: usize) -> (r: usize)
    requires
        i <= ls.len(),
    ensures
        r == next_delim(lines_view(ls@), i as int),
        i <= r <= ls.len(),
{
    let ghost v = lines_view(ls@);
    let mut j = i;
    while j < ls.len()
        invariant
            i <= j <= ls.len(),
            v == lines_view(ls@),
            next_delim(v, j as int) == next_delim(v, i as int),
        ensures
            i <= j <= ls.len(),
            j == next_delim(v, i as int),
        decreases ls.len() - j,
    {
        if is_delim_line(&ls[j]) {
            break;
        }
        j += 1;
    }
    j
}

fn is_cont_line(l: &Vec<char>) -> (r: bool)
    ensures
        r == is_cont(l@),
{
    let a = skip_ws_at(l, 0);
    a < l.len() && (l[a] == '?' || l[a] == '&')
}

fn cont_end_at(ls: &Vec<Vec<char>>, i: usize, b: usize) -> (r: usize)
    requires
        i <= b <= ls.len(),
    ensures
        r == cont_end(lines_view(ls@), i as int, b as int),
        i <= r <= b,
{
    let ghost v = lines_view(ls@);
    let mut j = i;
    while j < b
        invariant
            i <= j <= b <= ls.len(),
            v == lines_view(ls@),
            cont_end(v, j as int, b as int) == cont_end(v, i as int, b as int),
        ensures
            i <= j <= b,
            j == cont_end(v, i as int, b as int),
        decreases b - j,
    {
        if !is_cont_line(&ls[j]) {
            break;
        }
        j += 1;
    }
    j
}

fn headers_end_at(ls: &Vec<Vec<char>>, i: usize, b: usize) -> (r: usize)
    requires
        i <= b <= ls.len(),
    ensures
        r == headers_end(lines_view(ls@), i as int, b as int),
        i <= r <= b,
{
    let ghost v = lines_view(ls@);
    let mut j = i;
    while j < b
        invariant
            i <= j <= b <= ls.len(),
            v == lines_view(ls@),
            headers_end(v, j as int, b as int) == headers_end(v, i as int, b as int),
        ensures
            i <= j <= b,
            j == headers_end(v, i as int, b as int),
        decreases b - j,
    {
        if is_blank_line(&ls[j]) {
            break;
        }
        j += 1;
    }
    j
}

fn last_filled_end_at(ls: &Vec<Vec<char>>, lo: usize, hi: usize) -> (r: usize)
    requires
        lo <= hi <= ls.len(),
    ensures
        r == last_filled_end(lines_view(ls@), lo as int, hi as int),
        lo <= r <= hi,
{
    let ghost v = lines_view(ls@);
    let mut j = hi;
    while j > lo
        invariant
            lo <= j <= hi <= ls.len(),
            v == lines_view(ls@),
            last_filled_end(v, lo as int, j as int) == last_filled_end(v, lo as int, hi as int),
        ensures
            lo <= j <= hi,
            j == last_filled_end(v, lo as int, hi as int),
        decreases j,
    {
        if !is_blank_line(&ls[j - 1]) {
            break;
        }
        j -= 1;
    }
    j
}

fn name_end_at(l: &Vec<char>, i: usize) -> (r: usize)
    requires
        i <= l.len(),
    ensures
        r == name_end(l@, i as int),
        i <= r <= l.len(),
{
    let mut j = i;
    while j < l.len()
        invariant
            i <= j <= l.len(),
            name_end(l@, j as int) == name_end(l@, i as int),
        ensures
            i <= j <= l.len(),
            j == name_end(l@, i as int),
        decreases l.len() - j,
    {
        if is_space(l[j]) || l[j] == ':' {
            break;
        }
        j += 1;
    }
    j
}

fn header_exec(l: &Vec<char>) -> (r: Result<(String, TemplateString), ParseErrorKind>)
    ensures
        match r {
            Ok(kv) => header(l@) == Ok::<(Seq<char>, Seq<Piece>), ParseErrorKind>((kv.0@, kv.1@)),
            Err(k) => header(l@) == Err::<(Seq<char>, Seq<Piece>), ParseErrorKind>(k),
        },
{
    let a = skip_ws_at(l, 0);
    let p = name_end_at(l, a);
    if a < p && p < l.len() && l[p] == ':' {
        let v0 = skip_ws_at(l, p + 1);
        let v1 = trim_back_at(l, v0, l.len());
        let vc = slice_chars(l, v0, v1);
        if !quotes_closed_exec(&vc) {
            return Err(ParseErrorKind::UnterminatedQuote);
        }
        let name = string_of(l, a, p);
        let value = tokenize_chars(&vc);
        Ok((name, value))
    } else {
        Err(ParseErrorKind::MalformedHeader)
    }
}

/// The outcome of reading a table, seen through views.
pub open spec fn table_view(r: Result<HashTemplateMap, ParseError>) -> Result<Entries, ParseError> {
    match r {
        Ok(m) => Ok(m@),
        Err(e) => Err(e),
    }
}

fn headers_exec(ls: &Vec<Vec<char>>, c: usize, h: usize) -> (r: Result<HashTemplateMap, ParseError>)
    requires
        c <= h <= ls.len(),
    ensures
        table_view(r) == headers_from(lines_view(ls@), c as int, h as int, Seq::empty()),
{
    let ghost v = lines_view(ls@);
    let mut acc = HashTemplateMap::new();
    let mut i = c;
    while i < h
        invariant
            c <= i <= h <= ls.len(),
            v == lines_view(ls@),
            headers_from(v, i as int, h as int, acc@) == headers_from(v, c as int, h as int, Seq::empty()),
        decreases h - i,
    {
        match header_exec(&ls[i]) {
            Err(kind) => {
                return Err(ParseError { line: i + 1, kind });
            },
            Ok(kv) => {
                let (k, t) = kv;
                acc.insert(k, t);
            },
        }
        i += 1;
    }
    Ok(acc)
}

fn request_text_exec(ls: &Vec<Vec<char>>, r: usize, c: usize) -> (t: Vec<char>)
    requires
        r < c <= ls.len(),
    ensures
        t@ == request_text(lines_view(ls@), r as int, c as int),
{
    let ghost v = lines_view(ls@);
    let first = &ls[r];
    let mut acc = slice_chars(first, 0, trim_back_at(first, 0, first.len()));
    let mut i = r + 1;
    while i < c
        invariant
            r < i <= c <= ls.len(),
            v == lines_view(ls@),
            joined_from(v, i as int, c as int, acc@) == request_text(v, r as int, c as int),
        decreases c - i,
    {
        let l = &ls[i];
        let a = skip_ws_at(l, 0);
        let b = trim_back_at(l, a, l.len());
        let mut piece = slice_chars(l, a, b);
        acc.append(&mut piece);
        i += 1;
    }
    acc
}

fn body_exec(ls: &Vec<Vec<char>>, lo: usize, hi: usize) -> (t: Vec<char>)
    requires
        lo <= hi <= ls.len(),
    ensures
        t@ == body_text(lines_view(ls@), lo as int, hi as int),
{
    let ghost v = lines_view(ls@);
    let f = first_filled_at(ls, lo, hi);
    let e = last_filled_end_at(ls, f, hi);
    if f >= e {
        return Vec::new();
    }
    let mut acc = slice_chars(&ls[f], 0, ls[f].len());
    assert(acc@ =~= v[f as int]);
    let mut i = f + 1;
    while i < e
        invariant
            f < i <= e <= hi <= ls.len(),
            v == lines_view(ls@),
            join_from(v, i as int, e as int, acc@) == body_text(v, lo as int, hi as int),
        decreases e - i,
    {
        let ghost before = acc@;
        acc.push('\n');
        let mut line = slice_chars(&ls[i], 0, ls[i].len());
        assert(line@ =~= v[i as int]);
        acc.append(&mut line);
        assert(acc@ =~= before + seq!['\n'] + v[i as int]);
        i += 1;
    }
    acc
}

/// The outcome of reading a block, seen through views.
pub open spec fn block_view(r: Result<Option<HttpRequest>, ParseError>) -> Result<Option<RequestModel>, ParseError> {
    match r {
        Ok(Some(q)) => Ok(Some(q@)),
        Ok(None) => Ok(None),
        Err(e) => Err(e),
    }
}

fn block_exec(ls: &Vec<Vec<char>>, a: usize, b: usize) -> (r: Result<Option<HttpRequest>, ParseError>)
    requires
        a <= b <= ls.len(),
    ensures
        block_view(r) == block(lines_view(ls@), a as int, b as int),
{
    let r = first_filled_at(ls, a, b);
    if r >= b {
        return Ok(None);
    }
    let c = cont_end_at(ls, r + 1, b);
    let text = request_text_exec(ls, r, c);
    let head = request_line_exec(&text);
    let (method, url, query, version) = match head {
        Err(kind) => {
            return Err(ParseError { line: r + 1, kind });
        },
        Ok(h) => h,
    };
    let h = headers_end_at(ls, c, b);
    let headers = match headers_exec(ls, c, h) {
        Err(e) => {
            return Err(e);
        },
        Ok(m) => m,
    };
    let body_chars = if h < b {
        body_exec(ls, h + 1, b)
    } else {
        Vec::new()
    };
    let body = tokenize_chars(&body_chars);
    Ok(Some(HttpRequest { method, url, query, version, headers, body }))
}

pub open spec fn requests_view(v: Seq<HttpRequest>) -> Seq<RequestModel> {
    v.map_values(|q: HttpRequest| q@)
}

/// The outcome of reading the request blocks, seen through views.
pub open spec fn requests_result_view(r: Result<Vec<HttpRequest>, ParseError>) -> Result<Seq<RequestModel>, ParseError> {
    match r {
        Ok(v) => Ok(requests_view(v@)),
        Err(e) => Err(e),
    }
}

fn blocks_exec(ls: &Vec<Vec<char>>, start: usize) -> (r: Result<Vec<HttpRequest>, ParseError>)
    requires
        start <= ls.len(),
    ensures
        requests_result_view(r) == blocks_from(lines_view(ls@), start as int, Seq::empty()),
{
    let ghost v = lines_view(ls@);
    let mut acc: Vec<HttpRequest> = Vec::new();
    let mut i = start;
    assert(requests_view(acc@) =~= Seq::<RequestModel>::empty());
    while i < ls.len()
        invariant
            i <= ls.len(),
            v == lines_view(ls@),
            blocks_from(v, i as int, requests_view(acc@)) == blocks_from(v, start as int, Seq::empty()),
        decreases ls.len() - i,
    {
        let d = next_delim_at(ls, i);
        match block_exec(ls, i, d) {
            Err(e) => {
                return Err(e);
            },
            Ok(o) => {
                match o {
                    Some(q) => {
                        let ghost before = acc@;
                        acc.push(q);
                        assert(requests_view(acc@) =~= requests_view(before).push(q@));
                    },
                    None => {},
                }
            },
        }
        if d >= ls.len() {
            return Ok(acc);
        }
        i = d + 1;
    }
    Ok(acc)
}

/// A line that opens the variable block: it starts with `@`.
pub open spec fn starts_vars(l: Seq<char>) -> bool {
    let a = skip_ws(l, 0);
    a < l.len() && l[a] == '@'
}

/// A variable definition `@name = value`, whose value closes the quotes it opens.
pub open spec fn var_def(l: Seq<char>) -> Result<(Seq<char>, Seq<Piece>), ParseErrorKind> {
    let a = skip_ws(l, 0);
    if a < l.len() && l[a] == '@' {
        let k = ident_run(l, a + 1);
        let e = skip_ws(l, a + 1 + k);
        if k > 0 && e < l.len() && l[e] == '=' {
            let v0 = skip_ws(l, e + 1);
            let v1 = trim_back(l, v0, l.len() as int);
            if quotes_closed(l.subrange(v0, v1)) {
                Ok((l.subrange(a + 1, a + 1 + k), tokenize(l.subrange(v0, v1))))
            } else {
                Err(ParseErrorKind::UnterminatedQuote)
            }
        } else {
            Err(ParseErrorKind::MalformedVariable)
        }
    } else {
        Err(ParseErrorKind::MalformedVariable)
    }
}

/// The definitions on lines `[i, b)`, blank lines skipped, inserted into `acc`.
pub open spec fn vars_from(ls: Seq<Seq<char>>, i: int, b: int, acc: Entries) -> Result<
    Entries,
    ParseError,
>
    decreases b - i,
{
    if i < 0 || i >= b {
        Ok(acc)
    } else if is_blank(ls[i]) {
        vars_from(ls, i + 1, b, acc)
    } else {
        match var_def(ls[i]) {
            Err(kind) => Err(fault_at(i, kind)),
            Ok(kv) => vars_from(ls, i + 1, b, insert_entry(acc, kv.0, kv.1)),
        }
    }
}

/// A request file: its requests in order and its variables.
pub struct FileModel {
    pub requests: Seq<RequestModel>,
    pub variables: Entries,
}

/// A file of lines: when its first filled line starts with `@`, the lines up to
/// the first `###` define variables and request blocks follow; otherwise the
/// whole file is request blocks.
pub open spec fn parse_lines(ls: Seq<Seq<char>>) -> Result<FileModel, ParseError> {
    let f = first_filled(ls, 0, ls.len() as int);
    if f < ls.len() && starts_vars(ls[f]) {
        let d = next_delim(ls, f);
        match vars_from(ls, f, d, Seq::empty()) {
            Err(e) => Err(e),
            Ok(vars) => match if d < ls.len() {
                blocks_from(ls, d + 1, Seq::empty())
            } else {
                Ok(Seq::empty())
            } {
                Err(e) => Err(e),
                Ok(rs) => Ok(FileModel { requests: rs, variables: vars }),
            },
        }
    } else {
        match blocks_from(ls, 0, Seq::empty()) {
            Err(e) => Err(e),
            Ok(rs) => Ok(FileModel { requests: rs, variables: Seq::empty() }),
        }
    }
}

/// What a request file's text means.
pub open spec fn parse_text(s: Seq<char>) -> Result<FileModel, ParseError> {
    parse_lines(split_lines(s))
}

fn ident_run_at(l: &Vec<char>, i: usize) -> (r: usize)
    requires
        i <= l.len(),
    ensures
        r == ident_run(l@, i as int),
        i + r <= l.len(),
{
    let mut j = i;
    while j < l.len()
        invariant
            i <= j <= l.len(),
            ident_run(l@, i as int) == (j - i) + ident_run(l@, j as int),
        ensures
            i <= j <= l.len(),
            ident_run(l@, i as int) == j - i,
        decreases l.len() - j,
    {
        if !is_ident(l[j]) {
            break;
        }
        j += 1;
    }
    j - i
}

fn var_def_exec(l: &Vec<char>) -> (r: Result<(String, TemplateString), ParseErrorKind>)
    ensures
        match r {
            Ok(kv) => var_def(l@) == Ok::<(Seq<char>, Seq<Piece>), ParseErrorKind>((kv.0@, kv.1@)),
            Err(k) => var_def(l@) == Err::<(Seq<char>, Seq<Piece>), ParseErrorKind>(k),
        },
{
    let a = skip_ws_at(l, 0);
    if a < l.len() && l[a] == '@' {
        let k = ident_run_at(l, a + 1);
        let e = skip_ws_at(l, a + 1 + k);
        if k > 0 && e < l.len() && l[e] == '=' {
            let v0 = skip_ws_at(l, e + 1);
            let v1 = trim_back_at(l, v0, l.len());
            let vc = slice_chars(l, v0, v1);
            if !quotes_closed_exec(&vc) {
                return Err(ParseErrorKind::UnterminatedQuote);
            }
            let name = string_of(l, a + 1, a + 1 + k);
            let value = tokenize_chars(&vc);
            return Ok((name, value));
        }
    }
    Err(ParseErrorKind::MalformedVariable)
}

fn vars_exec(ls: &Vec<Vec<char>>, start: usize, b: usize) -> (r: Result<HashTemplateMap, ParseError>)
    requires
        start <= b <= ls.len(),
    ensures
        table_view(r) == vars_from(lines_view(ls@), start as int, b as int, Seq::empty()),
{
    let ghost v = lines_view(ls@);
    let mut acc = HashTemplateMap::new();
    let mut i = start;
    while i < b
        invariant
            start <= i <= b <= ls.len(),
            v == lines_view(ls@),
            vars_from(v, i as int, b as int, acc@) == vars_from(v, start as int, b as int, Seq::empty()),
        decreases b - i,
    {
        if !is_blank_line(&ls[i]) {
            match var_def_exec(&ls[i]) {
                Err(kind) => {
                    return Err(ParseError { line: i + 1, kind });
                },
                Ok(kv) => {
                    let (k, t) = kv;
                    acc.insert(k, t);
                },
            }
        }
        i += 1;
    }
    Ok(acc)
}

/// The requests and the variables of a request file.
#[derive(Debug, Clone, PartialEq, Eq)]
pub struct HttpFile {
    pub requests: Vec<HttpRequest>,
    pub variables: HashTemplateMap,
}

impl View for HttpFile {
    type V = FileModel;

    open spec fn view(&self) -> FileModel {
        FileModel { requests: requests_view(self.requests@), variables: self.variables@ }
    }
}

/// The outcome of reading a file, seen through views.
pub open spec fn file_view(r: Result<HttpFile, ParseError>) -> Result<FileModel, ParseError> {
    match r {
        Ok(f) => Ok(f@),
        Err(e) => Err(e),
    }
}

/// Reads a request file. No partial file is returned on failure.
pub fn parse(input: &str) -> (r: Result<HttpFile, ParseError>)
    ensures
        file_view(r) == parse_text(input@),
{
    let cs = chars_of(input);
    let ls = split_lines_exec(&cs);
    let ghost v = lines_view(ls@);
    let f = first_filled_at(&ls, 0, ls.len());
    let a = if f < ls.len() {
        skip_ws_at(&ls[f], 0)
    } else {
        0
    };
    if f < ls.len() && a < ls[f].len() && ls[f][a] == '@' {
        let d = next_delim_at(&ls, f);
        let variables = match vars_exec(&ls, f, d) {
            Err(e) => {
                return Err(e);
            },
            Ok(m) => m,
        };
        let requests = if d < ls.len() {
            match blocks_exec(&ls, d + 1) {
                Err(e) => {
                    return Err(e);
                },
                Ok(rs) => rs,
            }
        } else {
            let none: Vec<HttpRequest> = Vec::new();
            assert(requests_view(none@) =~= Seq::<RequestModel>::empty());
            none
        };
        Ok(HttpFile { requests, variables })
    } else {
        let requests = match blocks_exec(&ls, 0) {
            Err(e) => {
                return Err(e);
            },
            Ok(rs) => rs,
        };
        let variables = HashTemplateMap::new();
        Ok(HttpFile { requests, variables })
    }
}

/// Where `first_filled` stops: past blank lines only, on a filled line or at `b`.
pub proof fn lemma_first_filled(ls: Seq<Seq<char>>, i: int, b: int)
    requires
        0 <= i <= b,
    ensures
        i <= first_filled(ls, i, b) <= b,
        forall|j: int| i <= j < first_filled(ls, i, b) ==> is_blank(#[trigger] ls[j]),
        first_filled(ls, i, b) < b ==> !is_blank(ls[first_filled(ls, i, b)]),
    decreases b - i,
{
    if i < b && is_blank(ls[i]) {
        lemma_first_filled(ls, i + 1, b);
    }
}

/// `first_filled` is the first filled line of the range.
pub proof fn lemma_first_filled_at(ls: Seq<Seq<char>>, i: int, b: int, k: int)
    requires
        0 <= i <= k < b,
        forall|j: int| i <= j < k ==> is_blank(#[trigger] ls[j]),
        !is_blank(ls[k]),
    ensures
        first_filled(ls, i, b) == k,
    decreases k - i,
{
    if i < k {
        lemma_first_filled_at(ls, i + 1, b, k);
    }
}

/// Where `cont_end` stops: past continuation lines only, on another line or at `b`.
pub proof fn lemma_cont_end(ls: Seq<Seq<char>>, i: int, b: int)
    requires
        0 <= i <= b,
    ensures
        i <= cont_end(ls, i, b) <= b,
        forall|j: int| i <= j < cont_end(ls, i, b) ==> is_cont(#[trigger] ls[j]),
        cont_end(ls, i, b) < b ==> !is_cont(ls[cont_end(ls, i, b)]),
    decreases b - i,
{
    if i < b && is_cont(ls[i]) {
        lemma_cont_end(ls, i + 1, b);
    }
}

/// Lines `[lo, hi)` of `ls` stand `d` lines further in `ls2`.
pub open spec fn shifted(ls: Seq<Seq<char>>, ls2: Seq<Seq<char>>, lo: int, hi: int, d: int) -> bool {
    forall|j: int| lo <= j < hi ==> ls2[j + d] == #[trigger] ls[j]
}

proof fn lemma_shift_first_filled(ls: Seq<Seq<char>>, ls2: Seq<Seq<char>>, i: int, b: int, d: int)
    requires
        0 <= i <= b,
        0 <= i + d,
        shifted(ls, ls2, i, b, d),
    ensures
        first_filled(ls2, i + d, b + d) == first_filled(ls, i, b) + d,
    decreases b - i,
{
    if i < b {
        assert(ls2[i + d] == ls[i]);
        lemma_shift_first_filled(ls, ls2, i + 1, b, d);
    }
}

proof fn lemma_shift_headers_end(ls: Seq<Seq<char>>, ls2: Seq<Seq<char>>, i: int, b: int, d: int)
    requires
        0 <= i <= b,
        0 <= i + d,
        shifted(ls, ls2, i, b, d),
    ensures
        headers_end(ls2, i + d, b + d) == headers_end(ls, i, b) + d,
        i <= headers_end(ls, i, b) <= b,
    decreases b - i,
{
    if i < b {
        assert(ls2[i + d] == ls[i]);
        lemma_shift_headers_end(ls, ls2, i + 1, b, d);
    }
}

proof fn lemma_shift_last_filled_end(ls: Seq<Seq<char>>, ls2: Seq<Seq<char>>, lo: int, hi: int, d: int)
    requires
        0 <= lo <= hi,
        0 <= lo + d,
        shifted(ls, ls2, lo, hi, d),
    ensures
        last_filled_end(ls2, lo + d, hi + d) == last_filled_end(ls, lo, hi) + d,
        lo <= last_filled_end(ls, lo, hi) <= hi,
    decreases hi - lo,
{
    if lo < hi {
        assert(ls2[hi - 1 + d] == ls[hi - 1]);
        lemma_shift_last_filled_end(ls, ls2, lo, hi - 1, d);
    }
}

proof fn lemma_shift_join_from(
    ls: Seq<Seq<char>>,
    ls2: Seq<Seq<char>>,
    i: int,
    hi: int,
    d: int,
    acc: Seq<char>,
)
    requires
        0 <= i <= hi,
        0 <= i + d,
        shifted(ls, ls2, i, hi, d),
    ensures
        join_from(ls2, i + d, hi + d, acc) == join_from(ls, i, hi, acc),
    decreases hi - i,
{
    if i < hi {
        assert(ls2[i + d] == ls[i]);
        lemma_shift_join_from(ls, ls2, i + 1, hi, d, acc + seq!['\n'] + ls[i]);
    }
}

proof fn lemma_shift_body(ls: Seq<Seq<char>>, ls2: Seq<Seq<char>>, lo: int, hi: int, d: int)
    requires
        0 <= lo <= hi,
        0 <= lo + d,
        shifted(ls, ls2, lo, hi, d),
    ensures
        body_text(ls2, lo + d, hi + d) == body_text(ls, lo, hi),
{
    lemma_shift_first_filled(ls, ls2, lo, hi, d);
    lemma_first_filled(ls, lo, hi);
    let f = first_filled(ls, lo, hi);
    lemma_shift_last_filled_end(ls, ls2, f, hi, d);
    let e = last_filled_end(ls, f, hi);
    if f < e {
        assert(ls2[f + d] == ls[f]);
        lemma_shift_join_from(ls, ls2, f + 1, e, d, ls[f]);
    }
}

proof fn lemma_shift_headers_from(
    ls: Seq<Seq<char>>,
    ls2: Seq<Seq<char>>,
    i: int,
    h: int,
    d: int,
    acc: Entries,
)
    requires
        0 <= i <= h,
        0 <= i + d,
        shifted(ls, ls2, i, h, d),
    ensures
        headers_from(ls2, i + d, h + d, acc) is Ok <==> headers_from(ls, i, h, acc) is Ok,
        headers_from(ls, i, h, acc) is Ok ==> headers_from(ls2, i + d, h + d, acc) == headers_from(
            ls,
            i,
            h,
            acc,
        ),
    decreases h - i,
{
    if i < h {
        assert(ls2[i + d] == ls[i]);
        match header(ls[i]) {
            Err(_) => {},
            Ok(kv) => {
                lemma_shift_headers_from(ls, ls2, i + 1, h, d, insert_entry(acc, kv.0, kv.1));
            },
        }
    }
}

proof fn lemma_joined_from(ls: Seq<Seq<char>>, i: int, c: int, acc: Seq<char>)
    requires
        0 <= i <= c,
        ends_solid(acc),
    ensures
        joined_from(ls, i, c, acc).len() >= acc.len(),
        joined_from(ls, i, c, acc).subrange(0, acc.len() as int) == acc,
        ends_solid(joined_from(ls, i, c, acc)),
    decreases c - i,
{
    if i < c {
        lemma_trimmed(ls[i]);
        let next = acc + trim(ls[i]);
        assert(ends_solid(next)) by {
            if trim(ls[i]).len() == 0 {
                assert(next =~= acc);
            }
        }
        lemma_joined_from(ls, i + 1, c, next);
        assert(next.subrange(0, acc.len() as int) =~= acc);
        let j = joined_from(ls, i + 1, c, next);
        assert(j.subrange(0, acc.len() as int) =~= j.subrange(0, next.len() as int).subrange(0, acc.len() as int));
    }
}

/// A query continued on the lines after the request line reads as if those lines
/// were joined to the request line: the block whose continuation lines are
/// replaced by the joined line is read without fault exactly when the original
/// is, and gives the same request.
#[verifier::rlimit(40)]
pub proof fn law_continued_query_joins(ls: Seq<Seq<char>>, a: int, b: int)
    requires
        0 <= a <= b <= ls.len(),
        first_filled(ls, a, b) < b,
    ensures
        ({
            let r = first_filled(ls, a, b);
            let c = cont_end(ls, r + 1, b);
            let one = ls.take(r) + seq![request_text(ls, r, c)] + ls.skip(c);
            let b1 = b - (c - r - 1);
            &&& (block(one, a, b1) is Ok <==> block(ls, a, b) is Ok)
            &&& block(ls, a, b) is Ok ==> block(one, a, b1) == block(ls, a, b)
        }),
{
    let r = first_filled(ls, a, b);
    lemma_first_filled(ls, a, b);
    lemma_cont_end(ls, r + 1, b);
    let c = cont_end(ls, r + 1, b);
    let joined = request_text(ls, r, c);
    let one = ls.take(r) + seq![joined] + ls.skip(c);
    let b1 = b - (c - r - 1);
    let d = r + 1 - c;
    assert(one[r] == joined);
    assert forall|j: int| 0 <= j < r implies one[j] == #[trigger] ls[j] by {}
    assert(shifted(ls, one, c, b, d)) by {
        assert forall|j: int| c <= j < b implies one[j + d] == #[trigger] ls[j] by {
            assert(one[j + d] == ls.skip(c)[j - c]);
        }
    }
    // The joined line is filled and has no trailing whitespace.
    let first = ls[r];
    lemma_trimmed(first);
    lemma_joined_from(ls, r + 1, c, trim_end(first));
    let k = skip_ws(first, 0);
    lemma_skip_ws(first, 0);
    assert(joined[k] == first[k]) by {
        assert(joined.subrange(0, trim_end(first).len() as int)[k] == joined[k]);
    }
    lemma_skip_ws(joined, 0);
    assert(!is_blank(joined)) by {
        if skip_ws(joined, 0) > k {
            assert(is_ws(joined[k]));
        }
    }
    assert forall|j: int| a <= j < r implies is_blank(#[trigger] one[j]) by {
        assert(one[j] == ls[j]);
    }
    lemma_first_filled_at(one, a, b1, r);
    lemma_trim_back(joined, 0, joined.len() as int);
    assert(trim_end(joined) =~= joined);
    assert(cont_end(one, r + 1, b1) == r + 1) by {
        if r + 1 < b1 {
            assert(one[r + 1] == ls[c]);
        }
    }
    assert(request_text(one, r, r + 1) == joined);
    lemma_shift_headers_end(ls, one, c, b, d);
    let h = headers_end(ls, c, b);
    assert(shifted(ls, one, c, h, d));
    lemma_shift_headers_from(ls, one, c, h, d, Seq::empty());
    if h < b {
        assert(shifted(ls, one, h + 1, b, d));
        lemma_shift_body(ls, one, h + 1, b, d);
    }
}

} // verus!

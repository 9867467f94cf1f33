//! Lines, blanks and whitespace-separated words of a request file.

use vstd::prelude::*;
use crate::values::is_quote;

verus! {

pub open spec fn is_ws(c: char) -> bool {
    c == ' ' || c == '\t' || c == '\r'
}

/// The index of the first `'\n'` at or after `i`, or the end.
pub open spec fn line_end(s: Seq<char>, i: int) -> int
    decreases s.len() - i,
{
    if i < 0 || i >= s.len() || s[i] == '\n' {
        i
    } else {
        line_end(s, i + 1)
    }
}

/// A line ends between its start and the end of the text.
pub proof fn lemma_line_end(s: Seq<char>, i: int)
    requires
        0 <= i <= s.len(),
    ensures
        i <= line_end(s, i) <= s.len(),
    decreases s.len() - i,
{
    if i < s.len() && s[i] != '\n' {
        lemma_line_end(s, i + 1);
    }
}

/// The lines from position `i` on, after those in `acc`.
pub open spec fn lines_from(s: Seq<char>, i: int, acc: Seq<Seq<char>>) -> Seq<Seq<char>>
    decreases s.len() - i,
{
    if i < 0 || i > s.len() {
        acc
    } else {
        proof {
            lemma_line_end(s, i);
        }
        let e = line_end(s, i);
        if e >= s.len() {
            acc.push(s.subrange(i, s.len() as int))
        } else {
            lines_from(s, e + 1, acc.push(s.subrange(i, e)))
        }
    }
}

/// The text cut at each `'\n'`; the newlines themselves belong to no line.
pub open spec fn split_lines(s: Seq<char>) -> Seq<Seq<char>> {
    lines_from(s, 0, Seq::empty())
}

pub open spec fn lines_view(v: Seq<Vec<char>>) -> Seq<Seq<char>> {
    v.map_values(|l: Vec<char>| l@)
}

/// The first index at or after `i` that holds no whitespace, or the end.
pub open spec fn skip_ws(l: Seq<char>, i: int) -> int
    decreases l.len() - i,
{
    if i < 0 || i >= l.len() || !is_ws(l[i]) {
        i
    } else {
        skip_ws(l, i + 1)
    }
}

/// The end of `l[lo..hi]` once trailing whitespace is dropped.
pub open spec fn trim_back(l: Seq<char>, lo: int, hi: int) -> int
    decreases hi - lo,
{
    if hi <= lo || !is_ws(l[hi - 1]) {
        hi
    } else {
        trim_back(l, lo, hi - 1)
    }
}

/// The line without leading and trailing whitespace.
pub open spec fn trim(l: Seq<char>) -> Seq<char> {
    l.subrange(skip_ws(l, 0), trim_back(l, skip_ws(l, 0), l.len() as int))
}

/// The line without trailing whitespace.
pub open spec fn trim_end(l: Seq<char>) -> Seq<char> {
    l.subrange(0, trim_back(l, 0, l.len() as int))
}

pub open spec fn is_blank(l: Seq<char>) -> bool {
    skip_ws(l, 0) >= l.len()
}

/// A line that separates request blocks: `###` and nothing else (but the
/// carriage return of a CRLF line ending).
pub open spec fn is_delim(l: Seq<char>) -> bool {
    l == seq!['#', '#', '#'] || l == seq!['#', '#', '#', '\r']
}

/// The first index at or after `i` that holds `c`, or the end.
pub open spec fn find_char(l: Seq<char>, i: int, c: char) -> int
    decreases l.len() - i,
{
    if i < 0 || i >= l.len() || l[i] == c {
        i
    } else {
        find_char(l, i + 1, c)
    }
}

/// The end of the word that starts at `i`: the next whitespace outside quotes,
/// or the end; `None` when a quote opened in the word is not closed on the line.
pub open spec fn word_end(l: Seq<char>, i: int) -> Option<int>
    decreases l.len() - i,
{
    if i < 0 || i >= l.len() || is_ws(l[i]) {
        Some(i)
    } else if is_quote(l[i]) {
        proof {
            lemma_find_char(l, i + 1, l[i]);
        }
        let q = find_char(l, i + 1, l[i]);
        if q >= l.len() {
            None
        } else {
            word_end(l, q + 1)
        }
    } else {
        word_end(l, i + 1)
    }
}

/// The words from position `i` on, as (start, end) pairs, after those in `acc`.
pub open spec fn words_from(l: Seq<char>, i: int, acc: Seq<(int, int)>) -> Option<Seq<(int, int)>>
    decreases l.len() - i,
{
    proof {
        lemma_skip_ws(l, i);
    }
    let a = skip_ws(l, i);
    if i < 0 || a >= l.len() {
        Some(acc)
    } else {
        proof {
            lemma_word_end(l, a);
        }
        match word_end(l, a) {
            None => None,
            Some(e) => words_from(l, e, acc.push((a, e))),
        }
    }
}

/// The whitespace-separated words of a line, where quotes may hold whitespace.
pub open spec fn words(l: Seq<char>) -> Option<Seq<(int, int)>> {
    words_from(l, 0, Seq::empty())
}

/// What `skip_ws` skips is whitespace, and where it stops is not.
pub proof fn lemma_skip_ws(l: Seq<char>, i: int)
    ensures
        0 <= i ==> i <= skip_ws(l, i),
        0 <= i <= l.len() ==> skip_ws(l, i) <= l.len(),
        0 <= i ==> forall|k: int| i <= k < skip_ws(l, i) ==> is_ws(l[k]),
        0 <= skip_ws(l, i) < l.len() ==> !is_ws(l[skip_ws(l, i)]),
    decreases l.len() - i,
{
    if 0 <= i < l.len() && is_ws(l[i]) {
        lemma_skip_ws(l, i + 1);
    }
}

/// What `trim_back` drops is whitespace, and the character before where it stops is not.
pub proof fn lemma_trim_back(l: Seq<char>, lo: int, hi: int)
    requires
        lo <= hi,
    ensures
        lo <= trim_back(l, lo, hi) <= hi,
        forall|m: int| trim_back(l, lo, hi) <= m < hi ==> is_ws(l[m]),
        trim_back(l, lo, hi) > lo ==> !is_ws(l[trim_back(l, lo, hi) - 1]),
    decreases hi - lo,
{
    if hi > lo && is_ws(l[hi - 1]) {
        lemma_trim_back(l, lo, hi - 1);
    }
}

/// Text that is empty or ends in a character other than whitespace.
pub open spec fn ends_solid(s: Seq<char>) -> bool {
    s.len() == 0 || !is_ws(s.last())
}

/// A trimmed line ends in a character other than whitespace, and keeps the first
/// one of the line.
pub proof fn lemma_trimmed(l: Seq<char>)
    ensures
        ends_solid(trim(l)),
        ends_solid(trim_end(l)),
        !is_blank(l) ==> trim_end(l).len() > skip_ws(l, 0) && trim_end(l)[skip_ws(l, 0)] == l[skip_ws(l, 0)],
        !is_blank(l) ==> trim(l).len() > 0 && trim(l)[0] == l[skip_ws(l, 0)],
{
    lemma_skip_ws(l, 0);
    let a = skip_ws(l, 0);
    lemma_trim_back(l, a, l.len() as int);
    lemma_trim_back(l, 0, l.len() as int);
    if !is_blank(l) {
        let t = trim_back(l, 0, l.len() as int);
        if t <= a {
            assert(is_ws(l[a]));
        }
        let u = trim_back(l, a, l.len() as int);
        if u <= a {
            assert(is_ws(l[a]));
        }
    }
}

/// `find_char` stops on the character sought, or at the end.
pub proof fn lemma_find_char(l: Seq<char>, i: int, c: char)
    requires
        0 <= i <= l.len(),
    ensures
        i <= find_char(l, i, c) <= l.len(),
        find_char(l, i, c) < l.len() ==> l[find_char(l, i, c)] == c,
    decreases l.len() - i,
{
    if i < l.len() && l[i] != c {
        lemma_find_char(l, i + 1, c);
    }
}

/// A word that starts on a non-whitespace character is not empty.
pub proof fn lemma_word_end(l: Seq<char>, i: int)
    requires
        0 <= i <= l.len(),
    ensures
        match word_end(l, i) {
            Some(e) => i <= e <= l.len() && (i < l.len() && !is_ws(l[i]) ==> i < e),
            None => true,
        },
    decreases l.len() - i,
{
    if i < l.len() && !is_ws(l[i]) {
        if is_quote(l[i]) {
            lemma_find_char(l, i + 1, l[i]);
            let q = find_char(l, i + 1, l[i]);
            if q < l.len() {
                lemma_word_end(l, q + 1);
            }
        } else {
            lemma_word_end(l, i + 1);
        }
    }
}

pub(crate) fn is_space(c: char) -> (r: bool)
    ensures
        r == is_ws(c),
{
    c == ' ' || c == '\t' || c == '\r'
}

/// Cuts the text into lines.
pub(crate) fn split_lines_exec(cs: &Vec<char>) -> (r: Vec<Vec<char>>)
    ensures
        lines_view(r@) == split_lines(cs@),
{
    let ghost s = cs@;
    let mut out: Vec<Vec<char>> = Vec::new();
    let mut cur: Vec<char> = Vec::new();
    let mut start: usize = 0;
    let mut i: usize = 0;
    assert(lines_view(out@) =~= Seq::<Seq<char>>::empty());
    while i < cs.len()
        invariant
            start <= i <= cs.len(),
            s == cs@,
            cur@ == s.subrange(start as int, i as int),
            line_end(s, start as int) == line_end(s, i as int),
            lines_from(s, start as int, lines_view(out@)) == split_lines(s),
        decreases cs.len() - i,
    {
        if cs[i] == '\n' {
            let ghost before = out@;
            out.push(cur);
            assert(lines_view(out@) =~= lines_view(before).push(s.subrange(start as int, i as int)));
            cur = Vec::new();
            i += 1;
            start = i;
            assert(cur@ =~= s.subrange(start as int, i as int));
        } else {
            cur.push(cs[i]);
            assert(cur@ =~= s.subrange(start as int, i + 1));
            i += 1;
        }
    }
    let ghost before = out@;
    out.push(cur);
    assert(lines_view(out@) =~= lines_view(before).push(s.subrange(start as int, s.len() as int)));
    out
}

pub(crate) fn skip_ws_at(l: &Vec<char>, i: usize) -> (r: usize)
    requires
        i <= l.len(),
    ensures
        r == skip_ws(l@, i as int),
        i <= r <= l.len(),
{
    let mut j = i;
    while j < l.len()
        invariant
            i <= j <= l.len(),
            skip_ws(l@, j as int) == skip_ws(l@, i as int),
        ensures
            i <= j <= l.len(),
            j == skip_ws(l@, i as int),
        decreases l.len() - j,
    {
        if !is_space(l[j]) {
            break;
        }
        j += 1;
    }
    j
}

pub(crate) fn trim_back_at(l: &Vec<char>, lo: usize, hi: usize) -> (r: usize)
    requires
        lo <= hi <= l.len(),
    ensures
        r == trim_back(l@, lo as int, hi as int),
        lo <= r <= hi,
{
    let mut j = hi;
    while j > lo
        invariant
            lo <= j <= hi <= l.len(),
            trim_back(l@, lo as int, j as int) == trim_back(l@, lo as int, hi as int),
        ensures
            lo <= j <= hi,
            j == trim_back(l@, lo as int, hi as int),
        decreases j,
    {
        if !is_space(l[j - 1]) {
            break;
        }
        j -= 1;
    }
    j
}

pub(crate) fn find_char_at(l: &Vec<char>, i: usize, c: char) -> (r: usize)
    requires
        i <= l.len(),
    ensures
        r == find_char(l@, i as int, c),
        i <= r <= l.len(),
{
    let mut j = i;
    while j < l.len()
        invariant
            i <= j <= l.len(),
            find_char(l@, j as int, c) == find_char(l@, i as int, c),
        ensures
            i <= j <= l.len(),
            j == find_char(l@, i as int, c),
        decreases l.len() - j,
    {
        if l[j] == c {
            break;
        }
        j += 1;
    }
    j
}

pub(crate) fn is_blank_line(l: &Vec<char>) -> (r: bool)
    ensures
        r == is_blank(l@),
{
    skip_ws_at(l, 0) >= l.len()
}

pub(crate) fn is_delim_line(l: &Vec<char>) -> (r: bool)
    ensures
        r == is_delim(l@),
{
    let n = l.len();
    if (n == 3 || (n == 4 && l[3] == '\r')) && l[0] == '#' && l[1] == '#' && l[2] == '#' {
        assert(l@ =~= seq!['#', '#', '#'] || l@ =~= seq!['#', '#', '#', '\r']);
        true
    } else {
        assert(l@ != seq!['#', '#', '#']) by {
            if l@ == seq!['#', '#', '#'] {
                assert(l@[0] == '#' && l@[1] == '#' && l@[2] == '#');
            }
        }
        assert(l@ != seq!['#', '#', '#', '\r']) by {
            if l@ == seq!['#', '#', '#', '\r'] {
                assert(l@[0] == '#' && l@[1] == '#' && l@[2] == '#' && l@[3] == '\r');
            }
        }
        false
    }
}

/// Whether every quote opened in `l` from `i` on is closed again by the same
/// quote character.
pub open spec fn quotes_closed_from(l: Seq<char>, i: int) -> bool
    decreases l.len() - i,
{
    if i < 0 || i >= l.len() {
        true
    } else if is_quote(l[i]) {
        proof {
            lemma_find_char(l, i + 1, l[i]);
        }
        let q = find_char(l, i + 1, l[i]);
        if q >= l.len() {
            false
        } else {
            quotes_closed_from(l, q + 1)
        }
    } else {
        quotes_closed_from(l, i + 1)
    }
}

/// A value whose quotes all close.
pub open spec fn quotes_closed(l: Seq<char>) -> bool {
    quotes_closed_from(l, 0)
}

pub(crate) fn quotes_closed_exec(l: &Vec<char>) -> (r: bool)
    ensures
        r == quotes_closed(l@),
{
    let mut j: usize = 0;
    while j < l.len()
        invariant
            j <= l.len(),
            quotes_closed_from(l@, j as int) == quotes_closed(l@),
        decreases l.len() - j,
    {
        let c = l[j];
        if c == '"' || c == '\'' {
            let q = find_char_at(l, j + 1, c);
            if q >= l.len() {
                return false;
            }
            j = q + 1;
        } else {
            j += 1;
        }
    }
    true
}

fn word_end_at(l: &Vec<char>, i: usize) -> (r: Option<usize>)
    requires
        i <= l.len(),
    ensures
        match r {
            Some(e) => word_end(l@, i as int) == Some(e as int) && e <= l.len(),
            None => word_end(l@, i as int) is None,
        },
{
    let mut j = i;
    while j < l.len()
        invariant
            i <= j <= l.len(),
            word_end(l@, j as int) == word_end(l@, i as int),
        ensures
            i <= j <= l.len(),
            word_end(l@, j as int) == word_end(l@, i as int),
            j == l.len() || is_ws(l@[j as int]),
        decreases l.len() - j,
    {
        let c = l[j];
        if is_space(c) {
            break;
        }
        if c == '"' || c == '\'' {
            let q = find_char_at(l, j + 1, c);
            if q >= l.len() {
                return None;
            }
            j = q + 1;
        } else {
            j += 1;
        }
    }
    Some(j)
}

/// The words of a line; `None` when a quote is left open.
pub(crate) fn words_exec(l: &Vec<char>) -> (r: Option<Vec<(usize, usize)>>)
    ensures
        match r {
            Some(v) => words(l@) == Some(v@.map_values(|p: (usize, usize)| (p.0 as int, p.1 as int)))
                && forall|k: int| 0 <= k < v.len() ==> (#[trigger] v@[k]).0 < v@[k].1 <= l.len(),
            None => words(l@) is None,
        },
{
    let mut out: Vec<(usize, usize)> = Vec::new();
    let mut i: usize = 0;
    assert(out@.map_values(|p: (usize, usize)| (p.0 as int, p.1 as int)) =~= Seq::<(int, int)>::empty());
    loop
        invariant
            i <= l.len(),
            words_from(l@, i as int, out@.map_values(|p: (usize, usize)| (p.0 as int, p.1 as int)))
                == words(l@),
            forall|k: int| 0 <= k < out.len() ==> (#[trigger] out@[k]).0 < out@[k].1 <= l.len(),
        decreases l.len() - i,
    {
        proof {
            lemma_skip_ws(l@, i as int);
        }
        let a = skip_ws_at(l, i);
        if a >= l.len() {
            return Some(out);
        }
        proof {
            lemma_word_end(l@, a as int);
        }
        match word_end_at(l, a) {
            None => {
                return None;
            },
            Some(e) => {
                let ghost before = out@;
                out.push((a, e));
                assert(out@.map_values(|p: (usize, usize)| (p.0 as int, p.1 as int)) =~= before.map_values(
                    |p: (usize, usize)| (p.0 as int, p.1 as int),
                ).push((a as int, e as int)));
                i = e;
            },
        }
    }
}

} // verus!

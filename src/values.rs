//! The value grammar: one value position of a request file (a URL, a query or
//! header value, a body, a variable definition) read as a template.

use vstd::prelude::*;
use crate::template::{pieces_of, render, surface, Fragment, Piece, TemplateString, Variable};
use crate::text::{chars_of, string_of};

verus! {

/// Characters allowed in a variable name.
pub open spec fn is_ident_char(c: char) -> bool {
    ('a' <= c && c <= 'z') || ('A' <= c && c <= 'Z') || ('0' <= c && c <= '9') || c == '_'
}

pub open spec fn is_quote(c: char) -> bool {
    c == '"' || c == '\''
}

/// The number of name characters from position `i` on.
pub open spec fn ident_run(s: Seq<char>, i: int) -> int
    decreases s.len() - i,
{
    if 0 <= i < s.len() && is_ident_char(s[i]) {
        1 + ident_run(s, i + 1)
    } else {
        0
    }
}

/// The length of the reference `{{name}}` that starts at `i`, or 0 if none does.
pub open spec fn ref_len(s: Seq<char>, i: int) -> int {
    if 0 <= i && i + 1 < s.len() && s[i] == '{' && s[i + 1] == '{' {
        let k = ident_run(s, i + 2);
        if k > 0 && i + k + 3 < s.len() && s[i + k + 2] == '}' && s[i + k + 3] == '}' {
            k + 4
        } else {
            0
        }
    } else {
        0
    }
}

/// The end of the literal run that goes on at `i`: the next reference or the end.
pub open spec fn run_end(s: Seq<char>, i: int) -> int
    decreases s.len() - i,
{
    if i < 0 || i >= s.len() || ref_len(s, i) > 0 {
        i
    } else {
        run_end(s, i + 1)
    }
}

/// Literal text with one enclosing pair of equal quotes taken off.
pub open spec fn unquoted(t: Seq<char>) -> Seq<char> {
    if t.len() >= 2 && is_quote(t[0]) && t.last() == t[0] {
        t.subrange(1, t.len() - 1)
    } else {
        t
    }
}

/// Bounds of a run of name characters.
pub proof fn lemma_ident_run(s: Seq<char>, i: int)
    requires
        0 <= i,
    ensures
        0 <= ident_run(s, i),
        i + ident_run(s, i) <= s.len() || ident_run(s, i) == 0,
        forall|j: int| i <= j < i + ident_run(s, i) ==> is_ident_char(s[j]),
    decreases s.len() - i,
{
    if 0 <= i < s.len() && is_ident_char(s[i]) {
        lemma_ident_run(s, i + 1);
    }
}

/// A literal run ends between its start and the end of the text.
pub proof fn lemma_run_end(s: Seq<char>, i: int)
    requires
        0 <= i <= s.len(),
    ensures
        i <= run_end(s, i) <= s.len(),
    decreases s.len() - i,
{
    if i < s.len() && ref_len(s, i) == 0 {
        lemma_run_end(s, i + 1);
    }
}

/// The fragments read from position `i` on, after those already in `acc`.
pub open spec fn tokenize_from(s: Seq<char>, i: int, acc: Seq<Piece>) -> Seq<Piece>
    decreases s.len() - i,
{
    if i < 0 || i >= s.len() {
        acc
    } else if ref_len(s, i) > 0 {
        let n = ref_len(s, i);
        tokenize_from(s, i + n, acc.push(Piece::Ref(s.subrange(i + 2, i + n - 2))))
    } else {
        proof {
            lemma_run_end(s, i + 1);
        }
        let j = run_end(s, i + 1);
        tokenize_from(s, j, acc.push(Piece::Text(unquoted(s.subrange(i, j)))))
    }
}

/// A value read as a template: each `{{name}}` is a reference, each maximal run
/// of other text is literal text, unquoted.
pub open spec fn tokenize(s: Seq<char>) -> Seq<Piece> {
    tokenize_from(s, 0, Seq::empty())
}

pub(crate) fn is_ident(c: char) -> (r: bool)
    ensures
        r == is_ident_char(c),
{
    ('a' <= c && c <= 'z') || ('A' <= c && c <= 'Z') || ('0' <= c && c <= '9') || c == '_'
}

fn ref_len_at(cs: &Vec<char>, i: usize) -> (r: usize)
    requires
        i <= cs.len(),
    ensures
        r == ref_len(cs@, i as int),
{
    let ghost s = cs@;
    if i < cs.len() && cs.len() - i >= 2 && cs[i] == '{' && cs[i + 1] == '{' {
        let mut j: usize = i + 2;
        while j < cs.len()
            invariant
                i + 2 <= j <= cs.len(),
                s == cs@,
                ident_run(s, i + 2) == (j - (i + 2)) + ident_run(s, j as int),
            ensures
                i + 2 <= j <= cs.len(),
                ident_run(s, i + 2) == j - (i + 2),
            decreases cs.len() - j,
        {
            if !is_ident(cs[j]) {
                break;
            }
            j += 1;
        }
        let k = j - (i + 2);
        if k > 0 && cs.len() - j >= 2 && cs[j] == '}' && cs[j + 1] == '}' {
            k + 4
        } else {
            0
        }
    } else {
        0
    }
}

/// The characters `cs[lo..hi]` as a vector.
pub(crate) fn slice_chars(cs: &Vec<char>, lo: usize, hi: usize) -> (r: Vec<char>)
    requires
        lo <= hi <= cs.len(),
    ensures
        r@ == cs@.subrange(lo as int, hi as int),
{
    let mut r: Vec<char> = Vec::new();
    let mut i: usize = lo;
    while i < hi
        invariant
            lo <= i <= hi <= cs.len(),
            r@ == cs@.subrange(lo as int, i as int),
        decreases hi - i,
    {
        r.push(cs[i]);
        assert(r@ =~= cs@.subrange(lo as int, i + 1));
        i += 1;
    }
    r
}

/// Reads a value as a template.
pub(crate) fn tokenize_chars(cs: &Vec<char>) -> (r: TemplateString)
    ensures
        r@ == tokenize(cs@),
{
    let ghost s = cs@;
    let mut frags: Vec<Fragment> = Vec::new();
    let mut i: usize = 0;
    assert(pieces_of(frags@) =~= Seq::<Piece>::empty());
    while i < cs.len()
        invariant
            i <= cs.len(),
            s == cs@,
            tokenize_from(s, i as int, pieces_of(frags@)) == tokenize(s),
        decreases cs.len() - i,
    {
        let ghost before = frags@;
        let n = ref_len_at(cs, i);
        if n > 0 {
            proof {
                lemma_ident_run(s, i + 2);
            }
            let name = string_of(cs, i + 2, i + n - 2);
            frags.push(Fragment::Var(Variable::named(name)));
            assert(pieces_of(frags@) =~= pieces_of(before).push(Piece::Ref(s.subrange(i + 2, i + n - 2))));
            i = i + n;
        } else {
            let mut j: usize = i + 1;
            proof {
                lemma_run_end(s, i + 1);
            }
            while j < cs.len()
                invariant
                    i + 1 <= j <= cs.len(),
                    s == cs@,
                    run_end(s, j as int) == run_end(s, i + 1),
                ensures
                    i + 1 <= j <= cs.len(),
                    j == run_end(s, i + 1),
                decreases cs.len() - j,
            {
                if ref_len_at(cs, j) > 0 {
                    break;
                }
                j += 1;
            }
            let ghost t = s.subrange(i as int, j as int);
            let text = if j - i >= 2 && (cs[i] == '"' || cs[i] == '\'') && cs[j - 1] == cs[i] {
                assert(t.subrange(1, t.len() - 1) =~= s.subrange(i + 1, j - 1));
                string_of(cs, i + 1, j - 1)
            } else {
                string_of(cs, i, j)
            };
            frags.push(Fragment::RawText(text));
            assert(pieces_of(frags@) =~= pieces_of(before).push(Piece::Text(unquoted(t))));
            i = j;
        }
    }
    TemplateString::new(frags)
}

/// Reads a string as a template.
pub fn parse_value(s: &str) -> (r: TemplateString)
    ensures
        r@ == tokenize(s@),
{
    let cs = chars_of(s);
    tokenize_chars(&cs)
}

/// Takes off one pair of equal quotes that encloses the whole input.
pub fn unquote(input: &str) -> (r: &str)
    ensures
        r@ == unquoted(input@),
{
    let n = input.unicode_len();
    if n >= 2 {
        let first = input.get_char(0);
        if (first == '"' || first == '\'') && input.get_char(n - 1) == first {
            return input.substring_char(1, n - 1);
        }
    }
    input
}

impl std::str::FromStr for TemplateString {
    type Err = String;

    /// Reads a string as a template; this never fails.
    fn from_str(s: &str) -> (r: Result<TemplateString, String>)
        ensures
            r is Ok,
            r->Ok_0@ == tokenize(s@),
    {
        Ok(parse_value(s))
    }
}

/// Literal text that reads back as one literal of itself: not empty, holding no
/// `{{name}}` reference, and not enclosed in a pair of equal quotes.
pub open spec fn plain_literal(x: Seq<char>) -> bool {
    &&& x.len() > 0
    &&& forall|k: int| 0 <= k < x.len() ==> ref_len(x, k) == 0
    &&& unquoted(x) == x
}

/// With no reference in the text, a literal run goes on to its end.
proof fn lemma_run_to_end(x: Seq<char>, i: int)
    requires
        0 <= i <= x.len(),
        forall|k: int| 0 <= k < x.len() ==> ref_len(x, k) == 0,
    ensures
        run_end(x, i) == x.len(),
    decreases x.len() - i,
{
    if i < x.len() {
        lemma_run_to_end(x, i + 1);
    }
}

/// A template made only of literal text, whose rendered form neither starts nor
/// ends with a space, reads back from that form as itself. (Two literal fragments
/// in a row would read back as one; an empty literal, a literal holding a
/// reference or a quoted literal would read back otherwise: those are left out.)
pub proof fn law_literal_round_trip(t: Seq<Piece>)
    requires
        t.len() <= 1,
        forall|j: int| 0 <= j < t.len() ==> (#[trigger] t[j]) is Text && plain_literal(t[j]->Text_0),
        surface(t).len() > 0 ==> surface(t)[0] != ' ' && surface(t).last() != ' ',
    ensures
        tokenize(render(t)) == t,
{
    if t.len() == 0 {
        assert(surface(t) =~= Seq::<char>::empty());
        assert(tokenize(Seq::<char>::empty()) =~= t);
    } else {
        let x = t[0]->Text_0;
        assert(t[0] is Text);
        assert(t.drop_last() =~= Seq::<Piece>::empty());
        assert(surface(Seq::<Piece>::empty()) =~= Seq::<char>::empty());
        assert(surface(t) =~= x);
        assert(render(t) == x);
        assert(ref_len(x, 0) == 0);
        lemma_run_to_end(x, 1);
        assert(x.subrange(0, x.len() as int) =~= x);
        let acc = Seq::<Piece>::empty().push(Piece::Text(x));
        assert(tokenize_from(x, x.len() as int, acc) == acc);
        assert(acc =~= t);
    }
}

} // verus!

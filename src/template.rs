//! Template strings: sequences of literal text and `{{name}}` references,
//! the tables of variables they are resolved against, and their resolution.

use vstd::prelude::*;

verus! {

/// The meaning of one fragment: literal text, or a reference to a variable by name.
pub enum Piece {
    Text(Seq<char>),
    Ref(Seq<char>),
}

/// Why a template could not be resolved.
pub enum FillFault {
    /// A referenced name has no entry in the table.
    Missing(Seq<char>),
    /// A name was met again while its own definition was being resolved.
    Cyclic(Seq<char>),
}

/// A table of templates as an ordered list of (name, template) entries.
pub type Entries = Seq<(Seq<char>, Seq<Piece>)>;

/// The first index at or after `i` whose entry is named `k`.
pub open spec fn index_from(es: Entries, k: Seq<char>, i: int) -> Option<int>
    decreases es.len() - i,
{
    if i < 0 || i >= es.len() {
        None
    } else if es[i].0 == k {
        Some(i)
    } else {
        index_from(es, k, i + 1)
    }
}

/// The template that the table gives to the name `k`, if any.
pub open spec fn lookup(es: Entries, k: Seq<char>) -> Option<Seq<Piece>> {
    match index_from(es, k, 0) {
        Some(i) => Some(es[i].1),
        None => None,
    }
}

/// The table after giving `k` the template `v`: an entry of that name is replaced
/// in place, otherwise a new entry goes at the end.
pub open spec fn insert_entry(es: Entries, k: Seq<char>, v: Seq<Piece>) -> Entries {
    match index_from(es, k, 0) {
        Some(i) => es.update(i, (k, v)),
        None => es.push((k, v)),
    }
}

/// No two entries share a name.
pub open spec fn keys_distinct(es: Entries) -> bool {
    forall|i: int, j: int| 0 <= i < j < es.len() ==> es[i].0 != es[j].0
}

/// The number of entries whose name is not in `active`.
pub open spec fn count_unvisited(es: Entries, active: Seq<Seq<char>>) -> nat
    decreases es.len(),
{
    if es.len() == 0 {
        0
    } else {
        count_unvisited(es.drop_last(), active) + if active.contains(es.last().0) {
            0nat
        } else {
            1nat
        }
    }
}

/// Where `index_from` points: the first entry at or after `i` with that name.
pub proof fn lemma_index_from(es: Entries, k: Seq<char>, i: int)
    requires
        0 <= i,
    ensures
        match index_from(es, k, i) {
            Some(j) => i <= j < es.len() && es[j].0 == k && forall|m: int|
                i <= m < j ==> es[m].0 != k,
            None => forall|m: int| i <= m < es.len() ==> es[m].0 != k,
        },
    decreases es.len() - i,
{
    if i < es.len() && es[i].0 != k {
        lemma_index_from(es, k, i + 1);
    }
}

/// Marking a name active never adds unvisited entries, and removes one when the
/// name is defined and was not active yet.
pub proof fn lemma_count_push(es: Entries, active: Seq<Seq<char>>, n: Seq<char>)
    ensures
        count_unvisited(es, active.push(n)) <= count_unvisited(es, active),
        !active.contains(n) && (exists|i: int| 0 <= i < es.len() && es[i].0 == n)
            ==> count_unvisited(es, active.push(n)) < count_unvisited(es, active),
    decreases es.len(),
{
    if es.len() > 0 {
        let k = es.last().0;
        lemma_count_push(es.drop_last(), active, n);
        assert(active.push(n).contains(k) <==> (active.contains(k) || k == n)) by {
            if active.contains(k) {
                let j = choose|j: int| 0 <= j < active.len() && active[j] == k;
                assert(active.push(n)[j] == k);
            }
            if k == n {
                assert(active.push(n)[active.len() as int] == k);
            }
        }
        if !active.contains(n) && (exists|i: int| 0 <= i < es.len() && es[i].0 == n) {
            let i = choose|i: int| 0 <= i < es.len() && es[i].0 == n;
            if i < es.len() - 1 {
                assert(es.drop_last()[i].0 == n);
            }
        }
    }
}

/// Resolves the pieces `ps` against the table `vars`, left to right. `active`
/// holds the names whose definitions are being resolved around this call.
pub open spec fn fill_pieces(ps: Seq<Piece>, vars: Entries, active: Seq<Seq<char>>) -> Result<
    Seq<char>,
    FillFault,
>
    decreases count_unvisited(vars, active), ps.len(),
{
    if ps.len() == 0 {
        Ok(Seq::empty())
    } else {
        match fill_pieces(ps.drop_last(), vars, active) {
            Err(e) => Err(e),
            Ok(head) => match ps.last() {
                Piece::Text(t) => Ok(head + t),
                Piece::Ref(n) => if active.contains(n) {
                    Err(FillFault::Cyclic(n))
                } else {
                    match index_from(vars, n, 0) {
                        None => Err(FillFault::Missing(n)),
                        Some(i) => {
                            proof {
                                lemma_index_from(vars, n, 0);
                                lemma_count_push(vars, active, n);
                            }
                            match fill_pieces(vars[i].1, vars, active.push(n)) {
                                Err(e) => Err(e),
                                Ok(v) => Ok(head + v),
                            }
                        },
                    }
                },
            },
        }
    }
}

/// Resolves a template against a table, with no definition under way.
pub open spec fn resolve(ps: Seq<Piece>, vars: Entries) -> Result<Seq<char>, FillFault> {
    fill_pieces(ps, vars, Seq::empty())
}

/// A failed resolution stays failed, with the same fault, when pieces follow.
pub proof fn lemma_fault_extends(ps: Seq<Piece>, j: int, vars: Entries, active: Seq<Seq<char>>)
    requires
        0 <= j <= ps.len(),
        fill_pieces(ps.take(j), vars, active) is Err,
    ensures
        fill_pieces(ps, vars, active) == fill_pieces(ps.take(j), vars, active),
    decreases ps.len() - j,
{
    if j < ps.len() {
        assert(ps.drop_last().take(j) =~= ps.take(j));
        lemma_fault_extends(ps.drop_last(), j, vars, active);
    } else {
        assert(ps.take(j) =~= ps);
    }
}

/// The text of the pieces with each reference written as `{{name}}`.
pub open spec fn surface(ps: Seq<Piece>) -> Seq<char>
    decreases ps.len(),
{
    if ps.len() == 0 {
        Seq::empty()
    } else {
        surface(ps.drop_last()) + match ps.last() {
            Piece::Text(t) => t,
            Piece::Ref(n) => seq!['{', '{'] + n + seq!['}', '}'],
        }
    }
}

/// The surface text, put in double quotes when it starts or ends with a space.
pub open spec fn render(ps: Seq<Piece>) -> Seq<char> {
    let s = surface(ps);
    if s.len() > 0 && (s[0] == ' ' || s.last() == ' ') {
        seq!['"'] + s + seq!['"']
    } else {
        s
    }
}

/// A template is empty when it has no fragment or only empty literal text.
pub open spec fn pieces_empty(ps: Seq<Piece>) -> bool {
    forall|i: int| 0 <= i < ps.len() ==> ps[i] == Piece::Text(Seq::empty())
}

/// A named substitution point, written `{{name}}` in a template.
#[derive(Debug, Clone, PartialEq, Eq, Hash)]
pub struct Variable {
    name: String,
}

impl View for Variable {
    type V = Seq<char>;

    closed spec fn view(&self) -> Seq<char> {
        self.name@
    }
}

impl Variable {
    pub fn new(name: &str) -> (r: Variable)
        ensures
            r@ == name@,
    {
        Variable { name: name.to_owned() }
    }

    pub(crate) fn named(name: String) -> (r: Variable)
        ensures
            r@ == name@,
    {
        Variable { name }
    }

    /// The variable's name.
    pub fn name(&self) -> (r: &String)
        ensures
            r@ == self@,
    {
        &self.name
    }
}

/// One part of a template: a variable reference or literal text.
#[derive(Debug, Clone, PartialEq, Eq, Hash)]
pub enum Fragment {
    Var(Variable),
    RawText(String),
}

impl View for Fragment {
    type V = Piece;

    open spec fn view(&self) -> Piece {
        match self {
            Fragment::Var(v) => Piece::Ref(v@),
            Fragment::RawText(s) => Piece::Text(s@),
        }
    }
}

/// The meanings of a sequence of fragments.
pub open spec fn pieces_of(fs: Seq<Fragment>) -> Seq<Piece> {
    fs.map_values(|f: Fragment| f@)
}

impl Fragment {
    pub fn raw(value: &str) -> (r: Fragment)
        ensures
            r@ == Piece::Text(value@),
    {
        Fragment::RawText(value.to_owned())
    }

    pub fn var(name: &str) -> (r: Fragment)
        ensures
            r@ == Piece::Ref(name@),
    {
        Fragment::Var(Variable::new(name))
    }
}

/// A value that may hold `{{name}}` references: an ordered list of fragments.
#[derive(Debug, Clone, PartialEq, Eq, Hash)]
pub struct TemplateString {
    fragments: Vec<Fragment>,
}

impl View for TemplateString {
    type V = Seq<Piece>;

    closed spec fn view(&self) -> Seq<Piece> {
        pieces_of(self.fragments@)
    }
}

/// Why a template could not be resolved.
#[derive(Debug, Clone, PartialEq, Eq)]
pub enum FillError {
    /// A referenced variable has no entry in the table.
    MissingVariable(Variable),
    /// A variable's definition refers back to itself, directly or through others.
    CyclicVariable(Variable),
}

impl View for FillError {
    type V = FillFault;

    open spec fn view(&self) -> FillFault {
        match self {
            FillError::MissingVariable(v) => FillFault::Missing(v@),
            FillError::CyclicVariable(v) => FillFault::Cyclic(v@),
        }
    }
}

impl From<Variable> for FillError {
    fn from(v: Variable) -> (r: FillError)
        ensures
            r == FillError::MissingVariable(v),
    {
        FillError::MissingVariable(v)
    }
}

impl vstd::std_specs::convert::FromSpecImpl<Variable> for FillError {
    open spec fn obeys_from_spec() -> bool {
        true
    }

    open spec fn from_spec(v: Variable) -> FillError {
        FillError::MissingVariable(v)
    }
}

/// The outcome of a resolution, seen through views.
pub open spec fn filled_view(r: Result<String, FillError>) -> Result<Seq<char>, FillFault> {
    match r {
        Ok(s) => Ok(s@),
        Err(e) => Err(e@),
    }
}

/// The names of a stack of strings.
pub open spec fn names(v: Seq<String>) -> Seq<Seq<char>> {
    v.map_values(|s: String| s@)
}

fn is_active(active: &Vec<String>, n: &String) -> (r: bool)
    ensures
        r == names(active@).contains(n@),
{
    let mut i: usize = 0;
    while i < active.len()
        invariant
            i <= active.len(),
            forall|j: int| 0 <= j < i ==> active@[j]@ != n@,
        decreases active.len() - i,
    {
        if active[i] == *n {
            assert(names(active@)[i as int] == n@);
            return true;
        }
        i += 1;
    }
    proof {
        if names(active@).contains(n@) {
            let j = choose|j: int| 0 <= j < names(active@).len() && names(active@)[j] == n@;
            assert(active@[j]@ == n@);
        }
    }
    false
}

/// Resolves `frags`; `active` is the stack of names whose definitions are under way.
fn fill_in(frags: &Vec<Fragment>, vars: &HashTemplateMap, active: &mut Vec<String>) -> (r: Result<
    String,
    FillError,
>)
    ensures
        final(active)@ == old(active)@,
        filled_view(r) == fill_pieces(pieces_of(frags@), vars@, names(old(active)@)),
    decreases count_unvisited(vars@, names(old(active)@)),
{
    let ghost ps = pieces_of(frags@);
    let ghost es = vars@;
    let ghost act = names(active@);
    let mut acc = String::new();
    let mut i: usize = 0;
    assert(ps.take(0) =~= Seq::<Piece>::empty());
    while i < frags.len()
        invariant
            i <= frags.len(),
            ps == pieces_of(frags@),
            es == vars@,
            act == names(active@),
            active@ == old(active)@,
            fill_pieces(ps.take(i as int), es, act) == Ok::<Seq<char>, FillFault>(acc@),
        decreases frags.len() - i,
    {
        assert(ps.take(i + 1).drop_last() =~= ps.take(i as int));
        assert(ps.take(i + 1).last() == frags@[i as int]@);
        match &frags[i] {
            Fragment::RawText(s) => {
                acc.append(s.as_str());
            },
            Fragment::Var(v) => {
                if is_active(active, &v.name) {
                    let r = Err(FillError::CyclicVariable(Variable { name: v.name.clone() }));
                    proof {
                        lemma_fault_extends(ps, i + 1, es, act);
                    }
                    return r;
                }
                match vars.position(&v.name) {
                    None => {
                        let r = Err(FillError::MissingVariable(Variable { name: v.name.clone() }));
                        proof {
                            lemma_fault_extends(ps, i + 1, es, act);
                        }
                        return r;
                    },
                    Some(k) => {
                        proof {
                            lemma_index_from(es, v@, 0);
                            lemma_count_push(es, act, v@);
                        }
                        active.push(v.name.clone());
                        assert(names(active@) =~= act.push(v@));
                        let sub = fill_in(&vars.entries[k].1.fragments, vars, active);
                        active.pop();
                        assert(active@ =~= old(active)@);
                        match sub {
                            Err(e) => {
                                proof {
                                    lemma_fault_extends(ps, i + 1, es, act);
                                }
                                return Err(e);
                            },
                            Ok(s) => {
                                acc.append(s.as_str());
                            },
                        }
                    },
                }
            },
        }
        i += 1;
    }
    assert(ps.take(i as int) =~= ps);
    Ok(acc)
}

impl TemplateString {
    pub fn new(fragments: Vec<Fragment>) -> (r: TemplateString)
        ensures
            r@ == pieces_of(fragments@),
    {
        TemplateString { fragments }
    }

    /// A template of one literal fragment.
    pub fn raw(s: &str) -> (r: TemplateString)
        ensures
            r@ == seq![Piece::Text(s@)],
    {
        let mut fragments: Vec<Fragment> = Vec::new();
        fragments.push(Fragment::raw(s));
        assert(pieces_of(fragments@) =~= seq![Piece::Text(s@)]);
        TemplateString { fragments }
    }

    /// The fragments, in order.
    pub fn fragments(&self) -> (r: &Vec<Fragment>)
        ensures
            pieces_of(r@) == self@,
    {
        &self.fragments
    }

    /// Resolves every reference against `vars`, following references inside
    /// definitions, and concatenates the results. Fails on the first fragment, left
    /// to right, that names a missing variable or a variable under resolution.
    /// It ends on every table, cyclic ones included: each nested resolution marks
    /// one more entry active, so nesting is no deeper than the table has entries.
    pub fn fill(&self, vars: &HashTemplateMap) -> (r: Result<String, FillError>)
        ensures
            filled_view(r) == resolve(self@, vars@),
    {
        let mut active: Vec<String> = Vec::new();
        assert(names(active@) =~= Seq::<Seq<char>>::empty());
        fill_in(&self.fragments, vars, &mut active)
    }

    pub fn is_empty(&self) -> (r: bool)
        ensures
            r == pieces_empty(self@),
    {
        let mut i: usize = 0;
        while i < self.fragments.len()
            invariant
                i <= self.fragments.len(),
                pieces_empty(self@.take(i as int)),
            decreases self.fragments.len() - i,
        {
            match &self.fragments[i] {
                Fragment::Var(_) => {
                    assert(self@[i as int] != Piece::Text(Seq::empty()));
                    return false;
                },
                Fragment::RawText(s) => {
                    if !s.as_str().is_empty() {
                        assert(self@[i as int] != Piece::Text(Seq::empty()));
                        return false;
                    }
                    assert(s@ =~= Seq::<char>::empty());
                },
            }
            assert(self@[i as int] == Piece::Text(Seq::empty()));
            assert forall|j: int| 0 <= j < i + 1 implies #[trigger] self@.take(i + 1)[j] == Piece::Text(
                Seq::empty(),
            ) by {
                if j < i {
                    assert(self@.take(i as int)[j] == self@.take(i + 1)[j]);
                }
            }
            i += 1;
        }
        assert(self@.take(i as int) =~= self@);
        true
    }

    /// The surface form: references as `{{name}}`, the whole in double quotes when
    /// it starts or ends with a space.
    pub fn to_string(&self) -> (r: String)
        ensures
            r@ == render(self@),
    {
        let ghost ps = self@;
        let mut s = String::new();
        let mut i: usize = 0;
        while i < self.fragments.len()
            invariant
                i <= self.fragments.len(),
                ps == self@,
                s@ == surface(ps.take(i as int)),
            decreases self.fragments.len() - i,
        {
            assert(ps.take(i + 1).drop_last() =~= ps.take(i as int));
            match &self.fragments[i] {
                Fragment::RawText(t) => {
                    s.append(t.as_str());
                },
                Fragment::Var(v) => {
                    crate::text::push_char(&mut s, '{');
                    crate::text::push_char(&mut s, '{');
                    s.append(v.name.as_str());
                    crate::text::push_char(&mut s, '}');
                    crate::text::push_char(&mut s, '}');
                    assert(s@ =~= surface(ps.take(i as int)) + (seq!['{', '{'] + v@ + seq!['}', '}']));
                },
            }
            i += 1;
        }
        assert(ps.take(i as int) =~= ps);
        let n = s.as_str().unicode_len();
        if n > 0 && (s.as_str().get_char(0) == ' ' || s.as_str().get_char(n - 1) == ' ') {
            let mut q = String::new();
            crate::text::push_char(&mut q, '"');
            q.append(s.as_str());
            crate::text::push_char(&mut q, '"');
            q
        } else {
            s
        }
    }
}

/// The views of a list of (name, template) pairs.
pub open spec fn entries_view(v: Seq<(String, TemplateString)>) -> Entries {
    v.map_values(|e: (String, TemplateString)| (e.0@, e.1@))
}

/// Resolves each entry's template in order; fails with the first entry that fails.
pub open spec fn fill_entries(es: Entries, vars: Entries) -> Result<Seq<(Seq<char>, Seq<char>)>, FillFault>
    decreases es.len(),
{
    if es.len() == 0 {
        Ok(Seq::empty())
    } else {
        match fill_entries(es.drop_last(), vars) {
            Err(e) => Err(e),
            Ok(head) => match resolve(es.last().1, vars) {
                Err(e) => Err(e),
                Ok(v) => Ok(head.push((es.last().0, v))),
            },
        }
    }
}

/// A failed resolution of a table stays failed, with the same fault, when entries follow.
pub proof fn lemma_entries_fault_extends(es: Entries, j: int, vars: Entries)
    requires
        0 <= j <= es.len(),
        fill_entries(es.take(j), vars) is Err,
    ensures
        fill_entries(es, vars) == fill_entries(es.take(j), vars),
    decreases es.len() - j,
{
    if j < es.len() {
        assert(es.drop_last().take(j) =~= es.take(j));
        lemma_entries_fault_extends(es.drop_last(), j, vars);
    } else {
        assert(es.take(j) =~= es);
    }
}

/// The resolved values of a table, seen through views.
pub open spec fn filled_entries_view(r: Result<Vec<(String, String)>, FillError>) -> Result<
    Seq<(Seq<char>, Seq<char>)>,
    FillFault,
> {
    match r {
        Ok(v) => Ok(v@.map_values(|e: (String, String)| (e.0@, e.1@))),
        Err(e) => Err(e@),
    }
}

/// A table of templates keyed by name. Entries keep the order in which their
/// names were first given; giving a name again replaces its template.
#[derive(Debug, Clone, PartialEq, Eq)]
pub struct HashTemplateMap {
    entries: Vec<(String, TemplateString)>,
}

impl View for HashTemplateMap {
    type V = Entries;

    closed spec fn view(&self) -> Entries {
        entries_view(self.entries@)
    }
}

impl HashTemplateMap {
    pub fn new() -> (r: HashTemplateMap)
        ensures
            r@ == Seq::<(Seq<char>, Seq<Piece>)>::empty(),
            keys_distinct(r@),
    {
        let r = HashTemplateMap { entries: Vec::new() };
        assert(r@ =~= Seq::<(Seq<char>, Seq<Piece>)>::empty());
        r
    }

    /// The table holding the pairs, given in order, as by successive inserts.
    pub fn from_pairs(pairs: Vec<(String, TemplateString)>) -> (r: HashTemplateMap)
        ensures
            r@ == insert_all(Seq::empty(), entries_view(pairs@)),
            keys_distinct(r@),
    {
        let mut r = HashTemplateMap::new();
        let mut i: usize = 0;
        let ghost src = entries_view(pairs@);
        let ghost n = pairs.len();
        let mut rest = pairs;
        assert(src.take(0) =~= Seq::<(Seq<char>, Seq<Piece>)>::empty());
        assert(entries_view(rest@) =~= src.skip(0));
        while rest.len() > 0
            invariant
                i + rest.len() == n,
                n == src.len(),
                entries_view(rest@) == src.skip(i as int),
                r@ == insert_all(Seq::empty(), src.take(i as int)),
                keys_distinct(r@),
            decreases rest.len(),
        {
            let ghost before = rest@;
            let (k, v) = rest.remove(0);
            assert(entries_view(before)[0] == src[i as int]);
            assert(rest@ =~= before.subrange(1, before.len() as int));
            assert(entries_view(rest@) =~= entries_view(before).subrange(1, before.len() as int));
            assert(src.skip(i as int).subrange(1, before.len() as int) =~= src.skip(i + 1));
            assert(src.take(i + 1).drop_last() =~= src.take(i as int));
            r.insert(k, v);
            i += 1;
        }
        assert(src.take(i as int) =~= src);
        r
    }

    /// The number of entries.
    pub fn len(&self) -> (r: usize)
        ensures
            r == self@.len(),
    {
        self.entries.len()
    }

    /// The entries, in order.
    pub fn entries(&self) -> (r: &Vec<(String, TemplateString)>)
        ensures
            entries_view(r@) == self@,
    {
        &self.entries
    }

    fn position(&self, name: &String) -> (r: Option<usize>)
        ensures
            match r {
                Some(i) => index_from(self@, name@, 0) == Some(i as int) && i < self@.len(),
                None => index_from(self@, name@, 0) is None,
            },
    {
        proof {
            lemma_index_from(self@, name@, 0);
        }
        let mut i: usize = 0;
        while i < self.entries.len()
            invariant
                i <= self.entries.len(),
                index_from(self@, name@, i as int) == index_from(self@, name@, 0),
            decreases self.entries.len() - i,
        {
            if self.entries[i].0 == *name {
                return Some(i);
            }
            i += 1;
        }
        None
    }

    /// The template given to `name`, if any.
    pub fn get(&self, name: &str) -> (r: Option<&TemplateString>)
        ensures
            match r {
                Some(t) => lookup(self@, name@) == Some(t@),
                None => lookup(self@, name@) is None,
            },
    {
        let key = name.to_owned();
        match self.position(&key) {
            Some(i) => Some(&self.entries[i].1),
            None => None,
        }
    }

    /// Gives `name` the template `value`.
    pub fn insert(&mut self, name: String, value: TemplateString)
        ensures
            final(self)@ == insert_entry(old(self)@, name@, value@),
            keys_distinct(old(self)@) ==> keys_distinct(final(self)@),
    {
        proof {
            lemma_index_from(self@, name@, 0);
        }
        match self.position(&name) {
            Some(i) => {
                self.entries.set(i, (name, value));
                assert(final(self)@ =~= insert_entry(old(self)@, name@, value@));
                assert forall|j: int| 0 <= j < final(self)@.len() implies (#[trigger] final(self)@[j]).0
                    == old(self)@[j].0 by {}
            },
            None => {
                self.entries.push((name, value));
                assert(final(self)@ =~= insert_entry(old(self)@, name@, value@));
                assert forall|j: int| 0 <= j < old(self)@.len() implies (#[trigger] final(self)@[j]).0
                    == old(self)@[j].0 by {}
            },
        }
    }

    /// Resolves every entry's template against `vars`, keeping the order of the
    /// entries; fails with the first entry that fails.
    pub fn fill(&self, vars: &HashTemplateMap) -> (r: Result<Vec<(String, String)>, FillError>)
        ensures
            filled_entries_view(r) == fill_entries(self@, vars@),
    {
        let ghost es = self@;
        let mut out: Vec<(String, String)> = Vec::new();
        let mut i: usize = 0;
        assert(es.take(0) =~= Seq::<(Seq<char>, Seq<Piece>)>::empty());
        assert(out@.map_values(|e: (String, String)| (e.0@, e.1@)) =~= Seq::<(Seq<char>, Seq<char>)>::empty());
        while i < self.entries.len()
            invariant
                i <= self.entries.len(),
                es == self@,
                fill_entries(es.take(i as int), vars@) == filled_entries_view(Ok(out)),
            decreases self.entries.len() - i,
        {
            assert(es.take(i + 1).drop_last() =~= es.take(i as int));
            match self.entries[i].1.fill(vars) {
                Err(e) => {
                    proof {
                        lemma_entries_fault_extends(es, i + 1, vars@);
                    }
                    return Err(e);
                },
                Ok(v) => {
                    let ghost before = out@;
                    out.push((self.entries[i].0.clone(), v));
                    assert(out@.map_values(|e: (String, String)| (e.0@, e.1@)) =~= before.map_values(
                        |e: (String, String)| (e.0@, e.1@),
                    ).push((es[i as int].0, v@)));
                },
            }
            i += 1;
        }
        assert(es.take(i as int) =~= es);
        Ok(out)
    }
}

/// The table after inserting each pair in order.
pub open spec fn insert_all(es: Entries, pairs: Entries) -> Entries
    decreases pairs.len(),
{
    if pairs.len() == 0 {
        es
    } else {
        insert_entry(insert_all(es, pairs.drop_last()), pairs.last().0, pairs.last().1)
    }
}

/// `s` with `a` pushed holds exactly what `s` holds, and `a`.
pub proof fn lemma_push_contains(s: Seq<Seq<char>>, a: Seq<char>, x: Seq<char>)
    ensures
        s.push(a).contains(x) <==> (s.contains(x) || x == a),
{
    if s.contains(x) {
        let j = choose|j: int| 0 <= j < s.len() && s[j] == x;
        assert(s.push(a)[j] == x);
    }
    if x == a {
        assert(s.push(a)[s.len() as int] == x);
    }
    if s.push(a).contains(x) {
        let j = choose|j: int| 0 <= j < s.push(a).len() && s.push(a)[j] == x;
        if j < s.len() {
            assert(s[j] == x);
        }
    }
}

/// Fewer active names change nothing in a resolution that succeeds.
pub proof fn lemma_active_mono(ps: Seq<Piece>, vars: Entries, a: Seq<Seq<char>>, b: Seq<Seq<char>>)
    requires
        forall|x: Seq<char>| a.contains(x) ==> b.contains(x),
        fill_pieces(ps, vars, b) is Ok,
    ensures
        fill_pieces(ps, vars, a) == fill_pieces(ps, vars, b),
    decreases count_unvisited(vars, a), ps.len(),
{
    if ps.len() > 0 {
        lemma_active_mono(ps.drop_last(), vars, a, b);
        if let Piece::Ref(n) = ps.last() {
            lemma_index_from(vars, n, 0);
            let i = index_from(vars, n, 0)->Some_0;
            lemma_count_push(vars, a, n);
            assert forall|x: Seq<char>| a.push(n).contains(x) implies b.push(n).contains(x) by {
                lemma_push_contains(a, n, x);
                lemma_push_contains(b, n, x);
            }
            lemma_active_mono(vars[i].1, vars, a.push(n), b.push(n));
        }
    }
}

/// Resolving with `m` active gives the same result as without it, or else the
/// resolution meets `m` and resolves its definition `d` with `m` active.
proof fn lemma_meets(ps: Seq<Piece>, vars: Entries, a: Seq<Seq<char>>, m: Seq<char>, d: Seq<Piece>)
    requires
        lookup(vars, m) == Some(d),
        fill_pieces(ps, vars, a) is Ok,
        !a.contains(m),
    ensures
        fill_pieces(ps, vars, a.push(m)) == fill_pieces(ps, vars, a) || exists|s: Seq<Seq<char>>|
            s.contains(m) && (#[trigger] fill_pieces(d, vars, s)) is Ok,
    decreases count_unvisited(vars, a), ps.len(),
{
    if ps.len() > 0 {
        let init = ps.drop_last();
        lemma_meets(init, vars, a, m, d);
        if fill_pieces(init, vars, a.push(m)) == fill_pieces(init, vars, a) {
            if let Piece::Ref(n) = ps.last() {
                lemma_index_from(vars, n, 0);
                lemma_index_from(vars, m, 0);
                let i = index_from(vars, n, 0)->Some_0;
                let dn = vars[i].1;
                lemma_push_contains(a, m, m);
                if n == m {
                    assert(fill_pieces(d, vars, a.push(m)) is Ok);
                } else {
                    lemma_push_contains(a, m, n);
                    lemma_push_contains(a, n, m);
                    lemma_count_push(vars, a, n);
                    lemma_meets(dn, vars, a.push(n), m, d);
                    if fill_pieces(dn, vars, a.push(n).push(m)) == fill_pieces(dn, vars, a.push(n)) {
                        assert forall|x: Seq<char>| a.push(m).push(n).contains(x) implies a.push(n).push(
                            m,
                        ).contains(x) by {
                            lemma_push_contains(a.push(m), n, x);
                            lemma_push_contains(a, m, x);
                            lemma_push_contains(a.push(n), m, x);
                            lemma_push_contains(a, n, x);
                        }
                        lemma_active_mono(dn, vars, a.push(m).push(n), a.push(n).push(m));
                    }
                }
            }
        }
    }
}

/// A definition that resolves on its own resolves the same with its own name active.
pub proof fn lemma_own_name_active(m: Seq<char>, d: Seq<Piece>, vars: Entries)
    requires
        lookup(vars, m) == Some(d),
        resolve(d, vars) is Ok,
    ensures
        fill_pieces(d, vars, seq![m]) == resolve(d, vars),
{
    let e = Seq::<Seq<char>>::empty();
    assert(e.push(m) =~= seq![m]);
    assert(!e.contains(m));
    lemma_meets(d, vars, e, m, d);
    if fill_pieces(d, vars, e.push(m)) != fill_pieces(d, vars, e) {
        let s = choose|s: Seq<Seq<char>>| s.contains(m) && (#[trigger] fill_pieces(d, vars, s)) is Ok;
        assert forall|x: Seq<char>| seq![m].contains(x) implies s.contains(x) by {
            lemma_push_contains(e, m, x);
        }
        lemma_active_mono(d, vars, seq![m], s);
        lemma_active_mono(d, vars, e, seq![m]);
    }
}

/// Pieces each of whose references names a variable that resolves on its own
/// resolve too.
proof fn lemma_defined_prefix(ps: Seq<Piece>, vars: Entries)
    requires
        forall|j: int|
            0 <= j < ps.len() && (#[trigger] ps[j]) is Ref ==> lookup(vars, ps[j]->Ref_0) is Some
                && resolve(lookup(vars, ps[j]->Ref_0)->Some_0, vars) is Ok,
    ensures
        resolve(ps, vars) is Ok,
    decreases ps.len(),
{
    if ps.len() > 0 {
        let init = ps.drop_last();
        assert forall|j: int| 0 <= j < init.len() && (#[trigger] init[j]) is Ref implies lookup(
            vars,
            init[j]->Ref_0,
        ) is Some && resolve(lookup(vars, init[j]->Ref_0)->Some_0, vars) is Ok by {
            assert(init[j] == ps[j]);
        }
        lemma_defined_prefix(init, vars);
        if let Piece::Ref(n) = ps.last() {
            assert(ps[ps.len() - 1] is Ref);
            lemma_index_from(vars, n, 0);
            let d = lookup(vars, n)->Some_0;
            lemma_own_name_active(n, d, vars);
            assert(Seq::<Seq<char>>::empty().push(n) =~= seq![n]);
            assert(!Seq::<Seq<char>>::empty().contains(n));
        }
    }
}

/// Every reference of `ps` is one of `names`.
pub open spec fn refs_within(ps: Seq<Piece>, names: Set<Seq<char>>) -> bool {
    forall|j: int| 0 <= j < ps.len() && (#[trigger] ps[j]) is Ref ==> names.contains(ps[j]->Ref_0)
}

/// Every reference of `ps` ranks below `r`.
pub open spec fn refs_below(ps: Seq<Piece>, rank: spec_fn(Seq<char>) -> nat, r: nat) -> bool {
    forall|j: int| 0 <= j < ps.len() && (#[trigger] ps[j]) is Ref ==> rank(ps[j]->Ref_0) < r
}

/// Each of `names` is defined, and its definition refers only to `names` of lower
/// rank: among these names no definition reaches back to itself.
pub open spec fn closed_ranked(vars: Entries, names: Set<Seq<char>>, rank: spec_fn(Seq<char>) -> nat) -> bool {
    forall|n: Seq<char>|
        #![trigger names.contains(n)]
        names.contains(n) ==> lookup(vars, n) is Some && refs_within(lookup(vars, n)->Some_0, names)
            && refs_below(lookup(vars, n)->Some_0, rank, rank(n))
}

/// Under a ranking, pieces whose references rank below every active name resolve,
/// to the same text whatever those active names are.
proof fn lemma_ranked_resolves(
    ps: Seq<Piece>,
    vars: Entries,
    names: Set<Seq<char>>,
    rank: spec_fn(Seq<char>) -> nat,
    a: Seq<Seq<char>>,
    b: Seq<Seq<char>>,
    bound: nat,
)
    requires
        closed_ranked(vars, names, rank),
        refs_within(ps, names),
        refs_below(ps, rank, bound),
        forall|k: int| 0 <= k < a.len() ==> rank(#[trigger] a[k]) >= bound,
        forall|k: int| 0 <= k < b.len() ==> rank(#[trigger] b[k]) >= bound,
    ensures
        fill_pieces(ps, vars, a) is Ok,
        fill_pieces(ps, vars, a) == fill_pieces(ps, vars, b),
    decreases bound, ps.len(),
{
    if ps.len() > 0 {
        let init = ps.drop_last();
        assert forall|j: int| 0 <= j < init.len() && (#[trigger] init[j]) is Ref implies names.contains(
            init[j]->Ref_0,
        ) && rank(init[j]->Ref_0) < bound by {
            assert(init[j] == ps[j]);
        }
        lemma_ranked_resolves(init, vars, names, rank, a, b, bound);
        if let Piece::Ref(n) = ps.last() {
            assert(ps[ps.len() - 1] is Ref);
            assert(names.contains(n));
            if a.contains(n) {
                let k = choose|k: int| 0 <= k < a.len() && a[k] == n;
                assert(rank(a[k]) >= bound);
            }
            if b.contains(n) {
                let k = choose|k: int| 0 <= k < b.len() && b[k] == n;
                assert(rank(b[k]) >= bound);
            }
            lemma_index_from(vars, n, 0);
            let i = index_from(vars, n, 0)->Some_0;
            let d = vars[i].1;
            assert(lookup(vars, n) == Some(d));
            assert forall|k: int| 0 <= k < a.push(n).len() implies rank(#[trigger] a.push(n)[k]) >= rank(n) by {
                if k < a.len() {
                    assert(a.push(n)[k] == a[k]);
                }
            }
            assert forall|k: int| 0 <= k < b.push(n).len() implies rank(#[trigger] b.push(n)[k]) >= rank(n) by {
                if k < b.len() {
                    assert(b.push(n)[k] == b[k]);
                }
            }
            lemma_ranked_resolves(d, vars, names, rank, a.push(n), b.push(n), rank(n));
        }
    }
}

/// What one fragment resolves to: its text, or what the definition of the name
/// it refers to resolves to on its own.
pub open spec fn piece_value(p: Piece, vars: Entries) -> Seq<char> {
    match p {
        Piece::Text(x) => x,
        Piece::Ref(n) => resolve(lookup(vars, n)->Some_0, vars)->Ok_0,
    }
}

proof fn lemma_acyclic_piecewise(
    t: Seq<Piece>,
    vars: Entries,
    names: Set<Seq<char>>,
    rank: spec_fn(Seq<char>) -> nat,
)
    requires
        refs_within(t, names),
        closed_ranked(vars, names, rank),
    ensures
        resolve(t, vars) == Ok::<Seq<char>, FillFault>(
            Seq::new(t.len(), |j: int| piece_value(t[j], vars)).flatten_alt(),
        ),
    decreases t.len(),
{
    let parts = Seq::new(t.len(), |j: int| piece_value(t[j], vars));
    if t.len() == 0 {
        assert(parts =~= Seq::<Seq<char>>::empty());
    } else {
        let init = t.drop_last();
        assert forall|j: int| 0 <= j < init.len() && (#[trigger] init[j]) is Ref implies names.contains(
            init[j]->Ref_0,
        ) by {
            assert(init[j] == t[j]);
        }
        lemma_acyclic_piecewise(init, vars, names, rank);
        assert(parts.drop_last() =~= Seq::new(init.len(), |j: int| piece_value(init[j], vars)));
        if let Piece::Ref(n) = t.last() {
            assert(t[t.len() - 1] is Ref);
            assert(names.contains(n));
            let d = lookup(vars, n)->Some_0;
            let e = Seq::<Seq<char>>::empty();
            assert(!e.contains(n));
            lemma_index_from(vars, n, 0);
            assert forall|k: int| 0 <= k < e.push(n).len() implies rank(#[trigger] e.push(n)[k]) >= rank(n) by {}
            lemma_ranked_resolves(d, vars, names, rank, e.push(n), e, rank(n));
        }
    }
}

/// When every name that `t` reaches is defined and no definition among them
/// reaches back to itself (witnessed by a set `names` closed under references
/// and a ranking of it), `t` resolves, to the concatenation, in order, of what
/// each fragment resolves to: its text, or what the referenced name's definition
/// resolves to on its own.
pub proof fn law_acyclic_fill_succeeds(
    t: Seq<Piece>,
    vars: Entries,
    names: Set<Seq<char>>,
    rank: spec_fn(Seq<char>) -> nat,
)
    requires
        refs_within(t, names),
        closed_ranked(vars, names, rank),
    ensures
        resolve(t, vars) is Ok,
        resolve(t, vars) == Ok::<Seq<char>, FillFault>(
            Seq::new(t.len(), |j: int| piece_value(t[j], vars)).flatten(),
        ),
{
    lemma_acyclic_piecewise(t, vars, names, rank);
    Seq::new(t.len(), |j: int| piece_value(t[j], vars)).lemma_flatten_and_flatten_alt_are_equivalent();
}

/// Each reference of `ps` names a defined variable whose definition resolves on its own.
pub open spec fn refs_resolve(ps: Seq<Piece>, vars: Entries) -> bool {
    forall|j: int|
        0 <= j < ps.len() && (#[trigger] ps[j]) is Ref ==> lookup(vars, ps[j]->Ref_0) is Some && resolve(
            lookup(vars, ps[j]->Ref_0)->Some_0,
            vars,
        ) is Ok
}

/// A reference to a missing name fails the resolution with exactly that name when
/// each variable referenced before it is defined and resolves on its own: the
/// first missing name, left to right, is reported, whatever follows.
pub proof fn law_missing_variable(
    prefix: Seq<Piece>,
    name: Seq<char>,
    suffix: Seq<Piece>,
    vars: Entries,
)
    requires
        lookup(vars, name) is None,
        refs_resolve(prefix, vars),
    ensures
        resolve(prefix + seq![Piece::Ref(name)] + suffix, vars) == Err::<Seq<char>, FillFault>(
            FillFault::Missing(name),
        ),
{
    lemma_defined_prefix(prefix, vars);
    let t = prefix + seq![Piece::Ref(name)] + suffix;
    let j = prefix.len() as int + 1;
    assert(t.take(j).drop_last() =~= prefix);
    assert(t.take(j).last() == Piece::Ref(name));
    assert(!Seq::<Seq<char>>::empty().contains(name));
    lemma_fault_extends(t, j, vars, Seq::empty());
}

/// No table makes resolution nest deeper than its number of entries: each nested
/// resolution lowers `count_unvisited`, which starts at most at that number.
pub proof fn law_nesting_bounded(es: Entries, active: Seq<Seq<char>>)
    ensures
        count_unvisited(es, active) <= es.len(),
    decreases es.len(),
{
    if es.len() > 0 {
        law_nesting_bounded(es.drop_last(), active);
    }
}

/// With `a = {{b}}` and `b = {{a}}` in the table, a reference to `a` fails the
/// resolution as cyclic (it does not recurse without end), when each variable
/// referenced before it is defined and resolves on its own.
pub proof fn law_cycle_detected(
    prefix: Seq<Piece>,
    a: Seq<char>,
    b: Seq<char>,
    suffix: Seq<Piece>,
    vars: Entries,
)
    requires
        a != b,
        lookup(vars, a) == Some(seq![Piece::Ref(b)]),
        lookup(vars, b) == Some(seq![Piece::Ref(a)]),
        refs_resolve(prefix, vars),
    ensures
        resolve(prefix + seq![Piece::Ref(a)] + suffix, vars) == Err::<Seq<char>, FillFault>(
            FillFault::Cyclic(a),
        ),
{
    lemma_defined_prefix(prefix, vars);
    let t = prefix + seq![Piece::Ref(a)] + suffix;
    let j = prefix.len() as int + 1;
    let e = Seq::<Seq<char>>::empty();
    let da = seq![Piece::Ref(b)];
    let db = seq![Piece::Ref(a)];
    lemma_index_from(vars, a, 0);
    lemma_index_from(vars, b, 0);
    assert(da.drop_last() =~= Seq::<Piece>::empty());
    assert(db.drop_last() =~= Seq::<Piece>::empty());
    assert(e.push(a)[0] == a);
    assert(!e.contains(a));
    assert(!e.push(a).contains(b)) by {
        if e.push(a).contains(b) {
            let k = choose|k: int| 0 <= k < e.push(a).len() && e.push(a)[k] == b;
            assert(k == 0);
        }
    }
    assert(e.push(a).push(b)[0] == a);
    assert(e.push(a).push(b).contains(a));
    assert(db.last() == Piece::Ref(a));
    assert(da.last() == Piece::Ref(b));
    assert(fill_pieces(Seq::<Piece>::empty(), vars, e.push(a).push(b)) == Ok::<Seq<char>, FillFault>(Seq::empty()));
    assert(fill_pieces(Seq::<Piece>::empty(), vars, e.push(a)) == Ok::<Seq<char>, FillFault>(Seq::empty()));
    assert(fill_pieces(db, vars, e.push(a).push(b)) == Err::<Seq<char>, FillFault>(FillFault::Cyclic(a)));
    assert(fill_pieces(da, vars, e.push(a)) == Err::<Seq<char>, FillFault>(FillFault::Cyclic(a)));
    assert(t.take(j).drop_last() =~= prefix);
    assert(t.take(j).last() == Piece::Ref(a));
    lemma_fault_extends(t, j, vars, e);
}

/// A literal that starts or ends with a space is rendered inside double quotes.
pub proof fn law_spaced_literal_quoted(x: Seq<char>)
    requires
        x.len() > 0,
        x[0] == ' ' || x.last() == ' ',
    ensures
        render(seq![Piece::Text(x)]) == seq!['"'] + x + seq!['"'],
{
    let t = seq![Piece::Text(x)];
    assert(t.drop_last() =~= Seq::<Piece>::empty());
    assert(surface(Seq::<Piece>::empty()) =~= Seq::<char>::empty());
    assert(surface(t) =~= x);
}

} // verus!

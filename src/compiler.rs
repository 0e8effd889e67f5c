use vstd::prelude::*;

use crate::case::{ast_all, lemma_ast_all, Ast, MatchCase};
use crate::text::chars_of;
use crate::error::{message, ErrorKind, RegexError};
use crate::Regex;

verus! {

/// A scope of the compiler: the nodes gathered so far, the alternatives
/// already closed by `|`, and the id of the group it opens, if any.
pub struct ScopeSpec {
    pub acc: Seq<Ast>,
    pub alts: Option<Seq<Ast>>,
    pub cid: Option<usize>,
}

pub open spec fn empty_scope(cid: Option<usize>) -> ScopeSpec {
    ScopeSpec { acc: Seq::empty(), alts: None, cid }
}

/// The node a scope folds into when it is closed.
pub open spec fn close_spec(sc: ScopeSpec) -> Ast {
    let list = Ast::List(sc.acc);
    let case = match sc.alts {
        Some(a) => Ast::Or(a.push(list)),
        None => list,
    };
    match sc.cid {
        Some(id) => Ast::Group { case: Box::new(case), capture_id: id },
        None => case,
    }
}

/// The alternative a `|` closes: the one node gathered, else their list.
pub open spec fn branch_spec(acc: Seq<Ast>) -> Ast {
    if acc.len() == 1 {
        acc[0]
    } else {
        Ast::List(acc)
    }
}

/// A scope after a `|`.
pub open spec fn or_spec(sc: ScopeSpec) -> ScopeSpec {
    let alts = match sc.alts {
        Some(a) => a,
        None => Seq::empty(),
    };
    ScopeSpec { acc: Seq::empty(), alts: Some(alts.push(branch_spec(sc.acc))), cid: sc.cid }
}

/// `node` added to the innermost scope.
pub open spec fn append_spec(scopes: Seq<ScopeSpec>, node: Ast) -> Seq<ScopeSpec> {
    let top = scopes.last();
    scopes.drop_last().push(ScopeSpec { acc: top.acc.push(node), ..top })
}

/// The scopes after a `)`: the innermost one is closed into a node of the
/// one around it. A `)` that closes the outermost scope starts a new one
/// that holds what it closed.
pub open spec fn close_top(scopes: Seq<ScopeSpec>) -> Seq<ScopeSpec> {
    if scopes.len() > 1 {
        append_spec(scopes.drop_last(), close_spec(scopes.last()))
    } else {
        seq![ScopeSpec { acc: seq![close_spec(scopes[0])], alts: None, cid: None }]
    }
}

pub open spec fn is_digit(c: char) -> bool {
    '0' <= c <= '9'
}

/// The value of a run of decimal digits.
pub open spec fn digits_value(s: Seq<char>) -> nat
    decreases s.len(),
{
    if s.len() == 0 {
        0
    } else {
        digits_value(s.drop_last()) * 10 + (s.last() as nat - '0' as nat) as nat
    }
}

/// The end of the run of digits that starts at `i`.
pub open spec fn digits_end(chars: Seq<char>, i: int) -> int
    decreases chars.len() - i,
{
    if 0 <= i < chars.len() && is_digit(chars[i]) {
        digits_end(chars, i + 1)
    } else {
        i
    }
}

pub proof fn lemma_digits_end(chars: Seq<char>, i: int)
    requires
        0 <= i,
    ensures
        i <= digits_end(chars, i),
        i <= chars.len() ==> digits_end(chars, i) <= chars.len(),
        forall|j: int| i <= j < digits_end(chars, i) ==> is_digit(#[trigger] chars[j]),
        digits_end(chars, i) < chars.len() ==> !is_digit(chars[digits_end(chars, i)]),
    decreases chars.len() - i,
{
    if 0 <= i < chars.len() && is_digit(chars[i]) {
        lemma_digits_end(chars, i + 1);
    }
}

/// A bound of `{m,n}`: digits only, with a value that fits a `usize`.
pub open spec fn parse_bound(s: Seq<char>) -> Option<usize> {
    if s.len() > 0 && (forall|j: int| 0 <= j < s.len() ==> is_digit(#[trigger] s[j])) && digits_value(s)
        <= usize::MAX {
        Some(digits_value(s) as usize)
    } else {
        None
    }
}

/// A back-reference to group `id` when `n` groups have been opened.
pub open spec fn backref(id: nat, n: nat, next: int) -> Result<(Ast, int), ErrorKind> {
    if 1 <= id <= n {
        Ok((Ast::Capture(id as usize), next))
    } else {
        Err(ErrorKind::UnknownGroup)
    }
}

/// What follows a `\` at `i`: a back-reference `\n` or `\k<n>`, or an
/// escaped literal. Returns the node and where parsing resumes.
pub open spec fn escape_spec(chars: Seq<char>, i: int, n: nat) -> Result<(Ast, int), ErrorKind> {
    if i < chars.len() && is_digit(chars[i]) {
        let j = digits_end(chars, i);
        backref(digits_value(chars.subrange(i, j)), n, j)
    } else if i + 1 < chars.len() && chars[i] == 'k' && chars[i + 1] == '<' {
        let j = digits_end(chars, i + 2);
        if j < chars.len() && chars[j] == '>' {
            backref(digits_value(chars.subrange(i + 2, j)), n, j + 1)
        } else {
            Err(ErrorKind::MissingAngle)
        }
    } else if i < chars.len() {
        Ok((Ast::Char(chars[i]), i + 1))
    } else {
        Err(ErrorKind::MissingChar('\\'))
    }
}

/// The members of a class from `i` on, after those in `items`, up to its
/// `]`. Returns the members and where parsing resumes.
pub open spec fn class_items(chars: Seq<char>, i: int, items: Seq<Ast>) -> Result<(Seq<Ast>, int), ErrorKind>
    decreases chars.len() - i,
{
    if i < 0 || i >= chars.len() {
        Err(ErrorKind::UnclosedClass)
    } else if chars[i] == ']' {
        Ok((items, i + 1))
    } else {
        let escaped = chars[i] == '\\';
        let j = if escaped { i + 2 } else { i + 1 };
        if j >= chars.len() {
            Err(ErrorKind::UnclosedClass)
        } else {
            let c = if escaped { chars[i + 1] } else { chars[i] };
            if chars[j] == '-' {
                if j + 1 >= chars.len() {
                    Err(ErrorKind::UnclosedClass)
                } else if chars[j + 1] == ']' {
                    Err(ErrorKind::OpenRange)
                } else {
                    class_items(chars, j + 2, items.push(Ast::Between(c, chars[j + 1])))
                }
            } else {
                class_items(chars, j, items.push(Ast::Char(c)))
            }
        }
    }
}

/// A class whose `[` is just before `i`: `[...]`, or `[^...]` negated.
pub open spec fn class_spec(chars: Seq<char>, i: int) -> Result<(Ast, int), ErrorKind> {
    if i >= chars.len() {
        Err(ErrorKind::UnclosedClass)
    } else {
        let negated = chars[i] == '^';
        let start = if negated { i + 1 } else { i };
        match class_items(chars, start, Seq::empty()) {
            Ok(r) => {
                let class = Ast::CharMatch(r.0);
                Ok((if negated { Ast::Not(Box::new(class)) } else { class }, r.1))
            },
            Err(e) => Err(e),
        }
    }
}

/// The first `}` from `i` on.
pub open spec fn find_from(chars: Seq<char>, i: int, c: char) -> Option<int>
    decreases chars.len() - i,
{
    if i < 0 || i >= chars.len() {
        None
    } else if chars[i] == c {
        Some(i)
    } else {
        find_from(chars, i + 1, c)
    }
}

pub proof fn lemma_find_from(chars: Seq<char>, i: int, c: char)
    ensures
        find_from(chars, i, c) matches Some(j) ==> 0 <= i <= j < chars.len() && chars[j] == c && forall|
            x: int,
        | i <= x < j ==> chars[x] != c,
        find_from(chars, i, c) is None ==> forall|x: int| 0 <= i <= x < chars.len() ==> chars[x] != c,
    decreases chars.len() - i,
{
    if 0 <= i < chars.len() && chars[i] != c {
        lemma_find_from(chars, i + 1, c);
    }
}

/// The bounds `m,n}` that follow a `{` at `i`, applied to `last`.
pub open spec fn repeat_spec(chars: Seq<char>, i: int, last: Ast) -> Result<(Ast, int), ErrorKind> {
    match find_from(chars, i, '}') {
        None => Err(ErrorKind::MissingBrace),
        Some(close) => match find_from(chars.subrange(0, close), i, ',') {
            None => Err(ErrorKind::MissingComma),
            Some(comma) => {
                let lo = chars.subrange(i, comma);
                let hi = chars.subrange(comma + 1, close);
                if lo.len() > 0 && parse_bound(lo) is None {
                    Err(ErrorKind::BadNumber)
                } else if hi.len() > 0 && parse_bound(hi) is None {
                    Err(ErrorKind::BadNumber)
                } else {
                    let min = if lo.len() > 0 { parse_bound(lo) } else { None };
                    let max = if hi.len() > 0 { parse_bound(hi) } else { None };
                    Ok((Ast::RangeLoop { case: Box::new(last), min, max }, close + 1))
                }
            },
        },
    }
}

/// The node a quantifier `c` makes of `last`, and where parsing resumes:
/// a `?` right after `*` or `+` makes it lazy.
pub open spec fn quantifier_spec(chars: Seq<char>, i: int, c: char, last: Ast) -> (Ast, int) {
    if c == '?' {
        (Ast::Opt(Box::new(last)), i)
    } else {
        let lazy = i < chars.len() && chars[i] == '?';
        let next = if lazy { i + 1 } else { i };
        if c == '+' {
            (Ast::OneOrMore { case: Box::new(last), lazy }, next)
        } else {
            (Ast::Star { case: Box::new(last), lazy }, next)
        }
    }
}

/// The innermost scope without its last node.
pub open spec fn pop_last(scopes: Seq<ScopeSpec>) -> Seq<ScopeSpec> {
    let top = scopes.last();
    scopes.drop_last().push(ScopeSpec { acc: top.acc.drop_last(), ..top })
}

/// The end of a pattern: all groups must be closed.
pub open spec fn finish(scopes: Seq<ScopeSpec>, n: nat) -> Result<(Seq<Ast>, nat), ErrorKind> {
    if scopes.len() != 1 {
        Err(ErrorKind::UnclosedGroup)
    } else {
        match close_spec(scopes[0]) {
            Ast::List(cases) => Ok((cases, n)),
            other => Ok((seq![other], n)),
        }
    }
}

/// Compiling from character `i` on, with the open scopes and `n` groups
/// opened so far: the pattern's top-level nodes and its number of groups.
pub open spec fn parse(chars: Seq<char>, i: int, scopes: Seq<ScopeSpec>, n: nat) -> Result<(Seq<Ast>, nat), ErrorKind>
    decreases chars.len() - i,
{
    if i < 0 || i >= chars.len() {
        finish(scopes, n)
    } else {
        let c = chars[i];
        if c == '(' {
            parse(chars, i + 1, scopes.push(empty_scope(Some((n + 1) as usize))), n + 1)
        } else if c == '|' {
            parse(chars, i + 1, scopes.drop_last().push(or_spec(scopes.last())), n)
        } else if c == ')' {
            parse(chars, i + 1, close_top(scopes), n)
        } else if c == '?' || c == '*' || c == '+' || c == '{' {
            let acc = scopes.last().acc;
            if acc.len() == 0 {
                Err(ErrorKind::NothingBefore(c))
            } else if c == '{' {
                match repeat_spec(chars, i + 1, acc.last()) {
                    Ok(r) => {
                        proof {
                            lemma_find_from(chars, i + 1, '}');
                        }
                        parse(chars, r.1, append_spec(pop_last(scopes), r.0), n)
                    },
                    Err(e) => Err(e),
                }
            } else {
                let q = quantifier_spec(chars, i + 1, c, acc.last());
                parse(chars, q.1, append_spec(pop_last(scopes), q.0), n)
            }
        } else {
            let step = if c == '\\' {
                escape_spec(chars, i + 1, n)
            } else if c == '[' {
                class_spec(chars, i + 1)
            } else if c == '.' {
                Ok((Ast::AnyOne, i + 1))
            } else if c == '^' {
                Ok((Ast::Start, i + 1))
            } else if c == '$' {
                Ok((Ast::End, i + 1))
            } else {
                Ok((Ast::Char(c), i + 1))
            };
            match step {
                Ok(r) => if i < r.1 <= chars.len() {
                    parse(chars, r.1, append_spec(scopes, r.0), n)
                } else {
                    Err(ErrorKind::MissingChar(c))
                },
                Err(e) => Err(e),
            }
        }
    }
}

/// The pattern `p` compiled: its top-level nodes and its number of groups.
pub open spec fn compile_spec(p: Seq<char>) -> Result<(Seq<Ast>, nat), ErrorKind> {
    parse(p, 0, seq![empty_scope(None)], 0)
}

} // verus!




verus! {

/// A scope of the compiler, as it is held.
struct Scope {
    acc: Vec<MatchCase>,
    alts: Option<Vec<MatchCase>>,
    capture_id: Option<usize>,
}

impl Scope {
    spec fn spec(&self) -> ScopeSpec {
        ScopeSpec {
            acc: ast_all(self.acc@),
            alts: match self.alts {
                Some(v) => Some(ast_all(v@)),
                None => None,
            },
            cid: self.capture_id,
        }
    }

    fn empty(capture_id: Option<usize>) -> (r: Scope)
        ensures
            r.spec() == empty_scope(capture_id),
    {
        let r = Scope { acc: Vec::new(), alts: None, capture_id };
        assert(ast_all(r.acc@) =~= Seq::empty());
        r
    }

    /// The node this scope folds into.
    fn close(self) -> (r: MatchCase)
        ensures
            r@ == close_spec(self.spec()),
    {
        let ghost sc = self.spec();
        let list = MatchCase::List(self.acc);
        assert(list@ == Ast::List(sc.acc));
        let case = match self.alts {
            Some(mut alts) => {
                let ghost before = alts@;
                alts.push(list);
                proof {
                    lemma_ast_all_push(before, list);
                }
                let r = MatchCase::Or(alts);
                assert(r@ == Ast::Or(sc.alts->0.push(list@)));
                r
            },
            None => list,
        };
        match self.capture_id {
            Some(id) => {
                let r = MatchCase::Group { case: Box::new(case), capture_id: id };
                assert(r@ == (Ast::Group { case: Box::new(case@), capture_id: id }));
                r
            },
            None => case,
        }
    }

    /// The scope after a `|`.
    fn or(self) -> (r: Scope)
        ensures
            r.spec() == or_spec(self.spec()),
    {
        let ghost acc0 = self.acc@;
        let ghost sc = self.spec();
        proof {
            lemma_ast_all(acc0);
        }
        let mut acc = self.acc;
        let branch = if acc.len() == 1 {
            let m = acc.pop().unwrap();
            proof {
                assert(acc0 =~= Seq::empty().push(m));
                assert(acc0.drop_last() =~= Seq::<MatchCase>::empty());
                assert(ast_all(Seq::<MatchCase>::empty()) =~= Seq::<Ast>::empty());
            }
            assert(ast_all(acc0) == ast_all(acc0.drop_last()).push(m@));
            assert(ast_all(acc0)[0] == m@);
            m
        } else {
            let l = MatchCase::List(acc);
            assert(l@ == Ast::List(ast_all(acc0)));
            l
        };
        assert(branch@ == branch_spec(sc.acc));
        let mut alts = match self.alts {
            Some(v) => v,
            None => {
                let v: Vec<MatchCase> = Vec::new();
                assert(ast_all(v@) =~= Seq::<Ast>::empty());
                v
            },
        };
        let ghost before = alts@;
        alts.push(branch);
        proof {
            lemma_ast_all_push(before, branch);
        }
        let r = Scope { acc: Vec::new(), alts: Some(alts), capture_id: self.capture_id };
        assert(ast_all(r.acc@) =~= Seq::empty());
        r
    }
}

fn char_node(c: char) -> (r: MatchCase)
    ensures
        r@ == Ast::Char(c),
{
    MatchCase::Char(c)
}

fn between_node(lo: char, hi: char) -> (r: MatchCase)
    ensures
        r@ == Ast::Between(lo, hi),
{
    MatchCase::Between(lo, hi)
}

fn class_node(items: Vec<MatchCase>, negated: bool) -> (r: MatchCase)
    ensures
        r@ == if negated {
            Ast::Not(Box::new(Ast::CharMatch(ast_all(items@))))
        } else {
            Ast::CharMatch(ast_all(items@))
        },
{
    let ghost iv = ast_all(items@);
    let class = MatchCase::CharMatch(items);
    assert(class@ == Ast::CharMatch(iv));
    if negated {
        let r = MatchCase::Not(Box::new(class));
        assert(r@ == Ast::Not(Box::new(class@)));
        r
    } else {
        class
    }
}

fn capture_node(id: usize) -> (r: MatchCase)
    ensures
        r@ == Ast::Capture(id),
{
    MatchCase::Capture(id)
}

pub proof fn lemma_ast_all_push(s: Seq<MatchCase>, m: MatchCase)
    ensures
        ast_all(s.push(m)) == ast_all(s).push(m@),
{
    assert(s.push(m).drop_last() =~= s);
}

pub open spec fn opt_int(o: Option<usize>) -> Option<int> {
    match o {
        Some(n) => Some(n as int),
        None => None,
    }
}

/// The first `c` in `chars` from `from` on, before `end`.
fn find_char(chars: &Vec<char>, from: usize, end: usize, c: char) -> (r: Option<usize>)
    requires
        end <= chars@.len(),
    ensures
        opt_int(r) == find_from(chars@.subrange(0, end as int), from as int, c),
{
    let ghost sub = chars@.subrange(0, end as int);
    let mut p = from;
    while p < end
        invariant
            end <= chars@.len(),
            sub == chars@.subrange(0, end as int),
            from <= p,
            find_from(sub, from as int, c) == find_from(sub, p as int, c),
        decreases end - p,
    {
        if chars[p] == c {
            return Some(p);
        }
        p = p + 1;
    }
    None
}

/// The bound spelled by `chars[from..to]`, if it is one.
fn read_bound(chars: &Vec<char>, from: usize, to: usize) -> (r: Option<usize>)
    requires
        from <= to <= chars@.len(),
    ensures
        r == parse_bound(chars@.subrange(from as int, to as int)),
{
    let ghost s = chars@.subrange(from as int, to as int);
    let mut value: usize = 0;
    let mut over = false;
    let mut p = from;
    while p < to
        invariant
            from <= p <= to <= chars@.len(),
            s == chars@.subrange(from as int, to as int),
            forall|j: int| from <= j < p ==> is_digit(#[trigger] chars@[j]),
            over ==> digits_value(chars@.subrange(from as int, p as int)) > usize::MAX,
            !over ==> value == digits_value(chars@.subrange(from as int, p as int)),
        decreases to - p,
    {
        let c = chars[p];
        if !('0' <= c && c <= '9') {
            assert(!is_digit(s[p - from]));
            return None;
        }
        let d = (c as u32 - '0' as u32) as usize;
        let ghost prev = digits_value(chars@.subrange(from as int, p as int));
        assert(chars@.subrange(from as int, p + 1).drop_last() =~= chars@.subrange(from as int, p as int));
        assert(digits_value(chars@.subrange(from as int, p + 1)) == prev * 10 + d);
        if !over {
            match value.checked_mul(10) {
                Some(t) => match t.checked_add(d) {
                    Some(u) => {
                        value = u;
                    },
                    None => {
                        over = true;
                    },
                },
                None => {
                    over = true;
                },
            }
        } else {
            assert(prev * 10 + d >= prev) by (nonlinear_arith);
        }
        p = p + 1;
    }
    assert(forall|j: int| 0 <= j < s.len() ==> is_digit(#[trigger] s[j]) <== is_digit(chars@[from + j]));
    if p == from || over {
        None
    } else {
        Some(value)
    }
}

/// The value of the run of digits from `from` on, capped at `cap + 1`, and
/// where the run ends.
fn read_number(chars: &Vec<char>, from: usize, cap: usize) -> (r: (usize, usize))
    requires
        from <= chars@.len(),
        cap < usize::MAX,
    ensures
        r.1 == digits_end(chars@, from as int),
        r.0 == if digits_value(chars@.subrange(from as int, r.1 as int)) <= cap {
            digits_value(chars@.subrange(from as int, r.1 as int))
        } else {
            (cap + 1) as nat
        },
{
    let mut value: usize = 0;
    let mut p = from;
    assert(chars@.subrange(from as int, from as int) =~= Seq::empty());
    while p < chars.len() && '0' <= chars[p] && chars[p] <= '9'
        invariant
            from <= p <= chars@.len(),
            cap < usize::MAX,
            digits_end(chars@, from as int) == digits_end(chars@, p as int),
            value == if digits_value(chars@.subrange(from as int, p as int)) <= cap {
                digits_value(chars@.subrange(from as int, p as int))
            } else {
                (cap + 1) as nat
            },
        decreases chars@.len() - p,
    {
        let d = (chars[p] as u32 - '0' as u32) as usize;
        let ghost prev = digits_value(chars@.subrange(from as int, p as int));
        assert(chars@.subrange(from as int, p + 1).drop_last() =~= chars@.subrange(from as int, p as int));
        assert(digits_value(chars@.subrange(from as int, p + 1)) == prev * 10 + d);
        if value > cap / 10 {
            assert(prev * 10 + d > cap) by (nonlinear_arith)
                requires prev >= value, value > cap / 10, cap >= 0, d >= 0;
            value = cap + 1;
        } else {
            assert(value * 10 <= cap) by (nonlinear_arith)
                requires value <= cap / 10, cap >= 0;
            let t = value * 10;
            if d > cap - t {
                value = cap + 1;
            } else {
                value = t + d;
            }
        }
        p = p + 1;
    }
    (value, p)
}

/// Turns a pattern into a `Regex`, one character at a time, keeping a
/// stack of open scopes: the outermost one first, then one per open group.
pub struct RegexCompiler {
    chars: Vec<char>,
    pos: usize,
    scopes: Vec<Scope>,
    n_captures: usize,
}

impl RegexCompiler {
    pub closed spec fn spec_chars(&self) -> Seq<char> {
        self.chars@
    }

    pub closed spec fn spec_pos(&self) -> int {
        self.pos as int
    }

    pub closed spec fn spec_scopes(&self) -> Seq<ScopeSpec> {
        self.scopes@.map_values(|s: Scope| s.spec())
    }

    pub closed spec fn spec_n_captures(&self) -> nat {
        self.n_captures as nat
    }

    pub closed spec fn wf(&self) -> bool {
        &&& self.scopes@.len() >= 1
        &&& self.n_captures <= self.pos <= self.chars@.len()
    }

    /// A compiler at the start of `src`, with the outermost scope open.
    pub fn new(src: &str) -> (r: RegexCompiler)
        ensures
            r.wf(),
            r.spec_chars() == src@,
            r.spec_pos() == 0,
            r.spec_scopes() == seq![empty_scope(None)],
            r.spec_n_captures() == 0,
    {
        let mut scopes: Vec<Scope> = Vec::new();
        scopes.push(Scope::empty(None));
        let r = RegexCompiler { chars: chars_of(src), pos: 0, scopes, n_captures: 0 };
        assert(r.spec_scopes() =~= seq![empty_scope(None)]);
        r
    }

    fn take_top(&mut self) -> (r: Scope)
        requires
            old(self).scopes@.len() >= 1,
        ensures
            r.spec() == old(self).spec_scopes().last(),
            final(self).spec_scopes() == old(self).spec_scopes().drop_last(),
            final(self).scopes@.len() == old(self).scopes@.len() - 1,
            final(self).chars == old(self).chars,
            final(self).pos == old(self).pos,
            final(self).n_captures == old(self).n_captures,
    {
        let r = self.scopes.pop().unwrap();
        assert(self.spec_scopes() =~= old(self).spec_scopes().drop_last());
        r
    }

    fn put_top(&mut self, sc: Scope)
        ensures
            final(self).spec_scopes() == old(self).spec_scopes().push(sc.spec()),
            final(self).scopes@.len() == old(self).scopes@.len() + 1,
            final(self).chars == old(self).chars,
            final(self).pos == old(self).pos,
            final(self).n_captures == old(self).n_captures,
    {
        self.scopes.push(sc);
        assert(self.spec_scopes() =~= old(self).spec_scopes().push(sc.spec()));
    }

    /// Opens a group scope with the next group id.
    fn enter_scope(&mut self)
        requires
            old(self).n_captures < usize::MAX,
        ensures
            final(self).spec_scopes() == old(self).spec_scopes().push(
                empty_scope(Some((old(self).n_captures + 1) as usize)),
            ),
            final(self).scopes@.len() == old(self).scopes@.len() + 1,
            final(self).n_captures == old(self).n_captures + 1,
            final(self).chars == old(self).chars,
            final(self).pos == old(self).pos,
    {
        self.n_captures = self.n_captures + 1;
        let sc = Scope::empty(Some(self.n_captures));
        self.put_top(sc);
    }

    /// Adds `case` to the innermost scope.
    fn append(&mut self, case: MatchCase)
        requires
            old(self).scopes@.len() >= 1,
        ensures
            final(self).spec_scopes() == append_spec(old(self).spec_scopes(), case@),
            final(self).scopes@.len() == old(self).scopes@.len(),
            final(self).chars == old(self).chars,
            final(self).pos == old(self).pos,
            final(self).n_captures == old(self).n_captures,
    {
        let mut top = self.take_top();
        let ghost before = top.acc@;
        top.acc.push(case);
        proof {
            lemma_ast_all_push(before, case);
        }
        self.put_top(top);
    }

    /// Takes the last node of the innermost scope, if it has one.
    fn last_acc(&mut self) -> (r: Option<MatchCase>)
        requires
            old(self).scopes@.len() >= 1,
        ensures
            old(self).spec_scopes().last().acc.len() == 0 ==> r is None && final(self).spec_scopes() == old(self).spec_scopes(),
            old(self).spec_scopes().last().acc.len() > 0 ==> {
                &&& r is Some
                &&& r->0@ == old(self).spec_scopes().last().acc.last()
                &&& final(self).spec_scopes() == pop_last(old(self).spec_scopes())
            },
            final(self).scopes@.len() == old(self).scopes@.len(),
            final(self).chars == old(self).chars,
            final(self).pos == old(self).pos,
            final(self).n_captures == old(self).n_captures,
    {
        let mut top = self.take_top();
        proof {
            lemma_ast_all(top.acc@);
        }
        if top.acc.len() == 0 {
            self.put_top(top);
            assert(self.spec_scopes() =~= old(self).spec_scopes());
            return None;
        }
        let ghost before = top.acc@;
        let ghost sc = top.spec();
        let last = top.acc.pop().unwrap();
        assert(before.drop_last() =~= top.acc@);
        assert(ast_all(before) == ast_all(before.drop_last()).push(before.last()@));
        assert(ast_all(before).drop_last() =~= ast_all(before.drop_last()));
        assert(top.spec() == ScopeSpec { acc: sc.acc.drop_last(), ..sc });
        self.put_top(top);
        assert(self.spec_scopes() =~= pop_last(old(self).spec_scopes()));
        Some(last)
    }

    /// Closes the innermost scope into a node of the scope around it.
    fn close_scope(&mut self)
        requires
            old(self).scopes@.len() >= 1,
        ensures
            final(self).spec_scopes() == close_top(old(self).spec_scopes()),
            final(self).scopes@.len() >= 1,
            final(self).chars == old(self).chars,
            final(self).pos == old(self).pos,
            final(self).n_captures == old(self).n_captures,
    {
        let ghost n0 = self.scopes@.len();
        let top = self.take_top();
        let node = top.close();
        if self.scopes.len() == 0 {
            self.put_top(Scope::empty(None));
            assert(self.spec_scopes() =~= seq![empty_scope(None)]);
        }
        self.append(node);
        proof {
            if n0 == 1 {
                assert(self.spec_scopes() =~= close_top(old(self).spec_scopes()));
            }
        }
    }

    /// Starts a new alternative in the innermost scope.
    fn or(&mut self)
        requires
            old(self).scopes@.len() >= 1,
        ensures
            final(self).spec_scopes() == old(self).spec_scopes().drop_last().push(or_spec(old(self).spec_scopes().last())),
            final(self).scopes@.len() == old(self).scopes@.len(),
            final(self).chars == old(self).chars,
            final(self).pos == old(self).pos,
            final(self).n_captures == old(self).n_captures,
    {
        let top = self.take_top();
        self.put_top(top.or());
    }
}

impl RegexCompiler {
    /// What follows a `\\`: the compiler stands just after it.
    fn escape(&mut self) -> (r: Result<MatchCase, ErrorKind>)
        requires
            old(self).wf(),
        ensures
            final(self).wf(),
            final(self).chars == old(self).chars,
            final(self).n_captures == old(self).n_captures,
            final(self).spec_scopes() == old(self).spec_scopes(),
            final(self).scopes@.len() == old(self).scopes@.len(),
            match escape_spec(old(self).spec_chars(), old(self).spec_pos(), old(self).spec_n_captures()) {
                Ok(x) => r is Ok && r->Ok_0@ == x.0 && final(self).spec_pos() == x.1,
                Err(e) => r == Err::<MatchCase, ErrorKind>(e),
            },
    {
        let i = self.pos;
        let len = self.chars.len();
        if i < len && '0' <= self.chars[i] && self.chars[i] <= '9' {
            proof {
                lemma_digits_end(self.chars@, i as int);
            }
            let (id, j) = read_number(&self.chars, i, self.n_captures);
            if 1 <= id && id <= self.n_captures {
                self.pos = j;
                Ok(capture_node(id))
            } else {
                Err(ErrorKind::UnknownGroup)
            }
        } else if i < len && i + 1 < len && self.chars[i] == 'k' && self.chars[i + 1] == '<' {
            proof {
                lemma_digits_end(self.chars@, i + 2);
            }
            let (id, j) = read_number(&self.chars, i + 2, self.n_captures);
            if j < len && self.chars[j] == '>' {
                if 1 <= id && id <= self.n_captures {
                    self.pos = j + 1;
                    Ok(capture_node(id))
                } else {
                    Err(ErrorKind::UnknownGroup)
                }
            } else {
                Err(ErrorKind::MissingAngle)
            }
        } else if i < len {
            self.pos = i + 1;
            Ok(char_node(self.chars[i]))
        } else {
            Err(ErrorKind::MissingChar('\\'))
        }
    }

    /// A character class: the compiler stands just after its `[`.
    fn range(&mut self) -> (r: Result<MatchCase, ErrorKind>)
        requires
            old(self).wf(),
        ensures
            final(self).wf(),
            final(self).chars == old(self).chars,
            final(self).n_captures == old(self).n_captures,
            final(self).spec_scopes() == old(self).spec_scopes(),
            final(self).scopes@.len() == old(self).scopes@.len(),
            match class_spec(old(self).spec_chars(), old(self).spec_pos()) {
                Ok(x) => r is Ok && r->Ok_0@ == x.0 && final(self).spec_pos() == x.1,
                Err(e) => r == Err::<MatchCase, ErrorKind>(e),
            },
            r is Ok ==> old(self).spec_pos() < final(self).spec_pos(),
    {
        let i = self.pos;
        let len = self.chars.len();
        if i >= len {
            return Err(ErrorKind::UnclosedClass);
        }
        let negated = self.chars[i] == '^';
        let start = if negated { i + 1 } else { i };
        let ghost chars = self.chars@;
        let mut p = start;
        let mut items: Vec<MatchCase> = Vec::new();
        assert(ast_all(items@) =~= Seq::<Ast>::empty());
        loop
            invariant
                chars == self.chars@,
                len == chars.len(),
                i <= start <= p,
                i < len,
                self.pos == i,
                old(self).pos == i,
                self.wf(),
                self.chars == old(self).chars,
                self.n_captures == old(self).n_captures,
                self.spec_scopes() == old(self).spec_scopes(),
                self.scopes@.len() == old(self).scopes@.len(),
                negated == (chars[i as int] == '^'),
                start == if negated { i + 1 } else { i as int },
                class_items(chars, start as int, Seq::empty()) == class_items(chars, p as int, ast_all(items@)),
            decreases len - p,
        {
            if p >= len {
                return Err(ErrorKind::UnclosedClass);
            }
            let c0 = self.chars[p];
            if c0 == ']' {
                self.pos = p + 1;
                let ghost found = ast_all(items@);
                assert(class_items(chars, p as int, found) == Ok::<(Seq<Ast>, int), ErrorKind>((found, p + 1)));
                return Ok(class_node(items, negated));
            }
            let escaped = c0 == '\\';
            if escaped && p + 1 >= len {
                return Err(ErrorKind::UnclosedClass);
            }
            let j = if escaped { p + 2 } else { p + 1 };
            if j >= len {
                return Err(ErrorKind::UnclosedClass);
            }
            let c = if escaped { self.chars[p + 1] } else { c0 };
            let ghost before = items@;
            if self.chars[j] == '-' {
                if j + 1 >= len {
                    return Err(ErrorKind::UnclosedClass);
                }
                let end = self.chars[j + 1];
                if end == ']' {
                    return Err(ErrorKind::OpenRange);
                }
                let m = between_node(c, end);
                items.push(m);
                proof {
                    lemma_ast_all_push(before, m);
                }
                p = j + 2;
            } else {
                let m = char_node(c);
                items.push(m);
                proof {
                    lemma_ast_all_push(before, m);
                }
                p = j;
            }
        }
    }

    /// The bounds `m,n}` after a `{`, applied to `last`.
    #[verifier::rlimit(40)]
    fn repeat(&mut self, last: MatchCase) -> (r: Result<MatchCase, ErrorKind>)
        requires
            old(self).wf(),
        ensures
            final(self).wf(),
            final(self).chars == old(self).chars,
            final(self).n_captures == old(self).n_captures,
            final(self).spec_scopes() == old(self).spec_scopes(),
            final(self).scopes@.len() == old(self).scopes@.len(),
            match repeat_spec(old(self).spec_chars(), old(self).spec_pos(), last@) {
                Ok(x) => r is Ok && r->Ok_0@ == x.0 && final(self).spec_pos() == x.1,
                Err(e) => r == Err::<MatchCase, ErrorKind>(e),
            },
    {
        let i = self.pos;
        let len = self.chars.len();
        assert(self.chars@.subrange(0, len as int) =~= self.chars@);
        let close = match find_char(&self.chars, i, len, '}') {
            Some(x) => x,
            None => {
                return Err(ErrorKind::MissingBrace);
            },
        };
        proof {
            lemma_find_from(self.chars@, i as int, '}');
        }
        let comma = match find_char(&self.chars, i, close, ',') {
            Some(x) => x,
            None => {
                return Err(ErrorKind::MissingComma);
            },
        };
        proof {
            lemma_find_from(self.chars@.subrange(0, close as int), i as int, ',');
            assert(self.chars@.subrange(0, close as int).subrange(i as int, comma as int) =~= self.chars@.subrange(i as int, comma as int));
        }
        let min = if comma > i {
            match read_bound(&self.chars, i, comma) {
                Some(v) => Some(v),
                None => {
                    return Err(ErrorKind::BadNumber);
                },
            }
        } else {
            None
        };
        let max = if close > comma + 1 {
            match read_bound(&self.chars, comma + 1, close) {
                Some(v) => Some(v),
                None => {
                    return Err(ErrorKind::BadNumber);
                },
            }
        } else {
            None
        };
        self.pos = close + 1;
        let r = MatchCase::RangeLoop { case: Box::new(last), min, max };
        assert(r@ == (Ast::RangeLoop { case: Box::new(last@), min, max }));
        Ok(r)
    }

    /// The node a quantifier `c` makes of `last`: the compiler stands just
    /// after `c`, and a `?` there makes `*` and `+` lazy.
    fn multiplier(&mut self, c: char, last: MatchCase) -> (r: MatchCase)
        requires
            old(self).wf(),
        ensures
            final(self).wf(),
            final(self).chars == old(self).chars,
            final(self).n_captures == old(self).n_captures,
            final(self).spec_scopes() == old(self).spec_scopes(),
            final(self).scopes@.len() == old(self).scopes@.len(),
            (r@, final(self).spec_pos()) == quantifier_spec(old(self).spec_chars(), old(self).spec_pos(), c, last@),
    {
        if c == '?' {
            let r = MatchCase::Opt(Box::new(last));
            assert(r@ == Ast::Opt(Box::new(last@)));
            return r;
        }
        let lazy = self.pos < self.chars.len() && self.chars[self.pos] == '?';
        if lazy {
            self.pos = self.pos + 1;
        }
        if c == '+' {
            let r = MatchCase::OneOrMore { case: Box::new(last), lazy };
            assert(r@ == (Ast::OneOrMore { case: Box::new(last@), lazy }));
            r
        } else {
            let r = MatchCase::Star { case: Box::new(last), lazy };
            assert(r@ == (Ast::Star { case: Box::new(last@), lazy }));
            r
        }
    }
}

impl RegexCompiler {
    /// The end of the pattern: closes the outermost scope into the
    /// pattern's top-level nodes.
    fn finish(&mut self) -> (r: Result<Regex, ErrorKind>)
        requires
            old(self).wf(),
        ensures
            match finish(old(self).spec_scopes(), old(self).spec_n_captures()) {
                Ok(x) => r is Ok && r->Ok_0.pattern() == x.0 && r->Ok_0.spec_n_captures() == x.1,
                Err(e) => r == Err::<Regex, ErrorKind>(e),
            },
    {
        if self.scopes.len() != 1 {
            return Err(ErrorKind::UnclosedGroup);
        }
        let ghost sc = self.spec_scopes();
        let root = self.take_top();
        let node = root.close();
        let matches = match node {
            MatchCase::List(v) => {
                assert(node@ == Ast::List(ast_all(v@)));
                v
            },
            other => {
                assert(!(other@ is List));
                let ghost ov = other@;
                let mut v: Vec<MatchCase> = Vec::new();
                v.push(other);
                proof {
                    lemma_ast_all(v@);
                }
                assert(ast_all(v@) =~= seq![ov]);
                v
            },
        };
        Ok(Regex { matches, n_captures: self.n_captures })
    }

    /// Compiles the rest of the pattern.
    pub fn process(&mut self) -> (r: Result<Regex, RegexError>)
        requires
            old(self).wf(),
        ensures
            match parse(old(self).spec_chars(), old(self).spec_pos(), old(self).spec_scopes(), old(self).spec_n_captures()) {
                Ok(x) => r is Ok && r->Ok_0.pattern() == x.0 && r->Ok_0.spec_n_captures() == x.1,
                Err(e) => r is Err && r->Err_0.spec_kind() == e && r->Err_0.spec_message() == message(e),
            },
    {
        let ghost target = parse(self.spec_chars(), self.spec_pos(), self.spec_scopes(), self.spec_n_captures());
        loop
            invariant
                self.wf(),
                target == parse(old(self).spec_chars(), old(self).spec_pos(), old(self).spec_scopes(), old(self).spec_n_captures()),
                target == parse(self.spec_chars(), self.spec_pos(), self.spec_scopes(), self.spec_n_captures()),
            decreases self.chars@.len() - self.pos,
        {
            if self.pos >= self.chars.len() {
                return match self.finish() {
                    Ok(re) => Ok(re),
                    Err(e) => Err(RegexError::new(e)),
                };
            }
            let ghost i = self.pos as int;
            let c = self.chars[self.pos];
            self.pos = self.pos + 1;
            if c == '(' {
                self.enter_scope();
            } else if c == '|' {
                self.or();
            } else if c == ')' {
                self.close_scope();
            } else if c == '?' || c == '*' || c == '+' || c == '{' {
                proof {
                    lemma_ast_all(self.scopes@.last().acc@);
                }
                let last = match self.last_acc() {
                    Some(m) => m,
                    None => {
                        return Err(RegexError::new(ErrorKind::NothingBefore(c)));
                    },
                };
                let node = if c == '{' {
                    proof {
                        lemma_find_from(self.chars@, i + 1, '}');
                    }
                    match self.repeat(last) {
                        Ok(n) => n,
                        Err(e) => {
                            return Err(RegexError::new(e));
                        },
                    }
                } else {
                    self.multiplier(c, last)
                };
                self.append(node);
            } else {
                let node = if c == '\\' {
                    proof {
                        lemma_digits_end(self.chars@, i + 1);
                        lemma_digits_end(self.chars@, i + 3);
                    }
                    match self.escape() {
                        Ok(n) => n,
                        Err(e) => {
                            return Err(RegexError::new(e));
                        },
                    }
                } else if c == '[' {
                    match self.range() {
                        Ok(n) => n,
                        Err(e) => {
                            return Err(RegexError::new(e));
                        },
                    }
                } else if c == '.' {
                    any_node()
                } else if c == '^' {
                    start_node()
                } else if c == '$' {
                    end_node()
                } else {
                    char_node(c)
                };
                self.append(node);
            }
        }
    }
}

fn any_node() -> (r: MatchCase)
    ensures
        r@ == Ast::AnyOne,
{
    MatchCase::AnyOne
}

fn start_node() -> (r: MatchCase)
    ensures
        r@ == Ast::Start,
{
    MatchCase::Start
}

fn end_node() -> (r: MatchCase)
    ensures
        r@ == Ast::End,
{
    MatchCase::End
}

} // verus!



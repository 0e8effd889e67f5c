use vstd::prelude::*;

use crate::fold::{fold, fold_char};
use crate::matcher::{opt_view, RegexCtx};

verus! {

/// A node of a compiled pattern.
pub enum MatchCase {
    /// Succeeds only at the start of the input.
    Start,
    /// Succeeds only at the end of the input.
    End,
    /// One literal character.
    Char(char),
    /// A sequence whose members match one after another.
    List(Vec<MatchCase>),
    /// A capturing group with a 1-based id.
    Group { case: Box<MatchCase>, capture_id: usize },
    /// Alternatives, tried in order; the first that matches is kept.
    Or(Vec<MatchCase>),
    /// Any one character.
    AnyOne,
    /// Zero or one time.
    Opt(Box<MatchCase>),
    /// One or more times, greedy or lazy.
    OneOrMore { case: Box<MatchCase>, lazy: bool },
    /// Zero or more times, greedy or lazy.
    Star { case: Box<MatchCase>, lazy: bool },
    /// The text last recorded for a group, repeated.
    Capture(usize),
    /// One character in an inclusive range.
    Between(char, char),
    /// A character class: one character that one of the members accepts.
    CharMatch(Vec<MatchCase>),
    /// Bounded repetition `{min,max}`.
    RangeLoop { case: Box<MatchCase>, min: Option<usize>, max: Option<usize> },
    /// One character that the inner node does not accept.
    Not(Box<MatchCase>),
}

/// A pattern as a mathematical tree: `MatchCase` with its children as
/// sequences. Matching is defined on it.
pub enum Ast {
    Start,
    End,
    Char(char),
    List(Seq<Ast>),
    Group { case: Box<Ast>, capture_id: usize },
    Or(Seq<Ast>),
    AnyOne,
    Opt(Box<Ast>),
    OneOrMore { case: Box<Ast>, lazy: bool },
    Star { case: Box<Ast>, lazy: bool },
    Capture(usize),
    Between(char, char),
    CharMatch(Seq<Ast>),
    RangeLoop { case: Box<Ast>, min: Option<usize>, max: Option<usize> },
    Not(Box<Ast>),
}

pub open spec fn ast_of(m: MatchCase) -> Ast
    decreases m,
{
    match m {
        MatchCase::Start => Ast::Start,
        MatchCase::End => Ast::End,
        MatchCase::Char(c) => Ast::Char(c),
        MatchCase::List(v) => Ast::List(ast_all(v@)),
        MatchCase::Group { case, capture_id } => Ast::Group { case: Box::new(ast_of(*case)), capture_id },
        MatchCase::Or(v) => Ast::Or(ast_all(v@)),
        MatchCase::AnyOne => Ast::AnyOne,
        MatchCase::Opt(case) => Ast::Opt(Box::new(ast_of(*case))),
        MatchCase::OneOrMore { case, lazy } => Ast::OneOrMore { case: Box::new(ast_of(*case)), lazy },
        MatchCase::Star { case, lazy } => Ast::Star { case: Box::new(ast_of(*case)), lazy },
        MatchCase::Capture(id) => Ast::Capture(id),
        MatchCase::Between(lo, hi) => Ast::Between(lo, hi),
        MatchCase::CharMatch(v) => Ast::CharMatch(ast_all(v@)),
        MatchCase::RangeLoop { case, min, max } => Ast::RangeLoop { case: Box::new(ast_of(*case)), min, max },
        MatchCase::Not(case) => Ast::Not(Box::new(ast_of(*case))),
    }
}

pub open spec fn ast_all(s: Seq<MatchCase>) -> Seq<Ast>
    decreases s,
{
    if s.len() == 0 {
        Seq::empty()
    } else {
        ast_all(s.drop_last()).push(ast_of(s.last()))
    }
}

impl View for MatchCase {
    type V = Ast;

    open spec fn view(&self) -> Ast {
        ast_of(*self)
    }
}

pub proof fn lemma_ast_all(s: Seq<MatchCase>)
    ensures
        ast_all(s).len() == s.len(),
        forall|i: int| 0 <= i < s.len() ==> #[trigger] ast_all(s)[i] == s[i]@,
    decreases s.len(),
{
    if s.len() > 0 {
        lemma_ast_all(s.drop_last());
    }
}

/// Weight of a node, the termination measure of matching. A bounded
/// repetition weighs as much as its required copies together.
pub open spec fn size(m: Ast) -> nat
    decreases m,
{
    match m {
        Ast::List(v) => 1 + size_all(v),
        Ast::Or(v) => 1 + size_all(v),
        Ast::CharMatch(v) => 1 + size_all(v),
        Ast::Group { case, .. } => 1 + size(*case),
        Ast::Opt(case) => 1 + size(*case),
        Ast::OneOrMore { case, .. } => 1 + size(*case),
        Ast::Star { case, .. } => 1 + size(*case),
        Ast::Not(case) => 1 + size(*case),
        Ast::RangeLoop { case, min, .. } => 1 + (min.unwrap_or(0) as nat + 1) * size(*case),
        _ => 1,
    }
}

pub open spec fn size_all(s: Seq<Ast>) -> nat
    decreases s,
{
    if s.len() == 0 {
        0
    } else {
        size_all(s.drop_last()) + size(s.last())
    }
}

pub proof fn lemma_size_pos(m: Ast)
    ensures
        size(m) >= 1,
{
}

pub proof fn lemma_size_all_append(a: Seq<Ast>, b: Seq<Ast>)
    ensures
        size_all(a + b) == size_all(a) + size_all(b),
    decreases b.len(),
{
    if b.len() == 0 {
        assert(a + b =~= a);
    } else {
        assert((a + b).drop_last() =~= a + b.drop_last());
        lemma_size_all_append(a, b.drop_last());
    }
}

pub proof fn lemma_size_all_reverse(s: Seq<Ast>)
    ensures
        size_all(s.reverse()) == size_all(s),
    decreases s.len(),
{
    if s.len() > 0 {
        let one = seq![s.last()];
        assert(s.reverse() =~= one + s.drop_last().reverse());
        lemma_size_all_append(one, s.drop_last().reverse());
        lemma_size_all_reverse(s.drop_last());
        assert(one.drop_last() =~= Seq::<Ast>::empty());
        assert(one.last() == s.last());
        assert(size_all(one.drop_last()) == 0);
        assert(size_all(one) == size_all(one.drop_last()) + size(one.last()));
    }
}

pub proof fn lemma_size_all_elem(s: Seq<Ast>, i: int)
    requires
        0 <= i < s.len(),
    ensures
        size(s[i]) <= size_all(s),
    decreases s.len(),
{
    if i < s.len() - 1 {
        lemma_size_all_elem(s.drop_last(), i);
    }
}

pub proof fn lemma_size_all_repeat(m: Ast, n: nat)
    ensures
        size_all(copies(m, n)) == n * size(m),
    decreases n,
{
    if n > 0 {
        assert(copies(m, n).drop_last() =~= copies(m, (n - 1) as nat));
        assert(copies(m, n).last() == m);
        assert(size_all(copies(m, n)) == size_all(copies(m, n).drop_last()) + size(copies(m, n).last()));
        lemma_size_all_repeat(m, (n - 1) as nat);
        let p = (n - 1) as nat;
        assert(n * size(m) == p * size(m) + size(m)) by (nonlinear_arith)
            requires n == p + 1;
    } else {
        assert(copies(m, n).len() == 0);
    }
}

/// The cursor did not move back, nor past the end of the input if it was
/// within it.
pub open spec fn forward(a: MatchState, b: MatchState, len: int) -> bool {
    a.pos <= b.pos && (a.pos <= len ==> b.pos <= len)
}

/// The continuation held in the top `n` entries of a stack of references.
pub open spec fn cont(k: Seq<&MatchCase>, n: int) -> Seq<Ast> {
    k.subrange(0, n).map_values(|r: &MatchCase| (*r)@)
}

pub proof fn lemma_cont_last(k: Seq<&MatchCase>, j: int, n: int)
    requires
        1 <= j <= n <= k.len(),
    ensures
        cont(k, j).len() == j,
        cont(k, j).last() == (*k[j - 1])@,
        cont(k, j).drop_last() == cont(k, j - 1),
        size_all(cont(k, j)) <= size_all(cont(k, n)),
{
    assert(cont(k, j).drop_last() =~= cont(k, j - 1));
    lemma_cont_prefix(k, j, n);
}

pub proof fn lemma_cont_prefix(k: Seq<&MatchCase>, j: int, n: int)
    requires
        0 <= j <= n <= k.len(),
    ensures
        size_all(cont(k, j)) <= size_all(cont(k, n)),
{
    let rest = k.subrange(j, n).map_values(|r: &MatchCase| (*r)@);
    assert(cont(k, n) =~= cont(k, j) + rest);
    lemma_size_all_append(cont(k, j), rest);
}

/// The state of one match attempt: the cursor, the span recorded for each
/// group, and the groups entered but not yet left, with where each began.
pub struct MatchState {
    pub pos: usize,
    pub caps: Seq<(usize, usize)>,
    pub open: Seq<(usize, usize)>,
}

impl MatchState {
    pub open spec fn advance(self, n: int) -> MatchState {
        MatchState { pos: (self.pos + n) as usize, ..self }
    }

    pub open spec fn enter(self, id: usize) -> MatchState {
        MatchState { open: self.open.push((id, self.pos)), ..self }
    }

    pub open spec fn leave(self) -> MatchState {
        if self.open.len() > 0 {
            MatchState { open: self.open.drop_last(), ..self }
        } else {
            self
        }
    }

    /// Every open group's span is stretched to the cursor.
    pub open spec fn refresh(self) -> MatchState {
        MatchState { caps: refresh_caps(self.caps, self.open, self.pos), ..self }
    }
}

pub open spec fn refresh_caps(caps: Seq<(usize, usize)>, open: Seq<(usize, usize)>, pos: usize) -> Seq<
    (usize, usize),
>
    decreases open.len(),
{
    if open.len() == 0 {
        caps
    } else {
        let prev = refresh_caps(caps, open.drop_last(), pos);
        let id = open.last().0;
        if 1 <= id <= prev.len() {
            prev.update(id - 1, (open.last().1, pos))
        } else {
            prev
        }
    }
}

/// The input from `pos` on repeats the text of `span`, character by character.
pub open spec fn repeats_at(text: Seq<char>, cs: bool, span: (usize, usize), pos: usize) -> bool {
    &&& span.0 <= span.1 <= text.len()
    &&& pos + (span.1 - span.0) <= text.len()
    &&& forall|i: int|
        0 <= i < span.1 - span.0 ==> fold(#[trigger] text[pos + i], cs) == fold(text[span.0 + i], cs)
}

/// A character at `pos` that `fold` puts between the folded bounds.
pub open spec fn in_range(text: Seq<char>, cs: bool, lo: char, hi: char, pos: usize) -> bool {
    &&& pos < text.len()
    &&& fold(lo, cs) <= fold(text[pos as int], cs)
    &&& fold(text[pos as int], cs) <= fold(hi, cs)
}

/// Matching `m` against `text` from state `st`, where `k` is the
/// continuation: the nodes still to match after `m`, the next one last.
/// `None` is a failure, which leaves nothing behind.
pub open spec fn eval(m: Ast, k: Seq<Ast>, text: Seq<char>, cs: bool, st: MatchState) -> Option<
    MatchState,
>
    decreases size(m) + size_all(k), 0int, 0int,
{
    match m {
        Ast::Start => if st.pos == 0 { Some(st) } else { None },
        Ast::End => if st.pos == text.len() { Some(st) } else { None },
        Ast::AnyOne => if st.pos < text.len() { Some(st.advance(1)) } else { None },
        Ast::Char(c) => {
            if st.pos < text.len() && fold(text[st.pos as int], cs) == fold(c, cs) {
                Some(st.advance(1))
            } else {
                None
            }
        },
        Ast::Between(lo, hi) => {
            if in_range(text, cs, lo, hi, st.pos) {
                Some(st.advance(1))
            } else {
                None
            }
        },
        Ast::CharMatch(v) => {
            if st.pos < text.len() && any_member(v, 0, k, text, cs, st) {
                Some(st.advance(1))
            } else {
                None
            }
        },
        Ast::Not(case) => {
            if st.pos < text.len() && eval(*case, k, text, cs, st) is None {
                Some(st.advance(1))
            } else {
                None
            }
        },
        Ast::List(v) => {
            proof {
                lemma_size_all_reverse(v);
                lemma_size_all_append(k, v.reverse());
            }
            eval_run(k + v.reverse(), v.len(), text, cs, st)
        },
        Ast::Or(v) => first_branch(v, 0, k, text, cs, st),
        Ast::Group { case, capture_id } => {
            match eval(*case, k, text, cs, st.enter(capture_id)) {
                Some(s) => Some(s.refresh().leave()),
                None => None,
            }
        },
        Ast::Opt(case) => {
            match eval(*case, k, text, cs, st) {
                Some(s) => if eval_run(k, k.len(), text, cs, s) is Some { Some(s) } else { Some(st) },
                None => Some(st),
            }
        },
        Ast::Star { case, lazy } => Some(star(*case, lazy, k, text, cs, st.refresh())),
        Ast::OneOrMore { case, lazy } => {
            match eval(*case, k, text, cs, st) {
                Some(s) => Some(star(*case, lazy, k, text, cs, s.refresh())),
                None => None,
            }
        },
        Ast::RangeLoop { case, min, max } => {
            proof {
                lemma_size_pos(*case);
                let n = min.unwrap_or(0) as nat;
                let s = size(*case);
                assert(s * n < 1 + (n + 1) * s) by (nonlinear_arith);
                assert(s <= (n + 1) * s) by (nonlinear_arith) requires n >= 0, s >= 1;
            }
            match range_required(*case, min.unwrap_or(0) as nat, k, text, cs, st) {
                Some(s) => Some(
                    range_more(*case, extra_allowed(min.unwrap_or(0) as nat, max), k, text, cs, s),
                ),
                None => None,
            }
        },
        Ast::Capture(id) => {
            if 1 <= id <= st.caps.len() && repeats_at(text, cs, st.caps[id - 1], st.pos) {
                let span = st.caps[id - 1];
                Some(st.advance(span.1 - span.0))
            } else {
                None
            }
        },
    }
}

/// Matches the top `n` nodes of the continuation `k`, each against what
/// lies below it.
pub open spec fn eval_run(k: Seq<Ast>, n: nat, text: Seq<char>, cs: bool, st: MatchState) -> Option<
    MatchState,
>
    decreases size_all(k), 1int, n,
{
    if n == 0 || k.len() == 0 {
        Some(st)
    } else {
        proof {
            lemma_size_pos(k.last());
        }
        match eval(k.last(), k.drop_last(), text, cs, st) {
            Some(s) => eval_run(k.drop_last(), (n - 1) as nat, text, cs, s),
            None => None,
        }
    }
}

/// Whether one of the class members from index `i` on accepts the character
/// at the cursor.
pub open spec fn any_member(
    v: Seq<Ast>,
    i: int,
    k: Seq<Ast>,
    text: Seq<char>,
    cs: bool,
    st: MatchState,
) -> bool
    decreases size_all(v) + size_all(k), 1int, v.len() - i,
{
    if i < 0 || i >= v.len() {
        false
    } else {
        proof {
            lemma_size_all_elem(v, i);
        }
        eval(v[i], k, text, cs, st) is Some || any_member(v, i + 1, k, text, cs, st)
    }
}

/// The first alternative from index `i` on that matches.
pub open spec fn first_branch(
    v: Seq<Ast>,
    i: int,
    k: Seq<Ast>,
    text: Seq<char>,
    cs: bool,
    st: MatchState,
) -> Option<MatchState>
    decreases size_all(v) + size_all(k), 1int, v.len() - i,
{
    if i < 0 || i >= v.len() {
        None
    } else {
        proof {
            lemma_size_all_elem(v, i);
        }
        match eval(v[i], k, text, cs, st) {
            Some(s) => Some(s),
            None => first_branch(v, i + 1, k, text, cs, st),
        }
    }
}

/// The repetition loop of `*` and `+`, after the state has been refreshed.
pub open spec fn star(m: Ast, lazy: bool, k: Seq<Ast>, text: Seq<char>, cs: bool, st: MatchState) -> MatchState
    decreases size(m) + size_all(k), 3int, 0int,
{
    if lazy {
        star_lazy(m, k, text, cs, st)
    } else {
        star_greedy(m, k, text, cs, st, None)
    }
}

/// Greedy repetition: each state at which the continuation matches becomes
/// the fallback, and the last fallback is where the loop stops. A
/// repetition counts only if it consumes input, so the loop ends.
pub open spec fn star_greedy(
    m: Ast,
    k: Seq<Ast>,
    text: Seq<char>,
    cs: bool,
    st: MatchState,
    fallback: Option<MatchState>,
) -> MatchState
    decreases size(m) + size_all(k), 2int, text.len() - st.pos,
{
    proof {
        lemma_size_pos(m);
    }
    let fb = if eval_run(k, k.len(), text, cs, st) is Some { Some(st) } else { fallback };
    let stop = match fb {
        Some(f) => f,
        None => st,
    };
    match eval(m, k, text, cs, st) {
        Some(s) => if st.pos < s.pos && s.pos <= text.len() {
            star_greedy(m, k, text, cs, s.refresh(), fb)
        } else {
            stop
        },
        None => stop,
    }
}

/// Lazy repetition: the loop stops as soon as the continuation matches, or
/// when no further repetition matches and consumes input.
pub open spec fn star_lazy(m: Ast, k: Seq<Ast>, text: Seq<char>, cs: bool, st: MatchState) -> MatchState
    decreases size(m) + size_all(k), 2int, text.len() - st.pos,
{
    proof {
        lemma_size_pos(m);
    }
    if eval_run(k, k.len(), text, cs, st) is Some {
        st
    } else {
        match eval(m, k, text, cs, st) {
            Some(s) => if st.pos < s.pos && s.pos <= text.len() {
                star_lazy(m, k, text, cs, s.refresh())
            } else {
                st
            },
            None => st,
        }
    }
}

/// `n` copies of `m`.
pub open spec fn copies(m: Ast, n: nat) -> Seq<Ast> {
    Seq::new(n, |_i: int| m)
}

/// The `left` repetitions that a bounded repetition still requires; each
/// sees the others that remain in its continuation.
pub open spec fn range_required(
    m: Ast,
    left: nat,
    k: Seq<Ast>,
    text: Seq<char>,
    cs: bool,
    st: MatchState,
) -> Option<MatchState>
    decreases size(m) * left + size_all(k), 3int, 0int,
{
    if left == 0 {
        Some(st)
    } else {
        proof {
            lemma_size_pos(m);
            lemma_size_all_repeat(m, (left - 1) as nat);
            lemma_size_all_append(k, copies(m, (left - 1) as nat));
            let p = (left - 1) as nat;
            assert(size(m) * left == p * size(m) + size(m)) by (nonlinear_arith)
                requires left == p + 1;
        }
        match eval(m, k + copies(m, (left - 1) as nat), text, cs, st) {
            Some(s) => range_required(m, (left - 1) as nat, k, text, cs, s),
            None => None,
        }
    }
}

/// Further repetitions past the required ones, each kept while it matches
/// and gets further; `left` is how many more are allowed (`None`: no bound).
pub open spec fn range_more(
    m: Ast,
    left: Option<nat>,
    k: Seq<Ast>,
    text: Seq<char>,
    cs: bool,
    st: MatchState,
) -> MatchState
    decreases size(m) + size_all(k), 2int, text.len() - st.pos,
{
    if left == Some(0nat) {
        st
    } else {
        match eval(m, k, text, cs, st) {
            Some(s) => if st.pos < s.pos && s.pos <= text.len() {
                let rest = match left {
                    Some(n) => Some((n - 1) as nat),
                    None => None,
                };
                range_more(m, rest, k, text, cs, s)
            } else {
                st
            },
            None => st,
        }
    }
}

/// How many repetitions past `min` a bound `max` allows.
pub open spec fn extra_allowed(min: nat, max: Option<usize>) -> Option<nat> {
    match max {
        Some(mx) => Some(if mx >= min { (mx - min) as nat } else { 0nat }),
        None => None,
    }
}

} // verus!

verus! {

/// The stack `k` cut to its top `klen` entries, with the members of `v`
/// pushed so that the first member is on top.
fn push_reversed<'a>(k: &Vec<&'a MatchCase>, klen: usize, v: &'a Vec<MatchCase>) -> (r: Vec<&'a MatchCase>)
    requires
        klen <= k@.len(),
    ensures
        r@.len() == klen + v@.len(),
        cont(r@, r@.len() as int) == cont(k@, klen as int) + ast_all(v@).reverse(),
{
    proof {
        lemma_ast_all(v@);
    }
    let mut r: Vec<&'a MatchCase> = Vec::new();
    let mut i: usize = 0;
    while i < klen
        invariant
            i <= klen <= k@.len(),
            r@ == k@.subrange(0, i as int),
        decreases klen - i,
    {
        r.push(k[i]);
        i = i + 1;
        assert(r@ =~= k@.subrange(0, i as int));
    }
    assert(cont(r@, r@.len() as int) =~= cont(k@, klen as int) + ast_all(v@).subrange(v@.len() as int, v@.len() as int).reverse());
    let mut j: usize = v.len();
    while j > 0
        invariant
            j <= v@.len(),
            r@.len() == klen + (v@.len() - j),
            cont(r@, r@.len() as int) == cont(k@, klen as int) + ast_all(v@).subrange(j as int, v@.len() as int).reverse(),
            ast_all(v@).len() == v@.len(),
            forall|i: int| 0 <= i < v@.len() ==> #[trigger] ast_all(v@)[i] == v@[i]@,
        decreases j,
    {
        j = j - 1;
        let ghost before = r@;
        r.push(&v[j]);
        assert(cont(r@, r@.len() as int) =~= cont(before, before.len() as int).push(v@[j as int]@));
        assert(ast_all(v@).subrange(j as int, v@.len() as int).reverse() =~= ast_all(v@).subrange(j + 1, v@.len() as int).reverse().push(ast_all(v@)[j as int]));
    }
    assert(ast_all(v@).subrange(0, v@.len() as int) =~= ast_all(v@));
    r
}

/// The stack `k` cut to its top `klen` entries, with `n` references to `m`
/// pushed.
fn push_copies<'a>(k: &Vec<&'a MatchCase>, klen: usize, m: &'a MatchCase, n: usize) -> (r: Vec<&'a MatchCase>)
    requires
        klen <= k@.len(),
    ensures
        r@.len() == klen + n,
        forall|j: nat| j <= n ==> #[trigger] cont(r@, klen + j) == cont(k@, klen as int) + copies(m@, j),
{
    let mut r: Vec<&'a MatchCase> = Vec::new();
    let mut i: usize = 0;
    while i < klen
        invariant
            i <= klen <= k@.len(),
            r@ == k@.subrange(0, i as int),
        decreases klen - i,
    {
        r.push(k[i]);
        i = i + 1;
        assert(r@ =~= k@.subrange(0, i as int));
    }
    let mut j: usize = 0;
    while j < n
        invariant
            j <= n,
            r@.len() == klen + j,
            forall|a: int| 0 <= a < klen ==> r@[a] == k@[a],
            forall|a: int| klen <= a < r@.len() ==> r@[a]@ == m@,
        decreases n - j,
    {
        r.push(m);
        j = j + 1;
    }
    assert forall|j: nat| j <= n implies #[trigger] cont(r@, klen + j) == cont(k@, klen as int) + copies(m@, j) by {
        assert(cont(r@, klen + j) =~= cont(k@, klen as int) + copies(m@, j));
    }
    r
}

impl MatchCase {
    /// Matches this node from the state in `ctx`, with the top `klen` entries
    /// of `k` as continuation. On success `ctx` is advanced past what was
    /// consumed; on failure the caller drops it.
    pub fn matches<'a>(&'a self, ctx: &mut RegexCtx, text: &[char], cs: bool, k: &Vec<&'a MatchCase>, klen: usize) -> (r: bool)
        requires
            klen <= k@.len(),
        ensures
            r == (eval(self@, cont(k@, klen as int), text@, cs, old(ctx)@) is Some),
            r ==> final(ctx)@ == eval(self@, cont(k@, klen as int), text@, cs, old(ctx)@)->0,
            r ==> forward(old(ctx)@, final(ctx)@, text@.len() as int),
        decreases size(self@) + size_all(cont(k@, klen as int)), 0int, 0int,
    {
        let ghost kv = cont(k@, klen as int);
        match self {
            MatchCase::Start => {
                ctx.chars() == 0
            },
            MatchCase::End => {
                ctx.chars() == text.len()
            },
            MatchCase::AnyOne => {
                if ctx.chars() < text.len() {
                    ctx.advance(1);
                    true
                } else {
                    false
                }
            },
            MatchCase::Char(c) => {
                let p = ctx.chars();
                if p < text.len() && fold_char(text[p], cs) == fold_char(*c, cs) {
                    ctx.advance(1);
                    true
                } else {
                    false
                }
            },
            MatchCase::Between(lo, hi) => {
                let p = ctx.chars();
                if p < text.len() {
                    let ch = fold_char(text[p], cs);
                    if fold_char(*lo, cs) <= ch && ch <= fold_char(*hi, cs) {
                        ctx.advance(1);
                        return true;
                    }
                }
                false
            },
            MatchCase::CharMatch(v) => {
                proof {
                    lemma_ast_all(v@);
                }
                if ctx.chars() >= text.len() {
                    return false;
                }
                let mut i: usize = 0;
                while i < v.len()
                    invariant
                        i <= v@.len(),
                        klen <= k@.len(),
                        ctx@ == old(ctx)@,
                        kv == cont(k@, klen as int),
                        ctx@.pos < text.len(),
                        self@ == Ast::CharMatch(ast_all(v@)),
                        ast_all(v@).len() == v@.len(),
                        any_member(ast_all(v@), 0, kv, text@, cs, ctx@) == any_member(ast_all(v@), i as int, kv, text@, cs, ctx@),
                    decreases v@.len() - i,
                {
                    proof {
                        lemma_ast_all(v@);
                        lemma_size_all_elem(ast_all(v@), i as int);
                    }
                    let mut t = ctx.dup();
                    if v[i].matches(&mut t, text, cs, k, klen) {
                        ctx.advance(1);
                        return true;
                    }
                    i = i + 1;
                }
                false
            },
            MatchCase::Not(case) => {
                if ctx.chars() >= text.len() {
                    return false;
                }
                let mut t = ctx.dup();
                if case.matches(&mut t, text, cs, k, klen) {
                    false
                } else {
                    ctx.advance(1);
                    true
                }
            },
            MatchCase::List(v) => {
                let nk = push_reversed(k, klen, v);
                proof {
                    lemma_size_all_reverse(ast_all(v@));
                    lemma_size_all_append(kv, ast_all(v@).reverse());
                }
                ctx.run_top(text, cs, &nk, nk.len(), v.len())
            },
            MatchCase::Or(v) => {
                proof {
                    lemma_ast_all(v@);
                }
                let mut i: usize = 0;
                while i < v.len()
                    invariant
                        i <= v@.len(),
                        klen <= k@.len(),
                        ctx@ == old(ctx)@,
                        kv == cont(k@, klen as int),
                        self@ == Ast::Or(ast_all(v@)),
                        ast_all(v@).len() == v@.len(),
                        first_branch(ast_all(v@), 0, kv, text@, cs, ctx@) == first_branch(ast_all(v@), i as int, kv, text@, cs, ctx@),
                    decreases v@.len() - i,
                {
                    proof {
                        lemma_ast_all(v@);
                        lemma_size_all_elem(ast_all(v@), i as int);
                    }
                    let mut t = ctx.dup();
                    if v[i].matches(&mut t, text, cs, k, klen) {
                        *ctx = t;
                        return true;
                    }
                    i = i + 1;
                }
                false
            },
            MatchCase::Group { case, capture_id } => {
                ctx.push_capture(*capture_id);
                if case.matches(ctx, text, cs, k, klen) {
                    ctx.update_open_captures();
                    ctx.pop_capture();
                    true
                } else {
                    false
                }
            },
            MatchCase::Opt(case) => {
                let mut t = ctx.dup();
                if case.matches(&mut t, text, cs, k, klen) {
                    let mut probe = t.dup();
                    if probe.following_match(text, cs, k, klen) {
                        *ctx = t;
                    }
                }
                true
            },
            MatchCase::Star { case, lazy } => {
                ctx.update_open_captures();
                case.star_loop(ctx, *lazy, text, cs, k, klen);
                true
            },
            MatchCase::OneOrMore { case, lazy } => {
                if !case.matches(ctx, text, cs, k, klen) {
                    return false;
                }
                ctx.update_open_captures();
                case.star_loop(ctx, *lazy, text, cs, k, klen);
                true
            },
            MatchCase::RangeLoop { case, min, max } => {
                let inner: &'a MatchCase = &**case;
                let lo: usize = match min {
                    Some(m) => *m,
                    None => 0,
                };
                let ghost s = size(inner@);
                proof {
                    lemma_size_pos(inner@);
                }
                let reps: usize = if lo > 0 { lo - 1 } else { 0 };
                let nk = push_copies(k, klen, inner, reps);
                let top = nk.len();
                let ghost need = range_required(inner@, lo as nat, kv, text@, cs, old(ctx)@);
                assert(eval(self@, kv, text@, cs, old(ctx)@) == (match need {
                    Some(s) => Some(range_more(inner@, extra_allowed(lo as nat, *max), kv, text@, cs, s)),
                    None => None,
                }));
                let mut left: usize = lo;
                while left > 0
                    invariant
                        left <= lo,
                        reps == if lo > 0 { lo - 1 } else { 0 },
                        nk@.len() == klen + reps,
                        top == nk@.len(),
                        kv == cont(k@, klen as int),
                        forall|j: nat| j <= reps ==> #[trigger] cont(nk@, klen + j) == kv + copies(inner@, j),
                        need == range_required(inner@, lo as nat, kv, text@, cs, old(ctx)@),
                        need == range_required(inner@, left as nat, kv, text@, cs, ctx@),
                        forward(old(ctx)@, ctx@, text@.len() as int),
                        eval(self@, kv, text@, cs, old(ctx)@) == (match need {
                            Some(s) => Some(range_more(inner@, extra_allowed(lo as nat, *max), kv, text@, cs, s)),
                            None => None,
                        }),
                        klen <= k@.len(),
                        s == size(inner@),
                        s >= 1,
                        size(self@) == 1 + (lo as nat + 1) * s,
                    decreases left,
                {
                    let j: usize = left - 1;
                    proof {
                        assert(cont(nk@, klen + j) == kv + copies(inner@, j as nat));
                        lemma_size_all_repeat(inner@, j as nat);
                        lemma_size_all_append(kv, copies(inner@, j as nat));
                        assert(s + j * s < 1 + (lo as nat + 1) * s) by (nonlinear_arith)
                            requires j < lo, s >= 1;
                        assert(size(inner@) + size_all(cont(nk@, klen + j)) < size(self@) + size_all(kv));
                    }
                    let ghost before = ctx@;
                    if !inner.matches(ctx, text, cs, &nk, top - (reps - j)) {
                        assert(eval(inner@, kv + copies(inner@, j as nat), text@, cs, before) is None);
                        assert(range_required(inner@, left as nat, kv, text@, cs, before) is None);
                        return false;
                    }
                    left = j;
                }
                let mut allowed: Option<usize> = match max {
                    Some(mx) => Some(if *mx >= lo { *mx - lo } else { 0 }),
                    None => None,
                };
                let ghost more = range_more(inner@, extra_allowed(lo as nat, *max), kv, text@, cs, ctx@);
                loop
                    invariant
                        klen <= k@.len(),
                        kv == cont(k@, klen as int),
                        s == size(inner@),
                        s >= 1,
                        size(self@) == 1 + (lo as nat + 1) * s,
                        more == range_more(inner@, opt_nat(allowed), kv, text@, cs, ctx@),
                        forward(old(ctx)@, ctx@, text@.len() as int),
                        eval(self@, kv, text@, cs, old(ctx)@) == Some(more),
                    decreases text@.len() - ctx@.pos,
                {
                    if allowed == Some(0usize) {
                        return true;
                    }
                    proof {
                        assert(s < 1 + (lo as nat + 1) * s) by (nonlinear_arith)
                            requires s >= 1;
                    }
                    let mut t = ctx.dup();
                    if inner.matches(&mut t, text, cs, k, klen) && ctx.chars() < t.chars()
                        && t.chars() <= text.len() {
                        *ctx = t;
                        allowed = match allowed {
                            Some(n) => Some(n - 1),
                            None => None,
                        };
                    } else {
                        return true;
                    }
                }
            },
            MatchCase::Capture(id) => {
                if *id < 1 || *id > ctx.n_captures() {
                    return false;
                }
                let (s, e) = ctx.get_capture(*id);
                let p = ctx.chars();
                if !(s <= e && e <= text.len() && p <= text.len() && e - s <= text.len() - p) {
                    return false;
                }
                let n = e - s;
                let mut i: usize = 0;
                while i < n
                    invariant
                        i <= n,
                        n == e - s,
                        p == ctx@.pos,
                        ctx@ == old(ctx)@,
                        self@ == Ast::Capture(*id),
                        1 <= *id <= ctx@.caps.len(),
                        ctx@.caps[*id - 1] == (s, e),
                        s <= e <= text.len(),
                        p + n <= text.len(),
                        forall|j: int| 0 <= j < i ==> fold(#[trigger] text@[p + j], cs) == fold(text@[s + j], cs),
                    decreases n - i,
                {
                    if fold_char(text[p + i], cs) != fold_char(text[s + i], cs) {
                        return false;
                    }
                    i = i + 1;
                }
                ctx.advance(n);
                true
            },
        }
    }

    /// The loop of `*` and `+` after the state has been refreshed.
    fn star_loop<'a>(&'a self, ctx: &mut RegexCtx, lazy: bool, text: &[char], cs: bool, k: &Vec<&'a MatchCase>, klen: usize)
        requires
            klen <= k@.len(),
        ensures
            final(ctx)@ == star(self@, lazy, cont(k@, klen as int), text@, cs, old(ctx)@),
            forward(old(ctx)@, final(ctx)@, text@.len() as int),
        decreases size(self@) + size_all(cont(k@, klen as int)), 3int, 0int,
    {
        if lazy {
            self.lazy_star_loop(ctx, text, cs, k, klen)
        } else {
            self.greedy_star_loop(ctx, text, cs, k, klen)
        }
    }

    /// Greedy repetition: remembers the last state at which the
    /// continuation matched, and returns to it when no repetition is left.
    fn greedy_star_loop<'a>(&'a self, ctx: &mut RegexCtx, text: &[char], cs: bool, k: &Vec<&'a MatchCase>, klen: usize)
        requires
            klen <= k@.len(),
        ensures
            final(ctx)@ == star_greedy(self@, cont(k@, klen as int), text@, cs, old(ctx)@, None),
            forward(old(ctx)@, final(ctx)@, text@.len() as int),
        decreases size(self@) + size_all(cont(k@, klen as int)), 2int, 0int,
    {
        let ghost kv = cont(k@, klen as int);
        let ghost target = star_greedy(self@, kv, text@, cs, old(ctx)@, None);
        let mut last: Option<RegexCtx> = None;
        proof {
            lemma_size_pos(self@);
        }
        loop
            invariant
                klen <= k@.len(),
                kv == cont(k@, klen as int),
                kv.len() == klen,
                size(self@) >= 1,
                target == star_greedy(self@, cont(k@, klen as int), text@, cs, old(ctx)@, None),
                target == star_greedy(self@, kv, text@, cs, ctx@, opt_view(last)),
                forward(old(ctx)@, ctx@, text@.len() as int),
                last is Some ==> forward(old(ctx)@, last->0@, text@.len() as int),
            decreases text@.len() - ctx@.pos,
        {
            let mut probe = ctx.dup();
            if probe.following_match(text, cs, k, klen) {
                last = Some(ctx.dup());
            }
            let mut t = ctx.dup();
            if self.matches(&mut t, text, cs, k, klen) && ctx.chars() < t.chars() && t.chars() <= text.len() {
                *ctx = t;
                ctx.update_open_captures();
            } else {
                match last {
                    Some(f) => {
                        *ctx = f;
                    },
                    None => {},
                }
                return;
            }
        }
    }

    /// Lazy repetition: stops as soon as the continuation matches.
    fn lazy_star_loop<'a>(&'a self, ctx: &mut RegexCtx, text: &[char], cs: bool, k: &Vec<&'a MatchCase>, klen: usize)
        requires
            klen <= k@.len(),
        ensures
            final(ctx)@ == star_lazy(self@, cont(k@, klen as int), text@, cs, old(ctx)@),
            forward(old(ctx)@, final(ctx)@, text@.len() as int),
        decreases size(self@) + size_all(cont(k@, klen as int)), 2int, 0int,
    {
        let ghost kv = cont(k@, klen as int);
        let ghost target = star_lazy(self@, kv, text@, cs, old(ctx)@);
        proof {
            lemma_size_pos(self@);
        }
        loop
            invariant
                klen <= k@.len(),
                kv == cont(k@, klen as int),
                kv.len() == klen,
                size(self@) >= 1,
                target == star_lazy(self@, cont(k@, klen as int), text@, cs, old(ctx)@),
                target == star_lazy(self@, kv, text@, cs, ctx@),
                forward(old(ctx)@, ctx@, text@.len() as int),
            decreases text@.len() - ctx@.pos,
        {
            let mut probe = ctx.dup();
            if probe.following_match(text, cs, k, klen) {
                return;
            }
            let mut t = ctx.dup();
            if self.matches(&mut t, text, cs, k, klen) && ctx.chars() < t.chars() && t.chars() <= text.len() {
                *ctx = t;
                ctx.update_open_captures();
            } else {
                return;
            }
        }
    }
}

pub open spec fn opt_nat(o: Option<usize>) -> Option<nat> {
    match o {
        Some(n) => Some(n as nat),
        None => None,
    }
}

} // verus!

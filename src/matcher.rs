use vstd::prelude::*;
use vstd::string::StrSliceExecFns;

use crate::text::chars_of;
use crate::RegexConf;
use crate::case::{
    ast_all, cont, eval, eval_run, forward, lemma_ast_all, lemma_cont_last, Ast, MatchCase, MatchState,
    refresh_caps, size_all,
};

verus! {

/// The mutable state of one match attempt: a cursor into the input, the span
/// recorded for each group, and the groups entered and not yet left.
/// Duplicating it is how a trial is made: a trial that fails is dropped.
pub struct RegexCtx {
    pos: usize,
    captures: Vec<(usize, usize)>,
    open_captures: Vec<(usize, usize)>,
}

impl View for RegexCtx {
    type V = MatchState;

    closed spec fn view(&self) -> MatchState {
        MatchState { pos: self.pos, caps: self.captures@, open: self.open_captures@ }
    }
}

pub open spec fn opt_view(o: Option<RegexCtx>) -> Option<MatchState> {
    match o {
        Some(c) => Some(c@),
        None => None,
    }
}

impl RegexCtx {
    /// A fresh state at `pos`: every group records the empty span, none is open.
    pub fn new(n_captures: usize, pos: usize) -> (r: RegexCtx)
        ensures
            r@ == (MatchState {
                pos,
                caps: Seq::new(n_captures as nat, |_i: int| (0usize, 0usize)),
                open: Seq::empty(),
            }),
    {
        let mut captures: Vec<(usize, usize)> = Vec::new();
        let mut i: usize = 0;
        while i < n_captures
            invariant
                i <= n_captures,
                captures@ == Seq::new(i as nat, |_i: int| (0usize, 0usize)),
            decreases n_captures - i,
        {
            captures.push((0, 0));
            i = i + 1;
            assert(captures@ =~= Seq::new(i as nat, |_i: int| (0usize, 0usize)));
        }
        let r = RegexCtx { pos, captures, open_captures: Vec::new() };
        assert(r@.open =~= Seq::empty());
        r
    }

    /// A state at `pos` with the given group spans and no open group.
    pub fn with_captures(pos: usize, captures: &Vec<(usize, usize)>) -> (r: RegexCtx)
        ensures
            r@ == (MatchState { pos, caps: captures@, open: Seq::empty() }),
    {
        let mut copy: Vec<(usize, usize)> = Vec::new();
        let mut i: usize = 0;
        while i < captures.len()
            invariant
                i <= captures@.len(),
                copy@ == captures@.subrange(0, i as int),
            decreases captures@.len() - i,
        {
            copy.push(captures[i]);
            i = i + 1;
            assert(copy@ =~= captures@.subrange(0, i as int));
        }
        assert(copy@ =~= captures@);
        let r = RegexCtx { pos, captures: copy, open_captures: Vec::new() };
        assert(r@.open =~= Seq::empty());
        r
    }

    /// The recorded group spans, taking the state apart.
    pub fn into_captures(self) -> (r: Vec<(usize, usize)>)
        ensures
            r@ == self@.caps,
    {
        self.captures
    }

    /// A duplicate that shares nothing with `self`.
    pub fn dup(&self) -> (r: RegexCtx)
        ensures
            r@ == self@,
    {
        let mut captures: Vec<(usize, usize)> = Vec::new();
        let mut i: usize = 0;
        while i < self.captures.len()
            invariant
                i <= self.captures@.len(),
                captures@ == self.captures@.subrange(0, i as int),
            decreases self.captures@.len() - i,
        {
            captures.push(self.captures[i]);
            i = i + 1;
            assert(captures@ =~= self.captures@.subrange(0, i as int));
        }
        let mut open_captures: Vec<(usize, usize)> = Vec::new();
        let mut j: usize = 0;
        while j < self.open_captures.len()
            invariant
                j <= self.open_captures@.len(),
                open_captures@ == self.open_captures@.subrange(0, j as int),
            decreases self.open_captures@.len() - j,
        {
            open_captures.push(self.open_captures[j]);
            j = j + 1;
            assert(open_captures@ =~= self.open_captures@.subrange(0, j as int));
        }
        assert(captures@ =~= self.captures@);
        assert(open_captures@ =~= self.open_captures@);
        RegexCtx { pos: self.pos, captures, open_captures }
    }

    /// The cursor: how many characters of the input lie before it.
    pub fn chars(&self) -> (r: usize)
        ensures
            r == self@.pos,
    {
        self.pos
    }

    /// The number of groups the state records.
    pub fn n_captures(&self) -> (r: usize)
        ensures
            r == self@.caps.len(),
    {
        self.captures.len()
    }

    pub fn advance(&mut self, n: usize)
        requires
            old(self)@.pos + n <= usize::MAX,
        ensures
            final(self)@ == old(self)@.advance(n as int),
    {
        self.pos = self.pos + n;
    }

    /// The span recorded for group `id`.
    pub fn get_capture(&self, id: usize) -> (r: (usize, usize))
        requires
            1 <= id <= self@.caps.len(),
        ensures
            r == self@.caps[id - 1],
    {
        self.captures[id - 1]
    }

    /// Opens group `id` at the cursor.
    pub fn push_capture(&mut self, id: usize)
        ensures
            final(self)@ == old(self)@.enter(id),
    {
        self.open_captures.push((id, self.pos));
    }

    /// Closes the group opened last.
    pub fn pop_capture(&mut self)
        ensures
            final(self)@ == old(self)@.leave(),
    {
        if self.open_captures.len() > 0 {
            self.open_captures.pop();
            assert(self.open_captures@ =~= old(self)@.open.drop_last());
        }
    }

    /// Stretches the span of every open group to the cursor.
    pub fn update_open_captures(&mut self)
        ensures
            final(self)@ == old(self)@.refresh(),
    {
        let ghost caps0 = self.captures@;
        let mut i: usize = 0;
        while i < self.open_captures.len()
            invariant
                i <= self.open_captures@.len(),
                self.open_captures@ == old(self).open_captures@,
                self.pos == old(self).pos,
                self.captures@ == refresh_caps(caps0, self.open_captures@.subrange(0, i as int), self.pos),
            decreases self.open_captures@.len() - i,
        {
            let (id, start) = self.open_captures[i];
            assert(self.open_captures@.subrange(0, i + 1).drop_last() =~= self.open_captures@.subrange(0, i as int));
            if 1 <= id && id <= self.captures.len() {
                self.captures.set(id - 1, (start, self.pos));
            }
            i = i + 1;
            assert(self.captures@ =~= refresh_caps(caps0, self.open_captures@.subrange(0, i as int), self.pos));
        }
        assert(self.open_captures@.subrange(0, i as int) =~= self.open_captures@);
    }

    /// Whether the continuation (the top `klen` nodes of `k`) matches from
    /// here; on success the state is where it ends.
    pub fn following_match<'a>(&mut self, text: &[char], cs: bool, k: &Vec<&'a MatchCase>, klen: usize) -> (r: bool)
        requires
            klen <= k@.len(),
        ensures
            r == (eval_run(cont(k@, klen as int), klen as nat, text@, cs, old(self)@) is Some),
            r ==> final(self)@ == eval_run(cont(k@, klen as int), klen as nat, text@, cs, old(self)@)->0,
            r ==> forward(old(self)@, final(self)@, text@.len() as int),
        decreases size_all(cont(k@, klen as int)), 2int, 0int,
    {
        self.run_top(text, cs, k, klen, klen)
    }

    /// Matches the top `n` nodes of the continuation, each against the
    /// nodes below it.
    pub fn run_top<'a>(&mut self, text: &[char], cs: bool, k: &Vec<&'a MatchCase>, klen: usize, n: usize) -> (r: bool)
        requires
            klen <= k@.len(),
            n <= klen,
        ensures
            r == (eval_run(cont(k@, klen as int), n as nat, text@, cs, old(self)@) is Some),
            r ==> final(self)@ == eval_run(cont(k@, klen as int), n as nat, text@, cs, old(self)@)->0,
            r ==> forward(old(self)@, final(self)@, text@.len() as int),
        decreases size_all(cont(k@, klen as int)), 1int, 0int,
    {
        let ghost target = eval_run(cont(k@, klen as int), n as nat, text@, cs, old(self)@);
        let mut i: usize = 0;
        while i < n
            invariant
                klen <= k@.len(),
                n <= klen,
                i <= n,
                target == eval_run(cont(k@, klen as int), n as nat, text@, cs, old(self)@),
                target == eval_run(cont(k@, klen - i), (n - i) as nat, text@, cs, self@),
                forward(old(self)@, self@, text@.len() as int),
            decreases n - i,
        {
            let j = klen - i;
            proof {
                lemma_cont_last(k@, j as int, klen as int);
                assert(cont(k@, j as int).len() > 0);
            }
            let ghost before = self@;
            let top = k[j - 1];
            assert(top@ == cont(k@, j as int).last());
            if !top.matches(self, text, cs, k, j - 1) {
                assert(eval(cont(k@, j as int).last(), cont(k@, j as int).drop_last(), text@, cs, before) is None);
                assert(eval_run(cont(k@, j as int), (n - i) as nat, text@, cs, before) is None);
                assert(target is None);
                return false;
            }
            i = i + 1;
        }
        true
    }
}

/// The first match found from offset `pos` on, with the capture spans
/// `caps` carried over from the match before: its span, the offset at which
/// scanning resumes, and the capture spans after it. An attempt that fails
/// moves on by one character; an empty match also resumes one further on.
pub open spec fn scan_from(
    cases: Seq<Ast>,
    text: Seq<char>,
    cs: bool,
    pos: nat,
    caps: Seq<(usize, usize)>,
) -> Option<((nat, nat), nat, Seq<(usize, usize)>)>
    decreases text.len() + 1 - pos,
{
    if pos > text.len() {
        None
    } else {
        let st = MatchState { pos: pos as usize, caps, open: Seq::empty() };
        match eval_run(cases.reverse(), cases.len(), text, cs, st) {
            Some(s) => if pos <= s.pos <= text.len() {
                Some(((pos, s.pos as nat), if s.pos > pos { s.pos as nat } else { pos + 1 }, s.caps))
            } else {
                scan_from(cases, text, cs, pos + 1, caps)
            },
            None => scan_from(cases, text, cs, pos + 1, caps),
        }
    }
}

pub proof fn lemma_scan_from(cases: Seq<Ast>, text: Seq<char>, cs: bool, pos: nat, caps: Seq<(usize, usize)>)
    ensures
        scan_from(cases, text, cs, pos, caps) matches Some(r) ==> {
            &&& pos <= r.0.0 <= r.0.1 <= text.len()
            &&& r.0.0 < r.1 <= text.len() + 1
            &&& r.0.1 <= r.1
        },
    decreases text.len() + 1 - pos,
{
    if pos <= text.len() {
        lemma_scan_from(cases, text, cs, pos + 1, caps);
    }
}

/// The spans of all matches from offset `pos` on, in order.
pub open spec fn all_matches(
    cases: Seq<Ast>,
    text: Seq<char>,
    cs: bool,
    pos: nat,
    caps: Seq<(usize, usize)>,
) -> Seq<(nat, nat)>
    decreases text.len() + 1 - pos,
{
    match scan_from(cases, text, cs, pos, caps) {
        Some(r) => {
            proof {
                lemma_scan_from(cases, text, cs, pos, caps);
            }
            seq![r.0] + all_matches(cases, text, cs, r.1, r.2)
        },
        None => Seq::empty(),
    }
}

pub proof fn lemma_all_matches_len(cases: Seq<Ast>, text: Seq<char>, cs: bool, pos: nat, caps: Seq<(usize, usize)>)
    requires
        pos <= text.len() + 1,
    ensures
        all_matches(cases, text, cs, pos, caps).len() <= text.len() + 1 - pos,
    decreases text.len() + 1 - pos,
{
    lemma_scan_from(cases, text, cs, pos, caps);
    match scan_from(cases, text, cs, pos, caps) {
        Some(r) => {
            lemma_all_matches_len(cases, text, cs, r.1, r.2);
        },
        None => {},
    }
}

/// The text of a recorded group: empty where the span does not lie within
/// the input.
pub open spec fn group_text(text: Seq<char>, span: (usize, usize)) -> Seq<char> {
    if span.0 <= span.1 <= text.len() {
        text.subrange(span.0 as int, span.1 as int)
    } else {
        Seq::empty()
    }
}

/// One match: where it starts and ends, in characters, and its text.
pub struct RegexMatch<'a> {
    start: usize,
    end: usize,
    slice: &'a str,
}

impl<'a> RegexMatch<'a> {
    pub closed spec fn spec_span(&self) -> (nat, nat) {
        (self.start as nat, self.end as nat)
    }

    pub closed spec fn spec_slice(&self) -> Seq<char> {
        self.slice@
    }

    /// Where the match starts and ends, as character offsets.
    pub fn span(&self) -> (r: (usize, usize))
        ensures
            r.0 == self.spec_span().0,
            r.1 == self.spec_span().1,
    {
        (self.start, self.end)
    }

    /// The matched text.
    pub fn slice(&self) -> (r: &'a str)
        ensures
            r@ == self.spec_slice(),
    {
        self.slice
    }
}

/// The matches of a compiled pattern in one input, produced one at a time
/// by `next`, left to right and without overlap.
pub struct RegexMatcher<'a> {
    src: &'a str,
    text: Vec<char>,
    cases: &'a [MatchCase],
    stack: Vec<&'a MatchCase>,
    case_sensitive: bool,
    pos: usize,
    done: bool,
    captures: Vec<(usize, usize)>,
}

impl<'a> RegexMatcher<'a> {
    /// The pattern's nodes, in order.
    pub closed spec fn pattern(&self) -> Seq<Ast> {
        ast_all(self.cases@)
    }

    pub closed spec fn input(&self) -> Seq<char> {
        self.text@
    }

    pub closed spec fn is_case_sensitive(&self) -> bool {
        self.case_sensitive
    }

    /// Where the next attempt starts; one past the end once the input is
    /// used up.
    pub closed spec fn cursor(&self) -> nat {
        if self.done {
            self.text@.len() + 1
        } else {
            self.pos as nat
        }
    }

    /// The group spans recorded by the last match.
    pub closed spec fn groups(&self) -> Seq<(usize, usize)> {
        self.captures@
    }

    pub closed spec fn wf(&self) -> bool {
        &&& self.text@ == self.src@
        &&& self.stack@.len() == self.cases@.len()
        &&& cont(self.stack@, self.stack@.len() as int) == ast_all(self.cases@).reverse()
        &&& !self.done ==> self.pos <= self.text@.len()
    }

    /// The spans of the matches still to come.
    pub open spec fn remaining(&self) -> Seq<(nat, nat)> {
        all_matches(self.pattern(), self.input(), self.is_case_sensitive(), self.cursor(), self.groups())
    }

    /// A scan of `src` for `matches` that records `n_captures` groups.
    pub fn new(src: &'a str, matches: &'a [MatchCase], n_captures: usize, conf: RegexConf) -> (r: RegexMatcher<'a>)
        ensures
            r.wf(),
            r.pattern() == ast_all(matches@),
            r.input() == src@,
            r.is_case_sensitive() == conf.case_sensitive,
            r.cursor() == 0,
            r.groups() == Seq::new(n_captures as nat, |_i: int| (0usize, 0usize)),
    {
        let text = chars_of(src);
        let mut stack: Vec<&'a MatchCase> = Vec::new();
        let ghost pat = ast_all(matches@);
        proof {
            lemma_ast_all(matches@);
        }
        let mut j: usize = matches.len();
        while j > 0
            invariant
                j <= matches@.len(),
                pat == ast_all(matches@),
                pat.len() == matches@.len(),
                forall|i: int| 0 <= i < matches@.len() ==> #[trigger] pat[i] == matches@[i]@,
                stack@.len() == matches@.len() - j,
                cont(stack@, stack@.len() as int) == pat.subrange(j as int, matches@.len() as int).reverse(),
            decreases j,
        {
            j = j - 1;
            let ghost before = stack@;
            stack.push(&matches[j]);
            assert(cont(stack@, stack@.len() as int) =~= cont(before, before.len() as int).push(matches@[j as int]@));
            assert(pat.subrange(j as int, matches@.len() as int).reverse() =~= pat.subrange(
                j + 1,
                matches@.len() as int,
            ).reverse().push(pat[j as int]));
        }
        assert(pat.subrange(0, matches@.len() as int) =~= pat);
        let ctx = RegexCtx::new(n_captures, 0);
        RegexMatcher {
            src,
            text,
            cases: matches,
            stack,
            case_sensitive: conf.case_sensitive,
            pos: 0,
            done: false,
            captures: ctx.into_captures(),
        }
    }

    /// The next match, if any; the group spans then are those it recorded.
    pub fn next(&mut self) -> (r: Option<RegexMatch<'a>>)
        requires
            old(self).wf(),
        ensures
            final(self).wf(),
            final(self).pattern() == old(self).pattern(),
            final(self).input() == old(self).input(),
            final(self).is_case_sensitive() == old(self).is_case_sensitive(),
            match scan_from(
                old(self).pattern(),
                old(self).input(),
                old(self).is_case_sensitive(),
                old(self).cursor(),
                old(self).groups(),
            ) {
                Some(found) => {
                    &&& r is Some
                    &&& r->0.spec_span() == found.0
                    &&& r->0.spec_slice() == old(self).input().subrange(found.0.0 as int, found.0.1 as int)
                    &&& final(self).cursor() == found.1
                    &&& final(self).groups() == found.2
                },
                None => {
                    &&& r is None
                    &&& final(self).cursor() == old(self).input().len() + 1
                    &&& final(self).groups() == old(self).groups()
                },
            },
    {
        let ghost target = scan_from(
            self.pattern(),
            self.input(),
            self.is_case_sensitive(),
            self.cursor(),
            self.groups(),
        );
        loop
            invariant
                self.wf(),
                self.pattern() == old(self).pattern(),
                self.input() == old(self).input(),
                self.src == old(self).src,
                self.is_case_sensitive() == old(self).is_case_sensitive(),
                self.groups() == old(self).groups(),
                target == scan_from(
                    old(self).pattern(),
                    old(self).input(),
                    old(self).is_case_sensitive(),
                    old(self).cursor(),
                    old(self).groups(),
                ),
                target == scan_from(
                    self.pattern(),
                    self.input(),
                    self.is_case_sensitive(),
                    self.cursor(),
                    self.groups(),
                ),
            decreases self.input().len() + 1 - self.cursor(),
        {
            if self.done {
                return None;
            }
            let mut ctx = RegexCtx::with_captures(self.pos, &self.captures);
            let n = self.stack.len();
            if ctx.run_top(&self.text, self.case_sensitive, &self.stack, n, n) {
                let start = self.pos;
                let end = ctx.chars();
                let slice = self.src.substring_char(start, end);
                self.captures = ctx.into_captures();
                if end > start {
                    self.pos = end;
                } else if start < self.text.len() {
                    self.pos = start + 1;
                } else {
                    self.done = true;
                }
                return Some(RegexMatch { start, end, slice });
            } else if self.pos < self.text.len() {
                self.pos = self.pos + 1;
            } else {
                self.done = true;
            }
        }
    }

    /// How many matches are still to come; the scan is used up.
    pub fn count(&mut self) -> (r: usize)
        requires
            old(self).wf(),
            old(self).input().len() < usize::MAX,
        ensures
            r == old(self).remaining().len(),
    {
        let ghost total = self.remaining().len();
        let mut n: usize = 0;
        loop
            invariant
                self.wf(),
                self.input() == old(self).input(),
                self.input().len() < usize::MAX,
                total == old(self).remaining().len(),
                n + self.remaining().len() == total,
                self.cursor() <= self.input().len() + 1,
                n <= self.cursor(),
            decreases self.input().len() + 1 - self.cursor(),
        {
            proof {
                lemma_scan_from(self.pattern(), self.input(), self.is_case_sensitive(), self.cursor(), self.groups());
                lemma_all_matches_len(self.pattern(), self.input(), self.is_case_sensitive(), self.cursor(), self.groups());
            }
            match self.next() {
                Some(_) => {
                    n = n + 1;
                },
                None => {
                    return n;
                },
            }
        }
    }

    /// The text each group recorded at the last match, group 1 first.
    pub fn get_groups(&self) -> (r: Vec<&'a str>)
        requires
            self.wf(),
        ensures
            r@.len() == self.groups().len(),
            forall|i: int| 0 <= i < r@.len() ==> #[trigger] r@[i]@ == group_text(self.input(), self.groups()[i]),
    {
        let mut r: Vec<&'a str> = Vec::new();
        let mut i: usize = 0;
        while i < self.captures.len()
            invariant
                self.wf(),
                i <= self.captures@.len(),
                r@.len() == i,
                forall|j: int| 0 <= j < i ==> #[trigger] r@[j]@ == group_text(self.input(), self.groups()[j]),
            decreases self.captures@.len() - i,
        {
            let (s, e) = self.captures[i];
            if s <= e && e <= self.text.len() {
                r.push(self.src.substring_char(s, e));
            } else {
                proof {
                    reveal_strlit("");
                }
                r.push("");
            }
            assert(r@[i as int]@ == group_text(self.input(), self.groups()[i as int]));
            i = i + 1;
        }
        r
    }
}

} // verus!

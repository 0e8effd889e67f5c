use vstd::prelude::*;

pub mod case;
pub mod compiler;
pub mod error;
pub mod fold;
pub mod laws;
pub mod matcher;
pub mod text;

use std::borrow::Cow;

use vstd::string::{StrSliceExecFns, StringExecFns};

use crate::case::{ast_all, Ast, MatchCase};
use crate::compiler::{compile_spec, RegexCompiler};
use crate::error::{message, RegexError};
use crate::matcher::{all_matches, lemma_scan_from, scan_from, RegexMatcher};

verus! {

/// Options of a match.
#[derive(Clone, Copy)]
pub struct RegexConf {
    /// Whether letters must agree in case; when not, both sides are folded
    /// to lower case before they are compared.
    pub case_sensitive: bool,
}

/// A compiled pattern: its top-level nodes, matched one after another, and
/// the number of groups it captures.
pub struct Regex {
    matches: Vec<MatchCase>,
    n_captures: usize,
}

impl Regex {
    pub closed spec fn pattern(&self) -> Seq<Ast> {
        ast_all(self.matches@)
    }

    pub closed spec fn spec_n_captures(&self) -> nat {
        self.n_captures as nat
    }

    /// Compiles `src`; fails with the first syntax error met.
    pub fn compile(src: &str) -> (r: Result<Regex, RegexError>)
        ensures
            match compile_spec(src@) {
                Ok(x) => r is Ok && r->Ok_0.pattern() == x.0 && r->Ok_0.spec_n_captures() == x.1,
                Err(e) => r is Err && r->Err_0.spec_kind() == e && r->Err_0.spec_message() == message(e),
            },
    {
        let mut compiler = RegexCompiler::new(src);
        compiler.process()
    }

    /// The matches of this pattern in `src`, compared case-sensitively.
    pub fn find_matches<'a>(&'a self, src: &'a str) -> (r: RegexMatcher<'a>)
        ensures
            r.wf(),
            r.pattern() == self.pattern(),
            r.input() == src@,
            r.is_case_sensitive(),
            r.cursor() == 0,
            r.groups() == no_groups(self.spec_n_captures()),
    {
        self.find_matches_with_conf(src, RegexConf { case_sensitive: true })
    }

    /// The matches of this pattern in `src` under `conf`.
    pub fn find_matches_with_conf<'a>(&'a self, src: &'a str, conf: RegexConf) -> (r: RegexMatcher<'a>)
        ensures
            r.wf(),
            r.pattern() == self.pattern(),
            r.input() == src@,
            r.is_case_sensitive() == conf.case_sensitive,
            r.cursor() == 0,
            r.groups() == no_groups(self.spec_n_captures()),
    {
        RegexMatcher::new(src, self.matches.as_slice(), self.n_captures, conf)
    }

    /// Whether the pattern matches somewhere in `src`, compared
    /// case-sensitively.
    pub fn test(&self, src: &str) -> (r: bool)
        ensures
            r == accepts(self.pattern(), self.spec_n_captures(), src@, true),
    {
        self.test_with_conf(src, RegexConf { case_sensitive: true })
    }

    /// Whether the pattern matches somewhere in `src` under `conf`.
    pub fn test_with_conf(&self, src: &str, conf: RegexConf) -> (r: bool)
        ensures
            r == accepts(self.pattern(), self.spec_n_captures(), src@, conf.case_sensitive),
    {
        let mut matcher = self.find_matches_with_conf(src, conf);
        let m = matcher.next();
        m.is_some()
    }
}

/// Every group recording the empty span, as before the first match.
pub open spec fn no_groups(n: nat) -> Seq<(usize, usize)> {
    Seq::new(n, |_i: int| (0usize, 0usize))
}

/// The first match of a pattern in `text`.
pub open spec fn first_match(cases: Seq<Ast>, n: nat, text: Seq<char>, cs: bool) -> Option<
    ((nat, nat), nat, Seq<(usize, usize)>),
> {
    scan_from(cases, text, cs, 0, no_groups(n))
}

/// Whether a pattern matches somewhere in `text`.
pub open spec fn accepts(cases: Seq<Ast>, n: nat, text: Seq<char>, cs: bool) -> bool {
    first_match(cases, n, text, cs) is Some
}

/// The spans of all matches of a pattern in `text`, in order.
pub open spec fn match_spans(cases: Seq<Ast>, n: nat, text: Seq<char>, cs: bool) -> Seq<(nat, nat)> {
    all_matches(cases, text, cs, 0, no_groups(n))
}

/// `text` from `from` on, with each span of `spans` replaced by `rep`.
pub open spec fn splice(text: Seq<char>, spans: Seq<(nat, nat)>, rep: Seq<char>, from: int) -> Seq<char>
    decreases spans.len(),
{
    if spans.len() == 0 {
        text.subrange(from, text.len() as int)
    } else {
        text.subrange(from, spans[0].0 as int) + rep + splice(text, spans.drop_first(), rep, spans[0].1 as int)
    }
}

/// Whether `text` matches the pattern `regex`; a pattern that does not
/// compile matches nothing.
pub fn matches_regex(text: &str, regex: &str) -> (r: bool)
    ensures
        r == match compile_spec(regex@) {
            Ok(x) => accepts(x.0, x.1, text@, true),
            Err(_) => false,
        },
{
    match Regex::compile(regex) {
        Ok(re) => re.test(text),
        Err(_) => false,
    }
}

/// `text` with every match of `regex` replaced by `replacement`; `text`
/// itself, borrowed, when nothing matches.
pub fn replace_regex<'a>(text: &'a str, regex: &str, replacement: &str) -> (r: Result<Cow<'a, str>, RegexError>)
    ensures
        match compile_spec(regex@) {
            Ok(x) => {
                &&& r is Ok
                &&& r->Ok_0@ == splice(text@, match_spans(x.0, x.1, text@, true), replacement@, 0)
                &&& (r->Ok_0 is Borrowed <==> match_spans(x.0, x.1, text@, true).len() == 0)
            },
            Err(e) => r is Err && r->Err_0.spec_kind() == e,
        },
{
    let re = match Regex::compile(regex) {
        Ok(re) => re,
        Err(e) => {
            return Err(e);
        },
    };
    let mut matcher = re.find_matches(text);
    let ghost all = matcher.remaining();
    let ghost rep = replacement@;
    proof {
        lemma_scan_from(matcher.pattern(), matcher.input(), true, 0, matcher.groups());
    }
    let first = matcher.next();
    let (start0, end0) = match first {
        None => {
            proof {
                reveal_strlit("");
                assert(text@.subrange(0, text@.len() as int) =~= text@);
            }
            return Ok(Cow::Borrowed(text));
        },
        Some(m) => m.span(),
    };
    let mut result = String::from_str(text.substring_char(0, start0));
    result.append(replacement);
    let mut curr: usize = end0;
    proof {
        let rest = matcher.remaining();
        assert(all.drop_first() =~= rest);
        assert(splice(text@, all, rep, 0) =~= result@ + splice(text@, rest, rep, curr as int));
    }
    loop
        invariant
            matcher.wf(),
            matcher.input() == text@,
            matcher.pattern() == re.pattern(),
            matcher.is_case_sensitive(),
            curr <= text@.len(),
            curr <= matcher.cursor(),
            all == match_spans(re.pattern(), re.spec_n_captures(), text@, true),
            all.len() > 0,
            rep == replacement@,
            compile_spec(regex@) is Ok,
            compile_spec(regex@)->Ok_0.0 == re.pattern(),
            compile_spec(regex@)->Ok_0.1 == re.spec_n_captures(),
            splice(text@, all, rep, 0) == result@ + splice(text@, matcher.remaining(), rep, curr as int),
        decreases text@.len() + 1 - matcher.cursor(),
    {
        proof {
            lemma_scan_from(matcher.pattern(), matcher.input(), true, matcher.cursor(), matcher.groups());
        }
        let ghost rem = matcher.remaining();
        let ghost before = result@;
        match matcher.next() {
            Some(m) => {
                let (start, end) = m.span();
                result.append(text.substring_char(curr, start));
                result.append(replacement);
                proof {
                    let rest = matcher.remaining();
                    assert(rem.drop_first() =~= rest);
                    assert(splice(text@, rem, rep, curr as int) == text@.subrange(curr as int, start as int) + rep
                        + splice(text@, rest, rep, end as int));
                    let a = text@.subrange(curr as int, start as int);
                    let tail = splice(text@, rest, rep, end as int);
                    assert(result@ =~= before + a + rep);
                    assert(before + a + rep + tail =~= before + (a + rep + tail));
                }
                curr = end;
            },
            None => {
                result.append(text.substring_char(curr, text.unicode_len()));
                assert(rem.len() == 0);
                assert(result@ =~= before + splice(text@, rem, rep, curr as int));
                return Ok(Cow::Owned(result));
            },
        }
    }
}

/// Testing a string against a pattern given as text.
pub trait RegexTestable {
    /// Whether the string matches `regex`; false when it does not compile.
    fn matches_regex(&self, regex: &str) -> bool;
}

impl RegexTestable for &str {
    fn matches_regex(&self, regex: &str) -> bool {
        matches_regex(*self, regex)
    }
}

/// Replacing the matches of a pattern given as text.
pub trait ReplaceRegex {
    /// The string with every match of `regex` replaced by `replacement`.
    fn replace_regex<'a>(&'a self, regex: &str, replacement: &str) -> Result<Cow<'a, str>, RegexError>;
}

impl ReplaceRegex for &str {
    fn replace_regex<'a>(&'a self, regex: &str, replacement: &str) -> Result<Cow<'a, str>, RegexError> {
        replace_regex(*self, regex, replacement)
    }
}

} // verus!

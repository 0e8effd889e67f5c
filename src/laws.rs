use vstd::prelude::*;

use crate::case::{eval_run, Ast, MatchState};
use crate::compiler::{compile_spec, empty_scope, finish};
use crate::matcher::{all_matches, lemma_scan_from, scan_from, RegexMatcher};
use crate::{accepts, match_spans, no_groups, Regex};

verus! {

/// `test` holds exactly when a fresh scan of the same input yields a first
/// match.
pub proof fn law_test_is_first_match(re: &Regex, m: &RegexMatcher, cs: bool)
    requires
        m.pattern() == re.pattern(),
        m.is_case_sensitive() == cs,
        m.cursor() == 0,
        m.groups() == no_groups(re.spec_n_captures()),
    ensures
        accepts(re.pattern(), re.spec_n_captures(), m.input(), cs) == (scan_from(
            m.pattern(),
            m.input(),
            m.is_case_sensitive(),
            m.cursor(),
            m.groups(),
        ) is Some),
{
}

/// Compiling one pattern twice gives two programs that accept the same
/// inputs: compilation is a function of the pattern.
pub proof fn law_compile_deterministic(p: Seq<char>, a: &Regex, b: &Regex)
    requires
        compile_spec(p) is Ok,
        a.pattern() == compile_spec(p)->Ok_0.0,
        a.spec_n_captures() == compile_spec(p)->Ok_0.1,
        b.pattern() == compile_spec(p)->Ok_0.0,
        b.spec_n_captures() == compile_spec(p)->Ok_0.1,
    ensures
        a.pattern() == b.pattern(),
        forall|text: Seq<char>, cs: bool|
            #[trigger] accepts(a.pattern(), a.spec_n_captures(), text, cs) == accepts(
                b.pattern(),
                b.spec_n_captures(),
                text,
                cs,
            ),
{
}

/// Two scans of one input with one compiled pattern, from the same state,
/// yield the same matches.
pub proof fn law_scan_idempotent(m1: &RegexMatcher, m2: &RegexMatcher)
    requires
        m1.pattern() == m2.pattern(),
        m1.input() == m2.input(),
        m1.is_case_sensitive() == m2.is_case_sensitive(),
        m1.cursor() == m2.cursor(),
        m1.groups() == m2.groups(),
    ensures
        m1.remaining() == m2.remaining(),
{
}

/// The matches of one scan lie within the input, each ends no earlier than
/// it starts, and each starts no earlier than the one before it ends.
pub proof fn law_matches_do_not_overlap(
    cases: Seq<Ast>,
    text: Seq<char>,
    cs: bool,
    pos: nat,
    caps: Seq<(usize, usize)>,
)
    ensures
        ({
            let s = all_matches(cases, text, cs, pos, caps);
            &&& forall|i: int| 0 <= i < s.len() ==> pos <= (#[trigger] s[i]).0 <= s[i].1 <= text.len()
            &&& forall|i: int| 0 <= i < s.len() - 1 ==> (#[trigger] s[i + 1]).0 >= s[i].1
        }),
    decreases text.len() + 1 - pos,
{
    lemma_scan_from(cases, text, cs, pos, caps);
    match scan_from(cases, text, cs, pos, caps) {
        Some(r) => {
            law_matches_do_not_overlap(cases, text, cs, r.1, r.2);
            let rest = all_matches(cases, text, cs, r.1, r.2);
            let s = all_matches(cases, text, cs, pos, caps);
            assert(s == seq![r.0] + rest);
            assert forall|i: int| 0 <= i < s.len() - 1 implies (#[trigger] s[i + 1]).0 >= s[i].1 by {
                if i > 0 {
                    assert(s[i] == rest[i - 1]);
                    assert(s[i + 1] == rest[i]);
                    assert(rest[(i - 1) + 1].0 >= rest[i - 1].1);
                } else {
                    assert(s[0] == r.0);
                    assert(s[1] == rest[0]);
                    assert(rest[0].0 >= r.1);
                }
            }
            assert forall|i: int| 0 <= i < s.len() implies pos <= (#[trigger] s[i]).0 <= s[i].1 <= text.len() by {
                if i > 0 {
                    assert(s[i] == rest[i - 1]);
                }
            }
        },
        None => {},
    }
}

/// The empty pattern compiles to no node and no group.
pub proof fn law_empty_pattern_compiles()
    ensures
        compile_spec(Seq::empty()) == Ok::<(Seq<Ast>, nat), crate::error::ErrorKind>((Seq::<Ast>::empty(), 0nat)),
{
    assert(compile_spec(Seq::empty()) == finish(seq![empty_scope(None)], 0));
}

/// The empty pattern matches once at every offset of an input of length
/// `N`, `N + 1` times in all, each time with an empty match.
pub proof fn law_empty_pattern_matches(text: Seq<char>, cs: bool)
    requires
        text.len() < usize::MAX,
    ensures
        match_spans(Seq::empty(), 0, text, cs) == Seq::new(text.len() + 1, |i: int| (i as nat, i as nat)),
{
    lemma_empty_from(text, cs, 0, no_groups(0));
    assert(Seq::new((text.len() + 1) as nat, |i: int| ((0 + i) as nat, (0 + i) as nat)) =~= Seq::new(
        text.len() + 1,
        |i: int| (i as nat, i as nat),
    ));
}

proof fn lemma_empty_from(text: Seq<char>, cs: bool, pos: nat, caps: Seq<(usize, usize)>)
    requires
        text.len() < usize::MAX,
        pos <= text.len() + 1,
    ensures
        all_matches(Seq::empty(), text, cs, pos, caps) == Seq::new(
            (text.len() + 1 - pos) as nat,
            |i: int| ((pos + i) as nat, (pos + i) as nat),
        ),
    decreases text.len() + 1 - pos,
{
    let empty = Seq::<Ast>::empty();
    if pos <= text.len() {
        let st = MatchState { pos: pos as usize, caps, open: Seq::empty() };
        assert(empty.reverse() =~= empty);
        assert(eval_run(empty.reverse(), 0, text, cs, st) == Some(st));
        assert(scan_from(empty, text, cs, pos, caps) == Some(((pos, pos), pos + 1, caps)));
        lemma_empty_from(text, cs, pos + 1, caps);
        assert(all_matches(empty, text, cs, pos, caps) =~= Seq::new(
            (text.len() + 1 - pos) as nat,
            |i: int| ((pos + i) as nat, (pos + i) as nat),
        ));
    } else {
        assert(all_matches(empty, text, cs, pos, caps) =~= Seq::new(
            (text.len() + 1 - pos) as nat,
            |i: int| ((pos + i) as nat, (pos + i) as nat),
        ));
    }
}

} // verus!

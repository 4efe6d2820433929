//! The simulator: runs a machine over input by tracking a set of active
//! states, collapsing null transitions without consuming input, and recording
//! capture-group spans from the per-state feature words.

use vstd::prelude::*;

verus! {

use crate::gex::features::{spec_close_flag, spec_group_number};
use crate::gex::machine::{GexMachine, Next, Rule, SpecMachine, SpecState, State, wf};
use crate::matcher::Match;
use crate::text::{char_index_at, char_index_of, char_len, char_utf8_len, sat_add, sat_add_usize,
    str_to_chars};
use std::collections::HashMap;

pub uninterp spec fn is_word_char(c: char) -> bool;

pub uninterp spec fn is_digit_char(c: char) -> bool;

pub uninterp spec fn is_space_char(c: char) -> bool;

/// Relies on char::is_alphanumeric: whether the scalar lies in an alphabetic
/// or numeric Unicode general category, a function of the scalar alone.
#[verifier::external_body]
fn char_is_alphanumeric(c: char) -> (r: bool)
    ensures
        r == is_word_char(c),
{
    c.is_alphanumeric()
}

/// Relies on char::is_numeric: whether the scalar lies in a numeric Unicode
/// general category, a function of the scalar alone.
#[verifier::external_body]
fn char_is_numeric(c: char) -> (r: bool)
    ensures
        r == is_digit_char(c),
{
    c.is_numeric()
}

/// Relies on char::is_whitespace: whether the scalar has the Unicode
/// whitespace property, a function of the scalar alone.
#[verifier::external_body]
fn char_is_whitespace(c: char) -> (r: bool)
    ensures
        r == is_space_char(c),
{
    c.is_whitespace()
}

/// What a rule says about one scalar. Null evaluates false: it consumes
/// nothing and is handled by the closure walk instead.
pub open spec fn rule_eval(rule: Rule, given: char) -> bool {
    match rule {
        Rule::Range(start, end, positive) => ((start <= given as u32 && given as u32 <= end)
            == positive),
        Rule::Not(value) => given as u32 != value,
        Rule::IsWord(positive) => is_word_char(given) == positive,
        Rule::IsDigit(positive) => is_digit_char(given) == positive,
        Rule::IsWhitespace(positive) => is_space_char(given) == positive,
        Rule::Null => false,
    }
}

/// Among the first `kk` transitions of `s`, one is a null edge to `t`.
pub open spec fn null_edge_in_prefix(s: SpecState, kk: int, t: int) -> bool {
    exists|k: int|
        0 <= k < kk && k < s.transitions.len() && #[trigger] s.transitions[k] == (
            Rule::Null,
            Next::Target(t as usize),
        )
}

pub open spec fn has_null_edge_to(s: SpecState, t: int) -> bool {
    null_edge_in_prefix(s, s.transitions.len() as int, t)
}

/// Among the first `kk` transitions of `s`, one is `(Null, Accept)`.
pub open spec fn null_accept_in_prefix(s: SpecState, kk: int) -> bool {
    exists|k: int|
        0 <= k < kk && k < s.transitions.len() && #[trigger] s.transitions[k] == (
            Rule::Null,
            Next::Accept,
        )
}

pub open spec fn has_null_accept(s: SpecState) -> bool {
    null_accept_in_prefix(s, s.transitions.len() as int)
}

/// Among the first `kk` transitions of `s`, one consumes a scalar.
pub open spec fn consuming_in_prefix(s: SpecState, kk: int) -> bool {
    exists|k: int|
        0 <= k < kk && k < s.transitions.len() && !((#[trigger] s.transitions[k]).0 is Null)
}

pub open spec fn has_consuming(s: SpecState) -> bool {
    consuming_in_prefix(s, s.transitions.len() as int)
}

/// One expansion of the null closure: every state already in the mask, plus
/// every null-successor of a masked state.
pub open spec fn null_step(m: SpecMachine, mask: Seq<bool>) -> Seq<bool> {
    Seq::new(
        mask.len(),
        |t: int|
            mask[t] || exists|u: int|
                0 <= u < mask.len() && mask[u] && u < m.states.len() && has_null_edge_to(
                    #[trigger] m.states[u],
                    t,
                ),
    )
}

pub open spec fn null_closure_n(m: SpecMachine, mask: Seq<bool>, fuel: nat) -> Seq<bool>
    decreases fuel,
{
    if fuel == 0 {
        mask
    } else {
        null_closure_n(m, null_step(m, mask), (fuel - 1) as nat)
    }
}

/// The null closure of a state set: expanding as many times as there are
/// states reaches every state the set can reach along null edges.
pub open spec fn null_closure(m: SpecMachine, mask: Seq<bool>) -> Seq<bool> {
    null_closure_n(m, mask, mask.len())
}

/// The closure signals acceptance when it holds a state with a
/// `(Null, Accept)` edge.
pub open spec fn mask_accepts_null(m: SpecMachine, mask: Seq<bool>) -> bool {
    exists|u: int|
        0 <= u < mask.len() && mask[u] && u < m.states.len() && has_null_accept(
            #[trigger] m.states[u],
        )
}

/// Only states that can consume a scalar stay active after a closure.
pub open spec fn active_of(m: SpecMachine, mask: Seq<bool>) -> Seq<bool> {
    Seq::new(
        mask.len(),
        |t: int| mask[t] && t < m.states.len() && has_consuming(m.states[t]),
    )
}

/// A short-circuit state rejects the scalar outright when any of its first
/// `kk` rules fails.
pub open spec fn reject_in_prefix(s: SpecState, c: char, kk: int) -> bool {
    (s.flags & 0x1u64 != 0) && exists|k: int|
        0 <= k < kk && k < s.transitions.len() && !rule_eval((#[trigger] s.transitions[k]).0, c)
}

pub open spec fn state_rejects(s: SpecState, c: char) -> bool {
    reject_in_prefix(s, c, s.transitions.len() as int)
}

/// Among the first `kk` transitions, one whose rule matches `c` leads to `t`.
pub open spec fn match_to_in_prefix(s: SpecState, c: char, kk: int, t: int) -> bool {
    exists|k: int|
        0 <= k < kk && k < s.transitions.len() && rule_eval((#[trigger] s.transitions[k]).0, c)
            && s.transitions[k].1 == Next::Target(t as usize)
}

pub open spec fn state_matches_to(s: SpecState, c: char, t: int) -> bool {
    match_to_in_prefix(s, c, s.transitions.len() as int, t)
}

/// Among the first `kk` transitions, one whose rule matches `c` accepts.
pub open spec fn match_accept_in_prefix(s: SpecState, c: char, kk: int) -> bool {
    exists|k: int|
        0 <= k < kk && k < s.transitions.len() && rule_eval((#[trigger] s.transitions[k]).0, c)
            && s.transitions[k].1 == Next::Accept
}

pub open spec fn state_matches_accept(s: SpecState, c: char) -> bool {
    match_accept_in_prefix(s, c, s.transitions.len() as int)
}

/// Among the first `kk` transitions, one whose rule matches `c`.
pub open spec fn consume_in_prefix(s: SpecState, c: char, kk: int) -> bool {
    exists|k: int|
        0 <= k < kk && k < s.transitions.len() && rule_eval((#[trigger] s.transitions[k]).0, c)
}

pub open spec fn state_consumes(s: SpecState, c: char) -> bool {
    consume_in_prefix(s, c, s.transitions.len() as int)
}

/// States reached on scalar `c` from the first `uu` masked states, discarding
/// the contribution of any short-circuit state with a failing rule.
pub open spec fn step_reached_prefix(
    m: SpecMachine,
    mask: Seq<bool>,
    c: char,
    uu: int,
    t: int,
) -> bool {
    exists|u: int|
        0 <= u < uu && u < mask.len() && mask[u] && u < m.states.len() && !state_rejects(
            #[trigger] m.states[u],
            c,
        ) && state_matches_to(m.states[u], c, t)
}

pub open spec fn step_accept_prefix(m: SpecMachine, mask: Seq<bool>, c: char, uu: int) -> bool {
    exists|u: int|
        0 <= u < uu && u < mask.len() && mask[u] && u < m.states.len() && !state_rejects(
            #[trigger] m.states[u],
            c,
        ) && state_matches_accept(m.states[u], c)
}

pub open spec fn step_consumed_prefix(m: SpecMachine, mask: Seq<bool>, c: char, uu: int) -> bool {
    exists|u: int|
        0 <= u < uu && u < mask.len() && mask[u] && u < m.states.len() && !state_rejects(
            #[trigger] m.states[u],
            c,
        ) && state_consumes(m.states[u], c)
}

/// The set of states reached by consuming `c` from the masked states.
pub open spec fn char_step_mask(m: SpecMachine, mask: Seq<bool>, c: char) -> Seq<bool> {
    Seq::new(mask.len(), |t: int| step_reached_prefix(m, mask, c, mask.len() as int, t))
}

pub open spec fn char_step_accept(m: SpecMachine, mask: Seq<bool>, c: char) -> bool {
    step_accept_prefix(m, mask, c, mask.len() as int)
}

pub open spec fn char_step_consumed(m: SpecMachine, mask: Seq<bool>, c: char) -> bool {
    step_consumed_prefix(m, mask, c, mask.len() as int)
}

pub open spec fn mask_any(mask: Seq<bool>) -> bool {
    exists|t: int| 0 <= t < mask.len() && mask[t]
}

impl GexMachine {
    /// Evaluates one rule against one scalar.
    fn evaluate_rule(rule: &Rule, given: &char) -> (r: bool)
        ensures
            r == rule_eval(*rule, *given),
    {
        match rule {
            Rule::Range(start, end, positive) => {
                (*start <= *given as u32 && *given as u32 <= *end) == *positive
            },
            Rule::Not(value) => *given as u32 != *value,
            Rule::IsWord(positive) => char_is_alphanumeric(*given) == *positive,
            Rule::IsDigit(positive) => char_is_numeric(*given) == *positive,
            Rule::IsWhitespace(positive) => char_is_whitespace(*given) == *positive,
            Rule::Null => false,
        }
    }

    /// One exec expansion of the null closure.
    #[verifier::loop_isolation(false)]
    fn null_step_exec(&self, mask: &Vec<bool>) -> (r: Vec<bool>)
        requires
            mask@.len() == self@.states.len(),
        ensures
            r@ == null_step(self@, mask@),
    {
        let n = self.states.len();
        let mut out: Vec<bool> = Vec::new();
        let mut t: usize = 0;
        while t < n
            invariant
                t <= n,
                out@.len() == t,
                forall|q: int| 0 <= q < t ==> out@[q] == mask@[q],
            decreases n - t,
        {
            out.push(mask[t]);
            t = t + 1;
        }
        let mut u: usize = 0;
        while u < n
            invariant
                u <= n,
                out@.len() == n,
                forall|q: int|
                    0 <= q < n ==> out@[q] == (mask@[q] || (exists|u2: int|
                        0 <= u2 < u && mask@[u2] && has_null_edge_to(
                            #[trigger] self@.states[u2],
                            q,
                        ))),
            decreases n - u,
        {
            if mask[u] {
                let st = &self.states[u];
                let kn = st.transitions.len();
                let mut k: usize = 0;
                while k < kn
                    invariant
                        k <= kn,
                        kn == st@.transitions.len(),
                        st@ == self@.states[u as int],
                        out@.len() == n,
                        forall|q: int|
                            0 <= q < n ==> out@[q] == (mask@[q] || (exists|u2: int|
                                0 <= u2 < u && mask@[u2] && has_null_edge_to(
                                    #[trigger] self@.states[u2],
                                    q,
                                )) || null_edge_in_prefix(self@.states[u as int], k as int, q)),
                    decreases kn - k,
                {
                    let (rule, next) = st.transitions[k];
                    let ghost pre = out@;
                    if matches!(rule, Rule::Null) {
                        match next {
                            Next::Target(tt) => {
                                if tt < n {
                                    out[tt] = true;
                                }
                            },
                            Next::Accept => {},
                        }
                    }
                    proof {
                        assert forall|q: int| 0 <= q < n implies out@[q] == (mask@[q] || (exists|
                            u2: int,
                        |
                            0 <= u2 < u && mask@[u2] && has_null_edge_to(
                                #[trigger] self@.states[u2],
                                q,
                            )) || null_edge_in_prefix(self@.states[u as int], k + 1, q)) by {
                            let s = self@.states[u as int];
                            if out@[q] {
                                if pre[q] {
                                    assert(null_edge_in_prefix(s, k as int, q) ==> null_edge_in_prefix(
                                        s,
                                        k + 1,
                                        q,
                                    ));
                                } else {
                                    assert(s.transitions[k as int] == (
                                        Rule::Null,
                                        Next::Target(q as usize),
                                    ));
                                    assert(null_edge_in_prefix(s, k + 1, q));
                                }
                            } else {
                                assert(!null_edge_in_prefix(s, k as int, q));
                                if null_edge_in_prefix(s, k + 1, q) {
                                    let kk = choose|kk: int|
                                        0 <= kk < k + 1 && kk < s.transitions.len()
                                            && #[trigger] s.transitions[kk] == (
                                            Rule::Null,
                                            Next::Target(q as usize),
                                        );
                                    assert(kk == k);
                                    assert(false);
                                }
                            }
                        }
                    }
                    k = k + 1;
                }
                proof {
                    assert forall|q: int| 0 <= q < n implies out@[q] == (mask@[q] || (exists|u2: int|
                        0 <= u2 < u + 1 && mask@[u2] && has_null_edge_to(
                            #[trigger] self@.states[u2],
                            q,
                        ))) by {
                        if out@[q] && !mask@[q] {
                            if null_edge_in_prefix(self@.states[u as int], kn as int, q) {
                                assert(has_null_edge_to(self@.states[u as int], q));
                            }
                        }
                        if !out@[q] {
                            assert(!has_null_edge_to(self@.states[u as int], q));
                        }
                    }
                }
            } else {
                proof {
                    assert forall|q: int| 0 <= q < n implies out@[q] == (mask@[q] || (exists|u2: int|
                        0 <= u2 < u + 1 && mask@[u2] && has_null_edge_to(
                            #[trigger] self@.states[u2],
                            q,
                        ))) by {}
                }
            }
            u = u + 1;
        }
        proof {
            assert(r_matches_null_step(self@, mask@, out@));
            assert(out@ =~= null_step(self@, mask@));
        }
        out
    }
}

/// A capture span being recorded: opened at `start`, closed once `end`
/// arrives.
#[derive(Debug, PartialEq, Eq, Clone, Copy)]
pub struct MatchCandidate {
    pub start: usize,
    pub end: Option<usize>,
}

impl MatchCandidate {
    fn new() -> (r: MatchCandidate)
        ensures
            r == (MatchCandidate { start: 0usize, end: None::<usize> }),
    {
        MatchCandidate::with_start(0)
    }

    fn with_start(start: usize) -> (r: MatchCandidate)
        ensures
            r == (MatchCandidate { start, end: None::<usize> }),
    {
        MatchCandidate { start, end: None }
    }
}

impl Match {
    fn from_candidate(candidate: &MatchCandidate) -> (r: Match)
        requires
            candidate.end is Some,
        ensures
            r == (Match { start: candidate.start, end: candidate.end->0 }),
    {
        Match { start: candidate.start, end: candidate.end.unwrap() }
    }
}

/// Per-invocation matcher state: the capture table, indexed by group number,
/// when captures were requested.
pub struct GexMatcher {
    pub captures: Option<Vec<Option<MatchCandidate>>>,
}

/// One feature word applied to the capture table at byte offset `p`: an open
/// word starts a fresh candidate, a close word completes the current one.
pub open spec fn apply_word(
    table: Seq<Option<MatchCandidate>>,
    w: u64,
    p: int,
) -> Seq<Option<MatchCandidate>> {
    let g = spec_group_number(w) as int;
    if g >= table.len() {
        table
    } else if spec_close_flag(w) == 0 {
        table.update(g, Some(MatchCandidate { start: p as usize, end: None }))
    } else {
        match table[g] {
            Some(c) => table.update(g, Some(MatchCandidate { start: c.start, end: Some(p as usize) })),
            None => table,
        }
    }
}

pub open spec fn apply_words_from(
    table: Seq<Option<MatchCandidate>>,
    words: Seq<u64>,
    j: int,
    p: int,
) -> Seq<Option<MatchCandidate>>
    decreases words.len() - j,
{
    if j < 0 || j >= words.len() {
        table
    } else {
        apply_words_from(apply_word(table, words[j], p), words, j + 1, p)
    }
}

/// The feature words of every masked state applied in state order, each word
/// list in order, at byte offset `p`.
pub open spec fn apply_mask_flags(
    m: SpecMachine,
    table: Seq<Option<MatchCandidate>>,
    mask: Seq<bool>,
    t: int,
    p: int,
) -> Seq<Option<MatchCandidate>>
    decreases mask.len() - t,
{
    if t < 0 || t >= mask.len() {
        table
    } else {
        let t2 = if mask[t] && t < m.flags.len() {
            apply_words_from(table, m.flags[t], 0, p)
        } else {
            table
        };
        apply_mask_flags(m, t2, mask, t + 1, p)
    }
}

/// The mask every run starts from: state 0 alone.
pub open spec fn start_mask(m: SpecMachine) -> Seq<bool> {
    Seq::new(m.states.len(), |t: int| t == 0)
}

/// The simulation from scalar index `i` on, without capture tracking: the
/// candidate match end, a byte offset relative to where the run started.
/// Acceptance is remembered once seen; the candidate end advances whenever a
/// scalar was consumed while acceptance holds.
pub open spec fn spec_run_core_from(
    m: SpecMachine,
    cs: Seq<char>,
    i: int,
    mask: Seq<bool>,
    pos: int,
    accepted: bool,
    end: Option<int>,
) -> Option<int>
    decreases cs.len() - i,
{
    if i < 0 || i >= cs.len() {
        end
    } else {
        let c = cs[i];
        let nm0 = char_step_mask(m, mask, c);
        let acc1 = char_step_accept(m, mask, c);
        let cons = char_step_consumed(m, mask, c);
        let cl = null_closure(m, nm0);
        let acc2 = mask_accepts_null(m, cl);
        let act = active_of(m, cl);
        let acc = accepted || acc1 || acc2;
        let npos = if cons {
            pos + char_len(c)
        } else {
            pos
        };
        let nend = if npos > pos && acc {
            Some(npos)
        } else {
            end
        };
        if !mask_any(act) {
            nend
        } else {
            spec_run_core_from(m, cs, i + 1, act, npos, acc, nend)
        }
    }
}

/// What one anchored run of the machine over `cs` yields: the byte length of
/// the candidate match, or `None` when no prefix was ever accepted.
pub open spec fn spec_run(m: SpecMachine, cs: Seq<char>) -> Option<int> {
    let cl = null_closure(m, start_mask(m));
    let acc0 = mask_accepts_null(m, cl);
    let act = active_of(m, cl);
    spec_run_core_from(
        m,
        cs,
        0,
        act,
        0,
        false,
        if acc0 {
            Some(0int)
        } else {
            None
        },
    )
}

/// The simulation with capture tracking: the same run, also threading the
/// capture table, whose words are applied to every state of each closure.
pub open spec fn spec_run_caps_from(
    m: SpecMachine,
    cs: Seq<char>,
    i: int,
    mask: Seq<bool>,
    pos: int,
    accepted: bool,
    end: Option<int>,
    table: Seq<Option<MatchCandidate>>,
) -> (Option<int>, Seq<Option<MatchCandidate>>)
    decreases cs.len() - i,
{
    if i < 0 || i >= cs.len() {
        (end, table)
    } else {
        let c = cs[i];
        let nm0 = char_step_mask(m, mask, c);
        let acc1 = char_step_accept(m, mask, c);
        let cons = char_step_consumed(m, mask, c);
        let cl = null_closure(m, nm0);
        let acc2 = mask_accepts_null(m, cl);
        let act = active_of(m, cl);
        let acc = accepted || acc1 || acc2;
        let npos = if cons {
            pos + char_len(c)
        } else {
            pos
        };
        let nend = if npos > pos && acc {
            Some(npos)
        } else {
            end
        };
        let table2 = apply_mask_flags(m, table, cl, 0, npos);
        if !mask_any(act) {
            (nend, table2)
        } else {
            spec_run_caps_from(m, cs, i + 1, act, npos, acc, nend, table2)
        }
    }
}

pub open spec fn spec_run_caps(
    m: SpecMachine,
    cs: Seq<char>,
    table0: Seq<Option<MatchCandidate>>,
) -> (Option<int>, Seq<Option<MatchCandidate>>) {
    let cl = null_closure(m, start_mask(m));
    let acc0 = mask_accepts_null(m, cl);
    let act = active_of(m, cl);
    let table1 = apply_mask_flags(m, table0, cl, 0, 0);
    spec_run_caps_from(
        m,
        cs,
        0,
        act,
        0,
        false,
        if acc0 {
            Some(0int)
        } else {
            None
        },
        table1,
    )
}

/// Expanding the closure never changes how many states there are.
pub proof fn lemma_closure_len(m: SpecMachine, mask: Seq<bool>, fuel: nat)
    ensures
        null_closure_n(m, mask, fuel).len() == mask.len(),
    decreases fuel,
{
    if fuel > 0 {
        lemma_closure_len(m, null_step(m, mask), (fuel - 1) as nat);
    }
}

/// Capture tracking never changes which match the run finds.
pub proof fn lemma_caps_core(
    m: SpecMachine,
    cs: Seq<char>,
    i: int,
    mask: Seq<bool>,
    pos: int,
    accepted: bool,
    end: Option<int>,
    table: Seq<Option<MatchCandidate>>,
)
    ensures
        spec_run_caps_from(m, cs, i, mask, pos, accepted, end, table).0 == spec_run_core_from(
            m,
            cs,
            i,
            mask,
            pos,
            accepted,
            end,
        ),
    decreases cs.len() - i,
{
    if 0 <= i < cs.len() {
        let c = cs[i];
        let nm0 = char_step_mask(m, mask, c);
        let cl = null_closure(m, nm0);
        let act = active_of(m, cl);
        let acc = accepted || char_step_accept(m, mask, c) || mask_accepts_null(m, cl);
        let npos = if char_step_consumed(m, mask, c) {
            pos + char_len(c)
        } else {
            pos
        };
        let nend = if npos > pos && acc {
            Some(npos)
        } else {
            end
        };
        if mask_any(act) {
            lemma_caps_core(
                m,
                cs,
                i + 1,
                act,
                npos,
                acc,
                nend,
                apply_mask_flags(m, table, cl, 0, npos),
            );
        }
    }
}

/// Capture tracking never changes the run's result, whatever table it
/// starts from.
pub proof fn lemma_caps_core_top(m: SpecMachine, cs: Seq<char>, table: Seq<Option<MatchCandidate>>)
    ensures
        spec_run_caps(m, cs, table).0 == spec_run(m, cs),
{
    let cl = null_closure(m, start_mask(m));
    let act = active_of(m, cl);
    let e0: Option<int> = if mask_accepts_null(m, cl) {
        Some(0int)
    } else {
        None
    };
    lemma_caps_core(m, cs, 0, act, 0, false, e0, apply_mask_flags(m, table, cl, 0, 0));
}

/// The exec expansion agrees with `null_step` pointwise.
pub open spec fn r_matches_null_step(m: SpecMachine, mask: Seq<bool>, out: Seq<bool>) -> bool {
    out.len() == mask.len() && forall|q: int|
        0 <= q < mask.len() ==> out[q] == (mask[q] || exists|u2: int|
            0 <= u2 < mask.len() && mask[u2] && u2 < m.states.len() && has_null_edge_to(
                #[trigger] m.states[u2],
                q,
            ))
}

/// Whether the state holds a `(Null, Accept)` transition.
#[verifier::loop_isolation(false)]
fn state_has_null_accept(st: &State) -> (r: bool)
    ensures
        r == has_null_accept(st@),
{
    let kn = st.transitions.len();
    let mut k: usize = 0;
    let mut found = false;
    while k < kn
        invariant
            k <= kn,
            found == null_accept_in_prefix(st@, k as int),
        decreases kn - k,
    {
        let (rule, next) = st.transitions[k];
        if matches!(rule, Rule::Null) && matches!(next, Next::Accept) {
            found = true;
            proof {
                assert(st@.transitions[k as int] == (Rule::Null, Next::Accept));
            }
        }
        proof {
            if !found {
                if null_accept_in_prefix(st@, k + 1) {
                    let kk = choose|kk: int|
                        0 <= kk < k + 1 && kk < st@.transitions.len()
                            && #[trigger] st@.transitions[kk] == (Rule::Null, Next::Accept);
                    assert(kk == k);
                    assert(false);
                }
            }
        }
        k = k + 1;
    }
    found
}

/// Whether the state has any transition that consumes a scalar.
#[verifier::loop_isolation(false)]
fn state_has_consuming(st: &State) -> (r: bool)
    ensures
        r == has_consuming(st@),
{
    let kn = st.transitions.len();
    let mut k: usize = 0;
    let mut found = false;
    while k < kn
        invariant
            k <= kn,
            found == consuming_in_prefix(st@, k as int),
        decreases kn - k,
    {
        let (rule, _) = st.transitions[k];
        if !matches!(rule, Rule::Null) {
            found = true;
            proof {
                assert(!(st@.transitions[k as int].0 is Null));
            }
        }
        proof {
            if !found {
                if consuming_in_prefix(st@, k + 1) {
                    let kk = choose|kk: int|
                        0 <= kk < k + 1 && kk < st@.transitions.len() && !((
                        #[trigger] st@.transitions[kk]).0 is Null);
                    assert(kk == k);
                    assert(false);
                }
            }
        }
        k = k + 1;
    }
    found
}

impl GexMachine {
    /// The full null closure of a state set, by expanding once per state.
    #[verifier::loop_isolation(false)]
    fn null_closure_exec(&self, mask: Vec<bool>) -> (r: Vec<bool>)
        requires
            mask@.len() == self@.states.len(),
        ensures
            r@ == null_closure(self@, mask@),
    {
        let ghost m0 = mask@;
        let n = self.states.len();
        let mut cur = mask;
        let mut it: usize = 0;
        while it < n
            invariant
                it <= n,
                cur@.len() == n,
                null_closure_n(self@, m0, m0.len()) == null_closure_n(
                    self@,
                    cur@,
                    (n - it) as nat,
                ),
            decreases n - it,
        {
            let next = self.null_step_exec(&cur);
            proof {
                assert(null_closure_n(self@, cur@, (n - it) as nat) == null_closure_n(
                    self@,
                    null_step(self@, cur@),
                    (n - it - 1) as nat,
                ));
            }
            cur = next;
            it = it + 1;
        }
        cur
    }

    /// Whether the closed set signals acceptance through a null edge.
    #[verifier::loop_isolation(false)]
    fn mask_accepts_exec(&self, mask: &Vec<bool>) -> (r: bool)
        requires
            mask@.len() == self@.states.len(),
        ensures
            r == mask_accepts_null(self@, mask@),
    {
        let n = self.states.len();
        let mut u: usize = 0;
        let mut found = false;
        while u < n
            invariant
                u <= n,
                found == exists|u2: int|
                    0 <= u2 < u && mask@[u2] && u2 < self@.states.len() && has_null_accept(
                        #[trigger] self@.states[u2],
                    ),
            decreases n - u,
        {
            if mask[u] {
                if state_has_null_accept(&self.states[u]) {
                    found = true;
                    proof {
                        assert(has_null_accept(self@.states[u as int]));
                    }
                }
            }
            proof {
                if !found {
                    if exists|u2: int|
                        0 <= u2 < u + 1 && mask@[u2] && u2 < self@.states.len() && has_null_accept(
                            #[trigger] self@.states[u2],
                        ) {
                        let u2 = choose|u2: int|
                            0 <= u2 < u + 1 && mask@[u2] && u2 < self@.states.len()
                                && has_null_accept(#[trigger] self@.states[u2]);
                        assert(u2 == u);
                        assert(false);
                    }
                }
            }
            u = u + 1;
        }
        found
    }

    /// Keeps only states that can consume a scalar.
    #[verifier::loop_isolation(false)]
    fn active_filter(&self, mask: &Vec<bool>) -> (r: Vec<bool>)
        requires
            mask@.len() == self@.states.len(),
        ensures
            r@ == active_of(self@, mask@),
    {
        let n = self.states.len();
        let mut out: Vec<bool> = Vec::new();
        let mut t: usize = 0;
        while t < n
            invariant
                t <= n,
                out@.len() == t,
                forall|q: int|
                    0 <= q < t ==> out@[q] == (mask@[q] && q < self@.states.len() && has_consuming(
                        self@.states[q],
                    )),
            decreases n - t,
        {
            let keep = if mask[t] {
                state_has_consuming(&self.states[t])
            } else {
                false
            };
            out.push(keep);
            t = t + 1;
        }
        proof {
            assert(out@ =~= active_of(self@, mask@));
        }
        out
    }

    /// Applies the feature words of one state to the capture table.
    #[verifier::loop_isolation(false)]
    fn capture_group(&self, matcher: &mut GexMatcher, state_label: usize, position: usize)
        requires
            old(matcher).captures is Some,
            state_label < self@.flags.len(),
        ensures
            final(matcher).captures matches Some(t1) && old(matcher).captures matches Some(t0)
                && t1@ == apply_words_from(
                t0@,
                self@.flags[state_label as int],
                0,
                position as int,
            ) && t1@.len() == t0@.len(),
    {
        let taken = matcher.captures.take();
        let mut table = taken.unwrap();
        let ghost t0 = table@;
        let ghost words = self@.flags[state_label as int];
        let pairs_opt = self.features.group_numbers(state_label);
        let pairs = pairs_opt.unwrap();
        let pn = pairs.len();
        let mut j: usize = 0;
        while j < pn
            invariant
                j <= pn,
                pn == words.len(),
                pairs@ == crate::gex::features::spec_group_numbers_of(words),
                table@.len() == t0.len(),
                apply_words_from(t0, words, 0, position as int) == apply_words_from(
                    table@,
                    words,
                    j as int,
                    position as int,
                ),
            decreases pn - j,
        {
            let (g, cl) = pairs[j];
            proof {
                assert(pairs@[j as int] == (
                    spec_group_number(words[j as int]),
                    spec_close_flag(words[j as int]),
                ));
            }
            let gi = g as usize;
            let ghost pret = table@;
            if gi < table.len() {
                if cl == 0 {
                    table[gi] = Some(MatchCandidate::with_start(position));
                } else {
                    match table[gi] {
                        Some(c) => {
                            table[gi] = Some(MatchCandidate { start: c.start, end: Some(position) });
                        },
                        None => {},
                    }
                }
            }
            proof {
                assert(table@ =~= apply_word(pret, words[j as int], position as int));
                assert(apply_words_from(pret, words, j as int, position as int)
                    == apply_words_from(table@, words, j + 1, position as int));
            }
            j = j + 1;
        }
        matcher.captures = Some(table);
    }

    /// Applies capture metadata for one visited state, when captures are on.
    fn evaluate_state_flags(&self, matcher: &mut GexMatcher, state_label: usize, position: usize)
        requires
            state_label < self@.flags.len(),
        ensures
            match (old(matcher).captures, final(matcher).captures) {
                (Some(t0), Some(t1)) => t1@ == apply_words_from(
                    t0@,
                    self@.flags[state_label as int],
                    0,
                    position as int,
                ) && t1@.len() == t0@.len(),
                (None, None) => true,
                _ => false,
            },
    {
        if matcher.captures.is_some() {
            self.capture_group(matcher, state_label, position);
        }
    }

    /// Follows null transitions until the set is closed, recording capture
    /// metadata of every state reached, then keeps only consuming states and
    /// reports whether an accept edge was crossed.
    #[verifier::loop_isolation(false)]
    fn collapse_null_transitions(
        &self,
        curr_states: Vec<bool>,
        position: usize,
        matcher: &mut GexMatcher,
    ) -> (r: (Vec<bool>, bool))
        requires
            wf(self@),
            curr_states@.len() == self@.states.len(),
        ensures
            r.0@ == active_of(self@, null_closure(self@, curr_states@)),
            r.0@.len() == curr_states@.len(),
            r.1 == mask_accepts_null(self@, null_closure(self@, curr_states@)),
            match (old(matcher).captures, final(matcher).captures) {
                (Some(t0), Some(t1)) => t1@ == apply_mask_flags(
                    self@,
                    t0@,
                    null_closure(self@, curr_states@),
                    0,
                    position as int,
                ) && t1@.len() == t0@.len(),
                (None, None) => true,
                _ => false,
            },
    {
        let ghost m0 = curr_states@;
        proof {
            lemma_closure_len(self@, m0, m0.len());
        }
        let closed = self.null_closure_exec(curr_states);
        let n = self.states.len();
        let mut t: usize = 0;
        while t < n
            invariant
                t <= n,
                closed@ == null_closure(self@, m0),
                closed@.len() == n,
                self@.flags.len() == n,
                match (old(matcher).captures, matcher.captures) {
                    (Some(t0), Some(t1)) => t1@.len() == t0@.len() && apply_mask_flags(
                        self@,
                        t0@,
                        closed@,
                        0,
                        position as int,
                    ) == apply_mask_flags(self@, t1@, closed@, t as int, position as int),
                    (None, None) => true,
                    _ => false,
                },
            decreases n - t,
        {
            if closed[t] {
                self.evaluate_state_flags(matcher, t, position);
            }
            t = t + 1;
        }
        let accept = self.mask_accepts_exec(&closed);
        let active = self.active_filter(&closed);
        proof {
            assert(active@.len() == closed@.len());
        }
        (active, accept)
    }

    /// Consumes one scalar from every active state, discarding short-circuit
    /// states with a failing rule, then closes over null transitions at the
    /// advanced position.
    #[verifier::loop_isolation(false)]
    fn do_transition(
        &self,
        curr_states: &Vec<bool>,
        input_char: &char,
        matcher: &mut GexMatcher,
        position: usize,
        accepted: bool,
    ) -> (r: (Vec<bool>, bool, usize))
        requires
            wf(self@),
            curr_states@.len() == self@.states.len(),
            position + 4 <= usize::MAX,
        ensures
            ({
                let c = *input_char;
                let nm0 = char_step_mask(self@, curr_states@, c);
                let cl = null_closure(self@, nm0);
                let npos = if char_step_consumed(self@, curr_states@, c) {
                    position + char_len(c)
                } else {
                    position as int
                };
                &&& r.0@ == active_of(self@, cl)
                &&& r.0@.len() == curr_states@.len()
                &&& r.1 == (accepted || char_step_accept(self@, curr_states@, c)
                    || mask_accepts_null(self@, cl))
                &&& r.2 == npos
                &&& match (old(matcher).captures, final(matcher).captures) {
                    (Some(t0), Some(t1)) => t1@ == apply_mask_flags(self@, t0@, cl, 0, npos)
                        && t1@.len() == t0@.len(),
                    (None, None) => true,
                    _ => false,
                }
            }),
    {
        let c = *input_char;
        let n = self.states.len();
        let mut new_states: Vec<bool> = Vec::new();
        let mut t0: usize = 0;
        while t0 < n
            invariant
                t0 <= n,
                new_states@.len() == t0,
                forall|q: int| 0 <= q < t0 ==> !new_states@[q],
            decreases n - t0,
        {
            new_states.push(false);
            t0 = t0 + 1;
        }
        let mut consumed_a_character = false;
        let mut found_accept = false;
        let mut u: usize = 0;
        while u < n
            invariant
                u <= n,
                new_states@.len() == n,
                n == self@.states.len(),
                curr_states@.len() == n,
                forall|q: int|
                    0 <= q < n ==> new_states@[q] == step_reached_prefix(
                        self@,
                        curr_states@,
                        c,
                        u as int,
                        q,
                    ),
                found_accept == step_accept_prefix(self@, curr_states@, c, u as int),
                consumed_a_character == step_consumed_prefix(self@, curr_states@, c, u as int),
            decreases n - u,
        {
            if curr_states[u] {
                let st = &self.states[u];
                proof {
                    assert(st@ == self@.states[u as int]);
                }
                let kn = st.transitions.len();
                let mut rejected = false;
                if st.short_circuit() {
                    let mut k: usize = 0;
                    while k < kn
                        invariant
                            k <= kn,
                            kn == st@.transitions.len(),
                            st@ == self@.states[u as int],
                            rejected == reject_in_prefix(st@, c, k as int),
                        decreases kn - k,
                    {
                        let (rule, _) = st.transitions[k];
                        if !GexMachine::evaluate_rule(&rule, &c) {
                            rejected = true;
                            proof {
                                assert(!rule_eval(st@.transitions[k as int].0, c));
                            }
                        }
                        proof {
                            if !rejected {
                                if reject_in_prefix(st@, c, k + 1) {
                                    let kk = choose|kk: int|
                                        0 <= kk < k + 1 && kk < st@.transitions.len() && !rule_eval(
                                            (#[trigger] st@.transitions[kk]).0,
                                            c,
                                        );
                                    assert(kk == k);
                                    assert(false);
                                }
                            }
                        }
                        k = k + 1;
                    }
                }
                proof {
                    assert(rejected == state_rejects(st@, c));
                }
                if !rejected {
                    let mut k: usize = 0;
                    while k < kn
                        invariant
                            k <= kn,
                            kn == st@.transitions.len(),
                            st@ == self@.states[u as int],
                            !state_rejects(st@, c),
                            curr_states@[u as int],
                            u < n,
                            new_states@.len() == n,
                            forall|q: int|
                                0 <= q < n ==> new_states@[q] == (step_reached_prefix(
                                    self@,
                                    curr_states@,
                                    c,
                                    u as int,
                                    q,
                                ) || match_to_in_prefix(st@, c, k as int, q)),
                            found_accept == (step_accept_prefix(self@, curr_states@, c, u as int)
                                || match_accept_in_prefix(st@, c, k as int)),
                            consumed_a_character == (step_consumed_prefix(
                                self@,
                                curr_states@,
                                c,
                                u as int,
                            ) || consume_in_prefix(st@, c, k as int)),
                        decreases kn - k,
                    {
                        let (rule, next) = st.transitions[k];
                        let ghost pre = new_states@;
                        let ghost pre_acc = found_accept;
                        let ghost pre_cons = consumed_a_character;
                        if GexMachine::evaluate_rule(&rule, &c) {
                            consumed_a_character = true;
                            match next {
                                Next::Target(tt) => {
                                    if tt < n {
                                        new_states[tt] = true;
                                    }
                                },
                                Next::Accept => {
                                    found_accept = true;
                                },
                            }
                            proof {
                                assert(rule_eval(st@.transitions[k as int].0, c));
                                assert(consume_in_prefix(st@, c, k + 1));
                            }
                        }
                        proof {
                            assert forall|q: int| 0 <= q < n implies new_states@[q] == (
                            step_reached_prefix(self@, curr_states@, c, u as int, q)
                                || match_to_in_prefix(st@, c, k + 1, q)) by {
                                if new_states@[q] {
                                    if !pre[q] {
                                        assert(st@.transitions[k as int].1 == Next::Target(
                                            q as usize,
                                        ));
                                        assert(match_to_in_prefix(st@, c, k + 1, q));
                                    }
                                } else {
                                    assert(!match_to_in_prefix(st@, c, k as int, q));
                                    if match_to_in_prefix(st@, c, k + 1, q) {
                                        let kk = choose|kk: int|
                                            0 <= kk < k + 1 && kk < st@.transitions.len()
                                                && rule_eval((#[trigger] st@.transitions[kk]).0, c)
                                                && st@.transitions[kk].1 == Next::Target(
                                                q as usize,
                                            );
                                        assert(kk == k);
                                        assert(false);
                                    }
                                }
                            }
                            if !found_accept {
                                if match_accept_in_prefix(st@, c, k + 1) {
                                    let kk = choose|kk: int|
                                        0 <= kk < k + 1 && kk < st@.transitions.len() && rule_eval(
                                            (#[trigger] st@.transitions[kk]).0,
                                            c,
                                        ) && st@.transitions[kk].1 == Next::Accept;
                                    assert(kk == k);
                                    assert(false);
                                }
                            }
                            if !consumed_a_character {
                                if consume_in_prefix(st@, c, k + 1) {
                                    let kk = choose|kk: int|
                                        0 <= kk < k + 1 && kk < st@.transitions.len() && rule_eval(
                                            (#[trigger] st@.transitions[kk]).0,
                                            c,
                                        );
                                    assert(kk == k);
                                    assert(false);
                                }
                            }
                        }
                        k = k + 1;
                    }
                }
                proof {
                    assert forall|q: int| 0 <= q < n implies new_states@[q] == step_reached_prefix(
                        self@,
                        curr_states@,
                        c,
                        u + 1,
                        q,
                    ) by {
                        if new_states@[q] {
                            if !step_reached_prefix(self@, curr_states@, c, u as int, q) {
                                assert(state_matches_to(self@.states[u as int], c, q));
                            }
                        } else {
                            if step_reached_prefix(self@, curr_states@, c, u + 1, q) {
                                let u2 = choose|u2: int|
                                    0 <= u2 < u + 1 && u2 < curr_states@.len() && curr_states@[u2]
                                        && u2 < self@.states.len() && !state_rejects(
                                        #[trigger] self@.states[u2],
                                        c,
                                    ) && state_matches_to(self@.states[u2], c, q);
                                assert(u2 == u);
                                if !rejected {
                                    assert(!match_to_in_prefix(st@, c, kn as int, q));
                                }
                                assert(false);
                            }
                        }
                    }
                    if !found_accept {
                        if step_accept_prefix(self@, curr_states@, c, u + 1) {
                            let u2 = choose|u2: int|
                                0 <= u2 < u + 1 && u2 < curr_states@.len() && curr_states@[u2] && u2
                                    < self@.states.len() && !state_rejects(
                                    #[trigger] self@.states[u2],
                                    c,
                                ) && state_matches_accept(self@.states[u2], c);
                            assert(u2 == u);
                            assert(false);
                        }
                    }
                    if !consumed_a_character {
                        if step_consumed_prefix(self@, curr_states@, c, u + 1) {
                            let u2 = choose|u2: int|
                                0 <= u2 < u + 1 && u2 < curr_states@.len() && curr_states@[u2] && u2
                                    < self@.states.len() && !state_rejects(
                                    #[trigger] self@.states[u2],
                                    c,
                                ) && state_consumes(self@.states[u2], c);
                            assert(u2 == u);
                            assert(false);
                        }
                    }
                }
            } else {
                proof {
                    assert forall|q: int| 0 <= q < n implies new_states@[q] == step_reached_prefix(
                        self@,
                        curr_states@,
                        c,
                        u + 1,
                        q,
                    ) by {}
                }
            }
            u = u + 1;
        }
        proof {
            assert(new_states@ =~= char_step_mask(self@, curr_states@, c));
        }
        let mut new_position = position;
        if consumed_a_character {
            new_position = position + crate::text::char_utf8_len(c);
        }
        let (collapsed, accepted_via_null) = self.collapse_null_transitions(
            new_states,
            new_position,
            matcher,
        );
        proof {
            lemma_closure_len(self@, char_step_mask(self@, curr_states@, c), curr_states@.len());
        }
        (collapsed, accepted || found_accept || accepted_via_null, new_position)
    }
}

/// An exec candidate end as the specification writes it.
pub open spec fn o2i(e: Option<usize>) -> Option<int> {
    match e {
        Some(p) => Some(p as int),
        None => None,
    }
}

/// Whether any state is left in the mask.
#[verifier::loop_isolation(false)]
fn mask_any_exec(mask: &Vec<bool>) -> (r: bool)
    ensures
        r == mask_any(mask@),
{
    let n = mask.len();
    let mut t: usize = 0;
    let mut found = false;
    while t < n
        invariant
            t <= n,
            found == exists|q: int| 0 <= q < t && mask@[q],
        decreases n - t,
    {
        if mask[t] {
            found = true;
        }
        proof {
            if !found {
                if exists|q: int| 0 <= q < t + 1 && mask@[q] {
                    let q = choose|q: int| 0 <= q < t + 1 && mask@[q];
                    assert(q == t);
                    assert(false);
                }
            }
        }
        t = t + 1;
    }
    found
}

/// The fresh capture table: one empty slot per group, group 0 included.
fn fresh_table(groups: u16) -> (r: Vec<Option<MatchCandidate>>)
    ensures
        r@ =~= Seq::new(groups as nat + 1, |q: int| None::<MatchCandidate>),
{
    let n = groups as usize + 1;
    let mut t: Vec<Option<MatchCandidate>> = Vec::new();
    let mut i: usize = 0;
    while i < n
        invariant
            i <= n,
            t@.len() == i,
            forall|q: int| 0 <= q < i ==> (#[trigger] t@[q]) is None,
        decreases n - i,
    {
        t.push(None);
        i = i + 1;
    }
    t
}

/// The capture map presented to the caller: every completed candidate, its
/// offsets moved `off` bytes to the right (stopping at the largest offset),
/// keyed by group number. Only candidates whose end was set appear.
pub open spec fn spec_unwrap_upto(
    table: Seq<Option<MatchCandidate>>,
    j: int,
    off: int,
) -> Map<u16, Match>
    decreases j,
{
    if j <= 0 {
        Map::empty()
    } else {
        let prev = spec_unwrap_upto(table, j - 1, off);
        match table[j - 1] {
            Some(c) => match c.end {
                Some(e) => prev.insert(
                    (j - 1) as u16,
                    Match {
                        start: sat_add(c.start as int, off) as usize,
                        end: sat_add(e as int, off) as usize,
                    },
                ),
                None => prev,
            },
            None => prev,
        }
    }
}

pub open spec fn spec_unwrap_shift(table: Seq<Option<MatchCandidate>>, off: int) -> Map<u16, Match> {
    spec_unwrap_upto(table, table.len() as int, off)
}

impl GexMatcher {
    /// Extracts the completed capture spans, shifted by `off` bytes.
    #[verifier::loop_isolation(false)]
    fn unwrap_captures(&self, off: usize) -> (r: HashMap<u16, Match>)
        requires
            self.captures matches Some(t) && t@.len() <= 0x10000,
        ensures
            self.captures matches Some(t) && r@ == spec_unwrap_shift(t@, off as int),
    {
        broadcast use vstd::std_specs::hash::group_hash_axioms;

        let table = self.captures.as_ref().unwrap();
        let n = table.len();
        let mut actual_captures: HashMap<u16, Match> = HashMap::new();
        let mut j: usize = 0;
        while j < n
            invariant
                j <= n,
                n == table@.len() <= 0x10000,
                vstd::std_specs::hash::obeys_key_model::<u16>(),
                vstd::std_specs::hash::builds_valid_hashers::<std::collections::hash_map::RandomState>(),
                actual_captures@ == spec_unwrap_upto(table@, j as int, off as int),
            decreases n - j,
        {
            match table[j] {
                Some(candidate) => {
                    match candidate.end {
                        Some(e) => {
                            let shifted = Match {
                                start: sat_add_usize(candidate.start, off),
                                end: sat_add_usize(e, off),
                            };
                            actual_captures.insert(j as u16, shifted);
                        },
                        None => {},
                    }
                },
                None => {},
            }
            j = j + 1;
        }
        actual_captures
    }
}

impl GexMachine {
    /// Runs the machine once, anchored at scalar index `from` of `chars`:
    /// the candidate match relative to that anchor, and, when captures are on,
    /// the capture table filled in.
    #[verifier::loop_isolation(false)]
    fn run_machine(&self, chars: &Vec<char>, from: usize, matcher: &mut GexMatcher) -> (r: Option<
        Match,
    >)
        requires
            wf(self@),
            from <= chars@.len(),
            4 * chars@.len() <= usize::MAX,
        ensures
            ({
                let core = spec_run(self@, chars@.skip(from as int));
                &&& (r is Some <==> core is Some)
                &&& (r matches Some(mm) ==> core == Some(mm.end as int) && mm.start == 0 && mm.end
                    <= 4 * (chars@.len() - from))
                &&& match (old(matcher).captures, final(matcher).captures) {
                    (Some(t0), Some(t1)) => t1@ == spec_run_caps(
                        self@,
                        chars@.skip(from as int),
                        t0@,
                    ).1 && t1@.len() == t0@.len(),
                    (None, None) => true,
                    _ => false,
                }
            }),
    {
        let ghost cs = chars@.skip(from as int);
        let ghost target = spec_run(self@, cs);
        let n = self.states.len();
        let nchars = chars.len();
        let mut mask0: Vec<bool> = Vec::new();
        let mut t0: usize = 0;
        while t0 < n
            invariant
                t0 <= n,
                mask0@.len() == t0,
                forall|q: int| 0 <= q < t0 ==> mask0@[q] == (q == 0),
            decreases n - t0,
        {
            mask0.push(t0 == 0);
            t0 = t0 + 1;
        }
        proof {
            assert(mask0@ =~= start_mask(self@));
        }
        let (curr0, accepted_via_null) = self.collapse_null_transitions(mask0, 0, matcher);
        let mut curr = curr0;
        let mut position: usize = 0;
        let mut accepted = false;
        let mut candidate = MatchCandidate::new();
        if accepted_via_null {
            candidate.end = Some(0);
        }
        let ghost tinit = match old(matcher).captures {
            Some(t) => t@,
            None => Seq::empty(),
        };
        let ghost ctarget = spec_run_caps(self@, cs, tinit);
        let mut i: usize = from;
        let mut alive = true;
        while alive && i < nchars
            invariant
                from <= i <= nchars,
                nchars == chars@.len(),
                curr@.len() == n,
                n == self@.states.len(),
                wf(self@),
                4 * chars@.len() <= usize::MAX,
                position <= 4 * (i - from),
                candidate.start == 0,
                alive ==> target == spec_run_core_from(
                    self@,
                    cs,
                    i - from,
                    curr@,
                    position as int,
                    accepted,
                    o2i(candidate.end),
                ),
                !alive ==> target == o2i(candidate.end),
                candidate.end matches Some(p) ==> p <= position,
                match (old(matcher).captures, matcher.captures) {
                    (Some(t0), Some(tc)) => tc@.len() == t0@.len() && (alive ==> ctarget
                        == spec_run_caps_from(
                        self@,
                        cs,
                        i - from,
                        curr@,
                        position as int,
                        accepted,
                        o2i(candidate.end),
                        tc@,
                    )) && (!alive ==> ctarget == (o2i(candidate.end), tc@)),
                    (None, None) => true,
                    _ => false,
                },
            decreases nchars - i,
        {
            let input_char = chars[i];
            proof {
                assert(cs[i - from] == chars@[i as int]);
            }
            let (next_states, next_accepted, next_position) = self.do_transition(
                &curr,
                &input_char,
                matcher,
                position,
                accepted,
            );
            curr = next_states;
            accepted = next_accepted;
            if next_position > position {
                position = next_position;
                if accepted {
                    candidate.end = Some(position);
                }
            }
            i = i + 1;
            if !mask_any_exec(&curr) {
                alive = false;
            }
        }
        if candidate.end.is_some() {
            Some(Match::from_candidate(&candidate))
        } else {
            None
        }
    }

    /// Scans for the leftmost match from byte offset `at` on: each scalar
    /// boundary is tried in turn as an anchor until the machine matches.
    #[verifier::loop_isolation(false)]
    pub fn find_at(&self, input: &str, at: usize) -> (r: Option<Match>)
        requires
            wf(self@),
            at + 4 * input@.len() <= usize::MAX,
        ensures
            r == spec_find_at(self@, input@, at as int),
    {
        let mut matcher = GexMatcher { captures: None };
        let chars = str_to_chars(input);
        let n = chars.len();
        let mut k = char_index_of(&chars, at);
        let mut off = at;
        let ghost k0 = k as int;
        loop
            invariant
                k0 <= k <= n,
                n == chars@.len(),
                chars@ == input@,
                off <= at + 4 * k,
                wf(self@),
                at + 4 * input@.len() <= usize::MAX,
                matcher.captures is None,
                spec_find_at(self@, input@, at as int) == spec_find_from(
                    self@,
                    input@,
                    k as int,
                    off as int,
                ),
            decreases n - k,
        {
            let found = self.run_machine(&chars, k, &mut matcher);
            match found {
                Some(mm) => {
                    return Some(mm.shift(off));
                },
                None => {
                    if k + 1 < n {
                        off = off + char_utf8_len(chars[k]);
                        k = k + 1;
                    } else {
                        return None;
                    }
                },
            }
        }
    }

    /// Scans from the beginning of the input.
    pub fn find(&self, input: &str) -> (r: Option<Match>)
        requires
            wf(self@),
            4 * input@.len() <= usize::MAX,
        ensures
            r == spec_find_at(self@, input@, 0),
    {
        self.find_at(input, 0)
    }

    /// Like `find_at`, also reporting every capture group that closed, keyed
    /// by group number, with entry 0 covering the overall match.
    #[verifier::loop_isolation(false)]
    pub fn captures_at(&self, input: &str, at: usize) -> (r: Option<HashMap<u16, Match>>)
        requires
            wf(self@),
            at + 4 * input@.len() <= usize::MAX,
        ensures
            match r {
                Some(h) => spec_captures_at(self@, input@, at as int) matches Some(map) && h@
                    == map,
                None => spec_captures_at(self@, input@, at as int) is None,
            },
    {
        broadcast use vstd::std_specs::hash::group_hash_axioms;

        let chars = str_to_chars(input);
        let n = chars.len();
        let mut k = char_index_of(&chars, at);
        let mut off = at;
        let ghost k0 = k as int;
        loop
            invariant
                k0 <= k <= n,
                n == chars@.len(),
                chars@ == input@,
                off <= at + 4 * k,
                wf(self@),
                at + 4 * input@.len() <= usize::MAX,
                spec_captures_at(self@, input@, at as int) == spec_captures_from(
                    self@,
                    input@,
                    k as int,
                    off as int,
                ),
            decreases n - k,
        {
            let ghost t0 = Seq::new(self@.groups as nat + 1, |q: int| None::<MatchCandidate>);
            let mut matcher = GexMatcher { captures: Some(fresh_table(self.max_group_index)) };
            proof {
                assert(matcher.captures matches Some(t) && t@ == t0);
                lemma_caps_core_top(self@, chars@.skip(k as int), t0);
            }
            let found = self.run_machine(&chars, k, &mut matcher);
            match found {
                Some(mm) => {
                    let ghost rc = spec_run_caps(self@, input@.skip(k as int), t0);
                    let caps_table = matcher.unwrap_captures(off);
                    let mut caps = caps_table;
                    let root = mm.shift(off);
                    caps.insert(0, root);
                    proof {
                        assert(rc.0 == Some(mm.end as int));
                        assert(caps@ == spec_unwrap_shift(rc.1, off as int).insert(
                            0u16,
                            Match { start: off, end: (off + mm.end) as usize },
                        ));
                    }
                    return Some(caps);
                },
                None => {
                    if k + 1 < n {
                        off = off + char_utf8_len(chars[k]);
                        k = k + 1;
                    } else {
                        return None;
                    }
                },
            }
        }
    }

    /// Capture extraction from the beginning of the input.
    pub fn captures(&self, input: &str) -> (r: Option<HashMap<u16, Match>>)
        requires
            wf(self@),
            4 * input@.len() <= usize::MAX,
        ensures
            match r {
                Some(h) => spec_captures_at(self@, input@, 0) matches Some(map) && h@ == map,
                None => spec_captures_at(self@, input@, 0) is None,
            },
    {
        self.captures_at(input, 0)
    }
}

/// The first anchor at or after scalar index `k` (byte offset `off`) where
/// the machine matches; anchors slide one scalar at a time.
pub open spec fn spec_find_from(m: SpecMachine, cs: Seq<char>, k: int, off: int) -> Option<Match>
    decreases cs.len() - k,
{
    if k < 0 {
        None
    } else {
        match spec_run(m, cs.skip(k)) {
            Some(e) => Some(Match { start: off as usize, end: (off + e) as usize }),
            None => if k + 1 < cs.len() {
                spec_find_from(m, cs, k + 1, off + char_len(cs[k]))
            } else {
                None
            },
        }
    }
}

/// What `find_at` returns: the leftmost-anchored candidate match from byte
/// offset `at`.
pub open spec fn spec_find_at(m: SpecMachine, cs: Seq<char>, at: int) -> Option<Match> {
    spec_find_from(m, cs, char_index_at(cs, at), at)
}

/// Like `spec_find_from`, with the capture table of the successful anchor,
/// fresh for each anchor, unwrapped and shifted to absolute offsets.
pub open spec fn spec_captures_from(m: SpecMachine, cs: Seq<char>, k: int, off: int) -> Option<
    Map<u16, Match>,
>
    decreases cs.len() - k,
{
    if k < 0 {
        None
    } else {
        let t0 = Seq::new(m.groups as nat + 1, |q: int| None::<MatchCandidate>);
        let rc = spec_run_caps(m, cs.skip(k), t0);
        match rc.0 {
            Some(e) => Some(
                spec_unwrap_shift(rc.1, off).insert(
                    0u16,
                    Match { start: off as usize, end: (off + e) as usize },
                ),
            ),
            None => if k + 1 < cs.len() {
                spec_captures_from(m, cs, k + 1, off + char_len(cs[k]))
            } else {
                None
            },
        }
    }
}

pub open spec fn spec_captures_at(m: SpecMachine, cs: Seq<char>, at: int) -> Option<
    Map<u16, Match>,
> {
    spec_captures_from(m, cs, char_index_at(cs, at), at)
}

/// Total byte length of the scalars.
#[verifier::loop_isolation(false)]
fn blen_of(chars: &Vec<char>) -> (r: usize)
    requires
        4 * chars@.len() <= usize::MAX,
    ensures
        r == crate::text::blen(chars@),
{
    let n = chars.len();
    let mut sum: usize = 0;
    let mut i: usize = 0;
    while i < n
        invariant
            i <= n,
            sum == crate::text::byte_pos(chars@, i as int),
            sum <= 4 * i,
        decreases n - i,
    {
        proof {
            crate::text::lemma_byte_pos_step(chars@, i as int);
        }
        sum = sum + char_utf8_len(chars[i]);
        i = i + 1;
    }
    proof {
        assert(chars@.take(n as int) =~= chars@);
    }
    sum
}

/// Where the next scan starts after a match: its end, one byte further when
/// the match was empty.
pub open spec fn spec_resume(mm: Match) -> int {
    if mm.start == mm.end {
        mm.end + 1
    } else {
        mm.end as int
    }
}

/// A byte prefix is never longer than the whole sequence.
pub proof fn lemma_blen_take_le(cs: Seq<char>, k: int)
    requires
        0 <= k <= cs.len(),
    ensures
        crate::text::byte_pos(cs, k) <= crate::text::blen(cs),
        0 <= crate::text::byte_pos(cs, k),
    decreases cs.len() - k,
{
    crate::text::lemma_blen_bounds(cs.take(k));
    if k < cs.len() {
        crate::text::lemma_byte_pos_step(cs, k);
        lemma_blen_take_le(cs, k + 1);
    } else {
        assert(cs.take(k) =~= cs);
    }
}

/// The scalar picked for a byte offset never starts before that offset.
pub proof fn lemma_char_index_pos(cs: Seq<char>, p: int)
    requires
        0 <= p,
    ensures
        crate::text::byte_pos(cs, char_index_at(cs, p)) >= p || char_index_at(cs, p) == cs.len(),
    decreases cs.len(),
{
    if !(p <= 0 || cs.len() == 0) {
        let p2 = p - char_len(cs[0]);
        let k2 = char_index_at(cs.drop_first(), p2);
        assert(char_index_at(cs, p) == 1 + k2);
        crate::text::lemma_char_index_at_bounds(cs.drop_first(), p2);
        if p2 <= 0 {
            assert(k2 == 0);
            crate::text::lemma_byte_pos_step(cs, 0);
            assert(cs.take(0) =~= Seq::<char>::empty());
        } else {
            lemma_char_index_pos(cs.drop_first(), p2);
            if k2 == cs.drop_first().len() {
                assert(1 + k2 == cs.len());
            } else {
                lemma_byte_pos_shift(cs, k2);
            }
        }
    }
}

/// Byte offsets in a sequence are those of its tail, moved by the head.
proof fn lemma_byte_pos_shift(cs: Seq<char>, k: int)
    requires
        cs.len() > 0,
        0 <= k <= cs.len() - 1,
    ensures
        crate::text::byte_pos(cs, 1 + k) == char_len(cs[0]) + crate::text::byte_pos(
            cs.drop_first(),
            k,
        ),
    decreases k,
{
    if k == 0 {
        assert(cs.take(1).drop_last() =~= Seq::<char>::empty());
        assert(cs.take(1).last() == cs[0]);
        assert(cs.drop_first().take(0) =~= Seq::<char>::empty());
    } else {
        lemma_byte_pos_shift(cs, k - 1);
        crate::text::lemma_byte_pos_step(cs, k);
        crate::text::lemma_byte_pos_step(cs.drop_first(), k - 1);
        assert(cs.drop_first()[k - 1] == cs[k]);
    }
}

/// A run's candidate end never passes the bytes of the scalars it consumed.
pub proof fn lemma_run_end_bound(m: SpecMachine, cs: Seq<char>)
    ensures
        spec_run(m, cs) matches Some(e) ==> 0 <= e <= crate::text::blen(cs),
{
    let cl = null_closure(m, start_mask(m));
    let e0: Option<int> = if mask_accepts_null(m, cl) {
        Some(0int)
    } else {
        None
    };
    crate::text::lemma_blen_bounds(cs);
    lemma_run_core_bound(m, cs, 0, active_of(m, cl), 0, false, e0);
}

proof fn lemma_run_core_bound(
    m: SpecMachine,
    cs: Seq<char>,
    i: int,
    mask: Seq<bool>,
    pos: int,
    accepted: bool,
    end: Option<int>,
)
    requires
        0 <= i <= cs.len(),
        0 <= pos <= crate::text::byte_pos(cs, i),
        end matches Some(p) ==> 0 <= p <= pos,
    ensures
        spec_run_core_from(m, cs, i, mask, pos, accepted, end) matches Some(e) ==> 0 <= e
            <= crate::text::blen(cs),
    decreases cs.len() - i,
{
    lemma_blen_take_le(cs, i);
    if i < cs.len() {
        let c = cs[i];
        let nm0 = char_step_mask(m, mask, c);
        let cl = null_closure(m, nm0);
        let act = active_of(m, cl);
        let acc = accepted || char_step_accept(m, mask, c) || mask_accepts_null(m, cl);
        let cons = char_step_consumed(m, mask, c);
        let npos = if cons {
            pos + char_len(c)
        } else {
            pos
        };
        let nend = if npos > pos && acc {
            Some(npos)
        } else {
            end
        };
        crate::text::lemma_byte_pos_step(cs, i);
        lemma_blen_take_le(cs, i + 1);
        lemma_run_core_bound(m, cs, i + 1, act, npos, acc, nend);
    } else {
        assert(cs.take(i) =~= cs);
    }
}

/// A found match lies at or after the anchor and inside the input.
pub proof fn lemma_find_from_bounds(m: SpecMachine, cs: Seq<char>, k: int, off: int)
    requires
        0 <= k <= cs.len(),
        0 <= off,
        off + crate::text::blen(cs) - crate::text::byte_pos(cs, k) <= usize::MAX,
    ensures
        spec_find_from(m, cs, k, off) matches Some(mm) ==> off <= mm.start && mm.start <= mm.end
            && mm.end <= off + crate::text::blen(cs) - crate::text::byte_pos(cs, k),
    decreases cs.len() - k,
{
    lemma_blen_take_le(cs, k);
    lemma_run_end_bound(m, cs.skip(k));
    lemma_blen_skip(cs, k);
    if spec_run(m, cs.skip(k)) is None && k + 1 < cs.len() {
        crate::text::lemma_byte_pos_step(cs, k);
        crate::text::lemma_blen_bounds(cs.take(k + 1));
        lemma_blen_take_le(cs, k + 1);
        lemma_find_from_bounds(m, cs, k + 1, off + char_len(cs[k]));
    }
}

/// The bytes of a sequence split at a scalar boundary.
pub proof fn lemma_blen_skip(cs: Seq<char>, k: int)
    requires
        0 <= k <= cs.len(),
    ensures
        crate::text::blen(cs.skip(k)) == crate::text::blen(cs) - crate::text::byte_pos(cs, k),
    decreases cs.len() - k,
{
    if k == cs.len() {
        assert(cs.skip(k) =~= Seq::<char>::empty());
        assert(cs.take(k) =~= cs);
    } else {
        lemma_blen_skip(cs, k + 1);
        crate::text::lemma_byte_pos_step(cs, k);
        assert(cs.skip(k).drop_first() =~= cs.skip(k + 1));
        lemma_blen_head(cs.skip(k));
    }
}

/// The bytes of a nonempty sequence: its head's bytes plus the rest.
proof fn lemma_blen_head(cs: Seq<char>)
    requires
        cs.len() > 0,
    ensures
        crate::text::blen(cs) == char_len(cs[0]) + crate::text::blen(cs.drop_first()),
    decreases cs.len(),
{
    if cs.len() == 1 {
        assert(cs.drop_last() =~= Seq::<char>::empty());
        assert(cs.drop_first() =~= Seq::<char>::empty());
    } else {
        lemma_blen_head(cs.drop_last());
        assert(cs.drop_last()[0] == cs[0]);
        assert(cs.drop_first().drop_last() =~= cs.drop_last().drop_first());
        assert(cs.drop_first().last() == cs.last());
    }
}

/// The match `find_at` reports is the leftmost: some anchor scalar starts at
/// the reported match start, the machine's run there yields the reported
/// width, and the run fails at every earlier anchor. Anchors are the scalar
/// indices from the one holding the search offset on.
pub proof fn lemma_find_leftmost(m: SpecMachine, cs: Seq<char>, at: int)
    requires
        0 <= at,
        at + crate::text::blen(cs) <= usize::MAX,
    ensures
        spec_find_at(m, cs, at) matches Some(mm) ==> exists|j: int|
            char_index_at(cs, at) <= j <= cs.len() && crate::text::byte_pos(cs, j) == mm.start
                - at + crate::text::byte_pos(cs, char_index_at(cs, at)) && #[trigger] spec_run(
                m,
                cs.skip(j),
            ) == Some(mm.end - mm.start) && (forall|j2: int|
                char_index_at(cs, at) <= j2 < j ==> spec_run(m, cs.skip(j2)) is None),
        spec_find_at(m, cs, at) is None ==> forall|j: int|
            char_index_at(cs, at) <= j < cs.len() ==> #[trigger] spec_run(m, cs.skip(j)) is None,
{
    crate::text::lemma_char_index_at_bounds(cs, at);
    lemma_blen_take_le(cs, char_index_at(cs, at));
    lemma_find_leftmost_from(m, cs, char_index_at(cs, at), at);
}

proof fn lemma_find_leftmost_from(m: SpecMachine, cs: Seq<char>, k: int, off: int)
    requires
        0 <= k <= cs.len(),
        0 <= off,
        off + crate::text::blen(cs) - crate::text::byte_pos(cs, k) <= usize::MAX,
    ensures
        spec_find_from(m, cs, k, off) matches Some(mm) ==> exists|j: int|
            k <= j <= cs.len() && crate::text::byte_pos(cs, j) == mm.start - off
                + crate::text::byte_pos(cs, k) && #[trigger] spec_run(m, cs.skip(j)) == Some(
                mm.end - mm.start,
            ) && (forall|j2: int| k <= j2 < j ==> spec_run(m, cs.skip(j2)) is None),
        spec_find_from(m, cs, k, off) is None ==> forall|j: int|
            k <= j < cs.len() ==> #[trigger] spec_run(m, cs.skip(j)) is None,
    decreases cs.len() - k,
{
    lemma_run_end_bound(m, cs.skip(k));
    lemma_blen_skip(cs, k);
    lemma_blen_take_le(cs, k);
    match spec_run(m, cs.skip(k)) {
        Some(e) => {
            let mm = spec_find_from(m, cs, k, off)->Some_0;
            assert(mm.start == off && mm.end == off + e);
            assert(spec_run(m, cs.skip(k)) == Some(mm.end - mm.start));
            assert(exists|j: int|
                k <= j <= cs.len() && crate::text::byte_pos(cs, j) == mm.start - off
                    + crate::text::byte_pos(cs, k) && #[trigger] spec_run(m, cs.skip(j)) == Some(
                    mm.end - mm.start,
                ) && (forall|j2: int| k <= j2 < j ==> spec_run(m, cs.skip(j2)) is None)) by {
                assert(k <= k <= cs.len() && crate::text::byte_pos(cs, k) == mm.start - off
                    + crate::text::byte_pos(cs, k) && spec_run(m, cs.skip(k)) == Some(
                    mm.end - mm.start,
                ) && (forall|j2: int| k <= j2 < k ==> spec_run(m, cs.skip(j2)) is None));
            }
        },
        None => {
            if k + 1 < cs.len() {
                crate::text::lemma_byte_pos_step(cs, k);
                crate::text::lemma_blen_bounds(cs.take(k + 1));
                lemma_blen_take_le(cs, k + 1);
                lemma_find_leftmost_from(m, cs, k + 1, off + char_len(cs[k]));
                if spec_find_from(m, cs, k, off) is Some {
                    let mm = spec_find_from(m, cs, k, off)->Some_0;
                    let j = choose|j: int|
                        k + 1 <= j <= cs.len() && crate::text::byte_pos(cs, j) == mm.start - (off
                            + char_len(cs[k])) + crate::text::byte_pos(cs, k + 1)
                            && #[trigger] spec_run(m, cs.skip(j)) == Some(mm.end - mm.start) && (
                        forall|j2: int| k + 1 <= j2 < j ==> spec_run(m, cs.skip(j2)) is None);
                    assert(k <= j <= cs.len() && crate::text::byte_pos(cs, j) == mm.start - off
                        + crate::text::byte_pos(cs, k) && spec_run(m, cs.skip(j)) == Some(
                        mm.end - mm.start,
                    ) && (forall|j2: int| k <= j2 < j ==> spec_run(m, cs.skip(j2)) is None));
                }
            }
        },
    }
}

/// Capture extraction and plain search agree: the capture map exists exactly
/// when a match exists, and its entry for group 0 is that match.
pub proof fn lemma_captures_find(m: SpecMachine, cs: Seq<char>, at: int)
    ensures
        spec_captures_at(m, cs, at) is Some <==> spec_find_at(m, cs, at) is Some,
        spec_captures_at(m, cs, at) matches Some(map) ==> spec_find_at(m, cs, at) matches Some(mm)
            && map.contains_key(0u16) && map[0u16] == mm,
{
    lemma_captures_find_from(m, cs, char_index_at(cs, at), at);
}

proof fn lemma_captures_find_from(m: SpecMachine, cs: Seq<char>, k: int, off: int)
    ensures
        spec_captures_from(m, cs, k, off) is Some <==> spec_find_from(m, cs, k, off) is Some,
        spec_captures_from(m, cs, k, off) matches Some(map) ==> spec_find_from(m, cs, k, off)
            matches Some(mm) && map.contains_key(0u16) && map[0u16] == mm,
    decreases cs.len() - k,
{
    if k >= 0 {
        let t0 = Seq::new(m.groups as nat + 1, |q: int| None::<MatchCandidate>);
        lemma_caps_core_top(m, cs.skip(k), t0);
        if spec_run(m, cs.skip(k)) is None && k + 1 < cs.len() {
            lemma_captures_find_from(m, cs, k + 1, off + char_len(cs[k]));
        }
    }
}

impl GexMachine {
    /// All non-overlapping matches from byte offset `at` on, in order: each
    /// scan resumes at the end of the previous match, one byte further when
    /// that match was empty, and stops once the input is exhausted. Matches
    /// never overlap and their starts never decrease.
    #[verifier::loop_isolation(false)]
    pub fn find_iter_at(&self, input: &str, at: usize) -> (rs: Vec<Match>)
        requires
            wf(self@),
            at + 8 * input@.len() + 1 <= usize::MAX,
        ensures
            forall|i: int|
                0 <= i < rs@.len() ==> at <= (#[trigger] rs@[i]).start && rs@[i].start
                    <= rs@[i].end && rs@[i].end <= crate::text::blen(input@),
            forall|i: int| 0 <= i < rs@.len() - 1 ==> (#[trigger] rs@[i]).end <= rs@[i + 1].start,
            forall|i: int|
                0 <= i < rs@.len() - 1 ==> (#[trigger] rs@[i]).start < rs@[i + 1].start,
            rs@.len() > 0 ==> spec_find_at(self@, input@, at as int) == Some(rs@[0]),
            rs@.len() == 0 ==> (at > crate::text::blen(input@) || spec_find_at(
                self@,
                input@,
                at as int,
            ) is None),
            forall|i: int|
                0 <= i < rs@.len() - 1 ==> spec_find_at(
                    self@,
                    input@,
                    spec_resume(#[trigger] rs@[i]),
                ) == Some(rs@[i + 1]),
            rs@.len() > 0 ==> (spec_resume(rs@[rs@.len() - 1]) > crate::text::blen(input@)
                || spec_find_at(self@, input@, spec_resume(rs@[rs@.len() - 1])) is None),
    {
        let chars = str_to_chars(input);
        proof {
            crate::text::lemma_blen_bounds(chars@);
        }
        let total = blen_of(&chars);
        let mut results: Vec<Match> = Vec::new();
        let mut cur: usize = at;
        let mut done = false;
        while !done
            invariant
                wf(self@),
                chars@ == input@,
                at + 8 * input@.len() + 1 <= usize::MAX,
                total == crate::text::blen(input@),
                total <= 4 * input@.len(),
                at <= cur,
                cur <= total + 1 || cur == at,
                results@.len() == 0 ==> cur == at,
                results@.len() > 0 ==> cur == spec_resume(results@[results@.len() - 1])
                    && results@[results@.len() - 1].end <= total,
                forall|i: int|
                    0 <= i < results@.len() ==> at <= (#[trigger] results@[i]).start
                        && results@[i].start <= results@[i].end && results@[i].end
                        <= crate::text::blen(input@),
                forall|i: int|
                    0 <= i < results@.len() - 1 ==> (#[trigger] results@[i]).end <= results@[i
                        + 1].start,
                forall|i: int|
                    0 <= i < results@.len() - 1 ==> (#[trigger] results@[i]).start < results@[i
                        + 1].start,
                results@.len() > 0 ==> spec_find_at(self@, input@, at as int) == Some(results@[0]),
                results@.len() == 0 ==> cur == at,
                forall|i: int|
                    0 <= i < results@.len() - 1 ==> spec_find_at(
                        self@,
                        input@,
                        spec_resume(#[trigger] results@[i]),
                    ) == Some(results@[i + 1]),
                done ==> (results@.len() == 0 ==> (at > crate::text::blen(input@) || spec_find_at(
                    self@,
                    input@,
                    at as int,
                ) is None)),
                done ==> (results@.len() > 0 ==> (spec_resume(results@[results@.len() - 1])
                    > crate::text::blen(input@) || spec_find_at(
                    self@,
                    input@,
                    spec_resume(results@[results@.len() - 1]),
                ) is None)),
            decreases (if cur <= total + 1 { total + 1 - cur } else { 0int }) + (if done { 0int } else { 1 }),
        {
            if cur > total {
                done = true;
            } else {
                let found = self.find_at(input, cur);
                match found {
                    Some(mm) => {
                        proof {
                            crate::text::lemma_char_index_at_bounds(input@, cur as int);
                            lemma_char_index_pos(input@, cur as int);
                            lemma_blen_take_le(input@, char_index_at(input@, cur as int));
                            lemma_find_from_bounds(
                                self@,
                                input@,
                                char_index_at(input@, cur as int),
                                cur as int,
                            );
                        }
                        results.push(mm);
                        if mm.start == mm.end {
                            cur = mm.end + 1;
                        } else {
                            cur = mm.end;
                        }
                    },
                    None => {
                        done = true;
                    },
                }
            }
        }
        results
    }
}

/// The machine is a matcher: its fitness is the machine shape invariant, its
/// scans are the sliding simulation.
impl crate::matcher::Matcher for GexMachine {
    open spec fn wf_matcher(&self) -> bool {
        wf(self@)
    }

    open spec fn find_at_spec(&self, input: Seq<char>, at: int) -> Option<Match> {
        spec_find_at(self@, input, at)
    }

    open spec fn captures_at_spec(&self, input: Seq<char>, at: int) -> Option<Map<u16, Match>> {
        spec_captures_at(self@, input, at)
    }

    fn find_at(&self, input: &str, at: usize) -> (r: Option<Match>) {
        GexMachine::find_at(self, input, at)
    }

    fn find(&self, input: &str) -> (r: Option<Match>) {
        GexMachine::find(self, input)
    }

    fn captures_at(&self, input: &str, at: usize) -> (r: Option<HashMap<u16, Match>>) {
        GexMachine::captures_at(self, input, at)
    }

    fn captures(&self, input: &str) -> (r: Option<HashMap<u16, Match>>) {
        GexMachine::captures(self, input)
    }
}

} // verus!

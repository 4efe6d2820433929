//! Leaf machines: each literal of the pattern lowers to a two- or three-state
//! machine of the shape start -> atom -> accept.

use vstd::prelude::*;

verus! {

use crate::gex::machine::{
    GexMachine, Next, Rule, SpecMachine, SpecState, State, Transition, spec_accept_state, wf,
};
use crate::railroad::SyntaxError;
use crate::text::{char_index_at, char_index_of, char_len, sat_add, sat_add_usize, str_to_chars};
use crate::tokenize::Token;

/// A machine accepting exactly the empty string.
pub open spec fn spec_empty_machine() -> SpecMachine {
    SpecMachine {
        states: seq![
            SpecState { transitions: seq![(Rule::Null, Next::Target(1usize))], flags: 0u64 },
            spec_accept_state(),
        ],
        flags: seq![Seq::<u64>::empty(), Seq::<u64>::empty()],
        groups: 0u16,
    }
}

/// A three-state machine whose middle state carries the given transitions.
pub open spec fn spec_leaf_machine(mid: SpecState) -> SpecMachine {
    SpecMachine {
        states: seq![
            SpecState { transitions: seq![(Rule::Null, Next::Target(1usize))], flags: 0u64 },
            mid,
            spec_accept_state(),
        ],
        flags: seq![Seq::<u64>::empty(), Seq::<u64>::empty(), Seq::<u64>::empty()],
        groups: 0u16,
    }
}

/// The machine for one literal scalar.
pub open spec fn spec_char_machine(c: char) -> SpecMachine {
    spec_leaf_machine(
        SpecState {
            transitions: seq![
                (Rule::Range(c as u32, c as u32, true), Next::Target(2usize)),
            ],
            flags: 0u64,
        },
    )
}

/// What `machine_for` builds: the machine for the scalar at the token's byte
/// offset, or the empty machine for a zero-width token.
pub open spec fn spec_machine_for(cs: Seq<char>, tok: Token) -> SpecMachine {
    let k = char_index_at(cs, tok.position.0 as int);
    if tok.position.0 == tok.position.1 || k >= cs.len() {
        spec_empty_machine()
    } else {
        spec_char_machine(cs[k])
    }
}

/// Builds the start state `(Null, Target(1))` shared by every leaf machine.
fn leaf_start_state() -> (r: State)
    ensures
        r@ == (SpecState { transitions: seq![(Rule::Null, Next::Target(1usize))], flags: 0u64 }),
{
    let mut t0: Vec<Transition> = Vec::new();
    t0.push((Rule::Null, Next::Target(1)));
    proof {
        assert(t0@ =~= seq![(Rule::Null, Next::Target(1usize))]);
    }
    State::from_transitions(t0)
}

/// Assembles start, middle and accept into a machine.
fn build_leaf(mid: State) -> (r: GexMachine)
    requires
        crate::gex::machine::state_targets_ok(mid@, 3),
    ensures
        r@ =~~= spec_leaf_machine(mid@),
        wf(r@),
{
    let mut states: Vec<State> = Vec::new();
    states.push(leaf_start_state());
    states.push(mid);
    states.push(State::accept_state());
    let r = GexMachine::from_states(states);
    proof {
        assert(r@ =~~= spec_leaf_machine(states@[1]@));
        assert(wf(r@));
    }
    r
}

/// The machine for the scalar the token covers in `input`; a zero-width token
/// (the empty-string literal) yields the machine accepting the empty string.
pub fn machine_for(token: Token, input: &str) -> (r: GexMachine)
    ensures
        r@ =~~= spec_machine_for(input@, token),
        wf(r@),
{
    let chars = str_to_chars(input);
    let k = char_index_of(&chars, token.start());
    if token.start() == token.end() || k >= chars.len() {
        let mut states: Vec<State> = Vec::new();
        states.push(leaf_start_state());
        states.push(State::accept_state());
        let r = GexMachine::from_states(states);
        proof {
            assert(r@ =~~= spec_empty_machine());
        }
        r
    } else {
        machine_for_character(chars[k])
    }
}

/// The machine that accepts exactly the one scalar `character`.
pub fn machine_for_character(character: char) -> (r: GexMachine)
    ensures
        r@ =~~= spec_char_machine(character),
        wf(r@),
{
    let mut tm: Vec<Transition> = Vec::new();
    tm.push((Rule::Range(character as u32, character as u32, true), Next::Target(2)));
    proof {
        assert(tm@ =~= seq![
            (Rule::Range(character as u32, character as u32, true), Next::Target(2usize)),
        ]);
    }
    build_leaf(State::from_transitions(tm))
}

/// The machine the wildcard `.` lowers to: any Unicode scalar.
pub open spec fn spec_wildcard_machine() -> SpecMachine {
    spec_leaf_machine(
        SpecState {
            transitions: seq![(Rule::Range(0u32, 0x10ffffu32, true), Next::Target(2usize))],
            flags: 0u64,
        },
    )
}

pub fn wildcard_machine() -> (r: GexMachine)
    ensures
        r@ =~~= spec_wildcard_machine(),
        wf(r@),
{
    let mut tm: Vec<Transition> = Vec::new();
    tm.push((Rule::Range(0, 0x10ffff, true), Next::Target(2)));
    proof {
        assert(tm@ =~= seq![(Rule::Range(0u32, 0x10ffffu32, true), Next::Target(2usize))]);
    }
    build_leaf(State::from_transitions(tm))
}

/// The middle state of a class-escape machine: positive classes collect their
/// rules plainly, negative ones short-circuit.
pub open spec fn spec_class_state(transitions: Seq<Transition>, positive: bool) -> SpecState {
    SpecState {
        transitions,
        flags: if positive {
            0u64
        } else {
            0x1u64
        },
    }
}

fn char_class_escape_machine(positive: bool, transitions: Vec<Transition>) -> (r: GexMachine)
    requires
        crate::gex::machine::state_targets_ok(
            SpecState { transitions: transitions@, flags: 0u64 },
            3,
        ),
    ensures
        r@ =~~= spec_leaf_machine(spec_class_state(transitions@, positive)),
        wf(r@),
{
    let class_state = if positive {
        State::from_transitions(transitions)
    } else {
        State::short_circuit_from_transitions(transitions)
    };
    build_leaf(class_state)
}

/// What `\w` and `\W` lower to.
pub open spec fn spec_word_machine(positive: bool) -> SpecMachine {
    let transitions: Seq<Transition> = if positive {
        seq![
            (Rule::IsWord(true), Next::Target(2usize)),
            (Rule::Range('_' as u32, '_' as u32, true), Next::Target(2usize)),
        ]
    } else {
        seq![(Rule::IsWord(false), Next::Target(2usize)), (Rule::Not('_' as u32), Next::Target(2usize))]
    };
    spec_leaf_machine(spec_class_state(transitions, positive))
}

/// Word characters: alphanumerics, plus the underscore handled by an extra
/// rule beside the class rule.
pub fn word_char_machine(positive: bool) -> (r: GexMachine)
    ensures
        r@ =~~= spec_word_machine(positive),
        wf(r@),
{
    let mut transitions: Vec<Transition> = Vec::new();
    transitions.push((Rule::IsWord(positive), Next::Target(2)));
    if positive {
        transitions.push((Rule::Range('_' as u32, '_' as u32, true), Next::Target(2)));
        proof {
            assert(transitions@ =~= seq![
                (Rule::IsWord(true), Next::Target(2usize)),
                (Rule::Range('_' as u32, '_' as u32, true), Next::Target(2usize)),
            ]);
        }
    } else {
        transitions.push((Rule::Not('_' as u32), Next::Target(2)));
        proof {
            assert(transitions@ =~= seq![
                (Rule::IsWord(false), Next::Target(2usize)),
                (Rule::Not('_' as u32), Next::Target(2usize)),
            ]);
        }
    }
    char_class_escape_machine(positive, transitions)
}

/// What `\d` and `\D` lower to.
pub open spec fn spec_digit_machine(positive: bool) -> SpecMachine {
    spec_leaf_machine(
        spec_class_state(seq![(Rule::IsDigit(positive), Next::Target(2usize))], positive),
    )
}

pub fn digit_char_machine(positive: bool) -> (r: GexMachine)
    ensures
        r@ =~~= spec_digit_machine(positive),
        wf(r@),
{
    let mut transitions: Vec<Transition> = Vec::new();
    transitions.push((Rule::IsDigit(positive), Next::Target(2)));
    proof {
        assert(transitions@ =~= seq![(Rule::IsDigit(positive), Next::Target(2usize))]);
    }
    char_class_escape_machine(positive, transitions)
}

/// What `\s` and `\S` lower to.
pub open spec fn spec_whitespace_machine(positive: bool) -> SpecMachine {
    spec_leaf_machine(
        spec_class_state(seq![(Rule::IsWhitespace(positive), Next::Target(2usize))], positive),
    )
}

pub fn whitespace_char_machine(positive: bool) -> (r: GexMachine)
    ensures
        r@ =~~= spec_whitespace_machine(positive),
        wf(r@),
{
    let mut transitions: Vec<Transition> = Vec::new();
    transitions.push((Rule::IsWhitespace(positive), Next::Target(2)));
    proof {
        assert(transitions@ =~= seq![(Rule::IsWhitespace(positive), Next::Target(2usize))]);
    }
    char_class_escape_machine(positive, transitions)
}

/// One pass over the scalars between the brackets: escaped scalars collect
/// literally, `a-z` between collected endpoints forms a closed range, a
/// leading or trailing `-` is literal. `i` indexes `content`, `bpos` is the
/// byte offset of `content[i]` within the class text, for error reporting.
pub open spec fn spec_scan_items(
    content: Seq<char>,
    i: int,
    bpos: int,
    stack: Seq<char>,
    ranges: Seq<Rule>,
    positive: bool,
) -> Result<(Seq<char>, Seq<Rule>), SyntaxError>
    decreases content.len() - i,
{
    if i < 0 || i >= content.len() {
        Ok((stack, ranges))
    } else {
        let c = content[i];
        if c == '\\' {
            if i + 1 < content.len() {
                spec_scan_items(
                    content,
                    i + 2,
                    sat_add(bpos, 1 + char_len(content[i + 1])),
                    stack.push(content[i + 1]),
                    ranges,
                    positive,
                )
            } else {
                spec_scan_items(content, i + 1, sat_add(bpos, 1), stack, ranges, positive)
            }
        } else if c == '-' {
            if i + 1 < content.len() {
                let next = content[i + 1];
                if stack.len() > 0 {
                    let prev = stack.last();
                    if (next as u32) < (prev as u32) {
                        Err(SyntaxError::InvalidCharacterRange(bpos as usize))
                    } else {
                        spec_scan_items(
                            content,
                            i + 2,
                            sat_add(bpos, 1 + char_len(next)),
                            stack,
                            ranges.push(Rule::Range(prev as u32, next as u32, positive)),
                            positive,
                        )
                    }
                } else {
                    spec_scan_items(
                        content,
                        i + 2,
                        sat_add(bpos, 1 + char_len(next)),
                        stack.push('-').push(next),
                        ranges,
                        positive,
                    )
                }
            } else {
                if stack.len() > 0 {
                    spec_scan_items(content, i + 1, sat_add(bpos, 1), stack.push('-'), ranges, positive)
                } else {
                    spec_scan_items(content, i + 1, sat_add(bpos, 1), stack, ranges, positive)
                }
            }
        } else {
            spec_scan_items(
                content,
                i + 1,
                sat_add(bpos, char_len(c)),
                stack.push(c),
                ranges,
                positive,
            )
        }
    }
}

/// The transitions of a manual class: the collected ranges first, then each
/// collected scalar as a one-scalar range, all leading to the accept side.
pub open spec fn spec_class_transitions(stack: Seq<char>, ranges: Seq<Rule>, positive: bool) -> Seq<
    Transition,
> {
    ranges.map(|_k: int, rule: Rule| (rule, Next::Target(2usize))) + stack.map(
        |_k: int, ch: char| (Rule::Range(ch as u32, ch as u32, positive), Next::Target(2usize)),
    )
}

/// What `manual_character_class_machine` builds from the class text
/// (brackets included): the machine, or the decreasing range it found.
pub open spec fn spec_manual_class(positive: bool, cs: Seq<char>) -> Result<
    SpecMachine,
    SyntaxError,
> {
    let start: int = if positive {
        1
    } else {
        2
    };
    if cs.len() < start + 1 {
        Err(SyntaxError::InvalidCharacterRange(0))
    } else {
        let content = cs.subrange(start, cs.len() - 1);
        match spec_scan_items(content, 0, start, Seq::empty(), Seq::empty(), positive) {
            Ok((stack, ranges)) => Ok(
                spec_leaf_machine(
                    spec_class_state(spec_class_transitions(stack, ranges, positive), positive),
                ),
            ),
            Err(e) => Err(e),
        }
    }
}

/// Parses the text of a manual character class, brackets included, and builds
/// its machine. A decreasing range such as `[z-a]` is reported with the byte
/// offset of its `-` within the class text.
#[verifier::loop_isolation(false)]
pub fn manual_character_class_machine(positive: bool, input_class: &str) -> (r: Result<
    GexMachine,
    SyntaxError,
>)
    ensures
        match r {
            Ok(m) => spec_manual_class(positive, input_class@) matches Ok(sm) && m@ =~~= sm && wf(
                m@,
            ),
            Err(e) => spec_manual_class(positive, input_class@) == Err::<SpecMachine, _>(e),
        },
{
    let cs = str_to_chars(input_class);
    let n = cs.len();
    proof {
        assert(cs@.subrange(0, n as int) =~= input_class@);
    }
    manual_class_from_chars(positive, &cs, 0, n)
}

/// The class builder over the scalars `cs[base .. limit]`, brackets included.
#[verifier::loop_isolation(false)]
pub fn manual_class_from_chars(positive: bool, cs: &Vec<char>, base: usize, limit: usize) -> (r:
    Result<GexMachine, SyntaxError>)
    requires
        base <= limit <= cs@.len(),
    ensures
        ({
            let class = cs@.subrange(base as int, limit as int);
            match r {
                Ok(m) => spec_manual_class(positive, class) matches Ok(sm) && m@ =~~= sm && wf(m@),
                Err(e) => spec_manual_class(positive, class) == Err::<SpecMachine, _>(e),
            }
        }),
{
    let ghost class = cs@.subrange(base as int, limit as int);
    let start: usize = if positive {
        1
    } else {
        2
    };
    if limit - base < start + 1 {
        return Err(SyntaxError::InvalidCharacterRange(0));
    }
    let clen = limit - base - 1 - start;
    let ghost content = class.subrange(start as int, class.len() - 1);
    let mut result_stack: Vec<char> = Vec::new();
    let mut ranges: Vec<Rule> = Vec::new();
    let mut i: usize = 0;
    let mut bpos: usize = start;
    while i < clen
        invariant
            i <= clen,
            clen == content.len(),
            content =~= class.subrange(start as int, class.len() - 1),
            spec_scan_items(content, 0, start as int, Seq::empty(), Seq::empty(), positive)
                == spec_scan_items(
                content,
                i as int,
                bpos as int,
                result_stack@,
                ranges@,
                positive,
            ),
        decreases clen - i,
    {
        let c = cs[base + start + i];
        proof {
            assert(content[i as int] == cs@[base + start + i]);
        }
        if c == '\\' {
            if i + 1 < clen {
                let nc = cs[base + start + i + 1];
                proof {
                    assert(content[i + 1] == cs@[base + start + i + 1]);
                }
                result_stack.push(nc);
                bpos = sat_add_usize(bpos, 1 + crate::text::char_utf8_len(nc));
                i = i + 2;
            } else {
                bpos = sat_add_usize(bpos, 1);
                i = i + 1;
            }
        } else if c == '-' {
            if i + 1 < clen {
                let next = cs[base + start + i + 1];
                proof {
                    assert(content[i + 1] == cs@[base + start + i + 1]);
                }
                if result_stack.len() > 0 {
                    let prev = result_stack[result_stack.len() - 1];
                    if (next as u32) < (prev as u32) {
                        return Err(SyntaxError::InvalidCharacterRange(bpos));
                    }
                    ranges.push(Rule::Range(prev as u32, next as u32, positive));
                    bpos = sat_add_usize(bpos, 1 + crate::text::char_utf8_len(next));
                    i = i + 2;
                } else {
                    result_stack.push('-');
                    result_stack.push(next);
                    bpos = sat_add_usize(bpos, 1 + crate::text::char_utf8_len(next));
                    i = i + 2;
                }
            } else {
                if result_stack.len() > 0 {
                    result_stack.push('-');
                }
                bpos = sat_add_usize(bpos, 1);
                i = i + 1;
            }
        } else {
            result_stack.push(c);
            bpos = sat_add_usize(bpos, crate::text::char_utf8_len(c));
            i = i + 1;
        }
    }
    let mut transitions: Vec<Transition> = Vec::new();
    let rn = ranges.len();
    let mut k: usize = 0;
    while k < rn
        invariant
            k <= rn,
            rn == ranges@.len(),
            transitions@ =~= ranges@.take(k as int).map(
                |_q: int, rule: Rule| (rule, Next::Target(2usize)),
            ),
        decreases rn - k,
    {
        transitions.push((ranges[k], Next::Target(2)));
        proof {
            let f = |_q: int, rule: Rule| (rule, Next::Target(2usize));
            assert(ranges@.take(k + 1).map(f) =~= ranges@.take(k as int).map(f).push(
                f(k as int, ranges@[k as int]),
            ));
        }
        k = k + 1;
    }
    let sn = result_stack.len();
    let mut k2: usize = 0;
    while k2 < sn
        invariant
            k2 <= sn,
            sn == result_stack@.len(),
            transitions@ =~= ranges@.map(|_q: int, rule: Rule| (rule, Next::Target(2usize)))
                + result_stack@.take(k2 as int).map(
                |_q: int, ch: char| (Rule::Range(ch as u32, ch as u32, positive), Next::Target(
                    2usize,
                )),
            ),
        decreases sn - k2,
    {
        let ch = result_stack[k2];
        transitions.push((Rule::Range(ch as u32, ch as u32, positive), Next::Target(2)));
        proof {
            let g = |_q: int, ch: char| (Rule::Range(ch as u32, ch as u32, positive), Next::Target(
                2usize,
            ));
            assert(result_stack@.take(k2 + 1).map(g) =~= result_stack@.take(k2 as int).map(g).push(
                g(k2 as int, result_stack@[k2 as int]),
            ));
        }
        k2 = k2 + 1;
    }
    proof {
        assert(ranges@.take(rn as int) =~= ranges@);
        assert(result_stack@.take(sn as int) =~= result_stack@);
        assert(transitions@ =~= spec_class_transitions(result_stack@, ranges@, positive));
    }
    Ok(char_class_escape_machine(positive, transitions))
}

} // verus!

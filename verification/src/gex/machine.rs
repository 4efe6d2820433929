//! The non-deterministic finite automaton and its combinators. States live in
//! a flat sequence addressed by ids; transitions carry destination ids, so
//! concatenation, alternation, grouping and quantification only renumber.

use vstd::prelude::*;

verus! {

use crate::gex::features::{
    GexFeatures, spec_close_flag, spec_group_number, spec_inc_group,
};

/// Per-transition predicate over a Unicode scalar. `positive == false` inverts
/// the predicate. `Null` consumes nothing and is handled by the closure walk.
#[derive(Debug, PartialEq, Eq, Structural, Copy, Clone)]
pub enum Rule {
    Range(u32, u32, bool),
    Not(u32),
    IsWord(bool),
    IsDigit(bool),
    IsWhitespace(bool),
    Null,
}

/// Destination of a transition.
#[derive(Debug, PartialEq, Eq, Structural, Copy, Clone)]
pub enum Next {
    Target(usize),
    Accept,
}

pub type Transition = (Rule, Next);

/// A state: its ordered transitions and a flag word. Bit 0 (short circuit)
/// makes a single failing rule reject the whole state, which models negative
/// character classes.
#[derive(Debug, PartialEq, Eq, Clone)]
pub struct State {
    pub transitions: Vec<Transition>,
    pub flags: u64,
}

#[verifier::ext_equal]
pub ghost struct SpecState {
    pub transitions: Seq<Transition>,
    pub flags: u64,
}

impl View for State {
    type V = SpecState;

    open spec fn view(&self) -> SpecState {
        SpecState { transitions: self.transitions@, flags: self.flags }
    }
}

/// The accept state every machine ends in.
pub open spec fn spec_accept_state() -> SpecState {
    SpecState { transitions: seq![(Rule::Null, Next::Accept)], flags: 0u64 }
}

impl State {
    pub fn from_transitions(transitions: Vec<Transition>) -> (r: State)
        ensures
            r@ == (SpecState { transitions: transitions@, flags: 0u64 }),
    {
        State { transitions, flags: 0x0 }
    }

    pub fn short_circuit_from_transitions(transitions: Vec<Transition>) -> (r: State)
        ensures
            r@ == (SpecState { transitions: transitions@, flags: 0x1u64 }),
    {
        State { transitions, flags: 0x1 }
    }

    pub fn accept_state() -> (r: State)
        ensures
            r@ == spec_accept_state(),
    {
        let mut transitions: Vec<Transition> = Vec::new();
        transitions.push((Rule::Null, Next::Accept));
        proof {
            assert(transitions@ =~= seq![(Rule::Null, Next::Accept)]);
        }
        State { transitions, flags: 0x0 }
    }

    pub fn push(&mut self, transition: Transition)
        ensures
            final(self)@.transitions == old(self)@.transitions.push(transition),
            final(self)@.flags == old(self)@.flags,
    {
        self.transitions.push(transition)
    }

    /// True when a single failing rule rejects the whole state.
    pub fn short_circuit(&self) -> (r: bool)
        ensures
            r == ((self@.flags & 0x1u64) != 0),
    {
        (self.flags & 0x1) != 0
    }

    pub fn group_number(&self) -> (r: u16)
        ensures
            r == spec_group_number(self@.flags),
    {
        (self.flags >> 48) as u16
    }

    pub fn close_group(&self) -> (r: u8)
        ensures
            r == spec_close_flag(self@.flags),
    {
        ((self.flags & 0x2) >> 1) as u8
    }
}

#[verifier::ext_equal]
pub ghost struct SpecMachine {
    pub states: Seq<SpecState>,
    pub flags: Seq<Seq<u64>>,
    pub groups: u16,
}

/// A non-deterministic finite automaton: state 0 is the start, the last state
/// is the lone accept state, features carry capture metadata per state id.
#[derive(Debug, PartialEq, Eq, Clone)]
pub struct GexMachine {
    pub states: Vec<State>,
    pub features: GexFeatures,
    pub max_group_index: u16,
}

impl View for GexMachine {
    type V = SpecMachine;

    open spec fn view(&self) -> SpecMachine {
        SpecMachine {
            states: Seq::new(self.states@.len(), |i: int| self.states@[i]@),
            flags: self.features@,
            groups: self.max_group_index,
        }
    }
}

/// Every transition of `s` stays inside a machine of `n` states.
pub open spec fn state_targets_ok(s: SpecState, n: int) -> bool {
    forall|k: int|
        0 <= k < s.transitions.len() ==> match (#[trigger] s.transitions[k]).1 {
            Next::Target(t) => t < n,
            Next::Accept => true,
        }
}

/// Every feature word of `words` names a group in `1 ..= groups`.
pub open spec fn words_ok(words: Seq<u64>, groups: u16) -> bool {
    forall|j: int|
        0 <= j < words.len() ==> 1 <= spec_group_number(#[trigger] words[j]) <= groups
}

/// The conventional shape every finished machine has: at least a start and an
/// accept state, the last state holding exactly one `(Null, Accept)`
/// transition, all targets in range, a feature entry per state, and every
/// feature word naming a live group.
pub open spec fn wf(m: SpecMachine) -> bool {
    &&& m.states.len() >= 2
    &&& m.flags.len() == m.states.len()
    &&& m.states.last() == spec_accept_state()
    &&& forall|i: int| 0 <= i < m.states.len() ==> state_targets_ok(#[trigger] m.states[i], m.states.len() as int)
    &&& forall|i: int| 0 <= i < m.flags.len() ==> words_ok(#[trigger] m.flags[i], m.groups)
}

/// A transition with its target renumbered by `shift`.
pub open spec fn spec_shift_transition(t: Transition, shift: int) -> Transition {
    match t.1 {
        Next::Target(x) => (t.0, Next::Target((x + shift) as usize)),
        Next::Accept => t,
    }
}

/// A state with all its targets renumbered by `shift`.
pub open spec fn spec_shift_state(s: SpecState, shift: int) -> SpecState {
    SpecState {
        transitions: s.transitions.map(|_k: int, t: Transition| spec_shift_transition(t, shift)),
        flags: s.flags,
    }
}

/// The feature words that merging carries over: words naming group 0 are
/// dropped, the rest have their group numbers raised by `gshift`.
pub open spec fn spec_shift_words(words: Seq<u64>, gshift: u16) -> Seq<u64>
    decreases words.len(),
{
    if words.len() == 0 {
        Seq::empty()
    } else {
        let rest = spec_shift_words(words.drop_last(), gshift);
        if spec_group_number(words.last()) != 0 {
            rest.push(spec_inc_group(words.last(), gshift))
        } else {
            rest
        }
    }
}

/// The feature table after merging `other` into `base`: entry `i` keeps the
/// base words and gains the shifted words of `other[i - shift]`.
pub open spec fn spec_merge_flags(
    base: Seq<Seq<u64>>,
    other: Seq<Seq<u64>>,
    shift: int,
    gshift: u16,
    new_len: int,
) -> Seq<Seq<u64>> {
    Seq::new(
        new_len as nat,
        |i: int|
            {
                let b = if i < base.len() {
                    base[i]
                } else {
                    Seq::empty()
                };
                if shift <= i < shift + other.len() {
                    b + spec_shift_words(other[i - shift], gshift)
                } else {
                    b
                }
            },
    )
}

/// Concatenation: A's accept state is dropped, B is appended with its ids
/// shifted by A's old accept index, feature tables merge at the junction, and
/// group counts add.
pub open spec fn spec_cons(a: SpecMachine, b: SpecMachine) -> SpecMachine
    recommends
        wf(a),
        wf(b),
{
    let shift = a.states.len() - 1;
    SpecMachine {
        states: a.states.drop_last() + b.states.map(
            |_i: int, s: SpecState| spec_shift_state(s, shift),
        ),
        flags: spec_merge_flags(a.flags, b.flags, shift, a.groups, shift + b.states.len()),
        groups: (a.groups + b.groups) as u16,
    }
}

/// A state whose last transition is redirected to `tgt`, keeping its rule.
pub open spec fn spec_retarget_last(s: SpecState, tgt: int) -> SpecState
    recommends
        s.transitions.len() > 0,
{
    SpecState {
        transitions: s.transitions.update(
            s.transitions.len() - 1,
            (s.transitions.last().0, Next::Target(tgt as usize)),
        ),
        flags: s.flags,
    }
}

/// Alternation: the start state gains a null edge to B's start, both accepts
/// are redirected to a fresh shared accept state appended at the end.
pub open spec fn spec_or(a: SpecMachine, b: SpecMachine) -> SpecMachine
    recommends
        wf(a),
        wf(b),
{
    let other_start = a.states.len() as int;
    let new_accept = a.states.len() + b.states.len() as int;
    let s0 = SpecState {
        transitions: a.states[0].transitions.push((Rule::Null, Next::Target(other_start as usize))),
        flags: a.states[0].flags,
    };
    let a2 = a.states.update(0, s0);
    let a3 = a2.update(a.states.len() - 1, spec_retarget_last(a2.last(), new_accept));
    let bshifted = b.states.map(|_i: int, s: SpecState| spec_shift_state(s, other_start as int));
    let bfixed = bshifted.update(
        bshifted.len() - 1,
        spec_retarget_last(bshifted.last(), new_accept),
    );
    SpecMachine {
        states: a3 + bfixed + seq![spec_accept_state()],
        flags: spec_merge_flags(
            a.flags,
            b.flags,
            other_start as int,
            a.groups,
            new_accept + 1,
        ),
        groups: (a.groups + b.groups) as u16,
    }
}

/// Grouping: inner groups are renumbered one up, the machine becomes group 1
/// locally, opening on state 0 and closing on the accept state.
pub open spec fn spec_group(m: SpecMachine) -> SpecMachine
    recommends
        wf(m),
        m.groups < 0xFFFF,
{
    let raised = m.flags.map(
        |_i: int, ws: Seq<u64>| ws.map(|_j: int, w: u64| spec_inc_group(w, 1)),
    );
    let open_word = 1u64 << 48;
    let close_word = (1u64 << 48) | 0x2u64;
    let with_open = raised.update(0, raised[0].push(open_word));
    let last = m.states.len() - 1;
    let with_close = with_open.update(last, with_open[last].push(close_word));
    SpecMachine { states: m.states, flags: with_close, groups: (m.groups + 1) as u16 }
}

/// A null edge from the start to the accept state that the quantifier pass is
/// about to append: matching zero repetitions.
pub open spec fn spec_accept_zero(m: SpecMachine) -> SpecMachine {
    let s0 = SpecState {
        transitions: m.states[0].transitions.push(
            (Rule::Null, Next::Target(m.states.len() as usize)),
        ),
        flags: m.states[0].flags,
    };
    SpecMachine { states: m.states.update(0, s0), flags: m.flags, groups: m.groups }
}

/// A null edge from the state before the accept back to the start: matching
/// further repetitions.
pub open spec fn spec_accept_repeats(m: SpecMachine) -> SpecMachine {
    let last = m.states.len() - 1;
    let s = SpecState {
        transitions: m.states[last].transitions.push((Rule::Null, Next::Target(0usize))),
        flags: m.states[last].flags,
    };
    SpecMachine { states: m.states.update(last, s), flags: m.flags, groups: m.groups }
}

/// Every accept edge of the old accept state is redirected to a fresh accept
/// state appended at the end; the feature table gains an empty entry for it.
pub open spec fn spec_finalize_quantifier(m: SpecMachine) -> SpecMachine {
    let last = m.states.len() - 1;
    let n = m.states.len();
    let s = SpecState {
        transitions: m.states[last].transitions.map(
            |_k: int, t: Transition|
                match t.1 {
                    Next::Accept => (t.0, Next::Target(n as usize)),
                    Next::Target(_) => t,
                },
        ),
        flags: m.states[last].flags,
    };
    SpecMachine {
        states: m.states.update(last, s).push(spec_accept_state()),
        flags: m.flags.push(Seq::empty()),
        groups: m.groups,
    }
}

pub open spec fn spec_zero_or_more(m: SpecMachine) -> SpecMachine {
    spec_finalize_quantifier(spec_accept_repeats(spec_accept_zero(m)))
}

pub open spec fn spec_one_or_more(m: SpecMachine) -> SpecMachine {
    spec_finalize_quantifier(spec_accept_repeats(m))
}

pub open spec fn spec_zero_or_one(m: SpecMachine) -> SpecMachine {
    spec_finalize_quantifier(spec_accept_zero(m))
}

/// Raising a group number raises exactly the group field of the word.
pub proof fn lemma_inc_group(w: u64, s: u16)
    requires
        spec_group_number(w) + s <= 0xFFFF,
    ensures
        spec_group_number(spec_inc_group(w, s)) == spec_group_number(w) + s,
        spec_close_flag(spec_inc_group(w, s)) == spec_close_flag(w),
{
    let g: u64 = w >> 48;
    assert(w >> 48 <= 0xFFFF) by (bit_vector);
    assert((w >> 48) as u16 as u64 == w >> 48) by (bit_vector);
    let sum: u64 = (g + (s as u64)) as u64;
    assert(((spec_group_number(w) + s) as u64) == sum);
    let inc: u64 = (w & !0xFFFF_0000_0000_0000u64) | (sum << 48);
    assert(inc >> 48 == sum && (inc & 0x2) == (w & 0x2) && (sum as u16) as u64 == sum)
        by (bit_vector)
        requires
            sum <= 0xFFFF,
            inc == (w & !0xFFFF_0000_0000_0000u64) | (sum << 48),
    ;
    assert(spec_inc_group(w, s) == inc);
}

/// The shifted words of a table entry keep naming live groups.
pub proof fn lemma_shift_words_ok(words: Seq<u64>, gshift: u16, groups: u16)
    requires
        words_ok(words, groups),
        groups + gshift <= 0xFFFF,
    ensures
        words_ok(spec_shift_words(words, gshift), (groups + gshift) as u16),
        spec_shift_words(words, gshift).len() <= words.len(),
    decreases words.len(),
{
    if words.len() > 0 {
        assert(words_ok(words.drop_last(), groups));
        lemma_shift_words_ok(words.drop_last(), gshift, groups);
        if spec_group_number(words.last()) != 0 {
            lemma_inc_group(words.last(), gshift);
        }
    }
}

/// Renumbers the targets of one state by `shift`.
fn states_shifter(shift: usize, state: &State) -> (r: State)
    requires
        forall|k: int|
            0 <= k < state@.transitions.len() ==> match (#[trigger] state@.transitions[k]).1 {
                Next::Target(t) => t + shift <= usize::MAX,
                Next::Accept => true,
            },
    ensures
        r@ == spec_shift_state(state@, shift as int),
{
    let mut transitions: Vec<Transition> = Vec::new();
    let n = state.transitions.len();
    let mut k: usize = 0;
    while k < n
        invariant
            k <= n,
            n == state@.transitions.len(),
            forall|q: int|
                0 <= q < state@.transitions.len() ==> match (#[trigger] state@.transitions[q]).1 {
                    Next::Target(t) => t + shift <= usize::MAX,
                    Next::Accept => true,
                },
            transitions@ =~= state@.transitions.take(k as int).map(
                |_q: int, t: Transition| spec_shift_transition(t, shift as int),
            ),
        decreases n - k,
    {
        let (rule, next) = state.transitions[k];
        let moved: Transition = match next {
            Next::Target(x) => (rule, Next::Target(x + shift)),
            Next::Accept => (rule, next),
        };
        transitions.push(moved);
        proof {
            let f = |_q: int, t: Transition| spec_shift_transition(t, shift as int);
            assert(state@.transitions.take(k + 1).map(f) =~= state@.transitions.take(k as int).map(
                f,
            ).push(spec_shift_transition(state@.transitions[k as int], shift as int)));
        }
        k = k + 1;
    }
    proof {
        assert(state@.transitions.take(n as int) =~= state@.transitions);
    }
    State { transitions, flags: state.flags }
}

impl GexMachine {
    pub fn from_states(states: Vec<State>) -> (r: GexMachine)
        ensures
            r@.states == Seq::new(states@.len(), |i: int| states@[i]@),
            r@.flags == Seq::new(states@.len(), |i: int| Seq::<u64>::empty()),
            r@.groups == 0u16,
    {
        let n = states.len();
        let mut table: Vec<Vec<u64>> = Vec::new();
        let mut i: usize = 0;
        while i < n
            invariant
                i <= n,
                table@.len() == i,
                forall|q: int| 0 <= q < i ==> (#[trigger] table@[q])@ =~= Seq::<u64>::empty(),
            decreases n - i,
        {
            table.push(Vec::new());
            i = i + 1;
        }
        let r = GexMachine { states, features: GexFeatures { state_flags: table }, max_group_index: 0 };
        proof {
            assert(r@.flags =~~= Seq::new(r.states@.len(), |q: int| Seq::<u64>::empty()));
        }
        r
    }

    /// A machine that accepts exactly the empty string, built with room for
    /// `cap` states.
    pub fn with_capacity(cap: usize) -> (r: GexMachine)
        ensures
            r@.states =~= seq![
                SpecState { transitions: seq![(Rule::Null, Next::Target(1usize))], flags: 0u64 },
                spec_accept_state(),
            ],
            r@.flags =~= seq![Seq::<u64>::empty(), Seq::<u64>::empty()],
            r@.groups == 0u16,
            wf(r@),
    {
        let mut states: Vec<State> = Vec::with_capacity(cap);
        let mut t0: Vec<Transition> = Vec::new();
        t0.push((Rule::Null, Next::Target(1)));
        proof {
            assert(t0@ =~= seq![(Rule::Null, Next::Target(1usize))]);
        }
        states.push(State::from_transitions(t0));
        states.push(State::accept_state());
        let r = GexMachine::from_states(states);
        proof {
            assert(r@.states =~= seq![
                SpecState { transitions: seq![(Rule::Null, Next::Target(1usize))], flags: 0u64 },
                spec_accept_state(),
            ]);
            assert(r@.flags =~= seq![Seq::<u64>::empty(), Seq::<u64>::empty()]);
        }
        r
    }

    pub fn default() -> (r: GexMachine)
        ensures
            r@.states =~= seq![
                SpecState { transitions: seq![(Rule::Null, Next::Target(1usize))], flags: 0u64 },
                spec_accept_state(),
            ],
            r@.flags =~= seq![Seq::<u64>::empty(), Seq::<u64>::empty()],
            r@.groups == 0u16,
            wf(r@),
    {
        GexMachine::with_capacity(1_000_000)
    }

    pub fn size(&self) -> (r: usize)
        ensures
            r == self@.states.len(),
    {
        self.states.len()
    }

    /// Appends the feature table of another machine, its state ids moved by
    /// `old_accept_idx` and its group numbers moved past this machine's own.
    #[verifier::loop_isolation(false)]
    fn add_shifted_flags(&mut self, other_state_flags: GexFeatures, old_accept_idx: usize)
        requires
            old(self)@.flags.len() <= old(self)@.states.len(),
            old_accept_idx + other_state_flags@.len() <= old(self)@.states.len(),
            forall|j: int, k: int|
                0 <= j < other_state_flags@.len() && 0 <= k < other_state_flags@[j].len()
                    ==> spec_group_number(#[trigger] other_state_flags@[j][k]) + old(self)@.groups
                    <= 0xFFFF,
        ensures
            final(self)@.states == old(self)@.states,
            final(self)@.groups == old(self)@.groups,
            final(self)@.flags =~~= spec_merge_flags(
                old(self)@.flags,
                other_state_flags@,
                old_accept_idx as int,
                old(self)@.groups,
                old(self)@.states.len() as int,
            ),
    {
        let n = self.states.len();
        let gshift = self.max_group_index;
        while self.features.state_flags.len() < n
            invariant
                old(self)@.flags.len() <= self.features@.len() <= n,
                self.states@ == old(self).states@,
                self.max_group_index == old(self).max_group_index,
                self.features@ =~~= Seq::new(
                    self.features@.len(),
                    |i: int|
                        if i < old(self)@.flags.len() {
                            old(self)@.flags[i]
                        } else {
                            Seq::<u64>::empty()
                        },
                ),
            decreases n - self.features@.len(),
        {
            let ghost pre = self.features@;
            self.features.state_flags.push(Vec::new());
            proof {
                let pat = |i: int|
                    if i < old(self)@.flags.len() {
                        old(self)@.flags[i]
                    } else {
                        Seq::<u64>::empty()
                    };
                assert forall|i: int| 0 <= i < self.features@.len() implies #[trigger] self.features@[i]
                    =~= pat(i) by {
                    if i < pre.len() {
                        assert(self.features@[i] == pre[i]);
                        assert(pre[i] == Seq::new(pre.len(), pat)[i]);
                    } else {
                        assert(self.features@[i] =~= Seq::<u64>::empty());
                    }
                }
                assert(self.features@ =~~= Seq::new(self.features@.len(), pat));
            }
        }
        let other = other_state_flags.state_flags;
        let mut j: usize = 0;
        while j < other.len()
            invariant
                j <= other@.len(),
                self.states@ == old(self).states@,
                self.max_group_index == old(self).max_group_index,
                self.features@ =~~= spec_merge_flags(
                    old(self)@.flags,
                    other_state_flags@.take(j as int),
                    old_accept_idx as int,
                    gshift,
                    n as int,
                ),
            decreases other@.len() - j,
        {
            let words = &other[j];
            let ghost wsnap = words@;
            let mut k: usize = 0;
            while k < words.len()
                invariant
                    k <= words@.len(),
                    self.states@ == old(self).states@,
                    self.max_group_index == old(self).max_group_index,
                    self.features@ =~~= spec_merge_flags(
                        old(self)@.flags,
                        other_state_flags@.take(j as int).push(words@.take(k as int)),
                        old_accept_idx as int,
                        gshift,
                        n as int,
                    ),
                decreases words@.len() - k,
            {
                let w = words[k];
                proof {
                    assert(words@.take(k + 1).drop_last() =~= words@.take(k as int));
                    assert(words@.take(k + 1).last() == w);
                    assert(other_state_flags@[j as int] == words@);
                    assert(spec_group_number(other_state_flags@[j as int][k as int])
                        + old(self)@.groups <= 0xFFFF);
                }
                let ghost t0 = other_state_flags@.take(j as int).push(words@.take(k as int));
                let ghost t1 = other_state_flags@.take(j as int).push(words@.take(k + 1));
                let ghost pref = self.features@;
                if GexFeatures::group_number(w) != 0 {
                    let shifted = GexFeatures::increment_group_number(w, gshift);
                    self.features.state_flags[j + old_accept_idx].push(shifted);
                }
                proof {
                    let m0 = spec_merge_flags(
                        old(self)@.flags,
                        t0,
                        old_accept_idx as int,
                        gshift,
                        n as int,
                    );
                    let m1 = spec_merge_flags(
                        old(self)@.flags,
                        t1,
                        old_accept_idx as int,
                        gshift,
                        n as int,
                    );
                    assert(spec_shift_words(words@.take(k + 1), gshift) == if spec_group_number(w)
                        != 0 {
                        spec_shift_words(words@.take(k as int), gshift).push(
                            spec_inc_group(w, gshift),
                        )
                    } else {
                        spec_shift_words(words@.take(k as int), gshift)
                    });
                    assert forall|i: int| 0 <= i < n implies m1[i] == #[trigger] self.features@[i] by {
                        if i != j + old_accept_idx {
                            assert(m1[i] == m0[i]);
                            assert(self.features@[i] == pref[i]);
                            assert(pref[i] == m0[i]);
                        } else {
                            assert(t1[i - old_accept_idx] == words@.take(k + 1));
                            assert(t0[i - old_accept_idx] == words@.take(k as int));
                            assert(pref[i] == m0[i]);
                            if spec_group_number(w) != 0 {
                                assert(self.features@[i] == pref[i].push(
                                    spec_inc_group(w, gshift),
                                ));
                            } else {
                                assert(self.features@[i] == pref[i]);
                            }
                            assert(m1[i] == self.features@[i]);
                        }
                    }
                    assert(self.features@ =~~= m1);
                }
                k = k + 1;
            }
            proof {
                assert(words@.take(words@.len() as int) =~= words@);
                assert(other_state_flags@.take(j as int).push(words@) =~= other_state_flags@.take(
                    j + 1,
                ));
            }
            j = j + 1;
        }
        proof {
            assert(other_state_flags@.take(other_state_flags@.len() as int)
                =~= other_state_flags@);
        }
    }

    /// Concatenates another machine onto this one: the other machine is
    /// appended, renumbered past this machine's old accept state.
    #[verifier::loop_isolation(false)]
    pub fn cons(self, other: GexMachine) -> (r: GexMachine)
        requires
            wf(self@),
            wf(other@),
            self@.states.len() + other@.states.len() <= usize::MAX,
            self@.groups + other@.groups <= 0xFFFF,
        ensures
            r@ =~~= spec_cons(self@, other@),
            wf(r@),
    {
        let mut this = self;
        let ghost a = this@;
        let ghost b = other@;
        let old_accept_idx = this.states.len() - 1;
        this.states.pop();
        let GexMachine { states: ostates, features: ofeatures, max_group_index: ogroups } = other;
        let bn = ostates.len();
        let mut j: usize = 0;
        while j < bn
            invariant
                j <= bn,
                bn == b.states.len(),
                this.states@.len() == a.states.len() - 1 + j,
                this.features@ == a.flags,
                this.max_group_index == a.groups,
                Seq::new(this.states@.len(), |i: int| this.states@[i]@) =~~= a.states.drop_last()
                    + b.states.take(j as int).map(
                    |_i: int, s: SpecState| spec_shift_state(s, old_accept_idx as int),
                ),
                Seq::new(ostates@.len(), |i: int| ostates@[i]@) =~~= b.states,
            decreases bn - j,
        {
            proof {
                assert(ostates@[j as int]@ == b.states[j as int]);
                assert(state_targets_ok(b.states[j as int], b.states.len() as int));
            }
            let ghost prev = this.states@;
            let moved = states_shifter(old_accept_idx, &ostates[j]);
            this.states.push(moved);
            proof {
                let f = |_i: int, s: SpecState| spec_shift_state(s, old_accept_idx as int);
                assert(b.states.take(j + 1).map(f) =~= b.states.take(j as int).map(f).push(
                    spec_shift_state(b.states[j as int], old_accept_idx as int),
                ));
                let lhs = Seq::new(this.states@.len(), |i: int| this.states@[i]@);
                let rhs = a.states.drop_last() + b.states.take(j + 1).map(f);
                assert forall|i: int| 0 <= i < lhs.len() implies lhs[i] =~~= rhs[i] by {
                    if i < prev.len() {
                        assert(this.states@[i] == prev[i]);
                        assert(Seq::new(prev.len(), |q: int| prev[q]@)[i] == prev[i]@);
                    } else {
                        assert(this.states@[i] == moved);
                    }
                }
                assert(lhs =~~= rhs);
            }
            j = j + 1;
        }
        proof {
            assert(b.states.take(bn as int) =~= b.states);
        }
        this.add_shifted_flags(ofeatures, old_accept_idx);
        this.max_group_index = this.max_group_index + ogroups;
        proof {
            lemma_cons_shape(a, b, this@);
        }
        this
    }
}

/// A copy of `st` whose last transition is redirected to `tgt`.
#[verifier::loop_isolation(false)]
fn retarget_last_transition(st: &State, tgt: usize) -> (r: State)
    requires
        st@.transitions.len() > 0,
    ensures
        r@ == spec_retarget_last(st@, tgt as int),
{
    let n = st.transitions.len();
    let mut transitions: Vec<Transition> = Vec::new();
    let mut k: usize = 0;
    while k < n - 1
        invariant
            k <= n - 1,
            transitions@ =~= st@.transitions.take(k as int),
        decreases n - k,
    {
        transitions.push(st.transitions[k]);
        proof {
            assert(st@.transitions.take(k + 1).drop_last() =~= st@.transitions.take(k as int));
            assert(transitions@ =~= st@.transitions.take(k + 1));
        }
        k = k + 1;
    }
    let (rule, _) = st.transitions[n - 1];
    transitions.push((rule, Next::Target(tgt)));
    proof {
        assert(transitions@ =~= spec_retarget_last(st@, tgt as int).transitions);
    }
    State { transitions, flags: st.flags }
}

/// A copy of `st` whose accept edges are redirected to `tgt`.
#[verifier::loop_isolation(false)]
fn retarget_accepts(st: &State, tgt: usize) -> (r: State)
    ensures
        r@.flags == st@.flags,
        r@.transitions =~= st@.transitions.map(
            |_k: int, t: Transition|
                match t.1 {
                    Next::Accept => (t.0, Next::Target(tgt)),
                    Next::Target(_) => t,
                },
        ),
{
    let n = st.transitions.len();
    let ghost f = |_k: int, t: Transition|
        match t.1 {
            Next::Accept => (t.0, Next::Target(tgt)),
            Next::Target(_) => t,
        };
    let mut transitions: Vec<Transition> = Vec::new();
    let mut k: usize = 0;
    while k < n
        invariant
            k <= n,
            n == st@.transitions.len(),
            transitions@ =~= st@.transitions.take(k as int).map(f),
        decreases n - k,
    {
        let (rule, next) = st.transitions[k];
        let moved: Transition = match next {
            Next::Accept => (rule, Next::Target(tgt)),
            Next::Target(_) => (rule, next),
        };
        transitions.push(moved);
        proof {
            assert(st@.transitions.take(k + 1).map(f) =~= st@.transitions.take(k as int).map(
                f,
            ).push(f(k as int, st@.transitions[k as int])));
        }
        k = k + 1;
    }
    proof {
        assert(st@.transitions.take(n as int) =~= st@.transitions);
    }
    State { transitions, flags: st.flags }
}

/// A copy of `words` with every group number raised by one.
#[verifier::loop_isolation(false)]
fn raise_words(words: &Vec<u64>) -> (r: Vec<u64>)
    requires
        forall|k: int|
            0 <= k < words@.len() ==> spec_group_number(#[trigger] words@[k]) < 0xFFFF,
    ensures
        r@ =~= words@.map(|_k: int, w: u64| spec_inc_group(w, 1)),
{
    let ghost f = |_k: int, w: u64| spec_inc_group(w, 1u16);
    let n = words.len();
    let mut out: Vec<u64> = Vec::new();
    let mut k: usize = 0;
    while k < n
        invariant
            k <= n,
            n == words@.len(),
            out@ =~= words@.take(k as int).map(f),
        decreases n - k,
    {
        out.push(GexFeatures::increment_group_number(words[k], 1));
        proof {
            assert(words@.take(k + 1).map(f) =~= words@.take(k as int).map(f).push(
                f(k as int, words@[k as int]),
            ));
        }
        k = k + 1;
    }
    proof {
        assert(words@.take(n as int) =~= words@);
    }
    out
}

impl GexMachine {
    /// Alternates this machine with another: this one is the left branch.
    #[verifier::loop_isolation(false)]
    pub fn or(self, other: GexMachine) -> (r: GexMachine)
        requires
            wf(self@),
            wf(other@),
            self@.states.len() + other@.states.len() + 1 <= usize::MAX,
            self@.groups + other@.groups <= 0xFFFF,
        ensures
            r@ =~~= spec_or(self@, other@),
            wf(r@),
    {
        let mut this = self;
        let ghost a = this@;
        let ghost b = other@;
        let other_start = this.states.len();
        let new_accept_idx = this.states.len() + other.states.len();
        this.states[0].push((Rule::Null, Next::Target(other_start)));
        let li = this.states.len() - 1;
        let retargeted = retarget_last_transition(&this.states[li], new_accept_idx);
        this.states[li] = retargeted;
        proof {
            let s0 = SpecState {
                transitions: a.states[0].transitions.push(
                    (Rule::Null, Next::Target(other_start as usize)),
                ),
                flags: a.states[0].flags,
            };
            let a3 = a.states.update(0, s0).update(
                a.states.len() - 1,
                spec_retarget_last(a.states.update(0, s0).last(), new_accept_idx as int),
            );
            assert(Seq::new(this.states@.len(), |i: int| this.states@[i]@) =~~= a3);
        }
        let GexMachine { states: ostates, features: ofeatures, max_group_index: ogroups } = other;
        let bn = ostates.len();
        let mut j: usize = 0;
        while j < bn
            invariant
                j <= bn,
                bn == b.states.len(),
                this.states@.len() == a.states.len() + j,
                this.features@ == a.flags,
                this.max_group_index == a.groups,
                Seq::new(this.states@.len(), |i: int| this.states@[i]@) =~~= a.states.update(
                    0,
                    SpecState {
                        transitions: a.states[0].transitions.push(
                            (Rule::Null, Next::Target(other_start as usize)),
                        ),
                        flags: a.states[0].flags,
                    },
                ).update(
                    a.states.len() - 1,
                    spec_retarget_last(spec_accept_state(), new_accept_idx as int),
                ) + b.states.take(j as int).map(
                    |_i: int, s: SpecState| spec_shift_state(s, other_start as int),
                ),
                Seq::new(ostates@.len(), |i: int| ostates@[i]@) =~~= b.states,
            decreases bn - j,
        {
            proof {
                assert(ostates@[j as int]@ == b.states[j as int]);
                assert(state_targets_ok(b.states[j as int], b.states.len() as int));
            }
            let ghost prev = this.states@;
            let moved = states_shifter(other_start, &ostates[j]);
            this.states.push(moved);
            proof {
                let f = |_i: int, s: SpecState| spec_shift_state(s, other_start as int);
                assert(b.states.take(j + 1).map(f) =~= b.states.take(j as int).map(f).push(
                    spec_shift_state(b.states[j as int], other_start as int),
                ));
                let lhs = Seq::new(this.states@.len(), |i: int| this.states@[i]@);
                let rhs = a.states.update(
                    0,
                    SpecState {
                        transitions: a.states[0].transitions.push(
                            (Rule::Null, Next::Target(other_start as usize)),
                        ),
                        flags: a.states[0].flags,
                    },
                ).update(
                    a.states.len() - 1,
                    spec_retarget_last(spec_accept_state(), new_accept_idx as int),
                ) + b.states.take(j + 1).map(f);
                assert forall|i: int| 0 <= i < lhs.len() implies lhs[i] =~~= rhs[i] by {
                    if i < prev.len() {
                        assert(this.states@[i] == prev[i]);
                        assert(Seq::new(prev.len(), |q: int| prev[q]@)[i] == prev[i]@);
                    } else {
                        assert(this.states@[i] == moved);
                    }
                }
                assert(lhs =~~= rhs);
            }
            j = j + 1;
        }
        proof {
            assert(b.states.take(bn as int) =~= b.states);
        }
        let ri = this.states.len() - 1;
        let ghost exview = Seq::new(this.states@.len(), |i: int| this.states@[i]@);
        proof {
            assert(exview[ri as int] == this.states@[ri as int]@);
            assert(exview[ri as int] =~~= spec_shift_state(b.states.last(), other_start as int));
            assert(spec_shift_state(b.states.last(), other_start as int).transitions =~= seq![
                (Rule::Null, Next::Accept),
            ]);
        }
        let rfixed = retarget_last_transition(&this.states[ri], new_accept_idx);
        this.states[ri] = rfixed;
        this.states.push(State::accept_state());
        this.add_shifted_flags(ofeatures, other_start);
        this.max_group_index = this.max_group_index + ogroups;
        proof {
            let target = spec_or(a, b);
            assert(this@.flags =~~= target.flags);
            let lhs = this@.states;
            assert forall|i: int| 0 <= i < lhs.len() implies lhs[i] =~~= target.states[i] by {
                assert(lhs[i] == this.states@[i]@);
                if i < ri as int {
                    assert(this.states@[i]@ == exview[i]);
                } else if i == ri as int {
                    assert(this.states@[i]@ == rfixed@);
                } else {
                    assert(this.states@[i]@ == spec_accept_state());
                }
            }
            assert(this@.states =~~= target.states);
            lemma_or_shape(a, b, this@);
        }
        this
    }

    /// Wraps this machine in a capturing group: inner groups renumber one up,
    /// the new group opens at the start state and closes at the accept state.
    #[verifier::loop_isolation(false)]
    pub fn group(self) -> (r: GexMachine)
        requires
            wf(self@),
            self@.groups < 0xFFFF,
        ensures
            r@ =~~= spec_group(self@),
            wf(r@),
    {
        let mut this = self;
        let ghost m = this@;
        this.max_group_index = this.max_group_index + 1;
        let last_idx = this.states.len() - 1;
        let fl = this.features.state_flags.len();
        let ghost raised = m.flags.map(
            |_i: int, ws: Seq<u64>| ws.map(|_j: int, w: u64| spec_inc_group(w, 1)),
        );
        let mut i: usize = 0;
        while i < fl
            invariant
                i <= fl,
                fl == m.flags.len(),
                this@.states =~~= m.states,
                this.max_group_index == (m.groups + 1) as u16,
                this.features@.len() == m.flags.len(),
                forall|q: int| 0 <= q < i ==> #[trigger] this.features@[q] =~= raised[q],
                forall|q: int| i <= q < fl ==> #[trigger] this.features@[q] =~= m.flags[q],
            decreases fl - i,
        {
            proof {
                assert(this.features@[i as int] == this.features.state_flags@[i as int]@);
                assert(this.features@[i as int] =~= m.flags[i as int]);
                assert(words_ok(m.flags[i as int], m.groups));
                assert forall|k: int| 0 <= k < this.features.state_flags@[i as int]@.len()
                    implies spec_group_number(
                    #[trigger] this.features.state_flags@[i as int]@[k],
                ) < 0xFFFF by {
                    assert(1 <= spec_group_number(m.flags[i as int][k]) <= m.groups);
                }
            }
            let ghost pref = this.features@;
            let neww = raise_words(&this.features.state_flags[i]);
            this.features.state_flags[i] = neww;
            proof {
                assert forall|q: int| 0 <= q < this.features@.len() && q != i implies
                    #[trigger] this.features@[q] == pref[q] by {
                    assert(this.features.state_flags@[q]@ == pref[q]);
                }
                assert(this.features@[i as int] == neww@);
                assert(neww@ =~= m.flags[i as int].map(|_j: int, w: u64| spec_inc_group(w, 1)));
                assert(this.features@[i as int] =~= raised[i as int]);
            }
            i = i + 1;
        }
        let start_flag: u64 = 1u64 << 48;
        let end_flag: u64 = (1u64 << 48) | 0x2;
        let ghost afterraise = this.features@;
        this.features.state_flags[0].push(start_flag);
        let ghost afteropen = this.features@;
        this.features.state_flags[last_idx].push(end_flag);
        proof {
            let gf = spec_group(m).flags;
            assert(afteropen[0] == afterraise[0].push(start_flag));
            assert forall|q: int| 0 <= q < this.features@.len() implies #[trigger] this.features@[q]
                =~= gf[q] by {
                assert(afterraise[q] =~= raised[q]);
                if q == last_idx as int {
                    assert(this.features@[q] == afteropen[q].push(end_flag));
                    assert(afteropen[q] == afterraise[q]);
                } else if q == 0 {
                    assert(this.features@[q] == afteropen[q]);
                } else {
                    assert(this.features@[q] == afterraise[q]);
                }
            }
            assert(this@.flags =~~= gf);
            assert(this@.states =~~= m.states);
            lemma_group_shape(m, this@);
        }
        this
    }

    /// A null edge from the start straight to where the accept state will be:
    /// zero repetitions match.
    fn accept_zero(self) -> (r: GexMachine)
        requires
            self@.states.len() >= 1,
        ensures
            r@ =~~= spec_accept_zero(self@),
    {
        let mut this = self;
        let ghost m = this@;
        let new_accept_idx = this.states.len();
        this.states[0].push((Rule::Null, Next::Target(new_accept_idx)));
        proof {
            assert(Seq::new(this.states@.len(), |i: int| this.states@[i]@) =~~= spec_accept_zero(
                m,
            ).states);
        }
        this
    }

    /// A null edge from the state before the accept back to the start:
    /// further repetitions match.
    fn accept_repeats(self) -> (r: GexMachine)
        requires
            self@.states.len() >= 1,
        ensures
            r@ =~~= spec_accept_repeats(self@),
    {
        let mut this = self;
        let ghost m = this@;
        let last = this.states.len() - 1;
        this.states[last].push((Rule::Null, Next::Target(0)));
        proof {
            assert(Seq::new(this.states@.len(), |i: int| this.states@[i]@)
                =~~= spec_accept_repeats(m).states);
        }
        this
    }

    /// Redirects the old accept edges to a fresh accept state appended at the
    /// end.
    fn finalize_quantifier(self) -> (r: GexMachine)
        requires
            self@.states.len() >= 1,
            self@.states.len() < usize::MAX,
        ensures
            r@ =~~= spec_finalize_quantifier(self@),
    {
        let mut this = self;
        let ghost m = this@;
        let new_accept_idx = this.states.len();
        let li = new_accept_idx - 1;
        let fixed = retarget_accepts(&this.states[li], new_accept_idx);
        this.states[li] = fixed;
        this.states.push(State::accept_state());
        this.features.state_flags.push(Vec::new());
        proof {
            assert(Seq::new(this.states@.len(), |i: int| this.states@[i]@)
                =~~= spec_finalize_quantifier(m).states);
            assert(this@.flags =~~= spec_finalize_quantifier(m).flags);
        }
        this
    }

    /// Kleene star: zero or more repetitions.
    pub fn zero_or_more(self) -> (r: GexMachine)
        requires
            wf(self@),
            self@.states.len() < usize::MAX,
        ensures
            r@ =~~= spec_zero_or_more(self@),
            wf(r@),
    {
        proof {
            lemma_pre_of_wf(self@);
            lemma_accept_zero_pre(self@);
            lemma_accept_repeats_pre(spec_accept_zero(self@));
            lemma_finalize_wf(spec_accept_repeats(spec_accept_zero(self@)));
        }
        self.accept_zero().accept_repeats().finalize_quantifier()
    }

    /// One or more repetitions.
    pub fn one_or_more(self) -> (r: GexMachine)
        requires
            wf(self@),
            self@.states.len() < usize::MAX,
        ensures
            r@ =~~= spec_one_or_more(self@),
            wf(r@),
    {
        proof {
            lemma_pre_of_wf(self@);
            lemma_accept_repeats_pre(self@);
            lemma_finalize_wf(spec_accept_repeats(self@));
        }
        self.accept_repeats().finalize_quantifier()
    }

    /// Zero or one occurrence.
    pub fn zero_or_one(self) -> (r: GexMachine)
        requires
            wf(self@),
            self@.states.len() < usize::MAX,
        ensures
            r@ =~~= spec_zero_or_one(self@),
            wf(r@),
    {
        proof {
            lemma_pre_of_wf(self@);
            lemma_accept_zero_pre(self@);
            lemma_finalize_wf(spec_accept_zero(self@));
        }
        self.accept_zero().finalize_quantifier()
    }
}

/// Like `state_targets_ok` but tolerating targets that point one past the
/// current end, where the quantifier pass is about to append the accept state.
pub open spec fn state_targets_le(s: SpecState, n: int) -> bool {
    forall|k: int|
        0 <= k < s.transitions.len() ==> match (#[trigger] s.transitions[k]).1 {
            Next::Target(t) => t <= n,
            Next::Accept => true,
        }
}

/// The in-between shape during quantifier construction.
pub open spec fn pre_wf(m: SpecMachine) -> bool {
    &&& m.states.len() >= 2
    &&& m.flags.len() == m.states.len()
    &&& forall|i: int|
        0 <= i < m.states.len() ==> state_targets_le(#[trigger] m.states[i], m.states.len() as int)
    &&& forall|i: int| 0 <= i < m.flags.len() ==> words_ok(#[trigger] m.flags[i], m.groups)
}

proof fn lemma_pre_of_wf(m: SpecMachine)
    requires
        wf(m),
    ensures
        pre_wf(m),
{
    assert forall|i: int| 0 <= i < m.states.len() implies state_targets_le(
        #[trigger] m.states[i],
        m.states.len() as int,
    ) by {
        assert(state_targets_ok(m.states[i], m.states.len() as int));
    }
}

proof fn lemma_accept_zero_pre(m: SpecMachine)
    requires
        pre_wf(m),
    ensures
        pre_wf(spec_accept_zero(m)),
        spec_accept_zero(m).states.len() == m.states.len(),
        spec_accept_zero(m).groups == m.groups,
{
    let r = spec_accept_zero(m);
    assert forall|i: int| 0 <= i < r.states.len() implies state_targets_le(
        #[trigger] r.states[i],
        r.states.len() as int,
    ) by {
        assert(state_targets_le(m.states[i], m.states.len() as int));
        if i == 0 {
            let s = r.states[0];
            assert forall|k: int|
                0 <= k < s.transitions.len() implies match (#[trigger] s.transitions[k]).1 {
                Next::Target(t) => t <= r.states.len(),
                Next::Accept => true,
            } by {
                if k < m.states[0].transitions.len() {
                    assert(s.transitions[k] == m.states[0].transitions[k]);
                }
            }
        }
    }
}

proof fn lemma_accept_repeats_pre(m: SpecMachine)
    requires
        pre_wf(m),
    ensures
        pre_wf(spec_accept_repeats(m)),
        spec_accept_repeats(m).states.len() == m.states.len(),
        spec_accept_repeats(m).groups == m.groups,
{
    let r = spec_accept_repeats(m);
    let last = m.states.len() - 1;
    assert forall|i: int| 0 <= i < r.states.len() implies state_targets_le(
        #[trigger] r.states[i],
        r.states.len() as int,
    ) by {
        assert(state_targets_le(m.states[i], m.states.len() as int));
        if i == last {
            let s = r.states[last];
            assert forall|k: int|
                0 <= k < s.transitions.len() implies match (#[trigger] s.transitions[k]).1 {
                Next::Target(t) => t <= r.states.len(),
                Next::Accept => true,
            } by {
                if k < m.states[last].transitions.len() {
                    assert(s.transitions[k] == m.states[last].transitions[k]);
                }
            }
        }
    }
}

proof fn lemma_finalize_wf(m: SpecMachine)
    requires
        pre_wf(m),
    ensures
        wf(spec_finalize_quantifier(m)),
{
    let r = spec_finalize_quantifier(m);
    let n = m.states.len();
    let last = n - 1;
    assert(r.states.len() == n + 1);
    assert(r.states.last() == spec_accept_state());
    assert forall|i: int| 0 <= i < r.states.len() implies state_targets_ok(
        #[trigger] r.states[i],
        r.states.len() as int,
    ) by {
        if i < n {
            assert(state_targets_le(m.states[i], n as int));
            let s = r.states[i];
            assert forall|k: int|
                0 <= k < s.transitions.len() implies match (#[trigger] s.transitions[k]).1 {
                Next::Target(t) => t < r.states.len(),
                Next::Accept => true,
            } by {
                if i == last {
                    assert(s.transitions[k] == match m.states[last].transitions[k].1 {
                        Next::Accept => (m.states[last].transitions[k].0, Next::Target(n as usize)),
                        Next::Target(_) => m.states[last].transitions[k],
                    });
                } else {
                    assert(s.transitions[k] == m.states[i].transitions[k]);
                }
            }
        }
    }
    assert forall|i: int| 0 <= i < r.flags.len() implies words_ok(#[trigger] r.flags[i], r.groups) by {
        if i < m.flags.len() {
            assert(r.flags[i] == m.flags[i]);
        } else {
            assert(r.flags[i] =~= Seq::<u64>::empty());
        }
    }
}

/// The alternation of two well-formed machines is well-formed.
proof fn lemma_or_shape(a: SpecMachine, b: SpecMachine, r: SpecMachine)
    requires
        wf(a),
        wf(b),
        a.groups + b.groups <= 0xFFFF,
        r =~~= spec_or(a, b),
    ensures
        wf(r),
{
    let other_start = a.states.len();
    let new_accept = a.states.len() + b.states.len();
    let n = r.states.len() as int;
    assert(n == new_accept + 1);
    assert(r.states.last() == spec_accept_state());
    assert forall|i: int| 0 <= i < n implies state_targets_ok(#[trigger] r.states[i], n) by {
        let s = r.states[i];
        assert forall|k: int|
            0 <= k < s.transitions.len() implies match (#[trigger] s.transitions[k]).1 {
            Next::Target(t) => t < n,
            Next::Accept => true,
        } by {
            if i == 0 && other_start > 1 {
                assert(state_targets_ok(a.states[0], a.states.len() as int));
                if k < a.states[0].transitions.len() {
                    assert(s.transitions[k] == a.states[0].transitions[k]);
                }
            } else if i == other_start - 1 {
                assert(a.states[i] == spec_accept_state());
            } else if i < other_start {
                assert(s == a.states[i]);
                assert(state_targets_ok(a.states[i], a.states.len() as int));
            } else if i < new_accept {
                let bs = b.states[i - other_start];
                assert(state_targets_ok(bs, b.states.len() as int));
                if i == new_accept - 1 {
                    assert(bs == spec_accept_state());
                } else {
                    assert(s == spec_shift_state(bs, other_start as int));
                    assert(s.transitions[k] == spec_shift_transition(
                        bs.transitions[k],
                        other_start as int,
                    ));
                }
            }
        }
    }
    assert forall|i: int| 0 <= i < r.flags.len() implies words_ok(#[trigger] r.flags[i], r.groups) by {
        let base: Seq<u64> = if i < a.flags.len() {
            a.flags[i]
        } else {
            Seq::empty()
        };
        assert(words_ok(base, a.groups));
        if other_start <= i < other_start + b.flags.len() {
            lemma_shift_words_ok(b.flags[i - other_start], a.groups, b.groups);
            assert(r.flags[i] == base + spec_shift_words(b.flags[i - other_start], a.groups));
        } else {
            assert(r.flags[i] == base);
        }
    }
}

/// A freshly grouped well-formed machine is well-formed.
proof fn lemma_group_shape(m: SpecMachine, r: SpecMachine)
    requires
        wf(m),
        m.groups < 0xFFFF,
        r =~~= spec_group(m),
    ensures
        wf(r),
{
    let raised = m.flags.map(
        |_i: int, ws: Seq<u64>| ws.map(|_j: int, w: u64| spec_inc_group(w, 1)),
    );
    assert forall|i: int| 0 <= i < r.flags.len() implies words_ok(#[trigger] r.flags[i], r.groups) by {
        assert(words_ok(m.flags[i], m.groups));
        let rw = raised[i];
        assert forall|j: int| 0 <= j < r.flags[i].len() implies 1 <= spec_group_number(
            #[trigger] r.flags[i][j],
        ) <= r.groups by {
            if j < rw.len() {
                assert(rw[j] == spec_inc_group(m.flags[i][j], 1));
                lemma_inc_group(m.flags[i][j], 1);
            } else {
                assert(spec_group_number(1u64 << 48) == 1 && spec_group_number(
                    (1u64 << 48) | 0x2,
                ) == 1) by (bit_vector);
            }
        }
    }
}

/// The concatenation of two well-formed machines is well-formed.
proof fn lemma_cons_shape(a: SpecMachine, b: SpecMachine, r: SpecMachine)
    requires
        wf(a),
        wf(b),
        a.groups + b.groups <= 0xFFFF,
        r =~~= spec_cons(a, b),
    ensures
        wf(r),
{
    let shift = a.states.len() - 1;
    let n = r.states.len() as int;
    assert(n == shift + b.states.len());
    assert(r.states.last() == spec_shift_state(b.states.last(), shift as int));
    assert(spec_shift_state(b.states.last(), shift as int).transitions =~= seq![
        (Rule::Null, Next::Accept),
    ]);
    assert forall|i: int| 0 <= i < n implies state_targets_ok(#[trigger] r.states[i], n) by {
        if i < shift {
            assert(r.states[i] == a.states[i]);
            assert(state_targets_ok(a.states[i], a.states.len() as int));
            assert forall|k: int|
                0 <= k < r.states[i].transitions.len() implies match (#[trigger] r.states[i].transitions[k]).1 {
                Next::Target(t) => t < n,
                Next::Accept => true,
            } by {
                assert(a.states[i].transitions[k] == r.states[i].transitions[k]);
            }
        } else {
            let s = b.states[i - shift];
            assert(r.states[i] == spec_shift_state(s, shift as int));
            assert(state_targets_ok(s, b.states.len() as int));
            assert forall|k: int|
                0 <= k < r.states[i].transitions.len() implies match (#[trigger] r.states[i].transitions[k]).1 {
                Next::Target(t) => t < n,
                Next::Accept => true,
            } by {
                assert(r.states[i].transitions[k] == spec_shift_transition(
                    s.transitions[k],
                    shift as int,
                ));
            }
        }
    }
    assert forall|i: int| 0 <= i < r.flags.len() implies words_ok(#[trigger] r.flags[i], r.groups) by {
        let base: Seq<u64> = if i < a.flags.len() {
            a.flags[i]
        } else {
            Seq::empty()
        };
        assert(words_ok(base, a.groups));
        if shift <= i < shift + b.flags.len() {
            lemma_shift_words_ok(b.flags[i - shift], a.groups, b.groups);
            assert(words_ok(spec_shift_words(b.flags[i - shift], a.groups), (b.groups
                + a.groups) as u16));
            assert(r.flags[i] == base + spec_shift_words(b.flags[i - shift], a.groups));
        } else {
            assert(r.flags[i] == base);
        }
    }
}

} // verus!

//! The byte-level forerunner of the machine under `machine`: states carry
//! byte-range rules only, matching is anchored at the start of the input.
//! The Unicode-aware engine lives in the submodules.

pub mod features;
pub mod gmatcher;
pub mod machine;
pub mod simple_machines;

use vstd::prelude::*;

verus! {

use crate::new_accept::{
    Acceptor, Rule as ByteRule, Transition as ByteTransition, spec_baccept_match, spec_brun,
    lemma_brun_range, re_accept_match,
};

#[derive(Debug, PartialEq, Eq, Structural, Copy, Clone)]
pub enum Rule {
    Range(u8, u8),
    Null,
}

#[derive(Debug, PartialEq, Eq, Structural, Copy, Clone)]
pub enum Next {
    Target(usize),
    Accept,
}

pub type Transition = (Rule, Next);

/// A state of the byte machine: its ordered transitions.
#[derive(Debug, PartialEq, Eq, Clone)]
pub struct State {
    pub transitions: Vec<Transition>,
}

impl View for State {
    type V = Seq<Transition>;

    open spec fn view(&self) -> Seq<Transition> {
        self.transitions@
    }
}

impl State {
    pub fn from_transitions(transitions: Vec<Transition>) -> (r: State)
        ensures
            r@ == transitions@,
    {
        State { transitions }
    }

    pub fn push(&mut self, transition: Transition)
        ensures
            final(self)@ == old(self)@.push(transition),
    {
        self.transitions.push(transition)
    }
}

/// The byte machine: a flat table of states, state 0 the start, the last
/// state expected to hold the lone `(Null, Accept)` transition.
#[derive(Debug, PartialEq, Eq, Clone)]
pub struct GexMachine {
    pub states: Vec<State>,
}

impl View for GexMachine {
    type V = Seq<Seq<Transition>>;

    open spec fn view(&self) -> Seq<Seq<Transition>> {
        Seq::new(self.states@.len(), |i: int| self.states@[i]@)
    }
}

/// A transition with its target renumbered by `shift`.
pub open spec fn spec_bshift(t: Transition, shift: int) -> Transition {
    match t.1 {
        Next::Target(x) => (t.0, Next::Target((x + shift) as usize)),
        Next::Accept => t,
    }
}

/// What concatenation builds: the accept row dropped, the other machine
/// appended with its targets renumbered.
pub open spec fn spec_gex_cons(a: Seq<Seq<Transition>>, b: Seq<Seq<Transition>>) -> Seq<
    Seq<Transition>,
>
    recommends
        a.len() >= 1,
{
    a.drop_last() + b.map(
        |_i: int, row: Seq<Transition>|
            row.map(|_k: int, t: Transition| spec_bshift(t, a.len() - 1)),
    )
}

/// What alternation builds: a null edge from the start to the other machine,
/// both accepts redirected to the other machine's accept row.
pub open spec fn spec_gex_or(a: Seq<Seq<Transition>>, b: Seq<Seq<Transition>>) -> Seq<
    Seq<Transition>,
>
    recommends
        a.len() >= 1,
        a.last().len() >= 1,
{
    let other_start = a.len() as int;
    let new_accept = a.len() + b.len() - 1;
    let a2 = a.update(0, a[0].push((Rule::Null, Next::Target(other_start as usize))));
    let lastrow = a2.last();
    let a3 = a2.update(
        a.len() - 1,
        lastrow.update(lastrow.len() - 1, (lastrow.last().0, Next::Target(new_accept as usize))),
    );
    a3 + b.map(
        |_i: int, row: Seq<Transition>|
            row.map(|_k: int, t: Transition| spec_bshift(t, other_start)),
    )
}

/// Renumbers the targets of one state by `shift`.
#[verifier::loop_isolation(false)]
fn shifter(shift: usize, state: &State) -> (r: State)
    requires
        forall|k: int|
            0 <= k < state@.len() ==> match (#[trigger] state@[k]).1 {
                Next::Target(t) => t + shift <= usize::MAX,
                Next::Accept => true,
            },
    ensures
        r@ == state@.map(|_k: int, t: Transition| spec_bshift(t, shift as int)),
{
    let ghost g = |_k: int, t: Transition| spec_bshift(t, shift as int);
    let n = state.transitions.len();
    let mut transitions: Vec<Transition> = Vec::new();
    let mut k: usize = 0;
    while k < n
        invariant
            k <= n,
            n == state@.len(),
            transitions@ =~= state@.take(k as int).map(g),
        decreases n - k,
    {
        let (rule, next) = state.transitions[k];
        let moved: Transition = match next {
            Next::Target(x) => (rule, Next::Target(x + shift)),
            Next::Accept => (rule, next),
        };
        transitions.push(moved);
        proof {
            assert(state@.take(k + 1).map(g) =~= state@.take(k as int).map(g).push(
                g(k as int, state@[k as int]),
            ));
        }
        k = k + 1;
    }
    proof {
        assert(state@.take(n as int) =~= state@);
    }
    State { transitions }
}

/// The byte-machine table written as an acceptance table, rule for rule.
pub open spec fn spec_as_table(m: Seq<Seq<Transition>>) -> Seq<Seq<(ByteRule, ByteTransition)>> {
    m.map(
        |_i: int, row: Seq<Transition>|
            row.map(
                |_k: int, t: Transition|
                    (
                        match t.0 {
                            Rule::Range(lo, hi) => ByteRule::Range(lo, hi),
                            Rule::Null => ByteRule::Null,
                        },
                        match t.1 {
                            Next::Target(x) => ByteTransition::Target(x),
                            Next::Accept => ByteTransition::Accept,
                        },
                    ),
            ),
    )
}

impl GexMachine {
    /// A machine accepting exactly the empty string, with room for `cap`
    /// states.
    pub fn with_capacity(cap: usize) -> (r: GexMachine)
        ensures
            r@ =~~= seq![seq![(Rule::Null, Next::Accept)]],
    {
        let mut states: Vec<State> = Vec::with_capacity(cap);
        let mut t0: Vec<Transition> = Vec::new();
        t0.push((Rule::Null, Next::Accept));
        states.push(State { transitions: t0 });
        let r = GexMachine { states };
        proof {
            assert(r@ =~~= seq![seq![(Rule::Null, Next::Accept)]]);
        }
        r
    }

    pub fn default() -> (r: GexMachine)
        ensures
            r@ =~~= seq![seq![(Rule::Null, Next::Accept)]],
    {
        GexMachine::with_capacity(1_000_000)
    }

    /// Concatenates another machine onto this one.
    #[verifier::loop_isolation(false)]
    pub fn cons(self, other: GexMachine) -> (r: GexMachine)
        requires
            self@.len() >= 1,
            self@.len() + other@.len() <= usize::MAX,
            forall|i: int, k: int|
                0 <= i < other@.len() && 0 <= k < other@[i].len()
                    ==> match (#[trigger] other@[i][k]).1 {
                    Next::Target(x) => x + self@.len() <= usize::MAX,
                    Next::Accept => true,
                },
        ensures
            r@ =~~= spec_gex_cons(self@, other@),
    {
        let mut this = self;
        let ghost a = this@;
        let ghost b = other@;
        let old_accept_idx = this.states.len() - 1;
        this.states.pop();
        let orows = other.states;
        let bn = orows.len();
        let ghost f = |_i: int, row: Seq<Transition>|
            row.map(|_k: int, t: Transition| spec_bshift(t, old_accept_idx as int));
        let mut j: usize = 0;
        while j < bn
            invariant
                j <= bn,
                bn == b.len(),
                this.states@.len() == a.len() - 1 + j,
                Seq::new(orows@.len(), |i: int| orows@[i]@) =~~= b,
                Seq::new(this.states@.len(), |i: int| this.states@[i]@) =~~= a.drop_last()
                    + b.take(j as int).map(f),
            decreases bn - j,
        {
            proof {
                assert(orows@[j as int]@ == b[j as int]);
            }
            let ghost prev = this.states@;
            let moved = shifter(old_accept_idx, &orows[j]);
            this.states.push(moved);
            proof {
                assert(b.take(j + 1).map(f) =~= b.take(j as int).map(f).push(f(j as int, b[j as int])));
                let lhs = Seq::new(this.states@.len(), |i: int| this.states@[i]@);
                let rhs = a.drop_last() + b.take(j + 1).map(f);
                assert forall|i: int| 0 <= i < lhs.len() implies lhs[i] =~= rhs[i] by {
                    if i < prev.len() {
                        assert(this.states@[i] == prev[i]);
                        assert(Seq::new(prev.len(), |q: int| prev[q]@)[i] == prev[i]@);
                    } else {
                        assert(this.states@[i] == moved);
                    }
                }
                assert(lhs =~~= rhs);
            }
            j = j + 1;
        }
        proof {
            assert(b.take(bn as int) =~= b);
        }
        this
    }

    /// Alternates this machine with another: this one is the left branch.
    #[verifier::loop_isolation(false)]
    pub fn or(self, other: GexMachine) -> (r: GexMachine)
        requires
            self@.len() >= 1,
            self@.last().len() >= 1,
            self@.len() + other@.len() <= usize::MAX,
            forall|i: int, k: int|
                0 <= i < other@.len() && 0 <= k < other@[i].len()
                    ==> match (#[trigger] other@[i][k]).1 {
                    Next::Target(x) => x + self@.len() <= usize::MAX,
                    Next::Accept => true,
                },
        ensures
            r@ =~~= spec_gex_or(self@, other@),
    {
        let mut this = self;
        let ghost a = this@;
        let ghost b = other@;
        let other_start = this.states.len();
        this.states[0].push((Rule::Null, Next::Target(other_start)));
        let li = this.states.len() - 1;
        let new_accept_idx = this.states.len() + other.states.len() - 1;
        let lt = {
            let lastrow = &this.states[li];
            lastrow.transitions.len()
        };
        let (lrule, _) = this.states[li].transitions[lt - 1];
        let fixed = {
            let lastrow = &this.states[li];
            let mut copy: Vec<Transition> = Vec::new();
            let mut k: usize = 0;
            while k < lt - 1
                invariant
                    k <= lt - 1,
                    lt == lastrow@.len(),
                    lastrow@ == this@[li as int],
                    copy@ =~= lastrow@.take(k as int),
                decreases lt - k,
            {
                copy.push(lastrow.transitions[k]);
                proof {
                    assert(lastrow@.take(k + 1).drop_last() =~= lastrow@.take(k as int));
                    assert(copy@ =~= lastrow@.take(k + 1));
                }
                k = k + 1;
            }
            copy.push((lrule, Next::Target(new_accept_idx)));
            proof {
                let lr = this@[li as int];
                assert(copy@ =~= lr.update(lr.len() - 1, (lr.last().0, Next::Target(
                    new_accept_idx,
                ))));
            }
            State { transitions: copy }
        };
        let ghost before_fix = Seq::new(this.states@.len(), |i: int| this.states@[i]@);
        this.states[li] = fixed;
        let ghost a3 = {
            let a2 = a.update(0, a[0].push((Rule::Null, Next::Target(other_start as usize))));
            let lastrow = a2.last();
            a2.update(
                a.len() - 1,
                lastrow.update(
                    lastrow.len() - 1,
                    (lastrow.last().0, Next::Target((a.len() + b.len() - 1) as usize)),
                ),
            )
        };
        proof {
            assert(Seq::new(this.states@.len(), |i: int| this.states@[i]@) =~~= a3);
        }
        let orows = other.states;
        let bn = orows.len();
        let ghost f = |_i: int, row: Seq<Transition>|
            row.map(|_k: int, t: Transition| spec_bshift(t, other_start as int));
        let mut j: usize = 0;
        while j < bn
            invariant
                j <= bn,
                bn == b.len(),
                this.states@.len() == a.len() + j,
                Seq::new(orows@.len(), |i: int| orows@[i]@) =~~= b,
                Seq::new(this.states@.len(), |i: int| this.states@[i]@) =~~= a3 + b.take(
                    j as int,
                ).map(f),
            decreases bn - j,
        {
            proof {
                assert(orows@[j as int]@ == b[j as int]);
            }
            let ghost prev = this.states@;
            let moved = shifter(other_start, &orows[j]);
            this.states.push(moved);
            proof {
                assert(b.take(j + 1).map(f) =~= b.take(j as int).map(f).push(f(j as int, b[j as int])));
                let lhs = Seq::new(this.states@.len(), |i: int| this.states@[i]@);
                let rhs = a3 + b.take(j + 1).map(f);
                assert forall|i: int| 0 <= i < lhs.len() implies lhs[i] =~= rhs[i] by {
                    if i < prev.len() {
                        assert(this.states@[i] == prev[i]);
                        assert(Seq::new(prev.len(), |q: int| prev[q]@)[i] == prev[i]@);
                    } else {
                        assert(this.states@[i] == moved);
                    }
                }
                assert(lhs =~~= rhs);
            }
            j = j + 1;
        }
        proof {
            assert(b.take(bn as int) =~= b);
        }
        this
    }

    /// Searches the input anchored at byte 0: the candidate match ends where
    /// acceptance was last observed at a consumed byte.
    #[verifier::loop_isolation(false)]
    pub fn find(&self, input: &[u8]) -> (r: Option<Match>)
        ensures
            match r {
                Some(mm) => spec_brun(spec_as_table(self@), input@) == Some(mm.end as int)
                    && mm.start == 0 && mm.end <= input@.len(),
                None => spec_brun(spec_as_table(self@), input@) is None,
            },
    {
        let n = self.states.len();
        let mut rows: Vec<Vec<(ByteRule, ByteTransition)>> = Vec::new();
        let mut i: usize = 0;
        while i < n
            invariant
                i <= n,
                n == self@.len(),
                Seq::new(rows@.len(), |q: int| rows@[q]@) =~= spec_as_table(self@).take(i as int),
            decreases n - i,
        {
            let st = &self.states[i];
            proof {
                assert(st@ == self@[i as int]);
            }
            let rn = st.transitions.len();
            let ghost g = |_k: int, t: Transition|
                (
                    match t.0 {
                        Rule::Range(lo, hi) => ByteRule::Range(lo, hi),
                        Rule::Null => ByteRule::Null,
                    },
                    match t.1 {
                        Next::Target(x) => ByteTransition::Target(x),
                        Next::Accept => ByteTransition::Accept,
                    },
                );
            let mut row: Vec<(ByteRule, ByteTransition)> = Vec::new();
            let mut k: usize = 0;
            while k < rn
                invariant
                    k <= rn,
                    rn == st@.len(),
                    st@ == self@[i as int],
                    row@ =~= st@.take(k as int).map(g),
                decreases rn - k,
            {
                let (rule, next) = st.transitions[k];
                let brule = match rule {
                    Rule::Range(lo, hi) => ByteRule::Range(lo, hi),
                    Rule::Null => ByteRule::Null,
                };
                let btr = match next {
                    Next::Target(x) => ByteTransition::Target(x),
                    Next::Accept => ByteTransition::Accept,
                };
                row.push((brule, btr));
                proof {
                    assert(st@.take(k + 1).map(g) =~= st@.take(k as int).map(g).push(
                        g(k as int, st@[k as int]),
                    ));
                }
                k = k + 1;
            }
            proof {
                assert(st@.take(rn as int) =~= st@);
            }
            let ghost prev = rows@;
            rows.push(row);
            proof {
                let lhs = Seq::new(rows@.len(), |q: int| rows@[q]@);
                let rhs = spec_as_table(self@).take(i + 1);
                assert forall|q: int| 0 <= q < lhs.len() implies lhs[q] =~= rhs[q] by {
                    if q < prev.len() {
                        assert(rows@[q] == prev[q]);
                        assert(Seq::new(prev.len(), |w: int| prev[w]@)[q] == prev[q]@);
                    } else {
                        assert(rows@[q]@ == row@);
                        assert(rhs[q] == spec_as_table(self@)[i as int]);
                    }
                }
                assert(lhs =~= rhs);
            }
            i = i + 1;
        }
        let acceptor = Acceptor { transitions: rows };
        let nb = input.len();
        proof {
            assert(input@.len() == nb as int);
            assert(spec_as_table(self@).take(n as int) =~= spec_as_table(self@));
            assert(acceptor@ =~~= spec_as_table(self@));
            lemma_brun_range(spec_as_table(self@), input@);
        }
        match re_accept_match(&acceptor, input) {
            Some(mm) => Some(Match { start: mm.start, end: mm.end }),
            None => None,
        }
    }
}

/// A byte span `[start, end)` reported by `find`.
#[derive(Debug, PartialEq, Eq, Structural, Copy, Clone)]
pub struct Match {
    pub start: usize,
    pub end: usize,
}

} // verus!

//! A byte-level acceptance engine: each state is a list of predicate rules
//! over single bytes, with null transitions collapsed between steps.

use vstd::prelude::*;

verus! {

#[derive(Debug, PartialEq, Eq, Structural, Copy, Clone)]
pub enum Rule {
    Range(u8, u8),
    Null,
}

#[derive(Debug, PartialEq, Eq, Structural, Copy, Clone)]
pub enum Transition {
    Target(usize),
    Accept,
}

/// The automaton: state `i` owns row `i` of the transition table.
#[derive(Debug, PartialEq, Eq)]
pub struct Acceptor {
    pub transitions: Vec<Vec<(Rule, Transition)>>,
}

impl View for Acceptor {
    type V = Seq<Seq<(Rule, Transition)>>;

    open spec fn view(&self) -> Seq<Seq<(Rule, Transition)>> {
        Seq::new(self.transitions@.len(), |i: int| self.transitions@[i]@)
    }
}

/// The table after appending `other`, renumbered past the dropped accept row.
pub open spec fn spec_acceptor_cons(
    a: Seq<Seq<(Rule, Transition)>>,
    b: Seq<Seq<(Rule, Transition)>>,
) -> Seq<Seq<(Rule, Transition)>>
    recommends
        a.len() >= 1,
{
    let shift = a.len() - 1;
    a.drop_last() + b.map(
        |_i: int, row: Seq<(Rule, Transition)>|
            row.map(
                |_k: int, t: (Rule, Transition)|
                    match t.1 {
                        Transition::Target(x) => (t.0, Transition::Target((x + shift) as usize)),
                        Transition::Accept => t,
                    },
            ),
    )
}

impl Acceptor {
    /// An acceptor of the empty string, with room for `cap` rows.
    pub fn with_capacity(cap: usize) -> (r: Acceptor)
        ensures
            r@ =~~= seq![seq![(Rule::Null, Transition::Accept)]],
    {
        let mut transitions: Vec<Vec<(Rule, Transition)>> = Vec::with_capacity(cap);
        let mut row: Vec<(Rule, Transition)> = Vec::new();
        row.push((Rule::Null, Transition::Accept));
        transitions.push(row);
        let r = Acceptor { transitions };
        proof {
            assert(r@ =~~= seq![seq![(Rule::Null, Transition::Accept)]]);
        }
        r
    }

    pub fn default() -> (r: Acceptor)
        ensures
            r@ =~~= seq![seq![(Rule::Null, Transition::Accept)]],
    {
        Acceptor::with_capacity(1_000_000)
    }

    /// Appends `other`, renumbering its targets past this acceptor's dropped
    /// accept row.
    #[verifier::loop_isolation(false)]
    pub fn cons(&mut self, other: Acceptor)
        requires
            old(self)@.len() >= 1,
            old(self)@.len() + other@.len() <= usize::MAX,
            forall|i: int, k: int|
                0 <= i < other@.len() && 0 <= k < other@[i].len()
                    ==> match (#[trigger] other@[i][k]).1 {
                    Transition::Target(x) => x + old(self)@.len() <= usize::MAX,
                    Transition::Accept => true,
                },
        ensures
            final(self)@ =~~= spec_acceptor_cons(old(self)@, other@),
    {
        let ghost a = self@;
        let ghost b = other@;
        let old_accept_idx = self.transitions.len() - 1;
        self.transitions.pop();
        let orows = other.transitions;
        let bn = orows.len();
        let ghost f = |_i: int, row: Seq<(Rule, Transition)>|
            row.map(
                |_k: int, t: (Rule, Transition)|
                    match t.1 {
                        Transition::Target(x) => (
                            t.0,
                            Transition::Target((x + old_accept_idx) as usize),
                        ),
                        Transition::Accept => t,
                    },
            );
        let mut j: usize = 0;
        while j < bn
            invariant
                j <= bn,
                bn == b.len(),
                self.transitions@.len() == a.len() - 1 + j,
                Seq::new(orows@.len(), |i: int| orows@[i]@) =~~= b,
                Seq::new(self.transitions@.len(), |i: int| self.transitions@[i]@) =~~= a.drop_last()
                    + b.take(j as int).map(f),
            decreases bn - j,
        {
            let row = &orows[j];
            proof {
                assert(row@ == b[j as int]);
            }
            let rn = row.len();
            let mut shifted: Vec<(Rule, Transition)> = Vec::new();
            let ghost g = |_k: int, t: (Rule, Transition)|
                match t.1 {
                    Transition::Target(x) => (t.0, Transition::Target((x + old_accept_idx) as usize)),
                    Transition::Accept => t,
                };
            let mut k: usize = 0;
            while k < rn
                invariant
                    k <= rn,
                    rn == row@.len(),
                    row@ == b[j as int],
                    shifted@ =~= row@.take(k as int).map(g),
                decreases rn - k,
            {
                let (rule, tr) = row[k];
                let moved: (Rule, Transition) = match tr {
                    Transition::Target(x) => (rule, Transition::Target(x + old_accept_idx)),
                    Transition::Accept => (rule, tr),
                };
                shifted.push(moved);
                proof {
                    assert(row@.take(k + 1).map(g) =~= row@.take(k as int).map(g).push(
                        g(k as int, row@[k as int]),
                    ));
                }
                k = k + 1;
            }
            proof {
                assert(row@.take(rn as int) =~= row@);
                assert(shifted@ =~= f(j as int, b[j as int]));
            }
            let ghost prev = self.transitions@;
            self.transitions.push(shifted);
            proof {
                let lhs = Seq::new(self.transitions@.len(), |i: int| self.transitions@[i]@);
                let rhs = a.drop_last() + b.take(j + 1).map(f);
                assert(b.take(j + 1).map(f) =~= b.take(j as int).map(f).push(f(j as int, b[j as int])));
                assert forall|i: int| 0 <= i < lhs.len() implies lhs[i] =~= rhs[i] by {
                    if i < prev.len() {
                        assert(self.transitions@[i] == prev[i]);
                        assert(Seq::new(prev.len(), |q: int| prev[q]@)[i] == prev[i]@);
                    } else {
                        assert(self.transitions@[i]@ == shifted@);
                    }
                }
                assert(lhs =~~= rhs);
            }
            j = j + 1;
        }
        proof {
            assert(b.take(bn as int) =~= b);
        }
    }
}

/// A byte span `[start, end)` reported by the acceptance functions.
#[derive(Debug, PartialEq, Eq, Structural, Copy, Clone)]
pub struct Match {
    pub start: usize,
    pub end: usize,
}

/// Whether a rule lets the byte through. Null always fails here: it is
/// collapsed separately without consuming the byte.
pub open spec fn spec_symbol_match(rule: Rule, given: u8) -> bool {
    match rule {
        Rule::Range(start, end) => start <= given && given <= end,
        Rule::Null => false,
    }
}

fn re_internal_symbol_match(rule: &Rule, given: &u8) -> (r: bool)
    ensures
        r == spec_symbol_match(*rule, *given),
{
    match rule {
        Rule::Range(start, end) => start <= given && given <= end,
        Rule::Null => false,
    }
}

/// Among the first `kk` rules of `row`, a null edge to `t`.
pub open spec fn brow_null_to(row: Seq<(Rule, Transition)>, kk: int, t: int) -> bool {
    exists|k: int|
        0 <= k < kk && k < row.len() && #[trigger] row[k] == (
            Rule::Null,
            Transition::Target(t as usize),
        )
}

/// Among the first `kk` rules of `row`, a null accept edge.
pub open spec fn brow_null_accept(row: Seq<(Rule, Transition)>, kk: int) -> bool {
    exists|k: int|
        0 <= k < kk && k < row.len() && #[trigger] row[k] == (Rule::Null, Transition::Accept)
}

/// One expansion of the byte-level null closure.
pub open spec fn bnull_step(table: Seq<Seq<(Rule, Transition)>>, mask: Seq<bool>) -> Seq<bool> {
    Seq::new(
        mask.len(),
        |t: int|
            mask[t] || (exists|u: int|
                0 <= u < mask.len() && mask[u] && u < table.len() && brow_null_to(
                    #[trigger] table[u],
                    table[u].len() as int,
                    t,
                )),
    )
}

pub open spec fn bnull_closure_n(
    table: Seq<Seq<(Rule, Transition)>>,
    mask: Seq<bool>,
    fuel: nat,
) -> Seq<bool>
    decreases fuel,
{
    if fuel == 0 {
        mask
    } else {
        bnull_closure_n(table, bnull_step(table, mask), (fuel - 1) as nat)
    }
}

pub open spec fn bnull_closure(table: Seq<Seq<(Rule, Transition)>>, mask: Seq<bool>) -> Seq<bool> {
    bnull_closure_n(table, mask, mask.len())
}

pub open spec fn bmask_accepts(table: Seq<Seq<(Rule, Transition)>>, mask: Seq<bool>) -> bool {
    exists|u: int|
        0 <= u < mask.len() && mask[u] && u < table.len() && brow_null_accept(
            #[trigger] table[u],
            table[u].len() as int,
        )
}

/// Among the first `kk` rules, one that matches `c` and leads to `t`.
pub open spec fn brow_match_to(row: Seq<(Rule, Transition)>, c: u8, kk: int, t: int) -> bool {
    exists|k: int|
        0 <= k < kk && k < row.len() && spec_symbol_match((#[trigger] row[k]).0, c) && row[k].1
            == Transition::Target(t as usize)
}

pub open spec fn brow_match_accept(row: Seq<(Rule, Transition)>, c: u8, kk: int) -> bool {
    exists|k: int|
        0 <= k < kk && k < row.len() && spec_symbol_match((#[trigger] row[k]).0, c) && row[k].1
            == Transition::Accept
}

pub open spec fn brow_match_any(row: Seq<(Rule, Transition)>, c: u8, kk: int) -> bool {
    exists|k: int| 0 <= k < kk && k < row.len() && spec_symbol_match((#[trigger] row[k]).0, c)
}

pub open spec fn bstep_reached(
    table: Seq<Seq<(Rule, Transition)>>,
    mask: Seq<bool>,
    c: u8,
    uu: int,
    t: int,
) -> bool {
    exists|u: int|
        0 <= u < uu && u < mask.len() && mask[u] && u < table.len() && brow_match_to(
            #[trigger] table[u],
            c,
            table[u].len() as int,
            t,
        )
}

pub open spec fn bstep_accept(
    table: Seq<Seq<(Rule, Transition)>>,
    mask: Seq<bool>,
    c: u8,
    uu: int,
) -> bool {
    exists|u: int|
        0 <= u < uu && u < mask.len() && mask[u] && u < table.len() && brow_match_accept(
            #[trigger] table[u],
            c,
            table[u].len() as int,
        )
}

pub open spec fn bstep_consumed(
    table: Seq<Seq<(Rule, Transition)>>,
    mask: Seq<bool>,
    c: u8,
    uu: int,
) -> bool {
    exists|u: int|
        0 <= u < uu && u < mask.len() && mask[u] && u < table.len() && brow_match_any(
            #[trigger] table[u],
            c,
            table[u].len() as int,
        )
}

pub open spec fn bchar_step(table: Seq<Seq<(Rule, Transition)>>, mask: Seq<bool>, c: u8) -> Seq<
    bool,
> {
    Seq::new(mask.len(), |t: int| bstep_reached(table, mask, c, mask.len() as int, t))
}

pub open spec fn bmask_any(mask: Seq<bool>) -> bool {
    exists|t: int| 0 <= t < mask.len() && mask[t]
}

/// The anchored byte run from index `i` on: the candidate end advances to
/// `i + 1` whenever a byte was consumed while acceptance held; acceptance is
/// remembered once seen.
pub open spec fn spec_brun_from(
    table: Seq<Seq<(Rule, Transition)>>,
    bytes: Seq<u8>,
    i: int,
    mask: Seq<bool>,
    accepted: bool,
    end: Option<int>,
) -> Option<int>
    decreases bytes.len() - i,
{
    if i < 0 || i >= bytes.len() {
        end
    } else {
        let c = bytes[i];
        let nm0 = bchar_step(table, mask, c);
        let acc1 = bstep_accept(table, mask, c, mask.len() as int);
        let cons = bstep_consumed(table, mask, c, mask.len() as int);
        let cl = bnull_closure(table, nm0);
        let acc2 = bmask_accepts(table, cl);
        let acc = accepted || acc1 || acc2;
        let nend = if cons && acc {
            Some(i + 1)
        } else {
            end
        };
        if !bmask_any(cl) {
            nend
        } else {
            spec_brun_from(table, bytes, i + 1, cl, acc, nend)
        }
    }
}

/// What one anchored run over `bytes` yields: the end of the last acceptance
/// seen at a consumed byte, if any.
pub open spec fn spec_brun(table: Seq<Seq<(Rule, Transition)>>, bytes: Seq<u8>) -> Option<int> {
    let mask0 = Seq::new(table.len(), |t: int| t == 0);
    let cl = bnull_closure(table, mask0);
    let acc0 = bmask_accepts(table, cl);
    spec_brun_from(table, bytes, 0, cl, acc0, None)
}

/// What `re_accept_match` yields: the anchored match from byte 0, if any.
pub open spec fn spec_baccept_match(table: Seq<Seq<(Rule, Transition)>>, bytes: Seq<u8>) -> Option<
    Match,
> {
    match spec_brun(table, bytes) {
        Some(e) => Some(Match { start: 0usize, end: e as usize }),
        None => None,
    }
}

/// What `re_accept_search` yields: the anchored match of the first start
/// offset that matches, byte by byte.
pub open spec fn spec_baccept_search_from(
    table: Seq<Seq<(Rule, Transition)>>,
    bytes: Seq<u8>,
    ci: int,
) -> Option<Match>
    decreases bytes.len() - ci,
{
    if ci < 0 || ci >= bytes.len() {
        None
    } else {
        match spec_brun(table, bytes.skip(ci)) {
            Some(e) => Some(Match { start: ci as usize, end: (ci + e) as usize }),
            None => spec_baccept_search_from(table, bytes, ci + 1),
        }
    }
}

pub open spec fn spec_baccept_search(table: Seq<Seq<(Rule, Transition)>>, bytes: Seq<u8>) -> Option<
    Match,
> {
    spec_baccept_search_from(table, bytes, 0)
}

/// What `re_accept_find_all` yields: the non-overlapping matches in order,
/// each search resuming at the end of the last match.
pub open spec fn spec_baccept_find_all(
    table: Seq<Seq<(Rule, Transition)>>,
    bytes: Seq<u8>,
    ci: int,
) -> Seq<Match>
    decreases bytes.len() + 1 - ci,
{
    if ci < 0 || ci > bytes.len() {
        Seq::empty()
    } else {
        match spec_baccept_search(table, bytes.skip(ci)) {
            Some(mm) => {
                let shifted = Match { start: (mm.start + ci) as usize, end: (mm.end + ci) as usize };
                let raw = ci + mm.end;
                let next = if raw <= ci {
                    ci + 1
                } else if raw > bytes.len() + 1 {
                    bytes.len() as int + 1
                } else {
                    raw
                };
                seq![shifted] + spec_baccept_find_all(table, bytes, next)
            },
            None => Seq::empty(),
        }
    }
}

#[verifier::loop_isolation(false)]
fn bmask_any_exec(mask: &Vec<bool>) -> (r: bool)
    ensures
        r == bmask_any(mask@),
{
    let n = mask.len();
    let mut t: usize = 0;
    let mut found = false;
    while t < n
        invariant
            t <= n,
            found == exists|q: int| 0 <= q < t && mask@[q],
        decreases n - t,
    {
        if mask[t] {
            found = true;
        }
        proof {
            if !found {
                if exists|q: int| 0 <= q < t + 1 && mask@[q] {
                    let q = choose|q: int| 0 <= q < t + 1 && mask@[q];
                    assert(q == t);
                    assert(false);
                }
            }
        }
        t = t + 1;
    }
    found
}

/// One exec expansion of the byte-level null closure.
#[verifier::loop_isolation(false)]
fn bnull_step_exec(acceptor: &Acceptor, mask: &Vec<bool>) -> (r: Vec<bool>)
    requires
        mask@.len() == acceptor@.len(),
    ensures
        r@ == bnull_step(acceptor@, mask@),
{
    let n = acceptor.transitions.len();
    let mut out: Vec<bool> = Vec::new();
    let mut t: usize = 0;
    while t < n
        invariant
            t <= n,
            out@.len() == t,
            forall|q: int| 0 <= q < t ==> out@[q] == mask@[q],
        decreases n - t,
    {
        out.push(mask[t]);
        t = t + 1;
    }
    let mut u: usize = 0;
    while u < n
        invariant
            u <= n,
            out@.len() == n,
            forall|q: int|
                0 <= q < n ==> out@[q] == (mask@[q] || (exists|u2: int|
                    0 <= u2 < u && mask@[u2] && brow_null_to(
                        #[trigger] acceptor@[u2],
                        acceptor@[u2].len() as int,
                        q,
                    ))),
        decreases n - u,
    {
        if mask[u] {
            let row = &acceptor.transitions[u];
            proof {
                assert(row@ == acceptor@[u as int]);
            }
            let kn = row.len();
            let mut k: usize = 0;
            while k < kn
                invariant
                    k <= kn,
                    kn == row@.len(),
                    row@ == acceptor@[u as int],
                    out@.len() == n,
                    forall|q: int|
                        0 <= q < n ==> out@[q] == (mask@[q] || (exists|u2: int|
                            0 <= u2 < u && mask@[u2] && brow_null_to(
                                #[trigger] acceptor@[u2],
                                acceptor@[u2].len() as int,
                                q,
                            )) || brow_null_to(acceptor@[u as int], k as int, q)),
                decreases kn - k,
            {
                let (rule, tr) = row[k];
                let ghost pre = out@;
                if matches!(rule, Rule::Null) {
                    match tr {
                        Transition::Target(tt) => {
                            if tt < n {
                                out[tt] = true;
                            }
                        },
                        Transition::Accept => {},
                    }
                }
                proof {
                    assert forall|q: int| 0 <= q < n implies out@[q] == (mask@[q] || (exists|
                        u2: int,
                    |
                        0 <= u2 < u && mask@[u2] && brow_null_to(
                            #[trigger] acceptor@[u2],
                            acceptor@[u2].len() as int,
                            q,
                        )) || brow_null_to(acceptor@[u as int], k + 1, q)) by {
                        let s = acceptor@[u as int];
                        if out@[q] {
                            if !pre[q] {
                                assert(s[k as int] == (Rule::Null, Transition::Target(q as usize)));
                                assert(brow_null_to(s, k + 1, q));
                            }
                        } else {
                            assert(!brow_null_to(s, k as int, q));
                            if brow_null_to(s, k + 1, q) {
                                let kk = choose|kk: int|
                                    0 <= kk < k + 1 && kk < s.len() && #[trigger] s[kk] == (
                                        Rule::Null,
                                        Transition::Target(q as usize),
                                    );
                                assert(kk == k);
                                assert(false);
                            }
                        }
                    }
                }
                k = k + 1;
            }
        }
        u = u + 1;
    }
    proof {
        assert(out@ =~= bnull_step(acceptor@, mask@));
    }
    out
}

/// Follows null transitions until the set of states is closed, and reports
/// whether a null accept edge was seen anywhere in the closed set.
#[verifier::loop_isolation(false)]
fn re_internal_follow_null_transitions(acceptor: &Acceptor, curr_states: Vec<bool>) -> (r: (
    Vec<bool>,
    bool,
))
    requires
        curr_states@.len() == acceptor@.len(),
    ensures
        r.0@ == bnull_closure(acceptor@, curr_states@),
        r.0@.len() == curr_states@.len(),
        r.1 == bmask_accepts(acceptor@, bnull_closure(acceptor@, curr_states@)),
{
    let ghost m0 = curr_states@;
    let n = acceptor.transitions.len();
    let mut cur = curr_states;
    let mut it: usize = 0;
    while it < n
        invariant
            it <= n,
            cur@.len() == n,
            bnull_closure_n(acceptor@, m0, m0.len()) == bnull_closure_n(
                acceptor@,
                cur@,
                (n - it) as nat,
            ),
        decreases n - it,
    {
        let next = bnull_step_exec(acceptor, &cur);
        proof {
            assert(bnull_closure_n(acceptor@, cur@, (n - it) as nat) == bnull_closure_n(
                acceptor@,
                bnull_step(acceptor@, cur@),
                (n - it - 1) as nat,
            ));
        }
        cur = next;
        it = it + 1;
    }
    let mut u: usize = 0;
    let mut accept = false;
    while u < n
        invariant
            u <= n,
            cur@.len() == n,
            accept == exists|u2: int|
                0 <= u2 < u && cur@[u2] && brow_null_accept(
                    #[trigger] acceptor@[u2],
                    acceptor@[u2].len() as int,
                ),
        decreases n - u,
    {
        if cur[u] {
            let row = &acceptor.transitions[u];
            proof {
                assert(row@ == acceptor@[u as int]);
            }
            let kn = row.len();
            let mut k: usize = 0;
            let mut found = false;
            while k < kn
                invariant
                    k <= kn,
                    kn == row@.len(),
                    row@ == acceptor@[u as int],
                    found == brow_null_accept(acceptor@[u as int], k as int),
                decreases kn - k,
            {
                let (rule, tr) = row[k];
                if matches!(rule, Rule::Null) && matches!(tr, Transition::Accept) {
                    found = true;
                    proof {
                        assert(acceptor@[u as int][k as int] == (Rule::Null, Transition::Accept));
                    }
                }
                proof {
                    if !found {
                        if brow_null_accept(acceptor@[u as int], k + 1) {
                            let kk = choose|kk: int|
                                0 <= kk < k + 1 && kk < acceptor@[u as int].len()
                                    && #[trigger] acceptor@[u as int][kk] == (
                                    Rule::Null,
                                    Transition::Accept,
                                );
                            assert(kk == k);
                            assert(false);
                        }
                    }
                }
                k = k + 1;
            }
            if found {
                accept = true;
            }
        }
        proof {
            if !accept {
                if exists|u2: int|
                    0 <= u2 < u + 1 && cur@[u2] && brow_null_accept(
                        #[trigger] acceptor@[u2],
                        acceptor@[u2].len() as int,
                    ) {
                    let u2 = choose|u2: int|
                        0 <= u2 < u + 1 && cur@[u2] && brow_null_accept(
                            #[trigger] acceptor@[u2],
                            acceptor@[u2].len() as int,
                        );
                    assert(u2 == u);
                    assert(false);
                }
            }
        }
        u = u + 1;
    }
    (cur, accept)
}

/// Consumes one byte from every masked state, then closes over nulls.
#[verifier::loop_isolation(false)]
fn re_internal_transition(
    acceptor: &Acceptor,
    curr_states: &Vec<bool>,
    input_char: &u8,
    accepted: bool,
) -> (r: (Vec<bool>, bool, bool))
    requires
        curr_states@.len() == acceptor@.len(),
    ensures
        ({
            let c = *input_char;
            let nm0 = bchar_step(acceptor@, curr_states@, c);
            let cl = bnull_closure(acceptor@, nm0);
            &&& r.0@ == cl
            &&& r.0@.len() == curr_states@.len()
            &&& r.1 == (accepted || bstep_accept(acceptor@, curr_states@, c, curr_states@.len() as int)
                || bmask_accepts(acceptor@, cl))
            &&& r.2 == bstep_consumed(acceptor@, curr_states@, c, curr_states@.len() as int)
        }),
{
    let c = *input_char;
    let n = acceptor.transitions.len();
    let mut new_states: Vec<bool> = Vec::new();
    let mut t0: usize = 0;
    while t0 < n
        invariant
            t0 <= n,
            new_states@.len() == t0,
            forall|q: int| 0 <= q < t0 ==> !new_states@[q],
        decreases n - t0,
    {
        new_states.push(false);
        t0 = t0 + 1;
    }
    let mut consumed_a_character = false;
    let mut found_accept = false;
    let mut u: usize = 0;
    while u < n
        invariant
            u <= n,
            new_states@.len() == n,
            n == acceptor@.len(),
            curr_states@.len() == n,
            forall|q: int|
                0 <= q < n ==> new_states@[q] == bstep_reached(
                    acceptor@,
                    curr_states@,
                    c,
                    u as int,
                    q,
                ),
            found_accept == bstep_accept(acceptor@, curr_states@, c, u as int),
            consumed_a_character == bstep_consumed(acceptor@, curr_states@, c, u as int),
        decreases n - u,
    {
        if curr_states[u] {
            let row = &acceptor.transitions[u];
            proof {
                assert(row@ == acceptor@[u as int]);
            }
            let kn = row.len();
            let mut k: usize = 0;
            while k < kn
                invariant
                    k <= kn,
                    kn == row@.len(),
                    row@ == acceptor@[u as int],
                    curr_states@[u as int],
                    u < n,
                    new_states@.len() == n,
                    forall|q: int|
                        0 <= q < n ==> new_states@[q] == (bstep_reached(
                            acceptor@,
                            curr_states@,
                            c,
                            u as int,
                            q,
                        ) || brow_match_to(row@, c, k as int, q)),
                    found_accept == (bstep_accept(acceptor@, curr_states@, c, u as int)
                        || brow_match_accept(row@, c, k as int)),
                    consumed_a_character == (bstep_consumed(acceptor@, curr_states@, c, u as int)
                        || brow_match_any(row@, c, k as int)),
                decreases kn - k,
            {
                let (rule, tr) = row[k];
                let ghost pre = new_states@;
                if re_internal_symbol_match(&rule, &c) {
                    consumed_a_character = true;
                    match tr {
                        Transition::Target(tt) => {
                            if tt < n {
                                new_states[tt] = true;
                            }
                        },
                        Transition::Accept => {
                            found_accept = true;
                        },
                    }
                    proof {
                        assert(spec_symbol_match(row@[k as int].0, c));
                        assert(brow_match_any(row@, c, k + 1));
                    }
                }
                proof {
                    assert forall|q: int| 0 <= q < n implies new_states@[q] == (bstep_reached(
                        acceptor@,
                        curr_states@,
                        c,
                        u as int,
                        q,
                    ) || brow_match_to(row@, c, k + 1, q)) by {
                        if new_states@[q] {
                            if !pre[q] {
                                assert(row@[k as int].1 == Transition::Target(q as usize));
                                assert(brow_match_to(row@, c, k + 1, q));
                            }
                        } else {
                            assert(!brow_match_to(row@, c, k as int, q));
                            if brow_match_to(row@, c, k + 1, q) {
                                let kk = choose|kk: int|
                                    0 <= kk < k + 1 && kk < row@.len() && spec_symbol_match(
                                        (#[trigger] row@[kk]).0,
                                        c,
                                    ) && row@[kk].1 == Transition::Target(q as usize);
                                assert(kk == k);
                                assert(false);
                            }
                        }
                    }
                    if !found_accept {
                        if brow_match_accept(row@, c, k + 1) {
                            let kk = choose|kk: int|
                                0 <= kk < k + 1 && kk < row@.len() && spec_symbol_match(
                                    (#[trigger] row@[kk]).0,
                                    c,
                                ) && row@[kk].1 == Transition::Accept;
                            assert(kk == k);
                            assert(false);
                        }
                    }
                    if !consumed_a_character {
                        if brow_match_any(row@, c, k + 1) {
                            let kk = choose|kk: int|
                                0 <= kk < k + 1 && kk < row@.len() && spec_symbol_match(
                                    (#[trigger] row@[kk]).0,
                                    c,
                                );
                            assert(kk == k);
                            assert(false);
                        }
                    }
                }
                k = k + 1;
            }
            proof {
                assert forall|q: int| 0 <= q < n implies new_states@[q] == bstep_reached(
                    acceptor@,
                    curr_states@,
                    c,
                    u + 1,
                    q,
                ) by {
                    if new_states@[q] {
                        if !bstep_reached(acceptor@, curr_states@, c, u as int, q) {
                            assert(brow_match_to(acceptor@[u as int], c, acceptor@[u as int].len() as int, q));
                        }
                    } else {
                        if bstep_reached(acceptor@, curr_states@, c, u + 1, q) {
                            let u2 = choose|u2: int|
                                0 <= u2 < u + 1 && u2 < curr_states@.len() && curr_states@[u2] && u2
                                    < acceptor@.len() && brow_match_to(
                                    #[trigger] acceptor@[u2],
                                    c,
                                    acceptor@[u2].len() as int,
                                    q,
                                );
                            assert(u2 == u);
                            assert(false);
                        }
                    }
                }
                if !found_accept {
                    if bstep_accept(acceptor@, curr_states@, c, u + 1) {
                        let u2 = choose|u2: int|
                            0 <= u2 < u + 1 && u2 < curr_states@.len() && curr_states@[u2] && u2
                                < acceptor@.len() && brow_match_accept(
                                #[trigger] acceptor@[u2],
                                c,
                                acceptor@[u2].len() as int,
                            );
                        assert(u2 == u);
                        assert(false);
                    }
                }
                if !consumed_a_character {
                    if bstep_consumed(acceptor@, curr_states@, c, u + 1) {
                        let u2 = choose|u2: int|
                            0 <= u2 < u + 1 && u2 < curr_states@.len() && curr_states@[u2] && u2
                                < acceptor@.len() && brow_match_any(
                                #[trigger] acceptor@[u2],
                                c,
                                acceptor@[u2].len() as int,
                            );
                        assert(u2 == u);
                        assert(false);
                    }
                }
            }
        } else {
            proof {
                assert forall|q: int| 0 <= q < n implies new_states@[q] == bstep_reached(
                    acceptor@,
                    curr_states@,
                    c,
                    u + 1,
                    q,
                ) by {}
            }
        }
        u = u + 1;
    }
    proof {
        assert(new_states@ =~= bchar_step(acceptor@, curr_states@, c));
    }
    let (collapsed, accepted_via_null) = re_internal_follow_null_transitions(acceptor, new_states);
    (collapsed, accepted || found_accept || accepted_via_null, consumed_a_character)
}

/// Runs the acceptor anchored at byte 0 and reports the candidate match: the
/// end of the last acceptance observed at a consumed byte.
#[verifier::loop_isolation(false)]
pub fn re_accept_match(acceptor: &Acceptor, input: &[u8]) -> (r: Option<Match>)
    ensures
        r == spec_baccept_match(acceptor@, input@),
{
    let ghost table = acceptor@;
    let ghost target = spec_brun(table, input@);
    let n = acceptor.transitions.len();
    let nb = input.len();
    let mut mask0: Vec<bool> = Vec::new();
    let mut t0: usize = 0;
    while t0 < n
        invariant
            t0 <= n,
            mask0@.len() == t0,
            forall|q: int| 0 <= q < t0 ==> mask0@[q] == (q == 0),
        decreases n - t0,
    {
        mask0.push(t0 == 0);
        t0 = t0 + 1;
    }
    proof {
        assert(mask0@ =~= Seq::new(table.len(), |t: int| t == 0));
    }
    let (cl0, acc0) = re_internal_follow_null_transitions(acceptor, mask0);
    let mut curr_states = cl0;
    let mut accepted = acc0;
    let mut end: Option<usize> = None;
    let mut index: usize = 0;
    let mut alive = true;
    while alive && index < nb
        invariant
            index <= nb,
            nb == input@.len(),
            curr_states@.len() == n,
            n == table.len(),
            alive ==> target == spec_brun_from(
                table,
                input@,
                index as int,
                curr_states@,
                accepted,
                match end {
                    Some(p) => Some(p as int),
                    None => None,
                },
            ),
            !alive ==> target == (match end {
                Some(p) => Some(p as int),
                None => None,
            }),
            end matches Some(p) ==> p <= index,
        decreases nb - index,
    {
        let input_char = input[index];
        let (next_states, next_accepted, consumed) = re_internal_transition(
            acceptor,
            &curr_states,
            &input_char,
            accepted,
        );
        curr_states = next_states;
        accepted = next_accepted;
        if consumed && accepted {
            end = Some(index + 1);
        }
        index = index + 1;
        if !bmask_any_exec(&curr_states) {
            alive = false;
        }
    }
    match end {
        Some(e) => Some(Match { start: 0, end: e }),
        None => None,
    }
}

/// Slides the anchored run one byte at a time until it matches.
#[verifier::loop_isolation(false)]
pub fn re_accept_search(acceptor: &Acceptor, input: &[u8]) -> (r: Option<Match>)
    ensures
        r == spec_baccept_search(acceptor@, input@),
{
    let nb = input.len();
    let mut curr_index: usize = 0;
    while curr_index < nb
        invariant
            curr_index <= nb,
            nb == input@.len(),
            spec_baccept_search(acceptor@, input@) == spec_baccept_search_from(
                acceptor@,
                input@,
                curr_index as int,
            ),
        decreases nb - curr_index,
    {
        let ghost suffix = input@.skip(curr_index as int);
        let (_, sub) = input.split_at(curr_index);
        proof {
            assert(sub@ =~= suffix);
        }
        match re_accept_match(acceptor, sub) {
            Some(mm) => {
                proof {
                    lemma_brun_range(acceptor@, suffix);
                    assert(mm.start == 0);
                    assert(spec_brun(acceptor@, suffix) == Some(mm.end as int));
                    assert(mm.end <= suffix.len());
                }
                return Some(Match { start: mm.start + curr_index, end: mm.end + curr_index });
            },
            None => {
                curr_index = curr_index + 1;
            },
        }
    }
    None
}

/// Collects the non-overlapping matches from left to right, each search
/// resuming at the end of the previous match.
#[verifier::loop_isolation(false)]
pub fn re_accept_find_all(acceptor: &Acceptor, input: &[u8]) -> (r: Vec<Match>)
    ensures
        r@ == spec_baccept_find_all(acceptor@, input@, 0),
{
    let nb = input.len();
    let mut curr_index: usize = 0;
    let mut results: Vec<Match> = Vec::new();
    let mut done = false;
    while !done
        invariant
            curr_index <= nb + 1,
            nb == input@.len(),
            !done ==> curr_index <= nb,
            !done ==> spec_baccept_find_all(acceptor@, input@, 0) == results@
                + spec_baccept_find_all(acceptor@, input@, curr_index as int),
            done ==> spec_baccept_find_all(acceptor@, input@, 0) == results@,
        decreases nb - curr_index + (if done { 0int } else { 1 }),
    {
        let ghost rest = input@.skip(curr_index as int);
        let (_, sub) = input.split_at(curr_index);
        proof {
            assert(sub@ =~= rest);
        }
        match re_accept_search(acceptor, sub) {
            Some(mut accept) => {
                proof {
                    lemma_bsearch_range(acceptor@, rest, 0);
                }
                accept.start = accept.start + curr_index;
                let new_index = curr_index + accept.end;
                accept.end = new_index;
                results.push(accept);
                proof {
                    assert(spec_baccept_find_all(acceptor@, input@, curr_index as int)
                        == seq![accept] + spec_baccept_find_all(
                        acceptor@,
                        input@,
                        if new_index > curr_index {
                            new_index as int
                        } else {
                            curr_index + 1
                        },
                    ));
                }
                if new_index > curr_index {
                    curr_index = new_index;
                } else {
                    curr_index = curr_index + 1;
                }
                if curr_index > nb {
                    done = true;
                    proof {
                        assert(spec_baccept_find_all(acceptor@, input@, curr_index as int)
                            =~= Seq::<Match>::empty());
                    }
                }
            },
            None => {
                done = true;
            },
        }
    }
    results
}

/// A search result stays inside the bytes it searched.
pub proof fn lemma_bsearch_range(table: Seq<Seq<(Rule, Transition)>>, bytes: Seq<u8>, ci: int)
    requires
        0 <= ci <= bytes.len(),
        bytes.len() <= usize::MAX,
    ensures
        spec_baccept_search_from(table, bytes, ci) matches Some(mm) ==> ci <= mm.start
            && mm.start < mm.end <= bytes.len(),
    decreases bytes.len() - ci,
{
    if ci < bytes.len() {
        lemma_brun_range(table, bytes.skip(ci));
        lemma_bsearch_range(table, bytes, ci + 1);
        if spec_brun(table, bytes.skip(ci)) is Some {
            let e = spec_brun(table, bytes.skip(ci))->Some_0;
            assert(0 < e <= bytes.skip(ci).len());
            assert(bytes.skip(ci).len() == bytes.len() - ci);
            assert(spec_baccept_search_from(table, bytes, ci) == Some(
                Match { start: ci as usize, end: (ci + e) as usize },
            ));
        }
    }
}

/// A run's candidate end never passes the bytes consumed.
pub proof fn lemma_brun_range(table: Seq<Seq<(Rule, Transition)>>, bytes: Seq<u8>)
    ensures
        spec_brun(table, bytes) matches Some(e) ==> 0 < e <= bytes.len(),
{
    let mask0 = Seq::new(table.len(), |t: int| t == 0);
    let cl = bnull_closure(table, mask0);
    lemma_brun_from_range(table, bytes, 0, cl, bmask_accepts(table, cl), None);
}

proof fn lemma_brun_from_range(
    table: Seq<Seq<(Rule, Transition)>>,
    bytes: Seq<u8>,
    i: int,
    mask: Seq<bool>,
    accepted: bool,
    end: Option<int>,
)
    requires
        0 <= i <= bytes.len(),
        end matches Some(p) ==> 0 < p <= i,
    ensures
        spec_brun_from(table, bytes, i, mask, accepted, end) matches Some(e) ==> 0 < e
            <= bytes.len(),
    decreases bytes.len() - i,
{
    if i < bytes.len() {
        let c = bytes[i];
        let nm0 = bchar_step(table, mask, c);
        let cl = bnull_closure(table, nm0);
        let acc = accepted || bstep_accept(table, mask, c, mask.len() as int) || bmask_accepts(
            table,
            cl,
        );
        let cons = bstep_consumed(table, mask, c, mask.len() as int);
        let nend = if cons && acc {
            Some(i + 1)
        } else {
            end
        };
        lemma_brun_from_range(table, bytes, i + 1, cl, acc, nend);
    }
}

} // verus!

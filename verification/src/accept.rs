//! The earliest acceptance engine: states are rows of a symbol table, a
//! symbol being the bytes it matches, `.` the wildcard, and the marker word
//! `UNIT` the null transition. State labels may point past the table; such
//! labels have no outgoing edges but still count for acceptance.

use vstd::prelude::*;

verus! {

/// The automaton: row `i` maps symbols to the labels they lead to.
pub struct Acceptor<'a> {
    pub transitions: Vec<Vec<(&'a [u8], Vec<usize>)>>,
    /// The start state of the machine.
    pub start_state: usize,
    /// The states that count as completed.
    pub accept_states: Vec<usize>,
}

#[verifier::ext_equal]
pub ghost struct SpecAcceptor {
    pub table: Seq<Seq<(Seq<u8>, Seq<usize>)>>,
    pub start: usize,
    pub accepts: Seq<usize>,
}

pub open spec fn row_view(row: Seq<(&[u8], Vec<usize>)>) -> Seq<(Seq<u8>, Seq<usize>)> {
    Seq::new(row.len(), |e: int| (row[e].0@, row[e].1@))
}

impl<'a> View for Acceptor<'a> {
    type V = SpecAcceptor;

    open spec fn view(&self) -> SpecAcceptor {
        SpecAcceptor {
            table: Seq::new(self.transitions@.len(), |i: int| row_view(self.transitions@[i]@)),
            start: self.start_state,
            accepts: self.accept_states@,
        }
    }
}

impl<'a> Acceptor<'a> {
    /// Appending is not part of this engine: the table is left as it is.
    pub fn append(&mut self, other: Acceptor<'a>)
        ensures
            final(self)@ == old(self)@,
    {
    }
}

/// A byte span `[start, end)` reported by the acceptance functions.
#[derive(Debug, PartialEq, Eq, Structural, Copy, Clone)]
pub struct Match {
    pub start: usize,
    pub end: usize,
}

/// The wildcard symbol.
pub open spec fn sdot() -> Seq<u8> {
    seq![46u8]
}

/// The marker word standing for a null transition.
pub open spec fn sunit() -> Seq<u8> {
    seq![85u8, 78u8, 73u8, 84u8]
}

/// Whether the symbol lets the given byte string through: `.` matches
/// anything, the null marker matches nothing here, and any other symbol
/// matches exactly itself.
pub open spec fn ssym_match(sym: Seq<u8>, given: Seq<u8>) -> bool {
    if sym == sdot() {
        true
    } else if sym == sunit() {
        false
    } else {
        sym == given
    }
}

/// Whether `label` is among the first `ii` accept states.
pub open spec fn is_accept_pre(accepts: Seq<usize>, ii: int, label: usize) -> bool
    decreases ii,
{
    if ii <= 0 || ii > accepts.len() {
        false
    } else {
        is_accept_pre(accepts, ii - 1, label) || accepts[ii - 1] == label
    }
}

/// Whether `label` is one of the accept states.
pub open spec fn is_accept(accepts: Seq<usize>, label: usize) -> bool {
    is_accept_pre(accepts, accepts.len() as int, label)
}

/// Among the first `xx` labels of one target list, one equals `t`.
pub open spec fn entry_targets(ent: Seq<usize>, xx: int, t: int) -> bool
    decreases xx,
{
    if xx <= 0 || xx > ent.len() {
        false
    } else {
        entry_targets(ent, xx - 1, t) || ent[xx - 1] == t
    }
}

/// Among the first `xx` labels of one target list, one lies past the table
/// and is an accept state.
pub open spec fn entry_oob(ent: Seq<usize>, accepts: Seq<usize>, n: int, xx: int) -> bool
    decreases xx,
{
    if xx <= 0 || xx > ent.len() {
        false
    } else {
        entry_oob(ent, accepts, n, xx - 1) || (ent[xx - 1] >= n && is_accept(
            accepts,
            ent[xx - 1],
        ))
    }
}

/// Among the first `ee` entries of the row, one whose symbol matches `given`
/// leads to label `t`.
pub open spec fn row_match_to_pre(
    row: Seq<(Seq<u8>, Seq<usize>)>,
    given: Seq<u8>,
    ee: int,
    t: int,
) -> bool
    decreases ee,
{
    if ee <= 0 || ee > row.len() {
        false
    } else {
        row_match_to_pre(row, given, ee - 1, t) || (ssym_match(row[ee - 1].0, given)
            && entry_targets(row[ee - 1].1, row[ee - 1].1.len() as int, t))
    }
}

pub open spec fn row_match_to(row: Seq<(Seq<u8>, Seq<usize>)>, given: Seq<u8>, t: int) -> bool {
    row_match_to_pre(row, given, row.len() as int, t)
}

/// Among the first `ee` entries, a matching symbol leads to an out-of-range
/// accept label.
pub open spec fn row_match_oob_pre(
    row: Seq<(Seq<u8>, Seq<usize>)>,
    given: Seq<u8>,
    accepts: Seq<usize>,
    n: int,
    ee: int,
) -> bool
    decreases ee,
{
    if ee <= 0 || ee > row.len() {
        false
    } else {
        row_match_oob_pre(row, given, accepts, n, ee - 1) || (ssym_match(row[ee - 1].0, given)
            && entry_oob(row[ee - 1].1, accepts, n, row[ee - 1].1.len() as int))
    }
}

pub open spec fn row_match_oob(
    row: Seq<(Seq<u8>, Seq<usize>)>,
    given: Seq<u8>,
    accepts: Seq<usize>,
    n: int,
) -> bool {
    row_match_oob_pre(row, given, accepts, n, row.len() as int)
}

/// Like `row_match_to_pre`, for null-marker entries.
pub open spec fn row_unit_to_pre(row: Seq<(Seq<u8>, Seq<usize>)>, ee: int, t: int) -> bool
    decreases ee,
{
    if ee <= 0 || ee > row.len() {
        false
    } else {
        row_unit_to_pre(row, ee - 1, t) || (row[ee - 1].0 == sunit() && entry_targets(
            row[ee - 1].1,
            row[ee - 1].1.len() as int,
            t,
        ))
    }
}

pub open spec fn row_unit_to(row: Seq<(Seq<u8>, Seq<usize>)>, t: int) -> bool {
    row_unit_to_pre(row, row.len() as int, t)
}

pub open spec fn row_unit_oob_pre(
    row: Seq<(Seq<u8>, Seq<usize>)>,
    accepts: Seq<usize>,
    n: int,
    ee: int,
) -> bool
    decreases ee,
{
    if ee <= 0 || ee > row.len() {
        false
    } else {
        row_unit_oob_pre(row, accepts, n, ee - 1) || (row[ee - 1].0 == sunit() && entry_oob(
            row[ee - 1].1,
            accepts,
            n,
            row[ee - 1].1.len() as int,
        ))
    }
}

pub open spec fn row_unit_oob(row: Seq<(Seq<u8>, Seq<usize>)>, accepts: Seq<usize>, n: int) -> bool {
    row_unit_oob_pre(row, accepts, n, row.len() as int)
}

/// The row states reached by consuming `given` from the first `uu` masked
/// rows.
pub open spec fn astep_to_pre(
    a: SpecAcceptor,
    mask: Seq<bool>,
    given: Seq<u8>,
    uu: int,
    t: int,
) -> bool
    decreases uu,
{
    if uu <= 0 || uu > a.table.len() || uu > mask.len() {
        false
    } else {
        astep_to_pre(a, mask, given, uu - 1, t) || (mask[uu - 1] && row_match_to(
            a.table[uu - 1],
            given,
            t,
        ))
    }
}

pub open spec fn astep_oob_pre(a: SpecAcceptor, mask: Seq<bool>, given: Seq<u8>, uu: int) -> bool
    decreases uu,
{
    if uu <= 0 || uu > a.table.len() || uu > mask.len() {
        false
    } else {
        astep_oob_pre(a, mask, given, uu - 1) || (mask[uu - 1] && row_match_oob(
            a.table[uu - 1],
            given,
            a.accepts,
            a.table.len() as int,
        ))
    }
}

/// The set of rows reached by consuming `given` from the masked rows.
pub open spec fn achar_step(a: SpecAcceptor, mask: Seq<bool>, given: Seq<u8>) -> Seq<bool> {
    Seq::new(mask.len(), |t: int| astep_to_pre(a, mask, given, a.table.len() as int, t))
}

/// A row among the first `uu` masked ones with a null edge to `t`.
pub open spec fn unit_reach_pre(a: SpecAcceptor, mask: Seq<bool>, uu: int, t: int) -> bool
    decreases uu,
{
    if uu <= 0 || uu > a.table.len() || uu > mask.len() {
        false
    } else {
        unit_reach_pre(a, mask, uu - 1, t) || (mask[uu - 1] && row_unit_to(a.table[uu - 1], t))
    }
}

pub open spec fn unit_oob_pre(a: SpecAcceptor, mask: Seq<bool>, uu: int) -> bool
    decreases uu,
{
    if uu <= 0 || uu > a.table.len() || uu > mask.len() {
        false
    } else {
        unit_oob_pre(a, mask, uu - 1) || (mask[uu - 1] && row_unit_oob(
            a.table[uu - 1],
            a.accepts,
            a.table.len() as int,
        ))
    }
}

/// One expansion of the null closure over the rows.
pub open spec fn aunit_step(a: SpecAcceptor, mask: Seq<bool>) -> Seq<bool> {
    Seq::new(mask.len(), |t: int| mask[t] || unit_reach_pre(a, mask, a.table.len() as int, t))
}

pub open spec fn aclosure_n(a: SpecAcceptor, mask: Seq<bool>, fuel: nat) -> Seq<bool>
    decreases fuel,
{
    if fuel == 0 {
        mask
    } else {
        aclosure_n(a, aunit_step(a, mask), (fuel - 1) as nat)
    }
}

/// The null closure of a row set: expanding as many times as there are rows
/// reaches every row the set can reach along null edges.
pub open spec fn aclosure(a: SpecAcceptor, mask: Seq<bool>) -> Seq<bool> {
    aclosure_n(a, mask, mask.len())
}

/// Whether a null edge of any row the closure walk visits leads to an
/// out-of-range accept label: round `r` of the walk scans the set expanded
/// `r` times.
pub open spec fn aclosure_oob_rounds(a: SpecAcceptor, mask: Seq<bool>, rounds: nat) -> bool
    decreases rounds,
{
    if rounds == 0 {
        false
    } else {
        aclosure_oob_rounds(a, mask, (rounds - 1) as nat) || unit_oob_pre(
            a,
            aclosure_n(a, mask, (rounds - 1) as nat),
            a.table.len() as int,
        )
    }
}

pub open spec fn aclosure_oob(a: SpecAcceptor, mask: Seq<bool>) -> bool {
    aclosure_oob_rounds(a, mask, mask.len())
}

/// An accept state among the first `tt` rows of the mask.
pub open spec fn a_accepted_pre(a: SpecAcceptor, mask: Seq<bool>, tt: int) -> bool
    decreases tt,
{
    if tt <= 0 || tt > mask.len() {
        false
    } else {
        a_accepted_pre(a, mask, tt - 1) || (mask[tt - 1] && is_accept(
            a.accepts,
            (tt - 1) as usize,
        ))
    }
}

/// Acceptance after a step: an accept row is active, or an out-of-range
/// accept label was reached while stepping or closing.
pub open spec fn a_accepted(a: SpecAcceptor, mask: Seq<bool>, oob: bool) -> bool {
    oob || a_accepted_pre(a, mask, mask.len() as int)
}

/// Any row among the first `tt` of the mask.
pub open spec fn amask_any_pre(mask: Seq<bool>, tt: int) -> bool
    decreases tt,
{
    if tt <= 0 || tt > mask.len() {
        false
    } else {
        amask_any_pre(mask, tt - 1) || mask[tt - 1]
    }
}

pub open spec fn amask_any(mask: Seq<bool>) -> bool {
    amask_any_pre(mask, mask.len() as int)
}

/// The anchored run from byte index `i` on: each step consumes one byte from
/// every active row, closes over null transitions, and moves the candidate
/// end to `i + 1` whenever an accept state is then active. The run goes on
/// while any label, in range or not, was reached.
pub open spec fn arun_from(
    a: SpecAcceptor,
    bytes: Seq<u8>,
    i: int,
    mask: Seq<bool>,
    end: Option<int>,
) -> Option<int>
    decreases bytes.len() - i,
{
    if i < 0 || i >= bytes.len() {
        end
    } else {
        let given = seq![bytes[i]];
        let nm0 = achar_step(a, mask, given);
        let oob = astep_oob_pre(a, mask, given, a.table.len() as int) || aclosure_oob(a, nm0);
        let cl = aclosure(a, nm0);
        let nend = if a_accepted(a, cl, oob) {
            Some(i + 1)
        } else {
            end
        };
        if !oob && !amask_any(cl) {
            nend
        } else {
            arun_from(a, bytes, i + 1, cl, nend)
        }
    }
}

/// What one anchored run over `bytes` yields: the end of the last byte after
/// which an accept state was active.
pub open spec fn arun(a: SpecAcceptor, bytes: Seq<u8>) -> Option<int> {
    let mask0 = Seq::new(a.table.len(), |t: int| t == a.start as int);
    arun_from(a, bytes, 0, mask0, None)
}

/// What `re_accept_match` yields: the anchored match from byte 0, if any.
pub open spec fn spec_accept_match(a: SpecAcceptor, bytes: Seq<u8>) -> Option<Match> {
    match arun(a, bytes) {
        Some(e) => Some(Match { start: 0usize, end: e as usize }),
        None => None,
    }
}

/// What `re_accept_search` yields: the anchored match of the first start
/// offset that matches, byte by byte.
pub open spec fn spec_accept_search_from(a: SpecAcceptor, bytes: Seq<u8>, ci: int) -> Option<Match>
    decreases bytes.len() - ci,
{
    if ci < 0 || ci >= bytes.len() {
        None
    } else {
        match arun(a, bytes.skip(ci)) {
            Some(e) => Some(Match { start: ci as usize, end: (ci + e) as usize }),
            None => spec_accept_search_from(a, bytes, ci + 1),
        }
    }
}

pub open spec fn spec_accept_search(a: SpecAcceptor, bytes: Seq<u8>) -> Option<Match> {
    spec_accept_search_from(a, bytes, 0)
}

/// What `re_accept_find_all` yields: the non-overlapping matches in order,
/// each search resuming at the end of the last match.
pub open spec fn spec_accept_find_all(a: SpecAcceptor, bytes: Seq<u8>, ci: int) -> Seq<Match>
    decreases bytes.len() + 1 - ci,
{
    if ci < 0 || ci > bytes.len() {
        Seq::empty()
    } else {
        match spec_accept_search(a, bytes.skip(ci)) {
            Some(mm) => {
                let shifted = Match { start: (mm.start + ci) as usize, end: (mm.end + ci) as usize };
                let raw = ci + mm.end;
                let next = if raw <= ci {
                    ci + 1
                } else if raw > bytes.len() + 1 {
                    bytes.len() as int + 1
                } else {
                    raw
                };
                seq![shifted] + spec_accept_find_all(a, bytes, next)
            },
            None => Seq::empty(),
        }
    }
}

/// Whether two byte strings hold the same bytes.
#[verifier::loop_isolation(false)]
fn bytes_eq(a: &[u8], b: &[u8]) -> (r: bool)
    ensures
        r == (a@ =~= b@),
{
    let n = a.len();
    if n != b.len() {
        proof {
            assert(a@.len() != b@.len());
        }
        return false;
    }
    let mut i: usize = 0;
    while i < n
        invariant
            i <= n,
            n == a@.len() == b@.len(),
            forall|q: int| 0 <= q < i ==> a@[q] == b@[q],
        decreases n - i,
    {
        if a[i] != b[i] {
            return false;
        }
        i = i + 1;
    }
    true
}

/// The marker word that stands for a null transition.
fn is_unit(symbol: &[u8]) -> (r: bool)
    ensures
        r == (symbol@ == sunit()),
{
    if symbol.len() != 4 {
        proof {
            assert(symbol@.len() != 4);
        }
        return false;
    }
    let r = symbol[0] == 85 && symbol[1] == 78 && symbol[2] == 73 && symbol[3] == 84;
    proof {
        if r {
            assert(symbol@ =~= sunit());
        } else {
            assert(symbol@ != sunit());
        }
    }
    r
}

/// Evaluates one symbol against one byte string.
fn re_internal_symbol_match(symbol: &[u8], given: &[u8]) -> (r: bool)
    ensures
        r == ssym_match(symbol@, given@),
{
    if symbol.len() == 1 && symbol[0] == 46 {
        proof {
            assert(symbol@ =~= sdot());
        }
        return true;
    }
    proof {
        assert(symbol@ != sdot());
    }
    if is_unit(symbol) {
        return false;
    }
    bytes_eq(symbol, given)
}

/// Whether the label is one of the accept states.
#[verifier::loop_isolation(false)]
fn label_accepted(acceptor: &Acceptor, label: usize) -> (r: bool)
    ensures
        r == is_accept(acceptor@.accepts, label),
{
    let an = acceptor.accept_states.len();
    let mut i: usize = 0;
    let mut found = false;
    while i < an
        invariant
            i <= an,
            an == acceptor@.accepts.len(),
            found == is_accept_pre(acceptor@.accepts, i as int, label),
        decreases an - i,
    {
        if acceptor.accept_states[i] == label {
            found = true;
        }
        i = i + 1;
    }
    found
}

/// One exec expansion of the null closure: the expanded set, and whether any
/// null edge of a masked row led to an out-of-range accept label.
#[verifier::loop_isolation(false)]
fn aunit_step_exec(acceptor: &Acceptor, mask: &Vec<bool>) -> (r: (Vec<bool>, bool))
    requires
        mask@.len() == acceptor@.table.len(),
    ensures
        r.0@ == aunit_step(acceptor@, mask@),
        r.1 == unit_oob_pre(acceptor@, mask@, acceptor@.table.len() as int),
{
    let ghost a = acceptor@;
    let n = acceptor.transitions.len();
    let mut out: Vec<bool> = Vec::new();
    let mut t0: usize = 0;
    while t0 < n
        invariant
            t0 <= n,
            out@.len() == t0,
            forall|q: int| 0 <= q < t0 ==> out@[q] == mask@[q],
        decreases n - t0,
    {
        out.push(mask[t0]);
        t0 = t0 + 1;
    }
    let mut oob = false;
    let mut u: usize = 0;
    while u < n
        invariant
            u <= n,
            out@.len() == n,
            n == a.table.len(),
            mask@.len() == n,
            forall|q: int|
                0 <= q < n ==> out@[q] == (mask@[q] || unit_reach_pre(a, mask@, u as int, q)),
            oob == unit_oob_pre(a, mask@, u as int),
        decreases n - u,
    {
        let row = &acceptor.transitions[u];
        proof {
            assert(a.table[u as int] == row_view(row@));
        }
        if mask[u] {
            let en = row.len();
            let mut e: usize = 0;
            while e < en
                invariant
                    e <= en,
                    en == a.table[u as int].len(),
                    a.table[u as int] == row_view(row@),
                    u < n,
                    mask@[u as int],
                    out@.len() == n,
                    forall|q: int|
                        0 <= q < n ==> out@[q] == (mask@[q] || unit_reach_pre(a, mask@, u as int, q)
                            || row_unit_to_pre(a.table[u as int], e as int, q)),
                    oob == (unit_oob_pre(a, mask@, u as int) || row_unit_oob_pre(
                        a.table[u as int],
                        a.accepts,
                        n as int,
                        e as int,
                    )),
                decreases en - e,
            {
                let symbol = row[e].0;
                proof {
                    assert(a.table[u as int][e as int] == (row@[e as int].0@, row@[e as int].1@));
                    assert(symbol@ == a.table[u as int][e as int].0);
                }
                let hit = is_unit(symbol);
                if hit {
                    let nexts = &row[e].1;
                    proof {
                        assert(nexts@ == a.table[u as int][e as int].1);
                    }
                    let xn = nexts.len();
                    let mut x: usize = 0;
                    while x < xn
                        invariant
                            x <= xn,
                            xn == a.table[u as int][e as int].1.len(),
                            nexts@ == a.table[u as int][e as int].1,
                            a.table[u as int] == row_view(row@),
                            u < n,
                            e < en,
                            en == a.table[u as int].len(),
                            out@.len() == n,
                            forall|q: int|
                                0 <= q < n ==> out@[q] == (mask@[q] || unit_reach_pre(
                                    a,
                                    mask@,
                                    u as int,
                                    q,
                                ) || row_unit_to_pre(a.table[u as int], e as int, q)
                                    || entry_targets(a.table[u as int][e as int].1, x as int, q)),
                            oob == (unit_oob_pre(a, mask@, u as int) || row_unit_oob_pre(
                                a.table[u as int],
                                a.accepts,
                                n as int,
                                e as int,
                            ) || entry_oob(
                                a.table[u as int][e as int].1,
                                a.accepts,
                                n as int,
                                x as int,
                            )),
                        decreases xn - x,
                    {
                        let t = nexts[x];
                        let ghost pout = out@;
                        if t < n {
                            out[t] = true;
                        } else {
                            if label_accepted(acceptor, t) {
                                oob = true;
                            }
                        }
                        proof {
                            let ent = a.table[u as int][e as int].1;
                            assert(t == ent[x as int]);
                            assert(entry_oob(ent, a.accepts, n as int, x + 1) == (entry_oob(
                                ent,
                                a.accepts,
                                n as int,
                                x as int,
                            ) || (ent[x as int] >= n && is_accept(a.accepts, ent[x as int]))));
                            assert forall|q: int| 0 <= q < n implies out@[q] == (mask@[q]
                                || unit_reach_pre(a, mask@, u as int, q) || row_unit_to_pre(
                                a.table[u as int],
                                e as int,
                                q,
                            ) || entry_targets(ent, x + 1, q)) by {
                                assert(entry_targets(ent, x + 1, q) == (entry_targets(
                                    ent,
                                    x as int,
                                    q,
                                ) || ent[x as int] == q));
                                if q == t {
                                    assert(out@[q]);
                                } else {
                                    assert(out@[q] == pout[q]);
                                }
                            }
                        }
                        x = x + 1;
                    }
                }
                proof {
                    let rv = a.table[u as int];
                    assert(row_unit_to_pre(rv, e + 1, 0) == (row_unit_to_pre(rv, e as int, 0) || (
                    rv[e as int].0 == sunit() && entry_targets(
                        rv[e as int].1,
                        rv[e as int].1.len() as int,
                        0,
                    ))));
                    assert forall|q: int| 0 <= q < n implies out@[q] == (mask@[q]
                        || unit_reach_pre(a, mask@, u as int, q) || row_unit_to_pre(
                        rv,
                        e + 1,
                        q,
                    )) by {
                        assert(row_unit_to_pre(rv, e + 1, q) == (row_unit_to_pre(rv, e as int, q)
                            || (rv[e as int].0 == sunit() && entry_targets(
                            rv[e as int].1,
                            rv[e as int].1.len() as int,
                            q,
                        ))));
                    }
                    assert(row_unit_oob_pre(rv, a.accepts, n as int, e + 1) == (row_unit_oob_pre(
                        rv,
                        a.accepts,
                        n as int,
                        e as int,
                    ) || (rv[e as int].0 == sunit() && entry_oob(
                        rv[e as int].1,
                        a.accepts,
                        n as int,
                        rv[e as int].1.len() as int,
                    ))));
                }
                e = e + 1;
            }
            proof {
                assert(row_unit_to_pre(a.table[u as int], en as int, 0) == row_unit_to(
                    a.table[u as int],
                    0,
                ));
                assert forall|q: int| 0 <= q < n implies out@[q] == (mask@[q] || unit_reach_pre(
                    a,
                    mask@,
                    u + 1,
                    q,
                )) by {
                    assert(unit_reach_pre(a, mask@, u + 1, q) == (unit_reach_pre(
                        a,
                        mask@,
                        u as int,
                        q,
                    ) || (mask@[u as int] && row_unit_to(a.table[u as int], q))));
                }
                assert(unit_oob_pre(a, mask@, u + 1) == (unit_oob_pre(a, mask@, u as int) || (
                mask@[u as int] && row_unit_oob(a.table[u as int], a.accepts, n as int))));
            }
        } else {
            proof {
                assert forall|q: int| 0 <= q < n implies out@[q] == (mask@[q] || unit_reach_pre(
                    a,
                    mask@,
                    u + 1,
                    q,
                )) by {
                    assert(unit_reach_pre(a, mask@, u + 1, q) == (unit_reach_pre(
                        a,
                        mask@,
                        u as int,
                        q,
                    ) || (mask@[u as int] && row_unit_to(a.table[u as int], q))));
                }
                assert(unit_oob_pre(a, mask@, u + 1) == (unit_oob_pre(a, mask@, u as int) || (
                mask@[u as int] && row_unit_oob(a.table[u as int], a.accepts, n as int))));
            }
        }
        u = u + 1;
    }
    proof {
        assert(out@ =~= aunit_step(a, mask@));
    }
    (out, oob)
}

/// Follows null transitions until the set of rows is closed; the flag reports
/// whether any null edge of a visited row led to an out-of-range accept label.
#[verifier::loop_isolation(false)]
fn re_internal_follow_null_transitions(acceptor: &Acceptor, new_states: Vec<bool>) -> (r: (
    Vec<bool>,
    bool,
))
    requires
        new_states@.len() == acceptor@.table.len(),
    ensures
        r.0@ == aclosure(acceptor@, new_states@),
        r.0@.len() == new_states@.len(),
        r.1 == aclosure_oob(acceptor@, new_states@),
{
    let ghost a = acceptor@;
    let ghost m0 = new_states@;
    let n = acceptor.transitions.len();
    let mut cur = new_states;
    let mut oob = false;
    let mut round: usize = 0;
    while round < n
        invariant
            round <= n,
            cur@.len() == n,
            n == a.table.len(),
            m0.len() == n,
            cur@ == aclosure_n(a, m0, round as nat),
            oob == aclosure_oob_rounds(a, m0, round as nat),
        decreases n - round,
    {
        let (next, step_oob) = aunit_step_exec(acceptor, &cur);
        proof {
            lemma_aclosure_snoc(a, m0, round as nat);
            assert(aclosure_oob_rounds(a, m0, (round + 1) as nat) == (aclosure_oob_rounds(
                a,
                m0,
                round as nat,
            ) || unit_oob_pre(a, aclosure_n(a, m0, round as nat), a.table.len() as int)));
        }
        oob = oob || step_oob;
        cur = next;
        round = round + 1;
    }
    (cur, oob)
}

/// Expanding once more is the same as expanding the already-expanded set.
proof fn lemma_aclosure_snoc(a: SpecAcceptor, mask: Seq<bool>, fuel: nat)
    ensures
        aclosure_n(a, mask, fuel + 1) == aunit_step(a, aclosure_n(a, mask, fuel)),
    decreases fuel,
{
    if fuel > 0 {
        lemma_aclosure_snoc(a, aunit_step(a, mask), (fuel - 1) as nat);
        assert(aclosure_n(a, mask, fuel + 1) == aclosure_n(a, aunit_step(a, mask), fuel));
        assert(aclosure_n(a, mask, fuel) == aclosure_n(a, aunit_step(a, mask), (fuel - 1) as nat));
    } else {
        assert(aclosure_n(a, mask, 1) == aclosure_n(a, aunit_step(a, mask), 0));
    }
}

/// Consumes one byte string from every masked row, closing over nulls; the
/// flag reports whether an out-of-range accept label was reached on the way.
#[verifier::loop_isolation(false)]
fn re_internal_transition(acceptor: &Acceptor, curr_states: &Vec<bool>, input_char: &[u8]) -> (r: (
    Vec<bool>,
    bool,
))
    requires
        curr_states@.len() == acceptor@.table.len(),
    ensures
        r.0@ == aclosure(acceptor@, achar_step(acceptor@, curr_states@, input_char@)),
        r.0@.len() == curr_states@.len(),
        r.1 == (astep_oob_pre(acceptor@, curr_states@, input_char@, acceptor@.table.len() as int)
            || aclosure_oob(acceptor@, achar_step(acceptor@, curr_states@, input_char@))),
{
    let ghost a = acceptor@;
    let ghost given = input_char@;
    let n = acceptor.transitions.len();
    let mut new_states: Vec<bool> = Vec::new();
    let mut t0: usize = 0;
    while t0 < n
        invariant
            t0 <= n,
            new_states@.len() == t0,
            forall|q: int| 0 <= q < t0 ==> !new_states@[q],
        decreases n - t0,
    {
        new_states.push(false);
        t0 = t0 + 1;
    }
    let mut oob = false;
    let mut u: usize = 0;
    while u < n
        invariant
            u <= n,
            new_states@.len() == n,
            n == a.table.len(),
            curr_states@.len() == n,
            given == input_char@,
            forall|q: int|
                0 <= q < n ==> new_states@[q] == astep_to_pre(a, curr_states@, given, u as int, q),
            oob == astep_oob_pre(a, curr_states@, given, u as int),
        decreases n - u,
    {
        let row = &acceptor.transitions[u];
        proof {
            assert(a.table[u as int] == row_view(row@));
        }
        if curr_states[u] {
            let en = row.len();
            let mut e: usize = 0;
            while e < en
                invariant
                    e <= en,
                    en == a.table[u as int].len(),
                    a.table[u as int] == row_view(row@),
                    u < n,
                    curr_states@[u as int],
                    new_states@.len() == n,
                    given == input_char@,
                    forall|q: int|
                        0 <= q < n ==> new_states@[q] == (astep_to_pre(
                            a,
                            curr_states@,
                            given,
                            u as int,
                            q,
                        ) || row_match_to_pre(a.table[u as int], given, e as int, q)),
                    oob == (astep_oob_pre(a, curr_states@, given, u as int) || row_match_oob_pre(
                        a.table[u as int],
                        given,
                        a.accepts,
                        n as int,
                        e as int,
                    )),
                decreases en - e,
            {
                let symbol = row[e].0;
                proof {
                    assert(a.table[u as int][e as int] == (row@[e as int].0@, row@[e as int].1@));
                    assert(symbol@ == a.table[u as int][e as int].0);
                }
                let hit = re_internal_symbol_match(symbol, input_char);
                if hit {
                    let nexts = &row[e].1;
                    proof {
                        assert(nexts@ == a.table[u as int][e as int].1);
                    }
                    let xn = nexts.len();
                    let mut x: usize = 0;
                    while x < xn
                        invariant
                            x <= xn,
                            xn == a.table[u as int][e as int].1.len(),
                            nexts@ == a.table[u as int][e as int].1,
                            a.table[u as int] == row_view(row@),
                            u < n,
                            e < en,
                            en == a.table[u as int].len(),
                            new_states@.len() == n,
                            given == input_char@,
                            forall|q: int|
                                0 <= q < n ==> new_states@[q] == (astep_to_pre(
                                    a,
                                    curr_states@,
                                    given,
                                    u as int,
                                    q,
                                ) || row_match_to_pre(a.table[u as int], given, e as int, q)
                                    || entry_targets(a.table[u as int][e as int].1, x as int, q)),
                            oob == (astep_oob_pre(a, curr_states@, given, u as int)
                                || row_match_oob_pre(
                                a.table[u as int],
                                given,
                                a.accepts,
                                n as int,
                                e as int,
                            ) || entry_oob(
                                a.table[u as int][e as int].1,
                                a.accepts,
                                n as int,
                                x as int,
                            )),
                        decreases xn - x,
                    {
                        let t = nexts[x];
                        let ghost pout = new_states@;
                        if t < n {
                            new_states[t] = true;
                        } else {
                            if label_accepted(acceptor, t) {
                                oob = true;
                            }
                        }
                        proof {
                            let ent = a.table[u as int][e as int].1;
                            assert(t == ent[x as int]);
                            assert(entry_oob(ent, a.accepts, n as int, x + 1) == (entry_oob(
                                ent,
                                a.accepts,
                                n as int,
                                x as int,
                            ) || (ent[x as int] >= n && is_accept(a.accepts, ent[x as int]))));
                            assert forall|q: int| 0 <= q < n implies new_states@[q] == (
                            astep_to_pre(a, curr_states@, given, u as int, q) || row_match_to_pre(
                                a.table[u as int],
                                given,
                                e as int,
                                q,
                            ) || entry_targets(ent, x + 1, q)) by {
                                assert(entry_targets(ent, x + 1, q) == (entry_targets(
                                    ent,
                                    x as int,
                                    q,
                                ) || ent[x as int] == q));
                                if q == t {
                                    assert(new_states@[q]);
                                } else {
                                    assert(new_states@[q] == pout[q]);
                                }
                            }
                        }
                        x = x + 1;
                    }
                }
                proof {
                    let rv = a.table[u as int];
                    assert forall|q: int| 0 <= q < n implies new_states@[q] == (astep_to_pre(
                        a,
                        curr_states@,
                        given,
                        u as int,
                        q,
                    ) || row_match_to_pre(rv, given, e + 1, q)) by {
                        assert(row_match_to_pre(rv, given, e + 1, q) == (row_match_to_pre(
                            rv,
                            given,
                            e as int,
                            q,
                        ) || (ssym_match(rv[e as int].0, given) && entry_targets(
                            rv[e as int].1,
                            rv[e as int].1.len() as int,
                            q,
                        ))));
                    }
                    assert(row_match_oob_pre(rv, given, a.accepts, n as int, e + 1) == (
                    row_match_oob_pre(rv, given, a.accepts, n as int, e as int) || (ssym_match(
                        rv[e as int].0,
                        given,
                    ) && entry_oob(rv[e as int].1, a.accepts, n as int, rv[e as int].1.len() as int))));
                }
                e = e + 1;
            }
            proof {
                assert forall|q: int| 0 <= q < n implies new_states@[q] == astep_to_pre(
                    a,
                    curr_states@,
                    given,
                    u + 1,
                    q,
                ) by {
                    assert(astep_to_pre(a, curr_states@, given, u + 1, q) == (astep_to_pre(
                        a,
                        curr_states@,
                        given,
                        u as int,
                        q,
                    ) || (curr_states@[u as int] && row_match_to(a.table[u as int], given, q))));
                }
                assert(astep_oob_pre(a, curr_states@, given, u + 1) == (astep_oob_pre(
                    a,
                    curr_states@,
                    given,
                    u as int,
                ) || (curr_states@[u as int] && row_match_oob(
                    a.table[u as int],
                    given,
                    a.accepts,
                    n as int,
                ))));
            }
        } else {
            proof {
                assert forall|q: int| 0 <= q < n implies new_states@[q] == astep_to_pre(
                    a,
                    curr_states@,
                    given,
                    u + 1,
                    q,
                ) by {
                    assert(astep_to_pre(a, curr_states@, given, u + 1, q) == (astep_to_pre(
                        a,
                        curr_states@,
                        given,
                        u as int,
                        q,
                    ) || (curr_states@[u as int] && row_match_to(a.table[u as int], given, q))));
                }
                assert(astep_oob_pre(a, curr_states@, given, u + 1) == (astep_oob_pre(
                    a,
                    curr_states@,
                    given,
                    u as int,
                ) || (curr_states@[u as int] && row_match_oob(
                    a.table[u as int],
                    given,
                    a.accepts,
                    n as int,
                ))));
            }
        }
        u = u + 1;
    }
    proof {
        assert(new_states@ =~= achar_step(a, curr_states@, given));
    }
    let (closed, closure_oob) = re_internal_follow_null_transitions(acceptor, new_states);
    (closed, oob || closure_oob)
}

/// Whether any masked row, or the out-of-range flag, signals acceptance.
#[verifier::loop_isolation(false)]
fn re_internal_check_acceptance(acceptor: &Acceptor, mask: &Vec<bool>, oob_accept: bool) -> (r:
    bool)
    ensures
        r == a_accepted(acceptor@, mask@, oob_accept),
{
    if oob_accept {
        return true;
    }
    let n = mask.len();
    let mut t: usize = 0;
    let mut found = false;
    while t < n
        invariant
            t <= n,
            n == mask@.len(),
            found == a_accepted_pre(acceptor@, mask@, t as int),
        decreases n - t,
    {
        if mask[t] {
            if label_accepted(acceptor, t) {
                found = true;
            }
        }
        t = t + 1;
    }
    found
}

/// Runs the acceptor anchored at byte 0: the candidate match ends at the last
/// byte after which an accept state was active.
#[verifier::loop_isolation(false)]
pub fn re_accept_match(acceptor: &Acceptor, input: &[u8]) -> (r: Option<Match>)
    ensures
        r == spec_accept_match(acceptor@, input@),
        r matches Some(mm) ==> mm.start == 0 && 0 < mm.end <= input@.len(),
{
    let ghost a = acceptor@;
    let ghost target = arun(a, input@);
    let n = acceptor.transitions.len();
    let nb = input.len();
    let mut curr_states: Vec<bool> = Vec::new();
    let mut t0: usize = 0;
    while t0 < n
        invariant
            t0 <= n,
            curr_states@.len() == t0,
            forall|q: int| 0 <= q < t0 ==> curr_states@[q] == (q == acceptor@.start as int),
        decreases n - t0,
    {
        curr_states.push(t0 == acceptor.start_state);
        t0 = t0 + 1;
    }
    proof {
        assert(curr_states@ =~= Seq::new(a.table.len(), |t: int| t == a.start as int));
    }
    let mut end: Option<usize> = None;
    let mut index: usize = 0;
    let mut alive = true;
    while alive && index < nb
        invariant
            index <= nb,
            nb == input@.len(),
            curr_states@.len() == n,
            n == a.table.len(),
            alive ==> target == arun_from(
                a,
                input@,
                index as int,
                curr_states@,
                match end {
                    Some(p) => Some(p as int),
                    None => None,
                },
            ),
            !alive ==> target == (match end {
                Some(p) => Some(p as int),
                None => None,
            }),
            end matches Some(p) ==> 0 < p <= index,
        decreases nb - index,
    {
        let byte = input[index];
        let mut single: Vec<u8> = Vec::new();
        single.push(byte);
        proof {
            assert(single@ =~= seq![input@[index as int]]);
        }
        let (next_states, oob_accept) = re_internal_transition(
            acceptor,
            &curr_states,
            single.as_slice(),
        );
        curr_states = next_states;
        if re_internal_check_acceptance(acceptor, &curr_states, oob_accept) {
            end = Some(index + 1);
        }
        index = index + 1;
        let mut any = oob_accept;
        let mut t: usize = 0;
        while t < n
            invariant
                t <= n,
                curr_states@.len() == n,
                any == (oob_accept || amask_any_pre(curr_states@, t as int)),
            decreases n - t,
        {
            if curr_states[t] {
                any = true;
            }
            t = t + 1;
        }
        if !any {
            alive = false;
        }
    }
    match end {
        Some(e) => Some(Match { start: 0, end: e }),
        None => None,
    }
}

/// Slides the anchored run one byte at a time until it matches.
#[verifier::loop_isolation(false)]
pub fn re_accept_search(acceptor: &Acceptor, input: &[u8]) -> (r: Option<Match>)
    ensures
        r == spec_accept_search(acceptor@, input@),
        r matches Some(mm) ==> mm.start < mm.end <= input@.len(),
{
    let nb = input.len();
    let mut curr_index: usize = 0;
    while curr_index < nb
        invariant
            curr_index <= nb,
            nb == input@.len(),
            spec_accept_search(acceptor@, input@) == spec_accept_search_from(
                acceptor@,
                input@,
                curr_index as int,
            ),
        decreases nb - curr_index,
    {
        let ghost suffix = input@.skip(curr_index as int);
        let (_, sub) = input.split_at(curr_index);
        proof {
            assert(sub@ =~= suffix);
        }
        match re_accept_match(acceptor, sub) {
            Some(mm) => {
                proof {
                    lemma_arun_range(acceptor@, suffix);
                    assert(arun(acceptor@, suffix) == Some(mm.end as int));
                    assert(mm.end <= suffix.len());
                }
                return Some(Match { start: mm.start + curr_index, end: mm.end + curr_index });
            },
            None => {
                curr_index = curr_index + 1;
            },
        }
    }
    None
}

/// A search result stays inside the bytes it searched.
pub proof fn lemma_accept_search_range(a: SpecAcceptor, bytes: Seq<u8>, ci: int)
    requires
        0 <= ci <= bytes.len(),
        bytes.len() <= usize::MAX,
    ensures
        spec_accept_search_from(a, bytes, ci) matches Some(mm) ==> ci <= mm.start && mm.start
            < mm.end <= bytes.len(),
    decreases bytes.len() - ci,
{
    if ci < bytes.len() {
        lemma_arun_range(a, bytes.skip(ci));
        lemma_accept_search_range(a, bytes, ci + 1);
        if arun(a, bytes.skip(ci)) is Some {
            let e = arun(a, bytes.skip(ci))->Some_0;
            assert(0 < e <= bytes.skip(ci).len());
            assert(bytes.skip(ci).len() == bytes.len() - ci);
            assert(spec_accept_search_from(a, bytes, ci) == Some(
                Match { start: ci as usize, end: (ci + e) as usize },
            ));
        }
    }
}

/// A run's candidate end never passes the bytes consumed.
proof fn lemma_arun_range(a: SpecAcceptor, bytes: Seq<u8>)
    ensures
        arun(a, bytes) matches Some(e) ==> 0 < e <= bytes.len(),
{
    let mask0 = Seq::new(a.table.len(), |t: int| t == a.start as int);
    lemma_arun_from_range(a, bytes, 0, mask0, None);
}

proof fn lemma_arun_from_range(
    a: SpecAcceptor,
    bytes: Seq<u8>,
    i: int,
    mask: Seq<bool>,
    end: Option<int>,
)
    requires
        0 <= i <= bytes.len(),
        end matches Some(p) ==> 0 < p <= i,
    ensures
        arun_from(a, bytes, i, mask, end) matches Some(e) ==> 0 < e <= bytes.len(),
    decreases bytes.len() - i,
{
    if i < bytes.len() {
        let given = seq![bytes[i]];
        let nm0 = achar_step(a, mask, given);
        let oob = astep_oob_pre(a, mask, given, a.table.len() as int) || aclosure_oob(a, nm0);
        let cl = aclosure(a, nm0);
        let nend = if a_accepted(a, cl, oob) {
            Some(i + 1)
        } else {
            end
        };
        lemma_arun_from_range(a, bytes, i + 1, cl, nend);
    }
}

/// Collects the non-overlapping matches from left to right, each search
/// resuming at the end of the previous match.
#[verifier::loop_isolation(false)]
pub fn re_accept_find_all(acceptor: &Acceptor, input: &[u8]) -> (r: Vec<Match>)
    ensures
        r@ == spec_accept_find_all(acceptor@, input@, 0),
{
    let nb = input.len();
    let mut curr_index: usize = 0;
    let mut results: Vec<Match> = Vec::new();
    let mut done = false;
    while !done
        invariant
            curr_index <= nb + 1,
            nb == input@.len(),
            !done ==> curr_index <= nb,
            !done ==> spec_accept_find_all(acceptor@, input@, 0) == results@
                + spec_accept_find_all(acceptor@, input@, curr_index as int),
            done ==> spec_accept_find_all(acceptor@, input@, 0) == results@,
        decreases nb - curr_index + (if done { 0int } else { 1 }),
    {
        let ghost rest = input@.skip(curr_index as int);
        let (_, sub) = input.split_at(curr_index);
        proof {
            assert(sub@ =~= rest);
        }
        match re_accept_search(acceptor, sub) {
            Some(mut accept) => {
                proof {
                    lemma_accept_search_range(acceptor@, rest, 0);
                }
                accept.start = accept.start + curr_index;
                let new_index = curr_index + accept.end;
                accept.end = new_index;
                results.push(accept);
                proof {
                    assert(spec_accept_find_all(acceptor@, input@, curr_index as int)
                        == seq![accept] + spec_accept_find_all(
                        acceptor@,
                        input@,
                        if new_index > curr_index {
                            new_index as int
                        } else {
                            curr_index + 1
                        },
                    ));
                }
                if new_index > curr_index {
                    curr_index = new_index;
                } else {
                    curr_index = curr_index + 1;
                }
                if curr_index > nb {
                    done = true;
                    proof {
                        assert(spec_accept_find_all(acceptor@, input@, curr_index as int)
                            =~= Seq::<Match>::empty());
                    }
                }
            },
            None => {
                done = true;
            },
        }
    }
    results
}

} // verus!

//! The position automaton.
//!
//! A state is the set of positions that are live.  For one state and one
//! byte, the candidate accept set holds every rule owning a live position
//! whose predicate accepts the byte, and the next state is the union of the
//! follow sets of those positions.  Starting from the initial state, the
//! reachable states are closed over by an explicit work list; the state
//! space is finite because states are subsets of a fixed position space.

use vstd::prelude::*;
use vstd::arithmetic::power2::pow2;
use crate::expression::{Terminal, TerminalV};
use crate::position_set::{bounded, lemma_distinct_state_count, PositionSet};

verus! {

/// What one byte does to one state: the rules that may accept there, and
/// the positions that are live afterwards.
pub struct Transition {
    pub accept: PositionSet,
    pub next: PositionSet,
}

/// The mathematical content of a transition.
#[verifier::ext_equal]
pub struct TransitionV {
    pub accept: Set<usize>,
    pub next: Set<usize>,
}

impl View for Transition {
    type V = TransitionV;

    open spec fn view(&self) -> TransitionV {
        TransitionV { accept: self.accept@, next: self.next@ }
    }
}

/// One discovered state with its transition for every byte value.
pub struct NfaEntry {
    pub state: PositionSet,
    pub table: Vec<Transition>,
}

/// The mathematical content of an entry.
#[verifier::ext_equal]
pub struct NfaEntryV {
    pub state: Set<usize>,
    pub table: Seq<TransitionV>,
}

impl View for NfaEntry {
    type V = NfaEntryV;

    open spec fn view(&self) -> NfaEntryV {
        NfaEntryV { state: self.state@, table: self.table@.map_values(|t: Transition| t@) }
    }
}

/// The position automaton: every reachable non-empty state with its table.
pub struct Nfa {
    pub entries: Vec<NfaEntry>,
}

/// The mathematical content of a list of entries.
pub open spec fn nview(s: Seq<NfaEntry>) -> Seq<NfaEntryV> {
    s.map_values(|e: NfaEntry| e@)
}

impl View for Nfa {
    type V = Seq<NfaEntryV>;

    open spec fn view(&self) -> Seq<NfaEntryV> {
        nview(self.entries@)
    }
}

/// Canonical state vectors, and a full canonical table per entry.
pub open spec fn entries_wf(s: Seq<NfaEntry>) -> bool {
    forall|j: int|
        0 <= j < s.len() ==> {
            &&& (#[trigger] s[j]).state.wf()
            &&& s[j].table@.len() == 256
            &&& forall|c: int|
                0 <= c < 256 ==> (#[trigger] s[j].table@[c]).accept.wf() && s[j].table@[c].next.wf()
        }
}

/// The terminal table of a whole rule set, as mathematical values.
pub open spec fn terminals_view(v: Vec<Terminal>) -> Seq<TerminalV> {
    v@.map_values(|t: Terminal| t@)
}

/// The per-rule last sets, as mathematical values.
pub open spec fn lasts_view(v: Vec<PositionSet>) -> Seq<Set<usize>> {
    v@.map_values(|l: PositionSet| l@)
}

/// Every predicate covers all 256 bytes and every follow set stays within
/// the position space.
pub open spec fn terminals_wf(ts: Seq<TerminalV>) -> bool {
    forall|k: int|
        0 <= k < ts.len() ==> (#[trigger] ts[k]).accepts.len() == 256 && bounded(
            ts[k].follow,
            ts.len() as int,
        )
}

/// The per-rule last sets stay within the position space and are pairwise
/// disjoint: a position ends a match of at most one rule.
pub open spec fn lasts_wf(lasts: Seq<Set<usize>>, n: int) -> bool {
    &&& forall|i: int| 0 <= i < lasts.len() ==> bounded(#[trigger] lasts[i], n)
    &&& forall|i: int, j: int, p: usize|
        #![trigger lasts[i].contains(p), lasts[j].contains(p)]
        0 <= i < j < lasts.len() ==> !(lasts[i].contains(p) && lasts[j].contains(p))
}

/// The positions live after state `s` reads byte `c`: the union of the
/// follow sets of the live positions whose predicate accepts `c`.
pub open spec fn next_of(terminals: Seq<TerminalV>, s: Set<usize>, c: u8) -> Set<usize> {
    Set::new(
        |q: usize|
            exists|p: usize|
                #[trigger] s.contains(p) && p < terminals.len()
                    && terminals[p as int].accepts[c as int] && terminals[p as int].follow.contains(
                    q,
                ),
    )
}

/// The rules that may accept when state `s` reads byte `c`: those whose
/// last set holds a live position whose predicate accepts `c`.
pub open spec fn accept_of(
    terminals: Seq<TerminalV>,
    lasts: Seq<Set<usize>>,
    s: Set<usize>,
    c: u8,
) -> Set<usize> {
    Set::new(
        |i: usize|
            i < lasts.len() && exists|p: usize|
                #[trigger] s.contains(p) && p < terminals.len()
                    && terminals[p as int].accepts[c as int] && lasts[i as int].contains(p),
    )
}

/// `next_of`, stated over the items of a state vector prefix.
pub open spec fn next_of_items(terminals: Seq<TerminalV>, items: Seq<usize>, c: u8) -> Set<usize> {
    Set::new(
        |q: usize|
            exists|m: int|
                0 <= m < items.len() && items[m] < terminals.len() && (#[trigger] terminals[items[m] as int]).accepts[c as int]
                    && terminals[items[m] as int].follow.contains(q),
    )
}

/// `accept_of`, stated over the items of a state vector prefix.
pub open spec fn accept_of_items(
    terminals: Seq<TerminalV>,
    lasts: Seq<Set<usize>>,
    items: Seq<usize>,
    c: u8,
) -> Set<usize> {
    Set::new(
        |i: usize|
            i < lasts.len() && exists|m: int|
                0 <= m < items.len() && items[m] < terminals.len() && (#[trigger] terminals[items[m] as int]).accepts[c as int]
                    && lasts[i as int].contains(items[m]),
    )
}

/// Over a whole state vector, the item form and the set form agree.
proof fn lemma_items_vs_set(
    terminals: Seq<TerminalV>,
    lasts: Seq<Set<usize>>,
    s: PositionSet,
    c: u8,
)
    ensures
        next_of_items(terminals, s.seq(), c) == next_of(terminals, s@, c),
        accept_of_items(terminals, lasts, s.seq(), c) == accept_of(terminals, lasts, s@, c),
{
    assert forall|q: usize| next_of_items(terminals, s.seq(), c).contains(q) implies next_of(
        terminals,
        s@,
        c,
    ).contains(q) by {
        let m = choose|m: int|
            0 <= m < s.seq().len() && s.seq()[m] < terminals.len()
                && terminals[s.seq()[m] as int].accepts[c as int]
                && terminals[s.seq()[m] as int].follow.contains(q);
        assert(s.seq().contains(s.seq()[m]));
        assert(s@.contains(s.seq()[m]));
    }
    assert forall|q: usize| next_of(terminals, s@, c).contains(q) implies next_of_items(
        terminals,
        s.seq(),
        c,
    ).contains(q) by {
        let p = choose|p: usize|
            #[trigger] s@.contains(p) && p < terminals.len() && terminals[p as int].accepts[c as int]
                && terminals[p as int].follow.contains(q);
        let m = choose|m: int| 0 <= m < s.seq().len() && s.seq()[m] == p;
    }
    assert(next_of_items(terminals, s.seq(), c) =~= next_of(terminals, s@, c));
    assert forall|i: usize|
        accept_of_items(terminals, lasts, s.seq(), c).contains(i) implies accept_of(
        terminals,
        lasts,
        s@,
        c,
    ).contains(i) by {
        let m = choose|m: int|
            0 <= m < s.seq().len() && s.seq()[m] < terminals.len()
                && terminals[s.seq()[m] as int].accepts[c as int] && lasts[i as int].contains(
                s.seq()[m],
            );
        assert(s.seq().contains(s.seq()[m]));
        assert(s@.contains(s.seq()[m]));
    }
    assert forall|i: usize|
        accept_of(terminals, lasts, s@, c).contains(i) implies accept_of_items(
        terminals,
        lasts,
        s.seq(),
        c,
    ).contains(i) by {
        let p = choose|p: usize|
            #[trigger] s@.contains(p) && p < terminals.len() && terminals[p as int].accepts[c as int]
                && lasts[i as int].contains(p);
        let m = choose|m: int| 0 <= m < s.seq().len() && s.seq()[m] == p;
    }
    assert(accept_of_items(terminals, lasts, s.seq(), c) =~= accept_of(terminals, lasts, s@, c));
}

/// The inputs to automaton construction are internally consistent.
pub open spec fn automaton_inputs_wf(terminals: Vec<Terminal>, rule_lasts: Vec<PositionSet>) -> bool {
    &&& forall|k: int| 0 <= k < terminals@.len() ==> (#[trigger] terminals@[k]).wf()
    &&& terminals_wf(terminals_view(terminals))
    &&& forall|i: int| 0 <= i < rule_lasts@.len() ==> (#[trigger] rule_lasts@[i]).wf()
    &&& lasts_wf(lasts_view(rule_lasts), terminals@.len() as int)
}

/// The automaton holds a state equal to `s`.
pub open spec fn nfa_has_state(m: Seq<NfaEntryV>, s: Set<usize>) -> bool {
    exists|j: int| 0 <= j < m.len() && #[trigger] m[j].state == s
}

/// No state appears twice.
pub open spec fn nfa_distinct(m: Seq<NfaEntryV>) -> bool {
    forall|j1: int, j2: int| 0 <= j1 < j2 < m.len() ==> m[j1].state != m[j2].state
}

/// Every entry is a non-empty state whose full 256-entry table says exactly
/// which rules may accept and which positions are live next.
pub open spec fn nfa_tables_ok(
    m: Seq<NfaEntryV>,
    terminals: Seq<TerminalV>,
    lasts: Seq<Set<usize>>,
) -> bool {
    forall|j: int|
        0 <= j < m.len() ==> {
            &&& (#[trigger] m[j]).state != Set::<usize>::empty()
            &&& m[j].table.len() == 256
            &&& forall|c: int|
                0 <= c < 256 ==> (#[trigger] m[j].table[c]).accept == accept_of(
                    terminals,
                    lasts,
                    m[j].state,
                    c as u8,
                ) && m[j].table[c].next == next_of(terminals, m[j].state, c as u8)
        }
}

/// Every non-empty next state of a listed state is itself listed.
pub open spec fn nfa_closed(m: Seq<NfaEntryV>) -> bool {
    forall|j: int, c: int|
        0 <= j < m.len() && 0 <= c < 256 && (#[trigger] m[j].table[c]).next != Set::<usize>::empty()
            ==> nfa_has_state(m, m[j].table[c].next)
}

/// `x` is either a listed state or still waiting on the work list.
pub open spec fn covered(m: Seq<NfaEntryV>, pend: Seq<PositionSet>, x: Set<usize>) -> bool {
    nfa_has_state(m, x) || exists|k: int| 0 <= k < pend.len() && #[trigger] pend[k]@ == x
}

impl Nfa {
    /// Canonical state vectors, and a full, canonical table per entry.
    pub open spec fn wf(self) -> bool {
        entries_wf(self.entries@)
    }

    /// The index of the entry whose state equals `s`.
    pub fn find_state(&self, s: &PositionSet) -> (j: usize)
        requires
            self.wf(),
            s.wf(),
            nfa_has_state(self@, s@),
        ensures
            j < self@.len(),
            self@[j as int].state == s@,
    {
        let mut j: usize = 0;
        while j < self.entries.len()
            invariant
                j <= self.entries@.len(),
                forall|k: int| 0 <= k < j ==> self@[k].state != s@,
            decreases self.entries@.len() - j,
        {
            if self.entries[j].state.eq_set(s) {
                return j;
            }
            j += 1;
        }
        proof {
            let k = choose|k: int| 0 <= k < self@.len() && self@[k].state == s@;
            assert(false);
        }
        0
    }
}

/// The lowest-indexed rule whose last set holds `position`, if any.
pub fn find_accept(position: usize, rule_lasts: &Vec<PositionSet>) -> (r: Option<usize>)
    ensures
        match r {
            Some(i) => i < rule_lasts@.len() && rule_lasts@[i as int]@.contains(position) && forall|
                j: int,
            | 0 <= j < i ==> !rule_lasts@[j]@.contains(position),
            None => forall|j: int|
                0 <= j < rule_lasts@.len() ==> !rule_lasts@[j]@.contains(position),
        },
{
    let mut i: usize = 0;
    while i < rule_lasts.len()
        invariant
            i <= rule_lasts@.len(),
            forall|j: int| 0 <= j < i ==> !rule_lasts@[j]@.contains(position),
        decreases rule_lasts@.len() - i,
    {
        if rule_lasts[i].contains(position) {
            return Some(i);
        }
        i += 1;
    }
    None
}

/// The full transition table of one state: for every byte, which rules may
/// accept and which positions are live next.
pub fn transitions_of(
    terminals: &Vec<Terminal>,
    rule_lasts: &Vec<PositionSet>,
    state: &PositionSet,
) -> (table: Vec<Transition>)
    requires
        automaton_inputs_wf(*terminals, *rule_lasts),
        state.wf(),
        bounded(state@, terminals@.len() as int),
    ensures
        table@.len() == 256,
        forall|c: int|
            0 <= c < 256 ==> (#[trigger] table@[c]).accept.wf() && table@[c].next.wf(),
        forall|c: int|
            0 <= c < 256 ==> (#[trigger] table@[c])@.accept == accept_of(
                terminals_view(*terminals),
                lasts_view(*rule_lasts),
                state@,
                c as u8,
            ) && table@[c]@.next == next_of(terminals_view(*terminals), state@, c as u8),
{
    let ghost ts = terminals_view(*terminals);
    let ghost lv = lasts_view(*rule_lasts);
    let n_items = state.len();
    let mut table: Vec<Transition> = Vec::new();
    let mut c: usize = 0;
    while c < 256
        invariant
            c <= 256,
            table@.len() == c,
            forall|d: int| 0 <= d < c ==> (#[trigger] table@[d]).accept.wf() && table@[d].next.wf(),
            forall|d: int|
                0 <= d < c ==> (#[trigger] table@[d])@.accept == accept_of(ts, lv, state@, d as u8)
                    && table@[d]@.next == next_of(ts, state@, d as u8),
        decreases 256 - c,
    {
        let mut acc = PositionSet::new();
        let mut nxt = PositionSet::new();
        let mut idx: usize = 0;
        while idx < n_items
            invariant
                idx <= n_items,
                n_items == state.seq().len(),
                acc.wf(),
                nxt.wf(),
                acc@ == accept_of_items(ts, lv, state.seq().subrange(0, idx as int), c as u8),
                nxt@ == next_of_items(ts, state.seq().subrange(0, idx as int), c as u8),
                c < 256,
            decreases n_items - idx,
        {
            let ghost prev = state.seq().subrange(0, idx as int);
            let ghost cur = state.seq().subrange(0, idx + 1);
            let p = state.get(idx);
            proof {
                assert(state@.contains(p));
                assert(cur[idx as int] == p);
                assert(cur.subrange(0, idx as int) =~= prev);
                assert(terminals@[p as int]@ == ts[p as int]);
            }
            let acc_rule = find_accept(p, rule_lasts);
            let accepted = terminals[p].satisfy.test(c as u8);
            if accepted {
                if let Some(rule) = acc_rule {
                    acc.insert(rule);
                }
                nxt.union_with(&terminals[p].follow_set);
            }
            proof {
                let cb = c as u8;
                assert forall|q: usize| nxt@.contains(q) implies next_of_items(ts, cur, cb).contains(
                    q,
                ) by {
                    if next_of_items(ts, prev, cb).contains(q) {
                        let m = choose|m: int|
                            0 <= m < prev.len() && prev[m] < ts.len() && ts[prev[m] as int].accepts[cb as int]
                                && ts[prev[m] as int].follow.contains(q);
                        assert(cur[m] == prev[m]);
                    } else {
                        assert(accepted);
                        assert(ts[p as int].accepts[cb as int]);
                        assert(ts[p as int].follow.contains(q));
                        assert(cur[idx as int] == p);
                    }
                }
                assert forall|q: usize| next_of_items(ts, cur, cb).contains(q) implies nxt@.contains(
                    q,
                ) by {
                    let m = choose|m: int|
                        0 <= m < cur.len() && cur[m] < ts.len() && ts[cur[m] as int].accepts[cb as int]
                            && ts[cur[m] as int].follow.contains(q);
                    if m < idx as int {
                        assert(prev[m] == cur[m]);
                        assert(next_of_items(ts, prev, cb).contains(q));
                    } else {
                        assert(cur[m] == p);
                    }
                }
                assert(nxt@ =~= next_of_items(ts, cur, cb));
                assert forall|i: usize| acc@.contains(i) implies accept_of_items(
                    ts,
                    lv,
                    cur,
                    cb,
                ).contains(i) by {
                    if accept_of_items(ts, lv, prev, cb).contains(i) {
                        let m = choose|m: int|
                            0 <= m < prev.len() && prev[m] < ts.len() && ts[prev[m] as int].accepts[cb as int]
                                && lv[i as int].contains(prev[m]);
                        assert(cur[m] == prev[m]);
                    } else {
                        assert(accepted && acc_rule == Some(i));
                        assert(lv[i as int] == rule_lasts@[i as int]@);
                        assert(lv[i as int].contains(p));
                        assert(cur[idx as int] == p);
                    }
                }
                assert forall|i: usize| accept_of_items(ts, lv, cur, cb).contains(i) implies acc@
                    .contains(i) by {
                    let m = choose|m: int|
                        0 <= m < cur.len() && cur[m] < ts.len() && ts[cur[m] as int].accepts[cb as int]
                            && lv[i as int].contains(cur[m]);
                    assert(lv[i as int] == rule_lasts@[i as int]@);
                    if m < idx as int {
                        assert(prev[m] == cur[m]);
                        assert(accept_of_items(ts, lv, prev, cb).contains(i));
                    } else {
                        assert(cur[m] == p);
                        assert(accepted);
                        match acc_rule {
                            Some(rule) => {
                                assert(rule_lasts@[rule as int]@.contains(p));
                                if (i as int) < (rule as int) {
                                    assert(!rule_lasts@[i as int]@.contains(p));
                                } else if (rule as int) < (i as int) {
                                    assert(lv[rule as int].contains(p) && lv[i as int].contains(p));
                                    assert(lv[rule as int] == rule_lasts@[rule as int]@);
                                    assert(false);
                                }
                                assert(i == rule);
                            },
                            None => {
                                assert(!rule_lasts@[i as int]@.contains(p));
                                assert(false);
                            },
                        }
                    }
                }
                assert(acc@ =~= accept_of_items(ts, lv, cur, cb));
            }
            idx += 1;
        }
        proof {
            assert(state.seq().subrange(0, n_items as int) =~= state.seq());
            lemma_items_vs_set(ts, lv, *state, c as u8);
        }
        table.push(Transition { accept: acc, next: nxt });
        c += 1;
    }
    table
}

/// Next states stay within the position space.
proof fn lemma_next_bounded(ts: Seq<TerminalV>, s: Set<usize>, c: u8)
    requires
        terminals_wf(ts),
    ensures
        bounded(next_of(ts, s, c), ts.len() as int),
{
    assert forall|q: usize| next_of(ts, s, c).contains(q) implies q < ts.len() by {
        let p = choose|p: usize|
            #[trigger] s.contains(p) && p < ts.len() && ts[p as int].accepts[c as int]
                && ts[p as int].follow.contains(q);
        assert(bounded(ts[p as int].follow, ts.len() as int));
    }
}

/// After taking the last work item, anything covered is still covered or
/// was exactly that item.
proof fn lemma_covered_pop(m: Seq<NfaEntryV>, pend: Seq<PositionSet>, x: Set<usize>)
    requires
        covered(m, pend, x),
        pend.len() > 0,
    ensures
        covered(m, pend.subrange(0, pend.len() - 1), x) || pend.last()@ == x,
{
    if !nfa_has_state(m, x) {
        let k = choose|k: int| 0 <= k < pend.len() && #[trigger] pend[k]@ == x;
        if k < pend.len() - 1 {
            assert(pend.subrange(0, pend.len() - 1)[k]@ == x);
        }
    }
}

/// Whether some entry already holds the state `s`.
fn nfa_contains(entries: &Vec<NfaEntry>, s: &PositionSet) -> (r: bool)
    requires
        entries_wf(entries@),
        s.wf(),
    ensures
        r == nfa_has_state(nview(entries@), s@),
{
    let mut j: usize = 0;
    while j < entries.len()
        invariant
            j <= entries@.len(),
            forall|k: int| 0 <= k < j ==> nview(entries@)[k].state != s@,
        decreases entries@.len() - j,
    {
        if entries[j].state.eq_set(s) {
            proof {
                assert(nview(entries@)[j as int].state == s@);
            }
            return true;
        }
        j += 1;
    }
    false
}

/// Close over every state reachable from `initial`, one work item at a
/// time.  Termination rests on the state space being finite: states are
/// pairwise distinct subsets of the position space.
pub fn non_finite_automaton_from(
    terminals: &Vec<Terminal>,
    rule_lasts: &Vec<PositionSet>,
    initial: &PositionSet,
) -> (nfa: Nfa)
    requires
        automaton_inputs_wf(*terminals, *rule_lasts),
        initial.wf(),
        bounded(initial@, terminals@.len() as int),
        initial@ != Set::<usize>::empty(),
    ensures
        nfa.wf(),
        nfa_tables_ok(nfa@, terminals_view(*terminals), lasts_view(*rule_lasts)),
        nfa_distinct(nfa@),
        nfa_closed(nfa@),
        nfa_has_state(nfa@, initial@),
{
    let ghost ts = terminals_view(*terminals);
    let ghost lv = lasts_view(*rule_lasts);
    let n = terminals.len();
    let mut entries: Vec<NfaEntry> = Vec::new();
    let mut pending: Vec<PositionSet> = Vec::new();
    pending.push(initial.clone());
    proof {
        assert(pending@[0]@ == initial@);
    }
    while pending.len() > 0
        invariant
            entries_wf(entries@),
            forall|j: int|
                0 <= j < entries@.len() ==> bounded((#[trigger] entries@[j]).state@, n as int),
            nfa_tables_ok(nview(entries@), ts, lv),
            nfa_distinct(nview(entries@)),
            covered(nview(entries@), pending@, initial@),
            forall|j: int, c: int|
                0 <= j < nview(entries@).len() && 0 <= c < 256 && (#[trigger] nview(
                    entries@,
                )[j].table[c]).next != Set::<usize>::empty() ==> covered(
                    nview(entries@),
                    pending@,
                    nview(entries@)[j].table[c].next,
                ),
            forall|k: int|
                0 <= k < pending@.len() ==> (#[trigger] pending@[k]).wf() && bounded(
                    pending@[k]@,
                    n as int,
                ),
            entries@.len() <= pow2(n as nat),
        decreases (pow2(n as nat) - entries@.len()) * 257 + pending@.len(),
    {
        let ghost m = nview(entries@);
        let ghost pend_all = pending@;
        let s = pending.pop().unwrap();
        let ghost pend0 = pending@;
        proof {
            assert(pend0 == pend_all.subrange(0, pend_all.len() - 1));
            assert(s == pend_all.last());
        }
        if s.is_empty() {
            proof {
                lemma_covered_pop(m, pend_all, initial@);
                assert forall|j: int, c: int|
                    0 <= j < m.len() && 0 <= c < 256 && (#[trigger] m[j].table[c]).next != Set::<
                        usize,
                    >::empty() implies covered(m, pend0, m[j].table[c].next) by {
                    lemma_covered_pop(m, pend_all, m[j].table[c].next);
                }
            }
        } else if nfa_contains(&entries, &s) {
            proof {
                lemma_covered_pop(m, pend_all, initial@);
                assert forall|j: int, c: int|
                    0 <= j < m.len() && 0 <= c < 256 && (#[trigger] m[j].table[c]).next != Set::<
                        usize,
                    >::empty() implies covered(m, pend0, m[j].table[c].next) by {
                    lemma_covered_pop(m, pend_all, m[j].table[c].next);
                }
            }
        } else {
            let table = transitions_of(terminals, rule_lasts, &s);
            proof {
                lemma_covered_pop(m, pend_all, initial@);
                assert forall|j: int, c: int|
                    0 <= j < m.len() && 0 <= c < 256 && (#[trigger] m[j].table[c]).next != Set::<
                        usize,
                    >::empty() implies covered(m, pend0, m[j].table[c].next) || m[j].table[c].next
                    == s@ by {
                    lemma_covered_pop(m, pend_all, m[j].table[c].next);
                }
            }
            let mut c: usize = 0;
            while c < 256
                invariant
                    c <= 256,
                    pending@.len() <= pend0.len() + c,
                    forall|k: int|
                        0 <= k < pending@.len() ==> (#[trigger] pending@[k]).wf() && bounded(
                            pending@[k]@,
                            n as int,
                        ),
                    covered(m, pending@, initial@) || initial@ == s@,
                    forall|j: int, d: int|
                        0 <= j < m.len() && 0 <= d < 256 && (#[trigger] m[j].table[d]).next != Set::<
                            usize,
                        >::empty() ==> covered(m, pending@, m[j].table[d].next) || m[j].table[d].next
                            == s@,
                    forall|d: int|
                        0 <= d < c && (#[trigger] table@[d])@.next != Set::<usize>::empty()
                            ==> exists|k: int|
                            0 <= k < pending@.len() && (#[trigger] pending@[k])@ == table@[d]@.next,
                decreases 256 - c,
            {
                let ghost pend_in = pending@;
                if !table[c].next.is_empty() {
                    let copy = table[c].next.clone();
                    proof {
                        lemma_next_bounded(ts, s@, c as u8);
                    }
                    pending.push(copy);
                }
                proof {
                    assert forall|d: int|
                        0 <= d < c + 1 && (#[trigger] table@[d])@.next != Set::<usize>::empty() implies exists|
                        k: int,
                    | 0 <= k < pending@.len() && (#[trigger] pending@[k])@ == table@[d]@.next by {
                        if d < c {
                            let k = choose|k: int|
                                0 <= k < pend_in.len() && (#[trigger] pend_in[k])@ == table@[d]@.next;
                            assert(pending@[k]@ == table@[d]@.next);
                        } else {
                            assert(pending@[pending@.len() - 1]@ == table@[d]@.next);
                        }
                    }
                    if covered(m, pend_in, initial@) && !nfa_has_state(m, initial@) {
                        let k = choose|k: int|
                            0 <= k < pend_in.len() && #[trigger] pend_in[k]@ == initial@;
                        assert(pending@[k]@ == initial@);
                    }
                    assert forall|j: int, d: int|
                        0 <= j < m.len() && 0 <= d < 256 && (#[trigger] m[j].table[d]).next != Set::<
                            usize,
                        >::empty() implies covered(m, pending@, m[j].table[d].next) || m[j].table[d].next
                        == s@ by {
                        if covered(m, pend_in, m[j].table[d].next) && !nfa_has_state(
                            m,
                            m[j].table[d].next,
                        ) {
                            let k = choose|k: int|
                                0 <= k < pend_in.len() && #[trigger] pend_in[k]@ == m[j].table[d].next;
                            assert(pending@[k]@ == m[j].table[d].next);
                        }
                    }
                }
                c += 1;
            }
            let ghost pend_done = pending@;
            entries.push(NfaEntry { state: s, table });
            proof {
                let m2 = nview(entries@);
                let new_len = m2.len();
                assert(m2[new_len - 1] == NfaEntry { state: s, table }@);
                assert(m2[new_len - 1].state == s@);
                assert forall|j: int| 0 <= j < m.len() implies m2[j] == m[j] by {}
                assert(nfa_distinct(m2)) by {
                    assert forall|j1: int, j2: int|
                        0 <= j1 < j2 < m2.len() implies m2[j1].state != m2[j2].state by {
                        if j2 == new_len - 1 {
                            assert(!nfa_has_state(m, s@));
                            if m2[j1].state == s@ {
                                assert(m[j1].state == s@);
                            }
                        }
                    }
                }
                assert(nfa_tables_ok(m2, ts, lv)) by {
                    assert forall|j: int| 0 <= j < m2.len() implies {
                        &&& (#[trigger] m2[j]).state != Set::<usize>::empty()
                        &&& m2[j].table.len() == 256
                        &&& forall|d: int|
                            0 <= d < 256 ==> (#[trigger] m2[j].table[d]).accept == accept_of(
                                ts,
                                lv,
                                m2[j].state,
                                d as u8,
                            ) && m2[j].table[d].next == next_of(ts, m2[j].state, d as u8)
                    } by {
                        if j == new_len - 1 {
                            assert(s@ != Set::<usize>::empty());
                            assert forall|d: int| 0 <= d < 256 implies (#[trigger] m2[j].table[d]).accept
                                == accept_of(ts, lv, m2[j].state, d as u8) && m2[j].table[d].next
                                == next_of(ts, m2[j].state, d as u8) by {
                                assert(m2[j].table[d] == table@[d]@);
                            }
                        }
                    }
                }
                assert(covered(m2, pend_done, initial@)) by {
                    if initial@ == s@ {
                        assert(m2[new_len - 1].state == initial@);
                    } else {
                        assert(covered(m, pend_done, initial@));
                        if !nfa_has_state(m, initial@) {
                            let k = choose|k: int|
                                0 <= k < pend_done.len() && #[trigger] pend_done[k]@ == initial@;
                        } else {
                            let j = choose|j: int|
                                0 <= j < m.len() && #[trigger] m[j].state == initial@;
                            assert(m2[j].state == initial@);
                        }
                    }
                }
                assert forall|j: int, d: int|
                    0 <= j < m2.len() && 0 <= d < 256 && (#[trigger] m2[j].table[d]).next != Set::<
                        usize,
                    >::empty() implies covered(m2, pend_done, m2[j].table[d].next) by {
                    let x = m2[j].table[d].next;
                    if j < m.len() {
                        assert(m2[j] == m[j]);
                        if m[j].table[d].next == s@ {
                            assert(m2[new_len - 1].state == x);
                        } else {
                            assert(covered(m, pend_done, x));
                            if nfa_has_state(m, x) {
                                let jj = choose|jj: int|
                                    0 <= jj < m.len() && #[trigger] m[jj].state == x;
                                assert(m2[jj].state == x);
                            }
                        }
                    } else {
                        assert(m2[j].table[d] == table@[d]@);
                        let k = choose|k: int|
                            0 <= k < pend_done.len() && (#[trigger] pend_done[k])@ == x;
                    }
                }
                assert(entries@.len() <= pow2(n as nat)) by {
                    let reps = Seq::new(entries@.len(), |j: int| entries@[j].state.items@);
                    assert forall|k1: int, k2: int|
                        0 <= k1 < k2 < reps.len() implies reps[k1] != reps[k2] by {
                        if reps[k1] == reps[k2] {
                            assert(nview(entries@)[k1].state == nview(entries@)[k2].state);
                        }
                    }
                    assert forall|k: int, mm: int|
                        0 <= k < reps.len() && 0 <= mm < reps[k].len() implies #[trigger] reps[k][mm]
                        < n as nat by {
                        assert(entries@[k].state.items@.contains(entries@[k].state.items@[mm]));
                        assert(entries@[k].state@.contains(reps[k][mm]));
                        assert(bounded(entries@[k].state@, n as int));
                    }
                    lemma_distinct_state_count(reps, n as nat);
                }
            }
        }
    }
    let nfa = Nfa { entries };
    proof {
        assert(covered(nfa@, pending@, initial@));
        assert(pending@.len() == 0);
        assert(nfa_has_state(nfa@, initial@));
        assert forall|j: int, c: int|
            0 <= j < nfa@.len() && 0 <= c < 256 && (#[trigger] nfa@[j].table[c]).next != Set::<
                usize,
            >::empty() implies nfa_has_state(nfa@, nfa@[j].table[c].next) by {
            assert(covered(nfa@, pending@, nfa@[j].table[c].next));
        }
    }
    nfa
}

} // verus!

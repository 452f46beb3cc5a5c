//! Compiling a rule list and matching inputs against it.
//!
//! `Recognizer::new` renumbers the rules into one global position space,
//! closes over the reachable states of the position automaton, and flattens
//! it into a dense table indexed by state id and byte value.  `find` scans
//! an input from offset zero, keeping the longest prefix some rule accepted
//! and, among rules accepting at the same length, the lowest-indexed one.

use vstd::prelude::*;
use core::ops::Range;
use crate::expression::{alt_view, wf_view, Expression, ExpressionV, TerminalV};
use crate::non_finite_automaton::{
    accept_of, automaton_inputs_wf, lasts_view, next_of, nfa_has_state, non_finite_automaton_from,
    terminals_view, terminals_wf,
};
use crate::position_set::{bounded, is_min_of, shift_set, PositionSet};

verus! {

/// The deterministic outcome of reading one byte in one state.
#[derive(Debug, Clone, Copy)]
pub enum Action {
    GoTo(usize),
    Accept(usize),
    AcceptAndGoto(usize, usize),
    Failure,
}

/// A compiled rule set: a dense transition table, the id of the initial
/// state, and the lowest-indexed rule matching the empty sequence, if any.
#[derive(Debug)]
pub struct Recognizer {
    pub first_state: usize,
    pub nullable: Option<usize>,
    pub dfa: Vec<Vec<Action>>,
}

/// The mathematical content of a compiled rule set.
#[verifier::ext_equal]
pub struct RecognizerV {
    pub first_state: usize,
    pub nullable: Option<usize>,
    pub dfa: Seq<Seq<Action>>,
}

impl View for Recognizer {
    type V = RecognizerV;

    open spec fn view(&self) -> RecognizerV {
        RecognizerV {
            first_state: self.first_state,
            nullable: self.nullable,
            dfa: self.dfa@.map_values(|row: Vec<Action>| row@),
        }
    }
}

/// Every state the action names exists in the table.
pub open spec fn action_in_range(a: Action, n: int) -> bool {
    match a {
        Action::GoTo(j) => (j as int) < n,
        Action::AcceptAndGoto(_i, j) => (j as int) < n,
        Action::Accept(_i) => true,
        Action::Failure => true,
    }
}

/// The table is dense and self-contained: a full 256-entry row per state,
/// an initial state inside the table, and no dangling state id.
pub open spec fn rec_wf(r: RecognizerV) -> bool {
    &&& r.dfa.len() > 0
    &&& (r.first_state as int) < r.dfa.len()
    &&& forall|s: int| 0 <= s < r.dfa.len() ==> (#[trigger] r.dfa[s]).len() == 256
    &&& forall|s: int, c: int|
        0 <= s < r.dfa.len() && 0 <= c < 256 ==> action_in_range(
            #[trigger] r.dfa[s][c],
            r.dfa.len() as int,
        )
}

/// The best match before any byte is read: the zero-length match of the
/// lowest-indexed nullable rule, if there is one.
pub open spec fn initial_best(nullable: Option<usize>) -> Option<(usize, int)> {
    match nullable {
        Some(i) => Some((i, 0int)),
        None => None,
    }
}

/// What scanning returns: one step per byte from position `i`, overwriting
/// the best match at every accept, stopping at `Failure` or a plain
/// `Accept`, and keeping the best match when the input runs out.
pub open spec fn scan(
    dfa: Seq<Seq<Action>>,
    state: int,
    input: Seq<u8>,
    i: int,
    best: Option<(usize, int)>,
) -> Option<(usize, int)>
    decreases input.len() - i,
{
    if i < 0 || i >= input.len() {
        best
    } else {
        match dfa[state][input[i] as int] {
            Action::Failure => best,
            Action::Accept(r) => Some((r, i + 1)),
            Action::AcceptAndGoto(r, nx) => scan(dfa, nx as int, input, i + 1, Some((r, i + 1))),
            Action::GoTo(nx) => scan(dfa, nx as int, input, i + 1, best),
        }
    }
}

/// A returned match, reduced to its rule id and end offset.
pub open spec fn found_view(r: Option<(usize, Range<usize>)>) -> Option<(usize, int)> {
    match r {
        Some(m) => Some((m.0, m.1.end as int)),
        None => None,
    }
}

impl Recognizer {
    pub open spec fn wf(self) -> bool {
        rec_wf(self@)
    }

    /// The longest prefix of `input` accepted by some rule, with the
    /// lowest-indexed accepting rule; the reported range always starts at
    /// offset zero.
    pub fn find(&self, input: &[u8]) -> (res: Option<(usize, Range<usize>)>)
        requires
            self.wf(),
        ensures
            found_view(res) == scan(
                self@.dfa,
                self@.first_state as int,
                input@,
                0,
                initial_best(self@.nullable),
            ),
            match res {
                Some(m) => m.1.start == 0 && m.1.end <= input@.len(),
                None => true,
            },
    {
        let ghost dfa = self@.dfa;
        let ghost init_best = initial_best(self@.nullable);
        let mut res: Option<(usize, Range<usize>)> = match self.nullable {
            Some(r) => Some((r, 0..0)),
            None => None,
        };
        let mut state = self.first_state;
        let mut i: usize = 0;
        #[verifier::loop_isolation(true)]
        while i < input.len()
            invariant_except_break
                rec_wf(self@),
                dfa == self@.dfa,
                init_best == initial_best(self@.nullable),
                i <= input@.len(),
                (state as int) < dfa.len(),
                scan(dfa, self@.first_state as int, input@, 0, init_best) == scan(
                    dfa,
                    state as int,
                    input@,
                    i as int,
                    found_view(res),
                ),
                match res {
                    Some(m) => m.1.start == 0 && m.1.end <= i,
                    None => true,
                },
            ensures
                found_view(res) == scan(dfa, self@.first_state as int, input@, 0, init_best),
                match res {
                    Some(m) => m.1.start == 0 && m.1.end <= input@.len(),
                    None => true,
                },
            decreases input@.len() - i,
        {
            let c = input[i];
            proof {
                assert(dfa[state as int] == self.dfa@[state as int]@);
            }
            match self.dfa[state][c as usize] {
                Action::Failure => {
                    break;
                },
                Action::Accept(r) => {
                    res = Some((r, 0..i + 1));
                    break;
                },
                Action::AcceptAndGoto(r, nx) => {
                    res = Some((r, 0..i + 1));
                    state = nx;
                },
                Action::GoTo(nx) => {
                    state = nx;
                },
            }
            i += 1;
        }
        res
    }
}

/// The views of a vector of expressions.
pub open spec fn views(es: Seq<Expression>) -> Seq<ExpressionV> {
    es.map_values(|e: Expression| e@)
}

/// The alternation of the whole rule list, in declaration order.
pub open spec fn combined(exprs: Seq<ExpressionV>) -> ExpressionV
    decreases exprs.len(),
{
    if exprs.len() <= 1 {
        exprs[0]
    } else {
        alt_view(combined(exprs.drop_last()), exprs.last())
    }
}

/// The global position id where rule `i`'s positions begin: the terminal
/// count of all rules before it.
pub open spec fn offset_of(exprs: Seq<ExpressionV>, i: int) -> int
    decreases i,
{
    if i <= 0 {
        0
    } else {
        offset_of(exprs, i - 1) + exprs[i - 1].terminals.len()
    }
}

/// The terminal count of the whole rule list.
pub open spec fn total_terminals(exprs: Seq<ExpressionV>) -> int {
    offset_of(exprs, exprs.len() as int)
}

/// Rule `i`'s last set under the global numbering.
pub open spec fn rule_last(exprs: Seq<ExpressionV>, i: int) -> Set<usize> {
    shift_set(exprs[i].last, offset_of(exprs, i))
}

/// The last sets of all rules under the global numbering.
pub open spec fn rule_lasts_of(exprs: Seq<ExpressionV>) -> Seq<Set<usize>> {
    Seq::new(exprs.len(), |i: int| rule_last(exprs, i))
}

/// `o` names the lowest-indexed rule that matches the empty sequence, or
/// nothing when no rule does.
pub open spec fn nullable_rule_of(exprs: Seq<ExpressionV>, o: Option<usize>) -> bool {
    match o {
        Some(i) => (i as int) < exprs.len() && exprs[i as int].nullable && forall|j: int|
            0 <= j < i ==> !exprs[j].nullable,
        None => forall|j: int| 0 <= j < exprs.len() ==> !exprs[j].nullable,
    }
}

/// The action is the right digest of a candidate accept set and next state:
/// fail when both are empty, accept the lowest candidate rule, go to the
/// table entry holding exactly the next position set.
pub open spec fn action_ok(
    a: Action,
    acc: Set<usize>,
    nxt: Set<usize>,
    states: Seq<Set<usize>>,
) -> bool {
    match a {
        Action::Failure => acc == Set::<usize>::empty() && nxt == Set::<usize>::empty(),
        Action::Accept(i) => is_min_of(i, acc) && nxt == Set::<usize>::empty(),
        Action::GoTo(j) => acc == Set::<usize>::empty() && (j as int) < states.len() && states[j as int]
            == nxt && nxt != Set::<usize>::empty(),
        Action::AcceptAndGoto(i, j) => is_min_of(i, acc) && (j as int) < states.len()
            && states[j as int] == nxt && nxt != Set::<usize>::empty(),
    }
}

/// `states` names the position set behind each state id, and under that
/// naming every table cell is the digest of the position automaton's
/// transition.
pub open spec fn states_ok(
    r: RecognizerV,
    terminals: Seq<TerminalV>,
    lasts: Seq<Set<usize>>,
    init: Set<usize>,
    states: Seq<Set<usize>>,
) -> bool {
    &&& states.len() == r.dfa.len()
    &&& forall|j1: int, j2: int| 0 <= j1 < j2 < states.len() ==> states[j1] != states[j2]
    &&& forall|j: int| 0 <= j < states.len() ==> (#[trigger] states[j]) != Set::<usize>::empty()
    &&& (r.first_state as int) < states.len()
    &&& states[r.first_state as int] == init
    &&& forall|s: int| 0 <= s < r.dfa.len() ==> (#[trigger] r.dfa[s]).len() == 256
    &&& forall|s: int, c: int|
        0 <= s < r.dfa.len() && 0 <= c < 256 ==> action_ok(
            #[trigger] r.dfa[s][c],
            accept_of(terminals, lasts, states[s], c as u8),
            next_of(terminals, states[s], c as u8),
            states,
        )
}

/// The table is a faithful flattening of the position automaton over the
/// given terminals, per-rule last sets and initial state, under some
/// numbering of the reachable states.
pub open spec fn recognizer_of(
    r: RecognizerV,
    terminals: Seq<TerminalV>,
    lasts: Seq<Set<usize>>,
    init: Set<usize>,
) -> bool {
    exists|states: Seq<Set<usize>>| states_ok(r, terminals, lasts, init, states)
}

/// The whole compilation contract: the table realizes the position
/// automaton of the rule list, and the nullable rule is the lowest-indexed
/// one.
pub open spec fn compiled_from(r: RecognizerV, rules: Seq<ExpressionV>) -> bool {
    &&& recognizer_of(r, combined(rules).terminals, rule_lasts_of(rules), combined(rules).first)
    &&& nullable_rule_of(rules, r.nullable)
}

impl Recognizer {
    /// Compile an ordered, non-empty rule list: renumber every rule into
    /// one global position space, close over the reachable states, and
    /// flatten the automaton into a dense table.
    pub fn new(expressions: Vec<Expression>) -> (r: Self)
        requires
            expressions@.len() >= 1,
            forall|k: int| 0 <= k < expressions@.len() ==> (#[trigger] expressions@[k]).wf(),
            total_terminals(views(expressions@)) <= usize::MAX,
        ensures
            r.wf(),
            compiled_from(r@, views(expressions@)),
    {
        let ghost vs = views(expressions@);
        let n_rules = expressions.len();
        proof {
            assert forall|i: int| 0 <= i < vs.len() implies wf_view(#[trigger] vs[i]) by {
                assert(vs[i] == expressions@[i]@);
                assert(expressions@[i].wf());
            }
        }
        let mut exprs = expressions;
        let mut rule_lasts: Vec<PositionSet> = Vec::new();
        let mut nullable: Option<usize> = None;
        let mut root = exprs.remove(0);
        rule_lasts.push(root.last_set.clone());
        if root.is_nullable {
            nullable = Some(0);
        }
        proof {
            assert(exprs@ =~= expressions@.subrange(1, n_rules as int));
            assert(root@ == vs[0]);
            assert(vs.subrange(0, 1)[0] == vs[0]);
            assert(combined(vs.subrange(0, 1)) == vs[0]);
            assert(root.terminals@.len() == root@.terminals.len());
            assert(offset_of(vs, 0) == 0);
            assert(offset_of(vs, 1) == offset_of(vs, 0) + vs[0].terminals.len());
            assert(rule_lasts@[0]@ == vs[0].last);
            assert(rule_last(vs, 0) =~= vs[0].last);
            assert(nullable_rule_of(vs.subrange(0, 1), nullable));
        }
        let mut k: usize = 1;
        while k < n_rules
            invariant
                1 <= k <= n_rules,
                exprs@ == expressions@.subrange(k as int, n_rules as int),
                root.wf(),
                root@ == combined(vs.subrange(0, k as int)),
                root.terminals@.len() == offset_of(vs, k as int),
                rule_lasts@.len() == k,
                forall|i: int|
                    0 <= i < k ==> (#[trigger] rule_lasts@[i]).wf() && rule_lasts@[i]@ == rule_last(
                        vs,
                        i,
                    ),
                nullable_rule_of(vs.subrange(0, k as int), nullable),
                match nullable {
                    Some(i) => (i as int) < k as int,
                    None => true,
                },
            decreases n_rules - k,
        {
            let e = exprs.remove(0);
            proof {
                assert(e == expressions@[k as int]);
                assert(e@ == vs[k as int]);
                assert(exprs@ =~= expressions@.subrange(k + 1, n_rules as int));
                assert(e.wf());
                assert(wf_view(vs[k as int]));
                lemma_offset_monotone(vs, k + 1, vs.len() as int);
                assert(offset_of(vs, k + 1) == offset_of(vs, k as int)
                    + vs[k as int].terminals.len());
            }
            let off = root.terminals.len();
            proof {
                assert forall|p: usize| e.last_set@.contains(p) implies p + off <= usize::MAX by {
                    assert(bounded(vs[k as int].last, vs[k as int].terminals.len() as int));
                }
            }
            let shifted = e.last_set.shifted(off);
            rule_lasts.push(shifted);
            let e_nullable = e.is_nullable;
            if nullable.is_none() && e_nullable {
                nullable = Some(k);
            }
            let ghost pre = vs.subrange(0, k as int);
            let ghost cur = vs.subrange(0, k + 1);
            root = root.or(e);
            proof {
                assert(cur.drop_last() =~= pre);
                assert(cur.last() == vs[k as int]);
                assert(combined(cur) == alt_view(combined(pre), vs[k as int]));
                assert(root@ == combined(cur));
                assert(root.terminals@.len() == root@.terminals.len());
                assert(rule_lasts@[k as int]@ == shift_set(vs[k as int].last, off as int));
                assert(nullable_rule_of(cur, nullable)) by {
                    match nullable {
                        Some(i) => {
                            assert(cur[i as int] == vs[i as int]);
                            assert forall|j: int| 0 <= j < i implies !cur[j].nullable by {
                                assert(cur[j] == pre[j]);
                            }
                        },
                        None => {
                            assert forall|j: int| 0 <= j < cur.len() implies !cur[j].nullable by {
                                if j < k as int {
                                    assert(cur[j] == pre[j]);
                                }
                            }
                        },
                    }
                }
            }
            k += 1;
        }
        proof {
            assert(vs.subrange(0, n_rules as int) =~= vs);
            assert(root@ == combined(vs));
            assert(root.terminals@.len() == total_terminals(vs));
            // the automaton inputs are consistent
            assert(terminals_view(root.terminals) =~= root@.terminals);
            assert(terminals_wf(terminals_view(root.terminals)));
            assert forall|i: int|
                0 <= i < rule_lasts@.len() implies bounded(
                #[trigger] lasts_view(rule_lasts)[i],
                root.terminals@.len() as int,
            ) by {
                assert(lasts_view(rule_lasts)[i] == rule_last(vs, i));
                lemma_offset_monotone(vs, 0, i);
                lemma_offset_monotone(vs, i + 1, vs.len() as int);
                assert(offset_of(vs, i + 1) == offset_of(vs, i) + vs[i].terminals.len());
                assert forall|p: usize| rule_last(vs, i).contains(p) implies p
                    < root.terminals@.len() by {
                    assert(vs[i].last.contains((p - offset_of(vs, i)) as usize));
                    assert(bounded(vs[i].last, vs[i].terminals.len() as int));
                }
            }
            assert forall|i: int, j: int, p: usize|
                #![trigger lasts_view(rule_lasts)[i].contains(p), lasts_view(rule_lasts)[j].contains(p)]
                0 <= i < j < rule_lasts@.len() implies !(lasts_view(rule_lasts)[i].contains(p)
                && lasts_view(rule_lasts)[j].contains(p)) by {
                if lasts_view(rule_lasts)[i].contains(p) && lasts_view(rule_lasts)[j].contains(p) {
                    assert(rule_last(vs, i).contains(p));
                    assert(rule_last(vs, j).contains(p));
                    lemma_offset_monotone(vs, 0, i);
                    assert(vs[i].last.contains((p - offset_of(vs, i)) as usize));
                    assert(bounded(vs[i].last, vs[i].terminals.len() as int));
                    assert(p < offset_of(vs, i) + vs[i].terminals.len());
                    assert(offset_of(vs, i + 1) == offset_of(vs, i) + vs[i].terminals.len());
                    lemma_offset_monotone(vs, i + 1, j);
                    assert(p < offset_of(vs, j));
                }
            }
            assert(automaton_inputs_wf(root.terminals, rule_lasts));
            assert(bounded(root.first_set@, root.terminals@.len() as int));
            assert(root.first_set@ != Set::<usize>::empty());
        }
        let nfa = non_finite_automaton_from(&root.terminals, &rule_lasts, &root.first_set);
        let ghost m = nfa@;
        let ghost ts = terminals_view(root.terminals);
        let ghost lv = lasts_view(rule_lasts);
        let ghost states = Seq::new(m.len(), |j: int| m[j].state);
        let n_states = nfa.entries.len();
        let mut dfa: Vec<Vec<Action>> = Vec::new();
        let mut si: usize = 0;
        while si < n_states
            invariant
                si <= n_states,
                dfa@.len() == si,
                forall|s: int| 0 <= s < si ==> (#[trigger] dfa@[s])@.len() == 256,
                forall|s: int, c: int|
                    0 <= s < si && 0 <= c < 256 ==> action_ok(
                        #[trigger] dfa@[s]@[c],
                        accept_of(ts, lv, states[s], c as u8),
                        next_of(ts, states[s], c as u8),
                        states,
                    ),
            decreases n_states - si,
        {
            let mut row: Vec<Action> = Vec::new();
            let mut c: usize = 0;
            while c < 256
                invariant
                    c <= 256,
                    si < n_states,
                    row@.len() == c,
                    forall|d: int|
                        0 <= d < c ==> action_ok(
                            #[trigger] row@[d],
                            accept_of(ts, lv, states[si as int], d as u8),
                            next_of(ts, states[si as int], d as u8),
                            states,
                        ),
                decreases 256 - c,
            {
                proof {
                    assert(m[si as int] == nfa.entries@[si as int]@);
                    assert(m[si as int].table[c as int] == nfa.entries@[si as int].table@[c as int]@);
                    assert(m[si as int].table[c as int].accept == accept_of(
                        ts,
                        lv,
                        states[si as int],
                        c as u8,
                    ));
                    assert(m[si as int].table[c as int].next == next_of(
                        ts,
                        states[si as int],
                        c as u8,
                    ));
                }
                let action: Action;
                if nfa.entries[si].table[c].accept.is_empty() {
                    if nfa.entries[si].table[c].next.is_empty() {
                        action = Action::Failure;
                    } else {
                        proof {
                            assert(nfa_has_state(m, m[si as int].table[c as int].next));
                        }
                        let j = nfa.find_state(&nfa.entries[si].table[c].next);
                        action = Action::GoTo(j);
                        proof {
                            assert(states[j as int] == m[si as int].table[c as int].next);
                        }
                    }
                } else {
                    let rule = nfa.entries[si].table[c].accept.min();
                    if nfa.entries[si].table[c].next.is_empty() {
                        action = Action::Accept(rule);
                    } else {
                        proof {
                            assert(nfa_has_state(m, m[si as int].table[c as int].next));
                        }
                        let j = nfa.find_state(&nfa.entries[si].table[c].next);
                        action = Action::AcceptAndGoto(rule, j);
                        proof {
                            assert(states[j as int] == m[si as int].table[c as int].next);
                        }
                    }
                }
                row.push(action);
                c += 1;
            }
            dfa.push(row);
            si += 1;
        }
        let first_state = nfa.find_state(&root.first_set);
        let rec = Recognizer { first_state, nullable, dfa };
        proof {
            assert(states.len() == rec@.dfa.len());
            assert forall|j1: int, j2: int| 0 <= j1 < j2 < states.len() implies states[j1]
                != states[j2] by {
                assert(m[j1].state != m[j2].state);
            }
            assert forall|j: int| 0 <= j < states.len() implies (#[trigger] states[j]) != Set::<
                usize,
            >::empty() by {
                assert(m[j].state != Set::<usize>::empty());
            }
            assert(states[rec@.first_state as int] == root.first_set@);
            assert forall|s: int| 0 <= s < rec@.dfa.len() implies (#[trigger] rec@.dfa[s]).len()
                == 256 by {
                assert(rec@.dfa[s] == dfa@[s]@);
            }
            assert forall|s: int, c: int|
                0 <= s < rec@.dfa.len() && 0 <= c < 256 implies action_ok(
                #[trigger] rec@.dfa[s][c],
                accept_of(ts, lv, states[s], c as u8),
                next_of(ts, states[s], c as u8),
                states,
            ) by {
                assert(rec@.dfa[s] == dfa@[s]@);
            }
            assert(states_ok(rec@, ts, lv, root.first_set@, states));
            assert(recognizer_of(rec@, ts, lv, root.first_set@));
            assert(ts =~= combined(vs).terminals);
            assert(lv =~= rule_lasts_of(vs));
            assert(root.first_set@ == combined(vs).first);
            assert(recognizer_of(rec@, combined(vs).terminals, rule_lasts_of(vs), combined(
                vs,
            ).first));
            assert(nullable_rule_of(vs, rec@.nullable));
            // structural well-formedness follows from the state naming
            assert(rec@.dfa.len() > 0) by {
                assert(nfa_has_state(m, root.first_set@));
            }
            assert forall|s: int, c: int|
                0 <= s < rec@.dfa.len() && 0 <= c < 256 implies action_in_range(
                #[trigger] rec@.dfa[s][c],
                rec@.dfa.len() as int,
            ) by {
                assert(action_ok(
                    rec@.dfa[s][c],
                    accept_of(ts, lv, states[s], c as u8),
                    next_of(ts, states[s], c as u8),
                    states,
                ));
            }
        }
        rec
    }
}

/// One scanning step agrees between two tables that realize the same
/// position automaton, from any pair of state ids that name the same
/// position set.
proof fn lemma_scan_agrees(
    a: RecognizerV,
    sa: Seq<Set<usize>>,
    b: RecognizerV,
    sb: Seq<Set<usize>>,
    ts: Seq<TerminalV>,
    lasts: Seq<Set<usize>>,
    init: Set<usize>,
    ja: int,
    jb: int,
    input: Seq<u8>,
    i: int,
    best: Option<(usize, int)>,
)
    requires
        states_ok(a, ts, lasts, init, sa),
        states_ok(b, ts, lasts, init, sb),
        0 <= ja < sa.len(),
        0 <= jb < sb.len(),
        sa[ja] == sb[jb],
        0 <= i,
    ensures
        scan(a.dfa, ja, input, i, best) == scan(b.dfa, jb, input, i, best),
    decreases input.len() - i,
{
    if i < input.len() {
        let c = input[i];
        let acc = accept_of(ts, lasts, sa[ja], c);
        let nxt = next_of(ts, sa[ja], c);
        let aa = a.dfa[ja][c as int];
        let ab = b.dfa[jb][c as int];
        assert(action_ok(aa, acc, nxt, sa));
        assert(action_ok(ab, acc, nxt, sb));
        match aa {
            Action::Failure => {
                match ab {
                    Action::Failure => {},
                    Action::Accept(r2) => {
                        assert(acc.contains(r2));
                        assert(false);
                    },
                    Action::GoTo(_n2) => {
                        assert(false);
                    },
                    Action::AcceptAndGoto(r2, _n2) => {
                        assert(acc.contains(r2));
                        assert(false);
                    },
                }
            },
            Action::Accept(r) => {
                assert(acc.contains(r));
                match ab {
                    Action::Accept(r2) => {
                        assert(acc.contains(r2));
                        assert(r == r2);
                    },
                    Action::Failure => {
                        assert(false);
                    },
                    Action::GoTo(_n2) => {
                        assert(false);
                    },
                    Action::AcceptAndGoto(_r2, _n2) => {
                        assert(false);
                    },
                }
            },
            Action::GoTo(na) => {
                match ab {
                    Action::GoTo(nb) => {
                        assert(sa[na as int] == nxt && sb[nb as int] == nxt);
                        lemma_scan_agrees(
                            a,
                            sa,
                            b,
                            sb,
                            ts,
                            lasts,
                            init,
                            na as int,
                            nb as int,
                            input,
                            i + 1,
                            best,
                        );
                    },
                    Action::Failure => {
                        assert(false);
                    },
                    Action::Accept(r2) => {
                        assert(acc.contains(r2));
                        assert(false);
                    },
                    Action::AcceptAndGoto(r2, _n2) => {
                        assert(acc.contains(r2));
                        assert(false);
                    },
                }
            },
            Action::AcceptAndGoto(r, na) => {
                assert(acc.contains(r));
                match ab {
                    Action::AcceptAndGoto(r2, nb) => {
                        assert(acc.contains(r2));
                        assert(r == r2);
                        assert(sa[na as int] == nxt && sb[nb as int] == nxt);
                        lemma_scan_agrees(
                            a,
                            sa,
                            b,
                            sb,
                            ts,
                            lasts,
                            init,
                            na as int,
                            nb as int,
                            input,
                            i + 1,
                            Some((r, i + 1)),
                        );
                    },
                    Action::Failure => {
                        assert(false);
                    },
                    Action::Accept(_r2) => {
                        assert(false);
                    },
                    Action::GoTo(_n2) => {
                        assert(false);
                    },
                }
            },
        }
    }
}

/// Compiling the same ordered rule list twice and matching the same input
/// yields the same result, however the two compilations numbered their
/// internal states: the scan outcome is a function of the rule list and
/// the input alone.
pub proof fn lemma_compile_deterministic(
    a: RecognizerV,
    b: RecognizerV,
    rules: Seq<ExpressionV>,
    input: Seq<u8>,
)
    requires
        rules.len() >= 1,
        compiled_from(a, rules),
        compiled_from(b, rules),
    ensures
        scan(a.dfa, a.first_state as int, input, 0, initial_best(a.nullable)) == scan(
            b.dfa,
            b.first_state as int,
            input,
            0,
            initial_best(b.nullable),
        ),
{
    assert(a.nullable == b.nullable) by {
        match (a.nullable, b.nullable) {
            (Some(i), Some(j)) => {
                if (i as int) < (j as int) {
                    assert(!rules[i as int].nullable);
                    assert(false);
                }
                if (j as int) < (i as int) {
                    assert(!rules[j as int].nullable);
                    assert(false);
                }
            },
            (Some(i), None) => {
                assert(rules[i as int].nullable);
                assert(false);
            },
            (None, Some(j)) => {
                assert(rules[j as int].nullable);
                assert(false);
            },
            (None, None) => {},
        }
    }
    let ts = combined(rules).terminals;
    let lasts = rule_lasts_of(rules);
    let init = combined(rules).first;
    let sa = choose|states: Seq<Set<usize>>| states_ok(a, ts, lasts, init, states);
    let sb = choose|states: Seq<Set<usize>>| states_ok(b, ts, lasts, init, states);
    assert(sa[a.first_state as int] == init && sb[b.first_state as int] == init);
    lemma_scan_agrees(
        a,
        sa,
        b,
        sb,
        ts,
        lasts,
        init,
        a.first_state as int,
        b.first_state as int,
        input,
        0,
        initial_best(a.nullable),
    );
}

/// Earlier rule prefixes claim smaller global offsets.
proof fn lemma_offset_monotone(exprs: Seq<ExpressionV>, i: int, j: int)
    requires
        0 <= i <= j <= exprs.len(),
    ensures
        offset_of(exprs, i) <= offset_of(exprs, j),
    decreases j - i,
{
    if i < j {
        lemma_offset_monotone(exprs, i, j - 1);
    }
}

} // verus!

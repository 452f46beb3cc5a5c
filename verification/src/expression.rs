//! Rule expressions: the combinator algebra.
//!
//! An expression carries the Glushkov annotations of the rule it denotes:
//! whether it can match the empty sequence, which positions may start or end
//! a match, and one terminal (byte predicate plus follow set) per position.
//! Positions are local to an expression; a combining operation renumbers the
//! right-hand side by the left-hand side's terminal count, so the combined
//! position space is again contiguous from zero.

use vstd::prelude::*;
use crate::position_set::{bounded, shift_set, PositionSet};
use crate::position_set::{lemma_shift_bounded, lemma_shift_nonempty};

verus! {

/// A byte predicate, tabulated over all 256 byte values.
pub struct Predicate {
    pub table: Vec<bool>,
}

impl View for Predicate {
    type V = Seq<bool>;

    open spec fn view(&self) -> Seq<bool> {
        self.table@
    }
}

impl Clone for Predicate {
    fn clone(&self) -> (r: Self)
        ensures
            r@ == self@,
    {
        let mut table: Vec<bool> = Vec::new();
        let mut i: usize = 0;
        while i < self.table.len()
            invariant
                i <= self.table@.len(),
                table@ == self.table@.subrange(0, i as int),
            decreases self.table@.len() - i,
        {
            table.push(self.table[i]);
            i += 1;
        }
        proof {
            assert(table@ =~= self.table@);
        }
        Predicate { table }
    }
}

impl Predicate {
    pub open spec fn wf(self) -> bool {
        self.table@.len() == 256
    }

    /// Tabulate an arbitrary byte test.
    pub fn from_fn<F: Fn(u8) -> bool>(f: F) -> (r: Self)
        requires
            forall|b: u8| call_requires(f, (b,)),
        ensures
            r.wf(),
            forall|b: u8| call_ensures(f, (b,), #[trigger] r@[b as int]),
    {
        let mut table: Vec<bool> = Vec::new();
        let mut c: usize = 0;
        while c < 256
            invariant
                c <= 256,
                table@.len() == c,
                forall|k: int| 0 <= k < c ==> call_ensures(f, ((k as u8),), #[trigger] table@[k]),
            decreases 256 - c,
        {
            let accepted = f(c as u8);
            table.push(accepted);
            c += 1;
        }
        Predicate { table }
    }

    /// Whether the predicate accepts the byte `b`.
    pub fn test(&self, b: u8) -> (r: bool)
        requires
            self.wf(),
        ensures
            r == self@[b as int],
    {
        self.table[b as usize]
    }
}

/// One predicate leaf together with its follow set: the positions that may
/// be live immediately after this one matches a byte.
pub struct Terminal {
    pub satisfy: Predicate,
    pub follow_set: PositionSet,
}

/// The mathematical content of a terminal.
#[verifier::ext_equal]
pub struct TerminalV {
    pub accepts: Seq<bool>,
    pub follow: Set<usize>,
}

impl View for Terminal {
    type V = TerminalV;

    open spec fn view(&self) -> TerminalV {
        TerminalV { accepts: self.satisfy@, follow: self.follow_set@ }
    }
}

impl Terminal {
    pub open spec fn wf(self) -> bool {
        self.satisfy.wf() && self.follow_set.wf()
    }
}

/// A rule expression with its Glushkov annotations.
pub struct Expression {
    pub is_nullable: bool,
    pub first_set: PositionSet,
    pub last_set: PositionSet,
    pub terminals: Vec<Terminal>,
}

/// The mathematical content of an expression.
#[verifier::ext_equal]
pub struct ExpressionV {
    pub nullable: bool,
    pub first: Set<usize>,
    pub last: Set<usize>,
    pub terminals: Seq<TerminalV>,
}

impl View for Expression {
    type V = ExpressionV;

    open spec fn view(&self) -> ExpressionV {
        ExpressionV {
            nullable: self.is_nullable,
            first: self.first_set@,
            last: self.last_set@,
            terminals: self.terminals@.map_values(|t: Terminal| t@),
        }
    }
}

/// The annotations are internally consistent: every predicate covers all 256
/// byte values, every recorded position names one of the terminals, and a
/// match can start and end somewhere.
pub open spec fn wf_view(e: ExpressionV) -> bool {
    &&& bounded(e.first, e.terminals.len() as int)
    &&& bounded(e.last, e.terminals.len() as int)
    &&& forall|k: int|
        0 <= k < e.terminals.len() ==> (#[trigger] e.terminals[k]).accepts.len() == 256 && bounded(
            e.terminals[k].follow,
            e.terminals.len() as int,
        )
    &&& e.first != Set::<usize>::empty()
    &&& e.last != Set::<usize>::empty()
}

/// The result of `satisfy`: one terminal that both starts and ends a match.
pub open spec fn leaf_view(accepts: Seq<bool>) -> ExpressionV {
    ExpressionV {
        nullable: false,
        first: Set::<usize>::empty().insert(0usize),
        last: Set::<usize>::empty().insert(0usize),
        terminals: seq![TerminalV { accepts: accepts, follow: Set::<usize>::empty() }],
    }
}

/// The result of `star`: each position that may end a match is followed by
/// each position that may start one, and the empty sequence matches.
pub open spec fn star_view(e: ExpressionV) -> ExpressionV {
    ExpressionV {
        nullable: true,
        first: e.first,
        last: e.last,
        terminals: Seq::new(
            e.terminals.len(),
            |k: int|
                TerminalV {
                    accepts: e.terminals[k].accepts,
                    follow: if e.last.contains(k as usize) {
                        e.terminals[k].follow.union(e.first)
                    } else {
                        e.terminals[k].follow
                    },
                },
        ),
    }
}

/// A terminal with its follow positions moved up by `off`.
pub open spec fn shift_terminal(t: TerminalV, off: int) -> TerminalV {
    TerminalV { accepts: t.accepts, follow: shift_set(t.follow, off) }
}

/// An expression with every recorded position moved up by `off`.
pub open spec fn shift_expr(e: ExpressionV, off: int) -> ExpressionV {
    ExpressionV {
        nullable: e.nullable,
        first: shift_set(e.first, off),
        last: shift_set(e.last, off),
        terminals: Seq::new(e.terminals.len(), |k: int| shift_terminal(e.terminals[k], off)),
    }
}

/// The result of `and`: `b`'s positions are renumbered past `a`'s, every
/// position ending a match of `a` is followed by the positions starting `b`,
/// and the boundary annotations account for either side being nullable.
pub open spec fn concat_view(a: ExpressionV, b: ExpressionV) -> ExpressionV {
    let off = a.terminals.len() as int;
    ExpressionV {
        nullable: a.nullable && b.nullable,
        first: if a.nullable {
            a.first.union(shift_set(b.first, off))
        } else {
            a.first
        },
        last: if b.nullable {
            shift_set(b.last, off).union(a.last)
        } else {
            shift_set(b.last, off)
        },
        terminals: Seq::new(
            a.terminals.len() + b.terminals.len(),
            |k: int|
                if k < off {
                    TerminalV {
                        accepts: a.terminals[k].accepts,
                        follow: if a.last.contains(k as usize) {
                            a.terminals[k].follow.union(shift_set(b.first, off))
                        } else {
                            a.terminals[k].follow
                        },
                    }
                } else {
                    shift_terminal(b.terminals[k - off], off)
                },
        ),
    }
}

/// The result of `or`: `b`'s positions are renumbered past `a`'s and the
/// boundary annotations are united; no follow set changes.
pub open spec fn alt_view(a: ExpressionV, b: ExpressionV) -> ExpressionV {
    let off = a.terminals.len() as int;
    ExpressionV {
        nullable: a.nullable || b.nullable,
        first: a.first.union(shift_set(b.first, off)),
        last: a.last.union(shift_set(b.last, off)),
        terminals: a.terminals + Seq::new(
            b.terminals.len(),
            |k: int| shift_terminal(b.terminals[k], off),
        ),
    }
}

impl Expression {
    /// The representation invariant: canonical position vectors throughout,
    /// and consistent annotations.
    pub open spec fn wf(self) -> bool {
        &&& self.first_set.wf()
        &&& self.last_set.wf()
        &&& forall|k: int| 0 <= k < self.terminals@.len() ==> (#[trigger] self.terminals@[k]).wf()
        &&& wf_view(self@)
    }

    /// The leaf rule: match exactly one byte accepted by `f`.
    pub fn satisfy<F: Fn(u8) -> bool>(f: F) -> (r: Self)
        requires
            forall|b: u8| call_requires(f, (b,)),
        ensures
            r.wf(),
            r@ == leaf_view(r@.terminals[0].accepts),
            forall|b: u8| call_ensures(f, (b,), #[trigger] r@.terminals[0].accepts[b as int]),
    {
        let pred = Predicate::from_fn(f);
        let mut terminals: Vec<Terminal> = Vec::new();
        terminals.push(Terminal { satisfy: pred, follow_set: PositionSet::new() });
        let r = Expression {
            is_nullable: false,
            first_set: PositionSet::singleton(0),
            last_set: PositionSet::singleton(0),
            terminals,
        };
        proof {
            assert(r@.terminals =~= seq![r@.terminals[0]]);
            assert(r@ =~~= leaf_view(r@.terminals[0].accepts));
            assert(r@.first.contains(0usize));
            assert forall|p: usize| r@.first.contains(p) implies p < 1 by {}
        }
        r
    }

    /// Kleene repetition: zero or more matches of `self` in sequence.
    pub fn star(self) -> (r: Self)
        requires
            self.wf(),
        ensures
            r.wf(),
            r@ == star_view(self@),
    {
        let n = self.terminals.len();
        let mut terminals: Vec<Terminal> = Vec::new();
        let mut k: usize = 0;
        while k < n
            invariant
                k <= n,
                terminals@.len() == k,
                forall|j: int| 0 <= j < k ==> (#[trigger] terminals@[j]).wf(),
                forall|j: int|
                    0 <= j < k ==> (#[trigger] terminals@[j])@ == star_view(self@).terminals[j],
            decreases n - k,
        {
            let t = &self.terminals[k];
            let mut follow = t.follow_set.clone();
            if self.last_set.contains(k) {
                follow.union_with(&self.first_set);
            }
            terminals.push(Terminal { satisfy: t.satisfy.clone(), follow_set: follow });
            proof {
                assert(terminals@[k as int]@ =~~= star_view(self@).terminals[k as int]);
            }
            k += 1;
        }
        let r = Expression {
            is_nullable: true,
            first_set: self.first_set,
            last_set: self.last_set,
            terminals,
        };
        proof {
            assert(r@.terminals =~= star_view(self@).terminals);
            assert(r@ =~~= star_view(self@));
        }
        r
    }

    /// Renumber every recorded position up by `offset`.
    fn update_positions(&mut self, offset: usize)
        requires
            old(self).wf(),
            old(self).terminals@.len() + offset <= usize::MAX,
        ensures
            final(self)@ == shift_expr(old(self)@, offset as int),
            final(self).first_set.wf(),
            final(self).last_set.wf(),
            final(self).terminals@.len() == old(self).terminals@.len(),
            forall|k: int|
                0 <= k < final(self).terminals@.len() ==> (#[trigger] final(self).terminals@[k]).wf(),
    {
        let n = self.terminals.len();
        let shifted_first = self.first_set.shifted(offset);
        let shifted_last = self.last_set.shifted(offset);
        self.first_set = shifted_first;
        self.last_set = shifted_last;
        let mut terminals: Vec<Terminal> = Vec::new();
        let mut k: usize = 0;
        while k < n
            invariant
                k <= n,
                n == self.terminals@.len(),
                self.terminals == old(self).terminals,
                terminals@.len() == k,
                forall|j: int| 0 <= j < k ==> (#[trigger] terminals@[j]).wf(),
                forall|j: int|
                    0 <= j < k ==> (#[trigger] terminals@[j])@ == shift_terminal(
                        old(self)@.terminals[j],
                        offset as int,
                    ),
            decreases n - k,
        {
            let t = &self.terminals[k];
            proof {
                assert(old(self)@.terminals[k as int].follow == t.follow_set@);
                assert(bounded(old(self)@.terminals[k as int].follow, n as int));
            }
            terminals.push(
                Terminal {
                    satisfy: t.satisfy.clone(),
                    follow_set: t.follow_set.shifted(offset),
                },
            );
            k += 1;
        }
        self.terminals = terminals;
        proof {
            assert(self@.terminals =~= shift_expr(old(self)@, offset as int).terminals);
            assert(self@ =~~= shift_expr(old(self)@, offset as int));
        }
    }

    /// Concatenation: a match of `self` followed immediately by one of `other`.
    pub fn and(self, other: Self) -> (r: Self)
        requires
            self.wf(),
            other.wf(),
            self.terminals@.len() + other.terminals@.len() <= usize::MAX,
        ensures
            r.wf(),
            r@ == concat_view(self@, other@),
    {
        let ghost av = self@;
        let ghost bv = other@;
        let off = self.terminals.len();
        let mut other = other;
        other.update_positions(off);
        let mut terminals: Vec<Terminal> = Vec::new();
        let mut k: usize = 0;
        while k < off
            invariant
                k <= off,
                off == self.terminals@.len(),
                other@ == shift_expr(bv, off as int),
                terminals@.len() == k,
                forall|j: int| 0 <= j < k ==> (#[trigger] terminals@[j]).wf(),
                forall|j: int|
                    0 <= j < k ==> (#[trigger] terminals@[j])@ == concat_view(av, bv).terminals[j],
            decreases off - k,
        {
            let t = &self.terminals[k];
            let mut follow = t.follow_set.clone();
            if self.last_set.contains(k) {
                follow.union_with(&other.first_set);
            }
            terminals.push(Terminal { satisfy: t.satisfy.clone(), follow_set: follow });
            proof {
                assert(terminals@[k as int]@ =~~= concat_view(av, bv).terminals[k as int]);
            }
            k += 1;
        }
        let b_nullable = other.is_nullable;
        let b_first = other.first_set;
        let b_last = other.last_set;
        let mut b_terminals = other.terminals;
        let ghost bterms = b_terminals@;
        terminals.append(&mut b_terminals);
        let first_set = if self.is_nullable {
            let mut f = self.first_set;
            f.union_with(&b_first);
            f
        } else {
            self.first_set
        };
        let last_set = if b_nullable {
            let mut l = b_last;
            l.union_with(&self.last_set);
            l
        } else {
            b_last
        };
        let r = Expression {
            is_nullable: self.is_nullable && b_nullable,
            first_set,
            last_set,
            terminals,
        };
        proof {
            assert forall|j: int| 0 <= j < r@.terminals.len() implies r@.terminals[j]
                == concat_view(av, bv).terminals[j] by {
                if j >= off {
                    assert(r.terminals@[j] == bterms[j - off]);
                    assert(bterms[j - off]@ == shift_expr(bv, off as int).terminals[j - off]);
                }
            }
            assert(r@.terminals =~= concat_view(av, bv).terminals);
            assert(r@ =~~= concat_view(av, bv));
            lemma_concat_wf(av, bv);
        }
        r
    }

    /// Alternation: a match of either `self` or `other`.
    pub fn or(self, other: Self) -> (r: Self)
        requires
            self.wf(),
            other.wf(),
            self.terminals@.len() + other.terminals@.len() <= usize::MAX,
        ensures
            r.wf(),
            r@ == alt_view(self@, other@),
    {
        let ghost av = self@;
        let ghost bv = other@;
        let off = self.terminals.len();
        let mut other = other;
        other.update_positions(off);
        let b_nullable = other.is_nullable;
        let b_first = other.first_set;
        let b_last = other.last_set;
        let mut b_terminals = other.terminals;
        let ghost bterms = b_terminals@;
        let mut terminals = self.terminals;
        terminals.append(&mut b_terminals);
        let mut first_set = self.first_set;
        first_set.union_with(&b_first);
        let mut last_set = self.last_set;
        last_set.union_with(&b_last);
        let r = Expression {
            is_nullable: self.is_nullable || b_nullable,
            first_set,
            last_set,
            terminals,
        };
        proof {
            let off = av.terminals.len() as int;
            assert forall|j: int| 0 <= j < r@.terminals.len() implies r@.terminals[j] == alt_view(
                av,
                bv,
            ).terminals[j] by {
                if j >= off {
                    assert(r.terminals@[j] == bterms[j - off]);
                    assert(bterms[j - off]@ == shift_expr(bv, off).terminals[j - off]);
                }
            }
            assert(r@.terminals =~= alt_view(av, bv).terminals);
            assert(r@ =~~= alt_view(av, bv));
            lemma_alt_wf(av, bv);
        }
        r
    }
}

/// Concatenation keeps the annotations consistent.
proof fn lemma_concat_wf(a: ExpressionV, b: ExpressionV)
    requires
        wf_view(a),
        wf_view(b),
        a.terminals.len() + b.terminals.len() <= usize::MAX,
    ensures
        wf_view(concat_view(a, b)),
{
    let off = a.terminals.len() as int;
    let n = a.terminals.len() + b.terminals.len();
    let r = concat_view(a, b);
    lemma_shift_bounded(b.first, b.terminals.len() as int, off);
    lemma_shift_bounded(b.last, b.terminals.len() as int, off);
    lemma_shift_nonempty(b.last, b.terminals.len() as int, a.terminals.len() as usize);
    lemma_set_nonempty_witness(shift_set(b.last, off));
    let q = choose|q: usize| shift_set(b.last, off).contains(q);
    assert(r.last.contains(q));
    assert(r.first != Set::<usize>::empty()) by {
        if a.nullable {
            lemma_set_nonempty_witness(a.first);
            let p = choose|p: usize| a.first.contains(p);
            assert(r.first.contains(p));
        }
    }
    assert forall|k: int| 0 <= k < r.terminals.len() implies (#[trigger] r.terminals[k]).accepts.len()
        == 256 && bounded(r.terminals[k].follow, n as int) by {
        if k < off {
            lemma_shift_bounded(b.first, b.terminals.len() as int, off);
        } else {
            lemma_shift_bounded(b.terminals[k - off].follow, b.terminals.len() as int, off);
        }
    }
}

/// Alternation keeps the annotations consistent.
proof fn lemma_alt_wf(a: ExpressionV, b: ExpressionV)
    requires
        wf_view(a),
        wf_view(b),
        a.terminals.len() + b.terminals.len() <= usize::MAX,
    ensures
        wf_view(alt_view(a, b)),
{
    let off = a.terminals.len() as int;
    let n = a.terminals.len() + b.terminals.len();
    let r = alt_view(a, b);
    lemma_shift_bounded(b.first, b.terminals.len() as int, off);
    lemma_shift_bounded(b.last, b.terminals.len() as int, off);
    lemma_set_nonempty_witness(a.first);
    let p = choose|p: usize| a.first.contains(p);
    assert(r.first.contains(p));
    lemma_set_nonempty_witness(a.last);
    let q = choose|q: usize| a.last.contains(q);
    assert(r.last.contains(q));
    assert forall|k: int| 0 <= k < r.terminals.len() implies (#[trigger] r.terminals[k]).accepts.len()
        == 256 && bounded(r.terminals[k].follow, n as int) by {
        if k >= off {
            lemma_shift_bounded(b.terminals[k - off].follow, b.terminals.len() as int, off);
        }
    }
}

/// A non-empty set has a member.
proof fn lemma_set_nonempty_witness(s: Set<usize>)
    requires
        s != Set::<usize>::empty(),
    ensures
        exists|p: usize| s.contains(p),
{
    if !(exists|p: usize| s.contains(p)) {
        assert(s =~= Set::<usize>::empty());
    }
}

} // verus!

//! Ordered sets of positions.
//!
//! A position is a non-negative integer naming one predicate leaf of the
//! compiled rules.  Sets of positions are the states of the automaton; they
//! are kept as strictly increasing vectors, so that two vectors hold the
//! same set exactly when they are equal.

use vstd::prelude::*;
use vstd::seq_lib::*;
use vstd::set_lib::{lemma_int_range, lemma_len_subset, set_int_range};
use vstd::arithmetic::power2::{lemma_pow2_pos, lemma_pow2_strictly_increases, pow2};

verus! {

/// A strictly increasing sequence: the canonical layout of a set.
pub open spec fn sorted_strict(s: Seq<usize>) -> bool {
    forall|i: int, j: int| 0 <= i < j < s.len() ==> s[i] < s[j]
}

/// Every position of `s` lies below `n`.
pub open spec fn bounded(s: Set<usize>, n: int) -> bool {
    forall|p: usize| s.contains(p) ==> p < n
}

/// The set `s` with every position moved up by `off`.
pub open spec fn shift_set(s: Set<usize>, off: int) -> Set<usize> {
    Set::new(|q: usize| off <= q && s.contains((q - off) as usize))
}

/// `m` is the least element of `s`.
pub open spec fn is_min_of(m: usize, s: Set<usize>) -> bool {
    s.contains(m) && forall|x: usize| s.contains(x) ==> m <= x
}

/// Shifting keeps positions below the shifted bound.
pub proof fn lemma_shift_bounded(s: Set<usize>, n: int, off: int)
    requires
        bounded(s, n),
        0 <= off,
    ensures
        bounded(shift_set(s, off), n + off),
{
    assert forall|q: usize| shift_set(s, off).contains(q) implies q < n + off by {
        assert(s.contains((q - off) as usize));
    }
}

/// Shifting a non-empty set of bounded positions keeps it non-empty.
pub proof fn lemma_shift_nonempty(s: Set<usize>, n: int, off: usize)
    requires
        bounded(s, n),
        s != Set::<usize>::empty(),
        off + n <= usize::MAX,
    ensures
        shift_set(s, off as int) != Set::<usize>::empty(),
{
    assert(exists|p: usize| s.contains(p)) by {
        if !(exists|p: usize| s.contains(p)) {
            assert(s =~= Set::<usize>::empty());
        }
    }
    let p = choose|p: usize| s.contains(p);
    let q = (p + off) as usize;
    assert(shift_set(s, off as int).contains(q));
}

/// An ordered set of positions, stored as a strictly increasing vector.
pub struct PositionSet {
    pub items: Vec<usize>,
}

impl View for PositionSet {
    type V = Set<usize>;

    open spec fn view(&self) -> Set<usize> {
        self.items@.to_set()
    }
}

impl Clone for PositionSet {
    fn clone(&self) -> (r: Self)
        ensures
            r.seq() == self.seq(),
            r@ == self@,
            r.wf() == self.wf(),
    {
        let mut items: Vec<usize> = Vec::new();
        let mut i: usize = 0;
        while i < self.items.len()
            invariant
                i <= self.items@.len(),
                items@ == self.items@.subrange(0, i as int),
            decreases self.items@.len() - i,
        {
            items.push(self.items[i]);
            i += 1;
        }
        proof {
            assert(items@ =~= self.items@);
        }
        PositionSet { items }
    }
}

impl PositionSet {
    /// The underlying ordered sequence of positions.
    pub open spec fn seq(self) -> Seq<usize> {
        self.items@
    }

    /// The vector is strictly increasing, so it denotes its set canonically.
    pub open spec fn wf(self) -> bool {
        sorted_strict(self.items@)
    }

    pub fn new() -> (r: Self)
        ensures
            r.wf(),
            r@ == Set::<usize>::empty(),
            r.seq() == Seq::<usize>::empty(),
    {
        let r = PositionSet { items: Vec::new() };
        proof {
            assert(r@ =~= Set::<usize>::empty());
        }
        r
    }

    pub fn singleton(p: usize) -> (r: Self)
        ensures
            r.wf(),
            r@ == Set::<usize>::empty().insert(p),
    {
        let mut items: Vec<usize> = Vec::new();
        items.push(p);
        let r = PositionSet { items };
        proof {
            assert forall|x: usize|
                Set::<usize>::empty().insert(p).contains(x) implies r@.contains(x) by {
                assert(r.items@[0] == x);
            }
            assert(r@ =~= Set::<usize>::empty().insert(p));
        }
        r
    }

    pub fn len(&self) -> (n: usize)
        ensures
            n == self.seq().len(),
    {
        self.items.len()
    }

    pub fn is_empty(&self) -> (r: bool)
        ensures
            r <==> self@ == Set::<usize>::empty(),
            r <==> self.seq().len() == 0,
    {
        proof {
            if self.items@.len() == 0 {
                assert(self@ =~= Set::<usize>::empty());
            } else {
                assert(self@.contains(self.items@[0]));
            }
        }
        self.items.len() == 0
    }

    pub fn get(&self, i: usize) -> (p: usize)
        requires
            i < self.seq().len(),
        ensures
            p == self.seq()[i as int],
            self@.contains(p),
    {
        self.items[i]
    }

    pub fn contains(&self, p: usize) -> (r: bool)
        ensures
            r == self@.contains(p),
    {
        let mut i: usize = 0;
        while i < self.items.len()
            invariant
                i <= self.items@.len(),
                forall|k: int| 0 <= k < i ==> self.items@[k] != p,
            decreases self.items@.len() - i,
        {
            if self.items[i] == p {
                return true;
            }
            i += 1;
        }
        false
    }

    /// The least position of a non-empty set: the head of the vector.
    pub fn min(&self) -> (r: usize)
        requires
            self.wf(),
            self@ != Set::<usize>::empty(),
        ensures
            is_min_of(r, self@),
    {
        proof {
            if self.items@.len() == 0 {
                assert(self@ =~= Set::<usize>::empty());
            }
            assert forall|x: usize| self@.contains(x) implies self.items@[0] <= x by {
                let k = choose|k: int| 0 <= k < self.items@.len() && self.items@[k] == x;
                if k > 0 {
                    assert(self.items@[0] < self.items@[k]);
                }
            }
        }
        self.items[0]
    }

    /// Add one position, keeping the vector strictly increasing.
    pub fn insert(&mut self, p: usize)
        requires
            old(self).wf(),
        ensures
            final(self).wf(),
            final(self)@ == old(self)@.insert(p),
    {
        let mut i: usize = 0;
        while i < self.items.len() && self.items[i] < p
            invariant
                i <= self.items@.len(),
                forall|k: int| 0 <= k < i ==> self.items@[k] < p,
            decreases self.items@.len() - i,
        {
            i += 1;
        }
        if i < self.items.len() && self.items[i] == p {
            proof {
                assert(self@.contains(p));
                assert(self@ =~= old(self)@.insert(p));
            }
            return;
        }
        let ghost prior = self.items@;
        self.items.insert(i, p);
        proof {
            prior.insert_ensures(i as int, p);
            assert forall|a: int, b: int| 0 <= a < b < self.items@.len() implies self.items@[a]
                < self.items@[b] by {
                if a == i as int {
                    assert(self.items@[b] == prior[b - 1]);
                    assert(prior[i as int] > p || i as int > b - 1);
                } else if b == i as int {
                    assert(self.items@[a] == prior[a]);
                } else if a < i as int && b > i as int {
                    assert(self.items@[a] == prior[a] && self.items@[b] == prior[b - 1]);
                    assert(prior[a] < p);
                    if prior[b - 1] <= p {
                        assert(b - 1 >= i as int);
                        assert(b - 1 == i as int || prior[i as int] < prior[b - 1]);
                    }
                }
            }
            assert forall|x: usize| self@.contains(x) implies old(self)@.insert(p).contains(x) by {
                let k = choose|k: int| 0 <= k < self.items@.len() && self.items@[k] == x;
                if k < i as int {
                    assert(prior[k] == x);
                } else if k > i as int {
                    assert(prior[k - 1] == x);
                }
            }
            assert forall|x: usize| old(self)@.insert(p).contains(x) implies self@.contains(x) by {
                if x == p {
                    assert(self.items@[i as int] == p);
                } else {
                    let k = choose|k: int| 0 <= k < prior.len() && prior[k] == x;
                    if k < i as int {
                        assert(self.items@[k] == x);
                    } else {
                        assert(self.items@[k + 1] == x);
                    }
                }
            }
            assert(self@ =~= old(self)@.insert(p));
        }
    }

    /// Grow this set by every position of `other` (set union).
    pub fn union_with(&mut self, other: &PositionSet)
        requires
            old(self).wf(),
        ensures
            final(self).wf(),
            final(self)@ == old(self)@.union(other@),
    {
        let mut i: usize = 0;
        while i < other.items.len()
            invariant
                i <= other.items@.len(),
                self.wf(),
                self@ == old(self)@.union(other.items@.subrange(0, i as int).to_set()),
            decreases other.items@.len() - i,
        {
            self.insert(other.items[i]);
            proof {
                let prev = other.items@.subrange(0, i as int);
                let cur = other.items@.subrange(0, i + 1);
                assert forall|x: usize| cur.to_set().contains(x) implies prev.to_set().insert(
                    other.items@[i as int],
                ).contains(x) by {
                    let k = choose|k: int| 0 <= k < cur.len() && cur[k] == x;
                    if k < i as int {
                        assert(prev[k] == x);
                    }
                }
                assert forall|x: usize|
                    prev.to_set().insert(other.items@[i as int]).contains(x) implies cur.to_set()
                    .contains(x) by {
                    if prev.to_set().contains(x) {
                        let k = choose|k: int| 0 <= k < prev.len() && prev[k] == x;
                        assert(cur[k] == x);
                    } else {
                        assert(cur[i as int] == x);
                    }
                }
                assert(cur.to_set() =~= prev.to_set().insert(other.items@[i as int]));
                assert(self@ =~= old(self)@.union(cur.to_set()));
            }
            i += 1;
        }
        proof {
            assert(other.items@.subrange(0, other.items@.len() as int) =~= other.items@);
            assert(self@ =~= old(self)@.union(other@));
        }
    }

    /// A copy of this set with every position moved up by `offset`.
    pub fn shifted(&self, offset: usize) -> (r: Self)
        requires
            self.wf(),
            forall|p: usize| self@.contains(p) ==> p + offset <= usize::MAX,
        ensures
            r.wf(),
            r@ == shift_set(self@, offset as int),
            r.seq().len() == self.seq().len(),
    {
        let mut items: Vec<usize> = Vec::new();
        let mut i: usize = 0;
        while i < self.items.len()
            invariant
                i <= self.items@.len(),
                items@.len() == i,
                forall|k: int| 0 <= k < i ==> items@[k] == self.items@[k] + offset,
            decreases self.items@.len() - i,
        {
            proof {
                assert(self.items@.contains(self.items@[i as int]));
                assert(self@.contains(self.items@[i as int]));
            }
            items.push(self.items[i] + offset);
            i += 1;
        }
        let r = PositionSet { items };
        proof {
            assert forall|x: usize| r@.contains(x) implies shift_set(self@, offset as int).contains(
                x,
            ) by {
                let k = choose|k: int| 0 <= k < r.items@.len() && r.items@[k] == x;
                assert(self@.contains(self.items@[k]));
            }
            assert forall|x: usize| shift_set(self@, offset as int).contains(x) implies r@.contains(
                x,
            ) by {
                let p = (x - offset) as usize;
                let k = choose|k: int| 0 <= k < self.items@.len() && self.items@[k] == p;
                assert(r.items@[k] == x);
            }
            assert(r@ =~= shift_set(self@, offset as int));
        }
        r
    }

    /// Whether two canonical vectors hold the same set.
    pub fn eq_set(&self, other: &PositionSet) -> (r: bool)
        requires
            self.wf(),
            other.wf(),
        ensures
            r <==> self@ == other@,
    {
        if self.items.len() != other.items.len() {
            proof {
                if self@ == other@ {
                    lemma_sorted_unique(self.items@, other.items@);
                }
            }
            return false;
        }
        let mut i: usize = 0;
        while i < self.items.len()
            invariant
                i <= self.items@.len(),
                forall|k: int| 0 <= k < i ==> self.items@[k] == other.items@[k],
            decreases self.items@.len() - i,
        {
            if self.items[i] != other.items[i] {
                proof {
                    if self@ == other@ {
                        lemma_sorted_unique(self.items@, other.items@);
                    }
                }
                return false;
            }
            i += 1;
        }
        proof {
            assert(self.items@ =~= other.items@);
        }
        true
    }
}

/// Two strictly increasing vectors that hold the same set are equal:
/// the layout is canonical.
proof fn lemma_sorted_unique(a: Seq<usize>, b: Seq<usize>)
    requires
        sorted_strict(a),
        sorted_strict(b),
        a.to_set() == b.to_set(),
    ensures
        a == b,
    decreases a.len(),
{
    if a.len() == 0 {
        if b.len() > 0 {
            assert(b.to_set().contains(b[0]));
            assert(a.contains(b[0]));
        }
        assert(a =~= b);
    } else if b.len() == 0 {
        assert(a.to_set().contains(a[0]));
        assert(b.contains(a[0]));
    } else {
        assert(a.to_set().contains(a[0]));
        assert(b.to_set().contains(b[0]));
        let ka = choose|k: int| 0 <= k < a.len() && a[k] == b[0];
        let kb = choose|k: int| 0 <= k < b.len() && b[k] == a[0];
        assert(a[0] <= a[ka] && b[0] <= b[kb]);
        assert(a[0] == b[0]);
        let at = a.subrange(1, a.len() as int);
        let bt = b.subrange(1, b.len() as int);
        assert forall|x: usize| at.to_set().contains(x) implies bt.to_set().contains(x) by {
            let k = choose|k: int| 0 <= k < at.len() && at[k] == x;
            assert(a[k + 1] == x);
            assert(a[0] < x);
            assert(a.contains(x));
            assert(b.to_set().contains(x));
            assert(b.contains(x));
            let m = choose|m: int| 0 <= m < b.len() && b[m] == x;
            assert(m != 0);
            assert(bt[m - 1] == x);
        }
        assert forall|x: usize| bt.to_set().contains(x) implies at.to_set().contains(x) by {
            let k = choose|k: int| 0 <= k < bt.len() && bt[k] == x;
            assert(b[k + 1] == x);
            assert(b[0] < x);
            assert(b.contains(x));
            assert(a.to_set().contains(x));
            assert(a.contains(x));
            let m = choose|m: int| 0 <= m < a.len() && a[m] == x;
            assert(m != 0);
            assert(at[m - 1] == x);
        }
        assert(at.to_set() =~= bt.to_set());
        lemma_sorted_unique(at, bt);
        assert forall|k: int| 0 <= k < a.len() implies a[k] == b[k] by {
            if k > 0 {
                assert(at[k - 1] == bt[k - 1]);
            }
        }
        assert(a =~= b);
    }
}

/// The bit pattern a sorted position vector denotes: one bit per position.
spec fn mask_of(s: Seq<usize>) -> nat
    decreases s.len(),
{
    if s.len() == 0 {
        0
    } else {
        mask_of(s.drop_last()) + pow2(s.last() as nat)
    }
}

/// A vector of positions below `n` denotes a pattern below `pow2(n)`.
proof fn lemma_mask_bound(s: Seq<usize>, n: nat)
    requires
        sorted_strict(s),
        forall|k: int| 0 <= k < s.len() ==> s[k] < n,
    ensures
        mask_of(s) < pow2(n),
    decreases s.len(),
{
    lemma_pow2_pos(n);
    if s.len() > 0 {
        let last = s.last();
        lemma_mask_bound(s.drop_last(), last as nat);
        lemma_pow2_pos(last as nat);
        assert(mask_of(s) < pow2(last as nat) + pow2(last as nat));
        assert(pow2(last as nat) + pow2(last as nat) == pow2((last + 1) as nat)) by {
            vstd::arithmetic::power2::lemma_pow2_unfold((last + 1) as nat);
        }
        if last + 1 < n {
            lemma_pow2_strictly_increases((last + 1) as nat, n);
        }
    }
}

/// Distinct sorted vectors denote distinct bit patterns.
proof fn lemma_mask_injective(a: Seq<usize>, b: Seq<usize>)
    requires
        sorted_strict(a),
        sorted_strict(b),
        mask_of(a) == mask_of(b),
    ensures
        a == b,
    decreases a.len() + b.len(),
{
    if a.len() == 0 && b.len() == 0 {
        assert(a =~= b);
    } else if a.len() == 0 {
        lemma_pow2_pos(b.last() as nat);
        assert(false);
    } else if b.len() == 0 {
        lemma_pow2_pos(a.last() as nat);
        assert(false);
    } else {
        if a.last() != b.last() {
            if a.last() < b.last() {
                lemma_mask_smaller_than_top(a, b);
            } else {
                lemma_mask_smaller_than_top(b, a);
            }
            assert(false);
        }
        lemma_mask_injective(a.drop_last(), b.drop_last());
        assert forall|k: int| 0 <= k < a.len() implies a[k] == b[k] by {
            if k < a.len() - 1 {
                assert(a.drop_last()[k] == b.drop_last()[k]);
            }
        }
        assert(a =~= b);
    }
}

/// When `a`'s top position is below `b`'s, `a`'s pattern is below `b`'s.
proof fn lemma_mask_smaller_than_top(a: Seq<usize>, b: Seq<usize>)
    requires
        sorted_strict(a),
        a.len() > 0,
        b.len() > 0,
        a.last() < b.last(),
    ensures
        mask_of(a) < mask_of(b),
{
    lemma_mask_bound(a, (a.last() + 1) as nat);
    if a.last() + 1 < b.last() {
        lemma_pow2_strictly_increases((a.last() + 1) as nat, b.last() as nat);
    }
    assert(mask_of(b) >= pow2(b.last() as nat));
}

/// A family of pairwise distinct sets of positions below `n` has at most
/// `pow2(n)` members: the reachable state space is finite.
pub proof fn lemma_distinct_state_count(states: Seq<Seq<usize>>, n: nat)
    requires
        forall|k: int| 0 <= k < states.len() ==> sorted_strict(#[trigger] states[k]),
        forall|k: int, m: int|
            0 <= k < states.len() && 0 <= m < states[k].len() ==> #[trigger] states[k][m] < n,
        forall|k1: int, k2: int| 0 <= k1 < k2 < states.len() ==> states[k1] != states[k2],
    ensures
        states.len() <= pow2(n),
{
    let masks = Seq::new(states.len(), |k: int| mask_of(states[k]) as int);
    assert forall|k1: int, k2: int|
        0 <= k1 < masks.len() && 0 <= k2 < masks.len() && k1 != k2 implies masks[k1]
        != masks[k2] by {
        if masks[k1] == masks[k2] {
            lemma_mask_injective(states[k1], states[k2]);
        }
    }
    assert(masks.no_duplicates());
    masks.unique_seq_to_set();
    assert forall|x: int| masks.to_set().contains(x) implies set_int_range(
        0,
        pow2(n) as int,
    ).contains(x) by {
        let k = choose|k: int| 0 <= k < masks.len() && masks[k] == x;
        lemma_mask_bound(states[k], n);
    }
    lemma_int_range(0, pow2(n) as int);
    lemma_len_subset(masks.to_set(), set_int_range(0, pow2(n) as int));
}

} // verus!

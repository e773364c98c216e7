//! Synthesis of bitwise expressions: given a set of factor masks, decide
//! whether a target mask is constructible from them under bitwise AND, OR and
//! NOT, and build a minimum-cost expression tree that produces it exactly.
//!
//! The search is a memoized recursion over candidate decompositions. An AND
//! decomposition pairs two one-bit supersets of the target whose AND restores
//! it exactly; an OR decomposition pairs two one-bit subsets; a NOT
//! decomposition resolves the complement at a unit penalty. A visiting set
//! breaks cycles between mutually dependent candidates, and a step budget
//! bounds the total exploration on pathological inputs.
use vstd::prelude::*;

pub mod judge;

verus! {

use crate::judge::makable;

/// Default ceiling on the number of uncached resolutions one instance may
/// attempt; defensive termination insurance for pathological inputs.
pub const STEP_BUDGET: u64 = 4000;

/// The method of a cached resolution: how a mask is produced from resolved
/// sub-masks, a factor leaf, or the unreachable sentinel.
#[derive(Clone, Copy, PartialEq, Eq, Structural, Debug)]
pub enum Step {
    Not(u8),
    And(u8, u8),
    Or(u8, u8),
    Exist,
    Magic,
}

/// An immutable expression tree decoded from the cache.
pub enum Expr {
    Not(Box<Expr>),
    And(Box<Expr>, Box<Expr>),
    Or(Box<Expr>, Box<Expr>),
    Exist(u8),
    Magic,
}

/// The synthesizer: owns the factor set, the permanent result cache, the
/// transient visiting set and the remaining step budget.
pub struct Maker {
    pub factors: Vec<u8>,
    pub cache: Vec<Option<(u64, Step)>>,
    pub visiting: Vec<bool>,
    pub steps: u64,
    pub rank: Ghost<Seq<nat>>,
    pub next_rank: Ghost<nat>,
}

/// Cost addition, saturating at the sentinel cost.
pub open spec fn add_cost_s(a: u64, b: u64) -> u64 {
    if a + b >= u64::MAX {
        u64::MAX
    } else {
        (a + b) as u64
    }
}

/// The transient result for an unreachable or cycle-blocked mask.
pub open spec fn magic_step() -> (u64, Step) {
    (u64::MAX, Step::Magic)
}

/// `a` is a strict superset of the target's bits.
pub open spec fn sup1(t: u8, a: u8) -> bool {
    (a & t) == t && a != t
}

/// Two distinct supersets whose AND restores the target exactly: a candidate
/// AND decomposition of `t`.
pub open spec fn and_pair(t: u8, a: u8, b: u8) -> bool {
    sup1(t, a) && sup1(t, b) && a != b && (a & b) == t
}

/// `a` is a strict subset of the target's bits.
pub open spec fn sub1(t: u8, a: u8) -> bool {
    (a | t) == t && a != t
}

/// Two distinct subsets whose OR restores the target exactly: a candidate
/// OR decomposition of `t`.
pub open spec fn or_pair(t: u8, a: u8, b: u8) -> bool {
    sub1(t, a) && sub1(t, b) && a != b && (a | b) == t
}

/// Number of positions currently outside the visiting set; the termination
/// measure of the search.
pub open spec fn count_false(s: Seq<bool>) -> nat
    decreases s.len(),
{
    if s.len() == 0 {
        0
    } else {
        count_false(s.drop_last()) + (if s.last() {
            0nat
        } else {
            1nat
        })
    }
}

proof fn lemma_count_false_update(s: Seq<bool>, i: int, v: bool)
    requires
        0 <= i < s.len(),
    ensures
        count_false(s.update(i, v)) + (if s[i] {
            0nat
        } else {
            1nat
        }) == count_false(s) + (if v {
            0nat
        } else {
            1nat
        }),
    decreases s.len(),
{
    let t = s.update(i, v);
    if i == s.len() - 1 {
        assert(t.drop_last() =~= s.drop_last());
        assert(t.last() == v);
    } else {
        lemma_count_false_update(s.drop_last(), i, v);
        assert(t.drop_last() =~= s.drop_last().update(i, v));
        assert(t.last() == s.last());
    }
}

proof fn lemma_and_comm(x: u8, y: u8)
    by (bit_vector)
    ensures
        (x & y) == (y & x),
{
}

proof fn lemma_or_comm(x: u8, y: u8)
    by (bit_vector)
    ensures
        (x | y) == (y | x),
{
}

proof fn lemma_not_not(t: u8)
    by (bit_vector)
    ensures
        !(!t) == t,
{
}

/// The post state keeps every cached resolution of the pre state unchanged,
/// the same factors and visiting set, and no larger a budget.
pub open spec fn extends(pre: Maker, post: Maker) -> bool {
    &&& post.factors == pre.factors
    &&& post.visiting@ == pre.visiting@
    &&& post.steps_left() <= pre.steps_left()
    &&& forall|m: u8|
        #[trigger] pre.cached(m) ==> post.cached(m) && post.entry(m) == pre.entry(m)
            && post.rank_of(m) == pre.rank_of(m)
}

proof fn lemma_extends_trans(a: Maker, b: Maker, c: Maker)
    requires
        extends(a, b),
        extends(b, c),
    ensures
        extends(a, c),
{
    assert forall|m: u8| #[trigger] a.cached(m) implies c.cached(m) && c.entry(m) == a.entry(m)
        && c.rank_of(m) == a.rank_of(m) by {
        assert(b.cached(m));
    }
}



/// The chosen result costs no more than any decomposition over masks that
/// were already resolved when the search began, and on equal cost the AND
/// route is preferred to NOT, and NOT to OR.
#[verifier::rlimit(100)]
proof fn lemma_pick(
    marked: Maker,
    s1: Maker,
    s2: Maker,
    s3: Maker,
    target: u8,
    and_r: (u64, Step),
    not_r: (u64, Step),
    or_r: (u64, Step),
    b1: (u64, Step),
    best: (u64, Step),
)
    requires
        extends(marked, s1),
        extends(s1, s2),
        extends(s2, s3),
        forall|a: u8, b: u8|
            #[trigger] and_pair(target, a, b) && marked.cached(a) && marked.cached(b) ==> and_r.0
                <= add_cost_s(marked.entry(a).0, marked.entry(b).0),
        forall|a: u8, b: u8|
            #[trigger] or_pair(target, a, b) && s2.cached(a) && s2.cached(b) ==> or_r.0
                <= add_cost_s(s2.entry(a).0, s2.entry(b).0),
        s1.cached(!target) ==> not_r.1 == Step::Not(!target) && not_r.0 == add_cost_s(
            s1.entry(!target).0,
            1,
        ),
        b1.0 <= and_r.0,
        b1.0 <= not_r.0,
        best.0 <= b1.0,
        best.0 <= or_r.0,
        best.1 is Not ==> not_r.0 < and_r.0,
        best.1 is Or ==> or_r.0 < b1.0 && best == or_r,
    ensures
        forall|a: u8, b: u8|
            #[trigger] and_pair(target, a, b) && marked.cached(a) && marked.cached(b) ==> best.0
                <= add_cost_s(marked.entry(a).0, marked.entry(b).0) && ((best.1 is Not || best.1
                is Or) ==> best.0 < add_cost_s(marked.entry(a).0, marked.entry(b).0)),
        forall|a: u8, b: u8|
            #[trigger] or_pair(target, a, b) && marked.cached(a) && marked.cached(b) ==> best.0
                <= add_cost_s(marked.entry(a).0, marked.entry(b).0),
        marked.cached(!target) ==> best.0 <= add_cost_s(marked.entry(!target).0, 1) && (best.1
            is Or ==> best.0 < add_cost_s(marked.entry(!target).0, 1)),
{
    lemma_extends_trans(marked, s1, s2);
    assert forall|a: u8, b: u8|
        #[trigger] and_pair(target, a, b) && marked.cached(a) && marked.cached(b) implies best.0
        <= add_cost_s(marked.entry(a).0, marked.entry(b).0) && ((best.1 is Not || best.1 is Or)
        ==> best.0 < add_cost_s(marked.entry(a).0, marked.entry(b).0)) by {
        assert(and_r.0 <= add_cost_s(marked.entry(a).0, marked.entry(b).0));
        if best.1 is Not {
            assert(best.0 <= not_r.0);
        }
        if best.1 is Or {
            assert(best.0 == or_r.0 && or_r.0 < b1.0 && b1.0 <= and_r.0);
        }
    }
    assert forall|a: u8, b: u8|
        #[trigger] or_pair(target, a, b) && marked.cached(a) && marked.cached(b) implies best.0
        <= add_cost_s(marked.entry(a).0, marked.entry(b).0) by {
        assert(s2.cached(a) && s2.cached(b));
        assert(s2.entry(a) == marked.entry(a) && s2.entry(b) == marked.entry(b));
        assert(or_r.0 <= add_cost_s(s2.entry(a).0, s2.entry(b).0));
    }
    if marked.cached(!target) {
        assert(s1.cached(!target));
        assert(s1.entry(!target) == marked.entry(!target));
        assert(not_r.0 == add_cost_s(marked.entry(!target).0, 1));
        assert(best.0 <= add_cost_s(marked.entry(!target).0, 1));
        if best.1 is Or {
            assert(best.0 == or_r.0 && or_r.0 < b1.0 && b1.0 <= not_r.0);
        }
    }
}


/// A call on this state will run a full search for the target.
pub open spec fn fresh_search(pre: Maker, target: u8) -> bool {
    !pre.visiting_s(target) && !pre.cached(target) && pre.steps_left() >= 1
}

impl Maker {
    /// The mask has a permanent cached resolution.
    pub open spec fn cached(self, m: u8) -> bool {
        self.cache@[m as int] is Some
    }

    /// The cached cost and method of a resolved mask.
    pub open spec fn entry(self, m: u8) -> (u64, Step) {
        match self.cache@[m as int] {
            Some(e) => e,
            None => magic_step(),
        }
    }

    /// The mask is under active resolution on the call stack.
    pub open spec fn visiting_s(self, m: u8) -> bool {
        self.visiting@[m as int]
    }

    /// Remaining step budget.
    pub open spec fn steps_left(self) -> u64 {
        self.steps
    }

    /// Insertion order of a cached mask; children always precede parents.
    pub open spec fn rank_of(self, m: u8) -> nat {
        self.rank@[m as int]
    }

    /// Well-formedness of one cached resolution: its method recombines to the
    /// mask exactly, its children are cached earlier, and its cost is the
    /// children's cost sum (plus one for NOT). The sentinel is never cached.
    pub open spec fn entry_ok(self, m: u8) -> bool {
        match self.entry(m).1 {
            Step::Exist => self.factors@.contains(m) && self.entry(m).0 == 0,
            Step::Not(n) => n == !m && self.cached(n) && self.rank_of(n) < self.rank_of(m)
                && self.entry(m).0 == add_cost_s(self.entry(n).0, 1),
            Step::And(a, b) => (a & b) == m && and_pair(m, a, b) && self.cached(a) && self.cached(
                b,
            ) && self.rank_of(a) < self.rank_of(m) && self.rank_of(b) < self.rank_of(m)
                && self.entry(m).0 == add_cost_s(self.entry(a).0, self.entry(b).0),
            Step::Or(a, b) => (a | b) == m && or_pair(m, a, b) && self.cached(a) && self.cached(b)
                && self.rank_of(a) < self.rank_of(m) && self.rank_of(b) < self.rank_of(m)
                && self.entry(m).0 == add_cost_s(self.entry(a).0, self.entry(b).0),
            Step::Magic => false,
        }
    }

    /// The instance invariant: every cached mask has a well-formed resolution,
    /// lies in the feasibility closure of the factors, and precedes the next
    /// insertion rank; visiting masks are never cached; every factor is cached
    /// as a zero-cost leaf.
    pub open spec fn inv(self) -> bool {
        &&& self.cache@.len() == 256
        &&& self.visiting@.len() == 256
        &&& self.rank@.len() == 256
        &&& forall|m: u8| #[trigger] self.cached(m) ==> self.entry_ok(m)
        &&& forall|m: u8| #[trigger] self.cached(m) ==> self.rank_of(m) < self.next_rank@
        &&& forall|m: u8| #[trigger] self.cached(m) ==> makable(m, self.factors@)
        &&& forall|m: u8| #[trigger] self.visiting_s(m) ==> !self.cached(m)
        &&& forall|i: int|
            0 <= i < self.factors@.len() ==> self.cached(#[trigger] self.factors@[i]) && self.entry(
                self.factors@[i],
            ) == (0u64, Step::Exist)
    }

    /// A new synthesizer over the given factors, each pre-seeded in the cache
    /// as an existing leaf of cost zero.
    pub fn new(factors: Vec<u8>) -> (m: Maker)
        ensures
            m.inv(),
            m.factors == factors,
            m.steps_left() == STEP_BUDGET,
            forall|x: u8| #[trigger] m.cached(x) == factors@.contains(x),
            forall|x: u8| factors@.contains(x) ==> m.entry(x) == (0u64, Step::Exist),
            forall|x: u8| !(#[trigger] m.visiting_s(x)),
    {
        let mut cache: Vec<Option<(u64, Step)>> = Vec::new();
        let mut visiting: Vec<bool> = Vec::new();
        let mut k: usize = 0;
        while k < 256
            invariant
                cache@.len() == k,
                visiting@.len() == k,
                k <= 256,
                forall|j: int| 0 <= j < k ==> cache@[j] is None,
                forall|j: int| 0 <= j < k ==> !visiting@[j],
            decreases 256 - k,
        {
            cache.push(None);
            visiting.push(false);
            k = k + 1;
        }
        let mut m = Maker {
            factors: factors,
            cache: cache,
            visiting: visiting,
            steps: STEP_BUDGET,
            rank: Ghost(Seq::new(256, |i: int| 0nat)),
            next_rank: Ghost(1nat),
        };
        let ghost fseq = m.factors@;
        let mut i: usize = 0;
        while i < m.factors.len()
            invariant
                m.cache@.len() == 256,
                m.visiting@.len() == 256,
                m.factors == factors,
                m.factors@ == fseq,
                i <= fseq.len(),
                m.steps == STEP_BUDGET,
                m.next_rank@ == 1,
                m.rank@ == Seq::new(256, |j: int| 0nat),
                forall|x: u8| #[trigger] m.cached(x) == exists|j: int| 0 <= j < i && fseq[j] == x,
                forall|x: u8|
                    #[trigger] m.cached(x) ==> m.cache@[x as int] == Some((0u64, Step::Exist)),
                forall|j: int| 0 <= j < 256 ==> !m.visiting@[j],
            decreases fseq.len() - i,
        {
            let ghost m0 = m;
            let f = m.factors[i];
            m.cache[f as usize] = Some((0u64, Step::Exist));
            proof {
                assert(m.cache@ == m0.cache@.update(f as int, Some((0u64, Step::Exist))));
                assert forall|x: u8| #[trigger] m.cached(x) == exists|j: int|
                    0 <= j < i + 1 && fseq[j] == x by {
                    if x == f {
                        assert(m.cached(x));
                        assert(0 <= i < i + 1 && fseq[i as int] == x);
                    } else {
                        assert(m.cache@[x as int] == m0.cache@[x as int]);
                        assert(m.cached(x) == m0.cached(x));
                        if m0.cached(x) {
                            let j = choose|j: int| 0 <= j < i && fseq[j] == x;
                            assert(0 <= j < i + 1 && fseq[j] == x);
                        }
                        if exists|j: int| 0 <= j < i + 1 && fseq[j] == x {
                            let j = choose|j: int| 0 <= j < i + 1 && fseq[j] == x;
                            if j < i {
                                assert(m0.cached(x));
                            } else {
                                assert(fseq[j] == f);
                            }
                        }
                    }
                }
                assert forall|x: u8| #[trigger] m.cached(x) implies m.cache@[x as int] == Some(
                    (0u64, Step::Exist),
                ) by {
                    if x != f {
                        assert(m0.cached(x));
                    }
                }
            }
            i = i + 1;
        }
        proof {
            assert(m.rank@.len() == 256);
            assert forall|x: u8| #[trigger] m.cached(x) == fseq.contains(x) by {
                assert(m.cached(x) == exists|j: int| 0 <= j < fseq.len() && fseq[j] == x);
            }
            assert forall|x: u8| #[trigger] m.cached(x) implies m.entry_ok(x) && m.rank_of(x)
                < m.next_rank@ && makable(x, m.factors@) by {
                assert(m.cache@[x as int] == Some((0u64, Step::Exist)));
                assert(m.entry(x) == (0u64, Step::Exist));
                assert(fseq.contains(x));
                assert(m.rank_of(x) == 0);
                crate::judge::lemma_makable_factor(fseq, x);
            }
            assert forall|x: u8| !(#[trigger] m.visiting_s(x)) by {
                assert(!m.visiting@[x as int]);
            }
            assert forall|j: int| 0 <= j < m.factors@.len() implies m.cached(
                #[trigger] m.factors@[j],
            ) && m.entry(m.factors@[j]) == (0u64, Step::Exist) by {
                assert(fseq.contains(fseq[j]));
                assert(m.cached(fseq[j]));
            }
            assert(m.inv());
        }
        m
    }

    /// The minimum-cost resolution of the target, memoized. Returns the
    /// sentinel without caching when the target is on the active recursion
    /// stack, when the budget is spent, or when no decomposition resolves;
    /// otherwise caches and returns a well-formed resolution. On a fresh
    /// search the result costs no more than any candidate decomposition over
    /// already-resolved masks, and on equal cost AND is preferred to NOT and
    /// NOT to OR.
    #[verifier::rlimit(100)]
    pub fn make(&mut self, target: u8) -> (r: (u64, Step))
        requires
            old(self).inv(),
        ensures
            final(self).inv(),
            extends(*old(self), *final(self)),
            old(self).visiting_s(target) ==> r == magic_step() && *final(self) == *old(self),
            !old(self).visiting_s(target) && old(self).cached(target) ==> r == old(self).entry(
                target,
            ) && *final(self) == *old(self),
            !old(self).visiting_s(target) && !old(self).cached(target) && old(self).steps_left()
                == 0 ==> r == magic_step() && *final(self) == *old(self),
            r.1 is Magic ==> r.0 == u64::MAX && !final(self).cached(target),
            !(r.1 is Magic) ==> final(self).cached(target) && final(self).entry(target) == r,
            (match r.1 {
                Step::And(a, b) => (a & b) == target && and_pair(target, a, b)
                    && final(self).cached(a) && final(self).cached(b) && r.0 == add_cost_s(
                    final(self).entry(a).0,
                    final(self).entry(b).0,
                ),
                Step::Or(a, b) => (a | b) == target && or_pair(target, a, b)
                    && final(self).cached(a) && final(self).cached(b) && r.0 == add_cost_s(
                    final(self).entry(a).0,
                    final(self).entry(b).0,
                ),
                Step::Not(n) => n == !target && final(self).cached(n) && r.0 == add_cost_s(
                    final(self).entry(n).0,
                    1,
                ),
                Step::Exist => final(self).factors@.contains(target) && r.0 == 0,
                Step::Magic => r.0 == u64::MAX,
            }),
            fresh_search(*old(self), target) && old(self).cached(!target) ==> r.0 <= add_cost_s(
                old(self).entry(!target).0,
                1,
            ),
            fresh_search(*old(self), target) ==> forall|a: u8, b: u8|
                #[trigger] and_pair(target, a, b) && old(self).cached(a) && old(self).cached(b)
                    ==> r.0 <= add_cost_s(old(self).entry(a).0, old(self).entry(b).0),
            fresh_search(*old(self), target) ==> forall|a: u8, b: u8|
                #[trigger] or_pair(target, a, b) && old(self).cached(a) && old(self).cached(b)
                    ==> r.0 <= add_cost_s(old(self).entry(a).0, old(self).entry(b).0),
            fresh_search(*old(self), target) && (r.1 is Not || r.1 is Or) ==> forall|a: u8, b: u8|
                #[trigger] and_pair(target, a, b) && old(self).cached(a) && old(self).cached(b)
                    ==> r.0 < add_cost_s(old(self).entry(a).0, old(self).entry(b).0),
            fresh_search(*old(self), target) && r.1 is Or && old(self).cached(!target) ==> r.0
                < add_cost_s(old(self).entry(!target).0, 1),
        decreases count_false(old(self).visiting@), 1int,
    {
        let ghost pre = *self;
        if self.visiting[target as usize] {
            proof {
                assert(pre.visiting_s(target));
                assert(!pre.cached(target));
            }
            return (u64::MAX, Step::Magic);
        }
        let looked = self.cache[target as usize];
        if let Some(e) = looked {
            proof {
                assert(pre.cached(target));
                assert(pre.entry_ok(target));
            }
            return e;
        }
        if self.steps == 0 {
            return (u64::MAX, Step::Magic);
        }
        proof {
            assert(!pre.cached(target));
        }
        let mut active = false;
        let mut v: usize = 0;
        while v < 256
            invariant
                self.inv(),
                pre == *old(self),
                *self == pre,
                v <= 256,
            decreases 256 - v,
        {
            if self.visiting[v] {
                active = true;
            }
            v = v + 1;
        }
        if !active {
            self.bootstrap(target);
        }
        let ghost bs = *self;
        proof {
            if active {
                assert(extends(pre, bs));
            }
        }
        let mut r = self.resolve(target);
        proof {
            lemma_extends_trans(pre, bs, *self);
            assert forall|a: u8, b: u8|
                #[trigger] and_pair(target, a, b) && pre.cached(a) && pre.cached(b) implies r.0
                <= add_cost_s(pre.entry(a).0, pre.entry(b).0) && ((r.1 is Not || r.1 is Or)
                ==> r.0 < add_cost_s(pre.entry(a).0, pre.entry(b).0)) by {
                assert(bs.cached(a) && bs.entry(a) == pre.entry(a));
                assert(bs.cached(b) && bs.entry(b) == pre.entry(b));
            }
            assert forall|a: u8, b: u8|
                #[trigger] or_pair(target, a, b) && pre.cached(a) && pre.cached(b) implies r.0
                <= add_cost_s(pre.entry(a).0, pre.entry(b).0) by {
                assert(bs.cached(a) && bs.entry(a) == pre.entry(a));
                assert(bs.cached(b) && bs.entry(b) == pre.entry(b));
            }
            if pre.cached(!target) {
                assert(bs.cached(!target) && bs.entry(!target) == pre.entry(!target));
            }
        }
        let mut magic = match r.1 {
            Step::Magic => true,
            _ => false,
        };
        while magic && self.steps > 0
            invariant
                magic == (match r.1 {
                    Step::Magic => true,
                    _ => false,
                }),
                self.inv(),
                pre == *old(self),
                !pre.visiting_s(target),
                extends(pre, *self),
                r.1 is Magic ==> r.0 == u64::MAX && !self.cached(target),
                !(r.1 is Magic) ==> self.cached(target) && self.entry(target) == r,
                (match r.1 {
                    Step::And(a, b) => (a & b) == target && and_pair(target, a, b) && self.cached(
                        a,
                    ) && self.cached(b) && r.0 == add_cost_s(self.entry(a).0, self.entry(b).0),
                    Step::Or(a, b) => (a | b) == target && or_pair(target, a, b) && self.cached(a)
                        && self.cached(b) && r.0 == add_cost_s(self.entry(a).0, self.entry(b).0),
                    Step::Not(n) => n == !target && self.cached(n) && r.0 == add_cost_s(
                        self.entry(n).0,
                        1,
                    ),
                    Step::Exist => false,
                    Step::Magic => r.0 == u64::MAX,
                }),
                pre.cached(!target) ==> r.0 <= add_cost_s(pre.entry(!target).0, 1),
                forall|a: u8, b: u8|
                    #[trigger] and_pair(target, a, b) && pre.cached(a) && pre.cached(b) ==> r.0
                        <= add_cost_s(pre.entry(a).0, pre.entry(b).0),
                forall|a: u8, b: u8|
                    #[trigger] or_pair(target, a, b) && pre.cached(a) && pre.cached(b) ==> r.0
                        <= add_cost_s(pre.entry(a).0, pre.entry(b).0),
                (r.1 is Not || r.1 is Or) ==> forall|a: u8, b: u8|
                    #[trigger] and_pair(target, a, b) && pre.cached(a) && pre.cached(b) ==> r.0
                        < add_cost_s(pre.entry(a).0, pre.entry(b).0),
                r.1 is Or && pre.cached(!target) ==> r.0 < add_cost_s(pre.entry(!target).0, 1),
            decreases self.steps,
        {
            let ghost sprev = *self;
            r = self.resolve(target);
            magic = match r.1 {
                Step::Magic => true,
                _ => false,
            };
            proof {
                lemma_extends_trans(pre, sprev, *self);
                assert forall|a: u8, b: u8|
                    #[trigger] and_pair(target, a, b) && pre.cached(a) && pre.cached(b) implies r.0
                    <= add_cost_s(pre.entry(a).0, pre.entry(b).0) && ((r.1 is Not || r.1 is Or)
                    ==> r.0 < add_cost_s(pre.entry(a).0, pre.entry(b).0)) by {
                    assert(sprev.cached(a) && sprev.entry(a) == pre.entry(a));
                    assert(sprev.cached(b) && sprev.entry(b) == pre.entry(b));
                }
                assert forall|a: u8, b: u8|
                    #[trigger] or_pair(target, a, b) && pre.cached(a) && pre.cached(b) implies r.0
                    <= add_cost_s(pre.entry(a).0, pre.entry(b).0) by {
                    assert(sprev.cached(a) && sprev.entry(a) == pre.entry(a));
                    assert(sprev.cached(b) && sprev.entry(b) == pre.entry(b));
                }
                if pre.cached(!target) {
                    assert(sprev.cached(!target) && sprev.entry(!target) == pre.entry(!target));
                }
            }
        }
        r
    }

    /// One full search pass for an uncached target: spends a budget step,
    /// guards the target against reentry, evaluates the three decomposition
    /// testers, keeps the cheapest result with AND preferred to NOT and NOT
    /// to OR on ties, and caches it when it is not the sentinel.
    #[verifier::rlimit(100)]
    fn resolve(&mut self, target: u8) -> (r: (u64, Step))
        requires
            old(self).inv(),
            !old(self).visiting_s(target),
            !old(self).cached(target),
            old(self).steps_left() >= 1,
        ensures
            final(self).inv(),
            extends(*old(self), *final(self)),
            r.1 is Magic ==> r.0 == u64::MAX && !final(self).cached(target),
            !(r.1 is Magic) ==> final(self).cached(target) && final(self).entry(target) == r,
            (match r.1 {
                Step::And(a, b) => (a & b) == target && and_pair(target, a, b)
                    && final(self).cached(a) && final(self).cached(b) && r.0 == add_cost_s(
                    final(self).entry(a).0,
                    final(self).entry(b).0,
                ),
                Step::Or(a, b) => (a | b) == target && or_pair(target, a, b)
                    && final(self).cached(a) && final(self).cached(b) && r.0 == add_cost_s(
                    final(self).entry(a).0,
                    final(self).entry(b).0,
                ),
                Step::Not(n) => n == !target && final(self).cached(n) && r.0 == add_cost_s(
                    final(self).entry(n).0,
                    1,
                ),
                Step::Exist => false,
                Step::Magic => r.0 == u64::MAX,
            }),
            old(self).cached(!target) ==> r.0 <= add_cost_s(old(self).entry(!target).0, 1),
            forall|a: u8, b: u8|
                #[trigger] and_pair(target, a, b) && old(self).cached(a) && old(self).cached(b)
                    ==> r.0 <= add_cost_s(old(self).entry(a).0, old(self).entry(b).0),
            forall|a: u8, b: u8|
                #[trigger] or_pair(target, a, b) && old(self).cached(a) && old(self).cached(b)
                    ==> r.0 <= add_cost_s(old(self).entry(a).0, old(self).entry(b).0),
            (r.1 is Not || r.1 is Or) ==> forall|a: u8, b: u8|
                #[trigger] and_pair(target, a, b) && old(self).cached(a) && old(self).cached(b)
                    ==> r.0 < add_cost_s(old(self).entry(a).0, old(self).entry(b).0),
            r.1 is Or && old(self).cached(!target) ==> r.0 < add_cost_s(
                old(self).entry(!target).0,
                1,
            ),
            final(self).steps_left() < old(self).steps_left(),
        decreases count_false(old(self).visiting@), 0int,
    {
        let ghost pre = *self;
        self.mark(target);
        let ghost marked = *self;
        let and_r = self.test_and(target);
        let ghost s1 = *self;
        let not_r = self.test_not(target);
        let ghost s2 = *self;
        proof {
            lemma_extends_trans(marked, s1, s2);
        }
        let or_r = self.test_or(target);
        let ghost s3 = *self;
        proof {
            lemma_extends_trans(marked, s2, s3);
            lemma_extends_trans(s1, s2, s3);
        }
        let mut best = and_r;
        if not_r.0 < best.0 {
            best = not_r;
        }
        let ghost b1 = best;
        if or_r.0 < best.0 {
            best = or_r;
        }
        proof {
            assert(b1.0 <= and_r.0 && b1.0 <= not_r.0);
            assert(best.0 <= b1.0 && best.0 <= or_r.0);
            if best.1 is Not {
                assert(best == not_r && b1 == not_r);
                assert(not_r.0 < and_r.0);
            }
            if best.1 is Or {
                assert(best == or_r && or_r.0 < b1.0);
            }
            lemma_pick(marked, s1, s2, s3, target, and_r, not_r, or_r, b1, best);
        }
        self.unmark(target);
        proof {
            assert(self.visiting@ =~= pre.visiting@);
            assert forall|m: u8| #[trigger] pre.cached(m) implies self.cached(m) && self.entry(m)
                == pre.entry(m) && self.rank_of(m) == pre.rank_of(m) by {
                assert(marked.cached(m));
                assert(s3.cached(m) && s3.entry(m) == marked.entry(m) && s3.rank_of(m)
                    == marked.rank_of(m));
            }
            assert(extends(pre, *self));
        }
        let magic = match best.1 {
            Step::Magic => true,
            _ => false,
        };
        if magic {
            proof {
                assert(!self.cached(target)) by {
                    assert(s3.visiting_s(target));
                    assert(!s3.cached(target));
                }
            }
            return best;
        }
        proof {
            assert(!self.cached(target)) by {
                assert(s3.visiting_s(target));
                assert(!s3.cached(target));
            }
            match best.1 {
                Step::And(a, b) => {
                    assert(s1.cached(a) && s1.cached(b));
                    assert(s3.cached(a) && s3.entry(a) == s1.entry(a));
                    assert(s3.cached(b) && s3.entry(b) == s1.entry(b));
                    assert(self.cached(a) && self.entry(a) == s1.entry(a));
                    assert(self.cached(b) && self.entry(b) == s1.entry(b));
                },
                Step::Not(n) => {
                    assert(s2.cached(n));
                    assert(s3.cached(n) && s3.entry(n) == s2.entry(n));
                    assert(self.cached(n) && self.entry(n) == s2.entry(n));
                },
                Step::Or(a, b) => {
                    assert(s3.cached(a) && s3.cached(b));
                    assert(self.cached(a) && self.entry(a) == s3.entry(a));
                    assert(self.cached(b) && self.entry(b) == s3.entry(b));
                },
                _ => {
                    assert(false);
                },
            }
        }
        let ghost unmarked = *self;
        self.commit(target, best);
        proof {
            lemma_extends_trans(pre, unmarked, *self);
            match best.1 {
                Step::And(a, b) => {
                    assert(unmarked.cached(a) && unmarked.cached(b));
                    assert(self.entry(a) == unmarked.entry(a));
                    assert(self.entry(b) == unmarked.entry(b));
                },
                Step::Not(n) => {
                    assert(unmarked.cached(n));
                    assert(self.entry(n) == unmarked.entry(n));
                },
                Step::Or(a, b) => {
                    assert(unmarked.cached(a) && unmarked.cached(b));
                    assert(self.entry(a) == unmarked.entry(a));
                    assert(self.entry(b) == unmarked.entry(b));
                },
                _ => {},
            }
        }
        best
    }

    /// Enters a freshly resolved target into the permanent cache and extends
    /// the insertion order; the resolution's children must already be cached.
    #[verifier::rlimit(100)]
    fn commit(&mut self, target: u8, best: (u64, Step))
        requires
            old(self).inv(),
            !old(self).cached(target),
            !old(self).visiting_s(target),
            (match best.1 {
                Step::And(a, b) => (a & b) == target && and_pair(target, a, b)
                    && old(self).cached(a) && old(self).cached(b) && best.0 == add_cost_s(
                    old(self).entry(a).0,
                    old(self).entry(b).0,
                ),
                Step::Or(a, b) => (a | b) == target && or_pair(target, a, b)
                    && old(self).cached(a) && old(self).cached(b) && best.0 == add_cost_s(
                    old(self).entry(a).0,
                    old(self).entry(b).0,
                ),
                Step::Not(n) => n == !target && old(self).cached(n) && best.0 == add_cost_s(
                    old(self).entry(n).0,
                    1,
                ),
                _ => false,
            }),
        ensures
            final(self).inv(),
            extends(*old(self), *final(self)),
            final(self).cached(target),
            final(self).entry(target) == best,
            final(self).steps_left() == old(self).steps_left(),
            forall|m: u8| m != target ==> final(self).cached(m) == old(self).cached(m),
    {
        let ghost pre = *self;
        self.cache[target as usize] = Some(best);
        proof {
            self.rank@ = pre.rank@.update(target as int, pre.next_rank@);
            self.next_rank@ = pre.next_rank@ + 1;
        }
        proof {
            let post = *self;
            // Everything previously cached is untouched: the target was not
            // cached before, so no child reference points at its slot.
            assert forall|m: u8| #[trigger] pre.cached(m) implies post.cached(m) && post.entry(m)
                == pre.entry(m) && post.rank_of(m) == pre.rank_of(m) by {
                assert(m != target);
            }
            assert(extends(pre, post));
            assert forall|m: u8| #[trigger] post.cached(m) implies post.entry_ok(m)
                && post.rank_of(m) < post.next_rank@ && makable(m, post.factors@) by {
                if m != target {
                    assert(pre.cached(m));
                    assert(pre.entry_ok(m));
                    assert(match pre.entry(m).1 {
                        Step::Exist => true,
                        Step::Not(n) => pre.cached(n) && n != target,
                        Step::And(a, b) => pre.cached(a) && pre.cached(b) && a != target && b
                            != target,
                        Step::Or(a, b) => pre.cached(a) && pre.cached(b) && a != target && b
                            != target,
                        Step::Magic => true,
                    });
                    assert(post.entry_ok(m));
                    assert(makable(m, pre.factors@));
                } else {
                    assert(post.entry(target) == best);
                    match best.1 {
                        Step::And(a, b) => {
                            assert(a != target && b != target);
                            assert(post.entry(a) == pre.entry(a));
                            assert(post.entry(b) == pre.entry(b));
                            assert(post.rank_of(a) < post.rank_of(target));
                            assert(post.rank_of(b) < post.rank_of(target));
                            crate::judge::lemma_makable_and(a, b, post.factors@);
                            assert(makable(m, post.factors@));
                        },
                        Step::Not(n) => {
                            assert(n != target);
                            assert(post.entry(n) == pre.entry(n));
                            assert(post.rank_of(n) < post.rank_of(target));
                            crate::judge::lemma_makable_not(n, post.factors@);
                            lemma_not_not(target);
                            assert(makable(m, post.factors@));
                        },
                        Step::Or(a, b) => {
                            assert(a != target && b != target);
                            assert(post.entry(a) == pre.entry(a));
                            assert(post.entry(b) == pre.entry(b));
                            assert(post.rank_of(a) < post.rank_of(target));
                            assert(post.rank_of(b) < post.rank_of(target));
                            crate::judge::lemma_makable_or(a, b, post.factors@);
                            assert(makable(m, post.factors@));
                        },
                        _ => {
                            assert(false);
                        },
                    }
                    assert(post.entry_ok(target));
                }
            }
            assert forall|m: u8| #[trigger] post.visiting_s(m) implies !post.cached(m) by {
                assert(m != target);
                assert(pre.visiting_s(m));
                assert(!pre.cached(m));
            }
            assert forall|i: int| 0 <= i < post.factors@.len() implies post.cached(
                #[trigger] post.factors@[i],
            ) && post.entry(post.factors@[i]) == (0u64, Step::Exist) by {
                assert(pre.cached(pre.factors@[i]));
            }
            assert(post.inv());
        }
    }


    /// Spends one budget step and puts the target on the active recursion
    /// stack.
    fn mark(&mut self, target: u8)
        requires
            old(self).inv(),
            !old(self).cached(target),
            !old(self).visiting_s(target),
            old(self).steps_left() >= 1,
        ensures
            final(self).inv(),
            final(self).cache@ == old(self).cache@,
            final(self).rank@ == old(self).rank@,
            final(self).next_rank@ == old(self).next_rank@,
            final(self).factors == old(self).factors,
            final(self).steps == old(self).steps - 1,
            final(self).visiting@ == old(self).visiting@.update(target as int, true),
            final(self).visiting_s(target),
            count_false(final(self).visiting@) + 1 == count_false(old(self).visiting@),
    {
        let ghost pre = *self;
        self.steps = self.steps - 1;
        self.visiting[target as usize] = true;
        proof {
            lemma_count_false_update(pre.visiting@, target as int, true);
            assert forall|m: u8| #[trigger] self.cached(m) implies self.entry_ok(m)
                && self.rank_of(m) < self.next_rank@ && makable(m, self.factors@) by {
                assert(pre.cached(m));
                assert(pre.entry_ok(m));
            }
            assert forall|m: u8| #[trigger] self.visiting_s(m) implies !self.cached(m) by {
                if m != target {
                    assert(pre.visiting_s(m));
                } else {
                    assert(!pre.cached(target));
                }
            }
            assert forall|i: int| 0 <= i < self.factors@.len() implies self.cached(
                #[trigger] self.factors@[i],
            ) && self.entry(self.factors@[i]) == (0u64, Step::Exist) by {
                assert(pre.cached(pre.factors@[i]));
            }
            assert(self.inv());
        }
    }

    /// Takes the target off the active recursion stack.
    fn unmark(&mut self, target: u8)
        requires
            old(self).inv(),
        ensures
            final(self).inv(),
            final(self).cache@ == old(self).cache@,
            final(self).rank@ == old(self).rank@,
            final(self).next_rank@ == old(self).next_rank@,
            final(self).factors == old(self).factors,
            final(self).steps == old(self).steps,
            final(self).visiting@ == old(self).visiting@.update(target as int, false),
    {
        let ghost pre = *self;
        self.visiting[target as usize] = false;
        proof {
            assert forall|m: u8| #[trigger] self.cached(m) implies self.entry_ok(m)
                && self.rank_of(m) < self.next_rank@ && makable(m, self.factors@) by {
                assert(pre.cached(m));
                assert(pre.entry_ok(m));
            }
            assert forall|m: u8| #[trigger] self.visiting_s(m) implies !self.cached(m) by {
                assert(pre.visiting_s(m));
            }
            assert forall|i: int| 0 <= i < self.factors@.len() implies self.cached(
                #[trigger] self.factors@[i],
            ) && self.entry(self.factors@[i]) == (0u64, Step::Exist) by {
                assert(pre.cached(pre.factors@[i]));
            }
            assert(self.inv());
        }
    }


    /// The cheapest decomposition of `t` over already-cached masks alone:
    /// cached one-bit supersets paired by AND, the cached complement by NOT,
    /// cached one-bit subsets paired by OR, with AND preferred to NOT and
    /// NOT to OR on equal cost. No recursion; the sentinel when nothing is
    /// cached that applies.
    #[verifier::rlimit(100)]
        /// The cheapest decomposition of `t` over already-cached masks alone:
    /// cached supersets paired by AND, the cached complement by NOT, cached
    /// subsets paired by OR, with AND preferred to NOT and NOT to OR on equal
    /// cost. No recursion; the sentinel when nothing cached applies.
    #[verifier::rlimit(100)]
    fn shallow_best(&self, t: u8) -> (r: (u64, Step))
        requires
            self.inv(),
        ensures
            (match r.1 {
                Step::And(a, b) => (a & b) == t && and_pair(t, a, b) && self.cached(a)
                    && self.cached(b) && r.0 == add_cost_s(self.entry(a).0, self.entry(b).0),
                Step::Or(a, b) => (a | b) == t && or_pair(t, a, b) && self.cached(a)
                    && self.cached(b) && r.0 == add_cost_s(self.entry(a).0, self.entry(b).0),
                Step::Not(n) => n == !t && self.cached(n) && r.0 == add_cost_s(
                    self.entry(n).0,
                    1,
                ),
                Step::Exist => false,
                Step::Magic => r.0 == u64::MAX,
            }),
    {
        let mut sups: Vec<(u8, u64)> = Vec::new();
        let mut subs: Vec<(u8, u64)> = Vec::new();
        let mut m: u16 = 0;
        while m < 256
            invariant
                self.inv(),
                m <= 256,
                forall|k: int|
                    0 <= k < sups@.len() ==> sup1(t, (#[trigger] sups@[k]).0) && (sups@[k].0
                        as int) < m as int,
                forall|k: int, l: int| 0 <= k < l < sups@.len() ==> sups@[k].0 != sups@[l].0,
                forall|k: int|
                    0 <= k < sups@.len() ==> self.cached((#[trigger] sups@[k]).0) && self.entry(
                        sups@[k].0,
                    ).0 == sups@[k].1,
                forall|k: int|
                    0 <= k < subs@.len() ==> sub1(t, (#[trigger] subs@[k]).0) && (subs@[k].0
                        as int) < m as int,
                forall|k: int, l: int| 0 <= k < l < subs@.len() ==> subs@[k].0 != subs@[l].0,
                forall|k: int|
                    0 <= k < subs@.len() ==> self.cached((#[trigger] subs@[k]).0) && self.entry(
                        subs@[k].0,
                    ).0 == subs@[k].1,
            decreases 256 - m,
        {
            let c: u8 = m as u8;
            if c != t {
                if let Some(e) = self.cache[c as usize] {
                    if (c & t) == t {
                        sups.push((c, e.0));
                    }
                    if (c | t) == t {
                        subs.push((c, e.0));
                    }
                }
            }
            m = m + 1;
        }
        let and_r = self.best_and_pair(t, &sups);
        let n = !t;
        let not_r: (u64, Step) = match self.cache[n as usize] {
            Some(e) => (add_cost(e.0, 1), Step::Not(n)),
            None => (u64::MAX, Step::Magic),
        };
        let or_r = self.best_or_pair(t, &subs);
        let mut best = and_r;
        if not_r.0 < best.0 {
            best = not_r;
        }
        if or_r.0 < best.0 {
            best = or_r;
        }
        best
    }

    /// Saturates the cache with everything the current entries reach in
    /// cache-only steps, leaving `skip` and all visiting masks untouched.
    /// Each entry is written once and never overwritten.
    fn bootstrap(&mut self, skip: u8)
        requires
            old(self).inv(),
        ensures
            final(self).inv(),
            extends(*old(self), *final(self)),
            final(self).steps_left() == old(self).steps_left(),
            !old(self).cached(skip) ==> !final(self).cached(skip),
    {
        let ghost pre = *self;
        let mut pass: u16 = 0;
        while pass < 256
            invariant
                self.inv(),
                pre == *old(self),
                extends(pre, *self),
                self.steps == pre.steps,
                !pre.cached(skip) ==> !self.cached(skip),
            decreases 256 - pass,
        {
            let mut m: u16 = 0;
            while m < 256
                invariant
                    self.inv(),
                    pre == *old(self),
                    extends(pre, *self),
                    self.steps == pre.steps,
                    !pre.cached(skip) ==> !self.cached(skip),
                decreases 256 - m,
            {
                let t = m as u8;
                if t != skip && !self.visiting[t as usize] {
                    let slot = self.cache[t as usize];
                    if slot.is_none() {
                        let cand = self.shallow_best(t);
                        let magic = match cand.1 {
                            Step::Magic => true,
                            _ => false,
                        };
                        if !magic {
                            let ghost before = *self;
                            self.commit(t, cand);
                            proof {
                                lemma_extends_trans(pre, before, *self);
                            }
                        }
                    }
                }
                m = m + 1;
            }
            pass = pass + 1;
        }
    }

    /// Best AND decomposition of the target: resolve every one-bit superset,
    /// then take the cheapest pair of resolved supersets whose AND is exactly
    /// the target. Returns the sentinel when no pair resolves.
    #[verifier::rlimit(100)]
        /// Best AND decomposition of the target: resolve every strict superset,
    /// then take the cheapest pair of resolved supersets whose AND is exactly
    /// the target. Returns the sentinel when no such pair resolves.
    #[verifier::rlimit(100)]
    pub fn test_and(&mut self, target: u8) -> (r: (u64, Step))
        requires
            old(self).inv(),
        ensures
            final(self).inv(),
            extends(*old(self), *final(self)),
            (match r.1 {
                Step::And(a, b) => (a & b) == target && and_pair(target, a, b)
                    && final(self).cached(a) && final(self).cached(b) && r.0 == add_cost_s(
                    final(self).entry(a).0,
                    final(self).entry(b).0,
                ),
                Step::Magic => r.0 == u64::MAX,
                _ => false,
            }),
            forall|a: u8, b: u8|
                #[trigger] and_pair(target, a, b) && old(self).cached(a) && old(self).cached(b)
                    ==> r.0 <= add_cost_s(old(self).entry(a).0, old(self).entry(b).0),
        decreases count_false(old(self).visiting@), 2int,
    {
        let ghost pre = *self;
        let mut cands: Vec<(u8, u64)> = Vec::new();
        let mut m: u16 = 0;
        while m < 256
            invariant
                self.inv(),
                pre == *old(self),
                extends(pre, *self),
                m <= 256,
                forall|k: int|
                    0 <= k < cands@.len() ==> sup1(target, (#[trigger] cands@[k]).0) && (
                    cands@[k].0 as int) < m as int,
                forall|k: int, l: int| 0 <= k < l < cands@.len() ==> cands@[k].0 != cands@[l].0,
                forall|k: int|
                    0 <= k < cands@.len() ==> self.cached((#[trigger] cands@[k]).0) && self.entry(
                        cands@[k].0,
                    ).0 == cands@[k].1,
                forall|a: u8|
                    (a as int) < m as int && #[trigger] sup1(target, a) && pre.cached(a)
                        ==> exists|k: int|
                        0 <= k < cands@.len() && (#[trigger] cands@[k]).0 == a,
            decreases 256 - m,
        {
            let c: u8 = m as u8;
            if (c & target) == target && c != target {
                let ghost cands0 = cands@;
                let ghost before = *self;
                let e = self.make(c);
                let keep = match e.1 {
                    Step::Magic => false,
                    _ => true,
                };
                if keep {
                    cands.push((c, e.0));
                }
                proof {
                    lemma_extends_trans(pre, before, *self);
                    if pre.cached(c) {
                        assert(before.cached(c));
                        assert(!before.visiting_s(c));
                        assert(before.entry_ok(c));
                        assert(e == before.entry(c));
                        assert(keep);
                    }
                    assert forall|k: int|
                        0 <= k < cands@.len() implies self.cached((#[trigger] cands@[k]).0)
                        && self.entry(cands@[k].0).0 == cands@[k].1 by {
                        if k < cands0.len() {
                            assert(cands@[k] == cands0[k]);
                            assert(before.cached(cands0[k].0));
                        } else {
                            assert(cands@[k] == (c, e.0));
                        }
                    }
                    assert forall|a: u8|
                        (a as int) < m + 1 && #[trigger] sup1(target, a) && pre.cached(a)
                            implies exists|k: int|
                        0 <= k < cands@.len() && (#[trigger] cands@[k]).0 == a by {
                        if (a as int) < m as int {
                            let k = choose|k: int|
                                0 <= k < cands0.len() && (#[trigger] cands0[k]).0 == a;
                            assert(cands@[k] == cands0[k]);
                        } else {
                            assert(a == c);
                            assert(cands@[cands@.len() - 1].0 == a);
                        }
                    }
                }
            }
            m = m + 1;
        }
        let ghost searched = *self;
        let best = self.best_and_pair(target, &cands);
        proof {
            assert forall|a: u8, b: u8|
                #[trigger] and_pair(target, a, b) && pre.cached(a) && pre.cached(b) implies best.0
                <= add_cost_s(pre.entry(a).0, pre.entry(b).0) by {
                assert(sup1(target, a) && sup1(target, b));
                let k = choose|k: int| 0 <= k < cands@.len() && (#[trigger] cands@[k]).0 == a;
                let l = choose|l: int| 0 <= l < cands@.len() && (#[trigger] cands@[l]).0 == b;
                assert(k != l);
                assert(searched.entry(a) == pre.entry(a));
                assert(searched.entry(b) == pre.entry(b));
                assert(cands@[k].1 == pre.entry(a).0);
                assert(cands@[l].1 == pre.entry(b).0);
                lemma_and_comm(cands@[k].0, cands@[l].0);
                if k > l {
                    assert((cands@[k].0 & cands@[l].0) == target);
                    assert(best.0 <= add_cost_s(cands@[k].1, cands@[l].1));
                } else {
                    assert((cands@[l].0 & cands@[k].0) == target);
                    assert(best.0 <= add_cost_s(cands@[l].1, cands@[k].1));
                }
            }
        }
        best
    }

    /// Best OR decomposition of the target: resolve every one-bit subset,
    /// then take the cheapest pair of resolved subsets whose OR is exactly
    /// the target. Returns the sentinel when no pair resolves.
    #[verifier::rlimit(100)]
        /// Best OR decomposition of the target: resolve every strict subset,
    /// then take the cheapest pair of resolved subsets whose OR is exactly
    /// the target. Returns the sentinel when no such pair resolves.
    #[verifier::rlimit(100)]
    pub fn test_or(&mut self, target: u8) -> (r: (u64, Step))
        requires
            old(self).inv(),
        ensures
            final(self).inv(),
            extends(*old(self), *final(self)),
            (match r.1 {
                Step::Or(a, b) => (a | b) == target && or_pair(target, a, b)
                    && final(self).cached(a) && final(self).cached(b) && r.0 == add_cost_s(
                    final(self).entry(a).0,
                    final(self).entry(b).0,
                ),
                Step::Magic => r.0 == u64::MAX,
                _ => false,
            }),
            forall|a: u8, b: u8|
                #[trigger] or_pair(target, a, b) && old(self).cached(a) && old(self).cached(b)
                    ==> r.0 <= add_cost_s(old(self).entry(a).0, old(self).entry(b).0),
        decreases count_false(old(self).visiting@), 2int,
    {
        let ghost pre = *self;
        let mut cands: Vec<(u8, u64)> = Vec::new();
        let mut m: u16 = 0;
        while m < 256
            invariant
                self.inv(),
                pre == *old(self),
                extends(pre, *self),
                m <= 256,
                forall|k: int|
                    0 <= k < cands@.len() ==> sub1(target, (#[trigger] cands@[k]).0) && (
                    cands@[k].0 as int) < m as int,
                forall|k: int, l: int| 0 <= k < l < cands@.len() ==> cands@[k].0 != cands@[l].0,
                forall|k: int|
                    0 <= k < cands@.len() ==> self.cached((#[trigger] cands@[k]).0) && self.entry(
                        cands@[k].0,
                    ).0 == cands@[k].1,
                forall|a: u8|
                    (a as int) < m as int && #[trigger] sub1(target, a) && pre.cached(a)
                        ==> exists|k: int|
                        0 <= k < cands@.len() && (#[trigger] cands@[k]).0 == a,
            decreases 256 - m,
        {
            let c: u8 = m as u8;
            if (c | target) == target && c != target {
                let ghost cands0 = cands@;
                let ghost before = *self;
                let e = self.make(c);
                let keep = match e.1 {
                    Step::Magic => false,
                    _ => true,
                };
                if keep {
                    cands.push((c, e.0));
                }
                proof {
                    lemma_extends_trans(pre, before, *self);
                    if pre.cached(c) {
                        assert(before.cached(c));
                        assert(!before.visiting_s(c));
                        assert(before.entry_ok(c));
                        assert(e == before.entry(c));
                        assert(keep);
                    }
                    assert forall|k: int|
                        0 <= k < cands@.len() implies self.cached((#[trigger] cands@[k]).0)
                        && self.entry(cands@[k].0).0 == cands@[k].1 by {
                        if k < cands0.len() {
                            assert(cands@[k] == cands0[k]);
                            assert(before.cached(cands0[k].0));
                        } else {
                            assert(cands@[k] == (c, e.0));
                        }
                    }
                    assert forall|a: u8|
                        (a as int) < m + 1 && #[trigger] sub1(target, a) && pre.cached(a)
                            implies exists|k: int|
                        0 <= k < cands@.len() && (#[trigger] cands@[k]).0 == a by {
                        if (a as int) < m as int {
                            let k = choose|k: int|
                                0 <= k < cands0.len() && (#[trigger] cands0[k]).0 == a;
                            assert(cands@[k] == cands0[k]);
                        } else {
                            assert(a == c);
                            assert(cands@[cands@.len() - 1].0 == a);
                        }
                    }
                }
            }
            m = m + 1;
        }
        let ghost searched = *self;
        let best = self.best_or_pair(target, &cands);
        proof {
            assert forall|a: u8, b: u8|
                #[trigger] or_pair(target, a, b) && pre.cached(a) && pre.cached(b) implies best.0
                <= add_cost_s(pre.entry(a).0, pre.entry(b).0) by {
                assert(sub1(target, a) && sub1(target, b));
                let k = choose|k: int| 0 <= k < cands@.len() && (#[trigger] cands@[k]).0 == a;
                let l = choose|l: int| 0 <= l < cands@.len() && (#[trigger] cands@[l]).0 == b;
                assert(k != l);
                assert(searched.entry(a) == pre.entry(a));
                assert(searched.entry(b) == pre.entry(b));
                assert(cands@[k].1 == pre.entry(a).0);
                assert(cands@[l].1 == pre.entry(b).0);
                lemma_or_comm(cands@[k].0, cands@[l].0);
                if k > l {
                    assert((cands@[k].0 | cands@[l].0) == target);
                    assert(best.0 <= add_cost_s(cands@[k].1, cands@[l].1));
                } else {
                    assert((cands@[l].0 | cands@[k].0) == target);
                    assert(best.0 <= add_cost_s(cands@[l].1, cands@[k].1));
                }
            }
        }
        best
    }

    /// The cheapest AND pairing over a list of resolved one-bit supersets;
    /// pure selection, the first minimum encountered is kept.
    #[verifier::rlimit(100)]
        /// The cheapest AND pairing over a list of resolved supersets whose AND
    /// restores the target; pure selection, the first minimum is kept.
    #[verifier::rlimit(100)]
    fn best_and_pair(&self, target: u8, cands: &Vec<(u8, u64)>) -> (r: (u64, Step))
        requires
            forall|k: int| 0 <= k < cands@.len() ==> sup1(target, (#[trigger] cands@[k]).0),
            forall|k: int|
                0 <= k < cands@.len() ==> self.cached((#[trigger] cands@[k]).0) && self.entry(
                    cands@[k].0,
                ).0 == cands@[k].1,
            forall|k: int, l: int| 0 <= k < l < cands@.len() ==> cands@[k].0 != cands@[l].0,
        ensures
            (match r.1 {
                Step::And(a, b) => (a & b) == target && and_pair(target, a, b) && self.cached(a)
                    && self.cached(b) && r.0 == add_cost_s(self.entry(a).0, self.entry(b).0),
                Step::Magic => r.0 == u64::MAX,
                _ => false,
            }),
            forall|k: int, l: int|
                0 <= l < k < cands@.len() && ((#[trigger] cands@[k]).0 & (#[trigger] cands@[l]).0)
                    == target ==> r.0 <= add_cost_s(cands@[k].1, cands@[l].1),
    {
        let mut best: (u64, Step) = (u64::MAX, Step::Magic);
        let mut x: usize = 0;
        while x < cands.len()
            invariant
                x <= cands@.len(),
                forall|k: int| 0 <= k < cands@.len() ==> sup1(target, (#[trigger] cands@[k]).0),
                forall|k: int|
                    0 <= k < cands@.len() ==> self.cached((#[trigger] cands@[k]).0) && self.entry(
                        cands@[k].0,
                    ).0 == cands@[k].1,
                forall|k: int, l: int| 0 <= k < l < cands@.len() ==> cands@[k].0 != cands@[l].0,
                (match best.1 {
                    Step::And(a, b) => (a & b) == target && and_pair(target, a, b) && self.cached(a)
                        && self.cached(b) && best.0 == add_cost_s(
                        self.entry(a).0,
                        self.entry(b).0,
                    ),
                    Step::Magic => best.0 == u64::MAX,
                    _ => false,
                }),
                forall|k: int, l: int|
                    0 <= l < k < x && ((#[trigger] cands@[k]).0 & (#[trigger] cands@[l]).0)
                        == target ==> best.0 <= add_cost_s(cands@[k].1, cands@[l].1),
            decreases cands@.len() - x,
        {
            let bm = cands[x].0;
            let bc = cands[x].1;
            let mut y: usize = 0;
            while y < x
                invariant
                    x < cands@.len(),
                    y <= x,
                    bm == cands@[x as int].0,
                    bc == cands@[x as int].1,
                    forall|k: int|
                        0 <= k < cands@.len() ==> sup1(target, (#[trigger] cands@[k]).0),
                    forall|k: int|
                        0 <= k < cands@.len() ==> self.cached((#[trigger] cands@[k]).0)
                            && self.entry(cands@[k].0).0 == cands@[k].1,
                    forall|k: int, l: int| 0 <= k < l < cands@.len() ==> cands@[k].0 != cands@[l].0,
                    (match best.1 {
                        Step::And(a, b) => (a & b) == target && and_pair(target, a, b)
                            && self.cached(a) && self.cached(b) && best.0 == add_cost_s(
                            self.entry(a).0,
                            self.entry(b).0,
                        ),
                        Step::Magic => best.0 == u64::MAX,
                        _ => false,
                    }),
                    forall|k: int, l: int|
                        0 <= l < k < x && ((#[trigger] cands@[k]).0 & (#[trigger] cands@[l]).0)
                            == target ==> best.0 <= add_cost_s(cands@[k].1, cands@[l].1),
                    forall|l: int|
                        0 <= l < y && (bm & (#[trigger] cands@[l]).0) == target ==> best.0
                            <= add_cost_s(bc, (#[trigger] cands@[l]).1),
                decreases x - y,
            {
                let am = cands[y].0;
                let ac = cands[y].1;
                proof {
                    lemma_and_comm(am, bm);
                }
                if (am & bm) == target {
                    let sc = add_cost(ac, bc);
                    proof {
                        assert(add_cost_s(ac, bc) == add_cost_s(bc, ac));
                    }
                    if sc < best.0 {
                        best = (sc, Step::And(am, bm));
                    }
                }
                y = y + 1;
            }
            x = x + 1;
        }
        best
    }

    /// The cheapest OR pairing over a list of resolved one-bit subsets;
    /// pure selection, the first minimum encountered is kept.
    #[verifier::rlimit(100)]
        /// The cheapest OR pairing over a list of resolved subsets whose OR
    /// restores the target; pure selection, the first minimum is kept.
    #[verifier::rlimit(100)]
    fn best_or_pair(&self, target: u8, cands: &Vec<(u8, u64)>) -> (r: (u64, Step))
        requires
            forall|k: int| 0 <= k < cands@.len() ==> sub1(target, (#[trigger] cands@[k]).0),
            forall|k: int|
                0 <= k < cands@.len() ==> self.cached((#[trigger] cands@[k]).0) && self.entry(
                    cands@[k].0,
                ).0 == cands@[k].1,
            forall|k: int, l: int| 0 <= k < l < cands@.len() ==> cands@[k].0 != cands@[l].0,
        ensures
            (match r.1 {
                Step::Or(a, b) => (a | b) == target && or_pair(target, a, b) && self.cached(a)
                    && self.cached(b) && r.0 == add_cost_s(self.entry(a).0, self.entry(b).0),
                Step::Magic => r.0 == u64::MAX,
                _ => false,
            }),
            forall|k: int, l: int|
                0 <= l < k < cands@.len() && ((#[trigger] cands@[k]).0 | (#[trigger] cands@[l]).0)
                    == target ==> r.0 <= add_cost_s(cands@[k].1, cands@[l].1),
    {
        let mut best: (u64, Step) = (u64::MAX, Step::Magic);
        let mut x: usize = 0;
        while x < cands.len()
            invariant
                x <= cands@.len(),
                forall|k: int| 0 <= k < cands@.len() ==> sub1(target, (#[trigger] cands@[k]).0),
                forall|k: int|
                    0 <= k < cands@.len() ==> self.cached((#[trigger] cands@[k]).0) && self.entry(
                        cands@[k].0,
                    ).0 == cands@[k].1,
                forall|k: int, l: int| 0 <= k < l < cands@.len() ==> cands@[k].0 != cands@[l].0,
                (match best.1 {
                    Step::Or(a, b) => (a | b) == target && or_pair(target, a, b) && self.cached(a)
                        && self.cached(b) && best.0 == add_cost_s(
                        self.entry(a).0,
                        self.entry(b).0,
                    ),
                    Step::Magic => best.0 == u64::MAX,
                    _ => false,
                }),
                forall|k: int, l: int|
                    0 <= l < k < x && ((#[trigger] cands@[k]).0 | (#[trigger] cands@[l]).0)
                        == target ==> best.0 <= add_cost_s(cands@[k].1, cands@[l].1),
            decreases cands@.len() - x,
        {
            let bm = cands[x].0;
            let bc = cands[x].1;
            let mut y: usize = 0;
            while y < x
                invariant
                    x < cands@.len(),
                    y <= x,
                    bm == cands@[x as int].0,
                    bc == cands@[x as int].1,
                    forall|k: int|
                        0 <= k < cands@.len() ==> sub1(target, (#[trigger] cands@[k]).0),
                    forall|k: int|
                        0 <= k < cands@.len() ==> self.cached((#[trigger] cands@[k]).0)
                            && self.entry(cands@[k].0).0 == cands@[k].1,
                    forall|k: int, l: int| 0 <= k < l < cands@.len() ==> cands@[k].0 != cands@[l].0,
                    (match best.1 {
                        Step::Or(a, b) => (a | b) == target && or_pair(target, a, b)
                            && self.cached(a) && self.cached(b) && best.0 == add_cost_s(
                            self.entry(a).0,
                            self.entry(b).0,
                        ),
                        Step::Magic => best.0 == u64::MAX,
                        _ => false,
                    }),
                    forall|k: int, l: int|
                        0 <= l < k < x && ((#[trigger] cands@[k]).0 | (#[trigger] cands@[l]).0)
                            == target ==> best.0 <= add_cost_s(cands@[k].1, cands@[l].1),
                    forall|l: int|
                        0 <= l < y && (bm | (#[trigger] cands@[l]).0) == target ==> best.0
                            <= add_cost_s(bc, (#[trigger] cands@[l]).1),
                decreases x - y,
            {
                let am = cands[y].0;
                let ac = cands[y].1;
                proof {
                    lemma_or_comm(am, bm);
                }
                if (am | bm) == target {
                    let sc = add_cost(ac, bc);
                    proof {
                        assert(add_cost_s(ac, bc) == add_cost_s(bc, ac));
                    }
                    if sc < best.0 {
                        best = (sc, Step::Or(am, bm));
                    }
                }
                y = y + 1;
            }
            x = x + 1;
        }
        best
    }

    /// NOT decomposition: resolve the complement; on success the cost is the
    /// complement's cost plus a unit penalty for the negation.
    fn test_not(&mut self, target: u8) -> (r: (u64, Step))
        requires
            old(self).inv(),
        ensures
            final(self).inv(),
            extends(*old(self), *final(self)),
            (match r.1 {
                Step::Not(n) => n == !target && final(self).cached(n) && r.0 == add_cost_s(
                    final(self).entry(n).0,
                    1,
                ),
                Step::Magic => r.0 == u64::MAX,
                _ => false,
            }),
            old(self).cached(!target) ==> r.1 == Step::Not(!target) && r.0 == add_cost_s(
                old(self).entry(!target).0,
                1,
            ),
        decreases count_false(old(self).visiting@), 2int,
    {
        let n = !target;
        let e = self.make(n);
        match e.1 {
            Step::Magic => (u64::MAX, Step::Magic),
            _ => (add_cost(e.0, 1), Step::Not(n)),
        }
    }


    /// Whether `e` is the expression tree that the cache records for
    /// `target`: an unresolved mask reads as the error leaf, a factor as a
    /// leaf carrying its own mask value, and AND, OR and NOT nodes mirror
    /// the cached methods of their sub-masks.
    pub open spec fn represents(self, target: u8, e: Expr) -> bool
        decreases e,
    {
        if !self.cached(target) {
            e == Expr::Magic
        } else {
            match self.entry(target).1 {
                Step::Exist => e == Expr::Exist(target),
                Step::Not(n) => match e {
                    Expr::Not(inner) => self.represents(n, *inner),
                    _ => false,
                },
                Step::And(a, b) => match e {
                    Expr::And(left, right) => self.represents(a, *left) && self.represents(
                        b,
                        *right,
                    ),
                    _ => false,
                },
                Step::Or(a, b) => match e {
                    Expr::Or(left, right) => self.represents(a, *left) && self.represents(
                        b,
                        *right,
                    ),
                    _ => false,
                },
                Step::Magic => e == Expr::Magic,
            }
        }
    }

    /// Reconstructs the decomposition tree recorded for the target by
    /// walking the cache; a mask without a cached resolution yields the
    /// error leaf.
    pub fn get_expr(&self, target: u8) -> (r: Expr)
        requires
            self.inv(),
        ensures
            self.represents(target, r),
            !self.cached(target) ==> r == Expr::Magic,
        decreases self.rank_of(target),
    {
        let slot = self.cache[target as usize];
        match slot {
            None => Expr::Magic,
            Some((c, st)) => {
                proof {
                    assert(self.cached(target));
                    assert(self.entry_ok(target));
                    assert(self.entry(target) == (c, st));
                }
                match st {
                    Step::Exist => Expr::Exist(target),
                    Step::Not(n) => Expr::Not(Box::new(self.get_expr(n))),
                    Step::And(a, b) => Expr::And(
                        Box::new(self.get_expr(a)),
                        Box::new(self.get_expr(b)),
                    ),
                    Step::Or(a, b) => Expr::Or(
                        Box::new(self.get_expr(a)),
                        Box::new(self.get_expr(b)),
                    ),
                    Step::Magic => Expr::Magic,
                }
            },
        }
    }

    /// True exactly when the target lies in the closure of this instance's
    /// factors under bitwise AND, OR and NOT.
    pub fn check(&self, target: u8) -> (r: bool)
        ensures
            r == makable(target, self.factors@),
    {
        crate::judge::is_makable(target, &self.factors)
    }

    /// The distinct diagnostic flag masks of all conflicting bit positions;
    /// empty exactly when the target is makable.
    pub fn check_detail(&self, target: u8) -> (r: Vec<u8>)
        ensures
            forall|x: u8| r@.contains(x) == crate::judge::detail_has(target, self.factors@, x),
            forall|i: int, j: int| 0 <= i < j < r@.len() ==> r@[i] != r@[j],
    {
        crate::judge::is_makable_detail(target, &self.factors)
    }
}

/// Saturating cost addition; the sentinel cost absorbs.
fn add_cost(a: u64, b: u64) -> (r: u64)
    ensures
        r == add_cost_s(a, b),
{
    if a >= u64::MAX - b {
        u64::MAX
    } else {
        a + b
    }
}

/// Every factor resolves to an existing leaf of cost zero.
pub proof fn lemma_factor_step(m: Maker, f: u8)
    requires
        m.inv(),
        m.factors@.contains(f),
    ensures
        m.cached(f),
        m.entry(f) == (0u64, Step::Exist),
{
    let i = choose|i: int| 0 <= i < m.factors@.len() && m.factors@[i] == f;
    assert(m.cached(m.factors@[i]));
}

/// A mask outside the feasibility closure is never cached, so `make` can only
/// return the sentinel for it.
pub proof fn lemma_unmakable_uncached(m: Maker, t: u8)
    requires
        m.inv(),
        !makable(t, m.factors@),
    ensures
        !m.cached(t),
{
}

} // verus!

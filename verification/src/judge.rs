//! Per-bit feasibility test: decides whether a target mask lies in the closure
//! of a factor set under bitwise AND, OR and NOT, without any search.
//!
//! The test rests on one observation: AND, OR and NOT act bitwise, so if every
//! factor gives two bit positions the same value, every expression over the
//! factors does too. A target that separates two such tied positions is
//! unreachable; the test below detects exactly that.
use vstd::prelude::*;

verus! {

/// Bit `p` of `x`, for `p < 8`.
pub open spec fn bit_at(x: u8, p: u8) -> bool {
    (x >> p) & 1 == 1
}

/// Every factor gives positions `p` and `q` the same bit value.
pub open spec fn agree(factors: Seq<u8>, p: u8, q: u8) -> bool {
    forall|i: int|
        0 <= i < factors.len() ==> (bit_at(#[trigger] factors[i], p) == bit_at(factors[i], q))
}

/// The target never separates two positions that every factor ties together.
/// This is exactly the condition the per-bit test decides.
pub open spec fn makable(t: u8, factors: Seq<u8>) -> bool {
    forall|p: u8, q: u8|
        p < 8 && q < 8 && #[trigger] agree(factors, p, q) ==> bit_at(t, p) == bit_at(t, q)
}

/// Polarity alignment: the input unchanged when the checker's bits lie inside
/// it, else its complement.
pub open spec fn posbit_s(number: u8, checker: u8) -> u8 {
    if number | checker == number {
        number
    } else {
        !number
    }
}

/// AND-reduction of all polarity-aligned factors, seeded with all ones.
pub open spec fn and_all_posbit_s(numbers: Seq<u8>, checker: u8) -> u8
    decreases numbers.len(),
{
    if numbers.len() == 0 {
        0xffu8
    } else {
        and_all_posbit_s(numbers.drop_last(), checker) & posbit_s(numbers.last(), checker)
    }
}

/// The per-position conflict test on an aligned flag mask.
pub open spec fn exist_posbit_s(flag: u8, target: u8, checker: u8) -> bool {
    !(flag & posbit_s(target, checker)) & flag != 0
}

/// A conflict at bit position `p`: the reduced flag for `p` is incompatible
/// with the target's polarity there.
pub open spec fn conflict_at(t: u8, factors: Seq<u8>, p: u8) -> bool {
    exist_posbit_s(and_all_posbit_s(factors, 1u8 << p), t, 1u8 << p)
}

/// The diagnostic value reported for a conflicting position.
pub open spec fn flag_of(factors: Seq<u8>, p: u8) -> u8 {
    and_all_posbit_s(factors, 1u8 << p)
}

/// Membership in the diagnostic set: some position conflicts and reports `x`.
pub open spec fn detail_has(t: u8, factors: Seq<u8>, x: u8) -> bool {
    exists|p: u8| p < 8 && #[trigger] conflict_at(t, factors, p) && flag_of(factors, p) == x
}

proof fn lemma_bit_and(x: u8, y: u8, q: u8)
    by (bit_vector)
    requires
        q < 8,
    ensures
        bit_at(x & y, q) == (bit_at(x, q) && bit_at(y, q)),
{
}

proof fn lemma_bit_or(x: u8, y: u8, q: u8)
    by (bit_vector)
    requires
        q < 8,
    ensures
        bit_at(x | y, q) == (bit_at(x, q) || bit_at(y, q)),
{
}

proof fn lemma_bit_not(x: u8, q: u8)
    by (bit_vector)
    requires
        q < 8,
    ensures
        bit_at(!x, q) == !bit_at(x, q),
{
}

proof fn lemma_bit_ones(q: u8)
    by (bit_vector)
    requires
        q < 8,
    ensures
        bit_at(0xffu8, q),
{
}

proof fn lemma_posbit_bit(n: u8, p: u8, q: u8)
    by (bit_vector)
    requires
        p < 8,
        q < 8,
    ensures
        bit_at(posbit_s(n, 1u8 << p), q) == (bit_at(n, q) == bit_at(n, p)),
{
}

proof fn lemma_nonzero_has_bit(x: u8)
    by (bit_vector)
    requires
        x != 0,
    ensures
        bit_at(x, 0) || bit_at(x, 1) || bit_at(x, 2) || bit_at(x, 3) || bit_at(x, 4) || bit_at(
            x,
            5,
        ) || bit_at(x, 6) || bit_at(x, 7),
{
}

proof fn lemma_bit_nonzero(x: u8, q: u8)
    by (bit_vector)
    requires
        q < 8,
        bit_at(x, q),
    ensures
        x != 0,
{
}

/// Bit `q` of the reduced flag for position `p` says that every factor gives
/// `q` the same value as `p`.
proof fn lemma_flag_bit(factors: Seq<u8>, p: u8, q: u8)
    requires
        p < 8,
        q < 8,
    ensures
        bit_at(and_all_posbit_s(factors, 1u8 << p), q) == agree(factors, q, p),
    decreases factors.len(),
{
    if factors.len() == 0 {
        lemma_bit_ones(q);
    } else {
        let rest = factors.drop_last();
        let last = factors.last();
        lemma_flag_bit(rest, p, q);
        lemma_bit_and(and_all_posbit_s(rest, 1u8 << p), posbit_s(last, 1u8 << p), q);
        lemma_posbit_bit(last, p, q);
        assert(agree(factors, q, p) == (agree(rest, q, p) && (bit_at(last, q) == bit_at(
            last,
            p,
        )))) by {
            if agree(rest, q, p) && (bit_at(last, q) == bit_at(last, p)) {
                assert forall|i: int| 0 <= i < factors.len() implies (bit_at(
                    #[trigger] factors[i],
                    q,
                ) == bit_at(factors[i], p)) by {
                    if i < factors.len() - 1 {
                        assert(factors[i] == rest[i]);
                    }
                }
            }
            if agree(factors, q, p) {
                assert forall|i: int| 0 <= i < rest.len() implies (bit_at(#[trigger] rest[i], q)
                    == bit_at(rest[i], p)) by {
                    assert(rest[i] == factors[i]);
                }
            }
        }
    }
}

/// The per-position test holds exactly when some position `q` is tied to `p`
/// by every factor while the target separates the two.
proof fn lemma_conflict_iff(t: u8, factors: Seq<u8>, p: u8)
    requires
        p < 8,
    ensures
        conflict_at(t, factors, p) == (exists|q: u8|
            q < 8 && #[trigger] agree(factors, q, p) && bit_at(t, q) != bit_at(t, p)),
{
    let flag = and_all_posbit_s(factors, 1u8 << p);
    let pt = posbit_s(t, 1u8 << p);
    let x = !(flag & pt) & flag;
    assert forall|q: u8| q < 8 implies #[trigger] bit_at(x, q) == (agree(factors, q, p) && bit_at(
        t,
        q,
    ) != bit_at(t, p)) by {
        lemma_bit_and(!(flag & pt), flag, q);
        lemma_bit_not(flag & pt, q);
        lemma_bit_and(flag, pt, q);
        lemma_posbit_bit(t, p, q);
        lemma_flag_bit(factors, p, q);
    }
    if conflict_at(t, factors, p) {
        lemma_nonzero_has_bit(x);
        assert(exists|q: u8| q < 8 && #[trigger] bit_at(x, q));
    }
    if exists|q: u8| q < 8 && #[trigger] agree(factors, q, p) && bit_at(t, q) != bit_at(t, p) {
        let q = choose|q: u8| q < 8 && #[trigger] agree(factors, q, p) && bit_at(t, q) != bit_at(
            t,
            p,
        );
        lemma_bit_nonzero(x, q);
    }
}

/// The target is makable exactly when no bit position conflicts.
proof fn lemma_makable_iff_no_conflict(t: u8, factors: Seq<u8>)
    ensures
        makable(t, factors) == (forall|p: u8| p < 8 ==> !#[trigger] conflict_at(t, factors, p)),
{
    if makable(t, factors) {
        assert forall|p: u8| p < 8 implies !#[trigger] conflict_at(t, factors, p) by {
            lemma_conflict_iff(t, factors, p);
            if conflict_at(t, factors, p) {
                let q = choose|q: u8|
                    q < 8 && #[trigger] agree(factors, q, p) && bit_at(t, q) != bit_at(t, p);
                assert(bit_at(t, q) == bit_at(t, p));
            }
        }
    }
    if forall|p: u8| p < 8 ==> !#[trigger] conflict_at(t, factors, p) {
        assert forall|p: u8, q: u8|
            p < 8 && q < 8 && #[trigger] agree(factors, p, q) implies bit_at(t, p) == bit_at(
            t,
            q,
        ) by {
            lemma_conflict_iff(t, factors, q);
            assert(!conflict_at(t, factors, q));
            if bit_at(t, p) != bit_at(t, q) {
                assert(q < 8 && agree(factors, p, q) && bit_at(t, p) != bit_at(t, q));
            }
        }
    }
}

/// A factor itself never separates positions that all factors tie together.
pub proof fn lemma_makable_factor(factors: Seq<u8>, x: u8)
    requires
        factors.contains(x),
    ensures
        makable(x, factors),
{
    let i = choose|i: int| 0 <= i < factors.len() && factors[i] == x;
    assert forall|p: u8, q: u8|
        p < 8 && q < 8 && #[trigger] agree(factors, p, q) implies bit_at(x, p) == bit_at(
        x,
        q,
    ) by {
        assert(bit_at(factors[i], p) == bit_at(factors[i], q));
    }
}

/// Bitwise AND preserves the per-position agreement property.
pub proof fn lemma_makable_and(a: u8, b: u8, factors: Seq<u8>)
    requires
        makable(a, factors),
        makable(b, factors),
    ensures
        makable(a & b, factors),
{
    assert forall|p: u8, q: u8|
        p < 8 && q < 8 && #[trigger] agree(factors, p, q) implies bit_at(a & b, p) == bit_at(
        a & b,
        q,
    ) by {
        lemma_bit_and(a, b, p);
        lemma_bit_and(a, b, q);
    }
}

/// Bitwise OR preserves the per-position agreement property.
pub proof fn lemma_makable_or(a: u8, b: u8, factors: Seq<u8>)
    requires
        makable(a, factors),
        makable(b, factors),
    ensures
        makable(a | b, factors),
{
    assert forall|p: u8, q: u8|
        p < 8 && q < 8 && #[trigger] agree(factors, p, q) implies bit_at(a | b, p) == bit_at(
        a | b,
        q,
    ) by {
        lemma_bit_or(a, b, p);
        lemma_bit_or(a, b, q);
    }
}

/// Bitwise NOT preserves the per-position agreement property.
pub proof fn lemma_makable_not(a: u8, factors: Seq<u8>)
    requires
        makable(a, factors),
    ensures
        makable(!a, factors),
{
    assert forall|p: u8, q: u8|
        p < 8 && q < 8 && #[trigger] agree(factors, p, q) implies bit_at(!a, p) == bit_at(
        !a,
        q,
    ) by {
        lemma_bit_not(a, p);
        lemma_bit_not(a, q);
    }
}

/// Polarity alignment of one mask against a checker bit.
pub fn posbit(number: u8, checker: u8) -> (r: u8)
    ensures
        r == posbit_s(number, checker),
{
    if number | checker == number {
        number
    } else {
        !number
    }
}

/// AND-reduction of all polarity-aligned inputs, seeded with all ones.
pub fn and_all_posbit(numbers: &Vec<u8>, checker: u8) -> (r: u8)
    ensures
        r == and_all_posbit_s(numbers@, checker),
{
    let mut r: u8 = 0xff;
    let mut i: usize = 0;
    while i < numbers.len()
        invariant
            i <= numbers@.len(),
            r == and_all_posbit_s(numbers@.take(i as int), checker),
        decreases numbers@.len() - i,
    {
        let aligned = posbit(numbers[i], checker);
        proof {
            assert(numbers@.take(i + 1).drop_last() =~= numbers@.take(i as int));
            assert(numbers@.take(i + 1).last() == numbers@[i as int]);
        }
        r = r & aligned;
        i = i + 1;
    }
    proof {
        assert(numbers@.take(numbers@.len() as int) =~= numbers@);
    }
    r
}

/// The per-position conflict test on an aligned flag mask.
pub fn exist_posbit(flag: u8, target: u8, checker: u8) -> (r: bool)
    ensures
        r == exist_posbit_s(flag, target, checker),
{
    !(flag & posbit(target, checker)) & flag != 0
}

/// True exactly when the target lies in the closure of the factors under
/// bitwise AND, OR and NOT of the whole 8-bit width.
pub fn is_makable(target: u8, factors: &Vec<u8>) -> (r: bool)
    ensures
        r == makable(target, factors@),
{
    let mut p: u8 = 0;
    while p < 8
        invariant
            p <= 8,
            forall|p2: u8| p2 < p ==> !#[trigger] conflict_at(target, factors@, p2),
        decreases 8 - p,
    {
        let checker: u8 = 1u8 << p;
        let flag = and_all_posbit(factors, checker);
        if exist_posbit(flag, target, checker) {
            proof {
                assert(conflict_at(target, factors@, p));
                lemma_makable_iff_no_conflict(target, factors@);
            }
            return false;
        }
        p = p + 1;
    }
    proof {
        lemma_makable_iff_no_conflict(target, factors@);
    }
    true
}

/// The set of distinct flag masks of the conflicting bit positions, for
/// diagnosis when the target is not makable. Empty exactly when it is.
pub fn is_makable_detail(target: u8, factors: &Vec<u8>) -> (r: Vec<u8>)
    ensures
        forall|x: u8| r@.contains(x) == detail_has(target, factors@, x),
        forall|i: int, j: int| 0 <= i < j < r@.len() ==> r@[i] != r@[j],
{
    let mut detail: Vec<u8> = Vec::new();
    let mut p: u8 = 0;
    while p < 8
        invariant
            p <= 8,
            forall|x: u8|
                detail@.contains(x) == (exists|p2: u8|
                    p2 < p && #[trigger] conflict_at(target, factors@, p2) && flag_of(
                        factors@,
                        p2,
                    ) == x),
            forall|i: int, j: int| 0 <= i < j < detail@.len() ==> detail@[i] != detail@[j],
        decreases 8 - p,
    {
        let checker: u8 = 1u8 << p;
        let flag = and_all_posbit(factors, checker);
        let ghost pre = detail@;
        if exist_posbit(flag, target, checker) {
            let mut seen = false;
            let mut k: usize = 0;
            while k < detail.len()
                invariant
                    k <= detail@.len(),
                    detail@ == pre,
                    seen == exists|l: int| 0 <= l < k && pre[l] == flag,
                decreases detail@.len() - k,
            {
                if detail[k] == flag {
                    seen = true;
                }
                k = k + 1;
            }
            if !seen {
                detail.push(flag);
            }
        }
        proof {
            assert forall|x: u8| detail@.contains(x) == (exists|p2: u8|
                p2 < p + 1 && #[trigger] conflict_at(target, factors@, p2) && flag_of(factors@, p2)
                    == x) by {
                if detail@.contains(x) {
                    if pre.contains(x) {
                        let p2 = choose|p2: u8|
                            p2 < p && #[trigger] conflict_at(target, factors@, p2) && flag_of(
                                factors@,
                                p2,
                            ) == x;
                        assert(p2 < p + 1 && conflict_at(target, factors@, p2) && flag_of(
                            factors@,
                            p2,
                        ) == x);
                    } else {
                        assert(conflict_at(target, factors@, p) && flag_of(factors@, p) == x);
                    }
                }
                if exists|p2: u8|
                    p2 < p + 1 && #[trigger] conflict_at(target, factors@, p2) && flag_of(
                        factors@,
                        p2,
                    ) == x {
                    let p2 = choose|p2: u8|
                        p2 < p + 1 && #[trigger] conflict_at(target, factors@, p2) && flag_of(
                            factors@,
                            p2,
                        ) == x;
                    if p2 < p {
                        assert(pre.contains(x));
                        let l = choose|l: int| 0 <= l < pre.len() && pre[l] == x;
                        assert(detail@[l] == x);
                        assert(detail@.contains(x));
                    } else {
                        assert(x == flag);
                        if pre.contains(x) {
                            let l = choose|l: int| 0 <= l < pre.len() && pre[l] == x;
                            assert(detail@[l] == x);
                            assert(detail@.contains(x));
                        } else {
                            assert(detail@[detail@.len() - 1] == flag);
                            assert(detail@.contains(x));
                        }
                    }
                }
            }
        }
        p = p + 1;
    }
    detail
}

} // verus!

//! Mixed-radix counting: the digit vectors of a configuration space, in the
//! order in which a build visits them. The first position varies fastest.

use vstd::prelude::*;
use vstd::arithmetic::div_mod::lemma_fundamental_div_mod_converse;

verus! {

/// The number of points of the space: the product of the domain sizes.
pub open spec fn point_count(sizes: Seq<usize>) -> nat
    decreases sizes.len(),
{
    if sizes.len() == 0 {
        1
    } else {
        (sizes[0] as nat) * point_count(sizes.drop_first())
    }
}

/// Every domain holds at least one value.
pub open spec fn all_positive(sizes: Seq<usize>) -> bool {
    forall|i: int| 0 <= i < sizes.len() ==> sizes[i] >= 1
}

/// `digits` names one point of the space: one digit per position, each below
/// the size of its domain.
pub open spec fn in_range(digits: Seq<usize>, sizes: Seq<usize>) -> bool {
    digits.len() == sizes.len() && forall|i: int|
        0 <= i < digits.len() ==> digits[i] < sizes[i]
}

/// The place of a digit vector in the enumeration: its value as a mixed-radix
/// number whose lowest-order digit comes first.
pub open spec fn rank(digits: Seq<usize>, sizes: Seq<usize>) -> nat
    decreases digits.len(),
{
    if digits.len() == 0 || sizes.len() == 0 {
        0
    } else {
        (digits[0] as nat) + (sizes[0] as nat) * rank(digits.drop_first(), sizes.drop_first())
    }
}

/// Digit `i` of point number `k`: strip the lower positions by division, then
/// take the remainder by the size of position `i`.
pub open spec fn digit_at(k: nat, sizes: Seq<usize>, i: nat) -> nat
    decreases i,
{
    if sizes.len() == 0 || sizes[0] == 0 {
        0
    } else if i == 0 {
        k % (sizes[0] as nat)
    } else {
        digit_at(k / (sizes[0] as nat), sizes.drop_first(), (i - 1) as nat)
    }
}

/// A space without an empty domain has at least one point.
pub proof fn lemma_point_count_positive(sizes: Seq<usize>)
    requires
        all_positive(sizes),
    ensures
        point_count(sizes) >= 1,
    decreases sizes.len(),
{
    if sizes.len() > 0 {
        let rest = sizes.drop_first();
        lemma_point_count_positive(rest);
        assert(sizes[0] >= 1);
        assert((sizes[0] as nat) * point_count(rest) >= 1) by (nonlinear_arith)
            requires
                sizes[0] >= 1,
                point_count(rest) >= 1,
        ;
    }
}

/// The rank of a point lies below the number of points.
pub proof fn lemma_rank_below_count(digits: Seq<usize>, sizes: Seq<usize>)
    requires
        in_range(digits, sizes),
    ensures
        rank(digits, sizes) < point_count(sizes),
    decreases digits.len(),
{
    if digits.len() > 0 {
        let d = digits.drop_first();
        let s = sizes.drop_first();
        assert(in_range(d, s)) by {
            assert forall|i: int| 0 <= i < d.len() implies d[i] < s[i] by {
                assert(digits[i + 1] < sizes[i + 1]);
            }
        }
        lemma_rank_below_count(d, s);
        assert(digits[0] < sizes[0]);
        assert((digits[0] as nat) + (sizes[0] as nat) * rank(d, s) < (sizes[0] as nat)
            * point_count(s)) by (nonlinear_arith)
            requires
                digits[0] < sizes[0],
                rank(d, s) < point_count(s),
        ;
    }
}

/// One odometer step, seen from outside: the positions below `i` were at
/// their last value and are reset, position `i` (if there is one) goes up by
/// one, the rest stays. Then the rank goes up by one; if no position was left
/// to take the carry, the old vector was the last point.
proof fn lemma_carry(before: Seq<usize>, after: Seq<usize>, sizes: Seq<usize>, i: int)
    requires
        in_range(before, sizes),
        after.len() == before.len(),
        0 <= i <= before.len(),
        forall|j: int| 0 <= j < i ==> #[trigger] after[j] == 0,
        forall|j: int| 0 <= j < i ==> (#[trigger] before[j]) + 1 == sizes[j],
        i < before.len() ==> after[i] == before[i] + 1,
        forall|j: int| i < j < before.len() ==> after[j] == before[j],
    ensures
        i < before.len() ==> rank(after, sizes) == rank(before, sizes) + 1,
        i == before.len() ==> rank(before, sizes) + 1 == point_count(sizes) && rank(
            after,
            sizes,
        ) == 0,
    decreases before.len(),
{
    if before.len() == 0 {
    } else {
        let b = before.drop_first();
        let a = after.drop_first();
        let s = sizes.drop_first();
        if i == 0 {
            assert(a =~= b);
        } else {
            assert(in_range(b, s)) by {
                assert forall|j: int| 0 <= j < b.len() implies b[j] < s[j] by {
                    assert(before[j + 1] < sizes[j + 1]);
                }
            }
            assert forall|j: int| 0 <= j < i - 1 implies #[trigger] a[j] == 0 by {
                assert(after[j + 1] == 0);
            }
            assert forall|j: int| 0 <= j < i - 1 implies (#[trigger] b[j]) + 1 == s[j] by {
                assert(before[j + 1] + 1 == sizes[j + 1]);
            }
            assert forall|j: int| i - 1 < j < b.len() implies a[j] == b[j] by {
                assert(after[j + 1] == before[j + 1]);
            }
            if i < before.len() {
                assert(a[i - 1] == after[i]);
                assert(b[i - 1] == before[i]);
            }
            lemma_carry(b, a, s, i - 1);
            assert(after[0] == 0 && before[0] + 1 == sizes[0]);
            let s0 = sizes[0] as nat;
            let rb = rank(b, s);
            let ra = rank(a, s);
            if i < before.len() {
                assert(s0 * ra == s0 * rb + s0) by (nonlinear_arith)
                    requires
                        ra == rb + 1,
                ;
            } else {
                assert(s0 * ra == 0) by (nonlinear_arith)
                    requires
                        ra == 0,
                ;
                assert(s0 * point_count(s) == s0 * rb + s0) by (nonlinear_arith)
                    requires
                        rb + 1 == point_count(s),
                ;
            }
        }
    }
}

/// The digits of a point are those of its rank.
pub proof fn lemma_digits_of_rank(digits: Seq<usize>, sizes: Seq<usize>, i: int)
    requires
        in_range(digits, sizes),
        0 <= i < digits.len(),
    ensures
        digits[i] as nat == digit_at(rank(digits, sizes), sizes, i as nat),
    decreases i,
{
    let d = digits.drop_first();
    let s = sizes.drop_first();
    let s0 = sizes[0] as int;
    let k = rank(digits, sizes) as int;
    let q = rank(d, s) as int;
    assert(digits[0] < sizes[0]);
    assert(k == q * s0 + digits[0]) by (nonlinear_arith)
        requires
            k == digits[0] + s0 * q,
    ;
    lemma_fundamental_div_mod_converse(k, s0, q, digits[0] as int);
    if i > 0 {
        assert(in_range(d, s)) by {
            assert forall|j: int| 0 <= j < d.len() implies d[j] < s[j] by {
                assert(digits[j + 1] < sizes[j + 1]);
            }
        }
        lemma_digits_of_rank(d, s, i - 1);
        assert(d[i - 1] == digits[i]);
    }
}

/// The number of points, where it fits the machine's word.
pub fn variant_count(sizes: &Vec<usize>) -> (count: Option<usize>)
    requires
        all_positive(sizes@),
    ensures
        count is Some <==> point_count(sizes@) <= usize::MAX,
        count matches Some(c) ==> c == point_count(sizes@),
{
    let n = sizes.len();
    let mut acc: usize = 1;
    let mut i: usize = n;
    proof {
        assert(sizes@.subrange(n as int, n as int) =~= Seq::<usize>::empty());
    }
    while i > 0
        invariant
            i <= n,
            n == sizes.len(),
            all_positive(sizes@),
            acc == point_count(sizes@.subrange(i as int, n as int)),
        decreases i,
    {
        let ghost tail = sizes@.subrange(i as int, n as int);
        let ghost longer = sizes@.subrange(i - 1, n as int);
        proof {
            assert(longer.drop_first() =~= tail);
            assert(longer[0] == sizes[i - 1]);
            assert(sizes[i - 1] >= 1);
        }
        match sizes[i - 1].checked_mul(acc) {
            Some(p) => {
                acc = p;
            },
            None => {
                proof {
                    lemma_prefix_grows(sizes@, i - 1);
                }
                return None;
            },
        }
        i -= 1;
    }
    proof {
        assert(sizes@.subrange(0, n as int) =~= sizes@);
    }
    Some(acc)
}

/// Adding domains in front never shrinks the number of points.
proof fn lemma_prefix_grows(sizes: Seq<usize>, i: int)
    requires
        all_positive(sizes),
        0 <= i <= sizes.len(),
    ensures
        point_count(sizes.subrange(i, sizes.len() as int)) <= point_count(sizes),
    decreases i,
{
    if i == 0 {
        assert(sizes.subrange(0, sizes.len() as int) =~= sizes);
    } else {
        let shorter = sizes.subrange(i, sizes.len() as int);
        let longer = sizes.subrange(i - 1, sizes.len() as int);
        assert(longer.drop_first() =~= shorter);
        assert(longer[0] == sizes[i - 1]);
        assert(sizes[i - 1] >= 1);
        assert(point_count(shorter) <= (sizes[i - 1] as nat) * point_count(shorter))
            by (nonlinear_arith)
            requires
                sizes[i - 1] >= 1,
        ;
        lemma_prefix_grows(sizes, i - 1);
    }
}

/// One step of the odometer. The first position goes up by one; a position
/// that has reached the size of its domain is reset and carries into the
/// next. The result is `false` when the carry runs past the last position:
/// `digits` was the last point and is now the first again.
pub fn advance(digits: &mut Vec<usize>, sizes: &Vec<usize>) -> (more: bool)
    requires
        in_range(old(digits)@, sizes@),
    ensures
        in_range(final(digits)@, sizes@),
        more == (rank(old(digits)@, sizes@) + 1 < point_count(sizes@)),
        more ==> rank(final(digits)@, sizes@) == rank(old(digits)@, sizes@) + 1,
        !more ==> rank(final(digits)@, sizes@) == 0,
{
    let n = digits.len();
    let mut i: usize = 0;
    while i < n && digits[i] + 1 == sizes[i]
        invariant
            i <= n,
            n == digits.len(),
            n == sizes.len(),
            in_range(old(digits)@, sizes@),
            forall|j: int| 0 <= j < i ==> #[trigger] digits[j] == 0,
            forall|j: int| 0 <= j < i ==> (#[trigger] old(digits)[j]) + 1 == sizes[j],
            forall|j: int| i <= j < n ==> digits[j] == old(digits)[j],
        decreases n - i,
    {
        assert(digits[i as int] == old(digits)[i as int]);
        digits[i] = 0;
        i += 1;
    }
    if i < n {
        assert(digits[i as int] == old(digits)[i as int]);
        let next = digits[i] + 1;
        digits[i] = next;
    }
    proof {
        lemma_carry(old(digits)@, digits@, sizes@, i as int);
        assert(in_range(digits@, sizes@)) by {
            assert forall|j: int| 0 <= j < digits.len() implies digits[j] < sizes[j] by {
                assert(old(digits)[j] < sizes[j]);
            }
        }
        lemma_rank_below_count(digits@, sizes@);
    }
    i < n
}

/// What `digit_vectors` returns for a space that fits the machine: one vector
/// per point, the vector at place `k` being the digits of `k`.
pub open spec fn enumerates(vectors: Seq<Vec<usize>>, sizes: Seq<usize>) -> bool {
    &&& vectors.len() == point_count(sizes)
    &&& forall|k: int|
        0 <= k < vectors.len() ==> in_range(#[trigger] vectors[k]@, sizes) && rank(
            vectors[k]@,
            sizes,
        ) == k
    &&& forall|k: int, i: int|
        0 <= k < vectors.len() && 0 <= i < sizes.len() ==> (#[trigger] vectors[k]@[i]) as nat
            == digit_at(k as nat, sizes, i as nat)
    &&& forall|j: int, k: int|
        0 <= j < k < vectors.len() ==> #[trigger] vectors[j]@ != #[trigger] vectors[k]@
}

/// All points of the space in odometer order, starting at the all-zero
/// vector. `None` exactly when their number does not fit a `usize`.
pub fn digit_vectors(sizes: &Vec<usize>) -> (result: Option<Vec<Vec<usize>>>)
    requires
        all_positive(sizes@),
    ensures
        result is Some <==> point_count(sizes@) <= usize::MAX,
        result matches Some(vectors) ==> enumerates(vectors@, sizes@),
{
    let total = match variant_count(sizes) {
        Some(t) => t,
        None => {
            return None;
        },
    };
    let n = sizes.len();
    let mut digits: Vec<usize> = Vec::new();
    while digits.len() < n
        invariant
            n == sizes.len(),
            digits.len() <= n,
            all_positive(sizes@),
            forall|j: int| 0 <= j < digits.len() ==> digits[j] == 0,
        decreases n - digits.len(),
    {
        digits.push(0);
    }
    proof {
        lemma_point_count_positive(sizes@);
        lemma_zero_rank(digits@, sizes@);
    }
    let mut out: Vec<Vec<usize>> = Vec::new();
    let mut more = true;
    while more
        invariant
            total == point_count(sizes@),
            in_range(digits@, sizes@),
            out.len() <= total,
            more ==> rank(digits@, sizes@) == out.len() && out.len() < total,
            !more ==> out.len() == total,
            forall|k: int|
                0 <= k < out.len() ==> in_range(#[trigger] out[k]@, sizes@) && rank(
                    out[k]@,
                    sizes@,
                ) == k,
        decreases total - out.len() + (if more { 1int } else { 0int }),
    {
        let point = digits.clone();
        assert(point@ =~= digits@);
        out.push(point);
        more = advance(&mut digits, sizes);
    }
    proof {
        assert forall|k: int, i: int|
            0 <= k < out.len() && 0 <= i < sizes.len() implies (#[trigger] out[k]@[i]) as nat
            == digit_at(k as nat, sizes@, i as nat) by {
            lemma_digits_of_rank(out[k]@, sizes@, i);
        }
        assert forall|j: int, k: int| 0 <= j < k < out.len() implies #[trigger] out[j]@
            != #[trigger] out[k]@ by {
            assert(rank(out[j]@, sizes@) == j);
            assert(rank(out[k]@, sizes@) == k);
        }
    }
    Some(out)
}

/// The all-zero vector is the first point.
proof fn lemma_zero_rank(digits: Seq<usize>, sizes: Seq<usize>)
    requires
        digits.len() == sizes.len(),
        forall|j: int| 0 <= j < digits.len() ==> digits[j] == 0,
    ensures
        rank(digits, sizes) == 0,
    decreases digits.len(),
{
    if digits.len() > 0 {
        let d = digits.drop_first();
        let s = sizes.drop_first();
        assert forall|j: int| 0 <= j < d.len() implies d[j] == 0 by {
            assert(digits[j + 1] == 0);
        }
        lemma_zero_rank(d, s);
        assert((sizes[0] as nat) * rank(d, s) == 0) by (nonlinear_arith)
            requires
                rank(d, s) == 0,
        ;
    }
}

} // verus!

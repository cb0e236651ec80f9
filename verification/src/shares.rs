//! Shares of a whole among siblings.
//!
//! Siblings have sizes of any sum. Each gets its part of the sum, in
//! single-precision arithmetic: the sizes are added one after the other, and
//! each is divided by the sum.
use crate::dto::TilingSize;
use crate::singles;
use vstd::arithmetic::power2::pow2;
use vstd::prelude::*;

verus! {

pub open spec fn sum(s: Seq<nat>) -> nat
    decreases s.len(),
{
    if s.len() == 0 {
        0
    } else {
        sum(s.drop_last()) + s.last()
    }
}

/// Sums up to two to the power of -23, the distance from one to the next
/// single-precision number, are negligible.
pub const NEGLIGIBLE: u32 = 0x3400_0000;

/// The sum of the sizes, added one after the other. What takes no part is `None`.
pub open spec fn total(sizes: Seq<Option<TilingSize>>) -> TilingSize
    decreases sizes.len(),
{
    if sizes.len() == 0 {
        TilingSize::zero()
    } else {
        let before = total(sizes.drop_last());
        match sizes.last() {
            Some(s) => singles::added(before, s.at_least_zero()),
            None => before,
        }
    }
}

/// One for each sibling that takes part.
pub open spec fn ones(sizes: Seq<Option<TilingSize>>) -> Seq<nat> {
    sizes.map_values(
        |s: Option<TilingSize>|
            if s is Some {
                1nat
            } else {
                0
            },
    )
}

/// The share of the sibling at `i`: its size out of the sum, or an equal part if
/// the sum is negligible. What takes no part gets nothing.
pub open spec fn share(sizes: Seq<Option<TilingSize>>, i: int) -> TilingSize {
    match sizes[i] {
        Some(s) => if total(sizes).bits <= NEGLIGIBLE {
            singles::divided(TilingSize::one(), singles::single(sum(ones(sizes)), 1))
        } else {
            singles::divided(s.at_least_zero(), total(sizes))
        },
        None => TilingSize::zero(),
    }
}

/// The sizes scaled so that they add up to one.
pub open spec fn normalized(sizes: Seq<Option<TilingSize>>) -> Seq<TilingSize> {
    Seq::new(sizes.len(), |i: int| share(sizes, i))
}

fn at_least_zero(size: TilingSize) -> (r: TilingSize)
    ensures
        r == size.at_least_zero(),
{
    if size.bits <= 0x7f80_0000 {
        size
    } else {
        TilingSize { bits: 0 }
    }
}

/// Adds up the sizes.
pub fn add_up(sizes: &[Option<TilingSize>]) -> (r: TilingSize)
    ensures
        r == total(sizes@),
        r.is_non_negative(),
{
    let mut whole = TilingSize { bits: 0 };
    let mut i: usize = 0;
    while i < sizes.len()
        invariant
            i <= sizes@.len(),
            whole == total(sizes@.take(i as int)),
            whole.is_non_negative(),
        decreases sizes@.len() - i,
    {
        assert(sizes@.take(i + 1).drop_last() =~= sizes@.take(i as int));
        if let Some(s) = sizes[i] {
            whole = singles::add_sizes(whole, at_least_zero(s));
        }
        i = i + 1;
    }
    assert(sizes@.take(i as int) =~= sizes@);
    whole
}

fn count_given(sizes: &[Option<TilingSize>]) -> (r: usize)
    ensures
        r == sum(ones(sizes@)),
{
    let mut count: usize = 0;
    let mut i: usize = 0;
    let ghost all = ones(sizes@);
    while i < sizes.len()
        invariant
            i <= sizes@.len(),
            all == ones(sizes@),
            count == sum(all.take(i as int)),
            count <= i,
        decreases sizes@.len() - i,
    {
        assert(all.take(i + 1).drop_last() =~= all.take(i as int));
        if sizes[i].is_some() {
            count = count + 1;
        }
        i = i + 1;
    }
    assert(all.take(i as int) =~= all);
    count
}

/// The sizes scaled so that they add up to one; what takes no part is `None` and
/// gets nothing.
pub fn normalize(sizes: &[Option<TilingSize>]) -> (r: Vec<TilingSize>)
    ensures
        r@ == normalized(sizes@),
        r@.len() == sizes@.len(),
{
    let whole = add_up(sizes);
    let count: usize = count_given(sizes);
    let negligible = whole.bits <= NEGLIGIBLE;
    let equal = if negligible && count > 0 {
        proof {
            singles::lemma_count_is_single(count as nat);
            singles::lemma_digits(count as nat, 1);
        }
        let parts = singles::closest_single(count as u128, 1);
        singles::divide_sizes(TilingSize { bits: 0x3f80_0000 }, parts)
    } else {
        TilingSize { bits: 0 }
    };
    let ghost all = normalized(sizes@);
    let mut out: Vec<TilingSize> = Vec::new();
    let mut j: usize = 0;
    while j < sizes.len()
        invariant
            j <= sizes@.len(),
            all == normalized(sizes@),
            whole == total(sizes@),
            whole.is_non_negative(),
            negligible == (whole.bits <= NEGLIGIBLE),
            count == sum(ones(sizes@)),
            negligible && count > 0 ==> equal == singles::divided(
                TilingSize::one(),
                singles::single(count as nat, 1),
            ),
            out@ == all.take(j as int),
        decreases sizes@.len() - j,
    {
        let size = match sizes[j] {
            Some(s) => if negligible {
                proof {
                    lemma_part_of_sum(ones(sizes@), j as int);
                }
                equal
            } else {
                singles::divide_sizes(at_least_zero(s), whole)
            },
            None => TilingSize { bits: 0 },
        };
        assert(size == all[j as int]);
        out.push(size);
        j = j + 1;
        assert(out@ =~= all.take(j as int));
    }
    assert(all.take(j as int) =~= all);
    out
}

/// A term is at most the sum.
proof fn lemma_part_of_sum(s: Seq<nat>, i: int)
    requires
        0 <= i < s.len(),
    ensures
        s[i] <= sum(s),
    decreases s.len(),
{
    if i < s.len() - 1 {
        lemma_part_of_sum(s.drop_last(), i);
        assert(s.drop_last()[i] == s[i]);
    }
}

// ---------------------------------------------------------------------------
// Laws
// ---------------------------------------------------------------------------

/// What the siblings weigh, in units.
pub open spec fn weights(sizes: Seq<Option<TilingSize>>) -> Seq<nat> {
    sizes.map_values(
        |s: Option<TilingSize>|
            match s {
                Some(size) => singles::value(size.at_least_zero()),
                None => 0,
            },
    )
}

/// What sizes are worth, in units.
pub open spec fn values(sizes: Seq<TilingSize>) -> Seq<nat> {
    sizes.map_values(|s: TilingSize| singles::value(s))
}

/// Whether sizes add up to one, but for two to the power of -23, the distance
/// from one to the next single-precision number, for each of `count` siblings.
pub open spec fn add_up_to_one(sizes: Seq<TilingSize>, count: nat) -> bool {
    -(count * pow2(126)) <= sum(values(sizes)) - pow2(149) <= count * pow2(126)
}

proof fn lemma_total_bound(sizes: Seq<Option<TilingSize>>)
    ensures
        total(sizes).bits <= singles::INFINITE,
    decreases sizes.len(),
{
    if sizes.len() > 0 {
        let before = sizes.drop_last();
        lemma_total_bound(before);
        if let Some(s) = sizes.last() {
            singles::lemma_single_bound(
                singles::value(total(before)) + singles::value(s.at_least_zero()),
                pow2(149),
            );
        }
    }
}

/// A finite sum is off by at most two to the power of -24 of it for each size, and
/// at least as large as each.
proof fn lemma_total_is_close(sizes: Seq<Option<TilingSize>>)
    requires
        total(sizes).bits < singles::INFINITE,
    ensures
        ({
            let t = singles::value(total(sizes));
            let n = sum(ones(sizes));
            &&& -(n * t) <= (t - sum(weights(sizes))) * 0x100_0000 <= n * t
            &&& forall|i: int| 0 <= i < sizes.len() ==> #[trigger] weights(sizes)[i] <= t
            &&& forall|i: int|
                0 <= i < sizes.len() ==> (#[trigger] sizes[i] matches Some(s)
                    ==> s.at_least_zero().bits < singles::INFINITE)
        }),
    decreases sizes.len(),
{
    if sizes.len() == 0 {
        singles::lemma_zero();
        assert(sum(ones(sizes)) * 0 == 0);
    } else {
        let before = sizes.drop_last();
        lemma_total_bound(before);
        assert(weights(sizes).drop_last() =~= weights(before));
        assert(ones(sizes).drop_last() =~= ones(before));
        let t0 = singles::value(total(before));
        let t = singles::value(total(sizes));
        let n0 = sum(ones(before));
        match sizes.last() {
            Some(s) => {
                let w = s.at_least_zero();
                assert(total(before).bits < singles::INFINITE);
                lemma_total_is_close(before);
                let x = t0 + singles::value(w);
                singles::lemma_single_bound(x, pow2(149));
                singles::law_units_are_close(x);
                assert(t0 <= t && singles::value(w) <= t);
                assert(n0 * t0 <= n0 * t) by (nonlinear_arith)
                    requires
                        t0 <= t,
                ;
                assert((n0 + 1) * t == n0 * t + t) by (nonlinear_arith);
                assert forall|i: int| 0 <= i < sizes.len() implies #[trigger] weights(sizes)[i]
                    <= t by {
                    if i < before.len() {
                        assert(weights(sizes)[i] == weights(before)[i]);
                    }
                }
                assert forall|i: int| 0 <= i < sizes.len() implies (#[trigger] sizes[i] matches Some(
                    s,
                ) ==> s.at_least_zero().bits < singles::INFINITE) by {
                    if i < before.len() {
                        assert(sizes[i] == before[i]);
                    }
                }
            },
            None => {
                lemma_total_is_close(before);
                assert forall|i: int| 0 <= i < sizes.len() implies #[trigger] weights(sizes)[i]
                    <= t by {
                    if i < before.len() {
                        assert(weights(sizes)[i] == weights(before)[i]);
                    }
                }
                assert forall|i: int| 0 <= i < sizes.len() implies (#[trigger] sizes[i] matches Some(
                    s,
                ) ==> s.at_least_zero().bits < singles::INFINITE) by {
                    if i < before.len() {
                        assert(sizes[i] == before[i]);
                    }
                }
            },
        }
    }
}

/// Errors add up.
pub proof fn lemma_errors_add(p: Seq<nat>, r: Seq<nat>, n: Seq<nat>, q: nat, h: nat, e: nat)
    requires
        p.len() == r.len() == n.len(),
        forall|i: int|
            0 <= i < p.len() ==> -(n[i] * e) <= #[trigger] r[i] * q - p[i] * h <= n[i] * e,
    ensures
        -(sum(n) * e) <= sum(r) * q - sum(p) * h <= sum(n) * e,
    decreases p.len(),
{
    if p.len() > 0 {
        let p0 = p.drop_last();
        let r0 = r.drop_last();
        let n0 = n.drop_last();
        assert forall|i: int| 0 <= i < p0.len() implies -(n0[i] * e) <= #[trigger] r0[i] * q - p0[i]
            * h <= n0[i] * e by {
            assert(r[i] * q == r0[i] * q);
        }
        lemma_errors_add(p0, r0, n0, q, h, e);
        let i = p.len() - 1;
        assert(-(n[i] * e) <= r[i] * q - p[i] * h <= n[i] * e);
        assert(sum(r) * q == sum(r0) * q + r[i] * q) by (nonlinear_arith)
            requires
                sum(r) == sum(r0) + r[i],
        ;
        assert(sum(p) * h == sum(p0) * h + p[i] * h) by (nonlinear_arith)
            requires
                sum(p) == sum(p0) + p[i],
        ;
        assert(sum(n) * e == sum(n0) * e + n[i] * e) by (nonlinear_arith)
            requires
                sum(n) == sum(n0) + n[i],
        ;
    } else {
        assert(0 * q == 0 && 0 * h == 0 && 0 * e == 0);
    }
}

/// Shares of a sum that is itself rounded are off by the errors of both.
pub proof fn lemma_shares_of_whole(r: nat, s: nat, t: nat, n: nat)
    requires
        0 < t,
        -(n * (t * pow2(124))) <= r * t - s * pow2(149) <= n * (t * pow2(124)),
        -(n * t) <= (t - s) * 0x100_0000 <= n * t,
    ensures
        -(n * pow2(126)) <= r - pow2(149) <= n * pow2(126),
{
    vstd::arithmetic::power2::lemma2_to64();
    vstd::arithmetic::power2::lemma_pow2_unfold(126);
    vstd::arithmetic::power2::lemma_pow2_unfold(125);
    vstd::arithmetic::power2::lemma_pow2_adds(24, 125);
    let e = pow2(124);
    let h = pow2(149);
    vstd::arithmetic::power2::lemma_pow2_pos(124);
    assert(h == 0x200_0000 * e);
    let off = (t - s) * h;
    assert(-(2 * (n * (t * e))) <= off <= 2 * (n * (t * e))) by (nonlinear_arith)
        requires
            off == (t - s) * (0x200_0000 * e),
            -(n * t) <= (t - s) * 0x100_0000 <= n * t,
            0 < e,
    ;
    let d = r - h;
    assert(d * t == (r * t - s * h) - off) by (nonlinear_arith)
        requires
            d == r - h,
            off == (t - s) * h,
    ;
    assert(n * (t * e) == (n * e) * t) by (nonlinear_arith);
    let m = n * e;
    assert(-(3 * (m * t)) <= d * t <= 3 * (m * t));
    assert(-(3 * m) <= d <= 3 * m) by (nonlinear_arith)
        requires
            -(3 * (m * t)) <= d * t <= 3 * (m * t),
            0 < t,
    ;
    assert(n * pow2(126) == 4 * m) by (nonlinear_arith)
        requires
            pow2(126) == 4 * e,
            m == n * e,
    ;
}

/// The shares of siblings add up to one but for rounding, and none is more than
/// one, wherever the sum of the sizes is finite.
pub proof fn law_shares_add_up(sizes: Seq<Option<TilingSize>>)
    requires
        sizes.len() <= usize::MAX,
        total(sizes).bits < singles::INFINITE,
        exists|i: int| 0 <= i < sizes.len() && sizes[i] is Some,
    ensures
        add_up_to_one(normalized(sizes), sum(ones(sizes))),
        forall|i: int|
            0 <= i < sizes.len() ==> (#[trigger] normalized(sizes)[i]).bits <= TilingSize::one().bits,
{
    let n = sum(ones(sizes));
    let r = values(normalized(sizes));
    let h = pow2(149);
    let e = pow2(124);
    let one = TilingSize::one();
    vstd::arithmetic::power2::lemma_pow2_pos(149);
    singles::lemma_zero();
    let some = choose|i: int| 0 <= i < sizes.len() && sizes[i] is Some;
    lemma_part_of_sum(ones(sizes), some);
    assert(1 <= n);
    lemma_ones_bound(sizes);
    if total(sizes).bits <= NEGLIGIBLE {
        singles::lemma_count_is_single(n);
        singles::lemma_whole_number(n);
        let c = singles::single(n, 1);
        let t = singles::value(c);
        singles::law_units_are_close(n * h);
        singles::lemma_one();
        assert(h <= n * h) by (nonlinear_arith)
            requires
                1 <= n,
        ;
        assert(singles::value(one) <= t);
        singles::law_quotient_is_close(h, t);
        let p = ones(sizes).map_values(|x: nat| (x * h) as nat);
        assert forall|i: int| 0 <= i < p.len() implies -(ones(sizes)[i] * (t * e)) <= #[trigger] r[i]
            * t - p[i] * h <= ones(sizes)[i] * (t * e) by {
            if sizes[i] is Some {
                assert(normalized(sizes)[i] == singles::single(h, t));
                assert(1 * h == h);
                assert(p[i] == h);
                assert(1 * (t * e) == t * e);
            } else {
                assert(r[i] == 0);
                assert(p[i] == 0);
                assert(0 * t == 0 && 0 * h == 0 && 0 * (t * e) == 0);
            }
        }
        lemma_errors_add(p, r, ones(sizes), t, h, t * e);
        lemma_sum_scaled(ones(sizes), h);
        let s = n * h;
        assert(t <= n * t) by (nonlinear_arith)
            requires
                1 <= n,
                0 <= t,
        ;
        lemma_shares_of_whole(sum(r), s, t, n);
        assert forall|i: int| 0 <= i < sizes.len() implies (#[trigger] normalized(sizes)[i]).bits
            <= one.bits by {
            assert(sizes[i] is Some ==> normalized(sizes)[i] == singles::single(h, t));
        }
    } else {
        let t = singles::value(total(sizes));
        lemma_total_is_close(sizes);
        singles::lemma_value_pos(total(sizes));
        let p = weights(sizes);
        assert forall|i: int| 0 <= i < p.len() implies -(ones(sizes)[i] * (t * e)) <= #[trigger] r[i]
            * t - p[i] * h <= ones(sizes)[i] * (t * e) by {
            if let Some(size) = sizes[i] {
                let w = size.at_least_zero();
                assert(normalized(sizes)[i] == singles::single(p[i], t));
                singles::law_quotient_is_close(p[i], t);
                assert(1 * (t * e) == t * e);
            } else {
                assert(r[i] == 0);
                assert(p[i] == 0);
                assert(0 * t == 0 && 0 * h == 0 && 0 * (t * e) == 0);
            }
        }
        lemma_errors_add(p, r, ones(sizes), t, h, t * e);
        lemma_shares_of_whole(sum(r), sum(p), t, n);
        assert forall|i: int| 0 <= i < sizes.len() implies (#[trigger] normalized(sizes)[i]).bits
            <= one.bits by {
            if sizes[i] is Some {
                singles::law_quotient_is_close(p[i], t);
            }
        }
    }
}

proof fn lemma_ones_bound(sizes: Seq<Option<TilingSize>>)
    ensures
        sum(ones(sizes)) <= sizes.len(),
    decreases sizes.len(),
{
    if sizes.len() > 0 {
        lemma_ones_bound(sizes.drop_last());
        assert(ones(sizes).drop_last() =~= ones(sizes.drop_last()));
    }
}

proof fn lemma_sum_scaled(s: Seq<nat>, h: nat)
    ensures
        sum(s.map_values(|x: nat| (x * h) as nat)) == sum(s) * h,
    decreases s.len(),
{
    let f = |x: nat| (x * h) as nat;
    if s.len() > 0 {
        let before = s.drop_last();
        lemma_sum_scaled(before, h);
        assert(s.map_values(f).drop_last() =~= before.map_values(f));
        assert((sum(before) + s.last()) * h == sum(before) * h + s.last() * h) by (nonlinear_arith);
    } else {
        assert(0 * h == 0);
    }
}

/// A lone finite size takes everything: it becomes one, whatever it was.
pub proof fn law_lone_size_is_one(size: TilingSize)
    requires
        size.at_least_zero().bits < singles::INFINITE,
    ensures
        normalized(seq![Some(size)]) == seq![TilingSize::one()],
{
    let sizes = seq![Some(size)];
    let w = size.at_least_zero();
    assert(sizes.drop_last() =~= Seq::<Option<TilingSize>>::empty());
    assert(ones(sizes).drop_last() =~= Seq::<nat>::empty());
    assert(sum(ones(sizes).drop_last()) == 0);
    assert(sum(ones(sizes)) == 1);
    singles::lemma_zero();
    singles::lemma_finite_is_kept(w);
    assert(total(sizes.drop_last()) == TilingSize::zero());
    assert(total(sizes) == w);
    if w.bits <= NEGLIGIBLE {
        singles::lemma_quotient_by_itself(1);
        singles::lemma_one();
        vstd::arithmetic::power2::lemma_pow2_pos(149);
        singles::lemma_quotient_by_itself(pow2(149));
    } else {
        singles::lemma_value_pos(w);
        singles::lemma_quotient_by_itself(singles::value(w));
    }
    assert(normalized(sizes) =~= seq![TilingSize::one()]);
}

/// Each share is the part that its size has of the sum: the share times the sum is the
/// size, but for two to the power of -25 of the sum. Where the sum is negligible, all
/// shares are equal.
pub proof fn law_shares_keep_proportions(sizes: Seq<Option<TilingSize>>, i: int, j: int)
    requires
        0 <= i < sizes.len(),
        0 <= j < sizes.len(),
        sizes[i] is Some,
        sizes[j] is Some,
        total(sizes).bits < singles::INFINITE,
    ensures
        total(sizes).bits > NEGLIGIBLE ==> ({
            let t = singles::value(total(sizes));
            let r = singles::value(normalized(sizes)[i]);
            let w = singles::value((sizes[i]->0).at_least_zero());
            -(t * pow2(124)) <= r * t - w * pow2(149) <= t * pow2(124)
        }),
        ({
            let t = singles::value(total(sizes));
            let n = sum(ones(sizes));
            -(n * t) <= (t - sum(weights(sizes))) * 0x100_0000 <= n * t
        }),
        total(sizes).bits <= NEGLIGIBLE ==> normalized(sizes)[i] == normalized(sizes)[j],
        sizes[i] == sizes[j] ==> normalized(sizes)[i] == normalized(sizes)[j],
{
    lemma_total_is_close(sizes);
    if total(sizes).bits > NEGLIGIBLE {
        let t = singles::value(total(sizes));
        singles::lemma_value_pos(total(sizes));
        assert(weights(sizes)[i] <= t);
        assert(sizes[i] is Some);
        singles::law_quotient_is_close(weights(sizes)[i], t);
    }
}

} // verus!

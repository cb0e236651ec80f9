//! Floating placements relative to a monitor.
//!
//! A placement is saved as fractions of the monitor that it was on, so that it
//! can be restored on a monitor of another size. The fractions are written as
//! single-precision numbers.
use crate::dto::{Rect, TilingSize};
use crate::singles;
use vstd::arithmetic::power2::pow2;
use vstd::prelude::*;

verus! {

/// A fraction, kept as the bit pattern of a single-precision number.
#[derive(Clone, Copy, Debug, PartialEq, Eq, Structural)]
pub struct Fraction {
    pub bits: u32,
}

/// A placement in fractions of the bounds of a monitor.
#[derive(Clone, Copy, Debug, PartialEq, Eq, Structural)]
pub struct SnapshotRelativeRect {
    pub x: Fraction,
    pub y: Fraction,
    pub width: Fraction,
    pub height: Fraction,
}

/// The sign bit.
pub const SIGN: u32 = 0x8000_0000;

/// The fraction closest to `distance / length`.
pub open spec fn fraction_of(distance: int, length: int) -> Fraction {
    if distance < 0 {
        Fraction { bits: (SIGN + singles::closest_bits(-distance as nat, length as nat)) as u32 }
    } else {
        Fraction { bits: singles::closest_bits(distance as nat, length as nat) as u32 }
    }
}

/// The placement in fractions of `bounds`. There is none in bounds without an
/// extent.
pub open spec fn relative_to(rect: Rect, bounds: Rect) -> Option<SnapshotRelativeRect> {
    if bounds.width <= 0 || bounds.height <= 0 {
        None
    } else {
        Some(
            SnapshotRelativeRect {
                x: fraction_of(rect.x - bounds.x, bounds.width as int),
                y: fraction_of(rect.y - bounds.y, bounds.height as int),
                width: fraction_of(rect.width as int, bounds.width as int),
                height: fraction_of(rect.height as int, bounds.height as int),
            },
        )
    }
}

/// The fraction without its sign.
pub open spec fn magnitude(f: Fraction) -> TilingSize {
    TilingSize { bits: f.bits % SIGN }
}

/// `x`, halved `n` times and rounded down.
pub open spec fn halved(x: nat, n: nat) -> nat
    decreases n,
{
    if n == 0 {
        x
    } else {
        halved(x / 2, (n - 1) as nat)
    }
}

/// The fraction of a length, rounded to whole pixels. Fractions of more than
/// sixteen million, and what is no number, give nothing.
pub open spec fn fraction_of_length(f: Fraction, length: nat) -> Option<int> {
    let m = magnitude(f);
    if singles::scale(m) > 150 {
        None
    } else {
        let pixels = ((halved(
            2 * (singles::significand(m) * length),
            (150 - singles::scale(m)) as nat,
        ) + 1) / 2) as int;
        Some(
            if f.bits >= SIGN {
                -pixels
            } else {
                pixels
            },
        )
    }
}

pub open spec fn fits(n: int) -> bool {
    i32::MIN <= n <= i32::MAX
}

/// The placement in `bounds` that the fractions describe, if it can be written.
pub open spec fn placed_in(relative: SnapshotRelativeRect, bounds: Rect) -> Option<Rect> {
    if bounds.width <= 0 || bounds.height <= 0 {
        None
    } else {
        match (
            fraction_of_length(relative.x, bounds.width as nat),
            fraction_of_length(relative.y, bounds.height as nat),
            fraction_of_length(relative.width, bounds.width as nat),
            fraction_of_length(relative.height, bounds.height as nat),
        ) {
            (Some(x), Some(y), Some(width), Some(height)) => if fits(bounds.x + x) && fits(
                bounds.y + y,
            ) && fits(width) && fits(height) {
                Some(
                    Rect {
                        x: (bounds.x + x) as i32,
                        y: (bounds.y + y) as i32,
                        width: width as i32,
                        height: height as i32,
                    },
                )
            } else {
                None
            },
            _ => None,
        }
    }
}

/// Where a floating window goes: by fractions if they were saved and the monitor
/// is known, and otherwise where it was.
pub open spec fn chosen_placement(
    absolute: Option<Rect>,
    relative: Option<SnapshotRelativeRect>,
    bounds: Option<Rect>,
) -> Option<Rect> {
    match (relative, bounds) {
        (Some(fractions), Some(monitor)) => match placed_in(fractions, monitor) {
            Some(rect) => Some(rect),
            None => absolute,
        },
        _ => absolute,
    }
}

fn fraction(distance: i64, length: i32) -> (r: Fraction)
    requires
        length > 0,
        -0x2_0000_0000 < distance < 0x2_0000_0000,
    ensures
        r == fraction_of(distance as int, length as int),
{
    let negative = distance < 0;
    let far: i64 = if negative {
        0 - distance
    } else {
        distance
    };
    let size = singles::closest_single(far as u128, length as u128);
    if negative {
        Fraction { bits: SIGN + size.bits }
    } else {
        Fraction { bits: size.bits }
    }
}

/// The placement in fractions of `bounds`.
pub fn relative_placement(rect: Rect, bounds: Rect) -> (r: Option<SnapshotRelativeRect>)
    ensures
        r == relative_to(rect, bounds),
{
    if bounds.width <= 0 || bounds.height <= 0 {
        return None;
    }
    Some(
        SnapshotRelativeRect {
            x: fraction(rect.x as i64 - bounds.x as i64, bounds.width),
            y: fraction(rect.y as i64 - bounds.y as i64, bounds.height),
            width: fraction(rect.width as i64, bounds.width),
            height: fraction(rect.height as i64, bounds.height),
        },
    )
}

fn pixels_of(f: Fraction, length: i32) -> (r: Option<i64>)
    requires
        length > 0,
    ensures
        match (r, fraction_of_length(f, length as nat)) {
            (Some(a), Some(b)) => a == b && -0x100_0000_0000_0000 < a < 0x100_0000_0000_0000,
            (None, None) => true,
            _ => false,
        },
{
    let bits: u32 = f.bits % SIGN;
    let (digits, scale): (u32, u32) = if bits < 0x80_0000 {
        (bits, 1)
    } else {
        (0x80_0000 + bits % 0x80_0000, bits / 0x80_0000)
    };
    if scale > 150 {
        return None;
    }
    assert(digits * length < 0x100_0000 * 0x8000_0000) by (nonlinear_arith)
        requires
            0 <= digits < 0x100_0000,
            0 < length < 0x8000_0000,
    ;
    let mut x: u64 = 2 * (digits as u64 * length as u64);
    let mut n: u32 = 150 - scale;
    let ghost all = halved(x as nat, n as nat);
    while n > 0
        invariant
            x <= 0x100_0000_0000_0000,
            all == halved(x as nat, n as nat),
        decreases n,
    {
        x = x / 2;
        n = n - 1;
    }
    let pixels: i64 = ((x + 1) / 2) as i64;
    Some(
        if f.bits >= SIGN {
            0 - pixels
        } else {
            pixels
        },
    )
}

fn in_range(n: i64) -> (r: bool)
    ensures
        r == fits(n as int),
{
    i32::MIN as i64 <= n && n <= i32::MAX as i64
}

/// The placement in `bounds` that the fractions describe.
pub fn absolute_placement(relative: SnapshotRelativeRect, bounds: Rect) -> (r: Option<Rect>)
    ensures
        r == placed_in(relative, bounds),
{
    if bounds.width <= 0 || bounds.height <= 0 {
        return None;
    }
    match (
        pixels_of(relative.x, bounds.width),
        pixels_of(relative.y, bounds.height),
        pixels_of(relative.width, bounds.width),
        pixels_of(relative.height, bounds.height),
    ) {
        (Some(dx), Some(dy), Some(width), Some(height)) => {
            let x: i64 = bounds.x as i64 + dx;
            let y: i64 = bounds.y as i64 + dy;
            if in_range(x) && in_range(y) && in_range(width) && in_range(height) {
                Some(
                    Rect { x: x as i32, y: y as i32, width: width as i32, height: height as i32 },
                )
            } else {
                None
            }
        },
        _ => None,
    }
}

/// Decides where a floating window goes.
pub fn choose_placement(
    absolute: Option<Rect>,
    relative: Option<SnapshotRelativeRect>,
    bounds: Option<Rect>,
) -> (r: Option<Rect>)
    ensures
        r == chosen_placement(absolute, relative, bounds),
{
    if let Some(fractions) = relative {
        if let Some(monitor) = bounds {
            if let Some(rect) = absolute_placement(fractions, monitor) {
                return Some(rect);
            }
        }
    }
    absolute
}

// ---------------------------------------------------------------------------
// Laws
// ---------------------------------------------------------------------------

proof fn lemma_halved_is_division(x: nat, n: nat)
    ensures
        halved(x, n) == x / pow2(n),
    decreases n,
{
    vstd::arithmetic::power2::lemma2_to64();
    if n > 0 {
        lemma_halved_is_division(x / 2, (n - 1) as nat);
        vstd::arithmetic::power2::lemma_pow2_unfold(n);
        vstd::arithmetic::power2::lemma_pow2_pos((n - 1) as nat);
        vstd::arithmetic::div_mod::lemma_div_denominator(x as int, 2, pow2((n - 1) as nat) as int);
    } else {
        assert(x / 1 == x);
    }
}

proof fn lemma_growth_bound(start: nat, n: nat, bound: nat)
    requires
        0 < start,
        start * pow2(n) < pow2(bound),
    ensures
        n < bound,
{
    if n >= bound {
        if n > bound {
            vstd::arithmetic::power2::lemma_pow2_strictly_increases(bound, n);
        }
        assert(start * pow2(n) >= pow2(n)) by (nonlinear_arith)
            requires
                start >= 1,
        ;
    }
}

/// A distance of less than eight million pixels is found again.
proof fn lemma_distance_is_found(distance: nat, length: nat)
    requires
        distance < 0x80_0000,
        0 < length < 0x8000_0000,
    ensures
        ({
            let m = TilingSize { bits: singles::closest_bits(distance, length) as u32 };
            &&& singles::closest_bits(distance, length) < SIGN
            &&& singles::scale(m) <= 150
            &&& (halved(
                2 * (singles::significand(m) * length),
                (150 - singles::scale(m)) as nat,
            ) + 1) / 2 == distance
        }),
{
    if distance == 0 {
        lemma_halved_is_division(0, 149);
        vstd::arithmetic::power2::lemma_pow2_pos(149);
        vstd::arithmetic::div_mod::lemma_basic_div(0, pow2(149) as int);
        let m = TilingSize { bits: 0 };
        assert(singles::significand(m) * length == 0) by (nonlinear_arith)
            requires
                singles::significand(m) == 0,
        ;
    } else {
        lemma_some_distance_is_found(distance, length);
    }
}

proof fn lemma_some_distance_is_found(distance: nat, length: nat)
    requires
        0 < distance < 0x80_0000,
        0 < length < 0x8000_0000,
    ensures
        ({
            let m = TilingSize { bits: singles::closest_bits(distance, length) as u32 };
            &&& singles::closest_bits(distance, length) < SIGN
            &&& singles::scale(m) <= 150
            &&& (halved(
                2 * (singles::significand(m) * length),
                (150 - singles::scale(m)) as nat,
            ) + 1) / 2 == distance
        }),
{
    vstd::arithmetic::power2::lemma2_to64();
    let k = singles::doublings(distance, length);
    let j = singles::growths(length, distance);
    let digits = singles::leading_digits(distance, length);
    singles::lemma_raised(distance, length);
    singles::lemma_grown(length, distance);
    singles::lemma_digits(distance, length);
    singles::law_closest_is_close(distance, length);
    lemma_growth_bound(distance, k, 32);
    if length <= distance {
        lemma_growth_bound(length, j, 23);
    }
    let places = (23 + k - j) as nat;
    let u = pow2(places);
    let v = pow2(j);
    let w = pow2(k);
    vstd::arithmetic::power2::lemma_pow2_adds(23, k);
    vstd::arithmetic::power2::lemma_pow2_adds(places, j);
    vstd::arithmetic::power2::lemma_pow2_pos(j);
    vstd::arithmetic::power2::lemma_pow2_pos(places);
    assert(0x80_0000 * w == u * v);
    lemma_within_half(distance, length, digits, u, v, w);
    let x = digits * length;
    let bits = singles::closest_bits(distance, length);
    let m = TilingSize { bits: bits as u32 };
    let e = (127 + j - k) as nat;
    assert(bits == (e - 1) * 0x80_0000 + digits);
    vstd::arithmetic::div_mod::lemma_div_basics((2 * x) as int);
    assert((2 * x) / u == 2 * distance - 1 || (2 * x) / u == 2 * distance) by {
        let q = ((2 * x) / u) as int;
        vstd::arithmetic::div_mod::lemma_fundamental_div_mod((2 * x) as int, u as int);
        assert(2 * distance - 2 < q < 2 * distance + 1) by (nonlinear_arith)
            requires
                2 * x == u * q + ((2 * x) % u),
                0 <= (2 * x) % u < u,
                (2 * distance - 1) * u < 2 * x < (2 * distance + 1) * u,
        ;
    }
    if digits < 0x100_0000 {
        assert(singles::scale(m) == e);
        assert(singles::significand(m) == digits);
        lemma_halved_is_division(2 * (digits * length), places);
    } else {
        assert(singles::scale(m) == e + 1);
        assert(singles::significand(m) == 0x80_0000);
        let half = (places - 1) as nat;
        lemma_halved_is_division(2 * (0x80_0000 * length), half);
        vstd::arithmetic::power2::lemma_pow2_unfold(places);
        vstd::arithmetic::power2::lemma_pow2_pos(half);
        assert(2 * (0x80_0000 * length) == x) by (nonlinear_arith)
            requires
                digits == 0x100_0000,
                x == digits * length,
        ;
        assert((2 * x) / u == x / pow2(half)) by {
            vstd::arithmetic::div_mod::lemma_div_denominator(
                (2 * x) as int,
                2,
                pow2(half) as int,
            );
        }
    }
}

proof fn lemma_within_half(distance: nat, length: nat, digits: nat, u: nat, v: nat, w: nat)
    requires
        0 < v,
        0 < u,
        0 < w,
        distance < 0x80_0000,
        0x80_0000 * w == u * v,
        length * v <= distance * w,
        -(length * v) <= 2 * (digits * (length * v) - (distance * w) * 0x80_0000) <= length * v,
    ensures
        (2 * distance - 1) * u < 2 * (digits * length) < (2 * distance + 1) * u,
{
    let d = 2 * (digits * length) - 2 * (distance * u);
    assert((distance * w) * 0x80_0000 == (distance * u) * v) by (nonlinear_arith)
        requires
            0x80_0000 * w == u * v,
    ;
    assert(digits * (length * v) == (digits * length) * v) by (nonlinear_arith);
    assert(d * v == 2 * ((digits * length) * v - (distance * u) * v)) by (nonlinear_arith)
        requires
            d == 2 * (digits * length) - 2 * (distance * u),
    ;
    assert(-length <= d <= length) by (nonlinear_arith)
        requires
            -(length * v) <= d * v <= length * v,
            0 < v,
    ;
    assert(distance * w < 0x80_0000 * w) by (nonlinear_arith)
        requires
            distance < 0x80_0000,
            0 < w,
    ;
    assert(length < u) by (nonlinear_arith)
        requires
            length * v < u * v,
            0 < v,
    ;
    assert((2 * distance - 1) * u == 2 * (distance * u) - u) by (nonlinear_arith);
    assert((2 * distance + 1) * u == 2 * (distance * u) + u) by (nonlinear_arith);
}

proof fn lemma_fraction_is_found(distance: int, length: int)
    requires
        -0x80_0000 < distance < 0x80_0000,
        0 < length < 0x8000_0000,
    ensures
        fraction_of_length(fraction_of(distance, length), length as nat) == Some(distance),
{
    if distance < 0 {
        lemma_distance_is_found(-distance as nat, length as nat);
    } else {
        lemma_distance_is_found(distance as nat, length as nat);
    }
}

/// A placement within eight million pixels of the corner of its monitor comes
/// back unchanged when it is restored on a monitor with the same bounds.
pub proof fn law_placement_round_trips(rect: Rect, bounds: Rect)
    requires
        0 < bounds.width,
        0 < bounds.height,
        -0x80_0000 < rect.x - bounds.x < 0x80_0000,
        -0x80_0000 < rect.y - bounds.y < 0x80_0000,
        -0x80_0000 < rect.width < 0x80_0000,
        -0x80_0000 < rect.height < 0x80_0000,
    ensures
        relative_to(rect, bounds) is Some,
        placed_in(relative_to(rect, bounds)->0, bounds) == Some(rect),
{
    lemma_fraction_is_found(rect.x - bounds.x, bounds.width as int);
    lemma_fraction_is_found(rect.y - bounds.y, bounds.height as int);
    lemma_fraction_is_found(rect.width as int, bounds.width as int);
    lemma_fraction_is_found(rect.height as int, bounds.height as int);
}

/// Snapshots without fractions, and monitors without a match, leave a window
/// where it was.
pub proof fn law_absolute_placement_is_the_fallback(
    absolute: Option<Rect>,
    relative: Option<SnapshotRelativeRect>,
    bounds: Option<Rect>,
)
    requires
        relative is None || bounds is None,
    ensures
        chosen_placement(absolute, relative, bounds) == absolute,
{
}

/// Left and width are fractions of the width of the monitor, top and height of its
/// height: neither depends on the other direction.
pub proof fn law_directions_are_independent(rect: Rect, other: Rect, a: Rect, b: Rect)
    requires
        a.width > 0,
        a.height > 0,
        b.width > 0,
        b.height > 0,
    ensures
        relative_to(rect, a) is Some,
        relative_to(other, b) is Some,
        rect.x == other.x && rect.width == other.width && a.x == b.x && a.width == b.width ==> (
        relative_to(rect, a)->0).x == (relative_to(other, b)->0).x && (relative_to(rect, a)->0).width
            == (relative_to(other, b)->0).width,
        rect.y == other.y && rect.height == other.height && a.y == b.y && a.height == b.height ==> (
        relative_to(rect, a)->0).y == (relative_to(other, b)->0).y && (relative_to(
            rect,
            a,
        )->0).height == (relative_to(other, b)->0).height,
{
}

/// A window that fills its monitor fills any monitor that it is restored on.
pub proof fn law_full_window_fills_any_monitor(saved: Rect, monitor: Rect)
    requires
        saved.width > 0,
        saved.height > 0,
        monitor.width > 0,
        monitor.height > 0,
    ensures
        relative_to(saved, saved) is Some,
        placed_in(relative_to(saved, saved)->0, monitor) == Some(monitor),
{
    singles::lemma_part_is_single(saved.width as nat, saved.width as nat);
    singles::lemma_part_is_single(saved.height as nat, saved.height as nat);
    singles::lemma_quotient_by_itself(saved.width as nat);
    singles::lemma_quotient_by_itself(saved.height as nat);
    lemma_whole_length(monitor.width as nat);
    lemma_whole_length(monitor.height as nat);
    lemma_no_length(monitor.width as nat);
    lemma_no_length(monitor.height as nat);
    lemma_whole_bits(saved.width as nat);
    lemma_whole_bits(saved.height as nat);
}

proof fn lemma_whole_bits(n: nat)
    requires
        0 < n,
    ensures
        singles::closest_bits(n, n) == 0x3f80_0000,
{
    vstd::arithmetic::div_mod::lemma_fundamental_div_mod_converse(
        (n * 0x80_0000) as int,
        n as int,
        0x80_0000,
        0,
    );
}

proof fn lemma_whole_length(length: nat)
    ensures
        fraction_of_length(Fraction { bits: 0x3f80_0000 }, length) == Some(length as int),
{
    let m = magnitude(Fraction { bits: 0x3f80_0000 });
    assert(m.bits == 0x3f80_0000);
    assert(singles::scale(m) == 127);
    assert(singles::significand(m) == 0x80_0000);
    lemma_halved_is_division(2 * (0x80_0000 * length), 23);
    vstd::arithmetic::power2::lemma2_to64();
    assert(2 * (0x80_0000 * length) == 0x80_0000 * (2 * length));
    vstd::arithmetic::div_mod::lemma_div_multiples_vanish((2 * length) as int, 0x80_0000);
    assert((2 * length + 1) / 2 == length);
}

proof fn lemma_no_length(length: nat)
    ensures
        fraction_of_length(Fraction { bits: 0 }, length) == Some(0int),
{
    let m = magnitude(Fraction { bits: 0 });
    assert(singles::significand(m) == 0);
    lemma_halved_is_division(0, 149);
    vstd::arithmetic::power2::lemma_pow2_pos(149);
    assert(2 * (0 * length) == 0);
    vstd::arithmetic::div_mod::lemma_div_of0(pow2(149) as int);
}

/// Fractions count before the absolute placement wherever they can be used.
pub proof fn law_fractions_come_first(
    absolute: Option<Rect>,
    relative: SnapshotRelativeRect,
    bounds: Rect,
)
    ensures
        placed_in(relative, bounds) is Some ==> chosen_placement(
            absolute,
            Some(relative),
            Some(bounds),
        ) == placed_in(relative, bounds),
        placed_in(relative, bounds) is None ==> chosen_placement(
            absolute,
            Some(relative),
            Some(bounds),
        ) == absolute,
{
}

} // verus!

//! What holds of measured quantities, of decimal notation, of time and of the noise
//! generator.

use vstd::prelude::*;

use crate::calendar::{day_number, is_date};
use crate::fixture::{clipped, reached, scrambled, stirred};
use crate::quantity::Quantity;
use crate::store::{is_stamp, time_text};
use crate::text::{digits, signed_digits, text_le, zero_padded};

verus! {

// ---------------------------------------------------------------- the order of quantities

/// Exactly the patterns beyond the infinities are not numbers.
pub proof fn patterns_beyond_infinity_are_no_numbers(a: Quantity)
    ensures
        a.not_a_number() <==> 0x7ff0_0000_0000_0000 < a.bits < 0x8000_0000_0000_0000 || 0xfff0_0000_0000_0000 < a.bits,
{
}

/// Numbers are ordered by their bits: positive ones upwards, negative ones downwards,
/// and negative ones come before positive ones, save that both zeros are equal.
pub proof fn numbers_are_ordered_by_their_bits(a: Quantity, b: Quantity)
    requires
        !a.not_a_number(),
        !b.not_a_number(),
    ensures
        a.bits < 0x8000_0000_0000_0000 && b.bits < 0x8000_0000_0000_0000 ==> (a.lt(b) <==> a.bits < b.bits),
        a.bits >= 0x8000_0000_0000_0000 && b.bits >= 0x8000_0000_0000_0000 ==> (a.lt(b) <==> b.bits < a.bits),
        a.bits >= 0x8000_0000_0000_0000 && b.bits < 0x8000_0000_0000_0000 ==> (a.lt(b) <==> a.bits
            > 0x8000_0000_0000_0000 || b.bits > 0),
        a.bits < 0x8000_0000_0000_0000 && b.bits >= 0x8000_0000_0000_0000 ==> !a.lt(b),
{
}

/// Of two numbers one is less than the other, or they are equal; equal ones have the
/// same bits or are both zero.
pub proof fn numbers_can_be_compared(a: Quantity, b: Quantity)
    requires
        !a.not_a_number(),
        !b.not_a_number(),
    ensures
        a.le(b) <==> a.lt(b) || a.equals(b),
        a.le(b) <==> !b.lt(a),
        !(a.lt(b) && b.lt(a)),
        a.equals(b) <==> a.bits == b.bits || (a.bits == 0 || a.bits == 0x8000_0000_0000_0000) && (b.bits == 0 || b.bits
            == 0x8000_0000_0000_0000),
{
}

/// What is not a number compares with nothing.
pub proof fn no_numbers_compare_with_nothing(a: Quantity, b: Quantity)
    requires
        a.not_a_number() || b.not_a_number(),
    ensures
        !a.lt(b),
        !a.le(b),
        !a.equals(b),
{
}

/// The total order puts all patterns in one line: those with a sign downwards by
/// their bits, then those without upwards.
pub proof fn all_patterns_are_in_one_line(a: Quantity, b: Quantity)
    ensures
        a.total_place() < b.total_place() <==> if a.bits >= 0x8000_0000_0000_0000 {
            b.bits < 0x8000_0000_0000_0000 || b.bits < a.bits
        } else {
            b.bits < 0x8000_0000_0000_0000 && a.bits < b.bits
        },
        a.total_place() == b.total_place() <==> a == b,
        !a.not_a_number() && !b.not_a_number() && a.lt(b) ==> a.total_place() < b.total_place(),
        !a.not_a_number() && !b.not_a_number() && a.total_place() <= b.total_place() ==> a.le(b),
{
}

/// The smaller and the larger of two numbers are these two, in order; what is not a
/// number gives way.
pub proof fn smaller_and_larger_bound_both(a: Quantity, b: Quantity)
    ensures
        a.lesser(b) == a || a.lesser(b) == b,
        a.greater(b) == a || a.greater(b) == b,
        !a.not_a_number() && !b.not_a_number() ==> {
            &&& a.lesser(b).le(a) && a.lesser(b).le(b)
            &&& a.le(a.greater(b)) && b.le(a.greater(b))
        },
        a.not_a_number() ==> a.lesser(b) == b && a.greater(b) == b,
        !a.not_a_number() && b.not_a_number() ==> a.lesser(b) == a && a.greater(b) == a,
        a.equals(b) ==> a.lesser(b) == a && a.greater(b) == a,
{
}

/// A quantity and its absolute value differ in the sign at most.
pub proof fn absolute_values_have_no_sign(a: Quantity)
    ensures
        a.absolute().bits < 0x8000_0000_0000_0000,
        a.absolute().bits == a.bits || a.absolute().bits + 0x8000_0000_0000_0000 == a.bits,
{
}

/// A clipped sample lies between the rails, -1 and 1; one that lay there stays as it
/// is, and any other goes to the rail that it lay beyond.
pub proof fn clipping_leaves_what_lies_between_the_rails(v: Quantity)
    requires
        !v.not_a_number(),
    ensures
        ({
            let lower = Quantity { bits: 0xbff0_0000_0000_0000 };
            let upper = Quantity { bits: 0x3ff0_0000_0000_0000 };
            &&& lower.le(clipped(v)) && clipped(v).le(upper)
            &&& lower.le(v) && v.le(upper) ==> clipped(v) == v
            &&& upper.lt(v) ==> clipped(v) == upper
            &&& v.lt(lower) ==> clipped(v) == lower
        }),
{
}

// ---------------------------------------------------------------- decimal notation

/// The number that a text of decimal digits stands for.
pub open spec fn value_of(s: Seq<char>) -> int
    decreases s.len(),
{
    if s.len() == 0 {
        0
    } else {
        10 * value_of(s.drop_last()) + (s.last() as int - '0' as int)
    }
}

/// A decimal notation stands for its number, and has no leading zero.
pub proof fn notations_stand_for_their_number(n: nat)
    ensures
        value_of(digits(n)) == n,
        n > 0 ==> digits(n)[0] != '0',
        n == 0 ==> digits(n) == seq!['0'],
    decreases n,
{
    reveal_with_fuel(value_of, 2);
    if n < 10 {
        assert(digits(n).drop_last().len() == 0);
    } else {
        notations_stand_for_their_number(n / 10);
        crate::text::lemma_digits_shape(n / 10);
        assert(digits(n).drop_last() =~= digits(n / 10));
    }
}

/// The notation of a negative number is that of its opposite behind a minus sign.
pub proof fn negative_notations_bear_a_sign(n: int)
    ensures
        n >= 0 ==> signed_digits(n) == digits(n as nat),
        n < 0 ==> signed_digits(n) == seq!['-'] + digits((-n) as nat),
{
}

/// A padded text ends in the text itself, with nothing but zeros in front, and is at
/// least as long as asked for, but no longer unless the text is.
pub proof fn padding_puts_zeros_in_front(s: Seq<char>, width: nat)
    ensures
        ({
            let p = zero_padded(s, width);
            &&& p.len() == if s.len() >= width {
                s.len()
            } else {
                width
            }
            &&& p.skip(p.len() - s.len()) == s
            &&& forall|i: int| 0 <= i < p.len() - s.len() ==> #[trigger] p[i] == '0'
        }),
    decreases width,
{
    let p = zero_padded(s, width);
    if s.len() < width {
        padding_puts_zeros_in_front(s, (width - 1) as nat);
        let q = zero_padded(s, (width - 1) as nat);
        assert(p.skip(p.len() - s.len()) =~= q.skip(q.len() - s.len()));
        assert forall|i: int| 0 <= i < p.len() - s.len() implies #[trigger] p[i] == '0' by {
            if i > 0 {
                assert(p[i] == q[i - 1]);
            }
        }
    } else {
        assert(p.skip(0) =~= s);
    }
}

/// Of two texts that agree up to a place, the one that ends there comes first, or
/// else the one with the lower character there.
pub proof fn the_first_difference_decides(a: Seq<char>, b: Seq<char>, n: int)
    requires
        0 <= n <= a.len(),
        n <= b.len(),
        forall|i: int| 0 <= i < n ==> #[trigger] a[i] == b[i],
        n < a.len() && n < b.len() ==> a[n] != b[n],
    ensures
        n == a.len() ==> text_le(a, b),
        n < a.len() && n == b.len() ==> !text_le(a, b),
        n < a.len() && n < b.len() ==> (text_le(a, b) <==> a[n] < b[n]),
    decreases n,
{
    if n > 0 {
        assert(a[0] == b[0]);
        let (x, y) = (a.drop_first(), b.drop_first());
        assert forall|i: int| 0 <= i < n - 1 implies #[trigger] x[i] == y[i] by {
            assert(a[i + 1] == b[i + 1]);
        }
        the_first_difference_decides(x, y, n - 1);
    }
}

// ---------------------------------------------------------------- time

/// The days of an ordinary year before each month; in leap years there is one more
/// from March on.
pub open spec fn ordinary_days_before(m: int) -> int {
    seq![0int, 31, 59, 90, 120, 151, 181, 212, 243, 273, 304, 334][m - 1]
}

/// Whether a year has 366 days: every fourth, but of the full centuries only every
/// fourth.
pub open spec fn is_long(y: int) -> bool {
    y % 4 == 0 && y % 100 != 0 || y % 400 == 0
}

/// Days are counted from 1970-01-01; each day is one more than the day before it, over
/// the ends of months and years too.
pub proof fn days_are_counted_one_by_one(y: int, m: int, d: int)
    requires
        1 <= m <= 12,
    ensures
        day_number(1970, 1, 1) == 0,
        day_number(y, m, d + 1) == day_number(y, m, d) + 1,
        day_number(y, m, 1) == day_number(y, 1, 1) + ordinary_days_before(m) + if m > 2 && is_long(y) {
            1int
        } else {
            0
        },
        day_number(y + 1, 1, 1) == day_number(y, 1, 1) + if is_long(y) {
            366int
        } else {
            365
        },
        is_date(y, m, d) <==> 1 <= d && (m < 12 ==> day_number(y, m, d) < day_number(y, m + 1, 1)) && (m == 12 ==> day_number(
            y,
            m,
            d,
        ) < day_number(y + 1, 1, 1)),
{
    reveal(crate::calendar::days_before_year);
    reveal_with_fuel(crate::calendar::days_before_month, 13);
    crate::calendar::years_are_365_or_366_days_long(y);
}

/// A day is written as its year in at least four digits, its month and its day in two
/// each, with hyphens between them; a moment as its day, a T, the time and a Z.
pub proof fn moments_are_written_day_first(t: Seq<char>, secs: int)
    requires
        is_stamp(t, secs),
    ensures
        exists|y: int, m: int, d: int|
            {
                &&& is_date(y, m, d)
                &&& #[trigger] day_number(y, m, d) * 86_400 <= secs < day_number(y, m, d) * 86_400 + 86_400
                &&& t == zero_padded(digits(y as nat), 4) + "-"@ + zero_padded(digits(m as nat), 2) + "-"@ + zero_padded(
                    digits(d as nat),
                    2,
                ) + "T"@ + time_text(secs - day_number(y, m, d) * 86_400) + "Z"@
            },
{
    let (y, m, d) = choose|y: int, m: int, d: int|
        is_date(y, m, d) && #[trigger] day_number(y, m, d) == secs / 86_400 && t == crate::store::date_text(y, m, d)
            + "T"@ + time_text(secs % 86_400) + "Z"@;
    assert(secs % 86_400 == secs - day_number(y, m, d) * 86_400);
}

/// A time of day is written as hours, minutes and seconds, two digits each.
pub proof fn times_are_hours_minutes_and_seconds(h: int, m: int, s: int)
    requires
        0 <= h < 24,
        0 <= m < 60,
        0 <= s < 60,
    ensures
        time_text(3600 * h + 60 * m + s) == zero_padded(digits(h as nat), 2) + ":"@ + zero_padded(digits(m as nat), 2)
            + ":"@ + zero_padded(digits(s as nat), 2),
{
    let t = 3600 * h + 60 * m + s;
    assert(t / 3600 == h);
    assert(t % 3600 / 60 == m);
    assert(t % 60 == s);
}

// ---------------------------------------------------------------- the generator

/// One step of the generator, in terms of its state alone: the state shifted by 12 and
/// 27 to the right and by 25 to the left, and their combinations, all added bit by
/// bit; and what it gives out is the state times a constant, in 64 bits.
pub proof fn the_generator_shifts_and_multiplies(x: u64)
    ensures
        stirred(x) == x ^ (x >> 12u64) ^ (x << 25u64) ^ ((x >> 12u64) << 25u64) ^ (x >> 27u64) ^ (x >> 39u64) ^ ((x
            << 25u64) >> 27u64) ^ (((x >> 12u64) << 25u64) >> 27u64),
        scrambled(x) as int == (x as int * 2_685_821_657_736_338_717) % 0x1_0000_0000_0000_0000,
{
    assert(({
        let a = x ^ (x >> 12u64);
        let b = a ^ (a << 25u64);
        b ^ (b >> 27u64)
    }) == x ^ (x >> 12u64) ^ (x << 25u64) ^ ((x >> 12u64) << 25u64) ^ (x >> 27u64) ^ (x >> 39u64) ^ ((x << 25u64)
        >> 27u64) ^ (((x >> 12u64) << 25u64) >> 27u64)) by (bit_vector);
}

/// An echo reaches the samples of the record that are no further from its centre than
/// half its width, on both sides alike.
pub proof fn echoes_reach_both_ways(sample: int, half: int, len: int, i: int)
    ensures
        reached(sample, half, len, i) <==> 0 <= i < len && i <= sample + half && sample <= i + half,
{
}

} // verus!

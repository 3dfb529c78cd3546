//! The order of the radix-2 transform and the gains of the analytic signal.

use vstd::arithmetic::div_mod::{lemma_fundamental_div_mod, lemma_fundamental_div_mod_converse};
use vstd::arithmetic::power2::{lemma_pow2_pos, lemma_pow2_unfold, pow2};
use vstd::prelude::*;

verus! {

/// The number whose `bits` lowest binary digits are those of `i` in reverse order.
pub open spec fn mirrored(i: nat, bits: nat) -> nat
    decreases bits,
{
    if bits == 0 {
        0
    } else {
        (i % 2) * pow2((bits - 1) as nat) + mirrored(i / 2, (bits - 1) as nat)
    }
}

proof fn lemma_mirrored_bound(i: nat, bits: nat)
    ensures
        mirrored(i, bits) < pow2(bits),
    decreases bits,
{
    lemma_pow2_pos(bits);
    if bits > 0 {
        lemma_mirrored_bound(i / 2, (bits - 1) as nat);
        lemma_pow2_unfold(bits);
        let h = pow2((bits - 1) as nat);
        assert((i % 2) * h <= h) by (nonlinear_arith)
            requires
                i % 2 <= 1,
                h >= 0,
        ;
    }
}

proof fn lemma_halves(i: nat, d: nat)
    requires
        d > 0,
    ensures
        (i % (2 * d)) % 2 == i % 2,
        (i % (2 * d)) / 2 == (i / 2) % d,
        i / (2 * d) == (i / 2) / d,
{
    let q = (i / (2 * d)) as int;
    let x = (i % (2 * d)) as int;
    lemma_fundamental_div_mod(i as int, (2 * d) as int);
    assert((2 * d) * q == 2 * (d * q)) by (nonlinear_arith);
    assert(i == 2 * (d * q) + x);
    assert(i / 2 == d * q + x / 2);
    assert(0 <= x < 2 * d) by (nonlinear_arith)
        requires
            d > 0,
            x == (i % (2 * d)) as int,
    ;
    assert(d * q == q * d) by (nonlinear_arith);
    lemma_fundamental_div_mod_converse((i / 2) as int, d as int, q, x / 2);
}

/// Mirroring takes the highest digit to the lowest.
proof fn lemma_mirrored_high(i: nat, bits: nat)
    requires
        bits > 0,
        i < pow2(bits),
    ensures
        mirrored(i, bits) == 2 * mirrored(i % pow2((bits - 1) as nat), (bits - 1) as nat) + i / pow2((bits - 1) as nat),
    decreases bits,
{
    let h = pow2((bits - 1) as nat);
    lemma_pow2_pos((bits - 1) as nat);
    lemma_pow2_unfold(bits);
    if bits == 1 {
        assert(pow2(0) == 1) by {
            vstd::arithmetic::power2::lemma2_to64();
        }
        assert(mirrored(i / 2, 0) == 0);
        assert(i % 1 == 0 && i / 1 == i);
        assert(i < 2);
        assert((i % 2) * h == i % 2) by (nonlinear_arith)
            requires
                h == 1,
        ;
    } else {
        let d = pow2((bits - 2) as nat);
        lemma_pow2_pos((bits - 2) as nat);
        lemma_pow2_unfold((bits - 1) as nat);
        assert(h == 2 * d);
        lemma_halves(i, d);
        assert(i / 2 < h);
        lemma_mirrored_high(i / 2, (bits - 1) as nat);
        let x = i % h;
        assert(mirrored(x, (bits - 1) as nat) == (x % 2) * d + mirrored(x / 2, (bits - 2) as nat));
        assert((i % 2) * h == 2 * ((i % 2) * d)) by (nonlinear_arith)
            requires
                h == 2 * d,
        ;
    }
}

/// Mirroring twice gives the number back, so the transform's order is a swap of pairs.
pub proof fn mirroring_twice_changes_nothing(i: nat, bits: nat)
    requires
        i < pow2(bits),
    ensures
        mirrored(i, bits) < pow2(bits),
        mirrored(mirrored(i, bits), bits) == i,
    decreases bits,
{
    lemma_mirrored_bound(i, bits);
    if bits == 0 {
        assert(pow2(0) == 1) by {
            vstd::arithmetic::power2::lemma2_to64();
        }
    } else {
        let h = pow2((bits - 1) as nat);
        lemma_pow2_pos((bits - 1) as nat);
        lemma_pow2_unfold(bits);
        let low = mirrored(i / 2, (bits - 1) as nat);
        let j = mirrored(i, bits);
        assert(i / 2 < h);
        mirroring_twice_changes_nothing(i / 2, (bits - 1) as nat);
        lemma_mirrored_high(j, bits);
        assert(j == (i % 2) * h + low);
        lemma_fundamental_div_mod_converse(j as int, h as int, (i % 2) as int, low as int);
    }
}

/// The binary digit of a number with the weight of the `k`-th power of two.
pub open spec fn binary_digit(i: nat, k: nat) -> nat {
    (i / pow2(k)) % 2
}

/// Mirroring turns the binary digits round: the digit at place `k` comes to the place
/// that is as far from the other end.
pub proof fn mirroring_turns_the_digits_round(i: nat, bits: nat, k: nat)
    requires
        k < bits,
    ensures
        binary_digit(mirrored(i, bits), (bits - 1 - k) as nat) == binary_digit(i, k),
    decreases bits,
{
    let h = pow2((bits - 1) as nat);
    let low = mirrored(i / 2, (bits - 1) as nat);
    let j = mirrored(i, bits);
    lemma_pow2_pos((bits - 1) as nat);
    lemma_mirrored_bound(i / 2, (bits - 1) as nat);
    if k == 0 {
        assert(pow2(0) == 1) by {
            vstd::arithmetic::power2::lemma2_to64();
        }
        lemma_fundamental_div_mod_converse(j as int, h as int, (i % 2) as int, low as int);
        assert(i / 1 == i);
    } else {
        mirroring_turns_the_digits_round(i / 2, (bits - 1) as nat, (k - 1) as nat);
        let e = (bits - 1 - k) as nat;
        let d = pow2(e);
        let half = pow2((k - 1) as nat);
        lemma_pow2_pos(e);
        lemma_pow2_pos((k - 1) as nat);
        lemma_pow2_unfold(k);
        lemma_halves(i, half);
        assert(pow2(k) == 2 * half);
        vstd::arithmetic::power2::lemma_pow2_adds(e, k);
        assert(h == d * (2 * half));
        let q = (low / d) as int;
        let rest = (low % d) as int;
        lemma_fundamental_div_mod(low as int, d as int);
        let up = (i % 2) as int * (2 * half as int);
        assert((i % 2) * h == d * up) by (nonlinear_arith)
            requires
                h == d * (2 * half),
                up == (i % 2) as int * (2 * half as int),
        ;
        assert(d * (up + q) == d * up + d * q) by (nonlinear_arith);
        assert(d * (up + q) == (up + q) * d) by (nonlinear_arith);
        assert(0 <= rest < d) by (nonlinear_arith)
            requires
                d > 0,
                rest == (low % d) as int,
        ;
        lemma_fundamental_div_mod_converse(j as int, d as int, up + q, rest);
        let e2 = (i % 2) as int * half as int;
        assert(up == 2 * e2) by (nonlinear_arith)
            requires
                up == (i % 2) as int * (2 * half as int),
                e2 == (i % 2) as int * half as int,
        ;
        assert((up + q) % 2 == q % 2);
    }
}

/// Whether `n` is the power of two with the exponent `bits`.
pub open spec fn is_size(n: nat, bits: nat) -> bool {
    n == pow2(bits)
}

/// The order in which the transform of `n` samples takes them: each number mirrored.
pub fn transform_order(n: usize) -> (r: Vec<usize>)
    requires
        exists|bits: nat| is_size(n as nat, bits),
    ensures
        r@.len() == n,
        forall|bits: nat, i: int| #![trigger is_size(n as nat, bits), r@[i]]
            is_size(n as nat, bits) && 0 <= i < n ==> r@[i] == mirrored(i as nat, bits),
{
    let ghost bits = choose|bits: nat| is_size(n as nat, bits);
    let mut out: Vec<usize> = Vec::new();
    let mut i: usize = 0;
    while i < n
        invariant
            i <= n,
            is_size(n as nat, bits),
            out@.len() == i,
            forall|k: int| 0 <= k < i ==> #[trigger] out@[k] == mirrored(k as nat, bits),
        decreases n - i,
    {
        let mut rest: usize = i;
        let mut weight: usize = n;
        let mut acc: usize = 0;
        let ghost mut left: nat = bits;
        proof {
            lemma_mirrored_bound(i as nat, bits);
        }
        while weight > 1
            invariant
                is_size(n as nat, bits),
                weight == pow2(left),
                acc + mirrored(rest as nat, left) == mirrored(i as nat, bits),
                mirrored(i as nat, bits) < n,
            decreases weight,
        {
            proof {
                assert(left > 0) by {
                    vstd::arithmetic::power2::lemma2_to64();
                }
                lemma_pow2_unfold(left);
                lemma_pow2_pos((left - 1) as nat);
            }
            let half: usize = weight / 2;
            proof {
                assert(half == pow2((left - 1) as nat));
                assert((rest % 2) * half == (if rest % 2 == 1 {
                    half as int
                } else {
                    0
                })) by (nonlinear_arith)
                    requires
                        rest % 2 <= 1,
                ;
            }
            if rest % 2 == 1 {
                acc = acc + half;
            }
            rest = rest / 2;
            weight = half;
            proof {
                left = (left - 1) as nat;
            }
        }
        proof {
            lemma_pow2_pos(left);
            if left > 0 {
                lemma_pow2_unfold(left);
                lemma_pow2_pos((left - 1) as nat);
            }
        }
        out.push(acc);
        i = i + 1;
    }
    proof {
        assert forall|other: nat, k: int| #![trigger is_size(n as nat, other), out@[k]]
            is_size(n as nat, other) && 0 <= k < n implies out@[k] == mirrored(k as nat, other) by {
            lemma_same_size(bits, other);
        }
    }
    out
}

proof fn lemma_same_size(a: nat, b: nat)
    requires
        pow2(a) == pow2(b),
    ensures
        a == b,
{
    if a < b {
        vstd::arithmetic::power2::lemma_pow2_strictly_increases(a, b);
    } else if b < a {
        vstd::arithmetic::power2::lemma_pow2_strictly_increases(b, a);
    }
}

/// The gain of frequency `k` of `n` in the analytic signal of a record that was padded
/// to a power of two: the mean is kept, positive frequencies are doubled, negative
/// ones dropped.
pub fn padded_gain(k: usize, n: usize) -> (r: u8)
    ensures
        r == 1 <==> k == 0,
        r == 2 <==> k > 0 && 2 * k <= n,
        r == 0 <==> k > 0 && 2 * k > n,
        r == (if k == 0 {
            1
        } else if k <= n / 2 {
            2
        } else {
            0u8
        }),
{
    if k == 0 {
        1
    } else if k <= n / 2 {
        2
    } else {
        0
    }
}

/// The gain of frequency `k` of `n` in the analytic signal: the mean and the highest
/// frequency are kept, those between doubled, negative ones dropped.
pub fn hilbert_gain(k: usize, n: usize) -> (r: u8)
    ensures
        r == 1 <==> k == 0 || 2 * k == n || 2 * k + 1 == n,
        r == 2 <==> k > 0 && 2 * k + 2 <= n,
        r == 0 <==> k > 0 && 2 * k > n,
        r == (if k == 0 || k == n / 2 {
            1
        } else if k < n / 2 {
            2
        } else {
            0u8
        }),
{
    if k == 0 || k == n / 2 {
        1
    } else if k < n / 2 {
        2
    } else {
        0
    }
}

} // verus!

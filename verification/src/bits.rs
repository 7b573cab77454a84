//! The bit encoding of a bounded integer variable: how many bits it takes,
//! and the weighted sum of bit variables that stands for the variable.

use crate::decimal::{decimal, push_decimal};
use crate::text::{push_str, push_text};
use crate::PBarberError;
use crate::text::string_of;
use vstd::arithmetic::power2::{
    lemma_pow2_pos,
    lemma_pow2_strictly_increases,
    lemma_pow2_unfold,
    pow2,
    lemma2_to64,
    lemma2_to64_rest,
};
use vstd::prelude::*;

verus! {

/// The least `k` with `2^k >= n`; 0 where `n <= 1`.
pub open spec fn width(n: int) -> nat
    decreases n,
{
    if n <= 1 {
        0
    } else {
        1 + width((n + 1) / 2)
    }
}

/// `width(n)` bits reach `n`, and one bit less does not.
pub proof fn lemma_width(n: int)
    ensures
        pow2(width(n)) >= n,
        width(n) > 0 ==> pow2((width(n) - 1) as nat) < n,
    decreases n,
{
    lemma2_to64();
    if n > 1 {
        let h = (n + 1) / 2;
        lemma_width(h);
        lemma_pow2_unfold(width(n));
        if width(h) > 0 {
            lemma_pow2_unfold(width(h));
        }
    }
}

/// A `k` whose power of two reaches `n`, while that of `k - 1` does not, is
/// `width(n)`.
pub proof fn lemma_width_is(n: int, k: nat)
    requires
        pow2(k) >= n,
        k > 0 ==> pow2((k - 1) as nat) < n,
    ensures
        width(n) == k,
    decreases k,
{
    lemma2_to64();
    if n <= 1 {
        if k > 0 {
            lemma_pow2_pos((k - 1) as nat);
        }
    } else {
        assert(k > 0);
        let h = (n + 1) / 2;
        let j = (k - 1) as nat;
        lemma_pow2_unfold(k);
        if j > 0 {
            lemma_pow2_unfold(j);
        }
        lemma_width_is(h, j);
    }
}

/// The magnitude of the bound that lies farther from zero.
pub open spec fn magnitude(min: int, max: int) -> int {
    let a = if min < 0 {
        -min
    } else {
        min
    };
    let b = if max < 0 {
        -max
    } else {
        max
    };
    if a >= b {
        a
    } else {
        b
    }
}

/// The number of value bits of a variable with the domain `[min, max]`.
///
/// A domain without negative values takes the least number of bits that
/// reach `max`. One with negative values takes the bits that reach the
/// magnitude of its farther bound, and one more.
pub open spec fn num_bits(min: int, max: int) -> nat {
    if min >= 0 {
        width(max + 1)
    } else {
        width(magnitude(min, max) + 1) + 1
    }
}

/// The least `k` with `2^k >= n`.
fn width_of(n: u64) -> (k: u32)
    ensures
        k == width(n as int),
        k <= 64,
{
    let mut k: u32 = 0;
    let mut p: u128 = 1;
    proof {
        lemma2_to64();
    }
    while p < n as u128
        invariant
            p == pow2(k as nat),
            k <= 64,
            k > 0 ==> pow2((k - 1) as nat) < n,
        decreases 64 - k,
    {
        proof {
            lemma2_to64();
            if k >= 64 {
                if k > 64 {
                    lemma_pow2_strictly_increases(64, k as nat);
                }
                assert(false);
            }
            lemma_pow2_unfold((k + 1) as nat);
            if k > 0 {
                lemma_pow2_strictly_increases((k - 1) as nat, k as nat);
            }
            lemma_pow2_strictly_increases(k as nat, 64);
        }
        p = p * 2;
        k = k + 1;
    }
    proof {
        lemma_width_is(n as int, k as nat);
    }
    k
}

/// The number of value bits of a variable with the domain `[min, max]`.
pub fn num_bits_for_range(min: i64, max: i64) -> (k: u32)
    ensures
        k == num_bits(min as int, max as int),
        k <= 65,
{
    if min >= 0 {
        if max < 0 {
            0
        } else {
            width_of(max as u64 + 1)
        }
    } else {
        let a: u64 = if min == i64::MIN {
            0x8000_0000_0000_0000u64
        } else {
            (-min) as u64
        };
        let b: u64 = if max < 0 {
            if max == i64::MIN {
                0x8000_0000_0000_0000u64
            } else {
                (-max) as u64
            }
        } else {
            max as u64
        };
        let m: u64 = if a >= b {
            a
        } else {
            b
        };
        width_of(m + 1) + 1
    }
}

/// The number that `bits` stands for, bit `i` weighing `2^i`.
pub open spec fn bits_value(bits: Seq<bool>) -> nat
    decreases bits.len(),
{
    if bits.len() == 0 {
        0
    } else {
        bits_value(bits.drop_last()) + if bits.last() {
            pow2((bits.len() - 1) as nat)
        } else {
            0
        }
    }
}

/// Whether some assignment of `k` bits stands for `v`.
pub open spec fn representable(v: int, k: nat) -> bool {
    exists|bits: Seq<bool>| bits.len() == k && #[trigger] bits_value(bits) == v
}

/// `k` bits stand for less than `2^k`.
pub proof fn lemma_bits_value_bound(bits: Seq<bool>)
    ensures
        bits_value(bits) < pow2(bits.len()),
    decreases bits.len(),
{
    lemma2_to64();
    if bits.len() > 0 {
        lemma_bits_value_bound(bits.drop_last());
        lemma_pow2_unfold(bits.len());
    }
}

/// Every natural number below `2^k` is what some assignment of `k` bits
/// stands for.
pub proof fn lemma_bits_reach(v: int, k: nat) -> (bits: Seq<bool>)
    requires
        0 <= v < pow2(k),
    ensures
        bits.len() == k,
        bits_value(bits) == v,
    decreases k,
{
    lemma2_to64();
    if k == 0 {
        Seq::empty()
    } else {
        let j = (k - 1) as nat;
        lemma_pow2_unfold(k);
        let top = v >= pow2(j);
        let low = lemma_bits_reach(
            if top {
                v - pow2(j)
            } else {
                v
            },
            j,
        );
        let bits = low.push(top);
        assert(bits.drop_last() == low);
        bits
    }
}

/// `k` bits stand for exactly the natural numbers below `2^k`.
pub proof fn lemma_representable(v: int, k: nat)
    ensures
        representable(v, k) <==> 0 <= v < pow2(k),
{
    if representable(v, k) {
        let bits = choose|bits: Seq<bool>| bits.len() == k && #[trigger] bits_value(bits) == v;
        lemma_bits_value_bound(bits);
    }
    if 0 <= v < pow2(k) {
        let bits = lemma_bits_reach(v, k);
        assert(bits.len() == k && bits_value(bits) == v);
    }
}

/// For a domain without negative values, `num_bits` is the least number of
/// bits whose assignments stand for every value of the domain: they do with
/// `num_bits` bits, and with any fewer the upper bound is out of reach.
pub proof fn lemma_num_bits_is_least(min: int, max: int)
    requires
        0 <= min <= max,
    ensures
        forall|v: int| min <= v <= max ==> #[trigger] representable(v, num_bits(min, max)),
        forall|k: nat| k < num_bits(min, max) ==> !#[trigger] representable(max, k),
{
    let n = num_bits(min, max);
    lemma_width(max + 1);
    assert forall|v: int| min <= v <= max implies #[trigger] representable(v, n) by {
        lemma_representable(v, n);
    }
    assert forall|k: nat| k < n implies !#[trigger] representable(max, k) by {
        if k < n - 1 {
            lemma_pow2_strictly_increases(k, (n - 1) as nat);
        }
        lemma_representable(max, k);
    }
}

/// Whether an assignment of `k` value bits and a sign bit that weighs
/// `-2^k` stands for `v`.
pub open spec fn representable_signed(v: int, k: nat) -> bool {
    exists|bits: Seq<bool>, sign: bool|
        bits.len() == k && #[trigger] signed_value(bits, sign) == v
}

/// The number that `bits` and a sign bit stand for, the sign bit weighing
/// `-2^k` for `k` value bits.
pub open spec fn signed_value(bits: Seq<bool>, sign: bool) -> int {
    bits_value(bits) - if sign {
        pow2(bits.len()) as int
    } else {
        0
    }
}

/// For a domain with negative values, the `num_bits` value bits and the sign
/// bit stand for every value of the domain.
pub proof fn lemma_num_bits_covers_signed(min: int, max: int)
    requires
        min < 0,
        min <= max,
    ensures
        forall|v: int| min <= v <= max ==> #[trigger] representable_signed(v, num_bits(min, max)),
{
    let n = num_bits(min, max);
    let w = width(magnitude(min, max) + 1);
    lemma_width(magnitude(min, max) + 1);
    lemma_pow2_strictly_increases(w, n);
    assert forall|v: int| min <= v <= max implies #[trigger] representable_signed(v, n) by {
        if v >= 0 {
            let bits = lemma_bits_reach(v, n);
            assert(signed_value(bits, false) == v);
        } else {
            let bits = lemma_bits_reach(v + pow2(n), n);
            assert(signed_value(bits, true) == v);
        }
    }
}

/// Whether `w` is a coefficient that 64 bits hold.
pub open spec fn fits(w: int) -> bool {
    i64::MIN <= w <= i64::MAX
}

/// The weight of bit `i` in an encoding scaled by `m`.
pub open spec fn weight(i: nat, m: int) -> int {
    pow2(i) * m
}

/// The name of bit `i` of the variable `var`.
pub open spec fn bit_name(var: Seq<char>, i: nat) -> Seq<char> {
    var + "_b"@ + decimal(i as int)
}

/// The term of one bit: its weight, a space and its name.
pub open spec fn bit_term(var: Seq<char>, i: nat, weight: int) -> Seq<char> {
    decimal(weight) + seq![' '] + bit_name(var, i)
}

/// The terms of the value bits `k - 1` down to 0, bit `i` weighing
/// `2^i * m`, each after a space.
pub open spec fn spaced_bits(var: Seq<char>, k: nat, m: int) -> Seq<char>
    decreases k,
{
    if k == 0 {
        Seq::empty()
    } else {
        seq![' '] + bit_term(var, (k - 1) as nat, weight((k - 1) as nat, m)) + spaced_bits(
            var,
            (k - 1) as nat,
            m,
        )
    }
}

/// The bit encoding of `var` with the domain `[min, max]`, scaled by `m`:
/// the terms of its bits, most significant first, a single space between
/// them. Where the domain holds negative values, the term of the sign bit,
/// which weighs `-2^k * m` for `k` value bits, comes first.
pub open spec fn var_bits(var: Seq<char>, min: int, max: int, m: int) -> Seq<char> {
    let k = num_bits(min, max);
    if min < 0 {
        bit_term(var, k, -weight(k, m)) + spaced_bits(var, k, m)
    } else if k == 0 {
        Seq::empty()
    } else {
        spaced_bits(var, k, m).skip(1)
    }
}

/// Whether every weight of the bit encoding is a coefficient that 64 bits
/// hold.
pub open spec fn weights_fit(min: int, max: int, m: int) -> bool {
    let k = num_bits(min, max);
    &&& forall|i: nat| i < k ==> fits(#[trigger] weight(i, m))
    &&& min < 0 ==> fits(-weight(k, m))
}

/// What is reported where a weight of the bit encoding of `var` is beyond
/// 64 bits.
pub open spec fn weight_failure(var: Seq<char>) -> Seq<char> {
    "The bit encoding of "@ + var + " needs a coefficient beyond 64 bits"@
}

/// `2^i`, for `i` up to 63.
fn pow2_of(i: u32) -> (p: u64)
    requires
        i <= 63,
    ensures
        p == pow2(i as nat),
        1 <= p <= 0x8000_0000_0000_0000u64,
{
    let mut p: u64 = 1;
    let mut j: u32 = 0;
    proof {
        lemma2_to64();
    }
    while j < i
        invariant
            j <= i <= 63,
            p == pow2(j as nat),
        decreases i - j,
    {
        proof {
            lemma2_to64_rest();
            lemma_pow2_unfold((j + 1) as nat);
            lemma_pow2_strictly_increases(j as nat, 63);
        }
        p = p * 2;
        j = j + 1;
    }
    proof {
        lemma2_to64_rest();
        lemma_pow2_pos(i as nat);
        if i < 63 {
            lemma_pow2_strictly_increases(i as nat, 63);
        }
    }
    p
}

/// The product of two factors within the given bounds is within the product
/// of the bounds.
proof fn lemma_product_bound(p: int, m: int, pb: int, mb: int)
    by (nonlinear_arith)
    requires
        0 <= p <= pb,
        -mb <= m <= mb,
    ensures
        -(pb * mb) <= p * m <= pb * mb,
{
}

/// A non-zero multiple of a number is at least as far from zero as the
/// number.
proof fn lemma_product_far(p: int, m: int)
    by (nonlinear_arith)
    requires
        p >= 0,
        m != 0,
    ensures
        m > 0 ==> p * m >= p,
        m < 0 ==> p * m <= -p,
        p * 0 == 0,
{
}

/// `2^i * m` (`negated`: its negation), where 64 bits hold it.
fn weight_of(i: u32, m: i64, negated: bool) -> (w: Option<i64>)
    requires
        i <= 65,
    ensures
        match w {
            Some(v) => v == if negated {
                -weight(i as nat, m as int)
            } else {
                weight(i as nat, m as int)
            },
            None => !fits(
                if negated {
                    -weight(i as nat, m as int)
                } else {
                    weight(i as nat, m as int)
                },
            ),
        },
{
    if m == 0 {
        proof {
            lemma_product_far(pow2(i as nat) as int, 1);
        }
        return Some(0);
    }
    if i > 63 {
        proof {
            lemma2_to64();
            if i > 64 {
                lemma_pow2_strictly_increases(64, i as nat);
            }
            lemma_product_far(pow2(i as nat) as int, m as int);
        }
        return None;
    }
    let p: u64 = pow2_of(i);
    proof {
        lemma_product_bound(
            p as int,
            m as int,
            0x8000_0000_0000_0000int,
            0x8000_0000_0000_0000int,
        );
    }
    let product: i128 = (p as i128) * (m as i128);
    let w: i128 = if negated {
        -product
    } else {
        product
    };
    if w < i64::MIN as i128 || w > i64::MAX as i128 {
        None
    } else {
        Some(w as i64)
    }
}

/// Appends the term of bit `i` of `var` with the weight `w`.
fn push_bit_term(t: &mut Vec<char>, var: &Vec<char>, i: u32, w: i64)
    ensures
        final(t)@ == old(t)@ + bit_term(var@, i as nat, w as int),
{
    push_decimal(t, w as i128);
    t.push(' ');
    push_text(t, var);
    push_str(t, "_b");
    push_decimal(t, i as i128);
    assert(final(t)@ == old(t)@ + (decimal(w as int) + seq![' '] + (var@ + "_b"@ + decimal(
        i as int,
    ))));
}

/// The bit encoding of `var` with the domain `[min, max]`, scaled by
/// `multiplier`.
///
/// Fails where a weight of the encoding is beyond 64 bits.
pub fn cp_var_bits(var: &Vec<char>, min: i64, max: i64, multiplier: i64) -> (r: Result<
    Vec<char>,
    PBarberError,
>)
    ensures
        weights_fit(min as int, max as int, multiplier as int) ==> r is Ok && r->Ok_0@ == var_bits(
            var@,
            min as int,
            max as int,
            multiplier as int,
        ),
        !weights_fit(min as int, max as int, multiplier as int) ==> r is Err && r->Err_0@
            == crate::Failure::JustificationError(weight_failure(var@)),
{
    let k: u32 = num_bits_for_range(min, max);
    let mut t: Vec<char> = Vec::new();
    let ghost full = spaced_bits(var@, k as nat, multiplier as int);
    if min < 0 {
        match weight_of(k, multiplier, true) {
            Some(w) => {
                push_bit_term(&mut t, var, k, w);
            },
            None => {
                return Err(weight_error(var));
            },
        }
    }
    let ghost head = t@;
    let mut i: u32 = k;
    while i > 0
        invariant
            i <= k <= 65,
            k == num_bits(min as int, max as int),
            full == spaced_bits(var@, k as nat, multiplier as int),
            head + full == t@ + spaced_bits(var@, i as nat, multiplier as int),
            forall|j: nat| i <= j < k ==> fits(#[trigger] weight(j, multiplier as int)),
        decreases i,
    {
        match weight_of(i - 1, multiplier, false) {
            Some(w) => {
                let ghost before = t@;
                t.push(' ');
                push_bit_term(&mut t, var, i - 1, w);
                proof {
                    let term = bit_term(var@, (i - 1) as nat, w as int);
                    let rest = spaced_bits(var@, (i - 1) as nat, multiplier as int);
                    assert(t@ == before + seq![' '] + term);
                    assert(spaced_bits(var@, i as nat, multiplier as int) == seq![' '] + term
                        + rest);
                    assert(t@ + rest == before + (seq![' '] + term + rest));
                }
            },
            None => {
                assert(!fits(weight((i - 1) as nat, multiplier as int)));
                return Err(weight_error(var));
            },
        }
        i = i - 1;
    }
    proof {
        assert(head + full == t@);
    }
    if min < 0 {
        Ok(t)
    } else if k == 0 {
        Ok(t)
    } else {
        proof {
            assert(head == Seq::<char>::empty());
            assert(full.len() > 0);
        }
        let r = crate::text::slice_text(&t, 1, t.len());
        proof {
            assert(r@ == full.skip(1));
        }
        Ok(r)
    }
}

/// The error for a weight beyond 64 bits in the bit encoding of `var`.
fn weight_error(var: &Vec<char>) -> (e: PBarberError)
    ensures
        e@ == crate::Failure::JustificationError(weight_failure(var@)),
{
    let mut m: Vec<char> = Vec::new();
    push_str(&mut m, "The bit encoding of ");
    push_text(&mut m, var);
    push_str(&mut m, " needs a coefficient beyond 64 bits");
    PBarberError::JustificationError(string_of(&m))
}

} // verus!

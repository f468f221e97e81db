//! Decimal digit-field arithmetic on a 64-bit working value.
//!
//! A working value is read as a base-10 digit string; a field is the group
//! of `size` digits ending at digit `position` (digits are 1-indexed from
//! the right). These are the primitives the codec builds packed values
//! with, together with the laws they obey: a written field reads back, and
//! writing never perturbs digits outside the target field.

use vstd::arithmetic::div_mod::{
    lemma_div_denominator, lemma_div_pos_is_pos, lemma_fundamental_div_mod,
    lemma_fundamental_div_mod_converse, lemma_hoist_over_denominator, lemma_mod_breakdown,
    lemma_mod_multiples_vanish, lemma_small_mod,
};
use vstd::arithmetic::mul::{
    lemma_mul_inequality, lemma_mul_is_associative, lemma_mul_is_distributive_add_other_way,
    lemma_mul_is_distributive_sub_other_way, lemma_mul_nonnegative,
};
use vstd::arithmetic::power::{lemma_pow_adds, lemma_pow_increases, pow};
use vstd::prelude::*;

verus! {

/// The decimal weight of digit position `e + 1`: ten to the power `e`.
pub open spec fn pow10(e: nat) -> int
    decreases e,
{
    if e == 0 {
        1
    } else {
        10 * pow10((e - 1) as nat)
    }
}

pub proof fn lemma_pow10_is_pow(e: nat)
    ensures
        pow10(e) == pow(10, e),
        pow10(e) >= 1,
    decreases e,
{
    reveal(pow);
    if e != 0 {
        lemma_pow10_is_pow((e - 1) as nat);
    }
}

/// Ten to the sum of two exponents is the product of the two powers.
pub proof fn lemma_pow10_adds(e1: nat, e2: nat)
    ensures
        pow10((e1 + e2) as nat) == pow10(e1) * pow10(e2),
{
    lemma_pow10_is_pow(e1);
    lemma_pow10_is_pow(e2);
    lemma_pow10_is_pow((e1 + e2) as nat);
    lemma_pow_adds(10, e1, e2);
}

pub proof fn lemma_pow10_increases(e1: nat, e2: nat)
    requires
        e1 <= e2,
    ensures
        pow10(e1) <= pow10(e2),
{
    lemma_pow10_is_pow(e1);
    lemma_pow10_is_pow(e2);
    lemma_pow_increases(10, e1, e2);
}

/// The concrete powers of ten that the codec works with.
pub proof fn lemma_pow10_values()
    ensures
        pow10(0) == 1,
        pow10(1) == 10,
        pow10(2) == 100,
        pow10(3) == 1000,
        pow10(4) == 10000,
        pow10(5) == 100000,
        pow10(6) == 1000000,
        pow10(7) == 10000000,
        pow10(8) == 100000000,
        pow10(9) == 1000000000,
        pow10(10) == 10000000000,
        pow10(19) == 10000000000000000000,
{
    reveal_with_fuel(pow10, 20);
}

/// The `size`-digit group of `v` ending at digit `position`, as a number.
pub open spec fn read_field_spec(v: int, position: nat, size: nat) -> int
    recommends
        0 <= v,
        size <= position,
{
    (v / pow10((position - size) as nat)) % pow10(size)
}

/// `v` with the `size`-digit group ending at digit `position` cleared:
/// the digits above the field, then zeros, then the digits below it.
pub open spec fn zero_field_spec(v: int, position: nat, size: nat) -> int
    recommends
        0 <= v,
        size <= position,
{
    (v / pow10(position)) * pow10(position) + v % pow10((position - size) as nat)
}

/// `v` with the `size`-digit group ending at digit `position` replaced by
/// `x`, zero-padded to `size` digits.
pub open spec fn write_field_spec(v: int, x: int, position: nat, size: nat) -> int
    recommends
        0 <= v,
        size <= position,
        0 <= x < pow10(size),
{
    zero_field_spec(v, position, size) + x * pow10((position - size) as nat)
}

/// A nonnegative value splits at a field boundary: the part below the
/// field's top is the field times its weight plus the part below the field.
pub proof fn lemma_field_decomposition(v: int, position: nat, size: nat)
    requires
        0 <= v,
        size <= position,
    ensures
        0 <= read_field_spec(v, position, size) < pow10(size),
        0 <= v % pow10((position - size) as nat) < pow10((position - size) as nat),
        v % pow10(position) == read_field_spec(v, position, size) * pow10(
            (position - size) as nat,
        ) + v % pow10((position - size) as nat),
        zero_field_spec(v, position, size) == v - read_field_spec(v, position, size) * pow10(
            (position - size) as nat,
        ),
        0 <= zero_field_spec(v, position, size) <= v,
{
    let q = pow10((position - size) as nat);
    let s = pow10(size);
    let p = pow10(position);
    lemma_pow10_is_pow((position - size) as nat);
    lemma_pow10_is_pow(size);
    lemma_pow10_is_pow(position);
    lemma_pow10_adds((position - size) as nat, size);
    assert(p == q * s);
    lemma_mod_breakdown(v, q, s);
    assert(v % p == q * ((v / q) % s) + v % q);
    lemma_div_pos_is_pos(v, q);
    lemma_div_pos_is_pos(v, p);
    lemma_fundamental_div_mod(v, p);
    assert(v == p * (v / p) + v % p);
    lemma_mul_nonnegative(v / p, p);
}

/// What a write leaves behind: the field reads back as `x`, the digits
/// above the field (`/ pow10(position)`) and below it
/// (`% pow10(position - size)`) are those of `v`, and the whole stays
/// nonnegative.
pub proof fn lemma_write_field_parts(v: int, x: int, position: nat, size: nat)
    requires
        0 <= v,
        size <= position,
        0 <= x < pow10(size),
    ensures
        read_field_spec(write_field_spec(v, x, position, size), position, size) == x,
        write_field_spec(v, x, position, size) / pow10(position) == v / pow10(position),
        write_field_spec(v, x, position, size) % pow10(position) == x * pow10(
            (position - size) as nat,
        ) + v % pow10((position - size) as nat),
        write_field_spec(v, x, position, size) % pow10((position - size) as nat) == v % pow10(
            (position - size) as nat,
        ),
        0 <= write_field_spec(v, x, position, size),
{
    let q = pow10((position - size) as nat);
    let s = pow10(size);
    let p = pow10(position);
    lemma_pow10_is_pow((position - size) as nat);
    lemma_pow10_is_pow(size);
    lemma_pow10_is_pow(position);
    lemma_pow10_adds((position - size) as nat, size);
    assert(p == q * s);
    let hi = v / p;
    let lo = v % q;
    let w = write_field_spec(v, x, position, size);
    lemma_div_pos_is_pos(v, p);
    assert(w == hi * p + lo + x * q);
    assert(hi * p == (hi * s) * q) by {
        lemma_mul_is_associative(hi, s, q);
    }
    assert((hi * s + x) * q == (hi * s) * q + x * q) by {
        lemma_mul_is_distributive_add_other_way(q, hi * s, x);
    }
    assert(w == (hi * s + x) * q + lo);
    lemma_mul_nonnegative(hi, s);
    lemma_fundamental_div_mod_converse(w, q, hi * s + x, lo);
    assert(w / q == hi * s + x);
    assert(w % q == lo);
    assert((s * hi + x) % s == x % s) by {
        lemma_mod_multiples_vanish(hi, x, s);
    }
    lemma_small_mod(x as nat, s as nat);
    assert(read_field_spec(w, position, size) == x);
    assert(x * q <= (s - 1) * q) by {
        lemma_mul_inequality(x, s - 1, q);
    }
    assert((s - 1) * q == s * q - 1 * q) by {
        lemma_mul_is_distributive_sub_other_way(q, s, 1);
    }
    lemma_mul_nonnegative(x, q);
    assert(0 <= x * q + lo < p);
    lemma_fundamental_div_mod_converse(w, p, hi, x * q + lo);
}

/// A field at or below digit `k` is a function of `v % pow10(k)` alone.
proof fn lemma_read_field_of_low(v1: int, v2: int, k: nat, position: nat, size: nat)
    requires
        0 <= v1,
        0 <= v2,
        size <= position,
        position <= k,
        v1 % pow10(k) == v2 % pow10(k),
    ensures
        read_field_spec(v1, position, size) == read_field_spec(v2, position, size),
{
    lemma_read_field_mod(v1, k, position, size);
    lemma_read_field_mod(v2, k, position, size);
}

/// Reading a field at or below digit `k` of `v` equals reading it of
/// `v % pow10(k)`.
proof fn lemma_read_field_mod(v: int, k: nat, position: nat, size: nat)
    requires
        0 <= v,
        size <= position,
        position <= k,
    ensures
        read_field_spec(v, position, size) == read_field_spec(v % pow10(k), position, size),
{
    let r = pow10((position - size) as nat);
    let s = pow10(size);
    let kk = pow10(k);
    let m = pow10((k - position + size) as nat);
    let mm = pow10((k - position) as nat);
    lemma_pow10_is_pow((position - size) as nat);
    lemma_pow10_is_pow(size);
    lemma_pow10_is_pow(k);
    lemma_pow10_is_pow((k - position + size) as nat);
    lemma_pow10_is_pow((k - position) as nat);
    lemma_pow10_adds((position - size) as nat, (k - position + size) as nat);
    assert(kk == r * m);
    lemma_pow10_adds(size, (k - position) as nat);
    assert(m == s * mm);
    let low = v % kk;
    let top = v / kk;
    lemma_fundamental_div_mod(v, kk);
    assert(v == kk * top + low);
    lemma_div_pos_is_pos(v, kk);
    assert(top * kk == (top * m) * r) by {
        lemma_mul_is_associative(top, m, r);
    }
    assert(low / r + (top * m) == (low + (top * m) * r) / r) by {
        lemma_hoist_over_denominator(low, top * m, r as nat);
    }
    assert(v == low + (top * m) * r);
    assert(v / r == low / r + top * m);
    assert(top * m == s * (top * mm)) by {
        lemma_mul_is_associative(top, s, mm);
        lemma_mul_is_associative(s, top, mm);
    }
    assert((s * (top * mm) + low / r) % s == (low / r) % s) by {
        lemma_mod_multiples_vanish(top * mm, low / r, s);
    }
    assert((v / r) % s == (low / r) % s);
}

/// A field whose lowest digit is above digit `k` is a function of
/// `v / pow10(k)` alone.
proof fn lemma_read_field_of_high(v1: int, v2: int, k: nat, position: nat, size: nat)
    requires
        0 <= v1,
        0 <= v2,
        size <= position,
        k + size <= position,
        v1 / pow10(k) == v2 / pow10(k),
    ensures
        read_field_spec(v1, position, size) == read_field_spec(v2, position, size),
{
    let kk = pow10(k);
    let dd = pow10((position - size - k) as nat);
    lemma_pow10_is_pow(k);
    lemma_pow10_is_pow((position - size - k) as nat);
    lemma_pow10_adds(k, (position - size - k) as nat);
    assert(pow10((position - size) as nat) == kk * dd);
    lemma_div_denominator(v1, kk, dd);
    lemma_div_denominator(v2, kk, dd);
    assert(v1 / pow10((position - size) as nat) == (v1 / kk) / dd);
    assert(v2 / pow10((position - size) as nat) == (v2 / kk) / dd);
}

/// Law: writing a field, then reading it, gives back what was written,
/// for any value representable in the field's width.
pub proof fn lemma_write_then_read_field(v: int, x: int, position: nat, size: nat)
    requires
        0 <= v,
        size <= position,
        0 <= x < pow10(size),
    ensures
        read_field_spec(write_field_spec(v, x, position, size), position, size) == x,
{
    lemma_write_field_parts(v, x, position, size);
}

/// Law: writing a field never perturbs digits outside the target field.
/// Any field disjoint from the written one — entirely below it or
/// entirely above it — reads the same before and after the write.
pub proof fn lemma_write_field_preserves_others(
    v: int,
    x: int,
    position: nat,
    size: nat,
    position2: nat,
    size2: nat,
)
    requires
        0 <= v,
        size <= position,
        0 <= x < pow10(size),
        size2 <= position2,
        position2 + size <= position || position2 - size2 >= position,
    ensures
        read_field_spec(write_field_spec(v, x, position, size), position2, size2)
            == read_field_spec(v, position2, size2),
{
    let w = write_field_spec(v, x, position, size);
    lemma_write_field_parts(v, x, position, size);
    if position2 + size <= position {
        lemma_read_field_of_low(w, v, (position - size) as nat, position2, size2);
    } else {
        lemma_read_field_of_high(w, v, position, position2, size2);
    }
}

/// Law: writing the same value into the same field twice is the same as
/// writing it once.
pub proof fn lemma_write_field_idempotent(v: int, x: int, position: nat, size: nat)
    requires
        0 <= v,
        size <= position,
        0 <= x < pow10(size),
    ensures
        write_field_spec(write_field_spec(v, x, position, size), x, position, size)
            == write_field_spec(v, x, position, size),
{
    let w = write_field_spec(v, x, position, size);
    lemma_write_field_parts(v, x, position, size);
    assert(zero_field_spec(w, position, size) == zero_field_spec(v, position, size));
}

/// A write into a field at or below digit `k` keeps a `k`-digit value
/// within `k` digits.
pub proof fn lemma_write_field_bound(v: int, x: int, position: nat, size: nat, k: nat)
    requires
        0 <= v < pow10(k),
        size <= position,
        position <= k,
        0 <= x < pow10(size),
    ensures
        0 <= write_field_spec(v, x, position, size) < pow10(k),
{
    let p = pow10(position);
    let m = pow10((k - position) as nat);
    lemma_pow10_is_pow(position);
    lemma_pow10_is_pow((k - position) as nat);
    lemma_pow10_adds(position, (k - position) as nat);
    assert(pow10(k) == p * m);
    let w = write_field_spec(v, x, position, size);
    lemma_write_field_parts(v, x, position, size);
    let hi = v / p;
    assert(hi < m) by {
        vstd::arithmetic::div_mod::lemma_multiply_divide_lt(v, p, m);
    }
    lemma_fundamental_div_mod(w, p);
    assert(w == p * (w / p) + w % p);
    lemma_field_decomposition(v, position, size);
    assert(0 <= w % p < p) by {
        lemma_mul_nonnegative(x, pow10((position - size) as nat));
        lemma_mul_inequality(x, pow10(size) - 1, pow10((position - size) as nat));
        lemma_mul_is_distributive_sub_other_way(
            pow10((position - size) as nat),
            pow10(size),
            1,
        );
        lemma_pow10_adds((position - size) as nat, size);
    }
    assert(p * hi <= p * (m - 1)) by {
        lemma_mul_inequality(hi, m - 1, p);
    }
    assert(p * (m - 1) == p * m - p * 1) by {
        vstd::arithmetic::mul::lemma_mul_is_distributive_sub(p, m, 1);
    }
}

/// Computes ten to the power `e` for the digit positions a 64-bit working
/// value can hold.
pub(crate) fn pow10_u64(e: u64) -> (r: u64)
    requires
        e <= 19,
    ensures
        r as int == pow10(e as nat),
        r >= 1,
{
    let mut r: u64 = 1;
    let mut i: u64 = 0;
    while i < e
        invariant
            i <= e,
            e <= 19,
            r as int == pow10(i as nat),
            r >= 1,
        decreases e - i,
    {
        proof {
            lemma_pow10_values();
            lemma_pow10_increases((i + 1) as nat, 19);
            assert(pow10((i + 1) as nat) == 10 * pow10(i as nat));
        }
        r = r * 10;
        i = i + 1;
    }
    r
}

} // verus!

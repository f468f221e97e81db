//! The mathematical model of the codec.
//!
//! A packed value is a signed 32-bit integer whose base-10 digit string is
//! partitioned into a mode tag (digit position 10) and three 3-digit byte
//! fields A (positions 9..7), B (6..4) and C (3..1). The tag says how many
//! bytes the value carries: 1 means a full triple in A, B, C; 2 means a
//! pair in B, C; 0 means a single byte in C, in which case the value is
//! numerically the byte itself. The tag-0 reading is load-bearing: no
//! other mode ever produces a value at or below 255, so a bare small value
//! is unambiguous.

use crate::digit_fields::{
    lemma_pow10_values, read_field_spec, write_field_spec, zero_field_spec,
};
use vstd::arithmetic::div_mod::{
    lemma_div_pos_is_pos, lemma_fundamental_div_mod, lemma_fundamental_div_mod_converse,
    lemma_multiply_divide_lt, lemma_small_mod,
};
use vstd::prelude::*;

verus! {

/// One full triple (a, b, c): mode tag 1 and fields A, B, C.
pub open spec fn pack3(a: u8, b: u8, c: u8) -> i32 {
    (1000000000 + (a as int) * 1000000 + (b as int) * 1000 + (c as int)) as i32
}

/// A pair remainder (a, b): mode tag 2, bytes in fields B and C.
pub open spec fn pack2(a: u8, b: u8) -> i32 {
    (2000000000 + (a as int) * 1000 + (b as int)) as i32
}

/// A single remainder: the byte itself, whose mode tag is 0.
pub open spec fn pack1(a: u8) -> i32 {
    a as i32
}

/// The mode tag of a packed value: its digit at position 10.
pub open spec fn mode_tag(v: i32) -> int {
    read_field_spec(v as int, 10, 1)
}

/// Field A of a packed value: its digits at positions 9..7.
pub open spec fn field_a(v: i32) -> int {
    read_field_spec(v as int, 9, 3)
}

/// Field B of a packed value: its digits at positions 6..4.
pub open spec fn field_b(v: i32) -> int {
    read_field_spec(v as int, 6, 3)
}

/// Field C of a packed value: its digits at positions 3..1.
pub open spec fn field_c(v: i32) -> int {
    read_field_spec(v as int, 3, 3)
}

/// A well-formed packed value: nonnegative, and every byte field its mode
/// tag makes the decoder extract holds a value at most 255.
pub open spec fn valid_packed(v: i32) -> bool {
    &&& 0 <= v
    &&& mode_tag(v) == 1 ==> field_a(v) <= 255 && field_b(v) <= 255 && field_c(v) <= 255
    &&& mode_tag(v) == 2 ==> field_b(v) <= 255 && field_c(v) <= 255
    &&& mode_tag(v) != 1 && mode_tag(v) != 2 ==> field_c(v) <= 255
}

/// The bytes one packed value decodes to, per its mode tag.
pub open spec fn decode_one(v: i32) -> Seq<u8>
    recommends
        valid_packed(v),
{
    if mode_tag(v) == 1 {
        seq![field_a(v) as u8, field_b(v) as u8, field_c(v) as u8]
    } else if mode_tag(v) == 2 {
        seq![field_b(v) as u8, field_c(v) as u8]
    } else {
        seq![field_c(v) as u8]
    }
}

/// The packed-value sequence a byte sequence encodes to: one value per
/// group of three bytes, in order, then one value for a remainder of one
/// or two bytes.
pub open spec fn encode_spec(bytes: Seq<u8>) -> Seq<i32>
    decreases bytes.len(),
{
    if bytes.len() >= 3 {
        seq![pack3(bytes[0], bytes[1], bytes[2])] + encode_spec(bytes.skip(3))
    } else if bytes.len() == 2 {
        seq![pack2(bytes[0], bytes[1])]
    } else if bytes.len() == 1 {
        seq![pack1(bytes[0])]
    } else {
        Seq::<i32>::empty()
    }
}

/// The byte sequence a packed-value sequence decodes to: each value's
/// bytes in order, concatenated.
pub open spec fn decode_spec(values: Seq<i32>) -> Seq<u8>
    decreases values.len(),
{
    if values.len() == 0 {
        Seq::<u8>::empty()
    } else {
        decode_one(values[0]) + decode_spec(values.skip(1))
    }
}

/// A nonnegative `i32` has mode tag 0, 1 or 2, and the tag bounds the
/// value: tag 1 means at least 10^9, tag 2 at least 2*10^9, tag 0 below
/// 10^9. In particular no value of tag 1 or 2 is ever at or below 255.
pub proof fn lemma_mode_tag_range(v: i32)
    requires
        0 <= v,
    ensures
        mode_tag(v) == (v as int) / 1000000000,
        0 <= mode_tag(v) <= 2,
        mode_tag(v) == 1 ==> 1000000000 <= v,
        mode_tag(v) == 2 ==> 2000000000 <= v,
        mode_tag(v) == 0 ==> v <= 999999999,
{
    lemma_pow10_values();
    let n = v as int;
    lemma_div_pos_is_pos(n, 1000000000);
    assert(n / 1000000000 < 3) by {
        lemma_multiply_divide_lt(n, 1000000000, 3);
    }
    lemma_small_mod((n / 1000000000) as nat, 10);
    lemma_fundamental_div_mod(n, 1000000000);
}

/// The digit layout of a packed triple: tag 1, and fields A, B, C read
/// back the three bytes.
pub proof fn lemma_pack3_fields(a: u8, b: u8, c: u8)
    ensures
        pack3(a, b, c) as int == 1000000000 + (a as int) * 1000000 + (b as int) * 1000 + (
        c as int),
        1000000000 <= pack3(a, b, c) <= 1255255255,
        mode_tag(pack3(a, b, c)) == 1,
        field_a(pack3(a, b, c)) == a as int,
        field_b(pack3(a, b, c)) == b as int,
        field_c(pack3(a, b, c)) == c as int,
        valid_packed(pack3(a, b, c)),
        decode_one(pack3(a, b, c)) == seq![a, b, c],
{
    lemma_pow10_values();
    let n = 1000000000 + (a as int) * 1000000 + (b as int) * 1000 + (c as int);
    lemma_fundamental_div_mod_converse(n, 1000000000, 1, n - 1000000000);
    lemma_fundamental_div_mod_converse(n, 1000000, 1000 + a as int, (b as int) * 1000 + c as int);
    lemma_fundamental_div_mod_converse(1000 + a as int, 1000, 1, a as int);
    lemma_fundamental_div_mod_converse(
        n,
        1000,
        1000000 + (a as int) * 1000 + (b as int),
        c as int,
    );
    lemma_fundamental_div_mod_converse(
        1000000 + (a as int) * 1000 + (b as int),
        1000,
        1000 + a as int,
        b as int,
    );
    lemma_fundamental_div_mod_converse(n, 1, n, 0);
    assert(decode_one(pack3(a, b, c)) =~= seq![a, b, c]);
}

/// The digit layout of a packed pair: tag 2, field A zero, and fields B
/// and C read back the two bytes.
pub proof fn lemma_pack2_fields(a: u8, b: u8)
    ensures
        pack2(a, b) as int == 2000000000 + (a as int) * 1000 + (b as int),
        2000000000 <= pack2(a, b) <= 2000255255,
        mode_tag(pack2(a, b)) == 2,
        field_a(pack2(a, b)) == 0,
        field_b(pack2(a, b)) == a as int,
        field_c(pack2(a, b)) == b as int,
        valid_packed(pack2(a, b)),
        decode_one(pack2(a, b)) == seq![a, b],
{
    lemma_pow10_values();
    let n = 2000000000 + (a as int) * 1000 + (b as int);
    lemma_fundamental_div_mod_converse(n, 1000000000, 2, (a as int) * 1000 + b as int);
    lemma_fundamental_div_mod_converse(n, 1000000, 2000, (a as int) * 1000 + b as int);
    lemma_fundamental_div_mod_converse(2000, 1000, 2, 0);
    lemma_fundamental_div_mod_converse(n, 1000, 2000000 + a as int, b as int);
    lemma_fundamental_div_mod_converse(2000000 + a as int, 1000, 2000, a as int);
    lemma_fundamental_div_mod_converse(n, 1, n, 0);
    assert(decode_one(pack2(a, b)) =~= seq![a, b]);
}

/// The digit layout of a packed single byte: the value is the byte, its
/// tag is 0, and field C reads the byte back.
pub proof fn lemma_pack1_fields(a: u8)
    ensures
        pack1(a) as int == a as int,
        0 <= pack1(a) <= 255,
        mode_tag(pack1(a)) == 0,
        field_c(pack1(a)) == a as int,
        valid_packed(pack1(a)),
        decode_one(pack1(a)) == seq![a],
{
    lemma_pow10_values();
    let n = a as int;
    lemma_fundamental_div_mod_converse(n, 1000000000, 0, n);
    lemma_fundamental_div_mod_converse(n, 1, n, 0);
    lemma_fundamental_div_mod_converse(n, 1000, 0, n);
    assert(decode_one(pack1(a)) =~= seq![a]);
}

/// The write sequence the encoder runs for a full triple, step by step:
/// starting from the working constant 10^9, writing a into field A, b
/// into field B and c into field C lands exactly on the packed triple.
pub proof fn lemma_pack3_chain(a: u8, b: u8, c: u8)
    ensures
        write_field_spec(1000000000, a as int, 9, 3) == 1000000000 + (a as int) * 1000000,
        write_field_spec(1000000000 + (a as int) * 1000000, b as int, 6, 3) == 1000000000 + (
        a as int) * 1000000 + (b as int) * 1000,
        write_field_spec(
            1000000000 + (a as int) * 1000000 + (b as int) * 1000,
            c as int,
            3,
            3,
        ) == pack3(a, b, c) as int,
{
    lemma_pow10_values();
    lemma_pack3_fields(a, b, c);
    lemma_fundamental_div_mod_converse(1000000000, 1000000000, 1, 0);
    lemma_fundamental_div_mod_converse(1000000000, 1000000, 1000, 0);
    let w1 = 1000000000 + (a as int) * 1000000;
    lemma_fundamental_div_mod_converse(w1, 1000000, 1000 + a as int, 0);
    lemma_fundamental_div_mod_converse(w1, 1000, 1000000 + (a as int) * 1000, 0);
    let w2 = w1 + (b as int) * 1000;
    lemma_fundamental_div_mod_converse(w2, 1000, 1000000 + (a as int) * 1000 + (b as int), 0);
    lemma_fundamental_div_mod_converse(w2, 1, w2, 0);
}

/// The write sequence the encoder runs for a pair remainder: writing the
/// two bytes into fields B and C, clearing the tag digit, then writing
/// tag 2 lands exactly on the packed pair.
pub proof fn lemma_pack2_chain(a: u8, b: u8)
    ensures
        write_field_spec(1000000000, a as int, 6, 3) == 1000000000 + (a as int) * 1000,
        write_field_spec(1000000000 + (a as int) * 1000, b as int, 3, 3) == 1000000000 + (
        a as int) * 1000 + (b as int),
        zero_field_spec(1000000000 + (a as int) * 1000 + (b as int), 10, 1) == (a as int) * 1000
            + (b as int),
        write_field_spec((a as int) * 1000 + (b as int), 2, 10, 1) == pack2(a, b) as int,
{
    lemma_pow10_values();
    lemma_pack2_fields(a, b);
    lemma_fundamental_div_mod_converse(1000000000, 1000000, 1000, 0);
    lemma_fundamental_div_mod_converse(1000000000, 1000, 1000000, 0);
    let w1 = 1000000000 + (a as int) * 1000;
    lemma_fundamental_div_mod_converse(w1, 1000, 1000000 + a as int, 0);
    lemma_fundamental_div_mod_converse(w1, 1, w1, 0);
    let w2 = w1 + (b as int);
    lemma_fundamental_div_mod_converse(w2, 10000000000, 0, w2);
    lemma_fundamental_div_mod_converse(w2, 1000000000, 1, (a as int) * 1000 + (b as int));
    let m = (a as int) * 1000 + (b as int);
    lemma_fundamental_div_mod_converse(m, 10000000000, 0, m);
    lemma_fundamental_div_mod_converse(m, 1000000000, 0, m);
}

/// The write sequence the encoder runs for a single remainder: writing
/// the byte into field C, clearing the tag digit, then writing tag 0
/// lands on the byte itself.
pub proof fn lemma_pack1_chain(a: u8)
    ensures
        write_field_spec(1000000000, a as int, 3, 3) == 1000000000 + (a as int),
        zero_field_spec(1000000000 + (a as int), 10, 1) == a as int,
        write_field_spec(a as int, 0, 10, 1) == pack1(a) as int,
{
    lemma_pow10_values();
    lemma_pack1_fields(a);
    lemma_fundamental_div_mod_converse(1000000000, 1000, 1000000, 0);
    lemma_fundamental_div_mod_converse(1000000000, 1, 1000000000, 0);
    let w1 = 1000000000 + (a as int);
    lemma_fundamental_div_mod_converse(w1, 10000000000, 0, w1);
    lemma_fundamental_div_mod_converse(w1, 1000000000, 1, a as int);
    let n = a as int;
    lemma_fundamental_div_mod_converse(n, 10000000000, 0, n);
    lemma_fundamental_div_mod_converse(n, 1000000000, 0, n);
}

/// Law: every value the encoder produces is a well-formed packed value,
/// its mode tag is 0, 1 or 2, and the tag alone determines how many bytes
/// the decoder extracts from it.
pub proof fn lemma_encode_values_well_formed(bytes: Seq<u8>, i: int)
    requires
        0 <= i < encode_spec(bytes).len(),
    ensures
        valid_packed(encode_spec(bytes)[i]),
        mode_tag(encode_spec(bytes)[i]) == 0 || mode_tag(encode_spec(bytes)[i]) == 1 || mode_tag(
            encode_spec(bytes)[i],
        ) == 2,
        mode_tag(encode_spec(bytes)[i]) == 1 ==> decode_one(encode_spec(bytes)[i]).len() == 3,
        mode_tag(encode_spec(bytes)[i]) == 2 ==> decode_one(encode_spec(bytes)[i]).len() == 2,
        mode_tag(encode_spec(bytes)[i]) == 0 ==> decode_one(encode_spec(bytes)[i]).len() == 1,
    decreases bytes.len(),
{
    if bytes.len() >= 3 {
        if i == 0 {
            lemma_pack3_fields(bytes[0], bytes[1], bytes[2]);
        } else {
            lemma_encode_values_well_formed(bytes.skip(3), i - 1);
            assert(encode_spec(bytes)[i] == encode_spec(bytes.skip(3))[i - 1]);
        }
    } else if bytes.len() == 2 {
        lemma_pack2_fields(bytes[0], bytes[1]);
    } else if bytes.len() == 1 {
        lemma_pack1_fields(bytes[0]);
    }
}

/// Law: the round trip. Decoding an encoded byte sequence yields exactly
/// the bytes that were encoded, in the same order, for every finite byte
/// sequence.
pub proof fn lemma_round_trip(bytes: Seq<u8>)
    ensures
        decode_spec(encode_spec(bytes)) == bytes,
    decreases bytes.len(),
{
    if bytes.len() >= 3 {
        let v = pack3(bytes[0], bytes[1], bytes[2]);
        let rest = encode_spec(bytes.skip(3));
        let w = seq![v] + rest;
        assert(encode_spec(bytes) == w);
        lemma_pack3_fields(bytes[0], bytes[1], bytes[2]);
        lemma_round_trip(bytes.skip(3));
        assert(w[0] == v);
        assert(w.skip(1) =~= rest);
        assert(decode_spec(w) == decode_one(v) + decode_spec(rest));
        assert(seq![bytes[0], bytes[1], bytes[2]] + bytes.skip(3) =~= bytes);
    } else if bytes.len() == 2 {
        let v = pack2(bytes[0], bytes[1]);
        lemma_pack2_fields(bytes[0], bytes[1]);
        let w = seq![v];
        assert(encode_spec(bytes) == w);
        assert(w.skip(1).len() == 0);
        assert(decode_spec(w) == decode_one(v) + decode_spec(w.skip(1)));
        assert(decode_spec(encode_spec(bytes)) =~= bytes);
    } else if bytes.len() == 1 {
        let v = pack1(bytes[0]);
        lemma_pack1_fields(bytes[0]);
        let w = seq![v];
        assert(encode_spec(bytes) == w);
        assert(w.skip(1).len() == 0);
        assert(decode_spec(w) == decode_one(v) + decode_spec(w.skip(1)));
        assert(decode_spec(encode_spec(bytes)) =~= bytes);
    } else {
        assert(decode_spec(encode_spec(bytes)) =~= bytes);
    }
}

} // verus!

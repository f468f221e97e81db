//! The executable codec: digit-field utilities, the range guard, the
//! encoder and the decoder.
//!
//! The encoder walks the byte sequence in groups of three, folding each
//! group (or a final remainder of one or two bytes) into one signed 32-bit
//! value whose digit layout `crate::packing` describes. The decoder reads
//! each value's mode tag back and extracts that many bytes.

use crate::digit_fields::{
    lemma_field_decomposition, lemma_pow10_values, lemma_write_field_bound, pow10, pow10_u64,
    read_field_spec, write_field_spec, zero_field_spec,
};
use crate::packing::{
    decode_one, decode_spec, encode_spec, lemma_encode_values_well_formed, lemma_mode_tag_range,
    lemma_pack1_chain, lemma_pack1_fields, lemma_pack2_chain, lemma_pack2_fields,
    lemma_pack3_chain, lemma_pack3_fields, mode_tag, pack1, pack2, pack3, valid_packed,
};
use vstd::arithmetic::div_mod::{
    lemma_div_multiples_vanish, lemma_fundamental_div_mod, lemma_mod_decreases,
};
use vstd::arithmetic::mul::lemma_mul_nonnegative;
use vstd::prelude::*;

verus! {

/// The value handed to `insert_value_at_position` needs more decimal
/// digits than the target field is wide.
#[derive(Clone, Copy, Debug, PartialEq, Eq, Structural)]
pub struct OverflowError;

/// The range guard: true exactly when `num` exceeds the largest signed
/// 32-bit value, 2147483647.
pub fn exceeding_max_i32_threshold(num: u64) -> (r: bool)
    ensures
        r == (num > 2147483647),
{
    let max: u64 = i32::MAX as u64;
    if num > max {
        true
    } else {
        false
    }
}

/// The number of items the byte vector still holds.
pub fn count_vec_items_left(vec: &Vec<u8>) -> (r: u64)
    ensures
        r == vec@.len(),
{
    vec.len() as u64
}

/// Clears the `size`-digit group of `value` ending at decimal digit
/// `position` (1-indexed from the right) to zero, leaving every other
/// digit unchanged.
pub fn flush_value_to_zero(value: u64, position: u64, size: u64) -> (r: u64)
    requires
        size <= position,
        position <= 19,
    ensures
        r as int == zero_field_spec(value as int, position as nat, size as nat),
{
    let p: u64 = pow10_u64(position);
    let q: u64 = pow10_u64(position - size);
    proof {
        lemma_field_decomposition(value as int, position as nat, size as nat);
        lemma_mul_nonnegative(
            read_field_spec(value as int, position as nat, size as nat),
            pow10((position - size) as nat),
        );
        lemma_mod_decreases(value as nat, p as nat);
    }
    value - ((value % p) - (value % q))
}

/// Reads the `size`-digit group of `value` ending at decimal digit
/// `position`, as an unsigned integer.
pub fn access_value(value: u64, position: u64, size: u64) -> (r: u64)
    requires
        size <= position,
        position <= 19,
    ensures
        r as int == read_field_spec(value as int, position as nat, size as nat),
{
    let p: u64 = pow10_u64(position);
    let q: u64 = pow10_u64(position - size);
    proof {
        lemma_field_decomposition(value as int, position as nat, size as nat);
        lemma_mul_nonnegative(
            read_field_spec(value as int, position as nat, size as nat),
            pow10((position - size) as nat),
        );
        lemma_div_multiples_vanish(
            read_field_spec(value as int, position as nat, size as nat),
            pow10((position - size) as nat),
        );
    }
    ((value % p) - (value % q)) / q
}

/// Writes `single_value`, zero-padded to `size` decimal digits, into the
/// `size`-digit group of `value` ending at decimal digit `position`.
/// Fails with `OverflowError` when `single_value` needs more digits than
/// the field is wide; no digit outside the field is ever touched.
pub fn insert_value_at_position(value: u64, single_value: u64, position: u64, size: u64) -> (r:
    Result<u64, OverflowError>)
    requires
        size <= position,
        position <= 19,
        (value as int) < pow10(19),
    ensures
        (single_value as int) < pow10(size as nat) ==> (r matches Ok(w) && w as int
            == write_field_spec(
            value as int,
            single_value as int,
            position as nat,
            size as nat,
        )),
        (single_value as int) >= pow10(size as nat) ==> r == Err::<u64, OverflowError>(
            OverflowError,
        ),
{
    let s: u64 = pow10_u64(size);
    if single_value >= s {
        return Err(OverflowError);
    }
    let zeroed: u64 = flush_value_to_zero(value, position, size);
    let q: u64 = pow10_u64(position - size);
    proof {
        lemma_write_field_bound(value as int, single_value as int, position as nat, size as nat, 19);
        lemma_pow10_values();
        lemma_mul_nonnegative(single_value as int, q as int);
        assert(zeroed as int + (single_value as int) * (q as int) == write_field_spec(
            value as int,
            single_value as int,
            position as nat,
            size as nat,
        ));
    }
    Ok(zeroed + single_value * q)
}

/// The encoder: packs the byte sequence into signed 32-bit values, three
/// bytes per value, with a final value of mode tag 2 or 0 for a remainder
/// of two or one bytes. When the byte count exceeds 2147483647 the input
/// is rejected and the result is the empty sequence.
pub fn serialize_u8_to_i32(u8_data: Vec<u8>) -> (r: Vec<i32>)
    ensures
        u8_data@.len() <= 2147483647 ==> r@ == encode_spec(u8_data@),
        u8_data@.len() > 2147483647 ==> r@ == Seq::<i32>::empty(),
        forall|i: int| 0 <= i < r@.len() ==> valid_packed(#[trigger] r@[i]),
{
    let mut vec_of_i32s: Vec<i32> = Vec::new();
    let ghost s: Seq<u8> = u8_data@;
    if exceeding_max_i32_threshold(count_vec_items_left(&u8_data)) == false {
        let items_left: usize = u8_data.len();
        let batches_left: usize = items_left / 3;
        let last_batch_count: usize = items_left % 3;
        proof {
            lemma_fundamental_div_mod(s.len() as int, 3);
            assert(s.skip(0) =~= s);
        }
        let mut i: usize = 0;
        while i < batches_left
            invariant
                i <= batches_left,
                s == u8_data@,
                items_left == s.len(),
                batches_left == items_left / 3,
                s.len() <= 2147483647,
                encode_spec(s) == vec_of_i32s@ + encode_spec(s.skip(3 * i as int)),
            decreases batches_left - i,
        {
            proof {
                lemma_fundamental_div_mod(s.len() as int, 3);
                lemma_pow10_values();
            }
            let n: usize = 3 * i;
            let one: u64 = u8_data[n] as u64;
            let two: u64 = u8_data[n + 1] as u64;
            let three: u64 = u8_data[n + 2] as u64;
            proof {
                lemma_pack3_chain(s[n as int], s[n as int + 1], s[n as int + 2]);
                lemma_pack3_fields(s[n as int], s[n as int + 1], s[n as int + 2]);
            }
            let mut single_value_for_i32_vec: u64 = 1000000000;
            single_value_for_i32_vec = insert_value_at_position(
                single_value_for_i32_vec,
                one,
                9,
                3,
            ).unwrap();
            single_value_for_i32_vec = insert_value_at_position(
                single_value_for_i32_vec,
                two,
                6,
                3,
            ).unwrap();
            single_value_for_i32_vec = insert_value_at_position(
                single_value_for_i32_vec,
                three,
                3,
                3,
            ).unwrap();
            let ghost pre = vec_of_i32s@;
            let ghost v = pack3(s[n as int], s[n as int + 1], s[n as int + 2]);
            vec_of_i32s.push(single_value_for_i32_vec as i32);
            proof {
                assert(s.skip(3 * i as int).len() >= 3);
                assert(s.skip(3 * i as int)[0] == s[n as int]);
                assert(s.skip(3 * i as int)[1] == s[n as int + 1]);
                assert(s.skip(3 * i as int)[2] == s[n as int + 2]);
                assert(s.skip(3 * i as int).skip(3) =~= s.skip(3 * (i + 1) as int));
                assert(encode_spec(s.skip(3 * i as int)) == seq![v] + encode_spec(
                    s.skip(3 * (i + 1) as int),
                ));
                assert(vec_of_i32s@ =~= pre + seq![v]);
                assert(pre + (seq![v] + encode_spec(s.skip(3 * (i + 1) as int))) =~= (pre + seq![v])
                    + encode_spec(s.skip(3 * (i + 1) as int)));
            }
            i = i + 1;
        }
        proof {
            lemma_fundamental_div_mod(s.len() as int, 3);
        }
        let index: usize = 3 * batches_left;
        if last_batch_count == 1 {
            proof {
                lemma_pow10_values();
                lemma_pack1_chain(s[index as int]);
                lemma_pack1_fields(s[index as int]);
            }
            let one: u64 = u8_data[index] as u64;
            let mut single_value_for_i32_vec: u64 = 1000000000;
            single_value_for_i32_vec = insert_value_at_position(
                single_value_for_i32_vec,
                one,
                3,
                3,
            ).unwrap();
            single_value_for_i32_vec = flush_value_to_zero(single_value_for_i32_vec, 10, 1);
            single_value_for_i32_vec = insert_value_at_position(
                single_value_for_i32_vec,
                0,
                10,
                1,
            ).unwrap();
            let ghost pre = vec_of_i32s@;
            let ghost v = pack1(s[index as int]);
            vec_of_i32s.push(single_value_for_i32_vec as i32);
            proof {
                assert(s.skip(3 * batches_left as int).len() == 1);
                assert(s.skip(3 * batches_left as int)[0] == s[index as int]);
                assert(encode_spec(s.skip(3 * batches_left as int)) == seq![v]);
                assert(vec_of_i32s@ =~= pre + seq![v]);
            }
        }
        if last_batch_count == 2 {
            proof {
                lemma_pow10_values();
                lemma_pack2_chain(s[index as int], s[index as int + 1]);
                lemma_pack2_fields(s[index as int], s[index as int + 1]);
            }
            let one: u64 = u8_data[index] as u64;
            let two: u64 = u8_data[index + 1] as u64;
            let mut single_value_for_i32_vec: u64 = 1000000000;
            single_value_for_i32_vec = insert_value_at_position(
                single_value_for_i32_vec,
                one,
                6,
                3,
            ).unwrap();
            single_value_for_i32_vec = insert_value_at_position(
                single_value_for_i32_vec,
                two,
                3,
                3,
            ).unwrap();
            single_value_for_i32_vec = flush_value_to_zero(single_value_for_i32_vec, 10, 1);
            single_value_for_i32_vec = insert_value_at_position(
                single_value_for_i32_vec,
                2,
                10,
                1,
            ).unwrap();
            let ghost pre = vec_of_i32s@;
            let ghost v = pack2(s[index as int], s[index as int + 1]);
            vec_of_i32s.push(single_value_for_i32_vec as i32);
            proof {
                assert(s.skip(3 * batches_left as int).len() == 2);
                assert(s.skip(3 * batches_left as int)[0] == s[index as int]);
                assert(s.skip(3 * batches_left as int)[1] == s[index as int + 1]);
                assert(encode_spec(s.skip(3 * batches_left as int)) == seq![v]);
                assert(vec_of_i32s@ =~= pre + seq![v]);
            }
        }
        proof {
            if last_batch_count == 0 {
                assert(s.skip(3 * batches_left as int).len() == 0);
                assert(encode_spec(s.skip(3 * batches_left as int)) == Seq::<i32>::empty());
            }
            assert(vec_of_i32s@ =~= encode_spec(s));
            assert forall|j: int| 0 <= j < vec_of_i32s@.len() implies valid_packed(
                #[trigger] vec_of_i32s@[j],
            ) by {
                lemma_encode_values_well_formed(s, j);
            }
        }
    }
    vec_of_i32s
}

/// The decoder: reads each packed value's mode tag and extracts one, two
/// or three bytes accordingly, preserving order. A value at or below 255
/// is a single byte even though no tag digit is physically present: no
/// other mode ever produces a value that small.
pub fn deserialize_i32_to_u8(i32_data: Vec<i32>) -> (r: Vec<u8>)
    requires
        forall|i: int| 0 <= i < i32_data@.len() ==> valid_packed(#[trigger] i32_data@[i]),
    ensures
        r@ == decode_spec(i32_data@),
{
    let mut vec_of_u8s: Vec<u8> = Vec::new();
    let ghost vs: Seq<i32> = i32_data@;
    proof {
        assert(vs.skip(0) =~= vs);
    }
    let mut idx: usize = 0;
    while idx < i32_data.len()
        invariant
            idx <= vs.len(),
            vs == i32_data@,
            forall|i: int| 0 <= i < vs.len() ==> valid_packed(#[trigger] vs[i]),
            decode_spec(vs) == vec_of_u8s@ + decode_spec(vs.skip(idx as int)),
        decreases vs.len() - idx,
    {
        let single_i32_from_vec: i32 = i32_data[idx];
        proof {
            assert(valid_packed(vs[idx as int]));
            lemma_mode_tag_range(single_i32_from_vec);
            lemma_pow10_values();
        }
        let vu: u64 = single_i32_from_vec as u64;
        let mode: u64 = access_value(vu, 10, 1);
        let ghost pre = vec_of_u8s@;
        if mode == 1 {
            vec_of_u8s.push(access_value(vu, 9, 3) as u8);
            vec_of_u8s.push(access_value(vu, 6, 3) as u8);
            vec_of_u8s.push(access_value(vu, 3, 3) as u8);
            proof {
                assert(vec_of_u8s@ =~= pre + decode_one(vs[idx as int]));
            }
        }
        if mode == 2 {
            vec_of_u8s.push(access_value(vu, 6, 3) as u8);
            vec_of_u8s.push(access_value(vu, 3, 3) as u8);
            proof {
                assert(vec_of_u8s@ =~= pre + decode_one(vs[idx as int]));
            }
        }
        if mode == 0 || single_i32_from_vec <= 255 {
            vec_of_u8s.push(access_value(vu, 3, 3) as u8);
            proof {
                assert(mode_tag(vs[idx as int]) == 0);
                assert(vec_of_u8s@ =~= pre + decode_one(vs[idx as int]));
            }
        }
        proof {
            assert(vs.skip(idx as int)[0] == vs[idx as int]);
            assert(vs.skip(idx as int).skip(1) =~= vs.skip(idx as int + 1));
            assert(decode_spec(vs.skip(idx as int)) == decode_one(vs[idx as int]) + decode_spec(
                vs.skip(idx as int + 1),
            ));
            assert(pre + (decode_one(vs[idx as int]) + decode_spec(vs.skip(idx as int + 1))) =~= (
            pre + decode_one(vs[idx as int])) + decode_spec(vs.skip(idx as int + 1)));
        }
        idx = idx + 1;
    }
    proof {
        assert(vs.skip(vs.len() as int).len() == 0);
        assert(vec_of_u8s@ + decode_spec(vs.skip(vs.len() as int)) =~= vec_of_u8s@);
    }
    vec_of_u8s
}

} // verus!

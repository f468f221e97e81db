use serialize_deserialize_u8_i32::s_d_u8_i32;

#[test]
fn test_flush_3_3_000() {
    let _test_single_value_for_i32_vec_000: u64 = 1000000000;
    let v = s_d_u8_i32::flush_value_to_zero(_test_single_value_for_i32_vec_000, 3, 3);
    assert_eq!(v, 1000000000);
}

#[test]
fn test_flush_3_3_123() {
    let _test_single_value_for_i32_vec_123: u64 = 1000000123;
    let v = s_d_u8_i32::flush_value_to_zero(_test_single_value_for_i32_vec_123, 3, 3);
    assert_eq!(v, 1000000000);
}

#[test]
fn test_flush_3_3_999() {
    let _test_single_value_for_i32_vec_999: u64 = 1000000999;
    let v = s_d_u8_i32::flush_value_to_zero(_test_single_value_for_i32_vec_999, 3, 3);
    assert_eq!(v, 1000000000);
}

#[test]
fn test_flush_6_6_000() {
    let _test_single_value_for_i32_vec_000: u64 = 1000000000;
    let v = s_d_u8_i32::flush_value_to_zero(_test_single_value_for_i32_vec_000, 6, 6);
    assert_eq!(v, 1000000000);
}

#[test]
fn test_flush_6_6_123() {
    let _test_single_value_for_i32_vec_123: u64 = 1000123123;
    let v = s_d_u8_i32::flush_value_to_zero(_test_single_value_for_i32_vec_123, 6, 6);
    assert_eq!(v, 1000000000);
}

#[test]
fn test_flush_6_6_999() {
    let _test_single_value_for_i32_vec_999: u64 = 1000999999;
    let v = s_d_u8_i32::flush_value_to_zero(_test_single_value_for_i32_vec_999, 6, 6);
    assert_eq!(v, 1000000000);
}

#[test]
fn test_flush_9_9_000() {
    let _test_single_value_for_i32_vec_000: u64 = 1000000000;
    let v = s_d_u8_i32::flush_value_to_zero(_test_single_value_for_i32_vec_000, 9, 9);
    assert_eq!(v, 1000000000);
}

#[test]
fn test_flush_6_3_999() {
    let _test_single_value_for_i32_vec_999: u64 = 1999999999;
    let v = s_d_u8_i32::flush_value_to_zero(_test_single_value_for_i32_vec_999, 6, 3);
    assert_eq!(v, 1999000999);
}

#[test]
fn test_flush_9_3_999() {
    let _test_single_value_for_i32_vec_000: u64 = 1999000000;
    let v = s_d_u8_i32::flush_value_to_zero(_test_single_value_for_i32_vec_000, 9, 3);
    assert_eq!(v, 1000000000);
}

#[test]
fn test_flush_9_9_123() {
    let _test_single_value_for_i32_vec_123: u64 = 1123123123;
    let v = s_d_u8_i32::flush_value_to_zero(_test_single_value_for_i32_vec_123, 9, 9);
    assert_eq!(v, 1000000000);
}

#[test]
fn test_flush_9_9_999() {
    let _test_single_value_for_i32_vec_999: u64 = 1999999999;
    let v = s_d_u8_i32::flush_value_to_zero(_test_single_value_for_i32_vec_999, 9, 9);
    assert_eq!(v, 1000000000);
}

#[test]
fn test_access_3_3_1() {
    let _test_single_value_for_i32_vec_000: u64 = 1009010011;
    let v = s_d_u8_i32::access_value(_test_single_value_for_i32_vec_000, 10, 1);
    assert_eq!(v, 1);
}

#[test]
fn test_access_3_3_123() {
    let _test_single_value_for_i32_vec_123: u64 = 1123123123;
    let v = s_d_u8_i32::access_value(_test_single_value_for_i32_vec_123, 3, 3);
    assert_eq!(v, 123);
}

#[test]
fn test_access_3_3_999() {
    let _test_single_value_for_i32_vec_999: u64 = 1999999999;
    let v = s_d_u8_i32::access_value(_test_single_value_for_i32_vec_999, 3, 3);
    assert_eq!(v, 999);
}

#[test]
fn test_insert_3_3_000() {
    let _test_single_value_for_i32_vec_000: u64 = 1000000000;
    let _single_val: u64 = 000;
    let v = s_d_u8_i32::insert_value_at_position(
        _test_single_value_for_i32_vec_000,
        _single_val,
        3,
        3,
    )
    .unwrap();
    assert_eq!(v, 1000000000);
}

#[test]
fn test_insert_3_3_123() {
    let _test_single_value_for_i32_vec_123: u64 = 1123123000;
    let _single_val: u64 = 123;
    let v = s_d_u8_i32::insert_value_at_position(
        _test_single_value_for_i32_vec_123,
        _single_val,
        3,
        3,
    )
    .unwrap();
    assert_eq!(v, 1123123123);
}

#[test]
fn test_insert_3_3_999() {
    let _test_single_value_for_i32_vec_999: u64 = 1999999009;
    let _single_val: u64 = 999;
    let v = s_d_u8_i32::insert_value_at_position(
        _test_single_value_for_i32_vec_999,
        _single_val,
        3,
        3,
    )
    .unwrap();
    assert_eq!(v, 1999999999);
}

#[test]
fn test_insert_9_9_111() {
    let _test_single_value_for_i32_vec_999: u64 = 1999999999;
    let _single_val: u64 = 111;
    let v = s_d_u8_i32::insert_value_at_position(
        _test_single_value_for_i32_vec_999,
        _single_val,
        9,
        3,
    )
    .unwrap();
    assert_eq!(v, 1111999999);
}

#[test]
fn test_i32_threshold_over() {
    let number: u64 = 2147483648;
    let b = s_d_u8_i32::exceeding_max_i32_threshold(number);
    assert_eq!(b, true);
}

#[test]
fn test_i32_threshold_under() {
    let number: u64 = 2147483647;
    let b = s_d_u8_i32::exceeding_max_i32_threshold(number);
    assert_eq!(b, false);
}

#[test]
fn test_count_vec_items_left() {
    let mut vec = Vec::with_capacity(10);
    for i in 0..10 {
        vec.push(i);
    }
    let items_left: u64 = s_d_u8_i32::count_vec_items_left(&vec);
    assert_eq!(items_left, 10);
}

#[test]
fn test_serialize_u8_to_i32_one() {
    let mut vec: Vec<u8> = Vec::new();
    for i in 1..=3 {
        vec.push(i);
    }
    // Creates
    // [1, 2, 3]

    // Expected result
    // [1001002003]
    let mut a: Vec<i32> = Vec::new();
    a.push(1001002003);

    // Actual result (check to see if a and v match)
    let v: Vec<i32> = s_d_u8_i32::serialize_u8_to_i32(vec);
    let matching = a.iter().zip(&v).filter(|&(a, v)| a == v).count();
    assert_eq!(matching, 1);
}

#[test]
fn test_serialize_u8_to_i32_two() {
    let mut vec: Vec<u8> = Vec::new();
    for i in 1..=6 {
        vec.push(i);
    }
    // Creates
    // [1, 2, 3, 4, 5, 6]

    // Expected result
    // [1001002003, 1004005006]
    let mut a: Vec<i32> = Vec::new();
    a.push(1001002003);
    a.push(1004005006);

    // Actual result (check to see if a and v match)
    let v: Vec<i32> = s_d_u8_i32::serialize_u8_to_i32(vec);
    let matching = a.iter().zip(&v).filter(|&(a, v)| a == v).count();
    println!("{:?} vs {:?}", a, v);
    // There are two that both match - success
    assert_eq!(matching, 2);
}

#[test]
fn test_serialize_u8_to_i32_three() {
    let mut vec: Vec<u8> = Vec::new();
    for i in 99..=105 {
        vec.push(i);
    }
    // Creates
    // [99, 100, 101, 102, 103, 104, 105]

    // Expected result
    // [1099100101, 1102103104, 0000000105]
    let mut a: Vec<i32> = Vec::new();
    a.push(1099100101);
    a.push(1102103104);
    a.push(0000000105);

    // Actual result (check to see if a and v match)
    let v: Vec<i32> = s_d_u8_i32::serialize_u8_to_i32(vec);
    let matching = a.iter().zip(&v).filter(|&(a, v)| a == v).count();
    println!("{:?} vs {:?}", a, v);
    // All three match - success
    assert_eq!(matching, 3);
}

#[test]
fn test_serialize_u8_to_i32_four() {
    let mut vec: Vec<u8> = Vec::new();
    for i in 99..=106 {
        vec.push(i);
    }
    // Creates
    // [99, 100, 101, 102, 103, 104, 105, 106]

    // Expected result
    // [1099100101, 1102103104, 2000105106]
    let mut a: Vec<i32> = Vec::new();
    a.push(1099100101);
    a.push(1102103104);
    a.push(2000105106);

    // Actual result (check to see if a and v match)
    let v: Vec<i32> = s_d_u8_i32::serialize_u8_to_i32(vec);
    let matching = a.iter().zip(&v).filter(|&(a, v)| a == v).count();
    println!("{:?} vs {:?}", a, v);
    // All three match - success
    assert_eq!(matching, 3);
}

#[test]
fn test_serialize_u8_to_i32_five() {
    let mut vec: Vec<u8> = Vec::new();
    for i in 9..=16 {
        vec.push(i);
    }
    // Creates
    // [9, 10, 11, 12, 13, 14, 15, 16]

    // Expected result
    // [1009010011, 1012013014, 2000015016]
    let mut a: Vec<i32> = Vec::new();
    a.push(1009010011);
    a.push(1012013014);
    a.push(2000015016);

    // Actual result (check to see if a and v match)
    let v: Vec<i32> = s_d_u8_i32::serialize_u8_to_i32(vec);
    let matching = a.iter().zip(&v).filter(|&(a, v)| a == v).count();
    println!("{:?} vs {:?}", a, v);
    // All three match - success
    assert_eq!(matching, 3);
}

#[test]
fn test_serialize_u8_to_i32_six() {
    let mut vec: Vec<u8> = Vec::new();
    vec.push(1);
    // Creates
    // [1]

    // Expected result
    // [0000000001]
    let mut a: Vec<i32> = Vec::new();
    a.push(0000000001);

    // Actual result (check to see if a and v match)
    let v: Vec<i32> = s_d_u8_i32::serialize_u8_to_i32(vec);
    let matching = a.iter().zip(&v).filter(|&(a, v)| a == v).count();
    println!("{:?} vs {:?}", a, v);
    assert_eq!(matching, 1);
}

#[test]
fn test_deserialize_i32_to_u8_one() {
    let mut vec: Vec<i32> = Vec::new();
    vec.push(1009010011);
    vec.push(1012013014);
    vec.push(2000015016);
    println!("vec: {:?}", vec);

    // Expected result
    let mut a: Vec<u8> = Vec::new();
    a.push(9);
    a.push(10);
    a.push(11);
    a.push(12);
    a.push(13);
    a.push(14);
    a.push(15);
    a.push(16);
    println!("a: {:?}", a);

    // Actual result (check to see if a and v match)
    let v: Vec<u8> = s_d_u8_i32::deserialize_i32_to_u8(vec);
    println!("v: {:?}", v);
    let matching = a.iter().zip(&v).filter(|&(a, v)| a == v).count();
    println!("{:?} vs {:?}", a, v);
    assert_eq!(matching, 8);
}

#[test]
fn test_deserialize_i32_to_u8_two() {
    let mut vec: Vec<i32> = Vec::new();
    vec.push(0000000001);

    // Expected result
    let mut a: Vec<u8> = Vec::new();
    a.push(1);
    println!("a: {:?}", a);

    // Actual result (check to see if a and v match)
    let v: Vec<u8> = s_d_u8_i32::deserialize_i32_to_u8(vec);
    println!("v: {:?}", v);
    let matching = a.iter().zip(&v).filter(|&(a, v)| a == v).count();
    println!("{:?} vs {:?}", a, v);
    assert_eq!(matching, 1);
}

#[test]
fn test_deserialize_i32_to_u8_three() {
    let mut vec: Vec<i32> = Vec::new();
    vec.push(1009010011);
    vec.push(1012013014);
    println!("vec: {:?}", vec);

    // Expected result
    let mut a: Vec<u8> = Vec::new();
    a.push(9);
    a.push(10);
    a.push(11);
    a.push(12);
    a.push(13);
    a.push(14);
    println!("a: {:?}", a);

    // Actual result (check to see if a and v match)
    let v: Vec<u8> = s_d_u8_i32::deserialize_i32_to_u8(vec);
    println!("v: {:?}", v);
    let matching = a.iter().zip(&v).filter(|&(a, v)| a == v).count();
    println!("{:?} vs {:?}", a, v);
    assert_eq!(matching, 6);
}

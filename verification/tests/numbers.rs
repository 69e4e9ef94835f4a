use lib::u256::U256;

fn dec(text: &str) -> U256 {
    U256::from_decimal(text.as_bytes()).expect("a decimal number of at most 256 bits")
}

fn text(x: &U256) -> String {
    String::from_utf8(x.to_decimal()).unwrap()
}

#[test]
fn zero_and_largest_value() {
    assert!(U256::zero().is_zero());
    assert!(!U256::from_u64(1).is_zero());
    assert_eq!(text(&U256::zero()), "0");
    assert_eq!(
        text(&U256::max_value()),
        "115792089237316195423570985008687907853269984665640564039457584007913129639935"
    );
}

#[test]
fn largest_target_is_two_to_the_224_less_one() {
    assert_eq!(
        text(&lib::min_target()),
        "26959946667150639794667015087019630673637144422540572481103610249215"
    );
    assert_eq!(lib::min_target(), U256 { l0: u64::MAX, l1: u64::MAX, l2: u64::MAX, l3: 0xFFFF_FFFF });
}

#[test]
fn constants_have_their_values() {
    assert_eq!(lib::INITIAL_REWARD, 50);
    assert_eq!(lib::HALVING_INTERVAL, 210);
    assert_eq!(lib::IDEAL_BLOCK_TIME, 10);
    assert_eq!(lib::DIFFICULTY_UPDATE_INTERVAL, 50);
    assert_eq!(lib::MAX_MEMPOOL_TRANSACTION_AGE, 600);
}

#[test]
fn decimal_text_is_read_and_written() {
    let x = dec("12345678901234567890123456789012345678901234567890");
    assert_eq!(text(&x), "12345678901234567890123456789012345678901234567890");
    assert_eq!(dec("18446744073709551616"), U256 { l0: 0, l1: 1, l2: 0, l3: 0 });
    assert_eq!(dec("000042"), U256::from_u64(42));
    assert_eq!(text(&U256::from_u64(10)), "10");
    assert_eq!(text(&U256::from_u64(9)), "9");
}

#[test]
fn decimal_text_that_is_no_number_is_refused() {
    assert_eq!(U256::from_decimal(b""), None);
    assert_eq!(U256::from_decimal(b"12a4"), None);
    assert_eq!(U256::from_decimal(b"-5"), None);
    assert_eq!(U256::from_decimal(b"1.5"), None);
    assert_eq!(U256::from_decimal(b" 7"), None);
}

#[test]
fn decimal_text_of_more_than_256_bits_is_refused() {
    assert_eq!(
        U256::from_decimal(
            b"115792089237316195423570985008687907853269984665640564039457584007913129639936"
        ),
        None
    );
    assert_eq!(
        U256::from_decimal(
            b"1157920892373161954235709850086879078532699846656405640394575840079131296399350"
        ),
        None
    );
    assert_eq!(
        U256::from_decimal(
            b"115792089237316195423570985008687907853269984665640564039457584007913129639935"
        ),
        Some(U256::max_value())
    );
}

#[test]
fn sums_carry_across_limbs() {
    let a = U256 { l0: u64::MAX, l1: u64::MAX, l2: 0, l3: 0 };
    assert_eq!(a.checked_add(U256::from_u64(1)), Some(U256 { l0: 0, l1: 0, l2: 1, l3: 0 }));
    assert_eq!(U256::max_value().checked_add(U256::from_u64(1)), None);
    assert_eq!(U256::max_value().checked_add(U256::zero()), Some(U256::max_value()));
    assert_eq!(
        dec("99999999999999999999999999").checked_add(dec("1")),
        Some(dec("100000000000000000000000000"))
    );
}

#[test]
fn differences_borrow_across_limbs() {
    let a = U256 { l0: 0, l1: 0, l2: 1, l3: 0 };
    assert_eq!(
        a.checked_sub(U256::from_u64(1)),
        Some(U256 { l0: u64::MAX, l1: u64::MAX, l2: 0, l3: 0 })
    );
    assert_eq!(U256::from_u64(3).checked_sub(U256::from_u64(4)), None);
    assert_eq!(U256::from_u64(4).checked_sub(U256::from_u64(4)), Some(U256::zero()));
}

#[test]
fn products_with_a_small_factor() {
    assert_eq!(
        dec("12345678901234567890123456789").checked_mul_u64(1_000_000_007),
        Some(dec("12345678987654320198765432019864197523"))
    );
    assert_eq!(U256::max_value().checked_mul_u64(2), None);
    assert_eq!(U256::max_value().checked_mul_u64(1), Some(U256::max_value()));
    assert_eq!(U256::max_value().checked_mul_u64(0), Some(U256::zero()));
    assert_eq!(lib::min_target().checked_mul_u64(4), Some(dec(
        "107839786668602559178668060348078522694548577690162289924414440996860"
    )));
}

#[test]
fn quotients_and_remainders_with_a_small_divisor() {
    let x = dec("12345678901234567890123456789012345678901234567890");
    let (q, r) = x.div_rem_u64(1_000_000_007);
    assert_eq!(q, dec("12345678814814816186419743484074141290382"));
    assert_eq!(r, 245535216);
    let (q, r) = lib::min_target().div_rem_u64(4);
    assert_eq!(q, dec("6739986666787659948666753771754907668409286105635143120275902562303"));
    assert_eq!(r, 3);
    assert_eq!(U256::from_u64(7).div_rem_u64(8), (U256::zero(), 7));
}

#[test]
fn numbers_are_compared_by_value() {
    let small = U256 { l0: u64::MAX, l1: 0, l2: 0, l3: 0 };
    let big = U256 { l0: 0, l1: 1, l2: 0, l3: 0 };
    assert!(small.lt(&big));
    assert!(!big.lt(&small));
    assert!(!small.lt(&small));
    assert!(small.le(&small));
    assert!(small.le(&big));
    assert!(!big.le(&small));
    assert_eq!(small.min(big), small);
    assert_eq!(big.min(small), small);
    let top = U256 { l0: 0, l1: 0, l2: 0, l3: 1 };
    let below = U256 { l0: u64::MAX, l1: u64::MAX, l2: u64::MAX, l3: 0 };
    assert!(below.lt(&top));
}

#[test]
fn bytes_are_read_most_significant_first() {
    let mut bytes = [0u8; 32];
    bytes[31] = 1;
    assert_eq!(U256::from_be_bytes(&bytes), U256::from_u64(1));
    bytes[31] = 0;
    bytes[0] = 0x80;
    assert_eq!(U256::from_be_bytes(&bytes), U256 { l0: 0, l1: 0, l2: 0, l3: 0x8000_0000_0000_0000 });
    let mut counting = [0u8; 32];
    for i in 0..32 {
        counting[i] = i as u8;
    }
    let x = U256::from_be_bytes(&counting);
    assert_eq!(x.l3, 0x0001_0203_0405_0607);
    assert_eq!(x.l0, 0x1819_1a1b_1c1d_1e1f);
    assert_eq!(x.to_be_bytes(), counting);
}

#[test]
fn products_of_two_numbers() {
    assert_eq!(
        dec("12345678901234567890123456789").checked_mul(dec("98765432109876543210987654321")),
        Some(dec("1219326311370217952261850327336229233322374638011112635269"))
    );
    let two_128 = U256 { l0: 0, l1: 0, l2: 1, l3: 0 };
    let two_127 = U256 { l0: 0, l1: 1 << 63, l2: 0, l3: 0 };
    assert_eq!(two_128.checked_mul(two_127), Some(U256 { l0: 0, l1: 0, l2: 0, l3: 1 << 63 }));
    assert_eq!(two_128.checked_mul(two_128), None);
    assert_eq!(U256::max_value().checked_mul(U256::from_u64(1)), Some(U256::max_value()));
    assert_eq!(U256::from_u64(1).checked_mul(U256::max_value()), Some(U256::max_value()));
    assert_eq!(U256::max_value().checked_mul(U256::from_u64(2)), None);
    assert_eq!(U256::from_u64(2).checked_mul(U256::max_value()), None);
    assert_eq!(U256::max_value().checked_mul(U256::zero()), Some(U256::zero()));
    assert_eq!(U256::zero().checked_mul(U256::max_value()), Some(U256::zero()));
    assert_eq!(U256::max_value().checked_mul(U256::max_value()), None);
    let root = U256 { l0: u64::MAX, l1: u64::MAX, l2: 0, l3: 0 };
    assert_eq!(
        root.checked_mul(root),
        Some(U256 { l0: 1, l1: 0, l2: u64::MAX - 1, l3: u64::MAX })
    );
}

#[test]
fn quotients_and_remainders_of_two_numbers() {
    let (q, r) = U256::max_value().div_rem(dec("12345678901234567890123456789"));
    assert_eq!(q, dec("9379159312635045651465904031121901399981084140039"));
    assert_eq!(r, dec("9277461260901951535088365164"));
    let (q, r) = dec("1606938044258990275541962092341162602522202993782792835313721")
        .div_rem(dec("1267650600228229401496703205383"));
    assert_eq!(q, dec("1267650600228229401496703205369"));
    assert_eq!(r, dec("12394"));
    assert_eq!(U256::from_u64(7).div_rem(U256::from_u64(8)), (U256::zero(), U256::from_u64(7)));
    assert_eq!(U256::from_u64(8).div_rem(U256::from_u64(8)), (U256::from_u64(1), U256::zero()));
    assert_eq!(U256::zero().div_rem(U256::max_value()), (U256::zero(), U256::zero()));
    assert_eq!(
        U256::max_value().div_rem(U256::max_value()),
        (U256::from_u64(1), U256::zero())
    );
    assert_eq!(U256::max_value().div_rem(U256::from_u64(1)), (U256::max_value(), U256::zero()));
    let almost = U256::max_value().checked_sub(U256::from_u64(1)).unwrap();
    assert_eq!(U256::max_value().div_rem(almost), (U256::from_u64(1), U256::from_u64(1)));
    let (q, r) = lib::min_target().div_rem_u64(4);
    assert_eq!(lib::min_target().div_rem(U256::from_u64(4)), (q, U256::from_u64(r)));
}

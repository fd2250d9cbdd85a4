use jr_sema::ints::{int_range, literal_fits, next_power_of_two_above, variadic_last_param, IntKind};

#[test]
fn literal_bounds_are_per_type_not_per_s64() {
    assert!(literal_fits(false, 8, 255));
    assert!(!literal_fits(false, 8, 256));
    assert!(literal_fits(true, 64, i128::from(i64::MAX)));
    assert!(!literal_fits(true, 64, i128::from(i64::MAX) + 1));
    assert!(literal_fits(false, 64, i128::from(u64::MAX)));
}

#[test]
fn a_signed_minimum_fits_its_own_type() {
    for bits in [8u16, 16, 32, 64] {
        let kind = IntKind { signed: true, bits };
        assert!(literal_fits(true, bits, kind.min()), "s{bits}'s minimum must fit s{bits}");
        assert!(!literal_fits(true, bits, kind.min() - 1), "one below s{bits}'s minimum must not");
        assert!(literal_fits(true, bits, kind.max()));
        assert!(!literal_fits(true, bits, kind.max() + 1));
    }
}

#[test]
fn a_negative_literal_never_fits_an_unsigned_type() {
    for bits in [8u16, 16, 32, 64] {
        assert!(!literal_fits(false, bits, -1));
    }
}

#[test]
fn ranges_read_the_way_a_user_expects() {
    assert_eq!(int_range(false, 8), "0 to 255");
    assert_eq!(int_range(true, 8), "-128 to 127");
}

#[test]
fn every_printed_range_is_a_range_the_check_accepts() {
    for bits in [8u16, 16, 32, 64] {
        for signed in [true, false] {
            let kind = IntKind { signed, bits };
            let printed = int_range(signed, bits);
            assert!(printed.starts_with(&kind.min().to_string()), "{printed}");
            assert!(printed.ends_with(&kind.max().to_string()), "{printed}");
            assert!(literal_fits(signed, bits, kind.min()));
            assert!(literal_fits(signed, bits, kind.max()));
        }
    }
}

#[test]
fn sixty_four_bit_ranges_are_exact() {
    assert_eq!(int_range(true, 64), "-9223372036854775808 to 9223372036854775807");
    assert_eq!(int_range(false, 64), "0 to 18446744073709551615");
    assert_eq!(int_range(false, 16), "0 to 65535");
}

#[test]
fn flags_number_above_the_previous_value() {
    assert_eq!(next_power_of_two_above(0), 1);
    assert_eq!(next_power_of_two_above(-5), 1);
    assert_eq!(next_power_of_two_above(1), 2);
    assert_eq!(next_power_of_two_above(3), 4);
    assert_eq!(next_power_of_two_above(8), 16);
    assert_eq!(next_power_of_two_above(1 << 61), 1 << 62);
    assert_eq!(next_power_of_two_above(1 << 62), i64::MAX);
    assert_eq!(next_power_of_two_above(i64::MAX), i64::MAX);
}

#[test]
fn only_the_last_parameter_can_be_variadic() {
    assert!(!variadic_last_param(&[]));
    assert!(variadic_last_param(&[false, true]));
    assert!(!variadic_last_param(&[true, false]));
}

use pbarber::bits::{cp_var_bits, num_bits_for_range};
use pbarber::PBarberError;

fn chars(s: &str) -> Vec<char> {
    s.chars().collect()
}

fn bits(var: &str, min: i64, max: i64, m: i64) -> String {
    cp_var_bits(&chars(var), min, max, m).unwrap().iter().collect()
}

#[test]
fn num_bits_of_small_domains() {
    assert_eq!(num_bits_for_range(0, 10), 4);
    assert_eq!(num_bits_for_range(0, 7), 3);
    assert_eq!(num_bits_for_range(0, 8), 4);
    assert_eq!(num_bits_for_range(0, 0), 0);
    assert_eq!(num_bits_for_range(0, 1), 1);
    assert_eq!(num_bits_for_range(3, 3), 2);
    assert_eq!(num_bits_for_range(5, 1000), 10);
}

#[test]
fn num_bits_is_the_least_that_reaches_the_upper_bound() {
    for max in 0..300i64 {
        let k = num_bits_for_range(0, max);
        assert!((1i128 << k) - 1 >= max as i128);
        if k > 0 {
            assert!((1i128 << (k - 1)) - 1 < max as i128);
        }
    }
}

#[test]
fn num_bits_of_domains_with_negative_values() {
    assert_eq!(num_bits_for_range(-1, 0), 2);
    assert_eq!(num_bits_for_range(-5, 3), 4);
    assert_eq!(num_bits_for_range(-3, 10), 5);
    assert_eq!(num_bits_for_range(-8, -8), 5);
}

#[test]
fn num_bits_at_the_ends_of_the_integers() {
    assert_eq!(num_bits_for_range(0, i64::MAX), 63);
    assert_eq!(num_bits_for_range(i64::MIN, i64::MAX), 65);
    assert_eq!(num_bits_for_range(i64::MIN, 0), 65);
    assert_eq!(num_bits_for_range(-i64::MAX, 0), 64);
    assert_eq!(num_bits_for_range(5, -1), 0);
}

#[test]
fn bit_encoding_without_negative_values() {
    assert_eq!(bits("V", 0, 10, 1), "8 V_b3 4 V_b2 2 V_b1 1 V_b0");
    assert_eq!(bits("A", 0, 7, 2), "8 A_b2 4 A_b1 2 A_b0");
    assert_eq!(bits("B", 0, 3, -1), "-2 B_b1 -1 B_b0");
    assert_eq!(bits("C", 0, 1, 1), "1 C_b0");
    assert_eq!(bits("C", 0, 0, 1), "");
    assert_eq!(bits("C", 0, 3, 0), "0 C_b1 0 C_b0");
}

#[test]
fn bit_encoding_with_negative_values() {
    assert_eq!(bits("V", -5, 3, 1), "-16 V_b4 8 V_b3 4 V_b2 2 V_b1 1 V_b0");
    assert_eq!(bits("V", -1, 0, 3), "-12 V_b2 6 V_b1 3 V_b0");
    assert_eq!(bits("V", -1, 0, -1), "4 V_b2 -2 V_b1 -1 V_b0");
}

#[test]
fn bit_encoding_with_the_largest_weights() {
    let widest = bits("V", 0, i64::MAX, 1);
    assert!(widest.starts_with("4611686018427387904 V_b62 "));
    assert!(widest.ends_with(" 2 V_b1 1 V_b0"));
    let least = bits("V", 0, i64::MAX, -2);
    assert!(least.starts_with("-9223372036854775808 V_b62 "));
}

#[test]
fn bit_encoding_beyond_64_bits_is_refused() {
    match cp_var_bits(&chars("V"), 0, i64::MAX, 2) {
        Err(PBarberError::JustificationError(m)) => {
            assert_eq!(m, "The bit encoding of V needs a coefficient beyond 64 bits")
        }
        other => panic!("{:?}", other),
    }
    assert!(cp_var_bits(&chars("V"), i64::MIN, 0, 1).is_err());
    assert!(cp_var_bits(&chars("V"), i64::MIN, 0, 0).is_ok());
    assert!(cp_var_bits(&chars("V"), -1, i64::MAX, 1).is_err());
}

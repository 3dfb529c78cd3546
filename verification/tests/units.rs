//! Exact values of the small functions.

use echo_bench::calendar::civil_from_days;
use echo_bench::clock::seconds_or_zero;
use echo_bench::digest::sha256_hex;
use echo_bench::dsp::local_maxima;
use echo_bench::quantity::Quantity;
use echo_bench::store::{now_rfc3339, rfc3339};
use echo_bench::text::{decimal, decimal_signed, padded, same_text, text_at_most};
use echo_bench::transform::{hilbert_gain, padded_gain, transform_order};

fn q(x: f64) -> Quantity {
    Quantity::from_bits(x.to_bits())
}

fn qs(v: &[f64]) -> Vec<Quantity> {
    v.iter().map(|x| q(*x)).collect()
}

#[test]
fn maxima_handles_plateau() {
    let e = vec![0.0, 1.0, 2.0, 2.0, 2.0, 1.0, 0.0];
    assert_eq!(local_maxima(&qs(&e)), vec![3]);
}

#[test]
fn maxima_need_both_sides() {
    assert_eq!(local_maxima(&qs(&[])), Vec::<usize>::new());
    assert_eq!(local_maxima(&qs(&[1.0])), Vec::<usize>::new());
    assert_eq!(local_maxima(&qs(&[2.0, 1.0, 0.0])), Vec::<usize>::new());
    assert_eq!(local_maxima(&qs(&[0.0, 1.0, 2.0])), Vec::<usize>::new());
    assert_eq!(local_maxima(&qs(&[0.0, 1.0, 1.0, 2.0, 0.0])), vec![3]);
    assert_eq!(local_maxima(&qs(&[0.0, 3.0, 0.0, 2.0, 2.0, 0.0])), vec![1, 3]);
}

#[test]
fn quantities_order_like_numbers() {
    let v = [f64::NEG_INFINITY, -2.5, -0.0, 0.0, 1e-300, 0.1, 1.0, 1e300, f64::INFINITY, f64::NAN];
    for a in v {
        for b in v {
            assert_eq!(q(a).is_below(q(b)), a < b);
            assert_eq!(q(a).is_at_most(q(b)), a <= b);
            assert_eq!(q(a).is_equal(q(b)), a == b);
            assert_eq!(q(a).is_totally_below(q(b)), a.total_cmp(&b).is_lt());
            if a != b {
                assert_eq!(f64::from_bits(q(a).min_of(q(b)).bits).to_bits(), a.min(b).to_bits());
                assert_eq!(f64::from_bits(q(a).max_of(q(b)).bits).to_bits(), a.max(b).to_bits());
            }
        }
        assert_eq!(q(a).unsigned(), q(a.abs()));
        assert_eq!(q(a).is_not_a_number(), a.is_nan());
    }
}

#[test]
fn numbers_are_written_in_decimal() {
    assert_eq!(decimal(0), "0");
    assert_eq!(decimal(u64::MAX), "18446744073709551615");
    assert_eq!(decimal_signed(-42), "-42");
    assert_eq!(decimal_signed(i64::MIN), "-9223372036854775808");
    assert_eq!(padded(7, 2), "07");
    assert_eq!(padded(1234, 2), "1234");
}

#[test]
fn texts_are_ordered_by_their_characters() {
    assert!(same_text("ab", "ab") && !same_text("ab", "abc"));
    assert!(text_at_most("s1-c10", "s1-c2"));
    assert!(text_at_most("s1", "s1-c2"));
    assert!(!text_at_most("b", "a"));
}

#[test]
fn days_become_dates() {
    assert_eq!(civil_from_days(0), (1970, 1, 1));
    assert_eq!(civil_from_days(-1), (1969, 12, 31));
    assert_eq!(civil_from_days(11_016), (2000, 2, 29));
    assert_eq!(civil_from_days(11_017), (2000, 3, 1));
    assert_eq!(civil_from_days(19_723), (2024, 1, 1));
    assert_eq!(civil_from_days(47_540), (2100, 2, 28));
    assert_eq!(civil_from_days(47_541), (2100, 3, 1));
}

#[test]
fn stamps_are_rfc3339() {
    assert_eq!(rfc3339(0), "1970-01-01T00:00:00Z");
    assert_eq!(rfc3339(951_782_399), "2000-02-28T23:59:59Z");
    assert_eq!(rfc3339(951_782_400), "2000-02-29T00:00:00Z");
    assert_eq!(rfc3339(1_700_000_000), "2023-11-14T22:13:20Z");
    let now = now_rfc3339();
    assert_eq!(now.len(), 20);
    assert!(now.as_str() > "2020-01-01T00:00:00Z");
    assert!(now.ends_with('Z'));
}

#[test]
fn digests_match_known_values() {
    assert_eq!(sha256_hex(b""), "e3b0c44298fc1c149afbf4c8996fb92427ae41e4649b934ca495991b7852b855");
    assert_eq!(sha256_hex(b"abc"), "ba7816bf8f01cfea414140de5dae2223b00361a396177a9cb410ff61f20015ad");
    assert_eq!(
        sha256_hex(b"abcdbcdecdefdefgefghfghighijhijkijkljklmklmnlmnomnopnopq"),
        "248d6a61d20638b8e5c026930c3e6039a33ce45964ff2167f6ecedd419db06c1"
    );
}

#[test]
fn the_transform_mirrors_indices() {
    assert_eq!(transform_order(1), vec![0]);
    assert_eq!(transform_order(8), vec![0, 4, 2, 6, 1, 5, 3, 7]);
    let order = transform_order(256);
    for i in 0..256 {
        assert_eq!(order[order[i]], i);
    }
}

#[test]
fn gains_drop_negative_frequencies() {
    assert_eq!((0..8).map(|k| padded_gain(k, 8)).collect::<Vec<u8>>(), vec![1, 2, 2, 2, 2, 0, 0, 0]);
    assert_eq!((0..8).map(|k| hilbert_gain(k, 8)).collect::<Vec<u8>>(), vec![1, 2, 2, 2, 1, 0, 0, 0]);
}

#[test]
fn a_clock_before_the_epoch_counts_as_zero() {
    assert_eq!(seconds_or_zero(Some(1_700_000_000)), 1_700_000_000);
    assert_eq!(seconds_or_zero(None), 0);
}

use num_bigint::BigUint;
use shamir::error::ShamirError;
use shamir::mersenne_primes::MersennePrimes;
use shamir::reconstruction::ShareCollector;
use shamir::shamir_secret::ShamirSecret;
use shamir::share_text::ShareFormat;

fn value(n: u64) -> BigUint {
    BigUint::from(n)
}

#[test]
fn format_writes_index_hyphen_value() {
    let format = ShareFormat::new();
    assert_eq!(format.format(1, &value(0)), "1-0");
    assert_eq!(format.format(3, &value(62)), "3-10");
    assert_eq!(format.format(12, &value(61)), "12-z");
    assert_eq!(format.format(0, &value(10)), "0-A");
    assert_eq!(format.format(250, &value(1_000_000)), "250-4C92");
}

#[test]
fn parse_reads_index_and_value() {
    let format = ShareFormat::new();
    assert_eq!(format.parse("1-0"), Ok((1, value(0))));
    assert_eq!(format.parse("3-10"), Ok((3, value(62))));
    assert_eq!(format.parse("12-z"), Ok((12, value(61))));
    assert_eq!(format.parse("250-4C92"), Ok((250, value(1_000_000))));
}

#[test]
fn parse_accepts_leading_zeros_and_an_empty_value() {
    let format = ShareFormat::new();
    assert_eq!(format.parse("007-A"), Ok((7, value(10))));
    assert_eq!(format.parse("5-"), Ok((5, value(0))));
    assert_eq!(format.parse("0-1"), Ok((0, value(1))));
}

#[test]
fn parse_refuses_a_text_without_a_hyphen() {
    let format = ShareFormat::new();
    assert_eq!(format.parse(""), Err(ShamirError::MalformedShare));
    assert_eq!(format.parse("12345"), Err(ShamirError::MalformedShare));
    assert_eq!(format.parse("abc"), Err(ShamirError::MalformedShare));
}

#[test]
fn parse_refuses_an_index_that_is_not_decimal() {
    let format = ShareFormat::new();
    assert_eq!(format.parse("a-10"), Err(ShamirError::MalformedShare));
    assert_eq!(format.parse("1a-10"), Err(ShamirError::MalformedShare));
    assert_eq!(format.parse(" 1-10"), Err(ShamirError::MalformedShare));
    assert_eq!(format.parse("+1-10"), Err(ShamirError::MalformedShare));
    assert_eq!(format.parse("\u{663}-10"), Err(ShamirError::MalformedShare));
}

#[test]
fn parse_refuses_a_value_outside_radix_62() {
    let format = ShareFormat::new();
    assert_eq!(format.parse("1-a b"), Err(ShamirError::InvalidSymbol));
    assert_eq!(format.parse("1-ab!"), Err(ShamirError::InvalidSymbol));
    assert_eq!(format.parse("1-2-3"), Err(ShamirError::InvalidSymbol));
    assert_eq!(format.parse("-\u{e9}"), Err(ShamirError::InvalidSymbol));
}

#[test]
fn parse_refuses_an_empty_or_huge_index() {
    let format = ShareFormat::new();
    assert_eq!(format.parse("-abc"), Err(ShamirError::InvalidIndex));
    assert_eq!(
        format.parse("340282366920938463463374607431768211456-abc"),
        Err(ShamirError::InvalidIndex)
    );
    let largest = usize::MAX.to_string();
    assert_eq!(
        format.parse(&format!("{}-1", largest)),
        Ok((usize::MAX, value(1)))
    );
    let mut beyond = largest.clone();
    beyond.push('0');
    assert_eq!(
        format.parse(&format!("{}-1", beyond)),
        Err(ShamirError::InvalidIndex)
    );
}

#[test]
fn parse_undoes_format() {
    let format = ShareFormat::new();
    let value = (BigUint::from(1u32) << 300u32) + value(99);
    for index in [0usize, 1, 9, 10, 99, 12345, usize::MAX] {
        let text = format.format(index, &value);
        assert_eq!(format.parse(&text), Ok((index, value.clone())));
    }
}

#[test]
fn collector_keeps_good_shares_and_refuses_bad_ones() {
    let mut collector = ShareCollector::new(3);
    assert!(!collector.is_complete());
    assert_eq!(collector.position(), 1);
    assert_eq!(collector.offer("1-s"), Ok(()));
    assert_eq!(collector.position(), 2);
    assert_eq!(collector.offer("nonsense"), Err(ShamirError::MalformedShare));
    assert_eq!(collector.offer("-1K"), Err(ShamirError::InvalidIndex));
    assert_eq!(collector.offer("2-1$"), Err(ShamirError::InvalidSymbol));
    assert_eq!(collector.position(), 2);
    assert_eq!(collector.offer("2-1I"), Ok(()));
    assert!(!collector.is_complete());
    assert_eq!(collector.offer("3-1w"), Ok(()));
    assert!(collector.is_complete());
    assert_eq!(
        collector.shares(),
        &vec![(1, value(54)), (2, value(80)), (3, value(120))]
    );
}

#[test]
fn collector_reconstructs_the_secret_as_text() {
    let shamir = ShamirSecret::new(value(8191));
    let mut collector = ShareCollector::new(3);
    // Shares of 42 + 5 x + 7 x^2: 54, 80 and 120.
    for line in ["1-s", "2-1I", "3-1w"] {
        assert_eq!(collector.offer(line), Ok(()));
    }
    // 42 is the digit 'g' in radix 93.
    assert_eq!(collector.reconstruct(&shamir), Ok("g".to_string()));
}

#[test]
fn collector_with_no_shares_wanted_cannot_reconstruct() {
    let shamir = ShamirSecret::new(value(8191));
    let collector = ShareCollector::new(0);
    assert!(collector.is_complete());
    assert_eq!(
        collector.reconstruct(&shamir),
        Err(ShamirError::InsufficientShares)
    );
}

#[test]
fn collector_reports_duplicate_indices() {
    let shamir = ShamirSecret::new(value(8191));
    let mut collector = ShareCollector::new(2);
    assert_eq!(collector.offer("1-s"), Ok(()));
    assert_eq!(collector.offer("1-s"), Ok(()));
    assert_eq!(
        collector.reconstruct(&shamir),
        Err(ShamirError::DuplicatePoints)
    );
}

#[test]
fn password_round_trip_through_printed_shares() {
    let shamir = ShamirSecret::new(MersennePrimes::new().get_mersenne_prime(13));
    let secret_codec = shamir::multi_base_encoder::MultiBaseEncoder::new(93);
    let password = "correct-horse~battery!";
    let keycode = secret_codec.decode(password).unwrap();
    let (secret, pool) = shamir.make_random_shamir_pool(keycode, 3, 5).unwrap();
    assert_eq!(shamir.reconstruction_test(&secret, &pool, 3), Ok(true));

    let format = ShareFormat::new();
    let lines: Vec<String> = pool.iter().map(|s| format.format(s.0, &s.1)).collect();
    let mut collector = ShareCollector::new(3);
    for line in [&lines[4], &lines[0], &lines[2]] {
        assert_eq!(collector.offer(line), Ok(()));
    }
    assert_eq!(collector.reconstruct(&shamir), Ok(password.to_string()));
}

#[test]
fn reconstruction_test_of_a_pool() {
    let shamir = ShamirSecret::new(value(8191));
    let pool = vec![
        (1, value(54)),
        (2, value(80)),
        (3, value(120)),
        (4, value(174)),
        (5, value(242)),
    ];
    assert_eq!(shamir.reconstruction_test(&value(42), &pool, 3), Ok(true));
    assert_eq!(shamir.reconstruction_test(&value(42), &pool, 5), Ok(true));
    assert_eq!(shamir.reconstruction_test(&value(43), &pool, 3), Ok(false));
    // With two shares each, the two ends of the pool give different lines.
    assert_eq!(shamir.reconstruction_test(&value(42), &pool, 2), Ok(false));
    assert_eq!(
        shamir.reconstruction_test(&value(42), &pool, 1),
        Err(ShamirError::InsufficientShares)
    );
    // A secret that is no field element is never what the shares give.
    assert_eq!(shamir.reconstruction_test(&value(42 + 8191), &pool, 3), Ok(false));
}

use num_bigint::BigUint;
use shamir::error::ShamirError;
use shamir::multi_base_encoder::MultiBaseEncoder;

fn number(n: u64) -> BigUint {
    BigUint::from(n)
}

#[test]
fn zero_encodes_to_the_zero_symbol() {
    assert_eq!(MultiBaseEncoder::new(62).encode(number(0)), "0");
    assert_eq!(MultiBaseEncoder::new(93).encode(number(0)), "0");
}

#[test]
fn zero_symbol_decodes_to_zero() {
    assert_eq!(MultiBaseEncoder::new(62).decode("0"), Ok(number(0)));
}

#[test]
fn one_zero_decodes_to_the_radix() {
    assert_eq!(MultiBaseEncoder::new(62).decode("10"), Ok(number(62)));
    assert_eq!(MultiBaseEncoder::new(93).decode("10"), Ok(number(93)));
}

#[test]
fn the_radix_encodes_to_one_zero() {
    assert_eq!(MultiBaseEncoder::new(62).encode(number(62)), "10");
    assert_eq!(MultiBaseEncoder::new(93).encode(number(93)), "10");
}

#[test]
fn digits_follow_the_alphabet() {
    let base62 = MultiBaseEncoder::new(62);
    assert_eq!(base62.encode(number(9)), "9");
    assert_eq!(base62.encode(number(10)), "A");
    assert_eq!(base62.encode(number(35)), "Z");
    assert_eq!(base62.encode(number(36)), "a");
    assert_eq!(base62.encode(number(61)), "z");
    let base93 = MultiBaseEncoder::new(93);
    assert_eq!(base93.encode(number(62)), "!");
    assert_eq!(base93.encode(number(63)), "#");
    assert_eq!(base93.encode(number(84)), "~");
    assert_eq!(base93.encode(number(85)), "\"");
    assert_eq!(base93.encode(number(86)), "'");
    assert_eq!(base93.encode(number(91)), "\\");
    assert_eq!(base93.encode(number(92)), "]");
}

#[test]
fn the_whole_alphabet_in_order() {
    let alphabet = "0123456789ABCDEFGHIJKLMNOPQRSTUVWXYZabcdefghijklmnopqrstuvwxyz!#$%&()*+-;<=>?@^_`{|}~\"'./:[\\]";
    assert_eq!(alphabet.chars().count(), 93);
    let base93 = MultiBaseEncoder::new(93);
    for (digit, symbol) in alphabet.chars().enumerate() {
        assert_eq!(base93.encode(BigUint::from(digit)), symbol.to_string());
        assert_eq!(
            base93.decode(&symbol.to_string()),
            Ok(BigUint::from(digit))
        );
    }
}

#[test]
fn positional_value_of_a_numeral() {
    // "Az9" in radix 62: 10 * 62^2 + 61 * 62 + 9.
    assert_eq!(
        MultiBaseEncoder::new(62).decode("Az9"),
        Ok(number(10 * 62 * 62 + 61 * 62 + 9))
    );
    // "a]" in radix 93: 36 * 93 + 92.
    assert_eq!(
        MultiBaseEncoder::new(93).decode("a]"),
        Ok(number(36 * 93 + 92))
    );
}

#[test]
fn leading_zero_symbols_do_not_change_the_value() {
    assert_eq!(MultiBaseEncoder::new(62).decode("0010"), Ok(number(62)));
}

#[test]
fn empty_text_decodes_to_zero() {
    assert_eq!(MultiBaseEncoder::new(62).decode(""), Ok(number(0)));
}

#[test]
fn encode_known_number() {
    // 1_000_000 = 4 * 62^3 + 12 * 62^2 + 9 * 62 + 2
    assert_eq!(number(4 * 238_328 + 12 * 3_844 + 9 * 62 + 2), number(1_000_000));
    assert_eq!(MultiBaseEncoder::new(62).encode(number(1_000_000)), "4C92");
}

#[test]
fn decode_refuses_a_character_outside_the_alphabet() {
    assert_eq!(
        MultiBaseEncoder::new(62).decode("12 3"),
        Err(ShamirError::InvalidSymbol)
    );
    assert_eq!(
        MultiBaseEncoder::new(93).decode("abc,def"),
        Err(ShamirError::InvalidSymbol)
    );
    assert_eq!(
        MultiBaseEncoder::new(93).decode("caf\u{e9}"),
        Err(ShamirError::InvalidSymbol)
    );
}

#[test]
fn decode_refuses_a_symbol_at_or_above_the_radix() {
    assert_eq!(
        MultiBaseEncoder::new(62).decode("ab!"),
        Err(ShamirError::InvalidSymbol)
    );
    assert_eq!(
        MultiBaseEncoder::new(10).decode("12A"),
        Err(ShamirError::InvalidSymbol)
    );
    assert_eq!(MultiBaseEncoder::new(93).decode("ab!"), Ok(number((36 * 93 + 37) * 93 + 62)));
}

#[test]
fn round_trip_small_numbers() {
    for radix in [2usize, 10, 62, 93] {
        let codec = MultiBaseEncoder::new(radix);
        for n in 0u64..2000 {
            let text = codec.encode(number(n));
            assert_eq!(codec.decode(&text), Ok(number(n)));
        }
    }
}

#[test]
fn round_trip_large_numbers() {
    let large = (BigUint::from(1u32) << 521u32) - BigUint::from(12345u32);
    for radix in [62usize, 93] {
        let codec = MultiBaseEncoder::new(radix);
        let text = codec.encode(large.clone());
        assert!(text.chars().all(|c| c.is_ascii_graphic()));
        assert_eq!(codec.decode(&text), Ok(large.clone()));
    }
}

#[test]
fn decimal_radix_writes_decimal() {
    assert_eq!(MultiBaseEncoder::new(10).encode(number(8191)), "8191");
    assert_eq!(MultiBaseEncoder::new(10).decode("8191"), Ok(number(8191)));
}

#[test]
fn numbers_beyond_one_machine_word() {
    // 2^64 = 18446744073709551616
    let n = BigUint::from(1u32) << 64u32;
    assert_eq!(MultiBaseEncoder::new(10).encode(n.clone()), "18446744073709551616");
    assert_eq!(MultiBaseEncoder::new(10).decode("18446744073709551616"), Ok(n));
}

#[test]
fn digit_is_the_position_in_the_alphabet() {
    let base62 = MultiBaseEncoder::new(62);
    assert_eq!(base62.digit('0'), Some(0));
    assert_eq!(base62.digit('9'), Some(9));
    assert_eq!(base62.digit('A'), Some(10));
    assert_eq!(base62.digit('z'), Some(61));
    assert_eq!(base62.digit('!'), None);
    assert_eq!(base62.digit(' '), None);
    let base93 = MultiBaseEncoder::new(93);
    assert_eq!(base93.digit('!'), Some(62));
    assert_eq!(base93.digit('-'), Some(71));
    assert_eq!(base93.digit(']'), Some(92));
    assert_eq!(base93.digit(','), None);
}

#[test]
fn base_is_the_radix_given() {
    assert_eq!(MultiBaseEncoder::new(62).base(), 62);
    assert_eq!(MultiBaseEncoder::new(93).base(), 93);
    assert_eq!(MultiBaseEncoder::new(2).base(), 2);
}

#[test]
fn binary_radix() {
    let binary = MultiBaseEncoder::new(2);
    assert_eq!(binary.encode(number(10)), "1010");
    assert_eq!(binary.decode("1010"), Ok(number(10)));
    assert_eq!(binary.decode("102"), Err(ShamirError::InvalidSymbol));
}

//! The codec between big integers and printable text.
//!
//! A number is written in a positional system whose digits are the first
//! `radix` symbols of one fixed alphabet: the decimal digits, the upper-case
//! letters, the lower-case letters, then thirty-one punctuation marks.

use crate::bignum::{
    big_add, big_div, big_from_usize, big_is_zero, big_mul, big_rem, big_to_small, big_value,
    big_zero,
};
use crate::error::ShamirError;
use num_bigint::BigUint;
use vstd::arithmetic::div_mod::{
    lemma_div_decreases, lemma_fundamental_div_mod, lemma_fundamental_div_mod_converse,
    lemma_mod_bound,
};
use vstd::arithmetic::power::pow;
use vstd::prelude::*;
use vstd::string::*;

verus! {

/// The number of symbols of the alphabet, and so the largest radix.
pub const ALPHABET_SIZE: usize = 93;

/// The punctuation marks that follow the letters in the alphabet, in order.
pub open spec fn punctuation() -> Seq<char> {
    seq![
        '!', '#', '$', '%', '&', '(', ')', '*', '+', '-', ';', '<', '=', '>', '?', '@', '^', '_',
        '`', '{', '|', '}', '~', '"', '\'', '.', '/', ':', '[', '\\', ']',
    ]
}

/// The symbol that stands for the digit `d`.
pub open spec fn symbol_of(d: int) -> char
    recommends
        0 <= d < ALPHABET_SIZE,
{
    if d < 10 {
        ('0' as int + d) as char
    } else if d < 36 {
        ('A' as int + (d - 10)) as char
    } else if d < 62 {
        ('a' as int + (d - 36)) as char
    } else {
        punctuation()[d - 62]
    }
}

/// The alphabet: its symbols in the order of the digits they stand for.
pub open spec fn alphabet() -> Seq<char> {
    Seq::new(ALPHABET_SIZE as nat, |d: int| symbol_of(d))
}

/// `c` is the symbol of the digit `d` in the radix `radix`.
pub open spec fn is_symbol(radix: nat, c: char, d: int) -> bool {
    0 <= d < radix && d < ALPHABET_SIZE && symbol_of(d) == c
}

/// The digit that the character `c` stands for in the radix `radix`: its
/// position in the alphabet, where that is below the radix.
pub open spec fn digit_of(radix: nat, c: char) -> Option<int> {
    if exists|d: int| is_symbol(radix, c, d) {
        Some(choose|d: int| is_symbol(radix, c, d))
    } else {
        None
    }
}

/// Every character of `s` is a symbol of the radix.
pub open spec fn is_numeral(radix: nat, s: Seq<char>) -> bool {
    forall|i: int| 0 <= i < s.len() ==> digit_of(radix, #[trigger] s[i]) is Some
}

/// The number that the numeral `s` writes, most significant digit first:
/// the value of all digits but the last, times the radix, plus the last
/// digit. The empty numeral writes 0.
pub open spec fn numeral_value(radix: nat, s: Seq<char>) -> nat
    decreases s.len(),
{
    if s.len() == 0 {
        0
    } else {
        (numeral_value(radix, s.drop_last()) * radix + digit_of(radix, s.last())->0) as nat
    }
}

/// The digits of a positive number, most significant first and without a
/// leading zero, as symbols; no digits for 0.
pub open spec fn digits_of(radix: nat, x: nat) -> Seq<char>
    decreases x,
{
    if x == 0 || radix < 2 {
        Seq::empty()
    } else {
        proof {
            lemma_div_decreases(x as int, radix as int);
        }
        digits_of(radix, x / radix).push(symbol_of((x % radix) as int))
    }
}

/// The text that stands for the number `x`: its digits, and the zero symbol
/// for 0.
pub open spec fn encoding(radix: nat, x: nat) -> Seq<char> {
    if x == 0 {
        seq![symbol_of(0)]
    } else {
        digits_of(radix, x)
    }
}

/// No symbol stands for two digits.
pub proof fn lemma_symbol_injective(d1: int, d2: int)
    requires
        0 <= d1 < ALPHABET_SIZE,
        0 <= d2 < ALPHABET_SIZE,
        symbol_of(d1) == symbol_of(d2),
    ensures
        d1 == d2,
{
}

/// The digit of a symbol of the radix is the digit that the symbol was
/// made from.
pub proof fn lemma_digit_of_symbol(radix: nat, d: int)
    requires
        0 <= d < radix <= ALPHABET_SIZE,
    ensures
        digit_of(radix, symbol_of(d)) == Some(d),
{
    assert(is_symbol(radix, symbol_of(d), d));
    let found = choose|e: int| is_symbol(radix, symbol_of(d), e);
    lemma_symbol_injective(found, d);
}

/// Decoding undoes encoding: the text of a number is a numeral of the
/// radix, made of symbols of the radix only, and it writes that number.
pub proof fn lemma_decode_encode(radix: nat, x: nat)
    requires
        2 <= radix <= ALPHABET_SIZE,
    ensures
        is_numeral(radix, encoding(radix, x)),
        numeral_value(radix, encoding(radix, x)) == x,
{
    if x == 0 {
        let s = encoding(radix, x);
        lemma_digit_of_symbol(radix, 0);
        assert(s.drop_last().len() == 0);
        assert(numeral_value(radix, s.drop_last()) * radix == 0) by (nonlinear_arith)
            requires
                numeral_value(radix, s.drop_last()) == 0,
        ;
    } else {
        lemma_digits_of(radix, x);
    }
}

/// The digits of a number are a numeral that writes it.
pub proof fn lemma_digits_of(radix: nat, x: nat)
    requires
        2 <= radix <= ALPHABET_SIZE,
    ensures
        is_numeral(radix, digits_of(radix, x)),
        numeral_value(radix, digits_of(radix, x)) == x,
    decreases x,
{
    if x > 0 {
        let q = x / radix;
        let d = (x % radix) as int;
        let s = digits_of(radix, x);
        lemma_div_decreases(x as int, radix as int);
        lemma_mod_bound(x as int, radix as int);
        lemma_fundamental_div_mod(x as int, radix as int);
        lemma_digits_of(radix, q);
        lemma_digit_of_symbol(radix, d);
        assert(s.drop_last() =~= digits_of(radix, q));
        assert(s.last() == symbol_of(d));
        assert forall|i: int| 0 <= i < s.len() implies digit_of(radix, #[trigger] s[i]) is Some by {
            if i < s.len() - 1 {
                assert(s[i] == digits_of(radix, q)[i]);
            }
        }
        assert(q * radix + d == x) by (nonlinear_arith)
            requires
                x == radix * q + d,
        ;
    }
}

/// The digits of a numeral, each weighted by the power of the radix that
/// its place stands for, summed up: with `n` digits, the first counts
/// `radix^(n-1)` times and the last once.
pub open spec fn positional_sum(radix: nat, s: Seq<char>) -> int
    decreases s.len(),
{
    if s.len() == 0 {
        0
    } else {
        digit_of(radix, s[0])->0 * pow(radix as int, (s.len() - 1) as nat) + positional_sum(
            radix,
            s.drop_first(),
        )
    }
}

/// A numeral of at least one symbol that does not start with the zero
/// symbol, unless the zero symbol is all of it.
pub open spec fn is_canonical(radix: nat, s: Seq<char>) -> bool {
    &&& s.len() > 0
    &&& is_numeral(radix, s)
    &&& s.len() > 1 ==> s[0] != symbol_of(0)
}

/// A character that has a digit is the symbol of that digit, and the digit
/// is below the radix.
pub proof fn lemma_symbol_of_digit(radix: nat, c: char)
    requires
        digit_of(radix, c) is Some,
    ensures
        is_symbol(radix, c, digit_of(radix, c)->0),
{
}

/// The positional sum grows by one place when a digit is appended.
pub proof fn lemma_positional_sum_push(radix: nat, s: Seq<char>)
    requires
        s.len() > 0,
    ensures
        positional_sum(radix, s) == positional_sum(radix, s.drop_last()) * radix + digit_of(
            radix,
            s.last(),
        )->0,
    decreases s.len(),
{
    let r = radix as int;
    let d0 = digit_of(radix, s[0])->0;
    if s.len() == 1 {
        reveal(pow);
        assert(s.drop_first().len() == 0);
        assert(s.drop_last().len() == 0);
        assert(pow(r, 0) == 1);
        assert(positional_sum(radix, s) == d0 * pow(r, 0) + positional_sum(radix, s.drop_first()));
        assert(positional_sum(radix, s.drop_last()) == 0);
        assert(d0 * 1 == d0);
        assert(0 * r == 0);
    } else {
        let rest = s.drop_first();
        let init = s.drop_last();
        lemma_positional_sum_push(radix, rest);
        assert(rest.last() == s.last());
        assert(init[0] == s[0]);
        assert(init.drop_first() =~= rest.drop_last());
        let weight = pow(r, (init.len() - 1) as nat);
        assert(pow(r, (s.len() - 1) as nat) == r * weight) by {
            reveal(pow);
        }
        let inner = positional_sum(radix, rest.drop_last());
        let last = digit_of(radix, s.last())->0;
        assert(positional_sum(radix, s) == d0 * (r * weight) + positional_sum(radix, rest));
        assert(positional_sum(radix, rest) == inner * r + last);
        assert(positional_sum(radix, init) == d0 * weight + inner);
        assert(d0 * (r * weight) + (inner * r + last) == (d0 * weight + inner) * r + last)
            by (nonlinear_arith);
    }
}

/// The value of a numeral is its positional sum: the sum over its digits
/// of the digit times the radix to the power of the number of digits after
/// it.
pub proof fn lemma_numeral_value_is_positional_sum(radix: nat, s: Seq<char>)
    requires
        is_numeral(radix, s),
    ensures
        numeral_value(radix, s) == positional_sum(radix, s),
    decreases s.len(),
{
    if s.len() > 0 {
        let init = s.drop_last();
        assert forall|i: int| 0 <= i < init.len() implies digit_of(radix, #[trigger] init[i])
            is Some by {
            assert(init[i] == s[i]);
        }
        lemma_numeral_value_is_positional_sum(radix, init);
        lemma_positional_sum_push(radix, s);
        lemma_symbol_of_digit(radix, s.last());
        assert(numeral_value(radix, init) * radix >= 0) by (nonlinear_arith);
    }
}

/// A numeral of `n` digits writes a number below the `n`-th power of the
/// radix.
pub proof fn lemma_numeral_value_bound(radix: nat, s: Seq<char>)
    requires
        is_numeral(radix, s),
    ensures
        numeral_value(radix, s) < pow(radix as int, s.len()),
    decreases s.len(),
{
    reveal(pow);
    if s.len() > 0 {
        let init = s.drop_last();
        assert forall|i: int| 0 <= i < init.len() implies digit_of(radix, #[trigger] init[i])
            is Some by {
            assert(init[i] == s[i]);
        }
        lemma_numeral_value_bound(radix, init);
        lemma_symbol_of_digit(radix, s.last());
        let v = numeral_value(radix, init) as int;
        let d = digit_of(radix, s.last())->0;
        let w = pow(radix as int, init.len());
        assert(v * radix + d < radix * w) by (nonlinear_arith)
            requires
                0 <= v < w,
                0 <= d < radix,
        ;
    }
}

/// Two numerals of the same length that write the same number are the same
/// text.
pub proof fn lemma_numeral_value_injective(radix: nat, s: Seq<char>, t: Seq<char>)
    requires
        is_numeral(radix, s),
        is_numeral(radix, t),
        s.len() == t.len(),
        numeral_value(radix, s) == numeral_value(radix, t),
    ensures
        s == t,
    decreases s.len(),
{
    if s.len() > 0 {
        let s_init = s.drop_last();
        let t_init = t.drop_last();
        assert forall|i: int| 0 <= i < s_init.len() implies digit_of(radix, #[trigger] s_init[i])
            is Some by {
            assert(s_init[i] == s[i]);
        }
        assert forall|i: int| 0 <= i < t_init.len() implies digit_of(radix, #[trigger] t_init[i])
            is Some by {
            assert(t_init[i] == t[i]);
        }
        lemma_symbol_of_digit(radix, s.last());
        lemma_symbol_of_digit(radix, t.last());
        let ds = digit_of(radix, s.last())->0;
        let dt = digit_of(radix, t.last())->0;
        let vs = numeral_value(radix, s_init) as int;
        let vt = numeral_value(radix, t_init) as int;
        assert(vs == vt && ds == dt) by (nonlinear_arith)
            requires
                vs * radix + ds == vt * radix + dt,
                0 <= ds < radix,
                0 <= dt < radix,
                0 <= vs,
                0 <= vt,
        ;
        lemma_numeral_value_injective(radix, s_init, t_init);
        assert(s =~= s_init.push(s.last()));
        assert(t =~= t_init.push(t.last()));
    } else {
        assert(s =~= t);
    }
}

/// A numeral that starts with a symbol other than the zero symbol writes a
/// positive number.
pub proof fn lemma_leading_digit_positive(radix: nat, s: Seq<char>)
    requires
        is_numeral(radix, s),
        s.len() > 0,
        s[0] != symbol_of(0),
    ensures
        numeral_value(radix, s) > 0,
    decreases s.len(),
{
    lemma_symbol_of_digit(radix, s.last());
    let init = s.drop_last();
    if s.len() > 1 {
        assert forall|i: int| 0 <= i < init.len() implies digit_of(radix, #[trigger] init[i])
            is Some by {
            assert(init[i] == s[i]);
        }
        assert(init[0] == s[0]);
        lemma_leading_digit_positive(radix, init);
        let v = numeral_value(radix, init) as int;
        assert(v * radix >= 1) by (nonlinear_arith)
            requires
                v >= 1,
                radix >= 1,
        ;
    } else {
        assert(numeral_value(radix, init) == 0);
        assert(numeral_value(radix, init) * radix == 0) by (nonlinear_arith)
            requires
                numeral_value(radix, init) == 0,
        ;
    }
}

/// Encoding undoes decoding on canonical numerals: the text of the number
/// that a canonical numeral writes is that numeral. With
/// `lemma_decode_encode`, the numbers and the canonical numerals of a radix
/// correspond one to one.
pub proof fn lemma_encode_decode(radix: nat, s: Seq<char>)
    requires
        2 <= radix <= ALPHABET_SIZE,
        is_canonical(radix, s),
    ensures
        encoding(radix, numeral_value(radix, s)) == s,
    decreases s.len(),
{
    let init = s.drop_last();
    let c = s.last();
    lemma_symbol_of_digit(radix, c);
    let d = digit_of(radix, c)->0;
    let v = numeral_value(radix, init);
    let x = numeral_value(radix, s);
    assert(s =~= init.push(c));
    if s.len() == 1 {
        assert(v == 0);
        assert(v * radix == 0) by (nonlinear_arith)
            requires
                v == 0,
        ;
        if d > 0 {
            lemma_fundamental_div_mod_converse(d, radix as int, 0, d);
            assert(digits_of(radix, 0) =~= Seq::<char>::empty());
            assert(digits_of(radix, x) == digits_of(radix, x / radix).push(
                symbol_of((x % radix) as int),
            ));
        }
        assert(encoding(radix, x) =~= s);
    } else {
        assert forall|i: int| 0 <= i < init.len() implies digit_of(radix, #[trigger] init[i])
            is Some by {
            assert(init[i] == s[i]);
        }
        assert(init[0] == s[0]);
        lemma_leading_digit_positive(radix, init);
        lemma_encode_decode(radix, init);
        assert(v * radix >= 1) by (nonlinear_arith)
            requires
                v >= 1,
                radix >= 1,
        ;
        lemma_fundamental_div_mod_converse(x as int, radix as int, v as int, d);
        assert(digits_of(radix, x) == digits_of(radix, x / radix).push(
            symbol_of((x % radix) as int),
        ));
    }
}

/// `String::push`: the character is appended to the end of the string.
pub assume_specification[ String::push ](s: &mut String, ch: char)
    ensures
        final(s)@ == old(s)@.push(ch),
;

/// A codec for one radix.
pub struct MultiBaseEncoder {
    base: usize,
    chars: Vec<char>,
}

impl MultiBaseEncoder {
    #[verifier::type_invariant]
    spec fn well_formed(&self) -> bool {
        &&& 2 <= self.base <= ALPHABET_SIZE
        &&& self.chars@ == alphabet()
    }

    /// The radix of the codec.
    pub closed spec fn radix(&self) -> nat {
        self.base as nat
    }

    /// The codec whose digits are the first `base` symbols of the alphabet.
    pub fn new(base: usize) -> (r: Self)
        requires
            2 <= base <= ALPHABET_SIZE,
        ensures
            r.radix() == base,
    {
        let chars: Vec<char> = vec![
            '0', '1', '2', '3', '4', '5', '6', '7', '8', '9', 'A', 'B', 'C', 'D', 'E', 'F', 'G',
            'H', 'I', 'J', 'K', 'L', 'M', 'N', 'O', 'P', 'Q', 'R', 'S', 'T', 'U', 'V', 'W', 'X',
            'Y', 'Z', 'a', 'b', 'c', 'd', 'e', 'f', 'g', 'h', 'i', 'j', 'k', 'l', 'm', 'n', 'o',
            'p', 'q', 'r', 's', 't', 'u', 'v', 'w', 'x', 'y', 'z', '!', '#', '$', '%', '&', '(',
            ')', '*', '+', '-', ';', '<', '=', '>', '?', '@', '^', '_', '`', '{', '|', '}', '~',
            '"', '\'', '.', '/', ':', '[', '\\', ']',
        ];
        assert(chars@ =~= alphabet());
        MultiBaseEncoder { base, chars }
    }

    /// The radix of the codec.
    pub fn base(&self) -> (r: usize)
        ensures
            r == self.radix(),
            2 <= r <= ALPHABET_SIZE,
    {
        proof {
            use_type_invariant(self);
        }
        self.base
    }

    /// The digit that `ch` stands for: its position in the alphabet, where
    /// it is a symbol of the radix.
    pub fn digit(&self, ch: char) -> (r: Option<usize>)
        ensures
            r matches Some(d) ==> digit_of(self.radix(), ch) == Some(d as int),
            r is None ==> digit_of(self.radix(), ch) is None,
    {
        proof {
            use_type_invariant(self);
        }
        let mut i: usize = 0;
        while i < self.base
            invariant
                i <= self.base <= ALPHABET_SIZE,
                self.chars@ == alphabet(),
                forall|d: int| 0 <= d < i ==> symbol_of(d) != ch,
            decreases self.base - i,
        {
            if self.chars[i] == ch {
                proof {
                    assert(self.chars@[i as int] == symbol_of(i as int));
                    assert(is_symbol(self.radix(), ch, i as int));
                    let found = choose|d: int| is_symbol(self.radix(), ch, d);
                    lemma_symbol_injective(found, i as int);
                }
                return Some(i);
            }
            proof {
                assert(self.chars@[i as int] == symbol_of(i as int));
            }
            i = i + 1;
        }
        None
    }

    /// The text that stands for `number` in the radix of the codec: its
    /// digits as symbols, most significant first; the zero symbol for 0.
    pub fn encode(&self, number: BigUint) -> (s: String)
        ensures
            s@ == encoding(self.radix(), big_value(number)),
    {
        proof {
            use_type_invariant(self);
        }
        let ghost radix = self.radix();
        let ghost start = big_value(number);
        let mut key = String::new();
        if big_is_zero(&number) {
            proof {
                assert(self.chars@[0] == symbol_of(0));
            }
            key.push(self.chars[0]);
            assert(key@ =~= seq![symbol_of(0)]);
            return key;
        }
        let base_uint = big_from_usize(self.base);
        let mut number = number;
        // The symbols of the digits, least significant first.
        let mut symbols: Vec<char> = Vec::new();
        let ghost mut tail: Seq<char> = Seq::empty();
        while !big_is_zero(&number)
            invariant
                radix == self.radix(),
                2 <= self.base <= ALPHABET_SIZE,
                self.chars@ == alphabet(),
                big_value(base_uint) == self.base,
                symbols@.len() == tail.len(),
                forall|a: int| 0 <= a < tail.len() ==> tail[a] == symbols@[symbols@.len() - 1 - a],
                digits_of(radix, start) == digits_of(radix, big_value(number)) + tail,
            decreases big_value(number),
        {
            let ghost current = big_value(number);
            let remainder = big_rem(&number, &base_uint);
            proof {
                lemma_mod_bound(current as int, radix as int);
                lemma_div_decreases(current as int, radix as int);
            }
            let digit: usize = big_to_small(&remainder) as usize;
            let symbol = self.chars[digit];
            proof {
                assert(symbol == symbol_of(digit as int));
                let longer = seq![symbol] + tail;
                assert(digits_of(radix, current) == digits_of(radix, current / radix).push(symbol));
                assert(digits_of(radix, current / radix).push(symbol) + tail =~= digits_of(
                    radix,
                    current / radix,
                ) + longer);
                tail = longer;
            }
            symbols.push(symbol);
            number = big_div(&number, &base_uint);
        }
        let mut i: usize = symbols.len();
        while i > 0
            invariant
                i <= symbols@.len(),
                symbols@.len() == tail.len(),
                forall|a: int| 0 <= a < tail.len() ==> tail[a] == symbols@[symbols@.len() - 1 - a],
                key@ == tail.take(symbols@.len() - i),
            decreases i,
        {
            i = i - 1;
            key.push(symbols[i]);
            proof {
                let done = symbols@.len() - i;
                assert(tail.take(done - 1).push(symbols@[i as int]) =~= tail.take(done));
            }
        }
        proof {
            assert(tail.take(tail.len() as int) =~= tail);
            assert(digits_of(radix, start) =~= tail);
        }
        key
    }

    /// The number that `alphanumeric` writes in the radix of the codec,
    /// most significant digit first; the empty text writes 0. A character
    /// that is not a symbol of the radix is refused.
    pub fn decode(&self, alphanumeric: &str) -> (r: Result<BigUint, ShamirError>)
        ensures
            r is Ok <==> is_numeral(self.radix(), alphanumeric@),
            r matches Ok(v) ==> big_value(v) == numeral_value(self.radix(), alphanumeric@),
            r matches Ok(v) ==> big_value(v) == positional_sum(self.radix(), alphanumeric@),
            r matches Err(e) ==> e == ShamirError::InvalidSymbol,
    {
        let ghost radix = self.radix();
        let ghost text = alphanumeric@;
        let base_uint = big_from_usize(self.base);
        let mut value = big_zero();
        let length = alphanumeric.unicode_len();
        let mut index: usize = 0;
        proof {
            assert(text.take(0).len() == 0);
        }
        while index < length
            invariant
                index <= length,
                length == text.len(),
                text == alphanumeric@,
                radix == self.radix(),
                big_value(base_uint) == radix,
                is_numeral(radix, text.take(index as int)),
                big_value(value) == numeral_value(radix, text.take(index as int)),
            decreases length - index,
        {
            let ch = alphanumeric.get_char(index);
            match self.digit(ch) {
                Some(digit) => {
                    let shifted = big_mul(&value, &base_uint);
                    value = big_add(&shifted, &big_from_usize(digit));
                    proof {
                        let longer = text.take(index + 1);
                        assert(longer.drop_last() =~= text.take(index as int));
                        assert(longer.last() == ch);
                        assert forall|i: int| 0 <= i < longer.len() implies digit_of(
                            radix,
                            #[trigger] longer[i],
                        ) is Some by {
                            if i < index {
                                assert(longer[i] == text.take(index as int)[i]);
                            }
                        }
                    }
                },
                None => {
                    proof {
                        assert(text[index as int] == ch);
                    }
                    return Err(ShamirError::InvalidSymbol);
                },
            }
            index = index + 1;
        }
        proof {
            assert(text.take(length as int) =~= text);
            lemma_numeral_value_is_positional_sum(radix, text);
        }
        Ok(value)
    }
}

} // verus!

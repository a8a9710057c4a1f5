//! The text of a share: its index in decimal, a hyphen, and its value in
//! radix 62.

use crate::bignum::{big_clone, big_from_usize, big_value};
use crate::error::ShamirError;
use crate::multi_base_encoder::{
    digit_of, encoding, is_numeral, is_symbol, lemma_decode_encode, lemma_symbol_injective,
    numeral_value, symbol_of, MultiBaseEncoder,
};
use num_bigint::BigUint;
use vstd::prelude::*;
use vstd::string::*;

verus! {

/// The radix in which the index of a share is written.
pub const INDEX_RADIX: usize = 10;

/// The radix in which the value of a share is written.
pub const SHARE_RADIX: usize = 62;

/// The radix in which a secret is read and written.
pub const SECRET_RADIX: usize = 93;

/// The text of the share with the given index and value.
pub open spec fn share_text(index: nat, value: nat) -> Seq<char> {
    encoding(INDEX_RADIX as nat, index) + seq!['-'] + encoding(SHARE_RADIX as nat, value)
}

/// The character at `cut` is the first hyphen of `text`.
pub open spec fn is_first_hyphen(text: Seq<char>, cut: int) -> bool {
    &&& 0 <= cut < text.len()
    &&& text[cut] == '-'
    &&& forall|j: int| 0 <= j < cut ==> text[j] != '-'
}

/// What a text says as a share: its index and value, or why it is no share.
/// The index is all that precedes the first hyphen, the value all that
/// follows it. A text without a hyphen, or with anything but decimal digits
/// before it, is malformed; the value has to be a numeral of radix 62; the
/// index has to have a digit and to fit a machine word.
pub open spec fn parsed_share(text: Seq<char>) -> Result<(nat, nat), ShamirError> {
    if !exists|cut: int| is_first_hyphen(text, cut) {
        Err(ShamirError::MalformedShare)
    } else {
        let cut = choose|cut: int| is_first_hyphen(text, cut);
        let index_part = text.take(cut);
        let value_part = text.skip(cut + 1);
        if !is_numeral(INDEX_RADIX as nat, index_part) {
            Err(ShamirError::MalformedShare)
        } else if !is_numeral(SHARE_RADIX as nat, value_part) {
            Err(ShamirError::InvalidSymbol)
        } else if index_part.len() == 0 || numeral_value(INDEX_RADIX as nat, index_part)
            > usize::MAX {
            Err(ShamirError::InvalidIndex)
        } else {
            Ok(
                (
                    numeral_value(INDEX_RADIX as nat, index_part),
                    numeral_value(SHARE_RADIX as nat, value_part),
                ),
            )
        }
    }
}

/// A text has one first hyphen at most.
pub proof fn lemma_first_hyphen_unique(text: Seq<char>, a: int, b: int)
    requires
        is_first_hyphen(text, a),
        is_first_hyphen(text, b),
    ensures
        a == b,
{
    if a < b {
        assert(text[a] != '-');
    }
    if b < a {
        assert(text[b] != '-');
    }
}

/// The hyphen is no decimal digit.
pub proof fn lemma_hyphen_is_no_decimal_digit()
    ensures
        digit_of(INDEX_RADIX as nat, '-') is None,
{
    assert(symbol_of(71) == '-');
    if exists|d: int| is_symbol(INDEX_RADIX as nat, '-', d) {
        let d = choose|d: int| is_symbol(INDEX_RADIX as nat, '-', d);
        lemma_symbol_injective(d, 71);
    }
}

/// The text of a number is not empty.
pub proof fn lemma_encoding_not_empty(radix: nat, x: nat)
    requires
        2 <= radix,
    ensures
        encoding(radix, x).len() > 0,
{
    reveal_with_fuel(crate::multi_base_encoder::digits_of, 2);
}

/// Reading undoes writing: the text of a share whose index fits a machine
/// word says that share.
pub proof fn lemma_parse_format(index: nat, value: nat)
    requires
        index <= usize::MAX,
    ensures
        parsed_share(share_text(index, value)) == Ok::<(nat, nat), ShamirError>((index, value)),
{
    let head = encoding(INDEX_RADIX as nat, index);
    let tail = encoding(SHARE_RADIX as nat, value);
    let text = share_text(index, value);
    let cut = head.len() as int;
    lemma_decode_encode(INDEX_RADIX as nat, index);
    lemma_decode_encode(SHARE_RADIX as nat, value);
    lemma_encoding_not_empty(INDEX_RADIX as nat, index);
    lemma_hyphen_is_no_decimal_digit();
    assert forall|j: int| 0 <= j < cut implies text[j] != '-' by {
        assert(text[j] == head[j]);
        assert(digit_of(INDEX_RADIX as nat, head[j]) is Some);
    }
    assert(text[cut] == '-');
    assert(is_first_hyphen(text, cut));
    let found = choose|c: int| is_first_hyphen(text, c);
    lemma_first_hyphen_unique(text, found, cut);
    assert(text.take(cut) =~= head);
    assert(text.skip(cut + 1) =~= tail);
}

/// What the index part of a share's text comes to.
enum IndexReading {
    /// A character of it is no decimal digit.
    NotDecimal,
    /// It writes a number that does not fit a machine word.
    TooLarge,
    /// It writes this number.
    Number(usize),
}

/// The codecs of the two parts of a share's text.
pub struct ShareFormat {
    index_codec: MultiBaseEncoder,
    value_codec: MultiBaseEncoder,
}

impl ShareFormat {
    #[verifier::type_invariant]
    spec fn has_its_radices(&self) -> bool {
        &&& self.index_codec.radix() == INDEX_RADIX
        &&& self.value_codec.radix() == SHARE_RADIX
    }

    /// The radix in which the format writes an index.
    pub closed spec fn index_radix(&self) -> nat {
        self.index_codec.radix()
    }

    /// The radix in which the format writes a value.
    pub closed spec fn value_radix(&self) -> nat {
        self.value_codec.radix()
    }

    /// The format of shares: decimal indices, values in radix 62.
    pub fn new() -> (r: Self)
        ensures
            r.index_radix() == INDEX_RADIX,
            r.value_radix() == SHARE_RADIX,
    {
        ShareFormat {
            index_codec: MultiBaseEncoder::new(INDEX_RADIX),
            value_codec: MultiBaseEncoder::new(SHARE_RADIX),
        }
    }

    /// The text of the share with the given index and value.
    pub fn format(&self, index: usize, value: &BigUint) -> (s: String)
        ensures
            s@ == share_text(index as nat, big_value(*value)),
    {
        proof {
            use_type_invariant(self);
            reveal_strlit("-");
        }
        let mut text = self.index_codec.encode(big_from_usize(index));
        let value_text = self.value_codec.encode(big_clone(value));
        text.append("-");
        text.append(value_text.as_str());
        assert("-"@ =~= seq!['-']);
        text
    }

    /// The place of the first hyphen of `text`, where it has one.
    fn find_hyphen(text: &str) -> (r: Option<usize>)
        ensures
            r matches Some(cut) ==> is_first_hyphen(text@, cut as int),
            r is None ==> !exists|cut: int| is_first_hyphen(text@, cut),
    {
        let length = text.unicode_len();
        let mut cut: usize = 0;
        while cut < length
            invariant
                cut <= length,
                length == text@.len(),
                forall|j: int| 0 <= j < cut ==> text@[j] != '-',
            decreases length - cut,
        {
            if text.get_char(cut) == '-' {
                return Some(cut);
            }
            cut = cut + 1;
        }
        assert forall|c: int| !is_first_hyphen(text@, c) by {
            if 0 <= c < text@.len() {
                assert(text@[c] != '-');
            }
        }
        None
    }

    /// The number that the first `cut` characters of `text` write in
    /// decimal, where they are decimal digits and the number fits a machine
    /// word.
    fn read_index(&self, text: &str, cut: usize) -> (r: IndexReading)
        requires
            cut <= text@.len(),
        ensures
            r is NotDecimal <==> !is_numeral(INDEX_RADIX as nat, text@.take(cut as int)),
            r matches IndexReading::Number(v) ==> v == numeral_value(
                INDEX_RADIX as nat,
                text@.take(cut as int),
            ),
            r is TooLarge ==> numeral_value(INDEX_RADIX as nat, text@.take(cut as int))
                > usize::MAX,
    {
        proof {
            use_type_invariant(self);
        }
        let ghost radix = INDEX_RADIX as nat;
        let ghost head = text@.take(cut as int);
        let mut value: Option<usize> = Some(0);
        let mut j: usize = 0;
        proof {
            assert(head.take(0).len() == 0);
        }
        while j < cut
            invariant
                j <= cut <= text@.len(),
                radix == INDEX_RADIX,
                self.index_codec.radix() == radix,
                head == text@.take(cut as int),
                is_numeral(radix, head.take(j as int)),
                value matches Some(v) ==> v == numeral_value(radix, head.take(j as int)),
                value is None ==> numeral_value(radix, head.take(j as int)) > usize::MAX,
            decreases cut - j,
        {
            let ch = text.get_char(j);
            let ghost before = numeral_value(radix, head.take(j as int));
            proof {
                assert(head[j as int] == ch);
                let longer = head.take(j + 1);
                assert(longer.drop_last() =~= head.take(j as int));
                assert(longer.last() == ch);
            }
            match self.index_codec.digit(ch) {
                Some(digit) => {
                    proof {
                        let longer = head.take(j + 1);
                        assert forall|i: int| 0 <= i < longer.len() implies digit_of(
                            radix,
                            #[trigger] longer[i],
                        ) is Some by {
                            if i < j {
                                assert(longer[i] == head.take(j as int)[i]);
                            }
                        }
                        assert(numeral_value(radix, longer) == before * 10 + digit);
                        assert(before * 10 + digit >= before);
                    }
                    let shifted = match value {
                        Some(v) => v.checked_mul(INDEX_RADIX),
                        None => None,
                    };
                    value = match shifted {
                        Some(s) => s.checked_add(digit),
                        None => None,
                    };
                },
                None => {
                    return IndexReading::NotDecimal;
                },
            }
            j = j + 1;
        }
        proof {
            assert(head.take(cut as int) =~= head);
        }
        match value {
            Some(v) => IndexReading::Number(v),
            None => IndexReading::TooLarge,
        }
    }

    /// The share that `text` says: see `parsed_share`.
    pub fn parse(&self, text: &str) -> (r: Result<(usize, BigUint), ShamirError>)
        ensures
            r matches Ok(share) ==> parsed_share(text@) == Ok::<(nat, nat), ShamirError>(
                (share.0 as nat, big_value(share.1)),
            ),
            r matches Err(e) ==> parsed_share(text@) == Err::<(nat, nat), ShamirError>(e),
    {
        proof {
            use_type_invariant(self);
        }
        let cut = match Self::find_hyphen(text) {
            Some(cut) => cut,
            None => {
                return Err(ShamirError::MalformedShare);
            },
        };
        proof {
            let found = choose|c: int| is_first_hyphen(text@, c);
            lemma_first_hyphen_unique(text@, found, cut as int);
        }
        let index = self.read_index(text, cut);
        if let IndexReading::NotDecimal = index {
            return Err(ShamirError::MalformedShare);
        }
        let length = text.unicode_len();
        let value_text = text.substring_char(cut + 1, length);
        proof {
            assert(value_text@ =~= text@.skip(cut + 1));
        }
        let value = match self.value_codec.decode(value_text) {
            Ok(value) => value,
            Err(_) => {
                return Err(ShamirError::InvalidSymbol);
            },
        };
        if cut == 0 {
            return Err(ShamirError::InvalidIndex);
        }
        match index {
            IndexReading::Number(index) => Ok((index, value)),
            _ => Err(ShamirError::InvalidIndex),
        }
    }
}

} // verus!

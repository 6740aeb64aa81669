//! Which texts are numbers, and which numbers they are.

use vstd::prelude::*;

use crate::laws::rendering::{digits, packed};
use crate::text::{
    all_digits, is_digit, is_exponent, is_float_literal, is_mantissa, is_number, is_word, lowered,
    unsigned_part,
};
use crate::types::{behind_plus, color_bytes, decimal_value, u32_value};

verus! {

/// Nothing, a plus or a minus.
pub open spec fn is_sign(s: Seq<char>) -> bool {
    s.len() == 0 || s == seq!['+'] || s == seq!['-']
}

/// Digits from zero to nine, of any number.
pub open spec fn are_digits(s: Seq<char>) -> bool {
    forall|i: int| 0 <= i < s.len() ==> '0' <= #[trigger] s[i] <= '9'
}

/// A decimal number: a sign, digits, perhaps a point and digits behind it, and
/// perhaps a letter, a sign and digits for the power of ten.
pub open spec fn decimal(
    sign: Seq<char>,
    whole: Seq<char>,
    fraction: Option<Seq<char>>,
    power: Option<(char, Seq<char>, Seq<char>)>,
) -> Seq<char> {
    sign + whole + (match fraction {
        Some(digits) => seq!['.'] + digits,
        None => Seq::empty(),
    }) + (match power {
        Some((letter, sign, digits)) => seq![letter] + sign + digits,
        None => Seq::empty(),
    })
}

/// Whether the parts of a decimal number are such.
pub open spec fn is_decimal(
    sign: Seq<char>,
    whole: Seq<char>,
    fraction: Option<Seq<char>>,
    power: Option<(char, Seq<char>, Seq<char>)>,
) -> bool {
    &&& is_sign(sign)
    &&& are_digits(whole)
    &&& match fraction {
        Some(digits) => are_digits(digits) && whole.len() + digits.len() > 0,
        None => whole.len() > 0,
    }
    &&& match power {
        Some((letter, sign, digits)) => {
            &&& letter == 'e' || letter == 'E'
            &&& is_sign(sign)
            &&& are_digits(digits)
            &&& digits.len() > 0
        },
        None => true,
    }
}

/// The letters of `word`, which are small, each of them small or capital.
pub open spec fn spells(s: Seq<char>, word: Seq<char>) -> bool {
    &&& s.len() == word.len()
    &&& forall|i: int|
        0 <= i < s.len() ==> #[trigger] s[i] == word[i] || s[i] as int == word[i] as int - 32
}

/// What a float that is no decimal number is called.
pub open spec fn is_float_word(s: Seq<char>) -> bool {
    spells(s, "inf"@) || spells(s, "infinity"@) || spells(s, "nan"@)
}

/// A decimal number, or a sign and one of the words for what is none.
pub open spec fn is_written_float(text: Seq<char>) -> bool {
    ||| exists|
        sign: Seq<char>,
        whole: Seq<char>,
        fraction: Option<Seq<char>>,
        power: Option<(char, Seq<char>, Seq<char>)>,
    |
        is_decimal(sign, whole, fraction, power) && text == #[trigger] decimal(
            sign,
            whole,
            fraction,
            power,
        )
    ||| exists|sign: Seq<char>, word: Seq<char>|
        is_sign(sign) && is_float_word(word) && text == #[trigger] (sign + word)
}

proof fn lemma_unsigned(sign: Seq<char>, body: Seq<char>)
    requires
        is_sign(sign),
        body.len() > 0 ==> body[0] != '+' && body[0] != '-',
    ensures
        unsigned_part(sign + body) == body,
{
    let whole = sign + body;
    if sign.len() == 0 {
        assert(whole =~= body);
    } else {
        assert(whole[0] == sign[0]);
        assert(whole.skip(1) =~= body);
    }
}

/// A text in two parts, the second of which is what follows an optional sign.
proof fn lemma_signed(text: Seq<char>) -> (sign: Seq<char>)
    ensures
        is_sign(sign),
        text == sign + unsigned_part(text),
{
    if text.len() > 0 && (text[0] == '+' || text[0] == '-') {
        let sign = text.take(1);
        assert(sign =~= seq![text[0]]);
        assert(text =~= sign + text.skip(1));
        sign
    } else {
        let sign = Seq::<char>::empty();
        assert(text =~= sign + text);
        sign
    }
}

/// Decimal numbers are floats, however many digits they have.
pub proof fn law_decimals_are_floats(
    sign: Seq<char>,
    whole: Seq<char>,
    fraction: Option<Seq<char>>,
    power: Option<(char, Seq<char>, Seq<char>)>,
)
    requires
        is_decimal(sign, whole, fraction, power),
    ensures
        is_float_literal(decimal(sign, whole, fraction, power)),
{
    let point = match fraction {
        Some(digits) => seq!['.'] + digits,
        None => Seq::empty(),
    };
    let mantissa = whole + point;
    let exponent = match power {
        Some((letter, sign, digits)) => seq![letter] + sign + digits,
        None => Seq::empty(),
    };
    let body = mantissa + exponent;
    assert(decimal(sign, whole, fraction, power) =~= sign + body);
    assert(body.len() > 0 && body[0] != '+' && body[0] != '-') by {
        if whole.len() > 0 {
            assert(body[0] == whole[0]);
        } else {
            assert(body[0] == '.');
        }
    }
    lemma_unsigned(sign, body);
    assert(is_mantissa(mantissa)) by {
        match fraction {
            Some(digits) => {
                let at = whole.len() as int;
                assert(mantissa[at] == '.');
                assert(mantissa.take(at) =~= whole);
                assert(mantissa.skip(at + 1) =~= digits);
            },
            None => {
                assert(mantissa =~= whole);
            },
        }
    }
    assert(is_exponent(exponent)) by {
        if let Some((letter, sign, digits)) = power {
            assert(exponent.skip(1) =~= sign + digits);
            assert(digits[0] != '+' && digits[0] != '-') by {
                assert('0' <= digits[0] <= '9');
            }
            lemma_unsigned(sign, digits);
        }
    }
    let split = mantissa.len() as int;
    assert(body.take(split) =~= mantissa);
    assert(body.skip(split) =~= exponent);
    assert(is_number(body));
}

proof fn lemma_spells(s: Seq<char>, word: Seq<char>)
    requires
        forall|i: int| 0 <= i < word.len() ==> 'a' <= #[trigger] word[i] <= 'z',
    ensures
        spells(s, word) == is_word(s, word),
{
    let low = s.map_values(|c: char| lowered(c));
    if spells(s, word) {
        assert(low =~= word);
    }
    if is_word(s, word) {
        assert forall|i: int| 0 <= i < s.len() implies #[trigger] s[i] == word[i] || s[i] as int
            == word[i] as int - 32 by {
            assert(low[i] == lowered(s[i]));
            assert('a' <= word[i] <= 'z');
        }
    }
}

proof fn lemma_words(s: Seq<char>)
    ensures
        is_float_word(s) == (is_word(s, "inf"@) || is_word(s, "infinity"@) || is_word(s, "nan"@)),
{
    reveal_strlit("inf");
    reveal_strlit("infinity");
    reveal_strlit("nan");
    lemma_spells(s, "inf"@);
    lemma_spells(s, "infinity"@);
    lemma_spells(s, "nan"@);
}

proof fn lemma_word_start(word: Seq<char>)
    requires
        is_float_word(word),
    ensures
        word.len() > 0,
        word[0] != '+',
        word[0] != '-',
{
    reveal_strlit("inf");
    reveal_strlit("infinity");
    reveal_strlit("nan");
    assert("inf"@[0] == 'i');
    assert("infinity"@[0] == 'i');
    assert("nan"@[0] == 'n');
}

/// The infinities and what is no number are floats, with a sign or without, and
/// whatever the case of their letters.
pub proof fn law_words_are_floats(sign: Seq<char>, word: Seq<char>)
    requires
        is_sign(sign),
        is_float_word(word),
    ensures
        is_float_literal(sign + word),
{
    lemma_word_start(word);
    lemma_words(word);
    lemma_unsigned(sign, word);
}

/// Nothing but decimal numbers and those words is a float.
pub proof fn law_floats_are_numbers_or_words(text: Seq<char>)
    ensures
        is_float_literal(text) <==> is_written_float(text),
{
    if is_float_literal(text) {
        let sign = lemma_signed(text);
        let body = unsigned_part(text);
        lemma_words(body);
        if is_number(body) {
            let split = choose|split: int|
                {
                    &&& 0 <= split <= body.len()
                    &&& is_mantissa(#[trigger] body.take(split))
                    &&& is_exponent(body.skip(split))
                };
            let mantissa = body.take(split);
            let exponent = body.skip(split);
            let (whole, fraction) = lemma_mantissa(mantissa);
            let power = lemma_exponent(exponent);
            assert(decimal(sign, whole, fraction, power) =~= sign + (mantissa + exponent));
            assert(mantissa + exponent =~= body);
        } else {
            assert(text == sign + body);
        }
    }
    if is_written_float(text) {
        if exists|
            sign: Seq<char>,
            whole: Seq<char>,
            fraction: Option<Seq<char>>,
            power: Option<(char, Seq<char>, Seq<char>)>,
        |
            is_decimal(sign, whole, fraction, power) && text == #[trigger] decimal(
                sign,
                whole,
                fraction,
                power,
            ) {
            let (sign, whole, fraction, power) = choose|
                sign: Seq<char>,
                whole: Seq<char>,
                fraction: Option<Seq<char>>,
                power: Option<(char, Seq<char>, Seq<char>)>,
            |
                is_decimal(sign, whole, fraction, power) && text == #[trigger] decimal(
                    sign,
                    whole,
                    fraction,
                    power,
                );
            law_decimals_are_floats(sign, whole, fraction, power);
        } else {
            let (sign, word) = choose|sign: Seq<char>, word: Seq<char>|
                is_sign(sign) && is_float_word(word) && text == #[trigger] (sign + word);
            law_words_are_floats(sign, word);
        }
    }
}

proof fn lemma_mantissa(s: Seq<char>) -> (parts: (Seq<char>, Option<Seq<char>>))
    requires
        is_mantissa(s),
    ensures
        are_digits(parts.0),
        match parts.1 {
            Some(digits) => {
                &&& are_digits(digits)
                &&& parts.0.len() + digits.len() > 0
                &&& s == parts.0 + (seq!['.'] + digits)
            },
            None => parts.0.len() > 0 && s == parts.0,
        },
{
    if s.len() > 0 && all_digits(s) {
        assert(are_digits(s)) by {
            assert forall|i: int| 0 <= i < s.len() implies '0' <= #[trigger] s[i] <= '9' by {
                assert(is_digit(s[i]));
            }
        }
        (s, None)
    } else {
        let point = choose|point: int|
            {
                &&& 0 <= point < s.len()
                &&& #[trigger] s[point] == '.'
                &&& all_digits(s.take(point))
                &&& all_digits(s.skip(point + 1))
                &&& s.len() > 1
            };
        let whole = s.take(point);
        let digits = s.skip(point + 1);
        assert forall|i: int| 0 <= i < whole.len() implies '0' <= #[trigger] whole[i] <= '9' by {
            assert(is_digit(whole[i]));
        }
        assert forall|i: int| 0 <= i < digits.len() implies '0' <= #[trigger] digits[i] <= '9' by {
            assert(is_digit(digits[i]));
        }
        assert(s =~= whole + (seq!['.'] + digits));
        (whole, Some(digits))
    }
}

proof fn lemma_exponent(s: Seq<char>) -> (power: Option<(char, Seq<char>, Seq<char>)>)
    requires
        is_exponent(s),
    ensures
        match power {
            Some((letter, sign, digits)) => {
                &&& letter == 'e' || letter == 'E'
                &&& is_sign(sign)
                &&& are_digits(digits)
                &&& digits.len() > 0
                &&& s == seq![letter] + sign + digits
            },
            None => s.len() == 0,
        },
{
    if s.len() == 0 {
        None
    } else {
        let sign = lemma_signed(s.skip(1));
        let digits = unsigned_part(s.skip(1));
        assert forall|i: int| 0 <= i < digits.len() implies '0' <= #[trigger] digits[i] <= '9' by {
            assert(is_digit(digits[i]));
        }
        assert(s =~= seq![s[0]] + (sign + digits));
        assert(seq![s[0]] + (sign + digits) =~= seq![s[0]] + sign + digits);
        Some((s[0], sign, digits))
    }
}


proof fn lemma_digits(n: nat)
    ensures
        digits(n).len() > 0,
        all_digits(digits(n)),
        decimal_value(digits(n)) == n,
    decreases n,
{
    let last = ((n % 10) as u8 + '0' as u8) as char;
    assert(is_digit(last));
    assert(last as nat - '0' as nat == n % 10);
    if n < 10 {
        assert(seq![last].drop_last() =~= Seq::<char>::empty());
        assert(decimal_value(Seq::<char>::empty()) == 0);
    } else {
        lemma_digits(n / 10);
        assert(digits(n).drop_last() =~= digits(n / 10));
    }
}

/// As many zeros.
pub open spec fn zeros(count: nat) -> Seq<char> {
    Seq::new(count, |i: int| '0')
}

/// A number, written down with or without a plus, and with zeros in front.
pub open spec fn numeral(plus: bool, leading: nat, n: nat) -> Seq<char> {
    (if plus {
        seq!['+']
    } else {
        Seq::empty()
    }) + zeros(leading) + digits(n)
}

proof fn lemma_leading_zeros(leading: nat, s: Seq<char>)
    requires
        all_digits(s),
    ensures
        all_digits(zeros(leading) + s),
        decimal_value(zeros(leading) + s) == decimal_value(s),
    decreases s.len(), leading,
{
    let whole = zeros(leading) + s;
    assert forall|i: int| 0 <= i < whole.len() implies is_digit(#[trigger] whole[i]) by {
        if i >= leading {
            assert(whole[i] == s[i - leading]);
        }
    }
    if s.len() == 0 {
        if leading > 0 {
            lemma_leading_zeros((leading - 1) as nat, s);
            assert(whole.drop_last() =~= zeros((leading - 1) as nat) + s);
            assert(whole.last() == '0');
        } else {
            assert(whole =~= s);
        }
    } else {
        let shorter = s.drop_last();
        assert(forall|i: int| 0 <= i < shorter.len() ==> (#[trigger] shorter[i]) == s[i]);
        lemma_leading_zeros(leading, shorter);
        assert(whole.drop_last() =~= zeros(leading) + shorter);
        assert(whole.last() == s.last());
    }
}

/// A number that 32 bits hold reads back, with a plus or without, and whatever
/// zeros stand in front.
pub proof fn law_numerals_read_back(plus: bool, leading: nat, n: nat)
    requires
        n <= u32::MAX,
    ensures
        numeral(plus, leading, n).len() > 0,
        u32_value(numeral(plus, leading, n)) == Some(n as u32),
{
    let text = numeral(plus, leading, n);
    let unsigned = zeros(leading) + digits(n);
    lemma_digits(n);
    lemma_leading_zeros(leading, digits(n));
    if plus {
        assert(text[0] == '+');
        assert(text.skip(1) =~= unsigned);
    } else {
        assert(text =~= unsigned);
        assert(is_digit(text[0]));
    }
    assert(behind_plus(text) == unsigned);
}

/// Digits are a number with zeros in front.
proof fn lemma_digits_of(s: Seq<char>) -> (leading: nat)
    requires
        s.len() > 0,
        all_digits(s),
    ensures
        s == zeros(leading) + digits(decimal_value(s)),
    decreases s.len(),
{
    let shorter = s.drop_last();
    let value = decimal_value(shorter);
    let last = s.last();
    assert(is_digit(last)) by {
        assert(is_digit(s[s.len() - 1]));
    }
    let digit = (last as nat - '0' as nat) as nat;
    let n = decimal_value(s);
    assert(n == 10 * value + digit);
    assert(n % 10 == digit);
    assert(((n % 10) as u8 + '0' as u8) as char == last);
    if shorter.len() == 0 {
        assert(value == 0);
        assert(s =~= zeros(0) + digits(n));
        0
    } else {
        assert(forall|i: int| 0 <= i < shorter.len() ==> (#[trigger] shorter[i]) == s[i]);
        let leading = lemma_digits_of(shorter);
        assert(s =~= shorter.push(last));
        if value == 0 {
            assert(digits(0) =~= seq!['0']);
            assert(s =~= zeros(leading + 1) + digits(n));
            leading + 1
        } else {
            assert(n / 10 == value);
            assert(s =~= zeros(leading) + digits(n));
            leading
        }
    }
}

/// Nothing else than a number that 32 bits hold reads as one.
pub proof fn law_numbers_are_numerals(text: Seq<char>)
    ensures
        u32_value(text) is Some ==> exists|plus: bool, leading: nat|
            text == #[trigger] numeral(plus, leading, u32_value(text)->0 as nat),
{
    if u32_value(text) is Some {
        let unsigned = behind_plus(text);
        let leading = lemma_digits_of(unsigned);
        let plus = text.len() > 0 && text[0] == '+';
        let n = decimal_value(unsigned);
        assert(unsigned == zeros(leading) + digits(n));
        if plus {
            assert(text =~= seq!['+'] + unsigned);
            assert(text =~= seq!['+'] + zeros(leading) + digits(n));
        } else {
            assert(text =~= Seq::<char>::empty() + zeros(leading) + digits(n));
        }
        assert(text == numeral(plus, leading, n));
        assert(u32_value(text)->0 as nat == n);
    }
}

/// A color has the bytes that it was packed from, whatever byte stands above
/// them.
pub proof fn law_colors_unpack(top: u8, red: u8, green: u8, blue: u8)
    ensures
        packed(seq![red, green, blue]) <= 0xffffff,
        top * 0x1000000 + packed(seq![red, green, blue]) <= u32::MAX,
        color_bytes((top * 0x1000000 + packed(seq![red, green, blue])) as u32) == seq![
            red,
            green,
            blue,
        ],
{
    let bytes = seq![red, green, blue];
    assert(packed(bytes) == red * 0x10000 + green * 0x100 + blue);
    let number = (top * 0x1000000 + packed(bytes)) as u32;
    assert(number / 0x10000 % 0x100 == red);
    assert(number / 0x100 % 0x100 == green);
    assert(number % 0x100 == blue);
    assert(color_bytes(number) =~= bytes);
}

}

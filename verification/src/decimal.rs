//! Decimal notation: reading a number from it and writing a number in it.
use crate::natural::Natural;
use vstd::prelude::*;
use vstd::string::*;

verus! {

/// The character that writes a decimal digit.
pub open spec fn digit_char(d: nat) -> char {
    if d == 0 {
        '0'
    } else if d == 1 {
        '1'
    } else if d == 2 {
        '2'
    } else if d == 3 {
        '3'
    } else if d == 4 {
        '4'
    } else if d == 5 {
        '5'
    } else if d == 6 {
        '6'
    } else if d == 7 {
        '7'
    } else if d == 8 {
        '8'
    } else {
        '9'
    }
}

/// Whether a character is a decimal digit.
pub open spec fn is_digit(c: char) -> bool {
    48 <= c as u32 <= 57
}

/// The digit that a character writes.
pub open spec fn digit_value(c: char) -> nat {
    (c as u32 - 48) as nat
}

/// The decimal notation of a number, without leading zeros.
pub open spec fn decimal_text(v: nat) -> Seq<char>
    decreases v,
{
    if v < 10 {
        seq![digit_char(v)]
    } else {
        decimal_text(v / 10).push(digit_char(v % 10))
    }
}

/// Whether a text is a decimal notation: one digit or more, and nothing else.
pub open spec fn is_decimal(text: Seq<char>) -> bool {
    text.len() > 0 && forall|i: int| 0 <= i < text.len() ==> is_digit(#[trigger] text[i])
}

/// The number that a decimal notation writes.
pub open spec fn decimal_value(text: Seq<char>) -> nat
    decreases text.len(),
{
    if text.len() == 0 {
        0
    } else {
        10 * decimal_value(text.drop_last()) + digit_value(text.last())
    }
}

/// The characters for the ten digits are digits, with the values they write.
pub proof fn lemma_digit_char(d: nat)
    requires
        d < 10,
    ensures
        is_digit(digit_char(d)),
        digit_value(digit_char(d)) == d,
{
}

/// What is written can be read back: the notation of a number is a decimal
/// notation, and its value is the number.
pub proof fn law_decimal_round_trip(v: nat)
    ensures
        is_decimal(decimal_text(v)),
        decimal_value(decimal_text(v)) == v,
    decreases v,
{
    let d = digit_char(v % 10);
    lemma_digit_char(v % 10);
    if v < 10 {
        let text = seq![d];
        assert(text.drop_last() =~= Seq::<char>::empty());
        assert(decimal_value(text.drop_last()) == 0);
        assert(text.last() == d);
    } else {
        let shorter = decimal_text(v / 10);
        law_decimal_round_trip(v / 10);
        let text = shorter.push(d);
        assert(text.drop_last() =~= shorter);
        assert(text.last() == d);
        assert forall|i: int| 0 <= i < text.len() implies is_digit(#[trigger] text[i]) by {
            if i < shorter.len() {
                assert(text[i] == shorter[i]);
            }
        }
    }
}

/// The text of one decimal digit.
fn digit_text(d: u32) -> (r: &'static str)
    requires
        d < 10,
    ensures
        r@ == seq![digit_char(d as nat)],
{
    let text = if d == 0 {
        "0"
    } else if d == 1 {
        "1"
    } else if d == 2 {
        "2"
    } else if d == 3 {
        "3"
    } else if d == 4 {
        "4"
    } else if d == 5 {
        "5"
    } else if d == 6 {
        "6"
    } else if d == 7 {
        "7"
    } else if d == 8 {
        "8"
    } else {
        "9"
    };
    proof {
        reveal_strlit("0");
        reveal_strlit("1");
        reveal_strlit("2");
        reveal_strlit("3");
        reveal_strlit("4");
        reveal_strlit("5");
        reveal_strlit("6");
        reveal_strlit("7");
        reveal_strlit("8");
        reveal_strlit("9");
        assert(text@ =~= seq![digit_char(d as nat)]);
    }
    text
}

/// `text` with the decimal notation of `v` written after it.
pub fn append_decimal(text: String, v: usize) -> (r: String)
    ensures
        r@ == text@ + decimal_text(v as nat),
    decreases v,
{
    let text = if v >= 10 {
        append_decimal(text, v / 10)
    } else {
        text
    };
    let r = text.concat(digit_text((v % 10) as u32));
    proof {
        if v >= 10 {
            assert(r@ =~= text@.push(digit_char((v % 10) as nat)));
        }
    }
    r
}

/// `text` with the decimal notation of `v` written after it.
fn append_natural(text: String, v: &Natural) -> (r: String)
    ensures
        r@ == text@ + decimal_text(v@),
    decreases v@,
{
    let ghost start = text@;
    let (rest, d) = v.div_rem_small(10);
    let text = if rest.is_zero() {
        text
    } else {
        append_natural(text, &rest)
    };
    let r = text.concat(digit_text(d));
    proof {
        if v@ >= 10 {
            assert(r@ =~= text@.push(digit_char(d as nat)));
            assert(r@ =~= start + decimal_text(v@));
        }
    }
    r
}

impl Natural {
    /// The number that a decimal notation writes; nothing where the text is
    /// empty or holds anything but the digits `0` to `9`.
    pub fn from_decimal(text: &str) -> (r: Option<Natural>)
        ensures
            r is Some <==> is_decimal(text@),
            r is Some ==> r->Some_0@ == decimal_value(text@),
    {
        let n = text.unicode_len();
        if n == 0 {
            return None;
        }
        let mut acc = Natural::zero();
        let mut i: usize = 0;
        while i < n
            invariant
                i <= n,
                n == text@.len(),
                acc@ == decimal_value(text@.take(i as int)),
                forall|j: int| 0 <= j < i ==> is_digit(#[trigger] text@[j]),
            decreases n - i,
        {
            let c = text.get_char(i);
            let code = c as u32;
            if code < 48 || code > 57 {
                return None;
            }
            proof {
                let longer = text@.take(i + 1);
                assert(longer.drop_last() =~= text@.take(i as int));
                assert(longer.last() == c);
            }
            acc = acc.mul_small_add(10, code - 48);
            i = i + 1;
        }
        proof {
            assert(text@.take(n as int) =~= text@);
        }
        Some(acc)
    }

    /// The decimal notation of the number.
    pub fn to_decimal(&self) -> (r: String)
        ensures
            r@ == decimal_text(self@),
    {
        let r = append_natural(String::new(), self);
        proof {
            assert(r@ =~= decimal_text(self@));
        }
        r
    }
}

} // verus!

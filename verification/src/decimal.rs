//! Decimal numerals.

use vstd::prelude::*;

verus! {

/// The numeral of a single digit.
pub open spec fn digit_char(digit: nat) -> char {
    (48 + digit) as char
}

/// The decimal numeral of a number, without leading zeros.
pub open spec fn decimal(n: nat) -> Seq<char>
    decreases n,
{
    if n < 10 {
        seq![digit_char(n)]
    } else {
        decimal(n / 10).push(digit_char(n % 10))
    }
}

/// The character is one of the ten digits.
pub open spec fn is_digit(c: char) -> bool {
    48 <= c as int <= 57
}

/// All characters are digits.
pub open spec fn all_digits(s: Seq<char>) -> bool {
    forall|i: int| 0 <= i < s.len() ==> is_digit(#[trigger] s[i])
}

/// The number that a string of digits stands for.
pub open spec fn digits_value(s: Seq<char>) -> nat
    decreases s.len(),
{
    if s.len() == 0 {
        0
    } else {
        10 * digits_value(s.drop_last()) + (s.last() as nat - 48) as nat
    }
}

/// A numeral is made of digits, has no leading zero, and stands for its number.
pub proof fn lemma_decimal(n: nat)
    ensures
        decimal(n).len() > 0,
        all_digits(decimal(n)),
        n > 0 ==> decimal(n)[0] != '0',
        digits_value(decimal(n)) == n,
    decreases n,
{
    if n < 10 {
        assert(decimal(n).drop_last() =~= Seq::empty());
        assert(digits_value(decimal(n).drop_last()) == 0);
        assert(decimal(n).last() == digit_char(n));
    } else {
        lemma_decimal(n / 10);
        assert(decimal(n).last() == digit_char(n % 10));
        assert(decimal(n).drop_last() =~= decimal(n / 10));
        assert(decimal(n)[0] == decimal(n / 10)[0]);
    }
}

/// A string of digits without a leading zero is the numeral of its value.
pub proof fn lemma_numeral(s: Seq<char>)
    requires
        s.len() > 0,
        all_digits(s),
        s[0] != '0',
    ensures
        decimal(digits_value(s)) == s,
        digits_value(s) > 0,
    decreases s.len(),
{
    let rest = s.drop_last();
    assert(is_digit(s.last())) by {
        assert(s.last() == s[s.len() - 1]);
    }
    let digit = (s.last() as nat - 48) as nat;
    if rest.len() == 0 {
        assert(digits_value(rest) == 0);
        assert(s =~= seq![s[0]]);
        assert(digits_value(s) == digit);
        assert(digit < 10);
        assert(digit_char(digit) == s.last());
    } else {
        assert(all_digits(rest)) by {
            assert forall|i: int| 0 <= i < rest.len() implies is_digit(#[trigger] rest[i]) by {
                assert(rest[i] == s[i]);
            }
        }
        lemma_numeral(rest);
        let value = digits_value(s);
        assert(value == 10 * digits_value(rest) + digit);
        assert(value / 10 == digits_value(rest));
        assert(value % 10 == digit);
        assert(digit_char(digit) == s.last());
        assert(s =~= rest.push(s.last()));
    }
}

/// Numerals tell numbers apart.
pub proof fn lemma_decimal_injective(a: nat, b: nat)
    requires
        decimal(a) == decimal(b),
    ensures
        a == b,
{
    lemma_decimal(a);
    lemma_decimal(b);
}

fn digit_text(digit: u64) -> (r: &'static str)
    requires
        digit < 10,
    ensures
        r@ == seq![digit_char(digit as nat)],
{
    proof {
        reveal_strlit("0");
        reveal_strlit("1");
        reveal_strlit("2");
        reveal_strlit("3");
        reveal_strlit("4");
        reveal_strlit("5");
        reveal_strlit("6");
        reveal_strlit("7");
        reveal_strlit("8");
        reveal_strlit("9");
    }
    let r = if digit == 0 {
        "0"
    } else if digit == 1 {
        "1"
    } else if digit == 2 {
        "2"
    } else if digit == 3 {
        "3"
    } else if digit == 4 {
        "4"
    } else if digit == 5 {
        "5"
    } else if digit == 6 {
        "6"
    } else if digit == 7 {
        "7"
    } else if digit == 8 {
        "8"
    } else {
        "9"
    };
    assert(r@ =~= seq![digit_char(digit as nat)]);
    r
}

/// Appends the decimal numeral of `n`.
pub fn push_decimal(out: &mut String, n: u64)
    ensures
        final(out)@ == old(out)@ + decimal(n as nat),
    decreases n,
{
    if n >= 10 {
        push_decimal(out, n / 10);
        let ghost before = out@;
        out.append(digit_text(n % 10));
        proof {
            assert(decimal(n as nat) == decimal(n as nat / 10).push(digit_char(n as nat % 10)));
            assert(out@ =~= old(out)@ + decimal(n as nat));
        }
    } else {
        out.append(digit_text(n));
    }
}

/// The characters of a text.
pub fn chars_of(s: &str) -> (chars: Vec<char>)
    ensures
        chars@ == s@,
{
    let count: usize = s.unicode_len();
    let mut chars: Vec<char> = Vec::new();
    let mut i: usize = 0;
    while i < count
        invariant
            i <= count,
            count == s@.len(),
            chars@ == s@.take(i as int),
        decreases count - i,
    {
        chars.push(s.get_char(i));
        assert(s@.take(i + 1) =~= s@.take(i as int).push(s@[i as int]));
        i = i + 1;
    }
    assert(s@.take(i as int) =~= s@);
    chars
}

/// The value of a run of digits, where it is a numeral without a leading zero that fits 32 bits.
pub fn parse_numeral(chars: &[char], from: usize, to: usize) -> (r: Option<u32>)
    requires
        from <= to <= chars@.len(),
    ensures
        match r {
            Some(value) => value > 0 && chars@.subrange(from as int, to as int) == decimal(
                value as nat,
            ),
            None => forall|value: u32|
                value > 0 ==> chars@.subrange(from as int, to as int) != #[trigger] decimal(
                    value as nat,
                ),
        },
{
    let ghost s = chars@.subrange(from as int, to as int);
    proof {
        assert forall|value: u32| s == #[trigger] decimal(value as nat) && value > 0 implies s.len()
            > 0 && s[0] != '0' && all_digits(s) && digits_value(s) == value by {
            lemma_decimal(value as nat);
        }
    }
    if from == to || chars[from] == '0' {
        return None;
    }
    let mut value: u32 = 0;
    let mut i: usize = from;
    while i < to
        invariant
            from <= i <= to <= chars@.len(),
            from < to,
            s == chars@.subrange(from as int, to as int),
            s[0] != '0',
            forall|k: int| 0 <= k < i - from ==> is_digit(#[trigger] s[k]),
            value == digits_value(s.take(i - from)),
            forall|v: u32|
                s == #[trigger] decimal(v as nat) && v > 0 ==> all_digits(s) && digits_value(s)
                    == v,
        decreases to - i,
    {
        let c = chars[i];
        proof {
            assert(s[i - from] == c);
            assert(s.take(i - from + 1).drop_last() =~= s.take(i - from));
            assert(s.take(i - from + 1).last() == c);
            lemma_value_prefix(s, i - from + 1);
        }
        if !(c >= '0' && c <= '9') {
            return None;
        }
        let digit: u32 = c as u32 - 48;
        let next: u64 = value as u64 * 10 + digit as u64;
        if next > u32::MAX as u64 {
            return None;
        }
        value = next as u32;
        i = i + 1;
    }
    proof {
        assert(s.take(i - from) =~= s);
        lemma_numeral(s);
    }
    Some(value)
}

/// A prefix of a run of digits stands for no more than the whole.
proof fn lemma_value_prefix(s: Seq<char>, k: int)
    requires
        0 <= k <= s.len(),
    ensures
        digits_value(s.take(k)) <= digits_value(s),
    decreases s.len() - k,
{
    if k < s.len() {
        assert(s.take(k + 1).drop_last() =~= s.take(k));
        lemma_value_prefix(s, k + 1);
    } else {
        assert(s.take(k) =~= s);
    }
}

} // verus!

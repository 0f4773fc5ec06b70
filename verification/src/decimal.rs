//! Vertex identifiers in decimal notation, read and written.
use vstd::prelude::*;

verus! {

/// Why a text is not the decimal notation of a vertex identifier.
#[derive(Debug, Clone, Copy, PartialEq, Eq, Structural)]
pub enum IdError {
    /// The text is empty.
    Empty,
    /// The text holds something else than decimal digits after an optional
    /// `+`, or no digit at all.
    InvalidDigit,
    /// The number is too large for an identifier.
    PosOverflow,
}

/// `c` is one of the decimal digits `0` to `9`.
pub open spec fn is_digit(c: char) -> bool {
    48 <= c as u32 <= 57
}

/// The value of the decimal digit `c`.
pub open spec fn digit_of(c: char) -> nat {
    (c as u32 - 48) as nat
}

/// `text` holds decimal digits only.
pub open spec fn all_digits(text: Seq<char>) -> bool {
    forall|i: int| 0 <= i < text.len() ==> is_digit(#[trigger] text[i])
}

/// The number that a sequence of decimal digits denotes; 0 for the empty one.
pub open spec fn number(digits: Seq<char>) -> nat
    decreases digits.len(),
{
    if digits.len() == 0 {
        0
    } else {
        number(digits.drop_last()) * 10 + digit_of(digits.last())
    }
}

/// Read from the left, the digits exceed the largest identifier before
/// anything but a digit is met.
pub open spec fn overflows(digits: Seq<char>) -> bool {
    exists|k: int|
        0 <= k <= digits.len() && all_digits(#[trigger] digits.take(k)) && number(digits.take(k))
            > usize::MAX
}

/// `text` without the `+` that may stand in front of the digits.
pub open spec fn unsigned(text: Seq<char>) -> Seq<char> {
    if text.len() > 0 && text[0] == '+' {
        text.drop_first()
    } else {
        text
    }
}

/// The identifier that `text` denotes: decimal digits, with an optional `+`
/// in front, whose number fits an identifier.
pub open spec fn parse_id(text: Seq<char>) -> Result<usize, IdError> {
    let digits = unsigned(text);
    if text.len() == 0 {
        Err(IdError::Empty)
    } else if digits.len() == 0 {
        Err(IdError::InvalidDigit)
    } else if overflows(digits) {
        Err(IdError::PosOverflow)
    } else if !all_digits(digits) {
        Err(IdError::InvalidDigit)
    } else {
        Ok(number(digits) as usize)
    }
}

/// Longer digit sequences denote numbers at least as large.
pub proof fn lemma_number_grows(digits: Seq<char>, shorter: int, longer: int)
    requires
        0 <= shorter <= longer <= digits.len(),
    ensures
        number(digits.take(shorter)) <= number(digits.take(longer)),
    decreases longer - shorter,
{
    if shorter < longer {
        lemma_number_grows(digits, shorter, longer - 1);
        assert(digits.take(longer).drop_last() =~= digits.take(longer - 1));
    }
}

/// Reads the identifier that the characters of `text` from `from` up to `to`
/// denote.
pub fn read_id(text: &Vec<char>, from: usize, to: usize) -> (result: Result<usize, IdError>)
    requires
        from <= to <= text.len(),
    ensures
        result == parse_id(text@.subrange(from as int, to as int)),
{
    let ghost token = text@.subrange(from as int, to as int);
    if from == to {
        return Err(IdError::Empty);
    }
    let start = if text[from] == '+' {
        from + 1
    } else {
        from
    };
    let ghost digits = unsigned(token);
    proof {
        assert(token[0] == text@[from as int]);
        assert(digits =~= text@.subrange(start as int, to as int));
    }
    if start == to {
        return Err(IdError::InvalidDigit);
    }
    let mut value: usize = 0;
    let mut i: usize = start;
    proof {
        assert(digits.take(0) =~= Seq::<char>::empty());
    }
    while i < to
        invariant
            from <= start <= i <= to <= text.len(),
            from < to,
            start < to,
            digits == text@.subrange(start as int, to as int),
            digits == unsigned(text@.subrange(from as int, to as int)),
            all_digits(digits.take(i - start)),
            value == number(digits.take(i - start)),
            forall|k: int|
                0 <= k <= i - start ==> number(#[trigger] digits.take(k)) <= usize::MAX,
        decreases to - i,
    {
        let c = text[i];
        let ghost seen = digits.take(i - start);
        let ghost next = digits.take(i - start + 1);
        proof {
            assert(digits[i - start] == c);
            assert(next.drop_last() =~= seen);
            assert(next.last() == c);
        }
        let code = c as u32;
        if !(code >= 48 && code <= 57) {
            proof {
                assert(!is_digit(digits[i - start]));
                assert forall|k: int|
                    0 <= k <= digits.len() && all_digits(#[trigger] digits.take(k)) implies number(
                    digits.take(k),
                ) <= usize::MAX by {
                    if k > i - start {
                        assert(digits.take(k)[i - start] == digits[i - start]);
                    }
                }
            }
            return Err(IdError::InvalidDigit);
        }
        let digit: usize = (code - 48) as usize;
        if value > (usize::MAX - digit) / 10 {
            proof {
                assert(number(next) == value * 10 + digit);
                assert(value * 10 + digit > usize::MAX) by (nonlinear_arith)
                    requires
                        value > (usize::MAX - digit) / 10,
                        0 <= digit <= 9,
                ;
                assert(all_digits(next)) by {
                    assert forall|k: int| 0 <= k < next.len() implies is_digit(
                        #[trigger] next[k],
                    ) by {
                        if k < i - start {
                            assert(seen[k] == next[k]);
                        }
                    }
                }
            }
            assert(overflows(digits));
            return Err(IdError::PosOverflow);
        }
        proof {
            assert(value * 10 + digit <= usize::MAX) by (nonlinear_arith)
                requires
                    value <= (usize::MAX - digit) / 10,
                    0 <= digit <= 9,
                    digit <= usize::MAX,
            ;
            assert(all_digits(next)) by {
                assert forall|k: int| 0 <= k < next.len() implies is_digit(#[trigger] next[k]) by {
                    if k < i - start {
                        assert(seen[k] == next[k]);
                    } else {
                        assert(next[k] == c);
                    }
                }
            }
        }
        value = value * 10 + digit;
        i += 1;
    }
    proof {
        assert(digits.take(to - start) =~= digits);
        assert forall|k: int|
            0 <= k <= digits.len() && all_digits(#[trigger] digits.take(k)) implies number(
            digits.take(k),
        ) <= usize::MAX by {}
    }
    Ok(value)
}

/// The decimal digit with value `d`.
pub open spec fn digit_char(d: nat) -> char {
    if d == 0 {
        '0'
    } else if d == 1 {
        '1'
    } else if d == 2 {
        '2'
    } else if d == 3 {
        '3'
    } else if d == 4 {
        '4'
    } else if d == 5 {
        '5'
    } else if d == 6 {
        '6'
    } else if d == 7 {
        '7'
    } else if d == 8 {
        '8'
    } else {
        '9'
    }
}

/// The decimal notation of `n`, without leading zeros.
pub open spec fn decimal(n: nat) -> Seq<char>
    decreases n,
{
    if n < 10 {
        seq![digit_char(n)]
    } else {
        decimal(n / 10).push(digit_char(n % 10))
    }
}

/// The decimal notation of a number consists of digits, at least one, and
/// denotes that number.
pub proof fn lemma_decimal_denotes(n: nat)
    ensures
        decimal(n).len() > 0,
        all_digits(decimal(n)),
        number(decimal(n)) == n,
    decreases n,
{
    if n < 10 {
        let only = seq![digit_char(n)];
        assert(only.drop_last() =~= Seq::<char>::empty());
        assert(number(only.drop_last()) == 0);
        assert(only.last() == digit_char(n));
    } else {
        lemma_decimal_denotes(n / 10);
        let front = decimal(n / 10);
        let whole = front.push(digit_char(n % 10));
        assert(whole.drop_last() =~= front);
        assert(whole.last() == digit_char(n % 10));
        assert forall|i: int| 0 <= i < whole.len() implies is_digit(#[trigger] whole[i]) by {
            if i < front.len() {
                assert(whole[i] == front[i]);
            }
        }
    }
}

/// The decimal notation of an identifier is read as that identifier.
pub proof fn lemma_parse_decimal(id: usize)
    ensures
        parse_id(decimal(id as nat)) == Ok::<usize, IdError>(id),
{
    let text = decimal(id as nat);
    lemma_decimal_denotes(id as nat);
    assert(is_digit(text[0]));
    assert(unsigned(text) == text);
    assert forall|k: int| 0 <= k <= text.len() implies number(#[trigger] text.take(k))
        <= usize::MAX by {
        lemma_number_grows(text, k, text.len() as int);
        assert(text.take(text.len() as int) =~= text);
    }
}

/// The decimal digit with value `d`.
fn digit_to_char(d: usize) -> (c: char)
    requires
        d < 10,
    ensures
        c == digit_char(d as nat),
{
    if d == 0 {
        '0'
    } else if d == 1 {
        '1'
    } else if d == 2 {
        '2'
    } else if d == 3 {
        '3'
    } else if d == 4 {
        '4'
    } else if d == 5 {
        '5'
    } else if d == 6 {
        '6'
    } else if d == 7 {
        '7'
    } else if d == 8 {
        '8'
    } else {
        '9'
    }
}

/// The digits of `n` that stand before the last one: none for a number
/// below ten.
pub open spec fn leading_digits(n: nat) -> Seq<char> {
    if n < 10 {
        Seq::empty()
    } else {
        decimal(n / 10)
    }
}

/// Appends the decimal notation of `n` to `out`.
pub fn push_decimal(out: &mut String, n: usize)
    ensures
        final(out)@ == old(out)@ + decimal(n as nat),
{
    let mut digits: Vec<char> = Vec::new();
    digits.push(digit_to_char(n % 10));
    let mut rest: usize = n / 10;
    proof {
        assert(digits@.reverse() =~= seq![digit_char((n % 10) as nat)]);
        assert(decimal(n as nat) =~= leading_digits(n as nat) + digits@.reverse());
    }
    while rest > 0
        invariant
            digits@.len() > 0,
            decimal(n as nat) == (if rest > 0 {
                decimal(rest as nat)
            } else {
                Seq::empty()
            }) + digits@.reverse(),
        decreases rest,
    {
        let ghost before = digits@;
        digits.push(digit_to_char(rest % 10));
        proof {
            let last = digit_char((rest % 10) as nat);
            assert(digits@.reverse() =~= seq![last] + before.reverse());
            let front = if rest / 10 > 0 {
                decimal((rest / 10) as nat)
            } else {
                Seq::empty()
            };
            assert(decimal(rest as nat) =~= front.push(last));
            assert(front.push(last) + before.reverse() =~= front + (seq![last] + before.reverse()));
        }
        rest = rest / 10;
    }
    let mut i: usize = digits.len();
    proof {
        assert(digits@.reverse().take(0) =~= Seq::<char>::empty());
    }
    while i > 0
        invariant
            i <= digits.len(),
            out@ == old(out)@ + digits@.reverse().take(digits.len() - i),
        decreases i,
    {
        i -= 1;
        out.push(digits[i]);
        proof {
            let turned = digits@.reverse();
            let k = digits.len() - i - 1;
            assert(turned[k] == digits@[i as int]);
            assert(turned.take(k + 1) =~= turned.take(k).push(turned[k]));
        }
    }
    proof {
        assert(digits@.reverse().take(digits.len() as int) =~= digits@.reverse());
    }
}

} // verus!

//! ASCII decimal numbers as they stand on the wire and in the data file.

use vstd::prelude::*;

verus! {

/// Whether `b` is one of the ASCII digits `0` to `9`.
pub open spec fn is_digit(b: u8) -> bool {
    48 <= b <= 57
}

/// The ASCII decimal digits of `n`, most significant first, without
/// leading zeros (`0` is the single digit `0`).
pub open spec fn decimal(n: nat) -> Seq<u8>
    decreases n,
{
    if n < 10 {
        seq![(48 + n) as u8]
    } else {
        decimal(n / 10).push((48 + n % 10) as u8)
    }
}

/// The index at which the run of digits that starts at `from` ends: the
/// first index at or after `from` that holds no digit, or the length.
pub open spec fn digit_run_end(text: Seq<u8>, from: int) -> int
    decreases text.len() - from,
{
    if from < 0 || from >= text.len() || !is_digit(text[from]) {
        from
    } else {
        digit_run_end(text, from + 1)
    }
}

/// The number that the digits `text[from..to]` spell.
pub open spec fn digits_value(text: Seq<u8>, from: int, to: int) -> nat
    decreases to - from,
{
    if to <= from {
        0
    } else {
        digits_value(text, from, to - 1) * 10 + (text[to - 1] - 48) as nat
    }
}

/// What `atoi::atoi::<u64>` makes of `text`: an optional sign, then the
/// longest run of digits. Nothing is consumed: no number. After `+` or no
/// sign the number is the value of the run where it fits in 64 bits. After
/// `-` only zero can be represented. A sign alone counts as consumed and
/// gives zero. Bytes after the run are ignored.
pub open spec fn parse_decimal(text: Seq<u8>) -> Option<u64> {
    let signed = text.len() > 0 && (text[0] == 43 || text[0] == 45);
    let start: int = if signed { 1 } else { 0 };
    let end = digit_run_end(text, start);
    let value = digits_value(text, start, end);
    if end == 0 {
        None
    } else if signed && text[0] == 45 {
        if value == 0 { Some(0u64) } else { None }
    } else if value <= u64::MAX {
        Some(value as u64)
    } else {
        None
    }
}

/// Whether `line` is a decimal number and nothing else: one digit or more,
/// and no other byte.
pub open spec fn digits_only(line: Seq<u8>) -> bool {
    line.len() > 0 && forall|i: int| 0 <= i < line.len() ==> is_digit(#[trigger] line[i])
}

/// Whether `line` is a decimal number and nothing else.
pub fn is_digits_only(line: &[u8]) -> (r: bool)
    ensures
        r == digits_only(line@),
{
    if line.len() == 0 {
        return false;
    }
    let mut i: usize = 0;
    while i < line.len()
        invariant
            0 <= i <= line@.len(),
            forall|j: int| 0 <= j < i ==> is_digit(#[trigger] line@[j]),
        decreases line@.len() - i,
    {
        if line[i] < 48 || line[i] > 57 {
            assert(!is_digit(line@[i as int]));
            return false;
        }
        i = i + 1;
    }
    true
}

/// `atoi::atoi::<u64>`: the number at the start of `text`, as
/// [`parse_decimal`] describes it.
#[verifier::external_body]
pub(crate) fn atoi_u64(text: &[u8]) -> (r: Option<u64>)
    ensures
        r == parse_decimal(text@),
{
    atoi::atoi::<u64>(text)
}

/// Every byte of `decimal(n)` is a digit.
pub proof fn lemma_decimal_digits(n: nat)
    ensures
        decimal(n).len() >= 1,
        forall|i: int| 0 <= i < decimal(n).len() ==> is_digit(#[trigger] decimal(n)[i]),
    decreases n,
{
    if n >= 10 {
        lemma_decimal_digits(n / 10);
    }
}

/// The digits of `n` spell `n`.
pub proof fn lemma_decimal_value(n: nat)
    ensures
        digits_value(decimal(n), 0, decimal(n).len() as int) == n,
    decreases n,
{
    let d = decimal(n);
    if n < 10 {
        assert(digits_value(d, 0, 0) == 0);
        assert(digits_value(d, 0, 1) == digits_value(d, 0, 0) * 10 + (d[0] - 48) as nat);
    } else {
        let p = decimal(n / 10);
        lemma_decimal_value(n / 10);
        lemma_decimal_digits(n / 10);
        assert(d == p.push((48 + n % 10) as u8));
        lemma_digits_value_prefix(p, d, 0, p.len() as int);
        assert(digits_value(d, 0, d.len() as int) == digits_value(d, 0, p.len() as int) * 10 + (
        d[p.len() as int] - 48) as nat);
    }
}

/// The value of a range of digits depends on the bytes of that range only.
pub proof fn lemma_digits_value_prefix(a: Seq<u8>, b: Seq<u8>, from: int, to: int)
    requires
        0 <= from <= to <= a.len(),
        to <= b.len(),
        forall|i: int| from <= i < to ==> a[i] == b[i],
    ensures
        digits_value(a, from, to) == digits_value(b, from, to),
    decreases to - from,
{
    if to > from {
        lemma_digits_value_prefix(a, b, from, to - 1);
    }
}

/// A run of digits that is followed by no digit ends where it ends.
pub proof fn lemma_digit_run(text: Seq<u8>, from: int, to: int)
    requires
        0 <= from <= to <= text.len(),
        forall|i: int| from <= i < to ==> is_digit(#[trigger] text[i]),
        to == text.len() || !is_digit(text[to]),
    ensures
        digit_run_end(text, from) == to,
    decreases to - from,
{
    if from < to {
        lemma_digit_run(text, from + 1, to);
    }
}

/// Reading back the digits of a 64-bit number gives that number.
pub proof fn lemma_parse_decimal_of_decimal(n: u64)
    ensures
        parse_decimal(decimal(n as nat)) == Some(n),
{
    let d = decimal(n as nat);
    lemma_decimal_digits(n as nat);
    lemma_decimal_value(n as nat);
    assert(is_digit(d[0]));
    lemma_digit_run(d, 0, d.len() as int);
}

/// Appends the decimal digits of `val` to `out`.
pub fn write_decimal(val: u64, out: &mut Vec<u8>)
    ensures
        final(out)@ == old(out)@ + decimal(val as nat),
{
    let mut digits: Vec<u8> = Vec::new();
    let mut rest: u64 = val;
    // Least significant digit first; they are appended in reverse below.
    loop
        invariant_except_break
            decimal(val as nat) == decimal(rest as nat) + digits@.reverse(),
        ensures
            decimal(val as nat) == digits@.reverse(),
            digits@.len() >= 1,
        decreases rest,
    {
        let digit: u8 = (48 + rest % 10) as u8;
        if rest < 10 {
            proof {
                assert(decimal(rest as nat) == seq![digit]);
                assert(digits@.push(digit).reverse() == seq![digit] + digits@.reverse());
            }
            digits.push(digit);
            break ;
        }
        proof {
            assert(decimal(rest as nat) == decimal((rest / 10) as nat).push(digit));
            assert(digits@.push(digit).reverse() == seq![digit] + digits@.reverse());
            assert(decimal((rest / 10) as nat).push(digit) + digits@.reverse() == decimal(
                (rest / 10) as nat,
            ) + (seq![digit] + digits@.reverse()));
        }
        digits.push(digit);
        rest = rest / 10;
    }
    let mut i: usize = digits.len();
    while i > 0
        invariant
            0 <= i <= digits@.len(),
            out@ == old(out)@ + digits@.reverse().subrange(0, digits@.len() - i),
        decreases i,
    {
        i = i - 1;
        proof {
            let r = digits@.reverse();
            let k = digits@.len() - i - 1;
            assert(r[k] == digits@[i as int]);
            assert(r.subrange(0, k + 1) == r.subrange(0, k).push(r[k]));
        }
        out.push(digits[i]);
    }
    proof {
        let r = digits@.reverse();
        assert(r.subrange(0, r.len() as int) == r);
    }
}

} // verus!

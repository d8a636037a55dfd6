//! Numbers as decimal text.

use crate::field::limbs_value;
use vstd::prelude::*;

verus! {

/// The character of a decimal digit.
pub open spec fn digit(d: nat) -> u8 {
    (48 + d) as u8
}

/// Whether a byte is the character of a decimal digit.
pub open spec fn is_digit(c: u8) -> bool {
    48 <= c <= 57
}

/// The decimal text of a number, without leading zeros.
pub open spec fn digits(n: nat) -> Seq<u8>
    decreases n,
{
    if n < 10 {
        seq![digit(n)]
    } else {
        digits(n / 10).push(digit(n % 10))
    }
}

/// The number that decimal text stands for.
pub open spec fn number(text: Seq<u8>) -> nat
    decreases text.len(),
{
    if text.len() == 0 {
        0
    } else {
        10 * number(text.drop_last()) + (text.last() - 48) as nat
    }
}

/// Whether every byte is a digit.
pub open spec fn all_digits(text: Seq<u8>) -> bool {
    forall|i: int| 0 <= i < text.len() ==> is_digit(#[trigger] text[i])
}

/// Whether the text is the decimal text of a number: digits, at least one,
/// and no leading zero but for zero itself.
pub open spec fn is_number(text: Seq<u8>) -> bool {
    &&& text.len() > 0
    &&& all_digits(text)
    &&& text.len() > 1 ==> text[0] != 48
}

/// The decimal text of a number is well formed and stands for the number.
pub proof fn lemma_digits(n: nat)
    ensures
        is_number(digits(n)),
        number(digits(n)) == n,
        n > 0 ==> digits(n)[0] != 48,
    decreases n,
{
    if n < 10 {
        let text = digits(n);
        assert(text.drop_last() =~= Seq::<u8>::empty());
        assert(number(text.drop_last()) == 0);
    } else {
        lemma_digits(n / 10);
        let head = digits(n / 10);
        let text = digits(n);
        assert(text.drop_last() =~= head);
        assert(text[0] == head[0]);
        assert forall|i: int| 0 <= i < text.len() implies is_digit(#[trigger] text[i]) by {
            if i < head.len() {
                assert(text[i] == head[i]);
            }
        }
    }
}

/// Well-formed decimal text is the decimal text of the number that it stands
/// for.
pub proof fn lemma_number(text: Seq<u8>)
    requires
        is_number(text),
    ensures
        digits(number(text)) == text,
        text.len() > 1 ==> number(text) >= 10,
    decreases text.len(),
{
    let n = number(text);
    let head = text.drop_last();
    let last = (text.last() - 48) as nat;
    assert(is_digit(text[text.len() - 1]));
    if text.len() == 1 {
        assert(number(head) == 0);
        assert(digits(n) =~= text);
    } else {
        assert(is_number(head)) by {
            assert forall|i: int| 0 <= i < head.len() implies is_digit(#[trigger] head[i]) by {
                assert(head[i] == text[i]);
            }
            assert(head[0] == text[0]);
        }
        lemma_number(head);
        lemma_leading(head);
        assert(n / 10 == number(head));
        assert(n % 10 == last);
        assert(digits(n) =~= text);
    }
}

/// Well-formed decimal text that does not start with a zero stands for a
/// positive number.
pub proof fn lemma_leading(text: Seq<u8>)
    requires
        text.len() > 0,
        all_digits(text),
        text[0] != 48,
    ensures
        number(text) > 0,
    decreases text.len(),
{
    if text.len() > 1 {
        let head = text.drop_last();
        assert forall|i: int| 0 <= i < head.len() implies is_digit(#[trigger] head[i]) by {
            assert(head[i] == text[i]);
        }
        assert(head[0] == text[0]);
        lemma_leading(head);
    } else {
        assert(is_digit(text[0]));
        assert(text.last() == text[0]);
    }
}

/// The number of a prefix of digits is at most the number of all of them.
pub proof fn lemma_number_prefix(text: Seq<u8>, k: int)
    requires
        0 <= k <= text.len(),
        all_digits(text),
    ensures
        number(text.take(k)) <= number(text),
    decreases text.len() - k,
{
    if k < text.len() {
        assert(text.take(k + 1).drop_last() =~= text.take(k));
        assert(is_digit(text[k]));
        assert(text.take(k + 1).last() == text[k]);
        lemma_number_prefix(text, k + 1);
    } else {
        assert(text.take(k) =~= text);
    }
}

/// Appends the decimal text of a number.
pub fn write_decimal(out: &mut Vec<u8>, v: u128)
    ensures
        final(out)@ == old(out)@ + digits(v as nat),
{
    write_wide_decimal(out, 0, v);
    proof {
        assert(limbs_value(0, v) == v);
    }
}

/// Two to the power 128 is ten times this number and six.
pub const TENTH: u128 = 34028236692093846346337460743176821145;

/// Divides the number of two limbs by ten. Returns the limbs of the quotient
/// and the remainder.
fn divide_by_ten(high: u128, low: u128) -> (out: (u128, u128, u8))
    ensures
        limbs_value(high, low) == 10 * limbs_value(out.0, out.1) + out.2,
        out.2 < 10,
{
    let upper: u128 = high / 10;
    let carried: u128 = high % 10;
    let lower: u128 = low / 10;
    let left: u128 = low % 10;
    let rest: u128 = 6 * carried + left;
    let quotient: u128 = carried * TENTH + lower + rest / 10;
    (upper, quotient, (rest % 10) as u8)
}

/// Appends the decimal text of the number of two limbs.
pub fn write_wide_decimal(out: &mut Vec<u8>, high: u128, low: u128)
    ensures
        final(out)@ == old(out)@ + digits(limbs_value(high, low) as nat),
{
    let ghost start = out@;
    let ghost v = limbs_value(high, low) as nat;
    let mut reversed: Vec<u8> = Vec::new();
    let mut h: u128 = high;
    let mut l: u128 = low;
    let (qh, ql, d) = divide_by_ten(h, l);
    reversed.push(48 + d);
    h = qh;
    l = ql;
    proof {
        assert(reversed@.reverse() =~= seq![digit(d as nat)]);
        if v >= 10 {
            assert(digits(v) == digits(v / 10).push(digit(v % 10)));
            assert(digits(v / 10).push(digit(v % 10)) =~= digits(v / 10) + seq![digit(v % 10)]);
        }
    }
    while h > 0 || l > 0
        invariant
            reversed@.len() > 0,
            limbs_value(h, l) > 0 ==> digits(v) == digits(limbs_value(h, l) as nat)
                + reversed@.reverse(),
            limbs_value(h, l) == 0 ==> digits(v) == reversed@.reverse(),
        decreases limbs_value(h, l),
    {
        let ghost rest = limbs_value(h, l) as nat;
        let ghost done = reversed@.reverse();
        let (qh, ql, d) = divide_by_ten(h, l);
        reversed.push(48 + d);
        proof {
            assert(reversed@.reverse() =~= seq![digit(d as nat)] + done);
            if rest >= 10 {
                assert(digits(rest) == digits(rest / 10).push(digit(rest % 10)));
                assert(digits(rest / 10).push(digit(rest % 10)) + done =~= digits(rest / 10) + (
                seq![digit(d as nat)] + done));
            } else {
                assert(digits(rest) + done =~= seq![digit(d as nat)] + done);
            }
        }
        h = qh;
        l = ql;
    }
    let n: usize = reversed.len();
    let mut i: usize = 0;
    while i < n
        invariant
            i <= n,
            n == reversed@.len(),
            out@ == start + reversed@.reverse().take(i as int),
        decreases n - i,
    {
        out.push(reversed[n - 1 - i]);
        proof {
            let forward = reversed@.reverse();
            assert(forward.take(i + 1) =~= forward.take(i as int).push(forward[i as int]));
            assert(out@ =~= start + forward.take(i + 1));
        }
        i = i + 1;
    }
    proof {
        assert(reversed@.reverse().take(n as int) =~= reversed@.reverse());
    }
}

/// Multiplies the number of two limbs by ten and adds a digit, if the result
/// fits two limbs.
fn times_ten_plus(high: u128, low: u128, d: u8) -> (out: Option<(u128, u128)>)
    requires
        d < 10,
    ensures
        out is Some <==> 10 * limbs_value(high, low) + d
            < 0x1_0000_0000_0000_0000_0000_0000_0000_0000_0000_0000_0000_0000_0000_0000_0000_0000int,
        out matches Some((h, l)) ==> limbs_value(h, l) == 10 * limbs_value(high, low) + d,
{
    let base: u128 = 0x1_0000_0000_0000_0000;
    let upper: u128 = low / base;
    let lower: u128 = low % base;
    let first: u128 = lower * 10 + d as u128;
    let second: u128 = upper * 10 + first / base;
    let next_low: u128 = (second % base) * base + first % base;
    let carry: u128 = second / base;
    if high > (u128::MAX - carry) / 10 {
        return None;
    }
    Some((high * 10 + carry, next_low))
}

/// Reads the bytes from `start` up to `end` as the decimal text of a number
/// below `2^256`, given by its limbs.
pub(crate) fn parse_wide_decimal(bytes: &Vec<u8>, start: usize, end: usize) -> (out: Option<
    (u128, u128),
>)
    requires
        start <= end <= bytes@.len(),
    ensures
        out is Some <==> is_number(bytes@.subrange(start as int, end as int)) && number(
            bytes@.subrange(start as int, end as int),
        )
            < 0x1_0000_0000_0000_0000_0000_0000_0000_0000_0000_0000_0000_0000_0000_0000_0000_0000int,
        out matches Some((h, l)) ==> limbs_value(h, l) == number(
            bytes@.subrange(start as int, end as int),
        ),
{
    let ghost text = bytes@.subrange(start as int, end as int);
    if start == end {
        return None;
    }
    if end - start > 1 && bytes[start] == 48 {
        assert(text[0] == 48);
        return None;
    }
    let mut high: u128 = 0;
    let mut low: u128 = 0;
    let mut i: usize = start;
    proof {
        assert(text.take(0) =~= Seq::<u8>::empty());
    }
    while i < end
        invariant
            start <= i <= end <= bytes@.len(),
            text == bytes@.subrange(start as int, end as int),
            all_digits(text.take(i - start)),
            limbs_value(high, low) == number(text.take(i - start)),
        decreases end - i,
    {
        let c = bytes[i];
        let ghost k = i - start;
        proof {
            assert(text[k] == c);
            assert(text.take(k + 1).drop_last() =~= text.take(k));
            assert(text.take(k + 1).last() == c);
        }
        if c < 48 || c > 57 {
            assert(!is_digit(text[k]));
            return None;
        }
        proof {
            assert forall|j: int| 0 <= j < k + 1 implies is_digit(
                #[trigger] text.take(k + 1)[j],
            ) by {
                if j < k {
                    assert(text.take(k)[j] == text.take(k + 1)[j]);
                }
            }
        }
        match times_ten_plus(high, low, c - 48) {
            Some((h, l)) => {
                high = h;
                low = l;
            },
            None => {
                proof {
                    if all_digits(text) {
                        lemma_number_prefix(text, k + 1);
                    }
                }
                return None;
            },
        }
        i = i + 1;
    }
    proof {
        assert(text.take(end - start) =~= text);
    }
    Some((high, low))
}

/// Reads the bytes from `start` up to `end` as the decimal text of a number
/// below `2^128`.
pub(crate) fn parse_decimal(bytes: &Vec<u8>, start: usize, end: usize) -> (out: Option<u128>)
    requires
        start <= end <= bytes@.len(),
    ensures
        out is Some <==> is_number(bytes@.subrange(start as int, end as int)) && number(
            bytes@.subrange(start as int, end as int),
        ) <= u128::MAX,
        out matches Some(v) ==> v == number(bytes@.subrange(start as int, end as int)),
{
    match parse_wide_decimal(bytes, start, end) {
        Some((high, low)) => if high == 0 {
            Some(low)
        } else {
            None
        },
        None => None,
    }
}

/// The number of digits that the text starts with.
pub open spec fn leading_digits(text: Seq<u8>) -> int
    decreases text.len(),
{
    if text.len() == 0 || !is_digit(text[0]) {
        0
    } else {
        1 + leading_digits(text.drop_first())
    }
}

/// Where the digits from `start` on end, at `end` at the latest.
pub(crate) fn digit_run_end(text: &Vec<u8>, start: usize, end: usize) -> (stop: usize)
    requires
        start <= end <= text@.len(),
    ensures
        start <= stop <= end,
        stop - start == leading_digits(text@.subrange(start as int, end as int)),
{
    let ghost part = text@.subrange(start as int, end as int);
    let mut i: usize = start;
    assert(part.skip(0) =~= part);
    while i < end
        invariant
            start <= i <= end <= text@.len(),
            part == text@.subrange(start as int, end as int),
            leading_digits(part) == (i - start) + leading_digits(part.skip(i - start)),
        decreases end - i,
    {
        let ghost rest = part.skip(i - start);
        assert(rest[0] == text@[i as int]);
        if text[i] < 48 || text[i] > 57 {
            return i;
        }
        assert(rest.drop_first() =~= part.skip(i - start + 1));
        i = i + 1;
    }
    assert(part.skip(end - start) =~= Seq::<u8>::empty());
    end
}

} // verus!

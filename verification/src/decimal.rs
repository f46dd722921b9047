//! Natural numbers written in decimal, as the store's text format writes
//! lengths and counts: no sign, no leading zero, at least one digit.

use vstd::prelude::*;

verus! {

/// The byte `'0'`.
pub const ZERO: u8 = 48;

/// Whether a byte is one of `'0'` to `'9'`.
pub open spec fn is_digit(b: u8) -> bool {
    48 <= b <= 57
}

/// The digit that stands for `d`, for `d` below ten.
pub open spec fn digit_byte(d: nat) -> u8 {
    (48 + d) as u8
}

/// The decimal representation of `n`.
pub open spec fn decimal(n: nat) -> Seq<u8>
    decreases n,
{
    if n < 10 {
        seq![digit_byte(n)]
    } else {
        decimal(n / 10).push(digit_byte(n % 10))
    }
}

/// The number that a sequence of digits stands for.
pub open spec fn digits_value(digits: Seq<u8>) -> nat
    decreases digits.len(),
{
    if digits.len() == 0 {
        0
    } else {
        10 * digits_value(digits.drop_last()) + (digits.last() - 48) as nat
    }
}

/// All bytes of the sequence are digits.
pub open spec fn all_digits(digits: Seq<u8>) -> bool {
    forall|i: int| 0 <= i < digits.len() ==> is_digit(#[trigger] digits[i])
}

/// A representation consists of digits and starts with `'0'` only for zero.
pub proof fn lemma_decimal_shape(n: nat)
    ensures
        decimal(n).len() >= 1,
        all_digits(decimal(n)),
        decimal(n)[0] == 48 ==> n == 0,
        n == 0 ==> decimal(n) == seq![48u8],
    decreases n,
{
    if n >= 10 {
        lemma_decimal_shape(n / 10);
    }
}

/// The digits of a representation stand for the number represented.
pub proof fn lemma_decimal_value(n: nat)
    ensures
        digits_value(decimal(n)) == n,
    decreases n,
{
    let rep = decimal(n);
    if n < 10 {
        assert(rep.drop_last() =~= Seq::<u8>::empty());
        assert(digits_value(rep.drop_last()) == 0);
        assert(rep.last() == digit_byte(n));
    } else {
        lemma_decimal_value(n / 10);
        assert(rep.drop_last() =~= decimal(n / 10));
        assert(rep.last() == digit_byte(n % 10));
    }
}

/// Two numbers with the same representation are the same number.
pub proof fn lemma_decimal_injective(a: nat, b: nat)
    requires
        decimal(a) == decimal(b),
    ensures
        a == b,
{
    lemma_decimal_value(a);
    lemma_decimal_value(b);
}

/// Digits that do not start with `'0'` stand for a positive number.
proof fn lemma_value_positive(digits: Seq<u8>)
    requires
        digits.len() >= 1,
        all_digits(digits),
        digits[0] != 48,
    ensures
        digits_value(digits) >= 1,
    decreases digits.len(),
{
    if digits.len() > 1 {
        assert(digits.drop_last()[0] == digits[0]);
        lemma_value_positive(digits.drop_last());
    } else {
        assert(digits.drop_last() =~= Seq::<u8>::empty());
        assert(is_digit(digits[0]));
    }
}

/// Digits without a leading zero are the representation of their value.
pub proof fn lemma_value_decimal(digits: Seq<u8>)
    requires
        digits.len() >= 1,
        all_digits(digits),
        digits[0] == 48 ==> digits.len() == 1,
    ensures
        decimal(digits_value(digits)) == digits,
    decreases digits.len(),
{
    let head = digits.drop_last();
    let last = digits.last();
    assert(is_digit(last));
    if digits.len() == 1 {
        assert(head =~= Seq::<u8>::empty());
        assert(digits_value(head) == 0);
        assert(digits =~= seq![last]);
        assert(digit_byte((last - 48) as nat) == last);
    } else {
        assert(head[0] == digits[0]);
        assert(all_digits(head)) by {
            assert forall|i: int| 0 <= i < head.len() implies is_digit(#[trigger] head[i]) by {
                assert(head[i] == digits[i]);
            }
        }
        lemma_value_positive(head);
        lemma_value_decimal(head);
        let v = digits_value(head);
        let d = (last - 48) as nat;
        assert((10 * v + d) / 10 == v);
        assert((10 * v + d) % 10 == d);
        assert(digit_byte(d) == last);
        assert(digits =~= head.push(last));
    }
}

/// More digits do not make the value smaller.
pub proof fn lemma_value_grows(digits: Seq<u8>, more: Seq<u8>)
    requires
        all_digits(more),
    ensures
        digits_value(digits + more) >= digits_value(digits),
    decreases more.len(),
{
    if more.len() == 0 {
        assert(digits + more =~= digits);
    } else {
        let all = digits + more;
        assert(all.drop_last() =~= digits + more.drop_last());
        assert(is_digit(more.last()));
        assert(all.last() == more.last());
        assert(all_digits(more.drop_last())) by {
            assert forall|i: int| 0 <= i < more.drop_last().len() implies is_digit(
                #[trigger] more.drop_last()[i],
            ) by {
                assert(more.drop_last()[i] == more[i]);
            }
        }
        lemma_value_grows(digits, more.drop_last());
    }
}

/// Where `s` starts with the representation of `n` and a byte `t` that is
/// no digit, the digits at the start of `s` are that representation.
pub proof fn lemma_number_extent(s: Seq<u8>, n: nat, t: u8, k: int)
    requires
        !is_digit(t),
        decimal(n).push(t).is_prefix_of(s),
        0 <= k <= s.len(),
        forall|j: int| 0 <= j < k ==> is_digit(#[trigger] s[j]),
    ensures
        k <= decimal(n).len(),
        k < s.len(),
        !is_digit(s[k]) ==> k == decimal(n).len() && s[k] == t && s.take(k) == decimal(n),
{
    lemma_decimal_shape(n);
    let token = decimal(n).push(t);
    let m = decimal(n).len() as int;
    assert(s[m] == token[m]);
    assert(s[m] == t);
    if k < m {
        assert(s[k] == token[k]);
        assert(is_digit(decimal(n)[k]));
    }
    if k == m {
        assert(s.take(k) =~= decimal(n)) by {
            assert forall|j: int| 0 <= j < k implies s.take(k)[j] == decimal(n)[j] by {
                assert(s[j] == token[j]);
            }
        }
    }
}

/// Appends the decimal representation of `n`.
pub(crate) fn push_decimal(out: &mut Vec<u8>, n: usize)
    ensures
        final(out)@ == old(out)@ + decimal(n as nat),
    decreases n,
{
    if n >= 10 {
        push_decimal(out, n / 10);
    }
    let digit: u8 = (n % 10) as u8;
    let ghost before = out@;
    out.push(ZERO + digit);
    proof {
        if n >= 10 {
            assert(out@ =~= old(out)@ + decimal(n as nat));
        } else {
            assert(out@ =~= old(out)@ + decimal(n as nat));
        }
    }
}

/// Reads at `pos` a number in decimal followed by the byte `terminator`.
/// Returns the number and the position after the terminator.
pub(crate) fn read_number(bytes: &[u8], pos: usize, terminator: u8) -> (r: Option<(usize, usize)>)
    requires
        pos <= bytes.len(),
        !is_digit(terminator),
    ensures
        match r {
            Some((n, next)) => pos < next <= bytes.len() && bytes@.subrange(pos as int, next as int)
                == decimal(n as nat).push(terminator),
            None => forall|n: nat|
                n <= usize::MAX ==> !(#[trigger] decimal(n)).push(terminator).is_prefix_of(
                    bytes@.skip(pos as int),
                ),
        },
{
    let len = bytes.len();
    let ghost s = bytes@.skip(pos as int);
    let mut i: usize = pos;
    let mut value: usize = 0;
    while i < len && ZERO <= bytes[i] && bytes[i] <= 57
        invariant
            pos <= i <= len,
            len == bytes.len(),
            !is_digit(terminator),
            s == bytes@.skip(pos as int),
            forall|j: int| 0 <= j < i - pos ==> is_digit(#[trigger] s[j]),
            value == digits_value(s.take(i - pos)),
            i > pos && s[0] == 48 ==> i == pos + 1,
        decreases len - i,
    {
        let digit: usize = (bytes[i] - ZERO) as usize;
        proof {
            assert(s[i - pos] == bytes@[i as int]);
            assert(s.take(i - pos + 1).drop_last() =~= s.take(i - pos));
        }
        if i > pos && bytes[pos] == ZERO {
            proof {
                assert(s[0] == bytes@[pos as int]);
                assert forall|n: nat| n <= usize::MAX implies !(#[trigger] decimal(n)).push(
                    terminator,
                ).is_prefix_of(s) by {
                    if decimal(n).push(terminator).is_prefix_of(s) {
                        lemma_decimal_shape(n);
                        let token = decimal(n).push(terminator);
                        assert(s[0] == token[0]);
                        assert(s[1] == token[1]);
                    }
                }
            }
            return None;
        }
        if value > (usize::MAX - digit) / 10 {
            proof {
                assert forall|n: nat| n <= usize::MAX implies !(#[trigger] decimal(n)).push(
                    terminator,
                ).is_prefix_of(s) by {
                    if decimal(n).push(terminator).is_prefix_of(s) {
                        let k = i - pos + 1;
                        lemma_number_extent(s, n, terminator, k);
                        lemma_decimal_shape(n);
                        lemma_decimal_value(n);
                        let rep = decimal(n);
                        let token = rep.push(terminator);
                        assert(rep.take(k) =~= s.take(k)) by {
                            assert forall|j: int| 0 <= j < k implies rep.take(k)[j] == s.take(
                                k,
                            )[j] by {
                                assert(s[j] == token[j]);
                            }
                        }
                        assert(rep =~= rep.take(k) + rep.skip(k));
                        assert(all_digits(rep.skip(k))) by {
                            assert forall|j: int| 0 <= j < rep.skip(k).len() implies is_digit(
                                #[trigger] rep.skip(k)[j],
                            ) by {
                                assert(rep.skip(k)[j] == rep[j + k]);
                            }
                        }
                        lemma_value_grows(rep.take(k), rep.skip(k));
                    }
                }
            }
            return None;
        }
        value = value * 10 + digit;
        i += 1;
    }
    if i == pos || i >= len || bytes[i] != terminator {
        proof {
            assert forall|n: nat| n <= usize::MAX implies !(#[trigger] decimal(n)).push(
                terminator,
            ).is_prefix_of(s) by {
                if decimal(n).push(terminator).is_prefix_of(s) {
                    lemma_decimal_shape(n);
                    lemma_number_extent(s, n, terminator, i - pos);
                    assert(s[i - pos] == bytes@[i as int]);
                }
            }
        }
        return None;
    }
    proof {
        let digits = s.take(i - pos);
        assert(all_digits(digits));
        lemma_value_decimal(digits);
        assert(bytes@.subrange(pos as int, i + 1) =~= digits.push(terminator));
    }
    Some((value, i + 1))
}

} // verus!

use vstd::prelude::*;

verus! {


/// The ASCII decimal numeral of `n`, without leading zeros.
pub open spec fn decimal(n: nat) -> Seq<u8>
    decreases n,
{
    if n < 10 {
        seq![(n + 48) as u8]
    } else {
        decimal(n / 10).push((n % 10 + 48) as u8)
    }
}

pub open spec fn is_digit(b: u8) -> bool {
    48 <= b <= 57
}

pub open spec fn all_digits(s: Seq<u8>) -> bool {
    forall|i: int| 0 <= i < s.len() ==> is_digit(#[trigger] s[i])
}

/// The number that a string of ASCII digits denotes (leading zeros allowed).
pub open spec fn digits_value(s: Seq<u8>) -> nat
    decreases s.len(),
{
    if s.len() == 0 {
        0
    } else {
        digits_value(s.drop_last()) * 10 + (s.last() - 48) as nat
    }
}

pub proof fn lemma_decimal_digits(n: nat)
    ensures
        all_digits(decimal(n)),
        decimal(n).len() >= 1,
        digits_value(decimal(n)) == n,
    decreases n,
{
    if n >= 10 {
        lemma_decimal_digits(n / 10);
        let d = decimal(n / 10);
        assert(decimal(n).drop_last() =~= d);
        assert(((n % 10 + 48) as u8 - 48) as nat == n % 10);
        assert((n / 10) * 10 + n % 10 == n);
        assert(decimal(n).last() == (n % 10 + 48) as u8);
        assert(digits_value(decimal(n)) == digits_value(d) * 10 + (decimal(n).last() - 48) as nat);
    } else {
        assert(decimal(n).drop_last() =~= Seq::<u8>::empty());
        assert(digits_value(decimal(n)) == digits_value(Seq::<u8>::empty()) * 10 + (decimal(n).last() - 48) as nat);
    }
}

/// Appends the ASCII decimal numeral of `n`.
pub fn push_decimal(n: u64, buf: &mut Vec<u8>)
    ensures
        final(buf)@ == old(buf)@ + decimal(n as nat),
    decreases n,
{
    if n >= 10 {
        push_decimal(n / 10, buf);
    }
    buf.push((n % 10) as u8 + 48);
    proof {
        if n >= 10 {
            assert(decimal(n as nat) == decimal((n / 10) as nat).push((n % 10 + 48) as u8));
        }
        assert(final(buf)@ =~= old(buf)@ + decimal(n as nat));
    }
}

pub fn push_bytes(bytes: &[u8], buf: &mut Vec<u8>)
    ensures
        final(buf)@ == old(buf)@ + bytes@,
{
    let mut i: usize = 0;
    while i < bytes.len()
        invariant
            i <= bytes@.len(),
            buf@ == old(buf)@ + bytes@.take(i as int),
        decreases bytes@.len() - i,
    {
        buf.push(bytes[i]);
        i = i + 1;
        assert(buf@ =~= old(buf)@ + bytes@.take(i as int));
    }
    assert(bytes@.take(i as int) =~= bytes@);
}

/// A copy of a byte slice.
pub fn copy_bytes(bytes: &[u8]) -> (v: Vec<u8>)
    ensures
        v@ == bytes@,
{
    let mut v = Vec::new();
    push_bytes(bytes, &mut v);
    assert(v@ =~= bytes@);
    v
}

/// Length of the run of ASCII digits at the start of `data`.
pub open spec fn digit_run(data: Seq<u8>) -> nat
    decreases data.len(),
{
    if data.len() == 0 || !is_digit(data[0]) {
        0
    } else {
        1 + digit_run(data.skip(1))
    }
}

pub proof fn lemma_digit_run(data: Seq<u8>, k: int)
    requires
        0 <= k <= data.len(),
        all_digits(data.take(k)),
        k == data.len() || !is_digit(data[k]),
    ensures
        digit_run(data) == k,
    decreases k,
{
    if k > 0 {
        assert(is_digit(data.take(k)[0]));
        assert(all_digits(data.skip(1).take(k - 1))) by {
            assert forall|i: int| 0 <= i < k - 1 implies is_digit(#[trigger] data.skip(1).take(k - 1)[i]) by {
                assert(data.skip(1).take(k - 1)[i] == data.take(k)[i + 1]);
            }
        }
        lemma_digit_run(data.skip(1), k - 1);
    }
}

pub proof fn lemma_digits_value_monotone(s: Seq<u8>, i: int)
    requires
        0 <= i <= s.len(),
        all_digits(s),
    ensures
        digits_value(s.take(i)) <= digits_value(s),
    decreases s.len() - i,
{
    if i < s.len() {
        lemma_digits_value_monotone(s, i + 1);
        assert(s.take(i + 1).drop_last() =~= s.take(i));
        assert(is_digit(s[i]));
    } else {
        assert(s.take(i) =~= s);
    }
}

/// One or more ASCII digits whose value is at most `limit`.
pub open spec fn digits_within(d: Seq<u8>, limit: nat) -> Option<nat> {
    if d.len() > 0 && all_digits(d) && digits_value(d) <= limit {
        Some(digits_value(d))
    } else {
        None
    }
}

/// The digits of an unsigned numeral: a leading `+` is dropped.
pub open spec fn unsigned_digits(s: Seq<u8>) -> Seq<u8> {
    if s.len() > 0 && s[0] == 43u8 {
        s.skip(1)
    } else {
        s
    }
}

/// The value of one or more ASCII digits, when it is at most `limit`.
pub fn digits_upto(d: &[u8], limit: u64) -> (r: Option<u64>)
    ensures
        match r {
            Some(v) => digits_within(d@, limit as nat) == Some(v as nat),
            None => digits_within(d@, limit as nat) is None,
        },
{
    if d.len() == 0 {
        return None;
    }
    let mut acc: u64 = 0;
    let mut i: usize = 0;
    while i < d.len()
        invariant
            i <= d@.len(),
            all_digits(d@.take(i as int)),
            acc as nat == digits_value(d@.take(i as int)),
            acc <= limit,
        decreases d@.len() - i,
    {
        let b = d[i];
        if b < 48u8 || b > 57u8 {
            proof {
                assert(!is_digit(d@[i as int]));
            }
            return None;
        }
        let digit = (b - 48u8) as u64;
        assert(d@.take(i + 1).drop_last() =~= d@.take(i as int));
        assert(digits_value(d@.take(i + 1)) == acc * 10 + digit);
        if digit > limit || acc > (limit - digit) / 10 {
            proof {
                assert(acc * 10 + digit > limit) by (nonlinear_arith)
                    requires
                        digit > limit || acc > (limit - digit) / 10,
                        digit <= 9,
                ;
                assert(all_digits(d@.take(i + 1))) by {
                    assert forall|j: int| 0 <= j < i + 1 implies is_digit(#[trigger] d@.take(i + 1)[j]) by {
                        if j < i {
                            assert(d@.take(i + 1)[j] == d@.take(i as int)[j]);
                        }
                    }
                }
                if all_digits(d@) {
                    crate::bytes::lemma_digits_value_monotone(d@, i + 1);
                    assert(d@.take(d@.len() as int) =~= d@);
                }
            }
            return None;
        }
        proof {
            assert(acc * 10 + digit <= limit) by (nonlinear_arith)
                requires
                    acc <= (limit - digit) / 10,
                    digit <= 9,
                    digit <= limit,
            ;
            assert(all_digits(d@.take(i + 1))) by {
                assert forall|j: int| 0 <= j < i + 1 implies is_digit(#[trigger] d@.take(i + 1)[j]) by {
                    if j < i {
                        assert(d@.take(i + 1)[j] == d@.take(i as int)[j]);
                    }
                }
            }
        }
        acc = acc * 10 + digit;
        i = i + 1;
    }
    assert(d@.take(i as int) =~= d@);
    Some(acc)
}

} // verus!

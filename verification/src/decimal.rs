//! ASCII decimal numbers: the payload length of a frame and the mode of a
//! tree leaf.

use vstd::prelude::*;

verus! {

/// True for the ASCII digits `0` to `9`.
pub open spec fn is_digit(b: u8) -> bool {
    0x30 <= b <= 0x39
}

/// True when every byte of `s` is an ASCII digit.
pub open spec fn all_digits(s: Seq<u8>) -> bool {
    forall|i: int| 0 <= i < s.len() ==> is_digit(#[trigger] s[i])
}

/// The ASCII digit for `d`, which is below ten.
pub open spec fn digit_of(d: nat) -> u8 {
    (0x30 + d) as u8
}

/// The number that a string of digits denotes, most significant digit first.
pub open spec fn decimal_value(s: Seq<u8>) -> nat
    decreases s.len(),
{
    if s.len() == 0 {
        0
    } else {
        decimal_value(s.drop_last()) * 10 + (s.last() - 0x30) as nat
    }
}

/// The shortest decimal form of `n`: no leading zero, `0` itself as one digit.
pub open spec fn decimal(n: nat) -> Seq<u8>
    decreases n,
{
    if n < 10 {
        seq![digit_of(n)]
    } else {
        decimal(n / 10).push(digit_of(n % 10))
    }
}

/// `n` written with exactly `width` digits, padded with zeros on the left;
/// digits beyond `width` are dropped.
pub open spec fn padded_decimal(n: nat, width: nat) -> Seq<u8>
    decreases width,
{
    if width == 0 {
        Seq::empty()
    } else {
        padded_decimal(n / 10, (width - 1) as nat).push(digit_of(n % 10))
    }
}

/// Ten to the power `e`.
pub open spec fn pow10(e: nat) -> nat
    decreases e,
{
    if e == 0 {
        1
    } else {
        10 * pow10((e - 1) as nat)
    }
}

/// The shortest decimal form is made of digits and reads back as the number.
pub proof fn lemma_decimal(n: nat)
    ensures
        decimal(n).len() >= 1,
        all_digits(decimal(n)),
        decimal_value(decimal(n)) == n,
    decreases n,
{
    if n < 10 {
        assert(decimal(n).drop_last() =~= Seq::<u8>::empty());
        assert(decimal_value(Seq::<u8>::empty()) == 0);
        assert(decimal(n).last() == digit_of(n));
    } else {
        lemma_decimal(n / 10);
        assert(decimal(n).drop_last() =~= decimal(n / 10));
        assert(decimal(n).last() == digit_of(n % 10));
    }
}

/// A number below ten to the `width` has `width` digits at most.
pub proof fn lemma_decimal_len(n: nat, width: nat)
    requires
        width >= 1,
        n < pow10(width),
    ensures
        decimal(n).len() <= width,
    decreases n,
{
    if n >= 10 {
        assert(width >= 2) by {
            reveal_with_fuel(pow10, 2);
        }
        assert(n / 10 < pow10((width - 1) as nat));
        lemma_decimal_len(n / 10, (width - 1) as nat);
    }
}

/// The padded form has `width` digits and reads back as the number when the
/// number fits.
pub proof fn lemma_padded_decimal(n: nat, width: nat)
    ensures
        padded_decimal(n, width).len() == width,
        all_digits(padded_decimal(n, width)),
        n < pow10(width) ==> decimal_value(padded_decimal(n, width)) == n,
    decreases width,
{
    if width > 0 {
        lemma_padded_decimal(n / 10, (width - 1) as nat);
        assert(padded_decimal(n, width).drop_last() =~= padded_decimal(
            n / 10,
            (width - 1) as nat,
        ));
        if n < pow10(width) {
            assert(n / 10 < pow10((width - 1) as nat));
        }
    }
}

/// A string of `width` digits denotes a number below ten to the `width`.
pub proof fn lemma_decimal_value_bound(s: Seq<u8>)
    requires
        all_digits(s),
    ensures
        decimal_value(s) < pow10(s.len()),
    decreases s.len(),
{
    if s.len() > 0 {
        lemma_decimal_value_bound(s.drop_last());
        assert(is_digit(s.last()));
    }
}

/// Appends the shortest decimal form of `n` to `out`.
pub fn write_decimal(out: &mut Vec<u8>, n: usize)
    ensures
        final(out)@ == old(out)@ + decimal(n as nat),
    decreases n,
{
    if n >= 10 {
        write_decimal(out, n / 10);
    }
    let d: u8 = (n % 10) as u8;
    out.push(0x30 + d);
    assert(out@ =~= old(out)@ + decimal(n as nat));
}

/// Appends `n` to `out` as exactly `width` digits.
pub fn write_padded_decimal(out: &mut Vec<u8>, n: u32, width: usize)
    ensures
        final(out)@ == old(out)@ + padded_decimal(n as nat, width as nat),
    decreases width,
{
    if width > 0 {
        write_padded_decimal(out, n / 10, width - 1);
        let d: u8 = (n % 10) as u8;
        out.push(0x30 + d);
    }
    assert(out@ =~= old(out)@ + padded_decimal(n as nat, width as nat));
}

/// Reads `s[from..to]` as a decimal number. `None` when the range is empty,
/// holds a byte that is no digit, or denotes a number that `usize` cannot
/// hold.
pub fn parse_decimal(s: &[u8], from: usize, to: usize) -> (r: Option<usize>)
    requires
        from <= to <= s@.len(),
    ensures
        r is Some <==> {
            &&& from < to
            &&& all_digits(s@.subrange(from as int, to as int))
            &&& decimal_value(s@.subrange(from as int, to as int)) <= usize::MAX
        },
        r matches Some(v) ==> v == decimal_value(s@.subrange(from as int, to as int)),
{
    if from == to {
        return None;
    }
    let ghost field = s@.subrange(from as int, to as int);
    let mut value: usize = 0;
    let mut i: usize = from;
    while i < to
        invariant
            from <= i <= to <= s@.len(),
            field == s@.subrange(from as int, to as int),
            all_digits(field.subrange(0, i - from)),
            value == decimal_value(field.subrange(0, i - from)),
        decreases to - i,
    {
        let b = s[i];
        let ghost seen = field.subrange(0, i - from);
        let ghost next = field.subrange(0, i + 1 - from);
        proof {
            assert(next.drop_last() =~= seen);
            assert(next.last() == b);
        }
        if b < 0x30 || b > 0x39 {
            proof {
                assert(field[i - from] == b);
                assert(!is_digit(field[i - from]));
            }
            return None;
        }
        let d: usize = (b - 0x30) as usize;
        if value > (usize::MAX - d) / 10 {
            proof {
                assert(decimal_value(next) > usize::MAX);
                lemma_decimal_value_grows(field, i + 1 - from);
            }
            return None;
        }
        value = value * 10 + d;
        i += 1;
        proof {
            assert forall|j: int| 0 <= j < next.len() implies is_digit(#[trigger] next[j]) by {
                if j < seen.len() {
                    assert(seen[j] == next[j]);
                }
            }
        }
    }
    assert(field.subrange(0, to - from) =~= field);
    Some(value)
}

/// True when `s[from..to]` holds digits alone.
pub fn digits_only(s: &[u8], from: usize, to: usize) -> (r: bool)
    requires
        from <= to <= s@.len(),
    ensures
        r == all_digits(s@.subrange(from as int, to as int)),
{
    let ghost field = s@.subrange(from as int, to as int);
    let mut i: usize = from;
    while i < to
        invariant
            from <= i <= to <= s@.len(),
            field == s@.subrange(from as int, to as int),
            forall|j: int| 0 <= j < i - from ==> is_digit(#[trigger] field[j]),
        decreases to - i,
    {
        if s[i] < 0x30 || s[i] > 0x39 {
            assert(!is_digit(field[i - from]));
            return false;
        }
        i += 1;
    }
    true
}

/// The value of a prefix of a digit string is at most the value of the whole.
proof fn lemma_decimal_value_grows(s: Seq<u8>, k: int)
    requires
        0 <= k <= s.len(),
    ensures
        decimal_value(s.subrange(0, k)) <= decimal_value(s) || !all_digits(s),
    decreases s.len() - k,
{
    if k == s.len() {
        assert(s.subrange(0, k) =~= s);
    } else if all_digits(s) {
        let init = s.drop_last();
        assert(init.subrange(0, k) =~= s.subrange(0, k));
        assert forall|j: int| 0 <= j < init.len() implies is_digit(#[trigger] init[j]) by {
            assert(init[j] == s[j]);
        }
        lemma_decimal_value_grows(init, k);
        assert(is_digit(s.last()));
    }
}

} // verus!

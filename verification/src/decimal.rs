//! Decimal numerals: formatting (`{}`, `{:03}`) and parsing (`str::parse::<usize>`).
use vstd::prelude::*;
use crate::text::ascii_digit;

verus! {

/// The ASCII digit for `d < 10`.
pub open spec fn digit_char(d: nat) -> char {
    if d == 0 {
        '0'
    } else if d == 1 {
        '1'
    } else if d == 2 {
        '2'
    } else if d == 3 {
        '3'
    } else if d == 4 {
        '4'
    } else if d == 5 {
        '5'
    } else if d == 6 {
        '6'
    } else if d == 7 {
        '7'
    } else if d == 8 {
        '8'
    } else {
        '9'
    }
}

/// The value of an ASCII digit.
pub open spec fn digit_value(c: char) -> nat {
    (c as u32 - '0' as u32) as nat
}

/// The decimal numeral of `n`, without leading zeros (`format!("{}", n)`).
pub open spec fn decimal(n: nat) -> Seq<char>
    decreases n,
{
    if n < 10 {
        seq![digit_char(n)]
    } else {
        decimal(n / 10).push(digit_char(n % 10))
    }
}

/// `n` zero-padded to at least three digits (`format!("{:03}", n)`).
pub open spec fn decimal3(n: nat) -> Seq<char> {
    let d = decimal(n);
    if d.len() < 3 {
        Seq::new((3 - d.len()) as nat, |i: int| '0') + d
    } else {
        d
    }
}

/// The value of a sequence of ASCII digits.
pub open spec fn digits_value(s: Seq<char>) -> nat
    decreases s.len(),
{
    if s.len() == 0 {
        0
    } else {
        digits_value(s.drop_last()) * 10 + digit_value(s.last())
    }
}

pub open spec fn all_digits(s: Seq<char>) -> bool {
    forall|i: int| 0 <= i < s.len() ==> ascii_digit(#[trigger] s[i])
}

/// What `str::parse::<usize>` gives: an optional `+`, then one or more ASCII
/// digits whose value fits in `usize`.
pub open spec fn parse_usize(s: Seq<char>) -> Option<usize> {
    let d = if s.len() > 0 && s[0] == '+' {
        s.drop_first()
    } else {
        s
    };
    if d.len() > 0 && all_digits(d) && digits_value(d) <= usize::MAX {
        Some(digits_value(d) as usize)
    } else {
        None
    }
}

fn digit_of(d: usize) -> (c: char)
    requires
        d < 10,
    ensures
        c == digit_char(d as nat),
{
    if d == 0 {
        '0'
    } else if d == 1 {
        '1'
    } else if d == 2 {
        '2'
    } else if d == 3 {
        '3'
    } else if d == 4 {
        '4'
    } else if d == 5 {
        '5'
    } else if d == 6 {
        '6'
    } else if d == 7 {
        '7'
    } else if d == 8 {
        '8'
    } else {
        '9'
    }
}

fn push_decimal(n: usize, out: &mut Vec<char>)
    ensures
        final(out)@ == old(out)@ + decimal(n as nat),
    decreases n,
{
    if n >= 10 {
        push_decimal(n / 10, out);
    }
    let c = digit_of(n % 10);
    out.push(c);
    assert(old(out)@ + decimal(n as nat) =~= (if n >= 10 {
        old(out)@ + decimal((n / 10) as nat)
    } else {
        old(out)@
    }).push(c));
}

/// The decimal numeral of `n`.
pub fn decimal_of(n: usize) -> (r: Vec<char>)
    ensures
        r@ == decimal(n as nat),
{
    let mut out: Vec<char> = Vec::new();
    push_decimal(n, &mut out);
    assert(out@ =~= decimal(n as nat));
    out
}

/// A decimal numeral has one digit below ten and more from ten on.
pub proof fn lemma_decimal_len(n: nat)
    ensures
        decimal(n).len() >= 1,
        n < 10 ==> decimal(n).len() == 1,
        n >= 10 ==> decimal(n).len() >= 2,
    decreases n,
{
    if n >= 10 {
        lemma_decimal_len(n / 10);
    }
}

/// `n` zero-padded to three digits.
pub fn decimal3_of(n: usize) -> (r: Vec<char>)
    ensures
        r@ == decimal3(n as nat),
{
    let d = decimal_of(n);
    if d.len() < 3 {
        let mut r: Vec<char> = Vec::new();
        let pad = 3 - d.len();
        for i in 0..pad
            invariant
                pad == 3 - d.len(),
                r@ == Seq::new(i as nat, |j: int| '0'),
        {
            r.push('0');
            assert(r@ =~= Seq::new((i + 1) as nat, |j: int| '0'));
        }
        let mut k: usize = 0;
        while k < d.len()
            invariant
                k <= d.len(),
                pad == 3 - d.len(),
                r@ == Seq::new(pad as nat, |j: int| '0') + d@.take(k as int),
            decreases d.len() - k,
        {
            r.push(d[k]);
            assert(Seq::new(pad as nat, |j: int| '0') + d@.take(k + 1) =~= (Seq::new(
                pad as nat,
                |j: int| '0',
            ) + d@.take(k as int)).push(d@[k as int]));
            k += 1;
        }
        assert(d@.take(d.len() as int) =~= d@);
        r
    } else {
        d
    }
}

proof fn lemma_digits_value_monotone(s: Seq<char>, i: int)
    requires
        0 <= i <= s.len(),
    ensures
        digits_value(s.take(i)) <= digits_value(s),
    decreases s.len() - i,
{
    if i < s.len() {
        lemma_digits_value_monotone(s, i + 1);
        assert(s.take(i + 1).drop_last() =~= s.take(i));
    } else {
        assert(s.take(i) =~= s);
    }
}

/// `str::parse::<usize>` on a character sequence.
pub fn parse_usize_of(s: &Vec<char>) -> (r: Option<usize>)
    ensures
        r == parse_usize(s@),
{
    let start: usize = if s.len() > 0 && s[0] == '+' {
        1
    } else {
        0
    };
    let ghost d = if s@.len() > 0 && s@[0] == '+' {
        s@.drop_first()
    } else {
        s@
    };
    assert(d =~= s@.skip(start as int));
    if start >= s.len() {
        return None;
    }
    let mut acc: usize = 0;
    let mut i = start;
    while i < s.len()
        invariant
            start <= i <= s.len(),
            start < s.len(),
            d == s@.skip(start as int),
            d == (if s@.len() > 0 && s@[0] == '+' {
                s@.drop_first()
            } else {
                s@
            }),
            acc == digits_value(d.take(i - start)),
            forall|j: int| 0 <= j < i - start ==> ascii_digit(#[trigger] d[j]),
        decreases s.len() - i,
    {
        let c = s[i];
        if !('0' <= c && c <= '9') {
            assert(!ascii_digit(d[i - start]));
            return None;
        }
        let v = (c as u32 - '0' as u32) as usize;
        proof {
            assert(d.take(i - start + 1).drop_last() =~= d.take(i - start));
            assert(d.take(i - start + 1).last() == c);
            lemma_digits_value_monotone(d, i - start + 1);
        }
        match acc.checked_mul(10) {
            None => {
                return None;
            },
            Some(m) => match m.checked_add(v) {
                None => {
                    return None;
                },
                Some(a) => {
                    acc = a;
                },
            },
        }
        i += 1;
    }
    assert(d.take(i - start) =~= d);
    Some(acc)
}

proof fn lemma_digit_round_trip(d: nat)
    requires
        d < 10,
    ensures
        ascii_digit(digit_char(d)),
        digit_value(digit_char(d)) == d,
{
}

proof fn lemma_digits_value_push(s: Seq<char>, c: char)
    ensures
        digits_value(s.push(c)) == digits_value(s) * 10 + digit_value(c),
{
    assert(s.push(c).drop_last() =~= s);
}

/// A decimal numeral is all digits, and its value is the number it was made
/// from.
pub proof fn lemma_decimal_value(n: nat)
    ensures
        all_digits(decimal(n)),
        digits_value(decimal(n)) == n,
    decreases n,
{
    if n < 10 {
        lemma_digit_round_trip(n);
        assert(seq![digit_char(n)] =~= Seq::<char>::empty().push(digit_char(n)));
        lemma_digits_value_push(Seq::<char>::empty(), digit_char(n));
    } else {
        lemma_decimal_value(n / 10);
        lemma_digit_round_trip(n % 10);
        lemma_digits_value_push(decimal(n / 10), digit_char(n % 10));
        assert((n / 10) * 10 + n % 10 == n) by (nonlinear_arith);
        let d = decimal(n);
        assert forall|i: int| 0 <= i < d.len() implies ascii_digit(#[trigger] d[i]) by {
            if i < d.len() - 1 {
                assert(d[i] == decimal(n / 10)[i]);
            }
        }
    }
}

proof fn lemma_zeros_value(k: nat)
    ensures
        digits_value(Seq::new(k, |i: int| '0')) == 0,
    decreases k,
{
    if k > 0 {
        lemma_zeros_value((k - 1) as nat);
        assert(Seq::new(k, |i: int| '0').drop_last() =~= Seq::new((k - 1) as nat, |i: int| '0'));
    }
}

proof fn lemma_leading_zeros_value(k: nat, d: Seq<char>)
    ensures
        digits_value(Seq::new(k, |i: int| '0') + d) == digits_value(d),
    decreases d.len(),
{
    let z = Seq::new(k, |i: int| '0');
    if d.len() == 0 {
        assert(z + d =~= z);
        lemma_zeros_value(k);
    } else {
        lemma_leading_zeros_value(k, d.drop_last());
        assert((z + d).drop_last() =~= z + d.drop_last());
        assert((z + d).last() == d.last());
    }
}

/// A zero-padded numeral is all digits, at least three of them, and its
/// value is the number it was made from.
pub proof fn lemma_decimal3_value(n: nat)
    ensures
        all_digits(decimal3(n)),
        digits_value(decimal3(n)) == n,
        decimal3(n).len() >= 3,
{
    lemma_decimal_value(n);
    lemma_decimal_len(n);
    let d = decimal(n);
    if d.len() < 3 {
        let k = (3 - d.len()) as nat;
        lemma_leading_zeros_value(k, d);
        let r = decimal3(n);
        assert forall|i: int| 0 <= i < r.len() implies ascii_digit(#[trigger] r[i]) by {
            if i >= k {
                assert(r[i] == d[i - k]);
            }
        }
    }
}

/// Reading a zero-padded numeral back gives the number.
pub proof fn lemma_parse_decimal3(n: nat)
    requires
        n <= usize::MAX,
    ensures
        parse_usize(decimal3(n)) == Some(n as usize),
{
    lemma_decimal3_value(n);
    let d = decimal3(n);
    assert(ascii_digit(d[0]));
}

} // verus!

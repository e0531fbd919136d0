//! Numbers written in decimal digits.

use vstd::prelude::*;

verus! {

/// A byte that is a decimal digit.
pub open spec fn is_digit(b: u8) -> bool {
    0x30 <= b <= 0x39
}

/// The decimal digits of `n`, without leading zeros.
pub open spec fn digits_of(n: nat) -> Seq<u8>
    decreases n,
{
    if n < 10 {
        seq![(0x30 + n) as u8]
    } else {
        digits_of(n / 10).push((0x30 + n % 10) as u8)
    }
}

/// The number that decimal digits stand for.
pub open spec fn digits_value(s: Seq<u8>) -> nat
    decreases s.len(),
{
    if s.len() == 0 {
        0
    } else {
        digits_value(s.drop_last()) * 10 + (s.last() - 0x30) as nat
    }
}

/// The digits of a number stand for it.
pub proof fn lemma_digits_round_trip(n: nat)
    ensures
        digits_value(digits_of(n)) == n,
        digits_of(n).len() > 0,
        forall|i: int| 0 <= i < digits_of(n).len() ==> is_digit(#[trigger] digits_of(n)[i]),
    decreases n,
{
    reveal_with_fuel(digits_value, 2);
    if n < 10 {
        assert(digits_of(n).drop_last() =~= Seq::<u8>::empty());
    } else {
        lemma_digits_round_trip(n / 10);
        assert(digits_of(n).drop_last() =~= digits_of(n / 10));
    }
}

/// A number below a power of ten has no more digits than that power allows.
pub proof fn lemma_digits_len(n: nat)
    ensures
        n < 10 ==> digits_of(n).len() == 1,
        n <= u64::MAX ==> digits_of(n).len() <= 20,
{
    if n <= u64::MAX {
        reveal_with_fuel(digits_of, 21);
        assert(digits_of(n).len() <= 20) by {
            lemma_len_step(n, 20);
        }
    }
}

pub open spec fn pow10(k: nat) -> nat
    decreases k,
{
    if k == 0 {
        1
    } else {
        10 * pow10((k - 1) as nat)
    }
}

proof fn lemma_len_step(n: nat, k: nat)
    requires
        k >= 1,
        n <= u64::MAX,
        k >= 20 || n < pow10(k),
    ensures
        digits_of(n).len() <= k,
    decreases k,
{
    if k >= 20 {
        reveal_with_fuel(pow10, 21);
        if k > 20 {
            lemma_len_step(n, 20);
        } else if n >= 10 {
            assert(n / 10 < pow10(19));
            lemma_len_step(n / 10, 19);
        }
    } else if n >= 10 {
        assert(k >= 2) by {
            reveal_with_fuel(pow10, 2);
        }
        lemma_len_step(n / 10, (k - 1) as nat);
    }
}

/// A number that grows by a digit at the end does not shrink.
pub proof fn lemma_value_monotone(s: Seq<u8>, n: int)
    requires
        0 <= n <= s.len(),
        forall|i: int| 0 <= i < s.len() ==> is_digit(#[trigger] s[i]),
    ensures
        digits_value(s.take(n)) <= digits_value(s),
    decreases s.len() - n,
{
    if n < s.len() {
        lemma_value_monotone(s, n + 1);
        let next = s.take(n + 1);
        assert(next.drop_last() =~= s.take(n));
    } else {
        assert(s.take(n) =~= s);
    }
}

/// The decimal digits of `n`.
pub fn to_digits(n: u64) -> (r: Vec<u8>)
    ensures
        r@ == digits_of(n as nat),
    decreases n,
{
    if n < 10 {
        let mut out: Vec<u8> = Vec::new();
        out.push(0x30 + n as u8);
        proof {
            assert(out@ =~= digits_of(n as nat));
        }
        out
    } else {
        let mut out: Vec<u8> = to_digits(n / 10);
        out.push(0x30 + (n % 10) as u8);
        out
    }
}

/// The number that digits stand for, unless it is more than a `u64` holds.
pub fn parse_digits(s: &[u8]) -> (r: Option<u64>)
    requires
        forall|i: int| 0 <= i < s@.len() ==> is_digit(#[trigger] s@[i]),
    ensures
        match r {
            Some(n) => n == digits_value(s@),
            None => digits_value(s@) > u64::MAX,
        },
{
    let mut n: u64 = 0;
    let mut i: usize = 0;
    while i < s.len()
        invariant
            forall|i: int| 0 <= i < s@.len() ==> is_digit(#[trigger] s@[i]),
            i <= s.len(),
            n == digits_value(s@.take(i as int)),
        decreases s.len() - i,
    {
        let d: u64 = (s[i] - 0x30) as u64;
        proof {
            let next = s@.take(i + 1);
            assert(next.drop_last() =~= s@.take(i as int));
            assert(next.last() == s@[i as int]);
            lemma_value_monotone(s@, i + 1);
        }
        if n > (u64::MAX - d) / 10 {
            return None;
        }
        n = n * 10 + d;
        i = i + 1;
    }
    proof {
        assert(s@.take(s@.len() as int) =~= s@);
    }
    Some(n)
}

} // verus!

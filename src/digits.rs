//! Unsigned integers written as ASCII digits in a small base.
use vstd::prelude::*;

verus! {

/// Every byte of `s` is an ASCII digit below `base`.
pub open spec fn all_digits(s: Seq<u8>, base: int) -> bool {
    forall|i: int| 0 <= i < s.len() ==> 48 <= #[trigger] s[i] < 48 + base
}

/// The number that the digits `s` stand for in `base`, most significant first.
pub open spec fn digits_value(s: Seq<u8>, base: int) -> int
    decreases s.len(),
{
    if s.len() == 0 {
        0
    } else {
        digits_value(s.drop_last(), base) * base + (s.last() - 48)
    }
}

/// The number written in `s`, when `s` is a non-empty run of digits whose value fits in 64 bits.
pub open spec fn parse_digits_spec(s: Seq<u8>, base: int) -> Option<u64> {
    if s.len() > 0 && all_digits(s, base) && digits_value(s, base) <= u64::MAX {
        Some(digits_value(s, base) as u64)
    } else {
        None
    }
}

/// A longer run of digits is worth at least as much as its prefix.
proof fn lemma_digits_value_grows(s: Seq<u8>, base: int, i: int)
    requires
        2 <= base <= 10,
        all_digits(s, base),
        0 <= i <= s.len(),
    ensures
        digits_value(s.subrange(0, i), base) <= digits_value(s, base),
        0 <= digits_value(s, base),
    decreases s.len(),
{
    if s.len() > 0 {
        let p = s.drop_last();
        assert(all_digits(p, base)) by {
            assert forall|k: int| 0 <= k < p.len() implies 48 <= #[trigger] p[k] < 48 + base by {
                assert(p[k] == s[k]);
            }
        }
        if i < s.len() {
            assert(s.subrange(0, i) =~= p.subrange(0, i));
            lemma_digits_value_grows(p, base, i);
        } else {
            assert(s.subrange(0, i) =~= s);
            lemma_digits_value_grows(p, base, 0);
        }
        assert(digits_value(p, base) * base >= digits_value(p, base)) by (nonlinear_arith)
            requires
                digits_value(p, base) >= 0,
                base >= 2,
        ;
    }
}

/// Reads the digits of `s` in `base`; `None` when `s` is empty, holds another
/// byte, or is worth more than `u64::MAX`.
pub fn parse_digits(s: &[u8], base: u64) -> (r: Option<u64>)
    requires
        2 <= base <= 10,
    ensures
        r == parse_digits_spec(s@, base as int),
{
    if s.len() == 0 {
        return None;
    }
    let mut acc: u64 = 0;
    let mut i: usize = 0;
    while i < s.len()
        invariant
            2 <= base <= 10,
            0 <= i <= s@.len(),
            s@.len() > 0,
            all_digits(s@.subrange(0, i as int), base as int),
            acc == digits_value(s@.subrange(0, i as int), base as int),
        decreases s@.len() - i,
    {
        let c = s[i];
        let ghost prefix = s@.subrange(0, i as int);
        let ghost next = s@.subrange(0, i + 1);
        assert(next.drop_last() =~= prefix);
        if c < 48 || c as u64 >= 48 + base {
            assert(!all_digits(s@, base as int)) by {
                assert(s@[i as int] == c);
            }
            return None;
        }
        let d = (c - 48) as u64;
        assert(all_digits(next, base as int)) by {
            assert forall|k: int| 0 <= k < next.len() implies 48 <= #[trigger] next[k] < 48
                + base by {
                if k < i {
                    assert(next[k] == prefix[k]);
                }
            }
        }
        if acc > (u64::MAX - d) / base {
            proof {
                assert(acc * base + d > u64::MAX) by (nonlinear_arith)
                    requires
                        acc > (u64::MAX - d) as int / base as int,
                        base >= 2,
                        d < base,
                ;
                if all_digits(s@, base as int) {
                    lemma_digits_value_grows(s@, base as int, i + 1);
                }
            }
            return None;
        }
        assert(acc * base + d <= u64::MAX) by (nonlinear_arith)
            requires
                acc <= (u64::MAX - d) as int / base as int,
                base >= 2,
                d < base,
        ;
        acc = acc * base + d;
        i = i + 1;
    }
    assert(s@.subrange(0, s@.len() as int) =~= s@);
    Some(acc)
}

#[via_fn]
proof fn digits_of_decreases(n: nat, base: nat) {
    if !(n < base || base < 2) {
        assert(n / base < n) by (nonlinear_arith)
            requires
                n >= base >= 2,
        ;
    }
}

/// The shortest run of digits that writes `n` in `base`.
pub open spec fn digits_of(n: nat, base: nat) -> Seq<u8>
    recommends
        2 <= base <= 10,
    decreases n,
    via digits_of_decreases
{
    if n < base || base < 2 {
        seq![(48 + n) as u8]
    } else {
        digits_of(n / base, base).push((48 + n % base) as u8)
    }
}

/// Reading the digits that write `n` gives `n` back.
pub proof fn lemma_digits_of(n: nat, base: nat)
    requires
        2 <= base <= 10,
    ensures
        digits_of(n, base).len() > 0,
        all_digits(digits_of(n, base), base as int),
        digits_value(digits_of(n, base), base as int) == n,
    decreases n,
{
    let s = digits_of(n, base);
    if n < base {
        assert(s.drop_last() =~= Seq::<u8>::empty());
        assert(s.last() == 48 + n);
        assert(digits_value(s, base as int) == digits_value(s.drop_last(), base as int) * base + (
        s.last() - 48));
    } else {
        lemma_digits_of(n / base, base);
        let p = digits_of(n / base, base);
        assert(0 <= n % base < base) by (nonlinear_arith)
            requires
                base >= 2,
        ;
        assert(s.last() == 48 + n % base);
        assert(s.drop_last() =~= p);
        assert forall|i: int| 0 <= i < s.len() implies 48 <= #[trigger] s[i] < 48 + base by {
            if i < p.len() {
                assert(s[i] == p[i]);
            }
        }
        assert((n / base) * base + n % base == n) by (nonlinear_arith)
            requires
                base >= 2,
        ;
        assert(digits_value(s, base as int) == digits_value(p, base as int) * base + (s.last()
            - 48));
    }
}

/// Parsing the digits that write any 64-bit `n` gives `n`.
pub proof fn lemma_parse_digits_of(n: u64, base: nat)
    requires
        2 <= base <= 10,
    ensures
        parse_digits_spec(digits_of(n as nat, base), base as int) == Some(n),
{
    lemma_digits_of(n as nat, base);
}

} // verus!

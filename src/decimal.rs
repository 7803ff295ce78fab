//! ASCII decimal integers: their text and how text reads back as a number.

use vstd::prelude::*;

verus! {

/// Whether `b` is an ASCII digit.
pub open spec fn is_digit(b: u8) -> bool {
    48 <= b <= 57
}

/// Whether `d` is a non-empty run of ASCII digits.
pub open spec fn all_digits(d: Seq<u8>) -> bool {
    d.len() > 0 && forall|i: int| 0 <= i < d.len() ==> is_digit(#[trigger] d[i])
}

/// The number that a run of digits spells.
pub open spec fn digits_value(d: Seq<u8>) -> nat
    decreases d.len(),
{
    if d.len() == 0 {
        0
    } else {
        digits_value(d.drop_last()) * 10 + (d.last() - 48) as nat
    }
}

/// The integer that `line` spells: an optional `+` or `-`, then digits.
pub open spec fn signed_value(line: Seq<u8>) -> Option<int> {
    if line.len() > 0 && line[0] == 45u8 {
        if all_digits(line.drop_first()) {
            Some(-(digits_value(line.drop_first()) as int))
        } else {
            None
        }
    } else if line.len() > 0 && line[0] == 43u8 {
        if all_digits(line.drop_first()) {
            Some(digits_value(line.drop_first()) as int)
        } else {
            None
        }
    } else if all_digits(line) {
        Some(digits_value(line) as int)
    } else {
        None
    }
}

/// The `i64` that `line` spells, if it spells one in range.
pub open spec fn i64_of(line: Seq<u8>) -> Option<int> {
    match signed_value(line) {
        Some(v) => if i64::MIN <= v <= i64::MAX {
            Some(v)
        } else {
            None
        },
        None => None,
    }
}

/// The `u64` that `line` spells, if it spells one in range (no minus sign).
pub open spec fn u64_of(line: Seq<u8>) -> Option<int> {
    if line.len() > 0 && line[0] == 45u8 {
        None
    } else {
        match signed_value(line) {
            Some(v) => if 0 <= v <= u64::MAX {
                Some(v)
            } else {
                None
            },
            None => None,
        }
    }
}

/// The decimal digits of `n`, without leading zeros.
pub open spec fn nat_text(n: nat) -> Seq<u8>
    decreases n,
{
    if n < 10 {
        seq![(48 + n) as u8]
    } else {
        nat_text(n / 10).push((48 + n % 10) as u8)
    }
}

/// The decimal text of `i`, with a leading `-` when negative.
pub open spec fn int_text(i: int) -> Seq<u8> {
    if i < 0 {
        seq![45u8] + nat_text((-i) as nat)
    } else {
        nat_text(i as nat)
    }
}

const VALUE_CAP: u128 = 18446744073709551616;

/// Digits from `start` on, read as a number capped at 2^64; `None` when the
/// run is empty or holds a non-digit.
fn digits_capped(d: &[u8], start: usize) -> (r: Option<u128>)
    requires
        start <= d@.len(),
    ensures
        r is Some <==> all_digits(d@.subrange(start as int, d@.len() as int)),
        r matches Some(v) ==> v == if digits_value(d@.subrange(start as int, d@.len() as int))
            < VALUE_CAP {
            digits_value(d@.subrange(start as int, d@.len() as int)) as u128
        } else {
            VALUE_CAP
        },
{
    if start >= d.len() {
        return None;
    }
    let mut acc: u128 = 0;
    let mut i: usize = start;
    while i < d.len()
        invariant
            start <= i <= d@.len(),
            forall|j: int| start <= j < i ==> is_digit(#[trigger] d@[j]),
            acc == if digits_value(d@.subrange(start as int, i as int)) < VALUE_CAP {
                digits_value(d@.subrange(start as int, i as int)) as u128
            } else {
                VALUE_CAP
            },
        decreases d@.len() - i,
    {
        let b = d[i];
        if b < 48u8 || b > 57u8 {
            proof {
                let s = d@.subrange(start as int, d@.len() as int);
                assert(!is_digit(s[i - start]));
            }
            return None;
        }
        let ghost prev = digits_value(d@.subrange(start as int, i as int));
        proof {
            let s2 = d@.subrange(start as int, i as int + 1);
            assert(s2.drop_last() =~= d@.subrange(start as int, i as int));
            assert(digits_value(s2) == prev * 10 + (b - 48) as nat);
        }
        let digit = (b - 48u8) as u128;
        if acc >= VALUE_CAP {
            proof {
                assert(prev * 10 + digit >= VALUE_CAP) by (nonlinear_arith)
                    requires
                        prev >= VALUE_CAP,
                ;
            }
            acc = VALUE_CAP;
        } else {
            assert(acc * 10 + digit <= 184467440737095516159) by (nonlinear_arith)
                requires
                    acc < VALUE_CAP,
                    digit <= 9,
            ;
            let next = acc * 10 + digit;
            acc = if next >= VALUE_CAP {
                VALUE_CAP
            } else {
                next
            };
        }
        i = i + 1;
    }
    proof {
        let s = d@.subrange(start as int, d@.len() as int);
        assert(s =~= d@.subrange(start as int, i as int));
        assert forall|j: int| 0 <= j < s.len() implies is_digit(#[trigger] s[j]) by {
            assert(s[j] == d@[start + j]);
        }
    }
    Some(acc)
}

/// Reads `line` as an `i64`: an optional sign, then digits, in range.
pub fn parse_i64(line: &[u8]) -> (r: Option<i64>)
    ensures
        r is Some <==> i64_of(line@) is Some,
        r matches Some(v) ==> i64_of(line@) == Some(v as int),
{
    let n = line.len();
    if n > 0 && line[0] == 45u8 {
        proof {
            assert(line@.subrange(1, n as int) =~= line@.drop_first());
        }
        match digits_capped(line, 1) {
            None => None,
            Some(v) => if v <= 9223372036854775808 {
                Some((0i128 - v as i128) as i64)
            } else {
                None
            },
        }
    } else if n > 0 && line[0] == 43u8 {
        proof {
            assert(line@.subrange(1, n as int) =~= line@.drop_first());
        }
        match digits_capped(line, 1) {
            None => None,
            Some(v) => if v <= 9223372036854775807 {
                Some(v as i64)
            } else {
                None
            },
        }
    } else {
        proof {
            assert(line@.subrange(0, n as int) =~= line@);
        }
        match digits_capped(line, 0) {
            None => None,
            Some(v) => if v <= 9223372036854775807 {
                Some(v as i64)
            } else {
                None
            },
        }
    }
}

/// Reads `line` as a `u64`: an optional `+`, then digits, in range.
pub fn parse_u64(line: &[u8]) -> (r: Option<u64>)
    ensures
        r is Some <==> u64_of(line@) is Some,
        r matches Some(v) ==> u64_of(line@) == Some(v as int),
{
    let n = line.len();
    if n > 0 && line[0] == 45u8 {
        None
    } else if n > 0 && line[0] == 43u8 {
        proof {
            assert(line@.subrange(1, n as int) =~= line@.drop_first());
        }
        match digits_capped(line, 1) {
            None => None,
            Some(v) => if v <= 18446744073709551615 {
                Some(v as u64)
            } else {
                None
            },
        }
    } else {
        proof {
            assert(line@.subrange(0, n as int) =~= line@);
        }
        match digits_capped(line, 0) {
            None => None,
            Some(v) => if v <= 18446744073709551615 {
                Some(v as u64)
            } else {
                None
            },
        }
    }
}

/// Appends the decimal digits of `n`.
pub fn write_u64(n: u64, out: &mut Vec<u8>)
    ensures
        final(out)@ == old(out)@ + nat_text(n as nat),
    decreases n,
{
    if n >= 10 {
        write_u64(n / 10, out);
    }
    out.push(48u8 + (n % 10) as u8);
    proof {
        if n >= 10 {
            assert(old(out)@ + nat_text((n / 10) as nat) + seq![(48 + n % 10) as u8] =~= old(out)@
                + nat_text(n as nat));
        } else {
            assert(old(out)@.push((48 + n) as u8) =~= old(out)@ + nat_text(n as nat));
        }
    }
}

/// Appends the decimal text of `i`.
pub fn write_i64(i: i64, out: &mut Vec<u8>)
    ensures
        final(out)@ == old(out)@ + int_text(i as int),
{
    if i < 0 {
        out.push(45u8);
        let m = (0i128 - i as i128) as u64;
        write_u64(m, out);
        proof {
            assert(old(out)@.push(45u8) + nat_text(m as nat) =~= old(out)@ + int_text(i as int));
        }
    } else {
        write_u64(i as u64, out);
    }
}

/// The digits of a number are digits and spell that number.
pub proof fn lemma_nat_text(n: nat)
    ensures
        all_digits(nat_text(n)),
        digits_value(nat_text(n)) == n,
        nat_text(n).len() >= 1,
    decreases n,
{
    if n >= 10 {
        lemma_nat_text(n / 10);
        let t = nat_text(n);
        assert(t.drop_last() =~= nat_text(n / 10));
        assert(digits_value(t) == (n / 10) * 10 + n % 10);
        assert((n / 10) * 10 + n % 10 == n) by (nonlinear_arith);
        assert forall|i: int| 0 <= i < t.len() implies is_digit(#[trigger] t[i]) by {
            if i < t.len() - 1 {
                assert(t[i] == nat_text(n / 10)[i]);
            }
        }
    } else {
        let t = nat_text(n);
        assert(t.drop_last() =~= Seq::<u8>::empty());
        assert(digits_value(t.drop_last()) == 0);
    }
}

/// The text of an `i64` reads back as the same `i64`.
pub proof fn lemma_int_text_round_trip(i: int)
    requires
        i64::MIN <= i <= i64::MAX,
    ensures
        i64_of(int_text(i)) == Some(i),
        forall|j: int| 0 <= j < int_text(i).len() ==> #[trigger] int_text(i)[j] != 13u8,
        int_text(i).len() >= 1,
{
    if i < 0 {
        lemma_nat_text((-i) as nat);
        assert(int_text(i).drop_first() =~= nat_text((-i) as nat));
        assert forall|j: int| 0 <= j < int_text(i).len() implies #[trigger] int_text(i)[j] != 13u8 by {
            if j > 0 {
                assert(int_text(i)[j] == nat_text((-i) as nat)[j - 1]);
                assert(is_digit(nat_text((-i) as nat)[j - 1]));
            }
        }
    } else {
        lemma_nat_text(i as nat);
        assert(is_digit(nat_text(i as nat)[0]));
        assert forall|j: int| 0 <= j < int_text(i).len() implies #[trigger] int_text(i)[j] != 13u8 by {
            assert(is_digit(nat_text(i as nat)[j]));
        }
    }
}

} // verus!

//! Decimal numbers as text: parsing an unsigned integer from a quoted value,
//! and rendering one back for display.
use vstd::prelude::*;

verus! {

use vstd::string::StrSliceExecFns;
use vstd::string::StringExecFns;

/// A decimal digit character.
pub open spec fn is_digit_char(c: char) -> bool {
    48 <= c as u32 <= 57
}

/// The numeric value of a digit sequence, most significant digit first.
pub open spec fn digits_val(s: Seq<char>) -> int
    decreases s.len(),
{
    if s.len() == 0 {
        0
    } else {
        10 * digits_val(s.drop_last()) + (s.last() as u32 - 48)
    }
}

/// The digit character for a value below ten.
pub open spec fn digit_char(d: int) -> char {
    if d == 0 {
        '0'
    } else if d == 1 {
        '1'
    } else if d == 2 {
        '2'
    } else if d == 3 {
        '3'
    } else if d == 4 {
        '4'
    } else if d == 5 {
        '5'
    } else if d == 6 {
        '6'
    } else if d == 7 {
        '7'
    } else if d == 8 {
        '8'
    } else {
        '9'
    }
}

pub proof fn lemma_digits_val_nonneg(s: Seq<char>)
    requires
        forall|k: int| 0 <= k < s.len() ==> is_digit_char(s[k]),
    ensures
        digits_val(s) >= 0,
    decreases s.len(),
{
    if s.len() > 0 {
        lemma_digits_val_nonneg(s.drop_last());
    }
}

/// A digit string's value only grows as more digits are read.
pub proof fn lemma_digits_val_prefix(s: Seq<char>, j: int)
    requires
        forall|k: int| 0 <= k < s.len() ==> is_digit_char(s[k]),
        0 <= j <= s.len(),
    ensures
        digits_val(s.take(j)) <= digits_val(s),
    decreases s.len() - j,
{
    if j == s.len() {
        assert(s.take(j) =~= s);
    } else {
        lemma_digits_val_prefix(s, j + 1);
        assert(s.take(j + 1).drop_last() =~= s.take(j));
        lemma_digits_val_nonneg(s.take(j));
    }
}

/// Every character of `t` is a decimal digit.
pub open spec fn all_digits(t: Seq<char>) -> bool {
    forall|k: int| 0 <= k < t.len() ==> is_digit_char(t[k])
}

/// `s` without an optional leading `'+'` sign.
pub open spec fn plus_stripped(s: Seq<char>) -> Seq<char> {
    if s.len() > 0 && s[0] == '+' {
        s.skip(1)
    } else {
        s
    }
}

/// What `str::parse::<u64>` returns for `s`: an optional leading `'+'`, then
/// at least one digit, and the value must fit in a `u64`.
pub open spec fn parse_u64_spec(s: Seq<char>) -> Option<u64> {
    let t = plus_stripped(s);
    if t.len() > 0 && all_digits(t) && digits_val(t) <= u64::MAX {
        Some(digits_val(t) as u64)
    } else {
        None
    }
}

/// Parse an unsigned decimal integer, as `str::parse::<u64>` does.
pub fn parse_u64(s: &str) -> (r: Option<u64>)
    ensures
        r == parse_u64_spec(s@),
{
    let n = s.unicode_len();
    let mut i: usize = 0;
    if n > 0 && s.get_char(0) == '+' {
        i = 1;
    }
    let ghost off = i as int;
    let ghost t = s@.skip(off);
    proof {
        if off == 0 {
            assert(t =~= s@);
        }
    }
    if i == n {
        return None;
    }
    let mut acc: u64 = 0;
    while i < n
        invariant
            n == s@.len(),
            off <= i <= n,
            off == 0 || off == 1,
            t == s@.skip(off),
            t.len() == n - off,
            t.len() > 0,
            t == plus_stripped(s@),
            forall|k: int| 0 <= k < i - off ==> is_digit_char(t[k]),
            acc as int == digits_val(t.take(i - off)),
        decreases n - i,
    {
        let c = s.get_char(i);
        let cv = c as u32;
        proof {
            assert(t[i - off] == s@[i as int]);
        }
        if cv < 48 || cv > 57 {
            proof {
                assert(0 <= i - off < t.len() && !is_digit_char(t[i - off]));
                assert(!all_digits(t));
            }
            return None;
        }
        let d = ((cv - 48) as u8) as u64;
        let ghost prefix = t.take(i - off);
        proof {
            assert(t.take(i - off + 1).drop_last() =~= prefix);
            assert(t.take(i - off + 1).last() == t[i - off]);
            assert(digits_val(t.take(i - off + 1)) == 10 * (acc as int) + d);
        }
        let mul = acc.checked_mul(10);
        match mul {
            None => {
                proof {
                    assert(10 * (acc as int) + d > u64::MAX);
                    if all_digits(t) {
                        lemma_digits_val_prefix(t, i - off + 1);
                        assert(digits_val(t) > u64::MAX);
                    }
                }
                return None;
            },
            Some(x) => {
                let add = x.checked_add(d);
                match add {
                    None => {
                        proof {
                            assert(10 * (acc as int) + d > u64::MAX);
                            if all_digits(t) {
                                lemma_digits_val_prefix(t, i - off + 1);
                                assert(digits_val(t) > u64::MAX);
                            }
                        }
                        return None;
                    },
                    Some(y) => {
                        acc = y;
                    },
                }
            },
        }
        i = i + 1;
    }
    proof {
        assert(t.take(n - off) =~= t);
        assert(all_digits(t));
    }
    Some(acc)
}

/// Append the digit character for `d` to `out`.
fn push_digit(out: &mut String, d: u64)
    requires
        d < 10,
    ensures
        final(out)@ == old(out)@.push(digit_char(d as int)),
{
    let ghost before = old(out)@;
    if d == 0 {
        proof {
            reveal_strlit("0");
        }
        out.append("0");
    } else if d == 1 {
        proof {
            reveal_strlit("1");
        }
        out.append("1");
    } else if d == 2 {
        proof {
            reveal_strlit("2");
        }
        out.append("2");
    } else if d == 3 {
        proof {
            reveal_strlit("3");
        }
        out.append("3");
    } else if d == 4 {
        proof {
            reveal_strlit("4");
        }
        out.append("4");
    } else if d == 5 {
        proof {
            reveal_strlit("5");
        }
        out.append("5");
    } else if d == 6 {
        proof {
            reveal_strlit("6");
        }
        out.append("6");
    } else if d == 7 {
        proof {
            reveal_strlit("7");
        }
        out.append("7");
    } else if d == 8 {
        proof {
            reveal_strlit("8");
        }
        out.append("8");
    } else {
        proof {
            reveal_strlit("9");
        }
        out.append("9");
    }
    proof {
        assert(out@ =~= before.push(digit_char(d as int)));
    }
}

/// The power of ten with exponent `k`.
pub open spec fn pow10(k: nat) -> int
    decreases k,
{
    if k == 0 {
        1
    } else {
        10 * pow10((k - 1) as nat)
    }
}

pub proof fn lemma_pow10_pos(k: nat)
    ensures
        pow10(k) >= 1,
    decreases k,
{
    if k > 0 {
        lemma_pow10_pos((k - 1) as nat);
    }
}

/// Render `n` in decimal: only digits, the exact value, and no leading zero.
pub fn decimal_string(n: u64) -> (s: String)
    ensures
        s@.len() > 0,
        forall|k: int| 0 <= k < s@.len() ==> is_digit_char(s@[k]),
        digits_val(s@) == n as int,
        s@.len() > 1 ==> s@[0] != '0',
{
    let mut p: u64 = 1;
    let ghost mut e: nat = 0;
    while p <= n / 10
        invariant
            p == 1 || p <= n,
            p >= 1,
            p as int == pow10(e),
        decreases n - p,
    {
        p = p * 10;
        proof {
            e = e + 1;
        }
    }
    // now p <= n (or p == 1) and n < 10 * p
    let mut out = String::new();
    let mut m = n;
    while p > 1
        invariant
            p >= 1,
            p as int == pow10(e),
            m < p * 10,
            n as int == digits_val(out@) * (10 * p as int) + m as int,
            forall|k: int| 0 <= k < out@.len() ==> is_digit_char(out@[k]),
            out@.len() == 0 ==> (p == 1 || m as int >= p as int),
            out@.len() > 0 ==> out@[0] != '0',
        decreases p,
    {
        let ghost p_old = p as int;
        let ghost m_old = m as int;
        let d = m / p;
        let r = m % p;
        proof {
            assert(m == p * d + r) by (nonlinear_arith)
                requires
                    p >= 1,
                    d == m / p,
                    r == m % p,
            ;
            assert(d <= 9) by (nonlinear_arith)
                requires
                    m == p * d + r,
                    0 <= r < p,
                    m < p * 10,
                    p >= 1,
            ;
            if out@.len() == 0 {
                assert(d >= 1) by (nonlinear_arith)
                    requires
                        m == p * d + r,
                        0 <= r < p,
                        m >= p,
                        p >= 1,
                ;
            }
        }
        let ghost v = digits_val(out@);
        let ghost before = out@;
        push_digit(&mut out, d);
        proof {
            assert(out@.drop_last() =~= before);
            assert(out@.last() == digit_char(d as int));
            assert(digit_char(d as int) as u32 == 48 + d);
            assert(digits_val(out@) == 10 * v + d);
        }
        m = r;
        proof {
            // p is a positive power of ten above one, so p / 10 is the next
            // power down and divides p exactly.
            assert(e >= 1);
            lemma_pow10_pos((e - 1) as nat);
            assert(p as int == 10 * pow10((e - 1) as nat));
            assert(p / 10 == pow10((e - 1) as nat));
            e = (e - 1) as nat;
        }
        p = p / 10;
        proof {
            assert(p_old == 10 * (p as int));
            assert((10 * v + d) * (10 * p as int) == v * (10 * p_old) + (d as int) * p_old)
                by (nonlinear_arith)
                requires
                    p_old == 10 * (p as int),
            ;
            assert(m_old == p_old * (d as int) + m as int);
            assert(n as int == v * (10 * p_old) + m_old);
            assert(n as int == digits_val(out@) * (10 * p as int) + m as int);
        }
    }
    proof {
        assert(m < 10);
    }
    let ghost v = digits_val(out@);
    let ghost before = out@;
    push_digit(&mut out, m);
    proof {
        assert(out@.drop_last() =~= before);
        assert(out@.last() == digit_char(m as int));
        assert(digit_char(m as int) as u32 == 48 + m);
        assert(digits_val(out@) == 10 * v + m);
    }
    out
}

} // verus!

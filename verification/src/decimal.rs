//! Decimal digits: how an unsigned integer is written, and how a string of
//! digits is read back, as `u128`'s `Display` and `FromStr` do it.

use vstd::prelude::*;

verus! {

/// Whether `c` is one of the ASCII digits `0` to `9`.
pub open spec fn is_digit(c: char) -> bool {
    '0' <= c && c <= '9'
}

/// Whether every character of `s` is a digit.
pub open spec fn all_digits(s: Seq<char>) -> bool {
    forall|i: int| 0 <= i < s.len() ==> is_digit(#[trigger] s[i])
}

/// The digit character for `d`, which lies in `0..10`.
pub open spec fn digit_char(d: int) -> char {
    (('0' as int) + d) as char
}

/// The number that the digit `c` stands for.
pub open spec fn digit_value(c: char) -> nat {
    ((c as int) - ('0' as int)) as nat
}

/// The number that a string of digits stands for, most significant first;
/// the empty string stands for zero.
pub open spec fn digits_value(s: Seq<char>) -> nat
    decreases s.len(),
{
    if s.len() == 0 {
        0
    } else {
        digits_value(s.drop_last()) * 10 + digit_value(s.last())
    }
}

/// `n` written in decimal, without leading zeros: what `u128`'s `Display` writes.
pub open spec fn decimal(n: nat) -> Seq<char>
    decreases n,
{
    if n < 10 {
        seq![digit_char(n as int)]
    } else {
        decimal(n / 10).push(digit_char((n % 10) as int))
    }
}

/// The digits that `u128`'s `FromStr` reads: what follows one leading `+`,
/// if there is one.
pub open spec fn unsigned_body(s: Seq<char>) -> Seq<char> {
    if s.len() > 0 && s[0] == '+' {
        s.drop_first()
    } else {
        s
    }
}

/// What `u128`'s `FromStr` reads from `s`: one or more digits after an
/// optional `+`, whose value fits in a `u128`.
pub open spec fn parse_u128(s: Seq<char>) -> Option<u128> {
    let body = unsigned_body(s);
    if body.len() > 0 && all_digits(body) && digits_value(body) <= u128::MAX {
        Some(digits_value(body) as u128)
    } else {
        None
    }
}

/// A longer string of digits is worth at least as much as its prefix.
pub proof fn lemma_digits_value_prefix(s: Seq<char>, k: int)
    requires
        0 <= k <= s.len(),
    ensures
        digits_value(s.take(k)) <= digits_value(s),
    decreases s.len(),
{
    if k < s.len() {
        lemma_digits_value_prefix(s.drop_last(), k);
        assert(s.drop_last().take(k) =~= s.take(k));
    } else {
        assert(s.take(k) =~= s);
    }
}

/// The value of a string of digits grows one digit at a time.
pub proof fn lemma_digits_value_step(s: Seq<char>, k: int)
    requires
        0 <= k < s.len(),
    ensures
        digits_value(s.take(k + 1)) == digits_value(s.take(k)) * 10 + digit_value(s[k]),
{
    assert(s.take(k + 1).drop_last() =~= s.take(k));
}

/// What `decimal` writes is a non-empty string of digits that stands for `n`.
pub proof fn lemma_decimal(n: nat)
    ensures
        decimal(n).len() > 0,
        all_digits(decimal(n)),
        digits_value(decimal(n)) == n,
        decimal(n)[0] != '+',
    decreases n,
{
    lemma_digit_char_value(n % 10);
    if n < 10 {
        let s = decimal(n);
        assert(s.drop_last() =~= Seq::<char>::empty());
        assert(digits_value(s.drop_last()) == 0);
        assert(s.last() == digit_char(n as int));
        assert(n % 10 == n);
        assert(digits_value(s) == digits_value(s.drop_last()) * 10 + digit_value(s.last()));
    } else {
        lemma_decimal(n / 10);
        let s = decimal(n);
        assert(s.drop_last() =~= decimal(n / 10));
        assert(digits_value(s) == (n / 10) * 10 + n % 10);
        assert forall|i: int| 0 <= i < s.len() implies is_digit(#[trigger] s[i]) by {
            if i < s.len() - 1 {
                assert(s[i] == decimal(n / 10)[i]);
            }
        }
    }
}

/// The digit character for `d` is a digit and stands for `d`.
pub proof fn lemma_digit_char_value(d: nat)
    requires
        d < 10,
    ensures
        is_digit(digit_char(d as int)),
        digit_value(digit_char(d as int)) == d,
        digit_char(d as int) != '+',
{
    assert(('0' as int) == 48);
    let c = digit_char(d as int);
    assert(c as int == 48 + d);
}

/// `decimal(n)` has exactly `k` digits where `10^(k-1) <= n < 10^k`; here for
/// the eighteen digits of the fractional part.
pub proof fn lemma_decimal_len(n: nat, k: nat, low: nat)
    requires
        k >= 1,
        low >= 1,
        low <= n < low * 10,
        low == pow10((k - 1) as nat),
    ensures
        decimal(n).len() == k,
    decreases k,
{
    if k == 1 {
        assert(low == 1);
    } else {
        assert(pow10((k - 1) as nat) == 10 * pow10((k - 2) as nat));
        let low2 = pow10((k - 2) as nat);
        lemma_pow10_positive((k - 2) as nat);
        assert(low2 <= n / 10 < low2 * 10) by (nonlinear_arith)
            requires
                low == 10 * low2,
                low <= n < low * 10,
                low2 >= 1,
        ;
        lemma_decimal_len(n / 10, (k - 1) as nat, low2);
    }
}

/// `10^k`.
pub open spec fn pow10(k: nat) -> nat
    decreases k,
{
    if k == 0 {
        1
    } else {
        10 * pow10((k - 1) as nat)
    }
}

/// `10^k` is positive.
pub proof fn lemma_pow10_positive(k: nat)
    ensures
        pow10(k) >= 1,
    decreases k,
{
    if k > 0 {
        lemma_pow10_positive((k - 1) as nat);
    }
}

/// The character that `digit_str` writes for each digit.
fn digit_str(d: u128) -> (r: &'static str)
    requires
        d < 10,
    ensures
        r@ == seq![digit_char(d as int)],
{
    if d == 0 {
        proof {
            reveal_strlit("0");
        }
        "0"
    } else if d == 1 {
        proof {
            reveal_strlit("1");
        }
        "1"
    } else if d == 2 {
        proof {
            reveal_strlit("2");
        }
        "2"
    } else if d == 3 {
        proof {
            reveal_strlit("3");
        }
        "3"
    } else if d == 4 {
        proof {
            reveal_strlit("4");
        }
        "4"
    } else if d == 5 {
        proof {
            reveal_strlit("5");
        }
        "5"
    } else if d == 6 {
        proof {
            reveal_strlit("6");
        }
        "6"
    } else if d == 7 {
        proof {
            reveal_strlit("7");
        }
        "7"
    } else if d == 8 {
        proof {
            reveal_strlit("8");
        }
        "8"
    } else {
        proof {
            reveal_strlit("9");
        }
        "9"
    }
}

/// Appends `n`, written in decimal, to `out`.
pub fn push_decimal(out: &mut String, n: u128)
    ensures
        final(out)@ == old(out)@ + decimal(n as nat),
    decreases n,
{
    if n >= 10 {
        push_decimal(out, n / 10);
    }
    out.append(digit_str(n % 10));
}

/// Reads an unsigned integer from `cs` as `u128`'s `FromStr` does.
pub fn parse_u128_chars(cs: &Vec<char>) -> (r: Option<u128>)
    ensures
        r == parse_u128(cs@),
{
    let len = cs.len();
    let start: usize = if len > 0 && cs[0] == '+' {
        1
    } else {
        0
    };
    let ghost body = unsigned_body(cs@);
    assert(body =~= cs@.subrange(start as int, len as int));
    if start == len {
        assert(body.len() == 0);
        return None;
    }
    let mut acc: u128 = 0;
    let mut k: usize = start;
    while k < len
        invariant
            start <= k <= len,
            len == cs@.len(),
            body =~= cs@.subrange(start as int, len as int),
            body == unsigned_body(cs@),
            all_digits(body.take(k - start)),
            acc as nat == digits_value(body.take(k - start)),
        decreases len - k,
    {
        let c = cs[k];
        let ghost i: int = k - start;
        proof {
            lemma_digits_value_step(body, i);
            assert(body[i] == c);
        }
        if !('0' <= c && c <= '9') {
            assert(!is_digit(body[i]));
            return None;
        }
        let d: u128 = (c as u32 - '0' as u32) as u128;
        assert(d == digit_value(c));
        let next = match acc.checked_mul(10) {
            Some(t) => t.checked_add(d),
            None => None,
        };
        match next {
            Some(v) => {
                acc = v;
                assert(all_digits(body.take(i + 1))) by {
                    assert forall|j: int| 0 <= j < i + 1 implies is_digit(
                        #[trigger] body.take(i + 1)[j],
                    ) by {
                        if j < i {
                            assert(body.take(i + 1)[j] == body.take(i)[j]);
                        }
                    }
                }
            },
            None => {
                proof {
                    if all_digits(body) {
                        lemma_digits_value_prefix(body, i + 1);
                    }
                }
                return None;
            },
        }
        k = k + 1;
    }
    assert(body.take(len - start) =~= body);
    Some(acc)
}

} // verus!

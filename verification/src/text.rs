//! The text form of a `FixedU128`: `<integer part>.<fractional part>`, with
//! eighteen fractional digits read and the fractional part written as the
//! plain decimal number of its raw units.

use crate::decimal::{
    all_digits,
    decimal,
    digits_value,
    unsigned_body,
    is_digit,
    lemma_decimal,
    lemma_decimal_len,
    digit_value,
    parse_u128,
    parse_u128_chars,
    pow10,
    push_decimal,
};
use crate::fixed::{unit, FixedU128};
use vstd::prelude::*;

verus! {

/// Whether no character of `s` is a `.`.
pub open spec fn has_no_dot(s: Seq<char>) -> bool {
    forall|i: int| 0 <= i < s.len() ==> #[trigger] s[i] != '.'
}

/// Whether `s` splits at the `.` at position `i` into two pieces without a `.`.
pub open spec fn splits_at(s: Seq<char>, i: int) -> bool {
    &&& 0 <= i < s.len()
    &&& s[i] == '.'
    &&& has_no_dot(s.take(i))
    &&& has_no_dot(s.skip(i + 1))
}

/// The fractional digits as they are read: cut to eighteen characters, or
/// filled up to eighteen with `0` on the right.
pub open spec fn pad_fraction(f: Seq<char>) -> Seq<char> {
    if f.len() >= 18 {
        f.take(18)
    } else {
        f + Seq::new((18 - f.len()) as nat, |_i: int| '0')
    }
}

/// The raw value read from an integer part and a fractional part, where both
/// parse and the result fits in a `u128`.
pub open spec fn parse_parts(int_part: Seq<char>, frac: Seq<char>) -> Option<u128> {
    match parse_u128(int_part) {
        None => None,
        Some(d) => if d * unit() > u128::MAX {
            None
        } else {
            match parse_u128(pad_fraction(frac)) {
                None => None,
                Some(f) => if d * unit() + f > u128::MAX {
                    None
                } else {
                    Some((d * unit() + f) as u128)
                },
            }
        },
    }
}

/// The raw value that `from_str_with_precision` reads from `s`: a string
/// without `.` is the integer part alone (with fractional part `0`); a string
/// with one `.` splits there; a string with more dots is refused.
pub open spec fn parse_fixed(s: Seq<char>) -> Option<u128> {
    if has_no_dot(s) {
        parse_parts(s, seq!['0'])
    } else if exists|i: int| splits_at(s, i) {
        let i = choose|i: int| splits_at(s, i);
        parse_parts(s.take(i), s.skip(i + 1))
    } else {
        None
    }
}

/// The text that `str_with_precision` writes for the raw value `raw`: the
/// integer part, a `.`, and the raw fractional units in decimal.
pub open spec fn precision_text(raw: u128) -> Seq<char> {
    decimal((raw as int / unit()) as nat) + seq!['.'] + decimal((raw as int % unit()) as nat)
}

/// The text that `debug_string` writes for the raw value `raw`: the integer
/// part and the fractional part in thousandths of a millionth of a millionth.
pub open spec fn debug_text(raw: u128) -> Seq<char> {
    "FixedU128("@ + decimal((raw as int / unit()) as nat) + ","@ + decimal(
        ((raw as int % unit()) / 1000) as nat,
    ) + ")"@
}

/// A string of `0`s is a string of digits worth zero.
proof fn lemma_zeros(k: nat)
    ensures
        all_digits(Seq::new(k, |_i: int| '0')),
        digits_value(Seq::new(k, |_i: int| '0')) == 0,
    decreases k,
{
    let z = Seq::new(k, |_i: int| '0');
    if k > 0 {
        lemma_zeros((k - 1) as nat);
        assert(z.drop_last() =~= Seq::new((k - 1) as nat, |_i: int| '0'));
        assert(digit_value('0') == 0);
    }
}

/// Written text is read back to the same value where the fractional part is
/// zero or has all eighteen digits: then `from_str_with_precision` undoes
/// `str_with_precision`.
pub proof fn law_text_round_trip(raw: u128)
    requires
        raw as int % unit() == 0 || raw as int % unit() >= unit() / 10,
    ensures
        parse_fixed(precision_text(raw)) == Some(raw),
{
    let q = (raw as int / unit()) as nat;
    let r = (raw as int % unit()) as nat;
    let dq = decimal(q);
    let dr = decimal(r);
    let s = precision_text(raw);
    lemma_decimal(q);
    lemma_decimal(r);
    let l = dq.len() as int;
    assert(s.take(l) =~= dq);
    assert(s.skip(l + 1) =~= dr);
    assert(s[l] == '.');
    assert(has_no_dot(dq)) by {
        assert forall|i: int| 0 <= i < dq.len() implies #[trigger] dq[i] != '.' by {
            assert(is_digit(dq[i]));
        }
    }
    assert(has_no_dot(dr)) by {
        assert forall|i: int| 0 <= i < dr.len() implies #[trigger] dr[i] != '.' by {
            assert(is_digit(dr[i]));
        }
    }
    assert(splits_at(s, l));
    assert(!has_no_dot(s));
    assert forall|p: int| splits_at(s, p) implies p == l by {
        lemma_split_unique(s, l, p);
    }
    assert(parse_u128(dq) == Some(q as u128));
    assert(q * unit() + r == raw);
    let pf = pad_fraction(dr);
    if r == 0 {
        assert(dr =~= seq!['0']);
        lemma_zeros(18);
        assert(pf =~= Seq::new(18, |_i: int| '0'));
        assert(parse_u128(pf) == Some(0u128));
    } else {
        assert(pow10(17) == 100_000_000_000_000_000) by {
            reveal_with_fuel(pow10, 18);
        }
        lemma_decimal_len(r, 18, pow10(17));
        assert(pf =~= dr);
        assert(parse_u128(pf) == Some(r as u128));
    }
}

/// A string of `k` digits is worth less than `10^k`.
proof fn lemma_digits_value_bound(s: Seq<char>)
    requires
        all_digits(s),
    ensures
        digits_value(s) < pow10(s.len()),
    decreases s.len(),
{
    if s.len() > 0 {
        let t = s.drop_last();
        assert(all_digits(t)) by {
            assert forall|i: int| 0 <= i < t.len() implies is_digit(#[trigger] t[i]) by {
                assert(t[i] == s[i]);
            }
        }
        lemma_digits_value_bound(t);
        assert(is_digit(s[s.len() - 1]));
        assert(pow10(s.len()) == 10 * pow10(t.len()));
    }
}

/// Appending `m` zero digits multiplies the value by `10^m`.
proof fn lemma_append_zeros(s: Seq<char>, m: nat)
    ensures
        digits_value(s + Seq::new(m, |_i: int| '0')) == digits_value(s) * pow10(m),
    decreases m,
{
    let u = s + Seq::new(m, |_i: int| '0');
    if m == 0 {
        assert(u =~= s);
        assert(pow10(0) == 1);
        assert(digits_value(s) * pow10(m) == digits_value(s));
    } else {
        let t = s + Seq::new((m - 1) as nat, |_i: int| '0');
        lemma_append_zeros(s, (m - 1) as nat);
        assert(u.drop_last() =~= t);
        assert(u.last() == '0');
        assert(digit_value('0') == 0);
        assert(digits_value(u) == digits_value(t) * 10);
        let v = digits_value(s);
        let p = pow10((m - 1) as nat);
        assert(pow10(m) == 10 * p);
        assert(v * p * 10 == v * (10 * p)) by (nonlinear_arith);
        assert(digits_value(u) == v * pow10(m));
    }
}

/// A non-empty string of digits is read by `u128`'s `FromStr` as its value,
/// where that fits.
proof fn lemma_parse_digits(d: Seq<char>)
    requires
        d.len() > 0,
        all_digits(d),
    ensures
        parse_u128(d) == if digits_value(d) <= u128::MAX {
            Some(digits_value(d) as u128)
        } else {
            None
        },
{
    assert(is_digit(d[0]));
    assert(unsigned_body(d) == d);
}

/// The value of the first eighteen fractional digits, filled up with zeros.
pub open spec fn fraction_value(f: Seq<char>) -> nat {
    let k = if f.len() < 18 { f.len() } else { 18 };
    digits_value(f.take(k as int)) * pow10((18 - k) as nat)
}

/// The fractional digits as read: the first eighteen, or all of them filled
/// up with zeros, are read as `fraction_value(f)`, which is below `10^18`.
proof fn lemma_parse_fraction(f: Seq<char>)
    requires
        all_digits(f),
    ensures
        parse_u128(pad_fraction(f)) == Some(fraction_value(f) as u128),
        fraction_value(f) < unit(),
{
    let p = pad_fraction(f);
    if f.len() >= 18 {
        assert(p =~= f.take(18));
        assert forall|i: int| 0 <= i < p.len() implies is_digit(#[trigger] p[i]) by {
            assert(p[i] == f[i]);
        }
        assert(pow10(0) == 1);
        let w = digits_value(f.take(18));
        assert(digits_value(p) == w);
        assert(w * pow10(0) == w);
        assert(digits_value(p) == fraction_value(f));
    } else {
        let z = Seq::new((18 - f.len()) as nat, |_i: int| '0');
        assert(p =~= f + z);
        assert(f.take(f.len() as int) =~= f);
        assert forall|i: int| 0 <= i < p.len() implies is_digit(#[trigger] p[i]) by {
            if i < f.len() {
                assert(p[i] == f[i]);
            } else {
                assert(p[i] == z[i - f.len()]);
            }
        }
        lemma_append_zeros(f, (18 - f.len()) as nat);
        assert(digits_value(p) == fraction_value(f));
    }
    assert(p.len() == 18);
    lemma_digits_value_bound(p);
    assert(pow10(18) == 1_000_000_000_000_000_000) by {
        reveal_with_fuel(pow10, 19);
    }
    lemma_parse_digits(p);
}

/// What `from_str_with_precision` reads from digits: a string of digits `d`
/// followed by `.` and a string of digits `f` stands for the raw value
/// `d * 10^18` plus the first eighteen digits of `f` filled up with zeros on
/// the right (so `"0.05"` is `5 * 10^16` and `"0.5"` is `5 * 10^17`), and is
/// read exactly where that raw value fits in a `u128`.
pub proof fn law_text_reads_digits(d: Seq<char>, f: Seq<char>)
    requires
        d.len() > 0,
        all_digits(d),
        all_digits(f),
    ensures
        ({
            let k = if f.len() < 18 { f.len() } else { 18 };
            let x = digits_value(d) * unit() + digits_value(f.take(k as int)) * pow10(
                (18 - k) as nat,
            );
            parse_fixed(d + seq!['.'] + f) == if x <= u128::MAX {
                Some(x as u128)
            } else {
                None
            }
        }),
{
    assert(has_no_dot(d)) by {
        assert forall|i: int| 0 <= i < d.len() implies #[trigger] d[i] != '.' by {
            assert(is_digit(d[i]));
        }
    }
    assert(has_no_dot(f)) by {
        assert forall|i: int| 0 <= i < f.len() implies #[trigger] f[i] != '.' by {
            assert(is_digit(f[i]));
        }
    }
    let s = d + seq!['.'] + f;
    let l = d.len() as int;
    assert(s.take(l) =~= d);
    assert(s.skip(l + 1) =~= f);
    assert(s[l] == '.');
    assert(splits_at(s, l));
    assert(!has_no_dot(s));
    assert forall|p: int| splits_at(s, p) implies p == l by {
        lemma_split_unique(s, l, p);
    }
    assert(parse_fixed(s) == parse_parts(d, f));
    lemma_parse_digits(d);
    lemma_parse_fraction(f);
    let dv = digits_value(d);
    if dv > u128::MAX {
        assert(dv * unit() > u128::MAX) by (nonlinear_arith)
            requires
                dv > u128::MAX,
        ;
    }
}

/// What `from_str_with_precision` reads from a string of digits `d` without a
/// `.`: the raw value `d * 10^18`, exactly where that fits in a `u128`.
pub proof fn law_text_reads_integer(d: Seq<char>)
    requires
        d.len() > 0,
        all_digits(d),
    ensures
        ({
            let x = digits_value(d) * unit();
            parse_fixed(d) == if x <= u128::MAX {
                Some(x as u128)
            } else {
                None
            }
        }),
{
    assert(has_no_dot(d)) by {
        assert forall|i: int| 0 <= i < d.len() implies #[trigger] d[i] != '.' by {
            assert(is_digit(d[i]));
        }
    }
    let zero = seq!['0'];
    assert(all_digits(zero));
    assert(zero.take(1) =~= zero);
    assert(digits_value(zero) == 0) by {
        assert(zero.drop_last() =~= Seq::<char>::empty());
        assert(digits_value(Seq::<char>::empty()) == 0);
        assert(zero.last() == '0');
        assert(digit_value('0') == 0);
    }
    assert(digits_value(zero.take(1)) == 0);
    let w = pow10(17);
    assert(0 * w == 0);
    assert(fraction_value(zero) == 0);
    lemma_parse_digits(d);
    lemma_parse_fraction(zero);
    let dv = digits_value(d);
    if dv > u128::MAX {
        assert(dv * unit() > u128::MAX) by (nonlinear_arith)
            requires
                dv > u128::MAX,
        ;
    }
}

/// A string has at most one split point.
proof fn lemma_split_unique(s: Seq<char>, i: int, j: int)
    requires
        splits_at(s, i),
        splits_at(s, j),
    ensures
        i == j,
{
    if j < i {
        assert(s.take(i)[j] == '.');
    } else if i < j {
        assert(s.take(j)[i] == '.');
    }
}

/// Copies `cs[lo..hi]`.
fn copy_range(cs: &Vec<char>, lo: usize, hi: usize) -> (r: Vec<char>)
    requires
        lo <= hi <= cs.len(),
    ensures
        r@ == cs@.subrange(lo as int, hi as int),
{
    let mut r: Vec<char> = Vec::new();
    let mut k = lo;
    while k < hi
        invariant
            lo <= k <= hi <= cs.len(),
            r@ =~= cs@.subrange(lo as int, k as int),
        decreases hi - k,
    {
        r.push(cs[k]);
        k = k + 1;
    }
    r
}

/// The fractional digits cut or filled to eighteen characters.
fn pad_fraction_chars(f: &Vec<char>) -> (r: Vec<char>)
    ensures
        r@ == pad_fraction(f@),
{
    let mut r: Vec<char> = Vec::new();
    let mut k: usize = 0;
    while k < 18
        invariant
            k <= 18,
            r@.len() == k,
            forall|j: int| 0 <= j < k ==> #[trigger] r@[j] == (if j < f@.len() { f@[j] } else { '0' }),
        decreases 18 - k,
    {
        if k < f.len() {
            r.push(f[k]);
        } else {
            r.push('0');
        }
        k = k + 1;
    }
    assert(r@ =~= pad_fraction(f@));
    r
}

impl FixedU128 {
    /// The number as text: the integer part, a `.`, and the raw fractional
    /// units in decimal.
    pub fn str_with_precision(&self) -> (r: String)
        ensures
            r@ == precision_text(self@),
    {
        let raw = self.deconstruct();
        let div = FixedU128::accuracy();
        let mut out = String::new();
        push_decimal(&mut out, raw / div);
        out.append(".");
        push_decimal(&mut out, raw % div);
        proof {
            reveal_strlit(".");
        }
        out
    }

    /// What `Debug` writes: `FixedU128(<integer part>,<fractional part / 1000>)`.
    pub fn debug_string(&self) -> (r: String)
        ensures
            r@ == debug_text(self@),
    {
        let raw = self.deconstruct();
        let div = FixedU128::accuracy();
        let mut out = String::from_str("FixedU128(");
        push_decimal(&mut out, raw / div);
        out.append(",");
        push_decimal(&mut out, (raw % div) / 1000);
        out.append(")");
        out
    }

    /// Reads a number from its text form: an integer part, optionally followed
    /// by a `.` and a fractional part of which the first eighteen characters
    /// are read.
    pub fn from_str_with_precision(s: &str) -> (r: Result<Self, &'static str>)
        ensures
            match r {
                Ok(v) => parse_fixed(s@) == Some(v@),
                Err(e) => parse_fixed(s@) is None && e@ == "invalid string input"@,
            },
    {
        let n = s.unicode_len();
        let mut cs: Vec<char> = Vec::new();
        let mut k: usize = 0;
        while k < n
            invariant
                k <= n,
                n == s@.len(),
                cs@ =~= s@.take(k as int),
            decreases n - k,
        {
            cs.push(s.get_char(k));
            k = k + 1;
        }
        assert(cs@ =~= s@);
        let mut i: usize = 0;
        while i < n && cs[i] != '.'
            invariant
                i <= n,
                n == cs@.len(),
                has_no_dot(cs@.take(i as int)),
            decreases n - i,
        {
            assert(cs@.take(i + 1)[i as int] != '.');
            assert forall|j: int| 0 <= j < i + 1 implies #[trigger] cs@.take(i + 1)[j] != '.' by {
                if j < i {
                    assert(cs@.take(i + 1)[j] == cs@.take(i as int)[j]);
                }
            }
            i = i + 1;
        }
        let int_part: Vec<char>;
        let frac: Vec<char>;
        if i == n {
            assert(cs@.take(n as int) =~= cs@);
            int_part = copy_range(&cs, 0, n);
            frac = vec!['0'];
            assert(int_part@ =~= cs@);
            assert(has_no_dot(cs@));
            assert(frac@ =~= seq!['0']);
            assert(parse_fixed(s@) == parse_parts(int_part@, frac@));
        } else {
            let mut j: usize = i + 1;
            while j < n
                invariant
                    i < j <= n,
                    n == cs@.len(),
                    cs@ == s@,
                    cs@[i as int] == '.',
                    has_no_dot(cs@.take(i as int)),
                    has_no_dot(cs@.subrange(i + 1, j as int)),
                decreases n - j,
            {
                if cs[j] == '.' {
                    assert(cs@[i as int] == '.');
                    assert(!has_no_dot(cs@));
                    assert(!exists|p: int| splits_at(cs@, p)) by {
                        assert forall|p: int| !splits_at(cs@, p) by {
                            if splits_at(cs@, p) {
                                if p <= i {
                                    if p < i {
                                        assert(cs@.take(i as int)[p] == '.');
                                    }
                                    assert(cs@.skip(p + 1)[j - p - 1] == '.');
                                } else {
                                    assert(cs@.take(p)[i as int] == '.');
                                }
                            }
                        }
                    }
                    return Err("invalid string input");
                }
                assert forall|q: int| 0 <= q < j + 1 - (i + 1) implies #[trigger] cs@.subrange(
                    i + 1,
                    j + 1,
                )[q] != '.' by {
                    if q < j - (i + 1) {
                        assert(cs@.subrange(i + 1, j + 1)[q] == cs@.subrange(i + 1, j as int)[q]);
                    }
                }
                j = j + 1;
            }
            assert(cs@.subrange(i + 1, n as int) =~= cs@.skip(i + 1));
            assert(splits_at(cs@, i as int));
            assert(!has_no_dot(cs@));
            assert forall|p: int| splits_at(cs@, p) implies p == i by {
                lemma_split_unique(cs@, i as int, p);
            }
            int_part = copy_range(&cs, 0, i);
            frac = copy_range(&cs, i + 1, n);
            assert(int_part@ =~= cs@.take(i as int));
            assert(frac@ =~= cs@.skip(i + 1));
            assert(parse_fixed(s@) == parse_parts(int_part@, frac@));
        }
        assert(parse_fixed(s@) == parse_parts(int_part@, frac@));
        let d = match parse_u128_chars(&int_part) {
            Some(d) => d,
            None => {
                return Err("invalid string input");
            },
        };
        let d = match d.checked_mul(FixedU128::accuracy()) {
            Some(v) => v,
            None => {
                return Err("invalid string input");
            },
        };
        let padded = pad_fraction_chars(&frac);
        let f = match parse_u128_chars(&padded) {
            Some(f) => f,
            None => {
                return Err("invalid string input");
            },
        };
        match d.checked_add(f) {
            Some(parts) => Ok(FixedU128::from_parts(parts)),
            None => Err("invalid string input"),
        }
    }
}

} // verus!

//! The match-ratio configuration: the fraction of documents a word must
//! appear in to count as common, held as an exact rational number, and the
//! parse-or-default step that reads it from the command line.

use vstd::prelude::*;

use crate::bytes::{digit_byte, find_byte, find_byte_from, is_digit_byte, push_range_into, B_DOT};

verus! {

/// A non-negative rational `num / den`, with `den > 0`.
pub struct Ratio {
    pub num: u64,
    pub den: u64,
}

impl Ratio {
    /// A ratio is well formed when its denominator is positive.
    pub open spec fn wf(self) -> bool {
        self.den > 0
    }

    pub fn new(num: u64, den: u64) -> (r: Ratio)
        requires
            den > 0,
        ensures
            r.num == num,
            r.den == den,
            r.wf(),
    {
        Ratio { num, den }
    }
}

impl Default for Ratio {
    /// The default match ratio is one: a word must appear in every document.
    fn default() -> (r: Ratio)
        ensures
            r.num == 1,
            r.den == 1,
            r.wf(),
    {
        Ratio { num: 1, den: 1 }
    }
}

/// Every byte of `s` is an ASCII decimal digit.
pub open spec fn all_digits(s: Seq<u8>) -> bool {
    forall|k: int| 0 <= k < s.len() ==> is_digit_byte(s[k])
}

/// The value of a digit string read in base ten.
pub open spec fn digits_val(s: Seq<u8>) -> int
    decreases s.len(),
{
    if s.len() == 0 {
        0
    } else {
        digits_val(s.drop_last()) * 10 + (s.last() - 48)
    }
}

/// Ten to the `k`.
pub open spec fn pow10(k: nat) -> int
    decreases k,
{
    if k == 0 {
        1
    } else {
        10 * pow10((k - 1) as nat)
    }
}

/// A ratio string is well formed when it is digits with at most one dot and
/// at least one digit: the decimal shapes `D+`, `D+.D+`, `D+.` and `.D+`.
pub open spec fn decimal_wf(s: Seq<u8>) -> bool {
    match find_byte_from(s, B_DOT, 0) {
        None => s.len() > 0 && all_digits(s),
        Some(d) => s.len() >= 2 && all_digits(s.subrange(0, d)) && all_digits(
            s.subrange(d + 1, s.len() as int),
        ),
    }
}

/// The digits of `s` with the dot, if any, taken out.
pub open spec fn digit_string(s: Seq<u8>) -> Seq<u8> {
    match find_byte_from(s, B_DOT, 0) {
        None => s,
        Some(d) => s.subrange(0, d) + s.subrange(d + 1, s.len() as int),
    }
}

/// How many digits follow the dot.
pub open spec fn frac_len(s: Seq<u8>) -> int {
    match find_byte_from(s, B_DOT, 0) {
        None => 0,
        Some(d) => s.len() - d - 1,
    }
}

/// The numerator of the exact decimal value of `s`.
pub open spec fn ratio_num_spec(s: Seq<u8>) -> int {
    digits_val(digit_string(s))
}

/// The denominator of the exact decimal value of `s`.
pub open spec fn ratio_den_spec(s: Seq<u8>) -> int {
    pow10(frac_len(s) as nat)
}

/// The exact decimal value of `s` is representable in the ratio's fields.
pub open spec fn ratio_fits(s: Seq<u8>) -> bool {
    ratio_num_spec(s) <= u64::MAX && ratio_den_spec(s) <= u64::MAX
}

proof fn lemma_digits_val_nonneg(s: Seq<u8>)
    requires
        all_digits(s),
    ensures
        digits_val(s) >= 0,
    decreases s.len(),
{
    if s.len() > 0 {
        assert(forall|k: int| 0 <= k < s.len() - 1 ==> is_digit_byte(s.drop_last()[k]));
        lemma_digits_val_nonneg(s.drop_last());
    }
}

/// Reading more digits can only grow the value.
proof fn lemma_digits_val_prefix(s: Seq<u8>, i: int)
    requires
        all_digits(s),
        0 <= i <= s.len(),
    ensures
        digits_val(s.subrange(0, i)) <= digits_val(s),
    decreases s.len() - i,
{
    if i < s.len() {
        lemma_digits_val_prefix(s, i + 1);
        assert(s.subrange(0, i + 1).drop_last() =~= s.subrange(0, i));
        assert(s.subrange(0, i + 1).last() == s[i]);
        assert(is_digit_byte(s[i]));
        assert(forall|k: int| 0 <= k < i ==> is_digit_byte(s.subrange(0, i)[k]));
        lemma_digits_val_nonneg(s.subrange(0, i));
    } else {
        assert(s.subrange(0, i) =~= s);
    }
}

proof fn lemma_pow10_pos(k: nat)
    ensures
        pow10(k) >= 1,
    decreases k,
{
    if k > 0 {
        lemma_pow10_pos((k - 1) as nat);
    }
}

proof fn lemma_pow10_monotone(a: nat, b: nat)
    requires
        a <= b,
    ensures
        pow10(a) <= pow10(b),
    decreases b,
{
    if a < b {
        lemma_pow10_monotone(a, (b - 1) as nat);
        lemma_pow10_pos((b - 1) as nat);
    }
}

/// Parse a match ratio written as a plain decimal. A string that is not a
/// decimal of the shapes `D+`, `D+.D+`, `D+.` or `.D+`, or whose exact value
/// does not fit the ratio's fields, silently falls back to the default of 1.
pub fn parse_ratio(s: &Vec<u8>) -> (r: Ratio)
    ensures
        r.wf(),
        decimal_wf(s@) && ratio_fits(s@) ==> r.num == ratio_num_spec(s@) && r.den
            == ratio_den_spec(s@),
        !(decimal_wf(s@) && ratio_fits(s@)) ==> r.num == 1 && r.den == 1,
{
    let n = s.len();
    let dot = find_byte(s, B_DOT, 0);
    let int_end: usize;
    let frac_start: usize;
    match dot {
        None => {
            if n == 0 {
                return Ratio { num: 1, den: 1 };
            }
            int_end = n;
            frac_start = n;
        },
        Some(d) => {
            if n < 2 {
                return Ratio { num: 1, den: 1 };
            }
            int_end = d;
            frac_start = d + 1;
        },
    }
    let ghost dotv = find_byte_from(s@, B_DOT, 0);
    let mut k: usize = 0;
    while k < int_end
        invariant
            int_end <= n == s@.len(),
            k <= int_end,
            dotv == find_byte_from(s@, B_DOT, 0),
            int_end as int == (match dotv {
                None => n as int,
                Some(d) => d,
            }),
            dotv is Some ==> 0 <= dotv->Some_0 < n,
            forall|t: int| 0 <= t < k ==> is_digit_byte(s@[t]),
        decreases int_end - k,
    {
        if !digit_byte(s[k]) {
            proof {
                if dotv is Some {
                    let d = dotv->Some_0;
                    assert(s@.subrange(0, d)[k as int] == s@[k as int]);
                    assert(!all_digits(s@.subrange(0, d)));
                } else {
                    assert(!all_digits(s@));
                }
                assert(!decimal_wf(s@));
            }
            return Ratio { num: 1, den: 1 };
        }
        k += 1;
    }
    let mut k2: usize = frac_start;
    while k2 < n
        invariant
            frac_start <= n == s@.len(),
            frac_start <= k2 <= n,
            dotv == find_byte_from(s@, B_DOT, 0),
            frac_start as int == (match dotv {
                None => n as int,
                Some(d) => d + 1,
            }),
            dotv is Some ==> 0 <= dotv->Some_0 < n,
            forall|t: int| frac_start <= t < k2 ==> is_digit_byte(s@[t]),
        decreases n - k2,
    {
        if !digit_byte(s[k2]) {
            proof {
                let d = dotv->Some_0;
                assert(s@.subrange(d + 1, n as int)[k2 - frac_start] == s@[k2 as int]);
                assert(!all_digits(s@.subrange(d + 1, n as int)));
                assert(!decimal_wf(s@));
            }
            return Ratio { num: 1, den: 1 };
        }
        k2 += 1;
    }
    proof {
        if find_byte_from(s@, B_DOT, 0) is Some {
            let d = find_byte_from(s@, B_DOT, 0)->Some_0;
            assert(forall|t: int|
                0 <= t < d ==> s@.subrange(0, d)[t] == s@[t] && is_digit_byte(s@[t]));
            assert(forall|t: int|
                0 <= t < n - d - 1 ==> #[trigger] s@.subrange(d + 1, n as int)[t] == s@[d + 1
                    + t]);
        }
        assert(decimal_wf(s@));
    }
    let mut digits: Vec<u8> = Vec::new();
    push_range_into(&mut digits, s, 0, int_end);
    push_range_into(&mut digits, s, frac_start, n);
    proof {
        if find_byte_from(s@, B_DOT, 0) is None {
            assert(Seq::<u8>::empty() + s@.subrange(0, n as int) + s@.subrange(n as int, n as int)
                =~= s@);
        } else {
            let d = find_byte_from(s@, B_DOT, 0)->Some_0;
            assert(Seq::<u8>::empty() + s@.subrange(0, d) + s@.subrange(d + 1, n as int)
                =~= digit_string(s@));
        }
        assert(digits@ == digit_string(s@));
        assert(forall|t: int| 0 <= t < digits@.len() ==> is_digit_byte(digits@[t])) by {
            if find_byte_from(s@, B_DOT, 0) is Some {
                let d = find_byte_from(s@, B_DOT, 0)->Some_0;
                assert(forall|t: int|
                    0 <= t < digits@.len() ==> digits@[t] == if t < d {
                        s@[t]
                    } else {
                        s@[t + 1]
                    });
            }
        }
    }
    let m = digits.len();
    let mut num: u64 = 0;
    let mut k3: usize = 0;
    while k3 < m
        invariant
            m == digits@.len(),
            k3 <= m,
            all_digits(digits@),
            digits@ == digit_string(s@),
            num == digits_val(digits@.subrange(0, k3 as int)),
        decreases m - k3,
    {
        proof {
            assert(is_digit_byte(digits@[k3 as int]));
            assert(digits@.subrange(0, k3 + 1).drop_last() =~= digits@.subrange(0, k3 as int));
            assert(digits@.subrange(0, k3 + 1).last() == digits@[k3 as int]);
        }
        let dch = digits[k3] - 48;
        let limit = (u64::MAX - dch as u64) / 10;
        proof {
            vstd::arithmetic::div_mod::lemma_fundamental_div_mod(
                u64::MAX - dch as u64,
                10,
            );
            vstd::arithmetic::div_mod::lemma_mod_bound(u64::MAX - dch as u64, 10);
        }
        if num > limit {
            proof {
                lemma_digits_val_prefix(digits@, k3 + 1);
                assert(digits_val(digits@) > u64::MAX);
            }
            return Ratio { num: 1, den: 1 };
        }
        num = num * 10 + dch as u64;
        k3 += 1;
    }
    proof {
        assert(digits@.subrange(0, m as int) =~= digits@);
    }
    let fl = n - frac_start;
    if fl > 19 {
        proof {
            reveal_with_fuel(pow10, 21);
            lemma_pow10_monotone(20, fl as nat);
            assert(frac_len(s@) == fl);
            assert(ratio_den_spec(s@) > u64::MAX);
        }
        return Ratio { num: 1, den: 1 };
    }
    let mut den: u64 = 1;
    let mut j: usize = 0;
    while j < fl
        invariant
            j <= fl <= 19,
            den == pow10(j as nat),
        decreases fl - j,
    {
        proof {
            reveal_with_fuel(pow10, 21);
            lemma_pow10_monotone(j as nat, 18);
        }
        den = den * 10;
        j += 1;
    }
    proof {
        assert(frac_len(s@) == fl);
        lemma_pow10_pos(fl as nat);
    }
    Ratio { num, den }
}

} // verus!

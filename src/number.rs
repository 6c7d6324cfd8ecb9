//! Decimal numerals: lengths, identity percentages, and their text.
use vstd::prelude::*;
use crate::text::{
    all_digits, digit_char, digit_val, digits_value, find_from, find_in, lemma_find_from, is_digit, nat_str, pow10,
    push_nat, push_str,
};

verus! {

/// A leading `+` is allowed before a numeral, as `str::parse` allows it.
pub open spec fn strip_plus(t: Seq<char>) -> Seq<char> {
    if t.len() > 0 && t[0] == '+' {
        t.drop_first()
    } else {
        t
    }
}

/// An unsigned 32-bit numeral: an optional `+`, then one or more digits.
pub open spec fn spec_parse_u32(t: Seq<char>) -> Option<u32> {
    let d = strip_plus(t);
    if d.len() > 0 && all_digits(d) && digits_value(d) <= u32::MAX {
        Some(digits_value(d) as u32)
    } else {
        None
    }
}

/// A percentage identity, held exactly as the decimal `mantissa / 10^places`.
#[derive(Clone, Copy, Debug, PartialEq, Eq, Structural)]
pub struct Identity {
    pub mantissa: u64,
    pub places: usize,
}

/// The parts of a decimal numeral around its first `.`.
pub open spec fn split_dot(d: Seq<char>) -> (Seq<char>, Seq<char>) {
    match find_from(d, seq!['.'], 0) {
        Some(k) => (d.take(k), d.skip(k + 1)),
        None => (d, Seq::empty()),
    }
}

/// A decimal numeral: an optional `+`, digits, and optionally a `.` followed
/// by digits, with at least one digit in all, and at most `u64::MAX` when
/// read without its `.`, and also when rounded to hundredths (so that it can
/// be written and read back). Signs other than `+`, exponents, and the words
/// `inf` and `NaN` are not percentages and are refused.
pub open spec fn spec_parse_identity(t: Seq<char>) -> Option<Identity> {
    let d = strip_plus(t);
    let (ip, fp) = split_dot(d);
    if ip.len() + fp.len() > 0 && all_digits(ip) && all_digits(fp) && digits_value(ip + fp)
        <= u64::MAX && hundredths(digits_value(ip + fp), fp.len()) <= u64::MAX {
        Some(Identity { mantissa: digits_value(ip + fp) as u64, places: fp.len() as usize })
    } else {
        None
    }
}

/// `m / 10^p` rounded to two decimal places, ties to even, in hundredths.
pub open spec fn hundredths(m: nat, p: nat) -> nat {
    if p <= 2 {
        m * pow10((2 - p) as nat)
    } else {
        let d = pow10((p - 2) as nat);
        let q = m / d;
        let r = m % d;
        if r * 2 > d || (r * 2 == d && q % 2 == 1) {
            q + 1
        } else {
            q
        }
    }
}

impl Identity {
    pub open spec fn spec_hundredths(self) -> nat {
        hundredths(self.mantissa as nat, self.places as nat)
    }

    /// The value rounded to two decimal places, in hundredths.
    pub fn hundredths(&self) -> (r: u128)
        ensures
            r == self.spec_hundredths(),
    {
        let m = self.mantissa as u128;
        if self.places <= 2 {
            proof {
                reveal_with_fuel(pow10, 3);
                assert(pow10(0) == 1);
                assert(pow10(1) == 10);
                assert(pow10(2) == 100);
            }
            if self.places == 0 {
                m * 100
            } else if self.places == 1 {
                m * 10
            } else {
                proof {
                    assert(self.places == 2);
                    assert(hundredths(m as nat, 2) == m as nat * pow10(0));
                }
                m
            }
        } else if self.places - 2 >= 20 {
            proof {
                lemma_pow10_mono(20, (self.places - 2) as nat);
                lemma_pow10_20();
                let d = pow10((self.places - 2) as nat);
                assert(m * 2 < d);
                vstd::arithmetic::div_mod::lemma_small_mod(m as nat, d);
                vstd::arithmetic::div_mod::lemma_basic_div(m as int, d as int);
                assert(hundredths(m as nat, self.places as nat) == 0);
            }
            0
        } else {
            let k = self.places - 2;
            let mut d: u128 = 1;
            let mut i: usize = 0;
            while i < k
                invariant
                    k < 20,
                    i <= k,
                    d == pow10(i as nat),
                decreases k - i,
            {
                proof {
                    lemma_pow10_mono(i as nat, 19);
                    lemma_pow10_20();
                }
                d = d * 10;
                i += 1;
            }
            proof {
                lemma_pow10_mono(0, k as nat);
                lemma_pow10_mono(k as nat, 19);
                lemma_pow10_20();
            }
            let q = m / d;
            let r = m % d;
            if r * 2 > d || (r * 2 == d && q % 2 == 1) {
                q + 1
            } else {
                q
            }
        }
    }
}

/// A prefix of a run of digits denotes no more than the whole run.
pub proof fn lemma_digits_prefix(s: Seq<char>, k: int)
    requires
        0 <= k <= s.len(),
        all_digits(s),
    ensures
        digits_value(s.take(k)) <= digits_value(s),
    decreases s.len(),
{
    if k < s.len() {
        assert(all_digits(s.drop_last()));
        lemma_digits_prefix(s.drop_last(), k);
        assert(s.drop_last().take(k) =~= s.take(k));
    } else {
        assert(s.take(k) =~= s);
    }
}

/// Reads the digits `s[a..b]` as a number no larger than `max`.
pub fn parse_digits(s: &Vec<char>, a: usize, b: usize, max: u64) -> (r: Option<u64>)
    requires
        a <= b <= s@.len(),
    ensures
        ({
            let t = s@.subrange(a as int, b as int);
            match r {
                Some(v) => all_digits(t) && digits_value(t) <= max && v == digits_value(t),
                None => !(all_digits(t) && digits_value(t) <= max),
            }
        }),
{
    let ghost t = s@.subrange(a as int, b as int);
    let mut acc: u64 = 0;
    let mut i: usize = a;
    while i < b
        invariant
            a <= i <= b <= s@.len(),
            t == s@.subrange(a as int, b as int),
            all_digits(s@.subrange(a as int, i as int)),
            acc == digits_value(s@.subrange(a as int, i as int)),
            acc <= max,
        decreases b - i,
    {
        let c = s[i];
        let ghost next = s@.subrange(a as int, i + 1);
        assert(next.drop_last() =~= s@.subrange(a as int, i as int));
        assert(t.take(i + 1 - a) =~= next);
        if !('0' <= c && c <= '9') {
            assert(!is_digit(t[i - a]));
            return None;
        }
        let d = (c as u32 - '0' as u32) as u64;
        assert(d == digit_val(c));
        if d > max || acc > (max - d) / 10 {
            proof {
                assert(all_digits(next));
                if all_digits(t) {
                    lemma_digits_prefix(t, i + 1 - a);
                }
            }
            return None;
        }
        acc = acc * 10 + d;
        i += 1;
    }
    assert(s@.subrange(a as int, i as int) =~= t);
    Some(acc)
}

/// Reads `s[a..b]` as an unsigned 32-bit numeral.
pub fn parse_u32_in(s: &Vec<char>, a: usize, b: usize) -> (r: Option<u32>)
    requires
        a <= b <= s@.len(),
    ensures
        r == spec_parse_u32(s@.subrange(a as int, b as int)),
{
    let ghost t = s@.subrange(a as int, b as int);
    let mut a2 = a;
    if a < b && s[a] == '+' {
        a2 = a + 1;
    }
    assert(strip_plus(t) =~= s@.subrange(a2 as int, b as int));
    if a2 == b {
        return None;
    }
    match parse_digits(s, a2, b, 0xffff_ffff) {
        Some(v) => Some(v as u32),
        None => None,
    }
}

/// Reads `s[a..b]` as a decimal identity.
pub fn parse_identity_in(s: &Vec<char>, a: usize, b: usize) -> (r: Option<Identity>)
    requires
        a <= b <= s@.len(),
    ensures
        r == spec_parse_identity(s@.subrange(a as int, b as int)),
{
    let ghost t = s@.subrange(a as int, b as int);
    let mut a2 = a;
    if a < b && s[a] == '+' {
        a2 = a + 1;
    }
    let ghost d = s@.subrange(a2 as int, b as int);
    assert(strip_plus(t) =~= d);
    let dot = vec!['.'];
    assert(dot@ =~= seq!['.']);
    let (ie, fs) = match find_in(s, &dot, a2, b) {
        Some(k) => {
            proof {
                lemma_find_from(d, dot@, 0);
            }
            assert(d.take(k - a2) =~= s@.subrange(a2 as int, k as int));
            assert(d.skip(k - a2 + 1) =~= s@.subrange(k + 1, b as int));
            (k, k + 1)
        },
        None => {
            assert(s@.subrange(b as int, b as int) =~= Seq::<char>::empty());
            (b, b)
        },
    };
    let mut digits: Vec<char> = Vec::new();
    let mut i: usize = a2;
    while i < ie
        invariant
            a2 <= i <= ie <= b <= s@.len(),
            digits@ == s@.subrange(a2 as int, i as int),
        decreases ie - i,
    {
        digits.push(s[i]);
        i += 1;
        assert(digits@ =~= s@.subrange(a2 as int, i as int));
    }
    let mut j: usize = fs;
    while j < b
        invariant
            ie <= fs <= j <= b <= s@.len(),
            digits@ == s@.subrange(a2 as int, ie as int) + s@.subrange(fs as int, j as int),
        decreases b - j,
    {
        digits.push(s[j]);
        j += 1;
        assert(digits@ =~= s@.subrange(a2 as int, ie as int) + s@.subrange(fs as int, j as int));
    }
    let ghost ip = s@.subrange(a2 as int, ie as int);
    let ghost fp = s@.subrange(fs as int, b as int);
    assert(split_dot(d) == (ip, fp));
    if digits.len() == 0 {
        return None;
    }
    assert(digits@.subrange(0, digits@.len() as int) =~= ip + fp);
    assert(all_digits(ip + fp) == (all_digits(ip) && all_digits(fp))) by {
        if all_digits(ip) && all_digits(fp) {
            assert forall|k: int| 0 <= k < (ip + fp).len() implies is_digit(#[trigger] (ip
                + fp)[k]) by {
                if k < ip.len() {
                    assert(is_digit(ip[k]));
                } else {
                    assert(is_digit(fp[k - ip.len()]));
                }
            }
        }
        if all_digits(ip + fp) {
            assert forall|k: int| 0 <= k < ip.len() implies is_digit(#[trigger] ip[k]) by {
                assert(is_digit((ip + fp)[k]));
            }
            assert forall|k: int| 0 <= k < fp.len() implies is_digit(#[trigger] fp[k]) by {
                assert(is_digit((ip + fp)[k + ip.len()]));
            }
        }
    }
    match parse_digits(&digits, 0, digits.len(), 0xffff_ffff_ffff_ffff) {
        Some(v) => {
            let x = Identity { mantissa: v, places: b - fs };
            if x.hundredths() <= 0xffff_ffff_ffff_ffff {
                Some(x)
            } else {
                None
            }
        },
        None => None,
    }
}

/// The text of an identity: its value to two decimal places.
pub open spec fn identity_str(h: nat) -> Seq<char> {
    nat_str(h / 100) + seq!['.', digit_char((h % 100) / 10), digit_char(h % 10)]
}

/// Appends the identity rounded to two decimal places, as in `99.89`.
pub fn push_identity(out: &mut String, id: &Identity)
    ensures
        final(out)@ == old(out)@ + identity_str(id.spec_hundredths()),
{
    let h = id.hundredths();
    push_nat(out, h / 100);
    push_str(out, ".");
    push_nat(out, (h % 100) / 10);
    push_nat(out, h % 10);
    proof {
        reveal_strlit(".");
        assert(nat_str(((h % 100) / 10) as nat) == seq![digit_char(((h % 100) / 10) as nat)]);
        assert(nat_str((h % 10) as nat) == seq![digit_char((h % 10) as nat)]);
        assert(final(out)@ =~= old(out)@ + identity_str(id.spec_hundredths()));
    }
}

pub proof fn lemma_pow10_mono(a: nat, b: nat)
    requires
        a <= b,
    ensures
        pow10(a) <= pow10(b),
        pow10(a) > 0,
    decreases b,
{
    if b > a {
        lemma_pow10_mono(a, (b - 1) as nat);
    } else if a > 0 {
        lemma_pow10_mono((a - 1) as nat, (a - 1) as nat);
    }
}

pub proof fn lemma_pow10_20()
    ensures
        pow10(19) == 10000000000000000000nat,
        pow10(20) == 100000000000000000000nat,
{
    reveal_with_fuel(pow10, 21);
}

} // verus!

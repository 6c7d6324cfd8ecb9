//! Character-level helpers: whitespace, substring search, digits.
use vstd::prelude::*;
use vstd::string::*;
use vstd::std_specs::iter::IteratorSpec;

verus! {

broadcast use vstd::string::group_string_axioms;

/// Characters with the Unicode `White_Space` property, the separators of
/// `str::split_whitespace`.
pub open spec fn is_ws(c: char) -> bool {
    c == ' ' || ('\t' <= c && c <= '\r') || c == '\u{85}' || c == '\u{a0}' || c == '\u{1680}'
        || ('\u{2000}' <= c && c <= '\u{200a}') || c == '\u{2028}' || c == '\u{2029}'
        || c == '\u{202f}' || c == '\u{205f}' || c == '\u{3000}'
}

pub fn is_whitespace(c: char) -> (r: bool)
    ensures
        r == is_ws(c),
{
    c == ' ' || ('\t' <= c && c <= '\r') || c == '\u{85}' || c == '\u{a0}' || c == '\u{1680}'
        || ('\u{2000}' <= c && c <= '\u{200a}') || c == '\u{2028}' || c == '\u{2029}'
        || c == '\u{202f}' || c == '\u{205f}' || c == '\u{3000}'
}

/// The characters of a string, in order.
pub fn chars_of(s: &str) -> (v: Vec<char>)
    ensures
        v@ == s@,
{
    let mut v: Vec<char> = Vec::new();
    for c in it: s.chars()
        invariant
            v@ == it.seq().take(it.index() as int),
    {
        v.push(c);
    }
    v
}


/// The first index at or after `i` where `pat` occurs in `s`.
pub open spec fn find_from(s: Seq<char>, pat: Seq<char>, i: int) -> Option<int>
    decreases s.len() + 1 - i,
{
    if i < 0 || i + pat.len() > s.len() {
        None
    } else if s.subrange(i, i + pat.len()) == pat {
        Some(i)
    } else {
        find_from(s, pat, i + 1)
    }
}

/// What a found index means: an occurrence, and none before it.
pub proof fn lemma_find_from(s: Seq<char>, pat: Seq<char>, i: int)
    requires
        0 <= i,
    ensures
        match find_from(s, pat, i) {
            Some(k) => i <= k && k + pat.len() <= s.len() && s.subrange(k, k + pat.len()) == pat
                && forall|j: int| i <= j < k ==> #[trigger] s.subrange(j, j + pat.len()) != pat,
            None => forall|j: int|
                i <= j && j + pat.len() <= s.len() ==> #[trigger] s.subrange(j, j + pat.len())
                    != pat,
        },
    decreases s.len() + 1 - i,
{
    if i + pat.len() > s.len() {
    } else if s.subrange(i, i + pat.len()) == pat {
    } else {
        lemma_find_from(s, pat, i + 1);
    }
}

/// An occurrence with none before it is what `find_from` finds.
pub proof fn lemma_find_first(s: Seq<char>, pat: Seq<char>, k: int)
    requires
        0 <= k,
        k + pat.len() <= s.len(),
        s.subrange(k, k + pat.len()) == pat,
        forall|j: int| 0 <= j < k ==> #[trigger] s.subrange(j, j + pat.len()) != pat,
    ensures
        find_from(s, pat, 0) == Some(k),
{
    lemma_find_first_from(s, pat, k, 0);
}

proof fn lemma_find_first_from(s: Seq<char>, pat: Seq<char>, k: int, i: int)
    requires
        0 <= i <= k,
        k + pat.len() <= s.len(),
        s.subrange(k, k + pat.len()) == pat,
        forall|j: int| 0 <= j < k ==> #[trigger] s.subrange(j, j + pat.len()) != pat,
    ensures
        find_from(s, pat, i) == Some(k),
    decreases k - i,
{
    if i < k {
        lemma_find_first_from(s, pat, k, i + 1);
    }
}

/// Where `pat` occurs nowhere, `find_from` finds nothing.
pub proof fn lemma_find_none(s: Seq<char>, pat: Seq<char>, i: int)
    requires
        0 <= i,
        forall|j: int| 0 <= j && j + pat.len() <= s.len() ==> #[trigger] s.subrange(j, j + pat.len()) != pat,
    ensures
        find_from(s, pat, i) is None,
    decreases s.len() + 1 - i,
{
    if i + pat.len() <= s.len() {
        lemma_find_none(s, pat, i + 1);
    }
}

/// Whether `pat` occurs in `s` at index `i`.
pub fn matches_at(s: &Vec<char>, pat: &Vec<char>, i: usize) -> (r: bool)
    requires
        i + pat@.len() <= s@.len(),
    ensures
        r == (s@.subrange(i as int, i + pat@.len()) == pat@),
{
    let n = s.len();
    let mut k: usize = 0;
    while k < pat.len()
        invariant
            n == s@.len(),
            k <= pat@.len(),
            i + pat@.len() <= s@.len(),
            forall|j: int| 0 <= j < k ==> s@[i + j] == pat@[j],
        decreases pat@.len() - k,
    {
        assert(i + k < s@.len());
        if s[i + k] != pat[k] {
            assert(s@.subrange(i as int, i + pat@.len())[k as int] != pat@[k as int]);
            return false;
        }
        k += 1;
    }
    assert(s@.subrange(i as int, i + pat@.len()) =~= pat@);
    true
}

/// Searches `s[start..end]` for `pat`; a found index is an index into `s`.
pub fn find_in(s: &Vec<char>, pat: &Vec<char>, start: usize, end: usize) -> (r: Option<usize>)
    requires
        start <= end <= s@.len(),
    ensures
        match r {
            Some(i) => start <= i && find_from(s@.subrange(start as int, end as int), pat@, 0)
                == Some(i - start),
            None => find_from(s@.subrange(start as int, end as int), pat@, 0) is None,
        },
{
    let ghost t = s@.subrange(start as int, end as int);
    let mut i: usize = start;
    while i <= end && pat.len() <= end - i
        invariant
            start <= i <= end,
            end <= s@.len(),
            t == s@.subrange(start as int, end as int),
            find_from(t, pat@, 0) == find_from(t, pat@, i - start),
        decreases end + 1 - i,
    {
        let m = matches_at(s, pat, i);
        assert(t.subrange(i - start, i - start + pat@.len()) =~= s@.subrange(
            i as int,
            i + pat@.len(),
        ));
        if m {
            return Some(i);
        }
        proof {
            if pat@.len() == 0 {
                assert(s@.subrange(i as int, i as int) =~= pat@);
            }
        }
        i += 1;
    }
    None
}

pub open spec fn is_digit(c: char) -> bool {
    '0' <= c && c <= '9'
}

pub open spec fn digit_val(c: char) -> nat {
    (c as u32 - '0' as u32) as nat
}

pub open spec fn all_digits(s: Seq<char>) -> bool {
    forall|i: int| 0 <= i < s.len() ==> is_digit(#[trigger] s[i])
}

/// The number that a run of decimal digits denotes.
pub open spec fn digits_value(s: Seq<char>) -> nat
    decreases s.len(),
{
    if s.len() == 0 {
        0
    } else {
        digits_value(s.drop_last()) * 10 + digit_val(s.last())
    }
}

pub open spec fn pow10(n: nat) -> nat
    decreases n,
{
    if n == 0 {
        1
    } else {
        10 * pow10((n - 1) as nat)
    }
}

pub open spec fn digit_char(d: nat) -> char {
    seq!['0', '1', '2', '3', '4', '5', '6', '7', '8', '9'][d as int]
}

/// The decimal numeral of `n`, without leading zeros.
pub open spec fn nat_str(n: nat) -> Seq<char>
    decreases n,
{
    if n < 10 {
        seq![digit_char(n)]
    } else {
        nat_str(n / 10) + seq![digit_char(n % 10)]
    }
}

pub fn push_str(out: &mut String, s: &str)
    ensures
        final(out)@ == old(out)@ + s@,
{
    out.append(s);
}

/// Appends the decimal numeral of `n`.
pub fn push_nat(out: &mut String, n: u128)
    ensures
        final(out)@ == old(out)@ + nat_str(n as nat),
    decreases n,
{
    if n >= 10 {
        push_nat(out, n / 10);
    }
    let digits = "0123456789";
    proof {
        reveal_strlit("0123456789");
    }
    let d = (n % 10) as usize;
    let one = digits.substring_char(d, d + 1);
    assert(one@ =~= seq![digit_char((n % 10) as nat)]);
    out.append(one);
    proof {
        if n < 10 {
            assert(n % 10 == n);
        }
    }
}

} // verus!

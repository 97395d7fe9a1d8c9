//! Byte-sequence helpers shared by the parser and the serializer.

use vstd::prelude::*;

verus! {

/// The decimal digits of `n`, most significant first, without leading zeros.
pub open spec fn decimal(n: nat) -> Seq<u8>
    decreases n,
{
    if n < 10 {
        seq![(48 + n) as u8]
    } else {
        decimal(n / 10).push((48 + n % 10) as u8)
    }
}

/// Appends every byte of `src` to `out`.
pub fn push_all(out: &mut Vec<u8>, src: &[u8])
    ensures
        final(out)@ == old(out)@ + src@,
{
    let mut i: usize = 0;
    while i < src.len()
        invariant
            i <= src@.len(),
            out@ == old(out)@ + src@.subrange(0, i as int),
        decreases src@.len() - i,
    {
        out.push(src[i]);
        i = i + 1;
        assert(src@.subrange(0, i as int) =~= src@.subrange(0, i - 1 as int).push(src@[i - 1]));
    }
    assert(src@.subrange(0, i as int) =~= src@);
}

/// A fresh vector holding the bytes of `s` from `lo` up to `hi`.
pub fn copy_range(s: &[u8], lo: usize, hi: usize) -> (r: Vec<u8>)
    requires
        lo <= hi <= s@.len(),
    ensures
        r@ == s@.subrange(lo as int, hi as int),
{
    let mut r: Vec<u8> = Vec::new();
    let mut i: usize = lo;
    while i < hi
        invariant
            lo <= i <= hi <= s@.len(),
            r@ == s@.subrange(lo as int, i as int),
        decreases hi - i,
    {
        r.push(s[i]);
        i = i + 1;
        assert(s@.subrange(lo as int, i as int) =~= s@.subrange(lo as int, i - 1 as int).push(
            s@[i - 1],
        ));
    }
    r
}

/// The decimal representation of `n`.
pub fn decimal_bytes(n: usize) -> (r: Vec<u8>)
    ensures
        r@ == decimal(n as nat),
{
    let mut digits: Vec<u8> = Vec::new();
    let mut m: usize = n;
    // digits holds the low-order digits of `n` in reverse order
    while m >= 10
        invariant
            decimal(n as nat) == decimal(m as nat) + digits@.reverse(),
        decreases m,
    {
        let d: u8 = (m % 10) as u8;
        proof {
            assert(decimal(m as nat) == decimal((m / 10) as nat).push((48 + d) as u8));
            assert(digits@.push((48 + d) as u8).reverse() =~= seq![(48 + d) as u8]
                + digits@.reverse());
        }
        digits.push(48 + d);
        m = m / 10;
    }
    let mut r: Vec<u8> = Vec::new();
    r.push(48 + m as u8);
    let mut k: usize = digits.len();
    while k > 0
        invariant
            k <= digits@.len(),
            decimal(n as nat) == r@ + digits@.subrange(0, k as int).reverse(),
        decreases k,
    {
        k = k - 1;
        assert(digits@.subrange(0, k + 1 as int).reverse() =~= seq![digits@[k as int]]
            + digits@.subrange(0, k as int).reverse());
        r.push(digits[k]);
    }
    assert(digits@.subrange(0, 0).reverse() =~= Seq::<u8>::empty());
    assert(r@ + Seq::<u8>::empty() =~= r@);
    r
}

/// `pat` stands in `s` starting at index `i`.
pub open spec fn occurs_at(s: Seq<u8>, pat: Seq<u8>, i: int) -> bool {
    0 <= i && i + pat.len() <= s.len() && s.subrange(i, i + pat.len()) == pat
}

/// The first index at or after `from` where `pat` stands in `s`.
pub open spec fn first_occurrence(s: Seq<u8>, pat: Seq<u8>, from: int) -> Option<int>
    decreases s.len() + 1 - from,
{
    if from < 0 || from + pat.len() > s.len() {
        None
    } else if occurs_at(s, pat, from) {
        Some(from)
    } else {
        first_occurrence(s, pat, from + 1)
    }
}

/// Whether `pat` stands in `s` starting at index `i`.
pub fn matches_at(s: &[u8], pat: &[u8], i: usize) -> (r: bool)
    ensures
        r == occurs_at(s@, pat@, i as int),
{
    if pat.len() > s.len() || i > s.len() - pat.len() {
        return false;
    }
    let n: usize = s.len();
    let mut k: usize = 0;
    while k < pat.len()
        invariant
            n == s@.len(),
            k <= pat@.len(),
            i + pat@.len() <= s@.len(),
            forall|j: int| 0 <= j < k ==> s@[i + j] == pat@[j],
        decreases pat@.len() - k,
    {
        let at: usize = i + k;
        if s[at] != pat[k] {
            assert(s@.subrange(i as int, i + pat@.len())[k as int] != pat@[k as int]);
            return false;
        }
        k = k + 1;
    }
    assert(s@.subrange(i as int, i + pat@.len()) =~= pat@);
    true
}

/// The first index at or after `from` where `pat` stands in `s`.
pub fn find(s: &[u8], pat: &[u8], from: usize) -> (r: Option<usize>)
    ensures
        r matches Some(i) ==> first_occurrence(s@, pat@, from as int) == Some(i as int),
        r is None ==> first_occurrence(s@, pat@, from as int) is None,
{
    if from > s.len() {
        return None;
    }
    let mut i: usize = from;
    while pat.len() <= s.len() - i
        invariant
            from <= i <= s@.len(),
            first_occurrence(s@, pat@, from as int) == first_occurrence(s@, pat@, i as int),
        decreases s@.len() - i,
    {
        if matches_at(s, pat, i) {
            return Some(i);
        }
        if i == s.len() {
            assert(s@.subrange(i as int, i as int) =~= pat@);
        }
        i = i + 1;
    }
    None
}

pub open spec fn is_digit(b: u8) -> bool {
    48 <= b <= 57
}

/// A non-empty run of ASCII decimal digits.
pub open spec fn all_digits(s: Seq<u8>) -> bool {
    s.len() > 0 && forall|i: int| 0 <= i < s.len() ==> is_digit(#[trigger] s[i])
}

/// The number that a run of decimal digits denotes.
pub open spec fn digits_value(s: Seq<u8>) -> nat
    decreases s.len(),
{
    if s.len() == 0 {
        0
    } else {
        digits_value(s.drop_last()) * 10 + (s.last() - 48) as nat
    }
}

proof fn lemma_digits_value_grows(s: Seq<u8>, i: int)
    requires
        0 <= i <= s.len(),
        forall|k: int| 0 <= k < s.len() ==> is_digit(#[trigger] s[k]),
    ensures
        digits_value(s.subrange(0, i)) <= digits_value(s),
    decreases s.len() - i,
{
    if i < s.len() {
        lemma_digits_value_grows(s, i + 1);
        assert(s.subrange(0, i + 1).drop_last() =~= s.subrange(0, i));
    } else {
        assert(s.subrange(0, i) =~= s);
    }
}

/// The number that `s` denotes if it is a run of decimal digits below `cap`;
/// `cap` otherwise.
pub open spec fn bounded_value(s: Seq<u8>, cap: nat) -> nat {
    if all_digits(s) && digits_value(s) < cap {
        digits_value(s)
    } else {
        cap
    }
}

/// Whether `s` is a non-empty run of decimal digits.
pub fn is_all_digits(s: &[u8]) -> (r: bool)
    ensures
        r == all_digits(s@),
{
    if s.len() == 0 {
        return false;
    }
    let mut i: usize = 0;
    while i < s.len()
        invariant
            i <= s@.len(),
            forall|k: int| 0 <= k < i ==> is_digit(#[trigger] s@[k]),
        decreases s@.len() - i,
    {
        if s[i] < 48 || s[i] > 57 {
            return false;
        }
        i = i + 1;
    }
    true
}

/// The number that `s` denotes if it is a run of decimal digits below `cap`;
/// `cap` otherwise.
pub fn digits_below(s: &[u8], cap: usize) -> (r: usize)
    ensures
        r == bounded_value(s@, cap as nat),
{
    if cap == 0 || !is_all_digits(s) {
        return cap;
    }
    let mut acc: u128 = 0;
    let mut j: usize = 0;
    while j < s.len()
        invariant
            j <= s@.len(),
            forall|k: int| 0 <= k < s@.len() ==> is_digit(#[trigger] s@[k]),
            acc == digits_value(s@.subrange(0, j as int)),
            acc < cap,
        decreases s@.len() - j,
    {
        assert(s@.subrange(0, j + 1 as int).drop_last() =~= s@.subrange(0, j as int));
        acc = acc * 10 + (s[j] - 48) as u128;
        j = j + 1;
        if acc >= cap as u128 {
            proof {
                lemma_digits_value_grows(s@, j as int);
            }
            return cap;
        }
    }
    assert(s@.subrange(0, j as int) =~= s@);
    acc as usize
}

pub proof fn lemma_first_occurrence(s: Seq<u8>, pat: Seq<u8>, from: int)
    ensures
        first_occurrence(s, pat, from) matches Some(i) ==> from <= i && occurs_at(s, pat, i),
    decreases s.len() + 1 - from,
{
    if !(from < 0 || from + pat.len() > s.len()) && !occurs_at(s, pat, from) {
        lemma_first_occurrence(s, pat, from + 1);
    }
}

/// Whether the two byte sequences are equal.
pub fn same_bytes(a: &[u8], b: &[u8]) -> (r: bool)
    ensures
        r == (a@ == b@),
{
    if a.len() != b.len() {
        return false;
    }
    let r = matches_at(a, b, 0);
    assert(a@.subrange(0, b@.len() as int) =~= a@);
    r
}

/// `pat` first stands at `n` from `from` on, where no byte before `n` starts it.
pub proof fn lemma_first_occurrence_at(s: Seq<u8>, pat: Seq<u8>, from: int, n: int)
    requires
        0 <= from <= n,
        pat.len() > 0,
        occurs_at(s, pat, n),
        forall|i: int| from <= i < n ==> s[i] != pat[0],
    ensures
        first_occurrence(s, pat, from) == Some(n),
    decreases n - from,
{
    if from < n {
        if occurs_at(s, pat, from) {
            assert(s.subrange(from, from + pat.len())[0] == pat[0]);
        }
        lemma_first_occurrence_at(s, pat, from + 1, n);
    }
}

/// `pat` does not stand in `s` from `from` on, where no byte starts it.
pub proof fn lemma_no_occurrence(s: Seq<u8>, pat: Seq<u8>, from: int)
    requires
        0 <= from,
        pat.len() > 0,
        forall|i: int| from <= i < s.len() ==> s[i] != pat[0],
    ensures
        first_occurrence(s, pat, from) is None,
    decreases s.len() + 1 - from,
{
    if from + pat.len() <= s.len() {
        if occurs_at(s, pat, from) {
            assert(s.subrange(from, from + pat.len())[0] == pat[0]);
        }
        lemma_no_occurrence(s, pat, from + 1);
    }
}

/// No byte before `n` starts `pat`: the search may start at `n`.
pub proof fn lemma_first_occurrence_skip(s: Seq<u8>, pat: Seq<u8>, from: int, n: int)
    requires
        0 <= from <= n,
        pat.len() > 0,
        forall|i: int| from <= i < n ==> s[i] != pat[0],
    ensures
        first_occurrence(s, pat, from) == first_occurrence(s, pat, n),
    decreases n - from,
{
    if from < n {
        if occurs_at(s, pat, from) {
            assert(s.subrange(from, from + pat.len())[0] == pat[0]);
        }
        lemma_first_occurrence_skip(s, pat, from + 1, n);
    }
}

} // verus!

//! Decimal digit runs: their value, their shortest form, and scans over byte
//! buffers, shared by the wire codec and the stream id parser.
use vstd::prelude::*;

verus! {

pub open spec fn is_digit(b: u8) -> bool {
    48 <= b <= 57
}

/// The shortest decimal form of `n`: no sign, no leading zero except for `0`.
pub open spec fn dec_digits(n: nat) -> Seq<u8>
    decreases n,
{
    if n < 10 {
        seq![(48 + n) as u8]
    } else {
        dec_digits(n / 10).push((48 + n % 10) as u8)
    }
}

/// The value of a run of decimal digits, most significant first.
pub open spec fn digits_val(s: Seq<u8>) -> nat
    decreases s.len(),
{
    if s.len() == 0 {
        0
    } else {
        (digits_val(s.drop_last()) * 10 + (s.last() - 48)) as nat
    }
}

/// The first position at or after `i` that does not hold a decimal digit,
/// or the end of the buffer.
pub open spec fn digits_end(s: Seq<u8>, i: int) -> int
    decreases s.len() - i,
{
    if i < 0 || i >= s.len() {
        s.len() as int
    } else if !is_digit(s[i]) {
        i
    } else {
        digits_end(s, i + 1)
    }
}

/// The first position at or after `i` holding a carriage return, or the end
/// of the buffer.
pub open spec fn find_cr(s: Seq<u8>, i: int) -> int
    decreases s.len() - i,
{
    if i < 0 || i >= s.len() {
        s.len() as int
    } else if s[i] == 13 {
        i
    } else {
        find_cr(s, i + 1)
    }
}

pub broadcast proof fn lemma_digits_end_bounds(s: Seq<u8>, i: int)
    requires
        0 <= i <= s.len(),
    ensures
        i <= #[trigger] digits_end(s, i) <= s.len(),
    decreases s.len() - i,
{
    if i < s.len() && is_digit(s[i]) {
        lemma_digits_end_bounds(s, i + 1);
    }
}

/// Everything before the scan's stop is a digit, and the stop is either the
/// buffer's end or a non-digit.
pub broadcast proof fn lemma_digits_end_chars(s: Seq<u8>, i: int)
    requires
        0 <= i <= s.len(),
    ensures
        forall|k: int| i <= k < #[trigger] digits_end(s, i) ==> is_digit(s[k]),
        digits_end(s, i) < s.len() ==> !is_digit(s[digits_end(s, i)]),
    decreases s.len() - i,
{
    lemma_digits_end_bounds(s, i);
    if i < s.len() && is_digit(s[i]) {
        lemma_digits_end_chars(s, i + 1);
    }
}

pub broadcast proof fn lemma_find_cr_bounds(s: Seq<u8>, i: int)
    requires
        0 <= i <= s.len(),
    ensures
        i <= #[trigger] find_cr(s, i) <= s.len(),
    decreases s.len() - i,
{
    if i < s.len() && s[i] != 13 {
        lemma_find_cr_bounds(s, i + 1);
    }
}

/// No carriage return before the scan's stop, and the stop is either the
/// buffer's end or a carriage return.
pub broadcast proof fn lemma_find_cr_chars(s: Seq<u8>, i: int)
    requires
        0 <= i <= s.len(),
    ensures
        forall|k: int| i <= k < #[trigger] find_cr(s, i) ==> s[k] != 13,
        find_cr(s, i) < s.len() ==> s[find_cr(s, i)] == 13,
    decreases s.len() - i,
{
    lemma_find_cr_bounds(s, i);
    if i < s.len() && s[i] != 13 {
        lemma_find_cr_chars(s, i + 1);
    }
}

/// Where a digit run is known to sit, the scan stops exactly at its end.
pub proof fn lemma_digits_end_run(s: Seq<u8>, a: int, b: int)
    requires
        0 <= a <= b <= s.len(),
        forall|k: int| a <= k < b ==> is_digit(#[trigger] s[k]),
        b == s.len() || !is_digit(s[b]),
    ensures
        digits_end(s, a) == b,
    decreases b - a,
{
    if a < b {
        lemma_digits_end_run(s, a + 1, b);
    }
}

/// Where the first carriage return is known to sit, the scan stops there.
pub proof fn lemma_find_cr_run(s: Seq<u8>, a: int, b: int)
    requires
        0 <= a <= b <= s.len(),
        forall|k: int| a <= k < b ==> #[trigger] s[k] != 13,
        b == s.len() || s[b] == 13,
    ensures
        find_cr(s, a) == b,
    decreases b - a,
{
    if a < b {
        lemma_find_cr_run(s, a + 1, b);
    }
}

/// Values of longer digit prefixes never shrink.
pub proof fn lemma_digits_val_prefix_mono(s: Seq<u8>, i: int, j: int)
    requires
        0 <= i <= j <= s.len(),
        forall|k: int| 0 <= k < j ==> is_digit(#[trigger] s[k]),
    ensures
        digits_val(s.subrange(0, i)) <= digits_val(s.subrange(0, j)),
    decreases j - i,
{
    if i < j {
        lemma_digits_val_prefix_mono(s, i, j - 1);
        assert(s.subrange(0, j).drop_last() =~= s.subrange(0, j - 1));
        assert(digits_val(s.subrange(0, j)) == (digits_val(s.subrange(0, j - 1)) * 10 + (s[j - 1]
            - 48)) as nat);
    }
}

/// Every byte of the shortest decimal form is a digit.
pub proof fn lemma_dec_digits_are_digits(n: nat)
    ensures
        forall|k: int| 0 <= k < dec_digits(n).len() ==> is_digit(#[trigger] dec_digits(n)[k]),
        dec_digits(n).len() >= 1,
    decreases n,
{
    if n >= 10 {
        lemma_dec_digits_are_digits(n / 10);
    }
}

/// Reading the shortest decimal form back gives the value.
pub proof fn lemma_digits_val_dec_digits(n: nat)
    ensures
        digits_val(dec_digits(n)) == n,
    decreases n,
{
    if n < 10 {
        let s = dec_digits(n);
        assert(s =~= seq![(48 + n) as u8]);
        assert(s.drop_last() =~= Seq::<u8>::empty());
        assert(digits_val(s) == (digits_val(s.drop_last()) * 10 + (s.last() - 48)) as nat);
    } else {
        lemma_digits_val_dec_digits(n / 10);
        lemma_dec_digits_are_digits(n / 10);
        lemma_digits_val_push(dec_digits(n / 10), (48 + n % 10) as u8);
    }
}

pub open spec fn pow10(k: nat) -> nat
    decreases k,
{
    if k == 0 {
        1
    } else {
        10 * pow10((k - 1) as nat)
    }
}

/// A digit run of length `l` holds a value below `10^l`.
pub proof fn lemma_digits_val_bound(s: Seq<u8>)
    requires
        forall|k: int| 0 <= k < s.len() ==> is_digit(#[trigger] s[k]),
    ensures
        digits_val(s) < pow10(s.len()),
    decreases s.len(),
{
    if s.len() > 0 {
        lemma_digits_val_bound(s.drop_last());
    }
}

/// A value below `10^l` takes at most `l` digits, for positive `l`.
pub proof fn lemma_dec_digits_len(n: nat, l: nat)
    requires
        l >= 1,
        n < pow10(l),
    ensures
        dec_digits(n).len() <= l,
    decreases n,
{
    if n >= 10 {
        assert(pow10(l) == 10 * pow10((l - 1) as nat));
        lemma_dec_digits_len(n / 10, (l - 1) as nat);
    }
}

/// The shortest decimal form is never longer than any digit run with the
/// same value.
pub proof fn lemma_dec_digits_shortest(s: Seq<u8>)
    requires
        forall|k: int| 0 <= k < s.len() ==> is_digit(#[trigger] s[k]),
        s.len() >= 1,
    ensures
        dec_digits(digits_val(s)).len() <= s.len(),
{
    lemma_digits_val_bound(s);
    lemma_dec_digits_len(digits_val(s), s.len());
}

/// Appending a digit multiplies the value by ten and adds it.
pub proof fn lemma_digits_val_push(s: Seq<u8>, b: u8)
    requires
        is_digit(b),
    ensures
        digits_val(s.push(b)) == digits_val(s) * 10 + (b - 48),
{
    assert(s.push(b).drop_last() =~= s);
    assert(s.push(b).last() == b);
    assert(s.push(b).len() == s.len() + 1);
    assert(digits_val(s.push(b)) == (digits_val(s.push(b).drop_last()) * 10 + (s.push(b).last()
        - 48)) as nat);
}

/// The exact decimal digits of `n`, least work for the verifier: a direct
/// recursive mirror of `dec_digits`.
pub fn u64_digits(n: u64) -> (r: Vec<u8>)
    ensures
        r@ == dec_digits(n as nat),
    decreases n,
{
    if n < 10 {
        let mut r: Vec<u8> = Vec::new();
        r.push(48 + n as u8);
        assert(r@ =~= dec_digits(n as nat));
        r
    } else {
        let mut r = u64_digits(n / 10);
        r.push(48 + (n % 10) as u8);
        r
    }
}

/// The exact decimal digits of a doubled length, which can outgrow a
/// machine word.
pub fn u128_digits(n: u128) -> (r: Vec<u8>)
    ensures
        r@ == dec_digits(n as nat),
    decreases n,
{
    if n < 10 {
        let mut r: Vec<u8> = Vec::new();
        r.push(48 + n as u8);
        assert(r@ =~= dec_digits(n as nat));
        r
    } else {
        let mut r = u128_digits(n / 10);
        r.push(48 + (n % 10) as u8);
        r
    }
}

/// How many digits the shortest decimal form of `n` has.
pub fn u64_digit_count(n: u64) -> (r: usize)
    ensures
        r == dec_digits(n as nat).len(),
        1 <= r <= 20,
    decreases n,
{
    proof {
        lemma_dec_digits_len_le_20(n as nat);
    }
    if n < 10 {
        1
    } else {
        1 + u64_digit_count(n / 10)
    }
}

/// A machine word's value never takes more than twenty digits.
pub proof fn lemma_dec_digits_len_le_20(n: nat)
    requires
        n <= u64::MAX,
    ensures
        dec_digits(n).len() <= 20,
{
    assert(pow10(20) > u64::MAX) by {
        reveal_with_fuel(pow10, 21);
    }
    lemma_dec_digits_len(n, 20);
}

/// The first position at or after `i` holding byte `b`, or the end of the
/// buffer.
pub open spec fn find_byte(s: Seq<u8>, b: u8, i: int) -> int
    decreases s.len() - i,
{
    if i < 0 || i >= s.len() {
        s.len() as int
    } else if s[i] == b {
        i
    } else {
        find_byte(s, b, i + 1)
    }
}

pub broadcast proof fn lemma_find_byte_bounds(s: Seq<u8>, b: u8, i: int)
    requires
        0 <= i <= s.len(),
    ensures
        i <= #[trigger] find_byte(s, b, i) <= s.len(),
    decreases s.len() - i,
{
    if i < s.len() && s[i] != b {
        lemma_find_byte_bounds(s, b, i + 1);
    }
}

/// The sought byte does not occur before the scan's stop, and the stop is
/// either the buffer's end or an occurrence.
pub broadcast proof fn lemma_find_byte_chars(s: Seq<u8>, b: u8, i: int)
    requires
        0 <= i <= s.len(),
    ensures
        forall|k: int| i <= k < #[trigger] find_byte(s, b, i) ==> s[k] != b,
        find_byte(s, b, i) < s.len() ==> s[find_byte(s, b, i)] == b,
    decreases s.len() - i,
{
    lemma_find_byte_bounds(s, b, i);
    if i < s.len() && s[i] != b {
        lemma_find_byte_chars(s, b, i + 1);
    }
}

/// Whether two byte strings hold the same bytes.
pub fn bytes_eq(a: &[u8], b: &[u8]) -> (r: bool)
    ensures
        r == (a@ == b@),
{
    if a.len() != b.len() {
        return false;
    }
    let n = a.len();
    for i in 0..n
        invariant
            n == a@.len() == b@.len(),
            forall|k: int| 0 <= k < i ==> a@[k] == b@[k],
    {
        if a[i] != b[i] {
            return false;
        }
    }
    assert(a@ =~= b@);
    true
}

} // verus!

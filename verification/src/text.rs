//! Decimal text of integers and fixed-point numbers.
use vstd::prelude::*;

verus! {

/// The character of a decimal digit.
pub open spec fn digit_char(d: int) -> char {
    if d == 0 {
        '0'
    } else if d == 1 {
        '1'
    } else if d == 2 {
        '2'
    } else if d == 3 {
        '3'
    } else if d == 4 {
        '4'
    } else if d == 5 {
        '5'
    } else if d == 6 {
        '6'
    } else if d == 7 {
        '7'
    } else if d == 8 {
        '8'
    } else {
        '9'
    }
}

/// Decimal digits of `n`, most significant first, without leading zeros.
pub open spec fn decimal(n: nat) -> Seq<char>
    decreases n,
{
    if n < 10 {
        seq![digit_char(n as int)]
    } else {
        decimal(n / 10).push(digit_char((n % 10) as int))
    }
}

/// Decimal text of an integer, with a leading `-` when it is negative.
pub open spec fn signed_decimal(n: int) -> Seq<char> {
    if n < 0 {
        seq!['-'] + decimal((-n) as nat)
    } else {
        decimal(n as nat)
    }
}

/// Appends `c` to `s`.
///
/// Calls `String::push`; the contract claims that the text grows by exactly `c`.
#[verifier::external_body]
pub fn push_char(s: &mut String, c: char)
    ensures
        final(s)@ == old(s)@.push(c),
{
    s.push(c);
}

fn digit_to_char(d: u64) -> (c: char)
    requires
        d < 10,
    ensures
        c == digit_char(d as int),
{
    if d == 0 {
        '0'
    } else if d == 1 {
        '1'
    } else if d == 2 {
        '2'
    } else if d == 3 {
        '3'
    } else if d == 4 {
        '4'
    } else if d == 5 {
        '5'
    } else if d == 6 {
        '6'
    } else if d == 7 {
        '7'
    } else if d == 8 {
        '8'
    } else {
        '9'
    }
}

/// Appends the decimal digits of `n` to `s`.
pub fn push_decimal(s: &mut String, n: u64)
    ensures
        final(s)@ == old(s)@ + decimal(n as nat),
{
    let mut digits: Vec<char> = Vec::new();
    let mut m = n;
    while m >= 10
        invariant
            decimal(n as nat) == decimal(m as nat) + digits@,
        decreases m,
    {
        let d = digit_to_char(m % 10);
        proof {
            assert(decimal(m as nat) == decimal((m / 10) as nat).push(d));
            assert(decimal((m / 10) as nat) + seq![d].add(digits@) =~= decimal(m as nat) + digits@);
        }
        let ghost before = digits@;
        digits.insert(0, d);
        proof {
            assert(digits@ =~= seq![d].add(before));
        }
        m = m / 10;
    }
    let d = digit_to_char(m);
    let ghost before = digits@;
    digits.insert(0, d);
    proof {
        assert(digits@ =~= seq![d].add(before));
    }
    proof {
        assert(decimal(n as nat) =~= digits@);
    }
    let ghost start = s@;
    let len = digits.len();
    for i in 0..len
        invariant
            len == digits@.len(),
            s@ == start + digits@.take(i as int),
    {
        push_char(s, digits[i]);
        proof {
            assert(digits@.take(i + 1) =~= digits@.take(i as int).push(digits@[i as int]));
        }
    }
    proof {
        assert(digits@.take(len as int) =~= digits@);
    }
}

/// Appends the decimal text of `n` to `s`, with a leading `-` when negative.
pub fn push_signed_decimal(s: &mut String, n: i64)
    ensures
        final(s)@ == old(s)@ + signed_decimal(n as int),
{
    if n < 0 {
        push_char(s, '-');
        let magnitude: u64 = if n == i64::MIN {
            9_223_372_036_854_775_808u64
        } else {
            (-n) as u64
        };
        push_decimal(s, magnitude);
        proof {
            assert(final(s)@ =~= old(s)@ + signed_decimal(n as int));
        }
    } else {
        push_decimal(s, n as u64);
    }
}

/// The characters of `s`, in order.
pub fn str_chars(s: &str) -> (v: Vec<char>)
    ensures
        v@ == s@,
{
    let n = s.unicode_len();
    let mut v: Vec<char> = Vec::with_capacity(n);
    for i in 0..n
        invariant
            n == s@.len(),
            v@ == s@.take(i as int),
    {
        v.push(s.get_char(i));
        proof {
            assert(v@ =~= s@.take(i + 1));
        }
    }
    proof {
        assert(s@.take(n as int) =~= s@);
    }
    v
}

/// Whether `a` and `b` hold the same text.
pub fn str_eq(a: &str, b: &str) -> (r: bool)
    ensures
        r == (a@ == b@),
{
    let n = a.unicode_len();
    if n != b.unicode_len() {
        return false;
    }
    for i in 0..n
        invariant
            n == a@.len(),
            n == b@.len(),
            forall|j: int| 0 <= j < i ==> a@[j] == b@[j],
    {
        if a.get_char(i) != b.get_char(i) {
            return false;
        }
    }
    proof {
        assert(a@ =~= b@);
    }
    true
}

/// The text of `s` in upper case, as `str::to_uppercase` maps it.
pub uninterp spec fn uppercase(s: Seq<char>) -> Seq<char>;

/// `c` is an ASCII character.
pub open spec fn is_ascii_char(c: char) -> bool {
    (c as int) < 128
}

/// The ASCII upper-case form of `c`: `a`..`z` become `A`..`Z`, every other
/// character stays.
pub open spec fn ascii_upper(c: char) -> char {
    if 'a' <= c <= 'z' {
        ((c as int) - 32) as char
    } else {
        c
    }
}

/// `s` in upper case.
///
/// Calls `str::to_uppercase`. The contract claims that the result is
/// determined by the text of `s`, and that on ASCII text it is the ASCII
/// upper-case form, character by character; the Unicode case mapping of
/// other characters is not stated.
#[verifier::external_body]
pub fn to_uppercase(s: &str) -> (r: String)
    ensures
        r@ == uppercase(s@),
        (forall|i: int| 0 <= i < s@.len() ==> is_ascii_char(#[trigger] s@[i])) ==> r@.len() == s@.len()
            && forall|i: int| 0 <= i < s@.len() ==> r@[i] == ascii_upper(#[trigger] s@[i]),
{
    s.to_uppercase()
}

/// `c` is an ASCII decimal digit.
pub open spec fn is_digit(c: char) -> bool {
    '0' <= c <= '9'
}

/// Value of a decimal digit.
pub open spec fn digit_val(c: char) -> int {
    c as int - '0' as int
}

/// Every character of `s` is a decimal digit.
pub open spec fn all_digits(s: Seq<char>) -> bool {
    forall|i: int| 0 <= i < s.len() ==> is_digit(#[trigger] s[i])
}

/// Value of a string of decimal digits.
pub open spec fn digits_value(s: Seq<char>) -> int
    decreases s.len(),
{
    if s.len() == 0 {
        0
    } else {
        digits_value(s.drop_last()) * 10 + digit_val(s.last())
    }
}

/// Index of the first occurrence of `c` in `s`, or `s.len()` when absent.
pub open spec fn find_char(s: Seq<char>, c: char) -> int
    decreases s.len(),
{
    if s.len() == 0 {
        0
    } else if s[0] == c {
        0
    } else {
        1 + find_char(s.drop_first(), c)
    }
}

/// The text without its leading sign.
pub open spec fn unsigned_part(s: Seq<char>) -> Seq<char> {
    if s.len() > 0 && (s[0] == '-' || s[0] == '+') {
        s.drop_first()
    } else {
        s
    }
}

/// Index of the first exponent mark (`e` or `E`) in `s`, or `s.len()` when
/// absent.
pub open spec fn find_exp(s: Seq<char>) -> int
    decreases s.len(),
{
    if s.len() == 0 {
        0
    } else if s[0] == 'e' || s[0] == 'E' {
        0
    } else {
        1 + find_exp(s.drop_first())
    }
}

/// The number without its sign and its exponent.
pub open spec fn mantissa(s: Seq<char>) -> Seq<char> {
    let b = unsigned_part(s);
    b.take(find_exp(b))
}

/// The number has an exponent mark.
pub open spec fn has_exp(s: Seq<char>) -> bool {
    let b = unsigned_part(s);
    find_exp(b) < b.len()
}

/// The text after the exponent mark (empty without one).
pub open spec fn exp_text(s: Seq<char>) -> Seq<char> {
    let b = unsigned_part(s);
    if has_exp(s) {
        b.skip(find_exp(b) + 1)
    } else {
        Seq::empty()
    }
}

/// The digits of the exponent, without its sign.
pub open spec fn exp_digits(s: Seq<char>) -> Seq<char> {
    unsigned_part(exp_text(s))
}

/// The exponent, zero without one.
pub open spec fn exp_value(s: Seq<char>) -> int {
    let t = exp_text(s);
    if t.len() > 0 && t[0] == '-' {
        -digits_value(exp_digits(s))
    } else {
        digits_value(exp_digits(s))
    }
}

/// Digits of the mantissa before the decimal point.
pub open spec fn int_digits(s: Seq<char>) -> Seq<char> {
    let m = mantissa(s);
    m.take(find_char(m, '.'))
}

/// Digits of the mantissa after the decimal point (empty without a point).
pub open spec fn frac_digits(s: Seq<char>) -> Seq<char> {
    let m = mantissa(s);
    let d = find_char(m, '.');
    if d < m.len() {
        m.skip(d + 1)
    } else {
        Seq::empty()
    }
}

/// A decimal number as `f64` parsing reads it: an optional sign, digits
/// with an optional decimal point and at least one digit, and an optional
/// exponent (`e` or `E`, an optional sign, and at least one digit).
pub open spec fn is_decimal(s: Seq<char>) -> bool {
    &&& all_digits(int_digits(s))
    &&& all_digits(frac_digits(s))
    &&& int_digits(s).len() + frac_digits(s).len() > 0
    &&& has_exp(s) ==> exp_digits(s).len() > 0 && all_digits(exp_digits(s))
}

/// The digits of the mantissa, without the point.
pub open spec fn mantissa_digits(s: Seq<char>) -> Seq<char> {
    int_digits(s) + frac_digits(s)
}

/// The digits of the number's magnitude in units of `10^-8`: the mantissa
/// digits shifted by the exponent, with zeros appended when the shift is to
/// the left and digits dropped when it is to the right.
pub open spec fn scaled_digits(s: Seq<char>) -> Seq<char> {
    let d = mantissa_digits(s);
    let len = d.len() + 8 + exp_value(s) - frac_digits(s).len();
    Seq::new(
        if len > 0 {
            len as nat
        } else {
            0
        },
        |q: int|
            if q < d.len() {
                d[q]
            } else {
                '0'
            },
    )
}

/// The fixed-point value of a decimal number; digits beyond the eighth
/// after the point are dropped.
pub open spec fn decimal_value(s: Seq<char>) -> int {
    let m = digits_value(scaled_digits(s));
    if s.len() > 0 && s[0] == '-' {
        -m
    } else {
        m
    }
}

/// The fixed-point number `s` spells, when it is a decimal number whose value
/// fits an `i64`.
pub open spec fn parse_fixed_spec(s: Seq<char>) -> Option<int> {
    if is_decimal(s) && crate::fixed::fits_i64(decimal_value(s)) {
        Some(decimal_value(s))
    } else {
        None
    }
}

/// `find_char` is the index of the first occurrence.
proof fn lemma_find_char(s: Seq<char>, c: char, j: int)
    requires
        0 <= j <= s.len(),
        j < s.len() ==> s[j] == c,
        forall|k: int| 0 <= k < j ==> s[k] != c,
    ensures
        find_char(s, c) == j,
    decreases s.len(),
{
    if s.len() > 0 && j > 0 {
        assert(s[0] != c);
        lemma_find_char(s.drop_first(), c, j - 1);
    }
}

proof fn lemma_digits_value_nonneg(s: Seq<char>)
    requires
        all_digits(s),
    ensures
        digits_value(s) >= 0,
    decreases s.len(),
{
    if s.len() > 0 {
        assert(all_digits(s.drop_last()));
        lemma_digits_value_nonneg(s.drop_last());
        assert(is_digit(s[s.len() - 1]));
    }
}

/// A prefix of a digit string is worth at most the whole string.
proof fn lemma_digits_value_prefix(s: Seq<char>, i: int)
    requires
        all_digits(s),
        0 <= i <= s.len(),
    ensures
        digits_value(s.take(i)) <= digits_value(s),
    decreases s.len(),
{
    if i < s.len() {
        let d = s.drop_last();
        assert(all_digits(d));
        lemma_digits_value_prefix(d, i);
        assert(d.take(i) =~= s.take(i));
        lemma_digits_value_nonneg(d);
        assert(is_digit(s[s.len() - 1]));
    } else {
        assert(s.take(i) =~= s);
    }
}

/// `find_exp` is the index of the first exponent mark.
proof fn lemma_find_exp(s: Seq<char>, j: int)
    requires
        0 <= j <= s.len(),
        j < s.len() ==> s[j] == 'e' || s[j] == 'E',
        forall|k: int| 0 <= k < j ==> s[k] != 'e' && s[k] != 'E',
    ensures
        find_exp(s) == j,
    decreases s.len(),
{
    if s.len() > 0 && j > 0 {
        assert(s[0] != 'e' && s[0] != 'E');
        lemma_find_exp(s.drop_first(), j - 1);
    }
}

/// A string of zeros is worth zero.
proof fn lemma_zero_digits(s: Seq<char>)
    requires
        forall|i: int| 0 <= i < s.len() ==> s[i] == '0',
    ensures
        digits_value(s) == 0,
    decreases s.len(),
{
    if s.len() > 0 {
        lemma_zero_digits(s.drop_last());
        assert(s[s.len() - 1] == '0');
    }
}

/// A digit string with a nonzero digit at `p` is worth at least
/// `10^(len - 1 - p)`.
proof fn lemma_digits_value_lead(s: Seq<char>, p: int)
    requires
        all_digits(s),
        0 <= p < s.len(),
        s[p] != '0',
    ensures
        digits_value(s) >= pow10_small(s.len() - 1 - p),
    decreases s.len(),
{
    let d = s.drop_last();
    assert(is_digit(s[s.len() - 1]));
    if p == s.len() - 1 {
        lemma_digits_value_nonneg(d);
        assert(pow10_small(0) == 1);
    } else {
        assert(all_digits(d));
        assert(d[p] == s[p]);
        lemma_digits_value_lead(d, p);
        assert(pow10_small(s.len() - 1 - p) == pow10_small(d.len() - 1 - p) * 10);
    }
}

/// Whether `v[lo..hi]` holds only decimal digits.
fn digits_only(v: &Vec<char>, lo: usize, hi: usize) -> (r: bool)
    requires
        lo <= hi <= v@.len(),
    ensures
        r == all_digits(v@.subrange(lo as int, hi as int)),
{
    let mut i = lo;
    while i < hi
        invariant
            lo <= i <= hi <= v@.len(),
            forall|k: int| lo <= k < i ==> is_digit(#[trigger] v@[k]),
        decreases hi - i,
    {
        if !is_digit_exec(v[i]) {
            proof {
                assert(v@.subrange(lo as int, hi as int)[i - lo] == v@[i as int]);
            }
            return false;
        }
        i = i + 1;
    }
    proof {
        assert forall|k: int| 0 <= k < hi - lo implies is_digit(#[trigger] v@.subrange(lo as int, hi as int)[k]) by {
            assert(v@.subrange(lo as int, hi as int)[k] == v@[lo + k]);
        }
    }
    true
}

fn is_digit_exec(c: char) -> (r: bool)
    ensures
        r == is_digit(c),
{
    '0' <= c && c <= '9'
}

fn digit_val_exec(c: char) -> (r: u64)
    requires
        is_digit(c),
    ensures
        r == digit_val(c),
{
    (c as u32 - '0' as u32) as u64
}

/// The magnitude of an exponent written as the digits `v[lo..hi]`, unless
/// it exceeds `cap`; the flag tells which.
fn read_exponent(v: &Vec<char>, lo: usize, hi: usize, cap: u128) -> (r: (u128, bool))
    requires
        lo <= hi <= v@.len(),
        all_digits(v@.subrange(lo as int, hi as int)),
        cap < 0x1_0000_0000_0000_0000_0000,
    ensures
        !r.1 ==> r.0 == digits_value(v@.subrange(lo as int, hi as int)) && r.0 <= cap,
        r.1 ==> digits_value(v@.subrange(lo as int, hi as int)) > cap,
{
    let ghost ed = v@.subrange(lo as int, hi as int);
    let mut mag: u128 = 0;
    let mut q = lo;
    while q < hi
        invariant
            lo <= q <= hi <= v@.len(),
            ed == v@.subrange(lo as int, hi as int),
            all_digits(ed),
            cap < 0x1_0000_0000_0000_0000_0000,
            mag == digits_value(v@.subrange(lo as int, q as int)),
            mag <= cap,
        decreases hi - q,
    {
        proof {
            assert(v@.subrange(lo as int, q + 1).drop_last() =~= v@.subrange(lo as int, q as int));
            assert(ed[q - lo] == v@[q as int]);
            assert(is_digit(ed[q - lo]));
        }
        mag = mag * 10 + digit_val_exec(v[q]) as u128;
        if mag > cap {
            proof {
                assert(ed.take(q + 1 - lo) =~= v@.subrange(lo as int, q + 1));
                lemma_digits_value_prefix(ed, q + 1 - lo);
            }
            return (mag, true);
        }
        q = q + 1;
    }
    proof {
        assert(v@.subrange(lo as int, hi as int) =~= ed);
    }
    (mag, false)
}

/// Digit `j` of the mantissa `v[lo..lo + int_len] + v[frac_lo..frac_lo + frac_len]`.
fn mantissa_digit(v: &Vec<char>, lo: usize, int_len: usize, frac_lo: usize, frac_len: usize, j: usize) -> (c: char)
    requires
        v@.len() <= usize::MAX,
        lo + int_len <= v@.len(),
        frac_lo + frac_len <= v@.len(),
        int_len + frac_len <= v@.len(),
        j < int_len + frac_len,
    ensures
        c == (v@.subrange(lo as int, lo + int_len) + v@.subrange(frac_lo as int, frac_lo + frac_len))[j as int],
{
    if j < int_len {
        v[lo + j]
    } else {
        v[frac_lo + (j - int_len)]
    }
}

/// The value of the digit string `sc`, whose digit `q` is digit `q` of the
/// mantissa `md` (as `mantissa_digit` reads it) or a zero past its end, when
/// that value is at most `2^63`.
fn scaled_magnitude(
    v: &Vec<char>,
    lo: usize,
    int_len: usize,
    frac_lo: usize,
    frac_len: usize,
    total: u128,
    Ghost(sc): Ghost<Seq<char>>,
) -> (r: Option<u128>)
    requires
        v@.len() <= usize::MAX,
        lo + int_len <= v@.len(),
        frac_lo + frac_len <= v@.len(),
        int_len + frac_len <= v@.len(),
        sc.len() == total,
        all_digits(sc),
        forall|q: int|
            0 <= q < total ==> #[trigger] sc[q] == if q < int_len + frac_len {
                (v@.subrange(lo as int, lo + int_len) + v@.subrange(frac_lo as int, frac_lo + frac_len))[q]
            } else {
                '0'
            },
    ensures
        match r {
            Some(a) => a == digits_value(sc) && a <= 0x8000_0000_0000_0000,
            None => digits_value(sc) > 0x8000_0000_0000_0000,
        },
{
    let dlen = int_len + frac_len;
    let limit: u128 = 0x8000_0000_0000_0000;
    let mut acc: u128 = 0;
    let mut q: u128 = 0;
    while q < total
        invariant
            v@.len() <= usize::MAX,
            lo + int_len <= v@.len(),
            frac_lo + frac_len <= v@.len(),
            int_len + frac_len <= v@.len(),
            dlen == int_len + frac_len,
            sc.len() == total,
            all_digits(sc),
            forall|q: int|
                0 <= q < total ==> #[trigger] sc[q] == if q < int_len + frac_len {
                    (v@.subrange(lo as int, lo + int_len) + v@.subrange(frac_lo as int, frac_lo + frac_len))[q]
                } else {
                    '0'
                },
            0 <= q <= total,
            acc == digits_value(sc.take(q as int)),
            acc <= limit,
            limit == 0x8000_0000_0000_0000,
        decreases total - q,
    {
        let c = if q < dlen as u128 {
            mantissa_digit(v, lo, int_len, frac_lo, frac_len, q as usize)
        } else {
            '0'
        };
        proof {
            assert(sc[q as int] == c);
            assert(is_digit(sc[q as int]));
            assert(sc.take(q + 1).drop_last() =~= sc.take(q as int));
        }
        acc = acc * 10 + digit_val_exec(c) as u128;
        if acc > limit {
            proof {
                lemma_digits_value_prefix(sc, q + 1);
            }
            return None;
        }
        q = q + 1;
    }
    proof {
        assert(sc.take(total as int) =~= sc);
    }
    Some(acc)
}

/// Where the parts of a number written in `v` lie: the end of its sign,
/// whether it is negative, its decimal point (or the mantissa's end), the
/// start of its fraction, and its exponent mark (or the end).
fn split_number(v: &Vec<char>) -> (r: (usize, bool, usize, usize, usize))
    ensures
        ({
            let (start, neg, d, frac_start, e) = r;
            let sq = v@;
            &&& start <= d <= e <= sq.len()
            &&& start <= 1
            &&& neg == (sq.len() > 0 && sq[0] == '-')
            &&& frac_start == if d < e {
                d + 1
            } else {
                e as int
            }
            &&& unsigned_part(sq) == sq.subrange(start as int, sq.len() as int)
            &&& mantissa(sq) == sq.subrange(start as int, e as int)
            &&& int_digits(sq) == sq.subrange(start as int, d as int)
            &&& frac_digits(sq) == sq.subrange(frac_start as int, e as int)
            &&& has_exp(sq) == (e < sq.len())
            &&& e < sq.len() ==> exp_text(sq) == sq.subrange(e + 1, sq.len() as int)
            &&& e == sq.len() ==> exp_text(sq) == Seq::<char>::empty()
        }),
{
    let n = v.len();
    let ghost sq = v@;
    let mut start: usize = 0;
    let mut neg = false;
    if n > 0 && (v[0] == '-' || v[0] == '+') {
        start = 1;
        neg = v[0] == '-';
    }
    let ghost b = unsigned_part(sq);
    proof {
        assert(b =~= sq.subrange(start as int, n as int));
    }
    let mut e = start;
    while e < n && v[e] != 'e' && v[e] != 'E'
        invariant
            v@ == sq,
            n == sq.len(),
            start <= e <= n,
            forall|k: int| start <= k < e ==> sq[k] != 'e' && sq[k] != 'E',
        decreases n - e,
    {
        e = e + 1;
    }
    proof {
        lemma_find_exp(b, e - start);
        assert(mantissa(sq) =~= sq.subrange(start as int, e as int));
    }
    let ghost m = mantissa(sq);
    let mut d = start;
    while d < e && v[d] != '.'
        invariant
            v@ == sq,
            n == sq.len(),
            start <= d <= e <= n,
            forall|k: int| start <= k < d ==> sq[k] != '.',
        decreases e - d,
    {
        d = d + 1;
    }
    proof {
        lemma_find_char(m, '.', d - start);
        assert(int_digits(sq) =~= sq.subrange(start as int, d as int));
        if d < e {
            assert(frac_digits(sq) =~= sq.subrange(d + 1, e as int));
        } else {
            assert(frac_digits(sq) =~= Seq::<char>::empty());
        }
    }
    let frac_start = if d < e {
        d + 1
    } else {
        e
    };
    proof {
        if e < n {
            assert(exp_text(sq) =~= sq.subrange(e + 1, n as int));
        } else {
            assert(exp_text(sq) =~= Seq::<char>::empty());
        }
    }
    (start, neg, d, frac_start, e)
}

/// The first nonzero digit of the mantissa `v[lo..lo + int_len] +
/// v[frac_lo..frac_lo + frac_len]`, if any.
fn first_nonzero(v: &Vec<char>, lo: usize, int_len: usize, frac_lo: usize, frac_len: usize) -> (r: Option<usize>)
    requires
        v@.len() <= usize::MAX,
        lo + int_len <= v@.len(),
        frac_lo + frac_len <= v@.len(),
        int_len + frac_len <= v@.len(),
    ensures
        match r {
            Some(p) => p < int_len + frac_len && (v@.subrange(lo as int, lo + int_len) + v@.subrange(
                frac_lo as int,
                frac_lo + frac_len,
            ))[p as int] != '0',
            None => forall|j: int|
                0 <= j < int_len + frac_len ==> #[trigger] (v@.subrange(lo as int, lo + int_len)
                    + v@.subrange(frac_lo as int, frac_lo + frac_len))[j] == '0',
        },
{
    let ghost md = v@.subrange(lo as int, lo + int_len) + v@.subrange(frac_lo as int, frac_lo + frac_len);
    let dlen = int_len + frac_len;
    let mut p: usize = 0;
    while p < dlen
        invariant
            v@.len() <= usize::MAX,
            lo + int_len <= v@.len(),
            frac_lo + frac_len <= v@.len(),
            int_len + frac_len <= v@.len(),
            dlen == int_len + frac_len,
            md == v@.subrange(lo as int, lo + int_len) + v@.subrange(frac_lo as int, frac_lo + frac_len),
            p <= dlen,
            forall|j: int| 0 <= j < p ==> #[trigger] md[j] == '0',
        decreases dlen - p,
    {
        if mantissa_digit(v, lo, int_len, frac_lo, frac_len, p) != '0' {
            return Some(p);
        }
        p = p + 1;
    }
    None
}

/// The fixed-point number `s` spells, read as `f64` parsing reads a decimal
/// number: an optional sign, digits with an optional point, and an optional
/// exponent; digits beyond the eighth after the point are dropped. `None`
/// for any other text (the words for infinity and not-a-number among them,
/// which no `i64` holds) or a value outside `i64`.
#[verifier::rlimit(40)]
pub fn parse_fixed(s: &str) -> (r: Option<i64>)
    ensures
        match r {
            Some(v) => parse_fixed_spec(s@) == Some(v as int),
            None => parse_fixed_spec(s@) is None,
        },
{
    let v = str_chars(s);
    let n = v.len();
    let ghost sq = s@;
    let (start, neg, d, frac_start, e) = split_number(&v);
    if !digits_only(&v, start, d) || !digits_only(&v, frac_start, e) {
        return None;
    }
    let int_len = d - start;
    let frac_len = e - frac_start;
    if int_len + frac_len == 0 {
        return None;
    }
    let ghost md = mantissa_digits(sq);
    proof {
        assert(md =~= sq.subrange(start as int, start + int_len) + sq.subrange(
            frac_start as int,
            frac_start + frac_len,
        ));
    }
    let cap: u128 = n as u128 + 64;
    let mut exp_neg = false;
    let mut exp_mag: u128 = 0;
    let mut exp_big = false;
    if e < n {
        let mut es = e + 1;
        if es < n && (v[es] == '-' || v[es] == '+') {
            exp_neg = v[es] == '-';
            es = es + 1;
        }
        proof {
            assert(exp_digits(sq) =~= sq.subrange(es as int, n as int));
        }
        if es == n || !digits_only(&v, es, n) {
            return None;
        }
        let (mg, big) = read_exponent(&v, es, n, cap);
        exp_mag = mg;
        exp_big = big;
    } else {
        proof {
            assert(exp_digits(sq) =~= Seq::<char>::empty());
        }
    }
    proof {
        assert(is_decimal(sq));
        if !exp_big {
            assert(exp_value(sq) == if exp_neg {
                -exp_mag
            } else {
                exp_mag as int
            });
        } else if exp_neg {
            assert(exp_value(sq) < -cap);
        } else {
            assert(exp_value(sq) > cap);
        }
    }
    let ghost sc = scaled_digits(sq);
    proof {
        assert forall|j: int| 0 <= j < sc.len() implies is_digit(#[trigger] sc[j]) by {
            if j < md.len() {
                assert(all_digits(int_digits(sq)));
                assert(all_digits(frac_digits(sq)));
                if j < int_digits(sq).len() {
                    assert(is_digit(int_digits(sq)[j]));
                } else {
                    assert(is_digit(frac_digits(sq)[j - int_digits(sq).len()]));
                }
            }
        }
    }
    if exp_big {
        if exp_neg {
            proof {
                assert(sc =~= Seq::<char>::empty());
            }
            return Some(0);
        }
        match first_nonzero(&v, start, int_len, frac_start, frac_len) {
            Some(p) => {
                proof {
                    assert(sc[p as int] == md[p as int]);
                    lemma_digits_value_lead(sc, p as int);
                    lemma_pow10_small_mono(19, sc.len() - 1 - p);
                    reveal_with_fuel(pow10_small, 20);
                    assert(pow10_small(19) == 10_000_000_000_000_000_000int);
                }
                return None;
            },
            None => {
                proof {
                    assert forall|j: int| 0 <= j < sc.len() implies sc[j] == '0' by {
                        if j < md.len() {
                            assert(md[j] == '0');
                        }
                    }
                    lemma_zero_digits(sc);
                }
                return Some(0);
            },
        }
    }
    let shift: i128 = if exp_neg {
        8 - exp_mag as i128 - frac_len as i128
    } else {
        8 + exp_mag as i128 - frac_len as i128
    };
    let total: i128 = (int_len + frac_len) as i128 + shift;
    if total <= 0 {
        proof {
            assert(sc =~= Seq::<char>::empty());
        }
        return Some(0);
    }
    match scaled_magnitude(&v, start, int_len, frac_start, frac_len, total as u128, Ghost(sc)) {
        None => None,
        Some(acc) => {
            if neg {
                Some((0 - acc as i128) as i64)
            } else if acc > i64::MAX as u128 {
                None
            } else {
                Some(acc as i64)
            }
        },
    }
}

proof fn lemma_pow10_small_mono(a: int, b: int)
    requires
        0 <= a <= b,
    ensures
        1 <= pow10_small(a) <= pow10_small(b),
    decreases b,
{
    if b > 0 {
        if a < b {
            lemma_pow10_small_mono(a, b - 1);
        } else {
            lemma_pow10_small_mono(a - 1, b - 1);
        }
    }
}

/// `10^k` for the few powers the parser needs.
pub open spec fn pow10_small(k: int) -> int
    decreases k,
{
    if k <= 0 {
        1
    } else {
        pow10_small(k - 1) * 10
    }
}

} // verus!

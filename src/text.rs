//! Character-level helpers shared by the grammar and the field decoders.
use vstd::prelude::*;

verus! {

/// An ASCII decimal digit.
pub open spec fn is_digit(c: char) -> bool {
    '0' <= c && c <= '9'
}

/// An ASCII upper-case letter.
pub open spec fn is_upper(c: char) -> bool {
    'A' <= c && c <= 'Z'
}

/// An ASCII letter or digit.
pub open spec fn is_alnum(c: char) -> bool {
    is_digit(c) || is_upper(c) || ('a' <= c && c <= 'z')
}

/// Every character of `t` is a decimal digit.
pub open spec fn all_digits(t: Seq<char>) -> bool {
    forall|i: int| 0 <= i < t.len() ==> is_digit(#[trigger] t[i])
}

/// The value of one decimal digit.
pub open spec fn digit_value(c: char) -> nat {
    ((c as u32) - ('0' as u32)) as nat
}

/// The value of a run of decimal digits, most significant first.
pub open spec fn digits_value(t: Seq<char>) -> nat
    decreases t.len(),
{
    if t.len() == 0 {
        0
    } else {
        digits_value(t.drop_last()) * 10 + digit_value(t.last())
    }
}

/// A run of digits never decreases in value when more digits follow it.
pub proof fn lemma_digits_value_prefix(t: Seq<char>, n: int)
    requires
        0 <= n <= t.len(),
    ensures
        digits_value(t.take(n)) <= digits_value(t),
    decreases t.len(),
{
    if n < t.len() {
        assert(t.take(n) =~= t.drop_last().take(n));
        lemma_digits_value_prefix(t.drop_last(), n);
    } else {
        assert(t.take(n) =~= t);
    }
}

/// A run of `k` digits is below `10^k`.
pub proof fn lemma_digits_value_bound(t: Seq<char>)
    requires
        all_digits(t),
    ensures
        digits_value(t) < pow10(t.len()),
    decreases t.len(),
{
    if t.len() > 0 {
        let p = t.drop_last();
        assert(all_digits(p)) by {
            assert forall|i: int| 0 <= i < p.len() implies is_digit(#[trigger] p[i]) by {
                assert(p[i] == t[i]);
            }
        }
        assert(is_digit(t[t.len() - 1]));
        lemma_digits_value_bound(p);
    }
}

/// Any part of a run of digits is a run of digits.
pub proof fn lemma_all_digits_sub(d: Seq<char>, i: int, j: int)
    requires
        all_digits(d),
        0 <= i <= j <= d.len(),
    ensures
        all_digits(d.subrange(i, j)),
{
    assert forall|x: int| 0 <= x < j - i implies is_digit(#[trigger] d.subrange(i, j)[x]) by {
        assert(d.subrange(i, j)[x] == d[i + x]);
    }
}

/// The character of the decimal digit `d`.
pub open spec fn digit_char(d: nat) -> char {
    if d == 0 { '0' } else if d == 1 { '1' } else if d == 2 { '2' } else if d == 3 { '3' }
    else if d == 4 { '4' } else if d == 5 { '5' } else if d == 6 { '6' } else if d == 7 { '7' }
    else if d == 8 { '8' } else { '9' }
}

/// `n` written with exactly `k` decimal digits, with leading zeros.
pub open spec fn digits_of(n: nat, k: nat) -> Seq<char>
    decreases k,
{
    if k == 0 {
        seq![]
    } else {
        digits_of(n / 10, (k - 1) as nat).push(digit_char(n % 10))
    }
}

/// Writing a number below `10^k` with `k` digits and reading it back gives
/// the number.
pub proof fn lemma_digits_of(n: nat, k: nat)
    ensures
        digits_of(n, k).len() == k,
        all_digits(digits_of(n, k)),
        n < pow10(k) ==> digits_value(digits_of(n, k)) == n,
    decreases k,
{
    if k > 0 {
        let p = pow10((k - 1) as nat);
        lemma_digits_of(n / 10, (k - 1) as nat);
        let t = digits_of(n, k);
        assert(t.drop_last() =~= digits_of(n / 10, (k - 1) as nat));
        assert(n % 10 < 10);
        assert(digit_value(digit_char(n % 10)) == n % 10);
        assert(is_digit(digit_char(n % 10)));
        assert forall|i: int| 0 <= i < t.len() implies is_digit(#[trigger] t[i]) by {
            if i < k - 1 {
                assert(t[i] == digits_of(n / 10, (k - 1) as nat)[i]);
            }
        }
        assert((n / 10) * 10 + n % 10 == n) by (nonlinear_arith);
        if n < pow10(k) {
            assert(n < 10 * p);
            assert(n / 10 < p) by (nonlinear_arith)
                requires
                    n < 10 * p,
            ;
        }
    }
}

/// Ten to the power `k`.
pub open spec fn pow10(k: nat) -> nat
    decreases k,
{
    if k == 0 {
        1
    } else {
        10 * pow10((k - 1) as nat)
    }
}

/// The first powers of ten.
pub proof fn lemma_pow10_small()
    ensures
        pow10(1) == 10,
        pow10(2) == 100,
        pow10(3) == 1000,
        pow10(4) == 10000,
{
    reveal_with_fuel(pow10, 5);
}

/// The characters of `s`, in order.
pub fn chars_of(s: &str) -> (r: Vec<char>)
    ensures
        r@ == s@,
{
    let n = s.unicode_len();
    let mut r: Vec<char> = Vec::new();
    let mut i: usize = 0;
    while i < n
        invariant
            n == s@.len(),
            i <= n,
            r@ == s@.take(i as int),
        decreases n - i,
    {
        let c = s.get_char(i);
        r.push(c);
        i = i + 1;
        assert(r@ =~= s@.take(i as int));
    }
    assert(r@ =~= s@);
    r
}

/// The characters `t[a..b]` are all decimal digits.
pub fn digits_at(t: &Vec<char>, a: usize, b: usize) -> (r: bool)
    requires
        a <= b <= t@.len(),
    ensures
        r == all_digits(t@.subrange(a as int, b as int)),
{
    let mut i: usize = a;
    while i < b
        invariant
            a <= i <= b <= t@.len(),
            forall|j: int| a <= j < i ==> is_digit(#[trigger] t@[j]),
        decreases b - i,
    {
        let c = t[i];
        if !('0' <= c && c <= '9') {
            assert(!is_digit(t@.subrange(a as int, b as int)[i - a]));
            return false;
        }
        i = i + 1;
    }
    assert forall|j: int| 0 <= j < b - a implies is_digit(#[trigger] t@.subrange(a as int, b as int)[j]) by {
        assert(t@.subrange(a as int, b as int)[j] == t@[a + j]);
    }
    true
}

/// The value of the digits `t[a..b]`, when it fits in a `u32`.
pub fn parse_u32(t: &Vec<char>, a: usize, b: usize) -> (r: Option<u32>)
    requires
        a <= b <= t@.len(),
        all_digits(t@.subrange(a as int, b as int)),
    ensures
        r == (if digits_value(t@.subrange(a as int, b as int)) <= u32::MAX {
            Some(digits_value(t@.subrange(a as int, b as int)) as u32)
        } else {
            None::<u32>
        }),
{
    let ghost w = t@.subrange(a as int, b as int);
    let mut v: u32 = 0;
    let mut i: usize = a;
    while i < b
        invariant
            a <= i <= b <= t@.len(),
            w == t@.subrange(a as int, b as int),
            all_digits(w),
            v as nat == digits_value(t@.subrange(a as int, i as int)),
        decreases b - i,
    {
        let ghost p = t@.subrange(a as int, (i + 1) as int);
        proof {
            assert(p.drop_last() =~= t@.subrange(a as int, i as int));
            assert(p =~= w.take(i + 1 - a));
            lemma_digits_value_prefix(w, i + 1 - a);
            assert(is_digit(w[i - a]));
        }
        let d = (t[i] as u32) - ('0' as u32);
        if v > 429496729 || (v == 429496729 && d > 5) {
            return None;
        }
        v = v * 10 + d;
        i = i + 1;
    }
    assert(t@.subrange(a as int, i as int) =~= w);
    Some(v)
}

/// The value of the digits `t[a..b]`, which must be few enough to fit.
pub fn small_digits_value(t: &Vec<char>, a: usize, b: usize) -> (r: u32)
    requires
        a <= b <= t@.len(),
        b - a <= 9,
        all_digits(t@.subrange(a as int, b as int)),
    ensures
        r as nat == digits_value(t@.subrange(a as int, b as int)),
{
    let ghost w = t@.subrange(a as int, b as int);
    proof {
        lemma_digits_value_bound(w);
        lemma_pow10_le_nine(w.len());
    }
    let mut v: u32 = 0;
    let mut i: usize = a;
    while i < b
        invariant
            a <= i <= b <= t@.len(),
            b - a <= 9,
            w == t@.subrange(a as int, b as int),
            all_digits(w),
            v as nat == digits_value(t@.subrange(a as int, i as int)),
            digits_value(w) < 1_000_000_000,
        decreases b - i,
    {
        let ghost p = t@.subrange(a as int, (i + 1) as int);
        proof {
            assert(p.drop_last() =~= t@.subrange(a as int, i as int));
            assert(p =~= w.take(i + 1 - a));
            lemma_digits_value_prefix(w, i + 1 - a);
            assert(is_digit(w[i - a]));
        }
        let d = (t[i] as u32) - ('0' as u32);
        v = v * 10 + d;
        i = i + 1;
    }
    v
}

proof fn lemma_pow10_le_nine(k: nat)
    requires
        k <= 9,
    ensures
        pow10(k) <= 1_000_000_000,
{
    reveal_with_fuel(pow10, 10);
}

} // verus!

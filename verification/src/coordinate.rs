//! Reading coordinates: decimal floating-point words, as `f32` parsing
//! accepts them, turned into fixed-point scalars.
use vstd::prelude::*;
use crate::fixed::ONE;
use crate::text::{all_digits, digits_value, is_digit};

verus! {

/// Ten to the power `k`.
pub open spec fn pow10(k: nat) -> int
    decreases k,
{
    if k == 0 {
        1
    } else {
        10 * pow10((k - 1) as nat)
    }
}

/// `s` cut at its first `'.'`: the part before it, and the part after it
/// when there is a `'.'`.
pub open spec fn split_dot(s: Seq<char>) -> (Seq<char>, Option<Seq<char>>)
    decreases s.len(),
{
    if s.len() == 0 {
        (Seq::empty(), None)
    } else if s[0] == '.' {
        (Seq::empty(), Some(s.drop_first()))
    } else {
        let r = split_dot(s.drop_first());
        (seq![s[0]] + r.0, r.1)
    }
}

/// `s` cut at its first `'e'` or `'E'`: the part before it, and the part
/// after it when there is one.
pub open spec fn split_exp(s: Seq<char>) -> (Seq<char>, Option<Seq<char>>)
    decreases s.len(),
{
    if s.len() == 0 {
        (Seq::empty(), None)
    } else if s[0] == 'e' || s[0] == 'E' {
        (Seq::empty(), Some(s.drop_first()))
    } else {
        let r = split_exp(s.drop_first());
        (seq![s[0]] + r.0, r.1)
    }
}

/// `s` without a leading `'+'` or `'-'`.
pub open spec fn unsigned_part(s: Seq<char>) -> Seq<char> {
    if s.len() > 0 && (s[0] == '+' || s[0] == '-') {
        s.drop_first()
    } else {
        s
    }
}

pub open spec fn is_negative(s: Seq<char>) -> bool {
    s.len() > 0 && s[0] == '-'
}

/// Whether `b` spells `lower` in any mix of lower and upper case (`upper`
/// is `lower` in upper case).
pub open spec fn spells(b: Seq<char>, lower: Seq<char>, upper: Seq<char>) -> bool {
    &&& b.len() == lower.len()
    &&& forall|i: int| 0 <= i < b.len() ==> #[trigger] b[i] == lower[i] || b[i] == upper[i]
}

/// `inf`, `infinity` or `nan`, in any case.
pub open spec fn special_word(b: Seq<char>) -> bool {
    ||| spells(b, seq!['i', 'n', 'f'], seq!['I', 'N', 'F'])
    ||| spells(
        b,
        seq!['i', 'n', 'f', 'i', 'n', 'i', 't', 'y'],
        seq!['I', 'N', 'F', 'I', 'N', 'I', 'T', 'Y'],
    )
    ||| spells(b, seq!['n', 'a', 'n'], seq!['N', 'A', 'N'])
}

/// The digits before the point, the digits after it, and the exponent
/// part (if any) of a decimal word without its sign.
pub open spec fn whole_part(b: Seq<char>) -> Seq<char> {
    split_dot(split_exp(b).0).0
}

pub open spec fn frac_part(b: Seq<char>) -> Seq<char> {
    match split_dot(split_exp(b).0).1 {
        Some(f) => f,
        None => Seq::empty(),
    }
}

/// Whether `e` is an exponent: an optional sign and one or more digits.
pub open spec fn exponent_ok(e: Seq<char>) -> bool {
    unsigned_part(e).len() > 0 && all_digits(unsigned_part(e))
}

/// The value of an exponent part (zero when there is none).
pub open spec fn exponent_value(b: Seq<char>) -> int {
    match split_exp(b).1 {
        Some(e) => if is_negative(e) {
            -digits_value(unsigned_part(e))
        } else {
            digits_value(unsigned_part(e))
        },
        None => 0,
    }
}

/// Whether `b` is a decimal number without its sign: digits with at most
/// one point and at least one digit, then optionally `e` or `E` and an
/// exponent.
pub open spec fn decimal_ok(b: Seq<char>) -> bool {
    &&& all_digits(whole_part(b))
    &&& all_digits(frac_part(b))
    &&& whole_part(b).len() + frac_part(b).len() > 0
    &&& split_exp(b).1 matches Some(e) ==> exponent_ok(e)
}

/// Whether `s` is a word that `f32` parsing accepts: an optional sign,
/// then a decimal number or `inf`, `infinity` or `nan` in any case.
pub open spec fn float_word(s: Seq<char>) -> bool {
    special_word(unsigned_part(s)) || decimal_ok(unsigned_part(s))
}

/// `d * 2 * ONE * 10^t`, rounded down.
pub open spec fn scaled_twice(d: int, t: int) -> int {
    if t >= 0 {
        d * (2 * ONE) * pow10(t as nat)
    } else {
        d * (2 * ONE) / pow10((-t) as nat)
    }
}

/// The raw scalar nearest to the value of a decimal number without its
/// sign (halves rounded up): its digits, read as a whole number, times ten
/// to the power of the exponent less the number of digits after the point.
pub open spec fn decimal_raw(b: Seq<char>) -> int {
    let d = digits_value(whole_part(b) + frac_part(b));
    let t = exponent_value(b) - frac_part(b).len();
    (scaled_twice(d, t) + 1) / 2
}

/// The raw scalars that a coordinate may take: magnitudes below 2^62
/// (2^30 as numbers).
pub open spec fn coordinate_in_range(raw: int) -> bool {
    raw < 0x4000_0000_0000_0000
}

/// The fixed-point value of a coordinate word: a decimal number (see
/// `float_word`) rounded to the nearest raw scalar, halves away from zero,
/// when it is in range. `None` for a word that is no number, for `inf`,
/// `infinity` and `nan`, and for numbers out of range.
pub open spec fn coordinate_value(s: Seq<char>) -> Option<int> {
    let b = unsigned_part(s);
    if !special_word(b) && decimal_ok(b) && coordinate_in_range(decimal_raw(b)) {
        Some(
            if is_negative(s) {
                -decimal_raw(b)
            } else {
                decimal_raw(b)
            },
        )
    } else {
        None
    }
}

/// The fraction `0.s` times `2 * ONE`, rounded down, worked out digit by
/// digit from the last one.
pub open spec fn frac_carry(s: Seq<char>) -> int
    decreases s.len(),
{
    if s.len() == 0 {
        0
    } else {
        ((s[0] as int - 48) * (2 * ONE) + frac_carry(s.drop_first())) / 10
    }
}

/// `n` zero digits.
pub open spec fn zeros(n: nat) -> Seq<char> {
    Seq::new(n, |i: int| '0')
}

// ----- lemmas on powers of ten and digit strings -----

proof fn lemma_pow10_positive(k: nat)
    ensures
        pow10(k) >= 1,
    decreases k,
{
    if k > 0 {
        lemma_pow10_positive((k - 1) as nat);
    }
}

proof fn lemma_pow10_add(a: nat, b: nat)
    ensures
        pow10(a + b) == pow10(a) * pow10(b),
    decreases b,
{
    if b > 0 {
        lemma_pow10_add(a, (b - 1) as nat);
        assert(pow10(a + b) == 10 * pow10((a + b - 1) as nat));
        assert(10 * (pow10(a) * pow10((b - 1) as nat)) == pow10(a) * (10 * pow10((b - 1) as nat)))
            by (nonlinear_arith);
    }
}

proof fn lemma_pow10_monotone(a: nat, b: nat)
    requires
        a <= b,
    ensures
        pow10(a) <= pow10(b),
    decreases b,
{
    if a < b {
        lemma_pow10_monotone(a, (b - 1) as nat);
        lemma_pow10_positive((b - 1) as nat);
    }
}

proof fn lemma_pow10_values()
    ensures
        pow10(10) == 10_000_000_000,
        pow10(11) == 100_000_000_000,
{
    reveal_with_fuel(pow10, 12);
}

proof fn lemma_digits_value_bound(s: Seq<char>)
    requires
        all_digits(s),
    ensures
        0 <= digits_value(s) < pow10(s.len()),
    decreases s.len(),
{
    if s.len() > 0 {
        let t = s.drop_last();
        assert(all_digits(t)) by {
            assert forall|i: int| 0 <= i < t.len() implies is_digit(#[trigger] t[i]) by {
                assert(t[i] == s[i]);
            }
        }
        lemma_digits_value_bound(t);
        assert(is_digit(s[s.len() - 1]));
    }
}

proof fn lemma_all_digits_concat(a: Seq<char>, b: Seq<char>)
    ensures
        all_digits(a + b) <==> all_digits(a) && all_digits(b),
{
    if all_digits(a + b) {
        assert forall|j: int| 0 <= j < a.len() implies is_digit(#[trigger] a[j]) by {
            assert((a + b)[j] == a[j]);
        }
        assert forall|j: int| 0 <= j < b.len() implies is_digit(#[trigger] b[j]) by {
            assert((a + b)[a.len() + j] == b[j]);
        }
    }
    if all_digits(a) && all_digits(b) {
        assert forall|j: int| 0 <= j < (a + b).len() implies is_digit(#[trigger] (a + b)[j]) by {
            if j < a.len() {
                assert((a + b)[j] == a[j]);
            } else {
                assert((a + b)[j] == b[j - a.len()]);
            }
        }
    }
}

/// The value of two digit strings one after the other.
proof fn lemma_digits_concat(a: Seq<char>, b: Seq<char>)
    ensures
        digits_value(a + b) == digits_value(a) * pow10(b.len()) + digits_value(b),
    decreases b.len(),
{
    if b.len() == 0 {
        assert(a + b =~= a);
    } else {
        let b0 = b.drop_last();
        lemma_digits_concat(a, b0);
        assert((a + b).drop_last() =~= a + b0);
        assert((a + b).last() == b.last());
        let x = digits_value(a);
        let p = pow10(b0.len());
        assert(pow10(b.len()) == 10 * p);
        assert((x * p + digits_value(b0)) * 10 + (b.last() as int - 48) == x * (10 * p) + (
        digits_value(b0) * 10 + (b.last() as int - 48))) by (nonlinear_arith);
    }
}

/// A digit string whose first digit is not zero is worth at least ten to
/// the power of its length less one.
proof fn lemma_digits_lower(s: Seq<char>)
    requires
        s.len() > 0,
        all_digits(s),
        s[0] != '0',
    ensures
        digits_value(s) >= pow10((s.len() - 1) as nat),
{
    let a = seq![s[0]];
    let b = s.drop_first();
    assert(a + b =~= s);
    lemma_digits_concat(a, b);
    assert(a.drop_last() =~= Seq::<char>::empty());
    assert(a.last() == s[0]);
    assert(digits_value(a.drop_last()) == 0);
    assert(digits_value(a) == s[0] as int - 48);
    assert(is_digit(s[0]));
    assert(all_digits(b)) by {
        assert forall|i: int| 0 <= i < b.len() implies is_digit(#[trigger] b[i]) by {
            assert(b[i] == s[i + 1]);
        }
    }
    lemma_digits_value_bound(b);
    lemma_pow10_positive(b.len());
    assert(digits_value(a) * pow10(b.len()) >= pow10(b.len())) by (nonlinear_arith)
        requires
            digits_value(a) >= 1,
            pow10(b.len()) >= 1,
    ;
}

proof fn lemma_zeros_value(n: nat)
    ensures
        digits_value(zeros(n)) == 0,
        all_digits(zeros(n)),
    decreases n,
{
    if n > 0 {
        assert(zeros(n).drop_last() =~= zeros((n - 1) as nat));
        lemma_zeros_value((n - 1) as nat);
    }
}

/// `frac_carry` is the fraction times `2 * ONE`, rounded down.
proof fn lemma_frac_carry(s: Seq<char>)
    requires
        all_digits(s),
    ensures
        frac_carry(s) == digits_value(s) * (2 * ONE) / pow10(s.len()),
        0 <= frac_carry(s) < 2 * ONE,
    decreases s.len(),
{
    let c = 2 * ONE;
    if s.len() == 0 {
        assert(digits_value(s) == 0);
        assert(pow10(0) == 1);
        assert(0int * c == 0);
        vstd::arithmetic::div_mod::lemma_fundamental_div_mod_converse(0, 1, 0, 0);
    } else {
        let r = s.drop_first();
        assert(all_digits(r)) by {
            assert forall|i: int| 0 <= i < r.len() implies is_digit(#[trigger] r[i]) by {
                assert(r[i] == s[i + 1]);
            }
        }
        lemma_frac_carry(r);
        let d = s[0] as int - 48;
        assert(is_digit(s[0]));
        let a = seq![s[0]];
        assert(a + r =~= s);
        lemma_digits_concat(a, r);
        assert(a.drop_last() =~= Seq::<char>::empty());
        assert(a.last() == s[0]);
        assert(digits_value(a.drop_last()) == 0);
        assert(digits_value(a) == d);
        let v = digits_value(r);
        let p = pow10(r.len());
        lemma_pow10_positive(r.len());
        assert(pow10(s.len()) == 10 * p);
        lemma_digits_value_bound(r);
        // floor((d * p + v) * c / (10 p)) = floor((d c + floor(v c / p)) / 10)
        let q = v * c / p;
        assert(q == frac_carry(r));
        assert(digits_value(s) == d * p + v);
        assert(frac_carry(s) == (d * c + q) / 10);
        vstd::arithmetic::div_mod::lemma_fundamental_div_mod(v * c, p);
        let rem = (v * c) % p;
        assert((d * p + v) * c == (d * c + q) * p + rem) by (nonlinear_arith)
            requires
                v * c == p * q + rem,
        ;
        // (x * p + rem) / (10 p) == x / 10 for 0 <= rem < p
        let x = d * c + q;
        vstd::arithmetic::div_mod::lemma_fundamental_div_mod(x, 10);
        let x1 = x / 10;
        let x0 = x % 10;
        assert((d * c + q) * p + rem == x1 * (10 * p) + (x0 * p + rem)) by (nonlinear_arith)
            requires
                x == 10 * x1 + x0,
                x == d * c + q,
        ;
        assert(0 <= x0 * p + rem < 10 * p) by (nonlinear_arith)
            requires
                0 <= x0 < 10,
                0 <= rem < p,
        ;
        vstd::arithmetic::div_mod::lemma_fundamental_div_mod_converse(
            (d * p + v) * c,
            10 * p,
            x1,
            x0 * p + rem,
        );
        assert(0 <= x1 < c) by (nonlinear_arith)
            requires
                x == 10 * x1 + x0,
                0 <= x0 < 10,
                x == d * c + q,
                0 <= d <= 9,
                0 <= q < c,
                c == 8589934592,
        ;
    }
}

/// A coordinate's value is a raw scalar of magnitude below 2^62.
pub(crate) proof fn lemma_coordinate_value_fits(s: Seq<char>)
    ensures
        coordinate_value(s) matches Some(x) ==> -0x4000_0000_0000_0000 < x < 0x4000_0000_0000_0000,
{
    let b = unsigned_part(s);
    if coordinate_value(s) is Some {
        let ds = whole_part(b) + frac_part(b);
        lemma_all_digits_concat(whole_part(b), frac_part(b));
        lemma_digits_value_bound(ds);
        let d = digits_value(ds);
        let t = exponent_value(b) - frac_part(b).len();
        if t >= 0 {
            lemma_pow10_positive(t as nat);
            assert(d * (2 * ONE) * pow10(t as nat) >= 0) by (nonlinear_arith)
                requires
                    d >= 0,
                    pow10(t as nat) >= 1,
            ;
        } else {
            lemma_pow10_positive((-t) as nat);
            assert(d * (2 * ONE) >= 0) by (nonlinear_arith)
                requires
                    d >= 0,
            ;
            vstd::arithmetic::div_mod::lemma_div_pos_is_pos(d * (2 * ONE), pow10((-t) as nat));
        }
    }
}

// ----- executable reading -----

/// The index of the first character at or after `start` and before `end`
/// that is `a` or `b` (or `end`).
fn find_either(s: &[char], start: usize, end: usize, a: char, b: char) -> (d: usize)
    requires
        start <= end <= s.len(),
    ensures
        start <= d <= end,
        forall|i: int| start <= i < d ==> s@[i] != a && s@[i] != b,
        d < end ==> s@[d as int] == a || s@[d as int] == b,
{
    let mut d: usize = start;
    while d < end && s[d] != a && s[d] != b
        invariant
            start <= d <= end,
            end <= s.len(),
            forall|i: int| start <= i < d ==> s@[i] != a && s@[i] != b,
        decreases end - d,
    {
        d = d + 1;
    }
    d
}

proof fn lemma_split_dot_at(s: Seq<char>, d: int)
    requires
        0 <= d <= s.len(),
        forall|i: int| 0 <= i < d ==> s[i] != '.',
        d < s.len() ==> s[d] == '.',
    ensures
        split_dot(s).0 == s.take(d),
        split_dot(s).1 == (if d < s.len() {
            Some(s.skip(d + 1))
        } else {
            None::<Seq<char>>
        }),
    decreases s.len(),
{
    if s.len() == 0 {
    } else if s[0] == '.' {
        assert(d == 0);
        assert(s.take(0) =~= Seq::<char>::empty());
        assert(s.drop_first() =~= s.skip(1));
    } else {
        lemma_split_dot_at(s.drop_first(), d - 1);
        assert(seq![s[0]] + s.drop_first().take(d - 1) =~= s.take(d));
        if d < s.len() {
            assert(s.drop_first().skip(d) =~= s.skip(d + 1));
        }
    }
}

proof fn lemma_split_exp_at(s: Seq<char>, d: int)
    requires
        0 <= d <= s.len(),
        forall|i: int| 0 <= i < d ==> s[i] != 'e' && s[i] != 'E',
        d < s.len() ==> s[d] == 'e' || s[d] == 'E',
    ensures
        split_exp(s).0 == s.take(d),
        split_exp(s).1 == (if d < s.len() {
            Some(s.skip(d + 1))
        } else {
            None::<Seq<char>>
        }),
    decreases s.len(),
{
    if s.len() == 0 {
    } else if s[0] == 'e' || s[0] == 'E' {
        assert(d == 0);
        assert(s.take(0) =~= Seq::<char>::empty());
        assert(s.drop_first() =~= s.skip(1));
    } else {
        lemma_split_exp_at(s.drop_first(), d - 1);
        assert(seq![s[0]] + s.drop_first().take(d - 1) =~= s.take(d));
        if d < s.len() {
            assert(s.drop_first().skip(d) =~= s.skip(d + 1));
        }
    }
}

/// Whether `s[a..b]` is all digits.
fn digits_in(s: &[char], a: usize, b: usize) -> (r: bool)
    requires
        a <= b <= s.len(),
    ensures
        r == all_digits(s@.subrange(a as int, b as int)),
{
    let mut i: usize = a;
    while i < b
        invariant
            a <= i <= b,
            b <= s.len(),
            forall|j: int| a <= j < i ==> is_digit(s@[j]),
        decreases b - i,
    {
        if !(s[i] >= '0' && s[i] <= '9') {
            assert(!is_digit(s@.subrange(a as int, b as int)[i - a]));
            return false;
        }
        i = i + 1;
    }
    assert forall|j: int| 0 <= j < b - a implies is_digit(
        #[trigger] s@.subrange(a as int, b as int)[j],
    ) by {
        assert(s@.subrange(a as int, b as int)[j] == s@[a + j]);
    }
    true
}

/// Whether `s[a..]` spells `lower` in any case.
fn spells_at(s: &[char], a: usize, lower: &[char], upper: &[char]) -> (r: bool)
    requires
        a <= s.len(),
        lower.len() == upper.len(),
    ensures
        r == spells(s@.skip(a as int), lower@, upper@),
{
    if s.len() - a != lower.len() {
        return false;
    }
    let mut i: usize = 0;
    while i < lower.len()
        invariant
            i <= lower.len(),
            lower.len() == upper.len(),
            s.len() - a == lower.len(),
            a <= s.len(),
            forall|j: int| 0 <= j < i ==> s@[a + j] == lower@[j] || s@[a + j] == upper@[j],
        decreases lower.len() - i,
    {
        if s[a + i] != lower[i] && s[a + i] != upper[i] {
            assert(s@.skip(a as int)[i as int] == s@[a + i]);
            return false;
        }
        i = i + 1;
    }
    assert forall|j: int| 0 <= j < s@.skip(a as int).len() implies #[trigger] s@.skip(a as int)[j]
        == lower@[j] || s@.skip(a as int)[j] == upper@[j] by {
        assert(s@.skip(a as int)[j] == s@[a + j]);
    }
    true
}

/// The value of the digits `s[a..b]`, or `None` when it is larger than
/// `cap` (then the value is larger than `cap`).
fn capped_digits(s: &[char], a: usize, b: usize, cap: i128) -> (r: Option<i128>)
    requires
        a <= b <= s.len(),
        all_digits(s@.subrange(a as int, b as int)),
        0 <= cap <= 0x1_0000_0000_0000_0000_0000_0000,
    ensures
        r matches Some(v) ==> v == digits_value(s@.subrange(a as int, b as int)) && 0 <= v <= cap,
        r is None ==> digits_value(s@.subrange(a as int, b as int)) > cap,
{
    let ghost w = s@.subrange(a as int, b as int);
    let mut v: i128 = 0;
    let mut i: usize = a;
    assert(w.take(0) =~= Seq::<char>::empty());
    while i < b
        invariant
            a <= i <= b,
            b <= s.len(),
            w == s@.subrange(a as int, b as int),
            all_digits(w),
            0 <= cap <= 0x1_0000_0000_0000_0000_0000_0000,
            v == digits_value(w.take(i - a)),
            0 <= v <= cap,
        decreases b - i,
    {
        assert(w.take(i - a + 1).drop_last() =~= w.take(i - a));
        assert(w.take(i - a + 1).last() == s@[i as int]);
        assert(is_digit(w[i - a]));
        v = v * 10 + ((s[i] as u32 - 48) as i128);
        i = i + 1;
        if v > cap {
            proof {
                lemma_prefix_exceeds(w, i - a, cap as int);
            }
            return None;
        }
    }
    assert(w.take(b - a) =~= w);
    Some(v)
}

/// A digit string is worth at least any of its prefixes.
proof fn lemma_prefix_le(w: Seq<char>, k: int)
    requires
        0 <= k <= w.len(),
        all_digits(w),
    ensures
        digits_value(w.take(k)) <= digits_value(w),
{
    let a = w.take(k);
    let b = w.skip(k);
    assert(a + b =~= w);
    lemma_digits_concat(a, b);
    assert(all_digits(a) && all_digits(b)) by {
        lemma_all_digits_concat(a, b);
    }
    lemma_digits_value_bound(a);
    lemma_digits_value_bound(b);
    lemma_pow10_positive(b.len());
    assert(digits_value(a) <= digits_value(a) * pow10(b.len())) by (nonlinear_arith)
        requires
            digits_value(a) >= 0,
            pow10(b.len()) >= 1,
    ;
}

proof fn lemma_prefix_exceeds(w: Seq<char>, k: int, cap: int)
    requires
        0 <= k <= w.len(),
        all_digits(w),
        digits_value(w.take(k)) > cap,
    ensures
        digits_value(w) > cap,
{
    lemma_prefix_le(w, k);
}

/// The largest exponent read exactly; larger ones only count as large.
pub const EXPONENT_CAP: i128 = 0x40_0000_0000_0000_0000;

/// The value of the digit string `w` (the digits of a number with its
/// point removed), when it is known to be below `10^10`.
fn small_digits_value(w: &Vec<char>, end: usize) -> (v: i128)
    requires
        end <= w.len(),
        all_digits(w@),
        digits_value(w@.take(end as int)) < 10_000_000_000,
    ensures
        v == digits_value(w@.take(end as int)),
{
    let ghost t = w@.take(end as int);
    let mut v: i128 = 0;
    let mut i: usize = 0;
    assert(t.take(0) =~= Seq::<char>::empty());
    assert(all_digits(t)) by {
        assert forall|j: int| 0 <= j < t.len() implies is_digit(#[trigger] t[j]) by {
            assert(t[j] == w@[j]);
        }
    }
    while i < end
        invariant
            i <= end,
            end <= w.len(),
            t == w@.take(end as int),
            all_digits(t),
            digits_value(t) < 10_000_000_000,
            v == digits_value(t.take(i as int)),
            0 <= v <= 10_000_000_000,
        decreases end - i,
    {
        proof {
            lemma_prefix_le(t, i + 1);
            assert(t[i as int] == w@[i as int]);
            assert(t.take(i + 1).drop_last() =~= t.take(i as int));
            assert(t.take(i + 1).last() == w@[i as int]);
            assert(is_digit(t[i as int]));
            assert(digits_value(t.take(i + 1)) == v * 10 + (w@[i as int] as int - 48));
            lemma_all_digits_concat(t.take(i + 1), t.skip(i + 1));
            assert(t.take(i + 1) + t.skip(i + 1) =~= t);
            lemma_digits_value_bound(t.take(i + 1));
        }
        v = v * 10 + ((w[i] as u32 - 48) as i128);
        i = i + 1;
    }
    assert(t.take(end as int) =~= t);
    v
}

/// `frac_carry` of the digits of `w` from `start` on.
fn carry_of(w: &Vec<char>, start: usize) -> (y: i128)
    requires
        start <= w.len(),
        all_digits(w@),
    ensures
        y == frac_carry(w@.skip(start as int)),
        0 <= y < 2 * ONE,
{
    let mut y: i128 = 0;
    let mut j: usize = w.len();
    assert(w@.skip(w.len() as int) =~= Seq::<char>::empty());
    while j > start
        invariant
            start <= j <= w.len(),
            all_digits(w@),
            y == frac_carry(w@.skip(j as int)),
            0 <= y < 2 * ONE,
        decreases j,
    {
        let ghost tail = w@.skip(j - 1);
        assert(tail.drop_first() =~= w@.skip(j as int));
        assert(tail[0] == w@[j - 1]);
        assert(is_digit(w@[j - 1]));
        proof {
            assert(all_digits(tail)) by {
                assert forall|i: int| 0 <= i < tail.len() implies is_digit(#[trigger] tail[i]) by {
                    assert(tail[i] == w@[j - 1 + i]);
                }
            }
            lemma_frac_carry(tail);
        }
        y = (((w[j - 1] as u32 - 48) as i128) * (2 * ONE as i128) + y) / 10;
        j = j - 1;
    }
    y
}

/// The raw magnitude (see `decimal_raw`) of the number whose digits are
/// `w` (point removed) and whose value is `digits_value(w) * 10^t`, where
/// `t` is `t_exec` unless `far`; when `far`, `t` is at least `t_exec` (if
/// positive) or at most it (if negative). `None` when out of range.
fn magnitude(w: &Vec<char>, t_exec: i128, far: bool, ghost_t: Ghost<int>) -> (r: Option<i64>)
    requires
        all_digits(w@),
        w.len() < 0x1_0000_0000_0000_0000,
        -0x100_0000_0000_0000_0000 < t_exec < 0x100_0000_0000_0000_0000,
        !far ==> ghost_t@ == t_exec,
        far ==> (t_exec > 0 && ghost_t@ >= t_exec && t_exec >= 0x10_0000_0000_0000_0000) || (t_exec < 0
            && ghost_t@ <= t_exec && t_exec <= -0x10_0000_0000_0000_0000),
    ensures
        ({
            let raw = (scaled_twice(digits_value(w@), ghost_t@) + 1) / 2;
            &&& r is Some <==> coordinate_in_range(raw)
            &&& r matches Some(v) ==> v == raw && 0 <= v
        }),
{
    let ghost t = ghost_t@;
    let ghost d = digits_value(w@);
    let c: i128 = 2 * ONE as i128;
    proof {
        lemma_digits_value_bound(w@);
        lemma_pow10_values();
    }
    // skip leading zeros
    let mut lead: usize = 0;
    while lead < w.len() && w[lead] == '0'
        invariant
            lead <= w.len(),
            forall|i: int| 0 <= i < lead ==> w@[i] == '0',
        decreases w.len() - lead,
    {
        lead = lead + 1;
    }
    let ghost sig = w@.skip(lead as int);
    proof {
        assert(w@.take(lead as int) =~= zeros(lead as nat));
        assert(w@.take(lead as int) + sig =~= w@);
        lemma_digits_concat(w@.take(lead as int), sig);
        lemma_zeros_value(lead as nat);
        assert(all_digits(sig)) by {
            assert forall|i: int| 0 <= i < sig.len() implies is_digit(#[trigger] sig[i]) by {
                assert(sig[i] == w@[lead + i]);
            }
        }
        assert(d == digits_value(sig));
        lemma_digits_value_bound(sig);
    }
    let n = w.len() - lead;
    if n == 0 {
        proof {
            assert(sig.len() == 0);
            assert(d == 0);
            lemma_zero_scaled(t);
        }
        return Some(0);
    }
    proof {
        assert(sig[0] == w@[lead as int]);
        lemma_digits_lower(sig);
        lemma_pow10_positive((n - 1) as nat);
    }
    let ni = n as i128;
    if ni - 1 + t_exec >= 10 {
        // at least 10^10: out of range
        proof {
            lemma_big_out_of_range(d, n as int, t);
        }
        return None;
    }
    if ni + t_exec <= -11 {
        // below 10^-10: rounds to zero
        proof {
            lemma_tiny_rounds_to_zero(d, n as int, t);
        }
        return Some(0);
    }
    assert(!far);
    let x: i128;
    if t_exec >= 0 {
        let tt = t_exec as usize;
        proof {
            lemma_pow10_add(n as nat, tt as nat);
            lemma_pow10_monotone((n + tt) as nat, 10);
            lemma_pow10_positive(tt as nat);
            assert(d * pow10(tt as nat) < 10_000_000_000) by (nonlinear_arith)
                requires
                    d < pow10(n as nat),
                    pow10(n as nat) * pow10(tt as nat) <= 10_000_000_000,
                    pow10(tt as nat) >= 1,
                    d >= 0,
            ;
        }
        x = scaled_nonneg(w, tt);
    } else {
        let k = -t_exec;
        proof {
            lemma_pow10_monotone(n as nat, (k + 10) as nat);
        }
        x = scaled_neg(w, k);
        assert(t == -(k as int));
    }
    let raw = (x + 1) / 2;
    if raw >= 0x4000_0000_0000_0000 {
        return None;
    }
    Some(raw as i64)
}

/// `scaled_twice` of the digits `w` at a non-negative exponent, for a
/// value below `10^10`.
fn scaled_nonneg(w: &Vec<char>, tt: usize) -> (x: i128)
    requires
        all_digits(w@),
        tt <= 10,
        digits_value(w@) * pow10(tt as nat) < 10_000_000_000,
    ensures
        x == scaled_twice(digits_value(w@), tt as int),
        0 <= x < 0x1_0000_0000_0000_0000_0000_0000,
{
    let ghost d = digits_value(w@);
    proof {
        lemma_digits_value_bound(w@);
        lemma_pow10_positive(tt as nat);
        assert(d <= d * pow10(tt as nat)) by (nonlinear_arith)
            requires
                d >= 0,
                pow10(tt as nat) >= 1,
        ;
        assert(w@.take(w.len() as int) =~= w@);
    }
    let dv = small_digits_value(w, w.len());
    let p = pow10_small(tt);
    assert(dv * p < 10_000_000_000);
    assert(dv * p >= 0) by (nonlinear_arith)
        requires
            dv >= 0,
            p >= 1,
    ;
    let c: i128 = 2 * ONE as i128;
    let x = dv * p * c;
    assert(x == d * (2 * ONE) * pow10(tt as nat)) by (nonlinear_arith)
        requires
            x == dv * p * c,
            dv == d,
            p == pow10(tt as nat),
            c == 2 * ONE,
    ;
    assert(0 <= x < 0x1_0000_0000_0000_0000_0000_0000) by (nonlinear_arith)
        requires
            x == dv * p * c,
            0 <= dv * p < 10_000_000_000,
            c == 8589934592,
    ;
    x
}

/// `scaled_twice` of the digits `w` at the exponent `-k`, for a value
/// below `10^10`.
#[verifier::rlimit(40)]
fn scaled_neg(w: &Vec<char>, k: i128) -> (x: i128)
    requires
        all_digits(w@),
        1 <= k <= w.len() + 10,
        digits_value(w@) < pow10((k + 10) as nat),
    ensures
        x == scaled_twice(digits_value(w@), -(k as int)),
        0 <= x < 0x1_0000_0000_0000_0000_0000_0000,
{
    let ghost d = digits_value(w@);
    let c: i128 = 2 * ONE as i128;
    // the digits with zeros in front, so that there are at least k
    let mut padded: Vec<char> = Vec::new();
    let mut z: usize = 0;
    while (z as i128) + (w.len() as i128) < k
        invariant
            padded@ == zeros(z as nat),
            z + w.len() <= k || z == 0,
            z <= 10,
            1 <= k <= w.len() + 10,
        decreases k - z,
    {
        padded.push('0');
        z = z + 1;
        assert(padded@ =~= zeros(z as nat));
    }
    let ghost pz = padded@;
    let mut i: usize = 0;
    while i < w.len()
        invariant
            i <= w.len(),
            padded@ == pz + w@.take(i as int),
        decreases w.len() - i,
    {
        padded.push(w[i]);
        i = i + 1;
        assert(padded@ =~= pz + w@.take(i as int));
    }
    assert(w@.take(w.len() as int) =~= w@);
    assert(padded.len() == z + w.len());
    let split = (padded.len() as i128 - k) as usize;
    let ghost a = padded@.take(split as int);
    let ghost b = padded@.skip(split as int);
    proof {
        lemma_zeros_value(z as nat);
        lemma_digits_concat(pz, w@);
        lemma_all_digits_concat(pz, w@);
        assert(a + b =~= padded@);
        lemma_digits_concat(a, b);
        lemma_all_digits_concat(a, b);
        lemma_digits_value_bound(a);
        lemma_digits_value_bound(b);
        assert(b.len() == k);
        assert(digits_value(padded@) == d);
        assert(digits_value(a) * pow10(k as nat) + digits_value(b) == d);
        lemma_split_value(d, digits_value(a), digits_value(b), k as nat, (k + 10) as nat);
    }
    let av = small_digits_value(&padded, split);
    let y = carry_of(&padded, split);
    proof {
        lemma_frac_carry(b);
        assert(av >= 0);
    }
    let x = av * c + y;
    assert(0 <= x < 0x1_0000_0000_0000_0000_0000_0000) by (nonlinear_arith)
        requires
            x == av * c + y,
            0 <= av < 10_000_000_000,
            c == 8589934592,
            0 <= y < c,
    ;
    assert(scaled_twice(d, -(k as int)) == d * (2 * ONE) / pow10(k as nat));
    assert(y == frac_carry(b));
    assert(av == digits_value(a));
    x
}

/// With `d = a * 10^k + b` and `b < 10^k`: `d * 2 ONE / 10^k` rounded
/// down is `a * 2 ONE` plus `b * 2 ONE / 10^k` rounded down, and `a` is
/// below `10^10` when `d < 10^n` and `n <= k + 10`.
proof fn lemma_split_value(d: int, a: int, b: int, k: nat, n: nat)
    requires
        d == a * pow10(k) + b,
        0 <= b < pow10(k),
        0 <= a,
        d < pow10(n),
        n <= k + 10,
    ensures
        d * (2 * ONE) / pow10(k) == a * (2 * ONE) + b * (2 * ONE) / pow10(k),
        a < 10_000_000_000,
{
    let c = 2 * ONE;
    let p = pow10(k);
    lemma_pow10_positive(k);
    assert(d * c == b * c + (a * c) * p) by (nonlinear_arith)
        requires
            d == a * p + b,
    ;
    vstd::arithmetic::div_mod::lemma_hoist_over_denominator(b * c, a * c, p as nat);
    lemma_pow10_monotone(n, k + 10);
    lemma_pow10_add(k, 10);
    lemma_pow10_values();
    assert(a < 10_000_000_000) by (nonlinear_arith)
        requires
            a * p <= d,
            d < pow10(n),
            pow10(n) <= p * 10_000_000_000,
            p >= 1,
    ;
}

/// Zero stays zero at any exponent.
proof fn lemma_zero_scaled(t: int)
    ensures
        scaled_twice(0, t) == 0,
{
    if t >= 0 {
        let p = pow10(t as nat);
        assert(0 * (2 * ONE) * p == 0) by (nonlinear_arith);
    } else {
        lemma_pow10_positive((-t) as nat);
        vstd::arithmetic::div_mod::lemma_fundamental_div_mod_converse(0, pow10((-t) as nat), 0, 0);
    }
}

/// A number of at least `10^10` is out of range.
proof fn lemma_big_out_of_range(d: int, n: int, t: int)
    requires
        n >= 1,
        d >= pow10((n - 1) as nat),
        n - 1 + t >= 10,
    ensures
        !coordinate_in_range((scaled_twice(d, t) + 1) / 2),
{
    let c = 2 * ONE;
    lemma_pow10_values();
    lemma_pow10_positive((n - 1) as nat);
    if t >= 0 {
        lemma_pow10_add((n - 1) as nat, t as nat);
        lemma_pow10_monotone(10, (n - 1 + t) as nat);
        lemma_pow10_positive(t as nat);
        assert(d * c * pow10(t as nat) >= 10_000_000_000 * c) by (nonlinear_arith)
            requires
                d >= pow10((n - 1) as nat),
                pow10((n - 1) as nat) * pow10(t as nat) >= 10_000_000_000,
                pow10(t as nat) >= 1,
                c > 0,
        ;
    } else {
        let k = (-t) as nat;
        lemma_pow10_add(k, 10);
        lemma_pow10_monotone(k + 10, (n - 1) as nat);
        lemma_pow10_positive(k);
        let p = pow10(k);
        assert(d * c >= (10_000_000_000 * c) * p) by (nonlinear_arith)
            requires
                d >= pow10((n - 1) as nat),
                pow10((n - 1) as nat) >= p * 10_000_000_000,
                c > 0,
        ;
        vstd::arithmetic::div_mod::lemma_div_is_ordered((10_000_000_000 * c) * p, d * c, p);
        vstd::arithmetic::div_mod::lemma_div_multiples_vanish(10_000_000_000 * c, p);
        assert(p * (10_000_000_000 * c) == (10_000_000_000 * c) * p) by (nonlinear_arith);
    }
}

/// A number below `10^-10` rounds to zero.
proof fn lemma_tiny_rounds_to_zero(d: int, n: int, t: int)
    requires
        n >= 1,
        0 <= d < pow10(n as nat),
        n + t <= -11,
    ensures
        (scaled_twice(d, t) + 1) / 2 == 0,
{
    let c = 2 * ONE;
    let k = (-t) as nat;
    lemma_pow10_values();
    lemma_pow10_add(n as nat, 11);
    lemma_pow10_monotone(n as nat + 11, k);
    let p = pow10(k);
    assert(d * c < p) by (nonlinear_arith)
        requires
            0 <= d < pow10(n as nat),
            pow10(n as nat) * 100_000_000_000 <= p,
            c == 8589934592,
    ;
    assert(d * c >= 0) by (nonlinear_arith)
        requires
            d >= 0,
            c > 0,
    ;
    vstd::arithmetic::div_mod::lemma_fundamental_div_mod_converse(d * c, p, 0, d * c);
}

/// Ten to the power `k`, for `k` up to 10.
fn pow10_small(k: usize) -> (p: i128)
    requires
        k <= 10,
    ensures
        p == pow10(k as nat),
        1 <= p <= 10_000_000_000,
{
    let mut p: i128 = 1;
    let mut j: usize = 0;
    proof {
        lemma_pow10_values();
    }
    while j < k
        invariant
            j <= k,
            k <= 10,
            p == pow10(j as nat),
            1 <= p,
        decreases k - j,
    {
        proof {
            lemma_pow10_values();
            lemma_pow10_monotone((j + 1) as nat, 10);
            assert(pow10((j + 1) as nat) == 10 * pow10(j as nat));
        }
        p = p * 10;
        j = j + 1;
    }
    proof {
        lemma_pow10_monotone(k as nat, 10);
    }
    p
}

/// Whether `s[start..]` is `inf`, `infinity` or `nan` in any case.
fn special_at(s: &[char], start: usize) -> (r: bool)
    requires
        start <= s.len(),
    ensures
        r == special_word(s@.skip(start as int)),
{
    let inf_l = ['i', 'n', 'f'];
    let inf_u = ['I', 'N', 'F'];
    let infinity_l = ['i', 'n', 'f', 'i', 'n', 'i', 't', 'y'];
    let infinity_u = ['I', 'N', 'F', 'I', 'N', 'I', 'T', 'Y'];
    let nan_l = ['n', 'a', 'n'];
    let nan_u = ['N', 'A', 'N'];
    assert(inf_l@ == seq!['i', 'n', 'f']);
    assert(inf_u@ == seq!['I', 'N', 'F']);
    assert(infinity_l@ == seq!['i', 'n', 'f', 'i', 'n', 'i', 't', 'y']);
    assert(infinity_u@ == seq!['I', 'N', 'F', 'I', 'N', 'I', 'T', 'Y']);
    assert(nan_l@ == seq!['n', 'a', 'n']);
    assert(nan_u@ == seq!['N', 'A', 'N']);
    spells_at(s, start, inf_l.as_slice(), inf_u.as_slice()) || spells_at(
        s,
        start,
        infinity_l.as_slice(),
        infinity_u.as_slice(),
    ) || spells_at(s, start, nan_l.as_slice(), nan_u.as_slice())
}

/// Reads the exponent `s[es..]`: `None` when it is not one (see
/// `exponent_ok`); otherwise whether it is negative and its magnitude,
/// which is `EXPONENT_CAP` and flagged as far when it is larger.
fn read_exponent(s: &[char], es: usize) -> (r: Option<(bool, i128, bool)>)
    requires
        es <= s.len(),
    ensures
        ({
            let e = s@.skip(es as int);
            &&& r is Some <==> exponent_ok(e)
            &&& r matches Some((neg, v, far)) ==> {
                &&& neg == is_negative(e)
                &&& 0 <= v <= EXPONENT_CAP
                &&& !far ==> v == digits_value(unsigned_part(e))
                &&& far ==> v == EXPONENT_CAP && digits_value(unsigned_part(e)) > EXPONENT_CAP
            }
        }),
{
    let ghost e = s@.skip(es as int);
    let e_signed = es < s.len() && (s[es] == '-' || s[es] == '+');
    let neg = es < s.len() && s[es] == '-';
    let ds: usize = if e_signed {
        es + 1
    } else {
        es
    };
    assert(unsigned_part(e) =~= s@.subrange(ds as int, s.len() as int));
    if ds == s.len() || !digits_in(s, ds, s.len()) {
        return None;
    }
    match capped_digits(s, ds, s.len(), EXPONENT_CAP) {
        Some(v) => Some((neg, v, false)),
        None => Some((neg, EXPONENT_CAP, true)),
    }
}

/// The characters `s[a..b]` followed by `s[c..d]`.
fn joined(s: &[char], a: usize, b: usize, c: usize, d: usize) -> (w: Vec<char>)
    requires
        a <= b <= s.len(),
        c <= d <= s.len(),
    ensures
        w@ == s@.subrange(a as int, b as int) + s@.subrange(c as int, d as int),
{
    let mut w: Vec<char> = Vec::new();
    let mut i: usize = a;
    while i < b
        invariant
            a <= i <= b,
            b <= s.len(),
            w@ == s@.subrange(a as int, i as int),
        decreases b - i,
    {
        w.push(s[i]);
        i = i + 1;
        assert(w@ =~= s@.subrange(a as int, i as int));
    }
    let mut j: usize = c;
    while j < d
        invariant
            c <= j <= d,
            d <= s.len(),
            w@ == s@.subrange(a as int, b as int) + s@.subrange(c as int, j as int),
        decreases d - j,
    {
        w.push(s[j]);
        j = j + 1;
        assert(w@ =~= s@.subrange(a as int, b as int) + s@.subrange(c as int, j as int));
    }
    w
}

/// Reads a coordinate word: `None` when it is no number (see
/// `float_word`), `Some(None)` when it is a number that is out of range or
/// not finite, and `Some(Some(v))` with its fixed-point value otherwise
/// (see `coordinate_value`).
#[verifier::rlimit(40)]
pub fn parse_coordinate(s: &[char]) -> (r: Option<Option<i64>>)
    ensures
        r is None <==> !float_word(s@),
        r matches Some(o) ==> match coordinate_value(s@) {
            Some(v) => o == Some(v as i64),
            None => o is None,
        },
{
    let signed = s.len() > 0 && (s[0] == '-' || s[0] == '+');
    let start: usize = if signed {
        1
    } else {
        0
    };
    let ghost b = unsigned_part(s@);
    assert(b =~= s@.skip(start as int));
    if special_at(s, start) {
        return Some(None);
    }
    let ei = find_either(s, start, s.len(), 'e', 'E');
    proof {
        lemma_split_exp_at(b, ei - start);
    }
    let ghost mant = split_exp(b).0;
    assert(mant =~= s@.subrange(start as int, ei as int));
    let d = find_either(s, start, ei, '.', '.');
    proof {
        lemma_split_dot_at(mant, d - start);
    }
    let frac_start: usize = if d < ei {
        d + 1
    } else {
        d
    };
    assert(whole_part(b) =~= s@.subrange(start as int, d as int));
    assert(frac_part(b) =~= s@.subrange(frac_start as int, ei as int));
    if !digits_in(s, start, d) || !digits_in(s, frac_start, ei) || (d - start) + (ei - frac_start)
        == 0 {
        return None;
    }
    let mut e_neg = false;
    let mut e_val: i128 = 0;
    let mut far = false;
    if ei < s.len() {
        assert(split_exp(b).1 == Some(s@.skip(ei + 1))) by {
            assert(b.skip(ei - start + 1) =~= s@.skip(ei + 1));
        }
        match read_exponent(s, ei + 1) {
            Some((neg, v, f)) => {
                e_neg = neg;
                e_val = v;
                far = f;
            },
            None => {
                return None;
            },
        }
    } else {
        assert(split_exp(b).1 is None);
    }
    assert(float_word(s@));
    let w = joined(s, start, d, frac_start, ei);
    proof {
        lemma_all_digits_concat(whole_part(b), frac_part(b));
    }
    assert(w@ == whole_part(b) + frac_part(b));
    let fl = (ei - frac_start) as i128;
    let ghost t = exponent_value(b) - frac_part(b).len();
    let t_exec: i128 = if e_neg {
        -e_val - fl
    } else {
        e_val - fl
    };
    assert(!far ==> t == t_exec);
    match magnitude(&w, t_exec, far, Ghost(t)) {
        Some(m) => {
            assert(coordinate_value(s@) == Some(if is_negative(s@) { -(m as int) } else { m as int }));
            if s.len() > 0 && s[0] == '-' {
                Some(Some(-m))
            } else {
                Some(Some(m))
            }
        },
        None => Some(None),
    }
}

} // verus!

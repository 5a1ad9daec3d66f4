//! Text helpers: characters of strings, lines, trimming, words and decimal
//! numerals.
use vstd::prelude::*;
use std::num::ParseIntError;

verus! {

/// The characters of `s`, in order.
pub fn chars_of(s: &str) -> (v: Vec<char>)
    ensures
        v@ == s@,
{
    let mut v: Vec<char> = Vec::new();
    for c in it: s.chars()
        invariant
            v@ == it.seq().take(it.index() as int),
    {
        v.push(c);
    }
    v
}

/// The string made of the characters of `v` (std's `FromIterator<&char>`
/// for `String`: it appends the characters in order).
#[verifier::external_body]
pub(crate) fn string_from_chars(v: &[char]) -> (s: String)
    ensures
        s@ == v@,
{
    v.iter().collect()
}

/// Unicode's White_Space characters (what `char::is_whitespace` tests for).
pub open spec fn is_ws(c: char) -> bool {
    ||| ('\u{9}' <= c && c <= '\u{d}')
    ||| c == ' '
    ||| c == '\u{85}'
    ||| c == '\u{a0}'
    ||| c == '\u{1680}'
    ||| ('\u{2000}' <= c && c <= '\u{200a}')
    ||| c == '\u{2028}'
    ||| c == '\u{2029}'
    ||| c == '\u{202f}'
    ||| c == '\u{205f}'
    ||| c == '\u{3000}'
}

pub fn is_ws_exec(c: char) -> (b: bool)
    ensures
        b == is_ws(c),
{
    ('\u{9}' <= c && c <= '\u{d}') || c == ' ' || c == '\u{85}' || c == '\u{a0}' || c == '\u{1680}'
        || ('\u{2000}' <= c && c <= '\u{200a}') || c == '\u{2028}' || c == '\u{2029}' || c
        == '\u{202f}' || c == '\u{205f}' || c == '\u{3000}'
}

/// The lines of `s` as `lines()` yields them: the text is cut at each `'\n'`,
/// and a last piece is kept only when it is not empty.
pub open spec fn lines_from(s: Seq<char>, cur: Seq<char>, acc: Seq<Seq<char>>) -> Seq<Seq<char>>
    decreases s.len(),
{
    if s.len() == 0 {
        if cur.len() > 0 {
            acc.push(cur)
        } else {
            acc
        }
    } else if s[0] == '\n' {
        lines_from(s.drop_first(), Seq::empty(), acc.push(cur))
    } else {
        lines_from(s.drop_first(), cur.push(s[0]), acc)
    }
}

pub open spec fn lines_of(s: Seq<char>) -> Seq<Seq<char>> {
    lines_from(s, Seq::empty(), Seq::empty())
}

/// The views of a vector of character vectors.
pub open spec fn views(v: Seq<Vec<char>>) -> Seq<Seq<char>> {
    Seq::new(v.len(), |k: int| v[k]@)
}

/// The lines of `text` (see `lines_of`).
pub fn lines(text: &Vec<char>) -> (ls: Vec<Vec<char>>)
    ensures
        views(ls@) == lines_of(text@),
{
    let mut acc: Vec<Vec<char>> = Vec::new();
    let mut cur: Vec<char> = Vec::new();
    let mut i: usize = 0;
    assert(text@.skip(0) == text@);
    assert(views(acc@) == Seq::<Seq<char>>::empty());
    while i < text.len()
        invariant
            i <= text.len(),
            lines_from(text@.skip(i as int), cur@, views(acc@)) == lines_of(text@),
        decreases text.len() - i,
    {
        let c = text[i];
        assert(text@.skip(i as int).drop_first() == text@.skip(i + 1));
        if c == '\n' {
            let ghost before = acc@;
            let done = cur;
            acc.push(done);
            cur = Vec::new();
            assert(views(acc@) == views(before).push(done@));
        } else {
            cur.push(c);
        }
        i = i + 1;
    }
    if cur.len() > 0 {
        let ghost before = acc@;
        let ghost last = cur@;
        acc.push(cur);
        assert(views(acc@) == views(before).push(last));
    }
    acc
}

/// Drops the leading whitespace.
pub open spec fn trim_start(s: Seq<char>) -> Seq<char>
    decreases s.len(),
{
    if s.len() > 0 && is_ws(s[0]) {
        trim_start(s.drop_first())
    } else {
        s
    }
}

/// Drops the trailing whitespace.
pub open spec fn trim_end(s: Seq<char>) -> Seq<char>
    decreases s.len(),
{
    if s.len() > 0 && is_ws(s.last()) {
        trim_end(s.drop_last())
    } else {
        s
    }
}

/// Drops the leading and the trailing whitespace, as `str::trim` does.
pub open spec fn trim(s: Seq<char>) -> Seq<char> {
    trim_end(trim_start(s))
}

/// `s` without its leading and trailing whitespace.
pub fn trim_chars(s: &[char]) -> (t: Vec<char>)
    ensures
        t@ == trim(s@),
{
    let mut i: usize = 0;
    assert(s@.skip(0) == s@);
    while i < s.len() && is_ws_exec(s[i])
        invariant
            i <= s.len(),
            trim_start(s@) == trim_start(s@.skip(i as int)),
        decreases s.len() - i,
    {
        assert(s@.skip(i as int).drop_first() == s@.skip(i + 1));
        i = i + 1;
    }
    let mut j: usize = s.len();
    assert(s@.skip(i as int) == s@.subrange(i as int, s.len() as int));
    while j > i && is_ws_exec(s[j - 1])
        invariant
            i <= j <= s.len(),
            trim_start(s@) == s@.subrange(i as int, s.len() as int),
            trim(s@) == trim_end(s@.subrange(i as int, j as int)),
        decreases j,
    {
        assert(s@.subrange(i as int, j as int).drop_last() == s@.subrange(i as int, j - 1));
        j = j - 1;
    }
    let mut t: Vec<char> = Vec::new();
    let mut k: usize = i;
    while k < j
        invariant
            i <= k <= j,
            j <= s.len(),
            t@ == s@.subrange(i as int, k as int),
        decreases j - k,
    {
        t.push(s[k]);
        assert(s@.subrange(i as int, k + 1) == s@.subrange(i as int, k as int).push(s@[k as int]));
        k = k + 1;
    }
    t
}

/// The words of `s`: its maximal runs of non-whitespace characters, as
/// `split_whitespace` yields them.
pub open spec fn words_from(s: Seq<char>, cur: Seq<char>, acc: Seq<Seq<char>>) -> Seq<Seq<char>>
    decreases s.len(),
{
    if s.len() == 0 {
        if cur.len() > 0 {
            acc.push(cur)
        } else {
            acc
        }
    } else if is_ws(s[0]) {
        words_from(
            s.drop_first(),
            Seq::empty(),
            if cur.len() > 0 {
                acc.push(cur)
            } else {
                acc
            },
        )
    } else {
        words_from(s.drop_first(), cur.push(s[0]), acc)
    }
}

pub open spec fn words_of(s: Seq<char>) -> Seq<Seq<char>> {
    words_from(s, Seq::empty(), Seq::empty())
}

/// The words of `s` (see `words_of`).
pub fn words(s: &[char]) -> (ws: Vec<Vec<char>>)
    ensures
        views(ws@) == words_of(s@),
{
    let mut acc: Vec<Vec<char>> = Vec::new();
    let mut cur: Vec<char> = Vec::new();
    let mut i: usize = 0;
    assert(s@.skip(0) == s@);
    assert(views(acc@) == Seq::<Seq<char>>::empty());
    while i < s.len()
        invariant
            i <= s.len(),
            words_from(s@.skip(i as int), cur@, views(acc@)) == words_of(s@),
        decreases s.len() - i,
    {
        let c = s[i];
        assert(s@.skip(i as int).drop_first() == s@.skip(i + 1));
        if is_ws_exec(c) {
            if cur.len() > 0 {
                let ghost before = acc@;
                let done = cur;
                acc.push(done);
                assert(views(acc@) == views(before).push(done@));
            }
            cur = Vec::new();
        } else {
            cur.push(c);
        }
        i = i + 1;
    }
    if cur.len() > 0 {
        let ghost before = acc@;
        let ghost last = cur@;
        acc.push(cur);
        assert(views(acc@) == views(before).push(last));
    }
    acc
}

/// The numeral character for the digit `d`.
pub open spec fn digit_char(d: int) -> char {
    (48 + d) as char
}

/// The decimal numeral of `n`, without leading zeros, as `to_string` and
/// `format!("{}")` write an unsigned integer.
pub open spec fn decimal(n: nat) -> Seq<char>
    decreases n,
{
    if n < 10 {
        seq![digit_char(n as int)]
    } else {
        decimal(n / 10).push(digit_char((n % 10) as int))
    }
}

/// The decimal numeral of `n` (see `decimal`).
pub fn decimal_chars(n: u64) -> (v: Vec<char>)
    ensures
        v@ == decimal(n as nat),
    decreases n,
{
    let d = (n % 10) as u8;
    let c = (48u8 + d) as char;
    if n < 10 {
        let mut v = Vec::new();
        v.push(c);
        v
    } else {
        let mut v = decimal_chars(n / 10);
        v.push(c);
        v
    }
}

pub open spec fn is_digit(c: char) -> bool {
    '0' <= c && c <= '9'
}

/// The value of a string of decimal digits.
pub open spec fn digits_value(s: Seq<char>) -> int
    decreases s.len(),
{
    if s.len() == 0 {
        0
    } else {
        digits_value(s.drop_last()) * 10 + (s.last() as int - 48)
    }
}

pub open spec fn all_digits(s: Seq<char>) -> bool {
    forall|i: int| 0 <= i < s.len() ==> is_digit(#[trigger] s[i])
}

/// The value of an unsigned decimal numeral: an optional `'+'` followed by
/// one or more digits. `None` for any other string.
pub open spec fn numeral_value(s: Seq<char>) -> Option<int> {
    let d = if s.len() > 0 && s[0] == '+' {
        s.drop_first()
    } else {
        s
    };
    if d.len() > 0 && all_digits(d) {
        Some(digits_value(d))
    } else {
        None
    }
}

/// std's error for a string that is not an integer numeral of the
/// requested type.
#[verifier::external_type_specification]
#[verifier::external_body]
pub struct ExParseIntError(ParseIntError);

/// `str::parse::<usize>`: `Ok` with the numeral's value exactly when `s` is
/// an optional `'+'` followed by one or more ASCII digits whose value fits a
/// `usize`; an error otherwise.
#[verifier::external_body]
pub(crate) fn parse_usize(s: &str) -> (r: Result<usize, ParseIntError>)
    ensures
        r is Ok <==> (numeral_value(s@) matches Some(v) && v <= usize::MAX),
        r matches Ok(n) ==> numeral_value(s@) == Some(n as int),
{
    s.parse::<usize>()
}

/// `str::parse::<u16>`: as `parse_usize`, for values that fit a `u16`.
#[verifier::external_body]
pub(crate) fn parse_u16(s: &str) -> (r: Result<u16, ParseIntError>)
    ensures
        r is Ok <==> (numeral_value(s@) matches Some(v) && v <= u16::MAX),
        r matches Ok(n) ==> numeral_value(s@) == Some(n as int),
{
    s.parse::<u16>()
}

/// `str::parse::<u8>`: as `parse_usize`, for values that fit a `u8`.
#[verifier::external_body]
pub(crate) fn parse_u8(s: &str) -> (r: Result<u8, ParseIntError>)
    ensures
        r is Ok <==> (numeral_value(s@) matches Some(v) && v <= u8::MAX),
        r matches Ok(n) ==> numeral_value(s@) == Some(n as int),
{
    s.parse::<u8>()
}


/// The lines found in `s` are added after those already gathered.
pub proof fn lemma_lines_from_acc(s: Seq<char>, cur: Seq<char>, acc: Seq<Seq<char>>)
    ensures
        lines_from(s, cur, acc) == acc + lines_from(s, cur, Seq::empty()),
    decreases s.len(),
{
    if s.len() == 0 {
        assert(acc.push(cur) =~= acc + Seq::<Seq<char>>::empty().push(cur));
        assert(acc =~= acc + Seq::<Seq<char>>::empty());
    } else if s[0] == '\n' {
        lemma_lines_from_acc(s.drop_first(), Seq::empty(), acc.push(cur));
        lemma_lines_from_acc(s.drop_first(), Seq::empty(), Seq::<Seq<char>>::empty().push(cur));
        assert(acc.push(cur) =~= acc + Seq::<Seq<char>>::empty().push(cur));
        let rest = lines_from(s.drop_first(), Seq::empty(), Seq::empty());
        assert(acc.push(cur) + rest =~= acc + (Seq::<Seq<char>>::empty().push(cur) + rest));
    } else {
        lemma_lines_from_acc(s.drop_first(), cur.push(s[0]), acc);
    }
}

/// Characters other than line breaks join the current line.
pub proof fn lemma_lines_from_run(a: Seq<char>, b: Seq<char>, cur: Seq<char>, acc: Seq<Seq<char>>)
    requires
        forall|i: int| 0 <= i < a.len() ==> a[i] != '\n',
    ensures
        lines_from(a + b, cur, acc) == lines_from(b, cur + a, acc),
    decreases a.len(),
{
    if a.len() == 0 {
        assert(a + b =~= b);
        assert(cur + a =~= cur);
    } else {
        assert((a + b)[0] == a[0]);
        assert((a + b).drop_first() =~= a.drop_first() + b);
        assert(cur.push(a[0]) + a.drop_first() =~= cur + a);
        lemma_lines_from_run(a.drop_first(), b, cur.push(a[0]), acc);
    }
}

/// A line without line breaks, closed by one, then more text.
pub proof fn lemma_lines_of_line(l: Seq<char>, rest: Seq<char>)
    requires
        forall|i: int| 0 <= i < l.len() ==> l[i] != '\n',
    ensures
        lines_of(l.push('\n') + rest) == seq![l] + lines_of(rest),
{
    let s = l.push('\n') + rest;
    assert(s =~= l + (seq!['\n'] + rest));
    lemma_lines_from_run(l, seq!['\n'] + rest, Seq::empty(), Seq::empty());
    let t = seq!['\n'] + rest;
    assert(t[0] == '\n');
    assert(t.drop_first() =~= rest);
    assert(Seq::<char>::empty() + l =~= l);
    lemma_lines_from_acc(rest, Seq::empty(), Seq::<Seq<char>>::empty().push(l));
    assert(Seq::<Seq<char>>::empty().push(l) =~= seq![l]);
}

/// The lines of text that ends with a line break, followed by more text.
pub proof fn lemma_lines_of_concat(a: Seq<char>, b: Seq<char>)
    requires
        a.len() == 0 || a.last() == '\n',
    ensures
        lines_of(a + b) == lines_of(a) + lines_of(b),
    decreases a.len(),
{
    if a.len() == 0 {
        assert(a + b =~= b);
        assert(lines_of(a) =~= Seq::<Seq<char>>::empty());
        assert(lines_of(a) + lines_of(b) =~= lines_of(b));
    } else {
        // the first line of `a`
        let k = choose|k: int| 0 <= k < a.len() && a[k] == '\n' && forall|i: int|
            0 <= i < k ==> a[i] != '\n';
        assert(exists|k: int| 0 <= k < a.len() && a[k] == '\n' && forall|i: int|
            0 <= i < k ==> a[i] != '\n') by {
            lemma_first_break(a, a.len() - 1);
        }
        let l = a.subrange(0, k);
        let a2 = a.subrange(k + 1, a.len() as int);
        assert(a =~= l.push('\n') + a2);
        assert(a + b =~= l.push('\n') + (a2 + b));
        lemma_lines_of_line(l, a2 + b);
        lemma_lines_of_line(l, a2);
        lemma_lines_of_concat(a2, b);
        assert(seq![l] + (lines_of(a2) + lines_of(b)) =~= (seq![l] + lines_of(a2)) + lines_of(b));
    }
}

/// A line break at `j` means there is a first one.
proof fn lemma_first_break(a: Seq<char>, j: int)
    requires
        0 <= j < a.len(),
        a[j] == '\n',
    ensures
        exists|k: int| 0 <= k < a.len() && a[k] == '\n' && forall|i: int| 0 <= i < k ==> a[i] != '\n',
    decreases j,
{
    if exists|i: int| 0 <= i < j && a[i] == '\n' {
        let i = choose|i: int| 0 <= i < j && a[i] == '\n';
        lemma_first_break(a, i);
    } else {
        assert(forall|i: int| 0 <= i < j ==> a[i] != '\n');
    }
}

/// Characters other than whitespace join the current word.
pub proof fn lemma_words_from_run(a: Seq<char>, b: Seq<char>, cur: Seq<char>, acc: Seq<Seq<char>>)
    requires
        forall|i: int| 0 <= i < a.len() ==> !is_ws(a[i]),
    ensures
        words_from(a + b, cur, acc) == words_from(b, cur + a, acc),
    decreases a.len(),
{
    if a.len() == 0 {
        assert(a + b =~= b);
        assert(cur + a =~= cur);
    } else {
        assert((a + b)[0] == a[0]);
        assert((a + b).drop_first() =~= a.drop_first() + b);
        assert(cur.push(a[0]) + a.drop_first() =~= cur + a);
        lemma_words_from_run(a.drop_first(), b, cur.push(a[0]), acc);
    }
}

/// The words joined by single spaces.
pub open spec fn join_words(ws: Seq<Seq<char>>) -> Seq<char>
    decreases ws.len(),
{
    if ws.len() == 0 {
        Seq::empty()
    } else if ws.len() == 1 {
        ws[0]
    } else {
        ws[0] + seq![' '] + join_words(ws.drop_first())
    }
}

/// Whether each word is non-empty and holds no whitespace.
pub open spec fn plain_words(ws: Seq<Seq<char>>) -> bool {
    forall|k: int| 0 <= k < ws.len() ==> (#[trigger] ws[k]).len() > 0 && forall|i: int|
        0 <= i < ws[k].len() ==> !is_ws(ws[k][i])
}

/// Words joined by single spaces split back into the same words.
pub proof fn lemma_words_of_join(ws: Seq<Seq<char>>, acc: Seq<Seq<char>>)
    requires
        ws.len() > 0,
        plain_words(ws),
    ensures
        words_from(join_words(ws), Seq::empty(), acc) == acc + ws,
    decreases ws.len(),
{
    let w0 = ws[0];
    assert(w0.len() > 0);
    assert(Seq::<char>::empty() + w0 =~= w0);
    if ws.len() == 1 {
        assert(w0 =~= w0 + Seq::<char>::empty());
        lemma_words_from_run(w0, Seq::empty(), Seq::empty(), acc);
        assert(acc.push(w0) =~= acc + ws);
    } else {
        let rest = ws.drop_first();
        let t = seq![' '] + join_words(rest);
        assert(join_words(ws) =~= w0 + t);
        lemma_words_from_run(w0, t, Seq::empty(), acc);
        assert(t[0] == ' ');
        assert(is_ws(' '));
        assert(t.drop_first() =~= join_words(rest));
        assert(plain_words(rest)) by {
            assert forall|k: int| 0 <= k < rest.len() implies (#[trigger] rest[k]).len() > 0
                && forall|i: int| 0 <= i < rest[k].len() ==> !is_ws(rest[k][i]) by {
                assert(rest[k] == ws[k + 1]);
            }
        }
        lemma_words_of_join(rest, acc.push(w0));
        assert(acc.push(w0) + rest =~= acc + ws);
    }
}

/// The characters of a decimal numeral are digits.
pub proof fn lemma_decimal_digits(n: nat)
    ensures
        decimal(n).len() > 0,
        all_digits(decimal(n)),
        digits_value(decimal(n)) == n,
    decreases n,
{
    let k = (n % 10) as int;
    assert(digit_char(k) as int == 48 + k);
    if n < 10 {
        assert(k == n);
        assert(decimal(n).drop_last() =~= Seq::<char>::empty());
        assert(decimal(n).last() == digit_char(k));
        assert(digits_value(decimal(n)) == digits_value(Seq::<char>::empty()) * 10 + (digit_char(k) as int - 48));
    } else {
        lemma_decimal_digits(n / 10);
        let d = decimal(n / 10);
        let s = decimal(n);
        assert(s.drop_last() =~= d);
        assert(s.last() == digit_char(k));
        assert(digits_value(s) == digits_value(d) * 10 + k);
        assert(n == (n / 10) * 10 + k);
        assert forall|i: int| 0 <= i < s.len() implies is_digit(#[trigger] s[i]) by {
            if i < d.len() {
                assert(s[i] == d[i]);
            }
        }
    }
}

/// A decimal numeral reads back as its value.
pub proof fn lemma_numeral_of_decimal(n: nat)
    ensures
        numeral_value(decimal(n)) == Some(n as int),
        forall|i: int| 0 <= i < decimal(n).len() ==> !is_ws(#[trigger] decimal(n)[i]) && decimal(n)[i] != '\n'
            && decimal(n)[i] != '#',
{
    lemma_decimal_digits(n);
    let s = decimal(n);
    assert(s[0] != '+') by {
        assert(is_digit(s[0]));
    }
    assert forall|i: int| 0 <= i < s.len() implies !is_ws(#[trigger] s[i]) && s[i] != '\n' && s[i]
        != '#' by {
        assert(is_digit(s[i]));
    }
}

} // verus!

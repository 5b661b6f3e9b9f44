//! Character-level helpers: building strings, finding separators, trimming
//! white space, and reading and writing decimal integers.
use vstd::prelude::*;
use vstd::utf8::{encode_scalar, encode_utf8};

verus! {

/// Appends one character to a string.
/// Trusted: `String::push`, which std documents as appending the character
/// to the end of the string.
#[verifier::external_body]
pub(crate) fn push_char(s: &mut String, c: char)
    ensures
        final(s)@ == old(s)@.push(c),
{
    s.push(c);
}

/// The characters of `text`, in order.
pub fn chars_of(text: &str) -> (chars: Vec<char>)
    ensures
        chars@ == text@,
{
    let mut chars: Vec<char> = Vec::new();
    for c in it: text.chars()
        invariant
            chars@ == it.history(),
    {
        chars.push(c);
    }
    chars
}

/// The string made of `chars[from..to]`.
pub fn string_from_range(chars: &Vec<char>, from: usize, to: usize) -> (s: String)
    requires
        from <= to <= chars@.len(),
    ensures
        s@ == chars@.subrange(from as int, to as int),
{
    let mut s = String::new();
    let mut i = from;
    while i < to
        invariant
            from <= i <= to <= chars@.len(),
            s@ == chars@.subrange(from as int, i as int),
        decreases to - i,
    {
        push_char(&mut s, chars[i]);
        assert(chars@.subrange(from as int, i + 1) =~= chars@.subrange(from as int, i as int).push(
            chars@[i as int],
        ));
        i = i + 1;
    }
    s
}

/// Index of the first occurrence of `c` in `s`, or `s.len()` when `c` does not occur.
pub open spec fn first_index(s: Seq<char>, c: char) -> nat
    decreases s.len(),
{
    if s.len() == 0 {
        0
    } else if s[0] == c {
        0
    } else {
        1 + first_index(s.drop_first(), c)
    }
}

/// `first_index` is the position `j` before which `c` does not occur and at which
/// `c` occurs (or the sequence ends).
pub proof fn lemma_first_index(s: Seq<char>, c: char, j: int)
    requires
        0 <= j <= s.len(),
        forall|i: int| 0 <= i < j ==> s[i] != c,
        j == s.len() || s[j] == c,
    ensures
        first_index(s, c) == j,
    decreases j,
{
    if j > 0 {
        lemma_first_index(s.drop_first(), c, j - 1);
    }
}

/// Whether `c` is white space in the sense of Unicode's `White_Space` property,
/// which is what `char::is_whitespace` and `str::trim` go by.
pub open spec fn is_white_space(c: char) -> bool {
    let n = c as u32;
    ||| 0x09 <= n <= 0x0d
    ||| n == 0x20
    ||| n == 0x85
    ||| n == 0xa0
    ||| n == 0x1680
    ||| 0x2000 <= n <= 0x200a
    ||| n == 0x2028
    ||| n == 0x2029
    ||| n == 0x202f
    ||| n == 0x205f
    ||| n == 0x3000
}

/// Decides `is_white_space`.
pub fn white_space(c: char) -> (r: bool)
    ensures
        r == is_white_space(c),
{
    let n = c as u32;
    (0x09 <= n && n <= 0x0d) || n == 0x20 || n == 0x85 || n == 0xa0 || n == 0x1680 || (0x2000
        <= n && n <= 0x200a) || n == 0x2028 || n == 0x2029 || n == 0x202f || n == 0x205f || n
        == 0x3000
}

/// Number of white-space characters at the start of `s`.
pub open spec fn leading_white(s: Seq<char>) -> nat
    decreases s.len(),
{
    if s.len() > 0 && is_white_space(s[0]) {
        1 + leading_white(s.drop_first())
    } else {
        0
    }
}

/// Number of white-space characters at the end of `s`.
pub open spec fn trailing_white(s: Seq<char>) -> nat
    decreases s.len(),
{
    if s.len() > 0 && is_white_space(s.last()) {
        1 + trailing_white(s.drop_last())
    } else {
        0
    }
}

/// `s` without its leading and trailing white space (what `str::trim` gives).
pub open spec fn trimmed(s: Seq<char>) -> Seq<char> {
    let t = s.skip(leading_white(s) as int);
    t.take(t.len() - trailing_white(t))
}


/// Characterizes `leading_white`.
pub proof fn lemma_leading_white(s: Seq<char>, j: int)
    requires
        0 <= j <= s.len(),
        forall|i: int| 0 <= i < j ==> is_white_space(s[i]),
        j == s.len() || !is_white_space(s[j]),
    ensures
        leading_white(s) == j,
    decreases j,
{
    if j > 0 {
        lemma_leading_white(s.drop_first(), j - 1);
    }
}

/// Characterizes `trailing_white`.
pub proof fn lemma_trailing_white(s: Seq<char>, j: int)
    requires
        0 <= j <= s.len(),
        forall|i: int| j <= i < s.len() ==> is_white_space(s[i]),
        j == 0 || !is_white_space(s[j - 1]),
    ensures
        trailing_white(s) == s.len() - j,
    decreases s.len() - j,
{
    if j < s.len() {
        lemma_trailing_white(s.drop_last(), j);
    }
}

/// The bounds `(lo, hi)` of `chars` without its leading and trailing white space.
pub fn trim_range(chars: &Vec<char>) -> (r: (usize, usize))
    ensures
        r.0 <= r.1 <= chars@.len(),
        chars@.subrange(r.0 as int, r.1 as int) == trimmed(chars@),
{
    let n = chars.len();
    let mut lo: usize = 0;
    while lo < n && white_space(chars[lo])
        invariant
            lo <= n == chars@.len(),
            forall|i: int| 0 <= i < lo ==> is_white_space(chars@[i]),
        decreases n - lo,
    {
        lo = lo + 1;
    }
    let mut hi: usize = n;
    while hi > lo && white_space(chars[hi - 1])
        invariant
            lo <= hi <= n == chars@.len(),
            forall|i: int| hi <= i < n ==> is_white_space(chars@[i]),
        decreases hi,
    {
        hi = hi - 1;
    }
    proof {
        lemma_leading_white(chars@, lo as int);
        let t = chars@.skip(lo as int);
        lemma_trailing_white(t, hi - lo);
        assert(t.take(t.len() - trailing_white(t)) =~= chars@.subrange(lo as int, hi as int));
    }
    (lo, hi)
}

/// Whether `c` is one of the ASCII digits `0`..`9`.
pub open spec fn is_digit(c: char) -> bool {
    '0' <= c <= '9'
}

/// The value of the ASCII digit `c`.
pub open spec fn digit_value(c: char) -> int {
    c as int - '0' as int
}

/// The character of the digit `d`, for `0 <= d < 10`.
pub open spec fn digit_char(d: int) -> char {
    (d + '0' as int) as char
}

/// Whether every character of `s` is an ASCII digit.
pub open spec fn all_digits(s: Seq<char>) -> bool {
    forall|i: int| 0 <= i < s.len() ==> is_digit(#[trigger] s[i])
}

/// The number that the decimal digits `s` write.
pub open spec fn digits_value(s: Seq<char>) -> int
    decreases s.len(),
{
    if s.len() == 0 {
        0
    } else {
        digits_value(s.drop_last()) * 10 + digit_value(s.last())
    }
}

/// What `str::parse::<i32>` gives for `s`: an optional `+` or `-`, then one or more
/// ASCII digits whose value, with the sign, lies in the range of `i32`.
pub open spec fn parse_i32(s: Seq<char>) -> Option<i32> {
    let negative = s.len() > 0 && s[0] == '-';
    let digits = if s.len() > 0 && (s[0] == '-' || s[0] == '+') {
        s.drop_first()
    } else {
        s
    };
    if digits.len() == 0 || !all_digits(digits) {
        None
    } else {
        let v = if negative {
            -digits_value(digits)
        } else {
            digits_value(digits)
        };
        if i32::MIN <= v <= i32::MAX {
            Some(v as i32)
        } else {
            None
        }
    }
}

/// Digits never lower the value: a prefix is worth at most the whole.
pub proof fn lemma_digits_value_prefix(s: Seq<char>, k: int)
    requires
        all_digits(s),
        0 <= k <= s.len(),
    ensures
        0 <= digits_value(s.take(k)) <= digits_value(s),
    decreases s.len() - k,
{
    if k < s.len() {
        lemma_digits_value_prefix(s, k + 1);
        assert(s.take(k + 1).drop_last() =~= s.take(k));
    } else {
        assert(s.take(k) =~= s);
        lemma_digits_value_nonneg(s);
    }
}

/// The value of digits is never negative.
pub proof fn lemma_digits_value_nonneg(s: Seq<char>)
    requires
        all_digits(s),
    ensures
        digits_value(s) >= 0,
    decreases s.len(),
{
    if s.len() > 0 {
        assert(is_digit(s[s.len() - 1]));
        lemma_digits_value_nonneg(s.drop_last());
    }
}

/// Reads `chars[from..to]` as `str::parse::<i32>` does.
pub fn parse_i32_range(chars: &Vec<char>, from: usize, to: usize) -> (r: Option<i32>)
    requires
        from <= to <= chars@.len(),
    ensures
        r == parse_i32(chars@.subrange(from as int, to as int)),
{
    let ghost s = chars@.subrange(from as int, to as int);
    let mut start = from;
    let mut negative = false;
    if from < to && (chars[from] == '-' || chars[from] == '+') {
        negative = chars[from] == '-';
        start = from + 1;
    }
    let ghost digits = chars@.subrange(start as int, to as int);
    assert(digits =~= (if s.len() > 0 && (s[0] == '-' || s[0] == '+') {
        s.drop_first()
    } else {
        s
    }));
    if start == to {
        return None;
    }
    let mut acc: i64 = 0;
    let mut i = start;
    while i < to
        invariant
            from <= start <= i <= to <= chars@.len(),
            s == chars@.subrange(from as int, to as int),
            digits == chars@.subrange(start as int, to as int),
            digits.len() > 0,
            digits == (if s.len() > 0 && (s[0] == '-' || s[0] == '+') {
                s.drop_first()
            } else {
                s
            }),
            negative == (s.len() > 0 && s[0] == '-'),
            all_digits(digits.take(i - start)),
            acc == digits_value(digits.take(i - start)),
            0 <= acc <= 2147483648,
        decreases to - i,
    {
        let c = chars[i];
        if !('0' <= c && c <= '9') {
            assert(!is_digit(digits[i - start]));
            assert(!all_digits(digits));
            return None;
        }
        let d = (c as u32 - '0' as u32) as i64;
        proof {
            assert(digits.take(i - start + 1).drop_last() =~= digits.take(i - start));
            assert(digits[i - start] == c);
        }
        acc = acc * 10 + d;
        i = i + 1;
        assert(all_digits(digits.take(i - start))) by {
            assert forall|k: int| 0 <= k < i - start implies is_digit(#[trigger] digits.take(i - start)[k]) by {
                if k < i - start - 1 {
                    assert(digits.take(i - start)[k] == digits.take(i - start - 1)[k]);
                }
            }
        }
        if acc > 2147483648 {
            // Too large for an `i32` whatever follows: either a non-digit follows and the
            // text is no number, or more digits follow and the value only grows.
            proof {
                if all_digits(digits) {
                    lemma_digits_value_prefix(digits, i - start);
                }
            }
            return None;
        }
    }
    assert(digits.take(i - start) =~= digits);
    if negative {
        Some((-acc) as i32)
    } else if acc <= 2147483647 {
        Some(acc as i32)
    } else {
        None
    }
}

/// The decimal digits of `n`, most significant first, with no leading zero.
pub open spec fn decimal(n: nat) -> Seq<char>
    decreases n,
{
    if n < 10 {
        seq![digit_char(n as int)]
    } else {
        decimal(n / 10).push(digit_char((n % 10) as int))
    }
}

/// The text that `format!("{}", x)` gives for an `i32`.
pub open spec fn decimal_i32(x: i32) -> Seq<char> {
    if x < 0 {
        seq!['-'] + decimal((-x) as nat)
    } else {
        decimal(x as nat)
    }
}

/// Appends the decimal digits of `n` to `s`.
pub fn push_decimal(s: &mut String, n: u64)
    ensures
        final(s)@ == old(s)@ + decimal(n as nat),
    decreases n,
{
    if n >= 10 {
        push_decimal(s, n / 10);
    }
    let d = (n % 10) as u8;
    push_char(s, (d + 48u8) as char);
    assert(old(s)@ + decimal(n as nat) =~= s@);
}

/// Writes `x` in decimal, as `format!("{}", x)` does.
pub fn format_i32(x: i32) -> (s: String)
    ensures
        s@ == decimal_i32(x),
{
    let mut s = String::new();
    if x < 0 {
        push_char(&mut s, '-');
        let m: i64 = -(x as i64);
        push_decimal(&mut s, m as u64);
    } else {
        push_decimal(&mut s, x as u64);
    }
    s
}

/// The decimal digits of `n` are digits, and they are worth `n`.
pub proof fn lemma_decimal_digits(n: nat)
    ensures
        decimal(n).len() > 0,
        all_digits(decimal(n)),
        digits_value(decimal(n)) == n,
    decreases n,
{
    if n >= 10 {
        lemma_decimal_digits(n / 10);
        let s = decimal(n);
        assert(s.drop_last() =~= decimal(n / 10));
        let d = (n % 10) as int;
        assert(digit_value(digit_char(d)) == d);
        assert(n == (n / 10) * 10 + d);
        assert(s.last() == digit_char(d));
        assert(digits_value(s) == digits_value(s.drop_last()) * 10 + digit_value(s.last()));
        assert(digits_value(s) == n);
        assert forall|i: int| 0 <= i < s.len() implies is_digit(#[trigger] s[i]) by {
            if i < s.len() - 1 {
                assert(s[i] == decimal(n / 10)[i]);
            }
        }
    } else {
        assert(decimal(n).drop_last() =~= Seq::<char>::empty());
        assert(digit_value(digit_char(n as int)) == n);
        assert(digits_value(decimal(n)) == digits_value(decimal(n).drop_last()) * 10 + digit_value(decimal(n).last()));
    }
}

/// The decimal text of `n` starts with a digit other than `0` unless it is `0` itself.
pub proof fn lemma_decimal_leading_digit(n: nat)
    ensures
        decimal(n).len() > 1 ==> decimal(n)[0] != '0',
        decimal(n).len() == 1 ==> n < 10,
        decimal(n)[0] == '0' ==> n == 0,
    decreases n,
{
    if n >= 10 {
        lemma_decimal_leading_digit(n / 10);
        lemma_decimal_digits(n / 10);
        assert(decimal(n)[0] == decimal(n / 10)[0]);
    }
}

/// What `format!("{}", x)` writes for an `i32`: a `-` exactly when `x` is negative,
/// then one or more ASCII digits and nothing else, with no leading zero (unless
/// the number is `0`), whose value is the magnitude of `x`.
pub proof fn lemma_decimal_i32_shape(x: i32)
    ensures
        ({
            let s = decimal_i32(x);
            let digits = if x < 0 {
                s.drop_first()
            } else {
                s
            };
            &&& s.len() > 0
            &&& (s[0] == '-' <==> x < 0)
            &&& x < 0 ==> s == seq!['-'] + digits
            &&& digits.len() > 0
            &&& all_digits(digits)
            &&& digits_value(digits) == (if x < 0 {
                -(x as int)
            } else {
                x as int
            })
            &&& digits.len() > 1 ==> digits[0] != '0'
            &&& forall|i: int| 0 <= i < s.len() ==> is_digit(#[trigger] s[i]) || (i == 0 && x < 0 && s[i] == '-')
        }),
{
    let s = decimal_i32(x);
    let m: nat = if x < 0 {
        (-x) as nat
    } else {
        x as nat
    };
    lemma_decimal_digits(m);
    lemma_decimal_leading_digit(m);
    let d = decimal(m);
    assert(is_digit(d[0]));
    if x < 0 {
        assert(s.drop_first() =~= d);
        assert forall|i: int| 0 <= i < s.len() implies is_digit(#[trigger] s[i]) || (i == 0 && x < 0
            && s[i] == '-') by {
            if i > 0 {
                assert(s[i] == d[i - 1]);
            }
        }
    }
}

/// The length in bytes of the UTF-8 encoding of `s` (what `str::len` gives).
pub open spec fn byte_len(s: Seq<char>) -> nat {
    encode_utf8(s).len()
}

/// A text is longer than one byte when it has two characters or more, or one
/// character outside ASCII.
pub proof fn lemma_byte_len_over_one(s: Seq<char>)
    ensures
        byte_len(s) > 1 <==> (s.len() >= 2 || (s.len() == 1 && s[0] as u32 >= 0x80)),
{
    if s.len() > 0 {
        let c = s[0] as u32;
        assert(encode_utf8(s) == encode_scalar(c) + encode_utf8(s.drop_first()));
        assert(encode_scalar(c).len() >= 1);
        assert(encode_scalar(c).len() == 1 <==> c <= 0x7f);
        if s.len() >= 2 {
            let t = s.drop_first();
            assert(encode_utf8(t) == encode_scalar(t[0] as u32) + encode_utf8(t.drop_first()));
            assert(encode_scalar(t[0] as u32).len() >= 1);
        } else {
            assert(s.drop_first().len() == 0);
            assert(encode_utf8(s.drop_first()).len() == 0);
        }
    } else {
        assert(encode_utf8(s).len() == 0);
    }
}

/// Whether `s` is longer than one byte (`s.len() > 1`).
pub fn longer_than_one_byte(s: &str) -> (r: bool)
    ensures
        r == (byte_len(s@) > 1),
{
    proof {
        lemma_byte_len_over_one(s@);
    }
    let chars = chars_of(s);
    chars.len() >= 2 || (chars.len() == 1 && chars[0] as u32 >= 0x80)
}

} // verus!

//! Numeric field handling: decimal parsing of unsigned integers, the grammar
//! of floating-point field texts, and rendering integers back to text.

use vstd::prelude::*;

verus! {

/// Whether `c` is a decimal digit.
pub open spec fn is_digit(c: char) -> bool {
    48 <= c as u32 <= 57
}

/// The numeric value of the digit `c`.
pub open spec fn digit_val(c: char) -> int {
    c as u32 - 48
}

/// Whether every character of `s` is a decimal digit.
pub open spec fn all_digits(s: Seq<char>) -> bool {
    forall|j: int| 0 <= j < s.len() ==> is_digit(s[j])
}

/// The value of the digit string `s`, most significant digit first.
pub open spec fn str_val(s: Seq<char>) -> int
    decreases s.len(),
{
    if s.len() == 0 {
        0
    } else {
        str_val(s.drop_last()) * 10 + digit_val(s.last())
    }
}

proof fn lemma_str_val_nonneg(s: Seq<char>)
    requires
        all_digits(s),
    ensures
        str_val(s) >= 0,
    decreases s.len(),
{
    if s.len() > 0 {
        lemma_str_val_nonneg(s.drop_last());
    }
}

/// A digit string is worth at least as much as any of its prefixes.
proof fn lemma_str_val_prefix(s: Seq<char>, m: int)
    requires
        all_digits(s),
        0 <= m <= s.len(),
    ensures
        str_val(s) >= str_val(s.take(m)),
    decreases s.len() - m,
{
    if m < s.len() {
        let t = s.take(m + 1);
        assert(t.drop_last() =~= s.take(m));
        assert(all_digits(t));
        lemma_str_val_nonneg(s.take(m));
        lemma_str_val_prefix(s, m + 1);
    } else {
        assert(s.take(m) =~= s);
    }
}

/// The unsigned-integer reading of a field text: an optional leading plus
/// sign, then one or more digits, whose value fits in a `u32`. Anything
/// else reads as `None`.
pub open spec fn parse_u32(s: Seq<char>) -> Option<u32> {
    let body = if s.len() > 0 && s[0] == '+' {
        s.drop_first()
    } else {
        s
    };
    if body.len() > 0 && all_digits(body) && str_val(body) <= u32::MAX {
        Some(str_val(body) as u32)
    } else {
        None
    }
}

/// Reads `s` as an unsigned integer, or yields `None` where `s` is not a
/// plain decimal integer that fits in a `u32`.
pub fn parse_u32_text(s: &str) -> (r: Option<u32>)
    ensures
        r == parse_u32(s@),
{
    let n = s.unicode_len();
    let start: usize = if n > 0 && s.get_char(0) == '+' {
        1
    } else {
        0
    };
    let ghost body = if s@.len() > 0 && s@[0] == '+' {
        s@.drop_first()
    } else {
        s@
    };
    proof {
        assert(body =~= s@.subrange(start as int, n as int));
    }
    if start == n {
        return None;
    }
    // First pass: every remaining character must be a digit.
    let mut i: usize = start;
    while i < n
        invariant
            n == s@.len(),
            start <= i <= n,
            body == (if s@.len() > 0 && s@[0] == '+' {
                s@.drop_first()
            } else {
                s@
            }),
            body == s@.subrange(start as int, n as int),
            forall|j: int| start <= j < i ==> is_digit(s@[j]),
        decreases n - i,
    {
        let c = s.get_char(i);
        if !(48 <= c as u32 && c as u32 <= 57) {
            proof {
                assert(body[i - start] == s@[i as int]);
                assert(!is_digit(body[i - start]));
            }
            return None;
        }
        i += 1;
    }
    proof {
        assert(all_digits(body));
    }
    // Second pass: accumulate the value, rejecting anything over u32::MAX.
    let mut acc: u32 = 0;
    let mut k: usize = start;
    while k < n
        invariant
            n == s@.len(),
            start < n,
            start <= k <= n,
            body == (if s@.len() > 0 && s@[0] == '+' {
                s@.drop_first()
            } else {
                s@
            }),
            body == s@.subrange(start as int, n as int),
            all_digits(body),
            acc as int == str_val(body.take(k - start)),
        decreases n - k,
    {
        let c = s.get_char(k);
        proof {
            assert(is_digit(body[k - start]));
            assert(body[k - start] == s@[k as int]);
        }
        let d: u32 = c as u32 - 48;
        let ghost taken = body.take(k + 1 - start);
        proof {
            assert(taken.drop_last() =~= body.take(k - start));
            assert(taken.last() == s@[k as int]);
            assert(str_val(taken) == acc as int * 10 + digit_val(s@[k as int]));
        }
        let m = match acc.checked_mul(10) {
            Some(m) => m,
            None => {
                proof {
                    lemma_str_val_prefix(body, k + 1 - start);
                    assert(str_val(body) > u32::MAX);
                }
                return None;
            },
        };
        let a = match m.checked_add(d) {
            Some(a) => a,
            None => {
                proof {
                    lemma_str_val_prefix(body, k + 1 - start);
                    assert(str_val(body) > u32::MAX);
                }
                return None;
            },
        };
        acc = a;
        k += 1;
    }
    proof {
        assert(body.take(n - start) =~= body);
    }
    Some(acc)
}

/// The scan of a digit run: the first index at or after `i` that does not
/// hold a digit, or the length of `s` where digits reach its end.
pub open spec fn digits_end(s: Seq<char>, i: int) -> int
    decreases s.len() - i,
{
    if i < 0 || i >= s.len() {
        s.len() as int
    } else if is_digit(s[i]) {
        digits_end(s, i + 1)
    } else {
        i
    }
}

/// Pins `digits_end` down from a digit run observed directly.
proof fn lemma_digits_end(s: Seq<char>, i: int, k: int)
    requires
        0 <= i <= k <= s.len(),
        forall|j: int| i <= j < k ==> is_digit(s[j]),
        k == s.len() || !is_digit(s[k]),
    ensures
        digits_end(s, i) == k,
    decreases k - i,
{
    if i < k {
        lemma_digits_end(s, i + 1, k);
    }
}

/// Scans the digit run of `s` that starts at `i`.
fn digits_end_text(s: &str, i: usize) -> (r: usize)
    requires
        i <= s@.len(),
    ensures
        r as int == digits_end(s@, i as int),
        i <= r <= s@.len(),
{
    let n = s.unicode_len();
    let mut j = i;
    loop
        invariant
            n == s@.len(),
            i <= j <= n,
            forall|t: int| i <= t < j ==> is_digit(s@[t]),
        ensures
            i <= j <= n,
            forall|t: int| i <= t < j ==> is_digit(s@[t]),
            j == n || !is_digit(s@[j as int]),
        decreases n - j,
    {
        if j == n {
            break ;
        }
        let c = s.get_char(j);
        if !(48 <= c as u32 && c as u32 <= 57) {
            break ;
        }
        j += 1;
    }
    proof {
        lemma_digits_end(s@, i as int, j as int);
    }
    j
}

/// The numeric grammar of a floating-point field text: an optional sign,
/// a mantissa holding at least one digit with an optional period, and an
/// optional exponent part introduced by `e` or `E` with an optional sign
/// and at least one digit.
pub open spec fn is_numeric_float(s: Seq<char>) -> bool {
    let i1: int = if s.len() > 0 && (s[0] == '+' || s[0] == '-') {
        1
    } else {
        0
    };
    let i2 = digits_end(s, i1);
    let i3: int = if i2 < s.len() && s[i2] == '.' {
        digits_end(s, i2 + 1)
    } else {
        i2
    };
    let has_mantissa = i2 > i1 || i3 > i2 + 1;
    if i3 == s.len() {
        has_mantissa
    } else if s[i3] == 'e' || s[i3] == 'E' {
        let i4: int = if i3 + 1 < s.len() && (s[i3 + 1] == '+' || s[i3 + 1] == '-') {
            i3 + 2
        } else {
            i3 + 1
        };
        has_mantissa && digits_end(s, i4) == s.len() && s.len() > i4
    } else {
        false
    }
}

/// Whether `c` equals the lowercase ASCII letter `lc`, with case ignored.
pub open spec fn ascii_ci_eq(c: char, lc: char) -> bool {
    c == lc || c as u32 + 32 == lc as u32
}

/// Whether `s` spells the lowercase ASCII word `w`, with case ignored.
pub open spec fn matches_ci(s: Seq<char>, w: Seq<char>) -> bool {
    s.len() == w.len() && forall|j: int| 0 <= j < s.len() ==> ascii_ci_eq(#[trigger] s[j], w[j])
}

/// Whether `s` is a special floating-point spelling: an optional sign,
/// then `inf`, `infinity` or `nan`, with case ignored.
pub open spec fn is_special_float(s: Seq<char>) -> bool {
    let body = s.subrange(sign_end(s), s.len() as int);
    matches_ci(body, "inf"@) || matches_ci(body, "infinity"@) || matches_ci(body, "nan"@)
}

/// The grammar of a floating-point field text, read after normalization:
/// either a signed decimal number with an optional exponent, or one of
/// the special spellings of an infinity or a not-a-number.
pub open spec fn is_float_text(s: Seq<char>) -> bool {
    is_numeric_float(s) || is_special_float(s)
}

/// Decides whether the tail of `s` from `start` spells the lowercase
/// ASCII word `w`, with case ignored.
fn matches_ci_exec(s: &str, start: usize, w: &str) -> (r: bool)
    requires
        start <= s@.len(),
    ensures
        r == matches_ci(s@.subrange(start as int, s@.len() as int), w@),
{
    let n = s.unicode_len();
    let m = w.unicode_len();
    let ghost body = s@.subrange(start as int, n as int);
    if n - start != m {
        return false;
    }
    let mut j: usize = 0;
    while j < m
        invariant
            n == s@.len(),
            m == w@.len(),
            start <= n,
            body == s@.subrange(start as int, n as int),
            n - start == m,
            j <= m,
            forall|t: int| 0 <= t < j ==> ascii_ci_eq(#[trigger] body[t], w@[t]),
        decreases m - j,
    {
        let c = s.get_char(start + j);
        let lc = w.get_char(j);
        if !(c == lc || c as u32 + 32 == lc as u32) {
            proof {
                assert(body[j as int] == s@[start + j]);
            }
            return false;
        }
        j += 1;
    }
    true
}

proof fn lemma_digits_end_bounds(s: Seq<char>, i: int)
    requires
        0 <= i <= s.len(),
    ensures
        i <= digits_end(s, i) <= s.len(),
    decreases s.len() - i,
{
    if i < s.len() && is_digit(s[i]) {
        lemma_digits_end_bounds(s, i + 1);
    }
}

/// Decides whether `s` is a well-formed numeric floating-point text.
fn is_numeric_float_exec(s: &str) -> (r: bool)
    ensures
        r == is_numeric_float(s@),
{
    let n = s.unicode_len();
    let i1: usize = if n > 0 && {
        let c = s.get_char(0);
        c == '+' || c == '-'
    } {
        1
    } else {
        0
    };
    proof {
        lemma_digits_end_bounds(s@, i1 as int);
    }
    let i2 = digits_end_text(s, i1);
    let i3: usize = if i2 < n && s.get_char(i2) == '.' {
        digits_end_text(s, i2 + 1)
    } else {
        i2
    };
    let has_mantissa = i2 > i1 || i3 > i2 + 1;
    if i3 == n {
        has_mantissa
    } else {
        let c = s.get_char(i3);
        if c == 'e' || c == 'E' {
            let i4: usize = if i3 + 1 < n && {
                let c2 = s.get_char(i3 + 1);
                c2 == '+' || c2 == '-'
            } {
                i3 + 2
            } else {
                i3 + 1
            };
            assert(i4 <= n);
            let e_end = digits_end_text(s, i4);
            has_mantissa && e_end == n && n > i4
        } else {
            false
        }
    }
}

/// Decides whether `s` is a well-formed floating-point field text.
pub fn is_float_text_exec(s: &str) -> (r: bool)
    ensures
        r == is_float_text(s@),
{
    if is_numeric_float_exec(s) {
        return true;
    }
    let n = s.unicode_len();
    let start: usize = if n > 0 && {
        let c = s.get_char(0);
        c == '+' || c == '-'
    } {
        1
    } else {
        0
    };
    proof {
        assert(start as int == sign_end(s@));
    }
    matches_ci_exec(s, start, "inf") || matches_ci_exec(s, start, "infinity") || matches_ci_exec(
        s,
        start,
        "nan",
    )
}

/// A fraction part with its trailing zeros removed.
pub open spec fn trim_frac_end(f: Seq<char>) -> Seq<char>
    decreases f.len(),
{
    if f.len() > 0 && f.last() == '0' {
        trim_frac_end(f.drop_last())
    } else {
        f
    }
}

proof fn lemma_trim_frac_end(f: Seq<char>, m: int)
    requires
        0 <= m <= f.len(),
        forall|j: int| m <= j < f.len() ==> f[j] == '0',
        m == 0 || f[m - 1] != '0',
    ensures
        trim_frac_end(f) == f.subrange(0, m),
    decreases f.len(),
{
    if f.len() > 0 && f.last() == '0' {
        assert(m < f.len());
        lemma_trim_frac_end(f.drop_last(), m);
        assert(f.drop_last().subrange(0, m) =~= f.subrange(0, m));
    } else {
        assert(f.subrange(0, m) =~= f);
    }
}

/// An integer part with its leading zeros removed, down to a single digit.
pub open spec fn trim_int_start(d: Seq<char>) -> Seq<char>
    decreases d.len(),
{
    if d.len() > 1 && d.first() == '0' {
        trim_int_start(d.drop_first())
    } else {
        d
    }
}

proof fn lemma_trim_int_start(d: Seq<char>, k: int)
    requires
        0 <= k < d.len(),
        forall|j: int| 0 <= j < k ==> d[j] == '0',
        k == d.len() - 1 || d[k] != '0',
    ensures
        trim_int_start(d) == d.subrange(k, d.len() as int),
    decreases d.len(),
{
    if d.len() > 1 && d.first() == '0' {
        if k == 0 {
            assert(d[k] != '0');
            assert(false);
        }
        lemma_trim_int_start(d.drop_first(), k - 1);
        assert(d.drop_first().subrange(k - 1, d.drop_first().len() as int) =~= d.subrange(
            k,
            d.len() as int,
        ));
    } else {
        assert(k == 0);
        assert(d.subrange(0, d.len() as int) =~= d);
    }
}

/// Where the body of a signed text begins: after one leading sign
/// character, if there is one.
pub open spec fn sign_end(s: Seq<char>) -> int {
    if s.len() > 0 && (s[0] == '+' || s[0] == '-') {
        1
    } else {
        0
    }
}

/// Whether `s` is a floating-point field text without an exponent part:
/// an optional sign, then digits with at most one period, with at least
/// one digit overall.
pub open spec fn is_simple_float(s: Seq<char>) -> bool {
    let i1 = sign_end(s);
    let i2 = digits_end(s, i1);
    let i3: int = if i2 < s.len() && s[i2] == '.' {
        digits_end(s, i2 + 1)
    } else {
        i2
    };
    (i2 > i1 || i3 > i2 + 1) && i3 == s.len()
}

/// The number of digits of a simple floating-point text's integer part,
/// leading zeros not counted beyond a single zero digit: the text's value
/// is below ten to this power.
pub open spec fn int_digits(s: Seq<char>) -> int {
    let i1 = sign_end(s);
    let i2 = digits_end(s, i1);
    if i2 == i1 {
        0
    } else {
        trim_int_start(s.subrange(i1, i2)).len() as int
    }
}

/// The number of digits of a simple floating-point text's fraction part,
/// trailing zeros not counted: distinct values on this grid differ by at
/// least ten to the negative of this power.
pub open spec fn frac_digits(s: Seq<char>) -> int {
    let i1 = sign_end(s);
    let i2 = digits_end(s, i1);
    if i2 < s.len() && s[i2] == '.' {
        trim_frac_end(s.subrange(i2 + 1, s.len() as int)).len() as int
    } else {
        0
    }
}

/// Measures a simple floating-point text: its trimmed integer-part and
/// fraction-part digit counts, or `None` where the text is not a simple
/// floating-point text.
pub fn float_dims(s: &str) -> (r: Option<(usize, usize)>)
    ensures
        r is Some <==> is_simple_float(s@),
        r is Some ==> r.unwrap().0 as int == int_digits(s@) && r.unwrap().1 as int == frac_digits(
            s@,
        ),
{
    let n = s.unicode_len();
    let i1: usize = if n > 0 && {
        let c = s.get_char(0);
        c == '+' || c == '-'
    } {
        1
    } else {
        0
    };
    proof {
        lemma_digits_end_bounds(s@, i1 as int);
    }
    let i2 = digits_end_text(s, i1);
    let i3: usize = if i2 < n && s.get_char(i2) == '.' {
        digits_end_text(s, i2 + 1)
    } else {
        i2
    };
    if !((i2 > i1 || i3 > i2 + 1) && i3 == n) {
        return None;
    }
    // Digits of the integer part, leading zeros trimmed to one digit.
    let mut k = i1;
    while i2 - k > 1 && s.get_char(k) == '0'
        invariant
            i1 <= k <= i2 <= n,
            k > i1 ==> k < i2,
            n == s@.len(),
            forall|j: int| i1 <= j < k ==> s@[j] == '0',
        decreases i2 - k,
    {
        k += 1;
    }
    let di: usize = if i1 == i2 {
        0
    } else {
        proof {
            lemma_trim_int_start(s@.subrange(i1 as int, i2 as int), k - i1);
        }
        i2 - k
    };
    // Digits of the fraction part, trailing zeros trimmed.
    let frac_start: usize = if i2 < n {
        i2 + 1
    } else {
        n
    };
    let mut m = n;
    while m > frac_start && s.get_char(m - 1) == '0'
        invariant
            frac_start <= m <= n,
            n == s@.len(),
            forall|j: int| m <= j < n ==> s@[j] == '0',
        decreases m,
    {
        m -= 1;
    }
    let df: usize = if i2 < n {
        proof {
            lemma_trim_frac_end(s@.subrange(frac_start as int, n as int), m - frac_start);
        }
        m - frac_start
    } else {
        0
    };
    Some((di, df))
}

/// The canonical form of a simple floating-point text: a plus sign is
/// dropped, leading zeros of the integer part are removed (an empty one
/// becomes a single zero), trailing zeros of the fraction are removed,
/// and an emptied fraction loses its period.
pub open spec fn simple_canonical(s: Seq<char>) -> Seq<char> {
    let neg = s.len() > 0 && s[0] == '-';
    let i1 = sign_end(s);
    let i2 = digits_end(s, i1);
    let intpart = s.subrange(i1, i2);
    let frac = if i2 < s.len() {
        s.subrange(i2 + 1, s.len() as int)
    } else {
        Seq::<char>::empty()
    };
    let whole = if intpart.len() == 0 {
        seq!['0']
    } else {
        trim_int_start(intpart)
    };
    let f2 = trim_frac_end(frac);
    let core = if f2.len() == 0 {
        whole
    } else {
        whole + seq!['.'] + f2
    };
    if neg {
        seq!['-'] + core
    } else {
        core
    }
}

/// Where a numeric text's mantissa ends: after the integer digits and,
/// where a period follows them, after the fraction digits.
pub open spec fn mantissa_end(s: Seq<char>) -> int {
    let i1 = sign_end(s);
    let i2 = digits_end(s, i1);
    if i2 < s.len() && s[i2] == '.' {
        digits_end(s, i2 + 1)
    } else {
        i2
    }
}

/// Whether `s` is a numeric floating-point text that carries an
/// exponent part.
pub open spec fn has_exponent(s: Seq<char>) -> bool {
    is_numeric_float(s) && mantissa_end(s) < s.len()
}

/// Where the exponent's digits begin: after the exponent marker and its
/// optional sign.
pub open spec fn exp_digits_start(s: Seq<char>) -> int {
    let i3 = mantissa_end(s);
    if i3 + 1 < s.len() && (s[i3 + 1] == '+' || s[i3 + 1] == '-') {
        i3 + 2
    } else {
        i3 + 1
    }
}

/// Whether the exponent carries a minus sign.
pub open spec fn exp_negative(s: Seq<char>) -> bool {
    let i3 = mantissa_end(s);
    i3 + 1 < s.len() && s[i3 + 1] == '-'
}

/// The exponent's magnitude, where its digits read as a `u32`.
pub open spec fn exp_magnitude(s: Seq<char>) -> Option<u32> {
    parse_u32(s.subrange(exp_digits_start(s), s.len() as int))
}

/// A run of `n` zero digits.
pub open spec fn zeros(n: int) -> Seq<char>
    decreases n,
{
    if n <= 0 {
        Seq::empty()
    } else {
        zeros(n - 1).push('0')
    }
}

/// An exponent-form text expanded to a plain decimal: the mantissa's
/// digits with the decimal point moved by the exponent's magnitude,
/// padded with zeros where the point leaves the digits.
pub open spec fn expand_exp(s: Seq<char>) -> Seq<char> {
    let i1 = sign_end(s);
    let i2 = digits_end(s, i1);
    let i3 = mantissa_end(s);
    let ip = s.subrange(i1, i2);
    let fr = if i2 < i3 {
        s.subrange(i2 + 1, i3)
    } else {
        Seq::<char>::empty()
    };
    let e = exp_magnitude(s).unwrap() as int;
    let sign = if s.len() > 0 && s[0] == '-' {
        seq!['-']
    } else {
        Seq::<char>::empty()
    };
    if !exp_negative(s) {
        if e >= fr.len() {
            sign + ip + fr + zeros(e - fr.len())
        } else if ip.len() == 0 && e == 0 {
            sign + seq!['0', '.'] + fr
        } else {
            sign + ip + fr.take(e) + seq!['.'] + fr.skip(e)
        }
    } else {
        if e >= ip.len() {
            sign + seq!['0', '.'] + zeros(e - ip.len()) + ip + fr
        } else {
            sign + ip.take(ip.len() - e) + seq!['.'] + ip.skip(ip.len() - e) + fr
        }
    }
}

/// The canonical form of a floating-point field text: a simple text is
/// trimmed of its redundant signs and zeros; an exponent form whose
/// magnitude stays within a float's decimal range is expanded to a plain
/// decimal and trimmed the same way; anything else, a special spelling
/// or an overflowing exponent among it, is left as written.
pub open spec fn canonical_float(s: Seq<char>) -> Seq<char> {
    if is_simple_float(s) {
        simple_canonical(s)
    } else if has_exponent(s) && exp_magnitude(s) is Some && exp_magnitude(s).unwrap() <= 38 {
        simple_canonical(expand_exp(s))
    } else {
        s
    }
}

/// Renders the simple canonical form of `s`.
#[verifier::rlimit(50)]
fn canon_simple_text(s: &str) -> (r: String)
    ensures
        r@ == simple_canonical(s@),
{
    let n = s.unicode_len();
    let i1: usize = if n > 0 && {
        let c = s.get_char(0);
        c == '+' || c == '-'
    } {
        1
    } else {
        0
    };
    proof {
        lemma_digits_end_bounds(s@, i1 as int);
    }
    let i2 = digits_end_text(s, i1);
    let neg = i1 == 1 && s.get_char(0) == '-';
    // Leading zeros of the integer part.
    let mut k = i1;
    while i2 - k > 1 && s.get_char(k) == '0'
        invariant
            i1 <= k <= i2 <= n,
            k > i1 ==> k < i2,
            n == s@.len(),
            forall|j: int| i1 <= j < k ==> s@[j] == '0',
        decreases i2 - k,
    {
        k += 1;
    }
    // Trailing zeros of the fraction part.
    let frac_start: usize = if i2 < n {
        i2 + 1
    } else {
        n
    };
    let mut m = n;
    while m > frac_start && s.get_char(m - 1) == '0'
        invariant
            frac_start <= m <= n,
            n == s@.len(),
            forall|j: int| m <= j < n ==> s@[j] == '0',
        decreases m,
    {
        m -= 1;
    }
    let ghost intpart = s@.subrange(i1 as int, i2 as int);
    let ghost frac = if (i2 as int) < s@.len() {
        s@.subrange(i2 + 1, s@.len() as int)
    } else {
        Seq::<char>::empty()
    };
    let ghost whole = if intpart.len() == 0 {
        seq!['0']
    } else {
        trim_int_start(intpart)
    };
    let ghost f2 = trim_frac_end(frac);
    proof {
        assert(frac =~= s@.subrange(frac_start as int, n as int));
    }
    let mut out = String::new();
    if neg {
        proof {
            reveal_strlit("-");
        }
        out.append("-");
    }
    if i1 == i2 {
        proof {
            reveal_strlit("0");
        }
        out.append("0");
    } else {
        proof {
            lemma_trim_int_start(intpart, k - i1);
            assert(intpart.subrange(k - i1, i2 - i1) =~= s@.subrange(k as int, i2 as int));
        }
        out.append(s.substring_char(k, i2));
    }
    proof {
        assert(out@ =~= (if neg {
            seq!['-']
        } else {
            Seq::<char>::empty()
        }) + whole);
    }
    if m > frac_start {
        proof {
            reveal_strlit(".");
            lemma_trim_frac_end(frac, m - frac_start);
            assert(frac.subrange(0, m - frac_start) =~= s@.subrange(frac_start as int, m as int));
        }
        out.append(".");
        out.append(s.substring_char(frac_start, m));
    } else {
        proof {
            lemma_trim_frac_end(frac, m - frac_start);
            assert(frac.subrange(0, m - frac_start) =~= Seq::<char>::empty());
        }
    }
    proof {
        assert(out@ =~= (if neg {
            seq!['-']
        } else {
            Seq::<char>::empty()
        }) + (if f2.len() == 0 {
            whole
        } else {
            whole + seq!['.'] + f2
        }));
        assert(out@ =~= simple_canonical(s@));
    }
    out
}

/// Appends `n` zero digits to `out`.
fn append_zeros(out: &mut String, n: usize)
    ensures
        final (out)@ == old(out)@ + zeros(n as int),
{
    proof {
        assert(old(out)@ + zeros(0) =~= old(out)@);
    }
    let mut i: usize = 0;
    while i < n
        invariant
            i <= n,
            out@ == old(out)@ + zeros(i as int),
        decreases n - i,
    {
        proof {
            reveal_strlit("0");
        }
        out.append("0");
        proof {
            assert(out@ =~= old(out)@ + zeros(i + 1));
        }
        i += 1;
    }
}

/// Builds the plain-decimal expansion of an exponent-form text, the
/// scan positions and the exponent's reading given.
#[verifier::rlimit(100)]
fn expand_exp_text(s: &str, i1: usize, i2: usize, i3: usize, e: usize, neg_exp: bool) -> (ex:
    String)
    requires
        i1 as int == sign_end(s@),
        i2 as int == digits_end(s@, i1 as int),
        i3 as int == mantissa_end(s@),
        i1 <= i2 <= i3 <= s@.len(),
        exp_magnitude(s@) is Some,
        e as int == exp_magnitude(s@).unwrap() as int,
        neg_exp == exp_negative(s@),
    ensures
        ex@ == expand_exp(s@),
{
    let di = i2 - i1;
    let frl: usize = if i2 < i3 {
        i3 - i2 - 1
    } else {
        0
    };
    let ghost ip = s@.subrange(i1 as int, i2 as int);
    let ghost fr = if (i2 as int) < i3 as int {
        s@.subrange(i2 + 1, i3 as int)
    } else {
        Seq::<char>::empty()
    };
    let ghost sgn: Seq<char> = if s@.len() > 0 && s@[0] == '-' {
        seq!['-']
    } else {
        Seq::<char>::empty()
    };
    proof {
        reveal_strlit("-");
        reveal_strlit(".");
        reveal_strlit("0.");
        assert(("0.")@ =~= seq!['0', '.']);
        assert(ip.len() == di && fr.len() == frl);
    }
    let mut ex = String::new();
    if i1 == 1 && s.get_char(0) == '-' {
        ex.append("-");
    }
    proof {
        assert(ex@ =~= sgn);
    }
    if !neg_exp {
        if e >= frl {
            ex.append(s.substring_char(i1, i2));
            if i2 < i3 {
                ex.append(s.substring_char(i2 + 1, i3));
            }
            append_zeros(&mut ex, e - frl);
            proof {
                assert(expand_exp(s@) == sgn + ip + fr + zeros(e - frl));
                assert(ex@ =~= sgn + ip + fr + zeros(e - frl));
            }
        } else if i2 == i1 && e == 0 {
            ex.append("0.");
            ex.append(s.substring_char(i2 + 1, i3));
            proof {
                assert(expand_exp(s@) == sgn + seq!['0', '.'] + fr);
                assert(ex@ =~= sgn + seq!['0', '.'] + fr);
            }
        } else {
            ex.append(s.substring_char(i1, i2));
            ex.append(s.substring_char(i2 + 1, i2 + 1 + e));
            ex.append(".");
            ex.append(s.substring_char(i2 + 1 + e, i3));
            proof {
                assert(fr.take(e as int) =~= s@.subrange(i2 + 1, i2 + 1 + e));
                assert(fr.skip(e as int) =~= s@.subrange(i2 + 1 + e, i3 as int));
                assert(expand_exp(s@) == sgn + ip + fr.take(e as int) + seq!['.'] + fr.skip(
                    e as int,
                ));
                assert(ex@ =~= sgn + ip + fr.take(e as int) + seq!['.'] + fr.skip(e as int));
            }
        }
    } else {
        if e >= di {
            ex.append("0.");
            append_zeros(&mut ex, e - di);
            ex.append(s.substring_char(i1, i2));
            if i2 < i3 {
                ex.append(s.substring_char(i2 + 1, i3));
            }
            proof {
                assert(expand_exp(s@) == sgn + seq!['0', '.'] + zeros(e - di) + ip + fr);
                assert(ex@ =~= sgn + seq!['0', '.'] + zeros(e - di) + ip + fr);
            }
        } else {
            ex.append(s.substring_char(i1, i2 - e));
            ex.append(".");
            ex.append(s.substring_char(i2 - e, i2));
            if i2 < i3 {
                ex.append(s.substring_char(i2 + 1, i3));
            }
            proof {
                assert(ip.take(di - e) =~= s@.subrange(i1 as int, i2 - e));
                assert(ip.skip(di - e) =~= s@.subrange(i2 - e, i2 as int));
                assert(expand_exp(s@) == sgn + ip.take(di - e) + seq!['.'] + ip.skip(di - e) + fr);
                assert(ex@ =~= sgn + ip.take(di - e) + seq!['.'] + ip.skip(di - e) + fr);
            }
        }
    }
    ex
}

/// Renders a floating-point field text in its canonical form, expanding
/// an exponent form in the float's decimal range to a plain decimal.
#[verifier::rlimit(80)]
pub fn canonical_float_text(s: &str) -> (r: String)
    ensures
        r@ == canonical_float(s@),
{
    let n = s.unicode_len();
    let i1: usize = if n > 0 && {
        let c = s.get_char(0);
        c == '+' || c == '-'
    } {
        1
    } else {
        0
    };
    proof {
        lemma_digits_end_bounds(s@, i1 as int);
        assert(i1 as int == sign_end(s@));
    }
    let i2 = digits_end_text(s, i1);
    let i3: usize = if i2 < n && s.get_char(i2) == '.' {
        digits_end_text(s, i2 + 1)
    } else {
        i2
    };
    proof {
        assert(i3 as int == mantissa_end(s@));
    }
    let mantissa_ok = i2 > i1 || i3 > i2 + 1;
    if mantissa_ok && i3 == n {
        assert(is_simple_float(s@));
        return canon_simple_text(s);
    }
    if !mantissa_ok || i3 >= n {
        return s.to_owned();
    }
    let ec = s.get_char(i3);
    if !(ec == 'e' || ec == 'E') {
        return s.to_owned();
    }
    let i4: usize = if i3 + 1 < n && {
        let c2 = s.get_char(i3 + 1);
        c2 == '+' || c2 == '-'
    } {
        i3 + 2
    } else {
        i3 + 1
    };
    assert(i4 <= n);
    proof {
        assert(i4 as int == exp_digits_start(s@));
    }
    let e_end = digits_end_text(s, i4);
    if !(e_end == n && n > i4) {
        return s.to_owned();
    }
    assert(has_exponent(s@));
    let exp_str = s.substring_char(i4, n);
    let v = match parse_u32_text(exp_str) {
        Some(v) => v,
        None => {
            return s.to_owned();
        },
    };
    if v > 38 {
        return s.to_owned();
    }
    let e = v as usize;
    let neg_exp = i3 + 1 < n && s.get_char(i3 + 1) == '-';
    proof {
        assert(neg_exp == exp_negative(s@));
        assert(exp_magnitude(s@) == Some(v));
    }
    let ex = expand_exp_text(s, i1, i2, i3, e, neg_exp);
    let r = canon_simple_text(ex.as_str());
    proof {
        assert(r@ == canonical_float(s@));
    }
    r
}

proof fn lemma_trim_frac_end_free(f: Seq<char>, c: char)
    requires
        !f.contains(c),
    ensures
        !trim_frac_end(f).contains(c),
    decreases f.len(),
{
    if f.len() > 0 && f.last() == '0' {
        assert(!f.drop_last().contains(c)) by {
            if f.drop_last().contains(c) {
                let i = choose|i: int| 0 <= i < f.drop_last().len() && f.drop_last()[i] == c;
                assert(f[i] == c);
            }
        }
        lemma_trim_frac_end_free(f.drop_last(), c);
    }
}

proof fn lemma_trim_int_start_free(d: Seq<char>, c: char)
    requires
        !d.contains(c),
    ensures
        !trim_int_start(d).contains(c),
    decreases d.len(),
{
    if d.len() > 1 && d.first() == '0' {
        assert(!d.drop_first().contains(c)) by {
            if d.drop_first().contains(c) {
                let i = choose|i: int| 0 <= i < d.drop_first().len() && d.drop_first()[i] == c;
                assert(d[i + 1] == c);
            }
        }
        lemma_trim_int_start_free(d.drop_first(), c);
    }
}

proof fn lemma_subrange_free(s: Seq<char>, a: int, b: int, c: char)
    requires
        !s.contains(c),
        0 <= a <= b <= s.len(),
    ensures
        !s.subrange(a, b).contains(c),
{
    if s.subrange(a, b).contains(c) {
        let i = choose|i: int| 0 <= i < s.subrange(a, b).len() && s.subrange(a, b)[i] == c;
        assert(s[a + i] == c);
    }
}

proof fn lemma_concat_free(a: Seq<char>, b: Seq<char>, c: char)
    requires
        !a.contains(c),
        !b.contains(c),
    ensures
        !(a + b).contains(c),
{
    if (a + b).contains(c) {
        let i = choose|i: int| 0 <= i < (a + b).len() && (a + b)[i] == c;
        if i < a.len() {
            assert(a[i] == c);
        } else {
            assert(b[i - a.len()] == c);
        }
    }
}

proof fn lemma_zeros_free(n: int, c: char)
    requires
        c != '0',
    ensures
        !zeros(n).contains(c),
    decreases n,
{
    if n > 0 {
        lemma_zeros_free(n - 1, c);
        if zeros(n).contains(c) {
            let i = choose|i: int| 0 <= i < zeros(n).len() && zeros(n)[i] == c;
            if i < zeros(n - 1).len() {
                assert(zeros(n - 1)[i] == c);
            } else {
                assert(zeros(n)[i] == '0');
            }
        }
    }
}

/// The simple canonical form of a text free of a character other than
/// the period, the minus sign and the zero digit is itself free of it.
proof fn lemma_simple_canonical_free(s: Seq<char>, c: char)
    requires
        !s.contains(c),
        c != '.' && c != '-' && c != '0',
    ensures
        !simple_canonical(s).contains(c),
{
    let i1 = sign_end(s);
    let i2 = digits_end(s, i1);
    lemma_digits_end_bounds(s, i1);
    let intpart = s.subrange(i1, i2);
    let frac = if i2 < s.len() {
        s.subrange(i2 + 1, s.len() as int)
    } else {
        Seq::<char>::empty()
    };
    lemma_subrange_free(s, i1, i2, c);
    if i2 < s.len() {
        lemma_subrange_free(s, i2 + 1, s.len() as int, c);
    } else {
        assert(!frac.contains(c));
    }
    let whole = if intpart.len() == 0 {
        seq!['0']
    } else {
        trim_int_start(intpart)
    };
    if intpart.len() == 0 {
        assert(!whole.contains(c));
    } else {
        lemma_trim_int_start_free(intpart, c);
    }
    lemma_trim_frac_end_free(frac, c);
    let f2 = trim_frac_end(frac);
    assert(!seq!['.'].contains(c));
    assert(!seq!['-'].contains(c));
    let core = if f2.len() == 0 {
        whole
    } else {
        whole + seq!['.'] + f2
    };
    if f2.len() > 0 {
        lemma_concat_free(whole, seq!['.'], c);
        lemma_concat_free(whole + seq!['.'], f2, c);
    }
    if s.len() > 0 && s[0] == '-' {
        lemma_concat_free(seq!['-'], core, c);
    }
}

/// The expansion of an exponent form free of a character other than the
/// period, the minus sign and the zero digit is itself free of it.
proof fn lemma_expand_exp_free(s: Seq<char>, c: char)
    requires
        !s.contains(c),
        c != '.' && c != '-' && c != '0',
    ensures
        !expand_exp(s).contains(c),
{
    let i1 = sign_end(s);
    let i2 = digits_end(s, i1);
    let i3 = mantissa_end(s);
    lemma_digits_end_bounds(s, i1);
    if i2 < s.len() && s[i2] == '.' {
        lemma_digits_end_bounds(s, i2 + 1);
    }
    let ip = s.subrange(i1, i2);
    let fr = if i2 < i3 {
        s.subrange(i2 + 1, i3)
    } else {
        Seq::<char>::empty()
    };
    lemma_subrange_free(s, i1, i2, c);
    if i2 < i3 {
        lemma_subrange_free(s, i2 + 1, i3, c);
    } else {
        assert(!fr.contains(c));
    }
    let e = exp_magnitude(s).unwrap() as int;
    let sign = if s.len() > 0 && s[0] == '-' {
        seq!['-']
    } else {
        Seq::<char>::empty()
    };
    assert(!sign.contains(c));
    assert(!seq!['.'].contains(c));
    assert(!seq!['0', '.'].contains(c)) by {
        if seq!['0', '.'].contains(c) {
            let i = choose|i: int| 0 <= i < 2 && seq!['0', '.'][i] == c;
            assert(i == 0 || i == 1);
        }
    }
    if !exp_negative(s) {
        if e >= fr.len() {
            lemma_zeros_free(e - fr.len(), c);
            lemma_concat_free(sign, ip, c);
            lemma_concat_free(sign + ip, fr, c);
            lemma_concat_free(sign + ip + fr, zeros(e - fr.len()), c);
        } else if ip.len() == 0 && e == 0 {
            lemma_concat_free(sign, seq!['0', '.'], c);
            lemma_concat_free(sign + seq!['0', '.'], fr, c);
        } else {
            assert(!fr.take(e).contains(c)) by {
                if fr.take(e).contains(c) {
                    let i = choose|i: int|
                        0 <= i < fr.take(e).len() && #[trigger] fr.take(e)[i] == c;
                    assert(fr[i] == c);
                }
            }
            assert(!fr.skip(e).contains(c)) by {
                if fr.skip(e).contains(c) {
                    let i = choose|i: int|
                        0 <= i < fr.skip(e).len() && #[trigger] fr.skip(e)[i] == c;
                    assert(fr[e + i] == c);
                }
            }
            lemma_concat_free(sign, ip, c);
            lemma_concat_free(sign + ip, fr.take(e), c);
            lemma_concat_free(sign + ip + fr.take(e), seq!['.'], c);
            lemma_concat_free(sign + ip + fr.take(e) + seq!['.'], fr.skip(e), c);
        }
    } else {
        if e >= ip.len() {
            lemma_zeros_free(e - ip.len(), c);
            lemma_concat_free(sign, seq!['0', '.'], c);
            lemma_concat_free(sign + seq!['0', '.'], zeros(e - ip.len()), c);
            lemma_concat_free(sign + seq!['0', '.'] + zeros(e - ip.len()), ip, c);
            lemma_concat_free(sign + seq!['0', '.'] + zeros(e - ip.len()) + ip, fr, c);
        } else {
            assert(!ip.take(ip.len() - e).contains(c)) by {
                if ip.take(ip.len() - e).contains(c) {
                    let i = choose|i: int|
                        0 <= i < ip.take(ip.len() - e).len() && #[trigger] ip.take(
                            ip.len() - e,
                        )[i] == c;
                    assert(ip[i] == c);
                }
            }
            assert(!ip.skip(ip.len() - e).contains(c)) by {
                if ip.skip(ip.len() - e).contains(c) {
                    let i = choose|i: int|
                        0 <= i < ip.skip(ip.len() - e).len() && #[trigger] ip.skip(
                            ip.len() - e,
                        )[i] == c;
                    assert(ip[ip.len() - e + i] == c);
                }
            }
            lemma_concat_free(sign, ip.take(ip.len() - e), c);
            lemma_concat_free(sign + ip.take(ip.len() - e), seq!['.'], c);
            lemma_concat_free(sign + ip.take(ip.len() - e) + seq!['.'], ip.skip(ip.len() - e), c);
            lemma_concat_free(
                sign + ip.take(ip.len() - e) + seq!['.'] + ip.skip(ip.len() - e),
                fr,
                c,
            );
        }
    }
}

/// The canonical form of a field text free of a character other than the
/// period, the minus sign and the zero digit is itself free of it.
pub proof fn lemma_canonical_float_free(s: Seq<char>, c: char)
    requires
        !s.contains(c),
        c != '.' && c != '-' && c != '0',
    ensures
        !canonical_float(s).contains(c),
{
    if is_simple_float(s) {
        lemma_simple_canonical_free(s, c);
    } else if has_exponent(s) && exp_magnitude(s) is Some && exp_magnitude(s).unwrap() <= 38 {
        lemma_expand_exp_free(s, c);
        lemma_simple_canonical_free(expand_exp(s), c);
    }
}

/// The character of the digit `d`.
pub open spec fn digit_char(d: int) -> char {
    if d == 0 {
        '0'
    } else if d == 1 {
        '1'
    } else if d == 2 {
        '2'
    } else if d == 3 {
        '3'
    } else if d == 4 {
        '4'
    } else if d == 5 {
        '5'
    } else if d == 6 {
        '6'
    } else if d == 7 {
        '7'
    } else if d == 8 {
        '8'
    } else {
        '9'
    }
}

/// The decimal text of the non-negative number `n`, most significant digit
/// first, with no sign and no leading zeros (besides the single digit of 0).
pub open spec fn dec_string(n: int) -> Seq<char>
    decreases n,
{
    if n < 10 {
        seq![digit_char(n)]
    } else {
        dec_string(n / 10).push(digit_char(n % 10))
    }
}

/// The decimal text of a number holds digits alone: any non-digit
/// character is absent from it.
pub proof fn lemma_dec_string_free(n: int, c: char)
    requires
        !is_digit(c),
    ensures
        !dec_string(n).contains(c),
    decreases n,
{
    assert(is_digit(digit_char(n)));
    assert(is_digit(digit_char(n % 10)));
    if n < 10 {
        if dec_string(n).contains(c) {
            let i = choose|i: int| 0 <= i < dec_string(n).len() && dec_string(n)[i] == c;
            assert(dec_string(n)[0] == digit_char(n));
        }
    } else {
        lemma_dec_string_free(n / 10, c);
        if dec_string(n).contains(c) {
            let i = choose|i: int| 0 <= i < dec_string(n).len() && dec_string(n)[i] == c;
            if i < dec_string(n / 10).len() {
                assert(dec_string(n / 10)[i] == c);
            } else {
                assert(dec_string(n)[i] == digit_char(n % 10));
            }
        }
    }
}

/// The one-character text of the digit `d`.
fn digit_str(d: u64) -> (r: &'static str)
    requires
        d < 10,
    ensures
        r@ == seq![digit_char(d as int)],
{
    proof {
        reveal_strlit("0");
        reveal_strlit("1");
        reveal_strlit("2");
        reveal_strlit("3");
        reveal_strlit("4");
        reveal_strlit("5");
        reveal_strlit("6");
        reveal_strlit("7");
        reveal_strlit("8");
        reveal_strlit("9");
    }
    if d == 0 {
        "0"
    } else if d == 1 {
        "1"
    } else if d == 2 {
        "2"
    } else if d == 3 {
        "3"
    } else if d == 4 {
        "4"
    } else if d == 5 {
        "5"
    } else if d == 6 {
        "6"
    } else if d == 7 {
        "7"
    } else if d == 8 {
        "8"
    } else {
        "9"
    }
}

/// Renders `n` as decimal text.
pub fn u64_to_string(n: u64) -> (r: String)
    ensures
        r@ == dec_string(n as int),
    decreases n,
{
    if n < 10 {
        let mut out = String::new();
        out.append(digit_str(n));
        proof {
            assert(out@ =~= seq![digit_char(n as int)]);
        }
        out
    } else {
        let mut out = u64_to_string(n / 10);
        out.append(digit_str(n % 10));
        proof {
            assert(out@ =~= dec_string((n / 10) as int).push(digit_char((n % 10) as int)));
        }
        out
    }
}

/// Renders `n` as decimal text.
pub fn u32_to_string(n: u32) -> (r: String)
    ensures
        r@ == dec_string(n as int),
{
    u64_to_string(n as u64)
}

} // verus!

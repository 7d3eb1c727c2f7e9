//! Character-level parsing helpers: text comparison and trimming, decimal
//! and hexadecimal numbers, the status line, and single header lines.

use vstd::prelude::*;
use vstd::string::StrSliceExecFns;
use vstd::string::StringExecFns;

verus! {

/// ASCII whitespace, the only kind trimmed from header values.
pub open spec fn is_space(c: char) -> bool {
    c == ' ' || c == '\t' || c == '\r' || c == '\n'
}

pub open spec fn is_digit(c: char) -> bool {
    48 <= c as u32 <= 57
}

pub open spec fn digit_val(c: char) -> int {
    c as u32 - 48
}

pub open spec fn is_hex_digit(c: char) -> bool {
    is_digit(c) || 97 <= c as u32 <= 102 || 65 <= c as u32 <= 70
}

pub open spec fn hex_digit_val(c: char) -> int {
    if is_digit(c) {
        c as u32 - 48
    } else if 97 <= c as u32 <= 102 {
        c as u32 - 87
    } else {
        c as u32 - 55
    }
}

/// An ASCII capital letter mapped to its lowercase form; all else unchanged.
pub open spec fn lower_char(c: char) -> char {
    if 65 <= c as u32 <= 90 {
        (((c as u32) + 32) as u8) as char
    } else {
        c
    }
}

pub open spec fn lower_chars(s: Seq<char>) -> Seq<char> {
    s.map_values(|c: char| lower_char(c))
}

/// `s` without leading and trailing ASCII whitespace.
pub open spec fn trim_chars(s: Seq<char>) -> Seq<char>
    decreases s.len(),
{
    if s.len() == 0 {
        s
    } else if is_space(s[0]) {
        trim_chars(s.skip(1))
    } else if is_space(s.last()) {
        trim_chars(s.drop_last())
    } else {
        s
    }
}

pub open spec fn all_digits(s: Seq<char>) -> bool {
    forall|i: int| 0 <= i < s.len() ==> is_digit(#[trigger] s[i])
}

pub open spec fn all_hex_digits(s: Seq<char>) -> bool {
    forall|i: int| 0 <= i < s.len() ==> is_hex_digit(#[trigger] s[i])
}

/// The value of a digit string read in the given base.
pub open spec fn radix_val(s: Seq<char>, base: int) -> int
    decreases s.len(),
{
    if s.len() == 0 {
        0
    } else if base == 16 {
        radix_val(s.drop_last(), base) * base + hex_digit_val(s.last())
    } else {
        radix_val(s.drop_last(), base) * base + digit_val(s.last())
    }
}

/// What `usize` parsing accepts: an optional plus sign, then at least one
/// digit of the base, with a value that fits.
pub open spec fn parse_uint_spec(s: Seq<char>, base: int, limit: int) -> Option<int> {
    let t = if s.len() > 0 && s[0] == '+' {
        s.skip(1)
    } else {
        s
    };
    let digits_ok = if base == 16 {
        all_hex_digits(t)
    } else {
        all_digits(t)
    };
    if t.len() == 0 || !digits_ok || radix_val(t, base) > limit {
        None
    } else {
        Some(radix_val(t, base))
    }
}

/// What `i32` parsing accepts: an optional sign, then decimal digits.
pub open spec fn parse_i32_spec(s: Seq<char>) -> Option<int> {
    let neg = s.len() > 0 && s[0] == '-';
    let t = if s.len() > 0 && (s[0] == '-' || s[0] == '+') {
        s.skip(1)
    } else {
        s
    };
    if t.len() == 0 || !all_digits(t) {
        None
    } else if neg {
        if radix_val(t, 10) <= 2147483648 {
            Some(-radix_val(t, 10))
        } else {
            None
        }
    } else {
        if radix_val(t, 10) <= 2147483647 {
            Some(radix_val(t, 10))
        } else {
            None
        }
    }
}

/// The digits of `n` written in decimal.
pub open spec fn dec_str(n: int) -> Seq<char>
    decreases n,
{
    if n < 10 {
        seq![((48 + if n >= 0 { n } else { 0 }) as u8) as char]
    } else {
        dec_str(n / 10).push(((48 + n % 10) as u8) as char)
    }
}

/// Relies on `String::push`: appends exactly the one character.
#[verifier::external_body]
pub(crate) fn push_char(s: &mut String, c: char)
    ensures
        final(s)@ == old(s)@.push(c),
{
    s.push(c);
}

/// Character-for-character equality of two text slices.
pub fn str_eq(a: &str, b: &str) -> (r: bool)
    ensures
        r == (a@ == b@),
{
    let na = a.unicode_len();
    let nb = b.unicode_len();
    if na != nb {
        return false;
    }
    let mut i: usize = 0;
    while i < na
        invariant
            i <= na,
            na == a@.len(),
            na == b@.len(),
            forall|j: int| 0 <= j < i ==> a@[j] == b@[j],
        decreases na - i,
    {
        if a.get_char(i) != b.get_char(i) {
            return false;
        }
        i += 1;
    }
    proof {
        assert(a@ =~= b@);
    }
    true
}

fn to_lower_char(c: char) -> (r: char)
    ensures
        r == lower_char(c),
{
    let u = c as u32;
    if 65 <= u && u <= 90 {
        ((u + 32) as u8) as char
    } else {
        c
    }
}

/// A copy of `s` with every ASCII capital letter lowercased.
pub fn to_lowercase(s: &str) -> (r: String)
    ensures
        r@ == lower_chars(s@),
{
    let n = s.unicode_len();
    let mut r = String::new();
    let mut i: usize = 0;
    while i < n
        invariant
            i <= n,
            n == s@.len(),
            r@ =~= lower_chars(s@.take(i as int)),
        decreases n - i,
    {
        let c = s.get_char(i);
        push_char(&mut r, to_lower_char(c));
        i += 1;
        proof {
            assert(r@ =~= lower_chars(s@.take(i as int))) by {
                assert(s@.take(i as int).drop_last() =~= s@.take(i as int - 1));
                assert(lower_chars(s@.take(i as int)) =~= lower_chars(
                    s@.take(i as int - 1),
                ).push(lower_char(s@[i as int - 1])));
            }
        }
    }
    proof {
        assert(s@.take(n as int) =~= s@);
    }
    r
}

/// `trim_chars` picks out exactly the span between the outer whitespace.
proof fn lemma_trim_subrange(s: Seq<char>, a: int, b: int)
    requires
        0 <= a <= b <= s.len(),
        forall|j: int| 0 <= j < a ==> is_space(#[trigger] s[j]),
        forall|j: int| b <= j < s.len() ==> is_space(#[trigger] s[j]),
        a < b ==> !is_space(s[a]) && !is_space(s[b - 1]),
    ensures
        trim_chars(s) == s.subrange(a, b),
    decreases s.len(),
{
    if s.len() == 0 {
        assert(trim_chars(s) =~= s.subrange(a, b));
    } else if is_space(s[0]) {
        assert(a == b || a > 0);
        if a > 0 {
            lemma_trim_subrange(s.skip(1), a - 1, b - 1);
            assert(s.skip(1).subrange(a - 1, b - 1) =~= s.subrange(a, b));
        } else {
            lemma_trim_subrange(s.skip(1), 0, 0);
            assert(s.skip(1).subrange(0, 0) =~= s.subrange(a, b));
        }
    } else if is_space(s.last()) {
        assert(a == 0);
        assert(b < s.len());
        lemma_trim_subrange(s.drop_last(), a, b);
        assert(s.drop_last().subrange(a, b) =~= s.subrange(a, b));
    } else {
        assert(a == 0);
        assert(b == s.len());
        assert(trim_chars(s) =~= s.subrange(a, b));
    }
}

/// A copy of `s` without leading and trailing ASCII whitespace.
pub fn trimmed(s: &str) -> (r: String)
    ensures
        r@ == trim_chars(s@),
{
    let n = s.unicode_len();
    let mut a: usize = 0;
    while a < n && is_space_exec(s.get_char(a))
        invariant
            a <= n,
            n == s@.len(),
            forall|j: int| 0 <= j < a ==> is_space(#[trigger] s@[j]),
        decreases n - a,
    {
        a += 1;
    }
    let mut b: usize = n;
    while b > a && is_space_exec(s.get_char(b - 1))
        invariant
            a <= b <= n,
            n == s@.len(),
            forall|j: int| 0 <= j < a ==> is_space(#[trigger] s@[j]),
            forall|j: int| b <= j < n ==> is_space(#[trigger] s@[j]),
        decreases b,
    {
        b -= 1;
    }
    let r = s.substring_char(a, b).to_owned();
    proof {
        lemma_trim_subrange(s@, a as int, b as int);
    }
    r
}

fn is_space_exec(c: char) -> (r: bool)
    ensures
        r == is_space(c),
{
    c == ' ' || c == '\t' || c == '\r' || c == '\n'
}

/// Growing a digit string never shrinks its value.
proof fn lemma_radix_prefix(s: Seq<char>, base: int, i: int)
    requires
        base == 10 || base == 16,
        0 <= i <= s.len(),
        base == 10 ==> all_digits(s),
        base == 16 ==> all_hex_digits(s),
    ensures
        0 <= radix_val(s.take(i), base) <= radix_val(s, base),
    decreases s.len() - i,
{
    if i == s.len() {
        assert(s.take(i) =~= s);
        lemma_radix_nonneg(s, base);
    } else {
        lemma_radix_prefix(s, base, i + 1);
        lemma_radix_nonneg(s.take(i), base);
        assert(s.take(i + 1).drop_last() =~= s.take(i));
        assert(s.take(i + 1).last() == s[i]);
    }
}

proof fn lemma_radix_nonneg(s: Seq<char>, base: int)
    requires
        base == 10 || base == 16,
        base == 10 ==> all_digits(s),
        base == 16 ==> all_hex_digits(s),
    ensures
        radix_val(s, base) >= 0,
    decreases s.len(),
{
    if s.len() > 0 {
        assert(all_digits(s) ==> all_digits(s.drop_last())) by {
            assert(forall|j: int|
                0 <= j < s.len() - 1 ==> s.drop_last()[j] == #[trigger] s[j]);
        }
        assert(all_hex_digits(s) ==> all_hex_digits(s.drop_last())) by {
            assert(forall|j: int|
                0 <= j < s.len() - 1 ==> s.drop_last()[j] == #[trigger] s[j]);
        }
        lemma_radix_nonneg(s.drop_last(), base);
    }
}


/// The first position of `c` in `s`, if any.
pub open spec fn find_char(s: Seq<char>, c: char) -> Option<int>
    decreases s.len(),
{
    if s.len() == 0 {
        None
    } else if s[0] == c {
        Some(0)
    } else {
        match find_char(s.skip(1), c) {
            Some(i) => Some(i + 1),
            None => None,
        }
    }
}

/// What `find_char` finds is the first occurrence.
pub proof fn lemma_find_char(s: Seq<char>, c: char)
    ensures
        match find_char(s, c) {
            None => forall|j: int| 0 <= j < s.len() ==> s[j] != c,
            Some(i) => 0 <= i < s.len() && s[i] == c && forall|j: int| 0 <= j < i ==> s[j] != c,
        },
    decreases s.len(),
{
    if s.len() > 0 && s[0] != c {
        lemma_find_char(s.skip(1), c);
        match find_char(s.skip(1), c) {
            None => {
                assert forall|j: int| 0 <= j < s.len() implies s[j] != c by {
                    if j > 0 {
                        assert(s.skip(1)[j - 1] == s[j]);
                    }
                }
            },
            Some(i) => {
                assert(s.skip(1)[i] == s[i + 1]);
                assert forall|j: int| 0 <= j < i + 1 implies s[j] != c by {
                    if j > 0 {
                        assert(s.skip(1)[j - 1] == s[j]);
                    }
                }
            },
        }
    }
}

proof fn lemma_find_char_at(s: Seq<char>, c: char, i: int)
    requires
        0 <= i < s.len(),
        s[i] == c,
        forall|j: int| 0 <= j < i ==> s[j] != c,
    ensures
        find_char(s, c) == Some(i),
{
    lemma_find_char(s, c);
    match find_char(s, c) {
        None => {
            assert(false);
        },
        Some(k) => {
            if k < i {
                assert(s[k] != c);
                assert(false);
            }
            if k > i {
                assert(s[i] != c);
                assert(false);
            }
        },
    }
}

proof fn lemma_find_char_none(s: Seq<char>, c: char)
    requires
        forall|j: int| 0 <= j < s.len() ==> s[j] != c,
    ensures
        find_char(s, c) is None,
{
    lemma_find_char(s, c);
    match find_char(s, c) {
        None => {},
        Some(k) => {
            assert(s[k] != c);
            assert(false);
        },
    }
}

/// Finds the first `c` at or after `from`, knowing there is none before.
pub(crate) fn find_from(s: &str, from: usize, c: char) -> (r: Option<usize>)
    requires
        from <= s@.len(),
        forall|j: int| 0 <= j < from ==> s@[j] != c,
    ensures
        match r {
            Some(i) => from <= i < s@.len() && s@[i as int] == c && find_char(s@, c) == Some(
                i as int,
            ),
            None => find_char(s@, c) is None,
        },
{
    let n = s.unicode_len();
    let mut i: usize = from;
    while i < n
        invariant
            from <= i <= n,
            n == s@.len(),
            forall|j: int| 0 <= j < i ==> s@[j] != c,
        decreases n - i,
    {
        if s.get_char(i) == c {
            proof {
                lemma_find_char_at(s@, c, i as int);
            }
            return Some(i);
        }
        i += 1;
    }
    proof {
        lemma_find_char_none(s@, c);
    }
    None
}

/// Parses an unsigned number of the given base, exactly as `usize` parsing
/// does: an optional plus sign, then digits, rejecting overflow.
pub fn parse_uint(s: &str, hex: bool) -> (r: Option<usize>)
    ensures
        ({
            let base: int = if hex {
                16
            } else {
                10
            };
            match r {
                Some(v) => parse_uint_spec(s@, base, usize::MAX as int) == Some(v as int),
                None => parse_uint_spec(s@, base, usize::MAX as int) is None,
            }
        }),
{
    let ghost base_i: int = if hex {
        16
    } else {
        10
    };
    let n = s.unicode_len();
    let start: usize = if n > 0 && s.get_char(0) == '+' {
        1
    } else {
        0
    };
    let ghost t = s@.skip(start as int);
    proof {
        if start == 0 {
            assert(t =~= s@);
        }
    }
    if n == start {
        return None;
    }
    let base: usize = if hex {
        16
    } else {
        8 + 2
    };
    let mut value: usize = 0;
    let mut i: usize = start;
    while i < n
        invariant
            start <= i <= n,
            n == s@.len(),
            base == base_i,
            base_i == (if hex {
                16int
            } else {
                10int
            }),
            t == s@.skip(start as int),
            t.len() == n - start,
            start == (if s@.len() > 0 && s@[0] == '+' {
                1int
            } else {
                0int
            }),
            t == (if s@.len() > 0 && s@[0] == '+' {
                s@.skip(1)
            } else {
                s@
            }),
            forall|j: int|
                0 <= j < i - start ==> (if hex {
                    is_hex_digit(#[trigger] t[j])
                } else {
                    is_digit(#[trigger] t[j])
                }),
            value == radix_val(t.take(i - start), base_i),
        decreases n - i,
    {
        let c = s.get_char(i);
        proof {
            assert(t[i - start] == s@[i as int]);
        }
        let u = c as u32;
        let d: usize;
        if 48 <= u && u <= 57 {
            d = (u - 48) as usize;
        } else if hex && 97 <= u && u <= 102 {
            d = (u - 87) as usize;
        } else if hex && 65 <= u && u <= 70 {
            d = (u - 55) as usize;
        } else {
            proof {
                assert(!(if hex {
                    all_hex_digits(t)
                } else {
                    all_digits(t)
                }));
            }
            return None;
        }
        if value > (usize::MAX - d) / base {
            proof {
                let v1 = radix_val(t.take(i - start + 1), base_i);
                assert(t.take(i - start + 1).drop_last() =~= t.take(i - start));
                assert(t.take(i - start + 1).last() == t[i - start]);
                assert(v1 == value * base_i + d);
                assert(value * base_i + d > usize::MAX as int) by (nonlinear_arith)
                    requires
                        value > (usize::MAX as int - d) / base_i,
                        0 <= d < base_i,
                        2 <= base_i,
                        value >= 0,
                ;
                if hex && all_hex_digits(t) {
                    lemma_radix_prefix_general(t, base_i, i - start + 1);
                }
                if !hex && all_digits(t) {
                    lemma_radix_prefix_general(t, base_i, i - start + 1);
                }
            }
            return None;
        }
        proof {
            assert(value * base_i + d <= usize::MAX as int) by (nonlinear_arith)
                requires
                    value <= (usize::MAX as int - d) / base_i,
                    0 <= d < base_i,
                    2 <= base_i,
                    value >= 0,
            ;
        }
        value = value * base + d;
        i += 1;
        proof {
            assert(t.take(i - start).drop_last() =~= t.take(i - start - 1));
            assert(t.take(i - start).last() == t[i - start - 1]);
        }
    }
    proof {
        assert(t.take(n - start) =~= t);
    }
    Some(value)
}

/// `lemma_radix_prefix`, phrased over whichever digit class the base uses.
proof fn lemma_radix_prefix_general(s: Seq<char>, base: int, i: int)
    requires
        base == 10 || base == 16,
        0 <= i <= s.len(),
        base == 10 ==> all_digits(s),
        base == 16 ==> all_hex_digits(s),
    ensures
        radix_val(s.take(i), base) <= radix_val(s, base),
{
    lemma_radix_prefix(s, base, i);
}

/// Parses a signed 32-bit number exactly as `i32` parsing does.
pub fn parse_i32(s: &str) -> (r: Option<i32>)
    ensures
        match r {
            Some(v) => parse_i32_spec(s@) == Some(v as int),
            None => parse_i32_spec(s@) is None,
        },
{
    let n = s.unicode_len();
    let neg = n > 0 && s.get_char(0) == '-';
    let start: usize = if n > 0 && (s.get_char(0) == '-' || s.get_char(0) == '+') {
        1
    } else {
        0
    };
    let ghost t = s@.skip(start as int);
    proof {
        if start == 0 {
            assert(t =~= s@);
        }
    }
    if n == start {
        return None;
    }
    let limit: u64 = if neg {
        2147483648
    } else {
        2147483647
    };
    let mut value: u64 = 0;
    let mut i: usize = start;
    while i < n
        invariant
            start <= i <= n,
            n == s@.len(),
            t == s@.skip(start as int),
            t.len() == n - start,
            start == (if s@.len() > 0 && (s@[0] == '-' || s@[0] == '+') {
                1int
            } else {
                0int
            }),
            t == (if s@.len() > 0 && (s@[0] == '-' || s@[0] == '+') {
                s@.skip(1)
            } else {
                s@
            }),
            neg == (s@.len() > 0 && s@[0] == '-'),
            limit == (if neg {
                2147483648u64
            } else {
                2147483647u64
            }),
            forall|j: int| 0 <= j < i - start ==> is_digit(#[trigger] t[j]),
            value == radix_val(t.take(i - start), 10),
            value <= limit,
        decreases n - i,
    {
        let c = s.get_char(i);
        proof {
            assert(t[i - start] == s@[i as int]);
        }
        let u = c as u32;
        if !(48 <= u && u <= 57) {
            proof {
                assert(!all_digits(t));
            }
            return None;
        }
        let d = (u - 48) as u64;
        if value > (limit - d) / 10 {
            proof {
                let v1 = radix_val(t.take(i - start + 1), 10);
                assert(t.take(i - start + 1).drop_last() =~= t.take(i - start));
                assert(t.take(i - start + 1).last() == t[i - start]);
                assert(v1 == value * 10 + d);
                assert(value * 10 + d > limit as int) by (nonlinear_arith)
                    requires
                        value > (limit as int - d) / 10,
                        0 <= d < 10,
                        value >= 0,
                ;
                if all_digits(t) {
                    lemma_radix_prefix(t, 10, i - start + 1);
                }
            }
            return None;
        }
        proof {
            assert(value * 10 + d <= limit as int) by (nonlinear_arith)
                requires
                    value <= (limit as int - d) / 10,
                    0 <= d < 10,
                    value >= 0,
            ;
        }
        value = value * 10 + d;
        i += 1;
        proof {
            assert(t.take(i - start).drop_last() =~= t.take(i - start - 1));
            assert(t.take(i - start).last() == t[i - start - 1]);
        }
    }
    proof {
        assert(t.take(n - start) =~= t);
    }
    if neg {
        if value == 2147483648 {
            Some(i32::MIN)
        } else {
            Some(-(value as i32))
        }
    } else {
        Some(value as i32)
    }
}

/// Appends the decimal digits of `n`.
fn push_dec(s: &mut String, n: usize)
    ensures
        final(s)@ == old(s)@ + dec_str(n as int),
    decreases n,
{
    if n < 10 {
        push_char(s, ((48 + n) as u8) as char);
        proof {
            assert(old(s)@.push(((48 + n as int) as u8) as char) =~= old(s)@ + dec_str(n as int));
        }
    } else {
        push_dec(s, n / 10);
        push_char(s, ((48 + n % 10) as u8) as char);
        proof {
            assert(old(s)@ + dec_str((n / 10) as int).push(((48 + n as int % 10) as u8) as char)
                =~= old(s)@ + dec_str(n as int));
        }
    }
}

/// The number `n`, written in decimal.
pub fn usize_to_string(n: usize) -> (r: String)
    ensures
        r@ == dec_str(n as int),
{
    let mut r = String::new();
    push_dec(&mut r, n);
    proof {
        assert(Seq::<char>::empty() + dec_str(n as int) =~= dec_str(n as int));
    }
    r
}

/// The status-line field between the first and second space.
pub open spec fn status_field(s: Seq<char>) -> Seq<char> {
    match find_char(s, ' ') {
        None => Seq::<char>::empty(),
        Some(i) => {
            let rest = s.skip(i + 1);
            match find_char(rest, ' ') {
                None => rest,
                Some(k) => rest.take(k),
            }
        },
    }
}

/// The status-line text after the second space.
pub open spec fn reason_field(s: Seq<char>) -> Seq<char> {
    match find_char(s, ' ') {
        None => Seq::<char>::empty(),
        Some(i) => {
            let rest = s.skip(i + 1);
            match find_char(rest, ' ') {
                None => Seq::<char>::empty(),
                Some(k) => rest.skip(k + 1),
            }
        },
    }
}

/// The status code a status line carries, or 503 where none parses.
pub open spec fn status_code_of(s: Seq<char>) -> int {
    match parse_i32_spec(status_field(s)) {
        Some(v) => v,
        None => 503,
    }
}

/// The reason phrase, or the fixed placeholder where no code parses.
pub open spec fn reason_of(s: Seq<char>) -> Seq<char> {
    if parse_i32_spec(status_field(s)) is Some {
        reason_field(s)
    } else {
        "Server did not provide a status line"@
    }
}

/// Splits a status line such as `HTTP/1.1 200 OK` into its code and reason
/// phrase; a line whose code does not parse yields 503 and a placeholder.
pub fn parse_status_line(line: &str) -> (r: (i32, String))
    ensures
        r.0 as int == status_code_of(line@),
        r.1@ == reason_of(line@),
{
    let n = line.unicode_len();
    let first = find_from(line, 0, ' ');
    match first {
        None => {
            proof {
                assert(status_field(line@) =~= Seq::<char>::empty());
                assert(parse_i32_spec(status_field(line@)) is None);
                assert(status_code_of(line@) == 503);
                assert(reason_of(line@) == "Server did not provide a status line"@);
            }
            (503, "Server did not provide a status line".to_owned())
        },
        Some(i) => {
            let rest_start = i + 1;
            proof {
                assert(line@.skip(i + 1).len() == n - i - 1);
            }
            let second = find_from_offset(line, rest_start, ' ');
            let (code_end, reason): (usize, String) = match second {
                None => (n, String::new()),
                Some(k) => (k, line.substring_char(k + 1, n).to_owned()),
            };
            let code_str = line.substring_char(rest_start, code_end);
            proof {
                match second {
                    None => {
                        assert(code_str@ =~= status_field(line@));
                        assert(reason@ =~= reason_field(line@));
                    },
                    Some(k) => {
                        assert(code_str@ =~= line@.skip(i + 1).take(k - i - 1));
                        assert(reason@ =~= line@.skip(i + 1).skip(k - i));
                        assert(code_str@ == status_field(line@));
                        assert(reason@ == reason_field(line@));
                    },
                }
            }
            match parse_i32(code_str) {
                Some(v) => (v, reason),
                None => (503, "Server did not provide a status line".to_owned()),
            }
        },
    }
}

/// Finds the first `c` at or after `from` and reports it as an index into
/// the tail that starts at `from`... offset by `from` itself.
pub(crate) fn find_from_offset(s: &str, from: usize, c: char) -> (r: Option<usize>)
    requires
        from <= s@.len(),
    ensures
        match r {
            Some(i) => from <= i < s@.len() && s@[i as int] == c && find_char(
                s@.skip(from as int),
                c,
            ) == Some(i - from),
            None => find_char(s@.skip(from as int), c) is None,
        },
{
    let n = s.unicode_len();
    let mut i: usize = from;
    while i < n
        invariant
            from <= i <= n,
            n == s@.len(),
            forall|j: int| from <= j < i ==> s@[j] != c,
        decreases n - i,
    {
        if s.get_char(i) == c {
            proof {
                assert(forall|j: int|
                    0 <= j < s@.skip(from as int).len() ==> #[trigger] s@.skip(from as int)[j]
                        == s@[j + from]);
                lemma_find_char_at(s@.skip(from as int), c, i - from);
            }
            return Some(i);
        }
        i += 1;
    }
    proof {
        assert(forall|j: int|
            0 <= j < s@.skip(from as int).len() ==> #[trigger] s@.skip(from as int)[j] == s@[j
                + from]);
        lemma_find_char_none(s@.skip(from as int), c);
    }
    None
}

/// What one header line means: the text before the first colon, lowercased,
/// is the field name; the text after it, less one leading space, the value.
/// A line with no colon is no header.
pub open spec fn header_parts(s: Seq<char>) -> Option<(Seq<char>, Seq<char>)> {
    match find_char(s, ':') {
        None => None,
        Some(i) => {
            let after = s.skip(i + 1);
            let value = if after.len() > 0 && after[0] == ' ' {
                after.skip(1)
            } else {
                after
            };
            Some((lower_chars(s.take(i)), value))
        },
    }
}

/// Splits one header line at its first colon into a lowercased field name
/// and a value with at most one leading space removed.
pub fn parse_header(line: String) -> (r: Option<(String, String)>)
    ensures
        match r {
            Some(kv) => header_parts(line@) == Some((kv.0@, kv.1@)),
            None => header_parts(line@) is None,
        },
{
    let n = line.as_str().unicode_len();
    match find_from(line.as_str(), 0, ':') {
        None => None,
        Some(i) => {
            let key = to_lowercase(line.as_str().substring_char(0, i));
            let value: String;
            if i + 1 < n && line.as_str().get_char(i + 1) == ' ' {
                value = line.as_str().substring_char(i + 2, n).to_owned();
            } else {
                value = line.as_str().substring_char(i + 1, n).to_owned();
            }
            proof {
                let after = line@.skip(i + 1);
                assert(forall|j: int|
                    0 <= j < after.len() ==> #[trigger] after[j] == line@[j + i + 1]);
                if after.len() > 0 && after[0] == ' ' {
                    assert(value@ =~= after.skip(1));
                } else {
                    assert(value@ =~= after);
                }
                assert(key@ == lower_chars(line@.take(i as int)));
            }
            Some((key, value))
        },
    }
}

} // verus!

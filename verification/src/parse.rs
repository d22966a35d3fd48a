//! Plain-text helpers for the line-oriented graph descriptions: parsing a
//! line of space-separated decimal integers, and the width of a number's
//! decimal rendering. A line's fields are pinned down by a recursive
//! specification of the scan, including how far a list is filled when a
//! malformed field stops it.

use vstd::prelude::*;

verus! {

use vstd::string::StrSliceExecFns;

/// `c` is a decimal digit.
pub open spec fn is_digit(c: char) -> bool {
    '0' as u32 <= c as u32 && c as u32 <= '9' as u32
}

/// The numeric value of a digit.
pub open spec fn digit_val(c: char) -> int {
    c as u32 - '0' as u32
}

/// The value of the digit run `s[a..b)`, read left to right.
pub open spec fn digits_val(s: Seq<char>, a: int, b: int) -> int
    decreases b - a,
{
    if b <= a {
        0
    } else {
        digits_val(s, a, b - 1) * 10 + digit_val(s[b - 1])
    }
}

/// Every character of `s[a..b)` is a digit.
pub open spec fn all_digits(s: Seq<char>, a: int, b: int) -> bool {
    forall|i: int| a <= i < b ==> is_digit(#[trigger] s[i])
}

/// `s[a..b)` is a well-formed signed decimal token: an optional sign
/// followed by at least one digit.
pub open spec fn is_int_token(s: Seq<char>, a: int, b: int) -> bool {
    if a < b && (s[a] == '-' || s[a] == '+') {
        a + 1 < b && all_digits(s, a + 1, b)
    } else {
        a < b && all_digits(s, a, b)
    }
}

/// The signed value of the token `s[a..b)`.
pub open spec fn token_val(s: Seq<char>, a: int, b: int) -> int {
    if a < b && s[a] == '-' {
        -digits_val(s, a + 1, b)
    } else if a < b && s[a] == '+' {
        digits_val(s, a + 1, b)
    } else {
        digits_val(s, a, b)
    }
}

/// `v` is representable as a 64-bit signed integer.
pub open spec fn fits_i64(v: int) -> bool {
    i64::MIN as int <= v <= i64::MAX as int
}

/// The token `s[a..b)` parses as an `i64`.
pub open spec fn token_ok(s: Seq<char>, a: int, b: int) -> bool {
    is_int_token(s, a, b) && fits_i64(token_val(s, a, b))
}

/// The first position at or after `i` that does not hold a space.
pub open spec fn skip_spaces(s: Seq<char>, i: int) -> int
    decreases s.len() - i
        when 0 <= i <= s.len()
{
    if i == s.len() || s[i] != ' ' {
        i
    } else {
        skip_spaces(s, i + 1)
    }
}

/// The end of the token starting at `i`: the first space or the end of the
/// line.
pub open spec fn token_end(s: Seq<char>, i: int) -> int
    decreases s.len() - i
        when 0 <= i <= s.len()
{
    if i == s.len() || s[i] == ' ' {
        i
    } else {
        token_end(s, i + 1)
    }
}

pub proof fn lemma_skip_spaces_bounds(s: Seq<char>, i: int)
    requires
        0 <= i <= s.len(),
    ensures
        i <= skip_spaces(s, i) <= s.len(),
        skip_spaces(s, i) < s.len() ==> s[skip_spaces(s, i)] != ' ',
    decreases s.len() - i,
{
    if i < s.len() && s[i] == ' ' {
        lemma_skip_spaces_bounds(s, i + 1);
    }
}

pub proof fn lemma_token_end_bounds(s: Seq<char>, i: int)
    requires
        0 <= i <= s.len(),
    ensures
        i <= token_end(s, i) <= s.len(),
        i < s.len() && s[i] != ' ' ==> token_end(s, i) > i,
    decreases s.len() - i,
{
    if i < s.len() && s[i] != ' ' {
        lemma_token_end_bounds(s, i + 1);
    }
}

/// The fields of the line from position `i` on: the values of the parsed
/// tokens, and whether every token parsed. The scan stops at the first
/// malformed token, so on failure the values are those before it.
pub open spec fn parse_fields(s: Seq<char>, i: int) -> (Seq<i64>, bool)
    decreases s.len() - i
        when 0 <= i <= s.len()
        via parse_fields_decreases
{
    let a = skip_spaces(s, i);
    if a == s.len() {
        (Seq::empty(), true)
    } else {
        let b = token_end(s, a);
        if token_ok(s, a, b) {
            let rest = parse_fields(s, b);
            (seq![token_val(s, a, b) as i64] + rest.0, rest.1)
        } else {
            (Seq::empty(), false)
        }
    }
}

#[via_fn]
proof fn parse_fields_decreases(s: Seq<char>, i: int) {
    if 0 <= i <= s.len() {
        lemma_skip_spaces_bounds(s, i);
        let a = skip_spaces(s, i);
        if a < s.len() {
            lemma_token_end_bounds(s, a);
        }
    }
}

/// A run of digits has a nonnegative value.
pub proof fn lemma_digits_val_nonneg(s: Seq<char>, a: int, b: int)
    requires
        all_digits(s, a, b),
    ensures
        digits_val(s, a, b) >= 0,
    decreases b - a,
{
    if b > a {
        lemma_digits_val_nonneg(s, a, b - 1);
    }
}

/// Extending a run of digits to the right never shrinks its value.
pub proof fn lemma_digits_val_monotone(s: Seq<char>, a: int, b1: int, b2: int)
    requires
        a <= b1 <= b2,
        all_digits(s, a, b2),
    ensures
        digits_val(s, a, b1) <= digits_val(s, a, b2),
    decreases b2 - b1,
{
    if b1 < b2 {
        lemma_digits_val_monotone(s, a, b1, b2 - 1);
        lemma_digits_val_nonneg(s, a, b2 - 1);
    }
}

/// Parses the token `line[a..b)` as an `i64`: a value exactly when the
/// token is well formed and in range.
fn parse_int_token(line: &str, a: usize, b: usize) -> (r: Option<i64>)
    requires
        a <= b <= line@.len(),
    ensures
        r is Some <==> token_ok(line@, a as int, b as int),
        r is Some ==> r->Some_0 as int == token_val(line@, a as int, b as int),
{
    let ghost s = line@;
    if a == b {
        return None;
    }
    let first = line.get_char(a);
    let neg = first == '-';
    let mut j = a;
    if first == '-' || first == '+' {
        j = a + 1;
        if j == b {
            return None;
        }
    }
    let ghost d0 = j as int;
    let mut m: u64 = 0;
    while j < b
        invariant
            a <= d0 <= j <= b <= s.len(),
            s == line@,
            all_digits(s, d0, j as int),
            m as int == digits_val(s, d0, j as int),
            is_int_token(s, a as int, b as int) ==> all_digits(s, d0, b as int),
            token_val(s, a as int, b as int) == if neg {
                -digits_val(s, d0, b as int)
            } else {
                digits_val(s, d0, b as int)
            },
        decreases b - j,
    {
        let c = line.get_char(j);
        let cv = c as u32;
        if cv < 48 || cv > 57 {
            // A non-digit in the digit run: the token is malformed.
            assert(!is_int_token(s, a as int, b as int));
            return None;
        }
        let d = (cv - 48) as u64;
        if m > (u64::MAX - d) / 10 {
            // The run already exceeds the 64-bit range, and more digits
            // only grow it further.
            proof {
                assert(all_digits(s, d0, j + 1));
                if is_int_token(s, a as int, b as int) {
                    lemma_digits_val_monotone(s, d0, j + 1, b as int);
                    assert(digits_val(s, d0, j + 1) == m * 10 + d);
                    assert(m * 10 + d > u64::MAX) by (nonlinear_arith)
                        requires
                            m > (u64::MAX - d) / 10,
                            0 <= d <= 9,
                    ;
                }
            }
            return None;
        }
        proof {
            assert(m * 10 + d <= u64::MAX) by (nonlinear_arith)
                requires
                    m <= (u64::MAX - d) / 10,
                    0 <= d <= 9,
            ;
            assert(all_digits(s, d0, j + 1));
        }
        m = m * 10 + d;
        j += 1;
    }
    assert(is_int_token(s, a as int, b as int));
    if neg {
        if m > 9223372036854775808u64 {
            return None;
        } else if m == 9223372036854775808u64 {
            return Some(i64::MIN);
        } else {
            return Some(-(m as i64));
        }
    } else {
        if m > 9223372036854775807u64 {
            return None;
        } else {
            return Some(m as i64);
        }
    }
}

/// Parses a line of space-separated decimal integers, appending each value
/// to `list` as it is read; empty fields are skipped. Returns whether every
/// field parsed: on failure, `list` keeps the values read before the
/// malformed field.
pub fn parse_line_fill(line: &str, list: &mut Vec<i64>) -> (ok: bool)
    ensures
        ok == parse_fields(line@, 0).1,
        final(list)@ == old(list)@ + parse_fields(line@, 0).0,
{
    let ghost s = line@;
    let n = line.unicode_len();
    let mut i: usize = 0;
    let ghost mut done: Seq<i64> = Seq::empty();
    proof {
        assert(list@ =~= old(list)@ + done);
        assert(parse_fields(s, 0).0 =~= done + parse_fields(s, 0).0);
    }
    while i < n
        invariant
            n == s.len(),
            s == line@,
            i <= n,
            list@ == old(list)@ + done,
            parse_fields(s, 0).0 == done + parse_fields(s, i as int).0,
            parse_fields(s, 0).1 == parse_fields(s, i as int).1,
        decreases n - i,
    {
        let ghost i0 = i as int;
        // Skip the spaces before the next field.
        while i < n && line.get_char(i) == ' '
            invariant
                n == s.len(),
                s == line@,
                i0 <= i <= n,
                skip_spaces(s, i0) == skip_spaces(s, i as int),
            decreases n - i,
        {
            i += 1;
        }
        proof {
            assert(skip_spaces(s, i as int) == i as int);
            lemma_skip_spaces_bounds(s, i0);
        }
        if i < n {
            // Scan the field to its end.
            let start = i;
            while i < n && line.get_char(i) != ' '
                invariant
                    n == s.len(),
                    s == line@,
                    start <= i <= n,
                    token_end(s, start as int) == token_end(s, i as int),
                decreases n - i,
            {
                i += 1;
            }
            proof {
                assert(token_end(s, i as int) == i as int);
            }
            match parse_int_token(line, start, i) {
                Some(v) => {
                    list.push(v);
                    proof {
                        done = done.push(v);
                        assert(list@ =~= old(list)@ + done);
                        let rest = parse_fields(s, i as int);
                        assert(parse_fields(s, i0) == (
                            seq![token_val(s, start as int, i as int) as i64] + rest.0,
                            rest.1,
                        ));
                        assert(done + rest.0 =~= done.drop_last() + parse_fields(s, i0).0);
                    }
                },
                None => {
                    proof {
                        assert(parse_fields(s, i0) == (Seq::<i64>::empty(), false));
                        assert(done + parse_fields(s, i0).0 =~= done);
                    }
                    return false;
                },
            }
        }
    }
    proof {
        assert(skip_spaces(s, i as int) == i as int);
        assert(parse_fields(s, i as int) == (Seq::<i64>::empty(), true));
        assert(done + parse_fields(s, i as int).0 =~= done);
    }
    true
}

/// Parses a line of space-separated decimal integers: all its values
/// exactly when every field parses, and nothing otherwise.
pub fn parse_line(line: &str) -> (r: Option<Vec<i64>>)
    ensures
        parse_fields(line@, 0).1 ==> r is Some && r->Some_0@ == parse_fields(line@, 0).0,
        !parse_fields(line@, 0).1 ==> r is None,
{
    let mut rtn: Vec<i64> = Vec::new();
    if parse_line_fill(line, &mut rtn) {
        proof {
            assert(rtn@ =~= parse_fields(line@, 0).0);
        }
        Some(rtn)
    } else {
        None
    }
}

/// How many decimal digits a nonnegative value renders to.
pub open spec fn dec_digits(v: int) -> nat
    decreases v
        when v >= 0
{
    if v < 10 {
        1
    } else {
        proof {
            vstd::arithmetic::div_mod::lemma_div_decreases(v, 10);
            vstd::arithmetic::div_mod::lemma_div_pos_is_pos(v, 10);
        }
        1 + dec_digits(v / 10)
    }
}

/// Width in characters of the decimal rendering of `v`: its digits, and
/// one more for the sign of a negative value.
pub open spec fn int_render_len(v: int) -> nat {
    if v < 0 {
        1 + dec_digits(-v)
    } else {
        dec_digits(v)
    }
}

/// Powers of ten.
pub open spec fn pow10(k: nat) -> nat
    decreases k,
{
    if k == 0 {
        1
    } else {
        10 * pow10((k - 1) as nat)
    }
}

pub proof fn lemma_pow10_pos(k: nat)
    ensures
        pow10(k) >= 1,
    decreases k,
{
    if k > 0 {
        lemma_pow10_pos((k - 1) as nat);
    }
}

/// A value below the `k`-th power of ten has at most `k` digits.
pub proof fn lemma_dec_digits_bound(v: int, k: nat)
    requires
        1 <= k,
        0 <= v < pow10(k),
    ensures
        dec_digits(v) <= k,
    decreases k,
{
    if v >= 10 {
        lemma_pow10_pos((k - 1) as nat);
        assert(k >= 2) by {
            if k == 1 {
                assert(pow10(1) == 10);
            }
        }
        vstd::arithmetic::div_mod::lemma_multiply_divide_lt(v, 10, pow10((k - 1) as nat) as int);
        vstd::arithmetic::div_mod::lemma_div_pos_is_pos(v, 10);
        lemma_dec_digits_bound(v / 10, (k - 1) as nat);
    }
}

/// Any unsigned 64-bit value has at most twenty digits.
pub proof fn lemma_dec_digits_u64(v: int)
    requires
        0 <= v <= u64::MAX as int,
    ensures
        dec_digits(v) <= 20,
{
    assert(pow10(20) == 100000000000000000000) by {
        reveal_with_fuel(pow10, 21);
    }
    lemma_dec_digits_bound(v, 20);
}

/// The width of the decimal rendering of a signed 64-bit value, the sign
/// counted for a negative one.
pub fn get_int_len(v: i64) -> (len: usize)
    ensures
        len == int_render_len(v as int),
{
    let neg = v < 0;
    let mut m: u64 = if v == i64::MIN {
        9223372036854775808u64
    } else if v < 0 {
        (-v) as u64
    } else {
        v as u64
    };
    let mut len: usize = if neg {
        2
    } else {
        1
    };
    proof {
        lemma_dec_digits_u64(m as int);
    }
    while m >= 10
        invariant
            len + dec_digits(m as int) == int_render_len(v as int) + 1,
            int_render_len(v as int) <= 21,
        decreases m,
    {
        proof {
            vstd::arithmetic::div_mod::lemma_div_decreases(m as int, 10);
            vstd::arithmetic::div_mod::lemma_div_pos_is_pos(m as int, 10);
        }
        m = m / 10;
        len = len + 1;
    }
    len
}

/// The width of the decimal rendering of an unsigned machine integer.
pub fn get_usize_len(v: usize) -> (len: usize)
    ensures
        len == dec_digits(v as int),
{
    let mut m: usize = v;
    let mut len: usize = 1;
    proof {
        lemma_dec_digits_u64(m as int);
    }
    while m >= 10
        invariant
            len + dec_digits(m as int) == dec_digits(v as int) + 1,
            dec_digits(v as int) <= 20,
        decreases m,
    {
        proof {
            vstd::arithmetic::div_mod::lemma_div_decreases(m as int, 10);
            vstd::arithmetic::div_mod::lemma_div_pos_is_pos(m as int, 10);
        }
        m = m / 10;
        len = len + 1;
    }
    len
}

} // verus!

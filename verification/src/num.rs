//! Decimal digits: specifications and verified helpers for writing and
//! reading unsigned and signed decimal numbers, and for validating the
//! decimal time values that container files carry as attribute text.

use vstd::prelude::*;

verus! {

/// True for the ten ASCII digit characters.
pub open spec fn is_digit_char(c: char) -> bool {
    '0' <= c && c <= '9'
}

/// Numeric value of an ASCII digit character.
pub open spec fn digit_of(c: char) -> nat
    recommends
        is_digit_char(c),
{
    (c as int - '0' as int) as nat
}

/// The ASCII digit character for a value below ten.
pub open spec fn char_of_digit(d: nat) -> char
    recommends
        d < 10,
{
    if d == 0 {
        '0'
    } else if d == 1 {
        '1'
    } else if d == 2 {
        '2'
    } else if d == 3 {
        '3'
    } else if d == 4 {
        '4'
    } else if d == 5 {
        '5'
    } else if d == 6 {
        '6'
    } else if d == 7 {
        '7'
    } else if d == 8 {
        '8'
    } else {
        '9'
    }
}

/// Decimal digit string of `n`, most significant digit first, no sign and no
/// leading zero (except for `n == 0` itself).
pub open spec fn dec_digits(n: nat) -> Seq<char>
    decreases n,
{
    if n < 10 {
        seq![char_of_digit(n)]
    } else {
        dec_digits(n / 10).push(char_of_digit(n % 10))
    }
}

/// Value of a digit string read most significant digit first.
pub open spec fn digits_val(s: Seq<char>) -> nat
    decreases s.len(),
{
    if s.len() == 0 {
        0
    } else {
        digits_val(s.drop_last()) * 10 + digit_of(s.last())
    }
}

/// Every character of `s` is an ASCII digit.
pub open spec fn all_digits(s: Seq<char>) -> bool {
    forall|i: int| 0 <= i < s.len() ==> is_digit_char(#[trigger] s[i])
}

/// Ten to the `k`.
pub open spec fn pow10(k: nat) -> nat
    decreases k,
{
    if k == 0 {
        1
    } else {
        10 * pow10((k - 1) as nat)
    }
}

/// Writing a number and reading it back yields the number, the digits are
/// digits, and there is at least one of them.
pub proof fn lemma_dec_digits_val(n: nat)
    ensures
        digits_val(dec_digits(n)) == n,
        all_digits(dec_digits(n)),
        dec_digits(n).len() >= 1,
    decreases n,
{
    if n < 10 {
        let s = dec_digits(n);
        assert(s =~= seq![char_of_digit(n)]);
        assert(s.drop_last() =~= Seq::<char>::empty());
        assert(digits_val(s.drop_last()) == 0);
        assert(digits_val(s) == digits_val(s.drop_last()) * 10 + digit_of(s.last()));
        assert(digit_of(char_of_digit(n)) == n);
    } else {
        lemma_dec_digits_val(n / 10);
        let s = dec_digits(n);
        assert(s =~= dec_digits(n / 10).push(char_of_digit(n % 10)));
        assert(s.drop_last() =~= dec_digits(n / 10));
        assert(s.last() == char_of_digit(n % 10));
        assert(digits_val(s) == digits_val(dec_digits(n / 10)) * 10 + digit_of(char_of_digit(n % 10)));
        assert(n / 10 * 10 + n % 10 == n) by (nonlinear_arith);
    }
}

/// A number below `pow10(k)` needs at most `k` digits.
pub proof fn lemma_dec_digits_len(n: nat, k: nat)
    requires
        k >= 1,
        n < pow10(k),
    ensures
        dec_digits(n).len() <= k,
    decreases k,
{
    if n < 10 {
    } else {
        assert(pow10(k) == 10 * pow10((k - 1) as nat));
        assert(n / 10 < pow10((k - 1) as nat)) by (nonlinear_arith)
            requires
                n < 10 * pow10((k - 1) as nat),
                n >= 10,
        ;
        if k == 1 {
            assert(pow10(1nat) == 10);
            assert(false);
        }
        lemma_dec_digits_len(n / 10, (k - 1) as nat);
    }
}

/// Any digit string of length at most `k` holds a value below `pow10(k)`.
pub proof fn lemma_digits_val_bound(s: Seq<char>)
    requires
        all_digits(s),
    ensures
        digits_val(s) < pow10(s.len()),
    decreases s.len(),
{
    if s.len() == 0 {
    } else {
        lemma_digits_val_bound(s.drop_last());
        assert(digit_of(s.last()) <= 9);
        assert(digits_val(s.drop_last()) * 10 + 9 < pow10((s.len() - 1) as nat) * 10) by (nonlinear_arith)
            requires
                digits_val(s.drop_last()) < pow10((s.len() - 1) as nat),
        ;
        assert(pow10(s.len()) == 10 * pow10((s.len() - 1) as nat));
    }
}

/// Two to the sixty-four is below ten to the twenty, so any `u64` value
/// needs at most twenty digits.
pub proof fn lemma_u64_digits_len(n: nat)
    requires
        n < 0x1_0000_0000_0000_0000,
    ensures
        dec_digits(n).len() <= 20,
{
    assert(pow10(20nat) == 100000000000000000000) by {
        reveal_with_fuel(pow10, 21);
    }
    lemma_dec_digits_len(n, 20);
}

/// One ASCII digit as a string slice.
fn digit_str(d: u64) -> (r: &'static str)
    requires
        d < 10,
    ensures
        r@ =~= seq![char_of_digit(d as nat)],
{
    proof {
        reveal_strlit("0");
        reveal_strlit("1");
        reveal_strlit("2");
        reveal_strlit("3");
        reveal_strlit("4");
        reveal_strlit("5");
        reveal_strlit("6");
        reveal_strlit("7");
        reveal_strlit("8");
        reveal_strlit("9");
    }
    if d == 0 {
        "0"
    } else if d == 1 {
        "1"
    } else if d == 2 {
        "2"
    } else if d == 3 {
        "3"
    } else if d == 4 {
        "4"
    } else if d == 5 {
        "5"
    } else if d == 6 {
        "6"
    } else if d == 7 {
        "7"
    } else if d == 8 {
        "8"
    } else {
        "9"
    }
}

/// End of the run of digit characters that starts at `pos`: the first index
/// at or after `pos` that is out of range or holds a non-digit.
pub open spec fn digit_run_end(s: Seq<char>, pos: int) -> int
    decreases s.len() - pos,
{
    if 0 <= pos && pos < s.len() && is_digit_char(s[pos]) {
        digit_run_end(s, pos + 1)
    } else {
        pos
    }
}

/// Shape of a digit run: it starts at `pos`, every character in it is a
/// digit, and it ends at the end of the text or at a non-digit.
pub proof fn lemma_digit_run_shape(s: Seq<char>, pos: int)
    requires
        0 <= pos <= s.len(),
    ensures
        pos <= digit_run_end(s, pos) <= s.len(),
        forall|i: int| pos <= i < digit_run_end(s, pos) ==> is_digit_char(#[trigger] s[i]),
        digit_run_end(s, pos) == s.len() || !is_digit_char(s[digit_run_end(s, pos)]),
    decreases s.len() - pos,
{
    if pos < s.len() && is_digit_char(s[pos]) {
        lemma_digit_run_shape(s, pos + 1);
    }
}

/// A run of digits followed by a non-digit (or the end) ends exactly where
/// the digits end.
pub proof fn lemma_digit_run_exact(s: Seq<char>, pos: int, k: int)
    requires
        0 <= pos,
        pos + k <= s.len(),
        k >= 0,
        forall|i: int| pos <= i < pos + k ==> is_digit_char(#[trigger] s[i]),
        pos + k == s.len() || !is_digit_char(s[pos + k]),
    ensures
        digit_run_end(s, pos) == pos + k,
    decreases k,
{
    if k == 0 {
    } else {
        lemma_digit_run_exact(s, pos + 1, k - 1);
    }
}

/// A number written at `pos`: a run of one to twenty digits, read as a
/// decimal value, together with the position just after it.
pub open spec fn sp_num_at(s: Seq<char>, pos: int) -> Option<(nat, int)> {
    let end = digit_run_end(s, pos);
    if end == pos || end - pos > 20 {
        None
    } else {
        Some((digits_val(s.subrange(pos, end)), end))
    }
}

/// The value of a prefix of a digit string never exceeds the value of the
/// whole.
pub proof fn lemma_digits_val_prefix(s: Seq<char>, k: int)
    requires
        all_digits(s),
        0 <= k <= s.len(),
    ensures
        digits_val(s.subrange(0, k)) <= digits_val(s),
    decreases s.len() - k,
{
    if k == s.len() {
        assert(s.subrange(0, k) =~= s);
    } else {
        assert(s.subrange(0, k + 1).drop_last() =~= s.subrange(0, k));
        assert(digits_val(s.subrange(0, k + 1)) == digits_val(s.subrange(0, k)) * 10 + digit_of(
            s[k],
        ));
        assert(digits_val(s.subrange(0, k)) * 10 >= digits_val(s.subrange(0, k)))
            by (nonlinear_arith);
        lemma_digits_val_prefix(s, k + 1);
    }
}

/// Reads the number written at `pos`, if any: one to twenty digits.
pub fn parse_num_at(s: &str, pos: usize) -> (r: Option<(u128, usize)>)
    ensures
        match sp_num_at(s@, pos as int) {
            None => r is None,
            Some((v, e)) => r matches Some(p) && p.0 as nat == v && p.1 as int == e,
        },
{
    let len = s.unicode_len();
    if pos >= len {
        return None;
    }
    let i = digit_run_end_exec(s, len, pos);
    proof {
        lemma_digit_run_shape(s@, pos as int);
    }
    let count = i - pos;
    if count == 0 || count > 20 {
        return None;
    }
    let ghost run = s@.subrange(pos as int, i as int);
    proof {
        lemma_digits_val_bound(run);
        assert(pow10(20nat) == 100000000000000000000) by {
            reveal_with_fuel(pow10, 21);
        }
        if run.len() < 20 {
            lemma_pow10_increases(run.len(), 20nat);
        }
    }
    let mut v: u128 = 0;
    let mut j: usize = pos;
    while j < i
        invariant
            pos <= j <= i <= len,
            len == s@.len(),
            i - pos <= 20,
            forall|k: int| pos <= k < i ==> is_digit_char(#[trigger] s@[k]),
            v as nat == digits_val(s@.subrange(pos as int, j as int)),
            v < 100000000000000000000,
        decreases i - j,
    {
        let c = s.get_char(j);
        let d = (c as u32) - ('0' as u32);
        proof {
            let pre = s@.subrange(pos as int, j as int);
            let now = s@.subrange(pos as int, j + 1);
            assert(now.drop_last() =~= pre);
            assert(digits_val(now) == digits_val(pre) * 10 + digit_of(s@[j as int]));
            lemma_digits_val_bound(now);
            assert(now.len() <= 20);
            assert(pow10(20nat) == 100000000000000000000) by {
                reveal_with_fuel(pow10, 21);
            }
            if now.len() < 20 {
                lemma_pow10_increases(now.len(), 20nat);
            }
        }
        v = v * 10 + (d as u128);
        j = j + 1;
    }
    proof {
        assert(s@.subrange(pos as int, i as int) =~= run);
    }
    Some((v, i))
}

/// `pow10` grows with its exponent.
pub proof fn lemma_pow10_increases(a: nat, b: nat)
    requires
        a <= b,
    ensures
        pow10(a) <= pow10(b),
    decreases b,
{
    if a < b {
        lemma_pow10_increases(a, (b - 1) as nat);
        assert(pow10(b) == 10 * pow10((b - 1) as nat));
        assert(10 * pow10((b - 1) as nat) >= pow10((b - 1) as nat)) by (nonlinear_arith);
    }
}

/// A whole attribute text read as a `u32`: nothing but digits, and a value
/// that fits.
pub open spec fn sp_parse_u32_text(s: Seq<char>) -> Option<u32> {
    if s.len() >= 1 && all_digits(s) && digits_val(s) <= u32::MAX {
        Some(digits_val(s) as u32)
    } else {
        None
    }
}

/// A whole attribute text read as an `i32`: an optional leading minus sign,
/// then nothing but digits, and a value that fits.
pub open spec fn sp_parse_i32_text(s: Seq<char>) -> Option<i32> {
    if s.len() >= 1 && s[0] == '-' {
        let m = s.skip(1);
        if m.len() >= 1 && all_digits(m) && digits_val(m) <= 0x8000_0000 {
            Some((0 - digits_val(m) as int) as i32)
        } else {
            None
        }
    } else {
        if s.len() >= 1 && all_digits(s) && digits_val(s) <= i32::MAX {
            Some(digits_val(s) as i32)
        } else {
            None
        }
    }
}

/// Reads digits from `from` to the end of `s`, failing on a non-digit or on
/// a value above `max`.
fn parse_digits_bounded(s: &str, from: usize, max: u64) -> (r: Option<u64>)
    requires
        from as int <= s@.len(),
        max <= u32::MAX as u64 || max == 0x8000_0000,
    ensures
        ({
            let m = s@.skip(from as int);
            match r {
                Some(v) => m.len() >= 1 && all_digits(m) && digits_val(m) == v && v <= max,
                None => !(m.len() >= 1 && all_digits(m) && digits_val(m) <= max),
            }
        }),
{
    let len = s.unicode_len();
    if from >= len {
        return None;
    }
    let ghost m = s@.skip(from as int);
    let mut acc: u64 = 0;
    let mut i: usize = from;
    while i < len
        invariant
            from <= i <= len,
            len == s@.len(),
            m == s@.skip(from as int),
            forall|j: int| from <= j < i ==> is_digit_char(#[trigger] s@[j]),
            acc as nat == digits_val(s@.subrange(from as int, i as int)),
            acc <= max,
            max <= 0xFFFF_FFFF,
        decreases len - i,
    {
        let c = s.get_char(i);
        if !(c >= '0' && c <= '9') {
            proof {
                assert(m[i - from] == s@[i as int]);
                assert(!all_digits(m));
            }
            return None;
        }
        let d = (c as u32) - ('0' as u32);
        proof {
            let pre = s@.subrange(from as int, i as int);
            let now = s@.subrange(from as int, i + 1);
            assert(now.drop_last() =~= pre);
            assert(digits_val(now) == digits_val(pre) * 10 + digit_of(s@[i as int]));
        }
        let next: u64 = acc * 10 + (d as u64);
        if next > max {
            proof {
                let whole = s@.subrange(from as int, len as int);
                assert(whole =~= m);
                if all_digits(m) {
                    assert(forall|j: int| 0 <= j < m.len() ==> is_digit_char(#[trigger] m[j]));
                    let shifted = s@.subrange(from as int, i + 1);
                    assert(shifted =~= m.subrange(0, i + 1 - from));
                    lemma_digits_val_prefix(m, i + 1 - from);
                    assert(digits_val(m) >= next);
                }
            }
            return None;
        }
        acc = next;
        i = i + 1;
    }
    proof {
        assert(s@.subrange(from as int, len as int) =~= m);
        assert(m.len() >= 1);
    }
    Some(acc)
}

/// Reads a whole attribute text as a `u32`; mirrors [`sp_parse_u32_text`].
pub fn parse_u32_text(s: &str) -> (r: Option<u32>)
    ensures
        r == sp_parse_u32_text(s@),
{
    proof {
        if s@.len() >= 1 && all_digits(s@) {
            lemma_digits_val_bound(s@);
        }
    }
    match parse_digits_bounded(s, 0, u32::MAX as u64) {
        Some(v) => {
            proof {
                assert(s@.skip(0) =~= s@);
            }
            Some(v as u32)
        },
        None => {
            proof {
                assert(s@.skip(0) =~= s@);
            }
            None
        },
    }
}

/// Reads a whole attribute text as an `i32`; mirrors [`sp_parse_i32_text`].
pub fn parse_i32_text(s: &str) -> (r: Option<i32>)
    ensures
        r == sp_parse_i32_text(s@),
{
    let len = s.unicode_len();
    if len >= 1 && s.get_char(0) == '-' {
        match parse_digits_bounded(s, 1, 0x8000_0000) {
            Some(v) => Some((0i64 - v as i64) as i32),
            None => None,
        }
    } else {
        match parse_digits_bounded(s, 0, i32::MAX as u64) {
            Some(v) => {
                proof {
                    assert(s@.skip(0) =~= s@);
                }
                Some(v as i32)
            },
            None => {
                proof {
                    assert(s@.skip(0) =~= s@);
                }
                None
            },
        }
    }
}

/// Decimal time text without a sign: one or more digits, optionally
/// followed by a point and one or more digits.
pub open spec fn is_unsigned_decimal(s: Seq<char>) -> bool {
    let d = digit_run_end(s, 0);
    d > 0 && (d == s.len() || (s[d] == '.' && d + 1 < s.len() && digit_run_end(s, d + 1)
        == s.len()))
}

/// Decimal time text as container attributes carry it: an optional sign,
/// then digits with an optional fractional part.
pub open spec fn is_decimal(s: Seq<char>) -> bool {
    if s.len() >= 1 && (s[0] == '-' || s[0] == '+') {
        is_unsigned_decimal(s.skip(1))
    } else {
        is_unsigned_decimal(s)
    }
}

/// Finds the end of the digit run starting at `pos`.
fn digit_run_end_exec(s: &str, len: usize, pos: usize) -> (r: usize)
    requires
        len as int == s@.len(),
        pos <= len,
    ensures
        r as int == digit_run_end(s@, pos as int),
        pos <= r <= len,
{
    let mut i: usize = pos;
    while i < len
        invariant
            pos <= i <= len,
            len as int == s@.len(),
            digit_run_end(s@, pos as int) == digit_run_end(s@, i as int),
        ensures
            pos <= i <= len,
            digit_run_end(s@, pos as int) == i,
        decreases len - i,
    {
        let c = s.get_char(i);
        if !(c >= '0' && c <= '9') {
            proof {
                assert(digit_run_end(s@, i as int) == i);
            }
            break;
        }
        i = i + 1;
    }
    i
}

/// Checks a whole attribute text for decimal shape; mirrors [`is_decimal`].
pub fn check_decimal(s: &str) -> (r: bool)
    ensures
        r == is_decimal(s@),
{
    let len = s.unicode_len();
    let start: usize = if len >= 1 && {
        let c = s.get_char(0);
        c == '-' || c == '+'
    } {
        1
    } else {
        0
    };
    proof {
        lemma_digit_run_shift(s@, start as int, 0);
    }
    let d = digit_run_end_exec(s, len, start);
    if d == start {
        return false;
    }
    if d == len {
        return true;
    }
    if s.get_char(d) != '.' {
        return false;
    }
    if d + 1 >= len {
        return false;
    }
    proof {
        lemma_digit_run_shift(s@, start as int, d + 1 - start);
    }
    let e = digit_run_end_exec(s, len, d + 1);
    e == len
}

/// A digit run inside the text dropped by `skip` ends where the run in the
/// whole text ends, shifted back.
pub proof fn lemma_digit_run_shift(s: Seq<char>, start: int, pos: int)
    requires
        0 <= start,
        0 <= pos,
        start + pos <= s.len(),
    ensures
        digit_run_end(s.skip(start), pos) == digit_run_end(s, start + pos) - start,
    decreases s.len() - pos - start,
{
    let t = s.skip(start);
    if pos < t.len() && is_digit_char(t[pos]) {
        lemma_digit_run_shift(s, start, pos + 1);
    }
}

/// Appends the decimal digits of `n` to `out`.
pub fn push_dec_u64(n: u64, out: &mut String)
    ensures
        final(out)@ == old(out)@ + dec_digits(n as nat),
    decreases n,
{
    if n < 10 {
        out.append(digit_str(n));
    } else {
        push_dec_u64(n / 10, out);
        let ghost mid = out@;
        out.append(digit_str(n % 10));
        proof {
            assert(out@ =~= old(out)@ + dec_digits(n as nat));
        }
    }
}

} // verus!

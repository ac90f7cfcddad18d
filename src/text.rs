use vstd::prelude::*;

use vstd::string::{StrSliceExecFns, StringExecFns};

use crate::value::SCALE;

verus! {

/// What `str::to_lowercase` returns for a string.
pub uninterp spec fn lower_of(s: Seq<char>) -> Seq<char>;

/// Relies on `str::to_lowercase`: its result depends on the characters alone.
#[verifier::external_body]
pub(crate) fn lowercase(s: &str) -> (r: String)
    ensures
        r@ == lower_of(s@),
{
    s.to_lowercase()
}

/// The text of one decimal digit.
pub open spec fn digit_text(d: int) -> Seq<char> {
    if d == 0 {
        "0"@
    } else if d == 1 {
        "1"@
    } else if d == 2 {
        "2"@
    } else if d == 3 {
        "3"@
    } else if d == 4 {
        "4"@
    } else if d == 5 {
        "5"@
    } else if d == 6 {
        "6"@
    } else if d == 7 {
        "7"@
    } else if d == 8 {
        "8"@
    } else {
        "9"@
    }
}

/// Decimal digits of `n`, without leading zeros.
pub open spec fn digits(n: nat) -> Seq<char>
    decreases n,
{
    if n < 10 {
        digit_text(n as int)
    } else {
        digits(n / 10) + digit_text((n % 10) as int)
    }
}

/// The last `w` decimal digits of `n`, zero-padded.
pub open spec fn padded_digits(n: nat, w: nat) -> Seq<char>
    decreases w,
{
    if w == 0 {
        seq![]
    } else {
        padded_digits(n / 10, (w - 1) as nat) + digit_text((n % 10) as int)
    }
}

/// A fraction of `w` digits with its trailing zeros dropped, as (digits, width).
pub open spec fn trimmed(f: nat, w: nat) -> (nat, nat)
    decreases w,
{
    if w > 0 && f % 10 == 0 {
        trimmed(f / 10, (w - 1) as nat)
    } else {
        (f, w)
    }
}

/// Shortest decimal text of a fixed-point value: `2`, `0.3`, `-1.25`.
pub open spec fn decimal(x: int) -> Seq<char> {
    let m: nat = if x < 0 {
        (-x) as nat
    } else {
        x as nat
    };
    let sign = if x < 0 {
        "-"@
    } else {
        seq![]
    };
    let whole = digits(m / (SCALE as nat));
    let frac: nat = m % (SCALE as nat);
    if frac == 0 {
        sign + whole
    } else {
        let (f, w) = trimmed(frac, 4);
        sign + whole + "."@ + padded_digits(f, w)
    }
}

fn digit_str(d: u64) -> (r: &'static str)
    requires
        d < 10,
    ensures
        r@ == digit_text(d as int),
{
    if d == 0 {
        "0"
    } else if d == 1 {
        "1"
    } else if d == 2 {
        "2"
    } else if d == 3 {
        "3"
    } else if d == 4 {
        "4"
    } else if d == 5 {
        "5"
    } else if d == 6 {
        "6"
    } else if d == 7 {
        "7"
    } else if d == 8 {
        "8"
    } else {
        "9"
    }
}

fn append_digits(s: &mut String, n: u64)
    ensures
        final(s)@ == old(s)@ + digits(n as nat),
    decreases n,
{
    if n >= 10 {
        append_digits(s, n / 10);
        s.append(digit_str(n % 10));
    } else {
        s.append(digit_str(n));
    }
}

fn append_padded(s: &mut String, n: u64, w: u64)
    ensures
        final(s)@ == old(s)@ + padded_digits(n as nat, w as nat),
    decreases w,
{
    if w > 0 {
        append_padded(s, n / 10, w - 1);
        s.append(digit_str(n % 10));
    }
}

/// Appends the shortest decimal text of fixed-point value `x`.
pub fn append_decimal(s: &mut String, x: i64)
    requires
        x > i64::MIN,
    ensures
        final(s)@ == old(s)@ + decimal(x as int),
{
    let m: u64 = if x < 0 {
        (-x) as u64
    } else {
        x as u64
    };
    if x < 0 {
        s.append("-");
    }
    append_digits(s, m / (SCALE as u64));
    let frac = m % (SCALE as u64);
    if frac != 0 {
        let mut f = frac;
        let mut w: u64 = 4;
        while w > 0 && f % 10 == 0
            invariant
                w <= 4,
                trimmed(f as nat, w as nat) == trimmed(frac as nat, 4),
            decreases w,
        {
            f = f / 10;
            w = w - 1;
        }
        s.append(".");
        append_padded(s, f, w);
    }
}

/// The `sep`-separated pieces of `s`, empty ones included.
pub open spec fn pieces(s: Seq<char>, sep: char) -> Seq<Seq<char>>
    decreases s.len(),
{
    if s.len() == 0 {
        seq![seq![]]
    } else {
        let r = pieces(s.drop_last(), sep);
        if s.last() == sep {
            r.push(seq![])
        } else {
            r.update(r.len() - 1, r.last().push(s.last()))
        }
    }
}

/// The `+`-separated pieces of `s`.
pub open spec fn split_plus(s: Seq<char>) -> Seq<Seq<char>> {
    pieces(s, '+')
}

proof fn lemma_pieces_nonempty(s: Seq<char>, sep: char)
    ensures
        pieces(s, sep).len() >= 1,
    decreases s.len(),
{
    if s.len() > 0 {
        lemma_pieces_nonempty(s.drop_last(), sep);
    }
}

/// Splits `s` at every `+`.
pub fn split_on_plus(s: &str) -> (r: Vec<String>)
    ensures
        r@.len() == split_plus(s@).len(),
        forall|i: int| 0 <= i < r@.len() ==> (#[trigger] r@[i])@ == split_plus(s@)[i],
{
    split_on(s, '+')
}

/// Splits `s` at every `sep`.
pub fn split_on(s: &str, sep: char) -> (r: Vec<String>)
    ensures
        r@.len() == pieces(s@, sep).len(),
        forall|i: int| 0 <= i < r@.len() ==> (#[trigger] r@[i])@ == pieces(s@, sep)[i],
{
    let n = s.unicode_len();
    let mut out: Vec<String> = Vec::new();
    let mut start: usize = 0;
    let mut i: usize = 0;
    while i < n
        invariant
            n == s@.len(),
            start <= i <= n,
            pieces(s@.subrange(0, i as int), sep).len() == out@.len() + 1,
            forall|k: int| 0 <= k < out@.len() ==> (#[trigger] out@[k])@ == pieces(s@.subrange(0, i as int), sep)[k],
            pieces(s@.subrange(0, i as int), sep).last() == s@.subrange(start as int, i as int),
        decreases n - i,
    {
        proof {
            lemma_pieces_nonempty(s@.subrange(0, i as int), sep);
            assert(s@.subrange(0, i + 1).drop_last() == s@.subrange(0, i as int));
            assert(s@.subrange(0, i + 1).last() == s@[i as int]);
        }
        let c = s.get_char(i);
        if c == sep {
            let piece = String::from_str(s.substring_char(start, i));
            out.push(piece);
            start = i + 1;
            proof {
                assert(s@.subrange(start as int, i + 1) =~= seq![]);
            }
        } else {
            proof {
                assert(s@.subrange(start as int, i + 1) =~= s@.subrange(start as int, i as int).push(c));
            }
        }
        i = i + 1;
    }
    proof {
        lemma_pieces_nonempty(s@.subrange(0, n as int), sep);
        assert(s@.subrange(0, n as int) == s@);
    }
    let last = String::from_str(s.substring_char(start, n));
    out.push(last);
    out
}

/// Largest whole part accepted when reading a decimal number.
pub const WHOLE_LIMIT: i64 = 99_999_999;

/// Progress of reading a decimal number `[+|-]digits[.digits]`.
#[derive(PartialEq, Eq, Structural, Clone, Copy, Debug)]
pub struct NumberScan {
    /// 0 start, 1 after the sign, 2 in the whole part, 3 after the point,
    /// 4 in the fraction, 5 rejected.
    pub phase: u8,
    pub negative: bool,
    pub whole: i64,
    /// The first four fraction digits, as a number.
    pub frac: i64,
    pub frac_digits: u8,
    pub any_digit: bool,
}

pub open spec fn scan_start() -> NumberScan {
    NumberScan { phase: 0, negative: false, whole: 0, frac: 0, frac_digits: 0, any_digit: false }
}

pub open spec fn is_digit(c: char) -> bool {
    '0' <= c <= '9'
}

pub open spec fn digit_value(c: char) -> int {
    c as int - '0' as int
}

/// One character of a decimal number; fraction digits past the fourth are
/// read and dropped; a whole part above the limit rejects the number.
pub open spec fn scan_step(st: NumberScan, c: char) -> NumberScan {
    if st.phase == 5 {
        st
    } else if c == '-' && st.phase == 0 {
        NumberScan { phase: 1, negative: true, ..st }
    } else if c == '+' && st.phase == 0 {
        NumberScan { phase: 1, ..st }
    } else if is_digit(c) && st.phase <= 2 {
        let w = st.whole * 10 + digit_value(c);
        if w > WHOLE_LIMIT {
            NumberScan { phase: 5, ..st }
        } else {
            NumberScan { phase: 2, whole: w as i64, any_digit: true, ..st }
        }
    } else if is_digit(c) && (st.phase == 3 || st.phase == 4) {
        if st.frac_digits < 4 {
            NumberScan {
                phase: 4,
                frac: (st.frac * 10 + digit_value(c)) as i64,
                frac_digits: (st.frac_digits + 1) as u8,
                any_digit: true,
                ..st
            }
        } else {
            NumberScan { phase: 4, ..st }
        }
    } else if c == '.' && st.phase <= 2 {
        NumberScan { phase: 3, ..st }
    } else {
        NumberScan { phase: 5, ..st }
    }
}

pub open spec fn scan_all(s: Seq<char>) -> NumberScan
    decreases s.len(),
{
    if s.len() == 0 {
        scan_start()
    } else {
        scan_step(scan_all(s.drop_last()), s.last())
    }
}

pub open spec fn pow10(n: nat) -> int
    decreases n,
{
    if n == 0 {
        1
    } else {
        10 * pow10((n - 1) as nat)
    }
}

/// The fixed-point value of a decimal number `[+|-]digits[.digits]` (at least
/// one digit), its fraction cut after four digits; `None` for other text.
pub open spec fn parse_fixed(s: Seq<char>) -> Option<int> {
    let st = scan_all(s);
    if st.phase == 5 || !st.any_digit {
        None
    } else {
        let m = st.whole * SCALE + st.frac * pow10((4 - st.frac_digits) as nat);
        Some(if st.negative { -m } else { m })
    }
}

proof fn lemma_scan_bounds(s: Seq<char>)
    ensures
        0 <= scan_all(s).whole <= WHOLE_LIMIT,
        0 <= scan_all(s).frac_digits <= 4,
        0 <= scan_all(s).frac < pow10(scan_all(s).frac_digits as nat),
    decreases s.len(),
{
    if s.len() > 0 {
        lemma_scan_bounds(s.drop_last());
        let st = scan_all(s.drop_last());
        let c = s.last();
        assert(pow10((st.frac_digits + 1) as nat) == 10 * pow10(st.frac_digits as nat));
        if is_digit(c) && (st.phase == 3 || st.phase == 4) && st.frac_digits < 4 {
            let d = digit_value(c);
            assert(0 <= d <= 9);
            assert(pow10(st.frac_digits as nat) <= 1000) by {
                reveal_with_fuel(pow10, 5);
            }
            assert(st.frac * 10 + d < 10 * pow10(st.frac_digits as nat)) by (nonlinear_arith)
                requires
                    0 <= st.frac < pow10(st.frac_digits as nat),
                    0 <= d <= 9,
            ;
        }
    }
}

fn pow10_exec(n: u8) -> (r: i64)
    requires
        n <= 4,
    ensures
        r == pow10(n as nat),
{
    reveal_with_fuel(pow10, 5);
    if n == 0 {
        1
    } else if n == 1 {
        10
    } else if n == 2 {
        100
    } else if n == 3 {
        1000
    } else {
        10000
    }
}

/// Reads a decimal number as a fixed-point value.
pub fn parse_fixed_exec(s: &str) -> (r: Option<i64>)
    ensures
        r matches Some(v) ==> parse_fixed(s@) == Some(v as int),
        r is None ==> parse_fixed(s@) is None,
        r matches Some(v) ==> crate::value::in_limit(v as int),
{
    let n = s.unicode_len();
    let mut st = NumberScan { phase: 0, negative: false, whole: 0, frac: 0, frac_digits: 0, any_digit: false };
    let mut i: usize = 0;
    while i < n
        invariant
            n == s@.len(),
            i <= n,
            st == scan_all(s@.subrange(0, i as int)),
        decreases n - i,
    {
        proof {
            assert(s@.subrange(0, i + 1).drop_last() == s@.subrange(0, i as int));
            assert(s@.subrange(0, i + 1).last() == s@[i as int]);
            lemma_scan_bounds(s@.subrange(0, i as int));
        }
        let c = s.get_char(i);
        if st.phase == 5 {
        } else if c == '-' && st.phase == 0 {
            st = NumberScan { phase: 1, negative: true, ..st };
        } else if c == '+' && st.phase == 0 {
            st = NumberScan { phase: 1, ..st };
        } else if '0' <= c && c <= '9' && st.phase <= 2 {
            let d = (c as u32 - '0' as u32) as i64;
            let w = st.whole * 10 + d;
            if w > WHOLE_LIMIT {
                st = NumberScan { phase: 5, ..st };
            } else {
                st = NumberScan { phase: 2, whole: w, any_digit: true, ..st };
            }
        } else if '0' <= c && c <= '9' && (st.phase == 3 || st.phase == 4) {
            let d = (c as u32 - '0' as u32) as i64;
            if st.frac_digits < 4 {
                proof {
                    assert(pow10(st.frac_digits as nat) <= 1000) by {
                        reveal_with_fuel(pow10, 5);
                    }
                }
                st = NumberScan { phase: 4, frac: st.frac * 10 + d, frac_digits: st.frac_digits + 1, any_digit: true, ..st };
            } else {
                st = NumberScan { phase: 4, ..st };
            }
        } else if c == '.' && st.phase <= 2 {
            st = NumberScan { phase: 3, ..st };
        } else {
            st = NumberScan { phase: 5, ..st };
        }
        i = i + 1;
    }
    proof {
        assert(s@.subrange(0, n as int) == s@);
        lemma_scan_bounds(s@);
    }
    if st.phase == 5 || !st.any_digit {
        return None;
    }
    let p = pow10_exec(4 - st.frac_digits);
    proof {
        reveal_with_fuel(pow10, 5);
        let k = st.frac_digits;
        assert(pow10(0) == 1);
        assert(pow10(1) == 10);
        assert(pow10(2) == 100);
        assert(pow10(3) == 1000);
        assert(pow10(4) == 10000);
        if k == 0 {
            assert(pow10(0) * pow10(4) == 10000);
        } else if k == 1 {
            assert(pow10(1) * pow10(3) == 10000);
        } else if k == 2 {
            assert(pow10(2) * pow10(2) == 10000);
        } else if k == 3 {
            assert(pow10(3) * pow10(1) == 10000);
        } else {
            assert(pow10(4) * pow10(0) == 10000);
        }
        assert(st.frac * p <= 10000) by (nonlinear_arith)
            requires
                0 <= st.frac < pow10(st.frac_digits as nat),
                p == pow10((4 - st.frac_digits) as nat),
                pow10(st.frac_digits as nat) * pow10((4 - st.frac_digits) as nat) == 10000,
        ;
    }
    let m = st.whole * SCALE + st.frac * p;
    if st.negative {
        Some(-m)
    } else {
        Some(m)
    }
}

} // verus!

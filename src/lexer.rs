//! Characters, whitespace, comments, identifiers and number literals.
use vstd::arithmetic::power::{lemma_pow_increases, pow};
use vstd::prelude::*;

use crate::number::{from_wide, ratio_of, Number};

verus! {

pub open spec fn is_space(c: char) -> bool {
    c == ' ' || c == '\t' || c == '\n' || c == '\r'
}

pub open spec fn is_alpha(c: char) -> bool {
    ('a' <= c && c <= 'z') || ('A' <= c && c <= 'Z')
}

pub open spec fn is_digit(c: char) -> bool {
    '0' <= c && c <= '9'
}

pub open spec fn is_ident_start(c: char) -> bool {
    is_alpha(c) || c == '_'
}

pub open spec fn is_ident_char(c: char) -> bool {
    is_alpha(c) || is_digit(c) || c == '_'
}

/// Whether `s` holds the two characters `a`, `b` at `i`.
pub open spec fn has_pair(s: Seq<char>, i: int, a: char, b: char) -> bool {
    0 <= i && i + 1 < s.len() && s[i] == a && s[i + 1] == b
}

/// The end of the line that goes on at `i`: the first line break at or after `i`, or the end.
pub open spec fn line_end(s: Seq<char>, i: int) -> int
    decreases s.len() - i,
{
    if 0 <= i < s.len() && s[i] != '\n' && s[i] != '\r' {
        line_end(s, i + 1)
    } else {
        i
    }
}

/// The position just after the first `*/` at or after `i`, if any.
pub open spec fn comment_close(s: Seq<char>, i: int) -> Option<int>
    decreases s.len() - i,
{
    if i < 0 || i + 1 >= s.len() {
        None
    } else if s[i] == '*' && s[i + 1] == '/' {
        Some(i + 2)
    } else {
        comment_close(s, i + 1)
    }
}

proof fn lemma_line_end(s: Seq<char>, i: int)
    requires
        0 <= i,
    ensures
        i <= line_end(s, i),
        i <= s.len() ==> line_end(s, i) <= s.len(),
    decreases s.len() - i,
{
    if 0 <= i < s.len() && s[i] != '\n' && s[i] != '\r' {
        lemma_line_end(s, i + 1);
    }
}

proof fn lemma_comment_close(s: Seq<char>, i: int)
    ensures
        comment_close(s, i) matches Some(j) ==> i + 2 <= j <= s.len(),
    decreases s.len() - i,
{
    if !(i < 0 || i + 1 >= s.len()) && !(s[i] == '*' && s[i + 1] == '/') {
        lemma_comment_close(s, i + 1);
    }
}

/// The first position at or after `i` that is not inside whitespace or a comment;
/// `None` when a block comment there is never closed. A line comment runs from `//`
/// to the end of its line, a block comment from `/*` to the first `*/`.
pub open spec fn ws_end(s: Seq<char>, i: int) -> Option<int>
    decreases s.len() - i,
    when 0 <= i
    via ws_end_decreases
{
    if i >= s.len() {
        Some(i)
    } else if is_space(s[i]) {
        ws_end(s, i + 1)
    } else if has_pair(s, i, '/', '/') {
        ws_end(s, line_end(s, i + 2))
    } else if has_pair(s, i, '/', '*') {
        if comment_close(s, i + 2) is Some {
            ws_end(s, comment_close(s, i + 2)->Some_0)
        } else {
            None
        }
    } else {
        Some(i)
    }
}

#[via_fn]
proof fn ws_end_decreases(s: Seq<char>, i: int) {
    if 0 <= i < s.len() && !is_space(s[i]) {
        if has_pair(s, i, '/', '/') {
            lemma_line_end(s, i + 2);
        } else if has_pair(s, i, '/', '*') {
            lemma_comment_close(s, i + 2);
        }
    }
}

proof fn lemma_ws_block(s: Seq<char>, i: int)
    requires
        0 <= i < s.len(),
        has_pair(s, i, '/', '*'),
    ensures
        comment_close(s, i + 2) is None ==> ws_end(s, i) is None,
        comment_close(s, i + 2) matches Some(j) ==> ws_end(s, i) == ws_end(s, j),
{
    assert(!is_space(s[i]));
    assert(!has_pair(s, i, '/', '/'));
    lemma_comment_close(s, i + 2);
}

/// Skipping whitespace moves forward and stays in the source.
pub proof fn lemma_ws_end_bounds(s: Seq<char>, i: int)
    requires
        0 <= i,
    ensures
        ws_end(s, i) matches Some(j) ==> i <= j && (i <= s.len() ==> j <= s.len()),
    decreases s.len() - i,
{
    if i < s.len() {
        if is_space(s[i]) {
            lemma_ws_end_bounds(s, i + 1);
        } else if has_pair(s, i, '/', '/') {
            lemma_line_end(s, i + 2);
            lemma_ws_end_bounds(s, line_end(s, i + 2));
        } else if has_pair(s, i, '/', '*') {
            lemma_comment_close(s, i + 2);
            if let Some(j) = comment_close(s, i + 2) {
                lemma_ws_end_bounds(s, j);
            }
        }
    }
}

/// The end of the run of identifier characters that starts at `i`.
pub open spec fn ident_end(s: Seq<char>, i: int) -> int
    decreases s.len() - i,
{
    if 0 <= i < s.len() && is_ident_char(s[i]) {
        ident_end(s, i + 1)
    } else {
        i
    }
}

/// The end of the run of digits that starts at `i`.
pub open spec fn digits_end(s: Seq<char>, i: int) -> int
    decreases s.len() - i,
{
    if 0 <= i < s.len() && is_digit(s[i]) {
        digits_end(s, i + 1)
    } else {
        i
    }
}

pub open spec fn digit_value(c: char) -> nat {
    (c as int - '0' as int) as nat
}

/// The value of the digits `s[a..b]`, read in base ten.
pub open spec fn digits_value(s: Seq<char>, a: int, b: int) -> nat
    decreases b - a,
{
    if b <= a {
        0
    } else {
        digits_value(s, a, b - 1) * 10 + digit_value(s[b - 1])
    }
}

/// Numbers at or above this bound are not read as literals.
pub open spec fn literal_limit() -> int {
    pow(10, 36)
}

/// The shape of a number literal that starts at `i`: an optional sign, digits with
/// an optional fraction (or a fraction alone), and an optional exponent.
pub struct LiteralShape {
    pub negative: bool,
    pub int_start: int,
    pub int_end: int,
    pub frac_start: int,
    pub frac_end: int,
    pub exp_negative: bool,
    pub exp_start: int,
    pub exp_end: int,
}

/// Where the parts of a literal at `i` lie; `None` when no literal starts there.
pub open spec fn literal_shape(s: Seq<char>, i: int) -> Option<LiteralShape> {
    let signed = 0 <= i < s.len() && (s[i] == '+' || s[i] == '-');
    let a = if signed { i + 1 } else { i };
    let b = digits_end(s, a);
    let dot = 0 <= b < s.len() && s[b] == '.';
    let fs = if dot { b + 1 } else { b };
    let fe = if dot { digits_end(s, fs) } else { b };
    let has_e = 0 <= fe < s.len() && (s[fe] == 'e' || s[fe] == 'E');
    let exp_signed = has_e && 0 <= fe + 1 < s.len() && (s[fe + 1] == '+' || s[fe + 1] == '-');
    let es = if exp_signed { fe + 2 } else if has_e { fe + 1 } else { fe };
    let ee = if has_e { digits_end(s, es) } else { fe };
    if b == a && fe == fs {
        None
    } else if has_e && ee == es {
        None
    } else {
        Some(LiteralShape {
            negative: signed && s[i] == '-',
            int_start: a,
            int_end: b,
            frac_start: fs,
            frac_end: fe,
            exp_negative: exp_signed && s[fe + 1] == '-',
            exp_start: es,
            exp_end: ee,
        })
    }
}

/// Whether the characters at `i` begin a literal but its exponent has no digits.
pub open spec fn bad_exponent(s: Seq<char>, i: int) -> bool {
    let signed = 0 <= i < s.len() && (s[i] == '+' || s[i] == '-');
    let a = if signed { i + 1 } else { i };
    let b = digits_end(s, a);
    let dot = 0 <= b < s.len() && s[b] == '.';
    let fs = if dot { b + 1 } else { b };
    let fe = if dot { digits_end(s, fs) } else { b };
    let has_e = 0 <= fe < s.len() && (s[fe] == 'e' || s[fe] == 'E');
    let exp_signed = has_e && 0 <= fe + 1 < s.len() && (s[fe + 1] == '+' || s[fe + 1] == '-');
    let es = if exp_signed { fe + 2 } else if has_e { fe + 1 } else { fe };
    !(b == a && fe == fs) && has_e && digits_end(s, es) == es
}

/// The digits of the mantissa, integer part then fraction, as one integer.
pub open spec fn mantissa(s: Seq<char>, l: LiteralShape) -> nat {
    digits_value(s, l.int_start, l.int_end) * pow(10, (l.frac_end - l.frac_start) as nat) as nat
        + digits_value(s, l.frac_start, l.frac_end)
}

/// The literal's exponent, less the number of fraction digits.
pub open spec fn scale(s: Seq<char>, l: LiteralShape) -> int {
    let e = digits_value(s, l.exp_start, l.exp_end) as int;
    (if l.exp_negative { -e } else { e }) - (l.frac_end - l.frac_start)
}

/// `m * 10^k` as a fraction: (numerator, denominator).
pub open spec fn scaled(m: int, k: int) -> (int, int) {
    (if k > 0 { m * pow(10, k as nat) } else { m }, if k < 0 { pow(10, (-k) as nat) } else { 1 })
}

/// The value of the literal: `mantissa * 10^scale` in lowest terms, signed; an error when
/// the scaled mantissa or the power of ten that divides it reaches `literal_limit()`,
/// or when the result does not fit a number.
pub open spec fn literal_value(s: Seq<char>, l: LiteralShape) -> Option<Number> {
    let (n, d) = scaled(mantissa(s, l) as int, scale(s, l));
    if n >= literal_limit() || d >= literal_limit() {
        None
    } else {
        match ratio_of(if l.negative { -n } else { n }, d) {
            Ok(x) => Some(x),
            Err(_) => None,
        }
    }
}

/// `10^36`, the value of `literal_limit()`.
const LIMIT: u128 = 1_000_000_000_000_000_000_000_000_000_000_000_000;

proof fn lemma_limit()
    ensures
        literal_limit() == LIMIT,
{
    reveal_with_fuel(pow, 37);
}

proof fn lemma_pow10_grows(e: nat)
    ensures
        pow(10, e) > e,
        pow(10, e) >= 1,
    decreases e,
{
    reveal(pow);
    if e > 0 {
        lemma_pow10_grows((e - 1) as nat);
    }
}

proof fn lemma_pow10_step(n: nat)
    ensures
        pow(10, n + 1) == 10 * pow(10, n),
{
    reveal(pow);
}

/// `m * 10^e`, when that is below `literal_limit()`.
fn scale_up(m: u128, e: u128) -> (r: Option<u128>)
    requires
        m < literal_limit(),
    ensures
        r == (if m * pow(10, e as nat) < literal_limit() {
            Some((m * pow(10, e as nat)) as u128)
        } else {
            None::<u128>
        }),
{
    proof {
        lemma_limit();
        reveal(pow);
    }
    if m == 0 {
        assert(m * pow(10, e as nat) == 0);
        return Some(0);
    }
    let mut acc = m;
    let mut j: u128 = 0;
    while j < e
        invariant
            0 < m <= acc < LIMIT,
            j <= e,
            acc == m * pow(10, j as nat),
            literal_limit() == LIMIT,
        decreases e - j,
    {
        if acc >= LIMIT / 10 {
            proof {
                lemma_pow_increases(10, (j + 1) as nat, e as nat);
                lemma_pow10_step(j as nat);
                assert(m * pow(10, (j + 1) as nat) <= m * pow(10, e as nat)) by (nonlinear_arith)
                    requires pow(10, (j + 1) as nat) <= pow(10, e as nat), m > 0;
                assert(m * pow(10, (j + 1) as nat) == acc * 10) by (nonlinear_arith)
                    requires pow(10, (j + 1) as nat) == 10 * pow(10, j as nat), acc == m * pow(10, j as nat);
            }
            return None;
        }
        proof {
            lemma_pow10_step(j as nat);
            assert(m * pow(10, (j + 1) as nat) == acc * 10) by (nonlinear_arith)
                requires pow(10, (j + 1) as nat) == 10 * pow(10, j as nat), acc == m * pow(10, j as nat);
        }
        acc = acc * 10;
        j += 1;
    }
    Some(acc)
}

/// The characters of `s`.
pub fn chars_of(s: &str) -> (r: Vec<char>)
    ensures
        r@ == s@,
{
    let mut v: Vec<char> = Vec::new();
    for c in it: s.chars()
        invariant
            v@ == it.seq().subrange(0, it.index() as int),
    {
        v.push(c);
    }
    assert(v@ =~= s@);
    v
}

/// The end of the run of digits at `i`.
pub fn scan_digits(s: &Vec<char>, i: usize) -> (r: usize)
    requires
        i <= s@.len(),
    ensures
        r == digits_end(s@, i as int),
        i <= r <= s@.len(),
{
    let mut k = i;
    while k < s.len() && '0' <= s[k] && s[k] <= '9'
        invariant
            i <= k <= s@.len(),
            digits_end(s@, i as int) == digits_end(s@, k as int),
        decreases s@.len() - k,
    {
        k += 1;
    }
    k
}

/// The end of the run of identifier characters at `i`.
pub fn scan_ident(s: &Vec<char>, i: usize) -> (r: usize)
    requires
        i <= s@.len(),
    ensures
        r == ident_end(s@, i as int),
        i <= r <= s@.len(),
{
    let mut k = i;
    while k < s.len() && (('a' <= s[k] && s[k] <= 'z') || ('A' <= s[k] && s[k] <= 'Z') || ('0' <= s[k]
        && s[k] <= '9') || s[k] == '_')
        invariant
            i <= k <= s@.len(),
            ident_end(s@, i as int) == ident_end(s@, k as int),
        decreases s@.len() - k,
    {
        k += 1;
    }
    k
}

/// Whether `s` holds `a` then `b` at `i`.
fn pair_at(s: &Vec<char>, i: usize, a: char, b: char) -> (r: bool)
    ensures
        r == has_pair(s@, i as int, a, b),
{
    i < s.len() && s.len() - i >= 2 && s[i] == a && s[i + 1] == b
}

/// Skips whitespace and comments from `i`: the position reached, or `None` at a
/// block comment that is never closed.
pub fn skip_ws(s: &Vec<char>, i: usize) -> (r: Option<usize>)
    requires
        i <= s@.len(),
    ensures
        match r {
            Some(j) => ws_end(s@, i as int) == Some(j as int) && i <= j <= s@.len(),
            None => ws_end(s@, i as int) is None,
        },
{
    let mut k = i;
    loop
        invariant
            i <= k <= s@.len(),
            ws_end(s@, i as int) == ws_end(s@, k as int),
        decreases s@.len() - k,
    {
        if k >= s.len() {
            return Some(k);
        }
        let c = s[k];
        if c == ' ' || c == '\t' || c == '\n' || c == '\r' {
            k += 1;
        } else if pair_at(s, k, '/', '/') {
            let mut j = k + 2;
            while j < s.len() && s[j] != '\n' && s[j] != '\r'
                invariant
                    k + 2 <= j <= s@.len(),
                    line_end(s@, k + 2) == line_end(s@, j as int),
                decreases s@.len() - j,
            {
                j += 1;
            }
            k = j;
        } else if pair_at(s, k, '/', '*') {
            let mut j = k + 2;
            loop
                invariant
                    has_pair(s@, k as int, '/', '*'),
                    i <= k < s@.len(),
                    ws_end(s@, i as int) == ws_end(s@, k as int),
                    k + 2 <= j <= s@.len(),
                    comment_close(s@, k + 2) == comment_close(s@, j as int),
                ensures
                    has_pair(s@, k as int, '/', '*'),
                    i <= k < s@.len(),
                    ws_end(s@, i as int) == ws_end(s@, k as int),
                    j + 2 <= s@.len(),
                    comment_close(s@, k + 2) == Some(j + 2),
                decreases s@.len() - j,
            {
                if j >= s.len() || s.len() - j < 2 {
                    assert(comment_close(s@, j as int) is None);
                    proof {
                        lemma_ws_block(s@, k as int);
                    }
                    return None;
                }
                if s[j] == '*' && s[j + 1] == '/' {
                    assert(comment_close(s@, j as int) == Some(j + 2));
                    break;
                }
                j += 1;
            }
            proof {
                lemma_ws_block(s@, k as int);
            }
            k = j + 2;
        } else {
            return Some(k);
        }
    }
}

/// Why no number could be read.
#[derive(Clone, Copy, Debug, PartialEq, Eq)]
pub enum LiteralError {
    /// No literal starts there.
    NotALiteral,
    /// An exponent marker without digits.
    BadExponent,
    /// The literal is too large or too precise.
    OutOfRange,
}

/// The value of the digits `s[a..b]`, when below `literal_limit()`.
fn read_digits(s: &Vec<char>, a: usize, b: usize, start: u128) -> (r: Option<u128>)
    requires
        a <= b <= s@.len(),
        forall|k: int| a <= k < b ==> is_digit(#[trigger] s@[k]),
        start < literal_limit(),
    ensures
        r == (if start * pow(10, (b - a) as nat) + digits_value(s@, a as int, b as int) < literal_limit() {
            Some((start * pow(10, (b - a) as nat) + digits_value(s@, a as int, b as int)) as u128)
        } else {
            None::<u128>
        }),
{
    proof {
        lemma_limit();
        reveal(pow);
    }
    let mut acc = start;
    let mut k = a;
    while k < b
        invariant
            a <= k <= b <= s@.len(),
            forall|j: int| a <= j < b ==> is_digit(#[trigger] s@[j]),
            acc < LIMIT,
            literal_limit() == LIMIT,
            acc == start * pow(10, (k - a) as nat) + digits_value(s@, a as int, k as int),
        decreases b - k,
    {
        let ghost before = acc as int;
        let d = (s[k] as u32 - '0' as u32) as u128;
        assert(d == digit_value(s@[k as int]));
        proof {
            lemma_pow10_step((k - a) as nat);
        }
        assert(start * pow(10, (k + 1 - a) as nat) + digits_value(s@, a as int, k + 1) == before * 10 + d)
            by (nonlinear_arith)
            requires
                pow(10, (k + 1 - a) as nat) == 10 * pow(10, (k - a) as nat),
                digits_value(s@, a as int, k + 1) == digits_value(s@, a as int, k as int) * 10 + d,
                before == start * pow(10, (k - a) as nat) + digits_value(s@, a as int, k as int);
        if acc >= LIMIT / 10 {
            proof {
                lemma_digits_grow(s@, a as int, k + 1, b as int, start as nat);
            }
            return None;
        }
        acc = acc * 10 + d;
        k += 1;
    }
    Some(acc)
}

proof fn lemma_digits_grow(s: Seq<char>, a: int, k: int, b: int, start: nat)
    requires
        a <= k <= b,
        forall|j: int| a <= j < b ==> is_digit(#[trigger] s[j]),
    ensures
        start * pow(10, (k - a) as nat) + digits_value(s, a, k) <= start * pow(10, (b - a) as nat)
            + digits_value(s, a, b),
    decreases b - k,
{
    reveal(pow);
    if k < b {
        lemma_digits_grow(s, a, k, b - 1, start);
        let x = start * pow(10, (b - 1 - a) as nat) + digits_value(s, a, b - 1);
        lemma_pow10_step((b - 1 - a) as nat);
        lemma_pow10_grows((b - 1 - a) as nat);
        assert(start * pow(10, (b - a) as nat) + digits_value(s, a, b) >= x) by (nonlinear_arith)
            requires
                pow(10, (b - a) as nat) == 10 * pow(10, (b - 1 - a) as nat),
                digits_value(s, a, b) >= digits_value(s, a, b - 1) * 10,
                x == start * pow(10, (b - 1 - a) as nat) + digits_value(s, a, b - 1),
                x >= 0,
                digits_value(s, a, b - 1) >= 0;
    }
}

/// Reads the number literal at `i`: its value and where it ends.
/// Where the parts of a literal lie in the source.
struct LiteralPos {
    negative: bool,
    a: usize,
    b: usize,
    fs: usize,
    fe: usize,
    exp_negative: bool,
    es: usize,
    ee: usize,
}

impl LiteralPos {
    spec fn shape(self) -> LiteralShape {
        LiteralShape {
            negative: self.negative,
            int_start: self.a as int,
            int_end: self.b as int,
            frac_start: self.fs as int,
            frac_end: self.fe as int,
            exp_negative: self.exp_negative,
            exp_start: self.es as int,
            exp_end: self.ee as int,
        }
    }
}

fn scan_literal(s: &Vec<char>, i: usize) -> (r: Result<LiteralPos, LiteralError>)
    requires
        i <= s@.len(),
    ensures
        match r {
            Ok(p) => literal_shape(s@, i as int) == Some(p.shape()) && i < p.ee && p.a <= p.b <= s@.len() && p.fs
                <= p.fe <= s@.len() && p.es <= p.ee <= s@.len(),
            Err(LiteralError::NotALiteral) => literal_shape(s@, i as int) is None && !bad_exponent(
                s@,
                i as int,
            ),
            Err(LiteralError::BadExponent) => bad_exponent(s@, i as int),
            Err(LiteralError::OutOfRange) => false,
        },
{
    let signed = i < s.len() && (s[i] == '+' || s[i] == '-');
    let a = if signed { i + 1 } else { i };
    let b = scan_digits(s, a);
    let dot = b < s.len() && s[b] == '.';
    let fs = if dot { b + 1 } else { b };
    let fe = if dot { scan_digits(s, fs) } else { b };
    if b == a && fe == fs {
        return Err(LiteralError::NotALiteral);
    }
    let has_e = fe < s.len() && (s[fe] == 'e' || s[fe] == 'E');
    let exp_signed = has_e && fe + 1 < s.len() && (s[fe + 1] == '+' || s[fe + 1] == '-');
    let es = if exp_signed { fe + 2 } else if has_e { fe + 1 } else { fe };
    let ee = if has_e { scan_digits(s, es) } else { fe };
    if has_e && ee == es {
        return Err(LiteralError::BadExponent);
    }
    let negative = signed && s[i] == '-';
    let exp_negative = exp_signed && s[fe + 1] == '-';
    Ok(LiteralPos { negative, a, b, fs, fe, exp_negative, es, ee })
}

fn literal_number(s: &Vec<char>, p: &LiteralPos) -> (r: Option<Number>)
    requires
        p.a <= p.b <= s@.len(),
        p.fs <= p.fe <= s@.len(),
        p.es <= p.ee <= s@.len(),
        p.b == digits_end(s@, p.a as int),
        p.fe == p.fs || p.fe == digits_end(s@, p.fs as int),
        p.ee == p.es || p.ee == digits_end(s@, p.es as int),
    ensures
        r == literal_value(s@, p.shape()),
        r matches Some(n) ==> n.wf(),
{
    proof {
        lemma_limit();
        lemma_digit_run(s@, p.a as int);
        lemma_digit_run(s@, p.fs as int);
        lemma_digit_run(s@, p.es as int);
        lemma_pow10_grows((p.fe - p.fs) as nat);
    }
    let ghost l = p.shape();
    let ghost m = mantissa(s@, l) as int;
    let ghost k = scale(s@, l);
    assert(m >= digits_value(s@, p.a as int, p.b as int)) by (nonlinear_arith)
        requires
            m == digits_value(s@, p.a as int, p.b as int) * pow(10, (p.fe - p.fs) as nat) + digits_value(s@, p.fs as int, p.fe as int),
            pow(10, (p.fe - p.fs) as nat) >= 1,
            digits_value(s@, p.fs as int, p.fe as int) >= 0,
            digits_value(s@, p.a as int, p.b as int) >= 0;
    proof {
        lemma_scaled_grows(m, k);
    }
    let int_part = match read_digits(s, p.a, p.b, 0) {
        Some(v) => v,
        None => {
            assert(digits_value(s@, p.a as int, p.b as int) == 0 * pow(10, (p.b - p.a) as nat) + digits_value(s@, p.a as int, p.b as int));
            return None;
        },
    };
    assert(int_part == digits_value(s@, p.a as int, p.b as int));
    let m_exec = match read_digits(s, p.fs, p.fe, int_part) {
        Some(v) => v,
        None => return None,
    };
    assert(m_exec == m);
    let f = (p.fe - p.fs) as u128;
    let ghost ev = digits_value(s@, p.es as int, p.ee as int) as int;
    let e = read_digits(s, p.es, p.ee, 0);
    assert(ev == 0 * pow(10, (p.ee - p.es) as nat) + digits_value(s@, p.es as int, p.ee as int));
    let (num, den) = match scale_parts(m_exec, e, Ghost(ev), p.exp_negative, f) {
        Some(q) => q,
        None => return None,
    };
    let signed_num: i128 = if p.negative { -(num as i128) } else { num as i128 };
    match from_wide(signed_num, den as i128) {
        Ok(x) => Some(x),
        Err(_) => None,
    }
}

/// Reads the number literal at `i`: its value and where it ends.
pub fn read_literal(s: &Vec<char>, i: usize) -> (r: Result<(Number, usize), LiteralError>)
    requires
        i <= s@.len(),
    ensures
        match r {
            Ok((n, j)) => literal_shape(s@, i as int) matches Some(l) && literal_value(s@, l) == Some(n)
                && j == l.exp_end && n.wf() && i < j <= s@.len(),
            Err(LiteralError::NotALiteral) => literal_shape(s@, i as int) is None && !bad_exponent(
                s@,
                i as int,
            ),
            Err(LiteralError::BadExponent) => bad_exponent(s@, i as int),
            Err(LiteralError::OutOfRange) => literal_shape(s@, i as int) matches Some(l) && literal_value(
                s@,
                l,
            ) is None,
        },
{
    let p = match scan_literal(s, i) {
        Ok(p) => p,
        Err(e) => return Err(e),
    };
    match literal_number(s, &p) {
        Some(n) => Ok((n, p.ee)),
        None => Err(LiteralError::OutOfRange),
    }
}

proof fn lemma_scaled_grows(m: int, k: int)
    requires
        m >= 0,
    ensures
        scaled(m, k).0 >= m,
        scaled(m, k).1 >= 1,
{
    if k > 0 {
        lemma_pow10_grows(k as nat);
        assert(m * pow(10, k as nat) >= m) by (nonlinear_arith)
            requires pow(10, k as nat) >= 1, m >= 0;
    }
    if k < 0 {
        lemma_pow10_grows((-k) as nat);
    }
}

/// `m * 10^k` as a fraction, when both parts stay below `literal_limit()`; `k` is the
/// exponent `e` (negated when `exp_negative`) less `f`, and `e` is `None` when the
/// exponent reaches `literal_limit()`.
fn scale_parts(m: u128, e: Option<u128>, ev: Ghost<int>, exp_negative: bool, f: u128) -> (r: Option<(u128, u128)>)
    requires
        m < literal_limit(),
        f < literal_limit() / 2,
        ev@ >= 0,
        e matches Some(x) ==> x == ev@ && x < literal_limit(),
        e is None ==> ev@ >= literal_limit(),
    ensures
        ({
            let k = (if exp_negative { -ev@ } else { ev@ }) - f;
            let p = scaled(m as int, k);
            r == (if p.0 < literal_limit() && p.1 < literal_limit() {
                Some((p.0 as u128, p.1 as u128))
            } else {
                None::<(u128, u128)>
            })
        }),
{
    proof {
        lemma_limit();
    }
    let ghost k = (if exp_negative { -ev@ } else { ev@ }) - f;
    proof {
        lemma_scaled_grows(m as int, k);
    }
    match e {
        None => {
            proof {
                assert(if exp_negative { -k >= 36 } else { k >= 36 });
                lemma_pow_increases(10, 36, (if exp_negative { -k } else { k }) as nat);
            }
            if exp_negative {
                None
            } else if m == 0 {
                assert(scaled(m as int, k).0 == 0) by (nonlinear_arith)
                    requires scaled(m as int, k).0 == m * pow(10, k as nat), m == 0;
                Some((0, 1))
            } else {
                let ghost p = pow(10, k as nat);
                assert(m * p >= literal_limit()) by (nonlinear_arith)
                    requires m >= 1, p >= literal_limit(), literal_limit() > 0;
                None
            }
        },
        Some(e) => {
            if !exp_negative && e > f {
                match scale_up(m, e - f) {
                    Some(v) => Some((v, 1)),
                    None => None,
                }
            } else {
                let back: u128 = if exp_negative { e + f } else { f - e };
                if back >= 36 {
                    proof {
                        lemma_pow_increases(10, 36, (-k) as nat);
                    }
                    return None;
                }
                proof {
                    reveal(pow);
                    assert(1 * pow(10, back as nat) == pow(10, back as nat));
                    if back == 0 {
                        assert(pow(10, 0) == 1);
                    }
                }
                assert(scaled(m as int, k).1 == pow(10, back as nat));
                match scale_up(1, back) {
                    Some(v) => Some((m, v)),
                    None => {
                        proof {
                            lemma_pow_increases(10, back as nat, 35);
                            lemma_pow10_step(35);
                        }
                        None
                    },
                }
            }
        },
    }
}

/// A literal that starts at `i` ends after `i`, inside the source.
pub proof fn lemma_literal_shape_bounds(s: Seq<char>, i: int)
    requires
        0 <= i <= s.len(),
        literal_shape(s, i) is Some,
    ensures
        i < literal_shape(s, i)->Some_0.exp_end <= s.len(),
{
    let signed = 0 <= i < s.len() && (s[i] == '+' || s[i] == '-');
    let a = if signed { i + 1 } else { i };
    lemma_digit_run(s, a);
    let b = digits_end(s, a);
    let dot = 0 <= b < s.len() && s[b] == '.';
    let fs = if dot { b + 1 } else { b };
    lemma_digit_run(s, fs);
    let fe = if dot { digits_end(s, fs) } else { b };
    let has_e = 0 <= fe < s.len() && (s[fe] == 'e' || s[fe] == 'E');
    let exp_signed = has_e && 0 <= fe + 1 < s.len() && (s[fe + 1] == '+' || s[fe + 1] == '-');
    let es = if exp_signed { fe + 2 } else if has_e { fe + 1 } else { fe };
    if has_e {
        lemma_digit_run(s, es);
    }
}

proof fn lemma_digit_run(s: Seq<char>, a: int)
    requires
        0 <= a <= s.len(),
    ensures
        a <= digits_end(s, a) <= s.len(),
        forall|j: int| a <= j < digits_end(s, a) ==> is_digit(#[trigger] s[j]),
    decreases s.len() - a,
{
    if a < s.len() && is_digit(s[a]) {
        lemma_digit_run(s, a + 1);
    }
}

} // verus!

//! Inbound frames: the movement intent a client sends as JSON text, and
//! the decimal numbers in it.

use serde_json::Value;
use vstd::prelude::*;
use vstd::arithmetic::div_mod::{lemma_basic_div, lemma_div_denominator};
use crate::geometry::Point;

verus! {

/// The most digits a number's integer and fraction parts may have together.
pub const MAX_DIGITS: usize = 38;

/// The most digits an exponent may have.
pub const MAX_EXPONENT_DIGITS: usize = 4;

/// Steps by which a number is scaled when it becomes a coordinate:
/// `UNIT` is ten to this power.
pub const UNIT_DIGITS: i64 = 3;

/// The text of the number that the JSON document `text` holds under `key`:
/// `Some` when `text` is a JSON object whose member `key` is a number.
/// The text is the one `serde_json` prints for that number.
pub uninterp spec fn json_number(text: Seq<char>, key: Seq<char>) -> Option<Seq<char>>;

/// Parses `text` with `serde_json::from_str::<Value>`, looks `key` up with
/// `Value::get`, takes the number with `Value::as_number` and prints it
/// with `Number`'s `to_string`.
///
/// The result depends on the two arguments alone; [`json_number`] is the
/// name of it. A parse error, a document that is no object, a missing
/// member and a member that is no number all give `None`.
#[verifier::external_body]
fn number_member(text: &str, key: &str) -> (r: Option<String>)
    ensures
        match r {
            Some(s) => json_number(text@, key@) == Some(s@),
            None => json_number(text@, key@) is None,
        },
{
    let document: Value = serde_json::from_str(text).ok()?;
    let number = document.get(key)?.as_number()?;
    Some(number.to_string())
}

/// Ten to the power `n`.
pub open spec fn pow10(n: nat) -> nat
    decreases n,
{
    if n == 0 {
        1
    } else {
        10 * pow10((n - 1) as nat)
    }
}

/// `c` is a decimal digit.
pub open spec fn is_digit(c: char) -> bool {
    48 <= c as u32 <= 57
}

/// The value of the digit `c`.
pub open spec fn digit_of(c: char) -> nat {
    (c as u32 - 48) as nat
}

/// Where the run of digits that starts at `from` ends.
pub open spec fn digits_end(s: Seq<char>, from: int) -> int
    decreases s.len() - from,
{
    if 0 <= from < s.len() && is_digit(s[from]) {
        digits_end(s, from + 1)
    } else {
        from
    }
}

/// `acc` with the digits of `s` in `[from, to)` appended in base ten.
pub open spec fn appended(acc: nat, s: Seq<char>, from: int, to: int) -> nat
    decreases to - from,
{
    if to <= from {
        acc
    } else {
        appended(acc, s, from, to - 1) * 10 + digit_of(s[to - 1])
    }
}

/// `digits * 10^shift`, rounded toward zero.
pub open spec fn scaled(digits: nat, shift: int) -> nat {
    if shift >= 0 {
        digits * pow10(shift as nat)
    } else {
        digits / pow10((-shift) as nat)
    }
}

/// Where the parts of a decimal number lie in its text: the integer
/// digits in `[whole, point)`, the fraction digits in
/// `[fraction, exponent)`, the exponent digits in `[power, end)`, and
/// whether the exponent is negative.
pub struct Shape {
    pub whole: int,
    pub point: int,
    pub fraction: int,
    pub exponent: int,
    pub power: int,
    pub end: int,
    pub down: bool,
}

/// The parts of `s` read as a decimal number: an optional `-`, digits, an
/// optional `.` with digits, and an optional `e` or `E` with an optional
/// sign and digits.
pub open spec fn shape_of(s: Seq<char>) -> Shape {
    let a: int = if s.len() > 0 && s[0] == '-' { 1 } else { 0 };
    let b = digits_end(s, a);
    let has_fraction = b < s.len() && s[b] == '.';
    let c = if has_fraction { b + 1 } else { b };
    let d = if has_fraction { digits_end(s, c) } else { b };
    let has_exponent = d < s.len() && (s[d] == 'e' || s[d] == 'E');
    let signed = has_exponent && d + 1 < s.len() && (s[d + 1] == '-' || s[d + 1] == '+');
    let f = if signed { d + 2 } else if has_exponent { d + 1 } else { d };
    let g = if has_exponent { digits_end(s, f) } else { d };
    Shape {
        whole: a,
        point: b,
        fraction: c,
        exponent: d,
        power: f,
        end: g,
        down: signed && s[d + 1] == '-',
    }
}

/// The parts make up all of a text of `len` characters, none that must
/// have digits is empty, and none has more digits than can be kept: at
/// most [`MAX_DIGITS`] before the exponent and [`MAX_EXPONENT_DIGITS`] in
/// it.
pub open spec fn well_shaped(m: Shape, len: int) -> bool {
    &&& m.point > m.whole
    &&& (m.fraction > m.point ==> m.exponent > m.fraction)
    &&& (m.power > m.exponent ==> m.end > m.power)
    &&& m.end == len
    &&& (m.point - m.whole) + (m.exponent - m.fraction) <= MAX_DIGITS
    &&& m.end - m.power <= MAX_EXPONENT_DIGITS
}

/// The value of the number with the parts `m` in `s`, times `UNIT`,
/// rounded toward zero and kept within `[-i64::MAX, i64::MAX]`.
pub open spec fn shape_steps(s: Seq<char>, m: Shape) -> int {
    let digits = appended(appended(0, s, m.whole, m.point), s, m.fraction, m.exponent);
    let power = appended(0, s, m.power, m.end);
    let shift = (if m.down { -power } else { power as int }) - (m.exponent - m.fraction)
        + UNIT_DIGITS;
    let size = scaled(digits, shift);
    let kept: int = if size > i64::MAX { i64::MAX as int } else { size as int };
    if m.whole == 1 { -kept } else { kept }
}

/// The coordinate, in steps, that the decimal number `s` stands for: its
/// value times `UNIT`, rounded toward zero and kept within
/// `[-i64::MAX, i64::MAX]`. Text that is no decimal number, or has more
/// digits than can be kept, stands for nothing; see [`shape_of`] and
/// [`well_shaped`].
pub open spec fn decimal_steps(s: Seq<char>) -> Option<int> {
    if well_shaped(shape_of(s), s.len() as int) {
        Some(shape_steps(s, shape_of(s)))
    } else {
        None
    }
}

/// The target that two numbers, each given as decimal text or missing,
/// stand for: a point when both are there and both are decimal numbers.
pub open spec fn target_of(x: Option<Seq<char>>, y: Option<Seq<char>>) -> Option<Point> {
    if x is Some && y is Some && decimal_steps(x->0) is Some && decimal_steps(y->0) is Some {
        Some(Point { x: decimal_steps(x->0)->0 as i64, y: decimal_steps(y->0)->0 as i64 })
    } else {
        None
    }
}

/// Powers of ten grow with the exponent and are positive.
pub proof fn lemma_pow10_monotone(a: nat, b: nat)
    requires
        a <= b,
    ensures
        0 < pow10(a) <= pow10(b),
    decreases b,
{
    if b == 0 {
    } else if a == b {
        lemma_pow10_monotone(0, (b - 1) as nat);
    } else {
        lemma_pow10_monotone(a, (b - 1) as nat);
    }
}

/// One world unit is ten to the power [`UNIT_DIGITS`] steps.
pub proof fn lemma_unit_digits()
    ensures
        pow10(UNIT_DIGITS as nat) == crate::units::UNIT,
{
    reveal_with_fuel(pow10, 4);
}

/// Ten to the 38th fits in 128 bits.
proof fn lemma_pow10_38()
    ensures
        pow10(38) == 100_000_000_000_000_000_000_000_000_000_000_000_000,
        pow10(4) == 10_000,
{
    reveal_with_fuel(pow10, 40);
}

/// Where the run of digits of `s` that starts at `from` ends.
fn run_end(s: &str, len: usize, from: usize) -> (end: usize)
    requires
        len == s@.len(),
        from <= len,
    ensures
        from <= end <= len,
        end == digits_end(s@, from as int),
        forall|i: int| from <= i < end ==> is_digit(#[trigger] s@[i]),
{
    let mut i: usize = from;
    while i < len
        invariant
            len == s@.len(),
            from <= i <= len,
            digits_end(s@, from as int) == digits_end(s@, i as int),
            forall|k: int| from <= k < i ==> is_digit(#[trigger] s@[k]),
        decreases len - i,
    {
        let c: u32 = s.get_char(i) as u32;
        if c < 48 || c > 57 {
            return i;
        }
        i += 1;
    }
    i
}

/// `acc` with the digits of `s` in `[from, to)` appended in base ten.
fn append_digits(s: &str, acc: u128, from: usize, to: usize, Ghost(have): Ghost<nat>) -> (r: u128)
    requires
        from <= to <= s@.len(),
        forall|i: int| from <= i < to ==> is_digit(#[trigger] s@[i]),
        acc < pow10(have),
        have + (to - from) <= MAX_DIGITS,
    ensures
        r == appended(acc as nat, s@, from as int, to as int),
        r < pow10((have + (to - from)) as nat),
{
    let mut r: u128 = acc;
    let mut i: usize = from;
    while i < to
        invariant
            from <= i <= to <= s@.len(),
            forall|k: int| from <= k < to ==> is_digit(#[trigger] s@[k]),
            have + (to - from) <= MAX_DIGITS,
            r == appended(acc as nat, s@, from as int, i as int),
            r < pow10((have + (i - from)) as nat),
        decreases to - i,
    {
        let c: u32 = s.get_char(i) as u32;
        proof {
            lemma_pow10_38();
            lemma_pow10_monotone((have + (i - from) + 1) as nat, 38);
            assert(is_digit(s@[i as int]));
        }
        r = r * 10 + (c - 48) as u128;
        i += 1;
    }
    r
}

/// `digits * 10^shift`, rounded toward zero and kept at most `i64::MAX`.
fn scale(digits: u128, shift: i64) -> (r: u128)
    requires
        digits < pow10(MAX_DIGITS as nat),
        -20_000 <= shift <= 20_000,
    ensures
        r == if scaled(digits as nat, shift as int) > i64::MAX {
            i64::MAX as nat
        } else {
            scaled(digits as nat, shift as int)
        },
{
    let top: u128 = 0x7FFF_FFFF_FFFF_FFFF;
    proof {
        lemma_pow10_38();
    }
    let mut v: u128 = digits;
    let mut i: i64 = 0;
    if shift >= 0 {
        assert(pow10(0) == 1);
        assert(v == digits * pow10(0)) by (nonlinear_arith)
            requires
                v == digits,
                pow10(0) == 1,
        ;
        while i < shift && v <= top
            invariant
                0 <= i <= shift,
                top == 0x7FFF_FFFF_FFFF_FFFF,
                v == digits * pow10(i as nat),
            decreases shift - i,
        {
            proof {
                assert(digits * pow10((i + 1) as nat) == (digits * pow10(i as nat)) * 10) by (nonlinear_arith)
                    requires
                        pow10((i + 1) as nat) == 10 * pow10(i as nat),
                ;
            }
            v = v * 10;
            i += 1;
        }
        proof {
            if i < shift {
                lemma_pow10_monotone(i as nat, shift as nat);
                assert(digits * pow10(i as nat) <= digits * pow10(shift as nat)) by (nonlinear_arith)
                    requires
                        pow10(i as nat) <= pow10(shift as nat),
                        digits >= 0,
                ;
            }
        }
        if v > top { top } else { v }
    } else {
        let n: i64 = -shift;
        assert(pow10(0) == 1);
        assert(v == digits as nat / pow10(0));
        while i < n && v > 0
            invariant
                0 <= i <= n,
                v == digits as nat / pow10(i as nat),
                v <= digits,
            decreases n - i,
        {
            proof {
                lemma_pow10_monotone(0, i as nat);
                lemma_div_denominator(digits as int, pow10(i as nat) as int, 10);
                assert(pow10((i + 1) as nat) == pow10(i as nat) * 10) by (nonlinear_arith)
                    requires
                        pow10((i + 1) as nat) == 10 * pow10(i as nat),
                ;
            }
            v = v / 10;
            i += 1;
        }
        proof {
            lemma_pow10_monotone(i as nat, n as nat);
            if i < n {
                vstd::arithmetic::div_mod::lemma_small_div_converse(digits as int, pow10(i as nat) as int);
                lemma_basic_div(digits as int, pow10(n as nat) as int);
            }
            lemma_pow10_monotone(0, n as nat);
        }
        if v > top { top } else { v }
    }
}

/// Where the parts of a decimal number lie in its text.
struct Marks {
    whole: usize,
    point: usize,
    fraction: usize,
    exponent: usize,
    power: usize,
    end: usize,
    down: bool,
}

impl Marks {
    spec fn shape(self) -> Shape {
        Shape {
            whole: self.whole as int,
            point: self.point as int,
            fraction: self.fraction as int,
            exponent: self.exponent as int,
            power: self.power as int,
            end: self.end as int,
            down: self.down,
        }
    }
}

/// Finds the parts of `text` read as a decimal number.
fn mark(text: &str, len: usize) -> (m: Marks)
    requires
        len == text@.len(),
    ensures
        m.shape() == shape_of(text@),
        m.whole <= m.point <= m.fraction <= m.exponent <= m.power <= len,
        m.exponent <= m.end <= len,
        m.power > m.exponent ==> m.power <= m.end,
        forall|i: int| m.whole <= i < m.point ==> is_digit(#[trigger] text@[i]),
        forall|i: int| m.fraction <= i < m.exponent ==> is_digit(#[trigger] text@[i]),
        forall|i: int| m.power <= i < m.end ==> is_digit(#[trigger] text@[i]),
{
    let whole: usize = if len > 0 && text.get_char(0) == '-' { 1 } else { 0 };
    let point: usize = run_end(text, len, whole);
    let has_fraction: bool = point < len && text.get_char(point) == '.';
    let fraction: usize = if has_fraction { point + 1 } else { point };
    let exponent: usize = if has_fraction { run_end(text, len, fraction) } else { point };
    let has_exponent: bool = exponent < len && (text.get_char(exponent) == 'e' || text.get_char(
        exponent,
    ) == 'E');
    let signed: bool = has_exponent && exponent + 1 < len && (text.get_char(exponent + 1) == '-'
        || text.get_char(exponent + 1) == '+');
    let down: bool = signed && text.get_char(exponent + 1) == '-';
    let power: usize = if signed { exponent + 2 } else if has_exponent { exponent + 1 } else { exponent };
    let end: usize = if has_exponent { run_end(text, len, power) } else { exponent };
    Marks { whole, point, fraction, exponent, power, end, down }
}

/// The value of the number with the parts `m` in `text`; see
/// [`shape_steps`].
fn steps(text: &str, m: &Marks) -> (r: i64)
    requires
        well_shaped(m.shape(), text@.len() as int),
        m.whole <= m.point <= m.fraction <= m.exponent <= m.power <= text@.len(),
        m.power <= m.end <= text@.len(),
        forall|i: int| m.whole <= i < m.point ==> is_digit(#[trigger] text@[i]),
        forall|i: int| m.fraction <= i < m.exponent ==> is_digit(#[trigger] text@[i]),
        forall|i: int| m.power <= i < m.end ==> is_digit(#[trigger] text@[i]),
    ensures
        r == shape_steps(text@, m.shape()),
{
    proof {
        lemma_pow10_38();
    }
    let whole: u128 = append_digits(text, 0, m.whole, m.point, Ghost(0));
    let digits: u128 = append_digits(
        text,
        whole,
        m.fraction,
        m.exponent,
        Ghost((m.point - m.whole) as nat),
    );
    let power: u128 = append_digits(text, 0, m.power, m.end, Ghost(0));
    proof {
        lemma_pow10_monotone((m.end - m.power) as nat, 4);
        lemma_pow10_monotone(((m.point - m.whole) + (m.exponent - m.fraction)) as nat, 38);
    }
    let e: i64 = power as i64;
    let shift: i64 = (if m.down { -e } else { e }) - ((m.exponent - m.fraction) as i64) + UNIT_DIGITS;
    let kept: i64 = scale(digits, shift) as i64;
    if m.whole == 1 { -kept } else { kept }
}

/// The coordinate, in steps, that the decimal number `text` stands for;
/// see [`decimal_steps`].
pub fn parse_decimal(text: &str) -> (r: Option<i64>)
    ensures
        match r {
            Some(v) => decimal_steps(text@) == Some(v as int),
            None => decimal_steps(text@) is None,
        },
{
    let len: usize = text.unicode_len();
    let m = mark(text, len);
    if m.point == m.whole || (m.fraction > m.point && m.exponent == m.fraction) || (m.power
        > m.exponent && m.end == m.power) || m.end != len || (m.point - m.whole) + (m.exponent
        - m.fraction) > MAX_DIGITS || m.end - m.power > MAX_EXPONENT_DIGITS {
        return None;
    }
    Some(steps(text, &m))
}

/// The target that two numbers, each given as decimal text or missing,
/// stand for; see [`target_of`].
pub fn decode_target(x: Option<String>, y: Option<String>) -> (r: Option<Point>)
    ensures
        r == target_of(
            match x { Some(s) => Some(s@), None => None },
            match y { Some(s) => Some(s@), None => None },
        ),
{
    match (x, y) {
        (Some(xs), Some(ys)) => match (parse_decimal(xs.as_str()), parse_decimal(ys.as_str())) {
            (Some(px), Some(py)) => Some(Point { x: px, y: py }),
            _ => None,
        },
        _ => None,
    }
}

/// The target of a movement frame: a JSON object whose members `x` and `y`
/// are both numbers. Any other text is no movement frame.
pub fn parse_move(text: &str) -> (r: Option<Point>)
    ensures
        r == target_of(json_number(text@, "x"@), json_number(text@, "y"@)),
{
    let x = number_member(text, "x");
    let y = number_member(text, "y");
    decode_target(x, y)
}

} // verus!

//! Fixed-point decimal quantities for prices and volumes, with their
//! exact text form.
use vstd::prelude::*;
use vstd::string::*;

verus! {

/// How many units make up one whole: ten to the power eight.
pub const UNITS_PER_WHOLE: u64 = 100_000_000;

/// A non-negative decimal number with eight fractional digits, held as a
/// count of units of 0.00000001. Comparison and arithmetic are exact.
#[derive(Clone, Copy, Debug, PartialEq, Eq, Structural, PartialOrd, Ord, Hash)]
pub struct Decimal {
    pub units: u64,
}

impl View for Decimal {
    type V = nat;

    open spec fn view(&self) -> nat {
        self.units as nat
    }
}

/// Whether `c` is one of the ten decimal digits.
pub open spec fn is_digit(c: char) -> bool {
    '0' <= c && c <= '9'
}

/// The number a decimal digit stands for.
pub open spec fn digit_value(c: char) -> nat {
    (c as u32 - 0x30) as nat
}

/// The digit that stands for `d`, for `d` below ten.
pub open spec fn digit_char(d: nat) -> char {
    (d + 0x30) as u8 as char
}

/// Whether every character of `s` is a decimal digit.
pub open spec fn all_digits(s: Seq<char>) -> bool {
    forall|i: int| 0 <= i < s.len() ==> is_digit(#[trigger] s[i])
}

/// The number that a string of decimal digits denotes; zero for the empty string.
pub open spec fn digits_value(s: Seq<char>) -> nat
    decreases s.len(),
{
    if s.len() == 0 {
        0
    } else {
        digits_value(s.drop_last()) * 10 + digit_value(s.last())
    }
}

/// Ten to the power `e`.
pub open spec fn pow10(e: nat) -> nat
    decreases e,
{
    if e == 0 {
        1
    } else {
        10 * pow10((e - 1) as nat)
    }
}

/// Position of the first `.` in `s`, or the length of `s` when it has none.
pub open spec fn first_dot(s: Seq<char>) -> int
    decreases s.len(),
{
    if s.len() == 0 || s[0] == '.' {
        0
    } else {
        1 + first_dot(s.drop_first())
    }
}

/// The digits of `s` in front of its first `.`.
pub open spec fn whole_part(s: Seq<char>) -> Seq<char> {
    s.subrange(0, first_dot(s))
}

/// The characters of `s` behind its first `.`; empty when it has none.
pub open spec fn fraction_part(s: Seq<char>) -> Seq<char> {
    if first_dot(s) < s.len() {
        s.subrange(first_dot(s) + 1, s.len() as int)
    } else {
        Seq::empty()
    }
}

/// The units that a fraction's digits contribute: its first eight digits,
/// read as a count of units. Digits beyond the eighth are dropped.
pub open spec fn fraction_units(frac: Seq<char>) -> nat {
    let kept = if frac.len() <= 8 { frac } else { frac.subrange(0, 8) };
    digits_value(kept) * pow10((8 - kept.len()) as nat)
}

/// The number of units a decimal literal denotes.
///
/// A literal is one or more digits, optionally followed by `.` and any
/// number of digits. Anything else denotes nothing.
pub open spec fn literal_units(s: Seq<char>) -> Option<nat> {
    if whole_part(s).len() > 0 && all_digits(whole_part(s)) && all_digits(fraction_part(s)) {
        Some(digits_value(whole_part(s)) * (UNITS_PER_WHOLE as nat) + fraction_units(fraction_part(s)))
    } else {
        None
    }
}

/// The decimal a literal denotes, where it denotes one that fits.
pub open spec fn parsed_literal(s: Seq<char>) -> Option<Decimal> {
    match literal_units(s) {
        Some(v) => if v <= u64::MAX {
            Some(Decimal { units: v as u64 })
        } else {
            None
        },
        None => None,
    }
}

/// The digits of `n`, most significant first, without leading zeros.
pub open spec fn digits_text(n: nat) -> Seq<char>
    decreases n,
{
    if n < 10 {
        seq![digit_char(n)]
    } else {
        digits_text(n / 10).push(digit_char(n % 10))
    }
}

/// The last `width` digits of `n`, with leading zeros.
pub open spec fn padded_text(n: nat, width: nat) -> Seq<char>
    decreases width,
{
    if width == 0 {
        Seq::empty()
    } else {
        padded_text(n / 10, (width - 1) as nat).push(digit_char(n % 10))
    }
}

/// The text form of a decimal of `units` units: the whole part, a `.`, and
/// all eight fractional digits.
pub open spec fn decimal_text(units: nat) -> Seq<char> {
    digits_text(units / (UNITS_PER_WHOLE as nat)) + seq!['.'] + padded_text(units % (UNITS_PER_WHOLE as nat), 8)
}

pub proof fn lemma_first_dot_bounds(s: Seq<char>)
    ensures
        0 <= first_dot(s) <= s.len(),
        first_dot(s) < s.len() ==> s[first_dot(s)] == '.',
        forall|i: int| 0 <= i < first_dot(s) ==> s[i] != '.',
    decreases s.len(),
{
    if s.len() == 0 || s[0] == '.' {
    } else {
        lemma_first_dot_bounds(s.drop_first());
        assert forall|i: int| 0 <= i < first_dot(s) implies s[i] != '.' by {
            if i > 0 {
                assert(s[i] == s.drop_first()[i - 1]);
            }
        }
    }
}

/// The first `.` is where no earlier character is one.
pub proof fn lemma_first_dot_is(s: Seq<char>, p: int)
    requires
        0 <= p <= s.len(),
        forall|i: int| 0 <= i < p ==> s[i] != '.',
        p < s.len() ==> s[p] == '.',
    ensures
        first_dot(s) == p,
{
    lemma_first_dot_bounds(s);
    let q = first_dot(s);
    if q < p {
        assert(s[q] == '.');
    } else if q > p {
        assert(s[p] != '.');
    }
}

/// The value of a string of digits does not shrink when digits follow.
pub proof fn lemma_digits_value_prefix(s: Seq<char>, k: int)
    requires
        0 <= k <= s.len(),
    ensures
        digits_value(s.subrange(0, k)) <= digits_value(s),
    decreases s.len(),
{
    if k == s.len() {
        assert(s.subrange(0, k) == s);
    } else {
        lemma_digits_value_prefix(s.drop_last(), k);
        assert(s.drop_last().subrange(0, k) == s.subrange(0, k));
    }
}


/// Text with a character outside ASCII is no decimal literal.
proof fn lemma_non_ascii_denotes_nothing(s: Seq<char>)
    requires
        !vstd::utf8::is_ascii_chars(s),
    ensures
        literal_units(s) is None,
{
    let i = choose|i: int| 0 <= i < s.len() && !('\0' <= #[trigger] s[i] <= '\u{7f}');
    lemma_first_dot_bounds(s);
    let q = first_dot(s);
    if i < q {
        assert(whole_part(s)[i] == s[i]);
    } else {
        assert(fraction_part(s)[i - q - 1] == s[i]);
    }
}

/// Reading one more digit multiplies by ten and adds the digit.
proof fn lemma_digits_value_step(s: Seq<char>, from: int, to: int)
    requires
        0 <= from <= to < s.len(),
    ensures
        digits_value(s.subrange(from, to + 1)) == digits_value(s.subrange(from, to)) * 10
            + digit_value(s[to]),
{
    assert(s.subrange(from, to + 1).drop_last() == s.subrange(from, to));
}

/// The digits written for `n` read back as `n`.
pub proof fn lemma_digits_text_value(n: nat)
    ensures
        digits_text(n).len() >= 1,
        all_digits(digits_text(n)),
        digits_value(digits_text(n)) == n,
    decreases n,
{
    let last = digit_char(n % 10);
    assert(is_digit(last) && digit_value(last) == n % 10);
    if n < 10 {
        assert(digits_text(n).drop_last() == Seq::<char>::empty());
        assert(digits_value(Seq::<char>::empty()) == 0);
        assert(digits_text(n).last() == last);
    } else {
        lemma_digits_text_value(n / 10);
        assert(digits_text(n).drop_last() == digits_text(n / 10));
        assert(digits_text(n).last() == last);
    }
}

/// The `width` digits written for a number below ten to the `width` read
/// back as that number.
pub proof fn lemma_padded_text_value(n: nat, width: nat)
    requires
        n < pow10(width),
    ensures
        padded_text(n, width).len() == width,
        all_digits(padded_text(n, width)),
        digits_value(padded_text(n, width)) == n,
    decreases width,
{
    if width > 0 {
        lemma_padded_text_value(n / 10, (width - 1) as nat);
        assert(padded_text(n, width).drop_last() == padded_text(n / 10, (width - 1) as nat));
    }
}

/// Reading the text form of a decimal gives the decimal back.
pub proof fn lemma_text_round_trip(d: Decimal)
    ensures
        parsed_literal(decimal_text(d@)) == Some(d),
{
    let whole = d@ / (UNITS_PER_WHOLE as nat);
    let part = d@ % (UNITS_PER_WHOLE as nat);
    let a = digits_text(whole);
    let b = padded_text(part, 8);
    let t = decimal_text(d@);
    reveal_with_fuel(pow10, 9);
    lemma_digits_text_value(whole);
    lemma_padded_text_value(part, 8);
    assert(t.len() == a.len() + 1 + 8);
    assert forall|i: int| 0 <= i < a.len() implies t[i] != '.' by {
        assert(t[i] == a[i]);
    }
    assert(t[a.len() as int] == '.');
    lemma_first_dot_is(t, a.len() as int);
    assert(whole_part(t) == a);
    assert(fraction_part(t) == b);
    assert(fraction_units(b) == part) by {
        assert(b.len() == 8);
        assert(pow10((8 - b.len()) as nat) == 1);
        assert(digits_value(b) * 1 == part);
    }
    assert(literal_units(t) == Some(d@));
}

/// The one-character text of a digit.
fn digit_str(d: u64) -> (t: &'static str)
    requires
        d < 10,
    ensures
        t@ == seq![digit_char(d as nat)],
{
    proof {
        reveal_strlit("0");
        reveal_strlit("1");
        reveal_strlit("2");
        reveal_strlit("3");
        reveal_strlit("4");
        reveal_strlit("5");
        reveal_strlit("6");
        reveal_strlit("7");
        reveal_strlit("8");
        reveal_strlit("9");
    }
    let t = if d == 0 {
        "0"
    } else if d == 1 {
        "1"
    } else if d == 2 {
        "2"
    } else if d == 3 {
        "3"
    } else if d == 4 {
        "4"
    } else if d == 5 {
        "5"
    } else if d == 6 {
        "6"
    } else if d == 7 {
        "7"
    } else if d == 8 {
        "8"
    } else {
        "9"
    };
    assert(t@ =~= seq![digit_char(d as nat)]);
    t
}

/// Writes `n` in decimal digits, without leading zeros.
fn write_digits(n: u64) -> (t: String)
    ensures
        t@ == digits_text(n as nat),
    decreases n,
{
    if n < 10 {
        digit_str(n).to_owned()
    } else {
        let mut t = write_digits(n / 10);
        t.append(digit_str(n % 10));
        assert(t@ =~= digits_text(n as nat));
        t
    }
}

/// Writes the last `width` decimal digits of `n`, with leading zeros.
fn write_padded(n: u64, width: u8) -> (t: String)
    ensures
        t@ == padded_text(n as nat, width as nat),
    decreases width,
{
    if width == 0 {
        String::new()
    } else {
        let mut t = write_padded(n / 10, width - 1);
        t.append(digit_str(n % 10));
        assert(t@ =~= padded_text(n as nat, width as nat));
        t
    }
}

impl Decimal {
    /// The decimal made of `units` units.
    pub fn from_units(units: u64) -> (d: Decimal)
        ensures
            d.units == units,
    {
        Decimal { units }
    }

    /// Zero.
    pub fn zero() -> (d: Decimal)
        ensures
            d.units == 0,
    {
        Decimal { units: 0 }
    }

    /// Whether this is zero.
    pub fn is_zero(&self) -> (b: bool)
        ensures
            b == (self.units == 0),
    {
        self.units == 0
    }

    /// Strictly less than.
    pub fn lt(&self, other: &Decimal) -> (b: bool)
        ensures
            b == (self.units < other.units),
    {
        self.units < other.units
    }

    /// Less than or equal.
    pub fn le(&self, other: &Decimal) -> (b: bool)
        ensures
            b == (self.units <= other.units),
    {
        self.units <= other.units
    }

    /// The smaller of the two.
    pub fn min(self, other: Decimal) -> (m: Decimal)
        ensures
            m.units == if self.units <= other.units { self.units } else { other.units },
    {
        if self.units <= other.units {
            self
        } else {
            other
        }
    }

    /// `self - other` where `other` does not exceed `self`, otherwise `None`.
    pub fn checked_sub(self, other: Decimal) -> (r: Option<Decimal>)
        ensures
            r == if other.units <= self.units {
                Some(Decimal { units: (self.units - other.units) as u64 })
            } else {
                None
            },
    {
        if other.units <= self.units {
            Some(Decimal { units: self.units - other.units })
        } else {
            None
        }
    }

    /// The text form: the whole part, a `.`, and eight fractional digits.
    pub fn to_text(&self) -> (t: String)
        ensures
            t@ == decimal_text(self@),
    {
        let mut t = write_digits(self.units / UNITS_PER_WHOLE);
        t.append(".");
        let fraction = write_padded(self.units % UNITS_PER_WHOLE, 8);
        t.append(fraction.as_str());
        proof {
            reveal_strlit(".");
            assert("."@ =~= seq!['.']);
        }
        t
    }

    /// Reads a decimal literal: one or more digits, optionally followed by
    /// `.` and further digits, of which the first eight count. Returns
    /// `None` for any other text and for a number too large to hold.
    pub fn parse(text: &str) -> (r: Option<Decimal>)
        ensures
            r == parsed_literal(text@),
    {
        if !text.is_ascii() {
            proof {
                lemma_non_ascii_denotes_nothing(text@);
            }
            return None;
        }
        let bytes = text.as_bytes();
        let n = bytes.len();
        let ghost s = text@;
        proof {
            is_ascii_spec_bytes(text);
            lemma_first_dot_bounds(s);
        }
        let mut i: usize = 0;
        let mut whole: u64 = 0;
        while i < n && bytes[i] != 0x2e
            invariant
                s == text@,
                vstd::utf8::is_ascii_chars(s),
                n == s.len(),
                bytes@.len() == n,
                forall|j: int| 0 <= j < n ==> bytes@[j] == s[j] as u8,
                0 <= i <= n,
                forall|j: int| 0 <= j < i ==> is_digit(s[j]),
                whole as nat == digits_value(s.subrange(0, i as int)),
            decreases n - i,
        {
            let b = bytes[i];
            proof {
                lemma_first_dot_bounds(s);
                assert(s[i as int] != '.');
                if first_dot(s) <= i {
                    assert(s[first_dot(s)] == '.');
                }
                assert(first_dot(s) > i);
            }
            if b < 0x30 || b > 0x39 {
                proof {
                    assert(whole_part(s)[i as int] == s[i as int]);
                }
                return None;
            }
            let d = (b - 0x30) as u64;
            proof {
                lemma_digits_value_step(s, 0, i as int);
                assert(digit_value(s[i as int]) == d);
            }
            if whole > (u64::MAX - d) / 10 {
                proof {
                    lemma_digits_value_prefix(whole_part(s), i + 1);
                    assert(whole_part(s).subrange(0, i + 1) == s.subrange(0, i + 1));
                }
                return None;
            }
            whole = whole * 10 + d;
            i += 1;
        }
        proof {
            lemma_first_dot_is(s, i as int);
            assert(whole_part(s) == s.subrange(0, i as int));
        }
        if i == 0 {
            return None;
        }
        let dot = i;
        let ghost frac = fraction_part(s);
        let mut acc: u64 = 0;
        let mut scale: u64 = 100_000_000;
        let ghost mut kept: int = 0;
        proof {
            reveal_with_fuel(pow10, 9);
            assert(pow10(8) == 100_000_000);
        }
        if i < n {
            i += 1;
            while i < n
                invariant
                    s == text@,
                    vstd::utf8::is_ascii_chars(s),
                    n == s.len(),
                    bytes@.len() == n,
                    forall|j: int| 0 <= j < n ==> bytes@[j] == s[j] as u8,
                    dot < i <= n,
                    first_dot(s) == dot,
                    frac == fraction_part(s),
                    frac == s.subrange(dot + 1, n as int),
                    forall|j: int| 0 <= j < i - dot - 1 ==> is_digit(frac[j]),
                    0 <= kept <= 8,
                    kept == if i - dot - 1 <= 8 { i - dot - 1 } else { 8 },
                    acc as nat == digits_value(frac.subrange(0, kept)),
                    scale as nat == pow10((8 - kept) as nat),
                    scale >= 1,
                    (acc + 1) * scale <= 100_000_000,
                decreases n - i,
            {
                let b = bytes[i];
                assert(frac[i - dot - 1] == s[i as int]);
                if b < 0x30 || b > 0x39 {
                    return None;
                }
                let d = (b - 0x30) as u64;
                if scale > 1 {
                    proof {
                        assert(kept < 8) by {
                            if kept == 8 {
                                assert(pow10(0) == 1);
                            }
                        }
                        lemma_digits_value_step(frac, 0, kept);
                        assert(digit_value(frac[kept]) == d);
                        assert(pow10((8 - kept) as nat) == 10 * pow10((8 - kept - 1) as nat));
                        assert((acc * 10 + d + 1) * (scale / 10) <= (acc + 1) * scale) by (nonlinear_arith)
                            requires
                                d <= 9,
                                scale % 10 == 0,
                                scale >= 1,
                        ;
                        assert(acc + 1 <= (acc + 1) * scale) by (nonlinear_arith)
                            requires
                                scale >= 1,
                        ;
                    }
                    acc = acc * 10 + d;
                    scale = scale / 10;
                    proof {
                        kept = kept + 1;
                    }
                } else {
                    proof {
                        assert(kept == 8) by {
                            if kept < 8 {
                                assert(pow10((8 - kept) as nat) == 10 * pow10((8 - kept - 1) as nat));
                            }
                        }
                    }
                }
                i += 1;
            }
        } else {
            assert(frac.subrange(0, 0) == Seq::<char>::empty());
        }
        proof {
            let kept_digits = if frac.len() <= 8 {
                frac
            } else {
                frac.subrange(0, 8)
            };
            assert(kept_digits == frac.subrange(0, kept));
            assert(acc * scale < (acc + 1) * scale) by (nonlinear_arith)
                requires
                    scale >= 1,
            ;
        }
        assert(acc * scale == fraction_units(frac));
        let total: u128 = (whole as u128) * 100_000_000u128 + (acc as u128) * (scale as u128);
        if total > u64::MAX as u128 {
            None
        } else {
            Some(Decimal { units: total as u64 })
        }
    }
}

} // verus!

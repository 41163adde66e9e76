use vstd::prelude::*;

verus! {

/// Number of scaled units in one: a number holds its value in billionths.
pub const SCALE: i128 = 1_000_000_000;

/// A spreadsheet number, held exactly as a count of billionths. It holds
/// numbers up to about 1.7e29 in size and nine decimal places; digits
/// beyond the ninth decimal are not kept, so such numbers round and read as
/// text differently from a binary float.
#[derive(Clone, Copy, PartialEq, Eq, Structural, Debug)]
pub struct Number {
    pub scaled: i128,
}

/// The integer part of `x / SCALE`, rounded toward zero.
pub open spec fn trunc_units(x: int) -> int {
    if x >= 0 {
        x / (SCALE as int)
    } else {
        -((-x) / (SCALE as int))
    }
}

/// The largest integer not above `x / SCALE`.
pub open spec fn floor_units(x: int) -> int {
    x / (SCALE as int)
}

pub open spec fn clamp(x: int, lo: int, hi: int) -> int {
    if x < lo {
        lo
    } else if x > hi {
        hi
    } else {
        x
    }
}

/// The value of a number converted with a saturating cast to `i32`.
pub open spec fn spec_to_i32(n: Number) -> int {
    clamp(trunc_units(n.scaled as int), i32::MIN as int, i32::MAX as int)
}

/// The value of a number converted with a saturating cast to `usize`.
pub open spec fn spec_to_usize(n: Number) -> int {
    clamp(trunc_units(n.scaled as int), 0, usize::MAX as int)
}

/// The value of a floored number converted with a saturating cast to `i32`.
pub open spec fn spec_floor_i32(n: Number) -> int {
    clamp(floor_units(n.scaled as int), i32::MIN as int, i32::MAX as int)
}

/// The value of a floored number converted with a saturating cast to `i64`.
pub open spec fn spec_floor_i64(n: Number) -> int {
    clamp(floor_units(n.scaled as int), i64::MIN as int, i64::MAX as int)
}

/// The value of a floored number converted with a saturating cast to `usize`.
pub open spec fn spec_floor_usize(n: Number) -> int {
    clamp(floor_units(n.scaled as int), 0, usize::MAX as int)
}

/// The value of a floored number converted with a saturating cast to `u32`.
pub open spec fn spec_floor_u32(n: Number) -> int {
    clamp(floor_units(n.scaled as int), 0, u32::MAX as int)
}

/// `|x| / SCALE`, rounded down, computed without signed division.
fn abs_quotient(x: i128) -> (q: u128)
    ensures
        x >= 0 ==> q as int == (x as int) / (SCALE as int),
        x < 0 ==> q as int == (-(x as int)) / (SCALE as int),
{
    if x >= 0 {
        (x as u128) / (SCALE as u128)
    } else {
        let a: u128 = if x == i128::MIN {
            (i128::MAX as u128) + 1
        } else {
            (-x) as u128
        };
        a / (SCALE as u128)
    }
}

impl Number {
    /// The number with integer value `n`.
    pub fn from_int(n: i64) -> (r: Number)
        ensures
            r.scaled == n as int * SCALE as int,
    {
        Number { scaled: (n as i128) * SCALE }
    }

    /// The number with integer value `n`, a count.
    pub fn from_count(n: usize) -> (r: Number)
        ensures
            r.scaled == n as int * SCALE as int,
    {
        Number { scaled: (n as i128) * SCALE }
    }

    /// The number `units / 10^9`.
    pub fn from_scaled(units: i128) -> (r: Number)
        ensures
            r.scaled == units,
    {
        Number { scaled: units }
    }

    /// The number converted toward zero to `i32`, saturating at the bounds.
    pub fn to_i32(self) -> (r: i32)
        ensures
            r as int == spec_to_i32(self),
    {
        let q = abs_quotient(self.scaled);
        if self.scaled >= 0 {
            if q > (i32::MAX as u128) {
                i32::MAX
            } else {
                q as i32
            }
        } else {
            if q > 2147483648u128 {
                i32::MIN
            } else {
                (-(q as i64)) as i32
            }
        }
    }

    /// The number converted toward zero to `usize`; negative numbers give zero.
    pub fn to_usize(self) -> (r: usize)
        ensures
            r as int == spec_to_usize(self),
    {
        if self.scaled <= 0 {
            assert(trunc_units(self.scaled as int) <= 0);
            return 0;
        }
        let q = abs_quotient(self.scaled);
        if q > (usize::MAX as u128) {
            usize::MAX
        } else {
            q as usize
        }
    }

    /// The floor of the number as an `i128`.
    fn floor_i128(self) -> (r: i128)
        ensures
            r as int == floor_units(self.scaled as int),
    {
        if self.scaled >= 0 {
            return (self.scaled as u128 / SCALE as u128) as i128;
        }
        let a: u128 = if self.scaled == i128::MIN {
            (i128::MAX as u128) + 1
        } else {
            (-self.scaled) as u128
        };
        let q = a / (SCALE as u128);
        let rem = a % (SCALE as u128);
        let ghost x = self.scaled as int;
        assert(a as int == -x);
        assert(q as int * (SCALE as int) + rem as int == -x);
        if rem == 0 {
            assert(floor_units(x) == -(q as int)) by (nonlinear_arith)
                requires
                    q as int * (SCALE as int) == -x,
                    SCALE as int > 0,
            ;
            -(q as i128)
        } else {
            assert(floor_units(x) == -(q as int) - 1) by (nonlinear_arith)
                requires
                    q as int * (SCALE as int) + rem as int == -x,
                    0 < rem < SCALE as int,
                    SCALE as int > 0,
            ;
            -(q as i128) - 1
        }
    }

    /// The floor of the number converted to `i32`, saturating at the bounds.
    pub fn floor_i32(self) -> (r: i32)
        ensures
            r as int == spec_floor_i32(self),
    {
        let f = self.floor_i128();
        if f > i32::MAX as i128 {
            i32::MAX
        } else if f < i32::MIN as i128 {
            i32::MIN
        } else {
            f as i32
        }
    }

    /// The floor of the number converted to `i64`, saturating at the bounds.
    pub fn floor_i64(self) -> (r: i64)
        ensures
            r as int == spec_floor_i64(self),
    {
        let f = self.floor_i128();
        if f > i64::MAX as i128 {
            i64::MAX
        } else if f < i64::MIN as i128 {
            i64::MIN
        } else {
            f as i64
        }
    }

    /// The floor of the number converted to `usize`; negative numbers give zero.
    pub fn floor_usize(self) -> (r: usize)
        ensures
            r as int == spec_floor_usize(self),
    {
        let f = self.floor_i128();
        if f < 0 {
            0
        } else if f as u128 > usize::MAX as u128 {
            usize::MAX
        } else {
            f as usize
        }
    }

    /// The floor of the number converted to `u32`; negative numbers give zero.
    pub fn floor_u32(self) -> (r: u32)
        ensures
            r as int == spec_floor_u32(self),
    {
        let f = self.floor_i128();
        if f < 0 {
            0
        } else if f > u32::MAX as i128 {
            u32::MAX
        } else {
            f as u32
        }
    }
}

} // verus!

verus! {

/// The decimal digit character for `d` in `0..10`.
pub open spec fn digit_char(d: int) -> char {
    ((48 + d) as u8) as char
}

/// The decimal digits of `n`, without leading zeros ("0" for zero).
pub open spec fn digits(n: nat) -> Seq<char>
    decreases n,
{
    if n < 10 {
        seq![digit_char(n as int)]
    } else {
        digits(n / 10).push(digit_char((n % 10) as int))
    }
}

/// The last `w` decimal digits of `n`, padded with leading zeros.
pub open spec fn padded_digits(n: nat, w: nat) -> Seq<char>
    decreases w,
{
    if w == 0 {
        seq![]
    } else {
        padded_digits(n / 10, (w - 1) as nat).push(digit_char((n % 10) as int))
    }
}

/// `s` without its trailing '0' characters.
pub open spec fn strip_zeros(s: Seq<char>) -> Seq<char>
    decreases s.len(),
{
    if s.len() > 0 && s.last() == '0' {
        strip_zeros(s.drop_last())
    } else {
        s
    }
}

pub open spec fn abs_int(x: int) -> nat {
    if x < 0 {
        (-x) as nat
    } else {
        x as nat
    }
}

/// The shortest decimal text of a number, as a spreadsheet shows a
/// general number: an optional minus sign, the integer digits and, when
/// the number is not whole, a point and the fraction without trailing zeros.
pub open spec fn number_text(n: Number) -> Seq<char> {
    let a = abs_int(n.scaled as int);
    let ip = a / (SCALE as nat);
    let fp = a % (SCALE as nat);
    let sign = if n.scaled < 0 {
        seq!['-']
    } else {
        seq![]
    };
    let frac = if fp == 0 {
        seq![]
    } else {
        seq!['.'] + strip_zeros(padded_digits(fp, 9))
    };
    sign + digits(ip) + frac
}

fn digit(d: u128) -> (c: char)
    requires
        d < 10,
    ensures
        c == digit_char(d as int),
{
    ((48u8 + d as u8) as char)
}

fn push_digits(n: u128, out: &mut Vec<char>)
    ensures
        final(out)@ == old(out)@ + digits(n as nat),
    decreases n,
{
    if n < 10 {
        out.push(digit(n));
    } else {
        push_digits(n / 10, out);
        out.push(digit(n % 10));
    }
}

fn push_padded(n: u128, w: u32, out: &mut Vec<char>)
    ensures
        final(out)@ == old(out)@ + padded_digits(n as nat, w as nat),
    decreases w,
{
    if w > 0 {
        push_padded(n / 10, w - 1, out);
        out.push(digit(n % 10));
    }
}

fn pop_zeros(v: &mut Vec<char>, keep: usize)
    requires
        keep <= old(v)@.len(),
    ensures
        final(v)@ == old(v)@.take(keep as int) + strip_zeros(old(v)@.skip(keep as int)),
{
    let ghost orig = v@;
    while v.len() > keep && v[v.len() - 1] == '0'
        invariant
            keep <= v@.len() <= orig.len(),
            v@ == orig.take(v@.len() as int),
            strip_zeros(orig.skip(keep as int)) == strip_zeros(v@.skip(keep as int)),
        decreases v.len(),
    {
        let ghost before = v@;
        v.pop();
        assert(before.skip(keep as int).drop_last() == v@.skip(keep as int));
        assert(v@ == orig.take(v@.len() as int));
    }
    assert(v@ == orig.take(keep as int) + v@.skip(keep as int));
}

impl Number {
    /// The number as text, as `format!("{}")` shows a general number.
    pub fn to_text(self) -> (r: String)
        ensures
            r@ == number_text(self),
    {
        let out = self.to_chars();
        crate::strings::string_of(&out)
    }

    /// The characters of the number's text.
    pub fn to_chars(self) -> (out: Vec<char>)
        ensures
            out@ == number_text(self),
    {
        let a: u128 = if self.scaled == i128::MIN {
            (i128::MAX as u128) + 1
        } else if self.scaled < 0 {
            (-self.scaled) as u128
        } else {
            self.scaled as u128
        };
        assert(a as int == abs_int(self.scaled as int));
        let ip = a / (SCALE as u128);
        let fp = a % (SCALE as u128);
        let mut out: Vec<char> = Vec::new();
        if self.scaled < 0 {
            out.push('-');
        }
        push_digits(ip, &mut out);
        let ghost sign: Seq<char> = if self.scaled < 0 {
            seq!['-']
        } else {
            seq![]
        };
        assert(out@ == sign + digits(ip as nat));
        if fp != 0 {
            out.push('.');
            let keep = out.len();
            let ghost pre = out@;
            push_padded(fp, 9, &mut out);
            let ghost mid = out@;
            assert(mid.take(keep as int) == pre);
            assert(mid.skip(keep as int) == padded_digits(fp as nat, 9));
            pop_zeros(&mut out, keep);
            assert(out@ == sign + digits(ip as nat) + (seq!['.'] + strip_zeros(
                padded_digits(fp as nat, 9),
            )));
        } else {
            assert(out@ == sign + digits(ip as nat) + Seq::<char>::empty());
        }
        out
    }
}

} // verus!

//! Unsigned integer numerals: parsing as `from_str_radix` does for unsigned
//! types, and the messages of its errors.
use vstd::prelude::*;
use vstd::string::StringExecFns;
use crate::text::{decimal, digit_char, lemma_decimal_digits};

verus! {

/// Why a numeral was refused (the kinds of `std::num::ParseIntError` that
/// unsigned parsing produces).
#[derive(Clone, Copy, Debug, PartialEq, Eq, Structural)]
pub enum IntErrorKind {
    /// The text is empty.
    Empty,
    /// A character is not a digit of the radix, or a sign stands alone.
    InvalidDigit,
    /// The value does not fit in the target type.
    PosOverflow,
}

/// The value of `c` as a digit of `radix` (`char::to_digit`).
pub open spec fn digit_value(c: char, radix: nat) -> Option<nat> {
    let u = c as u32;
    let v: int = if 0x30 <= u <= 0x39 {
        u - 0x30
    } else if 0x61 <= u <= 0x7a {
        u - 0x61 + 10
    } else if 0x41 <= u <= 0x5a {
        u - 0x41 + 10
    } else {
        radix as int
    };
    if v < radix {
        Some(v as nat)
    } else {
        None
    }
}

/// Reads the digits `d` left to right onto `acc`: the first character that
/// is no digit gives `InvalidDigit`, and the first step whose value exceeds
/// `max` gives `PosOverflow`.
pub open spec fn accumulate(d: Seq<char>, radix: nat, max: nat, acc: nat) -> Result<
    nat,
    IntErrorKind,
>
    decreases d.len(),
{
    if d.len() == 0 {
        Ok(acc)
    } else {
        match digit_value(d[0], radix) {
            None => Err(IntErrorKind::InvalidDigit),
            Some(x) => if acc * radix + x > max {
                Err(IntErrorKind::PosOverflow)
            } else {
                accumulate(d.drop_first(), radix, max, acc * radix + x)
            },
        }
    }
}

/// `from_str_radix` for an unsigned type whose largest value is `max`: an
/// optional `+`, then digits of the radix.
pub open spec fn parse_unsigned(s: Seq<char>, radix: nat, max: nat) -> Result<nat, IntErrorKind> {
    if s.len() == 0 {
        Err(IntErrorKind::Empty)
    } else if s.len() == 1 && (s[0] == '+' || s[0] == '-') {
        Err(IntErrorKind::InvalidDigit)
    } else if s[0] == '+' {
        accumulate(s.drop_first(), radix, max, 0)
    } else {
        accumulate(s, radix, max, 0)
    }
}

/// Reading one more digit at the end continues from the value of the digits
/// before it.
pub proof fn lemma_accumulate_push(d: Seq<char>, c: char, radix: nat, max: nat, acc: nat)
    ensures
        accumulate(d.push(c), radix, max, acc) == match accumulate(d, radix, max, acc) {
            Ok(v) => accumulate(seq![c], radix, max, v),
            Err(e) => Err(e),
        },
    decreases d.len(),
{
    if d.len() == 0 {
        assert(d.push(c) =~= seq![c]);
    } else {
        assert(d.push(c).drop_first() =~= d.drop_first().push(c));
        match digit_value(d[0], radix) {
            None => {},
            Some(x) => {
                if acc * radix + x <= max {
                    lemma_accumulate_push(d.drop_first(), c, radix, max, acc * radix + x);
                }
            },
        }
    }
}

/// Law: the decimal numeral of a value that fits is read back as that
/// value (`n.to_string().parse() == Ok(n)`).
pub proof fn law_decimal_round_trip(n: nat, max: nat)
    requires
        n <= max,
    ensures
        parse_unsigned(decimal(n), 10, max) == Ok::<nat, IntErrorKind>(n),
{
    lemma_decimal_digits(n);
    lemma_accumulate_decimal(n, max);
    let d = decimal(n);
    assert(d[0] != '+' && d[0] != '-');
}

/// `16` to the power `n`.
pub open spec fn pow16(n: nat) -> nat
    decreases n,
{
    if n == 0 {
        1
    } else {
        16 * pow16((n - 1) as nat)
    }
}

/// The upper-case hexadecimal digit for `d < 16`.
pub open spec fn hex_digit_char(d: nat) -> char {
    if d < 10 {
        ((48 + d) as u8) as char
    } else {
        ((55 + d) as u8) as char
    }
}

/// The last `n` hexadecimal digits of `x`, upper case, with leading zeros
/// (`format!("{:0n$X}", x)` for `x < 16^n`).
pub open spec fn hex_digits(x: nat, n: nat) -> Seq<char>
    decreases n,
{
    if n == 0 {
        seq![]
    } else {
        hex_digits(x / 16, (n - 1) as nat).push(hex_digit_char(x % 16))
    }
}

/// Reading the digits of `hex_digits(x, n)` gives `x` when it has at most
/// `n` digits and fits.
proof fn lemma_accumulate_hex(x: nat, n: nat, max: nat)
    requires
        x < pow16(n),
        x <= max,
    ensures
        accumulate(hex_digits(x, n), 16, max, 0) == Ok::<nat, IntErrorKind>(x),
    decreases n,
{
    if n == 0 {
        assert(x == 0);
    } else {
        let c = hex_digit_char(x % 16);
        assert(digit_value(c, 16) == Some((x % 16) as nat));
        assert(x / 16 < pow16((n - 1) as nat)) by (nonlinear_arith)
            requires
                x < 16 * pow16((n - 1) as nat),
        ;
        assert(x / 16 <= x);
        lemma_accumulate_hex(x / 16, (n - 1) as nat, max);
        lemma_accumulate_push(hex_digits(x / 16, (n - 1) as nat), c, 16, max, 0);
        let one = seq![c];
        assert(one[0] == c);
        assert(one.drop_first() =~= Seq::<char>::empty());
        assert((x / 16) * 16 + x % 16 == x);
        assert(accumulate(one.drop_first(), 16, max, x) == Ok::<nat, IntErrorKind>(x));
        assert(accumulate(one, 16, max, x / 16) == Ok::<nat, IntErrorKind>(x));
    }
}

/// Law: a 32-bit word written as eight upper-case hexadecimal digits (as
/// the kernel writes the routing table) is read back as that word.
pub proof fn law_hex_word_round_trip(x: u32)
    ensures
        parse_unsigned(hex_digits(x as nat, 8), 16, u32::MAX as nat) == Ok::<nat, IntErrorKind>(
            x as nat,
        ),
{
    assert(pow16(8) == 0x1_0000_0000) by {
        reveal_with_fuel(pow16, 9);
    }
    lemma_accumulate_hex(x as nat, 8, u32::MAX as nat);
    lemma_hex_digits_are_digits(x as nat, 8);
    let h = hex_digits(x as nat, 8);
    assert(digit_value(h[0], 16) is Some);
}

/// Every character of `hex_digits(x, n)` is a hexadecimal digit.
pub proof fn lemma_hex_digits_are_digits(x: nat, n: nat)
    ensures
        hex_digits(x, n).len() == n,
        forall|i: int| 0 <= i < n ==> digit_value(#[trigger] hex_digits(x, n)[i], 16) is Some,
    decreases n,
{
    if n > 0 {
        lemma_hex_digits_are_digits(x / 16, (n - 1) as nat);
        assert(digit_value(hex_digit_char(x % 16), 16) is Some);
    }
}

/// Reading the digits of `decimal(n)` gives `n` when `n` fits.
proof fn lemma_accumulate_decimal(n: nat, max: nat)
    requires
        n <= max,
    ensures
        accumulate(decimal(n), 10, max, 0) == Ok::<nat, IntErrorKind>(n),
    decreases n,
{
    let c = digit_char(n % 10);
    assert(digit_value(c, 10) == Some((n % 10) as nat));
    let one = seq![c];
    assert(one[0] == c);
    assert(one.drop_first() =~= Seq::<char>::empty());
    if n < 10 {
        assert(decimal(n) =~= one);
        assert(accumulate(one.drop_first(), 10, max, n) == Ok::<nat, IntErrorKind>(n));
        assert(accumulate(one, 10, max, 0) == Ok::<nat, IntErrorKind>(n));
    } else {
        lemma_accumulate_decimal(n / 10, max);
        lemma_accumulate_push(decimal(n / 10), c, 10, max, 0);
        assert((n / 10) * 10 + n % 10 == n);
        assert(accumulate(one.drop_first(), 10, max, n) == Ok::<nat, IntErrorKind>(n));
        assert(accumulate(one, 10, max, n / 10) == Ok::<nat, IntErrorKind>(n));
    }
}

/// The value of `c` as a digit of `radix`.
fn to_digit(c: char, radix: u64) -> (r: Option<u64>)
    requires
        2 <= radix <= 36,
    ensures
        match r {
            Some(x) => digit_value(c, radix as nat) == Some(x as nat),
            None => digit_value(c, radix as nat) is None,
        },
{
    let u = c as u32;
    let v: u64 = if 0x30 <= u && u <= 0x39 {
        (u - 0x30) as u64
    } else if 0x61 <= u && u <= 0x7a {
        (u - 0x61 + 10) as u64
    } else if 0x41 <= u && u <= 0x5a {
        (u - 0x41 + 10) as u64
    } else {
        radix
    };
    if v < radix {
        Some(v)
    } else {
        None
    }
}

/// Parses `s` as an unsigned numeral of `radix` whose value may not exceed
/// `max`, as `from_str_radix` does.
pub fn parse_unsigned_chars(s: &Vec<char>, radix: u64, max: u64) -> (r: Result<u64, IntErrorKind>)
    requires
        2 <= radix <= 36,
    ensures
        match r {
            Ok(v) => parse_unsigned(s@, radix as nat, max as nat) == Ok::<nat, IntErrorKind>(
                v as nat,
            ),
            Err(e) => parse_unsigned(s@, radix as nat, max as nat) == Err::<nat, IntErrorKind>(e),
        },
        r matches Ok(v) ==> v <= max,
{
    if s.len() == 0 {
        return Err(IntErrorKind::Empty);
    }
    if s.len() == 1 && (s[0] == '+' || s[0] == '-') {
        return Err(IntErrorKind::InvalidDigit);
    }
    let start: usize = if s[0] == '+' {
        1
    } else {
        0
    };
    let ghost d = s@.skip(start as int);
    assert(start == 1 ==> d =~= s@.drop_first());
    assert(start == 0 ==> d =~= s@);
    assert(parse_unsigned(s@, radix as nat, max as nat) == accumulate(d, radix as nat, max as nat, 0));
    let mut acc: u64 = 0;
    let mut i: usize = start;
    while i < s.len()
        invariant
            start <= i <= s.len(),
            d == s@.skip(start as int),
            parse_unsigned(s@, radix as nat, max as nat) == accumulate(d, radix as nat, max as nat, 0),
            acc <= max,
            accumulate(s@.skip(i as int), radix as nat, max as nat, acc as nat) == accumulate(
                d,
                radix as nat,
                max as nat,
                0,
            ),
            2 <= radix <= 36,
        decreases s.len() - i,
    {
        assert(s@.skip(i as int).drop_first() =~= s@.skip(i + 1));
        assert(s@.skip(i as int)[0] == s@[i as int]);
        match to_digit(s[i], radix) {
            None => {
                return Err(IntErrorKind::InvalidDigit);
            },
            Some(x) => {
                match acc.checked_mul(radix) {
                    None => {
                        assert(acc * radix + x > max) by (nonlinear_arith)
                            requires
                                acc * radix > u64::MAX,
                                max <= u64::MAX,
                        ;
                        return Err(IntErrorKind::PosOverflow);
                    },
                    Some(m) => {
                        match m.checked_add(x) {
                            None => {
                                return Err(IntErrorKind::PosOverflow);
                            },
                            Some(v) => {
                                if v > max {
                                    return Err(IntErrorKind::PosOverflow);
                                }
                                acc = v;
                            },
                        }
                    },
                }
            },
        }
        i += 1;
    }
    assert(s@.skip(i as int).len() == 0);
    Ok(acc)
}

/// The text of `ParseIntError`'s `Display` for each kind.
pub open spec fn int_error_message(k: IntErrorKind) -> Seq<char> {
    match k {
        IntErrorKind::Empty => "cannot parse integer from empty string"@,
        IntErrorKind::InvalidDigit => "invalid digit found in string"@,
        IntErrorKind::PosOverflow => "number too large to fit in target type"@,
    }
}

impl IntErrorKind {
    /// The text that `ParseIntError`'s `Display` gives for this kind.
    pub fn message(&self) -> (r: String)
        ensures
            r@ == int_error_message(*self),
    {
        match self {
            IntErrorKind::Empty => String::from_str("cannot parse integer from empty string"),
            IntErrorKind::InvalidDigit => String::from_str("invalid digit found in string"),
            IntErrorKind::PosOverflow => String::from_str("number too large to fit in target type"),
        }
    }
}

} // verus!

//! Scalar coercion: parsing typed scalar values from markup attribute text.
//!
//! Every type that can sit in a markup attribute implements [`FromXmlStr`],
//! which gives it a text grammar (a spec function from the attribute text to
//! an optional value) and a verified parser for that grammar.

use vstd::prelude::*;

verus! {

/// Error from parsing a scalar value out of markup attribute text.
#[derive(Debug, Clone)]
pub enum ScalarError {
    /// The text held no digits at all.
    Empty,
    /// The text held a character outside the numeric grammar.
    InvalidDigit,
    /// The digits denote a value above the target type's maximum.
    PosOverflow,
    /// The digits denote a value below the target type's minimum.
    NegOverflow,
    /// The text is not exactly one character.
    NotOneChar,
    /// The text is not a boolean token; carries the offending text.
    NotBool(String),
    /// A discriminant outside the enumeration's range; carries the code.
    BadDiscriminant(u8),
}

/// A decimal digit.
pub open spec fn is_digit(c: char) -> bool {
    '0' <= c && c <= '9'
}

/// The numeric value of one decimal digit.
pub open spec fn digit_val(c: char) -> nat {
    (c as int - '0' as int) as nat
}

/// Every character of `s` is a decimal digit.
pub open spec fn is_digits(s: Seq<char>) -> bool {
    forall|i: int| 0 <= i < s.len() ==> is_digit(#[trigger] s[i])
}

/// The value of a digit string read as a base-10 numeral.
pub open spec fn digits_val(s: Seq<char>) -> nat
    decreases s.len(),
{
    if s.len() == 0 {
        0
    } else {
        digits_val(s.drop_last()) * 10 + digit_val(s.last())
    }
}

/// The text with one leading `'+'` removed, if present: the sign the
/// unsigned decimal grammar tolerates.
pub open spec fn strip_plus(s: Seq<char>) -> Seq<char> {
    if s.len() > 0 && s[0] == '+' {
        s.subrange(1, s.len() as int)
    } else {
        s
    }
}

/// The unsigned decimal grammar: an optional `'+'`, then one or more digits.
pub open spec fn unsigned_grammar_ok(s: Seq<char>) -> bool {
    strip_plus(s).len() > 0 && is_digits(strip_plus(s))
}

/// The numeric value of text in the unsigned decimal grammar.
pub open spec fn unsigned_val(s: Seq<char>) -> nat {
    digits_val(strip_plus(s))
}

/// Text `s` parses as an unsigned integer bounded by `max`.
pub open spec fn unsigned_accepts(s: Seq<char>, max: nat) -> bool {
    unsigned_grammar_ok(s) && unsigned_val(s) <= max
}

/// Exactly which error an unsigned parse bounded by `max` reports on `s`:
/// syntax is judged first (empty, then any non-digit), range last.
pub open spec fn unsigned_error(s: Seq<char>, max: nat, e: ScalarError) -> bool {
    match e {
        ScalarError::Empty => strip_plus(s).len() == 0,
        ScalarError::InvalidDigit => strip_plus(s).len() > 0 && !is_digits(strip_plus(s)),
        ScalarError::PosOverflow => unsigned_grammar_ok(s) && unsigned_val(s) > max,
        _ => false,
    }
}

/// A longer digit string never denotes a smaller value: the value of a
/// prefix is a lower bound for the value of the whole.
proof fn lemma_digits_val_prefix_le(s: Seq<char>, i: int)
    requires
        0 <= i <= s.len(),
    ensures
        digits_val(s.take(i)) <= digits_val(s),
    decreases s.len() - i,
{
    if i == s.len() {
        assert(s.take(i) =~= s);
    } else {
        assert(s.take(i + 1).drop_last() =~= s.take(i));
        assert(digits_val(s.take(i + 1)) == digits_val(s.take(i)) * 10 + digit_val(s.take(i + 1).last()));
        lemma_digits_val_prefix_le(s, i + 1);
    }
}

/// The overflow test used while accumulating digits: for a digit `d` below
/// ten that does not itself exceed the bound, `acc > (bound - d) / 10`
/// decides `acc * 10 + d > bound` exactly.
proof fn lemma_mul10_overflow(acc: nat, d: nat, bound: nat)
    requires
        d <= bound,
        d < 10,
    ensures
        (acc > (bound - d) / 10) <==> (acc * 10 + d > bound),
{
    let q = (bound - d) / 10;
    let r = (bound - d) % 10;
    vstd::arithmetic::div_mod::lemma_fundamental_div_mod((bound - d) as int, 10);
    vstd::arithmetic::div_mod::lemma_mod_bound((bound - d) as int, 10);
    if acc > q {
        assert(acc * 10 >= (q + 1) * 10);
    } else {
        assert(acc * 10 <= q * 10);
    }
}

/// Parse the unsigned decimal grammar, rejecting values above `max`.
///
/// The contract is exact: the cases of the result are mutually exclusive,
/// so the outcome (value and error variant alike) is pinned for every input.
pub fn parse_unsigned(s: &str, max: u128) -> (r: Result<u128, ScalarError>)
    ensures
        match r {
            Ok(v) => unsigned_accepts(s@, max as nat) && v == unsigned_val(s@),
            Err(e) => unsigned_error(s@, max as nat, e),
        },
{
    let n = s.unicode_len();
    let start: usize = if n > 0 && s.get_char(0) == '+' {
        1
    } else {
        0
    };
    proof {
        assert(strip_plus(s@) =~= s@.subrange(start as int, n as int));
    }
    if start == n {
        return Err(ScalarError::Empty);
    }
    let mut i: usize = start;
    while i < n
        invariant
            start <= i <= n,
            n == s@.len(),
            strip_plus(s@) =~= s@.subrange(start as int, n as int),
            forall|j: int| start <= j < i ==> is_digit(#[trigger] s@[j]),
        decreases n - i,
    {
        let c = s.get_char(i);
        if (c as u32) < ('0' as u32) || (c as u32) > ('9' as u32) {
            proof {
                assert(!is_digit(s@[i as int]));
                assert(strip_plus(s@)[i - start] == s@[i as int]);
                assert(!is_digits(strip_plus(s@)));
            }
            return Err(ScalarError::InvalidDigit);
        }
        i += 1;
    }
    proof {
        assert forall|j: int| 0 <= j < strip_plus(s@).len() implies is_digit(
            #[trigger] strip_plus(s@)[j],
        ) by {
            assert(strip_plus(s@)[j] == s@[j + start]);
        }
        assert(is_digits(strip_plus(s@)));
    }
    let mut acc: u128 = 0;
    let mut i: usize = start;
    while i < n
        invariant
            start <= i <= n,
            n == s@.len(),
            strip_plus(s@) =~= s@.subrange(start as int, n as int),
            is_digits(strip_plus(s@)),
            unsigned_grammar_ok(s@),
            forall|j: int| start <= j < n ==> is_digit(#[trigger] s@[j]),
            acc == digits_val(s@.subrange(start as int, i as int)),
            acc <= max,
        decreases n - i,
    {
        let c = s.get_char(i);
        let d: u128 = (c as u32 - '0' as u32) as u128;
        proof {
            assert(is_digit(s@[i as int]));
            assert(d == digit_val(s@[i as int]));
            assert(s@.subrange(start as int, i + 1).drop_last() =~= s@.subrange(
                start as int,
                i as int,
            ));
            assert(s@.subrange(start as int, i + 1).last() == s@[i as int]);
            assert(digits_val(s@.subrange(start as int, i + 1)) == acc * 10 + d);
            if d <= max {
                lemma_mul10_overflow(acc as nat, d as nat, max as nat);
            }
        }
        if d > max || acc > (max - d) / 10 {
            proof {
                assert(acc * 10 + d > max);
                assert(digits_val(s@.subrange(start as int, i + 1)) > max);
                assert(strip_plus(s@).take(i + 1 - start) =~= s@.subrange(start as int, i + 1));
                lemma_digits_val_prefix_le(strip_plus(s@), i + 1 - start);
                assert(unsigned_val(s@) > max as nat);
            }
            return Err(ScalarError::PosOverflow);
        }
        proof {
            assert(acc * 10 + d <= max);
        }
        acc = acc * 10 + d;
        i += 1;
    }
    proof {
        assert(s@.subrange(start as int, n as int) =~= strip_plus(s@));
    }
    Ok(acc)
}

/// The text with one leading `'+'` or `'-'` removed, if present: the signs
/// the signed decimal grammar tolerates.
pub open spec fn signed_strip(s: Seq<char>) -> Seq<char> {
    if s.len() > 0 && (s[0] == '+' || s[0] == '-') {
        s.subrange(1, s.len() as int)
    } else {
        s
    }
}

/// The text denotes a negative number.
pub open spec fn signed_neg(s: Seq<char>) -> bool {
    s.len() > 0 && s[0] == '-'
}

/// The signed decimal grammar: an optional sign, then one or more digits.
pub open spec fn signed_grammar_ok(s: Seq<char>) -> bool {
    signed_strip(s).len() > 0 && is_digits(signed_strip(s))
}

/// The numeric value of text in the signed decimal grammar.
pub open spec fn signed_val(s: Seq<char>) -> int {
    if signed_neg(s) {
        -(digits_val(signed_strip(s)) as int)
    } else {
        digits_val(signed_strip(s)) as int
    }
}

/// Text `s` parses as a signed integer within `min..=max`.
pub open spec fn signed_accepts(s: Seq<char>, min: int, max: int) -> bool {
    signed_grammar_ok(s) && min <= signed_val(s) <= max
}

/// Exactly which error a signed parse bounded by `min..=max` reports on
/// `s`: syntax is judged first, range last, by the sign of the excess.
pub open spec fn signed_error(s: Seq<char>, min: int, max: int, e: ScalarError) -> bool {
    match e {
        ScalarError::Empty => signed_strip(s).len() == 0,
        ScalarError::InvalidDigit => signed_strip(s).len() > 0 && !is_digits(signed_strip(s)),
        ScalarError::PosOverflow => signed_grammar_ok(s) && signed_val(s) > max,
        ScalarError::NegOverflow => signed_grammar_ok(s) && signed_val(s) < min,
        _ => false,
    }
}

/// Parse the signed decimal grammar, rejecting values outside `min..=max`.
///
/// The contract is exact, as for `parse_unsigned`.
pub fn parse_signed(s: &str, min: i128, max: i128) -> (r: Result<i128, ScalarError>)
    requires
        min < 0 <= max,
    ensures
        match r {
            Ok(v) => signed_accepts(s@, min as int, max as int) && v == signed_val(s@),
            Err(e) => signed_error(s@, min as int, max as int, e),
        },
{
    let n = s.unicode_len();
    let mut neg = false;
    let start: usize = if n > 0 && s.get_char(0) == '+' {
        1
    } else if n > 0 && s.get_char(0) == '-' {
        neg = true;
        1
    } else {
        0
    };
    proof {
        assert(signed_strip(s@) =~= s@.subrange(start as int, n as int));
        assert(neg == signed_neg(s@));
    }
    if start == n {
        return Err(ScalarError::Empty);
    }
    let mut i: usize = start;
    while i < n
        invariant
            start <= i <= n,
            n == s@.len(),
            signed_strip(s@) =~= s@.subrange(start as int, n as int),
            forall|j: int| start <= j < i ==> is_digit(#[trigger] s@[j]),
        decreases n - i,
    {
        let c = s.get_char(i);
        if (c as u32) < ('0' as u32) || (c as u32) > ('9' as u32) {
            proof {
                assert(!is_digit(s@[i as int]));
                assert(signed_strip(s@)[i - start] == s@[i as int]);
                assert(!is_digits(signed_strip(s@)));
            }
            return Err(ScalarError::InvalidDigit);
        }
        i += 1;
    }
    proof {
        assert forall|j: int| 0 <= j < signed_strip(s@).len() implies is_digit(
            #[trigger] signed_strip(s@)[j],
        ) by {
            assert(signed_strip(s@)[j] == s@[j + start]);
        }
        assert(is_digits(signed_strip(s@)));
    }
    // The magnitude bound on the accepted side of zero; `min` is negated
    // around the increment so that the extreme value stays in range.
    let bound: u128 = if neg {
        (-(min + 1)) as u128 + 1
    } else {
        max as u128
    };
    let mut acc: u128 = 0;
    let mut i: usize = start;
    while i < n
        invariant
            start <= i <= n,
            n == s@.len(),
            neg == signed_neg(s@),
            neg ==> bound == -(min as int),
            !neg ==> bound == max as u128,
            signed_strip(s@) =~= s@.subrange(start as int, n as int),
            is_digits(signed_strip(s@)),
            signed_grammar_ok(s@),
            forall|j: int| start <= j < n ==> is_digit(#[trigger] s@[j]),
            acc == digits_val(s@.subrange(start as int, i as int)),
            acc <= bound,
        decreases n - i,
    {
        let c = s.get_char(i);
        let d: u128 = (c as u32 - '0' as u32) as u128;
        proof {
            assert(is_digit(s@[i as int]));
            assert(d == digit_val(s@[i as int]));
            assert(s@.subrange(start as int, i + 1).drop_last() =~= s@.subrange(
                start as int,
                i as int,
            ));
            assert(s@.subrange(start as int, i + 1).last() == s@[i as int]);
            assert(digits_val(s@.subrange(start as int, i + 1)) == acc * 10 + d);
            if d <= bound {
                lemma_mul10_overflow(acc as nat, d as nat, bound as nat);
            }
        }
        if d > bound || acc > (bound - d) / 10 {
            proof {
                assert(acc * 10 + d > bound);
                assert(digits_val(s@.subrange(start as int, i + 1)) > bound);
                assert(signed_strip(s@).take(i + 1 - start) =~= s@.subrange(start as int, i + 1));
                lemma_digits_val_prefix_le(signed_strip(s@), i + 1 - start);
                assert(digits_val(signed_strip(s@)) > bound);
            }
            if neg {
                return Err(ScalarError::NegOverflow);
            } else {
                return Err(ScalarError::PosOverflow);
            }
        }
        proof {
            assert(acc * 10 + d <= bound);
        }
        acc = acc * 10 + d;
        i += 1;
    }
    proof {
        assert(s@.subrange(start as int, n as int) =~= signed_strip(s@));
        assert(acc == digits_val(signed_strip(s@)));
    }
    if neg {
        if acc >= 0x8000_0000_0000_0000_0000_0000_0000_0000u128 {
            proof {
                assert(acc == 0x8000_0000_0000_0000_0000_0000_0000_0000u128);
                assert(signed_val(s@) == i128::MIN);
            }
            Ok(i128::MIN)
        } else {
            Ok(-(acc as i128))
        }
    } else {
        Ok(acc as i128)
    }
}

/// The digit character for a value below ten.
pub open spec fn dec_digit(n: nat) -> char {
    if n == 0 {
        '0'
    } else if n == 1 {
        '1'
    } else if n == 2 {
        '2'
    } else if n == 3 {
        '3'
    } else if n == 4 {
        '4'
    } else if n == 5 {
        '5'
    } else if n == 6 {
        '6'
    } else if n == 7 {
        '7'
    } else if n == 8 {
        '8'
    } else {
        '9'
    }
}

/// The canonical decimal rendering of a number: no sign, no leading zeros.
pub open spec fn dec_of(n: nat) -> Seq<char>
    decreases n,
{
    if n < 10 {
        seq![dec_digit(n)]
    } else {
        dec_of(n / 10) + seq![dec_digit(n % 10)]
    }
}

/// The canonical decimal rendering is nonempty, all digits, and reads back
/// as the number it renders.
pub proof fn lemma_dec_of(n: nat)
    ensures
        dec_of(n).len() >= 1,
        is_digits(dec_of(n)),
        digits_val(dec_of(n)) == n,
    decreases n,
{
    if n < 10 {
        assert(dec_of(n) =~= seq![dec_digit(n)]);
        assert(dec_of(n).drop_last() =~= Seq::<char>::empty());
        assert(digits_val(Seq::<char>::empty()) == 0);
        assert(digits_val(dec_of(n)) == digits_val(dec_of(n).drop_last()) * 10 + digit_val(
            dec_of(n).last(),
        ));
    } else {
        lemma_dec_of(n / 10);
        assert(dec_of(n) =~= dec_of(n / 10) + seq![dec_digit(n % 10)]);
        assert(dec_of(n).drop_last() =~= dec_of(n / 10));
        assert(dec_of(n).last() == dec_digit(n % 10));
        assert(digits_val(dec_of(n)) == digits_val(dec_of(n / 10)) * 10 + digit_val(
            dec_digit(n % 10),
        ));
        assert(digit_val(dec_digit(n % 10)) == n % 10);
        assert((n / 10) * 10 + n % 10 == n) by {
            vstd::arithmetic::div_mod::lemma_fundamental_div_mod(n as int, 10);
        }
        assert forall|i: int| 0 <= i < dec_of(n).len() implies is_digit(#[trigger] dec_of(n)[i]) by {
            if i < dec_of(n / 10).len() {
                assert(dec_of(n)[i] == dec_of(n / 10)[i]);
            } else {
                assert(dec_of(n)[i] == dec_digit(n % 10));
            }
        }
    }
}

/// The digit character of one value below ten, as a one-character string.
fn digit_str(d: u8) -> (r: &'static str)
    requires
        d < 10,
    ensures
        r@ =~= seq![dec_digit(d as nat)],
{
    proof {
        reveal_strlit("0");
        reveal_strlit("1");
        reveal_strlit("2");
        reveal_strlit("3");
        reveal_strlit("4");
        reveal_strlit("5");
        reveal_strlit("6");
        reveal_strlit("7");
        reveal_strlit("8");
        reveal_strlit("9");
    }
    match d {
        0 => "0",
        1 => "1",
        2 => "2",
        3 => "3",
        4 => "4",
        5 => "5",
        6 => "6",
        7 => "7",
        8 => "8",
        _ => "9",
    }
}

/// Render an unsigned byte in its canonical decimal form.
pub fn u8_to_dec(n: u8) -> (r: String)
    ensures
        r@ == dec_of(n as nat),
{
    proof {
        if n >= 10 {
            vstd::arithmetic::div_mod::lemma_div_denominator(n as int, 10, 10);
            vstd::arithmetic::div_mod::lemma_div_is_ordered(10, n as int, 10);
            vstd::arithmetic::div_mod::lemma_div_is_ordered(n as int, 255, 10);
        }
        if n >= 100 {
            vstd::arithmetic::div_mod::lemma_div_is_ordered(100, n as int, 10);
            vstd::arithmetic::div_mod::lemma_div_is_ordered(100, n as int, 100);
            vstd::arithmetic::div_mod::lemma_div_is_ordered(n as int, 255, 100);
        }
    }
    if n >= 100 {
        let mut out = String::from_str(digit_str(n / 100));
        out.append(digit_str((n / 10) % 10));
        out.append(digit_str(n % 10));
        proof {
            assert(n as nat / 10 >= 10);
            assert(n as nat / 100 < 10);
            assert((n as nat / 10) / 10 == n as nat / 100);
            assert(dec_of(n as nat) =~= dec_of(n as nat / 10) + seq![dec_digit(n as nat % 10)]);
            assert(dec_of(n as nat / 10) =~= dec_of((n as nat / 10) / 10) + seq![
                dec_digit((n as nat / 10) % 10),
            ]);
            assert(dec_of(n as nat / 100) =~= seq![dec_digit(n as nat / 100)]);
            assert(out@ =~= dec_of(n as nat));
        }
        out
    } else if n >= 10 {
        let mut out = String::from_str(digit_str(n / 10));
        out.append(digit_str(n % 10));
        proof {
            assert(n as nat / 10 < 10);
            assert(dec_of(n as nat) =~= dec_of(n as nat / 10) + seq![dec_digit(n as nat % 10)]);
            assert(dec_of(n as nat / 10) =~= seq![dec_digit(n as nat / 10)]);
            assert(out@ =~= dec_of(n as nat));
        }
        out
    } else {
        let out = String::from_str(digit_str(n));
        proof {
            assert(out@ =~= dec_of(n as nat));
        }
        out
    }
}

/// Two strings hold the same characters.
pub fn str_eq(a: &str, b: &str) -> (r: bool)
    ensures
        r == (a@ == b@),
{
    let na = a.unicode_len();
    let nb = b.unicode_len();
    if na != nb {
        return false;
    }
    let mut i: usize = 0;
    while i < na
        invariant
            0 <= i <= na,
            na == a@.len(),
            na == b@.len(),
            forall|j: int| 0 <= j < i ==> a@[j] == b@[j],
        decreases na - i,
    {
        if a.get_char(i) != b.get_char(i) {
            return false;
        }
        i += 1;
    }
    proof {
        assert(a@ =~= b@);
    }
    true
}

/// A type that can be coerced from a markup attribute's text.
///
/// `from_xml_str_spec` is the type's attribute-text grammar: `Some(v)` when
/// the text denotes `v`, `None` when the text is rejected. `from_str` is the
/// verified parser for that grammar; it succeeds exactly on the accepted
/// texts and never panics.
///
/// This is only the string path of the coercion: a decoder that already
/// produced a typed value bypasses it through the field adapter, which keeps
/// such a value verbatim.
pub trait FromXmlStr: Sized {
    /// The type's attribute-text grammar.
    spec fn from_xml_str_spec(s: Seq<char>) -> Option<Self>;

    /// Parse a markup attribute's text into the typed value.
    fn from_str(s: &str) -> (r: Result<Self, ScalarError>)
        ensures
            match r {
                Ok(v) => Self::from_xml_str_spec(s@) == Some(v),
                Err(_) => Self::from_xml_str_spec(s@) is None,
            },
    ;
}

impl FromXmlStr for u8 {
    open spec fn from_xml_str_spec(s: Seq<char>) -> Option<u8> {
        if unsigned_accepts(s, 255) {
            Some(unsigned_val(s) as u8)
        } else {
            None
        }
    }

    fn from_str(s: &str) -> (r: Result<u8, ScalarError>)
        ensures
            r matches Err(e) ==> unsigned_error(s@, 255, e),
    {
        match parse_unsigned(s, 255) {
            Ok(v) => Ok(v as u8),
            Err(e) => Err(e),
        }
    }
}

impl FromXmlStr for u16 {
    open spec fn from_xml_str_spec(s: Seq<char>) -> Option<u16> {
        if unsigned_accepts(s, 65535) {
            Some(unsigned_val(s) as u16)
        } else {
            None
        }
    }

    fn from_str(s: &str) -> (r: Result<u16, ScalarError>)
        ensures
            r matches Err(e) ==> unsigned_error(s@, 65535, e),
    {
        match parse_unsigned(s, 65535) {
            Ok(v) => Ok(v as u16),
            Err(e) => Err(e),
        }
    }
}

impl FromXmlStr for u32 {
    open spec fn from_xml_str_spec(s: Seq<char>) -> Option<u32> {
        if unsigned_accepts(s, 0xffff_ffff) {
            Some(unsigned_val(s) as u32)
        } else {
            None
        }
    }

    fn from_str(s: &str) -> (r: Result<u32, ScalarError>)
        ensures
            r matches Err(e) ==> unsigned_error(s@, 0xffff_ffff, e),
    {
        match parse_unsigned(s, 0xffff_ffff) {
            Ok(v) => Ok(v as u32),
            Err(e) => Err(e),
        }
    }
}

impl FromXmlStr for u64 {
    open spec fn from_xml_str_spec(s: Seq<char>) -> Option<u64> {
        if unsigned_accepts(s, 0xffff_ffff_ffff_ffff) {
            Some(unsigned_val(s) as u64)
        } else {
            None
        }
    }

    fn from_str(s: &str) -> (r: Result<u64, ScalarError>)
        ensures
            r matches Err(e) ==> unsigned_error(s@, 0xffff_ffff_ffff_ffff, e),
    {
        match parse_unsigned(s, 0xffff_ffff_ffff_ffff) {
            Ok(v) => Ok(v as u64),
            Err(e) => Err(e),
        }
    }
}

impl FromXmlStr for u128 {
    open spec fn from_xml_str_spec(s: Seq<char>) -> Option<u128> {
        if unsigned_accepts(s, 0xffff_ffff_ffff_ffff_ffff_ffff_ffff_ffff) {
            Some(unsigned_val(s) as u128)
        } else {
            None
        }
    }

    fn from_str(s: &str) -> (r: Result<u128, ScalarError>)
        ensures
            r matches Err(e) ==> unsigned_error(s@, 0xffff_ffff_ffff_ffff_ffff_ffff_ffff_ffff, e),
    {
        parse_unsigned(s, 0xffff_ffff_ffff_ffff_ffff_ffff_ffff_ffff)
    }
}

impl FromXmlStr for usize {
    open spec fn from_xml_str_spec(s: Seq<char>) -> Option<usize> {
        if unsigned_accepts(s, usize::MAX as nat) {
            Some(unsigned_val(s) as usize)
        } else {
            None
        }
    }

    fn from_str(s: &str) -> (r: Result<usize, ScalarError>)
        ensures
            r matches Err(e) ==> unsigned_error(s@, usize::MAX as nat, e),
    {
        match parse_unsigned(s, usize::MAX as u128) {
            Ok(v) => Ok(v as usize),
            Err(e) => Err(e),
        }
    }
}

impl FromXmlStr for i8 {
    open spec fn from_xml_str_spec(s: Seq<char>) -> Option<i8> {
        if signed_accepts(s, -128, 127) {
            Some(signed_val(s) as i8)
        } else {
            None
        }
    }

    fn from_str(s: &str) -> (r: Result<i8, ScalarError>)
        ensures
            r matches Err(e) ==> signed_error(s@, -128, 127, e),
    {
        match parse_signed(s, -128, 127) {
            Ok(v) => Ok(v as i8),
            Err(e) => Err(e),
        }
    }
}

impl FromXmlStr for i16 {
    open spec fn from_xml_str_spec(s: Seq<char>) -> Option<i16> {
        if signed_accepts(s, -32768, 32767) {
            Some(signed_val(s) as i16)
        } else {
            None
        }
    }

    fn from_str(s: &str) -> (r: Result<i16, ScalarError>)
        ensures
            r matches Err(e) ==> signed_error(s@, -32768, 32767, e),
    {
        match parse_signed(s, -32768, 32767) {
            Ok(v) => Ok(v as i16),
            Err(e) => Err(e),
        }
    }
}

impl FromXmlStr for i32 {
    open spec fn from_xml_str_spec(s: Seq<char>) -> Option<i32> {
        if signed_accepts(s, -0x8000_0000, 0x7fff_ffff) {
            Some(signed_val(s) as i32)
        } else {
            None
        }
    }

    fn from_str(s: &str) -> (r: Result<i32, ScalarError>)
        ensures
            r matches Err(e) ==> signed_error(s@, -0x8000_0000, 0x7fff_ffff, e),
    {
        match parse_signed(s, -0x8000_0000, 0x7fff_ffff) {
            Ok(v) => Ok(v as i32),
            Err(e) => Err(e),
        }
    }
}

impl FromXmlStr for i64 {
    open spec fn from_xml_str_spec(s: Seq<char>) -> Option<i64> {
        if signed_accepts(s, i64::MIN as int, i64::MAX as int) {
            Some(signed_val(s) as i64)
        } else {
            None
        }
    }

    fn from_str(s: &str) -> (r: Result<i64, ScalarError>)
        ensures
            r matches Err(e) ==> signed_error(s@, i64::MIN as int, i64::MAX as int, e),
    {
        match parse_signed(s, i64::MIN as i128, i64::MAX as i128) {
            Ok(v) => Ok(v as i64),
            Err(e) => Err(e),
        }
    }
}

impl FromXmlStr for i128 {
    open spec fn from_xml_str_spec(s: Seq<char>) -> Option<i128> {
        if signed_accepts(s, i128::MIN as int, i128::MAX as int) {
            Some(signed_val(s) as i128)
        } else {
            None
        }
    }

    fn from_str(s: &str) -> (r: Result<i128, ScalarError>)
        ensures
            r matches Err(e) ==> signed_error(s@, i128::MIN as int, i128::MAX as int, e),
    {
        parse_signed(s, i128::MIN, i128::MAX)
    }
}

impl FromXmlStr for isize {
    open spec fn from_xml_str_spec(s: Seq<char>) -> Option<isize> {
        if signed_accepts(s, isize::MIN as int, isize::MAX as int) {
            Some(signed_val(s) as isize)
        } else {
            None
        }
    }

    fn from_str(s: &str) -> (r: Result<isize, ScalarError>)
        ensures
            r matches Err(e) ==> signed_error(s@, isize::MIN as int, isize::MAX as int, e),
    {
        match parse_signed(s, isize::MIN as i128, isize::MAX as i128) {
            Ok(v) => Ok(v as isize),
            Err(e) => Err(e),
        }
    }
}

impl FromXmlStr for char {
    open spec fn from_xml_str_spec(s: Seq<char>) -> Option<char> {
        if s.len() == 1 {
            Some(s[0])
        } else {
            None
        }
    }

    fn from_str(s: &str) -> (r: Result<char, ScalarError>)
        ensures
            r matches Err(e) ==> e matches ScalarError::NotOneChar,
    {
        if s.unicode_len() == 1 {
            Ok(s.get_char(0))
        } else {
            Err(ScalarError::NotOneChar)
        }
    }
}

impl FromXmlStr for bool {
    /// The relaxed boolean grammar: `"true"` and `"1"` are true, `"false"`
    /// and `"0"` are false, everything else is rejected.
    open spec fn from_xml_str_spec(s: Seq<char>) -> Option<bool> {
        if s == "true"@ || s == "1"@ {
            Some(true)
        } else if s == "false"@ || s == "0"@ {
            Some(false)
        } else {
            None
        }
    }

    fn from_str(s: &str) -> (r: Result<bool, ScalarError>)
        ensures
            r matches Err(e) ==> e matches ScalarError::NotBool(t) && t@ == s@,
    {
        if str_eq(s, "true") || str_eq(s, "1") {
            Ok(true)
        } else if str_eq(s, "false") || str_eq(s, "0") {
            Ok(false)
        } else {
            Err(ScalarError::NotBool(s.to_owned()))
        }
    }
}

impl ScalarError {
    /// The human-readable explanation the error carries.
    pub open spec fn message_spec(self) -> Seq<char> {
        match self {
            ScalarError::Empty => "cannot parse integer from empty string"@,
            ScalarError::InvalidDigit => "invalid digit found in string"@,
            ScalarError::PosOverflow => "number too large to fit in target type"@,
            ScalarError::NegOverflow => "number too small to fit in target type"@,
            ScalarError::NotOneChar => "text is not a single character"@,
            ScalarError::NotBool(t) => "\""@ + t@ + "\" is not a valid bool"@,
            ScalarError::BadDiscriminant(c) => "Invalid ByteEnum: "@ + dec_of(c as nat) + "."@,
        }
    }

    /// Render the explanation, naming the offending input where the
    /// variant carries one.
    pub fn message(&self) -> (r: String)
        ensures
            r@ == self.message_spec(),
    {
        match self {
            ScalarError::Empty => String::from_str("cannot parse integer from empty string"),
            ScalarError::InvalidDigit => String::from_str("invalid digit found in string"),
            ScalarError::PosOverflow => String::from_str("number too large to fit in target type"),
            ScalarError::NegOverflow => String::from_str("number too small to fit in target type"),
            ScalarError::NotOneChar => String::from_str("text is not a single character"),
            ScalarError::NotBool(t) => {
                let mut out = String::from_str("\"");
                out.append(t.as_str());
                out.append("\" is not a valid bool");
                proof {
                    assert(out@ =~= self.message_spec());
                }
                out
            },
            ScalarError::BadDiscriminant(c) => {
                let mut out = String::from_str("Invalid ByteEnum: ");
                let d = u8_to_dec(*c);
                out.append(d.as_str());
                out.append(".");
                proof {
                    assert(out@ =~= self.message_spec());
                }
                out
            },
        }
    }
}

} // verus!

//! Numerals: decimal and hexadecimal digits and the texts they make.
use vstd::prelude::*;

verus! {

/// The lowercase digit of value `d` (below 16).
pub open spec fn digit_char(d: nat) -> char {
    seq!['0', '1', '2', '3', '4', '5', '6', '7', '8', '9', 'a', 'b', 'c', 'd', 'e', 'f'][d as int]
}

/// The decimal numeral of `n`, without leading zeros.
pub open spec fn decimal_text(n: nat) -> Seq<char>
    decreases n,
{
    if n < 10 {
        seq![digit_char(n)]
    } else {
        decimal_text(n / 10).push(digit_char(n % 10))
    }
}

/// The lowercase hexadecimal numeral of `n`, without leading zeros.
pub open spec fn hex_text(n: nat) -> Seq<char>
    decreases n,
{
    if n < 16 {
        seq![digit_char(n)]
    } else {
        hex_text(n / 16).push(digit_char(n % 16))
    }
}

/// The decimal numeral of a signed number.
pub open spec fn signed_decimal_text(v: int) -> Seq<char> {
    if v < 0 {
        seq!['-'] + decimal_text((-v) as nat)
    } else {
        decimal_text(v as nat)
    }
}

/// Appends `c` to `s` by std's `String::push`; the contract claims what its
/// documentation says: the string afterwards is the one before, followed
/// by `c`.
#[verifier::external_body]
pub(crate) fn push_char(s: &mut String, c: char)
    ensures
        final(s)@ == old(s)@.push(c),
{
    s.push(c)
}

/// The lowercase digit of value `d`.
pub(crate) fn digit(d: u128) -> (c: char)
    requires
        d < 16,
    ensures
        c == digit_char(d as nat),
{
    let digits = ['0', '1', '2', '3', '4', '5', '6', '7', '8', '9', 'a', 'b', 'c', 'd', 'e', 'f'];
    assert(digits@ =~= seq![
        '0',
        '1',
        '2',
        '3',
        '4',
        '5',
        '6',
        '7',
        '8',
        '9',
        'a',
        'b',
        'c',
        'd',
        'e',
        'f',
    ]);
    digits[d as usize]
}

/// Appends the decimal numeral of `n` to `s`.
pub(crate) fn push_decimal(s: &mut String, n: u128)
    ensures
        final(s)@ == old(s)@ + decimal_text(n as nat),
    decreases n,
{
    if n >= 10 {
        push_decimal(s, n / 10);
    }
    push_char(s, digit(n % 10));
    assert(decimal_text(n as nat) == if n < 10 {
        seq![digit_char(n as nat)]
    } else {
        decimal_text((n / 10) as nat).push(digit_char((n % 10) as nat))
    });
    assert(final(s)@ =~= old(s)@ + decimal_text(n as nat));
}

/// Appends the hexadecimal numeral of `n` to `s`.
fn push_hex(s: &mut String, n: u128)
    ensures
        final(s)@ == old(s)@ + hex_text(n as nat),
    decreases n,
{
    if n >= 16 {
        push_hex(s, n / 16);
    }
    push_char(s, digit(n % 16));
    assert(final(s)@ =~= old(s)@ + hex_text(n as nat));
}

/// The decimal numeral of `n`.
pub fn decimal(n: u128) -> (r: String)
    ensures
        r@ == decimal_text(n as nat),
{
    let mut s = String::new();
    push_decimal(&mut s, n);
    assert(s@ =~= decimal_text(n as nat));
    s
}

/// The decimal numeral of `v`, with a minus sign when negative.
pub fn signed_decimal(v: i64) -> (r: String)
    ensures
        r@ == signed_decimal_text(v as int),
{
    let mut s = String::new();
    if v < 0 {
        push_char(&mut s, '-');
        let m: u128 = ((-(v + 1)) as u128) + 1;
        push_decimal(&mut s, m);
    } else {
        push_decimal(&mut s, v as u128);
    }
    assert(s@ =~= signed_decimal_text(v as int));
    s
}

/// The alternate lowercase hexadecimal form of `v`: `0x` and the numeral.
pub fn alternate_hex(v: u32) -> (r: String)
    ensures
        r@ == seq!['0', 'x'] + hex_text(v as nat),
{
    let mut s = String::new();
    push_char(&mut s, '0');
    push_char(&mut s, 'x');
    push_hex(&mut s, v as u128);
    assert(s@ =~= seq!['0', 'x'] + hex_text(v as nat));
    s
}


} // verus!

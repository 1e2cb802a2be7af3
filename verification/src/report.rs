//! The text of the portability probe's report: one line per finding, in the
//! form `CAT<NN> <name>: <key>=<value> [<key>=<value> ...]`, and the number
//! formats its values use.
use vstd::prelude::*;
use vstd::string::StringExecFns;
use crate::numeral::{decimal_text, digit, digit_char, push_char, push_decimal};
use crate::ip::{digit_value, digits_value};
use crate::ip_text::{lemma_digit_char, lemma_digits_value_numeral, lemma_numeral_props};

verus! {

/// The decimal numeral of a category number, padded with a leading zero to
/// at least two digits.
pub open spec fn two_digits(n: nat) -> Seq<char> {
    if n < 10 {
        seq!['0', digit_char(n)]
    } else {
        decimal_text(n)
    }
}

/// Each field preceded by a space.
pub open spec fn spaced(fields: Seq<Seq<char>>) -> Seq<char>
    decreases fields.len(),
{
    if fields.len() == 0 {
        Seq::empty()
    } else {
        spaced(fields.drop_last()) + seq![' '] + fields.last()
    }
}

/// The text of a report line.
pub open spec fn report_line_text(category: nat, name: Seq<char>, fields: Seq<Seq<char>>) -> Seq<
    char,
> {
    seq!['C', 'A', 'T'] + two_digits(category) + seq![' '] + name + seq![':'] + spaced(fields)
}

/// A field of a report line: `key=value`.
pub fn field(key: &str, value: &str) -> (r: String)
    ensures
        r@ == key@ + seq!['='] + value@,
{
    let mut s = String::new();
    s.append(key);
    push_char(&mut s, '=');
    s.append(value);
    assert(s@ =~= key@ + seq!['='] + value@);
    s
}

/// A report line: `CAT`, the category number padded to two digits, a space, the name,
/// a colon, and each field after a space.
pub fn report_line(category: u8, name: &str, fields: &Vec<String>) -> (r: String)
    ensures
        r@ == report_line_text(category as nat, name@, fields@.map_values(|f: String| f@)),
{
    let ghost texts = fields@.map_values(|f: String| f@);
    let mut s = String::new();
    push_char(&mut s, 'C');
    push_char(&mut s, 'A');
    push_char(&mut s, 'T');
    if category < 10 {
        push_char(&mut s, '0');
        push_char(&mut s, digit(category as u128));
    } else {
        push_decimal(&mut s, category as u128);
    }
    push_char(&mut s, ' ');
    s.append(name);
    push_char(&mut s, ':');
    let ghost head = s@;
    assert(head =~= seq!['C', 'A', 'T'] + two_digits(category as nat) + seq![' '] + name@ + seq![
        ':',
    ]);
    let mut i: usize = 0;
    while i < fields.len()
        invariant
            i <= fields@.len(),
            texts == fields@.map_values(|f: String| f@),
            s@ == head + spaced(texts.take(i as int)),
        decreases fields@.len() - i,
    {
        push_char(&mut s, ' ');
        s.append(fields[i].as_str());
        assert(texts.take(i + 1).drop_last() =~= texts.take(i as int));
        assert(s@ =~= head + spaced(texts.take(i + 1)));
        i = i + 1;
    }
    assert(texts.take(fields@.len() as int) =~= texts);
    s
}


/// The category number of a report line is written in decimal: its digits
/// are decimal digits that read as the number, at least two of them, and the
/// first is `0` only for a number below ten, which takes exactly two.
pub proof fn lemma_category_numeral(n: nat)
    ensures
        two_digits(n).len() >= 2,
        n < 10 ==> two_digits(n).len() == 2,
        forall|j: int|
            0 <= j < two_digits(n).len() ==> #[trigger] digit_value(two_digits(n)[j], false)
                is Some,
        digits_value(two_digits(n), 0, two_digits(n).len() as int, false) == n,
        two_digits(n)[0] == '0' <==> n < 10,
{
    let t = two_digits(n);
    if n < 10 {
        lemma_digit_char(0);
        lemma_digit_char(n);
        assert(t[0] == '0');
        assert(t[1] == digit_char(n));
        assert(digits_value(t, 0, 0, false) == 0);
        assert(digits_value(t, 0, 1, false) == 0);
        assert(digits_value(t, 0, 2, false) == n);
        assert forall|j: int| 0 <= j < t.len() implies #[trigger] digit_value(t[j], false)
            is Some by {
            if j == 0 {
            } else {
            }
        }
    } else {
        lemma_numeral_props(n, false);
        assert(t == decimal_text(n));
        assert(t.subrange(0, t.len() as int) =~= t);
        lemma_digits_value_numeral(t, 0, n, false);
        if t.len() < 2 {
            assert(t.len() == 1);
            assert(decimal_text(n) == decimal_text(n / 10).push(digit_char(n % 10)));
            lemma_numeral_props(n / 10, false);
        }
        assert forall|j: int| 0 <= j < t.len() implies #[trigger] digit_value(t[j], false)
            is Some by {
            assert(digit_value(crate::ip_text::numeral(n, false)[j], false) is Some);
        }
    }
}

} // verus!

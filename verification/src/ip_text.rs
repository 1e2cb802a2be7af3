//! The textual forms of addresses, and the laws that tie the address grammar
//! of [`crate::ip`] to them: the dotted-decimal form of every IPv4 address
//! reads back as that address and is the only text that does; the full
//! eight-group form and every compressed (`::`) form of an IPv6 address read
//! back as that address.
use vstd::prelude::*;
use crate::ip::{
    char_at, digit_value, digits_value, lead_digits, parse_ip_spec, radix, read_group, read_groups,
    read_ipv4, read_ipv6, read_number, read_octet, read_octets, zero_groups, join_octets, IpModel,
};
use crate::numeral::{digit_char, decimal_text, hex_text};

verus! {

/// The dotted-decimal form of four octets.
pub open spec fn ipv4_text(o: Seq<u8>) -> Seq<char> {
    decimal_text(o[0] as nat) + seq!['.'] + decimal_text(o[1] as nat) + seq!['.'] + decimal_text(
        o[2] as nat,
    ) + seq!['.'] + decimal_text(o[3] as nat)
}

/// The numeral of `n` in the given radix.
pub open spec fn numeral(n: nat, hex: bool) -> Seq<char> {
    if hex {
        hex_text(n)
    } else {
        decimal_text(n)
    }
}

/// The groups of `g[i..]`, each in lowercase hexadecimal and preceded by `:`.
pub open spec fn colon_groups(g: Seq<u16>, i: int) -> Seq<char>
    decreases g.len() - i,
{
    if i >= g.len() || i < 0 {
        Seq::empty()
    } else {
        seq![':'] + hex_text(g[i] as nat) + colon_groups(g, i + 1)
    }
}

// ---------------------------------------------------------------------------
// Digits.
// ---------------------------------------------------------------------------
/// The digit character of `d` reads as `d` in a radix above `d`, and a
/// hexadecimal letter is no decimal digit.
pub(crate) proof fn lemma_digit_char(d: nat)
    requires
        d < 16,
    ensures
        digit_value(digit_char(d), true) == Some(d),
        d < 10 ==> digit_value(digit_char(d), false) == Some(d),
        d >= 10 ==> digit_value(digit_char(d), false) is None,
        digit_char(d) != '.',
        digit_char(d) != ':',
        d == 0 <==> digit_char(d) == '0',
{
    if d == 0 {
    } else if d == 1 {
    } else if d == 2 {
    } else if d == 3 {
    } else if d == 4 {
    } else if d == 5 {
    } else if d == 6 {
    } else if d == 7 {
    } else if d == 8 {
    } else if d == 9 {
    } else if d == 10 {
    } else if d == 11 {
    } else if d == 12 {
    } else if d == 13 {
    } else if d == 14 {
    } else {
    }
}

/// A decimal digit is the digit character of its value.
proof fn lemma_decimal_digit_char(c: char)
    requires
        digit_value(c, false) is Some,
    ensures
        digit_char(digit_value(c, false)->0) == c,
        digit_value(c, false)->0 < 10,
{
    let d = digit_value(c, false)->0;
    assert(c as nat == '0' as nat + d);
    lemma_digit_char(d);
    if d == 0 {
    } else if d == 1 {
    } else if d == 2 {
    } else if d == 3 {
    } else if d == 4 {
    } else if d == 5 {
    } else if d == 6 {
    } else if d == 7 {
    } else if d == 8 {
    } else {
    }
}


// ---------------------------------------------------------------------------
// Numerals.
// ---------------------------------------------------------------------------
/// One step of a numeral: its last digit and the numeral before it.
proof fn lemma_numeral_unfold(n: nat, hex: bool)
    ensures
        numeral(n, hex) == if n < radix(hex) {
            seq![digit_char(n)]
        } else {
            numeral(n / radix(hex), hex).push(digit_char(n % radix(hex)))
        },
{
}

/// A numeral is a non-empty run of digits of its radix, without `.` or `:`,
/// starting with `0` only for zero; it is short for small numbers.
pub(crate) proof fn lemma_numeral_props(n: nat, hex: bool)
    ensures
        numeral(n, hex).len() >= 1,
        forall|j: int|
            0 <= j < numeral(n, hex).len() ==> #[trigger] digit_value(numeral(n, hex)[j], hex)
                is Some && numeral(n, hex)[j] != '.' && numeral(n, hex)[j] != ':',
        numeral(n, hex)[0] == '0' ==> n == 0,
        n < radix(hex) ==> numeral(n, hex).len() == 1,
        !hex && n < 1000 ==> numeral(n, hex).len() <= 3,
        hex && n < 0x10000 ==> numeral(n, hex).len() <= 4,
    decreases n,
{
    lemma_numeral_unfold(n, hex);
    let r = radix(hex);
    if n < r {
        lemma_digit_char(n);
    } else {
        let m = n / r;
        lemma_numeral_props(m, hex);
        lemma_numeral_unfold(m, hex);
        lemma_digit_char(n % r);
        let t = numeral(n, hex);
        assert(t == numeral(m, hex).push(digit_char(n % r)));
        assert forall|j: int| 0 <= j < t.len() implies #[trigger] digit_value(t[j], hex) is Some
            && t[j] != '.' && t[j] != ':' by {
            if j < t.len() - 1 {
                assert(t[j] == numeral(m, hex)[j]);
            }
        }
        assert(t[0] == numeral(m, hex)[0]);
        if m < r {
            lemma_digit_char(m);
        }
        if !hex && n < 1000 {
            assert(m < 100);
            if m >= 10 {
                lemma_numeral_unfold(m / 10, hex);
                assert(m / 10 < 10);
            }
        }
        if hex && n < 0x10000 {
            assert(m < 0x1000);
            if m >= 16 {
                let m2 = m / 16;
                assert(m2 < 0x100);
                lemma_numeral_props(m2, hex);
                if m2 >= 16 {
                    assert(m2 / 16 < 16);
                    lemma_numeral_props(m2 / 16, hex);
                }
            }
        }
    }
}

/// A maximal run of digits from `p` to `q` is what [`lead_digits`] counts.
pub(crate) proof fn lemma_lead_digits_run(s: Seq<char>, p: int, q: int, hex: bool)
    requires
        0 <= p <= q <= s.len(),
        forall|j: int| p <= j < q ==> #[trigger] digit_value(s[j], hex) is Some,
        q == s.len() || digit_value(s[q], hex) is None,
    ensures
        lead_digits(s, p, hex) == q - p,
    decreases q - p,
{
    if p < q {
        lemma_lead_digits_run(s, p + 1, q, hex);
    }
}

/// The digits of a numeral read as its number.
pub(crate) proof fn lemma_digits_value_numeral(s: Seq<char>, p: int, n: nat, hex: bool)
    requires
        0 <= p,
        p + numeral(n, hex).len() <= s.len(),
        s.subrange(p, p + numeral(n, hex).len()) == numeral(n, hex),
    ensures
        digits_value(s, p, p + numeral(n, hex).len(), hex) == n,
    decreases n,
{
    lemma_numeral_unfold(n, hex);
    lemma_numeral_props(n, hex);
    let r = radix(hex);
    let len = numeral(n, hex).len() as int;
    if n < r {
        lemma_digit_char(n);
        assert(s[p] == s.subrange(p, p + len)[0]);
        assert(digits_value(s, p, p, hex) == 0);
    } else {
        let m = n / r;
        lemma_numeral_props(m, hex);
        assert(numeral(m, hex).len() == len - 1);
        assert(s.subrange(p, p + len - 1) =~= s.subrange(p, p + len).subrange(0, len - 1));
        assert(s.subrange(p, p + len).subrange(0, len - 1) =~= numeral(m, hex));
        lemma_digits_value_numeral(s, p, m, hex);
        assert(s[p + len - 1] == s.subrange(p, p + len)[len - 1]);
        lemma_digit_char(n % r);
        assert(digits_value(s, p, p + len, hex) == digits_value(s, p, p + len - 1, hex) * r
            + digit_value(s[p + len - 1], hex)->0);
        assert(m * r + n % r == n);
    }
}

/// A numeral at `p`, followed by a non-digit or the end, reads as its number
/// when it is short enough.
proof fn lemma_read_number_numeral(
    s: Seq<char>,
    p: int,
    n: nat,
    hex: bool,
    max_digits: nat,
    allow_zero_prefix: bool,
)
    requires
        0 <= p,
        p + numeral(n, hex).len() <= s.len(),
        s.subrange(p, p + numeral(n, hex).len()) == numeral(n, hex),
        p + numeral(n, hex).len() == s.len() || digit_value(s[p + numeral(n, hex).len()], hex)
            is None,
        numeral(n, hex).len() <= max_digits,
    ensures
        read_number(s, p, hex, max_digits, allow_zero_prefix) == Some(
            (n, p + numeral(n, hex).len()),
        ),
{
    let len = numeral(n, hex).len() as int;
    lemma_numeral_props(n, hex);
    assert forall|j: int| p <= j < p + len implies #[trigger] digit_value(s[j], hex) is Some by {
        assert(s[j] == s.subrange(p, p + len)[j - p]);
    }
    lemma_lead_digits_run(s, p, p + len, hex);
    lemma_digits_value_numeral(s, p, n, hex);
    assert(s[p] == s.subrange(p, p + len)[0]);
    if s[p] == '0' {
        assert(n == 0);
        assert(len == 1);
    }
}


// ---------------------------------------------------------------------------
// IPv4.
// ---------------------------------------------------------------------------
/// The dotted-decimal form of an address at `q`, followed by the end of the
/// text or by a character that is neither a decimal digit nor `.`, reads as
/// that address.
proof fn lemma_read_ipv4_text(s: Seq<char>, q: int, o: Seq<u8>)
    requires
        o.len() == 4,
        0 <= q,
        q + ipv4_text(o).len() <= s.len(),
        s.subrange(q, q + ipv4_text(o).len()) == ipv4_text(o),
        q + ipv4_text(o).len() == s.len() || (digit_value(s[q + ipv4_text(o).len()], false) is None
            && s[q + ipv4_text(o).len()] != '.'),
    ensures
        read_ipv4(s, q) == Some((o, q + ipv4_text(o).len())),
{
    let t0 = decimal_text(o[0] as nat);
    let t1 = decimal_text(o[1] as nat);
    let t2 = decimal_text(o[2] as nat);
    let t3 = decimal_text(o[3] as nat);
    let t = ipv4_text(o);
    let e0 = q + t0.len();
    let p1 = e0 + 1;
    let e1 = p1 + t1.len();
    let p2 = e1 + 1;
    let e2 = p2 + t2.len();
    let p3 = e2 + 1;
    let e3 = p3 + t3.len();
    assert(e3 == q + t.len());
    let w = s.subrange(q, e3);
    assert(w == t);
    assert(s.subrange(q, e0) =~= w.subrange(0, t0.len() as int));
    assert(w.subrange(0, t0.len() as int) =~= t0);
    assert(s.subrange(p1, e1) =~= w.subrange(p1 - q, e1 - q));
    assert(w.subrange(p1 - q, e1 - q) =~= t1);
    assert(s.subrange(p2, e2) =~= w.subrange(p2 - q, e2 - q));
    assert(w.subrange(p2 - q, e2 - q) =~= t2);
    assert(s.subrange(p3, e3) =~= w.subrange(p3 - q, e3 - q));
    assert(w.subrange(p3 - q, e3 - q) =~= t3);
    assert(s[e0] == w[e0 - q]);
    assert(s[e1] == w[e1 - q]);
    assert(s[e2] == w[e2 - q]);
    lemma_read_octet_decimal_gen(s, q, o[0]);
    lemma_read_octet_decimal_gen(s, p1, o[1]);
    lemma_read_octet_decimal_gen(s, p2, o[2]);
    lemma_read_octet_decimal_gen(s, p3, o[3]);
    assert(read_octets(s, e3, 4, 4) == Some((Seq::<u8>::empty(), e3)));
    assert(read_octets(s, e2, 3, 4) == Some((seq![o[3]] + Seq::<u8>::empty(), e3)));
    assert(read_octets(s, e1, 2, 4) == Some((seq![o[2]] + (seq![o[3]] + Seq::<u8>::empty()), e3)));
    assert(read_octets(s, e0, 1, 4) == Some(
        (seq![o[1]] + (seq![o[2]] + (seq![o[3]] + Seq::<u8>::empty())), e3),
    ));
    let vs = seq![o[0]] + (seq![o[1]] + (seq![o[2]] + (seq![o[3]] + Seq::<u8>::empty())));
    assert(read_octets(s, q, 0, 4) == Some((vs, e3)));
    assert(vs =~= o);
}

/// The decimal numeral of an octet, followed by the end or by a character
/// that is no decimal digit, reads as that octet.
proof fn lemma_read_octet_decimal_gen(s: Seq<char>, p: int, v: u8)
    requires
        0 <= p,
        p + decimal_text(v as nat).len() <= s.len(),
        s.subrange(p, p + decimal_text(v as nat).len()) == decimal_text(v as nat),
        p + decimal_text(v as nat).len() == s.len() || digit_value(
            s[p + decimal_text(v as nat).len()],
            false,
        ) is None,
    ensures
        read_octet(s, p) == Some((v, p + decimal_text(v as nat).len())),
{
    lemma_numeral_props(v as nat, false);
    lemma_read_number_numeral(s, p, v as nat, false, 3, false);
}

/// The dotted-decimal form of every IPv4 address reads as that address.
pub proof fn lemma_ipv4_text_parses(o: Seq<u8>)
    requires
        o.len() == 4,
    ensures
        parse_ip_spec(ipv4_text(o)) == Some(IpModel::V4(o)),
{
    let s = ipv4_text(o);
    assert(s.subrange(0, s.len() as int) =~= s);
    lemma_read_ipv4_text(s, 0, o);
}

/// What [`lead_digits`] counts is a run of digits, ended by a non-digit or
/// the end.
proof fn lemma_lead_digits_are_digits(s: Seq<char>, p: int, hex: bool)
    requires
        0 <= p <= s.len(),
    ensures
        p + lead_digits(s, p, hex) <= s.len(),
        forall|j: int|
            p <= j < p + lead_digits(s, p, hex) ==> #[trigger] digit_value(s[j], hex) is Some,
        p + lead_digits(s, p, hex) == s.len() || digit_value(s[p + lead_digits(s, p, hex)], hex)
            is None,
    decreases s.len() - p,
{
    if p < s.len() && digit_value(s[p], hex) is Some {
        lemma_lead_digits_are_digits(s, p + 1, hex);
    }
}

/// A run of decimal digits that does not start with `0`, or is `0` alone, is
/// the decimal numeral of its value.
proof fn lemma_digits_are_decimal(s: Seq<char>, p: int, q: int)
    requires
        0 <= p < q <= s.len(),
        forall|j: int| p <= j < q ==> #[trigger] digit_value(s[j], false) is Some,
        s[p] != '0' || q - p == 1,
    ensures
        s.subrange(p, q) == decimal_text(digits_value(s, p, q, false)),
    decreases q - p,
{
    let d = digit_value(s[q - 1], false)->0;
    lemma_decimal_digit_char(s[q - 1]);
    if q - p == 1 {
        assert(digits_value(s, p, p, false) == 0);
        assert(digits_value(s, p, q, false) == d);
        assert(s.subrange(p, q) =~= seq![digit_char(d)]);
    } else {
        lemma_digits_are_decimal(s, p, q - 1);
        let m = digits_value(s, p, q - 1, false);
        let v = digits_value(s, p, q, false);
        assert(v == m * 10 + d);
        if m == 0 {
            assert(decimal_text(0) == seq![digit_char(0)]);
            lemma_digit_char(0);
            assert(s.subrange(p, q - 1)[0] == s[p]);
            assert(false);
        }
        assert(v >= 10);
        assert(v / 10 == m);
        assert(v % 10 == d);
        assert(decimal_text(v) == decimal_text(m).push(digit_char(d)));
        assert(s.subrange(p, q) =~= s.subrange(p, q - 1).push(s[q - 1]));
    }
}

/// An octet that reads is written as its decimal numeral.
proof fn lemma_read_octet_is_decimal(s: Seq<char>, p: int)
    requires
        0 <= p <= s.len(),
    ensures
        read_octet(s, p) matches Some((v, e)) ==> p < e <= s.len() && s.subrange(p, e)
            == decimal_text(v as nat),
{
    let k = lead_digits(s, p, false);
    lemma_lead_digits_are_digits(s, p, false);
    if read_octet(s, p) is Some {
        lemma_digits_are_decimal(s, p, p + k);
    }
}


/// The only text that reads as an IPv4 address is that address's
/// dotted-decimal form.
#[verifier::spinoff_prover]
#[verifier::rlimit(40)]
pub proof fn lemma_ipv4_parse_is_text(s: Seq<char>, o: Seq<u8>)
    requires
        parse_ip_spec(s) == Some(IpModel::V4(o)),
    ensures
        o.len() == 4,
        s == ipv4_text(o),
{
    assert(read_ipv4(s, 0) == Some((o, s.len() as int)));
    lemma_read_octet_is_decimal(s, 0);
    let (v0, e0) = read_octet(s, 0)->0;
    assert(read_octets(s, e0, 1, 4) is Some);
    assert(char_at(s, e0, '.'));
    lemma_read_octet_is_decimal(s, e0 + 1);
    let (v1, e1) = read_octet(s, e0 + 1)->0;
    assert(read_octets(s, e1, 2, 4) is Some);
    assert(char_at(s, e1, '.'));
    lemma_read_octet_is_decimal(s, e1 + 1);
    let (v2, e2) = read_octet(s, e1 + 1)->0;
    assert(read_octets(s, e2, 3, 4) is Some);
    assert(char_at(s, e2, '.'));
    lemma_read_octet_is_decimal(s, e2 + 1);
    let (v3, e3) = read_octet(s, e2 + 1)->0;
    assert(read_octets(s, e3, 4, 4) == Some((Seq::<u8>::empty(), e3)));
    let vs = seq![v0] + (seq![v1] + (seq![v2] + (seq![v3] + Seq::<u8>::empty())));
    assert(read_octets(s, 0, 0, 4) == Some((vs, e3)));
    assert(vs =~= seq![v0, v1, v2, v3]);
    assert(o == vs);
    assert(e3 == s.len());
    assert(s =~= s.subrange(0, e0) + seq!['.'] + s.subrange(e0 + 1, e1) + seq!['.'] + s.subrange(
        e1 + 1,
        e2,
    ) + seq!['.'] + s.subrange(e2 + 1, e3));
}


// ---------------------------------------------------------------------------
// IPv6.
// ---------------------------------------------------------------------------
/// The groups of `g`, each in lowercase hexadecimal, separated by `:`.
pub open spec fn groups_text(g: Seq<u16>) -> Seq<char> {
    if g.len() == 0 {
        Seq::empty()
    } else {
        hex_text(g[0] as nat) + colon_groups(g, 1)
    }
}

/// The compressed form: the groups of `head`, `::`, the groups of `tail`.
pub open spec fn ipv6_compressed_text(head: Seq<u16>, tail: Seq<u16>) -> Seq<char> {
    groups_text(head) + seq![':', ':'] + groups_text(tail)
}

/// The two groups that an embedded IPv4 address stands for.
pub open spec fn ipv4_groups(o: Seq<u8>) -> Seq<u16> {
    seq![join_octets(o[0], o[1]), join_octets(o[2], o[3])]
}

/// A form with an embedded IPv4 address: six groups, `:`, the address in
/// dotted decimal.
pub open spec fn ipv6_v4_text(g: Seq<u16>, o: Seq<u8>) -> Seq<char> {
    groups_text(g) + seq![':'] + ipv4_text(o)
}

/// A compressed form with an embedded IPv4 address: the groups of `head`,
/// `::`, the groups of `tail` each followed by `:`, and the address in
/// dotted decimal.
pub open spec fn ipv6_compressed_v4_text(head: Seq<u16>, tail: Seq<u16>, o: Seq<u8>) -> Seq<
    char,
> {
    groups_text(head) + seq![':', ':'] + (if tail.len() == 0 {
        Seq::empty()
    } else {
        groups_text(tail) + seq![':']
    }) + ipv4_text(o)
}

/// A run of digits from `q` ends no later than a non-digit at `j`.
proof fn lemma_lead_digits_bound(s: Seq<char>, q: int, j: int, hex: bool)
    requires
        0 <= q <= j <= s.len(),
        j == s.len() || digit_value(s[j], hex) is None,
    ensures
        lead_digits(s, q, hex) <= j - q,
    decreases j - q,
{
    if q < j {
        lemma_lead_digits_bound(s, q + 1, j, hex);
    }
}

/// A group's numeral, followed by `:` or the end, is no start of an IPv4
/// address: the decimal digits that open it are followed by a hexadecimal
/// letter or the `:`, never by `.`.
proof fn lemma_group_not_ipv4(s: Seq<char>, q: int, v: u16)
    requires
        0 <= q,
        q + hex_text(v as nat).len() <= s.len(),
        s.subrange(q, q + hex_text(v as nat).len()) == hex_text(v as nat),
        q + hex_text(v as nat).len() == s.len() || s[q + hex_text(v as nat).len()] == ':',
    ensures
        read_ipv4(s, q) is None,
{
    let h = hex_text(v as nat);
    let j = q + h.len();
    lemma_numeral_props(v as nat, true);
    if read_octet(s, q) is Some {
        let (o, e) = read_octet(s, q)->0;
        lemma_lead_digits_bound(s, q, j, false);
        assert(e <= j);
        if e < j {
            assert(s[e] == h[e - q]);
            assert(digit_value(numeral(v as nat, true)[e - q], true) is Some);
            assert(s[e] != '.');
        }
        assert(!char_at(s, e, '.'));
        assert(read_octets(s, e, 1, 4) is None);
    }
}

/// A group's hexadecimal numeral, followed by `:` or the end, reads as that
/// group.
proof fn lemma_read_group_hex(s: Seq<char>, p: int, v: u16)
    requires
        0 <= p,
        p + hex_text(v as nat).len() <= s.len(),
        s.subrange(p, p + hex_text(v as nat).len()) == hex_text(v as nat),
        p + hex_text(v as nat).len() == s.len() || s[p + hex_text(v as nat).len()] == ':',
    ensures
        read_group(s, p) == Some((v, p + hex_text(v as nat).len())),
{
    lemma_numeral_props(v as nat, true);
    lemma_read_number_numeral(s, p, v as nat, true, 4, true);
}

/// The groups `g[i..]`, each after `:`, standing in `s[p..end]` and followed
/// by `:` or the end, read from slot `i` of `limit` as those groups, and then
/// reading goes on at `end` from slot `g.len()`.
proof fn lemma_read_colon_groups(
    s: Seq<char>,
    p: int,
    end: int,
    g: Seq<u16>,
    i: nat,
    limit: nat,
)
    requires
        1 <= i <= g.len() <= limit,
        0 <= p <= end <= s.len(),
        s.subrange(p, end) == colon_groups(g, i as int),
        end == s.len() || s[end] == ':',
    ensures
        read_groups(s, p, i, limit) == ({
            let r = read_groups(s, end, g.len(), limit);
            (g.subrange(i as int, g.len() as int) + r.0, r.1, r.2)
        }),
    decreases g.len() - i,
{
    if i == g.len() {
        assert(s.subrange(p, end).len() == 0);
        let r = read_groups(s, end, g.len(), limit);
        assert(g.subrange(i as int, g.len() as int) + r.0 =~= r.0);
    } else {
        let h = hex_text(g[i as int] as nat);
        let rest = colon_groups(g, i + 1 as int);
        let t = s.subrange(p, end);
        assert(t == seq![':'] + h + rest);
        assert(s[p] == t[0]);
        let q = p + 1;
        let e = q + h.len();
        assert(s.subrange(q, e) =~= h) by {
            assert forall|j: int| 0 <= j < h.len() implies s.subrange(q, e)[j] == h[j] by {
                assert(s[q + j] == t[1 + j]);
            }
        }
        assert(s.subrange(e, end) =~= rest) by {
            assert forall|j: int| 0 <= j < rest.len() implies s.subrange(e, end)[j]
                == rest[j] by {
                assert(s[e + j] == t[1 + h.len() + j]);
            }
        }
        if e < end {
            assert(rest.len() > 0);
            assert(rest[0] == ':');
            assert(s[e] == rest[0]);
        }
        lemma_group_not_ipv4(s, q, g[i as int]);
        lemma_read_group_hex(s, q, g[i as int]);
        lemma_read_colon_groups(s, e, end, g, i + 1, limit);
        let r = read_groups(s, end, g.len(), limit);
        assert(g.subrange(i as int, g.len() as int) + r.0 =~= seq![g[i as int]] + (g.subrange(
            i + 1 as int,
            g.len() as int,
        ) + r.0));
    }
}

/// The groups of a non-empty `g` standing in `s[p..end]` and followed by `:`
/// or the end read, from the first slot of `limit`, as `g`, and then reading
/// goes on at `end` from slot `g.len()`.
proof fn lemma_read_groups_text(s: Seq<char>, p: int, end: int, g: Seq<u16>, limit: nat)
    requires
        1 <= g.len() <= limit,
        0 <= p <= end <= s.len(),
        s.subrange(p, end) == groups_text(g),
        end == s.len() || s[end] == ':',
    ensures
        read_groups(s, p, 0, limit) == ({
            let r = read_groups(s, end, g.len(), limit);
            (g + r.0, r.1, r.2)
        }),
{
    let h = hex_text(g[0] as nat);
    let t = s.subrange(p, end);
    let e = p + h.len();
    lemma_numeral_props(g[0] as nat, true);
    assert(t == h + colon_groups(g, 1));
    assert(s.subrange(p, e) =~= h) by {
        assert forall|j: int| 0 <= j < h.len() implies s.subrange(p, e)[j] == h[j] by {
            assert(s[p + j] == t[j]);
        }
    }
    assert(s.subrange(e, end) =~= colon_groups(g, 1)) by {
        assert forall|j: int| 0 <= j < colon_groups(g, 1).len() implies s.subrange(e, end)[j]
            == colon_groups(g, 1)[j] by {
            assert(s[e + j] == t[h.len() + j]);
        }
    }
    if e < end {
        assert(s[e] == colon_groups(g, 1)[0]);
    }
    lemma_group_not_ipv4(s, p, g[0]);
    lemma_read_group_hex(s, p, g[0]);
    lemma_read_colon_groups(s, e, end, g, 1, limit);
    let r = read_groups(s, end, g.len(), limit);
    assert(g + r.0 =~= seq![g[0]] + (g.subrange(1, g.len() as int) + r.0));
}

/// Reading groups from slot `i` (not the first) stops at `end` when the text
/// ends there or goes on with `::`.
proof fn lemma_groups_stop(s: Seq<char>, end: int, i: nat, limit: nat)
    requires
        1 <= i,
        0 <= end <= s.len(),
        end == s.len() || (s[end] == ':' && end + 1 < s.len() && s[end + 1] == ':'),
    ensures
        read_groups(s, end, i, limit) == (Seq::<u16>::empty(), end, false),
{
    if i < limit && char_at(s, end, ':') {
        assert(lead_digits(s, end + 1, false) == 0);
        assert(lead_digits(s, end + 1, true) == 0);
    }
}

/// An embedded IPv4 address after `:` at `end`, ending the text, is what
/// reading from slot `i` gives, when two slots are left.
proof fn lemma_groups_end_with_ipv4(s: Seq<char>, end: int, i: nat, limit: nat, o: Seq<u8>)
    requires
        1 <= i,
        i + 1 < limit,
        o.len() == 4,
        0 <= end,
        s.len() == end + 1 + ipv4_text(o).len(),
        s[end] == ':',
        s.subrange(end + 1, s.len() as int) == ipv4_text(o),
    ensures
        read_groups(s, end, i, limit) == (ipv4_groups(o), s.len() as int, true),
{
    lemma_read_ipv4_text(s, end + 1, o);
}

/// The full form of every IPv6 address reads as that address.
pub proof fn lemma_ipv6_full_text_parses(g: Seq<u16>)
    requires
        g.len() == 8,
    ensures
        parse_ip_spec(groups_text(g)) == Some(IpModel::V6(g)),
{
    let s = groups_text(g);
    assert(s.subrange(0, s.len() as int) =~= s);
    lemma_numeral_props(g[0] as nat, true);
    assert(s.subrange(0, hex_text(g[0] as nat).len() as int) =~= hex_text(g[0] as nat));
    if hex_text(g[0] as nat).len() < s.len() {
        assert(s[hex_text(g[0] as nat).len() as int] == colon_groups(g, 1)[0]);
    }
    lemma_group_not_ipv4(s, 0, g[0]);
    lemma_read_groups_text(s, 0, s.len() as int, g, 8);
    assert(read_groups(s, s.len() as int, 8, 8) == (Seq::<u16>::empty(), s.len() as int, false));
    assert(g + Seq::<u16>::empty() =~= g);
}

/// The groups of `head` before a `::` at `hl` read, from the first of eight
/// slots, as `head`, and reading stops at the `::`.
proof fn lemma_read_head(s: Seq<char>, hl: int, head: Seq<u16>)
    requires
        head.len() <= 7,
        0 <= hl,
        hl + 1 < s.len(),
        s.subrange(0, hl) == groups_text(head),
        s[hl] == ':',
        s[hl + 1] == ':',
    ensures
        read_groups(s, 0, 0, 8) == (head, hl, false),
        read_ipv4(s, 0) is None,
{
    if head.len() == 0 {
        assert(s.subrange(0, hl).len() == 0);
        assert(lead_digits(s, 0, false) == 0);
        assert(lead_digits(s, 0, true) == 0);
        assert(read_groups(s, 0, 0, 8) == (Seq::<u16>::empty(), 0int, false));
        assert(head =~= Seq::<u16>::empty());
    } else {
        lemma_numeral_props(head[0] as nat, true);
        let h0 = hex_text(head[0] as nat);
        assert(s.subrange(0, hl) == h0 + colon_groups(head, 1));
        assert(s.subrange(0, h0.len() as int) =~= h0) by {
            assert forall|j: int| 0 <= j < h0.len() implies s.subrange(0, h0.len() as int)[j]
                == h0[j] by {
                assert(s[j] == s.subrange(0, hl)[j]);
            }
        }
        if h0.len() < hl {
            assert(s[h0.len() as int] == s.subrange(0, hl)[h0.len() as int]);
            assert(s[h0.len() as int] == colon_groups(head, 1)[0]);
        }
        lemma_group_not_ipv4(s, 0, head[0]);
        lemma_read_groups_text(s, 0, hl, head, 8);
        lemma_groups_stop(s, hl, head.len(), 8);
        assert(head + Seq::<u16>::empty() =~= head);
    }
}

/// The compressed form of every IPv6 address reads as that address: the
/// groups of `head`, then as many zero groups as make eight (at least one),
/// then the groups of `tail`.
pub proof fn lemma_ipv6_compressed_text_parses(head: Seq<u16>, tail: Seq<u16>)
    requires
        head.len() + tail.len() <= 7,
    ensures
        parse_ip_spec(ipv6_compressed_text(head, tail)) == Some(
            IpModel::V6(head + zero_groups(8 - head.len() - tail.len()) + tail),
        ),
{
    let s = ipv6_compressed_text(head, tail);
    let ht = groups_text(head);
    let tt = groups_text(tail);
    let hl = ht.len() as int;
    assert(s[hl] == ':');
    assert(s[hl + 1] == ':');
    assert(s.subrange(0, hl) =~= ht);
    assert(s.subrange(hl + 2, s.len() as int) =~= tt);
    let limit = (8 - (head.len() + 1)) as nat;
    lemma_read_head(s, hl, head);
    if tail.len() == 0 {
        assert(lead_digits(s, hl + 2, false) == 0);
        assert(lead_digits(s, hl + 2, true) == 0);
        assert(tail =~= Seq::<u16>::empty());
    } else {
        lemma_read_groups_text(s, hl + 2, s.len() as int, tail, limit);
        lemma_groups_stop(s, s.len() as int, tail.len(), limit);
        assert(tail + Seq::<u16>::empty() =~= tail);
    }
}

/// The form with an embedded IPv4 address reads as the address made of the
/// six groups and the two groups of the IPv4 address.
pub proof fn lemma_ipv6_v4_text_parses(g: Seq<u16>, o: Seq<u8>)
    requires
        g.len() == 6,
        o.len() == 4,
    ensures
        parse_ip_spec(ipv6_v4_text(g, o)) == Some(IpModel::V6(g + ipv4_groups(o))),
{
    let s = ipv6_v4_text(g, o);
    let gt = groups_text(g);
    let e = gt.len() as int;
    assert(s.subrange(0, e) =~= gt);
    assert(s[e] == ':');
    assert(s.subrange(e + 1, s.len() as int) =~= ipv4_text(o));
    lemma_numeral_props(g[0] as nat, true);
    assert(s.subrange(0, hex_text(g[0] as nat).len() as int) =~= hex_text(g[0] as nat));
    if hex_text(g[0] as nat).len() < e {
        assert(s[hex_text(g[0] as nat).len() as int] == colon_groups(g, 1)[0]);
    }
    lemma_group_not_ipv4(s, 0, g[0]);
    lemma_read_groups_text(s, 0, e, g, 8);
    lemma_groups_end_with_ipv4(s, e, 6, 8, o);
}

/// After a `::` ending at `tp`, the groups of `tail` each followed by `:`
/// and then an IPv4 address ending the text read, from the first of `limit`
/// slots, as those groups and the two groups of the address.
proof fn lemma_read_tail_v4(s: Seq<char>, tp: int, tail: Seq<u16>, limit: nat, o: Seq<u8>)
    requires
        tail.len() + 2 <= limit,
        o.len() == 4,
        0 <= tp <= s.len(),
        s.subrange(tp, s.len() as int) == (if tail.len() == 0 {
            Seq::<char>::empty()
        } else {
            groups_text(tail) + seq![':']
        }) + ipv4_text(o),
    ensures
        read_groups(s, tp, 0, limit) == (tail + ipv4_groups(o), s.len() as int, true),
{
    let vt = ipv4_text(o);
    let w = s.subrange(tp, s.len() as int);
    if tail.len() == 0 {
        assert(w =~= vt);
        lemma_read_ipv4_text(s, tp, o);
        assert(tail + ipv4_groups(o) =~= ipv4_groups(o));
    } else {
        let tt = groups_text(tail);
        let te = tp + tt.len();
        assert(w == tt + seq![':'] + vt);
        assert(w.len() == tt.len() + 1 + vt.len());
        assert(s.subrange(tp, te) =~= tt) by {
            assert forall|j: int| 0 <= j < tt.len() implies s.subrange(tp, te)[j] == tt[j] by {
                assert(s[tp + j] == w[j]);
            }
        }
        assert(s[te] == w[tt.len() as int]);
        assert(s.subrange(te + 1, s.len() as int) =~= vt) by {
            assert forall|j: int| 0 <= j < vt.len() implies s.subrange(te + 1, s.len() as int)[j]
                == vt[j] by {
                assert(s[te + 1 + j] == w[tt.len() + 1 + j]);
            }
        }
        lemma_read_groups_text(s, tp, te, tail, limit);
        lemma_groups_end_with_ipv4(s, te, tail.len(), limit, o);
    }
}

/// The compressed form with an embedded IPv4 address reads as the groups of
/// `head`, as many zero groups as make eight (at least one), the groups of
/// `tail` and the two groups of the IPv4 address.
pub proof fn lemma_ipv6_compressed_v4_text_parses(head: Seq<u16>, tail: Seq<u16>, o: Seq<u8>)
    requires
        head.len() + tail.len() <= 5,
        o.len() == 4,
    ensures
        parse_ip_spec(ipv6_compressed_v4_text(head, tail, o)) == Some(
            IpModel::V6(head + zero_groups(6 - head.len() - tail.len()) + tail + ipv4_groups(o)),
        ),
{
    let s = ipv6_compressed_v4_text(head, tail, o);
    let ht = groups_text(head);
    let hl = ht.len() as int;
    let rest = (if tail.len() == 0 {
        Seq::<char>::empty()
    } else {
        groups_text(tail) + seq![':']
    }) + ipv4_text(o);
    assert(s =~= ht + seq![':', ':'] + rest);
    assert(s[hl] == ':');
    assert(s[hl + 1] == ':');
    assert(s.subrange(0, hl) =~= ht);
    assert(s.subrange(hl + 2, s.len() as int) =~= rest);
    lemma_read_head(s, hl, head);
    let limit = (8 - (head.len() + 1)) as nat;
    lemma_read_tail_v4(s, hl + 2, tail, limit, o);
    let tv = tail + ipv4_groups(o);
    assert(read_ipv6(s, 0) == Some((head + zero_groups(8 - head.len() - tv.len()) + tv, s.len() as int)));
    assert(zero_groups(6 - head.len() - tail.len()) == zero_groups(8 - head.len() - tv.len()));
    assert(head + zero_groups(6 - head.len() - tail.len()) + tail + ipv4_groups(o) =~= head
        + zero_groups(8 - head.len() - tv.len()) + tv);
}


// ---------------------------------------------------------------------------
// Digits in either case.
// ---------------------------------------------------------------------------
/// The uppercase hexadecimal letter of value `d` (from 10 to 15).
pub open spec fn upper_hex_letter(d: nat) -> char {
    seq!['A', 'B', 'C', 'D', 'E', 'F'][d - 10]
}

/// Every digit reads as its value: decimal digits in either radix, and the
/// hexadecimal letters in both cases; no letter is a decimal digit.
pub proof fn lemma_digits_read_as_values(d: nat)
    requires
        d < 16,
    ensures
        digit_value(digit_char(d), true) == Some(d),
        d < 10 ==> digit_value(digit_char(d), false) == Some(d),
        d >= 10 ==> digit_value(digit_char(d), false) is None,
        d >= 10 ==> digit_value(upper_hex_letter(d), true) == Some(d),
        d >= 10 ==> digit_value(upper_hex_letter(d), false) is None,
{
    lemma_digit_char(d);
    if d == 10 {
    } else if d == 11 {
    } else if d == 12 {
    } else if d == 13 {
    } else if d == 14 {
    } else if d == 15 {
    }
}

/// Hexadecimal letters are read the same in either case: each uppercase
/// letter has the value of its lowercase letter.
pub proof fn lemma_hex_case_insensitive(c: char)
    requires
        'a' <= c <= 'f',
    ensures
        digit_value(((c as u32) - 32) as char, true) == digit_value(c, true),
        digit_value(c, true) is Some,
{
    if c == 'a' {
    } else if c == 'b' {
    } else if c == 'c' {
    } else if c == 'd' {
    } else if c == 'e' {
    } else {
        assert(c == 'f');
    }
}

/// Only digits read: whatever reads as `d` is the digit character of `d`, or,
/// in hexadecimal, its uppercase letter; and `d` is below the radix.
pub proof fn lemma_only_digits_read(c: char, hex: bool)
    ensures
        digit_value(c, hex) matches Some(d) ==> d < radix(hex) && (c == digit_char(d) || (hex
            && d >= 10 && c == upper_hex_letter(d))),
{
    if digit_value(c, hex) is Some {
        let d = digit_value(c, hex)->0;
        if '0' <= c && c <= '9' {
            lemma_decimal_digit_char(c);
        } else if 'a' <= c && c <= 'f' {
            if c == 'a' {
            } else if c == 'b' {
            } else if c == 'c' {
            } else if c == 'd' {
            } else if c == 'e' {
            } else {
            }
        } else {
            if c == 'A' {
            } else if c == 'B' {
            } else if c == 'C' {
            } else if c == 'D' {
            } else if c == 'E' {
            } else {
            }
        }
    }
}


// ---------------------------------------------------------------------------
// Leading zeros in groups.
// ---------------------------------------------------------------------------
/// `k` zero digits.
pub open spec fn zero_digits(k: nat) -> Seq<char> {
    Seq::new(k, |i: int| '0')
}

/// A leading zero digit does not change the value of a run of digits.
proof fn lemma_leading_zero_value(s: Seq<char>, p: int, q: int, hex: bool)
    requires
        0 <= p < q <= s.len(),
        s[p] == '0',
    ensures
        digits_value(s, p, q, hex) == digits_value(s, p + 1, q, hex),
    decreases q - p,
{
    if q > p + 1 {
        lemma_leading_zero_value(s, p, q - 1, hex);
    } else {
        assert(digits_value(s, p, p, hex) == 0);
        assert(digits_value(s, p + 1, p + 1, hex) == 0);
    }
}

/// Leading zero digits do not change the value of a run of digits.
proof fn lemma_leading_zeros_value(s: Seq<char>, p: int, z: nat, q: int, hex: bool)
    requires
        0 <= p,
        p + z <= q <= s.len(),
        forall|j: int| p <= j < p + z ==> s[j] == '0',
    ensures
        digits_value(s, p, q, hex) == digits_value(s, p + z, q, hex),
    decreases z,
{
    if z > 0 {
        if p < q {
            lemma_leading_zero_value(s, p, q, hex);
        }
        lemma_leading_zeros_value(s, p + 1, (z - 1) as nat, q, hex);
    }
}

/// A group written with leading zeros, in at most four digits, followed by
/// `:` or the end, reads as the group: leading zeros never change what is read.
pub proof fn lemma_padded_group_reads(s: Seq<char>, p: int, v: u16, z: nat)
    requires
        0 <= p,
        hex_text(v as nat).len() + z <= 4,
        p + z + hex_text(v as nat).len() <= s.len(),
        s.subrange(p, p + z + hex_text(v as nat).len()) == zero_digits(z) + hex_text(v as nat),
        p + z + hex_text(v as nat).len() == s.len() || s[p + z + hex_text(v as nat).len()] == ':',
    ensures
        read_group(s, p) == Some((v, p + z + hex_text(v as nat).len())),
{
    let h = hex_text(v as nat);
    let w = zero_digits(z) + h;
    let q = p + z;
    let e = q + h.len();
    lemma_numeral_props(v as nat, true);
    lemma_digit_char(0);
    assert forall|j: int| p <= j < e implies #[trigger] digit_value(s[j], true) is Some by {
        assert(s[j] == s.subrange(p, e)[j - p]);
        if j < q {
            assert(s[j] == '0');
        } else {
            assert(s[j] == h[j - q]);
            assert(digit_value(numeral(v as nat, true)[j - q], true) is Some);
        }
    }
    lemma_lead_digits_run(s, p, e, true);
    assert forall|j: int| p <= j < q implies s[j] == '0' by {
        assert(s[j] == s.subrange(p, e)[j - p]);
    }
    lemma_leading_zeros_value(s, p, z, e, true);
    assert(s.subrange(q, e) =~= h) by {
        assert forall|j: int| 0 <= j < h.len() implies s.subrange(q, e)[j] == h[j] by {
            assert(s[q + j] == s.subrange(p, e)[z + j]);
        }
    }
    lemma_digits_value_numeral(s, q, v as nat, true);
}

/// Every group of one to four hexadecimal digits with leading zeros, and in
/// particular the four-digit form, reads as the group it writes.
pub proof fn lemma_four_digit_group_reads(v: u16)
    ensures
        read_group(zero_digits((4 - hex_text(v as nat).len()) as nat) + hex_text(v as nat), 0)
            == Some((v, 4int)),
{
    lemma_numeral_props(v as nat, true);
    let z = (4 - hex_text(v as nat).len()) as nat;
    let s = zero_digits(z) + hex_text(v as nat);
    assert(s.subrange(0, s.len() as int) =~= s);
    lemma_padded_group_reads(s, 0, v, z);
}

} // verus!

//! IP addresses and their textual forms.
//!
//! The grammar accepted is the one of the standard library's address parser:
//! an IPv4 address is four decimal octets (one to three digits, no leading
//! zero, at most 255) separated by dots; an IPv6 address is up to eight
//! colon-separated groups of one to four hexadecimal digits, with at most one
//! `::` standing for one or more zero groups, and optionally an embedded IPv4
//! address in place of the last two groups.
use vstd::prelude::*;
use crate::text::chars_of;

verus! {

/// An IP address: four octets, or eight 16-bit groups.
#[derive(Clone, Copy, Debug, PartialEq, Eq)]
pub enum IpAddress {
    V4([u8; 4]),
    V6([u16; 8]),
}

/// The mathematical model of an [`IpAddress`].
pub enum IpModel {
    V4(Seq<u8>),
    V6(Seq<u16>),
}

impl View for IpAddress {
    type V = IpModel;

    open spec fn view(&self) -> IpModel {
        match self {
            IpAddress::V4(o) => IpModel::V4(o@),
            IpAddress::V6(g) => IpModel::V6(g@),
        }
    }
}

/// The model of an optional address.
pub open spec fn opt_model(a: Option<IpAddress>) -> Option<IpModel> {
    match a {
        Some(x) => Some(x@),
        None => None,
    }
}

/// The models of a list of addresses.
pub open spec fn models(v: Seq<IpAddress>) -> Seq<IpModel> {
    v.map_values(|a: IpAddress| a@)
}

// ---------------------------------------------------------------------------
// The grammar, over a character sequence `s` read from position `p`.
// Each reader gives the value read and the position just after it.
// ---------------------------------------------------------------------------
/// The value of `c` as a digit: decimal, or hexadecimal (either case) when `hex`.
pub open spec fn digit_value(c: char, hex: bool) -> Option<nat> {
    if '0' <= c && c <= '9' {
        Some((c as nat - '0' as nat) as nat)
    } else if hex && 'a' <= c && c <= 'f' {
        Some((c as nat - 'a' as nat + 10) as nat)
    } else if hex && 'A' <= c && c <= 'F' {
        Some((c as nat - 'A' as nat + 10) as nat)
    } else {
        None
    }
}

/// The radix of the digits: 16 when `hex`, else 10.
pub open spec fn radix(hex: bool) -> nat {
    if hex {
        16
    } else {
        10
    }
}

/// The number of consecutive digits at position `p`.
pub open spec fn lead_digits(s: Seq<char>, p: int, hex: bool) -> nat
    decreases s.len() - p,
{
    if 0 <= p < s.len() && digit_value(s[p], hex) is Some {
        1 + lead_digits(s, p + 1, hex)
    } else {
        0
    }
}

/// The number written by the digits in `s[p..q]`.
pub open spec fn digits_value(s: Seq<char>, p: int, q: int, hex: bool) -> nat
    decreases q - p,
{
    if q <= p {
        0
    } else {
        digits_value(s, p, q - 1, hex) * radix(hex) + digit_value(s[q - 1], hex)->0
    }
}

/// A number of one to `max_digits` digits at `p`; unless `allow_zero_prefix`,
/// a number of more than one digit may not start with `0`.
pub open spec fn read_number(
    s: Seq<char>,
    p: int,
    hex: bool,
    max_digits: nat,
    allow_zero_prefix: bool,
) -> Option<(nat, int)> {
    let k = lead_digits(s, p, hex);
    if k == 0 || k > max_digits {
        None
    } else if !allow_zero_prefix && s[p] == '0' && k > 1 {
        None
    } else {
        Some((digits_value(s, p, p + k, hex), p + k))
    }
}

/// A decimal octet.
pub open spec fn read_octet(s: Seq<char>, p: int) -> Option<(u8, int)> {
    match read_number(s, p, false, 3, false) {
        Some((v, q)) => if v <= 255 {
            Some((v as u8, q))
        } else {
            None
        },
        None => None,
    }
}

/// A hexadecimal group.
pub open spec fn read_group(s: Seq<char>, p: int) -> Option<(u16, int)> {
    match read_number(s, p, true, 4, true) {
        Some((v, q)) => Some((v as u16, q)),
        None => None,
    }
}

/// Whether `s[p]` is the character `c`.
pub open spec fn char_at(s: Seq<char>, p: int, c: char) -> bool {
    0 <= p < s.len() && s[p] == c
}

/// Octets `i..n` of a dotted address: each after the first is preceded by `.`.
pub open spec fn read_octets(s: Seq<char>, p: int, i: nat, n: nat) -> Option<(Seq<u8>, int)>
    decreases n - i,
{
    if i >= n {
        Some((Seq::empty(), p))
    } else if i > 0 && !char_at(s, p, '.') {
        None
    } else {
        let q = if i > 0 {
            p + 1
        } else {
            p
        };
        match read_octet(s, q) {
            Some((v, r)) => match read_octets(s, r, i + 1, n) {
                Some((vs, e)) => Some((seq![v] + vs, e)),
                None => None,
            },
            None => None,
        }
    }
}

/// An IPv4 address at `p`.
pub open spec fn read_ipv4(s: Seq<char>, p: int) -> Option<(Seq<u8>, int)> {
    read_octets(s, p, 0, 4)
}

/// The 16-bit group made of two octets, the first one high.
pub open spec fn join_octets(hi: u8, lo: u8) -> u16 {
    (hi * 256 + lo) as u16
}

/// Groups `i..limit` of an IPv6 address, each after the first preceded by `:`.
/// Before the last slot an embedded IPv4 address may stand for two groups,
/// and ends the run. Reading stops at the first slot that does not parse.
/// Gives the groups read, the position after them, and whether an IPv4
/// address ended the run.
pub open spec fn read_groups(s: Seq<char>, p: int, i: nat, limit: nat) -> (Seq<u16>, int, bool)
    decreases limit - i,
{
    if i >= limit {
        (Seq::empty(), p, false)
    } else if i > 0 && !char_at(s, p, ':') {
        (Seq::empty(), p, false)
    } else {
        let q = if i > 0 {
            p + 1
        } else {
            p
        };
        if i + 1 < limit && read_ipv4(s, q) is Some {
            let (o, e) = read_ipv4(s, q)->0;
            (seq![join_octets(o[0], o[1]), join_octets(o[2], o[3])], e, true)
        } else {
            match read_group(s, q) {
                Some((g, r)) => {
                    let (gs, e, v4) = read_groups(s, r, i + 1, limit);
                    (seq![g] + gs, e, v4)
                },
                None => (Seq::empty(), p, false),
            }
        }
    }
}

/// `n` zero groups.
pub open spec fn zero_groups(n: int) -> Seq<u16> {
    Seq::new(n as nat, |i: int| 0u16)
}

/// An IPv6 address at `p`: eight groups, or a head of fewer groups without an
/// embedded IPv4 address, `::`, and a tail that fills at most the groups left
/// minus one; the groups between head and tail are zero.
pub open spec fn read_ipv6(s: Seq<char>, p: int) -> Option<(Seq<u16>, int)> {
    let (head, hp, h4) = read_groups(s, p, 0, 8);
    if head.len() == 8 {
        Some((head, hp))
    } else if h4 {
        None
    } else if char_at(s, hp, ':') && char_at(s, hp + 1, ':') {
        let limit = (8 - (head.len() + 1)) as nat;
        let (tail, tp, _t4) = read_groups(s, hp + 2, 0, limit);
        Some((head + zero_groups(8 - head.len() - tail.len()) + tail, tp))
    } else {
        None
    }
}

/// The address that the whole of `s` denotes, if any. An IPv4 reading is
/// tried first; only if none is possible at all is an IPv6 reading tried.
pub open spec fn parse_ip_spec(s: Seq<char>) -> Option<IpModel> {
    match read_ipv4(s, 0) {
        Some((o, e)) => if e == s.len() {
            Some(IpModel::V4(o))
        } else {
            None
        },
        None => match read_ipv6(s, 0) {
            Some((g, e)) => if e == s.len() {
                Some(IpModel::V6(g))
            } else {
                None
            },
            None => None,
        },
    }
}


// ---------------------------------------------------------------------------
// The reader.
// ---------------------------------------------------------------------------
/// The value of `c` as a digit.
fn digit_of(c: char, hex: bool) -> (r: Option<u32>)
    ensures
        match digit_value(c, hex) {
            Some(d) => r == Some(d as u32) && d < radix(hex),
            None => r is None,
        },
{
    if '0' <= c && c <= '9' {
        Some((c as u32) - ('0' as u32))
    } else if hex && 'a' <= c && c <= 'f' {
        Some((c as u32) - ('a' as u32) + 10)
    } else if hex && 'A' <= c && c <= 'F' {
        Some((c as u32) - ('A' as u32) + 10)
    } else {
        None
    }
}

/// Reads a number as [`read_number`] describes.
fn read_number_at(
    s: &[char],
    p: usize,
    hex: bool,
    max_digits: usize,
    allow_zero_prefix: bool,
) -> (r: Option<(u32, usize)>)
    requires
        p <= s@.len(),
        1 <= max_digits <= 4,
    ensures
        r is None <==> read_number(s@, p as int, hex, max_digits as nat, allow_zero_prefix) is None,
        r matches Some((v, q)) ==> read_number(s@, p as int, hex, max_digits as nat, allow_zero_prefix)
            == Some((v as nat, q as int)) && p < q <= s@.len() && v < 0x10000,
{
    let mut i = p;
    let mut value: u32 = 0;
    loop
        invariant
            p <= i <= s@.len(),
            i - p <= max_digits,
            1 <= max_digits <= 4,
            lead_digits(s@, p as int, hex) == (i - p) + lead_digits(s@, i as int, hex),
            value as nat == digits_value(s@, p as int, i as int, hex),
            i - p == 0 ==> value == 0,
            i - p <= 1 ==> value < 16,
            i - p <= 2 ==> value < 256,
            i - p <= 3 ==> value < 4096,
            value < 0x10000,
        ensures
            p <= i <= s@.len(),
            lead_digits(s@, p as int, hex) == i - p,
            value as nat == digits_value(s@, p as int, i as int, hex),
            value < 0x10000,
        decreases s@.len() - i,
    {
        if i == s.len() {
            break;
        }
        match digit_of(s[i], hex) {
            None => {
                break;
            },
            Some(d) => {
                if i - p == max_digits {
                    return None;
                }
                if hex {
                    value = value * 16 + d;
                } else {
                    value = value * 10 + d;
                }
                i = i + 1;
            },
        }
    }
    let k = i - p;
    if k == 0 {
        return None;
    }
    if !allow_zero_prefix && s[p] == '0' && k > 1 {
        return None;
    }
    Some((value, i))
}

/// Reads a decimal octet as [`read_octet`] describes.
fn read_octet_at(s: &[char], p: usize) -> (r: Option<(u8, usize)>)
    requires
        p <= s@.len(),
    ensures
        r is None <==> read_octet(s@, p as int) is None,
        r matches Some((v, q)) ==> read_octet(s@, p as int) == Some((v, q as int)) && p < q <= s@.len(),
{
    match read_number_at(s, p, false, 3, false) {
        Some((v, q)) => if v <= 255 {
            Some((v as u8, q))
        } else {
            None
        },
        None => None,
    }
}

/// Reads a hexadecimal group as [`read_group`] describes.
fn read_group_at(s: &[char], p: usize) -> (r: Option<(u16, usize)>)
    requires
        p <= s@.len(),
    ensures
        r is None <==> read_group(s@, p as int) is None,
        r matches Some((v, q)) ==> read_group(s@, p as int) == Some((v, q as int)) && p < q <= s@.len(),
{
    match read_number_at(s, p, true, 4, true) {
        Some((v, q)) => Some((v as u16, q)),
        None => None,
    }
}


/// Reads an IPv4 address as [`read_ipv4`] describes.
fn read_ipv4_at(s: &[char], p: usize) -> (r: Option<([u8; 4], usize)>)
    requires
        p <= s@.len(),
    ensures
        r is None <==> read_ipv4(s@, p as int) is None,
        r matches Some((a, q)) ==> read_ipv4(s@, p as int) == Some((a@, q as int)) && p < q <= s@.len(),
{
    let mut acc: Vec<u8> = Vec::new();
    let mut pos = p;
    let mut i: usize = 0;
    while i < 4
        invariant
            i <= 4,
            acc@.len() == i,
            p <= pos <= s@.len(),
            i > 0 ==> p < pos,
            read_ipv4(s@, p as int) == match read_octets(s@, pos as int, i as nat, 4) {
                Some((vs, e)) => Some((acc@ + vs, e)),
                None => None::<(Seq<u8>, int)>,
            },
        decreases 4 - i,
    {
        let q = if i > 0 {
            if pos < s.len() && s[pos] == '.' {
                pos + 1
            } else {
                return None;
            }
        } else {
            pos
        };
        match read_octet_at(s, q) {
            Some((v, r)) => {
                assert(read_octets(s@, pos as int, i as nat, 4) == match read_octets(
                    s@,
                    r as int,
                    (i + 1) as nat,
                    4,
                ) {
                    Some((vs, e)) => Some((seq![v] + vs, e)),
                    None => None::<(Seq<u8>, int)>,
                });
                let ghost old_acc = acc@;
                acc.push(v);
                proof {
                    assert forall|vs: Seq<u8>| old_acc + (seq![v] + vs) =~= acc@ + vs by {}
                }
                pos = r;
            },
            None => {
                return None;
            },
        }
        i = i + 1;
    }
    assert(acc@ + Seq::<u8>::empty() =~= acc@);
    let a = [acc[0], acc[1], acc[2], acc[3]];
    assert(a@ =~= acc@);
    Some((a, pos))
}

/// The group made of two octets, the first one high.
fn join_octets_exec(hi: u8, lo: u8) -> (r: u16)
    ensures
        r == join_octets(hi, lo),
{
    (hi as u16) * 256 + (lo as u16)
}

/// Reads IPv6 groups `0..limit` as [`read_groups`] describes.
fn read_groups_at(s: &[char], p: usize, limit: usize) -> (r: (Vec<u16>, usize, bool))
    requires
        p <= s@.len(),
        limit <= 8,
    ensures
        read_groups(s@, p as int, 0, limit as nat) == (r.0@, r.1 as int, r.2),
        p <= r.1 <= s@.len(),
{
    let mut acc: Vec<u16> = Vec::new();
    let mut pos = p;
    let mut i: usize = 0;
    while i < limit
        invariant
            i <= limit <= 8,
            acc@.len() == i,
            p <= pos <= s@.len(),
            read_groups(s@, p as int, 0, limit as nat) == ({
                let (gs, e, b) = read_groups(s@, pos as int, i as nat, limit as nat);
                (acc@ + gs, e, b)
            }),
        decreases limit - i,
    {
        let ghost rest = read_groups(s@, pos as int, i as nat, limit as nat);
        let q = if i > 0 {
            if pos < s.len() && s[pos] == ':' {
                pos + 1
            } else {
                assert(acc@ + Seq::<u16>::empty() =~= acc@);
                return (acc, pos, false);
            }
        } else {
            pos
        };
        if i + 1 < limit {
            match read_ipv4_at(s, q) {
                Some((o, e)) => {
                    let g1 = join_octets_exec(o[0], o[1]);
                    let g2 = join_octets_exec(o[2], o[3]);
                    let ghost old_acc = acc@;
                    acc.push(g1);
                    acc.push(g2);
                    assert(old_acc + seq![g1, g2] =~= acc@);
                    return (acc, e, true);
                },
                None => {},
            }
        }
        match read_group_at(s, q) {
            Some((g, r)) => {
                let ghost old_acc = acc@;
                acc.push(g);
                proof {
                    let (gs, e, b) = read_groups(s@, r as int, (i + 1) as nat, limit as nat);
                    assert(rest == (seq![g] + gs, e, b));
                    assert(old_acc + (seq![g] + gs) =~= acc@ + gs);
                }
                pos = r;
            },
            None => {
                assert(acc@ + Seq::<u16>::empty() =~= acc@);
                return (acc, pos, false);
            },
        }
        i = i + 1;
    }
    assert(acc@ + Seq::<u16>::empty() =~= acc@);
    (acc, pos, false)
}

/// The array of the eight groups in `v`.
fn groups_array(v: &Vec<u16>) -> (a: [u16; 8])
    requires
        v@.len() == 8,
    ensures
        a@ == v@,
{
    let a = [v[0], v[1], v[2], v[3], v[4], v[5], v[6], v[7]];
    assert(a@ =~= v@);
    a
}

/// Reads an IPv6 address as [`read_ipv6`] describes.
fn read_ipv6_at(s: &[char], p: usize) -> (r: Option<([u16; 8], usize)>)
    requires
        p <= s@.len(),
    ensures
        r is None <==> read_ipv6(s@, p as int) is None,
        r matches Some((g, q)) ==> read_ipv6(s@, p as int) == Some((g@, q as int)) && p <= q
            <= s@.len(),
{
    let (head, hp, h4) = read_groups_at(s, p, 8);
    proof {
        lemma_read_groups_len(s@, p as int, 0, 8);
    }
    if head.len() == 8 {
        return Some((groups_array(&head), hp));
    }
    if h4 {
        return None;
    }
    if !(hp < s.len() && hp + 1 < s.len() && s[hp] == ':' && s[hp + 1] == ':') {
        return None;
    }
    let limit = 8 - (head.len() + 1);
    let (tail, tp, _t4) = read_groups_at(s, hp + 2, limit);
    proof {
        lemma_read_groups_len(s@, (hp + 2) as int, 0, limit as nat);
    }
    let zeros = 8 - head.len() - tail.len();
    let mut all: Vec<u16> = Vec::new();
    let mut k: usize = 0;
    while k < head.len()
        invariant
            k <= head@.len(),
            all@ == head@.take(k as int),
        decreases head@.len() - k,
    {
        all.push(head[k]);
        k = k + 1;
        assert(all@ =~= head@.take(k as int));
    }
    assert(head@.take(head@.len() as int) =~= head@);
    k = 0;
    while k < zeros
        invariant
            k <= zeros,
            all@ == head@ + zero_groups(k as int),
        decreases zeros - k,
    {
        all.push(0);
        k = k + 1;
        assert(all@ =~= head@ + zero_groups(k as int));
    }
    k = 0;
    while k < tail.len()
        invariant
            k <= tail@.len(),
            all@ == head@ + zero_groups(zeros as int) + tail@.take(k as int),
        decreases tail@.len() - k,
    {
        all.push(tail[k]);
        k = k + 1;
        assert(all@ =~= head@ + zero_groups(zeros as int) + tail@.take(k as int));
    }
    assert(tail@.take(tail@.len() as int) =~= tail@);
    Some((groups_array(&all), tp))
}

/// The groups that [`read_groups`] gives number at most `limit - i`.
proof fn lemma_read_groups_len(s: Seq<char>, p: int, i: nat, limit: nat)
    ensures
        i <= limit ==> read_groups(s, p, i, limit).0.len() <= limit - i,
    decreases limit - i,
{
    if i < limit {
        let q = if i > 0 {
            p + 1
        } else {
            p
        };
        if !(i > 0 && !char_at(s, p, ':')) && !(i + 1 < limit && read_ipv4(s, q) is Some) {
            match read_group(s, q) {
                Some((g, r)) => {
                    lemma_read_groups_len(s, r, i + 1, limit);
                },
                None => {},
            }
        }
    }
}


/// The address that the whole of `s` denotes, if any.
pub fn parse_ip_chars(s: &[char]) -> (r: Option<IpAddress>)
    ensures
        opt_model(r) == parse_ip_spec(s@),
{
    match read_ipv4_at(s, 0) {
        Some((o, e)) => if e == s.len() {
            Some(IpAddress::V4(o))
        } else {
            None
        },
        None => match read_ipv6_at(s, 0) {
            Some((g, e)) => if e == s.len() {
                Some(IpAddress::V6(g))
            } else {
                None
            },
            None => None,
        },
    }
}


/// The address that the whole of `text` denotes, if any.
pub fn parse_ip_addr(text: &str) -> (r: Option<IpAddress>)
    ensures
        opt_model(r) == parse_ip_spec(text@),
{
    let cs = chars_of(text);
    parse_ip_chars(cs.as_slice())
}

} // verus!

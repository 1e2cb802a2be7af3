//! The resolver configuration file: which of its lines name a DNS server,
//! and which server.
//!
//! A line names a server when, once anything from its first `#` on is dropped
//! and surrounding whitespace is trimmed, it starts with the keyword
//! `nameserver` and what follows the keyword, trimmed, is an IP address.
use vstd::prelude::*;
use crate::ip::{IpAddress, IpModel, models, opt_model, parse_ip_spec, parse_ip_chars};
use crate::text::{is_white_space, trim, trim_start, trim_range, chars_of};

verus! {

/// The index of the first `#` in `s` at or after `i`, or the length of `s`.
pub open spec fn comment_start(s: Seq<char>, i: nat) -> nat
    decreases s.len() - i,
{
    if i < s.len() {
        if s[i as int] == '#' {
            i
        } else {
            comment_start(s, i + 1)
        }
    } else {
        s.len()
    }
}

/// The part of a line before its first `#`.
pub open spec fn before_comment(s: Seq<char>) -> Seq<char> {
    s.take(comment_start(s, 0) as int)
}

/// The keyword that opens a server line.
pub open spec fn keyword() -> Seq<char> {
    seq!['n', 'a', 'm', 'e', 's', 'e', 'r', 'v', 'e', 'r']
}

/// The server that a line of the configuration file names, if any.
pub open spec fn nameserver_of_line(line: Seq<char>) -> Option<IpModel> {
    let content = trim(before_comment(line));
    if content.len() >= keyword().len() && content.take(keyword().len() as int) == keyword() {
        let addr = trim(content.skip(keyword().len() as int));
        if addr.len() == 0 {
            None
        } else {
            parse_ip_spec(addr)
        }
    } else {
        None
    }
}

/// The servers that the lines name, in the order of the lines.
pub open spec fn nameservers_of_lines(lines: Seq<Seq<char>>) -> Seq<IpModel>
    decreases lines.len(),
{
    if lines.len() == 0 {
        Seq::empty()
    } else {
        nameservers_of_lines(lines.drop_last()) + match nameserver_of_line(lines.last()) {
            Some(a) => seq![a],
            None => Seq::empty(),
        }
    }
}

/// Whether the keyword stands in `s` at `a`.
fn has_keyword(s: &[char], a: usize) -> (r: bool)
    requires
        a + 10 <= s@.len(),
    ensures
        r == (s@.subrange(a as int, a + 10) == keyword()),
{
    let kw = ['n', 'a', 'm', 'e', 's', 'e', 'r', 'v', 'e', 'r'];
    assert(kw@ =~= keyword());
    let mut k: usize = 0;
    while k < 10
        invariant
            k <= 10,
            a + 10 <= s.len(),
            kw@ == keyword(),
            forall|j: int| 0 <= j < k ==> s@[a + j] == kw@[j],
        decreases 10 - k,
    {
        if s[a + k] != kw[k] {
            assert(s@.subrange(a as int, a + 10)[k as int] != keyword()[k as int]);
            return false;
        }
        k = k + 1;
    }
    assert(s@.subrange(a as int, a + 10) =~= keyword());
    true
}

/// The server that a line of the configuration file names, if any.
pub fn nameserver_from_line(line: &str) -> (r: Option<IpAddress>)
    ensures
        opt_model(r) == nameserver_of_line(line@),
{
    let cs = chars_of(line);
    let s = cs.as_slice();
    let mut end: usize = 0;
    while end < s.len() && s[end] != '#'
        invariant
            end <= s@.len(),
            s@ == line@,
            comment_start(s@, 0) == comment_start(s@, end as nat),
        decreases s@.len() - end,
    {
        end = end + 1;
    }
    assert(before_comment(s@) =~= s@.subrange(0, end as int));
    let (a, b) = trim_range(s, 0, end);
    let ghost content = s@.subrange(a as int, b as int);
    if b - a < 10 {
        return None;
    }
    if !has_keyword(s, a) {
        assert(content.take(10) =~= s@.subrange(a as int, a + 10));
        return None;
    }
    assert(content.take(10) =~= s@.subrange(a as int, a + 10));
    assert(content.skip(10) =~= s@.subrange(a + 10, b as int));
    let (c, d) = trim_range(s, a + 10, b);
    if c == d {
        return None;
    }
    let addr = vstd::slice::slice_subrange(s, c, d);
    parse_ip_chars(addr)
}

/// The servers that the lines of a configuration file name, in the order of
/// the lines.
pub fn nameservers_from_lines(lines: &Vec<String>) -> (r: Vec<IpAddress>)
    ensures
        models(r@) == nameservers_of_lines(lines@.map_values(|l: String| l@)),
{
    let ghost texts = lines@.map_values(|l: String| l@);
    let mut out: Vec<IpAddress> = Vec::new();
    let mut i: usize = 0;
    while i < lines.len()
        invariant
            i <= lines@.len(),
            texts == lines@.map_values(|l: String| l@),
            models(out@) == nameservers_of_lines(texts.take(i as int)),
        decreases lines@.len() - i,
    {
        let found = nameserver_from_line(lines[i].as_str());
        let ghost old_out = out@;
        assert(texts.take(i + 1).drop_last() =~= texts.take(i as int));
        match found {
            Some(a) => {
                out.push(a);
                assert(models(out@) =~= models(old_out) + seq![a@]);
            },
            None => {},
        }
        i = i + 1;
    }
    assert(texts.take(lines@.len() as int) =~= texts);
    out
}


// ---------------------------------------------------------------------------
// Laws.
// ---------------------------------------------------------------------------
/// The servers that two runs of lines name, one run after the other, are
/// those of the first run followed by those of the second.
pub proof fn lemma_lines_concat(a: Seq<Seq<char>>, b: Seq<Seq<char>>)
    ensures
        nameservers_of_lines(a + b) == nameservers_of_lines(a) + nameservers_of_lines(b),
    decreases b.len(),
{
    if b.len() == 0 {
        assert(a + b =~= a);
        assert(nameservers_of_lines(a) + Seq::<IpModel>::empty() =~= nameservers_of_lines(a));
    } else {
        lemma_lines_concat(a, b.drop_last());
        assert((a + b).drop_last() =~= a + b.drop_last());
        assert((a + b).last() == b.last());
        let tail = match nameserver_of_line(b.last()) {
            Some(x) => seq![x],
            None => Seq::<IpModel>::empty(),
        };
        assert(nameservers_of_lines(a) + nameservers_of_lines(b.drop_last()) + tail
            =~= nameservers_of_lines(a) + (nameservers_of_lines(b.drop_last()) + tail));
    }
}

/// An address is among the servers that the lines name exactly when some
/// line names it.
pub proof fn lemma_lines_member(lines: Seq<Seq<char>>, a: IpModel)
    ensures
        nameservers_of_lines(lines).contains(a) <==> exists|i: int|
            0 <= i < lines.len() && nameserver_of_line(#[trigger] lines[i]) == Some(a),
    decreases lines.len(),
{
    if lines.len() > 0 {
        let init = lines.drop_last();
        lemma_lines_member(init, a);
        let tail = match nameserver_of_line(lines.last()) {
            Some(x) => seq![x],
            None => Seq::<IpModel>::empty(),
        };
        let all = nameservers_of_lines(init) + tail;
        assert(nameservers_of_lines(lines) == all);
        if all.contains(a) {
            let k = choose|k: int| 0 <= k < all.len() && all[k] == a;
            if k < nameservers_of_lines(init).len() {
                assert(nameservers_of_lines(init)[k] == a);
                let i = choose|i: int|
                    0 <= i < init.len() && nameserver_of_line(#[trigger] init[i]) == Some(a);
                assert(lines[i] == init[i]);
            } else {
                assert(nameserver_of_line(lines[lines.len() - 1]) == Some(a));
            }
        }
        if exists|i: int| 0 <= i < lines.len() && nameserver_of_line(#[trigger] lines[i]) == Some(a) {
            let i = choose|i: int|
                0 <= i < lines.len() && nameserver_of_line(#[trigger] lines[i]) == Some(a);
            if i < lines.len() - 1 {
                assert(init[i] == lines[i]);
                assert(nameservers_of_lines(init).contains(a));
                let k = choose|k: int|
                    0 <= k < nameservers_of_lines(init).len() && nameservers_of_lines(init)[k] == a;
                assert(all[k] == a);
            } else {
                assert(all[all.len() - 1] == a);
            }
        }
    }
}

/// Where the first `#` of `l + ['#'] + c` stands, counted from `i`: where
/// the first `#` of `l` stands, or the length of `l`.
proof fn lemma_comment_start_appended(l: Seq<char>, c: Seq<char>, i: nat)
    requires
        i <= l.len(),
    ensures
        comment_start(l + seq!['#'] + c, i) == comment_start(l, i),
    decreases l.len() - i,
{
    let t = l + seq!['#'] + c;
    if i < l.len() {
        assert(t[i as int] == l[i as int]);
        if l[i as int] != '#' {
            lemma_comment_start_appended(l, c, i + 1);
        }
    } else {
        assert(t[i as int] == '#');
    }
}

/// `comment_start` never passes the end of the line.
proof fn lemma_comment_start_bound(s: Seq<char>, i: nat)
    requires
        i <= s.len(),
    ensures
        i <= comment_start(s, i) <= s.len(),
    decreases s.len() - i,
{
    if i < s.len() && s[i as int] != '#' {
        lemma_comment_start_bound(s, i + 1);
    }
}

/// Whatever follows a `#` on a line does not change what the line names.
pub proof fn lemma_comment_ignored(l: Seq<char>, c: Seq<char>)
    ensures
        nameserver_of_line(l + seq!['#'] + c) == nameserver_of_line(l),
{
    lemma_comment_start_appended(l, c, 0);
    lemma_comment_start_bound(l, 0);
    assert(before_comment(l + seq!['#'] + c) =~= before_comment(l));
}


/// Leading whitespace before `x` is dropped by [`trim_start`].
proof fn lemma_trim_start_white_prefix(w: Seq<char>, x: Seq<char>)
    requires
        forall|j: int| 0 <= j < w.len() ==> is_white_space(#[trigger] w[j]),
    ensures
        trim_start(w + x) == trim_start(x),
    decreases w.len(),
{
    if w.len() > 0 {
        assert((w + x)[0] == w[0]);
        assert((w + x).drop_first() =~= w.drop_first() + x);
        lemma_trim_start_white_prefix(w.drop_first(), x);
    } else {
        assert(w + x =~= x);
    }
}

/// Whitespace at the start of a line does not change what the line names.
pub proof fn lemma_leading_white_space_ignored(w: Seq<char>, l: Seq<char>)
    requires
        forall|j: int| 0 <= j < w.len() ==> is_white_space(#[trigger] w[j]),
    ensures
        nameserver_of_line(w + l) == nameserver_of_line(l),
{
    assert forall|j: int| 0 <= j < w.len() implies #[trigger] w[j] != '#' by {
        assert(is_white_space(w[j]));
    }
    lemma_comment_start_shift(w, l, 0);
    lemma_comment_start_bound(l, 0);
    assert(before_comment(w + l) =~= w + before_comment(l));
    lemma_trim_start_white_prefix(w, before_comment(l));
}

/// Where the first `#` of `w + l` stands, counted from `i` within `w`, when
/// `w` holds none: past `w`, where the first `#` of `l` stands.
proof fn lemma_comment_start_shift(w: Seq<char>, l: Seq<char>, i: nat)
    requires
        i <= w.len(),
        forall|j: int| 0 <= j < w.len() ==> #[trigger] w[j] != '#',
    ensures
        comment_start(w + l, i) == w.len() + comment_start(l, 0),
    decreases w.len() + l.len() - i,
{
    let t = w + l;
    if i < w.len() {
        assert(t[i as int] == w[i as int]);
        lemma_comment_start_shift(w, l, i + 1);
    } else {
        lemma_comment_start_offset(w, l, 0);
    }
}

/// Counting in `l` from `k` is counting in `w + l` from `w.len() + k`.
proof fn lemma_comment_start_offset(w: Seq<char>, l: Seq<char>, k: nat)
    requires
        k <= l.len(),
    ensures
        comment_start(w + l, w.len() + k) == w.len() + comment_start(l, k),
    decreases l.len() - k,
{
    let t = w + l;
    if k < l.len() {
        assert(t[(w.len() + k) as int] == l[k as int]);
        if l[k as int] != '#' {
            lemma_comment_start_offset(w, l, k + 1);
        }
    }
}

} // verus!

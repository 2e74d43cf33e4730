//! IP addresses in text: the IPv4 and IPv6 forms that the standard library
//! accepts, and the canonical text it writes for them.
//!
//! IPv4: four decimal octets separated by `.`, each of one to three digits,
//! without a leading zero, at most 255.
//!
//! IPv6: colon-separated groups of one to four hexadecimal digits (either
//! case); a single `::` stands for one or more zero groups; the last piece may
//! be an embedded IPv4 address worth two groups, but not in front of the `::`.
//!
//! Canonical text: IPv4 as dotted decimal; IPv6 in lower-case hexadecimal
//! without leading zeros, with the leftmost longest run of at least two zero
//! groups written as `::`, and IPv4-mapped addresses as `::ffff:a.b.c.d`.

use vstd::prelude::*;
use crate::text::{
    push_decimal, push_hex, all_ascii_digits, all_digits, all_hex, dec_string, dec_value, hex_string, hex_value, is_ascii_hexdigit,
    is_digit, is_hex, split, split_on, subvec,
};

verus! {

// ---------------------------------------------------------------------------
// Model
// ---------------------------------------------------------------------------

/// The characters of each vector, in order.
pub open spec fn views(v: Seq<Vec<char>>) -> Seq<Seq<char>> {
    Seq::new(v.len(), |i: int| v[i]@)
}

/// A decimal octet: one to three digits, no leading zero, at most 255.
pub open spec fn octet_value(p: Seq<char>) -> Option<u8> {
    if 1 <= p.len() <= 3 && all_digits(p) && (p.len() == 1 || p[0] != '0') && dec_value(p)
        <= 255 {
        Some(dec_value(p) as u8)
    } else {
        None
    }
}

/// A group: one to four hexadecimal digits.
pub open spec fn group_value(p: Seq<char>) -> Option<u16> {
    if 1 <= p.len() <= 4 && all_hex(p) && hex_value(p) <= 0xffff {
        Some(hex_value(p) as u16)
    } else {
        None
    }
}

/// The octets of a dotted-decimal IPv4 address.
pub open spec fn ipv4_parse(s: Seq<char>) -> Option<Seq<u8>> {
    let parts = split(s, '.');
    if parts.len() == 4 && forall|i: int| 0 <= i < 4 ==> (#[trigger] octet_value(parts[i])) is Some {
        Some(Seq::new(4, |i: int| octet_value(parts[i])->0))
    } else {
        None
    }
}

/// The values of a list of groups, when every piece is a group.
pub open spec fn hex_groups(ps: Seq<Seq<char>>) -> Option<Seq<u16>> {
    if forall|i: int| 0 <= i < ps.len() ==> (#[trigger] group_value(ps[i])) is Some {
        Some(Seq::new(ps.len(), |i: int| group_value(ps[i])->0))
    } else {
        None
    }
}

/// The two groups that an embedded IPv4 address stands for.
pub open spec fn v4_groups(o: Seq<u8>) -> Seq<u16> {
    seq![(o[0] as u16 * 256 + o[1] as u16) as u16, (o[2] as u16 * 256 + o[3] as u16) as u16]
}

/// The values of a list of groups whose last piece may be an embedded IPv4
/// address.
pub open spec fn tail_groups(ps: Seq<Seq<char>>) -> Option<Seq<u16>> {
    if ps.len() > 0 && ipv4_parse(ps.last()) is Some {
        match hex_groups(ps.drop_last()) {
            Some(g) => Some(g + v4_groups(ipv4_parse(ps.last())->0)),
            None => None,
        }
    } else {
        hex_groups(ps)
    }
}

/// The colon-separated pieces of one side of a `::`; an empty side has none.
pub open spec fn side_pieces(s: Seq<char>) -> Seq<Seq<char>> {
    if s.len() == 0 {
        Seq::empty()
    } else {
        split(s, ':')
    }
}

/// `s` holds `::` at index `j`.
pub open spec fn double_colon_at(s: Seq<char>, j: int) -> bool {
    s[j] == ':' && s[j + 1] == ':'
}

/// Index of the first `::` in `s`.
pub open spec fn first_double_colon(s: Seq<char>) -> Option<int>
    decreases s.len(),
{
    if s.len() < 2 {
        None
    } else if s[0] == ':' && s[1] == ':' {
        Some(0)
    } else {
        match first_double_colon(s.drop_first()) {
            Some(i) => Some(i + 1),
            None => None,
        }
    }
}

/// The eight groups of an IPv6 address.
pub open spec fn ipv6_parse(s: Seq<char>) -> Option<Seq<u16>> {
    match first_double_colon(s) {
        None => match tail_groups(split(s, ':')) {
            Some(g) => if g.len() == 8 {
                Some(g)
            } else {
                None
            },
            None => None,
        },
        Some(k) => match (hex_groups(side_pieces(s.take(k))), tail_groups(side_pieces(s.skip(k + 2)))) {
            (Some(h), Some(t)) => if h.len() <= 7 && t.len() <= 7 - h.len() {
                Some(h + Seq::new((8 - h.len() - t.len()) as nat, |i: int| 0u16) + t)
            } else {
                None
            },
            _ => None,
        },
    }
}

/// Dotted-decimal text of four octets.
pub open spec fn ipv4_text(o: Seq<u8>) -> Seq<char> {
    dec_string(o[0] as nat) + seq!['.'] + dec_string(o[1] as nat) + seq!['.'] + dec_string(
        o[2] as nat,
    ) + seq!['.'] + dec_string(o[3] as nat)
}

/// Groups in lower-case hexadecimal, separated by `:`.
pub open spec fn join_hex(g: Seq<u16>) -> Seq<char>
    decreases g.len(),
{
    if g.len() == 0 {
        Seq::empty()
    } else if g.len() == 1 {
        hex_string(g[0] as nat)
    } else {
        join_hex(g.drop_last()) + seq![':'] + hex_string(g.last() as nat)
    }
}

/// Length of the run of zero groups that ends just before index `n`.
pub open spec fn zero_run_end(g: Seq<u16>, n: nat) -> nat
    decreases n,
{
    if n == 0 {
        0
    } else if g[n - 1] == 0 {
        zero_run_end(g, (n - 1) as nat) + 1
    } else {
        0
    }
}

/// Start and length of the leftmost longest run of zero groups among the
/// first `n` groups.
pub open spec fn longest_zero_run(g: Seq<u16>, n: nat) -> (nat, nat)
    decreases n,
{
    if n == 0 {
        (0, 0)
    } else {
        let prev = longest_zero_run(g, (n - 1) as nat);
        let r = zero_run_end(g, n);
        if r > prev.1 {
            ((n - r) as nat, r)
        } else {
            prev
        }
    }
}

pub open spec fn is_v4_mapped(g: Seq<u16>) -> bool {
    g[0] == 0 && g[1] == 0 && g[2] == 0 && g[3] == 0 && g[4] == 0 && g[5] == 0xffff
}

/// The four octets held in the last two groups.
pub open spec fn mapped_octets(g: Seq<u16>) -> Seq<u8> {
    seq![(g[6] / 256) as u8, (g[6] % 256) as u8, (g[7] / 256) as u8, (g[7] % 256) as u8]
}

/// Canonical text of the eight groups of an IPv6 address.
pub open spec fn ipv6_text(g: Seq<u16>) -> Seq<char> {
    if is_v4_mapped(g) {
        seq![':', ':', 'f', 'f', 'f', 'f', ':'] + ipv4_text(mapped_octets(g))
    } else {
        let run = longest_zero_run(g, 8);
        if run.1 > 1 {
            join_hex(g.take(run.0 as int)) + seq![':', ':'] + join_hex(g.skip((run.0 + run.1) as int))
        } else {
            join_hex(g)
        }
    }
}

/// An IP address of either family.
#[derive(Debug, Clone, Copy, PartialEq, Eq)]
pub enum IpAddress {
    V4([u8; 4]),
    V6([u16; 8]),
}

/// The address text as `IpAddr::from_str` reads it: IPv4 first, then IPv6.
pub open spec fn ip_parse(s: Seq<char>) -> Option<IpAddress> {
    match ipv4_parse(s) {
        Some(o) => Some(IpAddress::V4([o[0], o[1], o[2], o[3]])),
        None => match ipv6_parse(s) {
            Some(g) => Some(IpAddress::V6([g[0], g[1], g[2], g[3], g[4], g[5], g[6], g[7]])),
            None => None,
        },
    }
}

/// Canonical text of an address.
pub open spec fn ip_text(a: IpAddress) -> Seq<char> {
    match a {
        IpAddress::V4(o) => ipv4_text(o@),
        IpAddress::V6(g) => ipv6_text(g@),
    }
}

// ---------------------------------------------------------------------------
// Numerals
// ---------------------------------------------------------------------------

proof fn lemma_take_step(s: Seq<char>, i: int)
    requires
        0 <= i < s.len(),
    ensures
        s.take(i + 1).drop_last() == s.take(i),
        s.take(i + 1).last() == s[i],
{
    assert(s.take(i + 1).drop_last() =~= s.take(i));
}

proof fn lemma_dec_value_prefix(s: Seq<char>, i: int)
    requires
        0 <= i <= s.len(),
    ensures
        dec_value(s.take(i)) <= dec_value(s),
    decreases s.len() - i,
{
    if i < s.len() {
        lemma_take_step(s, i);
        lemma_dec_value_prefix(s, i + 1);
    } else {
        assert(s.take(i) =~= s);
    }
}

proof fn lemma_hex_value_prefix(s: Seq<char>, i: int)
    requires
        0 <= i <= s.len(),
    ensures
        hex_value(s.take(i)) <= hex_value(s),
    decreases s.len() - i,
{
    if i < s.len() {
        lemma_take_step(s, i);
        lemma_hex_value_prefix(s, i + 1);
    } else {
        assert(s.take(i) =~= s);
    }
}

/// The value of a string of decimal digits, when it is at most `cap`.
pub fn decimal_value(p: &Vec<char>, cap: u32) -> (r: Option<u32>)
    requires
        all_digits(p@),
        cap <= 0xffff,
    ensures
        r is Some <==> dec_value(p@) <= cap,
        r is Some ==> r->0 == dec_value(p@),
{
    let mut acc: u32 = 0;
    for i in 0..p.len()
        invariant
            all_digits(p@),
            cap <= 0xffff,
            acc <= cap,
            acc == dec_value(p@.take(i as int)),
    {
        proof {
            lemma_take_step(p@, i as int);
            assert(is_digit(p@[i as int]));
        }
        let d = (p[i] as u32) - ('0' as u32);
        acc = acc * 10 + d;
        if acc > cap {
            proof {
                lemma_dec_value_prefix(p@, i + 1);
            }
            return None;
        }
    }
    assert(p@.take(p@.len() as int) =~= p@);
    Some(acc)
}

/// The value of a string of hexadecimal digits, when it is at most `0xffff`.
pub fn hexadecimal_value(p: &Vec<char>) -> (r: Option<u32>)
    requires
        all_hex(p@),
    ensures
        r is Some <==> hex_value(p@) <= 0xffff,
        r is Some ==> r->0 == hex_value(p@),
{
    let mut acc: u32 = 0;
    for i in 0..p.len()
        invariant
            all_hex(p@),
            acc <= 0xffff,
            acc == hex_value(p@.take(i as int)),
    {
        proof {
            lemma_take_step(p@, i as int);
            assert(is_hex(p@[i as int]));
        }
        let c = p[i];
        let d = if '0' <= c && c <= '9' {
            (c as u32) - 48
        } else if 'a' <= c && c <= 'f' {
            (c as u32) - 87
        } else {
            (c as u32) - 55
        };
        acc = acc * 16 + d;
        if acc > 0xffff {
            proof {
                lemma_hex_value_prefix(p@, i + 1);
            }
            return None;
        }
    }
    assert(p@.take(p@.len() as int) =~= p@);
    Some(acc)
}

pub fn parse_octet(p: &Vec<char>) -> (r: Option<u8>)
    ensures
        r == octet_value(p@),
{
    if p.len() < 1 || p.len() > 3 || !all_ascii_digits(p) {
        return None;
    }
    if p.len() > 1 && p[0] == '0' {
        return None;
    }
    match decimal_value(p, 255) {
        Some(v) => Some(v as u8),
        None => None,
    }
}

pub fn parse_group(p: &Vec<char>) -> (r: Option<u16>)
    ensures
        r == group_value(p@),
{
    if p.len() < 1 || p.len() > 4 {
        return None;
    }
    for i in 0..p.len()
        invariant
            forall|j: int| 0 <= j < i ==> is_hex(#[trigger] p@[j]),
    {
        if !is_ascii_hexdigit(p[i]) {
            return None;
        }
    }
    match hexadecimal_value(p) {
        Some(v) => Some(v as u16),
        None => None,
    }
}

// ---------------------------------------------------------------------------
// Parsing
// ---------------------------------------------------------------------------

pub fn parse_ipv4(s: &Vec<char>) -> (r: Option<[u8; 4]>)
    ensures
        r is Some <==> ipv4_parse(s@) is Some,
        r is Some ==> r->0@ == ipv4_parse(s@)->0,
{
    let parts = split_on(s, '.');
    let ghost ps = split(s@, '.');
    if parts.len() != 4 {
        return None;
    }
    let a = parse_octet(&parts[0]);
    let b = parse_octet(&parts[1]);
    let c = parse_octet(&parts[2]);
    let d = parse_octet(&parts[3]);
    match (a, b, c, d) {
        (Some(a), Some(b), Some(c), Some(d)) => {
            assert(forall|i: int| 0 <= i < 4 ==> (#[trigger] octet_value(ps[i])) is Some) by {
                assert(parts@[0]@ == ps[0]);
                assert(parts@[1]@ == ps[1]);
                assert(parts@[2]@ == ps[2]);
                assert(parts@[3]@ == ps[3]);
            }
            let r = [a, b, c, d];
            assert(r@ =~= ipv4_parse(s@)->0);
            Some(r)
        },
        _ => {
            assert(parts@[0]@ == ps[0]);
            assert(parts@[1]@ == ps[1]);
            assert(parts@[2]@ == ps[2]);
            assert(parts@[3]@ == ps[3]);
            None
        },
    }
}

/// The values of the first `n` pieces, when each is a group.
fn parse_groups(parts: &Vec<Vec<char>>, n: usize) -> (r: Option<Vec<u16>>)
    requires
        n <= parts@.len(),
    ensures
        r is Some <==> hex_groups(views(parts@).take(n as int)) is Some,
        r is Some ==> r->0@ == hex_groups(views(parts@).take(n as int))->0,
{
    let ghost ps = views(parts@).take(n as int);
    let mut out: Vec<u16> = Vec::new();
    for i in 0..n
        invariant
            n <= parts@.len(),
            ps == views(parts@).take(n as int),
            out@.len() == i,
            forall|k: int| 0 <= k < i ==> (#[trigger] group_value(ps[k])) is Some && out@[k]
                == group_value(ps[k])->0,
    {
        match parse_group(&parts[i]) {
            Some(g) => {
                out.push(g);
            },
            None => {
                assert(group_value(ps[i as int]) is None);
                return None;
            },
        }
    }
    assert(out@ =~= hex_groups(ps)->0);
    Some(out)
}

/// The values of pieces whose last piece may be an embedded IPv4 address.
fn parse_tail_groups(parts: &Vec<Vec<char>>) -> (r: Option<Vec<u16>>)
    ensures
        r is Some <==> tail_groups(views(parts@)) is Some,
        r is Some ==> r->0@ == tail_groups(views(parts@))->0,
{
    let ghost ps = views(parts@);
    let n = parts.len();
    if n > 0 {
        assert(ps.last() == parts@[n - 1]@);
        if let Some(o) = parse_ipv4(&parts[n - 1]) {
            assert(ps.drop_last() =~= views(parts@).take(n - 1));
            match parse_groups(parts, n - 1) {
                Some(mut g) => {
                    let hi = (o[0] as u16) * 256 + (o[1] as u16);
                    let lo = (o[2] as u16) * 256 + (o[3] as u16);
                    g.push(hi);
                    g.push(lo);
                    assert(g@ =~= tail_groups(ps)->0);
                    return Some(g);
                },
                None => {
                    return None;
                },
            }
        }
    }
    assert(views(parts@).take(n as int) =~= ps);
    parse_groups(parts, n)
}

pub proof fn lemma_first_double_colon(s: Seq<char>, i: int)
    requires
        0 <= i <= s.len(),
        forall|j: int| 0 <= j < i && j + 1 < s.len() ==> !double_colon_at(s, j),
        i + 1 < s.len() ==> s[i] == ':' && s[i + 1] == ':',
    ensures
        first_double_colon(s) == (if i + 1 < s.len() {
            Some(i)
        } else {
            None::<int>
        }),
    decreases i,
{
    if s.len() >= 2 && i > 0 {
        let t = s.drop_first();
        assert(!double_colon_at(s, 0));
        assert forall|j: int| 0 <= j < i - 1 && j + 1 < t.len() implies !double_colon_at(t, j) by {
            assert(t[j] == s[j + 1] && t[j + 1] == s[j + 2]);
            assert(!double_colon_at(s, j + 1));
        }
        lemma_first_double_colon(t, i - 1);
    }
}

fn find_double_colon(s: &Vec<char>) -> (r: Option<usize>)
    ensures
        r is Some ==> first_double_colon(s@) == Some(r->0 as int) && r->0 + 1 < s@.len(),
        r is None ==> first_double_colon(s@) is None,
{
    let n = s.len();
    let mut i: usize = 0;
    while i < n && i + 1 < n
        invariant
            n == s@.len(),
            i <= n,
            forall|j: int| 0 <= j < i && j + 1 < n ==> !double_colon_at(s@, j),
        decreases n - i,
    {
        if s[i] == ':' && s[i + 1] == ':' {
            proof {
                lemma_first_double_colon(s@, i as int);
            }
            return Some(i);
        }
        i = i + 1;
    }
    proof {
        let k = if n == 0 { 0 } else { (n - 1) as int };
        lemma_first_double_colon(s@, k);
    }
    None
}

/// The pieces of one side of a `::`.
fn pieces_of(s: &Vec<char>) -> (r: Vec<Vec<char>>)
    ensures
        views(r@) == side_pieces(s@),
{
    if s.len() == 0 {
        let r: Vec<Vec<char>> = Vec::new();
        assert(views(r@) =~= side_pieces(s@));
        r
    } else {
        let r = split_on(s, ':');
        assert(views(r@) =~= side_pieces(s@));
        r
    }
}

/// Head groups, then zero groups, then tail groups: eight in all.
fn assemble(h: &Vec<u16>, t: &Vec<u16>) -> (r: [u16; 8])
    requires
        h@.len() + t@.len() <= 7,
    ensures
        r@ == h@ + Seq::new((8 - h@.len() - t@.len()) as nat, |i: int| 0u16) + t@,
{
    let gap = 8 - h.len() - t.len();
    let mut g: Vec<u16> = Vec::new();
    for i in 0..h.len()
        invariant
            g@ =~= h@.take(i as int),
    {
        g.push(h[i]);
    }
    assert(h@.take(h@.len() as int) =~= h@);
    for i in 0..gap
        invariant
            g@ =~= h@ + Seq::new(i as nat, |j: int| 0u16),
    {
        g.push(0);
    }
    for i in 0..t.len()
        invariant
            g@ =~= h@ + Seq::new(gap as nat, |j: int| 0u16) + t@.take(i as int),
    {
        g.push(t[i]);
    }
    assert(t@.take(t@.len() as int) =~= t@);
    let r = [g[0], g[1], g[2], g[3], g[4], g[5], g[6], g[7]];
    assert(r@ =~= g@);
    r
}

/// An address without `::`: eight groups, the last two possibly as IPv4.
fn parse_ipv6_full(s: &Vec<char>) -> (r: Option<[u16; 8]>)
    requires
        first_double_colon(s@) is None,
    ensures
        r is Some <==> ipv6_parse(s@) is Some,
        r is Some ==> r->0@ == ipv6_parse(s@)->0,
{
    let parts = split_on(s, ':');
    assert(views(parts@) =~= split(s@, ':'));
    match parse_tail_groups(&parts) {
        Some(g) => {
            if g.len() == 8 {
                let r = [g[0], g[1], g[2], g[3], g[4], g[5], g[6], g[7]];
                assert(r@ =~= g@);
                Some(r)
            } else {
                None
            }
        },
        None => None,
    }
}

/// An address with its first `::` at index `k`.
fn parse_ipv6_compressed(s: &Vec<char>, k: usize) -> (r: Option<[u16; 8]>)
    requires
        first_double_colon(s@) == Some(k as int),
        k + 1 < s@.len(),
    ensures
        r is Some <==> ipv6_parse(s@) is Some,
        r is Some ==> r->0@ == ipv6_parse(s@)->0,
{
    let n = s.len();
    let head = subvec(s, 0, k);
    let tail = subvec(s, k + 2, n);
    assert(head@ =~= s@.take(k as int));
    assert(tail@ =~= s@.skip(k + 2));
    let hp = pieces_of(&head);
    let tp = pieces_of(&tail);
    assert(views(hp@).take(hp@.len() as int) =~= views(hp@));
    let h = parse_groups(&hp, hp.len());
    let t = parse_tail_groups(&tp);
    match (h, t) {
        (Some(h), Some(t)) => {
            if h.len() <= 7 && t.len() <= 7 - h.len() {
                Some(assemble(&h, &t))
            } else {
                None
            }
        },
        _ => None,
    }
}

pub fn parse_ipv6(s: &Vec<char>) -> (r: Option<[u16; 8]>)
    ensures
        r is Some <==> ipv6_parse(s@) is Some,
        r is Some ==> r->0@ == ipv6_parse(s@)->0,
{
    match find_double_colon(s) {
        None => parse_ipv6_full(s),
        Some(k) => parse_ipv6_compressed(s, k),
    }
}

/// Reads an address as `IpAddr::from_str` does: IPv4 first, then IPv6.
pub fn parse_ip(s: &Vec<char>) -> (r: Option<IpAddress>)
    ensures
        r == ip_parse(s@),
{
    match parse_ipv4(s) {
        Some(o) => {
            assert(o@ =~= ipv4_parse(s@)->0);
            let ghost q = ipv4_parse(s@)->0;
            assert(o == [q[0], q[1], q[2], q[3]]);
            Some(IpAddress::V4(o))
        },
        None => match parse_ipv6(s) {
            Some(g) => {
                let ghost q = ipv6_parse(s@)->0;
                assert(g == [q[0], q[1], q[2], q[3], q[4], q[5], q[6], q[7]]);
                Some(IpAddress::V6(g))
            },
            None => None,
        },
    }
}

// ---------------------------------------------------------------------------
// Canonical text
// ---------------------------------------------------------------------------

pub fn push_ipv4_text(out: &mut Vec<char>, o: [u8; 4])
    ensures
        final(out)@ == old(out)@ + ipv4_text(o@),
{
    push_decimal(out, o[0] as u32);
    out.push('.');
    push_decimal(out, o[1] as u32);
    out.push('.');
    push_decimal(out, o[2] as u32);
    out.push('.');
    push_decimal(out, o[3] as u32);
    assert(final(out)@ =~= old(out)@ + ipv4_text(o@));
}

proof fn lemma_join_hex_step(g: Seq<u16>, lo: int, i: int)
    requires
        0 <= lo <= i < g.len(),
    ensures
        join_hex(g.subrange(lo, i + 1)) == if i == lo {
            hex_string(g[i] as nat)
        } else {
            join_hex(g.subrange(lo, i)) + seq![':'] + hex_string(g[i] as nat)
        },
{
    let t = g.subrange(lo, i + 1);
    assert(t.drop_last() =~= g.subrange(lo, i));
    assert(t.last() == g[i]);
}

/// Writes groups `lo..hi` in hexadecimal, separated by `:`.
fn push_join_hex(out: &mut Vec<char>, g: &[u16; 8], lo: usize, hi: usize)
    requires
        lo <= hi <= 8,
    ensures
        final(out)@ == old(out)@ + join_hex(g@.subrange(lo as int, hi as int)),
{
    let mut i = lo;
    assert(g@.subrange(lo as int, lo as int) =~= Seq::<u16>::empty());
    assert(out@ =~= old(out)@ + join_hex(g@.subrange(lo as int, lo as int)));
    while i < hi
        invariant
            lo <= i <= hi <= 8,
            out@ == old(out)@ + join_hex(g@.subrange(lo as int, i as int)),
        decreases hi - i,
    {
        proof {
            lemma_join_hex_step(g@, lo as int, i as int);
        }
        if i > lo {
            out.push(':');
        }
        push_hex(out, g[i] as u32);
        assert(out@ =~= old(out)@ + join_hex(g@.subrange(lo as int, i + 1)));
        i = i + 1;
    }
}

/// Start and length of the leftmost longest run of zero groups.
fn longest_zeros(g: &[u16; 8]) -> (r: (usize, usize))
    ensures
        r.0 as nat == longest_zero_run(g@, 8).0,
        r.1 as nat == longest_zero_run(g@, 8).1,
        r.0 + r.1 <= 8,
{
    let mut best_start: usize = 0;
    let mut best_len: usize = 0;
    let mut cur_len: usize = 0;
    for i in 0..8
        invariant
            cur_len as nat == zero_run_end(g@, i as nat),
            cur_len <= i,
            best_start as nat == longest_zero_run(g@, i as nat).0,
            best_len as nat == longest_zero_run(g@, i as nat).1,
            best_start + best_len <= i,
    {
        if g[i] == 0 {
            cur_len = cur_len + 1;
        } else {
            cur_len = 0;
        }
        if cur_len > best_len {
            best_start = i + 1 - cur_len;
            best_len = cur_len;
        }
    }
    (best_start, best_len)
}

pub fn ipv6_to_text(g: [u16; 8]) -> (r: Vec<char>)
    ensures
        r@ == ipv6_text(g@),
{
    let mut out: Vec<char> = Vec::new();
    if g[0] == 0 && g[1] == 0 && g[2] == 0 && g[3] == 0 && g[4] == 0 && g[5] == 0xffff {
        out.push(':');
        out.push(':');
        out.push('f');
        out.push('f');
        out.push('f');
        out.push('f');
        out.push(':');
        let o = [(g[6] / 256) as u8, (g[6] % 256) as u8, (g[7] / 256) as u8, (g[7] % 256) as u8];
        assert(o@ =~= mapped_octets(g@));
        push_ipv4_text(&mut out, o);
        assert(out@ =~= ipv6_text(g@));
        return out;
    }
    let (start, len) = longest_zeros(&g);
    if len > 1 {
        push_join_hex(&mut out, &g, 0, start);
        out.push(':');
        out.push(':');
        push_join_hex(&mut out, &g, start + len, 8);
        assert(g@.subrange(0, start as int) =~= g@.take(start as int));
        assert(g@.subrange((start + len) as int, 8) =~= g@.skip((start + len) as int));
    } else {
        push_join_hex(&mut out, &g, 0, 8);
        assert(g@.subrange(0, 8) =~= g@);
    }
    assert(out@ =~= ipv6_text(g@));
    out
}

pub fn ip_to_text(a: &IpAddress) -> (r: Vec<char>)
    ensures
        r@ == ip_text(*a),
{
    match a {
        IpAddress::V4(o) => {
            let mut out: Vec<char> = Vec::new();
            push_ipv4_text(&mut out, *o);
            assert(out@ =~= ip_text(*a));
            out
        },
        IpAddress::V6(g) => ipv6_to_text(*g),
    }
}

// ---------------------------------------------------------------------------
// Order
// ---------------------------------------------------------------------------

/// The number that an IPv4 address spells, octets taken big-endian.
pub open spec fn v4_number(o: Seq<u8>) -> int {
    o[0] * 0x100_0000 + o[1] * 0x1_0000 + o[2] * 0x100 + o[3]
}

/// The number that an IPv6 address spells, groups taken big-endian.
pub open spec fn v6_number(g: Seq<u16>) -> int {
    g[0] * 0x1_0000_0000_0000_0000_0000_0000_0000 + g[1] * 0x1_0000_0000_0000_0000_0000_0000
        + g[2] * 0x1_0000_0000_0000_0000_0000 + g[3] * 0x1_0000_0000_0000_0000 + g[4]
        * 0x1_0000_0000_0000 + g[5] * 0x1_0000_0000 + g[6] * 0x1_0000 + g[7]
}

/// The position of an address in the order of std's `IpAddr`: every IPv4
/// address first, by its number, then every IPv6 address, by its number.
pub open spec fn ip_rank(a: IpAddress) -> int {
    match a {
        IpAddress::V4(o) => v4_number(o@),
        IpAddress::V6(g) => 0x1_0000_0000 + v6_number(g@),
    }
}

proof fn lemma_v4_number_injective(x: Seq<u8>, y: Seq<u8>)
    requires
        x.len() == 4,
        y.len() == 4,
        v4_number(x) == v4_number(y),
    ensures
        x == y,
{
    if x[0] != y[0] {
    } else if x[1] != y[1] {
    } else if x[2] != y[2] {
    } else {
        assert(x =~= y);
    }
}

proof fn lemma_v6_number_injective(x: Seq<u16>, y: Seq<u16>)
    requires
        x.len() == 8,
        y.len() == 8,
        v6_number(x) == v6_number(y),
    ensures
        x == y,
{
    if x[0] != y[0] {
    } else if x[1] != y[1] {
    } else if x[2] != y[2] {
    } else if x[3] != y[3] {
    } else if x[4] != y[4] {
    } else if x[5] != y[5] {
    } else if x[6] != y[6] {
    } else {
        assert(x =~= y);
    }
}

/// Different addresses have different ranks.
pub proof fn lemma_rank_injective(a: IpAddress, b: IpAddress)
    requires
        ip_rank(a) == ip_rank(b),
    ensures
        a == b,
{
    match (a, b) {
        (IpAddress::V4(x), IpAddress::V4(y)) => {
            lemma_v4_number_injective(x@, y@);
            assert(x == y);
        },
        (IpAddress::V6(x), IpAddress::V6(y)) => {
            lemma_v6_number_injective(x@, y@);
            assert(x == y);
        },
        (IpAddress::V4(x), IpAddress::V6(y)) => {
            assert(v4_number(x@) < 0x1_0000_0000);
        },
        (IpAddress::V6(x), IpAddress::V4(y)) => {
            assert(v4_number(y@) < 0x1_0000_0000);
        },
    }
}

fn v4_precedes(x: [u8; 4], y: [u8; 4]) -> (r: bool)
    ensures
        r == (v4_number(x@) < v4_number(y@)),
{
    let mut i: usize = 0;
    while i < 4
        invariant
            i <= 4,
            forall|k: int| 0 <= k < i ==> x@[k] == y@[k],
        decreases 4 - i,
    {
        if x[i] != y[i] {
            return x[i] < y[i];
        }
        i = i + 1;
    }
    assert(x@ =~= y@);
    false
}

fn v6_precedes(x: [u16; 8], y: [u16; 8]) -> (r: bool)
    ensures
        r == (v6_number(x@) < v6_number(y@)),
{
    let mut i: usize = 0;
    while i < 8
        invariant
            i <= 8,
            forall|k: int| 0 <= k < i ==> x@[k] == y@[k],
        decreases 8 - i,
    {
        if x[i] != y[i] {
            return x[i] < y[i];
        }
        i = i + 1;
    }
    assert(x@ =~= y@);
    false
}

/// Whether `a` comes before `b` in the order of std's `IpAddr`.
pub fn precedes(a: &IpAddress, b: &IpAddress) -> (r: bool)
    ensures
        r == (ip_rank(*a) < ip_rank(*b)),
{
    match (a, b) {
        (IpAddress::V4(x), IpAddress::V4(y)) => v4_precedes(*x, *y),
        (IpAddress::V6(x), IpAddress::V6(y)) => v6_precedes(*x, *y),
        (IpAddress::V4(x), IpAddress::V6(_)) => {
            assert(v4_number(x@) < 0x1_0000_0000);
            true
        },
        (IpAddress::V6(_), IpAddress::V4(y)) => {
            assert(v4_number(y@) < 0x1_0000_0000);
            false
        },
    }
}

} // verus!

//! The canonical name of a target names that same target again: parsing
//! the `display` of a parsed target gives back that target. This is what
//! lets the saved list of sites be read back unchanged.

use vstd::prelude::*;
use crate::ip::{
    ipv6_parse, ipv6_text, is_v4_mapped, lemma_first_double_colon, longest_zero_run,
    mapped_octets, v4_groups, zero_run_end, double_colon_at, first_double_colon, group_value, hex_groups, ipv4_parse, ipv4_text, join_hex,
    octet_value, side_pieces, tail_groups,
};
use crate::host::{
    valid_hostname, valid_label, ParseError, TargetModel, authority, after_last, before_first, bracketed_spec, finish_host_spec, format_display_spec,
    http_prefix, https_prefix, ip_target_spec, normalize_port_spec, parse_target_spec, port_spec,
    slashes_prefix, split_host_port_spec, starts_with_ci, strip_scheme, trim, trim_end,
    trim_start, u16_value, v6_address,
};
use crate::ip::{ip_parse, ip_text, IpAddress};
use crate::text::{
    is_alnum, is_upper, first_index_of, last_index_of, lemma_first_index_of, lemma_first_index_of_found,
    lemma_last_index_of, lemma_last_index_of_found, lower, lower_seq, contains_char, has_ws, is_ws, lemma_split_nonempty, lemma_split_piece, lemma_split_single,
    split, all_digits, all_hex, dec_string, dec_value, digit_char, digit_val, hex_digit_char, hex_string,
    hex_val, hex_value, is_digit, is_hex,
};

verus! {

// ---------------------------------------------------------------------------
// Numerals
// ---------------------------------------------------------------------------

proof fn lemma_digit_char(d: nat)
    requires
        d < 10,
    ensures
        is_digit(digit_char(d)),
        is_hex(digit_char(d)),
        digit_val(digit_char(d)) == d,
        hex_val(digit_char(d)) == d,
        (digit_char(d) == '0') == (d == 0),
{
}

proof fn lemma_hex_digit_char(d: nat)
    requires
        d < 16,
    ensures
        is_hex(hex_digit_char(d)),
        hex_val(hex_digit_char(d)) == d,
        !('A' <= hex_digit_char(d) && hex_digit_char(d) <= 'Z'),
{
}

/// The decimal numeral of `n`: digits without a leading zero, denoting `n`.
pub proof fn lemma_dec_string(n: nat)
    ensures
        dec_string(n).len() >= 1,
        all_digits(dec_string(n)),
        dec_value(dec_string(n)) == n,
        dec_string(n)[0] == '0' ==> n == 0,
        n < 10 ==> dec_string(n).len() == 1,
        n < 100 ==> dec_string(n).len() <= 2,
        n < 1000 ==> dec_string(n).len() <= 3,
    decreases n,
{
    if n < 10 {
        lemma_digit_char(n);
        let s = dec_string(n);
        assert(s.drop_last() =~= Seq::<char>::empty());
        assert(dec_value(s) == dec_value(s.drop_last()) * 10 + digit_val(s.last()));
    } else {
        lemma_dec_string(n / 10);
        lemma_digit_char(n % 10);
        let s = dec_string(n);
        let p = dec_string(n / 10);
        assert(s == p.push(digit_char(n % 10)));
        assert(s.drop_last() =~= p);
        assert(s[0] == p[0]);
        assert(s.last() == digit_char(n % 10));
        assert(dec_value(s) == dec_value(p) * 10 + digit_val(digit_char(n % 10)));
        assert forall|i: int| 0 <= i < s.len() implies #[trigger] is_digit(s[i]) by {
            if i < p.len() {
                assert(s[i] == p[i]);
            }
        }
    }
}

/// The hexadecimal numeral of `n`: lower-case hex digits denoting `n`, at
/// most four of them when `n` fits in 16 bits.
pub proof fn lemma_hex_string(n: nat)
    ensures
        hex_string(n).len() >= 1,
        all_hex(hex_string(n)),
        hex_value(hex_string(n)) == n,
        forall|i: int|
            0 <= i < hex_string(n).len() ==> !('A' <= #[trigger] hex_string(n)[i] && hex_string(
                n,
            )[i] <= 'Z'),
        n < 16 ==> hex_string(n).len() == 1,
        n < 256 ==> hex_string(n).len() <= 2,
        n < 4096 ==> hex_string(n).len() <= 3,
        n < 65536 ==> hex_string(n).len() <= 4,
    decreases n,
{
    if n < 16 {
        lemma_hex_digit_char(n);
        let s = hex_string(n);
        assert(s.drop_last() =~= Seq::<char>::empty());
        assert(hex_value(s) == hex_value(s.drop_last()) * 16 + hex_val(s.last()));
    } else {
        lemma_hex_string(n / 16);
        lemma_hex_digit_char(n % 16);
        let s = hex_string(n);
        let p = hex_string(n / 16);
        assert(s == p.push(hex_digit_char(n % 16)));
        assert(s.drop_last() =~= p);
        assert(s.last() == hex_digit_char(n % 16));
        assert(hex_value(s) == hex_value(p) * 16 + hex_val(hex_digit_char(n % 16)));
        assert forall|i: int| 0 <= i < s.len() implies #[trigger] is_hex(s[i]) by {
            if i < p.len() {
                assert(s[i] == p[i]);
            }
        }
        assert forall|i: int| 0 <= i < s.len() implies !('A' <= #[trigger] s[i] && s[i] <= 'Z') by {
            if i < p.len() {
                assert(s[i] == p[i]);
            }
        }
    }
}

// ---------------------------------------------------------------------------
// Characters of canonical text
// ---------------------------------------------------------------------------

/// A character of address text: a hex digit, `:` or `.`.
pub open spec fn tame_char(c: char) -> bool {
    is_hex(c) || c == ':' || c == '.'
}

pub open spec fn tame(s: Seq<char>) -> bool {
    forall|i: int| 0 <= i < s.len() ==> tame_char(#[trigger] s[i])
}

proof fn lemma_tame_concat(a: Seq<char>, b: Seq<char>)
    requires
        tame(a),
        tame(b),
    ensures
        tame(a + b),
{
    assert forall|i: int| 0 <= i < (a + b).len() implies tame_char(#[trigger] (a + b)[i]) by {
        if i < a.len() {
            assert((a + b)[i] == a[i]);
        } else {
            assert((a + b)[i] == b[i - a.len()]);
        }
    }
}

proof fn lemma_tame_facts(s: Seq<char>)
    requires
        tame(s),
    ensures
        !has_ws(s),
        !contains_char(s, '@'),
        !contains_char(s, '/'),
        !contains_char(s, '['),
        !contains_char(s, ']'),
{
    assert forall|i: int| 0 <= i < s.len() implies !is_ws(#[trigger] s[i]) by {
        assert(tame_char(s[i]));
    }
    assert forall|i: int| 0 <= i < s.len() implies s[i] != '@' && s[i] != '/' && s[i] != '['
        && s[i] != ']' by {
        assert(tame_char(s[i]));
    }
}

proof fn lemma_digits_tame(s: Seq<char>)
    requires
        all_digits(s),
    ensures
        tame(s),
        !contains_char(s, '.'),
        !contains_char(s, ':'),
        !contains_char(s, '+'),
{
    assert forall|i: int| 0 <= i < s.len() implies tame_char(#[trigger] s[i]) && s[i] != '.'
        && s[i] != ':' && s[i] != '+' by {
        assert(is_digit(s[i]));
    }
}

proof fn lemma_hex_tame(s: Seq<char>)
    requires
        all_hex(s),
    ensures
        tame(s),
        !contains_char(s, '.'),
        !contains_char(s, ':'),
{
    assert forall|i: int| 0 <= i < s.len() implies tame_char(#[trigger] s[i]) && s[i] != '.'
        && s[i] != ':' by {
        assert(is_hex(s[i]));
    }
}

proof fn lemma_not_contains_concat(a: Seq<char>, b: Seq<char>, c: char)
    requires
        !contains_char(a, c),
        !contains_char(b, c),
    ensures
        !contains_char(a + b, c),
{
    if contains_char(a + b, c) {
        let i = choose|i: int| 0 <= i < (a + b).len() && (a + b)[i] == c;
        if i < a.len() {
            assert(a[i] == c);
        } else {
            assert(b[i - a.len()] == c);
        }
    }
}

// ---------------------------------------------------------------------------
// Splitting joined text
// ---------------------------------------------------------------------------

/// The last piece, after the last separator.
proof fn lemma_split_last(y: Seq<char>, sep: char, x: Seq<char>)
    requires
        !contains_char(x, sep),
    ensures
        split(y + seq![sep] + x, sep) == split(y, sep).push(x),
    decreases y.len(),
{
    let s = y + seq![sep] + x;
    lemma_split_single(x, sep);
    if y.len() == 0 {
        assert(s.drop_first() =~= x);
        assert(s[0] == sep);
        assert(y =~= Seq::<char>::empty());
        assert(split(s, sep) == seq![Seq::<char>::empty()] + split(s.drop_first(), sep));
        assert(split(s, sep) =~= split(y, sep).push(x));
    } else {
        let t = y.drop_first();
        lemma_split_last(t, sep, x);
        lemma_split_nonempty(t, sep);
        assert(s.drop_first() =~= t + seq![sep] + x);
        assert(s[0] == y[0]);
        let r = split(s.drop_first(), sep);
        let q = split(t, sep);
        assert(r == q.push(x));
        if y[0] == sep {
            assert(split(s, sep) == seq![Seq::<char>::empty()] + r);
            assert(split(y, sep) == seq![Seq::<char>::empty()] + q);
            assert(split(s, sep) =~= split(y, sep).push(x));
        } else {
            assert(split(s, sep) == r.update(0, seq![y[0]] + r[0]));
            assert(split(y, sep) == q.update(0, seq![y[0]] + q[0]));
            assert(r[0] == q[0]);
            assert(split(s, sep) =~= split(y, sep).push(x));
        }
    }
}

/// The hexadecimal numerals of groups.
pub open spec fn hex_pieces(g: Seq<u16>) -> Seq<Seq<char>> {
    Seq::new(g.len(), |i: int| hex_string(g[i] as nat))
}

/// No `::` in `s`.
pub open spec fn no_double_colon(s: Seq<char>) -> bool {
    forall|j: int| 0 <= j && j + 1 < s.len() ==> !#[trigger] double_colon_at(s, j)
}

/// Groups joined by `:`: address characters starting and ending with a hex
/// digit, without `::` or `.`, splitting back into the numerals.
proof fn lemma_join_hex(g: Seq<u16>)
    requires
        g.len() >= 1,
    ensures
        join_hex(g).len() >= 1,
        tame(join_hex(g)),
        is_hex(join_hex(g)[0]),
        is_hex(join_hex(g).last()),
        no_double_colon(join_hex(g)),
        !contains_char(join_hex(g), '.'),
        split(join_hex(g), ':') == hex_pieces(g),
    decreases g.len(),
{
    let j = join_hex(g);
    if g.len() == 1 {
        lemma_hex_string(g[0] as nat);
        lemma_hex_tame(j);
        lemma_split_single(j, ':');
        assert(hex_pieces(g) =~= seq![j]);
        assert forall|k: int| 0 <= k && k + 1 < j.len() implies !#[trigger] double_colon_at(j, k) by {
            assert(is_hex(j[k]));
        }
    } else {
        let p = g.drop_last();
        let jp = join_hex(p);
        let h = hex_string(g.last() as nat);
        lemma_join_hex(p);
        lemma_hex_string(g.last() as nat);
        lemma_hex_tame(h);
        assert(j == jp + seq![':'] + h);
        lemma_tame_concat(jp, seq![':']);
        lemma_tame_concat(jp + seq![':'], h);
        assert(j[0] == jp[0]);
        assert(j.last() == h.last());
        assert forall|k: int| 0 <= k && k + 1 < j.len() implies !#[trigger] double_colon_at(j, k) by {
            if k + 1 < jp.len() {
                assert(j[k] == jp[k] && j[k + 1] == jp[k + 1]);
                assert(!double_colon_at(jp, k));
            } else if k + 1 == jp.len() {
                assert(j[k] == jp.last());
            } else if k == jp.len() {
                assert(j[k + 1] == h[0]);
                assert(is_hex(h[0]));
            } else {
                assert(j[k] == h[k - jp.len() - 1]);
                assert(is_hex(h[k - jp.len() - 1]));
            }
        }
        lemma_not_contains_concat(jp, seq![':'], '.');
        lemma_not_contains_concat(jp + seq![':'], h, '.');
        lemma_split_last(jp, ':', h);
        assert(hex_pieces(g) =~= hex_pieces(p).push(h));
    }
}

// ---------------------------------------------------------------------------
// Address text reads back
// ---------------------------------------------------------------------------

proof fn lemma_octet_of_dec(n: nat)
    requires
        n <= 255,
    ensures
        octet_value(dec_string(n)) == Some(n as u8),
{
    lemma_dec_string(n);
}

proof fn lemma_group_of_hex(n: nat)
    requires
        n <= 0xffff,
    ensures
        group_value(hex_string(n)) == Some(n as u16),
{
    lemma_hex_string(n);
}

/// Dotted-decimal text reads back as the same four octets.
pub proof fn lemma_ipv4_round_trip(o: Seq<u8>)
    requires
        o.len() == 4,
    ensures
        ipv4_parse(ipv4_text(o)) == Some(o),
        tame(ipv4_text(o)),
        !contains_char(ipv4_text(o), ':'),
        ipv4_text(o).len() >= 1,
        is_digit(ipv4_text(o)[0]),
{
    let d0 = dec_string(o[0] as nat);
    let d1 = dec_string(o[1] as nat);
    let d2 = dec_string(o[2] as nat);
    let d3 = dec_string(o[3] as nat);
    lemma_dec_string(o[0] as nat);
    lemma_dec_string(o[1] as nat);
    lemma_dec_string(o[2] as nat);
    lemma_dec_string(o[3] as nat);
    lemma_digits_tame(d0);
    lemma_digits_tame(d1);
    lemma_digits_tame(d2);
    lemma_digits_tame(d3);
    let t = ipv4_text(o);
    let dot = seq!['.'];
    assert(t =~= d0 + dot + (d1 + dot + (d2 + dot + d3)));
    lemma_split_piece(d0, '.', d1 + dot + (d2 + dot + d3));
    lemma_split_piece(d1, '.', d2 + dot + d3);
    lemma_split_piece(d2, '.', d3);
    lemma_split_single(d3, '.');
    assert(split(t, '.') =~= seq![d0, d1, d2, d3]);
    lemma_octet_of_dec(o[0] as nat);
    lemma_octet_of_dec(o[1] as nat);
    lemma_octet_of_dec(o[2] as nat);
    lemma_octet_of_dec(o[3] as nat);
    let ps = split(t, '.');
    assert(forall|i: int| 0 <= i < 4 ==> (#[trigger] octet_value(ps[i])) is Some) by {
        assert(ps[0] == d0 && ps[1] == d1 && ps[2] == d2 && ps[3] == d3);
    }
    assert(Seq::new(4, |i: int| octet_value(ps[i])->0) =~= o);
    assert(tame(dot)) by {
        assert(tame_char(dot[0]));
    }
    lemma_tame_concat(d2, dot);
    lemma_tame_concat(d2 + dot, d3);
    lemma_tame_concat(d1, dot);
    lemma_tame_concat(d1 + dot, d2 + dot + d3);
    lemma_tame_concat(d0, dot);
    lemma_tame_concat(d0 + dot, d1 + dot + (d2 + dot + d3));
    assert(!contains_char(dot, ':'));
    lemma_not_contains_concat(d2, dot, ':');
    lemma_not_contains_concat(d2 + dot, d3, ':');
    lemma_not_contains_concat(d1, dot, ':');
    lemma_not_contains_concat(d1 + dot, d2 + dot + d3, ':');
    lemma_not_contains_concat(d0, dot, ':');
    lemma_not_contains_concat(d0 + dot, d1 + dot + (d2 + dot + d3), ':');
    assert(t[0] == d0[0]);
}

// ---------------------------------------------------------------------------
// IPv6 text reads back
// ---------------------------------------------------------------------------

/// The run of zeros ending at `n`, and the longest one before `n`, lie
/// within the first `n` groups and hold zeros only.
proof fn lemma_zero_runs(g: Seq<u16>, n: nat)
    requires
        n <= g.len(),
    ensures
        zero_run_end(g, n) <= n,
        forall|k: int| n - zero_run_end(g, n) <= k < n ==> g[k] == 0,
        longest_zero_run(g, n).0 + longest_zero_run(g, n).1 <= n,
        forall|k: int|
            longest_zero_run(g, n).0 <= k < longest_zero_run(g, n).0 + longest_zero_run(g, n).1
                ==> g[k] == 0,
    decreases n,
{
    if n > 0 {
        lemma_zero_runs(g, (n - 1) as nat);
    }
}

proof fn lemma_hex_groups_of_pieces(x: Seq<u16>)
    ensures
        hex_groups(hex_pieces(x)) == Some(x),
{
    let ps = hex_pieces(x);
    assert forall|i: int| 0 <= i < ps.len() implies (#[trigger] group_value(ps[i])) is Some
        && group_value(ps[i])->0 == x[i] by {
        lemma_group_of_hex(x[i] as nat);
    }
    assert(Seq::new(ps.len(), |i: int| group_value(ps[i])->0) =~= x);
}

proof fn lemma_hex_not_ipv4(n: nat)
    ensures
        ipv4_parse(hex_string(n)) is None,
{
    lemma_hex_string(n);
    lemma_hex_tame(hex_string(n));
    lemma_split_single(hex_string(n), '.');
}

/// Groups written in hexadecimal read back through `tail_groups`.
proof fn lemma_tail_groups_of_pieces(x: Seq<u16>)
    ensures
        tail_groups(hex_pieces(x)) == Some(x),
{
    lemma_hex_groups_of_pieces(x);
    if x.len() > 0 {
        assert(hex_pieces(x).last() == hex_string(x.last() as nat));
        lemma_hex_not_ipv4(x.last() as nat);
    }
}

proof fn lemma_first_double_colon_after(a: Seq<char>, b: Seq<char>)
    requires
        no_double_colon(a),
        a.len() == 0 || a.last() != ':',
    ensures
        first_double_colon(a + seq![':', ':'] + b) == Some(a.len() as int),
{
    let s = a + seq![':', ':'] + b;
    assert forall|j: int| 0 <= j < a.len() && j + 1 < s.len() implies !#[trigger] double_colon_at(
        s,
        j,
    ) by {
        if j + 1 < a.len() {
            assert(s[j] == a[j] && s[j + 1] == a[j + 1]);
            assert(!double_colon_at(a, j));
        } else {
            assert(s[j] == a.last());
        }
    }
    assert(s[a.len() as int] == ':' && s[a.len() + 1int] == ':');
    lemma_first_double_colon(s, a.len() as int);
}

proof fn lemma_no_double_colon_none(s: Seq<char>)
    requires
        no_double_colon(s),
    ensures
        first_double_colon(s) is None,
{
    let k = if s.len() == 0 { 0 } else { s.len() - 1 };
    lemma_first_double_colon(s, k);
}

proof fn lemma_ffff()
    ensures
        hex_string(0xffff) == seq!['f', 'f', 'f', 'f'],
{
    reveal_with_fuel(hex_string, 5);
    assert(hex_string(0xffff) =~= seq!['f', 'f', 'f', 'f']);
}

proof fn lemma_empty_groups()
    ensures
        hex_groups(Seq::<Seq<char>>::empty()) == Some(Seq::<u16>::empty()),
{
    assert(Seq::new(0, |i: int| group_value(Seq::<Seq<char>>::empty()[i])->0) =~= Seq::<
        u16,
    >::empty());
}

proof fn lemma_ipv6_round_trip_mapped(g: Seq<u16>)
    requires
        g.len() == 8,
        is_v4_mapped(g),
    ensures
        ipv6_parse(ipv6_text(g)) == Some(g),
        tame(ipv6_text(g)),
{
    let text = ipv6_text(g);
    let mo = mapped_octets(g);
    let v = ipv4_text(mo);
    let f = seq!['f', 'f', 'f', 'f'];
    lemma_ipv4_round_trip(mo);
    lemma_ffff();
    lemma_hex_string(0xffff);
    lemma_hex_tame(f);
    assert(text =~= seq![':', ':'] + (f + seq![':'] + v));
    assert(text[0] == ':' && text[1] == ':');
    lemma_first_double_colon(text, 0);
    assert(text.take(0) =~= Seq::<char>::empty());
    assert(text.skip(2) =~= f + seq![':'] + v);
    lemma_split_piece(f, ':', v);
    lemma_split_single(v, ':');
    let tp = side_pieces(text.skip(2));
    assert(tp =~= seq![f, v]);
    lemma_group_of_hex(0xffff);
    assert(tp.drop_last() =~= seq![f]);
    assert(hex_groups(seq![f]) == Some(seq![0xffffu16])) by {
        assert(Seq::new(1, |i: int| group_value(seq![f][i])->0) =~= seq![0xffffu16]);
    }
    lemma_empty_groups();
    assert(side_pieces(text.take(0)) =~= Seq::<Seq<char>>::empty());
    let t = seq![0xffffu16] + v4_groups(mo);
    assert(v4_groups(mo) =~= seq![g[6], g[7]]);
    assert(Seq::<u16>::empty() + Seq::new(5, |i: int| 0u16) + t =~= g);
    let pre = seq![':', ':', 'f', 'f', 'f', 'f', ':'];
    assert(tame(pre)) by {
        assert forall|i: int| 0 <= i < pre.len() implies tame_char(#[trigger] pre[i]) by {}
    }
    lemma_tame_concat(pre, v);
}

proof fn lemma_ipv6_round_trip_compressed(g: Seq<u16>)
    requires
        g.len() == 8,
        !is_v4_mapped(g),
        longest_zero_run(g, 8).1 > 1,
    ensures
        ipv6_parse(ipv6_text(g)) == Some(g),
        tame(ipv6_text(g)),
{
    let text = ipv6_text(g);
    let run = longest_zero_run(g, 8);
    lemma_zero_runs(g, 8);
    let dc = seq![':', ':'];
    assert(tame(dc)) by {
        assert forall|i: int| 0 <= i < dc.len() implies tame_char(#[trigger] dc[i]) by {}
    }
    let st = run.0 as int;
    let en = (run.0 + run.1) as int;
    let head = g.take(st);
    let tail = g.skip(en);
    let a = join_hex(head);
    let b = join_hex(tail);
    assert(text == a + dc + b);
    if st > 0 {
        lemma_join_hex(head);
    } else {
        assert(head =~= Seq::<u16>::empty());
        assert(tame(a));
    }
    if en < 8 {
        lemma_join_hex(tail);
    } else {
        assert(tail =~= Seq::<u16>::empty());
        assert(tame(b));
    }
    lemma_first_double_colon_after(a, b);
    assert(text.take(a.len() as int) =~= a);
    assert(text.skip(a.len() + 2int) =~= b);
    assert(side_pieces(a) =~= hex_pieces(head));
    assert(side_pieces(b) =~= hex_pieces(tail));
    lemma_hex_groups_of_pieces(head);
    lemma_tail_groups_of_pieces(tail);
    assert(head + Seq::new((8 - head.len() - tail.len()) as nat, |i: int| 0u16) + tail =~= g);
    lemma_tame_concat(a, dc);
    lemma_tame_concat(a + dc, b);
}

/// Canonical IPv6 text reads back as the same eight groups.
pub proof fn lemma_ipv6_round_trip(g: Seq<u16>)
    requires
        g.len() == 8,
    ensures
        ipv6_parse(ipv6_text(g)) == Some(g),
        tame(ipv6_text(g)),
{
    if is_v4_mapped(g) {
        lemma_ipv6_round_trip_mapped(g);
    } else if longest_zero_run(g, 8).1 > 1 {
        lemma_ipv6_round_trip_compressed(g);
    } else {
        let text = ipv6_text(g);
        assert(text == join_hex(g));
        lemma_join_hex(g);
        lemma_no_double_colon_none(text);
        lemma_tail_groups_of_pieces(g);
    }
}

// ---------------------------------------------------------------------------
// Parsing clean text
// ---------------------------------------------------------------------------

proof fn lemma_no_ws_concat(a: Seq<char>, b: Seq<char>)
    requires
        !has_ws(a),
        !has_ws(b),
    ensures
        !has_ws(a + b),
{
    assert forall|i: int| 0 <= i < (a + b).len() implies !is_ws(#[trigger] (a + b)[i]) by {
        if i < a.len() {
            assert((a + b)[i] == a[i]);
            assert(!is_ws(a[i]));
        } else {
            assert((a + b)[i] == b[i - a.len()]);
            assert(!is_ws(b[i - a.len()]));
        }
    }
}

/// Text without whitespace is its own trimmed form.
proof fn lemma_trim_id(s: Seq<char>)
    requires
        !has_ws(s),
    ensures
        trim(s) == s,
{
    if s.len() > 0 {
        assert(!is_ws(s[0]));
        assert(!is_ws(s.last()));
    }
    assert(trim_start(s) == s);
}

proof fn lemma_no_prefix(s: Seq<char>, p: Seq<char>, k: int)
    requires
        !contains_char(s, '/'),
        0 <= k < p.len(),
        p[k] == '/',
    ensures
        !starts_with_ci(s, p),
{
    if starts_with_ci(s, p) {
        assert(lower_seq(s.take(p.len() as int))[k] == lower(s[k]));
        assert(s[k] == '/');
    }
}

/// Text without `/` or `@` is its own host part.
proof fn lemma_authority_id(s: Seq<char>)
    requires
        !contains_char(s, '/'),
        !contains_char(s, '@'),
    ensures
        authority(s) == s,
{
    lemma_no_prefix(s, https_prefix(), 6);
    lemma_no_prefix(s, http_prefix(), 5);
    lemma_no_prefix(s, slashes_prefix(), 0);
    assert(strip_scheme(s) == s);
    lemma_last_index_of(s, '@', -1);
    lemma_first_index_of(s, '/', s.len() as int);
}

proof fn lemma_tail_groups_len(ps: Seq<Seq<char>>)
    ensures
        tail_groups(ps) is Some ==> tail_groups(ps)->0.len() <= ps.len() + 1,
{
}

/// Text without `:` is no IPv6 address.
pub proof fn lemma_no_colon_not_v6(s: Seq<char>)
    requires
        !contains_char(s, ':'),
    ensures
        ipv6_parse(s) is None,
{
    assert(no_double_colon(s));
    lemma_no_double_colon_none(s);
    lemma_split_single(s, ':');
    lemma_tail_groups_len(split(s, ':'));
}

/// Text with a single `:` is no IPv6 address.
proof fn lemma_one_colon_not_v6(a: Seq<char>, b: Seq<char>)
    requires
        !contains_char(a, ':'),
        !contains_char(b, ':'),
    ensures
        ipv6_parse(a + seq![':'] + b) is None,
{
    let s = a + seq![':'] + b;
    assert forall|j: int| 0 <= j && j + 1 < s.len() implies !#[trigger] double_colon_at(s, j) by {
        if j < a.len() {
            assert(s[j] == a[j]);
        } else {
            assert(s[j + 1] == b[j - a.len()]);
        }
    }
    lemma_no_double_colon_none(s);
    lemma_split_piece(a, ':', b);
    lemma_split_single(b, ':');
    lemma_tail_groups_len(split(s, ':'));
}

/// A port written in decimal reads back.
proof fn lemma_port_text(p: u16)
    requires
        p != 0,
    ensures
        port_spec(dec_string(p as nat)) == Some(p),
        dec_string(p as nat).len() >= 1,
        all_digits(dec_string(p as nat)),
        tame(dec_string(p as nat)),
        !contains_char(dec_string(p as nat), ':'),
        !contains_char(dec_string(p as nat), ']'),
{
    let d = dec_string(p as nat);
    lemma_dec_string(p as nat);
    lemma_digits_tame(d);
    lemma_tame_facts(d);
    assert(is_digit(d[0]));
    assert(u16_value(d) == Some(p));
}

/// `host:port` splits at the colon.
proof fn lemma_split_at_port(h: Seq<char>, p: u16)
    requires
        p != 0,
        h.len() >= 1,
        !contains_char(h, ':'),
    ensures
        split_host_port_spec(h + seq![':'] + dec_string(p as nat)) == Some(
            (h, dec_string(p as nat)),
        ),
{
    let d = dec_string(p as nat);
    let s = h + seq![':'] + d;
    lemma_port_text(p);
    assert forall|j: int| h.len() < j < s.len() implies s[j] != ':' by {
        assert(s[j] == d[j - h.len() - 1]);
    }
    lemma_last_index_of(s, ':', h.len() as int);
    assert(s.take(h.len() as int) =~= h);
    assert(s.skip(h.len() + 1int) =~= d);
    lemma_one_colon_not_v6(h, d);
}

// ---------------------------------------------------------------------------
// Address targets read back
// ---------------------------------------------------------------------------

proof fn lemma_v4_host(o: [u8; 4])
    ensures
        ip_parse(ip_text(IpAddress::V4(o))) == Some(IpAddress::V4(o)),
        tame(ip_text(IpAddress::V4(o))),
        !contains_char(ip_text(IpAddress::V4(o)), ':'),
        ip_text(IpAddress::V4(o)).len() >= 1,
{
    let host = ip_text(IpAddress::V4(o));
    lemma_ipv4_round_trip(o@);
    let q = ipv4_parse(host)->0;
    assert(q =~= o@);
    let b = [q[0], q[1], q[2], q[3]];
    assert(b@ =~= o@);
    assert(b == o);
}

proof fn lemma_v4_reparses_plain(o: [u8; 4])
    ensures
        parse_target_spec(ip_target_spec(IpAddress::V4(o), None).display) == Ok::<
            TargetModel,
            ParseError,
        >(ip_target_spec(IpAddress::V4(o), None)),
{
    let a = IpAddress::V4(o);
    let s = ip_text(a);
    lemma_v4_host(o);
    lemma_tame_facts(s);
    lemma_trim_id(s);
    lemma_authority_id(s);
    lemma_no_colon_not_v6(s);
    lemma_last_index_of(s, ':', -1);
    assert(s[0] != '[');
}

proof fn lemma_v4_reparses_with_port(o: [u8; 4], p: u16)
    requires
        p != 0,
        p != 80,
        p != 443,
    ensures
        parse_target_spec(ip_target_spec(IpAddress::V4(o), Some(p)).display) == Ok::<
            TargetModel,
            ParseError,
        >(ip_target_spec(IpAddress::V4(o), Some(p))),
{
    let a = IpAddress::V4(o);
    let host = ip_text(a);
    let t = ip_target_spec(a, Some(p));
    lemma_v4_host(o);
    let d = dec_string(p as nat);
    let s = host + seq![':'] + d;
    assert(t.display == s);
    lemma_port_text(p);
    assert(tame(seq![':'])) by {
        assert(tame_char(seq![':'][0]));
    }
    lemma_tame_concat(host, seq![':']);
    lemma_tame_concat(host + seq![':'], d);
    lemma_tame_facts(s);
    lemma_trim_id(s);
    lemma_authority_id(s);
    lemma_one_colon_not_v6(host, d);
    lemma_split_at_port(host, p);
    assert(s[0] != '[');
}

proof fn lemma_v4_reparses(o: [u8; 4], port: Option<u16>)
    requires
        port != Some(0u16),
    ensures
        parse_target_spec(ip_target_spec(IpAddress::V4(o), port).display) == Ok::<
            TargetModel,
            ParseError,
        >(ip_target_spec(IpAddress::V4(o), port)),
{
    let a = IpAddress::V4(o);
    match normalize_port_spec(port) {
        None => {
            lemma_v4_reparses_plain(o);
            assert(ip_target_spec(a, None) == ip_target_spec(a, port));
        },
        Some(p) => {
            lemma_v4_reparses_with_port(o, p);
            assert(ip_target_spec(a, Some(p)) == ip_target_spec(a, port));
        },
    }
}

proof fn lemma_v6_address(g: [u16; 8])
    ensures
        v6_address(g@) == IpAddress::V6(g),
{
    let b = [g@[0], g@[1], g@[2], g@[3], g@[4], g@[5], g@[6], g@[7]];
    assert(b@ =~= g@);
    assert(b == g);
}

proof fn lemma_v6_reparses_plain(g: [u16; 8])
    ensures
        parse_target_spec(ip_target_spec(IpAddress::V6(g), None).display) == Ok::<
            TargetModel,
            ParseError,
        >(ip_target_spec(IpAddress::V6(g), None)),
{
    let a = IpAddress::V6(g);
    let s = ip_text(a);
    lemma_ipv6_round_trip(g@);
    lemma_tame_facts(s);
    lemma_v6_address(g);
    assert(s.len() > 0) by {
        if s.len() == 0 {
            assert(ipv6_parse(s) is None);
        }
    }
    lemma_trim_id(s);
    lemma_authority_id(s);
    assert(s[0] != '[');
}

/// `[host]:digits` is clean text when the host is address text.
proof fn lemma_bracketed_clean(host: Seq<char>, d: Seq<char>)
    requires
        tame(host),
        tame(d),
    ensures
        !has_ws(seq!['['] + host + seq![']', ':'] + d),
        !contains_char(seq!['['] + host + seq![']', ':'] + d, '/'),
        !contains_char(seq!['['] + host + seq![']', ':'] + d, '@'),
{
    lemma_tame_facts(host);
    lemma_tame_facts(d);
    let br = seq!['['];
    let close = seq![']', ':'];
    assert(!has_ws(br) && !contains_char(br, '/') && !contains_char(br, '@')) by {
        assert(!is_ws(br[0]));
    }
    assert(!has_ws(close) && !contains_char(close, '/') && !contains_char(close, '@')) by {
        assert(!is_ws(close[0]) && !is_ws(close[1]));
    }
    lemma_no_ws_concat(br, host);
    lemma_no_ws_concat(br + host, close);
    lemma_no_ws_concat(br + host + close, d);
    lemma_not_contains_concat(br, host, '/');
    lemma_not_contains_concat(br + host, close, '/');
    lemma_not_contains_concat(br + host + close, d, '/');
    lemma_not_contains_concat(br, host, '@');
    lemma_not_contains_concat(br + host, close, '@');
    lemma_not_contains_concat(br + host + close, d, '@');
}

/// `[host]:port` reads as the bracketed address and the port.
proof fn lemma_bracketed_reads(g: [u16; 8], p: u16)
    requires
        p != 0,
    ensures
        bracketed_spec(
            seq!['['] + ip_text(IpAddress::V6(g)) + seq![']', ':'] + dec_string(p as nat),
        ) == Ok::<TargetModel, ParseError>(ip_target_spec(IpAddress::V6(g), Some(p))),
{
    let a = IpAddress::V6(g);
    let host = ip_text(a);
    lemma_ipv6_round_trip(g@);
    lemma_tame_facts(host);
    lemma_v6_address(g);
    let d = dec_string(p as nat);
    lemma_port_text(p);
    let s = seq!['['] + host + seq![']', ':'] + d;
    let e = host.len() + 1int;
    assert forall|j: int| 0 <= j < e implies s[j] != ']' by {
        if j > 0 {
            assert(s[j] == host[j - 1]);
        }
    }
    lemma_first_index_of(s, ']', e);
    assert(s.subrange(1, e) =~= host);
    assert(s.skip(e + 1) =~= seq![':'] + d);
    assert((seq![':'] + d).drop_first() =~= d);
}

proof fn lemma_v6_reparses_with_port(g: [u16; 8], p: u16)
    requires
        p != 0,
        p != 80,
        p != 443,
    ensures
        parse_target_spec(ip_target_spec(IpAddress::V6(g), Some(p)).display) == Ok::<
            TargetModel,
            ParseError,
        >(ip_target_spec(IpAddress::V6(g), Some(p))),
{
    let a = IpAddress::V6(g);
    let host = ip_text(a);
    let t = ip_target_spec(a, Some(p));
    lemma_ipv6_round_trip(g@);
    let d = dec_string(p as nat);
    lemma_port_text(p);
    let s = seq!['['] + host + seq![']', ':'] + d;
    assert(t.display == s);
    lemma_bracketed_clean(host, d);
    lemma_trim_id(s);
    lemma_authority_id(s);
    lemma_bracketed_reads(g, p);
}

proof fn lemma_v6_reparses(g: [u16; 8], port: Option<u16>)
    requires
        port != Some(0u16),
    ensures
        parse_target_spec(ip_target_spec(IpAddress::V6(g), port).display) == Ok::<
            TargetModel,
            ParseError,
        >(ip_target_spec(IpAddress::V6(g), port)),
{
    let a = IpAddress::V6(g);
    match normalize_port_spec(port) {
        None => {
            lemma_v6_reparses_plain(g);
            assert(ip_target_spec(a, None) == ip_target_spec(a, port));
        },
        Some(p) => {
            lemma_v6_reparses_with_port(g, p);
            assert(ip_target_spec(a, Some(p)) == ip_target_spec(a, port));
        },
    }
}

/// The canonical text of an address target, with any port other than zero,
/// reads back as that same target.
pub proof fn lemma_ip_target_reparses(a: IpAddress, port: Option<u16>)
    requires
        port != Some(0u16),
    ensures
        parse_target_spec(ip_target_spec(a, port).display) == Ok::<TargetModel, ParseError>(
            ip_target_spec(a, port),
        ),
{
    match a {
        IpAddress::V4(o) => lemma_v4_reparses(o, port),
        IpAddress::V6(g) => lemma_v6_reparses(g, port),
    }
}

// ---------------------------------------------------------------------------
// Hostname targets read back
// ---------------------------------------------------------------------------

proof fn lemma_lower_char(c: char)
    ensures
        !is_upper(lower(c)),
        lower(lower(c)) == lower(c),
        !is_upper(c) ==> lower(c) == c,
        is_alnum(lower(c)) == is_alnum(c),
        is_digit(lower(c)) == is_digit(c),
        (lower(c) == '.') == (c == '.'),
        (lower(c) == '-') == (c == '-'),
        (lower(c) == ':') == (c == ':'),
{
}

proof fn lemma_lower_seq_drop_first(s: Seq<char>)
    requires
        s.len() > 0,
    ensures
        lower_seq(s).drop_first() == lower_seq(s.drop_first()),
        lower_seq(s)[0] == lower(s[0]),
{
    assert(lower_seq(s).drop_first() =~= lower_seq(s.drop_first()));
}

/// The pieces of lower-cased text are the lower-cased pieces, when the
/// separator is `.`.
proof fn lemma_split_lower(s: Seq<char>)
    ensures
        split(lower_seq(s), '.') == Seq::new(
            split(s, '.').len(),
            |i: int| lower_seq(split(s, '.')[i]),
        ),
    decreases s.len(),
{
    let l = lower_seq(s);
    if s.len() == 0 {
        assert(l =~= Seq::<char>::empty());
        assert(lower_seq(Seq::<char>::empty()) =~= Seq::<char>::empty());
        assert(split(l, '.') =~= Seq::new(split(s, '.').len(), |i: int| lower_seq(split(s, '.')[i])));
    } else {
        let t = s.drop_first();
        lemma_split_lower(t);
        lemma_lower_seq_drop_first(s);
        lemma_lower_char(s[0]);
        lemma_split_nonempty(t, '.');
        let r = split(t, '.');
        let lr = split(lower_seq(t), '.');
        assert(l.len() > 0);
        if s[0] == '.' {
            assert(split(l, '.') == seq![Seq::<char>::empty()] + lr);
            assert(split(s, '.') == seq![Seq::<char>::empty()] + r);
            assert(lower_seq(Seq::<char>::empty()) =~= Seq::<char>::empty());
            assert(split(l, '.') =~= Seq::new(split(s, '.').len(), |i: int| lower_seq(split(s, '.')[i])));
        } else {
            assert(split(l, '.') == lr.update(0, seq![lower(s[0])] + lr[0]));
            assert(split(s, '.') == r.update(0, seq![s[0]] + r[0]));
            assert(lower_seq(seq![s[0]] + r[0]) =~= seq![lower(s[0])] + lower_seq(r[0]));
            assert(split(l, '.') =~= Seq::new(split(s, '.').len(), |i: int| lower_seq(split(s, '.')[i])));
        }
    }
}

proof fn lemma_lower_seq_id(s: Seq<char>)
    requires
        forall|i: int| 0 <= i < s.len() ==> !is_upper(#[trigger] s[i]),
    ensures
        lower_seq(s) == s,
{
    assert(lower_seq(s) =~= s);
}

proof fn lemma_lower_seq_idempotent(s: Seq<char>)
    ensures
        lower_seq(lower_seq(s)) == lower_seq(s),
{
    assert forall|i: int| 0 <= i < s.len() implies lower(#[trigger] lower_seq(s)[i]) == lower_seq(s)[i]
        by {
        lemma_lower_char(s[i]);
    }
    assert(lower_seq(lower_seq(s)) =~= lower_seq(s));
}

proof fn lemma_valid_label_lower(l: Seq<char>)
    ensures
        valid_label(lower_seq(l)) == valid_label(l),
{
    let m = lower_seq(l);
    assert forall|i: int| 0 <= i < l.len() implies (is_alnum(#[trigger] m[i]) || m[i] == '-') == (
    is_alnum(l[i]) || l[i] == '-') by {
        lemma_lower_char(l[i]);
    }
    if l.len() > 0 {
        lemma_lower_char(l[0]);
        lemma_lower_char(l.last());
        assert(m.last() == lower(l.last()));
    }
    if valid_label(m) && !valid_label(l) {
        let i = choose|i: int| 0 <= i < l.len() && !(is_alnum(#[trigger] l[i]) || l[i] == '-');
        assert(is_alnum(m[i]) || m[i] == '-');
    }
    if valid_label(l) && !valid_label(m) {
        let i = choose|i: int| 0 <= i < m.len() && !(is_alnum(#[trigger] m[i]) || m[i] == '-');
        assert(is_alnum(l[i]) || l[i] == '-');
    }
}

/// Lower-casing keeps a hostname valid, and a non-hostname invalid.
proof fn lemma_valid_hostname_lower(h: Seq<char>)
    ensures
        valid_hostname(lower_seq(h)) == valid_hostname(h),
{
    let l = lower_seq(h);
    lemma_split_lower(h);
    let ps = split(h, '.');
    let ls = split(l, '.');
    assert forall|i: int| 0 <= i < ls.len() implies valid_label(#[trigger] ls[i]) == valid_label(
        ps[i],
    ) by {
        lemma_valid_label_lower(ps[i]);
    }
    if h.len() > 0 {
        lemma_lower_char(h[0]);
        lemma_lower_char(h.last());
        assert(l.last() == lower(h.last()));
    }
    if valid_hostname(l) && !valid_hostname(h) {
        let i = choose|i: int| 0 <= i < ps.len() && !valid_label(#[trigger] ps[i]);
        assert(valid_label(ls[i]));
    }
    if valid_hostname(h) && !valid_hostname(l) {
        let i = choose|i: int| 0 <= i < ls.len() && !valid_label(#[trigger] ls[i]);
        assert(valid_label(ps[i]));
    }
}

proof fn lemma_octet_lower(p: Seq<char>)
    ensures
        octet_value(lower_seq(p)) == octet_value(p),
{
    let m = lower_seq(p);
    if all_digits(p) {
        assert forall|i: int| 0 <= i < p.len() implies !is_upper(#[trigger] p[i]) by {
            assert(is_digit(p[i]));
        }
        lemma_lower_seq_id(p);
    } else if all_digits(m) {
        let i = choose|i: int| 0 <= i < p.len() && !is_digit(#[trigger] p[i]);
        lemma_lower_char(p[i]);
        assert(is_digit(m[i]));
    }
}

/// Lower-casing does not make an IPv4 address of a name that is none.
proof fn lemma_ipv4_lower(h: Seq<char>)
    ensures
        ipv4_parse(lower_seq(h)) == ipv4_parse(h),
{
    lemma_split_lower(h);
    let ps = split(h, '.');
    let ls = split(lower_seq(h), '.');
    assert forall|i: int| 0 <= i < ls.len() implies octet_value(#[trigger] ls[i]) == octet_value(
        ps[i],
    ) by {
        lemma_octet_lower(ps[i]);
    }
    if ls.len() == 4 {
        assert(octet_value(ls[0]) == octet_value(ps[0]));
        assert(octet_value(ls[1]) == octet_value(ps[1]));
        assert(octet_value(ls[2]) == octet_value(ps[2]));
        assert(octet_value(ls[3]) == octet_value(ps[3]));
        assert(Seq::new(4, |i: int| octet_value(ls[i])->0) =~= Seq::new(
            4,
            |i: int| octet_value(ps[i])->0,
        ));
    }
}

/// A character of a hostname label.
pub open spec fn label_char(c: char) -> bool {
    is_alnum(c) || c == '-'
}

/// Every character of text is a separator or lies in one of its pieces.
proof fn lemma_split_chars(s: Seq<char>, sep: char)
    requires
        forall|k: int, j: int|
            0 <= k < split(s, sep).len() && 0 <= j < split(s, sep)[k].len() ==> label_char(
                #[trigger] split(s, sep)[k][j],
            ),
    ensures
        forall|i: int| 0 <= i < s.len() ==> s[i] == sep || label_char(#[trigger] s[i]),
    decreases s.len(),
{
    if s.len() > 0 {
        let t = s.drop_first();
        let r = split(t, sep);
        lemma_split_nonempty(t, sep);
        if s[0] == sep {
            assert(split(s, sep) == seq![Seq::<char>::empty()] + r);
            assert forall|k: int, j: int|
                0 <= k < r.len() && 0 <= j < r[k].len() implies label_char(#[trigger] r[k][j]) by {
                assert(split(s, sep)[k + 1] == r[k]);
            }
        } else {
            let q = split(s, sep);
            assert(q == r.update(0, seq![s[0]] + r[0]));
            assert(q[0] == seq![s[0]] + r[0]);
            assert(label_char(q[0][0]));
            assert forall|k: int, j: int|
                0 <= k < r.len() && 0 <= j < r[k].len() implies label_char(#[trigger] r[k][j]) by {
                if k == 0 {
                    assert(q[0][j + 1] == r[0][j]);
                } else {
                    assert(q[k] == r[k]);
                }
            }
        }
        lemma_split_chars(t, sep);
        assert forall|i: int| 0 <= i < s.len() implies s[i] == sep || label_char(#[trigger] s[i]) by {
            if i > 0 {
                assert(s[i] == t[i - 1]);
            }
        }
    }
}

/// A valid hostname holds only letters, digits, hyphens and dots.
proof fn lemma_hostname_chars(h: Seq<char>)
    requires
        valid_hostname(h),
    ensures
        forall|i: int| 0 <= i < h.len() ==> h[i] == '.' || label_char(#[trigger] h[i]),
        !has_ws(h),
        !contains_char(h, ':'),
        !contains_char(h, '/'),
        !contains_char(h, '@'),
        !contains_char(h, '['),
{
    let ps = split(h, '.');
    assert forall|k: int, j: int| 0 <= k < ps.len() && 0 <= j < ps[k].len() implies label_char(
        #[trigger] ps[k][j],
    ) by {
        assert(valid_label(ps[k]));
    }
    lemma_split_chars(h, '.');
    assert forall|i: int| 0 <= i < h.len() implies !is_ws(#[trigger] h[i]) && h[i] != ':' && h[i]
        != '/' && h[i] != '@' && h[i] != '[' by {
        assert(h[i] == '.' || label_char(h[i]));
    }
}

/// The target of a hostname.
pub open spec fn host_target_spec(h: Seq<char>, port: Option<u16>) -> TargetModel {
    let l = lower_seq(h);
    TargetModel {
        display: format_display_spec(l, false, port),
        host: l,
        port: normalize_port_spec(port),
    }
}

/// The canonical text of a hostname target, with any port other than zero,
/// reads back as that same target.
pub proof fn lemma_host_target_reparses(h: Seq<char>, port: Option<u16>)
    requires
        valid_hostname(h),
        ip_parse(h) is None,
        port != Some(0u16),
    ensures
        parse_target_spec(host_target_spec(h, port).display) == Ok::<TargetModel, ParseError>(
            host_target_spec(h, port),
        ),
{
    let l = lower_seq(h);
    let t = host_target_spec(h, port);
    lemma_valid_hostname_lower(h);
    lemma_lower_seq_idempotent(h);
    lemma_ipv4_lower(h);
    lemma_hostname_chars(l);
    lemma_no_colon_not_v6(l);
    assert(ip_parse(l) is None);
    assert(finish_host_spec(l, port) == Ok::<TargetModel, ParseError>(t));
    match normalize_port_spec(port) {
        None => {
            let s = l;
            assert(t.display == s);
            lemma_trim_id(s);
            lemma_authority_id(s);
            lemma_last_index_of(s, ':', -1);
            assert(s[0] != '[');
            assert(finish_host_spec(l, None) == Ok::<TargetModel, ParseError>(t));
        },
        Some(p) => {
            let d = dec_string(p as nat);
            let s = l + seq![':'] + d;
            assert(t.display == s);
            lemma_port_text(p);
            lemma_tame_facts(d);
            let colon = seq![':'];
            assert(!has_ws(colon) && !contains_char(colon, '/') && !contains_char(colon, '@')) by {
                assert(!is_ws(colon[0]));
            }
            lemma_no_ws_concat(l, colon);
            lemma_no_ws_concat(l + colon, d);
            lemma_not_contains_concat(l, colon, '/');
            lemma_not_contains_concat(l + colon, d, '/');
            lemma_not_contains_concat(l, colon, '@');
            lemma_not_contains_concat(l + colon, d, '@');
            lemma_trim_id(s);
            lemma_authority_id(s);
            lemma_one_colon_not_v6(l, d);
            lemma_split_at_port(l, p);
            assert(s[0] == l[0]);
            assert(finish_host_spec(l, Some(p)) == Ok::<TargetModel, ParseError>(t));
        },
    }
}

// ---------------------------------------------------------------------------
// Laws
// ---------------------------------------------------------------------------

proof fn lemma_finish_host_reparses(h: Seq<char>, port: Option<u16>)
    requires
        port != Some(0u16),
        finish_host_spec(h, port) is Ok,
    ensures
        parse_target_spec(finish_host_spec(h, port)->Ok_0.display) == finish_host_spec(h, port),
{
    match ip_parse(h) {
        Some(a) => lemma_ip_target_reparses(a, port),
        None => {
            lemma_host_target_reparses(h, port);
            assert(finish_host_spec(h, port) == Ok::<TargetModel, ParseError>(
                host_target_spec(h, port),
            ));
        },
    }
}

/// The canonical name of a parsed target names that same target: parsing
/// its `display` gives back the target, host and port included.
pub proof fn law_display_names_the_same_target(raw: Seq<char>)
    requires
        parse_target_spec(raw) is Ok,
    ensures
        parse_target_spec(parse_target_spec(raw)->Ok_0.display) == parse_target_spec(raw),
{
    let s = authority(trim(raw));
    if s[0] == '[' {
        let e = first_index_of(s, ']')->0;
        let inner = s.subrange(1, e);
        let rest = s.skip(e + 1);
        let g = ipv6_parse(inner)->0;
        if rest.len() == 0 {
            lemma_ip_target_reparses(v6_address(g), None);
        } else {
            let p = port_spec(rest.drop_first())->0;
            lemma_ip_target_reparses(v6_address(g), Some(p));
        }
    } else if ipv6_parse(s) is Some {
        lemma_ip_target_reparses(v6_address(ipv6_parse(s)->0), None);
    } else {
        match split_host_port_spec(s) {
            Some(hp) => {
                let p = port_spec(hp.1)->0;
                lemma_finish_host_reparses(hp.0, Some(p));
            },
            None => lemma_finish_host_reparses(s, None),
        }
    }
}

/// A parsed target's canonical name is a fixed point: it is itself the
/// canonical name of what it names.
pub proof fn law_display_is_canonical(raw: Seq<char>)
    requires
        parse_target_spec(raw) is Ok,
    ensures
        parse_target_spec(parse_target_spec(raw)->Ok_0.display) is Ok,
        parse_target_spec(parse_target_spec(raw)->Ok_0.display)->Ok_0.display
            == parse_target_spec(raw)->Ok_0.display,
{
    law_display_names_the_same_target(raw);
}

// ---------------------------------------------------------------------------
// Pasted URLs
// ---------------------------------------------------------------------------

/// A scheme that is stripped: `https://`, `http://` or `//`, in any case.
pub open spec fn stripped_scheme(sch: Seq<char>) -> bool {
    lower_seq(sch) == https_prefix() || lower_seq(sch) == http_prefix() || lower_seq(sch)
        == slashes_prefix()
}

proof fn lemma_scheme_no_ws(sch: Seq<char>)
    requires
        stripped_scheme(sch),
    ensures
        !has_ws(sch),
{
    let l = lower_seq(sch);
    assert(l.len() == sch.len());
    assert forall|k: int| 0 <= k < sch.len() implies !is_ws(#[trigger] sch[k]) by {
        assert(l[k] == lower(sch[k]));
        assert(l[k] != ' ' && !('\u{9}' <= l[k] && l[k] <= '\u{d}') && l[k] != '\u{85}') by {
            if k == 0 {
            } else if k == 1 {
            } else if k == 2 {
            } else if k == 3 {
            } else if k == 4 {
            } else if k == 5 {
            } else if k == 6 {
            } else {
            }
        }
        if is_ws(sch[k]) {
            assert(lower(sch[k]) == sch[k]);
        }
    }
}

proof fn lemma_strip_scheme_of(sch: Seq<char>, rest: Seq<char>)
    requires
        stripped_scheme(sch),
    ensures
        strip_scheme(sch + rest) == rest,
{
    let x = sch + rest;
    assert(lower_seq(sch).len() == sch.len());
    assert(x.take(sch.len() as int) =~= sch);
    if lower_seq(sch) == https_prefix() {
        assert(starts_with_ci(x, https_prefix()));
        assert(x.skip(8) =~= rest);
    } else if lower_seq(sch) == http_prefix() {
        if starts_with_ci(x, https_prefix()) {
            assert(lower_seq(x.take(8))[4] == lower(x[4]));
            assert(lower_seq(sch)[4] == lower(sch[4]));
        }
        assert(starts_with_ci(x, http_prefix()));
        assert(x.skip(7) =~= rest);
    } else {
        if starts_with_ci(x, https_prefix()) {
            assert(lower_seq(x.take(8))[0] == lower(x[0]));
            assert(lower_seq(sch)[0] == lower(sch[0]));
        }
        if starts_with_ci(x, http_prefix()) {
            assert(lower_seq(x.take(7))[0] == lower(x[0]));
            assert(lower_seq(sch)[0] == lower(sch[0]));
        }
        assert(starts_with_ci(x, slashes_prefix()));
        assert(x.skip(2) =~= rest);
    }
}

/// After the last `@` of a host followed by a path without `@`.
proof fn lemma_after_last_at(host: Seq<char>, tail: Seq<char>)
    requires
        !contains_char(tail, '@'),
    ensures
        after_last(host + tail, '@') == after_last(host, '@') + tail,
{
    let x = host + tail;
    lemma_last_index_of_found(host, '@');
    match last_index_of(host, '@') {
        Some(i) => {
            assert forall|j: int| i < j < x.len() implies x[j] != '@' by {
                if j >= host.len() {
                    assert(x[j] == tail[j - host.len()]);
                } else {
                    assert(x[j] == host[j]);
                }
            }
            lemma_last_index_of(x, '@', i);
            assert(x.skip(i + 1) =~= host.skip(i + 1) + tail);
        },
        None => {
            assert forall|j: int| -1 < j < x.len() implies x[j] != '@' by {
                if j >= host.len() {
                    assert(x[j] == tail[j - host.len()]);
                } else {
                    assert(x[j] == host[j]);
                }
            }
            lemma_last_index_of(x, '@', -1);
        },
    }
}

/// The host part after the last `@` holds no `/` when the host holds none.
proof fn lemma_after_last_no_slash(host: Seq<char>)
    requires
        !contains_char(host, '/'),
    ensures
        !contains_char(after_last(host, '@'), '/'),
{
    lemma_last_index_of_found(host, '@');
    match last_index_of(host, '@') {
        Some(i) => {
            let a = host.skip(i + 1);
            if contains_char(a, '/') {
                let k = choose|k: int| 0 <= k < a.len() && a[k] == '/';
                assert(host[k + i + 1] == '/');
            }
        },
        None => {},
    }
}

/// The host part of a pasted URL is that of its host.
#[verifier::spinoff_prover]
proof fn lemma_url_authority(sch: Seq<char>, host: Seq<char>, tail: Seq<char>)
    requires
        stripped_scheme(sch),
        !contains_char(host, '/'),
        !contains_char(tail, '@'),
        tail.len() == 0 || tail[0] == '/',
    ensures
        authority(sch + host + tail) == authority(host),
{
    assert(sch + host + tail =~= sch + (host + tail));
    lemma_strip_scheme_of(sch, host + tail);
    lemma_after_last_at(host, tail);
    lemma_after_last_no_slash(host);
    let a = after_last(host, '@');
    lemma_first_index_of(a + tail, '/', a.len() as int);
    assert((a + tail).take(a.len() as int) =~= a);
    lemma_first_index_of(a, '/', a.len() as int);
    assert(a.take(a.len() as int) =~= a);
    lemma_no_prefix(host, https_prefix(), 6);
    lemma_no_prefix(host, http_prefix(), 5);
    lemma_no_prefix(host, slashes_prefix(), 0);
    assert(strip_scheme(host) == host);
    if tail.len() == 0 {
        assert(host + tail =~= host);
    }
}

/// A pasted URL names what its host names: a leading `https://`, `http://`
/// or `//`, in any case, is stripped, and so is a path after the host.
pub proof fn law_url_names_its_host(sch: Seq<char>, host: Seq<char>, path: Seq<char>)
    requires
        stripped_scheme(sch),
        host.len() > 0,
        !has_ws(host),
        !contains_char(host, '/'),
        !has_ws(path),
        !contains_char(path, '@'),
    ensures
        parse_target_spec(sch + host) == parse_target_spec(host),
        parse_target_spec(sch + host + seq!['/'] + path) == parse_target_spec(host),
{
    lemma_scheme_no_ws(sch);
    lemma_trim_id(host);
    let tail = seq!['/'] + path;
    assert(!has_ws(seq!['/'])) by {
        assert(!is_ws(seq!['/'][0]));
    }
    lemma_no_ws_concat(seq!['/'], path);
    lemma_no_ws_concat(sch, host);
    lemma_no_ws_concat(sch + host, tail);
    assert(sch + host + seq!['/'] + path =~= sch + host + tail);
    lemma_trim_id(sch + host);
    lemma_trim_id(sch + host + tail);
    assert(!contains_char(tail, '@')) by {
        if contains_char(tail, '@') {
            let k = choose|k: int| 0 <= k < tail.len() && tail[k] == '@';
            assert(tail[k] == path[k - 1]);
        }
    }
    lemma_url_authority(sch, host, tail);
    let empty = Seq::<char>::empty();
    assert(!contains_char(empty, '@'));
    lemma_url_authority(sch, host, empty);
    assert(sch + host + empty =~= sch + host);
}

/// Lower-case `https:`, and `http:`: a host spelled so, followed by `/`,
/// would make the whole read as a scheme.
pub open spec fn scheme_word(h: Seq<char>) -> bool {
    lower_seq(h) == seq!['h', 't', 't', 'p', 's', ':'] || lower_seq(h) == seq![
        'h',
        't',
        't',
        'p',
        ':',
    ]
}

proof fn lemma_lower_slash(c: char)
    requires
        lower(c) == '/',
    ensures
        c == '/',
{
}

/// `x` starts with `host/`, where `host` holds no `/`: the character of `x`
/// at `k` is `/` exactly when `k` is the length of `host`.
proof fn lemma_not_prefixed(host: Seq<char>, x: Seq<char>, p: Seq<char>)
    requires
        host.len() > 0,
        !contains_char(host, '/'),
        x.len() > host.len(),
        x.take(host.len() as int) == host,
        x[host.len() as int] == '/',
        p.len() <= x.len(),
        lower_seq(x.take(p.len() as int)) == p,
        p.len() > host.len(),
    ensures
        p[host.len() as int] == '/',
        forall|k: int| 0 <= k < host.len() ==> p[k] == lower(#[trigger] host[k]),
{
    let n = host.len() as int;
    assert(lower_seq(x.take(p.len() as int))[n] == lower(x[n]));
    assert forall|k: int| 0 <= k < host.len() implies p[k] == lower(#[trigger] host[k]) by {
        assert(lower_seq(x.take(p.len() as int))[k] == lower(x[k]));
        assert(x.take(n)[k] == x[k]);
    }
}

proof fn lemma_host_path_unstripped(host: Seq<char>, tail: Seq<char>)
    requires
        host.len() > 0,
        !contains_char(host, '/'),
        !scheme_word(host),
        tail.len() > 0,
        tail[0] == '/',
    ensures
        strip_scheme(host + tail) == host + tail,
{
    let x = host + tail;
    let n = host.len() as int;
    assert(x.take(n) =~= host);
    assert(x[n] == '/');
    assert(x[0] == host[0]);
    if starts_with_ci(x, slashes_prefix()) {
        assert(lower_seq(x.take(2))[0] == lower(x[0]));
        lemma_lower_slash(host[0]);
    }
    if starts_with_ci(x, https_prefix()) {
        let p = https_prefix();
        if n < 8 {
            lemma_not_prefixed(host, x, p);
            if n == 6 {
                assert(lower_seq(host) =~= seq!['h', 't', 't', 'p', 's', ':']);
            }
        } else {
            assert(lower_seq(x.take(8))[6] == lower(x[6]));
            assert(x.take(n)[6] == x[6]);
            lemma_lower_slash(host[6]);
        }
    }
    if starts_with_ci(x, http_prefix()) {
        let p = http_prefix();
        if n < 7 {
            lemma_not_prefixed(host, x, p);
            if n == 5 {
                assert(lower_seq(host) =~= seq!['h', 't', 't', 'p', ':']);
            }
        } else {
            assert(lower_seq(x.take(7))[5] == lower(x[5]));
            assert(x.take(n)[5] == x[5]);
            lemma_lower_slash(host[5]);
        }
    }
}

/// The host part of `host/path` is that of `host`.
#[verifier::spinoff_prover]
proof fn lemma_host_path_authority(host: Seq<char>, tail: Seq<char>)
    requires
        host.len() > 0,
        !contains_char(host, '/'),
        !scheme_word(host),
        tail.len() > 0,
        tail[0] == '/',
        !contains_char(tail, '@'),
    ensures
        authority(host + tail) == authority(host),
{
    lemma_no_prefix(host, https_prefix(), 6);
    lemma_no_prefix(host, http_prefix(), 5);
    lemma_no_prefix(host, slashes_prefix(), 0);
    assert(strip_scheme(host) == host);
    lemma_host_path_unstripped(host, tail);
    lemma_after_last_at(host, tail);
    lemma_after_last_no_slash(host);
    let a = after_last(host, '@');
    lemma_first_index_of(a + tail, '/', a.len() as int);
    assert((a + tail).take(a.len() as int) =~= a);
    lemma_first_index_of(a, '/', a.len() as int);
    assert(a.take(a.len() as int) =~= a);
}

/// A path after the host is dropped whether or not a scheme comes first:
/// `host/path` names what `host` names. (A host spelled `https:` or `http:`
/// is left out: followed by `/` and a path that starts with `/`, the whole
/// reads as a URL with a scheme.)
pub proof fn law_path_is_dropped(host: Seq<char>, path: Seq<char>)
    requires
        host.len() > 0,
        !has_ws(host),
        !contains_char(host, '/'),
        !scheme_word(host),
        !has_ws(path),
        !contains_char(path, '@'),
    ensures
        parse_target_spec(host + seq!['/'] + path) == parse_target_spec(host),
{
    lemma_trim_id(host);
    let tail = seq!['/'] + path;
    assert(!has_ws(seq!['/'])) by {
        assert(!is_ws(seq!['/'][0]));
    }
    lemma_no_ws_concat(seq!['/'], path);
    lemma_no_ws_concat(host, tail);
    assert(host + seq!['/'] + path =~= host + tail);
    lemma_trim_id(host + tail);
    assert(!contains_char(tail, '@')) by {
        if contains_char(tail, '@') {
            let k = choose|k: int| 0 <= k < tail.len() && tail[k] == '@';
            assert(tail[k] == path[k - 1]);
        }
    }
    lemma_host_path_authority(host, tail);
}

} // verus!

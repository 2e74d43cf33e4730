//! Parsing of what a user types as a watched host: a hostname, an IPv4 or
//! IPv6 address, optionally with a port, a URL scheme, credentials or a path,
//! into a canonical target.

use vstd::prelude::*;
use crate::ip::{
    IpAddress, ip_parse, ip_text, ipv6_parse, parse_ip, parse_ipv6, ip_to_text,
};
use crate::text::{
    all_ascii_digits, all_digits, chars_of, contains_char, dec_string, dec_value, eq_ignore_case,
    find_first, find_last, first_index_of, has_whitespace, has_ws, is_alnum, is_ascii_alphanumeric,
    is_whitespace, is_ws, last_index_of, lemma_first_index_of_found, lemma_last_index_of_found,
    lower, lower_seq, lowercase, push_decimal, split, split_on, string_of, subvec, to_lower,
    extend_chars,
};

verus! {

/// A watched host in canonical form.
#[derive(Debug, Clone, PartialEq, Eq)]
pub struct Target {
    /// Canonical form stored in config and shown in the UI.
    pub display: String,
    /// Hostname or IP without brackets.
    pub host: String,
    /// Optional non-default port.
    pub port: Option<u16>,
}

/// What a target holds, as character sequences.
pub struct TargetModel {
    pub display: Seq<char>,
    pub host: Seq<char>,
    pub port: Option<u16>,
}

impl View for Target {
    type V = TargetModel;

    open spec fn view(&self) -> TargetModel {
        TargetModel { display: self.display@, host: self.host@, port: self.port }
    }
}

/// Why an input is not a target.
#[derive(Debug, Clone, Copy, PartialEq, Eq, Structural)]
pub enum ParseError {
    /// Nothing but whitespace was given.
    Empty,
    /// The input is not a hostname, an IP address or a URL of one.
    Invalid,
}

impl ParseError {
    /// The message shown to the user.
    pub fn message(&self) -> (r: String)
        ensures
            *self == ParseError::Empty ==> r@ == "Enter a host or IP"@,
            *self == ParseError::Invalid ==> r@ == "Invalid host or IP"@,
    {
        match self {
            ParseError::Empty => "Enter a host or IP".to_owned(),
            ParseError::Invalid => "Invalid host or IP".to_owned(),
        }
    }
}

// ---------------------------------------------------------------------------
// Model
// ---------------------------------------------------------------------------

/// `s` without leading whitespace.
pub open spec fn trim_start(s: Seq<char>) -> Seq<char>
    decreases s.len(),
{
    if s.len() > 0 && is_ws(s[0]) {
        trim_start(s.drop_first())
    } else {
        s
    }
}

/// `s` without trailing whitespace.
pub open spec fn trim_end(s: Seq<char>) -> Seq<char>
    decreases s.len(),
{
    if s.len() > 0 && is_ws(s.last()) {
        trim_end(s.drop_last())
    } else {
        s
    }
}

/// `s` without leading or trailing whitespace, as `str::trim` gives it.
pub open spec fn trim(s: Seq<char>) -> Seq<char> {
    trim_end(trim_start(s))
}

/// `s` starts with `p` when ASCII letters of `s` are lower-cased.
pub open spec fn starts_with_ci(s: Seq<char>, p: Seq<char>) -> bool {
    p.len() <= s.len() && lower_seq(s.take(p.len() as int)) == p
}

pub open spec fn https_prefix() -> Seq<char> {
    seq!['h', 't', 't', 'p', 's', ':', '/', '/']
}

pub open spec fn http_prefix() -> Seq<char> {
    seq!['h', 't', 't', 'p', ':', '/', '/']
}

pub open spec fn slashes_prefix() -> Seq<char> {
    seq!['/', '/']
}

/// `s` without a leading `https://`, `http://` or `//`, in any case.
pub open spec fn strip_scheme(s: Seq<char>) -> Seq<char> {
    if starts_with_ci(s, https_prefix()) {
        s.skip(8)
    } else if starts_with_ci(s, http_prefix()) {
        s.skip(7)
    } else if starts_with_ci(s, slashes_prefix()) {
        s.skip(2)
    } else {
        s
    }
}

/// What follows the last `c`, or all of `s`.
pub open spec fn after_last(s: Seq<char>, c: char) -> Seq<char> {
    match last_index_of(s, c) {
        Some(i) => s.skip(i + 1),
        None => s,
    }
}

/// What precedes the first `c`, or all of `s`.
pub open spec fn before_first(s: Seq<char>, c: char) -> Seq<char> {
    match first_index_of(s, c) {
        Some(i) => s.take(i),
        None => s,
    }
}

/// The host part of a trimmed input: without scheme, credentials and path.
pub open spec fn authority(s: Seq<char>) -> Seq<char> {
    before_first(after_last(strip_scheme(s), '@'), '/')
}

/// A port of 80 or 443 is the default and is dropped.
pub open spec fn normalize_port_spec(port: Option<u16>) -> Option<u16> {
    match port {
        Some(p) => if p == 80 || p == 443 {
            None
        } else {
            Some(p)
        },
        None => None,
    }
}

/// The canonical text of a target: the host, and a non-default port after a
/// colon; an IPv6 host is put in brackets when a port follows.
pub open spec fn format_display_spec(host: Seq<char>, is_v6: bool, port: Option<u16>) -> Seq<
    char,
> {
    match normalize_port_spec(port) {
        Some(p) => if is_v6 {
            seq!['['] + host + seq![']', ':'] + dec_string(p as nat)
        } else {
            host + seq![':'] + dec_string(p as nat)
        },
        None => host,
    }
}

/// A `u16` written in decimal, as `u16::from_str` reads it: an optional `+`,
/// then one or more digits.
pub open spec fn u16_value(p: Seq<char>) -> Option<u16> {
    let d = if p.len() > 0 && p[0] == '+' {
        p.drop_first()
    } else {
        p
    };
    if d.len() > 0 && all_digits(d) && dec_value(d) <= 0xffff {
        Some(dec_value(d) as u16)
    } else {
        None
    }
}

/// A port: a `u16` other than zero.
pub open spec fn port_spec(p: Seq<char>) -> Option<u16> {
    match u16_value(p) {
        Some(v) => if v == 0 {
            None
        } else {
            Some(v)
        },
        None => None,
    }
}

/// A DNS label: 1 to 63 ASCII letters, digits or hyphens, starting and
/// ending with a letter or digit.
pub open spec fn valid_label(l: Seq<char>) -> bool {
    &&& 1 <= l.len() <= 63
    &&& is_alnum(l[0])
    &&& is_alnum(l.last())
    &&& forall|i: int| 0 <= i < l.len() ==> is_alnum(#[trigger] l[i]) || l[i] == '-'
}

/// A hostname: 1 to 253 characters, dot-separated valid labels.
pub open spec fn valid_hostname(h: Seq<char>) -> bool {
    &&& 1 <= h.len() <= 253
    &&& h[0] != '.'
    &&& h.last() != '.'
    &&& forall|i: int| 0 <= i < split(h, '.').len() ==> valid_label(#[trigger] split(h, '.')[i])
}

pub open spec fn is_v6(a: IpAddress) -> bool {
    a is V6
}

pub open spec fn v6_address(g: Seq<u16>) -> IpAddress {
    IpAddress::V6([g[0], g[1], g[2], g[3], g[4], g[5], g[6], g[7]])
}

/// The target of an IP address: its canonical text, and the port.
pub open spec fn ip_target_spec(a: IpAddress, port: Option<u16>) -> TargetModel {
    let host = ip_text(a);
    TargetModel {
        display: format_display_spec(host, is_v6(a), port),
        host,
        port: normalize_port_spec(port),
    }
}

/// The target of a host with an optional port: an IP address, or a
/// lower-cased hostname.
pub open spec fn finish_host_spec(h: Seq<char>, port: Option<u16>) -> Result<
    TargetModel,
    ParseError,
> {
    match ip_parse(h) {
        Some(a) => Ok(ip_target_spec(a, port)),
        None => if !valid_hostname(h) {
            Err(ParseError::Invalid)
        } else {
            let l = lower_seq(h);
            Ok(
                TargetModel {
                    display: format_display_spec(l, false, port),
                    host: l,
                    port: normalize_port_spec(port),
                },
            )
        },
    }
}

/// `host:port` split at the last colon, when the port is all digits, both
/// sides are non-empty, and the whole is not an IPv6 address.
pub open spec fn split_host_port_spec(s: Seq<char>) -> Option<(Seq<char>, Seq<char>)> {
    match last_index_of(s, ':') {
        None => None,
        Some(i) => {
            let left = s.take(i);
            let right = s.skip(i + 1);
            if left.len() == 0 || right.len() == 0 || !all_digits(right) || ipv6_parse(s) is Some {
                None
            } else {
                Some((left, right))
            }
        },
    }
}

/// `[addr]` or `[addr]:port`, where `addr` is IPv6.
pub open spec fn bracketed_spec(s: Seq<char>) -> Result<TargetModel, ParseError> {
    match first_index_of(s, ']') {
        None => Err(ParseError::Invalid),
        Some(e) => {
            let inner = s.subrange(1, e);
            let rest = s.skip(e + 1);
            match ipv6_parse(inner) {
                None => Err(ParseError::Invalid),
                Some(g) => if rest.len() == 0 {
                    Ok(ip_target_spec(v6_address(g), None))
                } else if rest[0] == ':' {
                    match port_spec(rest.drop_first()) {
                        Some(p) => Ok(ip_target_spec(v6_address(g), Some(p))),
                        None => Err(ParseError::Invalid),
                    }
                } else {
                    Err(ParseError::Invalid)
                },
            }
        },
    }
}

/// The target that an input denotes.
pub open spec fn parse_target_spec(raw: Seq<char>) -> Result<TargetModel, ParseError> {
    let t = trim(raw);
    if t.len() == 0 {
        Err(ParseError::Empty)
    } else if has_ws(t) {
        Err(ParseError::Invalid)
    } else {
        let s = authority(t);
        if s.len() == 0 {
            Err(ParseError::Invalid)
        } else if s[0] == '[' {
            bracketed_spec(s)
        } else {
            match ipv6_parse(s) {
                Some(g) => Ok(ip_target_spec(v6_address(g), None)),
                None => match split_host_port_spec(s) {
                    Some(hp) => match port_spec(hp.1) {
                        Some(p) => finish_host_spec(hp.0, Some(p)),
                        None => Err(ParseError::Invalid),
                    },
                    None => finish_host_spec(s, None),
                },
            }
        }
    }
}

pub open spec fn result_view(r: Result<Target, ParseError>) -> Result<TargetModel, ParseError> {
    match r {
        Ok(t) => Ok(t@),
        Err(e) => Err(e),
    }
}

// ---------------------------------------------------------------------------
// Parsing
// ---------------------------------------------------------------------------

proof fn lemma_trim_start(s: Seq<char>, lo: int)
    requires
        0 <= lo <= s.len(),
        forall|j: int| 0 <= j < lo ==> is_ws(#[trigger] s[j]),
        lo < s.len() ==> !is_ws(s[lo]),
    ensures
        trim_start(s) == s.skip(lo),
    decreases lo,
{
    if lo == 0 {
        assert(s.skip(0) =~= s);
    } else {
        assert(is_ws(s[0]));
        let t = s.drop_first();
        assert forall|j: int| 0 <= j < lo - 1 implies is_ws(#[trigger] t[j]) by {
            assert(t[j] == s[j + 1]);
        }
        lemma_trim_start(t, lo - 1);
        assert(t.skip(lo - 1) =~= s.skip(lo));
    }
}

proof fn lemma_trim_end(s: Seq<char>, hi: int)
    requires
        0 <= hi <= s.len(),
        forall|j: int| hi <= j < s.len() ==> is_ws(#[trigger] s[j]),
        hi > 0 ==> !is_ws(s[hi - 1]),
    ensures
        trim_end(s) == s.take(hi),
    decreases s.len() - hi,
{
    if hi == s.len() {
        assert(s.take(hi) =~= s);
    } else {
        assert(is_ws(s.last()));
        let t = s.drop_last();
        lemma_trim_end(t, hi);
        assert(t.take(hi) =~= s.take(hi));
    }
}

/// `str::trim`.
fn trim_chars(s: &Vec<char>) -> (r: Vec<char>)
    ensures
        r@ == trim(s@),
{
    let n = s.len();
    let mut lo: usize = 0;
    while lo < n && is_whitespace(s[lo])
        invariant
            n == s@.len(),
            lo <= n,
            forall|j: int| 0 <= j < lo ==> is_ws(#[trigger] s@[j]),
        decreases n - lo,
    {
        lo = lo + 1;
    }
    let mut hi: usize = n;
    while hi > lo && is_whitespace(s[hi - 1])
        invariant
            n == s@.len(),
            lo <= hi <= n,
            forall|j: int| hi <= j < n ==> is_ws(#[trigger] s@[j]),
        decreases hi,
    {
        hi = hi - 1;
    }
    proof {
        lemma_trim_start(s@, lo as int);
        let t = s@.skip(lo as int);
        assert forall|j: int| hi - lo <= j < t.len() implies is_ws(#[trigger] t[j]) by {
            assert(t[j] == s@[j + lo]);
        }
        if hi > lo {
            assert(t[hi - lo - 1] == s@[hi - 1]);
        }
        lemma_trim_end(t, hi - lo);
        assert(t.take(hi - lo) =~= s@.subrange(lo as int, hi as int));
    }
    subvec(s, lo, hi)
}

fn starts_with_ci_chars(s: &Vec<char>, p: &Vec<char>) -> (b: bool)
    ensures
        b == starts_with_ci(s@, p@),
{
    if p.len() > s.len() {
        return false;
    }
    for i in 0..p.len()
        invariant
            p@.len() <= s@.len(),
            forall|j: int| 0 <= j < i ==> lower(s@[j]) == p@[j],
    {
        if to_lower(s[i]) != p[i] {
            assert(lower_seq(s@.take(p@.len() as int))[i as int] != p@[i as int]);
            return false;
        }
    }
    assert(lower_seq(s@.take(p@.len() as int)) =~= p@);
    true
}

/// Drops a leading `https://`, `http://` or `//`, in any case.
fn strip_scheme_chars(s: &Vec<char>) -> (r: Vec<char>)
    ensures
        r@ == strip_scheme(s@),
{
    let https = vec!['h', 't', 't', 'p', 's', ':', '/', '/'];
    let http = vec!['h', 't', 't', 'p', ':', '/', '/'];
    let slashes = vec!['/', '/'];
    assert(https@ == https_prefix());
    assert(http@ == http_prefix());
    assert(slashes@ == slashes_prefix());
    let n = s.len();
    if starts_with_ci_chars(s, &https) {
        subvec(s, 8, n)
    } else if starts_with_ci_chars(s, &http) {
        subvec(s, 7, n)
    } else if starts_with_ci_chars(s, &slashes) {
        subvec(s, 2, n)
    } else {
        subvec(s, 0, n)
    }
}

/// The host part of a trimmed input: without scheme, credentials and path.
fn authority_chars(s: &Vec<char>) -> (r: Vec<char>)
    ensures
        r@ == authority(s@),
{
    let a = strip_scheme_chars(s);
    let n = a.len();
    let b = match find_last(&a, '@') {
        Some(i) => subvec(&a, i + 1, n),
        None => a,
    };
    match find_first(&b, '/') {
        Some(j) => subvec(&b, 0, j),
        None => b,
    }
}

pub fn normalize_port(port: Option<u16>) -> (r: Option<u16>)
    ensures
        r == normalize_port_spec(port),
{
    match port {
        Some(80) | Some(443) | None => None,
        other => other,
    }
}

pub fn format_display(host: &Vec<char>, is_v6: bool, port: Option<u16>) -> (r: Vec<char>)
    ensures
        r@ == format_display_spec(host@, is_v6, port),
{
    let port = normalize_port(port);
    let mut out: Vec<char> = Vec::new();
    match port {
        Some(p) => {
            if is_v6 {
                out.push('[');
                extend_chars(&mut out, host);
                out.push(']');
            } else {
                extend_chars(&mut out, host);
            }
            out.push(':');
            push_decimal(&mut out, p as u32);
        },
        None => {
            extend_chars(&mut out, host);
        },
    }
    assert(out@ =~= format_display_spec(host@, is_v6, port));
    out
}

/// A port number: a `u16` as `u16::from_str` reads it, other than zero.
pub fn parse_port(s: &Vec<char>) -> (r: Result<u16, ParseError>)
    ensures
        r is Ok ==> port_spec(s@) == Some(r->Ok_0),
        r is Err ==> port_spec(s@) is None && r->Err_0 == ParseError::Invalid,
{
    let n = s.len();
    let d = if n > 0 && s[0] == '+' {
        assert(s@.subrange(1, n as int) =~= s@.drop_first());
        subvec(s, 1, n)
    } else {
        assert(s@.subrange(0, n as int) =~= s@);
        subvec(s, 0, n)
    };
    if d.len() == 0 || !all_ascii_digits(&d) {
        return Err(ParseError::Invalid);
    }
    match crate::ip::decimal_value(&d, 0xffff) {
        Some(v) => {
            if v == 0 {
                Err(ParseError::Invalid)
            } else {
                Ok(v as u16)
            }
        },
        None => Err(ParseError::Invalid),
    }
}

pub fn is_valid_label(l: &Vec<char>) -> (b: bool)
    ensures
        b == valid_label(l@),
{
    let n = l.len();
    if n == 0 || n > 63 {
        return false;
    }
    if !is_ascii_alphanumeric(l[0]) || !is_ascii_alphanumeric(l[n - 1]) {
        return false;
    }
    for i in 0..n
        invariant
            n == l@.len(),
            forall|j: int| 0 <= j < i ==> is_alnum(#[trigger] l@[j]) || l@[j] == '-',
    {
        if !(is_ascii_alphanumeric(l[i]) || l[i] == '-') {
            return false;
        }
    }
    true
}

pub fn is_valid_hostname(h: &Vec<char>) -> (b: bool)
    ensures
        b == valid_hostname(h@),
{
    let n = h.len();
    if n == 0 || n > 253 || h[0] == '.' || h[n - 1] == '.' {
        return false;
    }
    let labels = split_on(h, '.');
    for i in 0..labels.len()
        invariant
            labels@.len() == split(h@, '.').len(),
            forall|k: int| 0 <= k < labels@.len() ==> (#[trigger] labels@[k])@ == split(h@, '.')[k],
            forall|k: int| 0 <= k < i ==> valid_label(#[trigger] split(h@, '.')[k]),
    {
        if !is_valid_label(&labels[i]) {
            assert(!valid_label(split(h@, '.')[i as int]));
            return false;
        }
    }
    true
}

fn ip_target(a: IpAddress, port: Option<u16>) -> (t: Target)
    ensures
        t@ == ip_target_spec(a, port),
{
    let host = ip_to_text(&a);
    let v6 = match a {
        IpAddress::V6(_) => true,
        IpAddress::V4(_) => false,
    };
    let display = format_display(&host, v6, port);
    Target { display: string_of(&display), host: string_of(&host), port: normalize_port(port) }
}

fn finish_host(h: &Vec<char>, port: Option<u16>) -> (r: Result<Target, ParseError>)
    ensures
        result_view(r) == finish_host_spec(h@, port),
{
    match parse_ip(h) {
        Some(a) => Ok(ip_target(a, port)),
        None => {
            if !is_valid_hostname(h) {
                return Err(ParseError::Invalid);
            }
            let l = lowercase(h);
            let display = format_display(&l, false, port);
            Ok(Target { display: string_of(&display), host: string_of(&l), port: normalize_port(port) })
        },
    }
}

fn split_host_port(s: &Vec<char>) -> (r: Option<(Vec<char>, Vec<char>)>)
    ensures
        r matches Some((l, p)) ==> split_host_port_spec(s@) == Some((l@, p@)),
        r is None ==> split_host_port_spec(s@) is None,
{
    let n = s.len();
    match find_last(s, ':') {
        None => None,
        Some(i) => {
            let left = subvec(s, 0, i);
            let right = subvec(s, i + 1, n);
            assert(left@ =~= s@.take(i as int));
            assert(right@ =~= s@.skip(i + 1));
            if left.len() == 0 || right.len() == 0 || !all_ascii_digits(&right) {
                return None;
            }
            if parse_ipv6(s).is_some() {
                return None;
            }
            Some((left, right))
        },
    }
}

fn parse_bracketed_ipv6(s: &Vec<char>) -> (r: Result<Target, ParseError>)
    requires
        s@.len() > 0,
        s@[0] == '[',
    ensures
        result_view(r) == bracketed_spec(s@),
{
    let n = s.len();
    match find_first(s, ']') {
        None => Err(ParseError::Invalid),
        Some(e) => {
            let inner = subvec(s, 1, e);
            let rest = subvec(s, e + 1, n);
            assert(rest@ =~= s@.skip(e + 1));
            match parse_ipv6(&inner) {
                None => Err(ParseError::Invalid),
                Some(g) => {
                    let ghost q = ipv6_parse(inner@)->0;
                    assert(g == [q[0], q[1], q[2], q[3], q[4], q[5], q[6], q[7]]);
                    let a = IpAddress::V6(g);
                    if rest.len() == 0 {
                        Ok(ip_target(a, None))
                    } else if rest[0] == ':' {
                        let p = subvec(&rest, 1, rest.len());
                        assert(p@ =~= rest@.drop_first());
                        match parse_port(&p) {
                            Ok(port) => Ok(ip_target(a, Some(port))),
                            Err(_) => Err(ParseError::Invalid),
                        }
                    } else {
                        Err(ParseError::Invalid)
                    }
                },
            }
        },
    }
}

/// Parses user input into a canonical target.
///
/// Accepts hostnames, IPv4, IPv6, an optional `http(s)://` prefix, a path,
/// and a port.
pub fn parse_target(raw: &str) -> (r: Result<Target, ParseError>)
    ensures
        result_view(r) == parse_target_spec(raw@),
{
    let chars = chars_of(raw);
    let t = trim_chars(&chars);
    if t.len() == 0 {
        return Err(ParseError::Empty);
    }
    if has_whitespace(&t) {
        return Err(ParseError::Invalid);
    }
    let s = authority_chars(&t);
    if s.len() == 0 {
        return Err(ParseError::Invalid);
    }
    if s[0] == '[' {
        return parse_bracketed_ipv6(&s);
    }
    if let Some(g) = parse_ipv6(&s) {
        let ghost q = ipv6_parse(s@)->0;
        assert(g == [q[0], q[1], q[2], q[3], q[4], q[5], q[6], q[7]]);
        return Ok(ip_target(IpAddress::V6(g), None));
    }
    match split_host_port(&s) {
        Some((host, port)) => match parse_port(&port) {
            Ok(p) => finish_host(&host, Some(p)),
            Err(_) => Err(ParseError::Invalid),
        },
        None => finish_host(&s, None),
    }
}

impl Target {
    /// The host as a TCP destination: an IPv6 address in brackets.
    pub fn tcp_host(&self) -> (r: String)
        ensures
            ipv6_parse(self.host@) is Some ==> r@ == seq!['['] + self.host@ + seq![']'],
            ipv6_parse(self.host@) is None ==> r@ == self.host@,
    {
        let h = chars_of(self.host.as_str());
        if parse_ipv6(&h).is_some() {
            let mut out: Vec<char> = Vec::new();
            out.push('[');
            extend_chars(&mut out, &h);
            out.push(']');
            assert(out@ =~= seq!['['] + self.host@ + seq![']']);
            string_of(&out)
        } else {
            self.host.clone()
        }
    }

    /// The ports to try: the target's own, or 443 then 80.
    pub fn probe_ports(&self) -> (r: Vec<u16>)
        ensures
            self.port is Some ==> r@ == seq![self.port->0],
            self.port is None ==> r@ == seq![443u16, 80u16],
    {
        match self.port {
            Some(p) => vec![p],
            None => vec![443, 80],
        }
    }
}

} // verus!

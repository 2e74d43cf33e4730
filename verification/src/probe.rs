//! What to try to find out whether a target answers: ping (ICMP echo) to each of
//! its addresses, TCP connects to each address and to the host name, and an
//! HTTP `HEAD` on port 80; and how an HTTP answer is recognised.

use vstd::prelude::*;
use crate::host::{Target, TargetModel};
use crate::ip::{ip_rank, ipv6_parse, lemma_rank_injective, parse_ipv6, precedes, IpAddress};
use crate::text::{chars_of, dec_string, extend_chars, push_decimal, string_of};

verus! {

/// The time between two rounds of probes, in seconds.
pub const PROBE_CYCLE_SECS: u64 = 6;

/// One probe of a target.
#[derive(Debug, Clone, PartialEq, Eq)]
pub enum Probe {
    /// Ping (ICMP echo) to an address.
    Ping(IpAddress),
    /// TCP connect to an address and port.
    Tcp(IpAddress, u16),
    /// TCP connect to `host:port`, the name resolved by the connect.
    TcpHost(String, u16),
    /// An HTTP `HEAD /` request to a host and port.
    HttpHead(String, u16),
}

pub enum ProbeModel {
    Ping(IpAddress),
    Tcp(IpAddress, u16),
    TcpHost(Seq<char>, u16),
    HttpHead(Seq<char>, u16),
}

pub open spec fn probe_view(p: Probe) -> ProbeModel {
    match p {
        Probe::Ping(a) => ProbeModel::Ping(a),
        Probe::Tcp(a, port) => ProbeModel::Tcp(a, port),
        Probe::TcpHost(h, port) => ProbeModel::TcpHost(h@, port),
        Probe::HttpHead(h, port) => ProbeModel::HttpHead(h@, port),
    }
}

pub open spec fn probe_views(v: Seq<Probe>) -> Seq<ProbeModel> {
    Seq::new(v.len(), |i: int| probe_view(v[i]))
}

/// The ports to try on a target: its own, or 443 then 80.
pub open spec fn probe_ports_spec(port: Option<u16>) -> Seq<u16> {
    match port {
        Some(p) => seq![p],
        None => seq![443u16, 80u16],
    }
}

/// The host as a TCP destination: an IPv6 address in brackets.
pub open spec fn tcp_host_spec(host: Seq<char>) -> Seq<char> {
    if ipv6_parse(host) is Some {
        seq!['['] + host + seq![']']
    } else {
        host
    }
}

/// Whether an ping client of the address's family is at hand.
pub open spec fn has_ping_client(a: IpAddress, v4: bool, v6: bool) -> bool {
    match a {
        IpAddress::V4(_) => v4,
        IpAddress::V6(_) => v6,
    }
}

/// The probes of one address: a ping if a client is at hand, then TCP to each
/// port.
pub open spec fn address_probes(a: IpAddress, ports: Seq<u16>, v4: bool, v6: bool) -> Seq<
    ProbeModel,
> {
    (if has_ping_client(a, v4, v6) {
        seq![ProbeModel::Ping(a)]
    } else {
        Seq::empty()
    }) + Seq::new(ports.len(), |i: int| ProbeModel::Tcp(a, ports[i]))
}

/// The probes of all addresses, in order.
pub open spec fn addresses_probes(ips: Seq<IpAddress>, ports: Seq<u16>, v4: bool, v6: bool) -> Seq<
    ProbeModel,
>
    decreases ips.len(),
{
    if ips.len() == 0 {
        Seq::empty()
    } else {
        addresses_probes(ips.drop_last(), ports, v4, v6) + address_probes(ips.last(), ports, v4, v6)
    }
}

/// All probes of a target with the given addresses, in the order they are
/// started: per address ICMP and TCP, then TCP to the host name on each
/// port, and last an HTTP `HEAD` on port 80, whatever the target's port.
pub open spec fn probe_plan_spec(t: TargetModel, ips: Seq<IpAddress>, v4: bool, v6: bool) -> Seq<
    ProbeModel,
> {
    let ports = probe_ports_spec(t.port);
    let host_probes = Seq::new(
        ports.len(),
        |i: int| ProbeModel::TcpHost(tcp_host_spec(t.host), ports[i]),
    );
    addresses_probes(ips, ports, v4, v6) + host_probes + seq![ProbeModel::HttpHead(t.host, 80)]
}

/// The probes to start for a target whose name resolved to `ips`, given
/// whether IPv4 and IPv6 ping clients are at hand.
pub fn probe_plan(target: &Target, ips: &Vec<IpAddress>, ping_v4: bool, ping_v6: bool) -> (r: Vec<
    Probe,
>)
    ensures
        probe_views(r@) == probe_plan_spec(target@, ips@, ping_v4, ping_v6),
{
    let ports = target.probe_ports();
    let ghost pv = probe_ports_spec(target.port);
    let mut out: Vec<Probe> = Vec::new();
    for i in 0..ips.len()
        invariant
            ports@ == pv,
            pv == probe_ports_spec(target.port),
            probe_views(out@) == addresses_probes(ips@.take(i as int), pv, ping_v4, ping_v6),
    {
        let a = ips[i];
        let ghost before = probe_views(out@);
        let pingable = match a {
            IpAddress::V4(_) => ping_v4,
            IpAddress::V6(_) => ping_v6,
        };
        if pingable {
            out.push(Probe::Ping(a));
        }
        let ghost mid = probe_views(out@);
        assert(mid =~= before + (if has_ping_client(a, ping_v4, ping_v6) {
            seq![ProbeModel::Ping(a)]
        } else {
            Seq::empty()
        }));
        for j in 0..ports.len()
            invariant
                ports@ == pv,
                probe_views(out@) =~= mid + Seq::new(j as nat, |k: int| ProbeModel::Tcp(a, pv[k])),
        {
            let ghost prev = out@;
            let p = Probe::Tcp(a, ports[j]);
            out.push(p);
            assert(probe_views(out@) =~= probe_views(prev).push(probe_view(p)));
        }
        proof {
            let t = ips@.take(i + 1);
            assert(t.drop_last() =~= ips@.take(i as int));
            assert(t.last() == a);
            assert(probe_views(out@) =~= addresses_probes(t, pv, ping_v4, ping_v6));
        }
    }
    assert(ips@.take(ips@.len() as int) =~= ips@);
    let ghost base = probe_views(out@);
    let host = target.tcp_host();
    assert(host@ == tcp_host_spec(target.host@));
    for j in 0..ports.len()
        invariant
            ports@ == pv,
            host@ == tcp_host_spec(target.host@),
            probe_views(out@) =~= base + Seq::new(
                j as nat,
                |k: int| ProbeModel::TcpHost(tcp_host_spec(target.host@), pv[k]),
            ),
    {
        let ghost prev = out@;
        let p = Probe::TcpHost(host.clone(), ports[j]);
        out.push(p);
        assert(probe_views(out@) =~= probe_views(prev).push(probe_view(p)));
    }
    out.push(Probe::HttpHead(target.host.clone(), 80));
    assert(probe_views(out@) =~= probe_plan_spec(target@, ips@, ping_v4, ping_v6));
    out
}

/// `host:port`, as a TCP connect takes it.
pub fn host_port(host: &str, port: u16) -> (r: String)
    ensures
        r@ == host@ + seq![':'] + dec_string(port as nat),
{
    let mut out = chars_of(host);
    out.push(':');
    push_decimal(&mut out, port as u32);
    string_of(&out)
}

/// The destination of an HTTP probe: `host:port`, an IPv6 address in
/// brackets.
pub fn http_destination(host: &str, port: u16) -> (r: String)
    ensures
        r@ == tcp_host_spec(host@) + seq![':'] + dec_string(port as nat),
{
    let h = chars_of(host);
    let mut out: Vec<char> = Vec::new();
    if parse_ipv6(&h).is_some() {
        out.push('[');
        extend_chars(&mut out, &h);
        out.push(']');
    } else {
        extend_chars(&mut out, &h);
    }
    out.push(':');
    push_decimal(&mut out, port as u32);
    assert(out@ =~= tcp_host_spec(host@) + seq![':'] + dec_string(port as nat));
    string_of(&out)
}

/// The HTTP/1.0 `HEAD /` request of a probe, naming the host.
pub fn http_head_request(host: &str) -> (r: String)
    ensures
        r@ == "HEAD / HTTP/1.0\r\nHost: "@ + host@
            + "\r\nUser-Agent: edt-down-for-me/0.1\r\nConnection: close\r\n\r\n"@,
{
    let mut out = chars_of("HEAD / HTTP/1.0\r\nHost: ");
    let h = chars_of(host);
    extend_chars(&mut out, &h);
    let tail = chars_of("\r\nUser-Agent: edt-down-for-me/0.1\r\nConnection: close\r\n\r\n");
    extend_chars(&mut out, &tail);
    string_of(&out)
}

/// The first bytes of an HTTP response.
pub open spec fn http_magic() -> Seq<u8> {
    seq![0x48u8, 0x54u8, 0x54u8, 0x50u8, 0x2fu8]
}

/// Any HTTP response counts, whatever its status: at least five bytes were
/// read and the buffer starts with `HTTP/`.
pub fn is_http_response(buf: &[u8], n: usize) -> (r: bool)
    ensures
        r == (n >= 5 && buf@.len() >= 5 && buf@.take(5) == http_magic()),
{
    if n < 5 || buf.len() < 5 {
        return false;
    }
    let r = buf[0] == 0x48 && buf[1] == 0x54 && buf[2] == 0x54 && buf[3] == 0x50 && buf[4] == 0x2f;
    if r {
        assert(buf@.take(5) =~= http_magic());
    } else {
        assert(buf@.take(5) != http_magic()) by {
            if buf@.take(5) == http_magic() {
                assert(buf@.take(5)[0] == buf@[0]);
                assert(buf@.take(5)[1] == buf@[1]);
                assert(buf@.take(5)[2] == buf@[2]);
                assert(buf@.take(5)[3] == buf@[3]);
                assert(buf@.take(5)[4] == buf@[4]);
            }
        }
    }
    r
}

/// Each address comes before the next in the order of std's `IpAddr`, so
/// none occurs twice.
pub open spec fn ascending(s: Seq<IpAddress>) -> bool {
    forall|i: int, j: int| 0 <= i < j < s.len() ==> ip_rank(#[trigger] s[i]) < ip_rank(#[trigger] s[j])
}

/// The addresses that a name resolved to, each once, in the order of std's
/// `IpAddr` (IPv4 before IPv6), as they are probed.
pub fn distinct_addresses(ips: &Vec<IpAddress>) -> (r: Vec<IpAddress>)
    ensures
        ascending(r@),
        forall|a: IpAddress| r@.contains(a) <==> ips@.contains(a),
{
    let mut out: Vec<IpAddress> = Vec::new();
    for i in 0..ips.len()
        invariant
            ascending(out@),
            forall|a: IpAddress| out@.contains(a) <==> ips@.take(i as int).contains(a),
    {
        let a = ips[i];
        proof {
            assert(ips@.take(i + 1) =~= ips@.take(i as int).push(a));
            assert forall|b: IpAddress| ips@.take(i + 1).contains(b) <==> (ips@.take(
                i as int,
            ).contains(b) || b == a) by {
                if ips@.take(i + 1).contains(b) {
                    let k = choose|k: int| 0 <= k < i + 1 && #[trigger] ips@.take(i + 1)[k] == b;
                    if k < i {
                        assert(ips@.take(i as int)[k] == b);
                    }
                }
                if ips@.take(i as int).contains(b) {
                    let k = choose|k: int| 0 <= k < i && #[trigger] ips@.take(i as int)[k] == b;
                    assert(ips@.take(i + 1)[k] == b);
                }
                if b == a {
                    assert(ips@.take(i + 1)[i as int] == a);
                }
            }
        }
        let mut p: usize = 0;
        while p < out.len()
            invariant
                p <= out.len(),
                forall|k: int| 0 <= k < p ==> ip_rank(#[trigger] out@[k]) < ip_rank(a),
            ensures
                p <= out.len(),
                forall|k: int| 0 <= k < p ==> ip_rank(#[trigger] out@[k]) < ip_rank(a),
                p < out.len() ==> ip_rank(a) <= ip_rank(out@[p as int]),
            decreases out.len() - p,
        {
            if !precedes(&out[p], &a) {
                break;
            }
            p = p + 1;
        }
        let ghost before = out@;
        if p < out.len() && !precedes(&a, &out[p]) {
            proof {
                lemma_rank_injective(before[p as int], a);
                assert(before[p as int] == a);
                assert(before.contains(a));
                assert forall|b: IpAddress| out@.contains(b) <==> ips@.take(i + 1).contains(b) by {
                    assert(ips@.take(i + 1).contains(b) <==> (ips@.take(i as int).contains(b)
                        || b == a));
                }
            }
        } else {
            out.insert(p, a);
            proof {
                assert(out@ =~= before.take(p as int).push(a) + before.skip(p as int));
                assert forall|x: int, y: int| 0 <= x < y < out@.len() implies ip_rank(
                    #[trigger] out@[x],
                ) < ip_rank(#[trigger] out@[y]) by {
                    if y < p {
                        assert(out@[x] == before[x] && out@[y] == before[y]);
                    } else if y == p {
                        assert(out@[x] == before[x]);
                    } else if x == p {
                        assert(out@[y] == before[y - 1]);
                        assert(ip_rank(a) < ip_rank(before[p as int]));
                        if y - 1 > p {
                            assert(ip_rank(before[p as int]) < ip_rank(before[y - 1]));
                        }
                    } else if x < p {
                        assert(out@[x] == before[x] && out@[y] == before[y - 1]);
                    } else {
                        assert(out@[x] == before[x - 1] && out@[y] == before[y - 1]);
                    }
                }
                assert forall|b: IpAddress| out@.contains(b) <==> before.contains(b) || b == a by {
                    if out@.contains(b) {
                        let k = choose|k: int| 0 <= k < out@.len() && out@[k] == b;
                        if k < p {
                            assert(before[k] == b);
                        } else if k > p {
                            assert(before[k - 1] == b);
                        }
                    }
                    if before.contains(b) {
                        let k = choose|k: int| 0 <= k < before.len() && before[k] == b;
                        if k < p {
                            assert(out@[k] == b);
                        } else {
                            assert(out@[k + 1] == b);
                        }
                    }
                    if b == a {
                        assert(out@[p as int] == a);
                    }
                }
                assert forall|b: IpAddress| out@.contains(b) <==> ips@.take(i + 1).contains(b) by {
                    assert(ips@.take(i + 1).contains(b) <==> (ips@.take(i as int).contains(b)
                        || b == a));
                    assert(out@.contains(b) <==> before.contains(b) || b == a);
                }
            }
        }
    }
    assert(ips@.take(ips@.len() as int) =~= ips@);
    out
}

} // verus!

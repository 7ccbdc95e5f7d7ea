//! One pass over the network: merging what each discovery method found into
//! one device per address, then deciding which devices get a second look.
use vstd::prelude::*;
use crate::classify::opt_view;
use crate::classify::{classify, device_wf, spec_kind, spec_model, spec_name};
use crate::device::{Banner, Device, IpMap, MdnsInfo, SsdpInfo};
use crate::mdns::{info_view, out_view, resolve, spec_resolve, Records};
use crate::net::{in_net, ipv4_text, mac_string, mac_text, net_wf, push_ipv4, Net};
use crate::oui::{is_randomized, spec_vendor, Oui};
use crate::platform::{parse_mac, spec_parse_mac};
use crate::text::{chars_of, dec, owned, push_dec, push_str, string_of};

verus! {

/// What the first phase found, with the Bonjour answers credited to addresses.
pub struct Gathered {
    /// This machine's address on the scanned interface, and its MAC if known.
    pub own_ip: u32,
    pub own_mac: Option<[u8; 6]>,
    /// Addresses and MACs from the ARP sweep or cache.
    pub arp: Vec<(u32, [u8; 6])>,
    /// Addresses that answered a ping.
    pub pinged: Vec<u32>,
    /// Addresses the TCP probe reached, and their open ports.
    pub ports: Vec<(u32, Vec<u16>)>,
    /// Bonjour answers, by address.
    pub mdns: IpMap<MdnsInfo>,
    /// UPnP answers, by address.
    pub ssdp: Vec<(u32, SsdpInfo)>,
    /// The network scanned, and every address of this machine.
    pub net: Net,
    pub own_ips: Vec<u32>,
}

/// The last entry for `ip` among the first `n` of `s`.
pub open spec fn last_of<T>(s: Seq<(u32, T)>, n: int, ip: u32) -> Option<int>
    decreases n,
{
    if n <= 0 {
        None
    } else if s[n - 1].0 == ip {
        Some(n - 1)
    } else {
        last_of(s, n - 1, ip)
    }
}

pub proof fn lemma_last_of<T>(s: Seq<(u32, T)>, n: int, ip: u32)
    requires
        n <= s.len(),
    ensures
        last_of(s, n, ip) matches Some(i) ==> 0 <= i < n && s[i].0 == ip,
        last_of(s, n, ip) is None <==> forall|i: int| 0 <= i < n ==> s[i].0 != ip,
    decreases n,
{
    if n > 0 {
        lemma_last_of(s, n - 1, ip);
    }
}

/// Whether the address belongs to the scanned network or to this machine.
pub open spec fn on_lan(f: Gathered, ip: u32) -> bool {
    in_net(f.net, ip) || f.own_ips@.contains(ip)
}

/// Whether some method found `ip`, counting the first `na` ARP answers, `np`
/// pings, `nq` probed hosts, `nm` Bonjour answers and `ns` UPnP answers.
pub open spec fn seen(f: Gathered, ip: u32, na: int, np: int, nq: int, nm: int, ns: int) -> bool {
    ||| ip == f.own_ip
    ||| last_of(f.arp@, na, ip) is Some
    ||| f.pinged@.take(np).contains(ip)
    ||| last_of(f.ports@, nq, ip) is Some
    ||| (on_lan(f, ip) && last_of(f.mdns.pairs(), nm, ip) is Some)
    ||| (on_lan(f, ip) && last_of(f.ssdp@, ns, ip) is Some)
}

/// The MAC address shown for `ip`: the last ARP answer, else this machine's own.
pub open spec fn mac_of(f: Gathered, ip: u32, na: int) -> Option<Seq<char>> {
    match last_of(f.arp@, na, ip) {
        Some(i) => Some(mac_text(f.arp@[i].1)),
        None => if ip == f.own_ip {
            match f.own_mac {
                Some(m) => Some(mac_text(m)),
                None => None,
            }
        } else {
            None
        },
    }
}

/// The answer for `ip` among the first `n` of `s`, if `ip` is on the LAN.
pub open spec fn answer_of<T>(f: Gathered, s: Seq<(u32, T)>, n: int, ip: u32) -> Option<T> {
    if on_lan(f, ip) {
        match last_of(s, n, ip) {
            Some(i) => Some(s[i].1),
            None => None,
        }
    } else {
        None
    }
}

/// The device for `ip` after merging: its MAC, open ports, Bonjour and UPnP
/// answers from the sources counted, and nothing else known yet.
pub open spec fn merged_device(f: Gathered, d: Device, ip: u32, na: int, nq: int, nm: int, ns: int) -> bool {
    &&& d.ip == ip
    &&& opt_view(d.mac) == mac_of(f, ip, na)
    &&& d.open_ports@ == (match last_of(f.ports@, nq, ip) {
        Some(i) => f.ports@[i].1@,
        None => Seq::empty(),
    })
    &&& d.mdns == answer_of(f, f.mdns.pairs(), nm, ip)
    &&& d.ssdp == answer_of(f, f.ssdp@, ns, ip)
    &&& d.name is None && d.kind is None && d.model is None && d.vendor is None
    &&& !d.randomized_mac && !d.gateway && !d.this_device
    &&& d.hostname is None && d.http is None
}

pub open spec fn merged(f: Gathered, m: Map<u32, Device>, na: int, np: int, nq: int, nm: int, ns: int) -> bool {
    &&& forall|ip: u32| #[trigger] m.contains_key(ip) <==> seen(f, ip, na, np, nq, nm, ns)
    &&& forall|ip: u32| #[trigger] m.contains_key(ip) ==> merged_device(f, m[ip], ip, na, nq, nm, ns)
}

/// The device for `ip` taken out of `hosts`, or a fresh one.
fn take_host(hosts: &mut IpMap<Device>, ip: u32) -> (r: Device)
    requires
        old(hosts).wf(),
    ensures
        final(hosts).wf(),
        final(hosts)@ == old(hosts)@.remove(ip),
        old(hosts)@.contains_key(ip) ==> r == old(hosts)@[ip],
        !old(hosts)@.contains_key(ip) ==> r.ip == ip && r.name is None && r.kind is None
            && r.model is None && r.vendor is None && r.mac is None && !r.randomized_mac
            && r.hostname is None && r.open_ports@ == Seq::<u16>::empty() && !r.gateway && !r.this_device
            && r.mdns is None && r.ssdp is None && r.http is None,
{
    match hosts.remove(ip) {
        Some(d) => d,
        None => Device::new(ip),
    }
}

fn copy_ports(p: &Vec<u16>) -> (r: Vec<u16>)
    ensures
        r@ == p@,
{
    let mut out: Vec<u16> = Vec::new();
    let mut i: usize = 0;
    while i < p.len()
        invariant
            i <= p.len(),
            out@ == p@.take(i as int),
        decreases p.len() - i,
    {
        out.push(p[i]);
        i += 1;
    }
    assert(p@.take(p.len() as int) == p@);
    out
}

pub fn is_own_ip(own_ips: &Vec<u32>, ip: u32) -> (r: bool)
    ensures
        r == own_ips@.contains(ip),
{
    let mut i: usize = 0;
    while i < own_ips.len()
        invariant
            i <= own_ips.len(),
            forall|j: int| 0 <= j < i ==> own_ips@[j] != ip,
        decreases own_ips.len() - i,
    {
        if own_ips[i] == ip {
            assert(own_ips@[i as int] == ip);
            return true;
        }
        i += 1;
    }
    false
}

/// The elements in reverse order.
fn reversed<T>(v: Vec<T>) -> (r: Vec<T>)
    ensures
        r@ == v@.reverse(),
{
    let ghost orig = v@;
    let mut v = v;
    let mut out: Vec<T> = Vec::new();
    while v.len() > 0
        invariant
            orig == v@ + out@.reverse(),
        decreases v.len(),
    {
        let ghost before_v = v@;
        let ghost before_out = out@;
        let x = v.pop().unwrap();
        out.push(x);
        assert(before_v == v@.push(x));
        assert(out@.reverse() =~= seq![x] + before_out.reverse());
        assert(orig =~= v@ + out@.reverse());
    }
    assert(orig =~= out@.reverse());
    assert(out@ =~= orig.reverse());
    out
}

/// Records one answer for `ip` with `set`, taking the device out and putting it back.
proof fn lemma_others_kept(before: Map<u32, Device>, after: Map<u32, Device>, ip: u32, d: Device)
    requires
        after == before.remove(ip).insert(ip, d),
    ensures
        forall|x: u32| x != ip ==> (#[trigger] after.contains_key(x) <==> before.contains_key(x)),
        forall|x: u32| x != ip && after.contains_key(x) ==> #[trigger] after[x] == before[x],
        after.contains_key(ip) && after[ip] == d,
{
}

/// One device per address that any method found, in address order.
fn merge_gathered(f: Gathered) -> (r: Vec<Device>)
    requires
        net_wf(f.net),
        f.mdns.wf(),
    ensures
        forall|i: int, j: int| 0 <= i < j < r@.len() ==> r@[i].ip < r@[j].ip,
        forall|ip: u32|
            (exists|i: int| 0 <= i < r@.len() && #[trigger] r@[i].ip == ip) <==> seen(
                f,
                ip,
                f.arp@.len() as int,
                f.pinged@.len() as int,
                f.ports@.len() as int,
                f.mdns.pairs().len() as int,
                f.ssdp@.len() as int,
            ),
        forall|i: int| 0 <= i < r@.len() ==> merged_device(
            f,
            #[trigger] r@[i],
            r@[i].ip,
            f.arp@.len() as int,
            f.ports@.len() as int,
            f.mdns.pairs().len() as int,
            f.ssdp@.len() as int,
        ),
{
    let ghost g = f;
    let Gathered { own_ip, own_mac, arp, pinged, ports, mdns, ssdp, net, own_ips } = f;
    let mut hosts: IpMap<Device> = IpMap::new();
    let mut me = Device::new(own_ip);
    me.mac = match own_mac {
        Some(m) => Some(mac_string(m)),
        None => None,
    };
    hosts.insert(own_ip, me);
    assert(g.pinged@.take(0) =~= Seq::<u32>::empty());
    assert(merged(g, hosts@, 0, 0, 0, 0, 0));
    // ARP answers.
    let mut i: usize = 0;
    while i < arp.len()
        invariant
            i <= arp.len(),
            g.arp == arp,
            hosts.wf(),
            merged(g, hosts@, i as int, 0, 0, 0, 0),
        decreases arp.len() - i,
    {
        let (ip, mac) = arp[i];
        let ghost before = hosts@;
        let mut d = take_host(&mut hosts, ip);
        d.mac = Some(mac_string(mac));
        let ghost gd = d;
        hosts.insert(ip, d);
        proof {
            lemma_others_kept(before, hosts@, ip, gd);
            let k = i as int;
            assert(last_of(g.arp@, k + 1, ip) == Some(k));
            assert forall|x: u32| x != ip implies last_of(g.arp@, k + 1, x) == last_of(g.arp@, k, x) by {}
            assert forall|x: u32| #[trigger] hosts@.contains_key(x) <==> seen(g, x, k + 1, 0, 0, 0, 0) by {
                if x != ip {
                    assert(before.contains_key(x) <==> seen(g, x, k, 0, 0, 0, 0));
                }
            }
            assert forall|x: u32| #[trigger] hosts@.contains_key(x) implies merged_device(g, hosts@[x], x, k + 1, 0, 0, 0) by {
                if x != ip {
                    assert(merged_device(g, before[x], x, k, 0, 0, 0));
                }
            }
        }
        i += 1;
    }
    // Pings.
    let mut i: usize = 0;
    while i < pinged.len()
        invariant
            i <= pinged.len(),
            g.pinged == pinged,
            g.arp == arp,
            hosts.wf(),
            merged(g, hosts@, arp@.len() as int, i as int, 0, 0, 0),
        decreases pinged.len() - i,
    {
        let ip = pinged[i];
        assert(pinged@.take(i + 1) == pinged@.take(i as int).push(ip));
        let ghost before = hosts@;
        let d = take_host(&mut hosts, ip);
        let ghost gd = d;
        hosts.insert(ip, d);
        proof {
            lemma_others_kept(before, hosts@, ip, gd);
            let k = i as int;
            let na = arp@.len() as int;
            assert forall|x: u32| #[trigger] hosts@.contains_key(x) <==> seen(g, x, na, k + 1, 0, 0, 0) by {
                if x != ip {
                    assert(before.contains_key(x) <==> seen(g, x, na, k, 0, 0, 0));
                    vstd::seq_lib::lemma_seq_contains_after_push(pinged@.take(k), ip, x);
                } else {
                    vstd::seq_lib::lemma_seq_contains_after_push(pinged@.take(k), ip, x);
                }
            }
            assert forall|x: u32| #[trigger] hosts@.contains_key(x) implies merged_device(g, hosts@[x], x, na, 0, 0, 0) by {
                if x != ip {
                    assert(merged_device(g, before[x], x, na, 0, 0, 0));
                } else if !before.contains_key(ip) {
                    assert(last_of(g.arp@, na, ip) is None) by {
                        lemma_last_of(g.arp@, na, ip);
                        if last_of(g.arp@, na, ip) is Some {
                            assert(seen(g, ip, na, k, 0, 0, 0));
                        }
                    }
                    assert(ip != g.own_ip) by {
                        if ip == g.own_ip {
                            assert(seen(g, ip, na, k, 0, 0, 0));
                        }
                    }
                }
            }
        }
        i += 1;
    }
    // Open ports.
    let mut i: usize = 0;
    while i < ports.len()
        invariant
            i <= ports.len(),
            g.ports == ports,
            g.pinged == pinged,
            g.arp == arp,
            hosts.wf(),
            merged(g, hosts@, arp@.len() as int, pinged@.len() as int, i as int, 0, 0),
        decreases ports.len() - i,
    {
        let ip = ports[i].0;
        let ghost before = hosts@;
        let mut d = take_host(&mut hosts, ip);
        d.open_ports = copy_ports(&ports[i].1);
        let ghost gd = d;
        hosts.insert(ip, d);
        proof {
            lemma_others_kept(before, hosts@, ip, gd);
            let k = i as int;
            let na = arp@.len() as int;
            let np = pinged@.len() as int;
            assert(last_of(g.ports@, k + 1, ip) == Some(k));
            assert forall|x: u32| x != ip implies last_of(g.ports@, k + 1, x) == last_of(g.ports@, k, x) by {}
            assert forall|x: u32| #[trigger] hosts@.contains_key(x) <==> seen(g, x, na, np, k + 1, 0, 0) by {
                if x != ip {
                    assert(before.contains_key(x) <==> seen(g, x, na, np, k, 0, 0));
                }
            }
            assert forall|x: u32| #[trigger] hosts@.contains_key(x) implies merged_device(g, hosts@[x], x, na, k + 1, 0, 0) by {
                if x != ip {
                    assert(merged_device(g, before[x], x, na, k, 0, 0));
                } else if !before.contains_key(ip) {
                    assert(last_of(g.arp@, na, ip) is None) by {
                        lemma_last_of(g.arp@, na, ip);
                        if last_of(g.arp@, na, ip) is Some {
                            assert(seen(g, ip, na, np, k, 0, 0));
                        }
                    }
                    assert(ip != g.own_ip) by {
                        if ip == g.own_ip {
                            assert(seen(g, ip, na, np, k, 0, 0));
                        }
                    }
                }
            }
        }
        i += 1;
    }
    // Bonjour answers, then UPnP answers, for addresses on the LAN.
    let ghost na = arp@.len() as int;
    let ghost np = pinged@.len() as int;
    let ghost nq = ports@.len() as int;
    let pairs = mdns.into_pairs();
    let ghost pm = pairs@;
    let n = pairs.len();
    let mut rest = reversed(pairs);
    assert(pm.skip(0) == pm);
    let mut i: usize = 0;
    while i < n
        invariant
            i <= n,
            n == pm.len(),
            pm == g.mdns.pairs(),
            na == g.arp@.len(),
            np == g.pinged@.len(),
            nq == g.ports@.len(),
            rest@ == pm.skip(i as int).reverse(),
            g.own_ips == own_ips,
            g.net == net,
            net_wf(net),
            hosts.wf(),
            merged(g, hosts@, na, np, nq, i as int, 0),
        decreases n - i,
    {
        assert(rest@.len() == n - i);
        assert(rest@.last() == pm[i as int]);
        assert(rest@.drop_last() =~= pm.skip(i + 1).reverse());
        let (ip, info) = rest.pop().unwrap();
        if net.contains(ip) || is_own_ip(&own_ips, ip) {
            let ghost before = hosts@;
            let mut d = take_host(&mut hosts, ip);
            d.mdns = Some(info);
            let ghost gd = d;
            hosts.insert(ip, d);
            proof {
                lemma_others_kept(before, hosts@, ip, gd);
                let k = i as int;
                assert(on_lan(g, ip));
                assert(last_of(pm, k + 1, ip) == Some(k));
                assert forall|x: u32| x != ip implies last_of(pm, k + 1, x) == last_of(pm, k, x) by {}
                assert forall|x: u32| #[trigger] hosts@.contains_key(x) <==> seen(g, x, na, np, nq, k + 1, 0) by {
                    if x != ip {
                        assert(before.contains_key(x) <==> seen(g, x, na, np, nq, k, 0));
                    }
                }
                assert forall|x: u32| #[trigger] hosts@.contains_key(x) implies merged_device(g, hosts@[x], x, na, nq, k + 1, 0) by {
                    if x != ip {
                        assert(merged_device(g, before[x], x, na, nq, k, 0));
                    } else if !before.contains_key(ip) {
                        lemma_last_of(g.arp@, na, ip);
                        lemma_last_of(g.ports@, nq, ip);
                        if last_of(g.arp@, na, ip) is Some || ip == g.own_ip || last_of(g.ports@, nq, ip) is Some {
                            assert(seen(g, ip, na, np, nq, k, 0));
                        }
                    }
                }
            }
        } else {
            proof {
                let k = i as int;
                assert(!on_lan(g, ip));
                assert forall|x: u32| x != ip implies last_of(pm, k + 1, x) == last_of(pm, k, x) by {}
                assert forall|x: u32| #[trigger] hosts@.contains_key(x) <==> seen(g, x, na, np, nq, k + 1, 0) by {
                    assert(hosts@.contains_key(x) <==> seen(g, x, na, np, nq, k, 0));
                }
                assert forall|x: u32| #[trigger] hosts@.contains_key(x) implies merged_device(g, hosts@[x], x, na, nq, k + 1, 0) by {
                    assert(merged_device(g, hosts@[x], x, na, nq, k, 0));
                }
            }
        }
        i += 1;
    }
    let ghost nm = pm.len() as int;
    let ghost ps = ssdp@;
    let n = ssdp.len();
    let mut rest = reversed(ssdp);
    assert(ps.skip(0) == ps);
    let mut i: usize = 0;
    while i < n
        invariant
            i <= n,
            n == ps.len(),
            ps == g.ssdp@,
            pm == g.mdns.pairs(),
            na == g.arp@.len(),
            np == g.pinged@.len(),
            nq == g.ports@.len(),
            nm == pm.len(),
            rest@ == ps.skip(i as int).reverse(),
            g.own_ips == own_ips,
            g.net == net,
            net_wf(net),
            hosts.wf(),
            merged(g, hosts@, na, np, nq, nm, i as int),
        decreases n - i,
    {
        assert(rest@.len() == n - i);
        assert(rest@.last() == ps[i as int]);
        assert(rest@.drop_last() =~= ps.skip(i + 1).reverse());
        let (ip, info) = rest.pop().unwrap();
        if net.contains(ip) || is_own_ip(&own_ips, ip) {
            let ghost before = hosts@;
            let mut d = take_host(&mut hosts, ip);
            d.ssdp = Some(info);
            let ghost gd = d;
            hosts.insert(ip, d);
            proof {
                lemma_others_kept(before, hosts@, ip, gd);
                let k = i as int;
                assert(on_lan(g, ip));
                assert(last_of(ps, k + 1, ip) == Some(k));
                assert forall|x: u32| x != ip implies last_of(ps, k + 1, x) == last_of(ps, k, x) by {}
                assert forall|x: u32| #[trigger] hosts@.contains_key(x) <==> seen(g, x, na, np, nq, nm, k + 1) by {
                    if x != ip {
                        assert(before.contains_key(x) <==> seen(g, x, na, np, nq, nm, k));
                    }
                }
                assert forall|x: u32| #[trigger] hosts@.contains_key(x) implies merged_device(g, hosts@[x], x, na, nq, nm, k + 1) by {
                    if x != ip {
                        assert(merged_device(g, before[x], x, na, nq, nm, k));
                    } else if !before.contains_key(ip) {
                        lemma_last_of(g.arp@, na, ip);
                        lemma_last_of(g.ports@, nq, ip);
                        lemma_last_of(pm, nm, ip);
                        if last_of(g.arp@, na, ip) is Some || ip == g.own_ip || last_of(g.ports@, nq, ip) is Some
                            || last_of(pm, nm, ip) is Some {
                            assert(seen(g, ip, na, np, nq, nm, k));
                        }
                    }
                }
            }
        } else {
            proof {
                let k = i as int;
                assert(!on_lan(g, ip));
                assert forall|x: u32| x != ip implies last_of(ps, k + 1, x) == last_of(ps, k, x) by {}
                assert forall|x: u32| #[trigger] hosts@.contains_key(x) <==> seen(g, x, na, np, nq, nm, k + 1) by {
                    assert(hosts@.contains_key(x) <==> seen(g, x, na, np, nq, nm, k));
                }
                assert forall|x: u32| #[trigger] hosts@.contains_key(x) implies merged_device(g, hosts@[x], x, na, nq, nm, k + 1) by {
                    assert(merged_device(g, hosts@[x], x, na, nq, nm, k));
                }
            }
        }
        i += 1;
    }
    let ghost m = hosts@;
    proof {
        hosts.lemma_pairs();
    }
    let pairs = hosts.into_pairs();
    let out = values(pairs);
    assert(merged(g, m, na, np, nq, nm, g.ssdp@.len() as int));
    assert forall|i: int| 0 <= i < out@.len() implies merged_device(
        g,
        #[trigger] out@[i],
        out@[i].ip,
        na,
        nq,
        nm,
        g.ssdp@.len() as int,
    ) && out@[i].ip == pairs@[i].0 by {
        assert(m.contains_key(pairs@[i].0));
        assert(m[pairs@[i].0] == pairs@[i].1);
        assert(merged_device(g, m[pairs@[i].0], pairs@[i].0, na, nq, nm, g.ssdp@.len() as int));
    }
    assert forall|i: int, j: int| 0 <= i < j < out@.len() implies out@[i].ip < out@[j].ip by {
        assert(out@[i].ip == pairs@[i].0 && out@[j].ip == pairs@[j].0);
    }
    assert forall|ip: u32|
        (exists|i: int| 0 <= i < out@.len() && #[trigger] out@[i].ip == ip) <==> m.contains_key(ip) by {
        if m.contains_key(ip) {
            let i = choose|i: int| 0 <= i < pairs@.len() && pairs@[i].0 == ip;
            assert(out@[i].ip == pairs@[i].0);
            assert(out@[i].ip == ip);
        }
        if exists|i: int| 0 <= i < out@.len() && #[trigger] out@[i].ip == ip {
            let i = choose|i: int| 0 <= i < out@.len() && #[trigger] out@[i].ip == ip;
            assert(out@[i].ip == pairs@[i].0);
            assert(m.contains_key(pairs@[i].0));
        }
    }
    assert forall|ip: u32|
        (exists|i: int| 0 <= i < out@.len() && #[trigger] out@[i].ip == ip) <==> seen(
            g,
            ip,
            na,
            np,
            nq,
            nm,
            g.ssdp@.len() as int,
        ) by {
        assert(m.contains_key(ip) <==> seen(g, ip, na, np, nq, nm, g.ssdp@.len() as int));
        assert((exists|i: int| 0 <= i < out@.len() && #[trigger] out@[i].ip == ip) <==> m.contains_key(ip));
    }
    out
}

/// What the first phase found, as plain values.
pub struct Found {
    pub own_ip: u32,
    pub own_mac: Option<[u8; 6]>,
    pub arp: Vec<(u32, [u8; 6])>,
    pub pinged: Vec<u32>,
    pub ports: Vec<(u32, Vec<u16>)>,
    /// The Bonjour records heard.
    pub mdns: Records,
    pub ssdp: Vec<(u32, SsdpInfo)>,
    pub net: Net,
    pub own_ips: Vec<u32>,
}

pub open spec fn lan(f: Found, ip: u32) -> bool {
    in_net(f.net, ip) || f.own_ips@.contains(ip)
}

/// Whether some method found `ip`.
pub open spec fn found_ip(f: Found, ip: u32) -> bool {
    ||| ip == f.own_ip
    ||| last_of(f.arp@, f.arp@.len() as int, ip) is Some
    ||| f.pinged@.contains(ip)
    ||| last_of(f.ports@, f.ports@.len() as int, ip) is Some
    ||| (lan(f, ip) && spec_resolve(f.mdns).contains_key(ip))
    ||| (lan(f, ip) && last_of(f.ssdp@, f.ssdp@.len() as int, ip) is Some)
}

/// The merged device for `ip`: the last ARP answer's MAC (else this
/// machine's own), the last probe's open ports, the Bonjour answers for the
/// address and the last UPnP answer if it is on the LAN, and nothing else yet.
pub open spec fn found_device(f: Found, d: Device, ip: u32) -> bool {
    &&& d.ip == ip
    &&& opt_view(d.mac) == (match last_of(f.arp@, f.arp@.len() as int, ip) {
        Some(i) => Some(mac_text(f.arp@[i].1)),
        None => if ip == f.own_ip {
            match f.own_mac {
                Some(m) => Some(mac_text(m)),
                None => None,
            }
        } else {
            None
        },
    })
    &&& d.open_ports@ == (match last_of(f.ports@, f.ports@.len() as int, ip) {
        Some(i) => f.ports@[i].1@,
        None => Seq::empty(),
    })
    &&& (if lan(f, ip) && spec_resolve(f.mdns).contains_key(ip) {
        d.mdns matches Some(m) && info_view(m) == spec_resolve(f.mdns)[ip]
    } else {
        d.mdns is None
    })
    &&& d.ssdp == (if lan(f, ip) {
        match last_of(f.ssdp@, f.ssdp@.len() as int, ip) {
            Some(i) => Some(f.ssdp@[i].1),
            None => None,
        }
    } else {
        None
    })
    &&& d.name is None && d.kind is None && d.model is None && d.vendor is None
    &&& !d.randomized_mac && !d.gateway && !d.this_device
    &&& d.hostname is None && d.http is None
    &&& device_wf(d)
}

/// One device per address that any method found, in address order.
pub fn merge(f: Found) -> (r: Vec<Device>)
    requires
        net_wf(f.net),
    ensures
        forall|i: int, j: int| 0 <= i < j < r@.len() ==> r@[i].ip < r@[j].ip,
        forall|ip: u32| (exists|i: int| 0 <= i < r@.len() && #[trigger] r@[i].ip == ip) <==> found_ip(f, ip),
        forall|i: int| 0 <= i < r@.len() ==> found_device(f, #[trigger] r@[i], r@[i].ip),
{
    let ghost gf = f;
    let answers = resolve(&f.mdns);
    let ghost am = answers@;
    proof {
        answers.lemma_pairs();
    }
    let Found { own_ip, own_mac, arp, pinged, ports, mdns, ssdp, net, own_ips } = f;
    let g = Gathered { own_ip, own_mac, arp, pinged, ports, mdns: answers, ssdp, net, own_ips };
    let ghost gg = g;
    let r = merge_gathered(g);
    proof {
        let pm = gg.mdns.pairs();
        assert(gg.pinged@.take(gg.pinged@.len() as int) == gg.pinged@);
        assert forall|ip: u32| #[trigger] last_of(pm, pm.len() as int, ip) is Some <==> am.contains_key(ip) by {
            lemma_last_of(pm, pm.len() as int, ip);
            if am.contains_key(ip) {
                let i = choose|i: int| 0 <= i < pm.len() && pm[i].0 == ip;
            }
        }
        assert forall|ip: u32| (exists|i: int| 0 <= i < r@.len() && #[trigger] r@[i].ip == ip) <==> found_ip(gf, ip) by {
            assert(last_of(pm, pm.len() as int, ip) is Some <==> am.contains_key(ip));
            assert(out_view(gg.mdns).contains_key(ip) <==> am.contains_key(ip));
            assert(out_view(gg.mdns) == spec_resolve(gf.mdns));
            assert(on_lan(gg, ip) == lan(gf, ip));
            assert(seen(gg, ip, gg.arp@.len() as int, gg.pinged@.len() as int, gg.ports@.len() as int, pm.len() as int, gg.ssdp@.len() as int) <==> found_ip(gf, ip));
        }
        assert forall|i: int| 0 <= i < r@.len() implies found_device(gf, #[trigger] r@[i], r@[i].ip) by {
            let ip = r@[i].ip;
            assert(merged_device(gg, r@[i], ip, gg.arp@.len() as int, gg.ports@.len() as int, pm.len() as int, gg.ssdp@.len() as int));
            lemma_last_of(pm, pm.len() as int, ip);
            assert(out_view(gg.mdns).contains_key(ip) <==> am.contains_key(ip));
            if on_lan(gg, ip) && am.contains_key(ip) {
                let k = last_of(pm, pm.len() as int, ip).unwrap();
                assert(pm[k].0 == ip);
                assert(am[ip] == pm[k].1);
                assert(out_view(gg.mdns)[ip] == info_view(am[ip]));
            }
        }
    }
    r
}

/// The devices of address-ordered pairs, in order.
fn values(v: Vec<(u32, Device)>) -> (r: Vec<Device>)
    ensures
        r@.len() == v@.len(),
        forall|i: int| 0 <= i < r@.len() ==> #[trigger] r@[i] == v@[i].1,
{
    let ghost orig = v@;
    let n = v.len();
    let mut rest = reversed(v);
    assert(orig.skip(0) == orig);
    let mut out: Vec<Device> = Vec::new();
    let mut i: usize = 0;
    while i < n
        invariant
            i <= n,
            n == orig.len(),
            rest@ == orig.skip(i as int).reverse(),
            out@.len() == i,
            forall|k: int| 0 <= k < i ==> #[trigger] out@[k] == orig[k].1,
        decreases n - i,
    {
        assert(rest@.last() == orig[i as int]);
        assert(rest@.drop_last() =~= orig.skip(i + 1).reverse());
        let (_, d) = rest.pop().unwrap();
        out.push(d);
        i += 1;
    }
    out
}


// ---------------------------------------------------------------------------
// After merging
// ---------------------------------------------------------------------------

/// The devices of a pass, in strictly increasing address order, each with
/// its Bonjour TXT records listed among its services.
pub struct Pass {
    devices: Vec<Device>,
}

pub open spec fn pass_ok(ds: Seq<Device>) -> bool {
    &&& forall|i: int, j: int| 0 <= i < j < ds.len() ==> ds[i].ip < ds[j].ip
    &&& forall|i: int| 0 <= i < ds.len() ==> device_wf(#[trigger] ds[i])
}

impl Pass {
    #[verifier::type_invariant]
    spec fn inv(&self) -> bool {
        pass_ok(self.devices@)
    }

    pub closed spec fn view(&self) -> Seq<Device> {
        self.devices@
    }

    pub fn devices(&self) -> (r: &Vec<Device>)
        ensures
            r@ == self.view(),
            pass_ok(r@),
    {
        proof {
            use_type_invariant(self);
        }
        &self.devices
    }
}

/// The merged devices of a pass.
pub fn start_pass(f: Found) -> (r: Pass)
    requires
        net_wf(f.net),
    ensures
        forall|ip: u32| (exists|i: int| 0 <= i < r.view().len() && #[trigger] r.view()[i].ip == ip) <==> found_ip(f, ip),
        forall|i: int| 0 <= i < r.view().len() ==> found_device(f, #[trigger] r.view()[i], r.view()[i].ip),
{
    let devices = merge(f);
    Pass { devices }
}

/// The vendor, whether the MAC is a private one, whether it is the gateway
/// and whether it is this machine, from its address and MAC.
pub open spec fn marked(o: Oui, old: Device, new: Device, gateway: Option<u32>, own_ips: Seq<u32>) -> bool {
    let mac = match old.mac {
        Some(m) => spec_parse_mac(m@),
        None => None,
    };
    &&& opt_view(new.vendor) == (match mac {
        Some(m) => spec_vendor(o, m),
        None => None,
    })
    &&& new.randomized_mac == (match mac {
        Some(m) => m[0] & 2u8 != 0u8,
        None => false,
    })
    &&& new.gateway == (gateway == Some(old.ip))
    &&& new.this_device == own_ips.contains(old.ip)
    &&& new.ip == old.ip && new.name == old.name && new.kind == old.kind && new.model == old.model
    &&& new.mac == old.mac && new.hostname == old.hostname && new.open_ports == old.open_ports
    &&& new.mdns == old.mdns && new.ssdp == old.ssdp && new.http == old.http
}

/// Marks each device's vendor, private MAC, gateway and this machine.
pub fn mark(pass: Pass, oui: &Oui, gateway: Option<u32>, own_ips: &Vec<u32>) -> (r: Pass)
    ensures
        r.view().len() == pass.view().len(),
        forall|i: int| 0 <= i < r.view().len() ==> marked(*oui, pass.view()[i], #[trigger] r.view()[i], gateway, own_ips@),
{
    proof {
        use_type_invariant(&pass);
    }
    let ghost orig = pass.view();
    let Pass { devices } = pass;
    let n = devices.len();
    let mut rest = reversed(devices);
    assert(orig.skip(0) == orig);
    let mut out: Vec<Device> = Vec::new();
    let mut i: usize = 0;
    while i < n
        invariant
            i <= n,
            n == orig.len(),
            pass_ok(orig),
            rest@ == orig.skip(i as int).reverse(),
            out@.len() == i,
            forall|k: int| 0 <= k < i ==> marked(*oui, orig[k], #[trigger] out@[k], gateway, own_ips@),
        decreases n - i,
    {
        assert(rest@.last() == orig[i as int]);
        assert(rest@.drop_last() =~= orig.skip(i + 1).reverse());
        let mut d = rest.pop().unwrap();
        let mac = match &d.mac {
            Some(m) => {
                let c = chars_of(m.as_str());
                parse_mac(c.as_slice())
            },
            None => None,
        };
        d.vendor = match mac {
            Some(m) => oui.vendor(m),
            None => None,
        };
        d.randomized_mac = match mac {
            Some(m) => is_randomized(m),
            None => false,
        };
        d.gateway = gateway == Some(d.ip);
        d.this_device = is_own_ip(own_ips, d.ip);
        out.push(d);
        i += 1;
    }
    let r = Pass { devices: out };
    r
}

/// A host that a second look should check: one the TCP probe never reached
/// needs its ports, and anything serving HTTP gets its web banner read.
pub open spec fn spec_follow_up(ds: Seq<Device>, port_scanned: Seq<u32>) -> Seq<(u32, bool)>
    decreases ds.len(),
{
    if ds.len() == 0 {
        Seq::empty()
    } else {
        let rest = spec_follow_up(ds.drop_last(), port_scanned);
        let d = ds.last();
        let needs_ports = !port_scanned.contains(d.ip);
        if !d.this_device && (needs_ports || d.open_ports@.contains(80u16)) {
            rest.push((d.ip, needs_ports))
        } else {
            rest
        }
    }
}

pub fn follow_up(pass: &Pass, port_scanned: &Vec<u32>) -> (r: Vec<(u32, bool)>)
    ensures
        r@ == spec_follow_up(pass.view(), port_scanned@),
{
    let ds = pass.devices();
    let mut out: Vec<(u32, bool)> = Vec::new();
    let mut i: usize = 0;
    while i < ds.len()
        invariant
            i <= ds.len(),
            out@ == spec_follow_up(ds@.take(i as int), port_scanned@),
        decreases ds.len() - i,
    {
        assert(ds@.take(i + 1).drop_last() == ds@.take(i as int));
        assert(ds@.take(i + 1).last() == ds@[i as int]);
        let d = &ds[i];
        let needs_ports = !is_own_ip(port_scanned, d.ip);
        if !d.this_device && (needs_ports || crate::classify::has_port(d.open_ports.as_slice(), 80)) {
            out.push((d.ip, needs_ports));
        }
        i += 1;
    }
    assert(ds@.take(ds.len() as int) == ds@);
    out
}

/// What the second look found for an address: its ports if they were
/// probed, and its web banner.
pub type Followed = (u32, Option<Vec<u16>>, Option<Banner>);

/// The last answer for each address, as `HashMap` insertion keeps it.
pub open spec fn last_map<T>(s: Seq<(u32, T)>) -> Map<u32, T>
    decreases s.len(),
{
    if s.len() == 0 {
        Map::empty()
    } else {
        last_map(s.drop_last()).insert(s.last().0, s.last().1)
    }
}

pub open spec fn pairs_of(s: Seq<Followed>) -> Seq<(u32, (Option<Vec<u16>>, Option<Banner>))> {
    s.map_values(|f: Followed| (f.0, (f.1, f.2)))
}

/// The device with what the second look found and its host name, before it
/// is named and typed.
pub open spec fn refreshed(
    d: Device,
    fm: Map<u32, (Option<Vec<u16>>, Option<Banner>)>,
    names: Map<u32, String>,
) -> Device {
    let (ports, http) = if fm.contains_key(d.ip) {
        (
            match fm[d.ip].0 {
                Some(p) => p,
                None => d.open_ports,
            },
            fm[d.ip].1,
        )
    } else {
        (d.open_ports, d.http)
    };
    Device {
        open_ports: ports,
        http,
        hostname: if names.contains_key(d.ip) {
            Some(names[d.ip])
        } else {
            None
        },
        ..d
    }
}

/// `new` is `m` named and typed.
pub open spec fn classified(m: Device, new: Device) -> bool {
    &&& opt_view(new.name) == spec_name(m)
    &&& opt_view(new.kind) == spec_kind(m)
    &&& opt_view(new.model) == spec_model(m)
    &&& new.ip == m.ip && new.vendor == m.vendor && new.mac == m.mac
    &&& new.randomized_mac == m.randomized_mac && new.hostname == m.hostname
    &&& new.open_ports == m.open_ports && new.gateway == m.gateway
    &&& new.this_device == m.this_device && new.mdns == m.mdns && new.ssdp == m.ssdp
    &&& new.http == m.http
}

/// The map of the last pair for each address.
fn into_map<T>(v: Vec<(u32, T)>) -> (r: IpMap<T>)
    ensures
        r.wf(),
        r@ == last_map(v@),
{
    let ghost orig = v@;
    let n = v.len();
    let mut rest = reversed(v);
    assert(orig.skip(0) == orig);
    assert(orig.take(0) == Seq::<(u32, T)>::empty());
    let mut m: IpMap<T> = IpMap::new();
    let mut i: usize = 0;
    while i < n
        invariant
            i <= n,
            n == orig.len(),
            rest@ == orig.skip(i as int).reverse(),
            m.wf(),
            m@ == last_map(orig.take(i as int)),
        decreases n - i,
    {
        assert(rest@.last() == orig[i as int]);
        assert(rest@.drop_last() =~= orig.skip(i + 1).reverse());
        assert(orig.take(i + 1).drop_last() == orig.take(i as int));
        let (ip, x) = rest.pop().unwrap();
        m.insert(ip, x);
        i += 1;
    }
    assert(orig.take(n as int) == orig);
    m
}

fn followed_pairs(v: Vec<Followed>) -> (r: Vec<(u32, (Option<Vec<u16>>, Option<Banner>))>)
    ensures
        r@ == pairs_of(v@),
{
    let ghost orig = v@;
    let n = v.len();
    let mut rest = reversed(v);
    assert(orig.skip(0) == orig);
    let mut out: Vec<(u32, (Option<Vec<u16>>, Option<Banner>))> = Vec::new();
    let mut i: usize = 0;
    while i < n
        invariant
            i <= n,
            n == orig.len(),
            rest@ == orig.skip(i as int).reverse(),
            out@ == pairs_of(orig.take(i as int)),
        decreases n - i,
    {
        assert(rest@.last() == orig[i as int]);
        assert(rest@.drop_last() =~= orig.skip(i + 1).reverse());
        let (ip, ports, banner) = rest.pop().unwrap();
        out.push((ip, (ports, banner)));
        assert(pairs_of(orig.take(i + 1)) == pairs_of(orig.take(i as int)).push((ip, (ports, banner))));
        i += 1;
    }
    assert(orig.take(n as int) == orig);
    out
}

/// Fills in what the second look found and the host names, then names and
/// types every device.
pub fn finish(pass: Pass, followed: Vec<Followed>, names: Vec<(u32, String)>) -> (r: Vec<Device>)
    ensures
        r@.len() == pass.view().len(),
        forall|i: int| 0 <= i < r@.len() ==> classified(
            refreshed(pass.view()[i], last_map(pairs_of(followed@)), last_map(names@)),
            #[trigger] r@[i],
        ),
{
    proof {
        use_type_invariant(&pass);
    }
    let ghost orig = pass.view();
    let ghost fm0 = last_map(pairs_of(followed@));
    let ghost nm0 = last_map(names@);
    let mut fm = into_map(followed_pairs(followed));
    let mut nm = into_map(names);
    let Pass { devices } = pass;
    let n = devices.len();
    let mut rest = reversed(devices);
    assert(orig.skip(0) == orig);
    let mut out: Vec<Device> = Vec::new();
    let mut i: usize = 0;
    while i < n
        invariant
            i <= n,
            n == orig.len(),
            pass_ok(orig),
            rest@ == orig.skip(i as int).reverse(),
            fm.wf(),
            nm.wf(),
            forall|k: int| i <= k < n ==> (fm@.contains_key(#[trigger] orig[k].ip) <==> fm0.contains_key(orig[k].ip)),
            forall|k: int| i <= k < n && fm0.contains_key(#[trigger] orig[k].ip) ==> fm@[orig[k].ip] == fm0[orig[k].ip],
            forall|k: int| i <= k < n ==> (nm@.contains_key(#[trigger] orig[k].ip) <==> nm0.contains_key(orig[k].ip)),
            forall|k: int| i <= k < n && nm0.contains_key(#[trigger] orig[k].ip) ==> nm@[orig[k].ip] == nm0[orig[k].ip],
            out@.len() == i,
            forall|k: int| 0 <= k < i ==> classified(refreshed(orig[k], fm0, nm0), #[trigger] out@[k]),
        decreases n - i,
    {
        assert(rest@.last() == orig[i as int]);
        assert(rest@.drop_last() =~= orig.skip(i + 1).reverse());
        let mut d = rest.pop().unwrap();
        let ip = d.ip;
        let ghost before_fm = fm@;
        let ghost before_nm = nm@;
        match fm.remove(ip) {
            Some(e) => {
                let (ports, banner) = e;
                match ports {
                    Some(p) => {
                        d.open_ports = p;
                    },
                    None => {},
                }
                d.http = banner;
            },
            None => {},
        }
        d.hostname = nm.remove(ip);
        let ghost mid = d;
        assert(mid == refreshed(orig[i as int], fm0, nm0));
        assert(device_wf(mid)) by {
            assert(device_wf(orig[i as int]));
        }
        classify(&mut d);
        out.push(d);
        assert forall|k: int| i + 1 <= k < n implies orig[k].ip != ip by {
            assert(orig[i as int].ip < orig[k].ip);
        }
        i += 1;
    }
    out
}

/// Caveats about what the scan couldn't see: a large network narrowed to its
/// local /24, and without raw access and MAC addresses, a hint to use sudo.
pub open spec fn spec_notes(narrowed_from: Option<Net>, privileged: bool, have_macs: bool) -> Seq<Seq<char>> {
    let a = match narrowed_from {
        Some(n) => seq![net_text(n) + " is large; scanned only the local /24"@],
        None => Seq::empty(),
    };
    if !privileged && !have_macs {
        a.push(
            "tip: run with sudo to see MAC addresses and vendors, and find devices that ignore pings"@,
        )
    } else {
        a
    }
}

/// `a.b.c.d/prefix`, as `Ipv4Network`'s `Display` writes it.
pub open spec fn net_text(n: Net) -> Seq<char> {
    ipv4_text(n.addr) + seq!['/'] + dec(n.prefix as nat)
}

pub fn net_string(n: Net) -> (r: String)
    ensures
        r@ == net_text(n),
{
    let mut v: Vec<char> = Vec::new();
    push_ipv4(&mut v, n.addr);
    v.push('/');
    push_dec(&mut v, n.prefix as u64);
    string_of(v.as_slice())
}

/// The summary line: e.g. "27 devices on 192.168.1.0/24 (en0) in 2.1s",
/// where `seconds` is the elapsed time as the caller writes it.
pub open spec fn summary_text(count: nat, net: Net, iface: Seq<char>, seconds: Seq<char>) -> Seq<char> {
    dec(count) + " devices on "@ + net_text(net) + " ("@ + iface + ") in "@ + seconds + seq!['s']
}

/// The summary line for `count` devices found on `net` through `iface` in
/// `seconds` (the elapsed time, written to a tenth of a second).
pub fn summary(count: usize, net: Net, iface: &str, seconds: &str) -> (r: String)
    ensures
        r@ == summary_text(count as nat, net, iface@, seconds@),
{
    let mut v: Vec<char> = Vec::new();
    push_dec(&mut v, count as u64);
    push_str(&mut v, " devices on ");
    let n = chars_of(net_string(net).as_str());
    crate::text::push_all(&mut v, n.as_slice());
    push_str(&mut v, " (");
    push_str(&mut v, iface);
    push_str(&mut v, ") in ");
    push_str(&mut v, seconds);
    v.push('s');
    string_of(v.as_slice())
}

/// Whether a second look fetches the web banner: when its ports were not
/// probed again, or port 80 is among them.
pub fn wants_banner(ports: &Option<Vec<u16>>) -> (r: bool)
    ensures
        r == match ports {
            None => true,
            Some(p) => p@.contains(80u16),
        },
{
    match ports {
        None => true,
        Some(p) => crate::classify::has_port(p.as_slice(), 80),
    }
}

pub fn notes(narrowed_from: Option<Net>, privileged: bool, devices: &Vec<Device>) -> (r: Vec<String>)
    ensures
        r@.map_values(|s: String| s@) == spec_notes(narrowed_from, privileged, crate::report::spec_show_mac(devices@)),
{
    let mut out: Vec<String> = Vec::new();
    match narrowed_from {
        Some(n) => {
            let mut v: Vec<char> = Vec::new();
            let t = net_string(n);
            push_str(&mut v, t.as_str());
            push_str(&mut v, " is large; scanned only the local /24");
            out.push(string_of(v.as_slice()));
        },
        None => {},
    }
    let ghost first = out@;
    let have_macs = crate::report::show_mac(devices.as_slice());
    if !privileged && !have_macs {
        out.push(owned("tip: run with sudo to see MAC addresses and vendors, and find devices that ignore pings"));
        assert(out@.map_values(|s: String| s@) == first.map_values(|s: String| s@).push(
            "tip: run with sudo to see MAC addresses and vendors, and find devices that ignore pings"@,
        ));
    }
    out
}

/// `s` without its trailing dots.
pub open spec fn trim_dots(s: Seq<char>) -> Seq<char>
    decreases s.len(),
{
    if s.len() > 0 && s.last() == '.' {
        trim_dots(s.drop_last())
    } else {
        s
    }
}

/// The host name a reverse lookup gave, unless it just echoed an address
/// back (`is_address`: the name reads as an IP address); a fully qualified
/// name loses its final dots.
pub open spec fn spec_host_name(n: Seq<char>, is_address: bool) -> Option<Seq<char>> {
    if is_address {
        None
    } else {
        Some(trim_dots(n))
    }
}

pub fn host_name(n: &str, is_address: bool) -> (r: Option<String>)
    ensures
        opt_view(r) == spec_host_name(n@, is_address),
{
    if is_address {
        return None;
    }
    let c = chars_of(n);
    let mut end: usize = c.len();
    assert(c@.take(end as int) == c@);
    while end > 0 && c[end - 1] == '.'
        invariant
            end <= c.len(),
            c@ == n@,
            trim_dots(c@.take(end as int)) == trim_dots(n@),
        decreases end,
    {
        assert(c@.take(end as int).drop_last() == c@.take(end - 1));
        end -= 1;
    }
    let t = crate::text::slice_chars(c.as_slice(), 0, end);
    assert(t@ == c@.take(end as int));
    Some(string_of(t.as_slice()))
}

} // verus!

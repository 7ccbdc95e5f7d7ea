//! Host discovery over ARP: the request frames a sweep broadcasts, what a
//! frame heard on the wire says about its sender, and which answers count.
use vstd::prelude::*;
use crate::net::{broadcast_of, in_net, net_wf, octet, Net};

verus! {

/// The four bytes of an IPv4 address, most significant first.
pub open spec fn ip_bytes(ip: u32) -> Seq<u8> {
    seq![octet(ip, 0) as u8, octet(ip, 1) as u8, octet(ip, 2) as u8, octet(ip, 3) as u8]
}

pub open spec fn mac_bytes(m: [u8; 6]) -> Seq<u8> {
    m@
}

/// An Ethernet frame broadcasting an ARP request from `src_mac`/`src_ip` for
/// `target`: broadcast destination, EtherType ARP, then hardware type
/// Ethernet, protocol IPv4, address lengths 6 and 4, operation request,
/// sender addresses, a zero target MAC and the target address.
pub open spec fn spec_arp_request(src_mac: [u8; 6], src_ip: u32, target: u32) -> Seq<u8> {
    seq![0xffu8, 0xff, 0xff, 0xff, 0xff, 0xff] + mac_bytes(src_mac) + seq![0x08u8, 0x06] + seq![
        0x00u8,
        0x01,
        0x08,
        0x00,
        6,
        4,
        0x00,
        0x01,
    ] + mac_bytes(src_mac) + ip_bytes(src_ip) + seq![0u8, 0, 0, 0, 0, 0] + ip_bytes(target)
}

pub fn arp_request(src_mac: [u8; 6], src_ip: u32, target: u32) -> (r: [u8; 42])
    ensures
        r@ == spec_arp_request(src_mac, src_ip, target),
{
    let s0 = (src_ip / 0x100_0000) as u8;
    let s1 = ((src_ip / 0x1_0000) % 0x100) as u8;
    let s2 = ((src_ip / 0x100) % 0x100) as u8;
    let s3 = (src_ip % 0x100) as u8;
    let t0 = (target / 0x100_0000) as u8;
    let t1 = ((target / 0x1_0000) % 0x100) as u8;
    let t2 = ((target / 0x100) % 0x100) as u8;
    let t3 = (target % 0x100) as u8;
    let m = src_mac;
    let r: [u8; 42] = [
        0xff,
        0xff,
        0xff,
        0xff,
        0xff,
        0xff,
        m[0],
        m[1],
        m[2],
        m[3],
        m[4],
        m[5],
        0x08,
        0x06,
        0x00,
        0x01,
        0x08,
        0x00,
        6,
        4,
        0x00,
        0x01,
        m[0],
        m[1],
        m[2],
        m[3],
        m[4],
        m[5],
        s0,
        s1,
        s2,
        s3,
        0,
        0,
        0,
        0,
        0,
        0,
        t0,
        t1,
        t2,
        t3,
    ];
    assert(r@ =~= spec_arp_request(src_mac, src_ip, target));
    r
}

/// The sender of an ARP frame: a frame of at least an Ethernet header and an
/// ARP body (14 + 28 bytes) with EtherType ARP names its sender's MAC at
/// bytes 22..28 and address at 28..32.
pub open spec fn spec_arp_sender(frame: Seq<u8>) -> Option<(u32, [u8; 6])> {
    if frame.len() < 42 || frame[12] != 0x08 || frame[13] != 0x06 {
        None
    } else {
        Some(
            (
                (frame[28] as nat * 0x100_0000 + frame[29] as nat * 0x1_0000 + frame[30] as nat * 0x100
                    + frame[31] as nat) as u32,
                [frame[22], frame[23], frame[24], frame[25], frame[26], frame[27]],
            ),
        )
    }
}

pub fn arp_sender(frame: &[u8]) -> (r: Option<(u32, [u8; 6])>)
    ensures
        r == spec_arp_sender(frame@),
{
    if frame.len() < 42 || frame[12] != 0x08 || frame[13] != 0x06 {
        return None;
    }
    let ip: u32 = frame[28] as u32 * 0x100_0000 + frame[29] as u32 * 0x1_0000 + frame[30] as u32 * 0x100
        + frame[31] as u32;
    Some((ip, [frame[22], frame[23], frame[24], frame[25], frame[26], frame[27]]))
}

/// A request frame, heard on the wire, names its own sender.
pub proof fn lemma_request_sender(src_mac: [u8; 6], src_ip: u32, target: u32)
    ensures
        spec_arp_sender(spec_arp_request(src_mac, src_ip, target)) == Some((src_ip, src_mac)),
{
    let f = spec_arp_request(src_mac, src_ip, target);
    crate::net::lemma_octets(src_ip);
    assert(f.len() == 42);
    assert(f[22] == src_mac[0] && f[23] == src_mac[1] && f[24] == src_mac[2] && f[25] == src_mac[3]
        && f[26] == src_mac[4] && f[27] == src_mac[5]);
    assert([f[22], f[23], f[24], f[25], f[26], f[27]] =~= src_mac);
    assert(f[28] as nat == octet(src_ip, 0) && f[29] as nat == octet(src_ip, 1) && f[30] as nat == octet(
        src_ip,
        2,
    ) && f[31] as nat == octet(src_ip, 3));
}

/// Any ARP traffic (replies, and other hosts' requests) proves its sender is
/// alive, if the sender is on the network, not this machine and not 0.0.0.0.
pub open spec fn spec_counts(ip: u32, net: Net, own_ip: u32) -> bool {
    in_net(net, ip) && ip != own_ip && ip != 0
}

pub fn counts(ip: u32, net: Net, own_ip: u32) -> (r: bool)
    requires
        net_wf(net),
    ensures
        r == spec_counts(ip, net, own_ip),
{
    net.contains(ip) && ip != own_ip && ip != 0
}

/// The entries of the system's ARP cache that belong to the scanned
/// network: not this machine, not the broadcast address, and not a
/// broadcast MAC.
pub open spec fn spec_cache_entries(es: Seq<(u32, [u8; 6])>, net: Net, own_ip: u32) -> Seq<(u32, [u8; 6])>
    decreases es.len(),
{
    if es.len() == 0 {
        es
    } else {
        let rest = spec_cache_entries(es.drop_last(), net, own_ip);
        let (ip, mac) = es.last();
        if in_net(net, ip) && ip != own_ip && ip != broadcast_of(net) && mac != [0xffu8, 0xff, 0xff, 0xff, 0xff, 0xff] {
            rest.push((ip, mac))
        } else {
            rest
        }
    }
}

pub fn cache_entries(es: &Vec<(u32, [u8; 6])>, net: Net, own_ip: u32) -> (r: Vec<(u32, [u8; 6])>)
    requires
        net_wf(net),
    ensures
        r@ == spec_cache_entries(es@, net, own_ip),
{
    let bc = net.broadcast();
    let mut out: Vec<(u32, [u8; 6])> = Vec::new();
    let mut i: usize = 0;
    while i < es.len()
        invariant
            i <= es.len(),
            net_wf(net),
            bc == broadcast_of(net),
            out@ == spec_cache_entries(es@.take(i as int), net, own_ip),
        decreases es.len() - i,
    {
        assert(es@.take(i + 1).drop_last() == es@.take(i as int));
        assert(es@.take(i + 1).last() == es@[i as int]);
        let (ip, mac) = es[i];
        let all_ff = mac[0] == 0xff && mac[1] == 0xff && mac[2] == 0xff && mac[3] == 0xff && mac[4]
            == 0xff && mac[5] == 0xff;
        assert(all_ff <==> mac == [0xffu8, 0xff, 0xff, 0xff, 0xff, 0xff]) by {
            if all_ff {
                assert(mac =~= [0xffu8, 0xff, 0xff, 0xff, 0xff, 0xff]);
            }
        }
        if net.contains(ip) && ip != own_ip && ip != bc && !all_ff {
            out.push((ip, mac));
        }
        i += 1;
    }
    assert(es@.take(es.len() as int) == es@);
    out
}

/// The targets not yet heard from, in order; a second round asks only these.
pub open spec fn spec_pending(targets: Seq<u32>, found: Seq<u32>) -> Seq<u32>
    decreases targets.len(),
{
    if targets.len() == 0 {
        targets
    } else {
        let rest = spec_pending(targets.drop_last(), found);
        if found.contains(targets.last()) {
            rest
        } else {
            rest.push(targets.last())
        }
    }
}

pub fn pending(targets: &[u32], found: &Vec<u32>) -> (r: Vec<u32>)
    ensures
        r@ == spec_pending(targets@, found@),
{
    let mut out: Vec<u32> = Vec::new();
    let mut i: usize = 0;
    while i < targets.len()
        invariant
            i <= targets.len(),
            out@ == spec_pending(targets@.take(i as int), found@),
        decreases targets.len() - i,
    {
        assert(targets@.take(i + 1).drop_last() == targets@.take(i as int));
        assert(targets@.take(i + 1).last() == targets@[i as int]);
        if !crate::scan::is_own_ip(found, targets[i]) {
            out.push(targets[i]);
        }
        i += 1;
    }
    assert(targets@.take(targets.len() as int) == targets@);
    out
}

} // verus!

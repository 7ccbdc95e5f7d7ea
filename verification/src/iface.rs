//! Which interface and subnet to scan, and which addresses on it to probe.
use vstd::prelude::*;
use crate::net::{broadcast_of, in_net, net_wf, network_of, Net};
use crate::text::{chars_of, seq_eq};

verus! {

/// Largest subnet swept in full. Anything bigger gets narrowed to the local
/// /24 so a default run stays fast.
pub const MAX_PREFIX: u8 = 22;

/// A network interface as the system describes it.
pub struct Adapter {
    pub name: String,
    pub index: u32,
    pub mac: Option<[u8; 6]>,
    /// Its IPv4 addresses, each with its prefix length.
    pub ips: Vec<Net>,
    pub up: bool,
    pub loopback: bool,
    /// Whether there is hardware behind it (not a virtual switch).
    pub physical: bool,
    pub gateway: Option<u32>,
}

/// The interface to scan, and what was worked out about it.
pub struct Iface {
    pub iface: Adapter,
    pub ip: u32,
    /// None when the system hides it (recent macOS does, for unsigned binaries).
    pub mac: Option<[u8; 6]>,
    /// The network actually being scanned (may be narrower than the interface's).
    pub net: Net,
    /// Set when the interface's real network was too large and got narrowed.
    pub narrowed_from: Option<Net>,
    pub gateway: Option<u32>,
    /// Addresses on any of this machine's interfaces.
    pub own_ips: Vec<u32>,
}

/// Every address worth probing among the first `k` of the network: all
/// hosts except the network and broadcast addresses and this machine.
pub open spec fn hosts_below(n: Net, own: u32, k: nat) -> Seq<u32>
    decreases k,
{
    if k == 0 {
        Seq::empty()
    } else {
        let rest = hosts_below(n, own, (k - 1) as nat);
        let a = network_of(n) + k - 1;
        if a != network_of(n) && a != broadcast_of(n) && a != own {
            rest.push(a as u32)
        } else {
            rest
        }
    }
}

pub open spec fn spec_targets(n: Net, own: u32) -> Seq<u32> {
    hosts_below(n, own, (broadcast_of(n) - network_of(n) + 1) as nat)
}

impl Iface {
    /// Every address worth probing: all hosts except network, broadcast and ourselves.
    pub fn targets(&self) -> (r: Vec<u32>)
        requires
            net_wf(self.net),
        ensures
            r@ == spec_targets(self.net, self.ip),
    {
        let network = self.net.network();
        let broadcast = self.net.broadcast();
        proof {
            crate::net::lemma_block(self.net.prefix);
        }
        assert(network <= broadcast);
        let mut out: Vec<u32> = Vec::new();
        let mut a: u64 = network as u64;
        while a <= broadcast as u64
            invariant
                network == network_of(self.net),
                broadcast == broadcast_of(self.net),
                network <= a <= broadcast as u64 + 1,
                out@ == hosts_below(self.net, self.ip, (a - network) as nat),
            decreases broadcast as u64 + 1 - a,
        {
            let x = a as u32;
            if x != network && x != broadcast && x != self.ip {
                out.push(x);
            }
            a += 1;
        }
        out
    }
}

/// The network of `v4` as scanned: the interface's own if it is small enough,
/// else the /24 around the address, with the full network noted.
pub open spec fn spec_scanned(v4: Net) -> (Net, Option<Net>) {
    let full = Net { addr: network_of(v4) as u32, prefix: v4.prefix };
    if v4.prefix < MAX_PREFIX {
        let local = Net { addr: v4.addr, prefix: 24 };
        (Net { addr: network_of(local) as u32, prefix: 24 }, Some(full))
    } else {
        (full, None)
    }
}

pub fn scanned(v4: Net) -> (r: (Net, Option<Net>))
    requires
        net_wf(v4),
    ensures
        r == spec_scanned(v4),
{
    let full = Net { addr: v4.network(), prefix: v4.prefix };
    if v4.prefix < MAX_PREFIX {
        let local = Net { addr: v4.addr, prefix: 24 };
        (Net { addr: local.network(), prefix: 24 }, Some(full))
    } else {
        (full, None)
    }
}

/// A MAC address worth using: not all zeros, and not the stand-in macOS
/// reports when it withholds the real one.
pub open spec fn spec_real_mac(mac: Option<[u8; 6]>) -> Option<[u8; 6]> {
    match mac {
        Some(m) => if m == [0u8, 0, 0, 0, 0, 0] || m == [2u8, 0, 0, 0, 0, 0] {
            None
        } else {
            Some(m)
        },
        None => None,
    }
}

pub fn real_mac(mac: Option<[u8; 6]>) -> (r: Option<[u8; 6]>)
    ensures
        r == spec_real_mac(mac),
{
    match mac {
        Some(m) => {
            let zero = m[0] == 0 && m[1] == 0 && m[2] == 0 && m[3] == 0 && m[4] == 0 && m[5] == 0;
            let hidden = m[0] == 2 && m[1] == 0 && m[2] == 0 && m[3] == 0 && m[4] == 0 && m[5] == 0;
            assert(zero <==> m == [0u8, 0, 0, 0, 0, 0]) by {
                if zero {
                    assert(m =~= [0u8, 0, 0, 0, 0, 0]);
                }
            }
            assert(hidden <==> m == [2u8, 0, 0, 0, 0, 0]) by {
                if hidden {
                    assert(m =~= [2u8, 0, 0, 0, 0, 0]);
                }
            }
            if zero || hidden {
                None
            } else {
                Some(m)
            }
        },
        None => None,
    }
}

/// Up, not loopback, with a real (non-zero) MAC address and an IPv4 address.
pub open spec fn usable(a: Adapter) -> bool {
    a.up && !a.loopback && (a.mac matches Some(m) && m != [0u8, 0, 0, 0, 0, 0]) && a.ips@.len() > 0
}

pub fn is_usable(a: &Adapter) -> (r: bool)
    ensures
        r == usable(*a),
{
    let proper = match a.mac {
        Some(m) => {
            let zero = m[0] == 0 && m[1] == 0 && m[2] == 0 && m[3] == 0 && m[4] == 0 && m[5] == 0;
            assert(zero <==> m == [0u8, 0, 0, 0, 0, 0]) by {
                if zero {
                    assert(m =~= [0u8, 0, 0, 0, 0, 0]);
                }
            }
            !zero
        },
        None => false,
    };
    a.up && !a.loopback && proper && a.ips.len() > 0
}

pub open spec fn has_ip(a: Adapter, ip: u32) -> bool {
    exists|i: int| 0 <= i < a.ips@.len() && a.ips@[i].addr == ip
}

/// The first usable adapter satisfying `p` among the first `n`.
pub open spec fn first_where(all: Seq<Adapter>, n: int, p: spec_fn(Adapter) -> bool) -> Option<int>
    decreases n,
{
    if n <= 0 {
        None
    } else {
        match first_where(all, n - 1, p) {
            Some(i) => Some(i),
            None => if usable(all[n - 1]) && p(all[n - 1]) {
                Some(n - 1)
            } else {
                None
            },
        }
    }
}

/// The adapter to scan when none was named: the usable one with the address
/// the system would use to reach the internet; failing that (traffic goes
/// through a VPN or similar), the first usable one if it is physical, else
/// the first physical one, else the first.
pub open spec fn spec_pick(all: Seq<Adapter>, preferred: Option<u32>) -> Option<int> {
    let by_ip = match preferred {
        Some(ip) => first_where(all, all.len() as int, |a: Adapter| has_ip(a, ip)),
        None => None,
    };
    match by_ip {
        Some(i) => Some(i),
        None => match first_where(all, all.len() as int, |a: Adapter| true) {
            None => None,
            Some(f) => if all[f].physical {
                Some(f)
            } else {
                match first_where(all, all.len() as int, |a: Adapter| a.physical) {
                    Some(p) => Some(p),
                    None => Some(f),
                }
            },
        },
    }
}

fn adapter_has_ip(a: &Adapter, ip: u32) -> (r: bool)
    ensures
        r == has_ip(*a, ip),
{
    let mut i: usize = 0;
    while i < a.ips.len()
        invariant
            i <= a.ips.len(),
            forall|j: int| 0 <= j < i ==> a.ips@[j].addr != ip,
        decreases a.ips.len() - i,
    {
        if a.ips[i].addr == ip {
            return true;
        }
        i += 1;
    }
    false
}

proof fn lemma_first_where_bound(all: Seq<Adapter>, n: int, p: spec_fn(Adapter) -> bool)
    requires
        n <= all.len(),
    ensures
        first_where(all, n, p) matches Some(i) ==> 0 <= i < n && usable(all[i]) && p(all[i]),
    decreases n,
{
    if n > 0 {
        lemma_first_where_bound(all, n - 1, p);
    }
}

/// Which of `all` to scan when no interface was named.
pub fn pick(all: &Vec<Adapter>, preferred: Option<u32>) -> (r: Option<usize>)
    ensures
        r matches Some(i) ==> i < all@.len(),
        spec_pick(all@, preferred) matches Some(i) ==> 0 <= i < all@.len(),
        match spec_pick(all@, preferred) {
            Some(i) => r == Some(i as usize),
            None => r is None,
        },
{
    let mut by_ip: Option<usize> = None;
    let mut first: Option<usize> = None;
    let mut phys: Option<usize> = None;
    let mut i: usize = 0;
    while i < all.len()
        invariant
            i <= all.len(),
            match preferred {
                Some(ip) => by_ip == (match first_where(all@, i as int, |a: Adapter| has_ip(a, ip)) {
                    Some(k) => Some(k as usize),
                    None => None,
                }),
                None => by_ip is None,
            },
            first == (match first_where(all@, i as int, |a: Adapter| true) {
                Some(k) => Some(k as usize),
                None => None,
            }),
            phys == (match first_where(all@, i as int, |a: Adapter| a.physical) {
                Some(k) => Some(k as usize),
                None => None,
            }),
        decreases all.len() - i,
    {
        let a = &all[i];
        if is_usable(a) {
            match preferred {
                Some(ip) => {
                    if by_ip.is_none() && adapter_has_ip(a, ip) {
                        by_ip = Some(i);
                    }
                },
                None => {},
            }
            if first.is_none() {
                first = Some(i);
            }
            if phys.is_none() && a.physical {
                phys = Some(i);
            }
        }
        i += 1;
    }
    proof {
        lemma_first_where_bound(all@, all@.len() as int, |a: Adapter| true);
        lemma_first_where_bound(all@, all@.len() as int, |a: Adapter| a.physical);
        if let Some(ip) = preferred {
            lemma_first_where_bound(all@, all@.len() as int, |a: Adapter| has_ip(a, ip));
        }
    }
    match by_ip {
        Some(k) => Some(k),
        None => match first {
            None => None,
            Some(f) => if all[f].physical {
                Some(f)
            } else {
                match phys {
                    Some(p) => Some(p),
                    None => Some(f),
                }
            },
        },
    }
}

/// The adapter named `name`.
pub open spec fn spec_named(all: Seq<Adapter>, name: Seq<char>, n: int) -> Option<int>
    decreases n,
{
    if n <= 0 {
        None
    } else {
        match spec_named(all, name, n - 1) {
            Some(i) => Some(i),
            None => if all[n - 1].name@ == name {
                Some(n - 1)
            } else {
                None
            },
        }
    }
}

pub fn named(all: &Vec<Adapter>, name: &str) -> (r: Option<usize>)
    ensures
        match spec_named(all@, name@, all@.len() as int) {
            Some(i) => r == Some(i as usize),
            None => r is None,
        },
{
    let want = chars_of(name);
    let mut i: usize = 0;
    while i < all.len()
        invariant
            i <= all.len(),
            want@ == name@,
            spec_named(all@, name@, i as int) is None,
        decreases all.len() - i,
    {
        let have = chars_of(all[i].name.as_str());
        if seq_eq(have.as_slice(), want.as_slice()) {
            proof {
                lemma_named_prefix(all@, name@, i as int + 1, i as int);
            }
            return Some(i);
        }
        i += 1;
    }
    None
}

proof fn lemma_named_prefix(all: Seq<Adapter>, name: Seq<char>, n: int, v: int)
    requires
        0 <= n <= all.len(),
        spec_named(all, name, n) == Some(v),
    ensures
        spec_named(all, name, all.len() as int) == Some(v),
    decreases all.len() - n,
{
    if n < all.len() {
        lemma_named_prefix(all, name, n + 1, v);
    }
}

/// Every address on any of this machine's interfaces.
pub open spec fn spec_own_ips(all: Seq<Adapter>) -> Seq<u32>
    decreases all.len(),
{
    if all.len() == 0 {
        Seq::empty()
    } else {
        spec_own_ips(all.drop_last()) + all.last().ips@.map_values(|n: Net| n.addr)
    }
}

pub fn own_ips(all: &Vec<Adapter>) -> (r: Vec<u32>)
    ensures
        r@ == spec_own_ips(all@),
{
    let mut out: Vec<u32> = Vec::new();
    let mut i: usize = 0;
    while i < all.len()
        invariant
            i <= all.len(),
            out@ == spec_own_ips(all@.take(i as int)),
        decreases all.len() - i,
    {
        assert(all@.take(i + 1).drop_last() == all@.take(i as int));
        assert(all@.take(i + 1).last() == all@[i as int]);
        let ghost base = out@;
        let ips = &all[i].ips;
        let mut j: usize = 0;
        while j < ips.len()
            invariant
                j <= ips.len(),
                out@ == base + ips@.take(j as int).map_values(|n: Net| n.addr),
            decreases ips.len() - j,
        {
            out.push(ips[j].addr);
            assert(ips@.take(j + 1).map_values(|n: Net| n.addr) == ips@.take(j as int).map_values(
                |n: Net| n.addr,
            ).push(ips@[j as int].addr));
            j += 1;
        }
        assert(ips@.take(ips.len() as int) == ips@);
        i += 1;
    }
    assert(all@.take(all.len() as int) == all@);
    out
}

/// Which adapter to scan: the one named, or the one `pick` chooses.
pub open spec fn spec_select_adapter(all: Seq<Adapter>, name: Option<Seq<char>>, outbound: Option<u32>) -> Result<
    int,
    Seq<char>,
> {
    match name {
        Some(n) => match spec_named(all, n, all.len() as int) {
            Some(i) => Ok(i),
            None => Err("no interface named '"@ + n + "'"@),
        },
        None => match spec_pick(all, outbound) {
            Some(i) => Ok(i),
            None => Err("couldn't find an active network interface (try --interface)"@),
        },
    }
}

pub fn select_adapter(all: &Vec<Adapter>, name: Option<&str>, outbound: Option<u32>) -> (r: Result<usize, String>)
    ensures
        match spec_select_adapter(all@, crate::report::str_opt_view(name), outbound) {
            Ok(i) => r == Ok::<usize, String>(i as usize) && i < all@.len(),
            Err(m) => r matches Err(e) && e@ == m,
        },
{
    match name {
        Some(n) => match named(all, n) {
            Some(i) => {
                proof {
                    lemma_named_bound(all@, n@, all@.len() as int);
                }
                Ok(i)
            },
            None => {
                let mut v: Vec<char> = Vec::new();
                crate::text::push_str(&mut v, "no interface named '");
                crate::text::push_str(&mut v, n);
                crate::text::push_str(&mut v, "'");
                Err(crate::text::string_of(v.as_slice()))
            },
        },
        None => match pick(all, outbound) {
            Some(i) => Ok(i),
            None => Err(crate::text::owned("couldn't find an active network interface (try --interface)")),
        },
    }
}

proof fn lemma_named_bound(all: Seq<Adapter>, name: Seq<char>, n: int)
    requires
        n <= all.len(),
    ensures
        spec_named(all, name, n) matches Some(i) ==> 0 <= i < n,
    decreases n,
{
    if n > 0 {
        lemma_named_bound(all, name, n - 1);
    }
}

/// What scanning adapter `a` means: its first IPv4 address, its MAC if a
/// real one, the network scanned, and the full network if it was narrowed.
pub open spec fn spec_configure(a: Adapter) -> Result<(u32, Option<[u8; 6]>, Net, Option<Net>), Seq<char>> {
    if a.ips@.len() == 0 {
        Err(a.name@ + " has no IPv4 address"@)
    } else {
        let v4 = a.ips@[0];
        let (net, narrowed) = spec_scanned(v4);
        Ok((v4.addr, spec_real_mac(a.mac), net, narrowed))
    }
}

pub fn configure(a: &Adapter) -> (r: Result<(u32, Option<[u8; 6]>, Net, Option<Net>), String>)
    requires
        a.ips@.len() > 0 ==> net_wf(a.ips@[0]),
    ensures
        match spec_configure(*a) {
            Ok(x) => r == Ok::<(u32, Option<[u8; 6]>, Net, Option<Net>), String>(x),
            Err(m) => r matches Err(e) && e@ == m,
        },
{
    if a.ips.len() == 0 {
        let mut v: Vec<char> = Vec::new();
        crate::text::push_str(&mut v, a.name.as_str());
        crate::text::push_str(&mut v, " has no IPv4 address");
        return Err(crate::text::string_of(v.as_slice()));
    }
    let v4 = a.ips[0];
    let (net, narrowed) = scanned(v4);
    Ok((v4.addr, real_mac(a.mac), net, narrowed))
}

} // verus!

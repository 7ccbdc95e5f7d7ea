//! Unprivileged liveness check: which TCP ports get tried, and what the
//! answers say. A completed handshake *or* a refusal proves a host is there;
//! silence doesn't. Hosts that answer then get the longer list of service
//! ports, and open ports double as a hint about what the device is.
use vstd::prelude::*;

verus! {

/// Probed on every address. Common devices answer on at least one of them:
/// web UIs, SSH, SMB, iPhone sync (62078), AirPlay (7000), Chromecast (8008),
/// printers (9100).
pub open spec fn liveness_ports() -> Seq<u16> {
    seq![80u16, 443, 22, 445, 62078, 7000, 8008, 9100]
}

/// Probed only on hosts known to be alive: common server ports plus homelab
/// apps that give themselves away by port.
pub open spec fn service_ports() -> Seq<u16> {
    seq![
        21u16, 25, 53, 110, 111, 135, 139, 143, 993, 995, 1433, 1521, 1883, 3306, 3389, 5001, 5060,
        5432, 5672, 6379, 8000, 8001, 8006, 8080, 8081, 8096, 8123, 8443, 8888, 9090, 9091, 9443,
        27017, 32400,
    ]
}

fn copy_all(a: &[u16]) -> (r: Vec<u16>)
    ensures
        r@ == a@,
{
    let mut out: Vec<u16> = Vec::new();
    let mut i: usize = 0;
    while i < a.len()
        invariant
            i <= a.len(),
            out@ == a@.take(i as int),
        decreases a.len() - i,
    {
        out.push(a[i]);
        i += 1;
    }
    assert(a@.take(a.len() as int) == a@);
    out
}

pub fn liveness() -> (r: Vec<u16>)
    ensures
        r@ == liveness_ports(),
{
    let a: [u16; 8] = [80, 443, 22, 445, 62078, 7000, 8008, 9100];
    let r = copy_all(&a);
    assert(r@ == liveness_ports());
    r
}

pub fn services() -> (r: Vec<u16>)
    ensures
        r@ == service_ports(),
{
    let a: [u16; 34] = [
        21, 25, 53, 110, 111, 135, 139, 143, 993, 995, 1433, 1521, 1883, 3306, 3389, 5001, 5060,
        5432, 5672, 6379, 8000, 8001, 8006, 8080, 8081, 8096, 8123, 8443, 8888, 9090, 9091, 9443,
        27017, 32400,
    ];
    let r = copy_all(&a);
    assert(r@ == service_ports());
    r
}

/// Every port, for a host found some other way.
pub fn all_ports() -> (r: Vec<u16>)
    ensures
        r@ == liveness_ports() + service_ports(),
{
    let mut r = liveness();
    let mut s = services();
    r.append(&mut s);
    r
}

pub open spec fn sorted(s: Seq<u16>) -> bool {
    forall|i: int, j: int| 0 <= i < j < s.len() ==> s[i] <= s[j]
}

/// The ports in increasing order.
pub fn sort_ports(v: &Vec<u16>) -> (r: Vec<u16>)
    ensures
        sorted(r@),
        r@.to_multiset() == v@.to_multiset(),
{
    let mut out: Vec<u16> = Vec::new();
    let mut i: usize = 0;
    assert(v@.take(0) =~= Seq::<u16>::empty());
    while i < v.len()
        invariant
            i <= v.len(),
            sorted(out@),
            out@.to_multiset() == v@.take(i as int).to_multiset(),
        decreases v.len() - i,
    {
        let x = v[i];
        let mut p: usize = 0;
        while p < out.len() && out[p] <= x
            invariant
                p <= out.len(),
                forall|k: int| 0 <= k < p ==> out@[k] <= x,
            decreases out.len() - p,
        {
            p += 1;
        }
        let ghost before = out@;
        out.insert(p, x);
        proof {
            vstd::seq_lib::to_multiset_insert(before, p as int, x);
            vstd::seq_lib::to_multiset_build(v@.take(i as int), x);
        }
        assert(sorted(out@)) by {
            assert forall|a: int, b: int| 0 <= a < b < out@.len() implies out@[a] <= out@[b] by {
                if b < p {
                    assert(before[a] <= before[b]);
                } else if b == p {
                } else if a < p {
                    assert(out@[b] == before[b - 1]);
                    if p < before.len() {
                        assert(x < before[p as int]);
                        assert(before[p as int] <= before[b - 1]);
                    }
                } else if a == p {
                    assert(out@[b] == before[b - 1]);
                    assert(x < before[p as int]);
                    assert(before[p as int] <= before[b - 1]);
                } else {
                    assert(before[a - 1] <= before[b - 1]);
                }
            }
        }
        assert(v@.take(i + 1) == v@.take(i as int).push(x));
        i += 1;
    }
    assert(v@.take(v.len() as int) == v@);
    out
}

/// The first entry for `ip`.
pub open spec fn entry_of(alive: Seq<(u32, Vec<u16>)>, ip: u32) -> Option<int>
    decreases alive.len(),
{
    if alive.len() == 0 {
        None
    } else {
        match entry_of(alive.drop_last(), ip) {
            Some(i) => Some(i),
            None => if alive.last().0 == ip {
                Some(alive.len() - 1)
            } else {
                None
            },
        }
    }
}

proof fn lemma_entry_of(alive: Seq<(u32, Vec<u16>)>, ip: u32)
    ensures
        entry_of(alive, ip) matches Some(i) ==> 0 <= i < alive.len() && alive[i].0 == ip,
        entry_of(alive, ip) is None ==> forall|k: int| 0 <= k < alive.len() ==> alive[k].0 != ip,
    decreases alive.len(),
{
    if alive.len() > 0 {
        lemma_entry_of(alive.drop_last(), ip);
        assert forall|k: int| 0 <= k < alive.len() - 1 implies alive[k] == alive.drop_last()[k] by {}
    }
}

/// Takes in one check of `port` on `ip`: `Some(true)` if it is open,
/// `Some(false)` if refused, `None` if nothing was heard. An answer of either
/// kind makes the host alive, and an open port is listed. Returns whether the
/// host was just found alive, when its service ports are due.
pub fn note_check(alive: &mut Vec<(u32, Vec<u16>)>, ip: u32, port: u16, open: Option<bool>) -> (first: bool)
    ensures
        match open {
            None => !first && final(alive)@ == old(alive)@,
            Some(o) => match entry_of(old(alive)@, ip) {
                None => first && final(alive)@.len() == old(alive)@.len() + 1
                    && final(alive)@.drop_last() == old(alive)@ && final(alive)@.last().0 == ip
                    && final(alive)@.last().1@ == (if o {
                    seq![port]
                } else {
                    Seq::empty()
                }),
                Some(i) => !first && final(alive)@.len() == old(alive)@.len() && (forall|k: int|
                    0 <= k < old(alive)@.len() && k != i ==> final(alive)@[k] == old(alive)@[k])
                    && final(alive)@[i].0 == ip && final(alive)@[i].1@ == (if o {
                    old(alive)@[i].1@.push(port)
                } else {
                    old(alive)@[i].1@
                }),
            },
        },
{
    let o = match open {
        None => return false,
        Some(o) => o,
    };
    proof {
        lemma_entry_of(alive@, ip);
    }
    let mut i: usize = 0;
    while i < alive.len()
        invariant
            i <= alive.len(),
            alive@ == old(alive)@,
            open == Some(o),
            forall|k: int| 0 <= k < i ==> alive@[k].0 != ip,
        decreases alive.len() - i,
    {
        if alive[i].0 == ip {
            proof {
                lemma_entry_first(alive@, ip, i as int);
            }
            if o {
                let mut e = alive.remove(i);
                e.1.push(port);
                alive.insert(i, e);
            }
            return false;
        }
        i += 1;
    }
    let mut ports: Vec<u16> = Vec::new();
    if o {
        ports.push(port);
    }
    alive.push((ip, ports));
    true
}

proof fn lemma_entry_first(alive: Seq<(u32, Vec<u16>)>, ip: u32, i: int)
    requires
        0 <= i < alive.len(),
        alive[i].0 == ip,
        forall|k: int| 0 <= k < i ==> alive[k].0 != ip,
    ensures
        entry_of(alive, ip) == Some(i),
    decreases alive.len(),
{
    if i < alive.len() - 1 {
        lemma_entry_first(alive.drop_last(), ip, i);
    } else {
        lemma_entry_of(alive.drop_last(), ip);
    }
}

/// Each host's open ports, in increasing order.
pub fn sorted_alive(alive: &Vec<(u32, Vec<u16>)>) -> (r: Vec<(u32, Vec<u16>)>)
    ensures
        r@.len() == alive@.len(),
        forall|i: int| 0 <= i < r@.len() ==> #[trigger] r@[i].0 == alive@[i].0 && sorted(r@[i].1@)
            && r@[i].1@.to_multiset() == alive@[i].1@.to_multiset(),
{
    let mut out: Vec<(u32, Vec<u16>)> = Vec::new();
    let mut i: usize = 0;
    while i < alive.len()
        invariant
            i <= alive.len(),
            out@.len() == i,
            forall|k: int| 0 <= k < i ==> #[trigger] out@[k].0 == alive@[k].0 && sorted(out@[k].1@)
                && out@[k].1@.to_multiset() == alive@[k].1@.to_multiset(),
        decreases alive.len() - i,
    {
        let s = sort_ports(&alive[i].1);
        out.push((alive[i].0, s));
        i += 1;
    }
    out
}

} // verus!

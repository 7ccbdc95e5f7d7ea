//! IPv4 addresses (as `u32`, most significant octet first), the networks
//! they belong to, and MAC addresses as text.
use vstd::prelude::*;
use vstd::arithmetic::power2::{
    lemma2_to64, lemma_pow2_adds, lemma_pow2_pos, lemma_pow2_strictly_increases, lemma_pow2_unfold,
    pow2,
};
use crate::text::{
    digits_value, is_digit, is_digit_char, push_dec, push_hex2, split_char, split_char_of, views,
    dec, hex2,
};

verus! {

pub open spec fn ip_of(a: nat, b: nat, c: nat, d: nat) -> nat {
    a * 0x100_0000 + b * 0x1_0000 + c * 0x100 + d
}

pub open spec fn octet(ip: u32, k: nat) -> nat {
    if k == 0 {
        (ip / 0x100_0000) as nat
    } else if k == 1 {
        ((ip / 0x1_0000) % 0x100) as nat
    } else if k == 2 {
        ((ip / 0x100) % 0x100) as nat
    } else {
        (ip % 0x100) as nat
    }
}

pub proof fn lemma_octets(ip: u32)
    ensures
        ip as nat == ip_of(octet(ip, 0), octet(ip, 1), octet(ip, 2), octet(ip, 3)),
        octet(ip, 0) < 256 && octet(ip, 1) < 256 && octet(ip, 2) < 256 && octet(ip, 3) < 256,
{
    let x = ip as nat;
    assert(x == ip_of(octet(ip, 0), octet(ip, 1), octet(ip, 2), octet(ip, 3))) by (nonlinear_arith)
        requires
            x == ip as nat,
            octet(ip, 0) == x / 0x100_0000,
            octet(ip, 1) == (x / 0x1_0000) % 0x100,
            octet(ip, 2) == (x / 0x100) % 0x100,
            octet(ip, 3) == x % 0x100,
            x < 0x1_0000_0000,
    ;
}

pub proof fn lemma_ip_of_octets(a: nat, b: nat, c: nat, d: nat)
    requires
        a < 256 && b < 256 && c < 256 && d < 256,
    ensures
        ip_of(a, b, c, d) < 0x1_0000_0000,
        octet(ip_of(a, b, c, d) as u32, 0) == a,
        octet(ip_of(a, b, c, d) as u32, 1) == b,
        octet(ip_of(a, b, c, d) as u32, 2) == c,
        octet(ip_of(a, b, c, d) as u32, 3) == d,
{
    let x = ip_of(a, b, c, d);
    assert(x < 0x1_0000_0000 && x / 0x100_0000 == a && (x / 0x1_0000) % 0x100 == b && (x / 0x100)
        % 0x100 == c && x % 0x100 == d) by (nonlinear_arith)
        requires
            x == a * 0x100_0000 + b * 0x1_0000 + c * 0x100 + d,
            a < 256 && b < 256 && c < 256 && d < 256,
    ;
}

/// One part of a dotted quad: one to three digits without a leading zero,
/// at most 255.
pub open spec fn octet_text_ok(p: Seq<char>) -> bool {
    &&& 1 <= p.len() <= 3
    &&& forall|i: int| 0 <= i < p.len() ==> is_digit(#[trigger] p[i])
    &&& !(p.len() > 1 && p[0] == '0')
    &&& digits_value(p, 10) matches Some(v) && v <= 255
}

/// `Ipv4Addr::from_str`: four dot-separated decimal octets.
pub open spec fn spec_parse_ipv4(s: Seq<char>) -> Option<u32> {
    let ps = split_char(s, '.');
    if ps.len() == 4 && octet_text_ok(ps[0]) && octet_text_ok(ps[1]) && octet_text_ok(ps[2])
        && octet_text_ok(ps[3]) {
        Some(
            ip_of(
                digits_value(ps[0], 10).unwrap(),
                digits_value(ps[1], 10).unwrap(),
                digits_value(ps[2], 10).unwrap(),
                digits_value(ps[3], 10).unwrap(),
            ) as u32,
        )
    } else {
        None
    }
}

fn parse_octet(p: &[char]) -> (r: Option<u32>)
    ensures
        match r {
            Some(v) => octet_text_ok(p@) && digits_value(p@, 10) == Some(v as nat),
            None => !octet_text_ok(p@),
        },
{
    if p.len() < 1 || p.len() > 3 {
        return None;
    }
    if p.len() > 1 && p[0] == '0' {
        return None;
    }
    let mut v: u32 = 0;
    let mut i: usize = 0;
    assert(p@.take(0) == Seq::<char>::empty());
    while i < p.len()
        invariant
            i <= p.len() <= 3,
            forall|k: int| 0 <= k < i ==> is_digit(#[trigger] p@[k]),
            digits_value(p@.take(i as int), 10) == Some(v as nat),
            i == 0 ==> v == 0,
            i <= 1 ==> v < 10,
            i <= 2 ==> v < 100,
            v < 1000,
        decreases p.len() - i,
    {
        if !is_digit_char(p[i]) {
            return None;
        }
        assert(p@.take(i + 1).drop_last() == p@.take(i as int));
        v = v * 10 + (p[i] as u32 - 48);
        i += 1;
    }
    assert(p@.take(i as int) == p@);
    if v > 255 {
        return None;
    }
    Some(v)
}

/// Parse a dotted-quad IPv4 address, as `Ipv4Addr::from_str` does.
pub fn parse_ipv4(s: &[char]) -> (r: Option<u32>)
    ensures
        r == spec_parse_ipv4(s@),
{
    let ps = split_char_of(s, '.');
    if ps.len() != 4 {
        return None;
    }
    assert(views(ps@)[0] == ps@[0]@ && views(ps@)[1] == ps@[1]@ && views(ps@)[2] == ps@[2]@
        && views(ps@)[3] == ps@[3]@);
    let a = match parse_octet(ps[0].as_slice()) {
        Some(v) => v,
        None => return None,
    };
    let b = match parse_octet(ps[1].as_slice()) {
        Some(v) => v,
        None => return None,
    };
    let c = match parse_octet(ps[2].as_slice()) {
        Some(v) => v,
        None => return None,
    };
    let d = match parse_octet(ps[3].as_slice()) {
        Some(v) => v,
        None => return None,
    };
    proof {
        lemma_ip_of_octets(a as nat, b as nat, c as nat, d as nat);
    }
    Some(a * 0x100_0000 + b * 0x1_0000 + c * 0x100 + d)
}

/// `a.b.c.d`, as `Ipv4Addr`'s `Display` writes it.
pub open spec fn ipv4_text(ip: u32) -> Seq<char> {
    dec(octet(ip, 0)) + seq!['.'] + dec(octet(ip, 1)) + seq!['.'] + dec(octet(ip, 2)) + seq!['.']
        + dec(octet(ip, 3))
}

pub fn push_ipv4(out: &mut Vec<char>, ip: u32)
    ensures
        final(out)@ == old(out)@ + ipv4_text(ip),
{
    push_dec(out, (ip / 0x100_0000) as u64);
    out.push('.');
    push_dec(out, ((ip / 0x1_0000) % 0x100) as u64);
    out.push('.');
    push_dec(out, ((ip / 0x100) % 0x100) as u64);
    out.push('.');
    push_dec(out, (ip % 0x100) as u64);
    assert(out@ == old(out)@ + ipv4_text(ip));
}

pub fn ipv4_string(ip: u32) -> (r: String)
    ensures
        r@ == ipv4_text(ip),
{
    let mut v: Vec<char> = Vec::new();
    push_ipv4(&mut v, ip);
    crate::text::string_of(v.as_slice())
}

/// `aa:bb:cc:dd:ee:ff`, as `MacAddr`'s `Display` writes it.
pub open spec fn mac_text(m: [u8; 6]) -> Seq<char> {
    hex2(m[0]) + seq![':'] + hex2(m[1]) + seq![':'] + hex2(m[2]) + seq![':'] + hex2(m[3]) + seq![
        ':',
    ] + hex2(m[4]) + seq![':'] + hex2(m[5])
}

pub fn mac_string(m: [u8; 6]) -> (r: String)
    ensures
        r@ == mac_text(m),
{
    let mut v: Vec<char> = Vec::new();
    push_hex2(&mut v, m[0]);
    v.push(':');
    push_hex2(&mut v, m[1]);
    v.push(':');
    push_hex2(&mut v, m[2]);
    v.push(':');
    push_hex2(&mut v, m[3]);
    v.push(':');
    push_hex2(&mut v, m[4]);
    v.push(':');
    push_hex2(&mut v, m[5]);
    assert(v@ == mac_text(m));
    crate::text::string_of(v.as_slice())
}

// ---------------------------------------------------------------------------
// Networks
// ---------------------------------------------------------------------------

/// An IPv4 network: an address and a prefix length, as `Ipv4Network` holds them.
#[derive(Clone, Copy, PartialEq, Eq, Debug)]
pub struct Net {
    pub addr: u32,
    pub prefix: u8,
}

/// The number of addresses in a network with this prefix, `2^(32 - prefix)`.
pub open spec fn block(prefix: u8) -> nat {
    pow2((32 - prefix) as nat)
}

pub proof fn lemma_block(prefix: u8)
    requires
        prefix <= 32,
    ensures
        1 <= block(prefix) <= 0x1_0000_0000,
        (0x1_0000_0000nat) % block(prefix) == 0,
{
    let e = (32 - prefix) as nat;
    lemma2_to64();
    lemma_pow2_pos(e);
    lemma_pow2_adds(e, prefix as nat);
    lemma_pow2_pos(prefix as nat);
    assert(pow2(32) == pow2(e) * pow2(prefix as nat));
    if e < 32 {
        lemma_pow2_strictly_increases(e, 32);
    }
    let b = pow2(e);
    let q = pow2(prefix as nat);
    vstd::arithmetic::div_mod::lemma_mod_multiples_basic(q as int, b as int);
    assert(q * b == b * q) by (nonlinear_arith);
}

/// The network address: `ip` with its host bits cleared.
pub open spec fn network_of(n: Net) -> int {
    (n.addr as int) - (n.addr as int) % (block(n.prefix) as int)
}

/// The broadcast address: `ip` with its host bits set.
pub open spec fn broadcast_of(n: Net) -> int {
    network_of(n) + block(n.prefix) - 1
}

/// Whether `ip` lies in `n`.
pub open spec fn in_net(n: Net, ip: u32) -> bool {
    network_of(n) <= ip && ip <= broadcast_of(n)
}

pub open spec fn net_wf(n: Net) -> bool {
    n.prefix <= 32
}

/// The number of addresses in the network, `2^(32 - prefix)`.
pub fn block_size(prefix: u8) -> (r: u64)
    requires
        prefix <= 32,
    ensures
        r == block(prefix),
        1 <= r <= 0x1_0000_0000,
{
    proof {
        lemma_block(prefix);
    }
    let e: u8 = 32 - prefix;
    let mut r: u64 = 1;
    let mut k: u8 = 0;
    assert(pow2(0) == 1) by {
        lemma2_to64();
    }
    while k < e
        invariant
            k <= e <= 32,
            r == pow2(k as nat),
            r <= 0x1_0000_0000,
            pow2(e as nat) <= 0x1_0000_0000,
            e == 32 - prefix,
        decreases e - k,
    {
        proof {
            lemma_pow2_unfold((k + 1) as nat);
            if k + 1 < e {
                lemma_pow2_strictly_increases((k + 1) as nat, e as nat);
            }
        }
        r = r * 2;
        k = k + 1;
    }
    r
}

impl Net {
    /// The network address.
    pub fn network(&self) -> (r: u32)
        requires
            net_wf(*self),
        ensures
            r == network_of(*self),
    {
        let b = block_size(self.prefix);
        let a = self.addr as u64;
        assert(a % b <= a) by (nonlinear_arith)
            requires
                b > 0,
        ;
        (a - a % b) as u32
    }

    /// The broadcast address.
    pub fn broadcast(&self) -> (r: u32)
        requires
            net_wf(*self),
        ensures
            r == broadcast_of(*self),
    {
        let b = block_size(self.prefix);
        proof {
            lemma_block(self.prefix);
        }
        let a = self.addr as u64;
        assert(a % b <= a) by (nonlinear_arith)
            requires
                b > 0,
        ;
        let net = a - a % b;
        assert(net + b - 1 < 0x1_0000_0000) by (nonlinear_arith)
            requires
                net == a - a % b,
                a < 0x1_0000_0000,
                1 <= b <= 0x1_0000_0000,
                (0x1_0000_0000int) % (b as int) == 0,
        {
            assert(a == b * (a / b) + a % b);
            let m: int = 0x1_0000_0000int / (b as int);
            assert(0x1_0000_0000int == (b as int) * m);
            assert((a as int) / (b as int) < m);
            assert((b as int) * ((a as int) / (b as int)) + (b as int) <= (b as int) * m);
        }
        (net + b - 1) as u32
    }

    /// Whether `ip` lies in this network.
    pub fn contains(&self, ip: u32) -> (r: bool)
        requires
            net_wf(*self),
        ensures
            r == in_net(*self, ip),
    {
        let lo = self.network();
        let hi = self.broadcast();
        lo <= ip && ip <= hi
    }
}

} // verus!

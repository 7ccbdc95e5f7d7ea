//! Parsers for the operating system's tables of the default gateway and the
//! ARP cache: Linux's `/proc/net/route` and `/proc/net/arp`, and the output
//! of `netstat -rn -f inet` and `arp -an` elsewhere. They take plain text, so
//! every platform's can be tested anywhere.
use vstd::prelude::*;
use crate::net::{ip_of, lemma_ip_of_octets, parse_ipv4, spec_parse_ipv4};
use crate::text::{
    chars_of, eq_str, lines, lines_of, parse_uint, parse_uint_of, slice_chars, split_char,
    split_char_of, starts_with, starts_with_str, views, words, words_of,
};

verus! {

// ---------------------------------------------------------------------------
// MAC addresses
// ---------------------------------------------------------------------------

/// Six colon-separated hexadecimal octets; macOS drops leading zeros
/// (`a4:2b:0:1:2:3`), so each part is parsed on its own.
pub open spec fn spec_parse_mac(s: Seq<char>) -> Option<[u8; 6]> {
    let ps = split_char(s, ':');
    if ps.len() == 6 && (forall|i: int| 0 <= i < 6 ==> #[trigger] parse_uint(ps[i], 16, 255) is Some) {
        Some(
            [
                parse_uint(ps[0], 16, 255).unwrap() as u8,
                parse_uint(ps[1], 16, 255).unwrap() as u8,
                parse_uint(ps[2], 16, 255).unwrap() as u8,
                parse_uint(ps[3], 16, 255).unwrap() as u8,
                parse_uint(ps[4], 16, 255).unwrap() as u8,
                parse_uint(ps[5], 16, 255).unwrap() as u8,
            ],
        )
    } else {
        None
    }
}

pub fn parse_mac(s: &[char]) -> (r: Option<[u8; 6]>)
    ensures
        r == spec_parse_mac(s@),
{
    let ps = split_char_of(s, ':');
    let ghost pv = views(ps@);
    let mut o: Vec<u8> = Vec::new();
    let mut i: usize = 0;
    while i < ps.len()
        invariant
            i <= ps.len(),
            pv == views(ps@),
            pv == split_char(s@, ':'),
            o@.len() == i,
            forall|k: int| 0 <= k < i ==> #[trigger] parse_uint(pv[k], 16, 255) == Some(o@[k] as nat),
        decreases ps.len() - i,
    {
        assert(pv[i as int] == ps@[i as int]@);
        match parse_uint_of(ps[i].as_slice(), 16, 255) {
            Some(v) => o.push(v as u8),
            None => {
                assert(parse_uint(pv[i as int], 16, 255) is None);
                return None;
            },
        }
        i += 1;
    }
    if o.len() != 6 {
        return None;
    }
    let r: [u8; 6] = [o[0], o[1], o[2], o[3], o[4], o[5]];
    assert(parse_uint(pv[0], 16, 255) == Some(o@[0] as nat));
    assert(parse_uint(pv[1], 16, 255) == Some(o@[1] as nat));
    assert(parse_uint(pv[2], 16, 255) == Some(o@[2] as nat));
    assert(parse_uint(pv[3], 16, 255) == Some(o@[3] as nat));
    assert(parse_uint(pv[4], 16, 255) == Some(o@[4] as nat));
    assert(parse_uint(pv[5], 16, 255) == Some(o@[5] as nat));
    assert(r@ =~= spec_parse_mac(s@).unwrap()@);
    Some(r)
}

pub open spec fn is_zero_mac(m: [u8; 6]) -> bool {
    m[0] == 0 && m[1] == 0 && m[2] == 0 && m[3] == 0 && m[4] == 0 && m[5] == 0
}

// ---------------------------------------------------------------------------
// /proc/net/route
// ---------------------------------------------------------------------------

/// The address whose octets are the bytes of `x`, least significant first
/// (`/proc/net/route` prints addresses as little-endian hex).
pub open spec fn from_le(x: nat) -> nat {
    ip_of(x % 0x100, (x / 0x100) % 0x100, (x / 0x1_0000) % 0x100, (x / 0x100_0000) % 0x100)
}

/// A default route on `iface`: its metric and gateway.
pub open spec fn route_entry(line: Seq<char>, iface: Seq<char>) -> Option<(nat, u32)> {
    let f = words(line);
    if f.len() < 7 || f[0] != iface || f[1] != "00000000"@ {
        None
    } else {
        match (parse_uint(f[2], 16, 0xffff_ffff), parse_uint(f[6], 10, 0xffff_ffff)) {
            (Some(gw), Some(metric)) => if gw != 0 {
                Some((metric, from_le(gw) as u32))
            } else {
                None
            },
            _ => None,
        }
    }
}

/// The lower-metric route of the two, the first on a tie.
pub open spec fn better(
    a: Option<(nat, u32)>,
    b: Option<(nat, u32)>,
) -> Option<(nat, u32)> {
    match (a, b) {
        (None, _) => b,
        (Some(x), None) => Some(x),
        (Some(x), Some(y)) => if y.0 < x.0 {
            Some(y)
        } else {
            Some(x)
        },
    }
}

/// The lowest-metric default route among `ls`, the first on a tie.
pub open spec fn best_route(ls: Seq<Seq<char>>, iface: Seq<char>) -> Option<(nat, u32)>
    decreases ls.len(),
{
    if ls.len() == 0 {
        None
    } else {
        better(route_entry(ls[0], iface), best_route(ls.drop_first(), iface))
    }
}

/// The default gateway of `iface` in `/proc/net/route`: with several default
/// routes, the lowest metric wins, as in the kernel.
pub open spec fn spec_parse_proc_route(text: Seq<char>, iface: Seq<char>) -> Option<u32> {
    let ls = lines(text);
    if ls.len() == 0 {
        None
    } else {
        match best_route(ls.drop_first(), iface) {
            Some((_, gw)) => Some(gw),
            None => None,
        }
    }
}

fn route_entry_exec(line: &[char], iface: &[char]) -> (r: Option<(u64, u32)>)
    ensures
        match route_entry(line@, iface@) {
            Some((m, gw)) => r == Some((m as u64, gw)),
            None => r is None,
        },
{
    let f = words_of(line);
    if f.len() < 7 {
        return None;
    }
    assert(views(f@)[0] == f@[0]@ && views(f@)[1] == f@[1]@ && views(f@)[2] == f@[2]@
        && views(f@)[6] == f@[6]@);
    if !crate::text::seq_eq(f[0].as_slice(), iface) || !eq_str(f[1].as_slice(), "00000000") {
        return None;
    }
    let gw = match parse_uint_of(f[2].as_slice(), 16, 0xffff_ffff) {
        Some(g) => g,
        None => return None,
    };
    let metric = match parse_uint_of(f[6].as_slice(), 10, 0xffff_ffff) {
        Some(m) => m,
        None => return None,
    };
    if gw == 0 {
        return None;
    }
    let g = gw as u32;
    let a = g % 0x100;
    let b = (g / 0x100) % 0x100;
    let c = (g / 0x1_0000) % 0x100;
    let d = (g / 0x100_0000) % 0x100;
    proof {
        lemma_ip_of_octets(a as nat, b as nat, c as nat, d as nat);
    }
    Some((metric, a * 0x100_0000 + b * 0x1_0000 + c * 0x100 + d))
}

pub fn parse_proc_route(text: &str, iface: &str) -> (r: Option<u32>)
    ensures
        r == spec_parse_proc_route(text@, iface@),
{
    let t = chars_of(text);
    let ifc = chars_of(iface);
    let ls = lines_of(t.as_slice());
    if ls.len() == 0 {
        return None;
    }
    let ghost all = views(ls@).drop_first();
    let mut best: Option<(u64, u32)> = None;
    let mut i: usize = 1;
    assert(all.skip(0) == all);
    while i < ls.len()
        invariant
            1 <= i <= ls.len(),
            all == views(ls@).drop_first(),
            views(ls@) == lines(t@),
            t@ == text@,
            ifc@ == iface@,
            best_route(all, iface@) == better(
                match best {
                    Some((m, g)) => Some((m as nat, g)),
                    None => None,
                },
                best_route(all.skip(i - 1), iface@),
            ),
        decreases ls.len() - i,
    {
        assert(all.skip(i - 1)[0] == ls@[i as int]@);
        assert(all.skip(i - 1).drop_first() == all.skip(i as int));
        let e = route_entry_exec(ls[i].as_slice(), ifc.as_slice());
        best = match (best, e) {
            (None, e) => e,
            (Some(x), None) => Some(x),
            (Some(x), Some(y)) => if y.0 < x.0 {
                Some(y)
            } else {
                Some(x)
            },
        };
        i += 1;
    }
    assert(all.skip(i - 1).len() == 0);
    match best {
        Some((_, g)) => Some(g),
        None => None,
    }
}

// ---------------------------------------------------------------------------
// /proc/net/arp
// ---------------------------------------------------------------------------

/// A complete entry on `iface` in `/proc/net/arp`
/// (`IP  HW-type  Flags  HW-address  Mask  Device`); flags `0x0` mark an
/// address that didn't answer, and an all-zero MAC is no answer either.
pub open spec fn proc_arp_entry(line: Seq<char>, iface: Seq<char>) -> Option<(u32, [u8; 6])> {
    let f = words(line);
    if f.len() < 6 || f[5] != iface || f[2] == "0x0"@ {
        None
    } else {
        match (spec_parse_mac(f[3]), spec_parse_ipv4(f[0])) {
            (Some(mac), Some(ip)) => if !is_zero_mac(mac) {
                Some((ip, mac))
            } else {
                None
            },
            _ => None,
        }
    }
}

pub open spec fn proc_arp_entries(ls: Seq<Seq<char>>, iface: Seq<char>) -> Seq<(u32, [u8; 6])>
    decreases ls.len(),
{
    if ls.len() == 0 {
        Seq::empty()
    } else {
        match proc_arp_entry(ls[0], iface) {
            Some(e) => seq![e] + proc_arp_entries(ls.drop_first(), iface),
            None => proc_arp_entries(ls.drop_first(), iface),
        }
    }
}

pub open spec fn spec_parse_proc_arp(text: Seq<char>, iface: Seq<char>) -> Seq<(u32, [u8; 6])> {
    let ls = lines(text);
    if ls.len() == 0 {
        Seq::empty()
    } else {
        proc_arp_entries(ls.drop_first(), iface)
    }
}

fn proc_arp_entry_exec(line: &[char], iface: &[char]) -> (r: Option<(u32, [u8; 6])>)
    ensures
        r == proc_arp_entry(line@, iface@),
{
    let f = words_of(line);
    if f.len() < 6 {
        return None;
    }
    assert(views(f@)[0] == f@[0]@ && views(f@)[2] == f@[2]@ && views(f@)[3] == f@[3]@
        && views(f@)[5] == f@[5]@);
    if !crate::text::seq_eq(f[5].as_slice(), iface) || eq_str(f[2].as_slice(), "0x0") {
        return None;
    }
    let mac = parse_mac(f[3].as_slice());
    let ip = parse_ipv4(f[0].as_slice());
    match (mac, ip) {
        (Some(m), Some(a)) => if !(m[0] == 0 && m[1] == 0 && m[2] == 0 && m[3] == 0 && m[4] == 0
            && m[5] == 0) {
            Some((a, m))
        } else {
            None
        },
        _ => None,
    }
}

/// The complete entries for `iface` in the text of `/proc/net/arp`.
pub fn parse_proc_arp(text: &str, iface: &str) -> (r: Vec<(u32, [u8; 6])>)
    ensures
        r@ == spec_parse_proc_arp(text@, iface@),
{
    let t = chars_of(text);
    let ifc = chars_of(iface);
    let ls = lines_of(t.as_slice());
    let mut out: Vec<(u32, [u8; 6])> = Vec::new();
    if ls.len() == 0 {
        return out;
    }
    let ghost all = views(ls@).drop_first();
    let mut i: usize = 1;
    assert(all.skip(0) == all);
    while i < ls.len()
        invariant
            1 <= i <= ls.len(),
            all == views(ls@).drop_first(),
            views(ls@) == lines(t@),
            t@ == text@,
            ifc@ == iface@,
            out@ + proc_arp_entries(all.skip(i - 1), iface@) == proc_arp_entries(all, iface@),
        decreases ls.len() - i,
    {
        assert(all.skip(i - 1)[0] == ls@[i as int]@);
        assert(all.skip(i - 1).drop_first() == all.skip(i as int));
        if let Some(e) = proc_arp_entry_exec(ls[i].as_slice(), ifc.as_slice()) {
            let ghost before = out@;
            out.push(e);
            assert(out@ == before + seq![e]);
        }
        i += 1;
    }
    assert(all.skip(i - 1).len() == 0);
    assert(out@ + Seq::<(u32, [u8; 6])>::empty() == out@);
    out
}

// ---------------------------------------------------------------------------
// netstat -rn -f inet
// ---------------------------------------------------------------------------

pub open spec fn mentions(ws: Seq<Seq<char>>, w: Seq<char>) -> bool {
    exists|i: int| 0 <= i < ws.len() && #[trigger] ws[i] == w
}

/// The first `default` line that mentions `iface`.
pub open spec fn first_default(ls: Seq<Seq<char>>, iface: Seq<char>) -> Option<Seq<char>>
    decreases ls.len(),
{
    if ls.len() == 0 {
        None
    } else if starts_with(ls[0], "default"@) && mentions(words(ls[0]), iface) {
        Some(ls[0])
    } else {
        first_default(ls.drop_first(), iface)
    }
}

/// The gateway in the first `default  192.168.1.1  UGScg  en0` line for `iface`.
pub open spec fn spec_parse_netstat(text: Seq<char>, iface: Seq<char>) -> Option<u32> {
    match first_default(lines(text), iface) {
        None => None,
        Some(l) => {
            let ws = words(l);
            if ws.len() < 2 {
                None
            } else {
                spec_parse_ipv4(ws[1])
            }
        },
    }
}

fn mentions_exec(ws: &Vec<Vec<char>>, w: &[char]) -> (r: bool)
    ensures
        r == mentions(views(ws@), w@),
{
    let mut i: usize = 0;
    while i < ws.len()
        invariant
            i <= ws.len(),
            forall|k: int| 0 <= k < i ==> views(ws@)[k] != w@,
        decreases ws.len() - i,
    {
        if crate::text::seq_eq(ws[i].as_slice(), w) {
            assert(views(ws@)[i as int] == w@);
            return true;
        }
        i += 1;
    }
    false
}

pub fn parse_netstat(text: &str, iface: &str) -> (r: Option<u32>)
    ensures
        r == spec_parse_netstat(text@, iface@),
{
    let t = chars_of(text);
    let ifc = chars_of(iface);
    let ls = lines_of(t.as_slice());
    let ghost all = views(ls@);
    let mut i: usize = 0;
    assert(all.skip(0) == all);
    while i < ls.len()
        invariant
            i <= ls.len(),
            all == views(ls@),
            all == lines(text@),
            ifc@ == iface@,
            first_default(all, iface@) == first_default(all.skip(i as int), iface@),
        decreases ls.len() - i,
    {
        assert(all.skip(i as int)[0] == ls@[i as int]@);
        assert(all.skip(i as int).drop_first() == all.skip(i + 1));
        let l = ls[i].as_slice();
        if starts_with_str(l, "default") {
            let ws = words_of(l);
            if mentions_exec(&ws, ifc.as_slice()) {
                if ws.len() < 2 {
                    return None;
                }
                assert(views(ws@)[1] == ws@[1]@);
                return parse_ipv4(ws[1].as_slice());
            }
        }
        i += 1;
    }
    None
}

// ---------------------------------------------------------------------------
// arp -an
// ---------------------------------------------------------------------------

/// `s` without the parentheses at either end.
pub open spec fn strip_parens(s: Seq<char>) -> Seq<char>
    decreases s.len(),
{
    if s.len() > 0 && (s[0] == '(' || s[0] == ')') {
        strip_parens(s.drop_first())
    } else if s.len() > 0 && (s.last() == '(' || s.last() == ')') {
        strip_parens(s.drop_last())
    } else {
        s
    }
}

/// `on <iface>` among the words.
pub open spec fn on_iface(ws: Seq<Seq<char>>, iface: Seq<char>) -> bool {
    exists|i: int| 0 <= i < ws.len() - 1 && #[trigger] ws[i] == "on"@ && ws[i + 1] == iface
}

/// `? (192.168.1.1) at a4:2b:b0:1:2:3 on en0 ifscope [ethernet]`.
pub open spec fn arp_an_entry(line: Seq<char>, iface: Seq<char>) -> Option<(u32, [u8; 6])> {
    let ws = words(line);
    if ws.len() < 2 {
        None
    } else {
        match spec_parse_ipv4(strip_parens(ws[1])) {
            None => None,
            Some(ip) => if ws.len() < 4 {
                None
            } else {
                match spec_parse_mac(ws[3]) {
                    None => None,
                    Some(mac) => if on_iface(ws, iface) {
                        Some((ip, mac))
                    } else {
                        None
                    },
                }
            },
        }
    }
}

pub open spec fn arp_an_entries(ls: Seq<Seq<char>>, iface: Seq<char>) -> Seq<(u32, [u8; 6])>
    decreases ls.len(),
{
    if ls.len() == 0 {
        Seq::empty()
    } else {
        match arp_an_entry(ls[0], iface) {
            Some(e) => seq![e] + arp_an_entries(ls.drop_first(), iface),
            None => arp_an_entries(ls.drop_first(), iface),
        }
    }
}

fn strip_parens_exec(s: &[char]) -> (r: Vec<char>)
    ensures
        r@ == strip_parens(s@),
{
    let mut i: usize = 0;
    let mut j: usize = s.len();
    assert(s@.subrange(0, s@.len() as int) == s@);
    while i < j && (s[i] == '(' || s[i] == ')')
        invariant
            i <= j == s.len(),
            strip_parens(s@) == strip_parens(s@.subrange(i as int, j as int)),
        decreases j - i,
    {
        assert(s@.subrange(i as int, j as int).drop_first() == s@.subrange(i + 1, j as int));
        i += 1;
    }
    while j > i && (s[j - 1] == '(' || s[j - 1] == ')')
        invariant
            i <= j <= s.len(),
            strip_parens(s@) == strip_parens(s@.subrange(i as int, j as int)),
            i < j ==> !(s@[i as int] == '(' || s@[i as int] == ')'),
        decreases j,
    {
        assert(s@.subrange(i as int, j as int).drop_last() == s@.subrange(i as int, j - 1));
        j -= 1;
    }
    slice_chars(s, i, j)
}

fn on_iface_exec(ws: &Vec<Vec<char>>, iface: &[char]) -> (r: bool)
    ensures
        r == on_iface(views(ws@), iface@),
{
    if ws.len() < 2 {
        return false;
    }
    let mut i: usize = 0;
    while i < ws.len() - 1
        invariant
            ws.len() >= 2,
            i <= ws.len() - 1,
            forall|k: int| 0 <= k < i ==> !(#[trigger] views(ws@)[k] == "on"@ && views(ws@)[k + 1] == iface@),
        decreases ws.len() - 1 - i,
    {
        if eq_str(ws[i].as_slice(), "on") && crate::text::seq_eq(ws[i + 1].as_slice(), iface) {
            assert(views(ws@)[i as int] == "on"@ && views(ws@)[i + 1] == iface@);
            return true;
        }
        i += 1;
    }
    false
}

fn arp_an_entry_exec(line: &[char], iface: &[char]) -> (r: Option<(u32, [u8; 6])>)
    ensures
        r == arp_an_entry(line@, iface@),
{
    let ws = words_of(line);
    if ws.len() < 2 {
        return None;
    }
    assert(views(ws@)[1] == ws@[1]@);
    let ipt = strip_parens_exec(ws[1].as_slice());
    let ip = match parse_ipv4(ipt.as_slice()) {
        Some(ip) => ip,
        None => return None,
    };
    if ws.len() < 4 {
        return None;
    }
    assert(views(ws@)[3] == ws@[3]@);
    let mac = match parse_mac(ws[3].as_slice()) {
        Some(m) => m,
        None => return None,
    };
    if on_iface_exec(&ws, iface) {
        Some((ip, mac))
    } else {
        None
    }
}

/// The entries for `iface` in the output of `arp -an`.
pub fn parse_arp_an(text: &str, iface: &str) -> (r: Vec<(u32, [u8; 6])>)
    ensures
        r@ == arp_an_entries(lines(text@), iface@),
{
    let t = chars_of(text);
    let ifc = chars_of(iface);
    let ls = lines_of(t.as_slice());
    let ghost all = views(ls@);
    let mut out: Vec<(u32, [u8; 6])> = Vec::new();
    let mut i: usize = 0;
    assert(all.skip(0) == all);
    while i < ls.len()
        invariant
            i <= ls.len(),
            all == views(ls@),
            all == lines(text@),
            ifc@ == iface@,
            out@ + arp_an_entries(all.skip(i as int), iface@) == arp_an_entries(all, iface@),
        decreases ls.len() - i,
    {
        assert(all.skip(i as int)[0] == ls@[i as int]@);
        assert(all.skip(i as int).drop_first() == all.skip(i + 1));
        if let Some(e) = arp_an_entry_exec(ls[i].as_slice(), ifc.as_slice()) {
            let ghost before = out@;
            out.push(e);
            assert(out@ == before + seq![e]);
        }
        i += 1;
    }
    assert(all.skip(i as int).len() == 0);
    assert(out@ + Seq::<(u32, [u8; 6])>::empty() == out@);
    out
}

} // verus!

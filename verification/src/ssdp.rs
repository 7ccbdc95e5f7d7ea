//! SSDP / UPnP discovery. Routers, TVs, media players and NASes answer an
//! M-SEARCH with the URL of an XML description that names their maker and model.
use vstd::prelude::*;
use crate::classify::opt_view;
use crate::device::SsdpInfo;
use crate::http::{parse_url, spec_parse_url, spec_tag, tag};
use crate::text::{
    chars_of, lines, lines_of, lower_chars, lower_seq, seq_eq, split_once, split_once_of,
    string_of, trim, trim_chars, views,
};

verus! {

/// The search every device on the network answers.
pub const SEARCH: &'static str = "M-SEARCH * HTTP/1.1\r\nHOST: 239.255.255.250:1900\r\nMAN: \"ssdp:discover\"\r\nMX: 1\r\nST: ssdp:all\r\n\r\n";

/// The value of the first `name: value` line whose name matches, ignoring
/// ASCII case, both trimmed.
pub open spec fn header_in(ls: Seq<Seq<char>>, name: Seq<char>) -> Option<Seq<char>>
    decreases ls.len(),
{
    if ls.len() == 0 {
        None
    } else {
        match split_once(ls[0], ':') {
            Some((k, v)) => if lower_seq(trim(k)) == lower_seq(name) {
                Some(trim(v))
            } else {
                header_in(ls.drop_first(), name)
            },
            None => header_in(ls.drop_first(), name),
        }
    }
}

pub open spec fn spec_header(resp: Seq<char>, name: Seq<char>) -> Option<Seq<char>> {
    header_in(lines(resp), name)
}

/// A header of an SSDP answer.
pub fn header(resp: &str, name: &str) -> (r: Option<String>)
    ensures
        opt_view(r) == spec_header(resp@, name@),
{
    let text = chars_of(resp);
    let ls = lines_of(text.as_slice());
    let nc = chars_of(name);
    let want = lower_chars(nc.as_slice());
    let mut i: usize = 0;
    assert(views(ls@).skip(0) == views(ls@));
    while i < ls.len()
        invariant
            i <= ls.len(),
            views(ls@) == lines(resp@),
            want@ == lower_seq(name@),
            header_in(views(ls@).skip(i as int), name@) == spec_header(resp@, name@),
        decreases ls.len() - i,
    {
        let ghost rest = views(ls@).skip(i as int);
        assert(rest[0] == ls@[i as int]@);
        assert(rest.drop_first() == views(ls@).skip(i + 1));
        match split_once_of(ls[i].as_slice(), ':') {
            Some((k, v)) => {
                let kt = trim_chars(k.as_slice());
                let kl = lower_chars(kt.as_slice());
                if seq_eq(kl.as_slice(), want.as_slice()) {
                    let vt = trim_chars(v.as_slice());
                    return Some(string_of(vt.as_slice()));
                }
            },
            None => {},
        }
        i += 1;
    }
    None
}

/// Where to fetch the description of the device at `ip` that answered with
/// `resp`: its `location` header, but only if it points back at that device
/// and the device is not this machine. Otherwise anyone on the LAN could
/// point the scan at 127.0.0.1 or the internet.
pub open spec fn spec_description_url(resp: Seq<char>, ip: u32, own_ips: Seq<u32>) -> Option<(u32, u16, Seq<char>)> {
    match spec_header(resp, "location"@) {
        Some(l) => match spec_parse_url(l) {
            Some((host, port, path)) => if host == ip && !own_ips.contains(ip) {
                Some((host, port, path))
            } else {
                None
            },
            None => None,
        },
        None => None,
    }
}

pub fn description_url(resp: &str, ip: u32, own_ips: &Vec<u32>) -> (r: Option<(u32, u16, String)>)
    ensures
        match spec_description_url(resp@, ip, own_ips@) {
            Some((h, p, s)) => r matches Some((a, b, c)) && a == h && b == p && c@ == s,
            None => r is None,
        },
{
    match header(resp, "location") {
        Some(l) => match parse_url(l.as_str()) {
            Some((host, port, path)) => {
                if host == ip && !crate::scan::is_own_ip(own_ips, ip) {
                    Some((host, port, path))
                } else {
                    None
                }
            },
            None => None,
        },
        None => None,
    }
}

/// What an M-SEARCH answer from `ip` says, its bytes read as UTF-8 with
/// invalid sequences replaced: its `Server` header, and where its
/// description can be fetched.
pub fn read_answer(bytes: &[u8], ip: u32, own_ips: &Vec<u32>) -> (r: (
    Option<String>,
    Option<(u32, u16, String)>,
))
    ensures
        opt_view(r.0) == spec_header(crate::http::utf8_lossy(bytes@), "server"@),
        match spec_description_url(crate::http::utf8_lossy(bytes@), ip, own_ips@) {
            Some((h, p, s)) => r.1 matches Some((a, b, c)) && a == h && b == p && c@ == s,
            None => r.1 is None,
        },
{
    let text = crate::http::lossy(bytes);
    (header(text.as_str(), "server"), description_url(text.as_str(), ip, own_ips))
}

/// What a device's UPnP description says, read from its XML.
pub fn describe(info: &mut SsdpInfo, xml: &str)
    ensures
        final(info).server == old(info).server,
        opt_view(final(info).friendly_name) == spec_tag(xml@, "friendlyName"@),
        opt_view(final(info).manufacturer) == spec_tag(xml@, "manufacturer"@),
        opt_view(final(info).model_name) == spec_tag(xml@, "modelName"@),
        opt_view(final(info).model_number) == spec_tag(xml@, "modelNumber"@),
        opt_view(final(info).device_type) == spec_tag(xml@, "deviceType"@),
{
    info.friendly_name = tag(xml, "friendlyName");
    info.manufacturer = tag(xml, "manufacturer");
    info.model_name = tag(xml, "modelName");
    info.model_number = tag(xml, "modelNumber");
    info.device_type = tag(xml, "deviceType");
}

/// An answer from a device not heard from before, on the scanned network.
pub fn wanted(ip: u32, net: crate::net::Net, seen: &Vec<u32>) -> (r: bool)
    requires
        crate::net::net_wf(net),
    ensures
        r == (crate::net::in_net(net, ip) && !seen@.contains(ip)),
{
    net.contains(ip) && !crate::scan::is_own_ip(seen, ip)
}

} // verus!

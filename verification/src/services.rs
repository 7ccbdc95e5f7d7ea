//! The services view: every server running on the network, one row per
//! address and port, from open ports and from what devices advertise over
//! Bonjour (which finds web UIs on ports that are never probed).
use vstd::prelude::*;
use crate::classify::{opt_str_view, opt_view};
use crate::device::Device;
use crate::net::{ipv4_text, push_ipv4};
use crate::text::{chars_of, dec, eq_str, push_dec, string_of};

verus! {

/// Open ports that are how a device talks to its owner's phone, not servers.
pub open spec fn is_device_protocol(port: u16) -> bool {
    port == 7000 || port == 8008 || port == 62078
}

/// What the probed ports usually mean.
pub open spec fn spec_port_name(port: u16) -> Option<Seq<char>> {
    if port == 21 {
        Some("FTP"@)
    } else if port == 22 {
        Some("SSH"@)
    } else if port == 25 {
        Some("SMTP"@)
    } else if port == 53 {
        Some("DNS"@)
    } else if port == 80 {
        Some("HTTP"@)
    } else if port == 110 {
        Some("POP3"@)
    } else if port == 111 {
        Some("RPC"@)
    } else if port == 135 {
        Some("Windows RPC"@)
    } else if port == 139 {
        Some("NetBIOS"@)
    } else if port == 143 {
        Some("IMAP"@)
    } else if port == 443 || port == 5001 || port == 8443 || port == 9443 {
        Some("HTTPS"@)
    } else if port == 445 {
        Some("SMB"@)
    } else if port == 993 {
        Some("IMAPS"@)
    } else if port == 995 {
        Some("POP3S"@)
    } else if port == 1433 {
        Some("SQL Server"@)
    } else if port == 1521 {
        Some("Oracle"@)
    } else if port == 1883 {
        Some("MQTT"@)
    } else if port == 3306 {
        Some("MySQL"@)
    } else if port == 3389 {
        Some("RDP"@)
    } else if port == 5060 {
        Some("SIP"@)
    } else if port == 5432 {
        Some("PostgreSQL"@)
    } else if port == 5672 {
        Some("AMQP"@)
    } else if port == 6379 {
        Some("Redis"@)
    } else if port == 7000 {
        Some("AirPlay"@)
    } else if port == 8000 || port == 8001 || port == 8080 || port == 8081 || port == 8888 {
        Some("HTTP alt"@)
    } else if port == 8006 {
        Some("Proxmox"@)
    } else if port == 8008 {
        Some("Cast"@)
    } else if port == 8096 {
        Some("Jellyfin"@)
    } else if port == 8123 {
        Some("Home Assistant"@)
    } else if port == 9090 {
        Some("Prometheus"@)
    } else if port == 9091 {
        Some("Transmission"@)
    } else if port == 9100 {
        Some("printing"@)
    } else if port == 27017 {
        Some("MongoDB"@)
    } else if port == 32400 {
        Some("Plex"@)
    } else if port == 62078 {
        Some("iOS sync"@)
    } else {
        None
    }
}

/// What the ports that get probed usually mean.
pub fn port_name(port: u16) -> (r: Option<&'static str>)
    ensures
        opt_str_view(r) == spec_port_name(port),
{
    match port {
        21 => Some("FTP"),
        22 => Some("SSH"),
        25 => Some("SMTP"),
        53 => Some("DNS"),
        80 => Some("HTTP"),
        110 => Some("POP3"),
        111 => Some("RPC"),
        135 => Some("Windows RPC"),
        139 => Some("NetBIOS"),
        143 => Some("IMAP"),
        // Also Synology DSM's (5001) and UGREEN NAS's or Portainer's (9443) web UIs.
        443 | 5001 | 8443 | 9443 => Some("HTTPS"),
        445 => Some("SMB"),
        993 => Some("IMAPS"),
        995 => Some("POP3S"),
        1433 => Some("SQL Server"),
        1521 => Some("Oracle"),
        1883 => Some("MQTT"),
        3306 => Some("MySQL"),
        3389 => Some("RDP"),
        5060 => Some("SIP"),
        5432 => Some("PostgreSQL"),
        5672 => Some("AMQP"),
        6379 => Some("Redis"),
        7000 => Some("AirPlay"),
        8000 | 8001 | 8080 | 8081 | 8888 => Some("HTTP alt"),
        8006 => Some("Proxmox"),
        8008 => Some("Cast"),
        8096 => Some("Jellyfin"),
        8123 => Some("Home Assistant"),
        9090 => Some("Prometheus"),
        // The Transmission torrent client's web UI.
        9091 => Some("Transmission"),
        9100 => Some("printing"),
        27017 => Some("MongoDB"),
        32400 => Some("Plex"),
        62078 => Some("iOS sync"),
        _ => None,
    }
}

/// Every port the probe tries has a name, and no other port does.
pub proof fn lemma_named_iff_probed(port: u16)
    ensures
        spec_port_name(port) is Some <==> (crate::probe::liveness_ports() + crate::probe::service_ports()).contains(port),
{
    let s = crate::probe::liveness_ports() + crate::probe::service_ports();
    assert(s =~= seq![80u16, 443, 22, 445, 62078, 7000, 8008, 9100, 21, 25, 53, 110, 111, 135, 139, 143, 993, 995, 1433, 1521, 1883, 3306, 3389, 5001, 5060, 5432, 5672, 6379, 8000, 8001, 8006, 8080, 8081, 8096, 8123, 8443, 8888, 9090, 9091, 9443, 27017, 32400]);
    if s.contains(port) {
        let i = choose|i: int| 0 <= i < s.len() && s[i] == port;
        if i == 0 {
            assert(s[0] == 80u16);
        } else if i == 1 {
            assert(s[1] == 443u16);
        } else if i == 2 {
            assert(s[2] == 22u16);
        } else if i == 3 {
            assert(s[3] == 445u16);
        } else if i == 4 {
            assert(s[4] == 62078u16);
        } else if i == 5 {
            assert(s[5] == 7000u16);
        } else if i == 6 {
            assert(s[6] == 8008u16);
        } else if i == 7 {
            assert(s[7] == 9100u16);
        } else if i == 8 {
            assert(s[8] == 21u16);
        } else if i == 9 {
            assert(s[9] == 25u16);
        } else if i == 10 {
            assert(s[10] == 53u16);
        } else if i == 11 {
            assert(s[11] == 110u16);
        } else if i == 12 {
            assert(s[12] == 111u16);
        } else if i == 13 {
            assert(s[13] == 135u16);
        } else if i == 14 {
            assert(s[14] == 139u16);
        } else if i == 15 {
            assert(s[15] == 143u16);
        } else if i == 16 {
            assert(s[16] == 993u16);
        } else if i == 17 {
            assert(s[17] == 995u16);
        } else if i == 18 {
            assert(s[18] == 1433u16);
        } else if i == 19 {
            assert(s[19] == 1521u16);
        } else if i == 20 {
            assert(s[20] == 1883u16);
        } else if i == 21 {
            assert(s[21] == 3306u16);
        } else if i == 22 {
            assert(s[22] == 3389u16);
        } else if i == 23 {
            assert(s[23] == 5001u16);
        } else if i == 24 {
            assert(s[24] == 5060u16);
        } else if i == 25 {
            assert(s[25] == 5432u16);
        } else if i == 26 {
            assert(s[26] == 5672u16);
        } else if i == 27 {
            assert(s[27] == 6379u16);
        } else if i == 28 {
            assert(s[28] == 8000u16);
        } else if i == 29 {
            assert(s[29] == 8001u16);
        } else if i == 30 {
            assert(s[30] == 8006u16);
        } else if i == 31 {
            assert(s[31] == 8080u16);
        } else if i == 32 {
            assert(s[32] == 8081u16);
        } else if i == 33 {
            assert(s[33] == 8096u16);
        } else if i == 34 {
            assert(s[34] == 8123u16);
        } else if i == 35 {
            assert(s[35] == 8443u16);
        } else if i == 36 {
            assert(s[36] == 8888u16);
        } else if i == 37 {
            assert(s[37] == 9090u16);
        } else if i == 38 {
            assert(s[38] == 9091u16);
        } else if i == 39 {
            assert(s[39] == 9443u16);
        } else if i == 40 {
            assert(s[40] == 27017u16);
        } else if i == 41 {
            assert(s[41] == 32400u16);
        }
    }
        if port == 21 {
            assert(s[8] == port);
        } else if port == 22 {
            assert(s[2] == port);
        } else if port == 25 {
            assert(s[9] == port);
        } else if port == 53 {
            assert(s[10] == port);
        } else if port == 80 {
            assert(s[0] == port);
        } else if port == 110 {
            assert(s[11] == port);
        } else if port == 111 {
            assert(s[12] == port);
        } else if port == 135 {
            assert(s[13] == port);
        } else if port == 139 {
            assert(s[14] == port);
        } else if port == 143 {
            assert(s[15] == port);
        } else if port == 443 {
            assert(s[1] == port);
        } else if port == 5001 {
            assert(s[23] == port);
        } else if port == 8443 {
            assert(s[35] == port);
        } else if port == 9443 {
            assert(s[39] == port);
        } else if port == 445 {
            assert(s[3] == port);
        } else if port == 993 {
            assert(s[16] == port);
        } else if port == 995 {
            assert(s[17] == port);
        } else if port == 1433 {
            assert(s[18] == port);
        } else if port == 1521 {
            assert(s[19] == port);
        } else if port == 1883 {
            assert(s[20] == port);
        } else if port == 3306 {
            assert(s[21] == port);
        } else if port == 3389 {
            assert(s[22] == port);
        } else if port == 5060 {
            assert(s[24] == port);
        } else if port == 5432 {
            assert(s[25] == port);
        } else if port == 5672 {
            assert(s[26] == port);
        } else if port == 6379 {
            assert(s[27] == port);
        } else if port == 7000 {
            assert(s[5] == port);
        } else if port == 8000 {
            assert(s[28] == port);
        } else if port == 8001 {
            assert(s[29] == port);
        } else if port == 8080 {
            assert(s[31] == port);
        } else if port == 8081 {
            assert(s[32] == port);
        } else if port == 8888 {
            assert(s[36] == port);
        } else if port == 8006 {
            assert(s[30] == port);
        } else if port == 8008 {
            assert(s[6] == port);
        } else if port == 8096 {
            assert(s[33] == port);
        } else if port == 8123 {
            assert(s[34] == port);
        } else if port == 9090 {
            assert(s[37] == port);
        } else if port == 9091 {
            assert(s[38] == port);
        } else if port == 9100 {
            assert(s[7] == port);
        } else if port == 27017 {
            assert(s[40] == port);
        } else if port == 32400 {
            assert(s[41] == port);
        } else if port == 62078 {
            assert(s[4] == port);
        }
}

/// Bonjour service types that are servers someone would want to reach.
pub open spec fn spec_advertised_name(service: Seq<char>) -> Option<Seq<char>> {
    if service == "http"@ {
        Some("HTTP"@)
    } else if service == "https"@ {
        Some("HTTPS"@)
    } else if service == "ssh"@ {
        Some("SSH"@)
    } else if service == "sftp-ssh"@ {
        Some("SFTP"@)
    } else if service == "smb"@ {
        Some("SMB"@)
    } else if service == "afpovertcp"@ {
        Some("AFP"@)
    } else if service == "nfs"@ {
        Some("NFS"@)
    } else if service == "ftp"@ {
        Some("FTP"@)
    } else if service == "rfb"@ {
        Some("VNC"@)
    } else if service == "webdav"@ {
        Some("WebDAV"@)
    } else if service == "webdavs"@ {
        Some("WebDAVS"@)
    } else if service == "home-assistant"@ {
        Some("Home Assistant"@)
    } else if service == "esphomelib"@ {
        Some("ESPHome"@)
    } else if service == "octoprint"@ {
        Some("OctoPrint"@)
    } else if service == "umbrel"@ {
        Some("Umbrel"@)
    } else {
        None
    }
}

/// The server behind a Bonjour service type, if it is one someone would want to reach.
pub fn advertised_name(service: &str) -> (r: Option<&'static str>)
    ensures
        opt_str_view(r) == spec_advertised_name(service@),
{
    let c = chars_of(service);
    let s = c.as_slice();
    if eq_str(s, "http") {
        Some("HTTP")
    } else if eq_str(s, "https") {
        Some("HTTPS")
    } else if eq_str(s, "ssh") {
        Some("SSH")
    } else if eq_str(s, "sftp-ssh") {
        Some("SFTP")
    } else if eq_str(s, "smb") {
        Some("SMB")
    } else if eq_str(s, "afpovertcp") {
        Some("AFP")
    } else if eq_str(s, "nfs") {
        Some("NFS")
    } else if eq_str(s, "ftp") {
        Some("FTP")
    } else if eq_str(s, "rfb") {
        Some("VNC")
    } else if eq_str(s, "webdav") {
        Some("WebDAV")
    } else if eq_str(s, "webdavs") {
        Some("WebDAVS")
    } else if eq_str(s, "home-assistant") {
        Some("Home Assistant")
    } else if eq_str(s, "esphomelib") {
        Some("ESPHome")
    } else if eq_str(s, "octoprint") {
        Some("OctoPrint")
    } else if eq_str(s, "umbrel") {
        Some("Umbrel")
    } else {
        None
    }
}

/// One server on the network.
#[derive(Clone, Copy)]
pub struct Service {
    /// Index into the scan's devices.
    pub device: usize,
    pub ip: u32,
    pub port: u16,
    pub name: Option<&'static str>,
}

impl Service {
    /// `ip:port`.
    pub fn address(&self) -> (r: String)
        ensures
            r@ == ipv4_text(self.ip) + seq![':'] + dec(self.port as nat),
    {
        let mut v: Vec<char> = Vec::new();
        push_ipv4(&mut v, self.ip);
        v.push(':');
        push_dec(&mut v, self.port as u64);
        string_of(v.as_slice())
    }
}

/// Address and port, the order services are listed in.
pub open spec fn skey(s: Service) -> (u32, u16) {
    (s.ip, s.port)
}

/// Which device offers the service, and what it is called.
pub open spec fn sval(s: Service) -> (usize, Option<Seq<char>>) {
    (s.device, opt_str_view(s.name))
}

pub open spec fn key_lt(a: (u32, u16), b: (u32, u16)) -> bool {
    a.0 < b.0 || (a.0 == b.0 && a.1 < b.1)
}

/// `v` lists the entries of `m` in key order, each once.
pub open spec fn lists(v: Seq<Service>, m: Map<(u32, u16), (usize, Option<Seq<char>>)>) -> bool {
    &&& forall|i: int, j: int| 0 <= i < j < v.len() ==> key_lt(skey(v[i]), skey(v[j]))
    &&& forall|i: int|
        0 <= i < v.len() ==> m.contains_key(#[trigger] skey(v[i])) && m[skey(v[i])] == sval(v[i])
    &&& forall|k: (u32, u16)| m.contains_key(k) ==> exists|i: int| 0 <= i < v.len() && skey(v[i]) == k
}

/// Open ports of device `i`, each named by its number; later ports overwrite earlier ones.
pub open spec fn with_ports(
    m: Map<(u32, u16), (usize, Option<Seq<char>>)>,
    i: usize,
    ip: u32,
    ports: Seq<u16>,
) -> Map<(u32, u16), (usize, Option<Seq<char>>)>
    decreases ports.len(),
{
    if ports.len() == 0 {
        m
    } else {
        let m1 = with_ports(m, i, ip, ports.drop_last());
        let p = ports.last();
        if is_device_protocol(p) {
            m1
        } else {
            m1.insert((ip, p), (i, spec_port_name(p)))
        }
    }
}

/// A Bonjour-advertised server: it names a port nobody named yet, or one only
/// guessed to be "HTTP alt"; an app's own port name stays.
pub open spec fn advertise(
    m: Map<(u32, u16), (usize, Option<Seq<char>>)>,
    i: usize,
    ip: u32,
    port: u16,
    name: Seq<char>,
) -> Map<(u32, u16), (usize, Option<Seq<char>>)> {
    let slot = if m.contains_key((ip, port)) {
        m[(ip, port)]
    } else {
        (i, None)
    };
    if slot.1 is None || slot.1 == Some("HTTP alt"@) {
        m.insert((ip, port), (slot.0, Some(name)))
    } else {
        m.insert((ip, port), slot)
    }
}

/// The advertised (service type, port) pairs, in service-type order.
pub open spec fn with_adverts(
    m: Map<(u32, u16), (usize, Option<Seq<char>>)>,
    i: usize,
    ip: u32,
    ads: Seq<(String, u16)>,
) -> Map<(u32, u16), (usize, Option<Seq<char>>)>
    decreases ads.len(),
{
    if ads.len() == 0 {
        m
    } else {
        let m1 = with_adverts(m, i, ip, ads.drop_last());
        let ad = ads.last();
        match spec_advertised_name(ad.0@) {
            Some(name) => advertise(m1, i, ip, ad.1, name),
            None => m1,
        }
    }
}

pub open spec fn adverts(d: Device) -> Seq<(String, u16)> {
    match d.mdns {
        Some(m) => m.ports@,
        None => Seq::empty(),
    }
}

/// The services of the first `n` devices, by address and port.
pub open spec fn found(ds: Seq<Device>, n: nat) -> Map<(u32, u16), (usize, Option<Seq<char>>)>
    decreases n,
{
    if n == 0 {
        Map::empty()
    } else {
        let m = found(ds, (n - 1) as nat);
        let d = ds[n - 1];
        let i = (n - 1) as usize;
        if d.this_device {
            m
        } else {
            with_adverts(with_ports(m, i, d.ip, d.open_ports@), i, d.ip, adverts(d))
        }
    }
}

/// Every service listed belongs to one of the first `n` devices, and never to
/// this machine.
pub open spec fn credited_elsewhere(ds: Seq<Device>, m: Map<(u32, u16), (usize, Option<Seq<char>>)>, n: nat) -> bool {
    forall|k: (u32, u16)| #[trigger] m.contains_key(k) ==> m[k].0 < n && !ds[m[k].0 as int].this_device
}

proof fn lemma_ports_elsewhere(ds: Seq<Device>, m: Map<(u32, u16), (usize, Option<Seq<char>>)>, n: nat, i: usize, ip: u32, ports: Seq<u16>)
    requires
        credited_elsewhere(ds, m, n),
        i < n,
        !ds[i as int].this_device,
    ensures
        credited_elsewhere(ds, with_ports(m, i, ip, ports), n),
    decreases ports.len(),
{
    if ports.len() > 0 {
        lemma_ports_elsewhere(ds, m, n, i, ip, ports.drop_last());
    }
}

proof fn lemma_adverts_elsewhere(ds: Seq<Device>, m: Map<(u32, u16), (usize, Option<Seq<char>>)>, n: nat, i: usize, ip: u32, ads: Seq<(String, u16)>)
    requires
        credited_elsewhere(ds, m, n),
        i < n,
        !ds[i as int].this_device,
    ensures
        credited_elsewhere(ds, with_adverts(m, i, ip, ads), n),
    decreases ads.len(),
{
    if ads.len() > 0 {
        lemma_adverts_elsewhere(ds, m, n, i, ip, ads.drop_last());
    }
}

/// The services view leaves out this machine, whose ports are not probed:
/// every service listed is on another device.
pub proof fn lemma_found_skips_this_device(ds: Seq<Device>, n: nat)
    requires
        n <= ds.len() <= usize::MAX,
    ensures
        credited_elsewhere(ds, found(ds, n), n),
    decreases n,
{
    if n > 0 {
        lemma_found_skips_this_device(ds, (n - 1) as nat);
        let m = found(ds, (n - 1) as nat);
        assert(credited_elsewhere(ds, m, n));
        let d = ds[n - 1];
        let i = (n - 1) as usize;
        assert(i == n - 1);
        if !d.this_device {
            lemma_ports_elsewhere(ds, m, n, i, d.ip, d.open_ports@);
            lemma_adverts_elsewhere(ds, with_ports(m, i, d.ip, d.open_ports@), n, i, d.ip, adverts(d));
        }
    }
}

/// Device `d` offers a service on `port`: it is not this machine, and the
/// port is open (and not one of the device-to-device protocols) or a named
/// server is advertised on it.
pub open spec fn offers(d: Device, port: u16) -> bool {
    &&& !d.this_device
    &&& {
        ||| d.open_ports@.contains(port) && !is_device_protocol(port)
        ||| exists|j: int|
            0 <= j < adverts(d).len() && #[trigger] adverts(d)[j].1 == port
                && spec_advertised_name(adverts(d)[j].0@) is Some
    }
}

proof fn lemma_ports_keys(
    m: Map<(u32, u16), (usize, Option<Seq<char>>)>,
    i: usize,
    ip: u32,
    ports: Seq<u16>,
    k: (u32, u16),
)
    ensures
        with_ports(m, i, ip, ports).contains_key(k) <==> (m.contains_key(k) || (k.0 == ip
            && ports.contains(k.1) && !is_device_protocol(k.1))),
    decreases ports.len(),
{
    if ports.len() > 0 {
        let b = ports.drop_last();
        lemma_ports_keys(m, i, ip, b, k);
        if b.contains(k.1) {
            let j = choose|j: int| 0 <= j < b.len() && b[j] == k.1;
            assert(ports[j] == k.1);
        }
        if ports.contains(k.1) && ports.last() != k.1 {
            let j = choose|j: int| 0 <= j < ports.len() && ports[j] == k.1;
            assert(b[j] == k.1);
        }
        if ports.last() == k.1 {
            assert(ports[ports.len() - 1] == k.1);
        }
    }
}

proof fn lemma_adverts_keys(
    m: Map<(u32, u16), (usize, Option<Seq<char>>)>,
    i: usize,
    ip: u32,
    ads: Seq<(String, u16)>,
    k: (u32, u16),
)
    ensures
        with_adverts(m, i, ip, ads).contains_key(k) <==> (m.contains_key(k) || (k.0 == ip
            && exists|j: int|
            0 <= j < ads.len() && #[trigger] ads[j].1 == k.1 && spec_advertised_name(ads[j].0@) is Some)),
    decreases ads.len(),
{
    if ads.len() > 0 {
        let b = ads.drop_last();
        lemma_adverts_keys(m, i, ip, b, k);
        if exists|j: int| 0 <= j < b.len() && #[trigger] b[j].1 == k.1 && spec_advertised_name(b[j].0@) is Some {
            let j = choose|j: int| 0 <= j < b.len() && #[trigger] b[j].1 == k.1 && spec_advertised_name(b[j].0@) is Some;
            assert(ads[j] == b[j]);
        }
        if exists|j: int| 0 <= j < ads.len() && #[trigger] ads[j].1 == k.1 && spec_advertised_name(ads[j].0@) is Some {
            let j = choose|j: int| 0 <= j < ads.len() && #[trigger] ads[j].1 == k.1 && spec_advertised_name(ads[j].0@) is Some;
            if j < b.len() {
                assert(b[j] == ads[j]);
            }
        }
    }
}

/// What is listed: a service is found at an address and port exactly when one
/// of the devices at that address offers it.
pub proof fn lemma_found_membership(ds: Seq<Device>, n: nat, ip: u32, port: u16)
    requires
        n <= ds.len() <= usize::MAX,
    ensures
        found(ds, n).contains_key((ip, port)) <==> exists|i: int|
            0 <= i < n && #[trigger] ds[i].ip == ip && offers(ds[i], port),
    decreases n,
{
    if n > 0 {
        lemma_found_membership(ds, (n - 1) as nat, ip, port);
        let d = ds[n - 1];
        let i = (n - 1) as usize;
        let m = found(ds, (n - 1) as nat);
        let k = (ip, port);
        if !d.this_device {
            lemma_ports_keys(m, i, d.ip, d.open_ports@, k);
            lemma_adverts_keys(with_ports(m, i, d.ip, d.open_ports@), i, d.ip, adverts(d), k);
        }
        if exists|i: int| 0 <= i < n && #[trigger] ds[i].ip == ip && offers(ds[i], port) {
            let w = choose|w: int| 0 <= w < n && #[trigger] ds[w].ip == ip && offers(ds[w], port);
            if w < n - 1 {
                assert(0 <= w < n - 1 && ds[w].ip == ip && offers(ds[w], port));
            }
        }
        if exists|i: int| 0 <= i < n - 1 && #[trigger] ds[i].ip == ip && offers(ds[i], port) {
            let w = choose|w: int| 0 <= w < n - 1 && #[trigger] ds[w].ip == ip && offers(ds[w], port);
            assert(0 <= w < n && ds[w].ip == ip && offers(ds[w], port));
        }
        if d.ip == ip && offers(d, port) {
            assert(ds[n - 1].ip == ip && offers(ds[n - 1], port));
        }
    }
}

/// Every service in `m` is credited to a device at the service's address.
pub open spec fn at_own_address(ds: Seq<Device>, m: Map<(u32, u16), (usize, Option<Seq<char>>)>) -> bool {
    forall|k: (u32, u16)| #[trigger] m.contains_key(k) ==> m[k].0 < ds.len() && ds[m[k].0 as int].ip == k.0
}

proof fn lemma_ports_address(ds: Seq<Device>, m: Map<(u32, u16), (usize, Option<Seq<char>>)>, i: usize, ports: Seq<u16>)
    requires
        at_own_address(ds, m),
        i < ds.len(),
    ensures
        at_own_address(ds, with_ports(m, i, ds[i as int].ip, ports)),
    decreases ports.len(),
{
    if ports.len() > 0 {
        lemma_ports_address(ds, m, i, ports.drop_last());
    }
}

proof fn lemma_adverts_address(ds: Seq<Device>, m: Map<(u32, u16), (usize, Option<Seq<char>>)>, i: usize, ads: Seq<(String, u16)>)
    requires
        at_own_address(ds, m),
        i < ds.len(),
    ensures
        at_own_address(ds, with_adverts(m, i, ds[i as int].ip, ads)),
    decreases ads.len(),
{
    if ads.len() > 0 {
        lemma_adverts_address(ds, m, i, ads.drop_last());
    }
}

/// Each service is credited to a device that has the service's address.
pub proof fn lemma_found_at_device_address(ds: Seq<Device>, n: nat)
    requires
        n <= ds.len() <= usize::MAX,
    ensures
        at_own_address(ds, found(ds, n)),
    decreases n,
{
    if n > 0 {
        lemma_found_at_device_address(ds, (n - 1) as nat);
        let m = found(ds, (n - 1) as nat);
        let d = ds[n - 1];
        let i = (n - 1) as usize;
        if !d.this_device {
            lemma_ports_address(ds, m, i, d.open_ports@);
            lemma_adverts_address(ds, with_ports(m, i, d.ip, d.open_ports@), i, adverts(d));
        }
    }
}

/// Of what `list` returns: each service's device is another machine with the
/// service's address.
pub proof fn lemma_listed_device(ds: Seq<Device>, v: Seq<Service>)
    requires
        ds.len() <= usize::MAX,
        lists(v, found(ds, ds.len())),
    ensures
        forall|i: int|
            0 <= i < v.len() ==> #[trigger] v[i].device < ds.len() && ds[v[i].device as int].ip == v[i].ip
                && !ds[v[i].device as int].this_device,
{
    lemma_found_at_device_address(ds, ds.len());
    lemma_found_skips_this_device(ds, ds.len());
    assert forall|i: int| 0 <= i < v.len() implies #[trigger] v[i].device < ds.len() && ds[v[i].device as int].ip
        == v[i].ip && !ds[v[i].device as int].this_device by {
        assert(found(ds, ds.len()).contains_key(skey(v[i])));
    }
}

/// Device `d` serves `port`: it is not this machine, and either the port is
/// open and is none of the device-to-device protocols (AirPlay 7000, Cast
/// 8008, iOS sync 62078), or it advertises the port under a known server
/// service type.
pub open spec fn serves(d: Device, port: u16) -> bool {
    &&& !d.this_device
    &&& {
        ||| d.open_ports@.contains(port) && port != 7000 && port != 8008 && port != 62078
        ||| exists|k: int|
            0 <= k < adverts(d).len() && #[trigger] adverts(d)[k].1 == port
                && spec_advertised_name(adverts(d)[k].0@) is Some
    }
}

/// Every row that `list` returns is served by a device at the row's address;
/// an open device-to-device port alone gives no row.
pub proof fn lemma_listed_from_servers(ds: Seq<Device>, v: Seq<Service>)
    requires
        ds.len() <= usize::MAX,
        lists(v, found(ds, ds.len())),
    ensures
        forall|i: int|
            #![trigger v[i]]
            0 <= i < v.len() ==> exists|j: int|
                0 <= j < ds.len() && ds[j].ip == v[i].ip && #[trigger] serves(ds[j], v[i].port),
{
    assert forall|i: int| #![trigger v[i]] 0 <= i < v.len() implies exists|j: int|
        0 <= j < ds.len() && ds[j].ip == v[i].ip && #[trigger] serves(ds[j], v[i].port) by {
        lemma_found_membership(ds, ds.len(), v[i].ip, v[i].port);
        assert(found(ds, ds.len()).contains_key(skey(v[i])));
        let j = choose|j: int| 0 <= j < ds.len() && #[trigger] ds[j].ip == v[i].ip && offers(ds[j], v[i].port);
        assert(serves(ds[j], v[i].port));
    }
}

proof fn lemma_set(v: Seq<Service>, m: Map<(u32, u16), (usize, Option<Seq<char>>)>, pos: int, s: Service)
    requires
        lists(v, m),
        0 <= pos < v.len(),
        skey(v[pos]) == skey(s),
    ensures
        lists(v.update(pos, s), m.insert(skey(s), sval(s))),
{
    let w = v.update(pos, s);
    let m2 = m.insert(skey(s), sval(s));
    assert forall|i: int, j: int| 0 <= i < j < w.len() implies key_lt(skey(w[i]), skey(w[j])) by {
        assert(key_lt(skey(v[i]), skey(v[j])));
    }
    assert forall|i: int| 0 <= i < w.len() implies m2.contains_key(#[trigger] skey(w[i])) && m2[skey(
        w[i],
    )] == sval(w[i]) by {
        if i != pos {
            assert(skey(v[i]) == skey(w[i]));
            assert(key_lt(skey(v[i]), skey(v[pos])) || key_lt(skey(v[pos]), skey(v[i])));
        }
    }
    assert forall|k: (u32, u16)| m2.contains_key(k) implies exists|i: int|
        0 <= i < w.len() && skey(w[i]) == k by {
        if k == skey(s) {
            assert(skey(w[pos]) == k);
        } else {
            let i = choose|i: int| 0 <= i < v.len() && skey(v[i]) == k;
            assert(skey(w[i]) == k);
        }
    }
}

proof fn lemma_insert(v: Seq<Service>, m: Map<(u32, u16), (usize, Option<Seq<char>>)>, pos: int, s: Service)
    requires
        lists(v, m),
        0 <= pos <= v.len(),
        forall|i: int| 0 <= i < pos ==> key_lt(skey(v[i]), skey(s)),
        pos < v.len() ==> key_lt(skey(s), skey(v[pos])),
    ensures
        !m.contains_key(skey(s)),
        lists(v.insert(pos, s), m.insert(skey(s), sval(s))),
{
    let w = v.insert(pos, s);
    let m2 = m.insert(skey(s), sval(s));
    if m.contains_key(skey(s)) {
        let i = choose|i: int| 0 <= i < v.len() && skey(v[i]) == skey(s);
        if i >= pos {
            assert(i == pos || key_lt(skey(v[pos]), skey(v[i])));
        }
    }
    assert forall|i: int, j: int| 0 <= i < j < w.len() implies key_lt(skey(w[i]), skey(w[j])) by {
        if j < pos {
            assert(key_lt(skey(v[i]), skey(v[j])));
        } else if j == pos {
        } else if i < pos {
            assert(key_lt(skey(v[i]), skey(s)));
            assert(w[j] == v[j - 1]);
            assert(j - 1 == pos || key_lt(skey(v[pos]), skey(v[j - 1])));
        } else if i == pos {
            assert(w[j] == v[j - 1]);
            assert(j - 1 == pos || key_lt(skey(v[pos]), skey(v[j - 1])));
        } else {
            assert(key_lt(skey(v[i - 1]), skey(v[j - 1])));
        }
    }
    assert forall|i: int| 0 <= i < w.len() implies m2.contains_key(#[trigger] skey(w[i])) && m2[skey(
        w[i],
    )] == sval(w[i]) by {
        if i < pos {
            assert(w[i] == v[i]);
            assert(m.contains_key(skey(v[i])));
        } else if i > pos {
            assert(w[i] == v[i - 1]);
            assert(m.contains_key(skey(v[i - 1])));
        }
    }
    assert forall|k: (u32, u16)| m2.contains_key(k) implies exists|i: int|
        0 <= i < w.len() && skey(w[i]) == k by {
        if k == skey(s) {
            assert(skey(w[pos]) == k);
        } else {
            let i = choose|i: int| 0 <= i < v.len() && skey(v[i]) == k;
            if i < pos {
                assert(skey(w[i]) == k);
            } else {
                assert(skey(w[i + 1]) == k);
            }
        }
    }
}

/// Where `(ip, port)` is or would go: the first entry not before it.
fn locate(v: &Vec<Service>, ip: u32, port: u16) -> (r: usize)
    ensures
        r <= v.len(),
        forall|i: int| 0 <= i < r ==> key_lt(skey(v@[i]), (ip, port)),
        r < v.len() ==> !key_lt(skey(v@[r as int]), (ip, port)),
{
    let mut i: usize = 0;
    while i < v.len()
        invariant
            i <= v.len(),
            forall|j: int| 0 <= j < i ==> key_lt(skey(v@[j]), (ip, port)),
        decreases v.len() - i,
    {
        let s = v[i];
        if !(s.ip < ip || (s.ip == ip && s.port < port)) {
            return i;
        }
        i += 1;
    }
    i
}

/// Records `s`, replacing whatever was known of its address and port.
fn put(v: &mut Vec<Service>, s: Service, Ghost(m): Ghost<Map<(u32, u16), (usize, Option<Seq<char>>)>>)
    requires
        lists(old(v)@, m),
    ensures
        lists(final(v)@, m.insert(skey(s), sval(s))),
{
    let pos = locate(v, s.ip, s.port);
    if pos < v.len() && v[pos].ip == s.ip && v[pos].port == s.port {
        proof {
            lemma_set(v@, m, pos as int, s);
        }
        v.set(pos, s);
    } else {
        proof {
            lemma_insert(v@, m, pos as int, s);
        }
        v.insert(pos, s);
    }
}

/// Records an advertised server as `advertise` says.
fn put_advertised(
    v: &mut Vec<Service>,
    device: usize,
    ip: u32,
    port: u16,
    name: &'static str,
    Ghost(m): Ghost<Map<(u32, u16), (usize, Option<Seq<char>>)>>,
)
    requires
        lists(old(v)@, m),
    ensures
        lists(final(v)@, advertise(m, device, ip, port, name@)),
{
    let pos = locate(v, ip, port);
    if pos < v.len() && v[pos].ip == ip && v[pos].port == port {
        let cur = v[pos];
        assert(m.contains_key((ip, port)) && m[(ip, port)] == sval(cur)) by {
            assert(skey(v@[pos as int]) == (ip, port));
        }
        let upgrade = match cur.name {
            None => true,
            Some(n) => {
                let c = chars_of(n);
                eq_str(c.as_slice(), "HTTP alt")
            },
        };
        if upgrade {
            let s = Service { device: cur.device, ip, port, name: Some(name) };
            proof {
                lemma_set(v@, m, pos as int, s);
            }
            v.set(pos, s);
        } else {
            assert(m.insert((ip, port), m[(ip, port)]) == m);
        }
    } else {
        let s = Service { device, ip, port, name: Some(name) };
        proof {
            lemma_insert(v@, m, pos as int, s);
        }
        v.insert(pos, s);
    }
}

/// Every service on `devices` (except this machine, whose ports are not
/// probed), sorted by address and then port.
pub fn list(devices: &[Device]) -> (r: Vec<Service>)
    ensures
        lists(r@, found(devices@, devices@.len())),
{
    let mut out: Vec<Service> = Vec::new();
    let mut i: usize = 0;
    while i < devices.len()
        invariant
            i <= devices.len(),
            lists(out@, found(devices@, i as nat)),
        decreases devices.len() - i,
    {
        let d = &devices[i];
        if !d.this_device {
            let ghost m0 = found(devices@, i as nat);
            let mut j: usize = 0;
            assert(d.open_ports@.take(0) =~= Seq::<u16>::empty());
            while j < d.open_ports.len()
                invariant
                    j <= d.open_ports.len(),
                    lists(out@, with_ports(m0, i, d.ip, d.open_ports@.take(j as int))),
                decreases d.open_ports.len() - j,
            {
                let p = d.open_ports[j];
                let ghost before = with_ports(m0, i, d.ip, d.open_ports@.take(j as int));
                assert(d.open_ports@.take(j + 1).drop_last() =~= d.open_ports@.take(j as int));
                if !(p == 7000 || p == 8008 || p == 62078) {
                    let s = Service { device: i, ip: d.ip, port: p, name: port_name(p) };
                    put(&mut out, s, Ghost(before));
                }
                j += 1;
            }
            assert(d.open_ports@.take(j as int) =~= d.open_ports@);
            let ghost m1 = with_ports(m0, i, d.ip, d.open_ports@);
            match &d.mdns {
                Some(m) => {
                    let ads = m.ports.as_slice();
                    let mut k: usize = 0;
                    assert(ads@.take(0) =~= Seq::<(String, u16)>::empty());
                    while k < ads.len()
                        invariant
                            k <= ads.len(),
                            lists(out@, with_adverts(m1, i, d.ip, ads@.take(k as int))),
                        decreases ads.len() - k,
                    {
                        let ghost before = with_adverts(m1, i, d.ip, ads@.take(k as int));
                        assert(ads@.take(k + 1).drop_last() =~= ads@.take(k as int));
                        let ad = &ads[k];
                        match advertised_name(ad.0.as_str()) {
                            Some(name) => {
                                put_advertised(&mut out, i, d.ip, ad.1, name, Ghost(before));
                            },
                            None => {},
                        }
                        k += 1;
                    }
                    assert(ads@.take(k as int) =~= ads@);
                },
                None => {
                    assert(with_adverts(m1, i, d.ip, Seq::empty()) == m1);
                },
            }
        }
        i += 1;
    }
    assert(devices@.len() == i);
    out
}

/// One row of `--services --json`.
pub struct Json {
    pub ip: u32,
    pub port: u16,
    pub service: Option<&'static str>,
    /// The device's name, or else its host name.
    pub host: Option<String>,
}

impl Json {
    pub fn new(s: &Service, devices: &[Device]) -> (r: Json)
        requires
            s.device < devices.len(),
        ensures
            r.ip == s.ip,
            r.port == s.port,
            r.service == s.name,
            opt_view(r.host) == (match devices@[s.device as int].name {
                Some(n) => Some(n@),
                None => opt_view(devices@[s.device as int].hostname),
            }),
    {
        let d = &devices[s.device];
        let host = match &d.name {
            Some(n) => Some(n.clone()),
            None => match &d.hostname {
                Some(h) => Some(h.clone()),
                None => None,
            },
        };
        Json { ip: s.ip, port: s.port, service: s.name, host }
    }
}

} // verus!

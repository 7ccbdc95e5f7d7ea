use lsnet::device::{Banner, Device, SsdpInfo};
use lsnet::mdns::{absorb, DnsRecord, Rdata, Records};
use lsnet::net::Net;
use lsnet::oui::Oui;
use lsnet::scan::{finish, follow_up, host_name, mark, notes, start_pass, summary, wants_banner, Found};

fn ip(a: u8, b: u8, c: u8, d: u8) -> u32 {
    u32::from_be_bytes([a, b, c, d])
}

fn found() -> Found {
    let mut mdns = Records::new();
    let packet = vec![DnsRecord { name: "nas.local".into(), data: Rdata::A(ip(192, 168, 1, 14)) }];
    absorb(&mut mdns, &packet, ip(192, 168, 1, 14));
    let outside = vec![DnsRecord { name: "far.local".into(), data: Rdata::A(ip(10, 9, 9, 9)) }];
    absorb(&mut mdns, &outside, ip(10, 9, 9, 9));
    let mut upnp = SsdpInfo::new();
    upnp.server = Some("Linux UPnP/1.0".into());
    Found {
        own_ip: ip(192, 168, 1, 3),
        own_mac: Some([0xf0, 0x18, 0x98, 0, 0, 3]),
        arp: vec![(ip(192, 168, 1, 1), [0xb8, 0x27, 0xeb, 1, 2, 3]), (ip(192, 168, 1, 9), [0x3a, 0, 0, 0, 0, 9])],
        pinged: vec![ip(192, 168, 1, 20)],
        ports: vec![(ip(192, 168, 1, 1), vec![80, 443])],
        mdns,
        ssdp: vec![(ip(192, 168, 1, 1), upnp)],
        net: Net { addr: ip(192, 168, 1, 0), prefix: 24 },
        own_ips: vec![ip(192, 168, 1, 3)],
    }
}

#[test]
fn merges_every_method_by_address() {
    let pass = start_pass(found());
    let ds = pass.devices();
    let ips: Vec<u32> = ds.iter().map(|d| d.ip).collect();
    assert_eq!(ips, vec![ip(192, 168, 1, 1), ip(192, 168, 1, 3), ip(192, 168, 1, 9), ip(192, 168, 1, 14), ip(192, 168, 1, 20)]);
    assert_eq!(ds[0].mac.as_deref(), Some("b8:27:eb:01:02:03"));
    assert_eq!(ds[0].open_ports, vec![80, 443]);
    assert_eq!(ds[0].ssdp.as_ref().and_then(|s| s.server.as_deref()), Some("Linux UPnP/1.0"));
    assert_eq!(ds[1].mac.as_deref(), Some("f0:18:98:00:00:03"));
    assert_eq!(ds[3].mdns.as_ref().and_then(|m| m.hostname.as_deref()), Some("nas.local"));
    assert!(ds[4].mac.is_none());
}

#[test]
fn marks_vendors_gateway_and_this_machine() {
    let oui = Oui::table("B827EB\tRaspberry Pi\n");
    let pass = mark(start_pass(found()), &oui, Some(ip(192, 168, 1, 1)), &vec![ip(192, 168, 1, 3)]);
    let ds = pass.devices();
    assert_eq!(ds[0].vendor.as_deref(), Some("Raspberry Pi"));
    assert!(ds[0].gateway);
    assert!(!ds[0].randomized_mac);
    assert!(ds[1].this_device);
    assert!(ds[2].randomized_mac);
    assert_eq!(ds[2].vendor, None);

    let next = follow_up(&pass, &vec![ip(192, 168, 1, 1)]);
    assert_eq!(next, vec![(ip(192, 168, 1, 1), false), (ip(192, 168, 1, 9), true), (ip(192, 168, 1, 14), true), (ip(192, 168, 1, 20), true)]);
}

#[test]
fn finishes_with_banners_names_and_types() {
    let oui = Oui::table("");
    let pass = mark(start_pass(found()), &oui, None, &vec![ip(192, 168, 1, 3)]);
    let followed = vec![(
        ip(192, 168, 1, 20),
        Some(vec![80]),
        Some(Banner { server: None, title: Some("AxeOS".into()) }),
    )];
    let names = vec![(ip(192, 168, 1, 9), "phone.lan".to_string())];
    let ds: Vec<Device> = finish(pass, followed, names);
    assert_eq!(ds[2].hostname.as_deref(), Some("phone.lan"));
    assert_eq!(ds[4].open_ports, vec![80]);
    assert_eq!(ds[4].kind.as_deref(), Some("Bitcoin miner"));
    assert_eq!(ds[0].hostname, None);
}

#[test]
fn notes_what_the_scan_could_not_see() {
    let n = notes(Some(Net { addr: ip(10, 0, 0, 0), prefix: 16 }), false, &vec![Device::new(1)]);
    assert_eq!(
        n,
        vec![
            "10.0.0.0/16 is large; scanned only the local /24".to_string(),
            "tip: run with sudo to see MAC addresses and vendors, and find devices that ignore pings".to_string(),
        ]
    );
    assert!(notes(None, true, &vec![]).is_empty());
}

#[test]
fn cleans_up_host_names() {
    assert_eq!(host_name("nas.lan.", false).as_deref(), Some("nas.lan"));
    assert_eq!(host_name("192.168.1.9", true), None);
}

#[test]
fn summary_line_names_count_network_and_time() {
    let net = Net { addr: u32::from_be_bytes([192, 168, 1, 0]), prefix: 24 };
    assert_eq!(summary(14, net, "en0", "2.0"), "14 devices on 192.168.1.0/24 (en0) in 2.0s");
    assert_eq!(summary(0, net, "eth0", "0.4"), "0 devices on 192.168.1.0/24 (eth0) in 0.4s");
}

#[test]
fn banners_are_fetched_when_port_80_may_be_open() {
    assert!(wants_banner(&None));
    assert!(wants_banner(&Some(vec![22, 80])));
    assert!(!wants_banner(&Some(vec![22, 443])));
}

use lsnet::arp::{arp_request, arp_sender, cache_entries, counts, pending};
use lsnet::iface::{configure, own_ips, pick, scanned, select_adapter, Adapter, Iface};
use lsnet::net::{ipv4_string, mac_string, parse_ipv4, Net};
use lsnet::probe::{all_ports, liveness, note_check, sort_ports, sorted_alive};
use lsnet::ssdp::{describe, description_url, header, read_answer, wanted};
use lsnet::device::SsdpInfo;

fn ip(a: u8, b: u8, c: u8, d: u8) -> u32 {
    u32::from_be_bytes([a, b, c, d])
}

#[test]
fn networks_hold_their_addresses() {
    let n = Net { addr: ip(192, 168, 1, 77), prefix: 24 };
    assert_eq!(n.network(), ip(192, 168, 1, 0));
    assert_eq!(n.broadcast(), ip(192, 168, 1, 255));
    assert!(n.contains(ip(192, 168, 1, 1)));
    assert!(!n.contains(ip(192, 168, 2, 1)));
    assert_eq!(ipv4_string(ip(10, 0, 0, 255)), "10.0.0.255");
    assert_eq!(parse_ipv4(&"10.0.0.255".chars().collect::<Vec<_>>()), Some(ip(10, 0, 0, 255)));
    assert_eq!(parse_ipv4(&"10.0.0.256".chars().collect::<Vec<_>>()), None);
    assert_eq!(mac_string([0xb8, 0x27, 0xeb, 1, 2, 3]), "b8:27:eb:01:02:03");
}

fn adapter(name: &str, ips: Vec<Net>, physical: bool) -> Adapter {
    Adapter {
        name: name.into(),
        index: 1,
        mac: Some([2, 0, 0, 0, 0, 1]),
        ips,
        up: true,
        loopback: false,
        physical,
        gateway: None,
    }
}

#[test]
fn picks_the_interface_to_scan() {
    let lo = Adapter { loopback: true, ..adapter("lo", vec![Net { addr: ip(127, 0, 0, 1), prefix: 8 }], false) };
    let vpn = adapter("utun0", vec![Net { addr: ip(10, 8, 0, 2), prefix: 24 }], false);
    let wifi = adapter("en0", vec![Net { addr: ip(192, 168, 1, 3), prefix: 24 }], true);
    let all = vec![lo, vpn, wifi];
    assert_eq!(pick(&all, Some(ip(10, 8, 0, 2))), Some(1));
    assert_eq!(pick(&all, Some(ip(1, 1, 1, 1))), Some(2));
    assert_eq!(pick(&all, None), Some(2));
    assert_eq!(select_adapter(&all, Some("en0"), None), Ok(2));
    assert_eq!(select_adapter(&all, Some("eth9"), None), Err("no interface named 'eth9'".to_string()));
    assert_eq!(
        select_adapter(&vec![], None, None),
        Err("couldn't find an active network interface (try --interface)".to_string())
    );
    assert_eq!(own_ips(&all), vec![ip(127, 0, 0, 1), ip(10, 8, 0, 2), ip(192, 168, 1, 3)]);
}

#[test]
fn narrows_large_networks() {
    let (net, from) = scanned(Net { addr: ip(10, 1, 2, 3), prefix: 16 });
    assert_eq!(net, Net { addr: ip(10, 1, 2, 0), prefix: 24 });
    assert_eq!(from, Some(Net { addr: ip(10, 1, 0, 0), prefix: 16 }));
    let (net, from) = scanned(Net { addr: ip(192, 168, 1, 3), prefix: 23 });
    assert_eq!(net, Net { addr: ip(192, 168, 0, 0), prefix: 23 });
    assert_eq!(from, None);
    let a = Adapter { mac: Some([2, 0, 0, 0, 0, 0]), ..adapter("en0", vec![Net { addr: ip(192, 168, 1, 3), prefix: 24 }], true) };
    let (addr, mac, net, from) = configure(&a).unwrap();
    assert_eq!(addr, ip(192, 168, 1, 3));
    assert_eq!(mac, None);
    assert_eq!(net, Net { addr: ip(192, 168, 1, 0), prefix: 24 });
    assert_eq!(from, None);
    assert_eq!(configure(&adapter("en1", vec![], true)).err(), Some("en1 has no IPv4 address".to_string()));
}

#[test]
fn targets_skip_network_broadcast_and_self() {
    let i = Iface {
        iface: adapter("en0", vec![], true),
        ip: ip(192, 168, 1, 2),
        mac: None,
        net: Net { addr: ip(192, 168, 1, 0), prefix: 29 },
        narrowed_from: None,
        gateway: None,
        own_ips: vec![],
    };
    assert_eq!(i.targets(), vec![ip(192, 168, 1, 1), ip(192, 168, 1, 3), ip(192, 168, 1, 4), ip(192, 168, 1, 5), ip(192, 168, 1, 6)]);
}

#[test]
fn arp_frames_round_trip() {
    let mac = [0xf0, 0x18, 0x98, 1, 2, 3];
    let f = arp_request(mac, ip(192, 168, 1, 3), ip(192, 168, 1, 9));
    assert_eq!(&f[0..6], &[0xff; 6]);
    assert_eq!(&f[12..14], &[0x08, 0x06]);
    assert_eq!(&f[38..42], &[192, 168, 1, 9]);
    assert_eq!(arp_sender(&f), Some((ip(192, 168, 1, 3), mac)));
    assert_eq!(arp_sender(&f[..41]), None);
    let net = Net { addr: ip(192, 168, 1, 0), prefix: 24 };
    assert!(counts(ip(192, 168, 1, 9), net, ip(192, 168, 1, 3)));
    assert!(!counts(ip(192, 168, 1, 3), net, ip(192, 168, 1, 3)));
    assert!(!counts(ip(10, 0, 0, 1), net, ip(192, 168, 1, 3)));
    let cache = vec![
        (ip(192, 168, 1, 1), [1, 2, 3, 4, 5, 6]),
        (ip(192, 168, 1, 255), [1, 2, 3, 4, 5, 6]),
        (ip(192, 168, 1, 7), [0xff; 6]),
        (ip(10, 0, 0, 1), [1, 2, 3, 4, 5, 6]),
    ];
    assert_eq!(cache_entries(&cache, net, ip(192, 168, 1, 3)), vec![(ip(192, 168, 1, 1), [1, 2, 3, 4, 5, 6])]);
    assert_eq!(pending(&[1, 2, 3], &vec![2]), vec![1, 3]);
}

#[test]
fn probes_and_sorts_ports() {
    assert_eq!(liveness().len(), 8);
    assert_eq!(all_ports().len(), 42);
    assert_eq!(sort_ports(&vec![443, 22, 80, 22]), vec![22, 22, 80, 443]);
    let mut alive = Vec::new();
    assert!(!note_check(&mut alive, 5, 80, None));
    assert!(alive.is_empty());
    assert!(note_check(&mut alive, 5, 443, Some(true)));
    assert!(!note_check(&mut alive, 5, 80, Some(true)));
    assert!(!note_check(&mut alive, 5, 22, Some(false)));
    assert!(note_check(&mut alive, 6, 22, Some(false)));
    assert_eq!(alive, vec![(5, vec![443, 80]), (6, vec![])]);
    assert_eq!(sorted_alive(&alive), vec![(5, vec![80, 443]), (6, vec![])]);
}

#[test]
fn reads_ssdp_answers() {
    let resp = "HTTP/1.1 200 OK\r\nSERVER: Linux UPnP/1.0\r\nLocation: http://192.168.1.1:1900/desc.xml\r\n\r\n";
    assert_eq!(header(resp, "server").as_deref(), Some("Linux UPnP/1.0"));
    assert_eq!(header(resp, "st"), None);
    let own = vec![ip(192, 168, 1, 3)];
    assert_eq!(description_url(resp, ip(192, 168, 1, 1), &own), Some((ip(192, 168, 1, 1), 1900, "/desc.xml".to_string())));
    assert_eq!(description_url(resp, ip(192, 168, 1, 2), &own), None);
    let net = Net { addr: ip(192, 168, 1, 0), prefix: 24 };
    assert!(wanted(ip(192, 168, 1, 1), net, &vec![]));
    assert!(!wanted(ip(192, 168, 1, 1), net, &vec![ip(192, 168, 1, 1)]));
    let mut info = SsdpInfo::new();
    describe(&mut info, "<root><friendlyName>Router</friendlyName><modelName>RT-AX88U</modelName></root>");
    assert_eq!(info.friendly_name.as_deref(), Some("Router"));
    assert_eq!(info.model_name.as_deref(), Some("RT-AX88U"));
    assert_eq!(info.manufacturer, None);
}

#[test]
fn reads_an_ssdp_answer_from_bytes() {
    let ip = u32::from_be_bytes([192, 168, 1, 1]);
    let mut bytes = b"HTTP/1.1 200 OK\r\nSERVER: Linux UPnP/1.0\r\nLOCATION: http://192.168.1.1:49152/rootDesc.xml\r\nX-NAME: ".to_vec();
    bytes.push(0xff);
    bytes.extend_from_slice(b"\r\n\r\n");
    let (server, location) = read_answer(&bytes, ip, &vec![]);
    assert_eq!(server.as_deref(), Some("Linux UPnP/1.0"));
    let (host, port, path) = location.unwrap();
    assert_eq!((host, port, path.as_str()), (ip, 49152, "/rootDesc.xml"));
    let (_, elsewhere) = read_answer(&bytes, u32::from_be_bytes([192, 168, 1, 2]), &vec![]);
    assert!(elsewhere.is_none());
}

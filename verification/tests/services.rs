use lsnet::device::{Device, MdnsInfo};
use lsnet::services::{advertised_name, list, port_name, Json};

fn ip(a: u8, b: u8, c: u8, d: u8) -> u32 {
    u32::from_be_bytes([a, b, c, d])
}

#[test]
fn merges_ports_and_bonjour() {
    let mut nas = Device::new(ip(192, 168, 1, 14));
    nas.open_ports = vec![22, 80, 8080, 32400];
    let mut m = MdnsInfo::new();
    m.ports.insert("http".into(), 5000); // a web UI on a port we don't probe
    m.ports.insert("ssh".into(), 22); // the same service twice
    m.ports.insert("webdav".into(), 8080); // better than "HTTP alt"
    m.ports.insert("https".into(), 32400); // but not better than "Plex"
    m.ports.insert("airplay".into(), 7000); // not a server
    nas.mdns = Some(m);
    let mut phone = Device::new(ip(192, 168, 1, 2));
    phone.open_ports = vec![62078];
    let mut me = Device::new(ip(192, 168, 1, 3));
    me.open_ports = vec![22];
    me.this_device = true;

    let devices = [phone, me, nas];
    let rows: Vec<_> = list(&devices).iter().map(|s| (s.address(), s.device, s.name)).collect();
    assert_eq!(
        rows,
        [
            ("192.168.1.14:22".to_string(), 2, Some("SSH")),
            ("192.168.1.14:80".to_string(), 2, Some("HTTP")),
            ("192.168.1.14:5000".to_string(), 2, Some("HTTP")),
            ("192.168.1.14:8080".to_string(), 2, Some("WebDAV")),
            ("192.168.1.14:32400".to_string(), 2, Some("Plex")),
        ]
    );
}

#[test]
fn names_ports_and_advertised_services() {
    assert_eq!(port_name(5001), Some("HTTPS"));
    assert_eq!(port_name(8888), Some("HTTP alt"));
    assert_eq!(port_name(1), None);
    assert_eq!(port_name(9091), Some("Transmission"));
    assert_eq!(advertised_name("rfb"), Some("VNC"));
    assert_eq!(advertised_name("airplay"), None);
}

#[test]
fn services_sort_by_address_then_port() {
    let mut a = Device::new(ip(10, 0, 0, 9));
    a.open_ports = vec![443, 22];
    let mut b = Device::new(ip(10, 0, 0, 2));
    b.open_ports = vec![9999];
    b.name = Some("box".into());
    let devices = [a, b];
    let s = list(&devices);
    let rows: Vec<_> = s.iter().map(|s| (s.address(), s.device, s.name)).collect();
    assert_eq!(
        rows,
        [
            ("10.0.0.2:9999".to_string(), 1, None),
            ("10.0.0.9:22".to_string(), 0, Some("SSH")),
            ("10.0.0.9:443".to_string(), 0, Some("HTTPS")),
        ]
    );
    let j = Json::new(&s[0], &devices);
    assert_eq!(j.host.as_deref(), Some("box"));
    assert_eq!(j.port, 9999);
}

use lsnet::mdns::{
    absorb, absorb_packet, initial_questions, parse_reverse, queries, resolve, reverse_name, second_round, split_instance,
    DnsRecord, Rdata, Records,
};
use lsnet::device::StrMap;

fn ip(a: u8, b: u8, c: u8, d: u8) -> u32 {
    u32::from_be_bytes([a, b, c, d])
}

#[test]
fn reverse_names_round_trip() {
    let a = ip(192, 168, 1, 20);
    assert_eq!(reverse_name(a), "20.1.168.192.in-addr.arpa");
    assert_eq!(parse_reverse(&reverse_name(a)), Some(a));
    assert_eq!(parse_reverse("_airplay._tcp.local"), None);
    assert_eq!(parse_reverse("1.2.3.in-addr.arpa"), None);
}

#[test]
fn splits_instances() {
    assert_eq!(
        split_instance("Living Room._airplay._tcp.local"),
        Some(("Living Room".to_string(), "airplay".to_string()))
    );
    assert_eq!(split_instance("_tcp.local"), None);
}

#[test]
fn reverse_names_round_trip_on_edges() {
    for a in [0u32, 1, 0x0a00_0001, 0xffff_ffff] {
        assert_eq!(parse_reverse(&reverse_name(a)), Some(a));
    }
    assert_eq!(parse_reverse("256.1.168.192.in-addr.arpa"), None);
    assert_eq!(parse_reverse("+1.1.168.192.in-addr.arpa"), Some(ip(192, 168, 1, 1)));
}

fn rec(name: &str, data: Rdata) -> DnsRecord {
    DnsRecord { name: name.to_string(), data }
}

#[test]
fn resolves_instances_through_srv_and_a_records() {
    let mut r = Records::new();
    let proxy = ip(192, 168, 1, 2);
    let packet = vec![
        rec("_airplay._tcp.local", Rdata::Ptr("Living Room._airplay._tcp.local".into())),
        rec("Living Room._airplay._tcp.local", Rdata::Srv("AppleTV.local".into(), 7000)),
        rec(
            "Living Room._airplay._tcp.local",
            Rdata::Txt(vec![
                ("model".into(), Some(" AppleTV14,1 ".into())),
                ("noise".into(), Some("x".into())),
                ("fn".into(), Some("".into())),
            ]),
        ),
        rec("AppleTV.local", Rdata::A(ip(192, 168, 1, 30))),
        rec("30.1.168.192.in-addr.arpa", Rdata::Ptr("Living-Room.local".into())),
    ];
    absorb(&mut r, &packet, proxy);
    let out = resolve(&r);
    let tv = out.get(ip(192, 168, 1, 30)).unwrap();
    assert_eq!(tv.hostname.as_deref(), Some("living-room.local"));
    assert_eq!(tv.services.get_str("airplay").map(|s| s.as_str()), Some("Living Room"));
    assert_eq!(tv.ports.get_str("airplay"), Some(&7000));
    let txt = tv.txt.get_str("airplay").unwrap();
    assert_eq!(txt.get_str("model").map(|s| s.as_str()), Some("AppleTV14,1"));
    assert_eq!(txt.get_str("noise"), None);
    assert_eq!(txt.get_str("fn"), None);
    assert!(out.get(proxy).is_none());
}

#[test]
fn unresolved_instances_go_to_the_sender() {
    let mut r = Records::new();
    let src = ip(192, 168, 1, 9);
    let packet = vec![rec("Printer._ipp._tcp.local", Rdata::Srv("printer.local".into(), 631))];
    absorb(&mut r, &packet, src);
    let out = resolve(&r);
    let p = out.get(src).unwrap();
    assert_eq!(p.hostname.as_deref(), Some("printer.local"));
    assert_eq!(p.services.get_str("ipp").map(|s| s.as_str()), Some("Printer"));
}

#[test]
fn asks_every_type_and_every_address() {
    let targets = [ip(192, 168, 1, 1), ip(192, 168, 1, 2)];
    let q = initial_questions(&targets);
    assert_eq!(q.len(), 1 + 31 + 2);
    assert_eq!(q[0], "_services._dns-sd._udp.local");
    assert_eq!(q[1], "_device-info._tcp.local");
    assert_eq!(q[33], "2.1.168.192.in-addr.arpa");
    let packets = queries(&q);
    assert_eq!(packets.len(), 5);
    // A query with id 0 and eight questions, the first one the meta-query.
    assert_eq!(&packets[0][0..2], &[0, 0]);
    assert_eq!(&packets[0][4..6], &[0, 8]);
    assert_eq!(&packets[0][12..22], b"\x09_services");
    assert_eq!(&packets[4][4..6], &[0, 2]);
}

#[test]
fn takes_in_answer_packets() {
    // A response holding one A record: nas.local is 192.168.1.14.
    let mut bytes = vec![0, 0, 0x84, 0, 0, 0, 0, 1, 0, 0, 0, 0];
    bytes.extend_from_slice(b"\x03nas\x05local\x00");
    bytes.extend_from_slice(&[0, 1, 0, 1, 0, 0, 0, 120, 0, 4, 192, 168, 1, 14]);
    let mut r = Records::new();
    absorb_packet(&mut r, &bytes, ip(192, 168, 1, 99));
    absorb_packet(&mut r, b"not a packet", ip(192, 168, 1, 99));
    let out = resolve(&r);
    let nas = out.get(ip(192, 168, 1, 14)).unwrap();
    assert_eq!(nas.hostname.as_deref(), Some("nas.local"));
}

#[test]
fn second_round_adds_only_new_types() {
    let initial = vec!["_a._tcp.local".to_string()];
    let mut asked: StrMap<()> = StrMap::new();
    asked.insert("_a._tcp.local".to_string(), ());
    let mut types: StrMap<()> = StrMap::new();
    types.insert("_a._tcp.local".to_string(), ());
    types.insert("_b._tcp.local".to_string(), ());
    let round = second_round(&initial, &mut asked, &types);
    assert_eq!(round, vec!["_a._tcp.local".to_string(), "_b._tcp.local".to_string()]);
    let again = second_round(&initial, &mut asked, &types);
    assert_eq!(again, vec!["_a._tcp.local".to_string()]);
}

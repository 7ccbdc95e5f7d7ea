use lsnet::device::{Device, MdnsInfo, StrMap};
use lsnet::tui::{base64, details, haystack, port_name, visible, Action, Browser, Detail, Key, KeyPress, Scan};

fn ip(a: u8, b: u8, c: u8, d: u8) -> u32 {
    u32::from_be_bytes([a, b, c, d])
}

#[test]
fn base64_pads() {
    assert_eq!(base64(b"192.168.1.1"), "MTkyLjE2OC4xLjE=");
    assert_eq!(base64(b"ab"), "YWI=");
    assert_eq!(base64(b"abc"), "YWJj");
    assert_eq!(base64(b"a"), "YQ==");
}

#[test]
fn base64_of_nothing_and_of_every_digit() {
    assert_eq!(base64(b""), "");
    assert_eq!(base64(&[0xfb, 0xff, 0xbf]), "+/+/");
}

#[test]
fn names_the_browsers_ports() {
    assert_eq!(port_name(62078), Some("iOS sync"));
    assert_eq!(port_name(21), None);
}

fn scan() -> Scan {
    let mut a = Device::new(ip(192, 168, 1, 1));
    a.name = Some("Router".into());
    let mut b = Device::new(ip(192, 168, 1, 20));
    b.name = Some("Living Room TV".into());
    b.model = Some("Bravia".into());
    let c = Device::new(ip(192, 168, 1, 30));
    Scan { devices: vec![a, b, c], summary: "3 devices".into(), notes: vec![] }
}

fn key(k: Key) -> KeyPress {
    KeyPress { key: k, ctrl: false }
}

#[test]
fn filters_by_what_devices_say() {
    let s = scan();
    assert_eq!(visible(&s.devices, ""), vec![0, 1, 2]);
    assert_eq!(visible(&s.devices, "BRAVIA"), vec![1]);
    assert_eq!(visible(&s.devices, "192.168.1.3"), vec![2]);
    assert_eq!(haystack(&s.devices[1]), "192.168.1.20\nliving room tv\nbravia");
}

#[test]
fn keys_move_the_selection_within_the_rows() {
    let mut b = Browser::start(scan());
    assert_eq!(b.selected, Some(0));
    assert_eq!(b.on_key(key(Key::Down)), Action::Nothing);
    assert_eq!(b.selected, Some(1));
    b.on_key(key(Key::End));
    assert_eq!(b.selected, Some(2));
    b.on_key(key(Key::Char('j')));
    assert_eq!(b.selected, Some(2));
    b.on_key(key(Key::Home));
    b.on_key(key(Key::Up));
    assert_eq!(b.selected, Some(0));
    assert_eq!(b.on_key(key(Key::Enter)), Action::Copy(ip(192, 168, 1, 1)));
    assert_eq!(b.on_key(key(Key::Char('r'))), Action::Rescan);
    assert_eq!(b.on_key(key(Key::Char('q'))), Action::Quit);
    assert_eq!(b.on_key(KeyPress { key: Key::Char('c'), ctrl: true }), Action::Quit);
}

#[test]
fn typing_a_filter_keeps_the_selected_device() {
    let mut b = Browser::start(scan());
    b.on_key(key(Key::Down));
    b.on_key(key(Key::Char('/')));
    assert!(b.typing_filter);
    for c in "living".chars() {
        assert_eq!(b.on_key(key(Key::Char(c))), Action::Nothing);
    }
    assert_eq!(b.visible, vec![1]);
    assert_eq!(b.selected, Some(0));
    assert_eq!(b.selected_ip(), Some(ip(192, 168, 1, 20)));
    b.on_key(key(Key::Enter));
    assert!(!b.typing_filter);
    b.on_key(key(Key::Esc));
    assert_eq!(b.visible, vec![0, 1, 2]);
    assert_eq!(b.selected, Some(1));
    assert_eq!(b.on_key(key(Key::Esc)), Action::Quit);
}

#[test]
fn an_empty_filter_result_selects_nothing() {
    let mut b = Browser::start(scan());
    b.on_key(key(Key::Char('/')));
    b.on_key(key(Key::Char('z')));
    assert!(b.visible.is_empty());
    assert_eq!(b.selected, None);
    b.on_key(key(Key::Backspace));
    assert_eq!(b.selected, Some(0));
}

#[test]
fn details_scroll_no_further_than_their_end() {
    let mut b = Browser::start(scan());
    b.set_detail_size(30, 10);
    b.on_key(key(Key::PageDown));
    assert_eq!(b.detail_scroll, 5);
    b.on_key(KeyPress { key: Key::Char('d'), ctrl: true });
    b.on_key(key(Key::PageDown));
    b.on_key(key(Key::PageDown));
    b.on_key(key(Key::PageDown));
    assert_eq!(b.detail_scroll, 20);
    b.on_key(key(Key::Char('K')));
    assert_eq!(b.detail_scroll, 19);
    b.set_detail_size(12, 10);
    assert_eq!(b.detail_scroll, 2);
    b.on_key(key(Key::Down));
    assert_eq!(b.detail_scroll, 0);
}

#[test]
fn rescans_keep_the_selection() {
    let mut b = Browser::start(scan());
    b.on_key(key(Key::End));
    let mut s = scan();
    s.devices.remove(0);
    b.rescanned(s);
    assert_eq!(b.selected, Some(1));
    assert_eq!(b.selected_ip(), Some(ip(192, 168, 1, 30)));
}

#[test]
fn details_list_what_is_known() {
    let mut d = Device::new(ip(192, 168, 1, 20));
    d.kind = Some("TV".into());
    d.model = Some("Bravia".into());
    d.randomized_mac = true;
    d.mac = Some("3a:00:00:00:00:01".into());
    d.open_ports = vec![80, 8009];
    let mut m = MdnsInfo::new();
    m.services.insert("device-info".into(), "tv".into());
    m.services.insert("googlecast".into(), "Living Room".into());
    let mut kv = StrMap::new();
    kv.insert("md".into(), "Bravia".into());
    m.txt.insert("googlecast".into(), kv);
    d.mdns = Some(m);
    let lines = details(&d);
    let text: Vec<String> = lines
        .iter()
        .map(|l| match l {
            Detail::Heading(h) => format!("# {h}"),
            Detail::Blank => String::new(),
            Detail::Field(k, v) => format!("{k}: {v}"),
            Detail::Section(t) => format!("## {t}"),
            Detail::Service(s, i, dim) => format!("{s} = {i}{}", if *dim { " (dim)" } else { "" }),
            Detail::Txt(k, v) => format!("  {k} = {v}"),
        })
        .collect();
    assert_eq!(
        text,
        vec![
            "# TV \u{b7} Bravia",
            "",
            "IP: 192.168.1.20",
            "MAC: 3a:00:00:00:00:01",
            "Vendor: unknown (private MAC)",
            "Open ports: 80 HTTP \u{b7} 8009",
            "",
            "## Bonjour (mDNS)",
            "googlecast = Living Room",
            "  md = Bravia",
            "device-info = tv (dim)",
        ]
    );
}

#[test]
fn base64_padding_is_exact() {
    assert_eq!(base64(b""), "");
    assert_eq!(base64(b"f"), "Zg==");
    assert_eq!(base64(b"fo"), "Zm8=");
    assert_eq!(base64(b"foo"), "Zm9v");
    assert_eq!(base64(b"foob"), "Zm9vYg==");
    assert_eq!(base64(b"fooba"), "Zm9vYmE=");
    assert_eq!(base64(b"foobar"), "Zm9vYmFy");
}

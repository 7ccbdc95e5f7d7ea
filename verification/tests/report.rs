use lsnet::device::Device;
use lsnet::report::{header, interactive, kind_label, printable, row, show_mac, widths, Color, Field};

fn device(name: Option<&str>, vendor: Option<&'static str>) -> Device {
    let mut d = Device::new(u32::from_be_bytes([192, 168, 1, 50]));
    d.name = name.map(String::from);
    d.vendor = vendor.map(String::from);
    d.mac = vendor.map(|_| "b8:27:eb:01:02:03".into());
    d
}

#[test]
fn strips_terminal_controls() {
    assert_eq!(printable("TV\x1b]52;c;aGk=\x07\u{9b}2J\u{202e}"), "TV]52;c;aGk=2J");
    assert_eq!(printable("Living Room"), "Living Room");
    assert_eq!(Field::new(Some("\x1b\x07")).text, None);
}

#[test]
fn vendor_backfills_missing_name() {
    let r = row(&device(None, Some("Raspberry Pi")), true, false);
    assert_eq!(r[1].text.as_deref(), Some("Raspberry Pi"));
    assert!(!r[1].bold);

    let r = row(&device(Some("octopi.local"), Some("Raspberry Pi")), true, false);
    assert_eq!(r[1].text.as_deref(), Some("octopi.local"));
    assert!(r[1].bold);
}

#[test]
fn no_backfill_without_mac_columns() {
    let r = row(&device(None, Some("Raspberry Pi")), false, false);
    assert_eq!(r[1].text, None);
}

#[test]
fn printable_removes_bidi_isolates_too() {
    assert_eq!(printable("a\u{2066}b\u{2069}c\u{7f}"), "abc");
    assert_eq!(printable("\u{202a}"), "");
}

#[test]
fn labels_this_machine_and_the_gateway() {
    let mut d = Device::new(1);
    assert_eq!(kind_label(&d), None);
    d.gateway = true;
    assert_eq!(kind_label(&d).as_deref(), Some("Router (gateway)"));
    d.kind = Some("NAS".into());
    assert_eq!(kind_label(&d).as_deref(), Some("NAS (gateway)"));
    d.kind = Some("Router".into());
    assert_eq!(kind_label(&d).as_deref(), Some("Router (gateway)"));
    d.this_device = true;
    assert_eq!(kind_label(&d).as_deref(), Some("Router (this device)"));
    d.kind = None;
    assert_eq!(kind_label(&d).as_deref(), Some("Computer (this device)"));
}

#[test]
fn verbose_rows_list_ports_and_services() {
    let mut d = device(Some("nas"), Some("Synology"));
    d.open_ports = vec![22, 80, 5001];
    d.hostname = Some("nas.local".into());
    d.this_device = true;
    let r = row(&d, true, true);
    assert_eq!(r.len(), 9);
    assert_eq!(r[0].text.as_deref(), Some("192.168.1.50"));
    assert_eq!(r[0].color, Some(Color::Green));
    assert_eq!(r[2].text.as_deref(), Some("Computer (this device)"));
    assert_eq!(r[2].color, Some(Color::Cyan));
    assert_eq!(r[4].text.as_deref(), Some("Synology"));
    assert_eq!(r[5].text.as_deref(), Some("b8:27:eb:01:02:03"));
    assert_eq!(r[6].text.as_deref(), Some("nas.local"));
    assert_eq!(r[7].text.as_deref(), Some("22,80,5001"));
    assert_eq!(r[8].text, None);
}

#[test]
fn private_macs_are_marked() {
    let mut d = device(None, None);
    d.mac = Some("3a:00:00:00:00:01".into());
    d.randomized_mac = true;
    let r = row(&d, true, false);
    assert_eq!(r[4].text.as_deref(), Some("(private MAC)"));
    assert_eq!(r[4].color, Some(Color::DarkGrey));
}

#[test]
fn headers_follow_the_columns() {
    assert_eq!(header(false, false), vec!["IP", "NAME", "TYPE", "MODEL"]);
    assert_eq!(
        header(true, true),
        vec!["IP", "NAME/VENDOR", "TYPE", "MODEL", "VENDOR", "MAC", "HOSTNAME", "PORTS", "SERVICES"]
    );
    let me = {
        let mut d = device(None, Some("Apple"));
        d.this_device = true;
        d
    };
    assert!(!show_mac(&[me]));
    assert!(show_mac(&[device(None, Some("Apple"))]));
}

#[test]
fn widths_fit_the_widest_cell() {
    let h = header(false, false);
    let rows = vec![row(&device(Some("a-long-name"), None), false, false)];
    let w = widths(&h, &rows);
    assert_eq!(w, vec![12, 11, 4, 5]);
    let cell = Field::new(None).render(3);
    assert_eq!(cell.text, "...");
    assert_eq!(cell.color, Some(Color::DarkGrey));
}

#[test]
fn browses_only_in_a_terminal() {
    assert!(interactive(false, false, false, true, true, Some("xterm"), false));
    assert!(!interactive(false, false, false, true, true, Some("dumb"), false));
    assert!(!interactive(true, false, false, true, true, Some("xterm"), false));
    assert!(!interactive(false, false, false, false, true, Some("xterm"), false));
    assert!(!interactive(false, false, false, true, true, None, false));
    assert!(interactive(false, false, false, true, true, None, true));
}

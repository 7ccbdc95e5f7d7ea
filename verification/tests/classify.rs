use lsnet::classify::{apple_model, brand, classify, from_mdns, homekit_category, identify, is_apple_id, is_junk_name, kasa_model, name};
use lsnet::device::{Banner, Device, MdnsInfo, SsdpInfo, StrMap};

fn ip(a: u8, b: u8, c: u8, d: u8) -> u32 {
    u32::from_be_bytes([a, b, c, d])
}

#[test]
fn apple_models() {
    assert_eq!(apple_model("AppleTV14,1").1.as_deref(), Some("Apple TV 4K (3rd gen)"));
    assert_eq!(apple_model("AudioAccessory5,1").0, "Speaker");
    assert_eq!(apple_model("iPhone15,2").1.as_deref(), Some("iPhone"));
    assert_eq!(apple_model("Mac99,1").1.as_deref(), Some("Mac"));
    assert!(is_apple_id("MacBookPro18,3"));
    assert!(!is_apple_id("Xserve"));
    assert!(!is_apple_id("MacSamba"));
    assert!(!is_apple_id("J305AP"));
}

#[test]
fn kasa() {
    assert_eq!(kasa_model("kp115").as_deref(), Some("KP115"));
    assert_eq!(kasa_model("ep25-2").as_deref(), Some("EP25"));
    assert_eq!(kasa_model("kl420").as_deref(), Some("KL420"));
    assert_eq!(kasa_model("hsbc"), None);
    assert_eq!(kasa_model("epson"), None);
}

#[test]
fn junk_names() {
    assert!(is_junk_name("36814e2569ca121f"));
    assert!(is_junk_name("brwc0b5d7e7747d"));
    assert!(is_junk_name("wlan0"));
    assert!(!is_junk_name("bedroom"));
    assert!(!is_junk_name("ep25"));
}

#[test]
fn brands_and_homekit_categories() {
    assert_eq!(brand("Tplink Plug"), Some("TP-Link"));
    assert_eq!(brand("Living Room"), None);
    assert_eq!(homekit_category(5), "Smart light");
    assert_eq!(homekit_category(21), "Climate control");
    assert_eq!(homekit_category(99), "Smart home");
}

#[test]
fn junk_host_names_never_become_names() {
    let mut d = Device::new(ip(192, 168, 1, 7));
    d.hostname = Some("wlan0".to_string());
    assert_eq!(name(&d), None);
    d.hostname = Some("octopi.local".to_string());
    assert!(name(&d).is_some());
}

#[test]
fn classifies_an_apple_tv_from_bonjour() {
    let mut d = Device::new(ip(192, 168, 1, 30));
    let mut m = MdnsInfo::new();
    m.services.insert("airplay".to_string(), "Living Room".to_string());
    let mut kv = StrMap::new();
    kv.insert("model".to_string(), "AppleTV14,1".to_string());
    m.txt.insert("airplay".to_string(), kv);
    d.mdns = Some(m);
    classify(&mut d);
    assert_eq!(d.model.as_deref(), Some("Apple TV 4K (3rd gen)"));
    assert_eq!(d.name.as_deref(), Some("Living Room"));
    assert!(d.kind.is_some());
}

#[test]
fn classifies_from_upnp_and_web() {
    let mut d = Device::new(ip(192, 168, 1, 40));
    let mut s = SsdpInfo::new();
    s.manufacturer = Some("Sonos, Inc.".to_string());
    s.model_name = Some("Sonos One".to_string());
    d.ssdp = Some(s);
    classify(&mut d);
    assert!(d.kind.is_some());

    let mut w = Device::new(ip(192, 168, 1, 41));
    w.http = Some(Banner { server: None, title: Some("AxeOS".to_string()) });
    classify(&mut w);
    assert_eq!(w.kind.as_deref(), Some("Bitcoin miner"));
    assert_eq!(w.model.as_deref(), Some("Bitaxe"));
}

#[test]
fn local_host_names_are_kept_whole() {
    let mut d = Device::new(ip(192, 168, 1, 130));
    let mut m = MdnsInfo::new();
    m.hostname = Some("octopi.local".to_string());
    d.mdns = Some(m);
    assert_eq!(name(&d).as_deref(), Some("octopi.local"));

    let mut m = MdnsInfo::new();
    m.hostname = Some("36814e2569ca121f.local".to_string());
    d.mdns = Some(m);
    d.hostname = Some("pi.lan".to_string());
    assert_eq!(name(&d).as_deref(), Some("pi"));
}

#[test]
fn local_host_name_comes_before_upnp_names() {
    let mut d = Device::new(ip(192, 168, 1, 1));
    let mut m = MdnsInfo::new();
    m.hostname = Some("router.local".to_string());
    d.mdns = Some(m);
    let mut s = SsdpInfo::new();
    s.friendly_name = Some("Home Router".to_string());
    d.ssdp = Some(s);
    assert_eq!(name(&d).as_deref(), Some("router.local"));
}

#[test]
fn app_names_come_before_the_host_name_and_shares_after() {
    let mut d = Device::new(ip(192, 168, 1, 14));
    let nas = || {
        let mut m = MdnsInfo::new();
        m.hostname = Some("diskstation.local".to_string());
        m.services.insert("smb".to_string(), "DiskStation".to_string());
        m
    };
    d.mdns = Some(nas());
    assert_eq!(name(&d).as_deref(), Some("diskstation.local"));
    let mut m = nas();
    m.services.insert("airplay".to_string(), "Den".to_string());
    d.mdns = Some(m);
    assert_eq!(name(&d).as_deref(), Some("Den"));
}

#[test]
fn announced_models_need_no_listed_service() {
    let mut d = Device::new(ip(192, 168, 1, 52));
    let mut m = MdnsInfo::new();
    let mut kv = StrMap::new();
    kv.insert("model".to_string(), "AppleTV14,1".to_string());
    m.txt.insert("airplay".to_string(), kv);
    d.mdns = Some(m);
    d.hostname = Some("iphone".to_string());
    d.open_ports = vec![62078];
    d.vendor = Some("Apple".to_string());
    let id = identify(&d).unwrap();
    assert_eq!(id.0, "TV / streamer");
    assert_eq!(id.1.as_deref(), Some("Apple TV 4K (3rd gen)"));

    let mut e = Device::new(ip(192, 168, 1, 60));
    let mut m = MdnsInfo::new();
    let mut kv = StrMap::new();
    kv.insert("md".to_string(), "Google Nest Mini".to_string());
    m.txt.insert("googlecast".to_string(), kv);
    e.mdns = Some(m);
    let id = from_mdns(&e).unwrap();
    assert_eq!(id.0, "Speaker");
    assert_eq!(id.1.as_deref(), Some("Google Nest Mini"));
}

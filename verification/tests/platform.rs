use lsnet::platform::{parse_arp_an, parse_netstat, parse_proc_arp, parse_proc_route};

fn ip(a: u8, b: u8, c: u8, d: u8) -> u32 {
    u32::from_be_bytes([a, b, c, d])
}

const PROC_ROUTE: &str = "\
Iface\tDestination\tGateway \tFlags\tRefCnt\tUse\tMetric\tMask\t\tMTU\tWindow\tIRTT
wlan0\t00000000\t0101A8C0\t0003\t0\t0\t600\t00000000\t0\t0\t0
eth0\t00000000\t0100000A\t0003\t0\t0\t100\t00000000\t0\t0\t0
eth0\t0000000A\t00000000\t0001\t0\t0\t100\t00FFFFFF\t0\t0\t0
";

#[test]
fn proc_route() {
    assert_eq!(parse_proc_route(PROC_ROUTE, "wlan0"), Some(ip(192, 168, 1, 1)));
    assert_eq!(parse_proc_route(PROC_ROUTE, "eth0"), Some(ip(10, 0, 0, 1)));
    assert_eq!(parse_proc_route(PROC_ROUTE, "docker0"), None);
}

#[test]
fn proc_arp() {
    let text = "\
IP address       HW type     Flags       HW address            Mask     Device
192.168.1.1      0x1         0x2         1c:d6:be:3c:62:8d     *        wlan0
192.168.1.9      0x1         0x0         00:00:00:00:00:00     *        wlan0
10.0.0.5         0x1         0x2         aa:bb:cc:dd:ee:ff     *        eth0
";
    assert_eq!(parse_proc_arp(text, "wlan0"), vec![(ip(192, 168, 1, 1), [0x1c, 0xd6, 0xbe, 0x3c, 0x62, 0x8d])]);
}

#[test]
fn netstat() {
    let text = "Destination  Gateway  Flags  Netif Expire\n\
                default      192.168.1.1  UGScg  en0\n\
                default      10.0.0.1     UGScIg en1\n";
    assert_eq!(parse_netstat(text, "en1"), Some(ip(10, 0, 0, 1)));
}

#[test]
fn arp_an() {
    let text = "? (192.168.1.1) at a4:2b:0:1:2:ff on en0 ifscope [ethernet]\n\
                ? (192.168.1.3) at (incomplete) on en0 ifscope [ethernet]\n\
                ? (192.168.1.8) at c0:b5:d7:e7:74:7d on en1 ifscope [ethernet]\n";
    assert_eq!(parse_arp_an(text, "en0"), vec![(ip(192, 168, 1, 1), [0xa4, 0x2b, 0, 1, 2, 0xff])]);
}

#[test]
fn lowest_metric_route_wins() {
    let text = "Iface\tDestination\tGateway\tFlags\tRefCnt\tUse\tMetric\n\
                eth0\t00000000\t0100000A\t0003\t0\t0\t300\n\
                eth0\t00000000\t0200000A\t0003\t0\t0\t100\n\
                eth0\t00000000\t00000000\t0003\t0\t0\t1\n";
    assert_eq!(parse_proc_route(text, "eth0"), Some(ip(10, 0, 0, 2)));
    assert_eq!(parse_proc_route("", "eth0"), None);
}

use lsnet::oui::{is_randomized, Oui};

const DB: &str = "# prefix\tvendor\nF01898\tApple\nB827EB\tRaspberry Pi\n001BC5000\tConverging Systems\n";

#[test]
fn looks_up_vendors() {
    let oui = Oui::table(DB);
    assert_eq!(oui.vendor([0xf0, 0x18, 0x98, 1, 2, 3]).as_deref(), Some("Apple"));
    assert_eq!(oui.vendor([0xb8, 0x27, 0xeb, 1, 2, 3]).as_deref(), Some("Raspberry Pi"));
}

#[test]
fn detects_randomized() {
    assert!(is_randomized([0x3a, 0, 0, 0, 0, 0]));
    assert!(!is_randomized([0xf0, 0x18, 0x98, 0, 0, 0]));
}

#[test]
fn prefers_the_longest_assignment() {
    let oui = Oui::table(DB);
    assert_eq!(oui.vendor([0x00, 0x1b, 0xc5, 0x00, 0x01, 0x02]).as_deref(), Some("Converging Systems"));
    assert_eq!(oui.vendor([0x12, 0x34, 0x56, 0, 0, 0]), None);
    assert_eq!(Oui::table("#F01898\tNobody\n").vendor([0xf0, 0x18, 0x98, 1, 2, 3]), None);
}

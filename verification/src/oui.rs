//! MAC address to manufacturer, from the IEEE registry in Wireshark's
//! `manuf` database (one `PREFIX<tab>Vendor` line per assignment).
use vstd::prelude::*;
use crate::classify::opt_view;
use crate::device::{lemma_map_insert_lookup, lookup, StrMap};
use crate::text::{
    chars_of, lines, lines_of, split_once, split_once_of, starts_with, starts_with_str, string_of,
    views,
};

verus! {

/// Phones and laptops use a random "locally administered" MAC per network for privacy.
pub fn is_randomized(mac: [u8; 6]) -> (r: bool)
    ensures
        r == (mac[0] & 2u8 != 0u8),
{
    mac[0] & 2 != 0
}

/// `{:X}` of one hexadecimal digit.
pub open spec fn hex_up(d: nat) -> char {
    if d < 10 {
        (d + 48) as char
    } else {
        (d + 55) as char
    }
}

/// `{:02X}`: two uppercase hexadecimal digits.
pub open spec fn hex2_up(b: u8) -> Seq<char> {
    seq![hex_up((b / 16) as nat), hex_up((b % 16) as nat)]
}

/// The twelve uppercase hexadecimal digits of a MAC address.
pub open spec fn mac_hex(m: [u8; 6]) -> Seq<char> {
    hex2_up(m[0]) + hex2_up(m[1]) + hex2_up(m[2]) + hex2_up(m[3]) + hex2_up(m[4]) + hex2_up(m[5])
}

fn push_hex2_up(out: &mut Vec<char>, b: u8)
    ensures
        final(out)@ == old(out)@ + hex2_up(b),
{
    let hi: u8 = b / 16;
    let lo: u8 = b % 16;
    out.push(if hi < 10 { (hi + 48) as char } else { (hi + 55) as char });
    out.push(if lo < 10 { (lo + 48) as char } else { (lo + 55) as char });
}

/// A database line's prefix and vendor; comments and lines without a tab have none.
pub open spec fn entry_of(line: Seq<char>) -> Option<(Seq<char>, Seq<char>)> {
    if starts_with(line, "#"@) {
        None
    } else {
        split_once(line, '\t')
    }
}

/// The vendor the last line for `prefix` gives it.
pub open spec fn last_entry(ls: Seq<Seq<char>>, prefix: Seq<char>) -> Option<Seq<char>>
    decreases ls.len(),
{
    if ls.len() == 0 {
        None
    } else {
        match entry_of(ls.last()) {
            Some(e) => if e.0 == prefix {
                Some(e.1)
            } else {
                last_entry(ls.drop_last(), prefix)
            },
            None => last_entry(ls.drop_last(), prefix),
        }
    }
}

/// The registry: assigned prefixes (as hexadecimal digits) and their owners.
pub struct Oui {
    table: StrMap<String>,
}

/// Most specific assignment first: 36-bit, then 28-bit, then 24-bit prefixes.
pub open spec fn spec_vendor(o: Oui, mac: [u8; 6]) -> Option<Seq<char>> {
    let h = mac_hex(mac);
    match o.assigned(h.take(9)) {
        Some(v) => Some(v),
        None => match o.assigned(h.take(7)) {
            Some(v) => Some(v),
            None => o.assigned(h.take(6)),
        },
    }
}

impl Oui {
    /// The vendor assigned the prefix.
    pub closed spec fn assigned(self, prefix: Seq<char>) -> Option<Seq<char>> {
        opt_view(lookup(self.table@, prefix))
    }

    /// Reads the database text.
    pub fn table(db: &str) -> (r: Oui)
        ensures
            forall|k: Seq<char>| #[trigger] r.assigned(k) == last_entry(lines(db@), k),
    {
        let text = chars_of(db);
        let ls = lines_of(text.as_slice());
        let mut table: StrMap<String> = StrMap::new();
        let mut i: usize = 0;
        while i < ls.len()
            invariant
                i <= ls.len(),
                views(ls@) == lines(db@),
                forall|k: Seq<char>|
                    #[trigger] opt_view(lookup(table@, k)) == last_entry(
                        views(ls@).take(i as int),
                        k,
                    ),
            decreases ls.len() - i,
        {
            let line = ls[i].as_slice();
            let ghost all = views(ls@);
            assert(all.take(i + 1).drop_last() == all.take(i as int));
            assert(all.take(i + 1).last() == line@);
            if !starts_with_str(line, "#") {
                match split_once_of(line, '\t') {
                    Some((prefix, name)) => {
                        let key = string_of(prefix.as_slice());
                        let val = string_of(name.as_slice());
                        let ghost before = table@;
                        table.insert(key, val);
                        proof {
                            assert forall|k: Seq<char>|
                                #[trigger] opt_view(lookup(table@, k)) == last_entry(
                                    all.take(i + 1),
                                    k,
                                ) by {
                                lemma_map_insert_lookup(before, key, val, k);
                            }
                        }
                    },
                    None => {},
                }
            }
            i += 1;
        }
        assert(views(ls@).take(ls.len() as int) == views(ls@));
        Oui { table }
    }

    fn lookup_prefix(&self, hex: &[char], n: usize) -> (r: Option<String>)
        requires
            n <= hex.len(),
        ensures
            opt_view(r) == self.assigned(hex@.take(n as int)),
    {
        let key = crate::text::slice_chars(hex, 0, n);
        assert(key@ == hex@.take(n as int));
        match self.table.get(key.as_slice()) {
            Some(v) => Some(v.clone()),
            None => None,
        }
    }

    /// The manufacturer of a MAC address.
    pub fn vendor(&self, mac: [u8; 6]) -> (r: Option<String>)
        ensures
            opt_view(r) == spec_vendor(*self, mac),
    {
        let mut hex: Vec<char> = Vec::new();
        let mut i: usize = 0;
        while i < 6
            invariant
                i <= 6,
                hex@ == (if i == 0 {
                    Seq::empty()
                } else if i == 1 {
                    hex2_up(mac[0])
                } else if i == 2 {
                    hex2_up(mac[0]) + hex2_up(mac[1])
                } else if i == 3 {
                    hex2_up(mac[0]) + hex2_up(mac[1]) + hex2_up(mac[2])
                } else if i == 4 {
                    hex2_up(mac[0]) + hex2_up(mac[1]) + hex2_up(mac[2]) + hex2_up(mac[3])
                } else if i == 5 {
                    hex2_up(mac[0]) + hex2_up(mac[1]) + hex2_up(mac[2]) + hex2_up(mac[3])
                        + hex2_up(mac[4])
                } else {
                    mac_hex(mac)
                }),
            decreases 6 - i,
        {
            push_hex2_up(&mut hex, mac[i]);
            i += 1;
        }
        let h = hex.as_slice();
        match self.lookup_prefix(h, 9) {
            Some(v) => Some(v),
            None => match self.lookup_prefix(h, 7) {
                Some(v) => Some(v),
                None => self.lookup_prefix(h, 6),
            },
        }
    }
}

} // verus!

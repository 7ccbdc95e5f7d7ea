//! Turn the evidence gathered about a device into a name, type and model.
//!
//! Sources are consulted from most to least specific: model identifiers a
//! device announces about itself (Bonjour TXT records, UPnP descriptions)
//! beat naming conventions, which beat open ports and MAC vendors.
use vstd::prelude::*;
use crate::device::{lookup, Device, MdnsInfo};
use crate::text::{
    chars_of, contains, contains_any, contains_any_of, contains_str, ends_with, eq_str, find,
    is_digit, is_digit_char, is_hex_digit, is_hex_digit_char, is_one_of, is_one_of_exec,
    join_space, lemma_contains, lower_chars, lower_seq, lower_str, owned, parse_uint,
    parse_uint_of, push_all, push_str, slice_chars, starts_with, starts_with_chars,
    starts_with_str, string_of, strs, trim, trim_str, upper_chars, upper_seq,
};

verus! {

/// A device type and, when known, a model.
pub type Id = (&'static str, Option<String>);

pub open spec fn opt_view(o: Option<String>) -> Option<Seq<char>> {
    match o {
        Some(s) => Some(s@),
        None => None,
    }
}

pub open spec fn id_view(i: Id) -> (Seq<char>, Option<Seq<char>>) {
    (i.0@, opt_view(i.1))
}

pub open spec fn opt_id_view(i: Option<Id>) -> Option<(Seq<char>, Option<Seq<char>>)> {
    match i {
        Some(x) => Some(id_view(x)),
        None => None,
    }
}

pub open spec fn named(kind: Seq<char>, model: Seq<char>) -> (Seq<char>, Option<Seq<char>>) {
    (kind, Some(model))
}

pub open spec fn bare(kind: Seq<char>) -> (Seq<char>, Option<Seq<char>>) {
    (kind, None)
}

fn named_id(kind: &'static str, model: &str) -> (r: Id)
    ensures
        id_view(r) == named(kind@, model@),
{
    (kind, Some(owned(model)))
}

fn bare_id(kind: &'static str) -> (r: Id)
    ensures
        id_view(r) == bare(kind@),
{
    (kind, None)
}

// ---------------------------------------------------------------------------
// Apple model identifiers
// ---------------------------------------------------------------------------

pub open spec fn apple_prefixes() -> Seq<Seq<char>> {
    seq![
        "iPhone"@,
        "iPad"@,
        "iPod"@,
        "AppleTV"@,
        "AudioAccessory"@,
        "Mac"@,
        "iMac"@,
        "Watch"@,
    ]
}

/// `id` starts with `p` and continues with a digit, `B`, `P`, `m` or `A`.
pub open spec fn prefix_then_model(id: Seq<char>, p: Seq<char>) -> bool {
    starts_with(id, p) && id.len() > p.len() && {
        let c = id[p.len() as int];
        is_digit(c) || c == 'B' || c == 'P' || c == 'm' || c == 'A'
    }
}

pub open spec fn spec_is_apple_id(id: Seq<char>) -> bool {
    exists|i: int|
        0 <= i < apple_prefixes().len() && prefix_then_model(id, #[trigger] apple_prefixes()[i])
}

/// Whether `id` looks like an Apple hardware identifier (`AppleTV14,1`).
pub fn is_apple_id(id: &str) -> (r: bool)
    ensures
        r == spec_is_apple_id(id@),
{
    let v = chars_of(id);
    let prefixes: [&str; 8] = ["iPhone", "iPad", "iPod", "AppleTV", "AudioAccessory", "Mac", "iMac", "Watch"];
    assert(strs(prefixes@) == apple_prefixes());
    let mut i: usize = 0;
    while i < 8
        invariant
            i <= 8,
            v@ == id@,
            strs(prefixes@) == apple_prefixes(),
            forall|j: int| 0 <= j < i ==> !prefix_then_model(id@, #[trigger] apple_prefixes()[j]),
        decreases 8 - i,
    {
        let p = chars_of(prefixes[i]);
        assert(p@ == apple_prefixes()[i as int]);
        if starts_with_chars(v.as_slice(), p.as_slice()) && v.len() > p.len() {
            let c = v[p.len()];
            if is_digit_char(c) || c == 'B' || c == 'P' || c == 'm' || c == 'A' {
                assert(prefix_then_model(id@, apple_prefixes()[i as int]));
                return true;
            }
        }
        i += 1;
    }
    false
}

pub open spec fn apple_exact(id: Seq<char>) -> Option<(Seq<char>, Option<Seq<char>>)> {
    let tv = "TV / streamer"@;
    let sp = "Speaker"@;
    let pc = "Computer"@;
    if id == "AppleTV5,3"@ {
        Some(named(tv, "Apple TV HD"@))
    } else if id == "AppleTV6,2"@ {
        Some(named(tv, "Apple TV 4K"@))
    } else if id == "AppleTV11,1"@ {
        Some(named(tv, "Apple TV 4K (2nd gen)"@))
    } else if id == "AppleTV14,1"@ {
        Some(named(tv, "Apple TV 4K (3rd gen)"@))
    } else if id == "AudioAccessory1,1"@ || id == "AudioAccessory1,2"@ {
        Some(named(sp, "HomePod"@))
    } else if id == "AudioAccessory5,1"@ {
        Some(named(sp, "HomePod mini"@))
    } else if id == "AudioAccessory6,1"@ {
        Some(named(sp, "HomePod (2nd gen)"@))
    } else if id == "Mac13,1"@ || id == "Mac13,2"@ {
        Some(named(pc, "Mac Studio (M1)"@))
    } else if id == "Mac14,3"@ {
        Some(named(pc, "Mac mini (M2)"@))
    } else if id == "Mac14,12"@ {
        Some(named(pc, "Mac mini (M2 Pro)"@))
    } else if id == "Mac14,13"@ || id == "Mac14,14"@ {
        Some(named(pc, "Mac Studio (M2)"@))
    } else if id == "Mac14,2"@ || id == "Mac14,15"@ {
        Some(named(pc, "MacBook Air (M2)"@))
    } else if id == "Mac14,5"@ || id == "Mac14,6"@ || id == "Mac14,7"@ || id == "Mac14,9"@ || id
        == "Mac14,10"@ {
        Some(named(pc, "MacBook Pro (M2)"@))
    } else if id == "Mac14,8"@ {
        Some(named(pc, "Mac Pro (M2)"@))
    } else if id == "Mac15,3"@ || id == "Mac15,6"@ || id == "Mac15,7"@ || id == "Mac15,8"@ || id
        == "Mac15,9"@ || id == "Mac15,10"@ || id == "Mac15,11"@ {
        Some(named(pc, "MacBook Pro (M3)"@))
    } else if id == "Mac15,4"@ || id == "Mac15,5"@ {
        Some(named(pc, "iMac (M3)"@))
    } else if id == "Mac15,12"@ || id == "Mac15,13"@ {
        Some(named(pc, "MacBook Air (M3)"@))
    } else if id == "Mac15,14"@ {
        Some(named(pc, "Mac Studio (M3 Ultra)"@))
    } else if id == "Mac16,1"@ || id == "Mac16,5"@ || id == "Mac16,6"@ || id == "Mac16,7"@ || id
        == "Mac16,8"@ {
        Some(named(pc, "MacBook Pro (M4)"@))
    } else if id == "Mac16,2"@ || id == "Mac16,3"@ {
        Some(named(pc, "iMac (M4)"@))
    } else if id == "Mac16,9"@ {
        Some(named(pc, "Mac Studio (M4 Max)"@))
    } else if id == "Mac16,10"@ {
        Some(named(pc, "Mac mini (M4)"@))
    } else if id == "Mac16,11"@ {
        Some(named(pc, "Mac mini (M4 Pro)"@))
    } else if id == "Mac16,12"@ || id == "Mac16,13"@ {
        Some(named(pc, "MacBook Air (M4)"@))
    } else {
        None
    }
}

pub open spec fn apple_family(id: Seq<char>) -> (Seq<char>, Option<Seq<char>>) {
    if starts_with(id, "AppleTV"@) {
        named("TV / streamer"@, "Apple TV"@)
    } else if starts_with(id, "AudioAccessory"@) {
        named("Speaker"@, "HomePod"@)
    } else if starts_with(id, "iPhone"@) {
        named("Phone"@, "iPhone"@)
    } else if starts_with(id, "iPad"@) {
        named("Tablet"@, "iPad"@)
    } else if starts_with(id, "iPod"@) {
        named("Media player"@, "iPod"@)
    } else if starts_with(id, "Watch"@) {
        named("Watch"@, "Apple Watch"@)
    } else if starts_with(id, "MacBookPro"@) {
        named("Computer"@, "MacBook Pro"@)
    } else if starts_with(id, "MacBookAir"@) {
        named("Computer"@, "MacBook Air"@)
    } else if starts_with(id, "MacBook"@) {
        named("Computer"@, "MacBook"@)
    } else if starts_with(id, "Macmini"@) {
        named("Computer"@, "Mac mini"@)
    } else if starts_with(id, "MacPro"@) {
        named("Computer"@, "Mac Pro"@)
    } else if starts_with(id, "iMac"@) {
        named("Computer"@, "iMac"@)
    } else if starts_with(id, "Mac"@) {
        named("Computer"@, "Mac"@)
    } else {
        bare("Apple device"@)
    }
}

/// Apple hardware identifier to (type, marketing name): an exact match, or else
/// the family the identifier's prefix names.
pub open spec fn spec_apple_model(id: Seq<char>) -> (Seq<char>, Option<Seq<char>>) {
    match apple_exact(id) {
        Some(x) => x,
        None => apple_family(id),
    }
}

fn apple_exact_exec(v: &[char]) -> (r: Option<Id>)
    ensures
        opt_id_view(r) == apple_exact(v@),
{
    let tv = "TV / streamer";
    let sp = "Speaker";
    let pc = "Computer";
    if eq_str(v, "AppleTV5,3") {
        Some(named_id(tv, "Apple TV HD"))
    } else if eq_str(v, "AppleTV6,2") {
        Some(named_id(tv, "Apple TV 4K"))
    } else if eq_str(v, "AppleTV11,1") {
        Some(named_id(tv, "Apple TV 4K (2nd gen)"))
    } else if eq_str(v, "AppleTV14,1") {
        Some(named_id(tv, "Apple TV 4K (3rd gen)"))
    } else if eq_str(v, "AudioAccessory1,1") || eq_str(v, "AudioAccessory1,2") {
        Some(named_id(sp, "HomePod"))
    } else if eq_str(v, "AudioAccessory5,1") {
        Some(named_id(sp, "HomePod mini"))
    } else if eq_str(v, "AudioAccessory6,1") {
        Some(named_id(sp, "HomePod (2nd gen)"))
    } else if eq_str(v, "Mac13,1") || eq_str(v, "Mac13,2") {
        Some(named_id(pc, "Mac Studio (M1)"))
    } else if eq_str(v, "Mac14,3") {
        Some(named_id(pc, "Mac mini (M2)"))
    } else if eq_str(v, "Mac14,12") {
        Some(named_id(pc, "Mac mini (M2 Pro)"))
    } else if eq_str(v, "Mac14,13") || eq_str(v, "Mac14,14") {
        Some(named_id(pc, "Mac Studio (M2)"))
    } else if eq_str(v, "Mac14,2") || eq_str(v, "Mac14,15") {
        Some(named_id(pc, "MacBook Air (M2)"))
    } else if eq_str(v, "Mac14,5") || eq_str(v, "Mac14,6") || eq_str(v, "Mac14,7") || eq_str(
        v,
        "Mac14,9",
    ) || eq_str(v, "Mac14,10") {
        Some(named_id(pc, "MacBook Pro (M2)"))
    } else if eq_str(v, "Mac14,8") {
        Some(named_id(pc, "Mac Pro (M2)"))
    } else if eq_str(v, "Mac15,3") || eq_str(v, "Mac15,6") || eq_str(v, "Mac15,7") || eq_str(
        v,
        "Mac15,8",
    ) || eq_str(v, "Mac15,9") || eq_str(v, "Mac15,10") || eq_str(v, "Mac15,11") {
        Some(named_id(pc, "MacBook Pro (M3)"))
    } else if eq_str(v, "Mac15,4") || eq_str(v, "Mac15,5") {
        Some(named_id(pc, "iMac (M3)"))
    } else if eq_str(v, "Mac15,12") || eq_str(v, "Mac15,13") {
        Some(named_id(pc, "MacBook Air (M3)"))
    } else if eq_str(v, "Mac15,14") {
        Some(named_id(pc, "Mac Studio (M3 Ultra)"))
    } else if eq_str(v, "Mac16,1") || eq_str(v, "Mac16,5") || eq_str(v, "Mac16,6") || eq_str(
        v,
        "Mac16,7",
    ) || eq_str(v, "Mac16,8") {
        Some(named_id(pc, "MacBook Pro (M4)"))
    } else if eq_str(v, "Mac16,2") || eq_str(v, "Mac16,3") {
        Some(named_id(pc, "iMac (M4)"))
    } else if eq_str(v, "Mac16,9") {
        Some(named_id(pc, "Mac Studio (M4 Max)"))
    } else if eq_str(v, "Mac16,10") {
        Some(named_id(pc, "Mac mini (M4)"))
    } else if eq_str(v, "Mac16,11") {
        Some(named_id(pc, "Mac mini (M4 Pro)"))
    } else if eq_str(v, "Mac16,12") || eq_str(v, "Mac16,13") {
        Some(named_id(pc, "MacBook Air (M4)"))
    } else {
        None
    }
}

fn apple_family_exec(v: &[char]) -> (r: Id)
    ensures
        id_view(r) == apple_family(v@),
{
    if starts_with_str(v, "AppleTV") {
        named_id("TV / streamer", "Apple TV")
    } else if starts_with_str(v, "AudioAccessory") {
        named_id("Speaker", "HomePod")
    } else if starts_with_str(v, "iPhone") {
        named_id("Phone", "iPhone")
    } else if starts_with_str(v, "iPad") {
        named_id("Tablet", "iPad")
    } else if starts_with_str(v, "iPod") {
        named_id("Media player", "iPod")
    } else if starts_with_str(v, "Watch") {
        named_id("Watch", "Apple Watch")
    } else if starts_with_str(v, "MacBookPro") {
        named_id("Computer", "MacBook Pro")
    } else if starts_with_str(v, "MacBookAir") {
        named_id("Computer", "MacBook Air")
    } else if starts_with_str(v, "MacBook") {
        named_id("Computer", "MacBook")
    } else if starts_with_str(v, "Macmini") {
        named_id("Computer", "Mac mini")
    } else if starts_with_str(v, "MacPro") {
        named_id("Computer", "Mac Pro")
    } else if starts_with_str(v, "iMac") {
        named_id("Computer", "iMac")
    } else if starts_with_str(v, "Mac") {
        named_id("Computer", "Mac")
    } else {
        bare_id("Apple device")
    }
}

/// Apple hardware identifier to (type, marketing name).
pub fn apple_model(id: &str) -> (r: Id)
    ensures
        id_view(r) == spec_apple_model(id@),
{
    let v = chars_of(id);
    match apple_exact_exec(v.as_slice()) {
        Some(x) => x,
        None => apple_family_exec(v.as_slice()),
    }
}

// ---------------------------------------------------------------------------
// Small lookup tables
// ---------------------------------------------------------------------------

pub open spec fn kasa_prefixes() -> Seq<Seq<char>> {
    seq!["KP"@, "HS"@, "EP"@, "KL"@, "LB"@, "KS"@]
}

/// The first of `ps[i..]` that `s` starts with.
pub open spec fn first_prefix(s: Seq<char>, ps: Seq<Seq<char>>, i: int) -> Option<Seq<char>>
    decreases ps.len() - i,
{
    if i < 0 || i >= ps.len() {
        None
    } else if starts_with(s, ps[i]) {
        Some(ps[i])
    } else {
        first_prefix(s, ps, i + 1)
    }
}

proof fn lemma_first_prefix(s: Seq<char>, ps: Seq<Seq<char>>, i: int)
    ensures
        first_prefix(s, ps, i) matches Some(p) ==> starts_with(s, p) && ps.contains(p),
    decreases ps.len() - i,
{
    if 0 <= i < ps.len() {
        if starts_with(s, ps[i]) {
            assert(ps.contains(ps[i]));
        } else {
            lemma_first_prefix(s, ps, i + 1);
        }
    }
}

proof fn lemma_digit_run_digits(s: Seq<char>, i: int)
    requires
        0 <= i < digit_run(s),
    ensures
        is_digit(s[i]),
    decreases s.len(),
{
    lemma_digit_run(s);
    assert(s.len() > 0 && is_digit(s[0]));
    if i > 0 {
        lemma_digit_run_digits(s.drop_first(), i - 1);
        assert(s.drop_first()[i - 1] == s[i]);
    }
}

/// A Kasa model is one of the known two-letter prefixes followed by two or
/// three digits, and the host name, uppercased, starts with it.
pub proof fn lemma_kasa_model_form(s: Seq<char>)
    ensures
        spec_kasa_model(s) matches Some(m) ==> {
            &&& 4 <= m.len() <= 5
            &&& kasa_prefixes().contains(m.take(2))
            &&& forall|i: int| 2 <= i < m.len() ==> is_digit(#[trigger] m[i])
            &&& starts_with(upper_seq(s), m)
        },
{
    let u = upper_seq(s);
    lemma_first_prefix(u, kasa_prefixes(), 0);
    if let Some(p) = first_prefix(u, kasa_prefixes(), 0) {
        let rest = u.skip(p.len() as int);
        let n = digit_run(rest);
        lemma_digit_run(rest);
        if 2 <= n && n <= 3 {
            let m = p + rest.take(n as int);
            let k = choose|k: int| 0 <= k < kasa_prefixes().len() && kasa_prefixes()[k] == p;
            assert(p.len() == 2) by {
                reveal_strlit("KP");
                reveal_strlit("HS");
                reveal_strlit("EP");
                reveal_strlit("KL");
                reveal_strlit("LB");
                reveal_strlit("KS");
                if k == 0 {} else if k == 1 {} else if k == 2 {} else if k == 3 {} else if k == 4 {} else {}
            }
            assert(m.take(2) =~= p);
            assert forall|i: int| 2 <= i < m.len() implies is_digit(#[trigger] m[i]) by {
                lemma_digit_run_digits(rest, i - 2);
                assert(m[i] == rest[i - 2]);
            }
            assert(u.take(m.len() as int) =~= m);
        }
    }
}

/// How many ASCII digits `s` starts with.
pub open spec fn digit_run(s: Seq<char>) -> nat
    decreases s.len(),
{
    if s.len() > 0 && is_digit(s[0]) {
        1 + digit_run(s.drop_first())
    } else {
        0
    }
}

proof fn lemma_digit_run(s: Seq<char>)
    ensures
        digit_run(s) <= s.len(),
    decreases s.len(),
{
    if s.len() > 0 && is_digit(s[0]) {
        lemma_digit_run(s.drop_first());
    }
}

/// TP-Link Kasa model from a host name: a known two-letter prefix followed by
/// two or three digits.
pub open spec fn spec_kasa_model(s: Seq<char>) -> Option<Seq<char>> {
    let u = upper_seq(s);
    match first_prefix(u, kasa_prefixes(), 0) {
        None => None,
        Some(p) => {
            let rest = u.skip(p.len() as int);
            let n = digit_run(rest);
            if 2 <= n && n <= 3 {
                Some(p + rest.take(n as int))
            } else {
                None
            }
        },
    }
}

pub fn kasa_model(s: &str) -> (r: Option<String>)
    ensures
        opt_view(r) == spec_kasa_model(s@),
{
    let sv = chars_of(s);
    let u = upper_chars(sv.as_slice());
    let prefixes: [&str; 6] = ["KP", "HS", "EP", "KL", "LB", "KS"];
    assert(strs(prefixes@) == kasa_prefixes());
    let mut i: usize = 0;
    let mut found: Option<usize> = None;
    while i < 6
        invariant_except_break
            found is None,
        invariant
            i <= 6,
            strs(prefixes@) == kasa_prefixes(),
            u@ == upper_seq(s@),
            first_prefix(u@, kasa_prefixes(), 0) == first_prefix(u@, kasa_prefixes(), i as int),
        ensures
            match found {
                Some(k) => k < 6 && first_prefix(u@, kasa_prefixes(), 0) == Some(
                    kasa_prefixes()[k as int],
                ),
                None => first_prefix(u@, kasa_prefixes(), 0) is None,
            },
        decreases 6 - i,
    {
        if starts_with_str(u.as_slice(), prefixes[i]) {
            found = Some(i);
            break;
        }
        i += 1;
    }
    let k = match found {
        Some(k) => k,
        None => return None,
    };
    let p = chars_of(prefixes[k]);
    assert(p@ == kasa_prefixes()[k as int]);
    proof {
        lemma_first_prefix(u@, kasa_prefixes(), 0);
    }
    let ghost rest = u@.skip(p@.len() as int);
    let mut j: usize = p.len();
    while j < u.len() && is_digit_char(u[j])
        invariant
            p@.len() <= j <= u@.len(),
            p@.len() <= u@.len(),
            rest == u@.skip(p@.len() as int),
            digit_run(rest) == (j - p@.len()) + digit_run(u@.skip(j as int)),
        decreases u.len() - j,
    {
        assert(u@.skip(j as int).drop_first() == u@.skip(j + 1));
        j += 1;
    }
    let n = j - p.len();
    if 2 <= n && n <= 3 {
        let mut out: Vec<char> = Vec::new();
        push_all(&mut out, p.as_slice());
        let digits = slice_chars(u.as_slice(), p.len(), j);
        assert(digits@ == rest.take(n as int));
        push_all(&mut out, digits.as_slice());
        Some(string_of(out.as_slice()))
    } else {
        None
    }
}

/// The maker a HomeKit accessory's instance name starts with.
pub open spec fn spec_brand(instance: Seq<char>) -> Option<Seq<char>> {
    let l = lower_seq(instance);
    if starts_with(l, "tplink"@) {
        Some("TP-Link"@)
    } else if starts_with(l, "tp-link"@) {
        Some("TP-Link"@)
    } else if starts_with(l, "meross"@) {
        Some("Meross"@)
    } else if starts_with(l, "eve "@) {
        Some("Eve"@)
    } else if starts_with(l, "ecobee"@) {
        Some("ecobee"@)
    } else if starts_with(l, "aqara"@) {
        Some("Aqara"@)
    } else if starts_with(l, "nanoleaf"@) {
        Some("Nanoleaf"@)
    } else if starts_with(l, "lifx"@) {
        Some("LIFX"@)
    } else if starts_with(l, "wemo"@) {
        Some("Wemo"@)
    } else if starts_with(l, "hue"@) {
        Some("Philips Hue"@)
    } else if starts_with(l, "vocolinc"@) {
        Some("VOCOlinc"@)
    } else {
        None
    }
}

pub open spec fn opt_str_view(o: Option<&str>) -> Option<Seq<char>> {
    match o {
        Some(s) => Some(s@),
        None => None,
    }
}

pub fn brand(instance: &str) -> (r: Option<&'static str>)
    ensures
        opt_str_view(r) == spec_brand(instance@),
{
    let l = lower_str(instance);
    let l = l.as_slice();
    if starts_with_str(l, "tplink") {
        Some("TP-Link")
    } else if starts_with_str(l, "tp-link") {
        Some("TP-Link")
    } else if starts_with_str(l, "meross") {
        Some("Meross")
    } else if starts_with_str(l, "eve ") {
        Some("Eve")
    } else if starts_with_str(l, "ecobee") {
        Some("ecobee")
    } else if starts_with_str(l, "aqara") {
        Some("Aqara")
    } else if starts_with_str(l, "nanoleaf") {
        Some("Nanoleaf")
    } else if starts_with_str(l, "lifx") {
        Some("LIFX")
    } else if starts_with_str(l, "wemo") {
        Some("Wemo")
    } else if starts_with_str(l, "hue") {
        Some("Philips Hue")
    } else if starts_with_str(l, "vocolinc") {
        Some("VOCOlinc")
    } else {
        None
    }
}

/// HomeKit accessory category number to a device type.
pub open spec fn spec_homekit_category(ci: u32) -> Seq<char> {
    if ci == 2 {
        "Smart home hub"@
    } else if ci == 3 {
        "Fan"@
    } else if ci == 4 {
        "Garage door"@
    } else if ci == 5 {
        "Smart light"@
    } else if ci == 6 {
        "Lock"@
    } else if ci == 7 {
        "Smart plug"@
    } else if ci == 8 {
        "Switch"@
    } else if ci == 9 {
        "Thermostat"@
    } else if ci == 10 {
        "Sensor"@
    } else if ci == 11 {
        "Security system"@
    } else if ci == 14 {
        "Blinds"@
    } else if ci == 17 {
        "Camera"@
    } else if ci == 18 {
        "Doorbell / camera"@
    } else if ci == 19 {
        "Air purifier"@
    } else if 20 <= ci && ci <= 23 {
        "Climate control"@
    } else if ci == 28 {
        "Sprinkler"@
    } else if ci == 31 || ci == 35 || ci == 36 {
        "TV / streamer"@
    } else if ci == 33 {
        "Router"@
    } else if ci == 34 {
        "Speaker"@
    } else {
        "Smart home"@
    }
}

pub fn homekit_category(ci: u32) -> (r: &'static str)
    ensures
        r@ == spec_homekit_category(ci),
{
    match ci {
        2 => "Smart home hub",
        3 => "Fan",
        4 => "Garage door",
        5 => "Smart light",
        6 => "Lock",
        7 => "Smart plug",
        8 => "Switch",
        9 => "Thermostat",
        10 => "Sensor",
        11 => "Security system",
        14 => "Blinds",
        17 => "Camera",
        18 => "Doorbell / camera",
        19 => "Air purifier",
        20..=23 => "Climate control",
        28 => "Sprinkler",
        31 | 35 | 36 => "TV / streamer",
        33 => "Router",
        34 => "Speaker",
        _ => "Smart home",
    }
}

// ---------------------------------------------------------------------------
// Junk names
// ---------------------------------------------------------------------------

/// At least eight characters, all hex digits or dashes.
pub open spec fn hexish(s: Seq<char>) -> bool {
    s.len() >= 8 && forall|i: int| 0 <= i < s.len() ==> is_hex_digit(#[trigger] s[i]) || s[i] == '-'
}

pub open spec fn junk_words() -> Seq<Seq<char>> {
    seq!["localhost"@, "wlan0"@, "eth0"@, "espressif"@, "unknown"@]
}

/// Machine-generated names that tell a person nothing: empty, a long hex
/// string, Brother's `BRW` + MAC default, or a generic word.
pub open spec fn spec_is_junk_name(n0: Seq<char>) -> bool {
    let n = trim(n0);
    n.len() == 0 || hexish(n) || (n.len() == 15 && starts_with(lower_seq(n), "brw"@) && hexish(
        n.skip(3),
    )) || is_one_of(lower_seq(n), junk_words())
}

fn hexish_exec(v: &[char], from: usize) -> (r: bool)
    requires
        from <= v.len(),
    ensures
        r == hexish(v@.skip(from as int)),
{
    if v.len() - from < 8 {
        return false;
    }
    let mut i: usize = from;
    while i < v.len()
        invariant
            from <= i <= v.len(),
            forall|k: int| from <= k < i ==> is_hex_digit(#[trigger] v@[k]) || v@[k] == '-',
        decreases v.len() - i,
    {
        if !(is_hex_digit_char(v[i]) || v[i] == '-') {
            assert(v@.skip(from as int)[i - from] == v@[i as int]);
            return false;
        }
        i += 1;
    }
    assert forall|k: int| 0 <= k < v@.skip(from as int).len() implies is_hex_digit(
        #[trigger] v@.skip(from as int)[k],
    ) || v@.skip(from as int)[k] == '-' by {
        assert(v@.skip(from as int)[k] == v@[from + k]);
    }
    true
}

pub fn is_junk_name(n: &str) -> (r: bool)
    ensures
        r == spec_is_junk_name(n@),
{
    let t = trim_str(n);
    let t = t.as_slice();
    assert(t@.skip(0) == t@);
    let l = lower_chars(t);
    let words: [&str; 5] = ["localhost", "wlan0", "eth0", "espressif", "unknown"];
    assert(strs(words@) == junk_words());
    t.len() == 0 || hexish_exec(t, 0) || (t.len() == 15 && starts_with_str(l.as_slice(), "brw")
        && hexish_exec(t, 3)) || is_one_of_exec(l.as_slice(), &words)
}

// ---------------------------------------------------------------------------
// Evidence from Bonjour
// ---------------------------------------------------------------------------

/// The TXT value of `key` under service `svc`.
pub open spec fn txt_of(m: MdnsInfo, svc: Seq<char>, key: Seq<char>) -> Option<Seq<char>> {
    match lookup(m.txt@, svc) {
        Some(t) => opt_view(lookup(t@, key)),
        None => None,
    }
}

pub open spec fn has_service(m: MdnsInfo, svc: Seq<char>) -> bool {
    lookup(m.services@, svc) is Some
}

/// Every service with TXT records is also listed among the services.
pub open spec fn txt_listed(m: MdnsInfo) -> bool {
    forall|k: Seq<char>| #[trigger] lookup(m.txt@, k) is Some ==> lookup(m.services@, k) is Some
}

/// The one record that Bonjour classification cannot read: nothing before the
/// HomeKit step decides, the `hap` TXT record has a category and a model, and
/// no `hap` service is listed to take the maker's name from.
pub open spec fn hap_unlisted(m: MdnsInfo) -> bool {
    let apple = apple_id_of(m);
    &&& !(apple is Some && spec_is_apple_id(apple.unwrap()))
    &&& txt_of(m, "googlecast"@, "md"@) is None
    &&& !is_printer(m)
    &&& hap_category(m) is Some
    &&& txt_of(m, "hap"@, "md"@) is Some
    &&& !has_service(m, "hap"@)
}

pub open spec fn device_wf(d: Device) -> bool {
    d.mdns matches Some(m) ==> !hap_unlisted(m)
}

pub open spec fn or_else(a: Option<Seq<char>>, b: Option<Seq<char>>) -> Option<Seq<char>> {
    if a is Some {
        a
    } else {
        b
    }
}

fn txt<'a>(m: &'a MdnsInfo, svc: &str, key: &str) -> (r: Option<&'a String>)
    ensures
        match txt_of(*m, svc@, key@) {
            Some(v) => r matches Some(x) && x@ == v,
            None => r is None,
        },
{
    match m.txt.get_str(svc) {
        Some(t) => t.get_str(key),
        None => None,
    }
}

fn or_else_ref<'a>(a: Option<&'a String>, b: Option<&'a String>) -> (r: Option<&'a String>)
    ensures
        r == (if a is Some {
            a
        } else {
            b
        }),
{
    match a {
        Some(x) => Some(x),
        None => b,
    }
}

pub open spec fn apple_id_of(m: MdnsInfo) -> Option<Seq<char>> {
    or_else(
        txt_of(m, "airplay"@, "model"@),
        or_else(
            txt_of(m, "raop"@, "am"@),
            or_else(txt_of(m, "companion-link"@, "rpmd"@), txt_of(m, "device-info"@, "model"@)),
        ),
    )
}

pub open spec fn cast_speaker_words() -> Seq<Seq<char>> {
    seq!["mini"@, "home"@, "speaker"@, "audio"@]
}

pub open spec fn cast_kind(md: Seq<char>) -> Seq<char> {
    let l = lower_seq(md);
    if contains_any(l, cast_speaker_words()) {
        "Speaker"@
    } else if contains(l, "hub"@) {
        "Smart display"@
    } else {
        "TV / streamer"@
    }
}

/// A Cast device (no Apple model announced) is typed by the model it
/// announces, read in lowercase: a speaker when it names a mini, home,
/// speaker or audio device; otherwise a smart display when it names a hub;
/// otherwise a TV or streamer. The announced model is the model.
pub proof fn lemma_cast_kinds(d: Device, m: MdnsInfo, md: Seq<char>)
    requires
        d.mdns == Some(m),
        txt_of(m, "googlecast"@, "md"@) == Some(md),
        txt_of(m, "airplay"@, "model"@) is None,
        txt_of(m, "raop"@, "am"@) is None,
        txt_of(m, "companion-link"@, "rpmd"@) is None,
        txt_of(m, "device-info"@, "model"@) is None,
    ensures
        spec_from_mdns(d) matches Some((_, model)) && model == Some(md),
        ({
            let l = lower_seq(md);
            let speaker = contains(l, "mini"@) || contains(l, "home"@) || contains(l, "speaker"@)
                || contains(l, "audio"@);
            &&& speaker ==> spec_from_mdns(d).unwrap().0 == "Speaker"@
            &&& !speaker && contains(l, "hub"@) ==> spec_from_mdns(d).unwrap().0 == "Smart display"@
            &&& !speaker && !contains(l, "hub"@) ==> spec_from_mdns(d).unwrap().0 == "TV / streamer"@
        }),
{
    let l = lower_seq(md);
    let ws = cast_speaker_words();
    assert(ws[0] == "mini"@ && ws[1] == "home"@ && ws[2] == "speaker"@ && ws[3] == "audio"@);
    if contains_any(l, ws) {
        let i = choose|i: int| 0 <= i < ws.len() && contains(l, #[trigger] ws[i]);
        if i == 0 {} else if i == 1 {} else if i == 2 {} else {}
    }
    if contains(l, "mini"@) {
        assert(contains(l, ws[0]));
    } else if contains(l, "home"@) {
        assert(contains(l, ws[1]));
    } else if contains(l, "speaker"@) {
        assert(contains(l, ws[2]));
    } else if contains(l, "audio"@) {
        assert(contains(l, ws[3]));
    }
}

pub open spec fn printer_services() -> Seq<Seq<char>> {
    seq!["ipp"@, "ipps"@, "printer"@, "pdl-datastream"@]
}

pub open spec fn is_printer(m: MdnsInfo) -> bool {
    exists|i: int| 0 <= i < 4 && has_service(m, #[trigger] printer_services()[i])
}

pub open spec fn printer_model(m: MdnsInfo) -> Option<Seq<char>> {
    or_else(
        txt_of(m, "ipp"@, "ty"@),
        or_else(
            txt_of(m, "ipps"@, "ty"@),
            or_else(txt_of(m, "printer"@, "ty"@), txt_of(m, "pdl-datastream"@, "ty"@)),
        ),
    )
}

/// The HomeKit category number, when the `ci` TXT value parses as a `u32`.
pub open spec fn hap_category(m: MdnsInfo) -> Option<nat> {
    match txt_of(m, "hap"@, "ci"@) {
        Some(c) => parse_uint(c, 10, 0xffff_ffff),
        None => None,
    }
}

/// The HomeKit model, prefixed with the maker the instance name starts with
/// unless the model already says it.
pub open spec fn hap_model(m: MdnsInfo) -> Option<Seq<char>> {
    match txt_of(m, "hap"@, "md"@) {
        None => None,
        Some(md) => {
            let instance = lookup(m.services@, "hap"@).unwrap()@;
            match spec_brand(instance) {
                Some(b) => if !contains(lower_seq(md), lower_seq(b)) {
                    Some(b + seq![' '] + md)
                } else {
                    Some(md)
                },
                None => Some(md),
            }
        },
    }
}

pub open spec fn spec_from_mdns_info(m: MdnsInfo) -> Option<(Seq<char>, Option<Seq<char>>)> {
    let apple = apple_id_of(m);
    if apple is Some && spec_is_apple_id(apple.unwrap()) {
        Some(spec_apple_model(apple.unwrap()))
    } else if txt_of(m, "googlecast"@, "md"@) is Some {
        let md = txt_of(m, "googlecast"@, "md"@).unwrap();
        Some((cast_kind(md), Some(md)))
    } else if is_printer(m) {
        Some(("Printer"@, printer_model(m)))
    } else if hap_category(m) is Some {
        Some((spec_homekit_category(hap_category(m).unwrap() as u32), hap_model(m)))
    } else if txt_of(m, "glinet"@, "mn"@) is Some {
        let mn = txt_of(m, "glinet"@, "mn"@).unwrap();
        let kind = if starts_with(mn, "rm"@) {
            "KVM"@
        } else {
            "Router"@
        };
        Some((kind, Some("GL.iNet "@ + upper_seq(mn))))
    } else {
        None
    }
}

pub open spec fn spec_from_mdns(d: Device) -> Option<(Seq<char>, Option<Seq<char>>)> {
    match d.mdns {
        Some(m) => spec_from_mdns_info(m),
        None => None,
    }
}

fn clone_opt(o: Option<&String>) -> (r: Option<String>)
    ensures
        opt_view(r) == (match o {
            Some(x) => Some(x@),
            None => None::<Seq<char>>,
        }),
{
    match o {
        Some(x) => Some(x.clone()),
        None => None,
    }
}

/// Model identifiers announced in Bonjour TXT records.
pub fn from_mdns(d: &Device) -> (r: Option<Id>)
    requires
        device_wf(*d),
    ensures
        opt_id_view(r) == spec_from_mdns(*d),
{
    let m = match &d.mdns {
        Some(m) => m,
        None => return None,
    };
    let apple = or_else_ref(
        txt(m, "airplay", "model"),
        or_else_ref(
            txt(m, "raop", "am"),
            or_else_ref(txt(m, "companion-link", "rpmd"), txt(m, "device-info", "model")),
        ),
    );
    if let Some(id) = apple {
        if is_apple_id(id.as_str()) {
            return Some(apple_model(id.as_str()));
        }
    }
    if let Some(md) = txt(m, "googlecast", "md") {
        let lower = lower_str(md.as_str());
        let words: [&str; 4] = ["mini", "home", "speaker", "audio"];
        assert(strs(words@) == cast_speaker_words());
        let kind = if contains_any_of(lower.as_slice(), &words) {
            "Speaker"
        } else if contains_str(lower.as_slice(), "hub") {
            "Smart display"
        } else {
            "TV / streamer"
        };
        return Some((kind, Some(md.clone())));
    }
    if m.services.contains_key("ipp") || m.services.contains_key("ipps") || m.services.contains_key(
        "printer",
    ) || m.services.contains_key("pdl-datastream") {
        let model = or_else_ref(
            txt(m, "ipp", "ty"),
            or_else_ref(
                txt(m, "ipps", "ty"),
                or_else_ref(txt(m, "printer", "ty"), txt(m, "pdl-datastream", "ty")),
            ),
        );
        proof {
            if has_service(*m, "ipp"@) {
                assert(has_service(*m, printer_services()[0]));
            } else if has_service(*m, "ipps"@) {
                assert(has_service(*m, printer_services()[1]));
            } else if has_service(*m, "printer"@) {
                assert(has_service(*m, printer_services()[2]));
            } else {
                assert(has_service(*m, printer_services()[3]));
            }
        }
        return Some(("Printer", clone_opt(model)));
    }
    assert(!is_printer(*m)) by {
        assert forall|i: int| 0 <= i < 4 implies !has_service(*m, #[trigger] printer_services()[i]) by {
            if i == 0 {} else if i == 1 {} else if i == 2 {} else {}
        }
    }
    let ci = match txt(m, "hap", "ci") {
        Some(c) => {
            let cv = chars_of(c.as_str());
            parse_uint_of(cv.as_slice(), 10, 0xffff_ffff)
        },
        None => None,
    };
    if let Some(ci) = ci {
        let model = match txt(m, "hap", "md") {
            None => None,
            Some(md) => {
                assert(has_service(*m, "hap"@));
                let instance = m.services.get_str("hap").unwrap();
                match brand(instance.as_str()) {
                    Some(b) => {
                        let ml = lower_str(md.as_str());
                        let bl = lower_str(b);
                        if !crate::text::contains_chars(ml.as_slice(), bl.as_slice()) {
                            let bv = chars_of(b);
                            let mv = chars_of(md.as_str());
                            Some(join_space(bv.as_slice(), mv.as_slice()))
                        } else {
                            Some(md.clone())
                        }
                    },
                    None => Some(md.clone()),
                }
            },
        };
        return Some((homekit_category(ci as u32), model));
    }
    if let Some(mn) = txt(m, "glinet", "mn") {
        let mv = chars_of(mn.as_str());
        let mut model: Vec<char> = Vec::new();
        push_str(&mut model, "GL.iNet ");
        let up = upper_chars(mv.as_slice());
        push_all(&mut model, up.as_slice());
        let kind = if starts_with_str(mv.as_slice(), "rm") {
            "KVM"
        } else {
            "Router"
        };
        return Some((kind, Some(string_of(model.as_slice()))));
    }
    None
}

// ---------------------------------------------------------------------------
// Evidence from UPnP
// ---------------------------------------------------------------------------

pub open spec fn or_empty(o: Option<String>) -> Seq<char> {
    match o {
        Some(s) => s@,
        None => Seq::empty(),
    }
}

pub open spec fn nas_makers() -> Seq<Seq<char>> {
    seq!["synology"@, "qnap"@, "asustor"@, "ugreen"@, "terramaster"@]
}

/// The UPnP model name, prefixed with the manufacturer unless it starts with it.
pub open spec fn ssdp_model(s: crate::device::SsdpInfo) -> Option<Seq<char>> {
    let maker = or_empty(s.manufacturer);
    match s.model_name {
        None => None,
        Some(m) => if maker.len() == 0 || starts_with(lower_seq(m@), lower_seq(maker)) {
            Some(m@)
        } else {
            Some(maker + seq![' '] + m@)
        },
    }
}

pub open spec fn spec_from_ssdp(d: Device) -> Option<(Seq<char>, Option<Seq<char>>)> {
    match d.ssdp {
        None => None,
        Some(s) => {
            let dt = lower_seq(or_empty(s.device_type));
            let lm = lower_seq(or_empty(s.manufacturer));
            let model = ssdp_model(s);
            if contains(dt, "internetgatewaydevice"@) || contains(dt, "wfadevice"@) {
                Some(("Router"@, model))
            } else if contains_any(lm, nas_makers()) {
                Some(("NAS"@, model))
            } else if contains(lm, "sonos"@) {
                Some(("Speaker"@, model))
            } else if contains(dt, "mediarenderer"@) {
                Some(("TV / streamer"@, model))
            } else if contains(dt, "mediaserver"@) {
                Some(("Media server"@, model))
            } else if contains(lm, "philips"@) || contains(lm, "signify"@) {
                Some(("Smart home hub"@, model))
            } else if model is Some {
                Some(("UPnP device"@, model))
            } else {
                None
            }
        },
    }
}

fn chars_or_empty(o: &Option<String>) -> (r: Vec<char>)
    ensures
        r@ == or_empty(*o),
{
    match o {
        Some(s) => chars_of(s.as_str()),
        None => Vec::new(),
    }
}

/// Manufacturer, model and device type from a UPnP description.
pub fn from_ssdp(d: &Device) -> (r: Option<Id>)
    ensures
        opt_id_view(r) == spec_from_ssdp(*d),
{
    let s = match &d.ssdp {
        Some(s) => s,
        None => return None,
    };
    let dtv = chars_or_empty(&s.device_type);
    let dt = lower_chars(dtv.as_slice());
    let maker = chars_or_empty(&s.manufacturer);
    let lm = lower_chars(maker.as_slice());
    let model: Option<String> = match &s.model_name {
        None => None,
        Some(m) => {
            let mv = chars_of(m.as_str());
            let ml = lower_chars(mv.as_slice());
            if maker.len() == 0 || starts_with_chars(ml.as_slice(), lm.as_slice()) {
                Some(m.clone())
            } else {
                Some(join_space(maker.as_slice(), mv.as_slice()))
            }
        },
    };
    let makers: [&str; 5] = ["synology", "qnap", "asustor", "ugreen", "terramaster"];
    assert(strs(makers@) == nas_makers());
    let dt = dt.as_slice();
    let lm = lm.as_slice();
    let kind = if contains_str(dt, "internetgatewaydevice") || contains_str(dt, "wfadevice") {
        "Router"
    } else if contains_any_of(lm, &makers) {
        "NAS"
    } else if contains_str(lm, "sonos") {
        "Speaker"
    } else if contains_str(dt, "mediarenderer") {
        "TV / streamer"
    } else if contains_str(dt, "mediaserver") {
        "Media server"
    } else if contains_str(lm, "philips") || contains_str(lm, "signify") {
        "Smart home hub"
    } else if model.is_some() {
        "UPnP device"
    } else {
        return None;
    };
    Some((kind, model))
}

// ---------------------------------------------------------------------------
// Naming conventions
// ---------------------------------------------------------------------------

/// How many characters precede the first `.` or space.
pub open spec fn label_len(n: Seq<char>) -> nat
    decreases n.len(),
{
    if n.len() == 0 || n[0] == '.' || n[0] == ' ' {
        0
    } else {
        1 + label_len(n.drop_first())
    }
}

/// The part of a name before its first `.` or space.
pub open spec fn first_label(n: Seq<char>) -> Seq<char> {
    n.take(label_len(n) as int)
}

proof fn lemma_label_len(n: Seq<char>)
    ensures
        label_len(n) <= n.len(),
    decreases n.len(),
{
    if n.len() > 0 && n[0] != '.' && n[0] != ' ' {
        lemma_label_len(n.drop_first());
    }
}

/// What a (lowercase) host or device name says about the device.
pub open spec fn name_convention(n: Seq<char>) -> Option<(Seq<char>, Option<Seq<char>>)> {
    let has = |x: Seq<char>| contains(n, x);
    if has("bitaxe"@) {
        Some(named("Bitcoin miner"@, "Bitaxe"@))
    } else if has("nerdqaxe"@) {
        Some(named("Bitcoin miner"@, "NerdQAxe"@))
    } else if has("nerdminer"@) || has("antminer"@) || has("avalon"@) {
        Some(bare("Bitcoin miner"@))
    } else if has("umbrel"@) {
        Some(named("Home server"@, "Umbrel"@))
    } else if has("awair"@) {
        Some(named("Air monitor"@, if has("elem"@) { "Awair Element"@ } else { "Awair"@ }))
    } else if has("switchbot"@) {
        Some(named("Smart home hub"@, if has("hub-2"@) { "SwitchBot Hub 2"@ } else { "SwitchBot"@ }))
    } else if has("blink"@) {
        Some(named("Camera"@, if has("mini"@) { "Blink Mini"@ } else { "Blink"@ }))
    } else if has("wyze"@) {
        Some(named("Camera"@, "Wyze"@))
    } else if has("ring-"@) || starts_with(n, "ring"@) {
        Some(named("Doorbell / camera"@, "Ring"@))
    } else if has("shelly"@) {
        Some(named("Smart relay"@, "Shelly"@))
    } else if has("tasmota"@) || has("esphome"@) || starts_with(n, "esp-"@) || starts_with(n, "esp32"@) {
        Some(bare("IoT device"@))
    } else if has("homeassistant"@) || has("home-assistant"@) {
        Some(named("Home automation"@, "Home Assistant"@))
    } else if has("raspberrypi"@) {
        Some(named("Computer"@, "Raspberry Pi"@))
    } else if has("iphone"@) {
        Some(named("Phone"@, "iPhone"@))
    } else if has("ipad"@) {
        Some(named("Tablet"@, "iPad"@))
    } else if has("macbook"@) || has("imac"@) || has("mac-mini"@) || has("macmini"@) {
        Some(named("Computer"@, "Mac"@))
    } else if starts_with(n, "desktop-"@) || starts_with(n, "laptop-"@) {
        Some(named("Computer"@, "Windows PC"@))
    } else if has("android"@) || has("galaxy"@) || has("pixel"@) {
        Some(bare("Phone"@))
    } else if has("roku"@) {
        Some(named("TV / streamer"@, "Roku"@))
    } else if has("firetv"@) || has("fire-tv"@) {
        Some(named("TV / streamer"@, "Fire TV"@))
    } else if has("echo"@) {
        Some(named("Speaker"@, "Amazon Echo"@))
    } else if has("sonos"@) {
        Some(named("Speaker"@, "Sonos"@))
    } else if has("xbox"@) {
        Some(named("Game console"@, "Xbox"@))
    } else if has("playstation"@) || starts_with(n, "ps4"@) || starts_with(n, "ps5"@) {
        Some(named("Game console"@, "PlayStation"@))
    } else if has("nintendo"@) {
        Some(named("Game console"@, "Nintendo"@))
    } else if has("diskstation"@) || has("synology"@) || has("nas"@) {
        Some(bare("NAS"@))
    } else if has("kvm"@) {
        Some(bare("KVM"@))
    } else if has("printer"@) || starts_with(n, "brw"@) || starts_with(n, "epson"@) {
        Some(bare("Printer"@))
    } else {
        None
    }
}

/// A Kasa model number in the first label of the name, else a naming convention.
pub open spec fn name_rule(n: Seq<char>) -> Option<(Seq<char>, Option<Seq<char>>)> {
    match spec_kasa_model(first_label(n)) {
        Some(model) => {
            let kind = if starts_with(model, "KL"@) || starts_with(model, "LB"@) {
                "Smart light"@
            } else {
                "Smart plug"@
            };
            Some((kind, Some("TP-Link Kasa "@ + model)))
        },
        None => name_convention(n),
    }
}

/// The first of `names[i..]` that a rule recognizes.
pub open spec fn first_rule(names: Seq<Seq<char>>, i: int) -> Option<
    (Seq<char>, Option<Seq<char>>),
>
    decreases names.len() - i,
{
    if i < 0 || i >= names.len() {
        None
    } else {
        match name_rule(names[i]) {
            Some(x) => Some(x),
            None => first_rule(names, i + 1),
        }
    }
}

pub open spec fn opt_seq(o: Option<Seq<char>>) -> Seq<Seq<char>> {
    match o {
        Some(x) => seq![lower_seq(x)],
        None => Seq::empty(),
    }
}

/// The reverse DNS name, the Bonjour host name and the device's name, lowercase.
pub open spec fn names_of(d: Device, name: Option<Seq<char>>) -> Seq<Seq<char>> {
    let mdns_host = match d.mdns {
        Some(m) => opt_view(m.hostname),
        None => None,
    };
    opt_seq(opt_view(d.hostname)) + opt_seq(mdns_host) + opt_seq(name)
}

pub open spec fn spec_from_names(d: Device, name: Option<Seq<char>>) -> Option<
    (Seq<char>, Option<Seq<char>>),
> {
    first_rule(names_of(d, name), 0)
}

fn name_convention_exec(n: &[char]) -> (r: Option<Id>)
    ensures
        opt_id_view(r) == name_convention(n@),
{
    if contains_str(n, "bitaxe") {
        Some(named_id("Bitcoin miner", "Bitaxe"))
    } else if contains_str(n, "nerdqaxe") {
        Some(named_id("Bitcoin miner", "NerdQAxe"))
    } else if contains_str(n, "nerdminer") || contains_str(n, "antminer") || contains_str(n, "avalon") {
        Some(bare_id("Bitcoin miner"))
    } else if contains_str(n, "umbrel") {
        Some(named_id("Home server", "Umbrel"))
    } else if contains_str(n, "awair") {
        Some(named_id("Air monitor", if contains_str(n, "elem") { "Awair Element" } else { "Awair" }))
    } else if contains_str(n, "switchbot") {
        Some(named_id("Smart home hub", if contains_str(n, "hub-2") { "SwitchBot Hub 2" } else { "SwitchBot" }))
    } else if contains_str(n, "blink") {
        Some(named_id("Camera", if contains_str(n, "mini") { "Blink Mini" } else { "Blink" }))
    } else if contains_str(n, "wyze") {
        Some(named_id("Camera", "Wyze"))
    } else if contains_str(n, "ring-") || starts_with_str(n, "ring") {
        Some(named_id("Doorbell / camera", "Ring"))
    } else if contains_str(n, "shelly") {
        Some(named_id("Smart relay", "Shelly"))
    } else if contains_str(n, "tasmota") || contains_str(n, "esphome") || starts_with_str(n, "esp-")
        || starts_with_str(n, "esp32") {
        Some(bare_id("IoT device"))
    } else if contains_str(n, "homeassistant") || contains_str(n, "home-assistant") {
        Some(named_id("Home automation", "Home Assistant"))
    } else if contains_str(n, "raspberrypi") {
        Some(named_id("Computer", "Raspberry Pi"))
    } else if contains_str(n, "iphone") {
        Some(named_id("Phone", "iPhone"))
    } else if contains_str(n, "ipad") {
        Some(named_id("Tablet", "iPad"))
    } else if contains_str(n, "macbook") || contains_str(n, "imac") || contains_str(n, "mac-mini")
        || contains_str(n, "macmini") {
        Some(named_id("Computer", "Mac"))
    } else if starts_with_str(n, "desktop-") || starts_with_str(n, "laptop-") {
        Some(named_id("Computer", "Windows PC"))
    } else if contains_str(n, "android") || contains_str(n, "galaxy") || contains_str(n, "pixel") {
        Some(bare_id("Phone"))
    } else if contains_str(n, "roku") {
        Some(named_id("TV / streamer", "Roku"))
    } else if contains_str(n, "firetv") || contains_str(n, "fire-tv") {
        Some(named_id("TV / streamer", "Fire TV"))
    } else if contains_str(n, "echo") {
        Some(named_id("Speaker", "Amazon Echo"))
    } else if contains_str(n, "sonos") {
        Some(named_id("Speaker", "Sonos"))
    } else if contains_str(n, "xbox") {
        Some(named_id("Game console", "Xbox"))
    } else if contains_str(n, "playstation") || starts_with_str(n, "ps4") || starts_with_str(n, "ps5") {
        Some(named_id("Game console", "PlayStation"))
    } else if contains_str(n, "nintendo") {
        Some(named_id("Game console", "Nintendo"))
    } else if contains_str(n, "diskstation") || contains_str(n, "synology") || contains_str(n, "nas") {
        Some(bare_id("NAS"))
    } else if contains_str(n, "kvm") {
        Some(bare_id("KVM"))
    } else if contains_str(n, "printer") || starts_with_str(n, "brw") || starts_with_str(n, "epson") {
        Some(bare_id("Printer"))
    } else {
        None
    }
}

fn name_rule_exec(n: &[char]) -> (r: Option<Id>)
    ensures
        opt_id_view(r) == name_rule(n@),
{
    let mut k: usize = 0;
    assert(n@.skip(0) == n@);
    while k < n.len() && n[k] != '.' && n[k] != ' '
        invariant
            k <= n.len(),
            label_len(n@) == k + label_len(n@.skip(k as int)),
        decreases n.len() - k,
    {
        assert(n@.skip(k as int).drop_first() == n@.skip(k + 1));
        k += 1;
    }
    let first = slice_chars(n, 0, k);
    let fs = string_of(first.as_slice());
    match kasa_model(fs.as_str()) {
        Some(model) => {
            let mv = chars_of(model.as_str());
            let kind = if starts_with_str(mv.as_slice(), "KL") || starts_with_str(mv.as_slice(), "LB") {
                "Smart light"
            } else {
                "Smart plug"
            };
            let mut out: Vec<char> = Vec::new();
            push_str(&mut out, "TP-Link Kasa ");
            push_all(&mut out, mv.as_slice());
            Some((kind, Some(string_of(out.as_slice()))))
        },
        None => name_convention_exec(n),
    }
}

fn push_lower(names: &mut Vec<Vec<char>>, o: &Option<String>)
    ensures
        crate::text::views(final(names)@) == crate::text::views(old(names)@) + opt_seq(
            opt_view(*o),
        ),
{
    if let Some(x) = o {
        let l = lower_str(x.as_str());
        names.push(l);
        assert(crate::text::views(names@) == crate::text::views(old(names)@) + seq![l@]);
    } else {
        assert(crate::text::views(names@) == crate::text::views(old(names)@) + Seq::<Seq<char>>::empty());
    }
}

/// Naming conventions: many devices ship with a hostname that says what they are.
pub fn from_names(d: &Device) -> (r: Option<Id>)
    ensures
        opt_id_view(r) == spec_from_names(*d, opt_view(d.name)),
{
    let mut names: Vec<Vec<char>> = Vec::new();
    push_lower(&mut names, &d.hostname);
    match &d.mdns {
        Some(m) => push_lower(&mut names, &m.hostname),
        None => push_lower(&mut names, &None),
    }
    push_lower(&mut names, &d.name);
    let ghost all = crate::text::views(names@);
    assert(all == names_of(*d, opt_view(d.name)));
    let mut i: usize = 0;
    while i < names.len()
        invariant
            i <= names.len(),
            all == crate::text::views(names@),
            all == names_of(*d, opt_view(d.name)),
            first_rule(all, 0) == first_rule(all, i as int),
        decreases names.len() - i,
    {
        assert(all[i as int] == names@[i as int]@);
        let r = name_rule_exec(names[i].as_slice());
        assert(i < all.len());
        if r.is_some() {
            assert(first_rule(all, i as int) == opt_id_view(r));
            return r;
        }
        i += 1;
    }
    None
}

// ---------------------------------------------------------------------------
// Web banners, advertised services, open ports, vendors
// ---------------------------------------------------------------------------

pub open spec fn spec_from_http(d: Device) -> Option<(Seq<char>, Option<Seq<char>>)> {
    match d.http {
        None => None,
        Some(h) => {
            let server = lower_seq(or_empty(h.server));
            let title = lower_seq(or_empty(h.title));
            if starts_with(server, "ship"@) {
                Some(named("Smart plug"@, "TP-Link Kasa"@))
            } else if contains(title, "axeos"@) {
                Some(named("Bitcoin miner"@, "Bitaxe"@))
            } else if contains(title, "nerd"@) && contains(title, "dashboard"@) {
                Some(named("Bitcoin miner"@, "NerdQAxe"@))
            } else if contains(title, "umbrel"@) {
                Some(named("Home server"@, "Umbrel"@))
            } else if contains(title, "synology"@) || contains(title, "diskstation"@) {
                Some(named("NAS"@, "Synology"@))
            } else if contains(title, "home assistant"@) {
                Some(named("Home automation"@, "Home Assistant"@))
            } else if contains(title, "pi-hole"@) {
                Some(named("DNS server"@, "Pi-hole"@))
            } else if contains(title, "unifi"@) {
                Some(named("Network gear"@, "UniFi"@))
            } else {
                None
            }
        },
    }
}

/// The `Server` header and page title of the device's web UI.
pub fn from_http(d: &Device) -> (r: Option<Id>)
    ensures
        opt_id_view(r) == spec_from_http(*d),
{
    let h = match &d.http {
        Some(h) => h,
        None => return None,
    };
    let sv = chars_or_empty(&h.server);
    let server = lower_chars(sv.as_slice());
    let tv = chars_or_empty(&h.title);
    let title = lower_chars(tv.as_slice());
    let t = title.as_slice();
    if starts_with_str(server.as_slice(), "ship") {
        Some(named_id("Smart plug", "TP-Link Kasa"))
    } else if contains_str(t, "axeos") {
        Some(named_id("Bitcoin miner", "Bitaxe"))
    } else if contains_str(t, "nerd") && contains_str(t, "dashboard") {
        Some(named_id("Bitcoin miner", "NerdQAxe"))
    } else if contains_str(t, "umbrel") {
        Some(named_id("Home server", "Umbrel"))
    } else if contains_str(t, "synology") || contains_str(t, "diskstation") {
        Some(named_id("NAS", "Synology"))
    } else if contains_str(t, "home assistant") {
        Some(named_id("Home automation", "Home Assistant"))
    } else if contains_str(t, "pi-hole") {
        Some(named_id("DNS server", "Pi-hole"))
    } else if contains_str(t, "unifi") {
        Some(named_id("Network gear", "UniFi"))
    } else {
        None
    }
}

pub open spec fn spec_from_services(d: Device) -> Option<(Seq<char>, Option<Seq<char>>)> {
    match d.mdns {
        None => None,
        Some(m) => {
            let has = |x: Seq<char>| has_service(m, x);
            if has("adisk"@) || has("nut"@) {
                Some(bare("NAS"@))
            } else if has("home-assistant"@) {
                Some(named("Home automation"@, "Home Assistant"@))
            } else if has("spotify-connect"@) || has("sonos"@) || has("raop"@) {
                Some(bare("Speaker"@))
            } else if has("smb"@) || has("afpovertcp"@) {
                Some(bare("Server"@))
            } else if has("androidtvremote2"@) || has("amzn-wplay"@) || has("nvstream"@) {
                Some(bare("TV / streamer"@))
            } else if has("matter"@) || has("hap"@) || has("hue"@) || has("esphomelib"@) {
                Some(bare("Smart home"@))
            } else if has("workstation"@) || has("ssh"@) || has("sftp-ssh"@) {
                Some(bare("Computer"@))
            } else {
                None
            }
        },
    }
}

/// Which Bonjour services the device advertises.
pub fn from_services(d: &Device) -> (r: Option<Id>)
    ensures
        opt_id_view(r) == spec_from_services(*d),
{
    let m = match &d.mdns {
        Some(m) => m,
        None => return None,
    };
    let s = &m.services;
    if s.contains_key("adisk") || s.contains_key("nut") {
        Some(bare_id("NAS"))
    } else if s.contains_key("home-assistant") {
        Some(named_id("Home automation", "Home Assistant"))
    } else if s.contains_key("spotify-connect") || s.contains_key("sonos") || s.contains_key("raop") {
        Some(bare_id("Speaker"))
    } else if s.contains_key("smb") || s.contains_key("afpovertcp") {
        Some(bare_id("Server"))
    } else if s.contains_key("androidtvremote2") || s.contains_key("amzn-wplay") || s.contains_key(
        "nvstream",
    ) {
        Some(bare_id("TV / streamer"))
    } else if s.contains_key("matter") || s.contains_key("hap") || s.contains_key("hue")
        || s.contains_key("esphomelib") {
        Some(bare_id("Smart home"))
    } else if s.contains_key("workstation") || s.contains_key("ssh") || s.contains_key("sftp-ssh") {
        Some(bare_id("Computer"))
    } else {
        None
    }
}

pub open spec fn spec_from_ports(d: Device) -> Option<(Seq<char>, Option<Seq<char>>)> {
    let has = |p: u16| d.open_ports@.contains(p);
    if has(62078) {
        if has(7000) {
            Some(named("Apple device"@, "Apple TV / HomePod"@))
        } else {
            Some(named("Phone / tablet"@, "iPhone / iPad"@))
        }
    } else if has(9100) {
        Some(bare("Printer"@))
    } else if has(8008) {
        Some(named("TV / streamer"@, "Chromecast"@))
    } else if has(7000) {
        Some(bare("AirPlay device"@))
    } else if has(445) {
        Some(bare("Computer / NAS"@))
    } else if has(22) {
        Some(bare("Computer"@))
    } else {
        None
    }
}

/// Whether `ports` holds `p`.
pub fn has_port(ports: &[u16], p: u16) -> (r: bool)
    ensures
        r == ports@.contains(p),
{
    let mut i: usize = 0;
    while i < ports.len()
        invariant
            i <= ports.len(),
            forall|j: int| 0 <= j < i ==> ports@[j] != p,
        decreases ports.len() - i,
    {
        if ports[i] == p {
            assert(ports@[i as int] == p);
            return true;
        }
        i += 1;
    }
    false
}

/// Which of the probed ports are open.
pub fn from_ports(d: &Device) -> (r: Option<Id>)
    ensures
        opt_id_view(r) == spec_from_ports(*d),
{
    let p = d.open_ports.as_slice();
    if has_port(p, 62078) {
        if has_port(p, 7000) {
            Some(named_id("Apple device", "Apple TV / HomePod"))
        } else {
            Some(named_id("Phone / tablet", "iPhone / iPad"))
        }
    } else if has_port(p, 9100) {
        Some(bare_id("Printer"))
    } else if has_port(p, 8008) {
        Some(named_id("TV / streamer", "Chromecast"))
    } else if has_port(p, 7000) {
        Some(bare_id("AirPlay device"))
    } else if has_port(p, 445) {
        Some(bare_id("Computer / NAS"))
    } else if has_port(p, 22) {
        Some(bare_id("Computer"))
    } else {
        None
    }
}

pub open spec fn printer_makers() -> Seq<Seq<char>> {
    seq!["brother"@, "canon"@, "seiko epson"@]
}

pub open spec fn vendor_kind(l: Seq<char>) -> Option<Seq<char>> {
    if contains(l, "raspberry"@) {
        Some("Computer"@)
    } else if contains(l, "espressif"@) || contains(l, "tuya"@) {
        Some("IoT device"@)
    } else if contains(l, "sonos"@) {
        Some("Speaker"@)
    } else if contains(l, "roku"@) {
        Some("TV / streamer"@)
    } else if contains(l, "nintendo"@) || contains(l, "sony interactive"@) {
        Some("Game console"@)
    } else if contains(l, "synology"@) || contains(l, "qnap"@) {
        Some("NAS"@)
    } else if contains(l, "ubiquiti"@) || contains(l, "netgear"@) || contains(l, "eero"@) {
        Some("Network gear"@)
    } else if contains(l, "ecobee"@) || contains(l, "nest"@) {
        Some("Thermostat"@)
    } else if contains(l, "signify"@) || contains(l, "philips lighting"@) {
        Some("Smart home hub"@)
    } else if contains_any(l, printer_makers()) {
        Some("Printer"@)
    } else if contains(l, "ring"@) {
        Some("Doorbell / camera"@)
    } else if contains(l, "apple"@) {
        Some("Apple device"@)
    } else if contains(l, "amazon"@) {
        Some("Amazon device"@)
    } else if contains(l, "google"@) {
        Some("Google device"@)
    } else {
        None
    }
}

pub open spec fn spec_from_vendor(d: Device) -> Option<(Seq<char>, Option<Seq<char>>)> {
    if d.vendor is None && d.randomized_mac {
        Some(bare("Phone / laptop"@))
    } else {
        match d.vendor {
            None => None,
            Some(v) => match vendor_kind(lower_seq(v@)) {
                Some(k) => Some((k, Some(v@))),
                None => None,
            },
        }
    }
}

/// The MAC vendor, or a private address (phones and laptops use per-network
/// random MACs; appliances don't).
pub fn from_vendor(d: &Device) -> (r: Option<Id>)
    ensures
        opt_id_view(r) == spec_from_vendor(*d),
{
    if d.vendor.is_none() && d.randomized_mac {
        return Some(bare_id("Phone / laptop"));
    }
    let v = match &d.vendor {
        Some(v) => v,
        None => return None,
    };
    let lv = lower_str(v.as_str());
    let l = lv.as_slice();
    let makers: [&str; 3] = ["brother", "canon", "seiko epson"];
    assert(strs(makers@) == printer_makers());
    let kind = if contains_str(l, "raspberry") {
        "Computer"
    } else if contains_str(l, "espressif") || contains_str(l, "tuya") {
        "IoT device"
    } else if contains_str(l, "sonos") {
        "Speaker"
    } else if contains_str(l, "roku") {
        "TV / streamer"
    } else if contains_str(l, "nintendo") || contains_str(l, "sony interactive") {
        "Game console"
    } else if contains_str(l, "synology") || contains_str(l, "qnap") {
        "NAS"
    } else if contains_str(l, "ubiquiti") || contains_str(l, "netgear") || contains_str(l, "eero") {
        "Network gear"
    } else if contains_str(l, "ecobee") || contains_str(l, "nest") {
        "Thermostat"
    } else if contains_str(l, "signify") || contains_str(l, "philips lighting") {
        "Smart home hub"
    } else if contains_any_of(l, &makers) {
        "Printer"
    } else if contains_str(l, "ring") {
        "Doorbell / camera"
    } else if contains_str(l, "apple") {
        "Apple device"
    } else if contains_str(l, "amazon") {
        "Amazon device"
    } else if contains_str(l, "google") {
        "Google device"
    } else {
        return None;
    };
    Some((kind, Some(v.clone())))
}

// ---------------------------------------------------------------------------
// Names
// ---------------------------------------------------------------------------

pub open spec fn name_services() -> Seq<Seq<char>> {
    seq![
        "device-info"@,
        "airplay"@,
        "companion-link"@,
        "raop"@,
        "hap"@,
        "smb"@,
        "home-assistant"@,
        "ipp"@,
        "printer"@,
    ]
}

/// The instance name of the first of `name_services()[i..end]` the device
/// advertises.
pub open spec fn first_service(m: MdnsInfo, i: int, end: int) -> Option<Seq<char>>
    decreases end - i,
{
    if i < 0 || i >= end || end > 9 {
        None
    } else {
        match lookup(m.services@, name_services()[i]) {
            Some(n) => Some(n@),
            None => first_service(m, i + 1, end),
        }
    }
}

/// Where the generic services start in `name_services()`: those before it
/// carry a name someone set in an app.
pub open spec fn generic_from() -> int {
    5
}

/// RAOP instances are `<MAC>@<name>`: the part after the last `@`.
pub open spec fn after_at(n: Seq<char>) -> Seq<char> {
    match crate::text::rfind_char(n, '@') {
        Some(i) => n.skip(i + 1),
        None => n,
    }
}

/// The name taken from a service instance is what follows its last `@`
/// (RAOP instances are `<MAC>@<name>`): a suffix of the instance, right
/// after an `@`, holding no `@`; an instance without `@` is taken whole.
pub proof fn lemma_after_at(n: Seq<char>)
    ensures
        !after_at(n).contains('@'),
        n.contains('@') ==> after_at(n).len() < n.len() && n[n.len() - after_at(n).len() - 1] == '@'
            && n.skip(n.len() - after_at(n).len()) == after_at(n),
        !n.contains('@') ==> after_at(n) == n,
{
    crate::text::lemma_rfind_before(n, '@', n.len() as int);
    let r = after_at(n);
    match crate::text::rfind_char(n, '@') {
        Some(i) => {
            assert(r == n.skip(i + 1));
            if r.contains('@') {
                let k = choose|k: int| 0 <= k < r.len() && r[k] == '@';
                assert(n[k + i + 1] == '@');
            }
        },
        None => {
            if n.contains('@') {
                let k = choose|k: int| 0 <= k < n.len() && n[k] == '@';
            }
        },
    }
}

/// The part of a host name before its first dot.
pub open spec fn host_part(h: Seq<char>) -> Seq<char> {
    match find(h, seq!['.']) {
        Some(i) => h.take(i),
        None => h,
    }
}

/// A name set in the device's app: a Cast friendly name, else the instance
/// name of its first AirPlay, HomeKit or similar service.
pub open spec fn service_name(d: Device) -> Option<Seq<char>> {
    match d.mdns {
        None => None,
        Some(m) => match txt_of(m, "googlecast"@, "fn"@) {
            Some(f) => Some(f),
            None => match first_service(m, 0, generic_from()) {
                Some(n) => Some(after_at(n)),
                None => None,
            },
        },
    }
}

/// The instance name of its first generic service: a file share, a printer
/// queue.
pub open spec fn generic_service_name(d: Device) -> Option<Seq<char>> {
    match d.mdns {
        None => None,
        Some(m) => match first_service(m, generic_from(), 9) {
            Some(n) => Some(after_at(n)),
            None => None,
        },
    }
}

/// The primary `.local` host name, kept whole; left out when its host part is
/// machine-generated.
pub open spec fn local_name(d: Device) -> Option<Seq<char>> {
    match d.mdns {
        Some(m) => match m.hostname {
            Some(h) => if spec_is_junk_name(host_part(h@)) {
                None
            } else {
                Some(h@)
            },
            None => None,
        },
        None => None,
    }
}

pub open spec fn opt_host(o: Option<String>) -> Option<Seq<char>> {
    match o {
        Some(h) => Some(host_part(h@)),
        None => None,
    }
}

/// The name sources, friendliest first: a name set in an app, the `.local`
/// host name, a generic service or UPnP name, then the host part of the DNS
/// name.
pub open spec fn name_candidates(d: Device) -> Seq<Option<Seq<char>>> {
    let ssdp_name = match d.ssdp {
        Some(s) => opt_view(s.friendly_name),
        None => None,
    };
    seq![service_name(d), local_name(d), generic_service_name(d), ssdp_name, opt_host(d.hostname)]
}

/// The first of `c[i..]` that is present and not junk.
pub open spec fn first_good(c: Seq<Option<Seq<char>>>, i: int) -> Option<Seq<char>>
    decreases c.len() - i,
{
    if i < 0 || i >= c.len() {
        None
    } else {
        match c[i] {
            Some(x) => if !spec_is_junk_name(x) {
                Some(x)
            } else {
                first_good(c, i + 1)
            },
            None => first_good(c, i + 1),
        }
    }
}

pub open spec fn spec_name(d: Device) -> Option<Seq<char>> {
    first_good(name_candidates(d), 0)
}

proof fn lemma_first_good(c: Seq<Option<Seq<char>>>, i: int)
    ensures
        first_good(c, i) matches Some(x) ==> !spec_is_junk_name(x),
    decreases c.len() - i,
{
    if 0 <= i < c.len() {
        lemma_first_good(c, i + 1);
    }
}

fn after_at_exec(n: &[char]) -> (r: Vec<char>)
    ensures
        r@ == after_at(n@),
{
    proof {
        crate::text::lemma_rfind_before(n@, '@', n@.len() as int);
    }
    match crate::text::rfind_char_exec(n, '@') {
        Some(i) => {
            assert(i < n.len());
            slice_chars(n, i + 1, n.len())
        },
        None => slice_chars(n, 0, n.len()),
    }
}

fn host_part_exec(h: &String) -> (r: Vec<char>)
    ensures
        r@ == host_part(h@),
{
    let v = chars_of(h.as_str());
    match crate::text::find_char(v.as_slice(), '.') {
        Some(i) => {
            proof {
                lemma_contains(v@, seq!['.']);
            }
            slice_chars(v.as_slice(), 0, i)
        },
        None => v,
    }
}

fn first_service_exec(m: &MdnsInfo, start: usize, end: usize) -> (r: Option<Vec<char>>)
    requires
        start <= end <= 9,
    ensures
        match first_service(*m, start as int, end as int) {
            Some(n) => r matches Some(v) && v@ == after_at(n),
            None => r is None,
        },
{
    let svcs: [&str; 9] = [
        "device-info",
        "airplay",
        "companion-link",
        "raop",
        "hap",
        "smb",
        "home-assistant",
        "ipp",
        "printer",
    ];
    assert(strs(svcs@) == name_services());
    let mut i: usize = start;
    while i < end
        invariant
            start <= i <= end,
            end <= 9,
            strs(svcs@) == name_services(),
            first_service(*m, start as int, end as int) == first_service(*m, i as int, end as int),
        decreases end - i,
    {
        assert(svcs@[i as int]@ == name_services()[i as int]);
        if let Some(n) = m.services.get_str(svcs[i]) {
            let nv = chars_of(n.as_str());
            assert(first_service(*m, i as int, end as int) == Some(n@));
            return Some(after_at_exec(nv.as_slice()));
        }
        i += 1;
    }
    None
}

fn service_name_exec(d: &Device) -> (r: Option<Vec<char>>)
    ensures
        match service_name(*d) {
            Some(x) => r matches Some(v) && v@ == x,
            None => r is None,
        },
{
    let m = match &d.mdns {
        Some(m) => m,
        None => return None,
    };
    if let Some(f) = txt(m, "googlecast", "fn") {
        return Some(chars_of(f.as_str()));
    }
    first_service_exec(m, 0, 5)
}

fn generic_service_name_exec(d: &Device) -> (r: Option<Vec<char>>)
    ensures
        match generic_service_name(*d) {
            Some(x) => r matches Some(v) && v@ == x,
            None => r is None,
        },
{
    match &d.mdns {
        Some(m) => first_service_exec(m, 5, 9),
        None => None,
    }
}

fn local_name_exec(d: &Device) -> (r: Option<Vec<char>>)
    ensures
        match local_name(*d) {
            Some(x) => r matches Some(v) && v@ == x,
            None => r is None,
        },
{
    match &d.mdns {
        Some(m) => match &m.hostname {
            Some(h) => {
                let hp = host_part_exec(h);
                let hs = string_of(hp.as_slice());
                if is_junk_name(hs.as_str()) {
                    None
                } else {
                    Some(chars_of(h.as_str()))
                }
            },
            None => None,
        },
        None => None,
    }
}

fn opt_host_exec(o: &Option<String>) -> (r: Option<Vec<char>>)
    ensures
        match opt_host(*o) {
            Some(x) => r matches Some(v) && v@ == x,
            None => r is None,
        },
{
    match o {
        Some(h) => Some(host_part_exec(h)),
        None => None,
    }
}

/// The friendliest name the device gives itself: never one that
/// `is_junk_name` rejects.
pub fn name(d: &Device) -> (r: Option<String>)
    ensures
        opt_view(r) == spec_name(*d),
        r matches Some(n) ==> !spec_is_junk_name(n@),
{
    proof {
        lemma_first_good(name_candidates(*d), 0);
    }
    let mut cands: Vec<Option<Vec<char>>> = Vec::new();
    cands.push(service_name_exec(d));
    cands.push(local_name_exec(d));
    cands.push(generic_service_name_exec(d));
    cands.push(
        match &d.ssdp {
            Some(s) => match &s.friendly_name {
                Some(f) => Some(chars_of(f.as_str())),
                None => None,
            },
            None => None,
        },
    );
    cands.push(opt_host_exec(&d.hostname));
    let ghost c = name_candidates(*d);
    assert forall|k: int| 0 <= k < 5 implies (match #[trigger] c[k] {
        Some(x) => cands@[k] matches Some(v) && v@ == x,
        None => cands@[k] is None,
    }) by {}
    let mut i: usize = 0;
    while i < 5
        invariant
            i <= 5,
            cands@.len() == 5,
            c == name_candidates(*d),
            forall|k: int| 0 <= k < 5 ==> (match #[trigger] c[k] {
                Some(x) => cands@[k] matches Some(v) && v@ == x,
                None => cands@[k] is None,
            }),
            first_good(c, 0) == first_good(c, i as int),
        decreases 5 - i,
    {
        let ghost ci = c[i as int];
        assert(match ci {
            Some(x) => cands@[i as int] matches Some(v) && v@ == x,
            None => cands@[i as int] is None,
        });
        if let Some(v) = &cands[i] {
            let s = string_of(v.as_slice());
            if !is_junk_name(s.as_str()) {
                return Some(s);
            }
        }
        i += 1;
    }
    None
}

// ---------------------------------------------------------------------------
// Putting it together
// ---------------------------------------------------------------------------

pub open spec fn first_id(
    a: Option<(Seq<char>, Option<Seq<char>>)>,
    b: Option<(Seq<char>, Option<Seq<char>>)>,
) -> Option<(Seq<char>, Option<Seq<char>>)> {
    if a is Some {
        a
    } else {
        b
    }
}

/// The most specific evidence wins: Bonjour, UPnP, names, web banner,
/// advertised services, open ports, then the MAC vendor. `name` stands for
/// the device's name, which the naming conventions also read.
pub open spec fn spec_identify(d: Device, name: Option<Seq<char>>) -> Option<
    (Seq<char>, Option<Seq<char>>),
> {
    first_id(
        spec_from_mdns(d),
        first_id(
            spec_from_ssdp(d),
            first_id(
                spec_from_names(d, name),
                first_id(
                    spec_from_http(d),
                    first_id(
                        spec_from_services(d),
                        first_id(spec_from_ports(d), spec_from_vendor(d)),
                    ),
                ),
            ),
        ),
    )
}

pub fn identify(d: &Device) -> (r: Option<Id>)
    requires
        device_wf(*d),
    ensures
        opt_id_view(r) == spec_identify(*d, opt_view(d.name)),
{
    let r = from_mdns(d);
    if r.is_some() {
        return r;
    }
    let r = from_ssdp(d);
    if r.is_some() {
        return r;
    }
    let r = from_names(d);
    if r.is_some() {
        return r;
    }
    let r = from_http(d);
    if r.is_some() {
        return r;
    }
    let r = from_services(d);
    if r.is_some() {
        return r;
    }
    let r = from_ports(d);
    if r.is_some() {
        return r;
    }
    from_vendor(d)
}

/// The type a device gets: the identified one, else `Router` for the gateway.
pub open spec fn spec_kind(d: Device) -> Option<Seq<char>> {
    match spec_identify(d, spec_name(d)) {
        Some((k, _)) => Some(k),
        None => if d.gateway {
            Some("Router"@)
        } else {
            None
        },
    }
}

pub open spec fn spec_model(d: Device) -> Option<Seq<char>> {
    match spec_identify(d, spec_name(d)) {
        Some((_, m)) => m,
        None => None,
    }
}

/// Set the device's name, type and model from the evidence gathered about it;
/// nothing else changes.
pub fn classify(d: &mut Device)
    requires
        device_wf(*old(d)),
    ensures
        opt_view(final(d).name) == spec_name(*old(d)),
        opt_view(final(d).kind) == spec_kind(*old(d)),
        opt_view(final(d).model) == spec_model(*old(d)),
        final(d).ip == old(d).ip,
        final(d).vendor == old(d).vendor,
        final(d).mac == old(d).mac,
        final(d).randomized_mac == old(d).randomized_mac,
        final(d).hostname == old(d).hostname,
        final(d).open_ports == old(d).open_ports,
        final(d).gateway == old(d).gateway,
        final(d).this_device == old(d).this_device,
        final(d).mdns == old(d).mdns,
        final(d).ssdp == old(d).ssdp,
        final(d).http == old(d).http,
{
    let n = name(d);
    d.name = n;
    let ghost d1 = *d;
    assert(spec_from_mdns(d1) == spec_from_mdns(*old(d)));
    assert(spec_from_ssdp(d1) == spec_from_ssdp(*old(d)));
    assert(spec_from_names(d1, opt_view(d1.name)) == spec_from_names(*old(d), spec_name(*old(d))));
    assert(spec_from_http(d1) == spec_from_http(*old(d)));
    assert(spec_from_services(d1) == spec_from_services(*old(d)));
    assert(spec_from_ports(d1) == spec_from_ports(*old(d)));
    assert(spec_from_vendor(d1) == spec_from_vendor(*old(d)));
    let id = identify(d);
    match id {
        Some((k, m)) => {
            d.kind = Some(owned(k));
            d.model = m;
        },
        None => {
            d.kind = if d.gateway {
                Some(owned("Router"))
            } else {
                None
            };
            d.model = None;
        },
    }
}

} // verus!

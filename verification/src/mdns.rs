//! Bonjour / mDNS: the questions a scan asks, and how the records that come
//! back are credited to addresses.
//!
//! Records are resolved instance, then SRV target, then A record, so answers
//! from a Bonjour sleep proxy on behalf of a sleeping Mac are credited
//! correctly. Every address is also asked for its own name with a reverse
//! lookup (`20.1.168.192.in-addr.arpa`), which finds a device's primary
//! `.local` name even when it never advertises it.
use vstd::prelude::*;
use crate::classify::opt_view;
use crate::device::{
    lemma_lookup_first, lemma_lookup_insert, lemma_map_insert_sorted, lemma_mapv_insert,
    lemma_seq_lt_trichotomy, key_views, lookup, mapv, sorted_keys, IpMap, MdnsInfo, StrMap,
};
use crate::net::{ip_of, lemma_ip_of_octets, lemma_octets, octet};
use crate::text::{
    chars_of, dec, digit_value, digits_value, ends_with, ends_with_str, eq_str, find, is_digit,
    is_one_of, is_one_of_exec, lemma_contains, lower_chars, lower_seq, lower_str, matches_at, parse_uint,
    parse_uint_of, push_dec, push_str, slice_chars, split_char, split_char_of, string_of, strs,
    trim, trim_str, views,
};

verus! {

/// 192.168.1.20 as `20.1.168.192.in-addr.arpa`.
pub open spec fn spec_reverse_name(ip: u32) -> Seq<char> {
    dec(octet(ip, 3)) + seq!['.'] + dec(octet(ip, 2)) + seq!['.'] + dec(octet(ip, 1)) + seq!['.']
        + dec(octet(ip, 0)) + ".in-addr.arpa"@
}

/// The name whose PTR record gives the host name of `ip`.
pub fn reverse_name(ip: u32) -> (r: String)
    ensures
        r@ == spec_reverse_name(ip),
{
    let mut v: Vec<char> = Vec::new();
    push_dec(&mut v, (ip % 0x100) as u64);
    v.push('.');
    push_dec(&mut v, ((ip / 0x100) % 0x100) as u64);
    v.push('.');
    push_dec(&mut v, ((ip / 0x1_0000) % 0x100) as u64);
    v.push('.');
    push_dec(&mut v, (ip / 0x100_0000) as u64);
    push_str(&mut v, ".in-addr.arpa");
    assert(v@ == spec_reverse_name(ip));
    string_of(v.as_slice())
}

/// The address a reverse-lookup name asks about: four decimal octets, last
/// first, before `.in-addr.arpa`.
pub open spec fn spec_parse_reverse(name: Seq<char>) -> Option<u32> {
    let sfx = ".in-addr.arpa"@;
    if !ends_with(name, sfx) {
        None
    } else {
        let parts = split_char(name.take(name.len() - sfx.len()), '.');
        if parts.len() != 4 {
            None
        } else {
            match (
                parse_uint(parts[0], 10, 255),
                parse_uint(parts[1], 10, 255),
                parse_uint(parts[2], 10, 255),
                parse_uint(parts[3], 10, 255),
            ) {
                (Some(d), Some(c), Some(b), Some(a)) => Some(ip_of(a, b, c, d) as u32),
                _ => None,
            }
        }
    }
}

pub fn parse_reverse(name: &str) -> (r: Option<u32>)
    ensures
        r == spec_parse_reverse(name@),
{
    let s = chars_of(name);
    let sfx = chars_of(".in-addr.arpa");
    if !ends_with_str(s.as_slice(), ".in-addr.arpa") {
        return None;
    }
    let head = slice_chars(s.as_slice(), 0, s.len() - sfx.len());
    assert(head@ == name@.take(name@.len() - ".in-addr.arpa"@.len()));
    let parts = split_char_of(head.as_slice(), '.');
    if parts.len() != 4 {
        return None;
    }
    assert(parts@[0]@ == views(parts@)[0] && parts@[1]@ == views(parts@)[1] && parts@[2]@ == views(
        parts@,
    )[2] && parts@[3]@ == views(parts@)[3]);
    let d = match parse_uint_of(parts[0].as_slice(), 10, 255) {
        Some(x) => x,
        None => return None,
    };
    let c = match parse_uint_of(parts[1].as_slice(), 10, 255) {
        Some(x) => x,
        None => return None,
    };
    let b = match parse_uint_of(parts[2].as_slice(), 10, 255) {
        Some(x) => x,
        None => return None,
    };
    let a = match parse_uint_of(parts[3].as_slice(), 10, 255) {
        Some(x) => x,
        None => return None,
    };
    proof {
        lemma_ip_of_octets(a as nat, b as nat, c as nat, d as nat);
    }
    Some((a * 0x100_0000 + b * 0x1_0000 + c * 0x100 + d) as u32)
}

/// The decimal digits of `n` are digits, and read back as `n`.
pub proof fn lemma_dec(n: nat)
    ensures
        dec(n).len() >= 1,
        forall|i: int| 0 <= i < dec(n).len() ==> is_digit(#[trigger] dec(n)[i]),
        digits_value(dec(n), 10) == Some(n),
    decreases n,
{
    let d = n % 10;
    let c = (d + 48) as char;
    assert(c as u32 == d + 48);
    assert(digit_value(c, 10) == Some(d));
    if n < 10 {
        assert(dec(n).drop_last() =~= Seq::<char>::empty());
        assert(dec(n).last() == c);
        assert(digits_value(dec(n).drop_last(), 10) == Some(0nat));
        assert(digits_value(dec(n), 10) == Some(0nat * 10 + d));
    } else {
        lemma_dec(n / 10);
        let s = dec(n);
        assert(s.drop_last() == dec(n / 10));
        assert(s.last() == c);
        assert((n / 10) * 10 + d == n) by (nonlinear_arith)
            requires
                d == n % 10,
        ;
        assert(digits_value(s, 10) == Some((n / 10) * 10 + d));
        assert forall|i: int| 0 <= i < s.len() implies is_digit(#[trigger] s[i]) by {
            if i < s.len() - 1 {
                assert(s[i] == dec(n / 10)[i]);
            }
        }
    }
}

proof fn lemma_octet_text(n: nat)
    requires
        n < 256,
    ensures
        parse_uint(dec(n), 10, 255) == Some(n),
        !dec(n).contains('.'),
{
    lemma_dec(n);
    assert(dec(n)[0] != '+') by {
        assert(is_digit(dec(n)[0]));
    }
    if dec(n).contains('.') {
        let i = choose|i: int| 0 <= i < dec(n).len() && dec(n)[i] == '.';
        assert(is_digit(dec(n)[i]));
    }
}

/// Splitting at `c` a text whose first part holds no `c`.
pub(crate) proof fn lemma_split_first(x: Seq<char>, y: Seq<char>, c: char)
    requires
        !x.contains(c),
    ensures
        split_char(x + seq![c] + y, c) == seq![x] + split_char(y, c),
{
    let s = x + seq![c] + y;
    lemma_contains(s, seq![c]);
    assert(s.subrange(x.len() as int, x.len() + 1int) == seq![c]);
    assert(matches_at(s, seq![c], x.len() as int));
    let j = find(s, seq![c]).unwrap();
    if j < x.len() {
        assert(s.subrange(j, j + 1)[0] == s[j]);
        assert(x[j] == c);
    }
    assert(s.take(x.len() as int) == x);
    assert(s.skip(x.len() + 1int) == y);
}

pub(crate) proof fn lemma_split_none(x: Seq<char>, c: char)
    requires
        !x.contains(c),
    ensures
        split_char(x, c) == seq![x],
{
    lemma_contains(x, seq![c]);
    if let Some(j) = find(x, seq![c]) {
        assert(x.subrange(j, j + 1)[0] == x[j]);
    }
}

/// Reading back the reverse-lookup name of an address gives the address.
pub proof fn lemma_reverse_round_trip(ip: u32)
    ensures
        spec_parse_reverse(spec_reverse_name(ip)) == Some(ip),
{
    reveal_strlit(".in-addr.arpa");
    lemma_octets(ip);
    let (o0, o1, o2, o3) = (octet(ip, 0), octet(ip, 1), octet(ip, 2), octet(ip, 3));
    lemma_octet_text(o0);
    lemma_octet_text(o1);
    lemma_octet_text(o2);
    lemma_octet_text(o3);
    let sfx = ".in-addr.arpa"@;
    let head = dec(o3) + seq!['.'] + dec(o2) + seq!['.'] + dec(o1) + seq!['.'] + dec(o0);
    let name = spec_reverse_name(ip);
    assert(name == head + sfx);
    assert(name.skip(name.len() - sfx.len()) == sfx);
    assert(name.take(name.len() - sfx.len()) == head);
    lemma_split_none(dec(o0), '.');
    lemma_split_first(dec(o1), dec(o0), '.');
    lemma_split_first(dec(o2), dec(o1) + seq!['.'] + dec(o0), '.');
    lemma_split_first(dec(o3), dec(o2) + seq!['.'] + dec(o1) + seq!['.'] + dec(o0), '.');
    assert(dec(o2) + seq!['.'] + dec(o1) + seq!['.'] + dec(o0) == dec(o2) + seq!['.'] + (dec(o1)
        + seq!['.'] + dec(o0)));
    assert(head == dec(o3) + seq!['.'] + (dec(o2) + seq!['.'] + dec(o1) + seq!['.'] + dec(o0)));
    let parts = split_char(head, '.');
    assert(parts == seq![dec(o3), dec(o2), dec(o1), dec(o0)]);
}


// ---------------------------------------------------------------------------
// Records
// ---------------------------------------------------------------------------

/// The parts of a resource record that discovery reads.
pub enum Rdata {
    /// A PTR record's target name.
    Ptr(String),
    /// An SRV record's target host and port.
    Srv(String, u16),
    /// A TXT record's attributes: lowercase keys, each once, with their values.
    Txt(Vec<(String, Option<String>)>),
    /// An A record's address.
    A(u32),
    Other,
}

/// A resource record: the name it is about and what it says.
pub struct DnsRecord {
    pub name: String,
    pub data: Rdata,
}

/// The DNS-SD meta-query that lists every service type.
pub open spec fn meta_name() -> Seq<char> {
    "_services._dns-sd._udp.local"@
}

/// TXT keys that carry model or identity information; everything else is noise.
pub open spec fn txt_keys() -> Seq<Seq<char>> {
    seq![
        "model"@,
        "am"@,
        "md"@,
        "fn"@,
        "ty"@,
        "product"@,
        "ci"@,
        "rpmd"@,
        "manufacturer"@,
        "usb_mfg"@,
        "usb_mdl"@,
        "mn"@,
        "vn"@,
        "osxvers"@,
    ]
}

/// What gathers from the answers, each name lowercased.
pub struct Records {
    /// Instance name to its display name and the address the packet came from.
    instances: StrMap<(String, u32)>,
    /// Instance name to the host and port its SRV record gives.
    srv: StrMap<(String, u16)>,
    /// Instance name to its interesting TXT keys and values.
    txt: StrMap<StrMap<String>>,
    /// Host name to address.
    a: StrMap<u32>,
    /// Service types the meta-query turned up.
    types: StrMap<()>,
    /// Answers to reverse lookups: address to the name the device calls itself.
    reverse: IpMap<String>,
}

/// What the records say, by name.
pub struct RecV {
    pub instances: Map<Seq<char>, (Seq<char>, u32)>,
    pub srv: Map<Seq<char>, (Seq<char>, u16)>,
    pub txt: Map<Seq<char>, Map<Seq<char>, Seq<char>>>,
    pub a: Map<Seq<char>, u32>,
    pub types: Set<Seq<char>>,
    pub reverse: Map<u32, Seq<char>>,
}

pub open spec fn strs_view(s: Seq<(String, String)>) -> Map<Seq<char>, Seq<char>> {
    mapv(s).map_values(|v: String| v@)
}

pub open spec fn inst_view(s: Seq<(String, (String, u32))>) -> Map<Seq<char>, (Seq<char>, u32)> {
    mapv(s).map_values(|p: (String, u32)| (p.0@, p.1))
}

pub open spec fn srv_view(s: Seq<(String, (String, u16))>) -> Map<Seq<char>, (Seq<char>, u16)> {
    mapv(s).map_values(|p: (String, u16)| (p.0@, p.1))
}

pub open spec fn txt_view(s: Seq<(String, StrMap<String>)>) -> Map<Seq<char>, Map<Seq<char>, Seq<char>>> {
    mapv(s).map_values(|m: StrMap<String>| strs_view(m@))
}

pub open spec fn rev_view(m: Map<u32, String>) -> Map<u32, Seq<char>> {
    m.map_values(|s: String| s@)
}

pub closed spec fn rec_view(r: Records) -> RecV {
    RecV {
        instances: inst_view(r.instances@),
        srv: srv_view(r.srv@),
        txt: txt_view(r.txt@),
        a: mapv(r.a@),
        types: mapv(r.types@).dom(),
        reverse: rev_view(r.reverse@),
    }
}

/// Each instance's TXT pairs hold each key once.
pub open spec fn txt_sorted(t: Seq<(String, StrMap<String>)>) -> bool {
    forall|k: Seq<char>| #[trigger] mapv(t).contains_key(k) ==> sorted_keys(mapv(t)[k]@)
}

impl Records {
    /// The reverse answers are in address order, and each instance's TXT
    /// pairs hold each key once.
    #[verifier::type_invariant]
    spec fn wf(&self) -> bool {
        &&& self.reverse.wf()
        &&& txt_sorted(self.txt@)
    }

    /// The service types the meta-query turned up.
    pub fn types(&self) -> (r: &StrMap<()>)
        ensures
            mapv(r@).dom() == rec_view(*self).types,
    {
        &self.types
    }

    pub fn new() -> (r: Records)
        ensures
            rec_view(r) == (RecV {
                instances: Map::empty(),
                srv: Map::empty(),
                txt: Map::empty(),
                a: Map::empty(),
                types: Set::empty(),
                reverse: Map::empty(),
            }),
    {
        let r = Records {
            instances: StrMap::new(),
            srv: StrMap::new(),
            txt: StrMap::new(),
            a: StrMap::new(),
            types: StrMap::new(),
            reverse: IpMap::new(),
        };
        assert(rec_view(r).instances =~= Map::empty());
        assert(rec_view(r).srv =~= Map::empty());
        assert(rec_view(r).txt =~= Map::empty());
        assert(rec_view(r).a =~= Map::empty());
        assert(rec_view(r).types =~= Set::empty());
        assert(rec_view(r).reverse =~= Map::empty());
        r
    }
}

/// The identity attributes of a TXT record: keys lowercased, values trimmed,
/// keeping known keys with something to say.
pub open spec fn kept(attrs: Seq<(String, Option<String>)>) -> Seq<(Seq<char>, Seq<char>)>
    decreases attrs.len(),
{
    if attrs.len() == 0 {
        Seq::empty()
    } else {
        let rest = kept(attrs.drop_last());
        let a = attrs.last();
        let k = lower_seq(a.0@);
        match a.1 {
            Some(v) => if is_one_of(k, txt_keys()) && trim(v@).len() > 0 {
                rest.push((k, trim(v@)))
            } else {
                rest
            },
            None => rest,
        }
    }
}

/// `m` with each pair of `kv` inserted in turn.
pub open spec fn insert_all(m: Map<Seq<char>, Seq<char>>, kv: Seq<(Seq<char>, Seq<char>)>) -> Map<
    Seq<char>,
    Seq<char>,
>
    decreases kv.len(),
{
    if kv.len() == 0 {
        m
    } else {
        insert_all(m, kv.drop_last()).insert(kv.last().0, kv.last().1)
    }
}

/// `entry(k).or_insert(v)`.
pub open spec fn or_insert<K, V>(m: Map<K, V>, k: K, v: V) -> Map<K, V> {
    if m.contains_key(k) {
        m
    } else {
        m.insert(k, v)
    }
}

/// What one record adds, given the address its packet came from.
pub open spec fn absorb_one(r: RecV, rec: DnsRecord, src: u32) -> RecV {
    let owner = rec.name@;
    let key = lower_seq(owner);
    match rec.data {
        Rdata::Ptr(t) => match spec_parse_reverse(key) {
            Some(ip) => RecV { reverse: r.reverse.insert(ip, lower_seq(t@)), ..r },
            None => if key == meta_name() {
                RecV { types: r.types.insert(lower_seq(t@)), ..r }
            } else {
                RecV { instances: or_insert(r.instances, lower_seq(t@), (t@, src)), ..r }
            },
        },
        Rdata::Srv(t, port) => RecV {
            instances: or_insert(r.instances, key, (owner, src)),
            srv: r.srv.insert(key, (lower_seq(t@), port)),
            ..r
        },
        Rdata::Txt(attrs) => {
            let kv = kept(attrs@);
            if kv.len() == 0 {
                r
            } else {
                let cur = if r.txt.contains_key(key) {
                    r.txt[key]
                } else {
                    Map::empty()
                };
                RecV {
                    instances: or_insert(r.instances, key, (owner, src)),
                    txt: r.txt.insert(key, insert_all(cur, kv)),
                    ..r
                }
            }
        },
        Rdata::A(addr) => RecV { a: r.a.insert(key, addr), ..r },
        Rdata::Other => r,
    }
}

/// The identity keys of a TXT record (model identifiers, Cast and HomeKit
/// model and name, the printer model `ty`, maker and product) are kept: an
/// attribute whose lowercased key is one of them and whose value, trimmed,
/// says something is recorded, trimmed, under the record's owner; the last
/// such attribute wins.
pub proof fn lemma_txt_keeps_identity(r: RecV, rec: DnsRecord, src: u32, key: Seq<char>)
    requires
        rec.data is Txt,
        rec.data->Txt_0@.len() > 0,
        lower_seq(rec.data->Txt_0@.last().0@) == key,
        rec.data->Txt_0@.last().1 is Some,
        trim(rec.data->Txt_0@.last().1.unwrap()@).len() > 0,
        key == "model"@ || key == "am"@ || key == "md"@ || key == "fn"@ || key == "ty"@ || key == "product"@ || key == "ci"@ || key == "rpmd"@ || key == "manufacturer"@ || key == "usb_mfg"@ || key == "usb_mdl"@ || key == "mn"@ || key == "vn"@ || key == "osxvers"@,
    ensures
        ({
            let attrs = rec.data->Txt_0@;
            let owner = lower_seq(rec.name@);
            let out = absorb_one(r, rec, src);
            &&& out.txt.contains_key(owner)
            &&& out.txt[owner].contains_key(key)
            &&& out.txt[owner][key] == trim(attrs.last().1.unwrap()@)
            &&& out.instances.contains_key(owner)
        }),
{
    if key == "model"@ {
        assert(txt_keys()[0] == key);
    } else if key == "am"@ {
        assert(txt_keys()[1] == key);
    } else if key == "md"@ {
        assert(txt_keys()[2] == key);
    } else if key == "fn"@ {
        assert(txt_keys()[3] == key);
    } else if key == "ty"@ {
        assert(txt_keys()[4] == key);
    } else if key == "product"@ {
        assert(txt_keys()[5] == key);
    } else if key == "ci"@ {
        assert(txt_keys()[6] == key);
    } else if key == "rpmd"@ {
        assert(txt_keys()[7] == key);
    } else if key == "manufacturer"@ {
        assert(txt_keys()[8] == key);
    } else if key == "usb_mfg"@ {
        assert(txt_keys()[9] == key);
    } else if key == "usb_mdl"@ {
        assert(txt_keys()[10] == key);
    } else if key == "mn"@ {
        assert(txt_keys()[11] == key);
    } else if key == "vn"@ {
        assert(txt_keys()[12] == key);
    } else if key == "osxvers"@ {
        assert(txt_keys()[13] == key);
    }
    let attrs = rec.data->Txt_0@;
    let kv = kept(attrs);
    let tv = trim(attrs.last().1.unwrap()@);
    assert(is_one_of(key, txt_keys()));
    assert(kv == kept(attrs.drop_last()).push((key, tv)));
    assert(kv.len() > 0);
    assert(kv.drop_last() == kept(attrs.drop_last()));
}

pub open spec fn absorb_all(r: RecV, recs: Seq<DnsRecord>, src: u32) -> RecV
    decreases recs.len(),
{
    if recs.len() == 0 {
        r
    } else {
        absorb_one(absorb_all(r, recs.drop_last(), src), recs.last(), src)
    }
}

/// What a record's data says, with a TXT record's attributes as a map.
pub enum RdataV {
    Ptr(Seq<char>),
    Srv(Seq<char>, u16),
    Txt(Map<Seq<char>, Option<Seq<char>>>),
    A(u32),
    Other,
}

/// A resource record as plain values.
pub struct DnsRecordV {
    pub name: Seq<char>,
    pub data: RdataV,
}

/// A TXT record's attributes as a map from key to value.
pub open spec fn attrs_map(a: Seq<(String, Option<String>)>) -> Map<Seq<char>, Option<Seq<char>>>
    decreases a.len(),
{
    if a.len() == 0 {
        Map::empty()
    } else {
        attrs_map(a.drop_last()).insert(a.last().0@, opt_view(a.last().1))
    }
}

pub open spec fn record_view(r: DnsRecord) -> DnsRecordV {
    DnsRecordV {
        name: r.name@,
        data: match r.data {
            Rdata::Ptr(t) => RdataV::Ptr(t@),
            Rdata::Srv(t, port) => RdataV::Srv(t@, port),
            Rdata::Txt(attrs) => RdataV::Txt(attrs_map(attrs@)),
            Rdata::A(addr) => RdataV::A(addr),
            Rdata::Other => RdataV::Other,
        },
    }
}

pub open spec fn record_views(rs: Seq<DnsRecord>) -> Seq<DnsRecordV> {
    rs.map_values(|r: DnsRecord| record_view(r))
}

/// A TXT record's keys are lowercase, each once.
pub open spec fn txt_ok(r: DnsRecord) -> bool {
    match r.data {
        Rdata::Txt(attrs) => {
            &&& forall|i: int, j: int|
                0 <= i < j < attrs@.len() ==> attrs@[i].0@ != attrs@[j].0@
            &&& forall|i: int| 0 <= i < attrs@.len() ==> lower_seq(#[trigger] attrs@[i].0@) == attrs@[i].0@
        },
        _ => true,
    }
}

/// The identity attributes among `m`: known keys whose values, trimmed, say
/// something.
pub open spec fn kept_map(m: Map<Seq<char>, Option<Seq<char>>>) -> Map<Seq<char>, Seq<char>> {
    Map::new(
        |k: Seq<char>|
            m.contains_key(k) && is_one_of(k, txt_keys()) && m[k] is Some && trim(
                m[k].unwrap(),
            ).len() > 0,
        |k: Seq<char>| trim(m[k].unwrap()),
    )
}

/// What one record, as plain values, adds.
pub open spec fn absorb_one_v(r: RecV, rec: DnsRecordV, src: u32) -> RecV {
    let owner = rec.name;
    let key = lower_seq(owner);
    match rec.data {
        RdataV::Ptr(t) => match spec_parse_reverse(key) {
            Some(ip) => RecV { reverse: r.reverse.insert(ip, lower_seq(t)), ..r },
            None => if key == meta_name() {
                RecV { types: r.types.insert(lower_seq(t)), ..r }
            } else {
                RecV { instances: or_insert(r.instances, lower_seq(t), (t, src)), ..r }
            },
        },
        RdataV::Srv(t, port) => RecV {
            instances: or_insert(r.instances, key, (owner, src)),
            srv: r.srv.insert(key, (lower_seq(t), port)),
            ..r
        },
        RdataV::Txt(attrs) => {
            let kv = kept_map(attrs);
            if kv.dom() == Set::<Seq<char>>::empty() {
                r
            } else {
                let cur = if r.txt.contains_key(key) {
                    r.txt[key]
                } else {
                    Map::empty()
                };
                RecV {
                    instances: or_insert(r.instances, key, (owner, src)),
                    txt: r.txt.insert(key, cur.union_prefer_right(kv)),
                    ..r
                }
            }
        },
        RdataV::A(addr) => RecV { a: r.a.insert(key, addr), ..r },
        RdataV::Other => r,
    }
}

pub open spec fn absorb_all_v(r: RecV, recs: Seq<DnsRecordV>, src: u32) -> RecV
    decreases recs.len(),
{
    if recs.len() == 0 {
        r
    } else {
        absorb_one_v(absorb_all_v(r, recs.drop_last(), src), recs.last(), src)
    }
}

proof fn lemma_attrs_map_dom(a: Seq<(String, Option<String>)>, k: Seq<char>)
    ensures
        attrs_map(a).contains_key(k) ==> exists|i: int| 0 <= i < a.len() && #[trigger] a[i].0@ == k,
    decreases a.len(),
{
    if a.len() > 0 {
        lemma_attrs_map_dom(a.drop_last(), k);
        if attrs_map(a.drop_last()).contains_key(k) {
            let i = choose|i: int| 0 <= i < a.drop_last().len() && #[trigger] a.drop_last()[i].0@ == k;
            assert(a[i].0@ == k);
        } else if attrs_map(a).contains_key(k) {
            assert(a[a.len() - 1].0@ == k);
        }
    }
}

/// Inserting the kept attributes in turn gives the kept map, whatever the
/// order of distinct lowercase keys.
proof fn lemma_kept_map(cur: Map<Seq<char>, Seq<char>>, a: Seq<(String, Option<String>)>)
    requires
        forall|i: int, j: int| 0 <= i < j < a.len() ==> a[i].0@ != a[j].0@,
        forall|i: int| 0 <= i < a.len() ==> lower_seq(#[trigger] a[i].0@) == a[i].0@,
    ensures
        insert_all(cur, kept(a)) == cur.union_prefer_right(kept_map(attrs_map(a))),
        kept(a).len() == 0 <==> kept_map(attrs_map(a)).dom() == Set::<Seq<char>>::empty(),
    decreases a.len(),
{
    if a.len() == 0 {
        assert(kept_map(attrs_map(a)).dom() =~= Set::<Seq<char>>::empty());
        assert(cur.union_prefer_right(kept_map(attrs_map(a))) =~= cur);
    } else {
        let b = a.drop_last();
        lemma_kept_map(cur, b);
        let x = a.last();
        let k = x.0@;
        assert(lower_seq(a[a.len() - 1].0@) == a[a.len() - 1].0@);
        assert(lower_seq(k) == k);
        lemma_attrs_map_dom(b, k);
        assert(!attrs_map(b).contains_key(k)) by {
            if attrs_map(b).contains_key(k) {
                let i = choose|i: int| 0 <= i < b.len() && #[trigger] b[i].0@ == k;
                assert(a[i].0@ == a[a.len() - 1].0@);
            }
        }
        let mb = attrs_map(b);
        let ma = attrs_map(a);
        assert(ma == mb.insert(k, opt_view(x.1)));
        let keep = match x.1 {
            Some(v) => is_one_of(k, txt_keys()) && trim(v@).len() > 0,
            None => false,
        };
        if keep {
            let tv = trim(x.1.unwrap()@);
            assert(kept(a) == kept(b).push((k, tv)));
            assert(kept(a).drop_last() == kept(b));
            assert(kept_map(ma) =~= kept_map(mb).insert(k, tv));
            assert(kept_map(ma).dom().contains(k));
            assert(insert_all(cur, kept(a)) == insert_all(cur, kept(b)).insert(k, tv));
            assert(cur.union_prefer_right(kept_map(ma)) =~= cur.union_prefer_right(kept_map(mb)).insert(
                k,
                tv,
            ));
        } else {
            assert(kept(a) == kept(b));
            assert(kept_map(ma) =~= kept_map(mb));
        }
    }
}

/// Absorbing a record depends only on what it says as plain values.
proof fn lemma_absorb_one_v(r: RecV, rec: DnsRecord, src: u32)
    requires
        txt_ok(rec),
    ensures
        absorb_one(r, rec, src) == absorb_one_v(r, record_view(rec), src),
{
    match rec.data {
        Rdata::Txt(attrs) => {
            let key = lower_seq(rec.name@);
            let cur = if r.txt.contains_key(key) {
                r.txt[key]
            } else {
                Map::empty()
            };
            lemma_kept_map(cur, attrs@);
        },
        _ => {},
    }
}

proof fn lemma_absorb_all_v(r: RecV, recs: Seq<DnsRecord>, src: u32)
    requires
        forall|i: int| 0 <= i < recs.len() ==> txt_ok(#[trigger] recs[i]),
    ensures
        absorb_all(r, recs, src) == absorb_all_v(r, record_views(recs), src),
    decreases recs.len(),
{
    if recs.len() > 0 {
        let b = recs.drop_last();
        assert forall|i: int| 0 <= i < b.len() implies txt_ok(#[trigger] b[i]) by {
            assert(b[i] == recs[i]);
        }
        lemma_absorb_all_v(r, b, src);
        assert(record_views(recs).drop_last() =~= record_views(b));
        assert(txt_ok(recs[recs.len() - 1]));
        lemma_absorb_one_v(absorb_all(r, b, src), recs.last(), src);
    }
}

pub open spec fn pair_views(v: Seq<(Vec<char>, Vec<char>)>) -> Seq<(Seq<char>, Seq<char>)> {
    v.map_values(|p: (Vec<char>, Vec<char>)| (p.0@, p.1@))
}

fn kept_pairs(attrs: &Vec<(String, Option<String>)>) -> (r: Vec<(Vec<char>, Vec<char>)>)
    ensures
        pair_views(r@) == kept(attrs@),
{
    let keys: [&str; 14] = [
        "model",
        "am",
        "md",
        "fn",
        "ty",
        "product",
        "ci",
        "rpmd",
        "manufacturer",
        "usb_mfg",
        "usb_mdl",
        "mn",
        "vn",
        "osxvers",
    ];
    assert(strs(keys@) == txt_keys());
    let mut out: Vec<(Vec<char>, Vec<char>)> = Vec::new();
    let mut i: usize = 0;
    while i < attrs.len()
        invariant
            i <= attrs.len(),
            strs(keys@) == txt_keys(),
            pair_views(out@) == kept(attrs@.take(i as int)),
        decreases attrs.len() - i,
    {
        assert(attrs@.take(i + 1).drop_last() == attrs@.take(i as int));
        assert(attrs@.take(i + 1).last() == attrs@[i as int]);
        let k = lower_str(attrs[i].0.as_str());
        match &attrs[i].1 {
            Some(v) => {
                let t = trim_str(v.as_str());
                if is_one_of_exec(k.as_slice(), &keys) && t.len() > 0 {
                    out.push((k, t));
                    assert(pair_views(out@) == kept(attrs@.take(i as int)).push((k@, t@)));
                }
            },
            None => {},
        }
        i += 1;
    }
    assert(attrs@.take(attrs.len() as int) == attrs@);
    out
}

/// Puts each pair into `m` in turn.
fn insert_pairs(m: &mut StrMap<String>, kv: &Vec<(Vec<char>, Vec<char>)>)
    ensures
        strs_view(final(m)@) == insert_all(strs_view(old(m)@), pair_views(kv@)),
        sorted_keys(old(m)@) ==> sorted_keys(final(m)@),
{
    let mut i: usize = 0;
    while i < kv.len()
        invariant
            i <= kv.len(),
            strs_view(m@) == insert_all(strs_view(old(m)@), pair_views(kv@).take(i as int)),
            sorted_keys(old(m)@) ==> sorted_keys(m@),
        decreases kv.len() - i,
    {
        assert(pair_views(kv@).take(i + 1).drop_last() == pair_views(kv@).take(i as int));
        let k = string_of(kv[i].0.as_slice());
        let v = string_of(kv[i].1.as_slice());
        let ghost before = m@;
        m.insert(k, v);
        proof {
            lemma_mapv_insert(before, k, v);
            if sorted_keys(old(m)@) {
                lemma_map_insert_sorted(before, k, v);
            }
            assert(strs_view(m@) =~= strs_view(before).insert(k@, v@));
        }
        i += 1;
    }
    assert(pair_views(kv@).take(kv.len() as int) == pair_views(kv@));
}

/// Takes in the records of one packet from `src`.
pub fn absorb(rec: &mut Records, packet: &Vec<DnsRecord>, src: u32)
    ensures
        rec_view(*final(rec)) == absorb_all(rec_view(*old(rec)), packet@, src),
{
    let mut cur = Records::new();
    std::mem::swap(rec, &mut cur);
    let mut i: usize = 0;
    while i < packet.len()
        invariant
            i <= packet.len(),
            rec_view(cur) == absorb_all(rec_view(*old(rec)), packet@.take(i as int), src),
        decreases packet.len() - i,
    {
        assert(packet@.take(i + 1).drop_last() == packet@.take(i as int));
        cur = absorb_record(cur, &packet[i], src);
        i += 1;
    }
    assert(packet@.take(packet.len() as int) == packet@);
    *rec = cur;
}

/// `entry(key).or_insert((owner, src))` on the instances.
fn note_instance(instances: &mut StrMap<(String, u32)>, key: &Vec<char>, owner: &String, src: u32)
    ensures
        inst_view(final(instances)@) == or_insert(inst_view(old(instances)@), key@, (owner@, src)),
{
    if !instances.contains_key_chars(key.as_slice()) {
        let k = string_of(key.as_slice());
        let ghost before = instances@;
        let val = (owner.clone(), src);
        let ghost gv = val;
        instances.insert(k, val);
        proof {
            lemma_mapv_insert(before, k, gv);
        }
        assert(inst_view(instances@) =~= inst_view(before).insert(key@, (owner@, src)));
    }
}

fn absorb_record(rec: Records, r: &DnsRecord, src: u32) -> (out: Records)
    ensures
        rec_view(out) == absorb_one(rec_view(rec), *r, src),
{
    proof {
        use_type_invariant(&rec);
    }
    let ghost v0 = rec_view(rec);
    let Records { mut instances, mut srv, mut txt, mut a, mut types, mut reverse } = rec;
    let owner = &r.name;
    let key_chars = lower_str(owner.as_str());
    match &r.data {
        Rdata::Ptr(t) => {
            let key = string_of(key_chars.as_slice());
            let target = lower_str(t.as_str());
            match parse_reverse(key.as_str()) {
                Some(ip) => {
                    let name = string_of(target.as_slice());
                    reverse.insert(ip, name);
                    assert(rev_view(reverse@) =~= v0.reverse.insert(ip, target@));
                },
                None => {
                    if eq_str(key_chars.as_slice(), "_services._dns-sd._udp.local") {
                        let name = string_of(target.as_slice());
                        let ghost before = types@;
                        types.insert(name, ());
                        proof {
                            lemma_mapv_insert(before, name, ());
                            assert(mapv(types@).dom() =~= v0.types.insert(target@));
                        }
                    } else {
                        note_instance(&mut instances, &target, t, src);
                    }
                },
            }
        },
        Rdata::Srv(t, port) => {
            note_instance(&mut instances, &key_chars, owner, src);
            let target = lower_str(t.as_str());
            let k = string_of(key_chars.as_slice());
            let host = string_of(target.as_slice());
            let ghost before = srv@;
            let val = (host, *port);
            let ghost gv = val;
            srv.insert(k, val);
            proof {
                lemma_mapv_insert(before, k, gv);
            }
            assert(srv_view(srv@) =~= v0.srv.insert(key_chars@, (target@, *port)));
        },
        Rdata::Txt(attrs) => {
            let kv = kept_pairs(attrs);
            if kv.len() > 0 {
                note_instance(&mut instances, &key_chars, owner, src);
                let mut cur = match txt.get(key_chars.as_slice()) {
                    Some(m) => m.duplicate(),
                    None => StrMap::new(),
                };
                assert(strs_view(cur@) == (if v0.txt.contains_key(key_chars@) {
                    v0.txt[key_chars@]
                } else {
                    Map::<Seq<char>, Seq<char>>::empty()
                })) by {
                    if !v0.txt.contains_key(key_chars@) {
                        assert(strs_view(cur@) =~= Map::<Seq<char>, Seq<char>>::empty());
                    }
                };
                assert(sorted_keys(cur@));
                insert_pairs(&mut cur, &kv);
                let k = string_of(key_chars.as_slice());
                let ghost before = txt@;
                let ghost inner = cur;
                txt.insert(k, cur);
                proof {
                    lemma_mapv_insert(before, k, inner);
                    assert(txt_view(txt@) =~= v0.txt.insert(key_chars@, strs_view(inner@)));
                    assert(txt_sorted(txt@)) by {
                        assert forall|x: Seq<char>| #[trigger] mapv(txt@).contains_key(x) implies sorted_keys(
                            mapv(txt@)[x]@,
                        ) by {
                            if x != k@ {
                                assert(mapv(before).contains_key(x));
                            }
                        }
                    }
                }
            }
        },
        Rdata::A(addr) => {
            let k = string_of(key_chars.as_slice());
            let ghost before = a@;
            a.insert(k, *addr);
            proof {
                lemma_mapv_insert(before, k, *addr);
            }
        },
        Rdata::Other => {},
    }
    let out = Records { instances, srv, txt, a, types, reverse };
    assert(rec_view(out) == absorb_one(v0, *r, src));
    out
}

// ---------------------------------------------------------------------------
// Instance names
// ---------------------------------------------------------------------------

/// The labels of a DNS name written as text, each as `simple_dns` displays
/// it: the text split at unescaped dots, empty labels skipped.
pub uninterp spec fn dns_labels(name: Seq<char>) -> Seq<Seq<char>>;

/// `simple_dns::Name::new_unchecked`, then each of `get_labels` displayed.
/// Claimed: the result is `dns_labels` of the name, nothing more.
#[verifier::external_body]
fn name_labels(name: &str) -> (r: Vec<String>)
    ensures
        r@.map_values(|l: String| l@) == dns_labels(name@),
{
    simple_dns::Name::new_unchecked(name).get_labels().iter().map(|l| l.to_string()).collect()
}

/// The labels joined with dots.
pub open spec fn join_dots(ls: Seq<Seq<char>>) -> Seq<char>
    decreases ls.len(),
{
    if ls.len() == 0 {
        Seq::empty()
    } else if ls.len() == 1 {
        ls[0]
    } else {
        join_dots(ls.drop_last()) + seq!['.'] + ls.last()
    }
}

/// `Living Room._airplay._tcp.local` as ("Living Room", "airplay"): the
/// instance is every label before the service type, which starts with `_`.
pub open spec fn spec_split_labels(ls: Seq<Seq<char>>) -> Option<(Seq<char>, Seq<char>)> {
    if ls.len() < 3 {
        None
    } else {
        let svc = ls[ls.len() - 3];
        if svc.len() == 0 || svc[0] != '_' {
            None
        } else {
            Some((join_dots(ls.take(ls.len() - 3)), lower_seq(svc.drop_first())))
        }
    }
}

pub open spec fn spec_split_instance(name: Seq<char>) -> Option<(Seq<char>, Seq<char>)> {
    spec_split_labels(dns_labels(name))
}

/// The instance and service type of the labels of an instance name.
pub fn split_labels(ls: &Vec<String>) -> (r: Option<(String, String)>)
    ensures
        match spec_split_labels(ls@.map_values(|l: String| l@)) {
            Some((i, s)) => r matches Some((a, b)) && a@ == i && b@ == s,
            None => r is None,
        },
{
    let ghost lv = ls@.map_values(|l: String| l@);
    if ls.len() < 3 {
        return None;
    }
    let n = ls.len() - 3;
    let svc = chars_of(ls[n].as_str());
    assert(svc@ == lv[n as int]);
    if svc.len() == 0 || svc[0] != '_' {
        return None;
    }
    let service = lower_chars(slice_chars(svc.as_slice(), 1, svc.len()).as_slice());
    assert(svc@.subrange(1, svc@.len() as int) == svc@.drop_first());
    let mut inst: Vec<char> = Vec::new();
    let mut i: usize = 0;
    assert(lv.take(0) == Seq::<Seq<char>>::empty());
    while i < n
        invariant
            i <= n,
            n + 3 == ls.len(),
            lv == ls@.map_values(|l: String| l@),
            inst@ == join_dots(lv.take(i as int)),
        decreases n - i,
    {
        assert(lv.take(i + 1).drop_last() == lv.take(i as int));
        assert(lv.take(i + 1).last() == ls@[i as int]@);
        if i > 0 {
            inst.push('.');
        }
        push_str(&mut inst, ls[i].as_str());
        i += 1;
    }
    Some((string_of(inst.as_slice()), string_of(service.as_slice())))
}

/// `Living Room._airplay._tcp.local` as ("Living Room", "airplay").
pub fn split_instance(name: &str) -> (r: Option<(String, String)>)
    ensures
        match spec_split_instance(name@) {
            Some((i, s)) => r matches Some((a, b)) && a@ == i && b@ == s,
            None => r is None,
        },
{
    let ls = name_labels(name);
    split_labels(&ls)
}


// ---------------------------------------------------------------------------
// Crediting records to addresses
// ---------------------------------------------------------------------------

/// What Bonjour says about one address, by name.
pub struct InfoV {
    pub hostname: Option<Seq<char>>,
    pub services: Map<Seq<char>, Seq<char>>,
    pub txt: Map<Seq<char>, Map<Seq<char>, Seq<char>>>,
    pub ports: Map<Seq<char>, u16>,
}

pub open spec fn info_view(m: MdnsInfo) -> InfoV {
    InfoV {
        hostname: opt_view(m.hostname),
        services: strs_view(m.services@),
        txt: mapv(m.txt@).map_values(|x: StrMap<String>| strs_view(x@)),
        ports: mapv(m.ports@),
    }
}

pub open spec fn empty_info() -> InfoV {
    InfoV { hostname: None, services: Map::empty(), txt: Map::empty(), ports: Map::empty() }
}

pub open spec fn out_view(o: IpMap<MdnsInfo>) -> Map<u32, InfoV> {
    o@.map_values(|m: MdnsInfo| info_view(m))
}

/// `entry(ip).or_default()`.
pub open spec fn info_at(out: Map<u32, InfoV>, ip: u32) -> InfoV {
    if out.contains_key(ip) {
        out[ip]
    } else {
        empty_info()
    }
}

/// One instance: credited to the address of its SRV host if an A record
/// gives one, else to whoever sent it. Its SRV host is the first host name
/// known for the address, and its TXT pairs join what the service had.
pub open spec fn credit(out: Map<u32, InfoV>, r: RecV, e: (String, (String, u32))) -> Map<u32, InfoV> {
    let key = e.0@;
    match spec_split_instance(e.1.0@) {
        None => out,
        Some((instance, service)) => {
            let host = if r.srv.contains_key(key) {
                Some(r.srv[key])
            } else {
                None
            };
            let ip = match host {
                Some(h) => if r.a.contains_key(h.0) {
                    r.a[h.0]
                } else {
                    e.1.1
                },
                None => e.1.1,
            };
            let i0 = info_at(out, ip);
            let i1 = match host {
                Some(h) => InfoV {
                    hostname: if i0.hostname is None {
                        Some(h.0)
                    } else {
                        i0.hostname
                    },
                    ports: i0.ports.insert(service, h.1),
                    ..i0
                },
                None => i0,
            };
            let i2 = InfoV { services: i1.services.insert(service, instance), ..i1 };
            let i3 = if r.txt.contains_key(key) {
                let cur = if i2.txt.contains_key(service) {
                    i2.txt[service]
                } else {
                    Map::empty()
                };
                InfoV { txt: i2.txt.insert(service, cur.union_prefer_right(r.txt[key])), ..i2 }
            } else {
                i2
            };
            out.insert(ip, i3)
        },
    }
}

pub open spec fn credit_all(out: Map<u32, InfoV>, r: RecV, s: Seq<(String, (String, u32))>) -> Map<
    u32,
    InfoV,
>
    decreases s.len(),
{
    if s.len() == 0 {
        out
    } else {
        credit(credit_all(out, r, s.drop_last()), r, s.last())
    }
}

/// Hosts that only answered with an address record still count.
pub open spec fn name_hosts(out: Map<u32, InfoV>, s: Seq<(String, u32)>) -> Map<u32, InfoV>
    decreases s.len(),
{
    if s.len() == 0 {
        out
    } else {
        let o = name_hosts(out, s.drop_last());
        let e = s.last();
        let i = info_at(o, e.1);
        o.insert(
            e.1,
            InfoV {
                hostname: if i.hostname is None {
                    Some(e.0@)
                } else {
                    i.hostname
                },
                ..i
            },
        )
    }
}

/// The name a device gives for its own address is its primary one.
pub open spec fn name_reverse(out: Map<u32, InfoV>, s: Seq<(u32, String)>) -> Map<u32, InfoV>
    decreases s.len(),
{
    if s.len() == 0 {
        out
    } else {
        let o = name_reverse(out, s.drop_last());
        let e = s.last();
        o.insert(e.0, InfoV { hostname: Some(e.1@), ..info_at(o, e.0) })
    }
}

pub closed spec fn spec_resolve(rec: Records) -> Map<u32, InfoV> {
    name_reverse(
        name_hosts(credit_all(Map::empty(), rec_view(rec), rec.instances@), rec.a@),
        rec.reverse.pairs(),
    )
}

/// In a list that holds each key once, each pair adds its key.
proof fn lemma_mapv_take<V>(s: Seq<(String, V)>, i: int)
    requires
        sorted_keys(s),
        0 <= i < s.len(),
    ensures
        mapv(s.take(i + 1)) == mapv(s.take(i)).insert(s[i].0@, s[i].1),
{
    let t = s.take(i + 1);
    assert(t == s.take(i).insert(i, s[i]));
    assert forall|k: Seq<char>| #[trigger] lookup(t, k) == (if k == s[i].0@ {
        Some(s[i].1)
    } else {
        lookup(s.take(i), k)
    }) by {
        if k == s[i].0@ {
            assert forall|j: int| 0 <= j < i implies t[j].0@ != k by {
                lemma_seq_lt_trichotomy(s[j].0@, s[i].0@);
            }
            lemma_lookup_first(t, k, i);
        } else {
            lemma_lookup_insert(s.take(i), i, s[i], k);
        }
    }
    assert(mapv(t) =~= mapv(s.take(i)).insert(s[i].0@, s[i].1));
}

/// Adds every pair of `kv` to `m`.
fn extend(m: &mut StrMap<String>, kv: &StrMap<String>)
    requires
        sorted_keys(kv@),
    ensures
        strs_view(final(m)@) == strs_view(old(m)@).union_prefer_right(strs_view(kv@)),
{
    let pairs = kv.as_slice();
    let mut i: usize = 0;
    assert(strs_view(kv@.take(0)) =~= Map::<Seq<char>, Seq<char>>::empty());
    while i < pairs.len()
        invariant
            i <= pairs.len(),
            pairs@ == kv@,
            sorted_keys(kv@),
            strs_view(m@) == strs_view(old(m)@).union_prefer_right(strs_view(kv@.take(i as int))),
        decreases pairs.len() - i,
    {
        let k = pairs[i].0.clone();
        let v = pairs[i].1.clone();
        let ghost before = m@;
        m.insert(k, v);
        proof {
            lemma_mapv_insert(before, k, v);
            lemma_mapv_take(kv@, i as int);
            assert(k@ == kv@[i as int].0@ && v@ == kv@[i as int].1@);
            assert(strs_view(kv@.take(i + 1)) =~= strs_view(kv@.take(i as int)).insert(k@, v@));
            assert(strs_view(m@) =~= strs_view(before).insert(k@, v@));
            let o = strs_view(old(m)@);
            let t = strs_view(kv@.take(i as int));
            assert(o.union_prefer_right(t.insert(k@, v@)) =~= o.union_prefer_right(t).insert(
                k@,
                v@,
            ));
            assert(strs_view(m@) =~= strs_view(old(m)@).union_prefer_right(
                strs_view(kv@.take(i + 1)),
            ));
        }
        i += 1;
    }
    assert(kv@.take(pairs.len() as int) == kv@);
}

/// The information held for `ip`, taken out of `out` (or a fresh one).
fn take_info(out: &mut IpMap<MdnsInfo>, ip: u32) -> (r: MdnsInfo)
    requires
        old(out).wf(),
    ensures
        final(out).wf(),
        final(out)@ == old(out)@.remove(ip),
        info_view(r) == info_at(out_view(*old(out)), ip),
{
    match out.remove(ip) {
        Some(i) => i,
        None => {
            let i = MdnsInfo::new();
            assert(i.services@ == Seq::<(String, String)>::empty());
            assert(info_view(i).services =~= Map::empty());
            assert(info_view(i).txt =~= Map::empty());
            assert(info_view(i).ports =~= Map::empty());
            i
        },
    }
}

fn put_info(out: &mut IpMap<MdnsInfo>, ip: u32, info: MdnsInfo, Ghost(before): Ghost<Map<u32, InfoV>>)
    requires
        old(out).wf(),
        out_view(*old(out)) == before.remove(ip),
    ensures
        final(out).wf(),
        out_view(*final(out)) == before.insert(ip, info_view(info)),
{
    let ghost gi = info;
    let ghost m0 = out@;
    out.insert(ip, info);
    assert(out@ == m0.insert(ip, gi));
    assert forall|k: u32| #[trigger] out_view(*out).contains_key(k) <==> before.insert(
        ip,
        info_view(gi),
    ).contains_key(k) by {
        if k != ip {
            assert(out_view(*out).contains_key(k) <==> m0.contains_key(k));
            assert(before.remove(ip).contains_key(k) <==> m0.contains_key(k));
        }
    }
    assert forall|k: u32| #[trigger] out_view(*out).contains_key(k) implies out_view(*out)[k]
        == before.insert(ip, info_view(gi))[k] by {
        if k != ip {
            assert(before.remove(ip)[k] == info_view(m0[k]));
        }
    }
    assert(out_view(*out) =~= before.insert(ip, info_view(gi)));
}

fn credit_instance(
    out: &mut IpMap<MdnsInfo>,
    rec: &Records,
    key: &String,
    display: &String,
    src: u32,
)
    requires
        old(out).wf(),
    ensures
        final(out).wf(),
        out_view(*final(out)) == credit(out_view(*old(out)), rec_view(*rec), (*key, (*display, src))),
{
    proof {
        use_type_invariant(rec);
    }
    let ghost r = rec_view(*rec);
    let ghost before = out_view(*out);
    let (instance, service) = match split_instance(display.as_str()) {
        Some(p) => p,
        None => return,
    };
    let kc = chars_of(key.as_str());
    let host = rec.srv.get(kc.as_slice());
    let ip = match host {
        Some(h) => {
            let hc = chars_of(h.0.as_str());
            match rec.a.get(hc.as_slice()) {
                Some(a) => *a,
                None => src,
            }
        },
        None => src,
    };
    let mut info = take_info(out, ip);
    assert(out_view(*out) == before.remove(ip)) by {
        assert(out_view(*out) =~= before.remove(ip));
    }
    match host {
        Some(h) => {
            if info.hostname.is_none() {
                info.hostname = Some(h.0.clone());
            }
            let ghost p0 = info.ports@;
            let sk = service.clone();
            info.ports.insert(sk, h.1);
            proof {
                lemma_mapv_insert(p0, sk, h.1);
            }
        },
        None => {},
    }
    let ghost s0 = info.services@;
    let sk = service.clone();
    info.services.insert(sk, instance);
    proof {
        lemma_mapv_insert(s0, sk, instance);
        assert(strs_view(info.services@) =~= strs_view(s0).insert(sk@, instance@));
    }
    match rec.txt.get(kc.as_slice()) {
        Some(kv) => {
            assert(mapv(rec.txt@).contains_key(kc@));
            let mut cur = match info.txt.get_str(service.as_str()) {
                Some(m) => m.duplicate(),
                None => StrMap::new(),
            };
            assert(strs_view(cur@) =~= (if info_view(info).txt.contains_key(service@) {
                info_view(info).txt[service@]
            } else {
                Map::<Seq<char>, Seq<char>>::empty()
            }));
            extend(&mut cur, kv);
            let ghost t0 = info.txt@;
            let ghost gc = cur;
            let sk = service.clone();
            info.txt.insert(sk, cur);
            proof {
                lemma_mapv_insert(t0, sk, gc);
                assert(info_view(info).txt =~= mapv(t0).map_values(
                    |x: StrMap<String>| strs_view(x@),
                ).insert(sk@, strs_view(gc@)));
            }
        },
        None => {},
    }
    put_info(out, ip, info, Ghost(before));
    assert(out_view(*out) == credit(before, r, (*key, (*display, src))));
}

/// Every service with TXT pairs is among the services.
pub open spec fn all_listed(m: Map<u32, InfoV>) -> bool {
    forall|ip: u32, k: Seq<char>| #[trigger] m.contains_key(ip) && #[trigger] m[ip].txt.contains_key(k) ==> m[ip].services.contains_key(k)
}

proof fn lemma_credit_listed(out: Map<u32, InfoV>, r: RecV, e: (String, (String, u32)))
    requires
        all_listed(out),
    ensures
        all_listed(credit(out, r, e)),
{
}

/// Everything learned, by address.
pub fn resolve(rec: &Records) -> (r: IpMap<MdnsInfo>)
    ensures
        r.wf(),
        out_view(r) == spec_resolve(*rec),
        forall|ip: u32| #[trigger] r@.contains_key(ip) ==> crate::classify::txt_listed(r@[ip]),
{
    let mut out: IpMap<MdnsInfo> = IpMap::new();
    assert(out_view(out) =~= Map::empty());
    let insts = rec.instances.as_slice();
    let mut i: usize = 0;
    while i < insts.len()
        invariant
            i <= insts.len(),
            insts@ == rec.instances@,
            out.wf(),
            all_listed(out_view(out)),
            out_view(out) == credit_all(Map::empty(), rec_view(*rec), insts@.take(i as int)),
        decreases insts.len() - i,
    {
        assert(insts@.take(i + 1).drop_last() == insts@.take(i as int));
        proof {
            lemma_credit_listed(out_view(out), rec_view(*rec), insts@[i as int]);
        }
        credit_instance(&mut out, rec, &insts[i].0, &insts[i].1.0, insts[i].1.1);
        i += 1;
    }
    assert(insts@.take(insts.len() as int) == insts@);
    let hosts = rec.a.as_slice();
    let ghost after_insts = out_view(out);
    let mut j: usize = 0;
    while j < hosts.len()
        invariant
            j <= hosts.len(),
            hosts@ == rec.a@,
            out.wf(),
            all_listed(out_view(out)),
            out_view(out) == name_hosts(after_insts, hosts@.take(j as int)),
        decreases hosts.len() - j,
    {
        assert(hosts@.take(j + 1).drop_last() == hosts@.take(j as int));
        let ip = hosts[j].1;
        let ghost before = out_view(out);
        let mut info = take_info(&mut out, ip);
        assert(out_view(out) =~= before.remove(ip));
        let ghost i0 = info_view(info);
        if info.hostname.is_none() {
            info.hostname = Some(hosts[j].0.clone());
        }
        assert(info_view(info).txt == i0.txt && info_view(info).services == i0.services);
        put_info(&mut out, ip, info, Ghost(before));
        proof {
            assert forall|x: u32, k: Seq<char>| #[trigger] out_view(out).contains_key(x) && #[trigger] out_view(out)[x].txt.contains_key(k)
                implies out_view(out)[x].services.contains_key(k) by {
                if x != ip {
                    assert(before.contains_key(x));
                } else if before.contains_key(ip) {
                    assert(before[ip].txt.contains_key(k));
                }
            }
        }
        j += 1;
    }
    assert(hosts@.take(hosts.len() as int) == hosts@);
    let rev = rec.reverse.as_slice();
    let ghost after_hosts = out_view(out);
    let mut k: usize = 0;
    while k < rev.len()
        invariant
            k <= rev.len(),
            rev@ == rec.reverse.pairs(),
            out.wf(),
            all_listed(out_view(out)),
            out_view(out) == name_reverse(after_hosts, rev@.take(k as int)),
        decreases rev.len() - k,
    {
        assert(rev@.take(k + 1).drop_last() == rev@.take(k as int));
        let ip = rev[k].0;
        let ghost before = out_view(out);
        let mut info = take_info(&mut out, ip);
        assert(out_view(out) =~= before.remove(ip));
        let ghost i0 = info_view(info);
        info.hostname = Some(rev[k].1.clone());
        assert(info_view(info).txt == i0.txt && info_view(info).services == i0.services);
        put_info(&mut out, ip, info, Ghost(before));
        proof {
            assert forall|x: u32, key: Seq<char>| #[trigger] out_view(out).contains_key(x) && #[trigger] out_view(out)[x].txt.contains_key(key)
                implies out_view(out)[x].services.contains_key(key) by {
                if x != ip {
                    assert(before.contains_key(x));
                } else if before.contains_key(ip) {
                    assert(before[ip].txt.contains_key(key));
                }
            }
        }
        k += 1;
    }
    assert(rev@.take(rev.len() as int) == rev@);
    assert forall|ip: u32| #[trigger] out@.contains_key(ip) implies crate::classify::txt_listed(out@[ip]) by {
        let m = out@[ip];
        assert forall|k: Seq<char>| #[trigger] lookup(m.txt@, k) is Some implies lookup(m.services@, k) is Some by {
            assert(out_view(out).contains_key(ip));
            assert(out_view(out)[ip] == info_view(m));
            assert(info_view(m).txt.contains_key(k));
        }
    }
    out
}


// ---------------------------------------------------------------------------
// Questions
// ---------------------------------------------------------------------------

/// Well-known service types asked about on every scan.
pub open spec fn service_types() -> Seq<Seq<char>> {
    seq![
        "_device-info._tcp.local"@,
        "_airplay._tcp.local"@,
        "_raop._tcp.local"@,
        "_companion-link._tcp.local"@,
        "_googlecast._tcp.local"@,
        "_spotify-connect._tcp.local"@,
        "_sonos._tcp.local"@,
        "_hap._tcp.local"@,
        "_matter._tcp.local"@,
        "_ipp._tcp.local"@,
        "_ipps._tcp.local"@,
        "_printer._tcp.local"@,
        "_pdl-datastream._tcp.local"@,
        "_uscan._tcp.local"@,
        "_smb._tcp.local"@,
        "_afpovertcp._tcp.local"@,
        "_ssh._tcp.local"@,
        "_sftp-ssh._tcp.local"@,
        "_http._tcp.local"@,
        "_workstation._tcp.local"@,
        "_amzn-wplay._tcp.local"@,
        "_androidtvremote2._tcp.local"@,
        "_hue._tcp.local"@,
        "_esphomelib._tcp.local"@,
        "_home-assistant._tcp.local"@,
        "_meshcop._udp.local"@,
        "_airport._tcp.local"@,
        "_sleep-proxy._udp.local"@,
        "_rdlink._tcp.local"@,
        "_nvstream._tcp.local"@,
        "_umbrel._tcp.local"@,
    ]
}

/// The first round of questions: every service type (through the meta-query
/// and the well-known list), then each target's reverse-lookup name.
pub open spec fn spec_initial(targets: Seq<u32>) -> Seq<Seq<char>> {
    seq![meta_name()] + service_types() + targets.map_values(|ip: u32| spec_reverse_name(ip))
}

pub open spec fn string_views(v: Seq<String>) -> Seq<Seq<char>> {
    v.map_values(|s: String| s@)
}

proof fn lemma_views_push(v: Seq<String>, x: String)
    ensures
        string_views(v.push(x)) == string_views(v).push(x@),
{
    assert(string_views(v.push(x)) =~= string_views(v).push(x@));
}

pub fn initial_questions(targets: &[u32]) -> (r: Vec<String>)
    ensures
        string_views(r@) == spec_initial(targets@),
{
    let types: [&str; 31] = [
        "_device-info._tcp.local",
        "_airplay._tcp.local",
        "_raop._tcp.local",
        "_companion-link._tcp.local",
        "_googlecast._tcp.local",
        "_spotify-connect._tcp.local",
        "_sonos._tcp.local",
        "_hap._tcp.local",
        "_matter._tcp.local",
        "_ipp._tcp.local",
        "_ipps._tcp.local",
        "_printer._tcp.local",
        "_pdl-datastream._tcp.local",
        "_uscan._tcp.local",
        "_smb._tcp.local",
        "_afpovertcp._tcp.local",
        "_ssh._tcp.local",
        "_sftp-ssh._tcp.local",
        "_http._tcp.local",
        "_workstation._tcp.local",
        "_amzn-wplay._tcp.local",
        "_androidtvremote2._tcp.local",
        "_hue._tcp.local",
        "_esphomelib._tcp.local",
        "_home-assistant._tcp.local",
        "_meshcop._udp.local",
        "_airport._tcp.local",
        "_sleep-proxy._udp.local",
        "_rdlink._tcp.local",
        "_nvstream._tcp.local",
        "_umbrel._tcp.local",
    ];
    assert(types@.map_values(|t: &str| t@) == service_types());
    let mut out: Vec<String> = Vec::new();
    out.push(crate::text::owned("_services._dns-sd._udp.local"));
    let mut i: usize = 0;
    while i < types.len()
        invariant
            i <= types.len(),
            types@.map_values(|t: &str| t@) == service_types(),
            string_views(out@) == seq![meta_name()] + service_types().take(i as int),
        decreases types.len() - i,
    {
        let ghost before = out@;
        let t = crate::text::owned(types[i]);
        out.push(t);
        proof {
            lemma_views_push(before, t);
            assert(t@ == service_types()[i as int]);
            assert(service_types().take(i + 1) == service_types().take(i as int).push(t@));
        }
        assert(string_views(out@) == seq![meta_name()] + service_types().take(i + 1));
        i += 1;
    }
    assert(service_types().take(31) == service_types());
    let ghost base = string_views(out@);
    let mut j: usize = 0;
    while j < targets.len()
        invariant
            j <= targets.len(),
            base == seq![meta_name()] + service_types(),
            string_views(out@) == base + targets@.take(j as int).map_values(
                |ip: u32| spec_reverse_name(ip),
            ),
        decreases targets.len() - j,
    {
        let ghost before = out@;
        let t = reverse_name(targets[j]);
        out.push(t);
        proof {
            lemma_views_push(before, t);
        }
        assert(targets@.take(j + 1).map_values(|ip: u32| spec_reverse_name(ip)) == targets@.take(
            j as int,
        ).map_values(|ip: u32| spec_reverse_name(ip)).push(spec_reverse_name(targets@[j as int])));
        assert(string_views(out@) == base + targets@.take(j + 1).map_values(
            |ip: u32| spec_reverse_name(ip),
        ));
        j += 1;
    }
    assert(targets@.take(targets.len() as int) == targets@);
    out
}

/// Service types learned from the meta-query that were not asked about yet,
/// in the order learned; `asked` grows by them.
pub open spec fn learned(asked: Set<Seq<char>>, types: Seq<Seq<char>>) -> (Set<Seq<char>>, Seq<Seq<char>>)
    decreases types.len(),
{
    if types.len() == 0 {
        (asked, Seq::empty())
    } else {
        let (a, new) = learned(asked, types.drop_last());
        let t = types.last();
        if a.contains(t) {
            (a, new)
        } else {
            (a.insert(t), new.push(t))
        }
    }
}

/// The second round: the first round again for sleepy responders, plus the
/// newly learned service types.
pub fn second_round(initial: &Vec<String>, asked: &mut StrMap<()>, types: &StrMap<()>) -> (r: Vec<String>)
    ensures
        string_views(r@) == string_views(initial@) + learned(mapv(old(asked)@).dom(), key_views(types@)).1,
        mapv(final(asked)@).dom() == learned(mapv(old(asked)@).dom(), key_views(types@)).0,
{
    let mut out: Vec<String> = Vec::new();
    let mut i: usize = 0;
    while i < initial.len()
        invariant
            i <= initial.len(),
            string_views(out@) == string_views(initial@).take(i as int),
        decreases initial.len() - i,
    {
        let ghost before = out@;
        let t = initial[i].clone();
        out.push(t);
        proof {
            lemma_views_push(before, t);
            assert(string_views(initial@).take(i + 1) == string_views(initial@).take(i as int).push(
                t@,
            ));
        }
        assert(string_views(out@) == string_views(initial@).take(i + 1));
        i += 1;
    }
    assert(string_views(initial@).take(initial.len() as int) == string_views(initial@));
    let ts = types.as_slice();
    let mut j: usize = 0;
    assert(key_views(types@).take(0) == Seq::<Seq<char>>::empty());
    while j < ts.len()
        invariant
            j <= ts.len(),
            ts@ == types@,
            string_views(out@) == string_views(initial@) + learned(
                mapv(old(asked)@).dom(),
                key_views(types@).take(j as int),
            ).1,
            mapv(asked@).dom() == learned(mapv(old(asked)@).dom(), key_views(types@).take(j as int)).0,
        decreases ts.len() - j,
    {
        assert(key_views(types@).take(j + 1).drop_last() == key_views(types@).take(j as int));
        assert(key_views(types@).take(j + 1).last() == ts@[j as int].0@);
        let t = &ts[j].0;
        if !asked.contains_key(t.as_str()) {
            let k = t.clone();
            let ghost before = asked@;
            asked.insert(k, ());
            proof {
                lemma_mapv_insert(before, k, ());
                assert(mapv(asked@).dom() =~= mapv(before).dom().insert(k@));
            }
            let ghost b2 = out@;
            let c = t.clone();
            out.push(c);
            proof {
                lemma_views_push(b2, c);
            }
        }
        j += 1;
    }
    assert(key_views(types@).take(ts.len() as int) == key_views(types@));
    out
}

/// The wire bytes that `simple_dns` builds for a query packet with the given
/// id, asking one question per name, each of the given type and class and
/// with the given unicast-response bit.
pub uninterp spec fn query_bytes(names: Seq<Seq<char>>, id: u16, qtype: u16, qclass: u16, unicast: bool) -> Option<Seq<u8>>;

/// `simple_dns::Packet::new_query(id)` with one `Question` per name (its type
/// `TYPE::from(qtype)`, its class `QCLASS::try_from(qclass)`, the unicast bit),
/// then `build_bytes_vec`; `None` when the class number is not one
/// `simple_dns` knows or the packet cannot be built. Claimed: the result is
/// `query_bytes` of those arguments.
#[verifier::external_body]
fn build_query(names: &[String], id: u16, qtype: u16, qclass: u16, unicast: bool) -> (r: Option<Vec<u8>>)
    ensures
        match query_bytes(string_views(names@), id, qtype, qclass, unicast) {
            Some(b) => r matches Some(x) && x@ == b,
            None => r is None,
        },
{
    let class = simple_dns::QCLASS::try_from(qclass).ok()?;
    let mut packet = simple_dns::Packet::new_query(id);
    for t in names {
        let name = simple_dns::Name::new_unchecked(t);
        let ty = simple_dns::QTYPE::TYPE(simple_dns::TYPE::from(qtype));
        packet.questions.push(simple_dns::Question::new(name, ty, class, unicast));
    }
    packet.build_bytes_vec().ok()
}

/// Queries carry id 0, as mDNS asks (RFC 6762, section 18.1).
pub const QUERY_ID: u16 = 0;
/// The DNS type number of PTR records.
pub const TYPE_PTR: u16 = 12;
/// The DNS class number of the Internet class.
pub const CLASS_IN: u16 = 1;

/// One query packet asking for the PTR records of `names`, replies to come
/// by unicast.
pub open spec fn spec_query(names: Seq<Seq<char>>) -> Option<Seq<u8>> {
    query_bytes(names, QUERY_ID, TYPE_PTR, CLASS_IN, true)
}

/// The query packets for `names`, eight questions apiece to stay well under
/// typical MTUs; a batch that cannot be built is left out.
pub open spec fn spec_queries(names: Seq<Seq<char>>) -> Seq<Seq<u8>>
    decreases names.len(),
{
    if names.len() == 0 {
        Seq::empty()
    } else {
        let n = if names.len() < 8 {
            names.len() as int
        } else {
            8
        };
        let rest = spec_queries(names.skip(n));
        match spec_query(names.take(n)) {
            Some(b) => seq![b] + rest,
            None => rest,
        }
    }
}

pub open spec fn byte_views(v: Seq<Vec<u8>>) -> Seq<Seq<u8>> {
    v.map_values(|b: Vec<u8>| b@)
}

pub fn queries(names: &Vec<String>) -> (r: Vec<Vec<u8>>)
    ensures
        byte_views(r@) == spec_queries(string_views(names@)),
{
    let ghost all = string_views(names@);
    let mut out: Vec<Vec<u8>> = Vec::new();
    let mut pos: usize = 0;
    assert(all.skip(0) == all);
    while pos < names.len()
        invariant
            pos <= names.len(),
            all == string_views(names@),
            byte_views(out@) + spec_queries(all.skip(pos as int)) == spec_queries(all),
        decreases names.len() - pos,
    {
        let end = if names.len() - pos < 8 {
            names.len()
        } else {
            pos + 8
        };
        let batch = &names.as_slice()[pos..end];
        assert(batch@ == names@.subrange(pos as int, end as int));
        let ghost rest = all.skip(pos as int);
        assert(string_views(batch@) == rest.take(end - pos));
        assert(rest.skip(end - pos) == all.skip(end as int));
        match build_query(batch, QUERY_ID, TYPE_PTR, CLASS_IN, true) {
            Some(b) => {
                out.push(b);
                assert(byte_views(out@) == byte_views(out@.drop_last()).push(b@));
            },
            None => {},
        }
        pos = end;
    }
    assert(all.skip(pos as int) == Seq::<Seq<char>>::empty());
    assert(byte_views(out@) + Seq::<Seq<u8>>::empty() == byte_views(out@));
    out
}

// ---------------------------------------------------------------------------
// Packets
// ---------------------------------------------------------------------------

/// The answers and additional records, in order, that `simple_dns` decodes
/// from a packet's bytes (`None` when they do not parse): each record's name
/// as displayed, and for PTR, SRV, TXT and A records the fields discovery
/// reads, a TXT record's attributes as `TXT::attributes` gives them.
pub uninterp spec fn dns_records(bytes: Seq<u8>) -> Option<Seq<DnsRecordV>>;

/// `simple_dns::Packet::parse`, then each answer and additional record
/// converted: its name displayed, and for PTR, SRV, TXT and A records the
/// fields discovery reads (TXT attributes through `TXT::attributes`, which
/// lowercases keys and keeps the first of each). Claimed: the records, as
/// plain values, are `dns_records` of the bytes, and the keys of each TXT
/// record are lowercase and distinct. The order of a TXT record's attributes
/// is that of a `HashMap` walk and is left unsaid.
#[verifier::external_body]
fn parse_packet(bytes: &[u8]) -> (r: Option<Vec<DnsRecord>>)
    ensures
        match dns_records(bytes@) {
            Some(v) => r matches Some(x) && record_views(x@) == v && forall|i: int|
                0 <= i < x@.len() ==> txt_ok(#[trigger] x@[i]),
            None => r is None,
        },
{
    let packet = simple_dns::Packet::parse(bytes).ok()?;
    let all = packet.answers.iter().chain(packet.additional_records.iter());
    Some(all.map(|r| DnsRecord {
        name: r.name.to_string(),
        data: match &r.rdata {
            simple_dns::rdata::RData::PTR(p) => Rdata::Ptr(p.0.to_string()),
            simple_dns::rdata::RData::SRV(s) => Rdata::Srv(s.target.to_string(), s.port),
            simple_dns::rdata::RData::TXT(t) => Rdata::Txt(t.attributes().into_iter().collect()),
            simple_dns::rdata::RData::A(a) => Rdata::A(a.address),
            _ => Rdata::Other,
        },
    }).collect())
}

/// Takes in a packet that came from `src`: the records `simple_dns`
/// decodes from it, in order; a packet that does not parse adds nothing.
pub fn absorb_packet(rec: &mut Records, bytes: &[u8], src: u32)
    ensures
        rec_view(*final(rec)) == absorb_all_v(
            rec_view(*old(rec)),
            match dns_records(bytes@) {
                Some(v) => v,
                None => Seq::empty(),
            },
            src,
        ),
{
    match parse_packet(bytes) {
        Some(records) => {
            proof {
                lemma_absorb_all_v(rec_view(*rec), records@, src);
            }
            absorb(rec, &records, src);
        },
        None => {},
    }
}

} // verus!

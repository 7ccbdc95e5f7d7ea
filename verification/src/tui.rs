//! The interactive browser's logic: which devices match the filter, which
//! one is selected, how far its details are scrolled, and what a key does.
use vstd::prelude::*;
use crate::classify::opt_view;
use crate::device::Device;
use crate::net::{ipv4_string, ipv4_text};
use crate::report::{kind_label, spec_kind_label};
use crate::text::{contains, contains_chars, push_str, string_of};

verus! {

// ---------------------------------------------------------------------------
// Base64, for the terminal's clipboard escape
// ---------------------------------------------------------------------------

/// The base64 digit for `n` (below 64).
pub open spec fn b64_char(n: nat) -> char {
    if n < 26 {
        (n + 65) as char
    } else if n < 52 {
        (n - 26 + 97) as char
    } else if n < 62 {
        (n - 52 + 48) as char
    } else if n == 62 {
        '+'
    } else {
        '/'
    }
}

/// One to three bytes as four base64 characters, `=` for the missing ones.
pub open spec fn b64_chunk(c: Seq<u8>) -> Seq<char> {
    let n: nat = (c[0] as nat) * 65536 + (if c.len() > 1 {
        c[1] as nat
    } else {
        0
    }) * 256 + (if c.len() > 2 {
        c[2] as nat
    } else {
        0
    });
    seq![
        b64_char((n / 262144) % 64),
        b64_char((n / 4096) % 64),
        if c.len() >= 2 {
            b64_char((n / 64) % 64)
        } else {
            '='
        },
        if c.len() >= 3 {
            b64_char(n % 64)
        } else {
            '='
        },
    ]
}

/// Standard base64 with padding.
pub open spec fn spec_base64(d: Seq<u8>) -> Seq<char>
    decreases d.len(),
{
    if d.len() == 0 {
        Seq::empty()
    } else {
        let k = if d.len() < 3 {
            d.len() as int
        } else {
            3
        };
        b64_chunk(d.take(k)) + spec_base64(d.skip(k))
    }
}

/// A character of the RFC 4648 base64 alphabet, or its pad `=`.
pub open spec fn is_b64(c: char) -> bool {
    ('A' <= c && c <= 'Z') || ('a' <= c && c <= 'z') || ('0' <= c && c <= '9') || c == '+' || c
        == '/' || c == '='
}

proof fn lemma_b64_char(n: nat)
    requires
        n < 64,
    ensures
        is_b64(b64_char(n)),
{
    if n < 26 {
        assert((n + 65) as char as u32 == n + 65);
    } else if n < 52 {
        assert((n - 26 + 97) as char as u32 == n - 26 + 97);
    } else if n < 62 {
        assert((n - 52 + 48) as char as u32 == n - 52 + 48);
    }
}

/// RFC 4648 base64 with padding: four characters for every three bytes or
/// part of three, all from the base64 alphabet or `=`.
pub proof fn lemma_base64_shape(d: Seq<u8>)
    ensures
        spec_base64(d).len() == 4 * ((d.len() + 2) / 3),
        forall|i: int| 0 <= i < spec_base64(d).len() ==> is_b64(#[trigger] spec_base64(d)[i]),
    decreases d.len(),
{
    if d.len() > 0 {
        let k = if d.len() < 3 {
            d.len() as int
        } else {
            3
        };
        lemma_base64_shape(d.skip(k));
        let c = d.take(k);
        let n: nat = (c[0] as nat) * 65536 + (if c.len() > 1 {
            c[1] as nat
        } else {
            0
        }) * 256 + (if c.len() > 2 {
            c[2] as nat
        } else {
            0
        });
        lemma_b64_char((n / 262144) % 64);
        lemma_b64_char((n / 4096) % 64);
        lemma_b64_char((n / 64) % 64);
        lemma_b64_char(n % 64);
        let h = b64_chunk(c);
        let t = spec_base64(d.skip(k));
        assert(spec_base64(d) == h + t);
        assert forall|i: int| 0 <= i < spec_base64(d).len() implies is_b64(#[trigger] spec_base64(d)[i]) by {
            if i < 4 {
                assert(spec_base64(d)[i] == h[i]);
            } else {
                assert(spec_base64(d)[i] == t[i - 4]);
            }
        }
    }
}

/// The value of a base64 character; the pad `=` counts as zero.
pub open spec fn b64_val(c: char) -> nat {
    if 'A' <= c && c <= 'Z' {
        (c as nat - 65) as nat
    } else if 'a' <= c && c <= 'z' {
        (c as nat - 71) as nat
    } else if '0' <= c && c <= '9' {
        (c as nat + 4) as nat
    } else if c == '+' {
        62
    } else if c == '/' {
        63
    } else {
        0
    }
}

proof fn lemma_b64_val(n: nat)
    requires
        n < 64,
    ensures
        b64_val(b64_char(n)) == n,
        b64_char(n) != '=',
{
    if n < 26 {
        assert((n + 65) as char as u32 == n + 65);
    } else if n < 52 {
        assert((n - 26 + 97) as char as u32 == n - 26 + 97);
    } else if n < 62 {
        assert((n - 52 + 48) as char as u32 == n - 52 + 48);
    }
}

/// Four characters back to bytes: one when the third is a pad, two when the
/// fourth is, three otherwise.
pub open spec fn quad_bytes(q: Seq<char>) -> Seq<u8> {
    let m = b64_val(q[0]) * 262144 + b64_val(q[1]) * 4096 + b64_val(q[2]) * 64 + b64_val(q[3]);
    let b0 = ((m / 65536) % 256) as u8;
    let b1 = ((m / 256) % 256) as u8;
    let b2 = (m % 256) as u8;
    if q[2] == '=' {
        seq![b0]
    } else if q[3] == '=' {
        seq![b0, b1]
    } else {
        seq![b0, b1, b2]
    }
}

/// RFC 4648 base64 decoding, four characters at a time.
pub open spec fn b64_decode(s: Seq<char>) -> Seq<u8>
    decreases s.len(),
{
    if s.len() < 4 {
        Seq::empty()
    } else {
        quad_bytes(s.take(4)) + b64_decode(s.skip(4))
    }
}

/// How many `=` end the encoding of `n` bytes.
pub open spec fn b64_pad(n: nat) -> nat {
    ((3 - n % 3) % 3) as nat
}

proof fn lemma_b64_quad(x: u32)
    requires
        x < 0x100_0000,
    ensures
        (x / 262144) % 64 * 262144 + (x / 4096) % 64 * 4096 + (x / 64) % 64 * 64 + x % 64 == x,
{
    assert((x / 262144) % 64 * 262144 + (x / 4096) % 64 * 4096 + (x / 64) % 64 * 64 + x % 64 == x)
        by (bit_vector)
        requires
            x < 0x100_0000,
    ;
}

proof fn lemma_b64_bytes(c0: u8, c1: u8, c2: u8)
    ensures
        ({
            let x = (c0 as nat) * 65536 + (c1 as nat) * 256 + (c2 as nat);
            &&& x < 0x100_0000
            &&& (x / 65536) % 256 == c0
            &&& (x / 256) % 256 == c1
            &&& x % 256 == c2
            &&& (c2 == 0 ==> x % 64 == 0)
            &&& (c1 == 0 && c2 == 0 ==> (x / 64) % 64 == 0)
        }),
{
    assert({
        let x = (c0 as nat) * 65536 + (c1 as nat) * 256 + (c2 as nat);
        &&& x < 0x100_0000
        &&& (x / 65536) % 256 == c0
        &&& (x / 256) % 256 == c1
        &&& x % 256 == c2
        &&& (c2 == 0 ==> x % 64 == 0)
        &&& (c1 == 0 && c2 == 0 ==> (x / 64) % 64 == 0)
    }) by (bit_vector);
}

proof fn lemma_chunk_decodes(c: Seq<u8>)
    requires
        1 <= c.len() <= 3,
    ensures
        b64_chunk(c).len() == 4,
        b64_chunk(c).take(4) == b64_chunk(c),
        quad_bytes(b64_chunk(c)) == c,
        forall|i: int| 0 <= i < 4 ==> (#[trigger] b64_chunk(c)[i] == '=' <==> i >= 4 - b64_pad(c.len())),
{
    let c0 = c[0];
    let c1: u8 = if c.len() > 1 {
        c[1]
    } else {
        0
    };
    let c2: u8 = if c.len() > 2 {
        c[2]
    } else {
        0
    };
    let n: nat = (c[0] as nat) * 65536 + (if c.len() > 1 {
        c[1] as nat
    } else {
        0
    }) * 256 + (if c.len() > 2 {
        c[2] as nat
    } else {
        0
    });
    assert(n == (c0 as nat) * 65536 + (c1 as nat) * 256 + (c2 as nat));
    lemma_b64_bytes(c0, c1, c2);
    lemma_b64_quad(n as u32);
    let a = (n / 262144) % 64;
    let b = (n / 4096) % 64;
    let e = (n / 64) % 64;
    let f = n % 64;
    lemma_b64_val(a);
    lemma_b64_val(b);
    lemma_b64_val(e);
    lemma_b64_val(f);
    let q = b64_chunk(c);
    assert(q.take(4) =~= q);
    let e2: nat = if c.len() >= 2 {
        e
    } else {
        0
    };
    let f2: nat = if c.len() >= 3 {
        f
    } else {
        0
    };
    assert(b64_val(q[2]) == e2);
    assert(b64_val(q[3]) == f2);
    assert(a * 262144 + b * 4096 + e2 * 64 + f2 == n);
    assert(quad_bytes(q) =~= c);
}

/// RFC 4648 base64 decodes back to the bytes it encodes.
pub proof fn lemma_base64_decodes(d: Seq<u8>)
    ensures
        b64_decode(spec_base64(d)) == d,
    decreases d.len(),
{
    if d.len() == 0 {
        assert(b64_decode(spec_base64(d)) =~= d);
    } else {
        let k = if d.len() < 3 {
            d.len() as int
        } else {
            3
        };
        let c = d.take(k);
        let t = d.skip(k);
        lemma_base64_decodes(t);
        lemma_chunk_decodes(c);
        let h = b64_chunk(c);
        let out = spec_base64(d);
        assert(out == h + spec_base64(t));
        assert(out.take(4) =~= h);
        assert(out.skip(4) =~= spec_base64(t));
        assert(b64_decode(out) == quad_bytes(h) + b64_decode(spec_base64(t)));
        assert(c + t =~= d);
    }
}

proof fn lemma_pad_concat(h: Seq<char>, rest: Seq<char>, ph: nat, pr: nat, p: nat)
    requires
        h.len() == 4,
        forall|i: int| 0 <= i < 4 ==> (#[trigger] h[i] == '=' <==> i >= 4 - ph),
        forall|i: int| 0 <= i < rest.len() ==> (#[trigger] rest[i] == '=' <==> i >= rest.len() - pr),
        (rest.len() == 0 && p == ph) || (rest.len() >= 4 && ph == 0 && p == pr && pr <= 2),
    ensures
        forall|i: int| 0 <= i < (h + rest).len() ==> (#[trigger] (h + rest)[i] == '=' <==> i >= (h
            + rest).len() - p),
{
    let out = h + rest;
    assert forall|i: int| 0 <= i < out.len() implies (#[trigger] out[i] == '=' <==> i >= out.len() - p) by {
        if i < 4 {
            assert(out[i] == h[i]);
        } else {
            assert(out[i] == rest[i - 4]);
        }
    }
}

/// RFC 4648 padding: the encoding ends with exactly the `=` needed to fill
/// its last group of four, and has no other `=`.
pub proof fn lemma_base64_padding(d: Seq<u8>)
    ensures
        forall|i: int|
            0 <= i < spec_base64(d).len() ==> (#[trigger] spec_base64(d)[i] == '=' <==> i
                >= spec_base64(d).len() - b64_pad(d.len())),
    decreases d.len(),
{
    if d.len() > 0 {
        let k = if d.len() < 3 {
            d.len() as int
        } else {
            3
        };
        let c = d.take(k);
        let t = d.skip(k);
        lemma_base64_padding(t);
        lemma_base64_shape(t);
        lemma_chunk_decodes(c);
        let h = b64_chunk(c);
        let rest = spec_base64(t);
        let out = spec_base64(d);
        assert(out == h + rest);
        let p = b64_pad(d.len());
        if d.len() <= 3 {
            assert(rest.len() == 0);
            assert(p == b64_pad(c.len()));
        } else {
            assert(p == b64_pad(t.len()));
            assert(b64_pad(c.len()) == 0);
            assert(rest.len() >= 4);
        }
        lemma_pad_concat(h, rest, b64_pad(c.len()), b64_pad(t.len()), p);
    }
}

fn b64_digit(n: u32) -> (r: char)
    requires
        n < 64,
    ensures
        r == b64_char(n as nat),
{
    if n < 26 {
        ((n + 65) as u8) as char
    } else if n < 52 {
        ((n - 26 + 97) as u8) as char
    } else if n < 62 {
        ((n - 52 + 48) as u8) as char
    } else if n == 62 {
        '+'
    } else {
        '/'
    }
}

pub fn base64(data: &[u8]) -> (r: String)
    ensures
        r@ == spec_base64(data@),
{
    let mut out: Vec<char> = Vec::new();
    let mut pos: usize = 0;
    assert(data@.skip(0) == data@);
    while pos < data.len()
        invariant
            pos <= data.len(),
            out@ + spec_base64(data@.skip(pos as int)) == spec_base64(data@),
        decreases data.len() - pos,
    {
        let len: usize = if data.len() - pos < 3 {
            data.len() - pos
        } else {
            3
        };
        let b0 = data[pos] as u32;
        let b1 = if len > 1 {
            data[pos + 1] as u32
        } else {
            0
        };
        let b2 = if len > 2 {
            data[pos + 2] as u32
        } else {
            0
        };
        let n: u32 = b0 * 65536 + b1 * 256 + b2;
        let ghost rest = data@.skip(pos as int);
        let ghost chunk = rest.take(len as int);
        assert(chunk[0] == data@[pos as int]);
        assert(len > 1 ==> chunk[1] == data@[pos + 1]);
        assert(len > 2 ==> chunk[2] == data@[pos + 2]);
        assert(rest.skip(len as int) == data@.skip(pos + len));
        let ghost before = out@;
        out.push(b64_digit((n / 262144) % 64));
        out.push(b64_digit((n / 4096) % 64));
        out.push(if len >= 2 { b64_digit((n / 64) % 64) } else { '=' });
        out.push(if len >= 3 { b64_digit(n % 64) } else { '=' });
        assert(out@ == before + b64_chunk(chunk));
        pos = pos + len;
    }
    assert(data@.skip(pos as int) == Seq::<u8>::empty());
    assert(out@ + Seq::<char>::empty() == out@);
    string_of(out.as_slice())
}

/// What the ports the browser names usually mean.
pub open spec fn spec_port_name(port: u16) -> Option<Seq<char>> {
    if port == 22 {
        Some("SSH"@)
    } else if port == 80 {
        Some("HTTP"@)
    } else if port == 443 {
        Some("HTTPS"@)
    } else if port == 445 {
        Some("SMB"@)
    } else if port == 7000 {
        Some("AirPlay"@)
    } else if port == 8008 {
        Some("Cast"@)
    } else if port == 9100 {
        Some("printing"@)
    } else if port == 62078 {
        Some("iOS sync"@)
    } else {
        None
    }
}

pub fn port_name(port: u16) -> (r: Option<&'static str>)
    ensures
        crate::classify::opt_str_view(r) == spec_port_name(port),
{
    match port {
        22 => Some("SSH"),
        80 => Some("HTTP"),
        443 => Some("HTTPS"),
        445 => Some("SMB"),
        7000 => Some("AirPlay"),
        8008 => Some("Cast"),
        9100 => Some("printing"),
        62078 => Some("iOS sync"),
        _ => None,
    }
}

// ---------------------------------------------------------------------------
// Filtering
// ---------------------------------------------------------------------------

/// `str::to_lowercase`: the full Unicode lowercase mapping.
pub uninterp spec fn lowercase(s: Seq<char>) -> Seq<char>;

/// `str::to_lowercase`. Claimed: the result is `lowercase` of the text.
#[verifier::external_body]
fn to_lowercase(s: &str) -> (r: String)
    ensures
        r@ == lowercase(s@),
{
    s.to_lowercase()
}

/// The texts the filter looks through, in order, lines apart.
pub open spec fn join_lines(ws: Seq<Seq<char>>) -> Seq<char>
    decreases ws.len(),
{
    if ws.len() == 0 {
        Seq::empty()
    } else if ws.len() == 1 {
        ws[0]
    } else {
        join_lines(ws.drop_last()) + seq!['\n'] + ws.last()
    }
}

/// The known ones among the address, name, type, model, vendor, MAC and host name.
pub open spec fn haystack_fields(d: Device) -> Seq<Seq<char>> {
    let opts = seq![
        Some(ipv4_text(d.ip)),
        opt_view(d.name),
        spec_kind_label(opt_view(d.kind), d.this_device, d.gateway),
        opt_view(d.model),
        opt_view(d.vendor),
        opt_view(d.mac),
        opt_view(d.hostname),
    ];
    known(opts)
}

pub open spec fn known(opts: Seq<Option<Seq<char>>>) -> Seq<Seq<char>>
    decreases opts.len(),
{
    if opts.len() == 0 {
        Seq::empty()
    } else {
        match opts.last() {
            Some(t) => known(opts.drop_last()).push(t),
            None => known(opts.drop_last()),
        }
    }
}

/// Everything the filter matches against, lowercased.
pub open spec fn spec_haystack(d: Device) -> Seq<char> {
    lowercase(join_lines(haystack_fields(d)))
}

fn push_known(v: &mut Vec<char>, n: &mut usize, o: Option<&str>, Ghost(acc): Ghost<Seq<Option<Seq<char>>>>)
    requires
        old(v)@ == join_lines(known(acc)),
        *old(n) == known(acc).len(),
        *old(n) <= acc.len(),
        acc.len() < 100,
    ensures
        final(v)@ == join_lines(known(acc.push(crate::report::str_opt_view(o)))),
        *final(n) == known(acc.push(crate::report::str_opt_view(o))).len(),
        *final(n) <= acc.len() + 1,
{
    let ghost acc2 = acc.push(crate::report::str_opt_view(o));
    assert(acc2.drop_last() == acc);
    match o {
        Some(t) => {
            if *n > 0 {
                v.push('\n');
            }
            push_str(v, t);
            *n = *n + 1;
            assert(known(acc2).drop_last() == known(acc));
        },
        None => {},
    }
}

pub fn haystack(d: &Device) -> (r: String)
    ensures
        r@ == spec_haystack(*d),
{
    let ip = ipv4_string(d.ip);
    let kind = kind_label(d);
    let mut v: Vec<char> = Vec::new();
    let mut n: usize = 0;
    let ghost a0 = Seq::<Option<Seq<char>>>::empty();
    push_known(&mut v, &mut n, Some(ip.as_str()), Ghost(a0));
    let ghost a1 = a0.push(Some(ip@));
    push_known(&mut v, &mut n, opt_str(&d.name), Ghost(a1));
    let ghost a2 = a1.push(opt_view(d.name));
    push_known(&mut v, &mut n, opt_str(&kind), Ghost(a2));
    let ghost a3 = a2.push(opt_view(kind));
    push_known(&mut v, &mut n, opt_str(&d.model), Ghost(a3));
    let ghost a4 = a3.push(opt_view(d.model));
    push_known(&mut v, &mut n, opt_str(&d.vendor), Ghost(a4));
    let ghost a5 = a4.push(opt_view(d.vendor));
    push_known(&mut v, &mut n, opt_str(&d.mac), Ghost(a5));
    let ghost a6 = a5.push(opt_view(d.mac));
    push_known(&mut v, &mut n, opt_str(&d.hostname), Ghost(a6));
    let ghost a7 = a6.push(opt_view(d.hostname));
    assert(a7 == seq![
        Some(ipv4_text(d.ip)),
        opt_view(d.name),
        spec_kind_label(opt_view(d.kind), d.this_device, d.gateway),
        opt_view(d.model),
        opt_view(d.vendor),
        opt_view(d.mac),
        opt_view(d.hostname),
    ]);
    let joined = string_of(v.as_slice());
    to_lowercase(joined.as_str())
}

fn opt_str(o: &Option<String>) -> (r: Option<&str>)
    ensures
        crate::report::str_opt_view(r) == opt_view(*o),
{
    match o {
        Some(s) => Some(s.as_str()),
        None => None,
    }
}

/// Whether device `d` shows under the filter text `filter`.
pub open spec fn matches_filter(d: Device, filter: Seq<char>) -> bool {
    lowercase(filter).len() == 0 || contains(spec_haystack(d), lowercase(filter))
}

/// The indices of the devices that show under the filter, in order.
pub open spec fn spec_visible(ds: Seq<Device>, filter: Seq<char>) -> Seq<usize>
    decreases ds.len(),
{
    if ds.len() == 0 {
        Seq::empty()
    } else {
        let rest = spec_visible(ds.drop_last(), filter);
        if matches_filter(ds.last(), filter) {
            rest.push((ds.len() - 1) as usize)
        } else {
            rest
        }
    }
}

pub fn visible(devices: &[Device], filter: &str) -> (r: Vec<usize>)
    ensures
        r@ == spec_visible(devices@, filter@),
{
    let needle = to_lowercase(filter);
    let nc = crate::text::chars_of(needle.as_str());
    let mut out: Vec<usize> = Vec::new();
    let mut i: usize = 0;
    while i < devices.len()
        invariant
            i <= devices.len(),
            nc@ == lowercase(filter@),
            out@ == spec_visible(devices@.take(i as int), filter@),
        decreases devices.len() - i,
    {
        assert(devices@.take(i + 1).drop_last() == devices@.take(i as int));
        assert(devices@.take(i + 1).last() == devices@[i as int]);
        let keep = if nc.len() == 0 {
            true
        } else {
            let h = haystack(&devices[i]);
            let hc = crate::text::chars_of(h.as_str());
            contains_chars(hc.as_slice(), nc.as_slice())
        };
        if keep {
            out.push(i);
        }
        i += 1;
    }
    assert(devices@.take(devices.len() as int) == devices@);
    out
}


// ---------------------------------------------------------------------------
// The browser's state
// ---------------------------------------------------------------------------

/// The results of one pass over the network.
pub struct Scan {
    pub devices: Vec<Device>,
    /// e.g. "27 devices on 192.168.1.0/24 (en0) in 2.1s"
    pub summary: String,
    /// Caveats about what the scan couldn't see.
    pub notes: Vec<String>,
}

/// A key, as the browser tells them apart.
#[derive(Clone, Copy, PartialEq, Eq, Structural, Debug)]
pub enum Key {
    Char(char),
    Enter,
    Esc,
    Backspace,
    Up,
    Down,
    Home,
    End,
    PageUp,
    PageDown,
    Other,
}

/// A key press, and whether Control was held.
#[derive(Clone, Copy, PartialEq, Eq, Structural, Debug)]
pub struct KeyPress {
    pub key: Key,
    pub ctrl: bool,
}

/// What the caller is to do after a key.
#[derive(Clone, Copy, PartialEq, Eq, Structural, Debug)]
pub enum Action {
    Nothing,
    Quit,
    /// Copy this address to the clipboard.
    Copy(u32),
    /// Scan again, then hand the result to `rescanned`.
    Rescan,
}

/// A scrolling device list beside the full details of whichever device is selected.
pub struct Browser {
    pub scan: Scan,
    /// Indices into `scan.devices` that match the filter.
    pub visible: Vec<usize>,
    /// Position in `visible` of the selected row.
    pub selected: Option<usize>,
    pub filter: Vec<char>,
    pub typing_filter: bool,
    pub detail_scroll: u16,
    /// Rows of details that fit on screen, and how many there are, from the last draw.
    pub detail_height: u16,
    pub detail_lines: u16,
}

/// The browser's state apart from the scan.
pub struct BView {
    pub visible: Seq<usize>,
    pub selected: Option<usize>,
    pub filter: Seq<char>,
    pub typing: bool,
    pub scroll: u16,
    pub height: u16,
    pub lines: u16,
}

pub open spec fn bview(b: Browser) -> BView {
    BView {
        visible: b.visible@,
        selected: b.selected,
        filter: b.filter@,
        typing: b.typing_filter,
        scroll: b.detail_scroll,
        height: b.detail_height,
        lines: b.detail_lines,
    }
}

/// Every row shows a device, a row is selected exactly when there are rows,
/// and the selection is one of them.
pub open spec fn view_wf(ds: Seq<Device>, v: BView) -> bool {
    &&& forall|i: int| 0 <= i < v.visible.len() ==> #[trigger] v.visible[i] < ds.len()
    &&& match v.selected {
        Some(i) => i < v.visible.len(),
        None => v.visible.len() == 0,
    }
}

/// The address shown at `sel` in `vis`, if there is a row there.
pub open spec fn ip_at(ds: Seq<Device>, vis: Seq<usize>, sel: Option<usize>) -> Option<u32> {
    match sel {
        Some(i) => if i < vis.len() && vis[i as int] < ds.len() {
            Some(ds[vis[i as int] as int].ip)
        } else {
            None
        },
        None => None,
    }
}

/// The first row showing `ip`.
pub open spec fn row_of(ds: Seq<Device>, vis: Seq<usize>, ip: u32) -> Option<usize>
    decreases vis.len(),
{
    if vis.len() == 0 {
        None
    } else {
        match row_of(ds, vis.drop_last(), ip) {
            Some(p) => Some(p),
            None => if vis.last() < ds.len() && ds[vis.last() as int].ip == ip {
                Some((vis.len() - 1) as usize)
            } else {
                None
            },
        }
    }
}

/// Recompute which devices match the filter, keeping `keep` selected if it
/// still shows; the details go back to the top when the selection changes.
pub open spec fn spec_refilter(ds: Seq<Device>, v: BView, keep: Option<u32>) -> BView {
    let vis = spec_visible(ds, v.filter);
    let pos = match keep {
        Some(ip) => row_of(ds, vis, ip),
        None => None,
    };
    let sel = if vis.len() == 0 {
        None
    } else {
        Some(
            match pos {
                Some(p) => p,
                None => 0,
            },
        )
    };
    let before = ip_at(ds, vis, v.selected);
    BView {
        visible: vis,
        selected: sel,
        scroll: if ip_at(ds, vis, sel) != before {
            0
        } else {
            v.scroll
        },
        ..v
    }
}

/// Select row `i`, or the last one if there are fewer.
pub open spec fn spec_select(v: BView, i: int) -> BView {
    if v.visible.len() == 0 {
        v
    } else {
        let j = if i < v.visible.len() - 1 {
            i
        } else {
            v.visible.len() - 1
        };
        if v.selected == Some(j as usize) {
            v
        } else {
            BView { selected: Some(j as usize), scroll: 0, ..v }
        }
    }
}

/// Scroll the details by `by` rows, no further than their end.
pub open spec fn spec_scroll(v: BView, by: int) -> BView {
    let max: int = if v.lines > v.height {
        v.lines - v.height
    } else {
        0
    };
    let want = v.scroll + by;
    BView {
        scroll: (if want < 0 {
            0
        } else if want > max {
            max
        } else {
            want
        }) as u16,
        ..v
    }
}

/// A key while typing the filter.
pub open spec fn spec_filter_key(ds: Seq<Device>, v: BView, k: KeyPress) -> BView {
    let keep = ip_at(ds, v.visible, v.selected);
    match k.key {
        Key::Enter => spec_refilter(ds, BView { typing: false, ..v }, keep),
        Key::Esc => spec_refilter(ds, BView { typing: false, filter: Seq::empty(), ..v }, keep),
        Key::Backspace => spec_refilter(
            ds,
            BView {
                filter: if v.filter.len() > 0 {
                    v.filter.drop_last()
                } else {
                    v.filter
                },
                ..v
            },
            keep,
        ),
        Key::Char(c) => if c == 'c' && k.ctrl {
            spec_refilter(ds, BView { typing: false, filter: Seq::empty(), ..v }, keep)
        } else {
            spec_refilter(ds, BView { filter: v.filter.push(c), ..v }, keep)
        },
        _ => v,
    }
}

/// What a key does.
pub open spec fn spec_on_key(ds: Seq<Device>, v: BView, k: KeyPress) -> (BView, Action) {
    let next = match v.selected {
        Some(i) => i + 1,
        None => 0,
    };
    let prev = match v.selected {
        Some(i) => if i > 0 {
            i - 1
        } else {
            0
        },
        None => 0,
    };
    let half = v.height as int / 2;
    if v.typing {
        (spec_filter_key(ds, v, k), Action::Nothing)
    } else {
        match k.key {
            Key::Char(c) => if c == 'c' && k.ctrl {
                (v, Action::Quit)
            } else if c == 'q' {
                (v, Action::Quit)
            } else if c == 'j' {
                (spec_select(v, next), Action::Nothing)
            } else if c == 'k' {
                (spec_select(v, prev), Action::Nothing)
            } else if c == 'g' {
                (spec_select(v, 0), Action::Nothing)
            } else if c == 'G' {
                (spec_select(v, usize::MAX as int), Action::Nothing)
            } else if c == 'd' && k.ctrl {
                (spec_scroll(v, half), Action::Nothing)
            } else if c == 'u' && k.ctrl {
                (spec_scroll(v, -half), Action::Nothing)
            } else if c == 'J' {
                (spec_scroll(v, 1), Action::Nothing)
            } else if c == 'K' {
                (spec_scroll(v, -1), Action::Nothing)
            } else if c == 'y' {
                (
                    v,
                    match ip_at(ds, v.visible, v.selected) {
                        Some(ip) => Action::Copy(ip),
                        None => Action::Nothing,
                    },
                )
            } else if c == '/' {
                (BView { typing: true, ..v }, Action::Nothing)
            } else if c == 'r' {
                (v, Action::Rescan)
            } else {
                (v, Action::Nothing)
            },
            Key::Esc => if v.filter.len() > 0 {
                (
                    spec_refilter(
                        ds,
                        BView { filter: Seq::empty(), ..v },
                        ip_at(ds, v.visible, v.selected),
                    ),
                    Action::Nothing,
                )
            } else {
                (v, Action::Quit)
            },
            Key::Down => (spec_select(v, next), Action::Nothing),
            Key::Up => (spec_select(v, prev), Action::Nothing),
            Key::Home => (spec_select(v, 0), Action::Nothing),
            Key::End => (spec_select(v, usize::MAX as int), Action::Nothing),
            Key::PageDown => (spec_scroll(v, half), Action::Nothing),
            Key::PageUp => (spec_scroll(v, -half), Action::Nothing),
            Key::Enter => (
                v,
                match ip_at(ds, v.visible, v.selected) {
                    Some(ip) => Action::Copy(ip),
                    None => Action::Nothing,
                },
            ),
            _ => (v, Action::Nothing),
        }
    }
}

/// Scrolling never goes past the end of the details.
pub proof fn lemma_scroll_bounded(v: BView, by: int)
    ensures
        spec_scroll(v, by).scroll <= (if v.lines > v.height {
            v.lines - v.height
        } else {
            0
        }),
{
}

impl Browser {
    pub open spec fn wf(&self) -> bool {
        view_wf(self.scan.devices@, bview(*self))
    }

    /// The browser over a fresh scan, nothing filtered, the first device selected.
    pub fn start(scan: Scan) -> (r: Browser)
        ensures
            r.wf(),
            r.scan == scan,
            bview(r) == spec_refilter(
                scan.devices@,
                BView {
                    visible: Seq::empty(),
                    selected: None,
                    filter: Seq::empty(),
                    typing: false,
                    scroll: 0,
                    height: 0,
                    lines: 0,
                },
                None,
            ),
    {
        let mut b = Browser {
            scan,
            visible: Vec::new(),
            selected: None,
            filter: Vec::new(),
            typing_filter: false,
            detail_scroll: 0,
            detail_height: 0,
            detail_lines: 0,
        };
        b.refilter(None);
        b
    }

    /// The address of the selected device.
    pub fn selected_ip(&self) -> (r: Option<u32>)
        requires
            forall|i: int| 0 <= i < self.visible@.len() ==> #[trigger] self.visible@[i] < self.scan.devices@.len(),
        ensures
            r == ip_at(self.scan.devices@, self.visible@, self.selected),
    {
        match self.selected {
            Some(i) => if i < self.visible.len() {
                Some(self.scan.devices[self.visible[i]].ip)
            } else {
                None
            },
            None => None,
        }
    }

    fn find_row(&self, vis: &Vec<usize>, ip: u32) -> (r: Option<usize>)
        requires
            forall|i: int| 0 <= i < vis@.len() ==> #[trigger] vis@[i] < self.scan.devices@.len(),
        ensures
            r == row_of(self.scan.devices@, vis@, ip),
            r matches Some(p) ==> p < vis@.len(),
    {
        let mut k: usize = 0;
        while k < vis.len()
            invariant
                k <= vis.len(),
                forall|i: int| 0 <= i < vis@.len() ==> #[trigger] vis@[i] < self.scan.devices@.len(),
                row_of(self.scan.devices@, vis@.take(k as int), ip) is None,
            decreases vis.len() - k,
        {
            assert(vis@.take(k + 1).drop_last() == vis@.take(k as int));
            assert(vis@.take(k + 1).last() == vis@[k as int]);
            if self.scan.devices[vis[k]].ip == ip {
                proof {
                    lemma_row_of_prefix(self.scan.devices@, vis@, k as int + 1, ip);
                }
                return Some(k);
            }
            k += 1;
        }
        assert(vis@.take(vis.len() as int) == vis@);
        None
    }

    /// Recompute which devices match the filter, keeping `keep` selected if it still shows.
    pub fn refilter(&mut self, keep: Option<u32>)
        ensures
            final(self).scan == old(self).scan,
            bview(*final(self)) == spec_refilter(old(self).scan.devices@, bview(*old(self)), keep),
            view_wf(final(self).scan.devices@, bview(*final(self))),
    {
        let vis = visible(self.scan.devices.as_slice(), string_of(self.filter.as_slice()).as_str());
        proof {
            lemma_visible_bounds(self.scan.devices@, self.filter@);
        }
        let pos = match keep {
            Some(ip) => self.find_row(&vis, ip),
            None => None,
        };
        let before = match self.selected {
            Some(i) => if i < vis.len() {
                Some(self.scan.devices[vis[i]].ip)
            } else {
                None
            },
            None => None,
        };
        let sel = if vis.len() == 0 {
            None
        } else {
            Some(
                match pos {
                    Some(p) => p,
                    None => 0,
                },
            )
        };
        let after = match sel {
            Some(i) => Some(self.scan.devices[vis[i]].ip),
            None => None,
        };
        self.visible = vis;
        self.selected = sel;
        if after != before {
            self.detail_scroll = 0;
        }
    }

    /// Select row `i`, or the last one if there are fewer.
    pub fn select(&mut self, i: usize)
        ensures
            final(self).scan == old(self).scan,
            bview(*final(self)) == spec_select(bview(*old(self)), i as int),
    {
        if self.visible.len() == 0 {
            return;
        }
        let j = if i < self.visible.len() - 1 {
            i
        } else {
            self.visible.len() - 1
        };
        if self.selected != Some(j) {
            self.selected = Some(j);
            self.detail_scroll = 0;
        }
    }

    /// Scroll the details by `by` rows, no further than their end.
    pub fn scroll_detail(&mut self, by: i32)
        requires
            old(self).detail_scroll as int + by <= i32::MAX,
        ensures
            final(self).scan == old(self).scan,
            bview(*final(self)) == spec_scroll(bview(*old(self)), by as int),
    {
        let max: i32 = if self.detail_lines > self.detail_height {
            (self.detail_lines - self.detail_height) as i32
        } else {
            0
        };
        let want: i32 = self.detail_scroll as i32 + by;
        let s: i32 = if want < 0 {
            0
        } else if want > max {
            max
        } else {
            want
        };
        self.detail_scroll = s as u16;
    }

    /// How many rows of details there are and how many fit, from a draw; the
    /// scroll position stays within them.
    pub fn set_detail_size(&mut self, lines: u16, height: u16)
        ensures
            final(self).scan == old(self).scan,
            bview(*final(self)) == spec_scroll(BView { lines, height, ..bview(*old(self)) }, 0),
    {
        self.detail_lines = lines;
        self.detail_height = height;
        self.scroll_detail(0);
    }

    /// A key while typing the filter.
    fn filter_key(&mut self, k: KeyPress)
        requires
            view_wf(old(self).scan.devices@, bview(*old(self))),
        ensures
            final(self).scan == old(self).scan,
            bview(*final(self)) == spec_filter_key(old(self).scan.devices@, bview(*old(self)), k),
    {
        let keep = self.selected_ip();
        match k.key {
            Key::Enter => {
                self.typing_filter = false;
            },
            Key::Esc => {
                self.typing_filter = false;
                self.filter = Vec::new();
            },
            Key::Backspace => {
                if self.filter.len() > 0 {
                    self.filter.pop();
                }
            },
            Key::Char(c) => {
                if c == 'c' && k.ctrl {
                    self.typing_filter = false;
                    self.filter = Vec::new();
                } else {
                    self.filter.push(c);
                }
            },
            _ => {
                return;
            },
        }
        self.refilter(keep);
    }

    /// Handles a key and says what the caller is to do.
    pub fn on_key(&mut self, k: KeyPress) -> (r: Action)
        requires
            old(self).wf(),
        ensures
            final(self).wf(),
            final(self).scan == old(self).scan,
            (bview(*final(self)), r) == spec_on_key(old(self).scan.devices@, bview(*old(self)), k),
    {
        let ghost ds = self.scan.devices@;
        assert(self.selected matches Some(i) ==> i < self.visible@.len());
        if self.typing_filter {
            self.filter_key(k);
            proof {
                lemma_filter_key_wf(ds, bview(*old(self)), k);
            }
            return Action::Nothing;
        }
        let rows = self.visible.len();
        assert(self.selected matches Some(i) ==> i < rows);
        let next: usize = match self.selected {
            Some(i) => i + 1,
            None => 0,
        };
        let prev: usize = match self.selected {
            Some(i) => if i > 0 {
                i - 1
            } else {
                0
            },
            None => 0,
        };
        let half: i32 = self.detail_height as i32 / 2;
        let copy = match self.selected_ip() {
            Some(ip) => Action::Copy(ip),
            None => Action::Nothing,
        };
        match k.key {
            Key::Char(c) => {
                if c == 'c' && k.ctrl {
                    Action::Quit
                } else if c == 'q' {
                    Action::Quit
                } else if c == 'j' {
                    self.select(next);
                    Action::Nothing
                } else if c == 'k' {
                    self.select(prev);
                    Action::Nothing
                } else if c == 'g' {
                    self.select(0);
                    Action::Nothing
                } else if c == 'G' {
                    self.select(usize::MAX);
                    Action::Nothing
                } else if c == 'd' && k.ctrl {
                    self.scroll_detail(half);
                    Action::Nothing
                } else if c == 'u' && k.ctrl {
                    self.scroll_detail(-half);
                    Action::Nothing
                } else if c == 'J' {
                    self.scroll_detail(1);
                    Action::Nothing
                } else if c == 'K' {
                    self.scroll_detail(-1);
                    Action::Nothing
                } else if c == 'y' {
                    copy
                } else if c == '/' {
                    self.typing_filter = true;
                    Action::Nothing
                } else if c == 'r' {
                    Action::Rescan
                } else {
                    Action::Nothing
                }
            },
            Key::Esc => {
                if self.filter.len() > 0 {
                    let keep = self.selected_ip();
                    self.filter = Vec::new();
                    self.refilter(keep);
                    Action::Nothing
                } else {
                    Action::Quit
                }
            },
            Key::Down => {
                self.select(next);
                Action::Nothing
            },
            Key::Up => {
                self.select(prev);
                Action::Nothing
            },
            Key::Home => {
                self.select(0);
                Action::Nothing
            },
            Key::End => {
                self.select(usize::MAX);
                Action::Nothing
            },
            Key::PageDown => {
                self.scroll_detail(half);
                Action::Nothing
            },
            Key::PageUp => {
                self.scroll_detail(-half);
                Action::Nothing
            },
            Key::Enter => copy,
            _ => Action::Nothing,
        }
    }

    /// A new scan replaces the old one, keeping the selected address selected
    /// if it is still there.
    pub fn rescanned(&mut self, scan: Scan)
        requires
            old(self).wf(),
        ensures
            final(self).wf(),
            final(self).scan == scan,
            bview(*final(self)) == spec_refilter(
                scan.devices@,
                bview(*old(self)),
                ip_at(old(self).scan.devices@, old(self).visible@, old(self).selected),
            ),
    {
        let keep = self.selected_ip();
        self.scan = scan;
        self.refilter(keep);
    }
}

proof fn lemma_row_of_prefix(ds: Seq<Device>, vis: Seq<usize>, n: int, ip: u32)
    requires
        0 < n <= vis.len(),
        row_of(ds, vis.take(n - 1), ip) is None,
        vis[n - 1] < ds.len(),
        ds[vis[n - 1] as int].ip == ip,
    ensures
        row_of(ds, vis, ip) == Some((n - 1) as usize),
    decreases vis.len() - n,
{
    assert(vis.take(n).drop_last() == vis.take(n - 1));
    assert(row_of(ds, vis.take(n), ip) == Some((n - 1) as usize));
    if n < vis.len() {
        lemma_row_of_prefix_keep(ds, vis, n, ip);
    } else {
        assert(vis.take(n) == vis);
    }
}

proof fn lemma_row_of_prefix_keep(ds: Seq<Device>, vis: Seq<usize>, n: int, ip: u32)
    requires
        0 < n <= vis.len(),
        row_of(ds, vis.take(n), ip) is Some,
    ensures
        row_of(ds, vis, ip) == row_of(ds, vis.take(n), ip),
    decreases vis.len() - n,
{
    if n < vis.len() {
        assert(vis.take(n + 1).drop_last() == vis.take(n));
        lemma_row_of_prefix_keep(ds, vis, n + 1, ip);
    } else {
        assert(vis.take(n) == vis);
    }
}

proof fn lemma_visible_bounds(ds: Seq<Device>, filter: Seq<char>)
    ensures
        forall|i: int| 0 <= i < spec_visible(ds, filter).len() ==> #[trigger] spec_visible(ds, filter)[i] < ds.len(),
    decreases ds.len(),
{
    if ds.len() > 0 {
        lemma_visible_bounds(ds.drop_last(), filter);
        let rest = spec_visible(ds.drop_last(), filter);
        assert forall|i: int| 0 <= i < spec_visible(ds, filter).len() implies #[trigger] spec_visible(
            ds,
            filter,
        )[i] < ds.len() by {
            if i < rest.len() {
                assert(spec_visible(ds, filter)[i] == rest[i]);
            }
        }
    }
}

proof fn lemma_row_of_bound(ds: Seq<Device>, vis: Seq<usize>, ip: u32)
    ensures
        row_of(ds, vis, ip) matches Some(p) ==> p < vis.len(),
    decreases vis.len(),
{
    if vis.len() > 0 {
        lemma_row_of_bound(ds, vis.drop_last(), ip);
    }
}

proof fn lemma_refilter_wf(ds: Seq<Device>, v: BView, keep: Option<u32>)
    ensures
        view_wf(ds, spec_refilter(ds, v, keep)),
{
    lemma_visible_bounds(ds, v.filter);
    if let Some(ip) = keep {
        lemma_row_of_bound(ds, spec_visible(ds, v.filter), ip);
    }
}

proof fn lemma_filter_key_wf(ds: Seq<Device>, v: BView, k: KeyPress)
    requires
        view_wf(ds, v),
    ensures
        view_wf(ds, spec_filter_key(ds, v, k)),
{
    let keep = ip_at(ds, v.visible, v.selected);
    lemma_refilter_wf(ds, BView { typing: false, ..v }, keep);
    lemma_refilter_wf(ds, BView { typing: false, filter: Seq::empty(), ..v }, keep);
    if v.filter.len() > 0 {
        lemma_refilter_wf(ds, BView { filter: v.filter.drop_last(), ..v }, keep);
    } else {
        lemma_refilter_wf(ds, v, keep);
    }
    match k.key {
        Key::Char(c) => {
            lemma_refilter_wf(ds, BView { filter: v.filter.push(c), ..v }, keep);
        },
        _ => {},
    }
}


// ---------------------------------------------------------------------------
// The details pane
// ---------------------------------------------------------------------------

/// One line of the details pane.
pub enum Detail {
    /// Type and model, set apart from the rest.
    Heading(String),
    Blank,
    /// A labelled value.
    Field(&'static str, String),
    /// A section title.
    Section(&'static str),
    /// An advertised service type and its instance name, dimmed when it says
    /// nothing about what the device is.
    Service(String, String, bool),
    /// A TXT key and value of the service above.
    Txt(String, String),
}

pub enum DetailV {
    Heading(Seq<char>),
    Blank,
    Field(Seq<char>, Seq<char>),
    Section(Seq<char>),
    Service(Seq<char>, Seq<char>, bool),
    Txt(Seq<char>, Seq<char>),
}

pub open spec fn detail_view(d: Detail) -> DetailV {
    match d {
        Detail::Heading(h) => DetailV::Heading(h@),
        Detail::Blank => DetailV::Blank,
        Detail::Field(l, v) => DetailV::Field(l@, v@),
        Detail::Section(t) => DetailV::Section(t@),
        Detail::Service(s, i, dim) => DetailV::Service(s@, i@, dim),
        Detail::Txt(k, v) => DetailV::Txt(k@, v@),
    }
}

pub open spec fn details_view(v: Seq<Detail>) -> Seq<DetailV> {
    v.map_values(|d: Detail| detail_view(d))
}

/// A labelled value, when there is one to show.
pub open spec fn field_line(label: Seq<char>, value: Option<Seq<char>>) -> Seq<DetailV> {
    match value {
        Some(v) => if v.len() > 0 {
            seq![DetailV::Field(label, v)]
        } else {
            Seq::empty()
        },
        None => Seq::empty(),
    }
}

pub open spec fn section_lines(title: Seq<char>) -> Seq<DetailV> {
    seq![DetailV::Blank, DetailV::Section(title)]
}

pub open spec fn dot_sep() -> Seq<char> {
    seq![' ', '\u{b7}', ' ']
}

/// The known ones of two texts, joined by `sep`.
pub open spec fn join_two(a: Option<Seq<char>>, b: Option<Seq<char>>, sep: Seq<char>) -> Seq<char> {
    match (a, b) {
        (Some(x), Some(y)) => x + sep + y,
        (Some(x), None) => x,
        (None, Some(y)) => y,
        (None, None) => Seq::empty(),
    }
}

/// A port and, where it has one, its usual name.
pub open spec fn port_item(p: u16) -> Seq<char> {
    match spec_port_name(p) {
        Some(n) => crate::text::dec(p as nat) + seq![' '] + n,
        None => crate::text::dec(p as nat),
    }
}

pub open spec fn port_items(ps: Seq<u16>) -> Seq<char>
    decreases ps.len(),
{
    if ps.len() == 0 {
        Seq::empty()
    } else if ps.len() == 1 {
        port_item(ps[0])
    } else {
        port_items(ps.drop_last()) + dot_sep() + port_item(ps.last())
    }
}

pub open spec fn txt_lines(o: Option<crate::device::StrMap<String>>) -> Seq<DetailV> {
    match o {
        Some(t) => t@.map_values(|kv: (String, String)| DetailV::Txt(kv.0@, kv.1@)),
        None => Seq::empty(),
    }
}

/// The services among `ps` that are noisy (or not), each followed by its TXT pairs.
pub open spec fn service_lines(m: crate::device::MdnsInfo, ps: Seq<(String, String)>, noisy: bool) -> Seq<
    DetailV,
>
    decreases ps.len(),
{
    if ps.len() == 0 {
        Seq::empty()
    } else {
        let rest = service_lines(m, ps.drop_last(), noisy);
        let p = ps.last();
        if crate::text::is_one_of(p.0@, crate::report::noisy_services()) == noisy {
            rest + seq![DetailV::Service(p.0@, p.1@, noisy)] + txt_lines(
                crate::device::lookup(m.txt@, p.0@),
            )
        } else {
            rest
        }
    }
}

pub open spec fn mdns_lines(o: Option<crate::device::MdnsInfo>) -> Seq<DetailV> {
    match o {
        Some(m) => section_lines("Bonjour (mDNS)"@) + field_line("Name"@, opt_view(m.hostname))
            + service_lines(m, m.services@, false) + service_lines(m, m.services@, true),
        None => Seq::empty(),
    }
}

pub open spec fn ssdp_lines(o: Option<crate::device::SsdpInfo>) -> Seq<DetailV> {
    match o {
        Some(s) => {
            let model = join_two(opt_view(s.model_name), opt_view(s.model_number), seq![' ']);
            section_lines("UPnP"@) + field_line("Name"@, opt_view(s.friendly_name)) + field_line(
                "Manufacturer"@,
                opt_view(s.manufacturer),
            ) + field_line(
                "Model"@,
                if s.model_name is None && s.model_number is None {
                    None
                } else {
                    Some(model)
                },
            ) + field_line("Device type"@, opt_view(s.device_type)) + field_line(
                "Server"@,
                opt_view(s.server),
            )
        },
        None => Seq::empty(),
    }
}

pub open spec fn http_lines(o: Option<crate::device::Banner>) -> Seq<DetailV> {
    match o {
        Some(h) => section_lines("Web (port 80)"@) + field_line("Title"@, opt_view(h.title))
            + field_line("Server"@, opt_view(h.server)),
        None => Seq::empty(),
    }
}

/// Everything known about a device, grouped by where it came from.
pub open spec fn spec_details(d: Device) -> Seq<DetailV> {
    let heading = join_two(
        spec_kind_label(opt_view(d.kind), d.this_device, d.gateway),
        opt_view(d.model),
        dot_sep(),
    );
    let top = if heading.len() > 0 {
        seq![DetailV::Heading(heading), DetailV::Blank]
    } else {
        Seq::empty()
    };
    let vendor = match d.vendor {
        Some(v) => Some(v@),
        None => if d.randomized_mac {
            Some("unknown (private MAC)"@)
        } else {
            None
        },
    };
    let ports = if d.open_ports@.len() > 0 {
        field_line("Open ports"@, Some(port_items(d.open_ports@)))
    } else {
        Seq::empty()
    };
    top + field_line("IP"@, Some(ipv4_text(d.ip))) + field_line("MAC"@, opt_view(d.mac))
        + field_line("Vendor"@, vendor) + field_line("Hostname"@, opt_view(d.hostname)) + ports
        + mdns_lines(d.mdns) + ssdp_lines(d.ssdp) + http_lines(d.http)
}

fn push_line(out: &mut Vec<Detail>, d: Detail)
    ensures
        details_view(final(out)@) == details_view(old(out)@).push(detail_view(d)),
{
    let ghost g = d;
    out.push(d);
    assert(details_view(out@) =~= details_view(old(out)@).push(detail_view(g)));
}

fn push_field(out: &mut Vec<Detail>, label: &'static str, value: Option<String>)
    ensures
        details_view(final(out)@) == details_view(old(out)@) + field_line(label@, opt_view(value)),
{
    match value {
        Some(v) => {
            if v.as_str().unicode_len() > 0 {
                push_line(out, Detail::Field(label, v));
                assert(details_view(out@) =~= details_view(old(out)@) + field_line(label@, opt_view(value)));
            } else {
                assert(details_view(out@) =~= details_view(old(out)@) + field_line(label@, opt_view(value)));
            }
        },
        None => {
            assert(details_view(out@) =~= details_view(old(out)@) + field_line(label@, opt_view(value)));
        },
    }
}

fn push_section(out: &mut Vec<Detail>, title: &'static str)
    ensures
        details_view(final(out)@) == details_view(old(out)@) + section_lines(title@),
{
    push_line(out, Detail::Blank);
    push_line(out, Detail::Section(title));
    assert(details_view(out@) =~= details_view(old(out)@) + section_lines(title@));
}

fn clone_opt(o: &Option<String>) -> (r: Option<String>)
    ensures
        opt_view(r) == opt_view(*o),
{
    match o {
        Some(s) => Some(s.clone()),
        None => None,
    }
}

fn join_two_exec(a: &Option<String>, b: &Option<String>, sep: &str) -> (r: String)
    ensures
        r@ == join_two(opt_view(*a), opt_view(*b), sep@),
{
    let mut v: Vec<char> = Vec::new();
    match a {
        Some(x) => push_str(&mut v, x.as_str()),
        None => {},
    }
    match (a, b) {
        (Some(_), Some(_)) => push_str(&mut v, sep),
        _ => {},
    }
    match b {
        Some(y) => push_str(&mut v, y.as_str()),
        None => {},
    }
    string_of(v.as_slice())
}

fn port_items_exec(ps: &Vec<u16>) -> (r: String)
    ensures
        r@ == port_items(ps@),
{
    let mut v: Vec<char> = Vec::new();
    let mut i: usize = 0;
    while i < ps.len()
        invariant
            i <= ps.len(),
            v@ == port_items(ps@.take(i as int)),
        decreases ps.len() - i,
    {
        assert(ps@.take(i + 1).drop_last() == ps@.take(i as int));
        if i > 0 {
            push_str(&mut v, " \u{b7} ");
            assert(" \u{b7} "@ == dot_sep()) by {
                reveal_strlit(" \u{b7} ");
            }
        }
        crate::text::push_dec(&mut v, ps[i] as u64);
        match port_name(ps[i]) {
            Some(n) => {
                v.push(' ');
                push_str(&mut v, n);
            },
            None => {},
        }
        i += 1;
    }
    assert(ps@.take(ps.len() as int) == ps@);
    string_of(v.as_slice())
}

fn push_services(out: &mut Vec<Detail>, m: &crate::device::MdnsInfo, noisy: bool)
    ensures
        details_view(final(out)@) == details_view(old(out)@) + service_lines(*m, m.services@, noisy),
{
    let ps = m.services.as_slice();
    let mut i: usize = 0;
    while i < ps.len()
        invariant
            i <= ps.len(),
            ps@ == m.services@,
            details_view(out@) == details_view(old(out)@) + service_lines(*m, ps@.take(i as int), noisy),
        decreases ps.len() - i,
    {
        assert(ps@.take(i + 1).drop_last() == ps@.take(i as int));
        assert(ps@.take(i + 1).last() == ps@[i as int]);
        if crate::report::is_noisy(ps[i].0.as_str()) == noisy {
            let ghost before = details_view(out@);
            push_line(out, Detail::Service(ps[i].0.clone(), ps[i].1.clone(), noisy));
            let ghost mid = details_view(out@);
            match m.txt.get_str(ps[i].0.as_str()) {
                Some(t) => {
                    let kv = t.as_slice();
                    let mut j: usize = 0;
                    while j < kv.len()
                        invariant
                            j <= kv.len(),
                            kv@ == t@,
                            details_view(out@) == mid + kv@.take(j as int).map_values(
                                |p: (String, String)| DetailV::Txt(p.0@, p.1@),
                            ),
                        decreases kv.len() - j,
                    {
                        push_line(out, Detail::Txt(kv[j].0.clone(), kv[j].1.clone()));
                        assert(kv@.take(j + 1).map_values(|p: (String, String)| DetailV::Txt(p.0@, p.1@))
                            == kv@.take(j as int).map_values(
                            |p: (String, String)| DetailV::Txt(p.0@, p.1@),
                        ).push(DetailV::Txt(kv@[j as int].0@, kv@[j as int].1@)));
                        j += 1;
                    }
                    assert(kv@.take(kv.len() as int) == kv@);
                },
                None => {},
            }
            assert(details_view(out@) == before + seq![DetailV::Service(ps@[i as int].0@, ps@[i as int].1@, noisy)]
                + txt_lines(crate::device::lookup(m.txt@, ps@[i as int].0@)));
        }
        i += 1;
    }
    assert(ps@.take(ps.len() as int) == ps@);
}

pub open spec fn basic_lines(d: Device) -> Seq<DetailV> {
    let heading = join_two(
        spec_kind_label(opt_view(d.kind), d.this_device, d.gateway),
        opt_view(d.model),
        dot_sep(),
    );
    let top = if heading.len() > 0 {
        seq![DetailV::Heading(heading), DetailV::Blank]
    } else {
        Seq::empty()
    };
    let vendor = match d.vendor {
        Some(v) => Some(v@),
        None => if d.randomized_mac {
            Some("unknown (private MAC)"@)
        } else {
            None
        },
    };
    let ports = if d.open_ports@.len() > 0 {
        field_line("Open ports"@, Some(port_items(d.open_ports@)))
    } else {
        Seq::empty()
    };
    top + field_line("IP"@, Some(ipv4_text(d.ip))) + field_line("MAC"@, opt_view(d.mac))
        + field_line("Vendor"@, vendor) + field_line("Hostname"@, opt_view(d.hostname)) + ports
}

proof fn lemma_details_parts(d: Device)
    ensures
        spec_details(d) == basic_lines(d) + mdns_lines(d.mdns) + ssdp_lines(d.ssdp) + http_lines(d.http),
{
}

#[verifier::rlimit(40)]
fn push_basics(out: &mut Vec<Detail>, d: &Device)
    ensures
        details_view(final(out)@) == details_view(old(out)@) + basic_lines(*d),
{
    let kind = kind_label(d);
    let heading = join_two_exec(&kind, &d.model, " \u{b7} ");
    assert(" \u{b7} "@ == dot_sep()) by {
        reveal_strlit(" \u{b7} ");
    }
    let ghost start = details_view(out@);
    if heading.as_str().unicode_len() > 0 {
        push_line(out, Detail::Heading(heading));
        push_line(out, Detail::Blank);
    }
    let ghost top = details_view(out@);
    push_field(out, "IP", Some(ipv4_string(d.ip)));
    push_field(out, "MAC", clone_opt(&d.mac));
    let vendor = match &d.vendor {
        Some(v) => Some(v.clone()),
        None => if d.randomized_mac {
            Some(crate::text::owned("unknown (private MAC)"))
        } else {
            None
        },
    };
    push_field(out, "Vendor", vendor);
    push_field(out, "Hostname", clone_opt(&d.hostname));
    if d.open_ports.len() > 0 {
        push_field(out, "Open ports", Some(port_items_exec(&d.open_ports)));
    }
    assert(details_view(out@) =~= start + basic_lines(*d));
}

fn push_mdns(out: &mut Vec<Detail>, o: &Option<crate::device::MdnsInfo>)
    ensures
        details_view(final(out)@) == details_view(old(out)@) + mdns_lines(*o),
{
    match o {
        Some(m) => {
            push_section(out, "Bonjour (mDNS)");
            push_field(out, "Name", clone_opt(&m.hostname));
            push_services(out, m, false);
            push_services(out, m, true);
            assert(details_view(out@) =~= details_view(old(out)@) + mdns_lines(*o));
        },
        None => {
            assert(details_view(out@) =~= details_view(old(out)@) + mdns_lines(*o));
        },
    }
}

fn push_ssdp(out: &mut Vec<Detail>, o: &Option<crate::device::SsdpInfo>)
    ensures
        details_view(final(out)@) == details_view(old(out)@) + ssdp_lines(*o),
{
    match o {
        Some(s) => {
            push_section(out, "UPnP");
            push_field(out, "Name", clone_opt(&s.friendly_name));
            push_field(out, "Manufacturer", clone_opt(&s.manufacturer));
            assert(" "@ == seq![' ']) by {
                reveal_strlit(" ");
            }
            let model = if s.model_name.is_none() && s.model_number.is_none() {
                None
            } else {
                Some(join_two_exec(&s.model_name, &s.model_number, " "))
            };
            push_field(out, "Model", model);
            push_field(out, "Device type", clone_opt(&s.device_type));
            push_field(out, "Server", clone_opt(&s.server));
            assert(details_view(out@) =~= details_view(old(out)@) + ssdp_lines(*o));
        },
        None => {
            assert(details_view(out@) =~= details_view(old(out)@) + ssdp_lines(*o));
        },
    }
}

fn push_http(out: &mut Vec<Detail>, o: &Option<crate::device::Banner>)
    ensures
        details_view(final(out)@) == details_view(old(out)@) + http_lines(*o),
{
    match o {
        Some(h) => {
            push_section(out, "Web (port 80)");
            push_field(out, "Title", clone_opt(&h.title));
            push_field(out, "Server", clone_opt(&h.server));
            assert(details_view(out@) =~= details_view(old(out)@) + http_lines(*o));
        },
        None => {
            assert(details_view(out@) =~= details_view(old(out)@) + http_lines(*o));
        },
    }
}

/// The lines of the details pane for `d`.
pub fn details(d: &Device) -> (r: Vec<Detail>)
    ensures
        details_view(r@) == spec_details(*d),
{
    let mut out: Vec<Detail> = Vec::new();
    assert(details_view(out@) =~= Seq::<DetailV>::empty());
    push_basics(&mut out, d);
    push_mdns(&mut out, &d.mdns);
    push_ssdp(&mut out, &d.ssdp);
    push_http(&mut out, &d.http);
    proof {
        lemma_details_parts(*d);
    }
    assert(details_view(out@) =~= spec_details(*d));
    out
}

} // verus!

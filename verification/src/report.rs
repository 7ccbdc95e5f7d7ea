//! The printed report: which columns a table has, and what each cell says.
use vstd::prelude::*;
use crate::classify::opt_view;
use crate::device::{Device, MdnsInfo};
use crate::net::{ipv4_string, ipv4_text};
use crate::services::{Service, skey};
use crate::text::{chars_of, dec, is_control, is_control_char, is_one_of, is_one_of_exec, push_dec,
    push_str, string_of, strs};

verus! {

/// Shown on a terminal: not a control character, and not a bidirectional
/// override or isolate that could reorder the rest of a row.
pub open spec fn shown(c: char) -> bool {
    !is_control(c) && !('\u{202a}' <= c && c <= '\u{202e}') && !('\u{2066}' <= c && c <= '\u{2069}')
}

/// `s` with the characters that are not shown removed, the rest in order.
pub open spec fn printable_seq(s: Seq<char>) -> Seq<char>
    decreases s.len(),
{
    if s.len() == 0 {
        s
    } else {
        let r = printable_seq(s.drop_last());
        if shown(s.last()) {
            r.push(s.last())
        } else {
            r
        }
    }
}

/// `s` with terminal control characters removed. Names and models come from
/// the network, and an ESC or BEL in one could otherwise drive the terminal
/// (set the title, write the clipboard, hide rows). Bidi overrides go too, so
/// a name can't visually reorder the rest of its row.
pub fn printable(s: &str) -> (r: String)
    ensures
        r@ == printable_seq(s@),
{
    let v = chars_of(s);
    let mut out: Vec<char> = Vec::new();
    let mut i: usize = 0;
    while i < v.len()
        invariant
            i <= v.len(),
            v@ == s@,
            out@ == printable_seq(v@.take(i as int)),
        decreases v.len() - i,
    {
        let c = v[i];
        assert(v@.take(i + 1).drop_last() == v@.take(i as int));
        if !is_control_char(c) && !('\u{202a}' <= c && c <= '\u{202e}') && !('\u{2066}' <= c && c
            <= '\u{2069}') {
            out.push(c);
        }
        i += 1;
    }
    assert(v@.take(v.len() as int) == v@);
    string_of(out.as_slice())
}

/// Nothing that is not shown survives, and text that is all shown is kept whole.
pub proof fn lemma_printable(s: Seq<char>)
    ensures
        forall|i: int| 0 <= i < printable_seq(s).len() ==> shown(#[trigger] printable_seq(s)[i]),
        printable_seq(s).len() <= s.len(),
        (forall|i: int| 0 <= i < s.len() ==> shown(#[trigger] s[i])) ==> printable_seq(s) == s,
    decreases s.len(),
{
    if s.len() > 0 {
        lemma_printable(s.drop_last());
        let r = printable_seq(s.drop_last());
        assert forall|i: int| 0 <= i < printable_seq(s).len() implies shown(
            #[trigger] printable_seq(s)[i],
        ) by {
            if i < r.len() {
                assert(printable_seq(s)[i] == r[i]);
            }
        }
        if forall|i: int| 0 <= i < s.len() ==> shown(#[trigger] s[i]) {
            assert forall|i: int| 0 <= i < s.drop_last().len() implies shown(
                #[trigger] s.drop_last()[i],
            ) by {
                assert(s.drop_last()[i] == s[i]);
            }
            assert(shown(s[s.len() - 1]));
            assert(s.drop_last().push(s.last()) == s);
        }
    }
}

/// A cell's colour.
#[derive(Clone, Copy, PartialEq, Eq, Structural, Debug)]
pub enum Color {
    Green,
    Cyan,
    Yellow,
    DarkGrey,
}

/// One table cell before rendering. Empty cells are drawn as a dimmed row of
/// periods spanning the column, a leader line that carries the eye from the
/// IP across to the data on the right.
pub struct Field {
    pub text: Option<String>,
    pub color: Option<Color>,
    pub bold: bool,
}

/// A cell's text, colour and weight.
pub open spec fn field_view(f: Field) -> (Option<Seq<char>>, Option<Color>, bool) {
    (opt_view(f.text), f.color, f.bold)
}

/// The text a cell shows for `text`: its printable characters, if any.
pub open spec fn cell_text(text: Option<Seq<char>>) -> Option<Seq<char>> {
    match text {
        Some(t) => if printable_seq(t).len() > 0 {
            Some(printable_seq(t))
        } else {
            None
        },
        None => None,
    }
}

pub open spec fn plain(text: Option<Seq<char>>) -> (Option<Seq<char>>, Option<Color>, bool) {
    (cell_text(text), None, false)
}

pub open spec fn tinted(text: Option<Seq<char>>, c: Color) -> (Option<Seq<char>>, Option<Color>, bool) {
    (cell_text(text), Some(c), false)
}

pub open spec fn strong(text: Option<Seq<char>>) -> (Option<Seq<char>>, Option<Color>, bool) {
    (cell_text(text), None, true)
}

/// A drawn cell.
pub struct Cell {
    pub text: String,
    pub color: Option<Color>,
    pub bold: bool,
}

pub open spec fn dots(n: nat) -> Seq<char>
    decreases n,
{
    if n == 0 {
        Seq::empty()
    } else {
        dots((n - 1) as nat).push('.')
    }
}

pub open spec fn str_opt_view(o: Option<&str>) -> Option<Seq<char>> {
    match o {
        Some(s) => Some(s@),
        None => None,
    }
}

impl Field {
    pub fn new(text: Option<&str>) -> (r: Field)
        ensures
            field_view(r) == plain(str_opt_view(text)),
    {
        let text = match text {
            Some(t) => {
                let p = printable(t);
                if p.as_str().unicode_len() > 0 {
                    Some(p)
                } else {
                    None
                }
            },
            None => None,
        };
        Field { text, color: None, bold: false }
    }

    pub fn fg(self, color: Color) -> (r: Field)
        ensures
            field_view(r) == (field_view(self).0, Some(color), field_view(self).2),
    {
        Field { text: self.text, color: Some(color), bold: self.bold }
    }

    pub fn bold(self) -> (r: Field)
        ensures
            field_view(r) == (field_view(self).0, field_view(self).1, true),
    {
        Field { text: self.text, color: self.color, bold: true }
    }

    /// How many characters the cell shows.
    pub fn width(&self) -> (r: usize)
        ensures
            r == (match self.text {
                Some(t) => t@.len(),
                None => 0,
            }),
    {
        match &self.text {
            Some(t) => t.as_str().unicode_len(),
            None => 0,
        }
    }

    /// The cell as drawn in a column `column_width` wide.
    pub fn render(self, column_width: usize) -> (r: Cell)
        ensures
            match self.text {
                Some(t) => r.text@ == t@ && r.color == self.color && r.bold == self.bold,
                None => r.text@ == dots(column_width as nat) && r.color == Some(Color::DarkGrey)
                    && !r.bold,
            },
    {
        match self.text {
            Some(t) => Cell { text: t, color: self.color, bold: self.bold },
            None => {
                let mut v: Vec<char> = Vec::new();
                let mut i: usize = 0;
                while i < column_width
                    invariant
                        i <= column_width,
                        v@ == dots(i as nat),
                    decreases column_width - i,
                {
                    v.push('.');
                    i += 1;
                }
                Cell { text: string_of(v.as_slice()), color: Some(Color::DarkGrey), bold: false }
            },
        }
    }
}

// ---------------------------------------------------------------------------
// The device table
// ---------------------------------------------------------------------------

/// The TYPE column, marking this machine and the gateway.
pub open spec fn spec_kind_label(kind: Option<Seq<char>>, this_device: bool, gateway: bool) -> Option<
    Seq<char>,
> {
    if this_device {
        Some(
            (match kind {
                Some(k) => k,
                None => "Computer"@,
            }) + " (this device)"@,
        )
    } else if gateway {
        match kind {
            Some(k) => if k == "Router"@ {
                Some("Router (gateway)"@)
            } else {
                Some(k + " (gateway)"@)
            },
            None => Some("Router (gateway)"@),
        }
    } else {
        kind
    }
}

pub fn kind_label(d: &Device) -> (r: Option<String>)
    ensures
        opt_view(r) == spec_kind_label(opt_view(d.kind), d.this_device, d.gateway),
{
    if d.this_device {
        let mut v: Vec<char> = Vec::new();
        match &d.kind {
            Some(k) => push_str(&mut v, k.as_str()),
            None => push_str(&mut v, "Computer"),
        }
        push_str(&mut v, " (this device)");
        Some(string_of(v.as_slice()))
    } else if d.gateway {
        match &d.kind {
            Some(k) => {
                let kc = chars_of(k.as_str());
                if crate::text::eq_str(kc.as_slice(), "Router") {
                    Some(crate::text::owned("Router (gateway)"))
                } else {
                    let mut v = kc;
                    push_str(&mut v, " (gateway)");
                    Some(string_of(v.as_slice()))
                }
            },
            None => Some(crate::text::owned("Router (gateway)")),
        }
    } else {
        match &d.kind {
            Some(k) => Some(k.clone()),
            None => None,
        }
    }
}

/// Infrastructure services that say nothing about what a device is.
pub open spec fn noisy_services() -> Seq<Seq<char>> {
    seq![
        "sleep-proxy"@,
        "trel"@,
        "srpl-tls"@,
        "meshcop"@,
        "ieee1588"@,
        "nrd"@,
        "infra-analytics"@,
        "dnssd-server"@,
        "device-info"@,
        "companion-link"@,
    ]
}

pub fn is_noisy(service: &str) -> (r: bool)
    ensures
        r == is_one_of(service@, noisy_services()),
{
    let noisy: [&str; 10] = [
        "sleep-proxy",
        "trel",
        "srpl-tls",
        "meshcop",
        "ieee1588",
        "nrd",
        "infra-analytics",
        "dnssd-server",
        "device-info",
        "companion-link",
    ];
    assert(strs(noisy@) == noisy_services());
    let c = chars_of(service);
    is_one_of_exec(c.as_slice(), &noisy)
}

/// Open ports, comma-separated.
pub open spec fn ports_text(ports: Seq<u16>) -> Seq<char>
    decreases ports.len(),
{
    if ports.len() == 0 {
        Seq::empty()
    } else if ports.len() == 1 {
        dec(ports[0] as nat)
    } else {
        ports_text(ports.drop_last()) + seq![','] + dec(ports.last() as nat)
    }
}

/// Words, comma-separated.
pub open spec fn comma_list(ws: Seq<Seq<char>>) -> Seq<char>
    decreases ws.len(),
{
    if ws.len() == 0 {
        Seq::empty()
    } else if ws.len() == 1 {
        ws[0]
    } else {
        comma_list(ws.drop_last()) + seq![','] + ws.last()
    }
}

/// The advertised service types that say something, in order.
pub open spec fn telling(ks: Seq<Seq<char>>) -> Seq<Seq<char>>
    decreases ks.len(),
{
    if ks.len() == 0 {
        ks
    } else if is_one_of(ks.last(), noisy_services()) {
        telling(ks.drop_last())
    } else {
        telling(ks.drop_last()).push(ks.last())
    }
}

pub open spec fn services_text(m: Option<MdnsInfo>) -> Seq<char> {
    match m {
        Some(info) => comma_list(telling(crate::device::key_views(info.services@))),
        None => Seq::empty(),
    }
}

fn ports_string(ports: &Vec<u16>) -> (r: String)
    ensures
        r@ == ports_text(ports@),
{
    let mut v: Vec<char> = Vec::new();
    let mut i: usize = 0;
    while i < ports.len()
        invariant
            i <= ports.len(),
            v@ == ports_text(ports@.take(i as int)),
        decreases ports.len() - i,
    {
        assert(ports@.take(i + 1).drop_last() == ports@.take(i as int));
        if i > 0 {
            v.push(',');
        }
        push_dec(&mut v, ports[i] as u64);
        i += 1;
    }
    assert(ports@.take(ports.len() as int) == ports@);
    string_of(v.as_slice())
}

fn services_string(m: &Option<MdnsInfo>) -> (r: String)
    ensures
        r@ == services_text(*m),
{
    match m {
        None => string_of(&[]),
        Some(info) => {
            let ks = info.services.as_slice();
            let ghost kv = crate::device::key_views(info.services@);
            let mut v: Vec<char> = Vec::new();
            let mut n: usize = 0;
            let mut i: usize = 0;
            while i < ks.len()
                invariant
                    i <= ks.len(),
                    ks@ == info.services@,
                    kv == crate::device::key_views(info.services@),
                    n == telling(kv.take(i as int)).len(),
                    n <= i,
                    v@ == comma_list(telling(kv.take(i as int))),
                decreases ks.len() - i,
            {
                assert(kv.take(i + 1).drop_last() == kv.take(i as int));
                assert(kv.take(i + 1).last() == ks@[i as int].0@);
                let ghost t0 = telling(kv.take(i as int));
                if !is_noisy(ks[i].0.as_str()) {
                    if n > 0 {
                        v.push(',');
                    }
                    push_str(&mut v, ks[i].0.as_str());
                    n += 1;
                    assert(telling(kv.take(i + 1)) == t0.push(ks@[i as int].0@));
                    assert(t0.push(ks@[i as int].0@).drop_last() == t0);
                    assert(v@ == comma_list(t0.push(ks@[i as int].0@)));
                }
                i += 1;
            }
            assert(kv.take(ks.len() as int) == kv);
            string_of(v.as_slice())
        },
    }
}

/// The cells of one device's row; see `row`.
pub open spec fn spec_row(d: Device, show_mac: bool, verbose: bool) -> Seq<
    (Option<Seq<char>>, Option<Color>, bool),
> {
    let kind = spec_kind_label(opt_view(d.kind), d.this_device, d.gateway);
    let kind_cell = if d.this_device {
        tinted(kind, Color::Cyan)
    } else if d.gateway {
        tinted(kind, Color::Yellow)
    } else {
        plain(kind)
    };
    let name_cell = match d.name {
        Some(n) => strong(Some(n@)),
        None => match d.vendor {
            Some(v) => if show_mac {
                plain(Some(v@))
            } else {
                plain(None)
            },
            None => plain(None),
        },
    };
    let base = seq![
        tinted(Some(ipv4_text(d.ip)), Color::Green),
        name_cell,
        kind_cell,
        plain(opt_view(d.model)),
    ];
    let with_mac = if show_mac {
        let vendor_cell = match d.vendor {
            Some(v) => plain(Some(v@)),
            None => if d.randomized_mac {
                tinted(Some("(private MAC)"@), Color::DarkGrey)
            } else {
                plain(None)
            },
        };
        base + seq![vendor_cell, tinted(opt_view(d.mac), Color::DarkGrey)]
    } else {
        base
    };
    if verbose {
        with_mac + seq![
            plain(opt_view(d.hostname)),
            tinted(Some(ports_text(d.open_ports@)), Color::DarkGrey),
            tinted(Some(services_text(d.mdns)), Color::DarkGrey),
        ]
    } else {
        with_mac
    }
}

pub open spec fn row_view(r: Seq<Field>) -> Seq<(Option<Seq<char>>, Option<Color>, bool)> {
    r.map_values(|f: Field| field_view(f))
}

fn opt_str(o: &Option<String>) -> (r: Option<&str>)
    ensures
        str_opt_view(r) == opt_view(*o),
{
    match o {
        Some(s) => Some(s.as_str()),
        None => None,
    }
}

/// One device's row. Real names are bold; a vendor filling in for a missing
/// name is not, so the two stay distinguishable.
pub fn row(d: &Device, show_mac: bool, verbose: bool) -> (r: Vec<Field>)
    ensures
        row_view(r@) == spec_row(*d, show_mac, verbose),
{
    let kind = kind_label(d);
    let kind_cell = Field::new(opt_str(&kind));
    let kind_cell = if d.this_device {
        kind_cell.fg(Color::Cyan)
    } else if d.gateway {
        kind_cell.fg(Color::Yellow)
    } else {
        kind_cell
    };
    let ip = ipv4_string(d.ip);
    let ip_cell = Field::new(Some(ip.as_str())).fg(Color::Green);
    let name_cell = match &d.name {
        Some(n) => Field::new(Some(n.as_str())).bold(),
        None => match &d.vendor {
            Some(v) => if show_mac {
                Field::new(Some(v.as_str()))
            } else {
                Field::new(None)
            },
            None => Field::new(None),
        },
    };
    let model_cell = Field::new(opt_str(&d.model));
    let mut out: Vec<Field> = Vec::new();
    out.push(ip_cell);
    out.push(name_cell);
    out.push(kind_cell);
    out.push(model_cell);
    assert(row_view(out@) =~= seq![
        field_view(out@[0]),
        field_view(out@[1]),
        field_view(out@[2]),
        field_view(out@[3]),
    ]);
    let ghost base = row_view(out@);
    if show_mac {
        let vendor_cell = match &d.vendor {
            Some(v) => Field::new(Some(v.as_str())),
            None => if d.randomized_mac {
                Field::new(Some("(private MAC)")).fg(Color::DarkGrey)
            } else {
                Field::new(None)
            },
        };
        let mac_cell = Field::new(opt_str(&d.mac)).fg(Color::DarkGrey);
        let ghost vc = vendor_cell;
        let ghost mc = mac_cell;
        out.push(vendor_cell);
        out.push(mac_cell);
        assert(row_view(out@) =~= base + seq![field_view(vc), field_view(mc)]);
    }
    assert(row_view(out@) == spec_row(*d, show_mac, false));
    let ghost with_mac = row_view(out@);
    if verbose {
        let ports = ports_string(&d.open_ports);
        let services = services_string(&d.mdns);
        let a = Field::new(opt_str(&d.hostname));
        let b = Field::new(Some(ports.as_str())).fg(Color::DarkGrey);
        let c = Field::new(Some(services.as_str())).fg(Color::DarkGrey);
        let ghost (ga, gb, gc) = (a, b, c);
        out.push(a);
        out.push(b);
        out.push(c);
        assert(row_view(out@) =~= with_mac + seq![field_view(ga), field_view(gb), field_view(gc)]);
    }
    out
}

/// Whether any other device has a known MAC address. Without raw access
/// there are none, and the table leaves out the two MAC columns.
pub open spec fn spec_show_mac(ds: Seq<Device>) -> bool {
    exists|i: int| 0 <= i < ds.len() && ds[i].mac is Some && !ds[i].this_device
}

pub fn show_mac(devices: &[Device]) -> (r: bool)
    ensures
        r == spec_show_mac(devices@),
{
    let mut i: usize = 0;
    while i < devices.len()
        invariant
            i <= devices.len(),
            forall|j: int| 0 <= j < i ==> !(devices@[j].mac is Some && !devices@[j].this_device),
        decreases devices.len() - i,
    {
        if devices[i].mac.is_some() && !devices[i].this_device {
            return true;
        }
        i += 1;
    }
    false
}

/// The device table's column headings.
pub open spec fn spec_header(show_mac: bool, verbose: bool) -> Seq<Seq<char>> {
    let base = seq![
        "IP"@,
        if show_mac {
            "NAME/VENDOR"@
        } else {
            "NAME"@
        },
        "TYPE"@,
        "MODEL"@,
    ];
    let with_mac = if show_mac {
        base + seq!["VENDOR"@, "MAC"@]
    } else {
        base
    };
    if verbose {
        with_mac + seq!["HOSTNAME"@, "PORTS"@, "SERVICES"@]
    } else {
        with_mac
    }
}

pub fn header(show_mac: bool, verbose: bool) -> (r: Vec<&'static str>)
    ensures
        strs(r@) == spec_header(show_mac, verbose),
{
    let mut h: Vec<&'static str> = Vec::new();
    h.push("IP");
    h.push(if show_mac { "NAME/VENDOR" } else { "NAME" });
    h.push("TYPE");
    h.push("MODEL");
    if show_mac {
        h.push("VENDOR");
        h.push("MAC");
    }
    assert(strs(h@) == spec_header(show_mac, false));
    if verbose {
        h.push("HOSTNAME");
        h.push("PORTS");
        h.push("SERVICES");
    }
    h
}

/// The rows of the device table.
pub fn device_rows(devices: &[Device], verbose: bool) -> (r: Vec<Vec<Field>>)
    ensures
        r@.len() == devices@.len(),
        forall|i: int| 0 <= i < r@.len() ==> row_view(#[trigger] r@[i]@) == spec_row(
            devices@[i],
            spec_show_mac(devices@),
            verbose,
        ),
{
    let mac = show_mac(devices);
    let mut out: Vec<Vec<Field>> = Vec::new();
    let mut i: usize = 0;
    while i < devices.len()
        invariant
            i <= devices.len(),
            mac == spec_show_mac(devices@),
            out@.len() == i,
            forall|j: int| 0 <= j < i ==> row_view(#[trigger] out@[j]@) == spec_row(
                devices@[j],
                mac,
                verbose,
            ),
        decreases devices.len() - i,
    {
        out.push(row(&devices[i], mac, verbose));
        i += 1;
    }
    out
}

/// The widest cell of column `col` among `rows`, and `w`.
pub open spec fn column_width(rows: Seq<Vec<Field>>, col: int, w: nat) -> nat
    decreases rows.len(),
{
    if rows.len() == 0 {
        w
    } else {
        let c = match rows.last()@[col].text {
            Some(t) => t@.len(),
            None => 0,
        };
        let rest = column_width(rows.drop_last(), col, w);
        if c > rest {
            c
        } else {
            rest
        }
    }
}

/// Each column's width: its widest cell or its heading.
pub fn widths(header: &Vec<&'static str>, rows: &Vec<Vec<Field>>) -> (r: Vec<usize>)
    requires
        forall|j: int| 0 <= j < rows@.len() ==> #[trigger] rows@[j]@.len() == header@.len(),
    ensures
        r@.len() == header@.len(),
        forall|i: int| 0 <= i < r@.len() ==> r@[i] == column_width(rows@, i, header@[i]@.len()),
{
    let mut out: Vec<usize> = Vec::new();
    let mut i: usize = 0;
    while i < header.len()
        invariant
            i <= header.len(),
            forall|j: int| 0 <= j < rows@.len() ==> #[trigger] rows@[j]@.len() == header@.len(),
            out@.len() == i,
            forall|k: int| 0 <= k < i ==> out@[k] == column_width(rows@, k, header@[k]@.len()),
        decreases header.len() - i,
    {
        let mut w: usize = header[i].unicode_len();
        let mut j: usize = 0;
        assert(rows@.take(0) == Seq::<Vec<Field>>::empty());
        while j < rows.len()
            invariant
                i < header.len(),
                j <= rows.len(),
                forall|k: int| 0 <= k < rows@.len() ==> #[trigger] rows@[k]@.len() == header@.len(),
                w == column_width(rows@.take(j as int), i as int, header@[i as int]@.len()),
            decreases rows.len() - j,
        {
            assert(rows@.take(j + 1).drop_last() == rows@.take(j as int));
            assert(rows@.take(j + 1).last() == rows@[j as int]);
            assert(rows@[j as int]@.len() == header@.len());
            let c = rows[j][i].width();
            if c > w {
                w = c;
            }
            j += 1;
        }
        assert(rows@.take(rows.len() as int) == rows@);
        out.push(w);
        i += 1;
    }
    out
}

// ---------------------------------------------------------------------------
// The services table
// ---------------------------------------------------------------------------

pub open spec fn spec_service_row(s: Service, d: Device) -> Seq<(Option<Seq<char>>, Option<Color>, bool)> {
    let host = match d.name {
        Some(n) => strong(Some(n@)),
        None => match d.hostname {
            Some(h) => plain(Some(h@)),
            None => plain(opt_view(d.vendor)),
        },
    };
    seq![
        tinted(Some(ipv4_text(s.ip) + seq![':'] + dec(s.port as nat)), Color::Green),
        plain(crate::classify::opt_str_view(s.name)),
        host,
    ]
}

/// ADDRESS, SERVICE and HOST of each service.
pub fn service_rows(services: &Vec<Service>, devices: &[Device]) -> (r: Vec<Vec<Field>>)
    requires
        forall|i: int| 0 <= i < services@.len() ==> #[trigger] services@[i].device < devices@.len(),
    ensures
        r@.len() == services@.len(),
        forall|i: int| 0 <= i < r@.len() ==> row_view(#[trigger] r@[i]@) == spec_service_row(
            services@[i],
            devices@[services@[i].device as int],
        ),
{
    let mut out: Vec<Vec<Field>> = Vec::new();
    let mut i: usize = 0;
    while i < services.len()
        invariant
            i <= services.len(),
            forall|k: int| 0 <= k < services@.len() ==> #[trigger] services@[k].device < devices@.len(),
            out@.len() == i,
            forall|k: int| 0 <= k < i ==> row_view(#[trigger] out@[k]@) == spec_service_row(
                services@[k],
                devices@[services@[k].device as int],
            ),
        decreases services.len() - i,
    {
        let s = services[i];
        let d = &devices[s.device];
        let host = match &d.name {
            Some(n) => Field::new(Some(n.as_str())).bold(),
            None => match &d.hostname {
                Some(h) => Field::new(Some(h.as_str())),
                None => Field::new(opt_str(&d.vendor)),
            },
        };
        let addr = s.address();
        let mut r: Vec<Field> = Vec::new();
        r.push(Field::new(Some(addr.as_str())).fg(Color::Green));
        r.push(Field::new(s.name));
        r.push(host);
        out.push(r);
        i += 1;
    }
    out
}

/// Whether to open the device browser: only in a terminal, and not when a
/// table, JSON or the verbose listing was asked for. Windows terminals don't
/// set TERM, so there only TERM=dumb says no.
pub open spec fn spec_interactive(
    list: bool,
    json: bool,
    verbose: bool,
    stdin_tty: bool,
    stdout_tty: bool,
    term: Option<Seq<char>>,
    windows: bool,
) -> bool {
    !(list || json || verbose) && stdin_tty && stdout_tty && match term {
        Some(t) => t != "dumb"@,
        None => windows,
    }
}

pub fn interactive(
    list: bool,
    json: bool,
    verbose: bool,
    stdin_tty: bool,
    stdout_tty: bool,
    term: Option<&str>,
    windows: bool,
) -> (r: bool)
    ensures
        r == spec_interactive(list, json, verbose, stdin_tty, stdout_tty, str_opt_view(term), windows),
{
    let term_ok = match term {
        Some(t) => {
            let c = chars_of(t);
            !crate::text::eq_str(c.as_slice(), "dumb")
        },
        None => windows,
    };
    !(list || json || verbose) && stdin_tty && stdout_tty && term_ok
}

} // verus!

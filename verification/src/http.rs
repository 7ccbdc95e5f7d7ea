//! Just enough HTTP to read a UPnP description or a web UI's banner:
//! splitting a response into headers and body, undoing chunked transfer
//! encoding, and pulling the text out of a tag.
use vstd::prelude::*;
use crate::text::{
    chars_of, contains, contains_str, find, find_char, find_str, is_control, is_control_char,
    is_white_space, is_white_space_char, lemma_contains, lines, lower_chars, lower_seq, lower_str,
    parse_uint, parse_uint_of, push_all, push_str, seq_eq, slice_chars, split_char, split_once,
    split_once_of, starts_with, starts_with_str, string_of, trim, trim_bounds, trim_chars, views,
    words, words_of, upper_seq, lower, upper, dec,
};

verus! {

/// The largest response body kept.
pub const MAX_BODY: usize = 65536;

// ---------------------------------------------------------------------------
// Outside computations
// ---------------------------------------------------------------------------

/// What `String::from_utf8_lossy` makes of `bytes`.
pub uninterp spec fn utf8_lossy(bytes: Seq<u8>) -> Seq<char>;

/// What a gzip decoder writes out for `data` before it finishes or fails.
pub uninterp spec fn gunzip_output(data: Seq<u8>) -> Seq<u8>;

/// `String::from_utf8_lossy`: the text of `bytes`, each invalid sequence
/// replaced by U+FFFD. Stated here: its result is named `utf8_lossy`, and
/// ASCII comes through character for character (ASCII is valid UTF-8, which the
/// documentation says is returned unchanged). How invalid sequences are
/// replaced is not stated.
#[verifier::external_body]
pub(crate) fn lossy(bytes: &[u8]) -> (r: String)
    ensures
        r@ == utf8_lossy(bytes@),
        (forall|i: int| 0 <= i < bytes@.len() ==> bytes@[i] < 128) ==> r@ == bytes@.map_values(
            |b: u8| b as char,
        ),
{
    String::from_utf8_lossy(bytes).into_owned()
}

/// `flate2::read::GzDecoder` read to the end: the decompressed bytes, or on a
/// corrupt or truncated stream whatever was decoded before the error. Stated
/// here: the result is named `gunzip_output` of the input; what gzip decoding
/// computes is not.
#[verifier::external_body]
fn gunzip(data: &[u8]) -> (r: Vec<u8>)
    ensures
        r@ == gunzip_output(data@),
{
    let mut out = Vec::new();
    let mut decoder = flate2::read::GzDecoder::new(data);
    let _ = std::io::Read::read_to_end(&mut decoder, &mut out);
    out
}

// ---------------------------------------------------------------------------
// Bytes
// ---------------------------------------------------------------------------

pub open spec fn bytes_match_at(s: Seq<u8>, p: Seq<u8>, i: int) -> bool {
    0 <= i && i + p.len() <= s.len() && s.subrange(i, i + p.len()) == p
}

/// The first index at or after `i` where `p` occurs in `s`.
pub open spec fn find_bytes_from(s: Seq<u8>, p: Seq<u8>, i: int) -> Option<int>
    decreases s.len() + 1 - i,
{
    if i < 0 || i + p.len() > s.len() {
        None
    } else if bytes_match_at(s, p, i) {
        Some(i)
    } else {
        find_bytes_from(s, p, i + 1)
    }
}

pub proof fn lemma_find_bytes_from(s: Seq<u8>, p: Seq<u8>, i: int)
    requires
        0 <= i,
    ensures
        find_bytes_from(s, p, i) matches Some(j) ==> i <= j && bytes_match_at(s, p, j),
    decreases s.len() + 1 - i,
{
    if i + p.len() <= s.len() && !bytes_match_at(s, p, i) {
        lemma_find_bytes_from(s, p, i + 1);
    }
}

pub fn find_bytes(s: &[u8], p: &[u8]) -> (r: Option<usize>)
    ensures
        r == (match find_bytes_from(s@, p@, 0) {
            Some(j) => Some(j as usize),
            None => None::<usize>,
        }),
{
    if p.len() > s.len() {
        return None;
    }
    let mut i: usize = 0;
    while i <= s.len() - p.len()
        invariant
            p.len() <= s.len(),
            i <= s.len() - p.len() + 1,
            find_bytes_from(s@, p@, 0) == find_bytes_from(s@, p@, i as int),
        decreases s.len() - p.len() + 1 - i,
    {
        let mut k: usize = 0;
        while k < p.len() && s[i + k] == p[k]
            invariant
                k <= p.len(),
                i + p.len() <= s.len(),
                forall|m: int| 0 <= m < k ==> s@[i + m] == p@[m],
            decreases p.len() - k,
        {
            k += 1;
        }
        if k == p.len() {
            assert(s@.subrange(i as int, i + p.len()) == p@);
            return Some(i);
        }
        assert(s@.subrange(i as int, i + p.len())[k as int] != p@[k as int]);
        if i == s.len() - p.len() {
            assert(find_bytes_from(s@, p@, i + 1) is None);
            return None;
        }
        i += 1;
    }
    None
}

pub fn slice_bytes(v: &[u8], from: usize, to: usize) -> (r: Vec<u8>)
    requires
        from <= to <= v.len(),
    ensures
        r@ == v@.subrange(from as int, to as int),
{
    let mut out: Vec<u8> = Vec::new();
    let mut i: usize = from;
    while i < to
        invariant
            from <= i <= to <= v.len(),
            out@ == v@.subrange(from as int, i as int),
        decreases to - i,
    {
        out.push(v[i]);
        i += 1;
        assert(out@ == v@.subrange(from as int, i as int));
    }
    out
}

pub open spec fn crlf() -> Seq<u8> {
    seq![13u8, 10u8]
}

pub open spec fn blank_line() -> Seq<u8> {
    seq![13u8, 10u8, 13u8, 10u8]
}

// ---------------------------------------------------------------------------
// Headers
// ---------------------------------------------------------------------------

/// The trimmed value of a `Name: value` line whose name is `name`, ignoring
/// ASCII case.
pub open spec fn header_value(l: Seq<char>, name: Seq<char>) -> Option<Seq<char>> {
    match split_once(l, ':') {
        Some((k, v)) => if lower_seq(trim(k)) == lower_seq(name) {
            Some(trim(v))
        } else {
            None
        },
        None => None,
    }
}

/// The value of the first of `ls` that is a `name` header.
pub open spec fn first_header(ls: Seq<Seq<char>>, name: Seq<char>) -> Option<Seq<char>>
    decreases ls.len(),
{
    if ls.len() == 0 {
        None
    } else {
        match header_value(ls[0], name) {
            Some(v) => Some(v),
            None => first_header(ls.drop_first(), name),
        }
    }
}

pub open spec fn spec_header(headers: Seq<char>, name: Seq<char>) -> Option<Seq<char>> {
    first_header(lines(headers), name)
}

proof fn lemma_first_header_case(ls: Seq<Seq<char>>, a: Seq<char>, b: Seq<char>)
    requires
        lower_seq(a) == lower_seq(b),
    ensures
        first_header(ls, a) == first_header(ls, b),
    decreases ls.len(),
{
    if ls.len() > 0 {
        lemma_first_header_case(ls.drop_first(), a, b);
    }
}

/// Uppercasing a text and then lowercasing it is lowercasing it.
pub proof fn lemma_lower_upper(n: Seq<char>)
    ensures
        lower_seq(upper_seq(n)) == lower_seq(n),
{
    assert forall|i: int| 0 <= i < n.len() implies #[trigger] lower(upper(n[i])) == lower(n[i]) by {
        let c = n[i];
        if 'a' <= c && c <= 'z' {
            assert(((c as u32) - 32) as char as u32 == (c as u32) - 32);
        }
    }
    assert(lower_seq(upper_seq(n)) =~= lower_seq(n));
}

/// Header names are matched in any ASCII case: two names that lowercase
/// alike find the same value, an uppercased name among them.
pub proof fn lemma_header_any_case(headers: Seq<char>, a: Seq<char>, b: Seq<char>)
    requires
        lower_seq(a) == lower_seq(b),
    ensures
        spec_header(headers, a) == spec_header(headers, b),
        spec_header(headers, a) == spec_header(headers, upper_seq(a)),
{
    lemma_first_header_case(lines(headers), a, b);
    lemma_lower_upper(a);
    lemma_first_header_case(lines(headers), a, upper_seq(a));
}

/// A `Name: value` line is split at its first colon: when the name holds no
/// colon and matches (in any ASCII case), the header's value is the rest of
/// the line, trimmed, colons and all (a URL with a port keeps its port).
pub proof fn lemma_header_keeps_colons(k: Seq<char>, v: Seq<char>, name: Seq<char>)
    requires
        !k.contains(':'),
        !k.contains('\n'),
        !v.contains('\n'),
        lower_seq(trim(k)) == lower_seq(name),
    ensures
        spec_header(k + seq![':'] + v, name) == Some(trim(v)),
{
    let l = k + seq![':'] + v;
    assert(!l.contains('\n')) by {
        if l.contains('\n') {
            let i = choose|i: int| 0 <= i < l.len() && l[i] == '\n';
            if i < k.len() {
                assert(k[i] == '\n');
            } else if i > k.len() {
                assert(v[i - k.len() - 1] == '\n');
            }
        }
    }
    lemma_find_none(l, '\n');
    assert(lines(l) == seq![l]);
    lemma_find_first(k, v, ':');
    assert(l.take(k.len() as int) =~= k);
    assert(l.skip(k.len() + 1int) =~= v);
    assert(header_value(l, name) == Some(trim(v)));
    assert(seq![l].drop_first() =~= Seq::<Seq<char>>::empty());
}

/// A response: its header block as text, and its body as text.
pub struct Response {
    pub headers: String,
    pub body: String,
}

impl Response {
    /// The value of the first header called `name` (any ASCII case), trimmed.
    pub fn header(&self, name: &str) -> (r: Option<&str>)
        ensures
            match spec_header(self.headers@, name@) {
                Some(v) => r matches Some(x) && x@ == v,
                None => r is None,
            },
    {
        let h = chars_of(self.headers.as_str());
        let hs = h.as_slice();
        let nl = lower_str(name);
        let mut pos: usize = 0;
        assert(h@.skip(0) == h@);
        while pos < hs.len()
            invariant
                pos <= hs.len(),
                hs@ == h@,
                h@ == self.headers@,
                nl@ == lower_seq(name@),
                spec_header(self.headers@, name@) == first_header(lines(h@.skip(pos as int)), name@),
            decreases hs.len() - pos,
        {
            let rest = slice_chars(hs, pos, hs.len());
            assert(rest@ == h@.skip(pos as int));
            let (line_end, next) = match find_char(rest.as_slice(), '\n') {
                Some(i) => {
                    proof {
                        lemma_contains(rest@, seq!['\n']);
                    }
                    let mut e = pos + i;
                    if e > pos && hs[e - 1] == '\r' {
                        e -= 1;
                    }
                    assert(lines(rest@) == seq![crate::text::strip_cr(rest@.take(i as int))] + lines(
                        rest@.skip(i + 1),
                    ));
                    assert(rest@.skip(i + 1) == h@.skip(pos + i + 1));
                    assert(crate::text::strip_cr(rest@.take(i as int)) == h@.subrange(
                        pos as int,
                        e as int,
                    ));
                    (e, pos + i + 1)
                },
                None => {
                    assert(lines(rest@) == seq![rest@]);
                    assert(h@.skip(hs.len() as int) == Seq::<char>::empty());
                    assert(rest@ == h@.subrange(pos as int, hs.len() as int));
                    (hs.len(), hs.len())
                },
            };
            let ghost line = h@.subrange(pos as int, line_end as int);
            assert(lines(rest@)[0] == line);
            assert(lines(rest@).drop_first() == lines(h@.skip(next as int)));
            let lv = slice_chars(hs, pos, line_end);
            assert(lv@ == line);
            if let Some(c) = find_char(lv.as_slice(), ':') {
                proof {
                    lemma_contains(lv@, seq![':']);
                }
                let colon = pos + c;
                let (ka, kb) = trim_bounds(hs, pos, colon);
                let kv = slice_chars(hs, ka, kb);
                let kl = lower_chars(kv.as_slice());
                assert(line.take(c as int) == h@.subrange(pos as int, colon as int));
                assert(line.skip(c + 1) == h@.subrange(colon + 1, line_end as int));
                if seq_eq(kl.as_slice(), nl.as_slice()) {
                    let (va, vb) = trim_bounds(hs, colon + 1, line_end);
                    return Some(self.headers.as_str().substring_char(va, vb));
                }
            }
            pos = next;
        }
        assert(h@.skip(pos as int).len() == 0);
        None
    }
}

// ---------------------------------------------------------------------------
// Completeness of a response
// ---------------------------------------------------------------------------

/// The first `content-length:` line that holds a number, in lowercase headers.
pub open spec fn content_length(ls: Seq<Seq<char>>) -> Option<nat>
    decreases ls.len(),
{
    if ls.len() == 0 {
        None
    } else {
        let l = ls[0];
        let p = "content-length:"@;
        if starts_with(l, p) && parse_uint(trim(l.skip(p.len() as int)), 10, usize::MAX as nat)
            is Some {
            parse_uint(trim(l.skip(p.len() as int)), 10, usize::MAX as nat)
        } else {
            content_length(ls.drop_first())
        }
    }
}

/// Given the header text and the body received so far, whether the body is
/// complete: it ends with the last chunk when chunked, else it is as long as
/// `Content-Length` says. Without either, more may come.
pub open spec fn spec_complete_parts(headers: Seq<char>, body: Seq<u8>) -> bool {
    let h = lower_seq(headers);
    if contains(h, "transfer-encoding: chunked"@) {
        body.len() >= 5 && body.skip(body.len() - 5) == seq![48u8, 13u8, 10u8, 13u8, 10u8]
    } else {
        match content_length(lines(h)) {
            Some(len) => body.len() >= len,
            None => false,
        }
    }
}

pub fn complete_parts(headers: &str, body: &[u8]) -> (r: bool)
    ensures
        r == spec_complete_parts(headers@, body@),
{
    let h = lower_str(headers);
    if contains_str(h.as_slice(), "transfer-encoding: chunked") {
        if body.len() < 5 {
            return false;
        }
        let n = body.len();
        let r = body[n - 5] == 48 && body[n - 4] == 13 && body[n - 3] == 10 && body[n - 2] == 13
            && body[n - 1] == 10;
        let ghost t = body@.skip(n - 5);
        let ghost want = seq![48u8, 13u8, 10u8, 13u8, 10u8];
        assert(t[0] == body@[n - 5] && t[1] == body@[n - 4] && t[2] == body@[n - 3] && t[3]
            == body@[n - 2] && t[4] == body@[n - 1]);
        if r {
            assert(t =~= want);
        } else {
            assert(t != want) by {
                if t == want {
                    assert(t[0] == want[0] && t[1] == want[1] && t[2] == want[2] && t[3] == want[3]
                        && t[4] == want[4]);
                }
            }
        }
        return r;
    }
    let ls = crate::text::lines_of(h.as_slice());
    let ghost all = views(ls@);
    let mut i: usize = 0;
    assert(all.skip(0) == all);
    while i < ls.len()
        invariant
            i <= ls.len(),
            all == views(ls@),
            all == lines(lower_seq(headers@)),
            !contains(lower_seq(headers@), "transfer-encoding: chunked"@),
            content_length(all) == content_length(all.skip(i as int)),
        decreases ls.len() - i,
    {
        let l = ls[i].as_slice();
        assert(all.skip(i as int)[0] == l@);
        assert(all.skip(i as int).drop_first() == all.skip(i + 1));
        let p = chars_of("content-length:");
        if crate::text::starts_with_chars(l, p.as_slice()) {
            let rest = slice_chars(l, p.len(), l.len());
            assert(rest@ == l@.skip(p@.len() as int));
            let t = trim_chars(rest.as_slice());
            if let Some(len) = parse_uint_of(t.as_slice(), 10, usize::MAX as u64) {
                return body.len() as u64 >= len;
            }
        }
        i += 1;
    }
    false
}

/// Whether `buf` holds a full response per its Content-Length or chunked
/// terminator.
pub fn complete(buf: &[u8]) -> (r: bool)
    ensures
        r == (match find_bytes_from(buf@, blank_line(), 0) {
            Some(split) => spec_complete_parts(
                utf8_lossy(buf@.take(split)),
                buf@.skip(split + 4),
            ),
            None => false,
        }),
{
    let marker: [u8; 4] = [13, 10, 13, 10];
    assert(marker@ == blank_line());
    match find_bytes(buf, &marker) {
        None => false,
        Some(split) => {
            proof {
                lemma_find_bytes_from(buf@, blank_line(), 0);
            }
            assert(split + 4 <= buf.len());
            let head = slice_bytes(buf, 0, split);
            let text = lossy(head.as_slice());
            let body = slice_bytes(buf, split + 4, buf.len());
            assert(head@ == buf@.take(split as int));
            complete_parts(text.as_str(), body.as_slice())
        },
    }
}

// ---------------------------------------------------------------------------
// Chunked transfer encoding
// ---------------------------------------------------------------------------

/// The size on a chunk-size line: the hexadecimal number before any `;`
/// extension, trimmed.
pub open spec fn spec_chunk_size(line: Seq<char>) -> Option<nat> {
    parse_uint(trim(split_char(line, ';')[0]), 16, usize::MAX as nat)
}

pub fn chunk_size(line: &str) -> (r: Option<usize>)
    ensures
        match spec_chunk_size(line@) {
            Some(v) => r == Some(v as usize),
            None => r is None,
        },
{
    let lv = chars_of(line);
    let parts = crate::text::split_char_of(lv.as_slice(), ';');
    assert(views(parts@)[0] == parts@[0]@);
    let t = trim_chars(parts[0].as_slice());
    match parse_uint_of(t.as_slice(), 16, usize::MAX as u64) {
        Some(v) => Some(v as usize),
        None => None,
    }
}

/// Bytes read as text the way `String::from_utf8_lossy` reads them: ASCII
/// character for character (it is valid UTF-8), anything else as the named
/// result.
pub open spec fn line_text(b: Seq<u8>) -> Seq<char> {
    if forall|i: int| 0 <= i < b.len() ==> b[i] < 128 {
        b.map_values(|x: u8| x as char)
    } else {
        utf8_lossy(b)
    }
}

/// The decoded body of chunked data `d`: each chunk-size line and the data
/// after it, until a zero size, a size line that doesn't parse, or the end.
pub open spec fn spec_dechunk(d: Seq<u8>) -> Seq<u8>
    decreases d.len(),
{
    match find_bytes_from(d, crlf(), 0) {
        None => Seq::empty(),
        Some(eol) => {
            proof {
                lemma_find_bytes_from(d, crlf(), 0);
            }
            match spec_chunk_size(line_text(d.take(eol))) {
                None => Seq::empty(),
                Some(size) => {
                    let start = eol + 2;
                    if size == 0 || start >= d.len() {
                        Seq::empty()
                    } else {
                        let end = if start + size < d.len() {
                            start + size
                        } else {
                            d.len() as int
                        };
                        let next = if end + 2 < d.len() {
                            end + 2
                        } else {
                            d.len() as int
                        };
                        d.subrange(start, end) + spec_dechunk(d.skip(next))
                    }
                },
            }
        },
    }
}

/// Dechunking never gives more bytes than it was handed.
pub proof fn lemma_dechunk_len(d: Seq<u8>)
    ensures
        spec_dechunk(d).len() <= d.len(),
    decreases d.len(),
{
    lemma_find_bytes_from(d, crlf(), 0);
    if let Some(eol) = find_bytes_from(d, crlf(), 0) {
        if let Some(size) = spec_chunk_size(line_text(d.take(eol))) {
            let start = eol + 2;
            if !(size == 0 || start >= d.len()) {
                let end = if start + size < d.len() {
                    start + size
                } else {
                    d.len() as int
                };
                let next = if end + 2 < d.len() {
                    end + 2
                } else {
                    d.len() as int
                };
                lemma_dechunk_len(d.skip(next));
            }
        }
    }
}

/// Undo chunked transfer encoding. A chunk that claims more data than there
/// is ends the body with what there is.
/// One lowercase hexadecimal digit, as a byte.
pub open spec fn hex_byte(d: nat) -> u8 {
    if d < 10 {
        (d + 48) as u8
    } else {
        (d + 87) as u8
    }
}

/// `n` in lowercase hexadecimal, as `{:x}` writes it.
pub open spec fn hex_bytes(n: nat) -> Seq<u8>
    decreases n,
{
    if n < 16 {
        seq![hex_byte(n)]
    } else {
        hex_bytes(n / 16).push(hex_byte(n % 16))
    }
}

pub open spec fn ascii_text(b: Seq<u8>) -> Seq<char> {
    b.map_values(|x: u8| x as char)
}

/// Chunked transfer encoding of `cs`: each chunk after its size in
/// hexadecimal and a CRLF, then a CRLF; then the last chunk, `0`, and the
/// empty trailer.
pub open spec fn chunked(cs: Seq<Seq<u8>>) -> Seq<u8>
    decreases cs.len(),
{
    if cs.len() == 0 {
        seq![48u8] + crlf() + crlf()
    } else {
        hex_bytes(cs[0].len()) + crlf() + cs[0] + crlf() + chunked(cs.drop_first())
    }
}

/// The chunks one after another.
pub open spec fn concat_all(cs: Seq<Seq<u8>>) -> Seq<u8>
    decreases cs.len(),
{
    if cs.len() == 0 {
        Seq::empty()
    } else {
        cs[0] + concat_all(cs.drop_first())
    }
}

proof fn lemma_hex(n: nat)
    ensures
        hex_bytes(n).len() >= 1,
        forall|i: int|
            0 <= i < hex_bytes(n).len() ==> (48 <= #[trigger] hex_bytes(n)[i] <= 57 || 97 <= hex_bytes(
                n,
            )[i] <= 102),
        crate::text::digits_value(ascii_text(hex_bytes(n)), 16) == Some(n),
    decreases n,
{
    let d = n % 16;
    let b = hex_byte(d);
    let c = b as char;
    assert(c as u32 == b as u32);
    assert(crate::text::digit_value(c, 16) == Some(d));
    if n < 16 {
        assert(d == n);
        assert(ascii_text(hex_bytes(n)).drop_last() =~= Seq::<char>::empty());
        assert(ascii_text(hex_bytes(n)).last() == c);
        assert(crate::text::digits_value(Seq::<char>::empty(), 16) == Some(0nat));
    } else {
        lemma_hex(n / 16);
        let h = hex_bytes(n / 16);
        assert(ascii_text(h.push(b)).drop_last() =~= ascii_text(h));
        assert(ascii_text(h.push(b)).last() == c);
        assert(n == (n / 16) * 16 + d);
        assert forall|i: int| 0 <= i < hex_bytes(n).len() implies (48 <= #[trigger] hex_bytes(n)[i]
            <= 57 || 97 <= hex_bytes(n)[i] <= 102) by {
            if i < h.len() {
                assert(hex_bytes(n)[i] == h[i]);
            }
        }
    }
}

/// The first CRLF of `d` is at `k` when none of the bytes before it is a CR.
proof fn lemma_first_crlf(d: Seq<u8>, i: int, k: int)
    requires
        0 <= i <= k,
        bytes_match_at(d, crlf(), k),
        forall|j: int| 0 <= j < k ==> d[j] != 13u8,
    ensures
        find_bytes_from(d, crlf(), i) == Some(k),
    decreases k - i,
{
    if i < k {
        assert(d.subrange(i, i + 2)[0] == d[i]);
        lemma_first_crlf(d, i + 1, k);
    }
}

/// Hexadecimal digits read back, whole, as a chunk size.
proof fn lemma_size_line(n: nat)
    requires
        n <= usize::MAX,
    ensures
        line_text(hex_bytes(n)) == ascii_text(hex_bytes(n)),
        spec_chunk_size(line_text(hex_bytes(n))) == Some(n),
{
    lemma_hex(n);
    let h = hex_bytes(n);
    let t = ascii_text(h);
    assert forall|i: int| 0 <= i < t.len() implies !is_white_space(#[trigger] t[i]) && t[i] != ';'
        && t[i] != '+' by {
        assert(t[i] as u32 == h[i] as u32);
    }
    crate::mdns::lemma_split_none(t, ';');
    assert(!t.contains(';'));
    assert(crate::text::trim_start(t) == t);
    assert(crate::text::trim_end(t) == t);
}

/// Chunked encoding read back: dechunking the encoding of non-empty chunks
/// gives the chunks one after another.
pub proof fn lemma_dechunk_round_trip(cs: Seq<Seq<u8>>)
    requires
        forall|i: int| 0 <= i < cs.len() ==> 0 < (#[trigger] cs[i]).len() <= usize::MAX,
    ensures
        spec_dechunk(chunked(cs)) == concat_all(cs),
    decreases cs.len(),
{
    let d = chunked(cs);
    if cs.len() == 0 {
        assert(d =~= seq![48u8, 13u8, 10u8, 13u8, 10u8]);
        assert(d.subrange(1, 3) =~= crlf());
        lemma_first_crlf(d, 0, 1);
        assert(d.take(1) =~= seq![48u8]);
        assert('0' as u32 == 48);
        assert(ascii_text(seq![48u8]) =~= seq!['0']);
        assert(line_text(seq![48u8]) == seq!['0']);
        crate::mdns::lemma_split_none(seq!['0'], ';');
        assert(seq!['0'].drop_last() =~= Seq::<char>::empty());
        assert(crate::text::trim_start(seq!['0']) == seq!['0']);
        assert(crate::text::trim_end(seq!['0']) == seq!['0']);
        assert(split_char(seq!['0'], ';')[0] == seq!['0']);
        assert(crate::text::digit_value('0', 16) == Some(0nat));
        assert(crate::text::digits_value(seq!['0'].drop_last(), 16) == Some(0nat));
        assert(crate::text::digits_value(seq!['0'], 16) == Some(0nat));
        assert(parse_uint(seq!['0'], 16, usize::MAX as nat) == Some(0nat));
        assert(spec_chunk_size(line_text(d.take(1))) == Some(0nat));
    } else {
        let c = cs[0];
        let rest = cs.drop_first();
        assert forall|i: int| 0 <= i < rest.len() implies 0 < (#[trigger] rest[i]).len() <= usize::MAX by {
            assert(rest[i] == cs[i + 1]);
        }
        lemma_dechunk_round_trip(rest);
        let h = hex_bytes(c.len());
        lemma_hex(c.len());
        lemma_size_line(c.len());
        let r = chunked(rest);
        assert(r.len() > 0) by {
            if rest.len() == 0 {
            } else {
            }
        }
        let k = h.len() as int;
        assert(d == h + crlf() + c + crlf() + r);
        assert(d.subrange(k, k + 2) =~= crlf());
        assert forall|j: int| 0 <= j < k implies d[j] != 13u8 by {
            assert(d[j] == h[j]);
        }
        lemma_first_crlf(d, 0, k);
        assert(d.take(k) =~= h);
        let start = k + 2;
        let end = start + c.len();
        assert(d.subrange(start, end) =~= c);
        assert(d.skip(end + 2) =~= r);
        assert(concat_all(cs) == c + concat_all(rest));
    }
}

pub fn dechunk(data: &[u8]) -> (r: Vec<u8>)
    ensures
        r@ == spec_dechunk(data@),
{
    let mut out: Vec<u8> = Vec::new();
    let mut pos: usize = 0;
    let crlf_bytes: [u8; 2] = [13, 10];
    assert(crlf_bytes@ == crlf());
    assert(data@.skip(0) == data@);
    while pos < data.len()
        invariant
            pos <= data.len(),
            crlf_bytes@ == crlf(),
            out@ + spec_dechunk(data@.skip(pos as int)) == spec_dechunk(data@),
        decreases data.len() - pos,
    {
        let rest = slice_bytes(data, pos, data.len());
        assert(rest@ == data@.skip(pos as int));
        let eol = match find_bytes(rest.as_slice(), &crlf_bytes) {
            Some(e) => e,
            None => {
                assert(out@ + spec_dechunk(data@.skip(pos as int)) == out@);
                return out;
            },
        };
        proof {
            lemma_find_bytes_from(rest@, crlf(), 0);
        }
        let line_bytes = slice_bytes(rest.as_slice(), 0, eol);
        assert(line_bytes@ == rest@.take(eol as int));
        let line = lossy(line_bytes.as_slice());
        let size = match chunk_size(line.as_str()) {
            Some(s) => s,
            None => {
                assert(out@ + spec_dechunk(data@.skip(pos as int)) == out@);
                return out;
            },
        };
        let start = eol + 2;
        if size == 0 || start >= rest.len() {
            assert(out@ + spec_dechunk(data@.skip(pos as int)) == out@);
            return out;
        }
        let end = if size < rest.len() - start {
            start + size
        } else {
            rest.len()
        };
        let piece = slice_bytes(rest.as_slice(), start, end);
        let next = if end < rest.len() - 2 {
            end + 2
        } else {
            rest.len()
        };
        let ghost before = out@;
        crate::http::append_bytes(&mut out, piece.as_slice());
        assert(rest@.skip(next as int) == data@.skip(pos + next));
        assert(out@ + spec_dechunk(data@.skip(pos + next)) == before + spec_dechunk(rest@));
        pos = pos + next;
    }
    assert(data@.skip(pos as int).len() == 0);
    assert(spec_dechunk(data@.skip(pos as int)) == Seq::<u8>::empty());
    assert(out@ + Seq::<u8>::empty() == out@);
    out
}

pub fn append_bytes(out: &mut Vec<u8>, v: &[u8])
    ensures
        final(out)@ == old(out)@ + v@,
{
    let mut i: usize = 0;
    while i < v.len()
        invariant
            i <= v.len(),
            out@ == old(out)@ + v@.take(i as int),
        decreases v.len() - i,
    {
        out.push(v[i]);
        i += 1;
        assert(out@ == old(out)@ + v@.take(i as int));
    }
    assert(v@.take(v.len() as int) == v@);
}

// ---------------------------------------------------------------------------
// Tags
// ---------------------------------------------------------------------------

/// `str::replace`: every non-overlapping occurrence of `from`, left to right,
/// replaced by `to`.
pub open spec fn replace_all(s: Seq<char>, from: Seq<char>, to: Seq<char>) -> Seq<char>
    decreases s.len(),
{
    if from.len() == 0 {
        s
    } else {
        match find(s, from) {
            None => s,
            Some(i) => {
                proof {
                    lemma_contains(s, from);
                }
                s.take(i) + to + replace_all(s.skip(i + from.len()), from, to)
            },
        }
    }
}

pub fn replace_all_chars(s: &[char], from: &str, to: &str) -> (r: Vec<char>)
    ensures
        r@ == replace_all(s@, from@, to@),
{
    let fv = chars_of(from);
    let tv = chars_of(to);
    if fv.len() == 0 {
        return slice_chars(s, 0, s.len());
    }
    let mut out: Vec<char> = Vec::new();
    let mut pos: usize = 0;
    assert(s@.skip(0) == s@);
    while pos < s.len()
        invariant
            pos <= s.len(),
            fv@ == from@,
            tv@ == to@,
            fv@.len() > 0,
            out@ + replace_all(s@.skip(pos as int), from@, to@) == replace_all(s@, from@, to@),
        decreases s.len() - pos,
    {
        let rest = slice_chars(s, pos, s.len());
        assert(rest@ == s@.skip(pos as int));
        match crate::text::find_chars(rest.as_slice(), fv.as_slice()) {
            None => {
                push_all(&mut out, rest.as_slice());
                return out;
            },
            Some(i) => {
                proof {
                    lemma_contains(rest@, from@);
                }
                let ghost before = out@;
                let head = slice_chars(rest.as_slice(), 0, i);
                push_all(&mut out, head.as_slice());
                push_all(&mut out, tv.as_slice());
                assert(rest@.skip(i + fv@.len()) == s@.skip(pos + i + fv@.len()));
                assert(out@ == before + rest@.take(i as int) + to@);
                pos = pos + i + fv.len();
            },
        }
    }
    assert(s@.skip(pos as int).len() == 0);
    assert(replace_all(s@.skip(pos as int), from@, to@) == s@.skip(pos as int));
    out
}

/// The words of `ws` joined with single spaces.
pub open spec fn join_words(ws: Seq<Seq<char>>) -> Seq<char>
    decreases ws.len(),
{
    if ws.len() == 0 {
        Seq::empty()
    } else if ws.len() == 1 {
        ws[0]
    } else {
        join_words(ws.drop_last()) + seq![' '] + ws.last()
    }
}

pub fn join_words_of(ws: &Vec<Vec<char>>) -> (r: Vec<char>)
    ensures
        r@ == join_words(views(ws@)),
{
    let mut out: Vec<char> = Vec::new();
    let mut i: usize = 0;
    assert(views(ws@).take(0) == Seq::<Seq<char>>::empty());
    while i < ws.len()
        invariant
            i <= ws.len(),
            out@ == join_words(views(ws@).take(i as int)),
        decreases ws.len() - i,
    {
        assert(views(ws@).take(i + 1).drop_last() == views(ws@).take(i as int));
        assert(views(ws@).take(i + 1).last() == ws@[i as int]@);
        if i > 0 {
            out.push(' ');
        }
        push_all(&mut out, ws[i].as_slice());
        i += 1;
    }
    assert(views(ws@).take(i as int) == views(ws@));
    out
}

/// `&amp;`, `&lt;`, `&gt;`, `&quot;` and `&#39;` decoded, in that order.
pub open spec fn unescape(t: Seq<char>) -> Seq<char> {
    replace_all(
        replace_all(
            replace_all(replace_all(replace_all(t, "&amp;"@, "&"@), "&lt;"@, "<"@), "&gt;"@, ">"@),
            "&quot;"@,
            "\""@,
        ),
        "&#39;"@,
        "'"@,
    )
}

/// Where the text of the first `<name` element lies: after the first `>`
/// that follows the opening, up to the next `<`. Names compare in any ASCII case.
pub open spec fn tag_bounds(xml: Seq<char>, name: Seq<char>) -> Option<(int, int)> {
    let lower = lower_seq(xml);
    let open = seq!['<'] + lower_seq(name);
    match find(lower, open) {
        None => None,
        Some(start) => match find(lower.skip(start), seq!['>']) {
            None => None,
            Some(gt) => {
                let cs = start + gt + 1;
                match find(lower.skip(cs), seq!['<']) {
                    None => None,
                    Some(lt) => Some((cs, cs + lt)),
                }
            },
        },
    }
}

/// Contents of the first `<name>…</name>`, whitespace-collapsed and lightly
/// unescaped, if not empty.
pub open spec fn spec_tag(xml: Seq<char>, name: Seq<char>) -> Option<Seq<char>> {
    match tag_bounds(xml, name) {
        None => None,
        Some((a, b)) => {
            let t = unescape(join_words(words(xml.subrange(a, b))));
            if t.len() == 0 {
                None
            } else {
                Some(t)
            }
        },
    }
}

/// White space in `t` is single spaces between non-white-space characters;
/// with `lead`, one may also start the text.
pub open spec fn spaced(t: Seq<char>, lead: bool) -> bool {
    forall|i: int|
        0 <= i < t.len() && is_white_space(#[trigger] t[i]) ==> t[i] == ' ' && (lead || 0 < i) && i
            + 1 < t.len() && !is_white_space(t[i + 1])
}

pub open spec fn no_white_space(w: Seq<char>) -> bool {
    forall|i: int| 0 <= i < w.len() ==> !is_white_space(#[trigger] w[i])
}

proof fn lemma_words_props(x: Seq<char>)
    ensures
        forall|k: int|
            0 <= k < words(x).len() ==> (#[trigger] words(x)[k]).len() > 0 && no_white_space(words(x)[k]),
    decreases x.len(),
{
    if x.len() > 0 {
        if is_white_space(x[0]) {
            lemma_words_props(x.drop_first());
            assert(words(x) == words(x.drop_first()));
        } else {
            crate::text::lemma_token_len(x);
            let l = crate::text::token_len(x) as int;
            lemma_words_props(x.skip(l));
            let ws = words(x);
            assert(ws == seq![x.take(l)] + words(x.skip(l)));
            assert forall|k: int| 0 <= k < ws.len() implies (#[trigger] ws[k]).len() > 0 && no_white_space(
                ws[k],
            ) by {
                if k > 0 {
                    assert(ws[k] == words(x.skip(l))[k - 1]);
                } else {
                    assert(ws[0] == x.take(l));
                    assert forall|i: int| 0 <= i < ws[0].len() implies !is_white_space(#[trigger] ws[0][i]) by {
                        assert(ws[0][i] == x[i]);
                    }
                }
            }
        }
    }
}

proof fn lemma_join_spaced(ws: Seq<Seq<char>>)
    requires
        forall|k: int| 0 <= k < ws.len() ==> (#[trigger] ws[k]).len() > 0 && no_white_space(ws[k]),
    ensures
        spaced(join_words(ws), false),
        ws.len() > 0 ==> join_words(ws).len() > 0,
    decreases ws.len(),
{
    if ws.len() == 1 {
        assert(ws[0].len() > 0 && no_white_space(ws[0]));
    } else if ws.len() > 1 {
        let b = ws.drop_last();
        assert forall|k: int| 0 <= k < b.len() implies (#[trigger] b[k]).len() > 0 && no_white_space(b[k]) by {
            assert(b[k] == ws[k]);
        }
        lemma_join_spaced(b);
        let f = join_words(b);
        let l = ws.last();
        assert(l.len() > 0 && no_white_space(l));
        let t = join_words(ws);
        assert(t == f + seq![' '] + l);
        assert forall|i: int| 0 <= i < t.len() && is_white_space(#[trigger] t[i]) implies t[i] == ' ' && 0
            < i && i + 1 < t.len() && !is_white_space(t[i + 1]) by {
            if i < f.len() {
                assert(t[i] == f[i]);
                if i + 1 < f.len() {
                    assert(t[i + 1] == f[i + 1]);
                }
            } else if i == f.len() {
                assert(t[i + 1] == l[0]);
            } else {
                assert(t[i] == l[i - f.len() - 1]);
            }
        }
    }
}

proof fn lemma_join_front(a: Seq<char>, ws: Seq<Seq<char>>)
    ensures
        join_words(seq![a] + ws) == (if ws.len() == 0 {
            a
        } else {
            a + seq![' '] + join_words(ws)
        }),
    decreases ws.len(),
{
    let s = seq![a] + ws;
    if ws.len() == 0 {
        assert(s =~= seq![a]);
    } else if ws.len() == 1 {
        assert(s.drop_last() =~= seq![a]);
        assert(join_words(seq![a]) == a);
    } else {
        lemma_join_front(a, ws.drop_last());
        assert(s.drop_last() =~= seq![a] + ws.drop_last());
        assert(a + seq![' '] + join_words(ws.drop_last()) + seq![' '] + ws.last() =~= a + seq![' '] + (
        join_words(ws.drop_last()) + seq![' '] + ws.last()));
    }
}

/// A text whose white space is single spaces between words is its own
/// whitespace-collapsed form.
proof fn lemma_collapsed_words(t: Seq<char>)
    requires
        spaced(t, false),
    ensures
        join_words(words(t)) == t,
    decreases t.len(),
{
    if t.len() == 0 {
        assert(words(t) == Seq::<Seq<char>>::empty());
    } else {
        assert(!is_white_space(t[0]));
        crate::text::lemma_token_len(t);
        let l = crate::text::token_len(t) as int;
        let r = t.skip(l);
        assert(words(t) == seq![t.take(l)] + words(r));
        if l == t.len() {
            assert(r.len() == 0);
            assert(words(r) == Seq::<Seq<char>>::empty());
            lemma_join_front(t.take(l), words(r));
            assert(t.take(l) =~= t);
        } else {
            assert(is_white_space(t[l]));
            assert(t[l] == ' ' && l + 1 < t.len() && !is_white_space(t[l + 1]));
            let u = t.skip(l + 1);
            assert(r[0] == t[l]);
            assert(r.drop_first() =~= u);
            assert(words(r) == words(u));
            assert forall|i: int| 0 <= i < u.len() && is_white_space(#[trigger] u[i]) implies u[i] == ' ' && 0
                < i && i + 1 < u.len() && !is_white_space(u[i + 1]) by {
                assert(u[i] == t[i + l + 1]);
                if i + 1 < u.len() {
                    assert(u[i + 1] == t[i + l + 2]);
                }
                assert(i != 0);
            }
            lemma_collapsed_words(u);
            crate::text::lemma_token_len(u);
            assert(words(u).len() > 0);
            lemma_join_front(t.take(l), words(u));
            assert(t.take(l) + seq![' '] + u =~= t);
        }
    }
}

/// Replacing a non-empty text without white space by another keeps the
/// spacing.
proof fn lemma_replace_spaced(t: Seq<char>, from: Seq<char>, to: Seq<char>, lead: bool)
    requires
        spaced(t, lead),
        from.len() > 0,
        to.len() > 0,
        no_white_space(from),
        no_white_space(to),
    ensures
        spaced(replace_all(t, from, to), lead),
    decreases t.len(),
{
    match find(t, from) {
        None => {},
        Some(i) => {
            lemma_contains(t, from);
            let rest = t.skip(i + from.len());
            assert(t.subrange(i, i + from.len()) == from);
            assert forall|j: int| 0 <= j < rest.len() && is_white_space(#[trigger] rest[j]) implies rest[j]
                == ' ' && (true || 0 < j) && j + 1 < rest.len() && !is_white_space(rest[j + 1]) by {
                assert(rest[j] == t[j + i + from.len()]);
                if j + 1 < rest.len() {
                    assert(rest[j + 1] == t[j + i + from.len() + 1]);
                }
            }
            lemma_replace_spaced(rest, from, to, true);
            let rr = replace_all(rest, from, to);
            let a = t.take(i);
            let res = replace_all(t, from, to);
            assert(res == a + to + rr);
            assert forall|k: int| 0 <= k < res.len() && is_white_space(#[trigger] res[k]) implies res[k] == ' '
                && (lead || 0 < k) && k + 1 < res.len() && !is_white_space(res[k + 1]) by {
                if k < i {
                    assert(res[k] == t[k]);
                    assert(t[k] == ' ' && (lead || 0 < k) && k + 1 < t.len() && !is_white_space(t[k + 1]));
                    if k + 1 < i {
                        assert(res[k + 1] == t[k + 1]);
                    } else {
                        assert(res[k + 1] == to[0]);
                    }
                } else if k < i + to.len() {
                    assert(res[k] == to[k - i]);
                } else {
                    assert(res[k] == rr[k - i - to.len()]);
                    if k + 1 < res.len() {
                        assert(res[k + 1] == rr[k - i - to.len() + 1]);
                    }
                }
            }
        },
    }
}

/// `tag` finds nothing where no `<name` opens (in any ASCII case), never
/// gives empty text, reads the name in any ASCII case, and gives text that
/// is already whitespace-collapsed: single spaces between words.
pub proof fn lemma_tag_laws(xml: Seq<char>, name: Seq<char>, other: Seq<char>)
    requires
        lower_seq(other) == lower_seq(name),
    ensures
        !contains(lower_seq(xml), seq!['<'] + lower_seq(name)) ==> spec_tag(xml, name) is None,
        spec_tag(xml, name) matches Some(t) ==> t.len() > 0,
        spec_tag(xml, name) == spec_tag(xml, other),
        spec_tag(xml, name) == spec_tag(xml, upper_seq(name)),
        spec_tag(xml, name) matches Some(t) ==> join_words(words(t)) == t,
{
    lemma_lower_upper(name);
    if let Some((a, b)) = tag_bounds(xml, name) {
        let sub = xml.subrange(a, b);
        lemma_words_props(sub);
        lemma_join_spaced(words(sub));
        let t0 = join_words(words(sub));
        lemma_entities();
        lemma_replace_spaced(t0, "&amp;"@, "&"@, false);
        let t1 = replace_all(t0, "&amp;"@, "&"@);
        lemma_replace_spaced(t1, "&lt;"@, "<"@, false);
        let t2 = replace_all(t1, "&lt;"@, "<"@);
        lemma_replace_spaced(t2, "&gt;"@, ">"@, false);
        let t3 = replace_all(t2, "&gt;"@, ">"@);
        lemma_replace_spaced(t3, "&quot;"@, "\""@, false);
        let t4 = replace_all(t3, "&quot;"@, "\""@);
        lemma_replace_spaced(t4, "&#39;"@, "'"@, false);
        let t = replace_all(t4, "&#39;"@, "'"@);
        assert(t == unescape(t0));
        lemma_collapsed_words(t);
    }
}

proof fn lemma_entities()
    ensures
        "&amp;"@.len() > 0 && no_white_space("&amp;"@),
        "&"@.len() > 0 && no_white_space("&"@),
        "&lt;"@.len() > 0 && no_white_space("&lt;"@),
        "<"@.len() > 0 && no_white_space("<"@),
        "&gt;"@.len() > 0 && no_white_space("&gt;"@),
        ">"@.len() > 0 && no_white_space(">"@),
        "&quot;"@.len() > 0 && no_white_space("&quot;"@),
        "\""@.len() > 0 && no_white_space("\""@),
        "&#39;"@.len() > 0 && no_white_space("&#39;"@),
        "'"@.len() > 0 && no_white_space("'"@),
{
    reveal_strlit("&amp;");
    reveal_strlit("&");
    reveal_strlit("&lt;");
    reveal_strlit("<");
    reveal_strlit("&gt;");
    reveal_strlit(">");
    reveal_strlit("&quot;");
    reveal_strlit("\"");
    reveal_strlit("&#39;");
    reveal_strlit("'");
}

pub fn tag(xml: &str, name: &str) -> (r: Option<String>)
    ensures
        crate::classify::opt_view(r) == spec_tag(xml@, name@),
{
    let x = chars_of(xml);
    let lower = lower_chars(x.as_slice());
    let mut open: Vec<char> = Vec::new();
    open.push('<');
    let nl = lower_str(name);
    push_all(&mut open, nl.as_slice());
    assert(open@ == seq!['<'] + lower_seq(name@));
    let start = match crate::text::find_chars(lower.as_slice(), open.as_slice()) {
        Some(s) => s,
        None => return None,
    };
    proof {
        lemma_contains(lower@, open@);
    }
    let after = slice_chars(lower.as_slice(), start, lower.len());
    assert(after@ == lower@.skip(start as int));
    let gt = match find_char(after.as_slice(), '>') {
        Some(g) => g,
        None => return None,
    };
    proof {
        lemma_contains(after@, seq!['>']);
    }
    let cs = start + gt + 1;
    let after2 = slice_chars(lower.as_slice(), cs, lower.len());
    assert(after2@ == lower@.skip(cs as int));
    let lt = match find_char(after2.as_slice(), '<') {
        Some(l) => l,
        None => return None,
    };
    proof {
        lemma_contains(after2@, seq!['<']);
    }
    let inner = slice_chars(x.as_slice(), cs, cs + lt);
    let ws = words_of(inner.as_slice());
    let joined = join_words_of(&ws);
    let t1 = replace_all_chars(joined.as_slice(), "&amp;", "&");
    let t2 = replace_all_chars(t1.as_slice(), "&lt;", "<");
    let t3 = replace_all_chars(t2.as_slice(), "&gt;", ">");
    let t4 = replace_all_chars(t3.as_slice(), "&quot;", "\"");
    let t5 = replace_all_chars(t4.as_slice(), "&#39;", "'");
    if t5.len() == 0 {
        None
    } else {
        Some(string_of(t5.as_slice()))
    }
}

// ---------------------------------------------------------------------------
// URLs
// ---------------------------------------------------------------------------

/// Whether `path` holds a control or white-space character.
pub open spec fn has_unsafe_char(path: Seq<char>) -> bool {
    exists|i: int| 0 <= i < path.len() && (is_control(#[trigger] path[i]) || is_white_space(path[i]))
}

/// `http://host[:port][/path]` with an IPv4 host: the host, the port (80 by
/// default) and the path with its leading `/`. A path with a control or
/// white-space character is refused, since it goes into a request line.
pub open spec fn spec_parse_url(url: Seq<char>) -> Option<(u32, u16, Seq<char>)> {
    let scheme = "http://"@;
    if !starts_with(url, scheme) {
        None
    } else {
        let rest = url.skip(scheme.len() as int);
        let (authority, path) = match split_once(rest, '/') {
            Some((a, p)) => (a, p),
            None => (rest, Seq::empty()),
        };
        let (host, port) = match split_once(authority, ':') {
            Some((h, p)) => (h, p),
            None => (authority, "80"@),
        };
        if has_unsafe_char(path) {
            None
        } else {
            match (crate::net::spec_parse_ipv4(host), parse_uint(port, 10, 0xffff)) {
                (Some(ip), Some(p)) => Some((ip, p as u16, seq!['/'] + path)),
                _ => None,
            }
        }
    }
}

pub fn parse_url(url: &str) -> (r: Option<(u32, u16, String)>)
    ensures
        match spec_parse_url(url@) {
            Some((ip, port, path)) => r matches Some((i, p, s)) && i == ip && p == port && s@ == path,
            None => r is None,
        },
{
    let u = chars_of(url);
    let scheme = chars_of("http://");
    if !crate::text::starts_with_chars(u.as_slice(), scheme.as_slice()) {
        return None;
    }
    let rest = slice_chars(u.as_slice(), scheme.len(), u.len());
    assert(rest@ == url@.skip(scheme@.len() as int));
    let (authority, path) = match split_once_of(rest.as_slice(), '/') {
        Some((a, p)) => (a, p),
        None => (rest, Vec::new()),
    };
    let (host, port) = match split_once_of(authority.as_slice(), ':') {
        Some((h, p)) => (h, p),
        None => (authority, chars_of("80")),
    };
    let ghost sp = match split_once(rest@, '/') {
        Some((a, p)) => p,
        None => Seq::<char>::empty(),
    };
    assert(path@ == sp);
    let mut i: usize = 0;
    while i < path.len()
        invariant
            i <= path.len(),
            path@ == sp,
            sp == (match split_once(rest@, '/') {
                Some((a, p)) => p,
                None => Seq::<char>::empty(),
            }),
            starts_with(url@, "http://"@),
            rest@ == url@.skip("http://"@.len() as int),
            forall|k: int| 0 <= k < i ==> !(is_control(#[trigger] path@[k]) || is_white_space(path@[k])),
        decreases path.len() - i,
    {
        if is_control_char(path[i]) || is_white_space_char(path[i]) {
            assert(is_control(path@[i as int]) || is_white_space(path@[i as int]));
            assert(exists|k: int|
                0 <= k < path@.len() && (is_control(#[trigger] path@[k]) || is_white_space(
                    path@[k],
                )));
            return None;
        }
        i += 1;
    }
    let ip = match crate::net::parse_ipv4(host.as_slice()) {
        Some(ip) => ip,
        None => return None,
    };
    let p = match parse_uint_of(port.as_slice(), 10, 0xffff) {
        Some(p) => p as u16,
        None => return None,
    };
    let mut full: Vec<char> = Vec::new();
    full.push('/');
    push_all(&mut full, path.as_slice());
    Some((ip, p, string_of(full.as_slice())))
}

/// The decimal text of a number: one digit under ten, at most three under a
/// thousand, and no leading zero.
proof fn lemma_dec_shape(n: nat)
    ensures
        dec(n).len() >= 1,
        n >= 1 ==> dec(n)[0] != '0',
        n < 10 ==> dec(n).len() == 1,
        n < 100 ==> dec(n).len() <= 2,
        n < 1000 ==> dec(n).len() <= 3,
    decreases n,
{
    if n >= 10 {
        lemma_dec_shape(n / 10);
        assert(dec(n) == dec(n / 10).push(crate::text::digit_char(n % 10)));
        assert(dec(n)[0] == dec(n / 10)[0]);
    } else {
        assert(crate::text::digit_char(n) as u32 == n + 48);
    }
}

/// The decimal text of a number holds only digits and reads back as it.
proof fn lemma_dec_reads_back(n: nat, max: nat, c: char)
    requires
        n <= max,
        !crate::text::is_digit(c),
    ensures
        parse_uint(dec(n), 10, max) == Some(n),
        !dec(n).contains(c),
{
    crate::mdns::lemma_dec(n);
    assert(crate::text::is_digit(dec(n)[0]));
    if dec(n).contains(c) {
        let i = choose|i: int| 0 <= i < dec(n).len() && dec(n)[i] == c;
        assert(crate::text::is_digit(dec(n)[i]));
    }
}

proof fn lemma_octet_ok(o: nat)
    requires
        o < 256,
    ensures
        crate::net::octet_text_ok(dec(o)),
        crate::text::digits_value(dec(o), 10) == Some(o),
        !dec(o).contains('.') && !dec(o).contains('/') && !dec(o).contains(':'),
{
    crate::mdns::lemma_dec(o);
    lemma_dec_shape(o);
    lemma_dec_reads_back(o, 255, '.');
    lemma_dec_reads_back(o, 255, '/');
    lemma_dec_reads_back(o, 255, ':');
}

/// `"a.b.c.d"` as `Ipv4Addr`'s `Display` writes it parses back to the address,
/// and holds no `/` or `:`.
#[verifier::spinoff_prover]
#[verifier::rlimit(30)]
pub proof fn lemma_ipv4_round_trip(ip: u32)
    ensures
        crate::net::spec_parse_ipv4(crate::net::ipv4_text(ip)) == Some(ip),
        !crate::net::ipv4_text(ip).contains('/'),
        !crate::net::ipv4_text(ip).contains(':'),
{
    crate::net::lemma_octets(ip);
    let (o0, o1, o2, o3) = (
        crate::net::octet(ip, 0),
        crate::net::octet(ip, 1),
        crate::net::octet(ip, 2),
        crate::net::octet(ip, 3),
    );
    lemma_octet_ok(o0);
    lemma_octet_ok(o1);
    lemma_octet_ok(o2);
    lemma_octet_ok(o3);
    let t = crate::net::ipv4_text(ip);
    crate::mdns::lemma_split_none(dec(o3), '.');
    crate::mdns::lemma_split_first(dec(o2), dec(o3), '.');
    crate::mdns::lemma_split_first(dec(o1), dec(o2) + seq!['.'] + dec(o3), '.');
    crate::mdns::lemma_split_first(dec(o0), dec(o1) + seq!['.'] + dec(o2) + seq!['.'] + dec(o3), '.');
    assert(dec(o1) + seq!['.'] + dec(o2) + seq!['.'] + dec(o3) == dec(o1) + seq!['.'] + (dec(o2)
        + seq!['.'] + dec(o3)));
    assert(t == dec(o0) + seq!['.'] + (dec(o1) + seq!['.'] + dec(o2) + seq!['.'] + dec(o3)));
    assert(split_char(t, '.') == seq![dec(o0), dec(o1), dec(o2), dec(o3)]);
    assert forall|c: char| c == '/' || c == ':' implies !t.contains(c) by {
        if t.contains(c) {
            let i = choose|i: int| 0 <= i < t.len() && t[i] == c;
            let l0 = dec(o0).len() as int;
            let l1 = dec(o1).len() as int;
            let l2 = dec(o2).len() as int;
            if i < l0 {
                assert(dec(o0)[i] == c);
            } else if i == l0 {
            } else if i < l0 + 1 + l1 {
                assert(dec(o1)[i - l0 - 1] == c);
            } else if i == l0 + 1 + l1 {
            } else if i < l0 + 2 + l1 + l2 {
                assert(dec(o2)[i - l0 - 2 - l1] == c);
            } else if i == l0 + 2 + l1 + l2 {
            } else {
                assert(dec(o3)[i - l0 - 3 - l1 - l2] == c);
            }
        }
    }
}

/// The first `c` of `x + [c] + y`, when `x` holds none, is right after `x`.
proof fn lemma_find_first(x: Seq<char>, y: Seq<char>, c: char)
    requires
        !x.contains(c),
    ensures
        find(x + seq![c] + y, seq![c]) == Some(x.len() as int),
{
    let s = x + seq![c] + y;
    crate::text::lemma_contains(s, seq![c]);
    assert(s.subrange(x.len() as int, x.len() + 1int) == seq![c]);
    assert(crate::text::matches_at(s, seq![c], x.len() as int));
    let j = find(s, seq![c]).unwrap();
    if j < x.len() {
        assert(s.subrange(j, j + 1)[0] == s[j]);
        assert(x[j] == c);
    }
}

proof fn lemma_find_none(x: Seq<char>, c: char)
    requires
        !x.contains(c),
    ensures
        find(x, seq![c]) is None,
{
    crate::text::lemma_contains(x, seq![c]);
    if let Some(j) = find(x, seq![c]) {
        assert(x.subrange(j, j + 1)[0] == x[j]);
    }
}

/// A path that `parse_url` gives back starts with `/` and holds no control
/// or white-space character, so it can go into a request line as it is.
pub proof fn lemma_parse_url_path(url: Seq<char>)
    ensures
        spec_parse_url(url) matches Some((_, _, path)) ==> path.len() >= 1 && path[0] == '/'
            && forall|i: int|
            0 <= i < path.len() ==> !is_control(#[trigger] path[i]) && !is_white_space(path[i]),
{
    if let Some((_, _, path)) = spec_parse_url(url) {
        let scheme = "http://"@;
        let rest = url.skip(scheme.len() as int);
        let p = match split_once(rest, '/') {
            Some((a, q)) => q,
            None => Seq::empty(),
        };
        assert(path == seq!['/'] + p);
        assert forall|i: int| 0 <= i < path.len() implies !is_control(#[trigger] path[i])
            && !is_white_space(path[i]) by {
            if i > 0 {
                assert(path[i] == p[i - 1]);
            }
        }
    }
}

/// A URL written from an address, a port and a path without control or
/// white-space characters reads back as them; without a port, as port 80.
#[verifier::spinoff_prover]
#[verifier::rlimit(30)]
pub proof fn lemma_parse_url_round_trip(ip: u32, port: u16, p: Seq<char>)
    requires
        !has_unsafe_char(p),
    ensures
        spec_parse_url("http://"@ + crate::net::ipv4_text(ip) + seq![':'] + dec(port as nat) + seq!['/']
            + p) == Some((ip, port, seq!['/'] + p)),
        spec_parse_url("http://"@ + crate::net::ipv4_text(ip) + seq!['/'] + p) == Some(
            (ip, 80u16, seq!['/'] + p),
        ),
{
    reveal_strlit("http://");
    reveal_strlit("80");
    let scheme = "http://"@;
    let a = crate::net::ipv4_text(ip);
    let d = dec(port as nat);
    lemma_ipv4_round_trip(ip);
    lemma_dec_reads_back(port as nat, 0xffff, '/');
    lemma_dec_reads_back(port as nat, 0xffff, ':');
    // With a port.
    let x = a + seq![':'] + d;
    assert(!x.contains('/')) by {
        if x.contains('/') {
            let i = choose|i: int| 0 <= i < x.len() && x[i] == '/';
            if i < a.len() {
                assert(a[i] == '/');
            } else if i > a.len() {
                assert(d[i - a.len() - 1] == '/');
            }
        }
    }
    let u1 = scheme + a + seq![':'] + d + seq!['/'] + p;
    assert(u1.take(7) =~= scheme);
    let r1 = u1.skip(7);
    assert(r1 =~= x + seq!['/'] + p);
    lemma_find_first(x, p, '/');
    assert((x + seq!['/'] + p).take(x.len() as int) =~= x);
    assert((x + seq!['/'] + p).skip(x.len() + 1int) =~= p);
    lemma_find_first(a, d, ':');
    assert((a + seq![':'] + d).take(a.len() as int) =~= a);
    assert((a + seq![':'] + d).skip(a.len() + 1int) =~= d);
    // Without one.
    let u2 = scheme + a + seq!['/'] + p;
    assert(u2.take(7) =~= scheme);
    assert(u2.skip(7) =~= a + seq!['/'] + p);
    lemma_find_first(a, p, '/');
    assert((a + seq!['/'] + p).take(a.len() as int) =~= a);
    assert((a + seq!['/'] + p).skip(a.len() + 1int) =~= p);
    lemma_find_none(a, ':');
    lemma_dec_reads_back(80, 0xffff, '/');
    assert(dec(80) == dec(8).push(crate::text::digit_char(0)));
    assert(crate::text::digit_char(8) == '8');
    assert(crate::text::digit_char(0) == '0');
    assert(dec(80) =~= "80"@);
}

// ---------------------------------------------------------------------------
// Responses and banners
// ---------------------------------------------------------------------------

/// The body bytes of a response after its header block: dechunked when the
/// headers say chunked, then gunzipped when it starts with the gzip magic.
pub open spec fn decoded_body(headers: Seq<char>, body: Seq<u8>) -> Seq<u8> {
    let b = if contains(lower_seq(headers), "transfer-encoding: chunked"@) {
        spec_dechunk(body)
    } else {
        body
    };
    if b.len() >= 2 && b[0] == 0x1f && b[1] == 0x8b {
        gunzip_output(b)
    } else {
        b
    }
}

/// Split a raw response at its blank line into header text and body text.
/// Some embedded servers (ESP32 web UIs) send chunked gzip no matter what was
/// asked for, so both are undone.
pub fn parse_response(buf: &[u8]) -> (r: Option<Response>)
    ensures
        match find_bytes_from(buf@, blank_line(), 0) {
            None => r is None,
            Some(split) => r matches Some(resp) && resp.headers@ == utf8_lossy(buf@.take(split))
                && resp.body@ == utf8_lossy(
                decoded_body(utf8_lossy(buf@.take(split)), buf@.skip(split + 4)),
            ),
        },
{
    let marker: [u8; 4] = [13, 10, 13, 10];
    assert(marker@ == blank_line());
    let split = match find_bytes(buf, &marker) {
        Some(s) => s,
        None => return None,
    };
    proof {
        lemma_find_bytes_from(buf@, blank_line(), 0);
    }
    assert(split + 4 <= buf.len());
    let head = slice_bytes(buf, 0, split);
    assert(head@ == buf@.take(split as int));
    let headers = lossy(head.as_slice());
    let raw = slice_bytes(buf, split + 4, buf.len());
    assert(raw@ == buf@.skip(split + 4));
    let hl = lower_str(headers.as_str());
    let body = if contains_str(hl.as_slice(), "transfer-encoding: chunked") {
        dechunk(raw.as_slice())
    } else {
        raw
    };
    let body = if body.len() >= 2 && body[0] == 0x1f && body[1] == 0x8b {
        gunzip(body.as_slice())
    } else {
        body
    };
    let text = lossy(body.as_slice());
    Some(Response { headers, body: text })
}

/// What a device's web UI says about itself.
pub open spec fn spec_banner(headers: Seq<char>, body: Seq<char>) -> Option<
    (Option<Seq<char>>, Option<Seq<char>>),
> {
    let server = spec_header(headers, "server"@);
    let title = spec_tag(body, "title"@);
    if server is Some || title is Some {
        Some((server, title))
    } else {
        None
    }
}

/// The `Server` header and page title of a response, if it has either.
pub fn banner_of(resp: &Response) -> (r: Option<crate::device::Banner>)
    ensures
        match spec_banner(resp.headers@, resp.body@) {
            Some((server, title)) => r matches Some(b) && crate::classify::opt_view(b.server) == server
                && crate::classify::opt_view(b.title) == title,
            None => r is None,
        },
{
    let server = match resp.header("server") {
        Some(s) => Some(crate::text::owned(s)),
        None => None,
    };
    let title = tag(resp.body.as_str(), "title");
    if server.is_some() || title.is_some() {
        Some(crate::device::Banner { server, title })
    } else {
        None
    }
}

/// The HTTP/1.0 GET request for `path` on `ip:port`.
pub open spec fn spec_request(ip: u32, port: u16, path: Seq<char>) -> Seq<char> {
    "GET "@ + path + " HTTP/1.0\r\nHost: "@ + crate::net::ipv4_text(ip) + seq![':'] + crate::text::dec(
        port as nat,
    ) + "\r\nUser-Agent: lsnet\r\nConnection: close\r\n\r\n"@
}

pub fn request(ip: u32, port: u16, path: &str) -> (r: String)
    ensures
        r@ == spec_request(ip, port, path@),
{
    let mut v: Vec<char> = Vec::new();
    crate::text::push_str(&mut v, "GET ");
    crate::text::push_str(&mut v, path);
    crate::text::push_str(&mut v, " HTTP/1.0\r\nHost: ");
    crate::net::push_ipv4(&mut v, ip);
    v.push(':');
    crate::text::push_dec(&mut v, port as u64);
    crate::text::push_str(&mut v, "\r\nUser-Agent: lsnet\r\nConnection: close\r\n\r\n");
    string_of(v.as_slice())
}

} // verus!

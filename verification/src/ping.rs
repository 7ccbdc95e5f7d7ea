//! ICMP echo messages for the unprivileged ping sweep: building a request
//! with a correct Internet checksum, and recognizing a reply with or
//! without the IP header in front of it.
use vstd::prelude::*;

verus! {

pub const ECHO_REQUEST: u8 = 8;

pub const ECHO_REPLY: u8 = 0;

/// The sum of `d` read as big-endian 16-bit words, the last one padded with
/// a zero byte when the length is odd.
pub open spec fn word_sum(d: Seq<u8>) -> nat
    decreases d.len(),
{
    if d.len() == 0 {
        0
    } else if d.len() == 1 {
        (d[0] as nat) * 256
    } else {
        (d[0] as nat) * 256 + (d[1] as nat) + word_sum(d.skip(2))
    }
}

/// Fold the carries of a ones'-complement sum back into 16 bits.
pub open spec fn fold16(s: nat) -> nat
    decreases s,
{
    if s > 0xffff {
        proof {
            lemma_fold_step(s);
        }
        fold16(s % 0x10000 + s / 0x10000)
    } else {
        s
    }
}

pub proof fn lemma_fold_step(s: nat)
    requires
        s > 0xffff,
    ensures
        s % 0x10000 + s / 0x10000 < s,
{
    assert(s % 0x10000 + s / 0x10000 < s) by (nonlinear_arith)
        requires
            s > 0xffff,
    ;
}

/// The Internet checksum of `d`: the ones' complement of its ones'-complement sum.
pub open spec fn spec_checksum(d: Seq<u8>) -> u16 {
    (0xffff - fold16(word_sum(d))) as u16
}

/// The word sum of `d` is at most 0xffff for each word, which bounds the sums
/// that `checksum` accepts by the length of its input.
pub proof fn lemma_word_sum_bound(d: Seq<u8>)
    ensures
        word_sum(d) <= 0xffff * ((d.len() + 1) / 2),
    decreases d.len(),
{
    if d.len() >= 2 {
        lemma_word_sum_bound(d.skip(2));
        assert(0xffff * ((d.len() + 1) / 2) == 0xffff + 0xffff * ((d.skip(2).len() + 1) / 2));
    }
}

/// The Internet checksum of `data`, as RFC 1071 computes it.
pub fn checksum(data: &[u8]) -> (r: u16)
    requires
        word_sum(data@) <= 0xffff_ffff,
    ensures
        r == spec_checksum(data@),
{
    let mut sum: u32 = 0;
    let mut i: usize = 0;
    assert(data@.skip(0) == data@);
    while i < data.len()
        invariant
            i <= data.len(),
            word_sum(data@) <= 0xffff_ffff,
            word_sum(data@) == sum + word_sum(data@.skip(i as int)),
        decreases data.len() - i,
    {
        let hi: u32 = data[i] as u32;
        let lo: u32 = if i + 1 < data.len() {
            data[i + 1] as u32
        } else {
            0
        };
        assert(data@.skip(i as int)[0] == data@[i as int]);
        if i + 1 < data.len() {
            assert(data@.skip(i as int)[1] == data@[i + 1]);
            assert(data@.skip(i as int).skip(2) == data@.skip(i + 2));
        }
        sum = sum + hi * 256 + lo;
        i = if i + 1 < data.len() {
            i + 2
        } else {
            data.len()
        };
    }
    let ghost total = sum as nat;
    assert(fold16(total) == fold16(sum as nat));
    while sum > 0xffff
        invariant
            fold16(total) == fold16(sum as nat),
        decreases sum,
    {
        assert((sum & 0xffff) == sum % 0x10000 && (sum >> 16) == sum / 0x10000) by (bit_vector);
        assert((sum & 0xffff) <= 0xffff && (sum >> 16) <= 0xffff) by (bit_vector);
        let next: u32 = (sum & 0xffff) + (sum >> 16);
        proof {
            lemma_fold_step(sum as nat);
        }
        sum = next;
    }
    let r: u16 = !(sum as u16);
    assert(sum <= 0xffff ==> !(sum as u16) == (0xffff - sum) as u16) by (bit_vector);
    r
}

/// The echo request for `id` and `seq` before its checksum is filled in.
pub open spec fn echo_template(id: u16, seq: u16) -> Seq<u8> {
    seq![
        ECHO_REQUEST,
        0u8,
        0u8,
        0u8,
        (id / 256) as u8,
        (id % 256) as u8,
        (seq / 256) as u8,
        (seq % 256) as u8,
        108u8,
        115u8,
        110u8,
        101u8,
        116u8,
        0u8,
        0u8,
        0u8,
    ]
}

/// The echo request for `id` and `seq`: type 8, code 0, the checksum, the
/// identifier and sequence number big-endian, then `lsnet` padded to eight bytes.
pub open spec fn echo_packet(id: u16, seq: u16) -> Seq<u8> {
    let c = spec_checksum(echo_template(id, seq));
    echo_template(id, seq).update(2, (c / 256) as u8).update(3, (c % 256) as u8)
}

proof fn lemma_template_sum(id: u16, seq: u16)
    ensures
        word_sum(echo_template(id, seq)) <= 0xffff * 8,
        word_sum(echo_packet(id, seq)) == word_sum(echo_template(id, seq)) + spec_checksum(
            echo_template(id, seq),
        ),
{
    let t = echo_template(id, seq);
    let p = echo_packet(id, seq);
    let c = spec_checksum(t);
    lemma_word_sum_bound(t);
    assert(t.skip(2).skip(2) == t.skip(4));
    assert(p.skip(2).skip(2) == t.skip(4));
    reveal_with_fuel(word_sum, 3);
    assert(word_sum(t) == 8 * 256 + word_sum(t.skip(4)));
    assert(word_sum(p) == 8 * 256 + ((c / 256) as u8 as nat) * 256 + ((c % 256) as u8 as nat)
        + word_sum(t.skip(4)));
    assert(((c / 256) as u8 as nat) * 256 + ((c % 256) as u8 as nat) == c as nat);
}

proof fn lemma_fold16(x: nat)
    ensures
        fold16(x) % 0xffff == x % 0xffff,
        fold16(x) <= 0xffff,
        fold16(x) <= x,
        x > 0 ==> fold16(x) > 0,
    decreases x,
{
    if x > 0xffff {
        lemma_fold_step(x);
        let y = x % 0x10000 + x / 0x10000;
        lemma_fold16(y);
        assert(y % 0xffff == x % 0xffff) by (nonlinear_arith)
            requires
                y == x % 0x10000 + x / 0x10000,
        {
            assert(x == 0x10000 * (x / 0x10000) + x % 0x10000);
        }
        assert(y > 0) by (nonlinear_arith)
            requires
                y == x % 0x10000 + x / 0x10000,
                x > 0xffff,
        ;
    }
}

/// A correct checksum makes the whole message check out: the checksum of an
/// echo request, computed over the request including its checksum, is zero.
pub proof fn lemma_echo_request_checks_out(id: u16, seq: u16)
    ensures
        spec_checksum(echo_packet(id, seq)) == 0,
{
    let t = echo_template(id, seq);
    let s = word_sum(t);
    lemma_template_sum(id, seq);
    lemma_fold16(s);
    let f = fold16(s);
    let c = spec_checksum(t);
    assert(c == 0xffff - f);
    let total: nat = (s + (0xffff - f)) as nat;
    assert(word_sum(echo_packet(id, seq)) == total);
    lemma_fold16(total);
    assert(total % 0xffff == 0) by (nonlinear_arith)
        requires
            total == s + (0xffff - f),
            f % 0xffff == s % 0xffff,
            f <= s,
    {
        assert(s == 0xffff * (s / 0xffff) + s % 0xffff);
        assert(f == 0xffff * (f / 0xffff) + f % 0xffff);
    }
    assert(total > 0);
    let g = fold16(total);
    assert(g == 0xffff) by (nonlinear_arith)
        requires
            g % 0xffff == 0,
            0 < g <= 0xffff,
    ;
}

/// `d` with its checksum written big-endian over its (zero) bytes `k` and
/// `k + 1`; ICMP keeps it at bytes 2 and 3.
pub open spec fn with_checksum(d: Seq<u8>, k: int) -> Seq<u8> {
    let c = spec_checksum(d);
    d.update(k, (c / 256) as u8).update(k + 1, (c % 256) as u8)
}

/// The word sum splits at an even offset.
pub proof fn lemma_word_sum_split(d: Seq<u8>, k: int)
    requires
        0 <= k <= d.len(),
        k % 2 == 0,
    ensures
        word_sum(d) == word_sum(d.take(k)) + word_sum(d.skip(k)),
    decreases k,
{
    if k > 0 {
        lemma_word_sum_split(d.skip(2), k - 2);
        assert(d.skip(2).skip(k - 2) == d.skip(k));
        assert(d.take(k).skip(2) == d.skip(2).take(k - 2));
        assert(d.take(k)[0] == d[0] && d.take(k)[1] == d[1]);
    } else {
        assert(d.take(0) == Seq::<u8>::empty());
        assert(d.skip(0) == d);
    }
}

/// RFC 1071: a message whose 16-bit checksum field, at any even offset, held
/// zero while the checksum was computed, and then holds that checksum,
/// checks out: its checksum is zero.
pub proof fn lemma_checksum_verifies(d: Seq<u8>, k: int)
    requires
        0 <= k,
        k + 1 < d.len(),
        k % 2 == 0,
        d[k] == 0,
        d[k + 1] == 0,
    ensures
        spec_checksum(with_checksum(d, k)) == 0,
{
    let s = word_sum(d);
    let c = spec_checksum(d);
    let p = with_checksum(d, k);
    lemma_word_sum_split(d, k);
    lemma_word_sum_split(p, k);
    assert(p.take(k) == d.take(k));
    assert(d.skip(k).skip(2) == d.skip(k + 2));
    assert(p.skip(k).skip(2) == d.skip(k + 2));
    assert(word_sum(d.skip(k)) == (d[k] as nat) * 256 + (d[k + 1] as nat) + word_sum(d.skip(k + 2)));
    assert(word_sum(p.skip(k)) == ((c / 256) as u8 as nat) * 256 + ((c % 256) as u8 as nat) + word_sum(
        d.skip(k + 2),
    ));
    assert(((c / 256) as u8 as nat) * 256 + ((c % 256) as u8 as nat) == c as nat);
    lemma_fold16(s);
    let f = fold16(s);
    assert(c == 0xffff - f);
    let total: nat = (s + (0xffff - f)) as nat;
    assert(word_sum(p) == total);
    lemma_fold16(total);
    assert(total % 0xffff == 0) by (nonlinear_arith)
        requires
            total == s + (0xffff - f),
            f % 0xffff == s % 0xffff,
            f <= s,
    {
        assert(s == 0xffff * (s / 0xffff) + s % 0xffff);
        assert(f == 0xffff * (f / 0xffff) + f % 0xffff);
    }
    assert(total > 0);
    let g = fold16(total);
    assert(g == 0xffff) by (nonlinear_arith)
        requires
            g % 0xffff == 0,
            0 < g <= 0xffff,
    ;
}

/// An ICMP echo request carrying `id` and `seq`.
pub fn echo_request(id: u16, seq: u16) -> (r: [u8; 16])
    ensures
        r@ == echo_packet(id, seq),
        spec_checksum(r@) == 0,
{
    let ih: u8 = (id / 256) as u8;
    let il: u8 = (id % 256) as u8;
    let sh: u8 = (seq / 256) as u8;
    let sl: u8 = (seq % 256) as u8;
    let template: [u8; 16] = [ECHO_REQUEST, 0, 0, 0, ih, il, sh, sl, 108, 115, 110, 101, 116, 0, 0, 0];
    assert(template@ == echo_template(id, seq));
    proof {
        lemma_template_sum(id, seq);
    }
    let sum = checksum(&template);
    let pkt: [u8; 16] = [
        ECHO_REQUEST,
        0,
        (sum / 256) as u8,
        (sum % 256) as u8,
        ih,
        il,
        sh,
        sl,
        108,
        115,
        110,
        101,
        116,
        0,
        0,
        0,
    ];
    assert(pkt@ == echo_packet(id, seq));
    proof {
        lemma_echo_request_checks_out(id, seq);
    }
    pkt
}

/// Whether `pkt` is an echo reply. macOS delivers the IP header (version 4,
/// its length in 32-bit words in the low nibble) before the ICMP message;
/// Linux doesn't.
pub open spec fn spec_is_echo_reply(pkt: Seq<u8>) -> bool {
    if pkt.len() > 0 && pkt[0] / 16 == 4 {
        let start = (pkt[0] % 16) * 4;
        start < pkt.len() && pkt[start as int] == ECHO_REPLY
    } else {
        pkt.len() > 0 && pkt[0] == ECHO_REPLY
    }
}

pub fn is_echo_reply(pkt: &[u8]) -> (r: bool)
    ensures
        r == spec_is_echo_reply(pkt@),
{
    if pkt.len() > 0 && pkt[0] >> 4 == 4 {
        let b = pkt[0];
        assert(b >> 4 == b / 16 && b & 0x0f == b % 16) by (bit_vector);
        let start: usize = ((b & 0x0f) as usize) * 4;
        start < pkt.len() && pkt[start] == ECHO_REPLY
    } else {
        proof {
            if pkt@.len() > 0 {
                let b = pkt@[0];
                assert(b >> 4 == b / 16) by (bit_vector);
            }
        }
        pkt.len() > 0 && pkt[0] == ECHO_REPLY
    }
}

} // verus!

//! Echo packets: the Internet checksum, echo requests, and recognising
//! the reply to one of our requests.
use vstd::prelude::*;

verus! {

/// Sum of the packet read as big-endian 16-bit words, an odd last byte
/// counting as the high byte of a word.
pub open spec fn word_sum(d: Seq<u8>) -> nat
    decreases d.len(),
{
    if d.len() == 0 {
        0
    } else if d.len() == 1 {
        d[0] as nat * 256
    } else {
        d[0] as nat * 256 + d[1] as nat + word_sum(d.skip(2))
    }
}

/// One's-complement reduction of a sum to 16 bits (end-around carry): zero
/// stays zero, any other sum becomes the value in `1..=0xFFFF` congruent to it
/// modulo `0xFFFF`.
pub open spec fn ones_fold(s: nat) -> nat {
    if s == 0 {
        0
    } else {
        ((s - 1) as nat % 65535) + 1
    }
}

/// The Internet checksum of `d`: the complement of its folded word sum.
pub open spec fn internet_checksum(d: Seq<u8>) -> u16 {
    (65535 - ones_fold(word_sum(d))) as u16
}

proof fn lemma_fold_step(x: nat)
    requires
        x >= 65536,
    ensures
        ones_fold(x % 65536 + x / 65536) == ones_fold(x),
        x % 65536 + x / 65536 < x,
{
    let y = x % 65536 + x / 65536;
    assert(x == 65536 * (x / 65536) + x % 65536) by (nonlinear_arith);
    assert(y > 0) by (nonlinear_arith)
        requires
            x >= 65536,
            y == x % 65536 + x / 65536,
    ;
    assert(y < x) by (nonlinear_arith)
        requires
            x >= 65536,
            y == x % 65536 + x / 65536,
    ;
    assert((x - 1) % 65535 == (y - 1) % 65535) by (nonlinear_arith)
        requires
            x >= 65536,
            y == x % 65536 + x / 65536,
            x == 65536 * (x / 65536) + x % 65536,
    {
        let q = x / 65536;
        assert(x - 1 == (y - 1) + 65535 * q);
    }
}

proof fn lemma_fold_small(x: nat)
    requires
        x < 65536,
    ensures
        ones_fold(x) == x,
{
}

/// One's-complement checksum used by ICMP (RFC 1071).
pub fn checksum(data: &[u8]) -> (r: u16)
    requires
        word_sum(data@) <= u32::MAX,
    ensures
        r == internet_checksum(data@),
{
    let n = data.len();
    let mut sum: u32 = 0;
    let mut i: usize = 0;
    assert(data@.skip(0) =~= data@);
    while n - i >= 2
        invariant
            n == data@.len(),
            i <= n,
            word_sum(data@) <= u32::MAX,
            word_sum(data@) == sum + word_sum(data@.skip(i as int)),
        decreases n - i,
    {
        let ghost rest = data@.skip(i as int);
        assert(rest[0] == data@[i as int] && rest[1] == data@[i + 1]);
        assert(rest.skip(2) =~= data@.skip(i + 2));
        sum = sum + (data[i] as u32 * 256 + data[i + 1] as u32);
        i = i + 2;
    }
    if i < n {
        let ghost rest = data@.skip(i as int);
        assert(rest.len() == 1 && rest[0] == data@[i as int]);
        sum = sum + data[i] as u32 * 256;
    } else {
        assert(data@.skip(i as int).len() == 0);
    }
    let ghost total = word_sum(data@);
    assert(sum == total);
    while sum >= 65536
        invariant
            ones_fold(sum as nat) == ones_fold(total),
        decreases sum,
    {
        proof {
            lemma_fold_step(sum as nat);
        }
        let low = sum % 65536;
        let high = sum / 65536;
        sum = low + high;
    }
    proof {
        lemma_fold_small(sum as nat);
    }
    (65535 - sum) as u16
}

proof fn lemma_word_sum_set_word(d: Seq<u8>, k: int, hi: u8, lo: u8)
    requires
        0 <= k,
        k % 2 == 0,
        k + 1 < d.len(),
        d[k] == 0,
        d[k + 1] == 0,
    ensures
        word_sum(d.update(k, hi).update(k + 1, lo)) == word_sum(d) + hi as nat * 256 + lo as nat,
    decreases k,
{
    let d2 = d.update(k, hi).update(k + 1, lo);
    if k == 0 {
        assert(d2.skip(2) =~= d.skip(2));
    } else {
        assert(d2.skip(2) =~= d.skip(2).update(k - 2, hi).update(k - 1, lo));
        lemma_word_sum_set_word(d.skip(2), k - 2, hi, lo);
    }
}

proof fn lemma_word_sum_push_zero(d: Seq<u8>)
    ensures
        word_sum(d.push(0)) == word_sum(d),
    decreases d.len(),
{
    if d.len() >= 2 {
        assert(d.push(0)[0] == d[0] && d.push(0)[1] == d[1]);
        assert(d.push(0).skip(2) =~= d.skip(2).push(0));
        lemma_word_sum_push_zero(d.skip(2));
    } else if d.len() == 1 {
        assert(d.push(0)[0] == d[0] && d.push(0)[1] == 0);
        assert(d.push(0).skip(2) =~= Seq::<u8>::empty());
        assert(word_sum(Seq::<u8>::empty()) == 0);
    } else {
        assert(d.push(0) =~= seq![0u8]);
    }
}

/// Writing the checksum of a packet into a zeroed, word-aligned checksum
/// field makes the whole packet check out: its checksum becomes zero.
pub proof fn lemma_inserted_checksum_verifies(d: Seq<u8>, k: int)
    requires
        0 <= k,
        k % 2 == 0,
        k + 1 < d.len(),
        d[k] == 0,
        d[k + 1] == 0,
    ensures
        ({
            let c = internet_checksum(d);
            internet_checksum(d.update(k, (c / 256) as u8).update(k + 1, (c % 256) as u8)) == 0
        }),
{
    let c = internet_checksum(d);
    let w0 = word_sum(d);
    lemma_word_sum_set_word(d, k, (c / 256) as u8, (c % 256) as u8);
    assert(c == (c / 256) * 256 + c % 256);
    let f = ones_fold(w0);
    assert(f <= 65535) by (nonlinear_arith)
        requires
            f == ones_fold(w0),
    ;
    assert(c == 65535 - f);
    let w1 = w0 + c;
    assert(ones_fold(w1 as nat) == 65535) by (nonlinear_arith)
        requires
            w1 == w0 + 65535 - f,
            f == ones_fold(w0),
    {
        if w0 == 0 {
            assert(w1 == 65535);
        } else {
            let r = ((w0 - 1) as nat) % 65535;
            assert(w0 - 1 == 65535 * ((w0 - 1) / 65535) + r);
            assert(w1 - 1 == 65535 * ((w0 - 1) / 65535) + 65534);
        }
    }
}

/// A zero byte appended to a packet leaves its checksum unchanged; so an odd
/// last byte counts as a word padded with zero.
pub proof fn lemma_checksum_zero_padding(d: Seq<u8>)
    ensures
        internet_checksum(d.push(0)) == internet_checksum(d),
{
    lemma_word_sum_push_zero(d);
}

/// An echo request (type 8, code 0) with the given checksum field,
/// identifier, sequence number and the 8-byte payload `rmap0000`.
pub open spec fn echo_packet(id: u16, seq: u16, ck: u16) -> Seq<u8> {
    seq![
        8u8,
        0u8,
        (ck / 256) as u8,
        (ck % 256) as u8,
        (id / 256) as u8,
        (id % 256) as u8,
        (seq / 256) as u8,
        (seq % 256) as u8,
        114u8,
        109u8,
        97u8,
        112u8,
        48u8,
        48u8,
        48u8,
        48u8,
    ]
}

/// The echo request we send: checksum computed over the packet with a zero
/// checksum field.
pub open spec fn echo_request(id: u16, seq: u16) -> Seq<u8> {
    echo_packet(id, seq, internet_checksum(echo_packet(id, seq, 0)))
}

proof fn lemma_echo_word_sum(id: u16, seq: u16, ck: u16)
    ensures
        word_sum(echo_packet(id, seq, ck)) == word_sum(echo_packet(id, seq, 0)) + ck,
        word_sum(echo_packet(id, seq, 0)) <= 8 * 65535,
{
    let p = echo_packet(id, seq, ck);
    let z = echo_packet(id, seq, 0);
    reveal_with_fuel(word_sum, 9);
    assert(p.skip(2)[0] == p[2]);
    assert(ck == (ck / 256) * 256 + ck % 256);
    assert(id == (id / 256) * 256 + id % 256);
    assert(seq == (seq / 256) * 256 + seq % 256);
    let ps = p.skip(2);
    let zs = z.skip(2);
    assert(ps.skip(2) =~= p.skip(4));
    assert(zs.skip(2) =~= z.skip(4));
    assert(p.skip(4) =~= z.skip(4));
    assert(word_sum(p) == (ck / 256) as nat * 256 + (ck % 256) as nat + word_sum(p.skip(4)) + 8
        * 256);
    assert(word_sum(z) == word_sum(z.skip(4)) + 8 * 256);
    let t = z.skip(4);
    assert(t.skip(2) =~= z.skip(6));
    assert(t.skip(2).skip(2) =~= z.skip(8));
    assert(z.skip(8).skip(2) =~= z.skip(10));
    assert(z.skip(10).skip(2) =~= z.skip(12));
    assert(z.skip(12).skip(2) =~= z.skip(14));
    assert(z.skip(14).skip(2) =~= z.skip(16));
    assert(z.skip(16).len() == 0);
}

/// Builds the echo request with identifier `id` and sequence number `seq`.
pub fn build_echo_request(id: u16, seq: u16) -> (buf: Vec<u8>)
    ensures
        buf@ == echo_request(id, seq),
{
    let mut buf: Vec<u8> = vec![
        8u8,
        0,
        0,
        0,
        (id / 256) as u8,
        (id % 256) as u8,
        (seq / 256) as u8,
        (seq % 256) as u8,
        114,
        109,
        97,
        112,
        48,
        48,
        48,
        48,
    ];
    assert(buf@ =~= echo_packet(id, seq, 0));
    proof {
        lemma_echo_word_sum(id, seq, 0);
    }
    let ck = checksum(buf.as_slice());
    buf.set(2, (ck / 256) as u8);
    buf.set(3, (ck % 256) as u8);
    assert(buf@ =~= echo_packet(id, seq, ck));
    buf
}

/// The echo request carries a valid checksum: the checksum of the whole
/// packet, its checksum field included, is zero.
pub proof fn lemma_echo_request_checks_out(id: u16, seq: u16)
    ensures
        internet_checksum(echo_request(id, seq)) == 0,
{
    let w0 = word_sum(echo_packet(id, seq, 0));
    let ck = internet_checksum(echo_packet(id, seq, 0));
    lemma_echo_word_sum(id, seq, ck);
    let f = ones_fold(w0);
    assert(f <= 65535) by (nonlinear_arith)
        requires
            f == ones_fold(w0),
    ;
    assert(ck == 65535 - f);
    let w1 = w0 + ck;
    assert(ones_fold(w1 as nat) == 65535) by (nonlinear_arith)
        requires
            w1 == w0 + 65535 - f,
            f == ones_fold(w0),
    {
        if w0 == 0 {
            assert(w1 == 65535);
        } else {
            let r = ((w0 - 1) as nat) % 65535;
            assert(w0 - 1 == 65535 * ((w0 - 1) / 65535) + r);
            assert(w1 - 1 == 65535 * ((w0 - 1) / 65535) + 65534);
        }
    }
}

/// How a received datagram relates to the echo request with identifier `id`.
#[derive(PartialEq, Eq, Structural, Clone, Copy, Debug)]
pub enum ReplyVerdict {
    /// The echo reply to our request.
    Ours,
    /// Something else: another packet, or a reply to someone else.
    NotOurs,
    /// The IPv4 header claims to be longer than the datagram.
    Truncated,
}

/// Length of the IPv4 header in front of the ICMP message, if the datagram
/// starts with one.
pub open spec fn ip_header_len(d: Seq<u8>) -> int {
    if d.len() >= 20 && d[0] / 16 == 4 {
        (d[0] % 16) * 4
    } else {
        0
    }
}

pub open spec fn reply_verdict(d: Seq<u8>, id: u16) -> ReplyVerdict {
    let ihl = ip_header_len(d);
    if ihl > d.len() {
        ReplyVerdict::Truncated
    } else {
        let msg = d.skip(ihl);
        if msg.len() >= 6 && msg[0] == 0 && msg[4] as int * 256 + msg[5] as int == id as int {
            ReplyVerdict::Ours
        } else {
            ReplyVerdict::NotOurs
        }
    }
}

/// A datagram is our reply exactly when the ICMP message (after the IPv4
/// header, if the datagram starts with one) is an echo reply, type 0, whose
/// identifier, bytes 4 and 5 read big-endian, is ours; a header claiming
/// more bytes than the datagram holds marks it truncated.
pub proof fn lemma_reply_is_ours(d: Seq<u8>, id: u16)
    ensures
        ({
            let ihl = if d.len() >= 20 && d[0] / 16 == 4 {
                (d[0] % 16) * 4
            } else {
                0
            };
            let msg = d.skip(ihl);
            &&& (reply_verdict(d, id) == ReplyVerdict::Truncated) == (ihl > d.len())
            &&& (reply_verdict(d, id) == ReplyVerdict::Ours) == (ihl <= d.len() && msg.len() >= 6
                && msg[0] == 0 && msg[4] as int * 256 + msg[5] as int == id as int)
        }),
{
}

/// Our identifier is read in full: a reply whose identifier differs from
/// ours in any bit, high byte included, is not ours.
pub proof fn lemma_other_identifier_not_ours(d: Seq<u8>, id: u16, other: u16)
    requires
        other != id,
        reply_verdict(d, other) == ReplyVerdict::Ours,
    ensures
        reply_verdict(d, id) == ReplyVerdict::NotOurs,
{
}

/// Classifies a datagram read from the raw ICMP socket (see `reply_verdict`).
pub fn check_echo_reply(data: &[u8], id: u16) -> (v: ReplyVerdict)
    ensures
        v == reply_verdict(data@, id),
{
    let n = data.len();
    let ihl: usize = if n >= 20 && data[0] / 16 == 4 {
        (data[0] % 16) as usize * 4
    } else {
        0
    };
    if ihl > n {
        return ReplyVerdict::Truncated;
    }
    if n - ihl >= 6 && data[ihl] == 0 {
        let reply_id = data[ihl + 4] as u32 * 256 + data[ihl + 5] as u32;
        if reply_id == id as u32 {
            return ReplyVerdict::Ours;
        }
    }
    ReplyVerdict::NotOurs
}

} // verus!

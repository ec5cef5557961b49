//! ICMP echo probe: the packets, and what comes back.
use crate::config::IcmpConfig;
use crate::probe::dns;
use crate::probe::{IpAddr, Phase, Reaction, Round};
use crate::time::Duration;
use vstd::arithmetic::div_mod::*;
use vstd::prelude::*;

verus! {

pub const ECHO_REQUEST_V4: u8 = 8;

pub const ECHO_REPLY_V4: u8 = 0;

pub const ECHO_REQUEST_V6: u8 = 128;

pub const ECHO_REPLY_V6: u8 = 129;

#[derive(Debug)]
pub struct IcmpProbe {
    pub payload_size: usize,
    pub timeout: Duration,
    pub interval: Duration,
}

/// The sum of the 16-bit words in network byte order, a last single byte
/// padded with zero.
pub open spec fn word_sum(data: Seq<u8>) -> nat
    decreases data.len(),
{
    if data.len() == 0 {
        0
    } else if data.len() == 1 {
        data[0] as nat * 256
    } else {
        data[0] as nat * 256 + data[1] as nat + word_sum(data.skip(2))
    }
}

/// The ones' complement sum in 16 bits: carries are added back in.
pub open spec fn folded(n: nat) -> nat
    decreases n,
{
    if n < 0x1_0000 {
        n
    } else {
        folded(n % 0x1_0000 + n / 0x1_0000)
    }
}

/// The internet checksum of RFC 1071.
pub open spec fn checksum_of(data: Seq<u8>) -> u16 {
    (0xffff - folded(word_sum(data))) as u16
}

/// Folding keeps a number modulo 65535, and keeps it positive.
proof fn lemma_folded(n: nat)
    ensures
        folded(n) < 0x1_0000,
        folded(n) % 0xffff == n % 0xffff,
        n > 0 ==> folded(n) > 0,
    decreases n,
{
    if n >= 0x1_0000 {
        let m = n % 0x1_0000 + n / 0x1_0000;
        lemma_folded(m);
        let q = n / 0x1_0000;
        assert(n == q * 0xffff + m);
        lemma_mod_multiples_vanish(q as int, m as int, 0xffff);
        assert(0xffff * q + m == n);
    }
}

/// Two bytes at an even place are one word of the sum.
proof fn lemma_word_at(data: Seq<u8>, at: int, hi: u8, lo: u8)
    requires
        0 <= at,
        at % 2 == 0,
        at + 2 <= data.len(),
        data[at] == 0,
        data[at + 1] == 0,
    ensures
        word_sum(data.update(at, hi).update(at + 1, lo)) == word_sum(data) + hi as nat * 256
            + lo as nat,
    decreases at,
{
    let new = data.update(at, hi).update(at + 1, lo);
    if at == 0 {
        assert(new.skip(2) == data.skip(2));
    } else {
        lemma_word_at(data.skip(2), at - 2, hi, lo);
        assert(new.skip(2) == data.skip(2).update(at - 2, hi).update(at - 1, lo));
    }
}

/// A packet whose checksum field, zero before, got the checksum of the packet
/// has the checksum 0.
pub proof fn a_checksummed_packet_checks_to_zero(data: Seq<u8>, at: int)
    requires
        0 <= at,
        at % 2 == 0,
        at + 2 <= data.len(),
        data[at] == 0,
        data[at + 1] == 0,
    ensures
        ({
            let c = dns::be_bytes(checksum_of(data));
            checksum_of(data.update(at, c[0]).update(at + 1, c[1])) == 0
        }),
{
    let s = word_sum(data);
    let k = checksum_of(data);
    let c = dns::be_bytes(k);
    lemma_folded(s);
    lemma_word_at(data, at, c[0], c[1]);
    let t = s + k as nat;
    assert(c[0] as nat * 256 + c[1] as nat == k);
    lemma_folded(t);
    let f = folded(s);
    assert(t % 0xffff == 0) by {
        lemma_fundamental_div_mod(s as int, 0xffff);
        lemma_fundamental_div_mod(f as int, 0xffff);
        let qs = s / 0xffff;
        let qf = f / 0xffff;
        assert(t == (qs - qf + 1) * 0xffff);
        lemma_mod_multiples_basic(qs - qf + 1, 0xffff);
    }
    assert(t > 0);
    assert(folded(t) % 0xffff == 0);
    assert(folded(t) == 0xffff);
}

/// RFC 1071 internet checksum.
pub fn checksum(data: &[u8]) -> (r: u16)
    ensures
        r == checksum_of(data@),
{
    let n: usize = data.len();
    let mut sum: u128 = 0;
    let mut i: usize = 0;
    assert(data@.skip(0) == data@);
    while n - i >= 2
        invariant
            n == data@.len(),
            i <= n,
            sum + word_sum(data@.skip(i as int)) == word_sum(data@),
            sum <= i * 0x1_0000,
        decreases n - i,
    {
        let ghost rest = data@.skip(i as int);
        assert(rest.skip(2) == data@.skip(i + 2));
        assert(rest[0] == data@[i as int] && rest[1] == data@[i + 1]);
        sum = sum + data[i] as u128 * 256 + data[i + 1] as u128;
        i = i + 2;
    }
    if i < n {
        assert(data@.skip(i as int)[0] == data@[i as int]);
        sum = sum + data[i] as u128 * 256;
    } else {
        assert(data@.skip(i as int).len() == 0);
    }
    let ghost whole = word_sum(data@);
    while sum >= 0x1_0000
        invariant
            folded(sum as nat) == folded(whole),
        decreases sum,
    {
        sum = sum % 0x1_0000 + sum / 0x1_0000;
    }
    (0xffff - sum) as u16
}

/// The bytes of a payload count up from 0.
pub open spec fn payload(n: nat) -> Seq<u8> {
    Seq::new(n, |i: int| (i % 256) as u8)
}

/// An echo request without its checksum.
pub open spec fn bare_request(v4: bool, ident: u16, seq: u16, size: nat) -> Seq<u8> {
    seq![
        if v4 {
            ECHO_REQUEST_V4
        } else {
            ECHO_REQUEST_V6
        },
        0u8,
        0u8,
        0u8,
    ] + dns::be_bytes(ident) + dns::be_bytes(seq) + payload(size)
}

/// An echo request. The kernel fills in the checksum of ICMPv6.
pub open spec fn request(v4: bool, ident: u16, seq: u16, size: nat) -> Seq<u8> {
    let bare = bare_request(v4, ident, seq, size);
    if v4 {
        let c = dns::be_bytes(checksum_of(bare));
        bare.update(2, c[0]).update(3, c[1])
    } else {
        bare
    }
}

/// Builds an echo request.
pub fn echo_request(addr: IpAddr, ident: u16, seq: u16, payload_size: usize) -> (pkt: Vec<u8>)
    ensures
        pkt@ == request(addr is V4, ident, seq, payload_size as nat),
{
    let v4 = addr.is_ipv4();
    let mut pkt: Vec<u8> = Vec::new();
    pkt.push(
        if v4 {
            ECHO_REQUEST_V4
        } else {
            ECHO_REQUEST_V6
        },
    );
    pkt.push(0);
    pkt.push(0);
    pkt.push(0);
    pkt.push((ident / 256) as u8);
    pkt.push((ident % 256) as u8);
    pkt.push((seq / 256) as u8);
    pkt.push((seq % 256) as u8);
    let ghost bare = bare_request(v4, ident, seq, payload_size as nat);
    let mut i: usize = 0;
    assert(pkt@ == bare.take(8));
    while i < payload_size
        invariant
            i <= payload_size,
            bare == bare_request(v4, ident, seq, payload_size as nat),
            pkt@ == bare.take(8 + i),
        decreases payload_size - i,
    {
        pkt.push((i % 256) as u8);
        assert(bare[8 + i] == payload(payload_size as nat)[i as int]);
        assert(pkt@ == bare.take(8 + i + 1));
        i = i + 1;
    }
    assert(bare.take(8 + payload_size) == bare);
    if v4 {
        let ck: u16 = checksum(pkt.as_slice());
        pkt.set(2, (ck / 256) as u8);
        pkt.set(3, (ck % 256) as u8);
    }
    pkt
}

/// The sequence number of an echo reply meant for us: raw IPv4 sockets hand
/// over the IP header too, and only raw sockets need the ident checked.
pub open spec fn reply_seq(pkt: Seq<u8>, v4: bool, raw: bool, ident: u16) -> Option<u16> {
    let header = (pkt[0] % 16) as int * 4;
    if raw && v4 && (pkt.len() < 20 || header > pkt.len()) {
        None
    } else {
        let body = if raw && v4 {
            pkt.skip(header)
        } else {
            pkt
        };
        let kind = if v4 {
            ECHO_REPLY_V4
        } else {
            ECHO_REPLY_V6
        };
        if body.len() < 8 || body[0] != kind || body[1] != 0 || (raw && body[4] as int * 256
            + body[5] != ident) {
            None
        } else {
            Some((body[6] as int * 256 + body[7]) as u16)
        }
    }
}

/// The echo of a request is the reply to it: on a ping socket whatever the
/// ident, on a raw IPv6 socket with the request's ident.
pub proof fn an_echoed_request_is_its_reply(
    v4: bool,
    ident: u16,
    other: u16,
    seq: u16,
    size: nat,
)
    ensures
        ({
            let kind = if v4 {
                ECHO_REPLY_V4
            } else {
                ECHO_REPLY_V6
            };
            let echo = request(v4, ident, seq, size).update(0, kind);
            &&& reply_seq(echo, v4, false, other) == Some(seq)
            &&& !v4 ==> reply_seq(echo, v4, true, ident) == Some(seq)
            &&& !v4 && other != ident ==> reply_seq(echo, v4, true, other) is None
        }),
{
    let r = request(v4, ident, seq, size);
    let bare = bare_request(v4, ident, seq, size);
    assert(bare[4] == dns::be_bytes(ident)[0] && bare[5] == dns::be_bytes(ident)[1]);
    assert(bare[6] == dns::be_bytes(seq)[0] && bare[7] == dns::be_bytes(seq)[1]);
    assert(bare[1] == 0);
}

/// Returns the echo-reply sequence number if `pkt` is a reply meant for us.
pub fn parse_reply(pkt: &[u8], addr: IpAddr, raw: bool, ident: u16) -> (r: Option<u16>)
    ensures
        r == reply_seq(pkt@, addr is V4, raw, ident),
{
    let v4 = addr.is_ipv4();
    let n: usize = pkt.len();
    let mut off: usize = 0;
    if raw && v4 {
        if n < 20 {
            return None;
        }
        off = (pkt[0] % 16) as usize * 4;
        if off > n {
            return None;
        }
    }
    if n - off < 8 {
        return None;
    }
    let kind: u8 = if v4 {
        ECHO_REPLY_V4
    } else {
        ECHO_REPLY_V6
    };
    if pkt[off] != kind || pkt[off + 1] != 0 {
        return None;
    }
    if raw && pkt[off + 4] as u16 * 256 + pkt[off + 5] as u16 != ident {
        return None;
    }
    Some(pkt[off + 6] as u16 * 256 + pkt[off + 7] as u16)
}

/// The sequence number of a ping on the wire, which has 16 bits.
pub open spec fn wire_seq(seq: u32) -> u16 {
    (seq % 0x1_0000) as u16
}

pub fn number(seq: u32) -> (r: u16)
    ensures
        r == wire_seq(seq),
{
    (seq % 0x1_0000) as u16
}

/// What comes back while an echo request is open.
#[derive(Debug)]
pub enum IcmpEvent {
    Packet { bytes: Vec<u8>, elapsed: Duration },
    /// The socket failed.
    Failed,
    TimedOut,
}

impl IcmpProbe {
    /// The probe was made from these parameters.
    pub open spec fn of(self, cfg: IcmpConfig) -> bool {
        &&& self.payload_size == cfg.payload_size
        &&& self.timeout.nanos == cfg.timeout_ms * 1_000_000
        &&& self.interval.nanos == cfg.interval_ms * 1_000_000
    }

    pub fn new(cfg: &IcmpConfig) -> (p: IcmpProbe)
        ensures
            p.of(*cfg),
    {
        IcmpProbe {
            payload_size: cfg.payload_size,
            timeout: cfg.timeout(),
            interval: cfg.interval(),
        }
    }

    /// A round of `pings` echo requests.
    pub fn begin(&self, pings: u32) -> (r: Round)
        ensures
            r.wf(),
            r.pings == pings,
            r.seq == 0,
            r.phase == Phase::Idle,
            !r.over,
            r.rtts@.len() == 0,
            r.timeout == self.timeout,
            r.interval == self.interval,
    {
        Round::new(pings, self.timeout, self.interval)
    }

    /// What an event means for the ping that the round is at: the reply to
    /// it counts, a stale reply or other traffic is passed over, the timeout
    /// is a loss, and a failing socket ends the round.
    pub fn react(
        &self,
        round: &mut Round,
        addr: IpAddr,
        raw: bool,
        ident: u16,
        event: &IcmpEvent,
    ) -> (r: Reaction)
        requires
            old(round).wf(),
            old(round).phase == Phase::Waiting,
        ensures
            final(round).wf(),
            match event {
                IcmpEvent::Packet { bytes, elapsed } => if reply_seq(
                    bytes@,
                    addr is V4,
                    raw,
                    ident,
                ) == Some(wire_seq(old(round).seq)) {
                    &&& r == Reaction::NextPing
                    &&& final(round).rtts@ == old(round).rtts@.push(*elapsed)
                    &&& *final(round) == (Round {
                        phase: Phase::Answered,
                        rtts: final(round).rtts,
                        ..*old(round)
                    })
                } else {
                    r == Reaction::KeepWaiting && *final(round) == *old(round)
                },
                IcmpEvent::Failed => r == Reaction::Stop && *final(round) == *old(round),
                IcmpEvent::TimedOut => r == Reaction::NextPing && *final(round) == *old(round),
            },
    {
        match event {
            IcmpEvent::Packet { bytes, elapsed } => {
                match parse_reply(bytes.as_slice(), addr, raw, ident) {
                    Some(seq) => if seq == number(round.seq) {
                        round.reply(*elapsed);
                        Reaction::NextPing
                    } else {
                        Reaction::KeepWaiting
                    },
                    None => Reaction::KeepWaiting,
                }
            },
            IcmpEvent::Failed => Reaction::Stop,
            IcmpEvent::TimedOut => Reaction::NextPing,
        }
    }
}

/// An echo request has a type, no code, its ident, its number and a payload of
/// the size that was asked for; over IPv4 its checksum checks.
pub proof fn requests_say_what_they_are(v4: bool, ident: u16, seq: u16, size: nat)
    ensures
        ({
            let r = request(v4, ident, seq, size);
            &&& r.len() == 8 + size
            &&& r[0] == if v4 {
                8u8
            } else {
                128u8
            }
            &&& r[1] == 0
            &&& r[4] * 256 + r[5] == ident
            &&& r[6] * 256 + r[7] == seq
            &&& forall|i: int| 0 <= i < size ==> #[trigger] r[8 + i] == i % 256
            &&& v4 ==> checksum_of(r) == 0
            &&& !v4 ==> r[2] == 0 && r[3] == 0
        }),
{
    let bare = bare_request(v4, ident, seq, size);
    let r = request(v4, ident, seq, size);
    assert(dns::be_bytes(ident)[0] * 256 + dns::be_bytes(ident)[1] == ident);
    assert(dns::be_bytes(seq)[0] * 256 + dns::be_bytes(seq)[1] == seq);
    assert forall|i: int| 0 <= i < size implies #[trigger] r[8 + i] == i % 256 by {
        assert(bare[8 + i] == payload(size)[i]);
    }
    if v4 {
        a_checksummed_packet_checks_to_zero(bare, 2);
    }
}

/// A raw IPv4 socket hands over the IP header too: what counts is what stands
/// behind it, and there the ident must be ours.
pub proof fn the_header_is_skipped(head: Seq<u8>, body: Seq<u8>, ident: u16)
    requires
        head.len() >= 20,
        head.len() == (head[0] % 16) * 4,
        body.len() >= 8,
    ensures
        reply_seq(head + body, true, true, ident) == (if body[0] == 0 && body[1] == 0 && body[4]
            * 256 + body[5] == ident {
            reply_seq(body, true, false, ident)
        } else {
            None
        }),
{
    let pkt = head + body;
    assert(pkt[0] == head[0]);
    assert(pkt.skip(head.len() as int) =~= body);
}

/// A packet is a reply only where it is of the family's type and has no code,
/// and it then tells its number.
pub proof fn only_replies_are_taken(body: Seq<u8>, v4: bool, ident: u16)
    ensures
        match reply_seq(body, v4, false, ident) {
            Some(seq) => body.len() >= 8 && body[1] == 0 && seq == body[6] * 256 + body[7]
                && body[0] == if v4 {
                0u8
            } else {
                129u8
            },
            None => body.len() < 8 || body[1] != 0 || body[0] != if v4 {
                0u8
            } else {
                129u8
            },
        },
{
}

/// Pings that follow each other have numbers of their own.
pub proof fn pings_have_numbers_of_their_own(a: u32, b: u32)
    requires
        a < b < a + 0x1_0000,
    ensures
        wire_seq(a) != wire_seq(b),
{
}

} // verus!

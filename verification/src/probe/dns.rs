//! DNS probe: the target host is a DNS *server*; RTT = query → any response.
//! NXDOMAIN, SERVFAIL etc. still count as replies: we measure the server,
//! not the zone.
use crate::config::DnsConfig;
use crate::probe::{Phase, ProbeError, Reaction, Round};
use crate::text;
use crate::text::{same, split_text, to_upper, trim_trailing};
use crate::time::Duration;
use vstd::prelude::*;
use vstd::string::*;
use vstd::utf8::*;

verus! {

#[derive(Debug)]
pub struct DnsProbe {
    pub port: u16,
    pub lookup: Option<String>,
    pub qtype: u16,
    pub timeout: Duration,
    pub interval: Duration,
}

/// The lookup name has an empty label, or one of more than 63 bytes.
#[derive(Clone, Copy, Debug, PartialEq, Eq, Structural)]
pub struct BadName;

/// The number of a query type, by its name in any case.
pub open spec fn qtype_of(s: Seq<char>) -> Option<u16> {
    let t = text::uppercased(s);
    if t == "A"@ {
        Some(1)
    } else if t == "NS"@ {
        Some(2)
    } else if t == "SOA"@ {
        Some(6)
    } else if t == "MX"@ {
        Some(15)
    } else if t == "TXT"@ {
        Some(16)
    } else if t == "AAAA"@ {
        Some(28)
    } else {
        None
    }
}

/// The number of a query type (A|NS|SOA|MX|TXT|AAAA).
pub fn qtype_from_str(s: &str) -> (r: Option<u16>)
    ensures
        r == qtype_of(s@),
{
    let t = to_upper(s);
    if same(t.as_str(), "A") {
        Some(1)
    } else if same(t.as_str(), "NS") {
        Some(2)
    } else if same(t.as_str(), "SOA") {
        Some(6)
    } else if same(t.as_str(), "MX") {
        Some(15)
    } else if same(t.as_str(), "TXT") {
        Some(16)
    } else if same(t.as_str(), "AAAA") {
        Some(28)
    } else {
        None
    }
}

/// A number in network byte order.
pub open spec fn be_bytes(n: u16) -> Seq<u8> {
    seq![(n / 256) as u8, (n % 256) as u8]
}

/// The labels of a lookup name; dots at its end are dropped.
pub open spec fn labels(name: Seq<char>) -> Seq<Seq<char>> {
    text::split(text::without_trailing(name, '.'), '.')
}

pub open spec fn label_fits(label: Seq<char>) -> bool {
    1 <= encode_utf8(label).len() <= 63
}

/// The labels as length-prefixed bytes.
pub open spec fn encoded(labels: Seq<Seq<char>>) -> Seq<u8>
    decreases labels.len(),
{
    if labels.len() == 0 {
        Seq::empty()
    } else {
        let bytes = encode_utf8(labels.last());
        encoded(labels.drop_last()) + seq![bytes.len() as u8] + bytes
    }
}

/// A query for a name: header with recursion desired, one question.
pub open spec fn query(id: u16, name: Seq<char>, qtype: u16) -> Seq<u8> {
    be_bytes(id) + seq![1u8, 0, 0, 1, 0, 0, 0, 0, 0, 0] + encoded(labels(name)) + seq![0u8]
        + be_bytes(qtype) + be_bytes(1)
}

/// A reply is ours if the ID matches and the QR bit is set.
pub open spec fn answers(pkt: Seq<u8>, id: u16) -> bool {
    pkt.len() >= 12 && pkt.take(2) == be_bytes(id) && pkt[2] >= 128
}

/// A query is no response, its echo with the QR bit set is one, and to no
/// other query.
pub proof fn an_echoed_query_answers_itself_alone(id: u16, other: u16, name: Seq<char>, qtype: u16)
    ensures
        ({
            let q = query(id, name, qtype);
            let echo = q.update(2, (q[2] + 128) as u8);
            &&& !answers(q, id)
            &&& answers(echo, id)
            &&& other != id ==> !answers(echo, other)
        }),
{
    let q = query(id, name, qtype);
    let head = be_bytes(id) + seq![1u8, 0, 0, 1, 0, 0, 0, 0, 0, 0];
    assert(q.len() >= 12);
    assert(q.take(2) == be_bytes(id));
    assert(q[2] == 1);
    let echo = q.update(2, (q[2] + 128) as u8);
    assert(echo.take(2) == be_bytes(id));
    if other != id {
        if be_bytes(other) == be_bytes(id) {
            assert(be_bytes(other)[0] == be_bytes(id)[0]);
            assert(be_bytes(other)[1] == be_bytes(id)[1]);
            assert(other == (other / 256) * 256 + other % 256);
            assert(id == (id / 256) * 256 + id % 256);
        }
    }
}

fn push_be(pkt: &mut Vec<u8>, n: u16)
    ensures
        final(pkt)@ == old(pkt)@ + be_bytes(n),
{
    pkt.push((n / 256) as u8);
    pkt.push((n % 256) as u8);
    assert(pkt@ == old(pkt)@ + be_bytes(n));
}

/// Minimal RFC 1035 query: header + one question, recursion desired.
pub fn build_query(id: u16, name: &str, qtype: u16) -> (r: Result<Vec<u8>, BadName>)
    ensures
        r is Ok <==> forall|i: int|
            0 <= i < labels(name@).len() ==> label_fits(#[trigger] labels(name@)[i]),
        r matches Ok(pkt) ==> pkt@ == query(id, name@, qtype),
{
    let mut pkt: Vec<u8> = Vec::new();
    push_be(&mut pkt, id);
    pkt.push(1);
    pkt.push(0);
    pkt.push(0);
    pkt.push(1);
    pkt.push(0);
    pkt.push(0);
    pkt.push(0);
    pkt.push(0);
    pkt.push(0);
    pkt.push(0);
    let ghost head = be_bytes(id) + seq![1u8, 0, 0, 1, 0, 0, 0, 0, 0, 0];
    assert(pkt@ == head);
    let bare = trim_trailing(name, '.');
    let parts = split_text(bare.as_str(), '.');
    let ghost all = text::texts(parts@);
    let mut i: usize = 0;
    assert(all.take(0) == Seq::<Seq<char>>::empty());
    assert(head + encoded(all.take(0)) == head);
    while i < parts.len()
        invariant
            all == text::texts(parts@),
            all == labels(name@),
            i <= parts@.len(),
            pkt@ == head + encoded(all.take(i as int)),
            forall|j: int| 0 <= j < i ==> label_fits(#[trigger] all[j]),
        decreases parts@.len() - i,
    {
        assert(all.take(i + 1).drop_last() == all.take(i as int));
        assert(all.take(i + 1).last() == parts@[i as int]@);
        assert(all[i as int] == parts@[i as int]@);
        let bytes = parts[i].as_str().as_bytes();
        if bytes.len() == 0 || bytes.len() > 63 {
            assert(!label_fits(labels(name@)[i as int]));
            return Err(BadName);
        }
        let ghost before = pkt@;
        pkt.push(bytes.len() as u8);
        pkt.extend_from_slice(bytes);
        proof {
            assert(pkt@ == before + seq![bytes@.len() as u8] + bytes@);
            assert(pkt@ == head + encoded(all.take(i + 1)));
        }
        i = i + 1;
    }
    assert(all.take(i as int) == all);
    pkt.push(0);
    push_be(&mut pkt, qtype);
    push_be(&mut pkt, 1);
    assert(pkt@ == query(id, name@, qtype));
    Ok(pkt)
}

/// A reply is ours if the ID matches and the QR bit is set.
pub fn is_response(pkt: &[u8], id: u16) -> (r: bool)
    ensures
        r == answers(pkt@, id),
{
    if pkt.len() < 12 {
        return false;
    }
    let r = pkt[0] == (id / 256) as u8 && pkt[1] == (id % 256) as u8 && pkt[2] >= 128;
    proof {
        if r {
            assert(pkt@.take(2) == be_bytes(id));
        } else {
            assert(pkt@.take(2)[0] == pkt@[0] && pkt@.take(2)[1] == pkt@[1]);
            assert(be_bytes(id)[0] == (id / 256) as u8 && be_bytes(id)[1] == (id % 256) as u8);
        }
    }
    r
}

/// The query ID of a ping: arbitrary, varies per ping, modulo 2^16.
pub open spec fn ping_id(seq: u32) -> u16 {
    ((seq + 0x1d0b) % 0x1_0000) as u16
}

/// What comes back while a query is open.
#[derive(Debug)]
pub enum DnsEvent {
    Packet { bytes: Vec<u8>, elapsed: Duration },
    /// The socket failed.
    Failed,
    TimedOut,
}

impl DnsProbe {
    /// The probe was made from these parameters.
    pub open spec fn of(self, cfg: DnsConfig) -> bool {
        &&& self.port == cfg.port
        &&& self.lookup == cfg.lookup
        &&& qtype_of(cfg.qtype@) == Some(self.qtype)
        &&& self.timeout.nanos == cfg.timeout_ms * 1_000_000
        &&& self.interval.nanos == cfg.interval_ms * 1_000_000
    }

    pub fn new(cfg: &DnsConfig) -> (r: Result<DnsProbe, ProbeError>)
        ensures
            match r {
                Ok(p) => p.of(*cfg),
                Err(e) => e == ProbeError::Qtype && qtype_of(cfg.qtype@) is None,
            },
    {
        match qtype_from_str(cfg.qtype.as_str()) {
            None => Err(ProbeError::Qtype),
            Some(qtype) => Ok(
                DnsProbe {
                    port: cfg.port,
                    lookup: cfg.lookup.clone(),
                    qtype,
                    timeout: cfg.timeout(),
                    interval: cfg.interval(),
                },
            ),
        }
    }

    /// The name that is looked up: the target's, else the probe's, else the
    /// server's own — any response (even NXDOMAIN) proves the server answered.
    pub fn lookup_name(&self, host: &str, lookup_override: Option<&str>) -> (r: String)
        ensures
            r@ == (match lookup_override {
                Some(n) => n@,
                None => match self.lookup {
                    Some(n) => n@,
                    None => host@,
                },
            }),
    {
        match lookup_override {
            Some(n) => n.to_owned(),
            None => match &self.lookup {
                Some(n) => n.clone(),
                None => host.to_owned(),
            },
        }
    }

    /// A round of `pings` queries.
    pub fn begin(&self, pings: u32) -> (r: Round)
        ensures
            r.wf(),
            r.pings == pings,
            r.seq == 0,
            r.phase == Phase::Idle,
            !r.over,
            r.rtts@.len() == 0,
            r.timeout == self.timeout,
            r.interval == self.interval,
    {
        Round::new(pings, self.timeout, self.interval)
    }

    /// The query of a ping.
    pub fn query_for(&self, seq: u32, name: &str) -> (r: Result<Vec<u8>, BadName>)
        ensures
            r is Ok <==> forall|i: int|
                0 <= i < labels(name@).len() ==> label_fits(#[trigger] labels(name@)[i]),
            r matches Ok(pkt) ==> pkt@ == query(ping_id(seq), name@, self.qtype),
    {
        build_query(Self::id_of(seq), name, self.qtype)
    }

    fn id_of(seq: u32) -> (id: u16)
        ensures
            id == ping_id(seq),
    {
        ((seq as u64 + 0x1d0b) % 0x1_0000) as u16
    }

    /// What an event means for the ping that the round is at: a response to
    /// it is a reply, another packet is passed over, and a failure or the
    /// timeout is a loss.
    pub fn react(&self, round: &mut Round, event: &DnsEvent) -> (r: Reaction)
        requires
            old(round).wf(),
            old(round).phase == Phase::Waiting,
        ensures
            final(round).wf(),
            match event {
                DnsEvent::Packet { bytes, elapsed } => if answers(
                    bytes@,
                    ping_id(old(round).seq),
                ) {
                    &&& r == Reaction::NextPing
                    &&& final(round).rtts@ == old(round).rtts@.push(*elapsed)
                    &&& *final(round) == (Round {
                        phase: Phase::Answered,
                        rtts: final(round).rtts,
                        ..*old(round)
                    })
                } else {
                    r == Reaction::KeepWaiting && *final(round) == *old(round)
                },
                _ => r == Reaction::NextPing && *final(round) == *old(round),
            },
    {
        match event {
            DnsEvent::Packet { bytes, elapsed } => {
                let id: u16 = Self::id_of(round.seq);
                if is_response(bytes.as_slice(), id) {
                    round.reply(*elapsed);
                    Reaction::NextPing
                } else {
                    Reaction::KeepWaiting
                }
            },
            _ => Reaction::NextPing,
        }
    }
}

/// A query carries its ID, asks for recursion, and holds one question and
/// nothing else; it ends in the type that is asked for and the class of the
/// internet, after the empty label of the root.
pub proof fn queries_say_what_they_ask(id: u16, name: Seq<char>, qtype: u16)
    ensures
        ({
            let q = query(id, name, qtype);
            let n = q.len() as int;
            &&& n == 12 + encoded(labels(name)).len() + 5
            &&& q[0] * 256 + q[1] == id
            &&& q[2] == 1 && q[3] == 0
            &&& q[4] == 0 && q[5] == 1
            &&& forall|i: int| 6 <= i < 12 ==> #[trigger] q[i] == 0
            &&& q.subrange(12, n - 5) == encoded(labels(name))
            &&& q[n - 5] == 0
            &&& q[n - 4] * 256 + q[n - 3] == qtype
            &&& q[n - 2] == 0 && q[n - 1] == 1
        }),
{
    let q = query(id, name, qtype);
    assert(q.subrange(12, q.len() - 5) =~= encoded(labels(name)));
    assert(be_bytes(id)[0] * 256 + be_bytes(id)[1] == id);
    assert(be_bytes(qtype)[0] * 256 + be_bytes(qtype)[1] == qtype);
    assert(be_bytes(1)[0] == 0 && be_bytes(1)[1] == 1);
}

/// Every label of a name stands behind those before it, its length first.
pub proof fn labels_stand_in_their_order(ls: Seq<Seq<char>>, k: int)
    requires
        0 <= k < ls.len(),
        forall|i: int| 0 <= i < ls.len() ==> label_fits(#[trigger] ls[i]),
    ensures
        ({
            let at = encoded(ls.take(k)).len() as int;
            let bytes = encode_utf8(ls[k]);
            &&& at + 1 + bytes.len() <= encoded(ls).len()
            &&& encoded(ls)[at] == bytes.len()
            &&& encoded(ls).subrange(at + 1, at + 1 + bytes.len() as int) == bytes
            &&& k == 0 ==> at == 0
            &&& k == ls.len() - 1 ==> at + 1 + bytes.len() == encoded(ls).len()
            &&& encoded(ls.take(k + 1)).len() == at + 1 + bytes.len()
        }),
    decreases ls.len(),
{
    let bytes = encode_utf8(ls[k]);
    let at = encoded(ls.take(k)).len() as int;
    assert(label_fits(ls[k]));
    let last = encode_utf8(ls.last());
    let before = encoded(ls.drop_last());
    assert(encoded(ls) == before + seq![last.len() as u8] + last);
    assert(ls.take(k + 1).drop_last() =~= ls.take(k));
    assert(ls.take(k + 1).last() == ls[k]);
    assert(ls.take(0) =~= Seq::empty());
    if k == ls.len() - 1 {
        assert(ls.drop_last() =~= ls.take(k));
        assert(encoded(ls).subrange(at + 1, at + 1 + bytes.len() as int) =~= bytes);
    } else {
        let fewer = ls.drop_last();
        assert forall|i: int| 0 <= i < fewer.len() implies label_fits(#[trigger] fewer[i]) by {
            assert(fewer[i] == ls[i]);
        }
        labels_stand_in_their_order(fewer, k);
        assert(fewer.take(k) =~= ls.take(k));
        assert(encoded(ls).subrange(at + 1, at + 1 + bytes.len() as int) =~= before.subrange(
            at + 1,
            at + 1 + bytes.len() as int,
        ));
    }
}

/// A packet answers a query where it is long enough for a header, carries the
/// query's ID and is marked as a response, whatever else it holds.
pub proof fn answers_go_by_the_header(pkt: Seq<u8>, id: u16)
    ensures
        answers(pkt, id) <==> pkt.len() >= 12 && pkt[0] * 256 + pkt[1] == id && pkt[2] / 128
            == 1,
{
    if pkt.len() >= 12 {
        assert(be_bytes(id)[0] * 256 + be_bytes(id)[1] == id);
        assert(pkt.take(2)[0] == pkt[0] && pkt.take(2)[1] == pkt[1]);
        if pkt[0] * 256 + pkt[1] == id {
            assert(pkt.take(2) =~= be_bytes(id));
        }
    }
}

/// Pings that follow each other have IDs of their own.
pub proof fn pings_have_ids_of_their_own(a: u32, b: u32)
    requires
        a < b < a + 0x1_0000,
    ensures
        ping_id(a) != ping_id(b),
{
}

} // verus!

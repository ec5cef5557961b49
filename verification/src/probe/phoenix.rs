//! Phoenix-socket probe: RTT = a `heartbeat` on the reserved `phoenix`
//! topic, which every Phoenix socket answers without joining a channel
//! (LiveView's CSRF check happens at join, not connect). One WebSocket
//! connection per round, N heartbeats over it — so ping 1 includes
//! TCP+TLS+upgrade and the rest measure pure channel round-trips; the
//! smoke shows both.
use crate::config::PhoenixConfig;
use crate::probe::{Phase, ProbeError, Reaction, Round};
use crate::text;
use crate::text::{chars_of, contains_char, decimal_u64, same};
use crate::time::Duration;
use vstd::prelude::*;
use vstd::string::*;

verus! {

#[derive(Debug)]
pub struct PhoenixProbe {
    pub path: String,
    pub tls: bool,
    pub cookie: Option<String>,
    pub timeout: Duration,
    pub interval: Duration,
}

/// What `serde_json::from_str::<serde_json::Value>` makes of a text: nothing
/// where it is not JSON or not an array, else what `Value::as_str` gives for
/// each item of the array.
pub uninterp spec fn json_items(text: Seq<char>) -> Option<Seq<Option<Seq<char>>>>;

/// The views of a list of optional strings.
pub open spec fn items(v: Seq<Option<String>>) -> Seq<Option<Seq<char>>> {
    v.map_values(
        |s: Option<String>|
            match s {
                Some(t) => Some(t@),
                None => None,
            },
    )
}

/// Parses a text with `serde_json::from_str` and, where it is an array, takes
/// each item with `serde_json::Value::as_str`. Both depend on the text alone,
/// so the result is named `json_items`.
#[verifier::external_body]
fn parse_items(text: &str) -> (r: Option<Vec<Option<String>>>)
    ensures
        match r {
            Some(v) => json_items(text@) == Some(items(v@)),
            None => json_items(text@) is None,
        },
{
    match serde_json::from_str::<serde_json::Value>(text) {
        Ok(serde_json::Value::Array(m)) => {
            Some(m.iter().map(|v| v.as_str().map(|s| s.to_string())).collect())
        },
        _ => None,
    }
}

/// The items are those of the reply to the heartbeat with this ref.
pub open spec fn is_reply_to(m: Seq<Option<Seq<char>>>, want: Seq<char>) -> bool {
    m.len() > 3 && m[1] == Some(want) && m[3] == Some("phx_reply"@)
}

/// Whether the items of a frame are those of the reply to a heartbeat.
pub fn reply_matches(m: &Vec<Option<String>>, want_ref: &str) -> (r: bool)
    ensures
        r == is_reply_to(items(m@), want_ref@),
{
    if m.len() <= 3 {
        return false;
    }
    let ghost v = items(m@);
    assert(v[1] == (match m@[1] {
        Some(t) => Some(t@),
        None => None,
    }));
    assert(v[3] == (match m@[3] {
        Some(t) => Some(t@),
        None => None,
    }));
    let mine = match &m[1] {
        Some(s) => same(s.as_str(), want_ref),
        None => false,
    };
    let reply = match &m[3] {
        Some(s) => same(s.as_str(), "phx_reply"),
        None => false,
    };
    mine && reply
}

/// True if `text` is the phx_reply for our heartbeat ref.
pub fn is_reply(text: &str, want_ref: &str) -> (r: bool)
    ensures
        r == (json_items(text@) matches Some(m) && is_reply_to(m, want_ref@)),
{
    match parse_items(text) {
        Some(m) => reply_matches(&m, want_ref),
        None => false,
    }
}

/// The ref of a ping's heartbeat.
pub open spec fn ref_of(seq: u32) -> Seq<char> {
    text::decimal((seq + 1) as nat)
}

/// A heartbeat in the v2 wire format: [join_ref, ref, topic, event, payload].
pub open spec fn heartbeat_of(seq: u32) -> Seq<char> {
    "[null,\""@ + ref_of(seq) + "\",\"phoenix\",\"heartbeat\",{}]"@
}

/// What comes over the socket while a heartbeat is open.
#[derive(Debug)]
pub enum PhoenixEvent {
    Text { text: String, elapsed: Duration },
    /// A ping, a pong or a binary frame.
    Other,
    /// Closed, ended or failed.
    Gone,
    TimedOut,
}

impl PhoenixProbe {
    /// The probe was made from these parameters.
    pub open spec fn of(self, cfg: PhoenixConfig) -> bool {
        &&& self.path@ == cfg.path@
        &&& self.tls == cfg.tls
        &&& self.cookie == cfg.cookie
        &&& self.timeout.nanos == cfg.timeout_ms * 1_000_000
        &&& self.interval.nanos == cfg.interval_ms * 1_000_000
    }

    pub fn new(cfg: &PhoenixConfig) -> (r: Result<PhoenixProbe, ProbeError>)
        ensures
            match r {
                Ok(p) => cfg.path@.len() > 0 && cfg.path@[0] == '/' && p.of(*cfg),
                Err(e) => e == ProbeError::SocketPath && (cfg.path@.len() == 0 || cfg.path@[0]
                    != '/'),
            },
    {
        let v = chars_of(cfg.path.as_str());
        if v.len() == 0 || v[0] != '/' {
            return Err(ProbeError::SocketPath);
        }
        Ok(
            PhoenixProbe {
                path: cfg.path.clone(),
                tls: cfg.tls,
                cookie: cfg.cookie.clone(),
                timeout: cfg.timeout(),
                interval: cfg.interval(),
            },
        )
    }

    /// The socket's URL: scheme, host, the port if the target has one, the
    /// path, and the protocol version as a query parameter.
    pub open spec fn url_of(self, host: Seq<char>, port: Option<u16>) -> Seq<char> {
        (if self.tls {
            "wss"@
        } else {
            "ws"@
        }) + "://"@ + host + (match port {
            Some(p) => seq![':'] + text::decimal(p as nat),
            None => Seq::empty(),
        }) + self.path@ + seq![
            if self.path@.contains('?') {
                '&'
            } else {
                '?'
            },
        ] + "vsn=2.0.0"@
    }

    pub fn url(&self, host: &str, port_override: Option<u16>) -> (r: String)
        ensures
            r@ == self.url_of(host@, port_override),
    {
        let mut s = String::new();
        s.append(
            if self.tls {
                "wss"
            } else {
                "ws"
            },
        );
        s.append("://");
        s.append(host);
        if let Some(p) = port_override {
            s.push(':');
            s.append(decimal_u64(p as u64).as_str());
        }
        s.append(self.path.as_str());
        s.push(
            if contains_char(self.path.as_str(), '?') {
                '&'
            } else {
                '?'
            },
        );
        s.append("vsn=2.0.0");
        assert(s@ =~= self.url_of(host@, port_override));
        s
    }

    /// A round of `pings` heartbeats over one connection.
    pub fn begin(&self, pings: u32) -> (r: Round)
        ensures
            r.wf(),
            r.pings == pings,
            r.seq == 0,
            r.phase == Phase::Idle,
            !r.over,
            r.rtts@.len() == 0,
            r.timeout == self.timeout,
            r.interval == self.interval,
    {
        Round::new(pings, self.timeout, self.interval)
    }

    /// The heartbeat of a ping.
    pub fn heartbeat(&self, seq: u32) -> (r: String)
        ensures
            r@ == heartbeat_of(seq),
    {
        let mut s = String::new();
        s.append("[null,\"");
        s.append(decimal_u64(seq as u64 + 1).as_str());
        s.append("\",\"phoenix\",\"heartbeat\",{}]");
        assert(s@ =~= heartbeat_of(seq));
        s
    }

    /// What an event means for the heartbeat that the round is at: its reply
    /// counts, other traffic is passed over, the timeout is a loss, and when
    /// the connection is gone the remaining pings are lost.
    pub fn react(&self, round: &mut Round, event: &PhoenixEvent) -> (r: Reaction)
        requires
            old(round).wf(),
            old(round).phase == Phase::Waiting,
        ensures
            final(round).wf(),
            match event {
                PhoenixEvent::Text { text, elapsed } => if json_items(text@) matches Some(m)
                    && is_reply_to(m, ref_of(old(round).seq)) {
                    &&& r == Reaction::NextPing
                    &&& final(round).rtts@ == old(round).rtts@.push(*elapsed)
                    &&& *final(round) == (Round {
                        phase: Phase::Answered,
                        rtts: final(round).rtts,
                        ..*old(round)
                    })
                } else {
                    r == Reaction::KeepWaiting && *final(round) == *old(round)
                },
                PhoenixEvent::Other => r == Reaction::KeepWaiting && *final(round) == *old(round),
                PhoenixEvent::Gone => r == Reaction::Stop && *final(round) == (Round {
                    over: true,
                    ..*old(round)
                }),
                PhoenixEvent::TimedOut => r == Reaction::NextPing && *final(round) == *old(round),
            },
    {
        match event {
            PhoenixEvent::Text { text, elapsed } => {
                let want = decimal_u64(round.seq as u64 + 1);
                if is_reply(text.as_str(), want.as_str()) {
                    round.reply(*elapsed);
                    Reaction::NextPing
                } else {
                    Reaction::KeepWaiting
                }
            },
            PhoenixEvent::Other => Reaction::KeepWaiting,
            PhoenixEvent::Gone => {
                round.give_up();
                Reaction::Stop
            },
            PhoenixEvent::TimedOut => Reaction::NextPing,
        }
    }
}

} // verus!

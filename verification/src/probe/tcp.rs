//! TCP connect probe: RTT = time to a completed three-way handshake.
use crate::config::TcpConfig;
use crate::probe::{Reaction, Round};
use crate::time::Duration;
use vstd::prelude::*;

verus! {

#[derive(Debug)]
pub struct TcpProbe {
    pub port: Option<u16>,
    pub timeout: Duration,
    pub interval: Duration,
}

impl TcpProbe {
    /// The probe was made from these parameters.
    pub open spec fn of(self, cfg: TcpConfig) -> bool {
        &&& self.port == cfg.port
        &&& self.timeout.nanos == cfg.timeout_ms * 1_000_000
        &&& self.interval.nanos == cfg.interval_ms * 1_000_000
    }

    pub fn new(cfg: &TcpConfig) -> (p: TcpProbe)
        ensures
            p.of(*cfg),
    {
        TcpProbe { port: cfg.port, timeout: cfg.timeout(), interval: cfg.interval() }
    }

    /// The port to connect to: the target's, else the probe's; none where
    /// neither has one.
    pub fn port_for(&self, port_override: Option<u16>) -> (r: Option<u16>)
        ensures
            r == (match port_override {
                Some(p) => Some(p),
                None => self.port,
            }),
    {
        match port_override {
            Some(p) => Some(p),
            None => self.port,
        }
    }

    /// A round of `pings` connects.
    pub fn begin(&self, pings: u32) -> (r: Round)
        ensures
            r.wf(),
            r.pings == pings,
            r.seq == 0,
            r.phase == crate::probe::Phase::Idle,
            !r.over,
            r.rtts@.len() == 0,
            r.timeout == self.timeout,
            r.interval == self.interval,
    {
        Round::new(pings, self.timeout, self.interval)
    }
}

/// One attempt ended: a completed one is a reply; refused, unreachable and
/// timed out all count as loss.
pub fn attempt_ended(round: &mut Round, completed: bool, elapsed: Duration) -> (r: Reaction)
    requires
        old(round).wf(),
        old(round).phase == crate::probe::Phase::Waiting,
    ensures
        final(round).wf(),
        r == Reaction::NextPing,
        if completed {
            final(round).rtts@ == old(round).rtts@.push(elapsed) && *final(round) == (Round {
                phase: crate::probe::Phase::Answered,
                rtts: final(round).rtts,
                ..*old(round)
            })
        } else {
            *final(round) == *old(round)
        },
{
    if completed {
        round.reply(elapsed);
    }
    Reaction::NextPing
}

} // verus!

//! When rounds are run, and what ends them.
use crate::config;
use crate::config::{Config, FlatTarget, Leaf, TargetError};
use crate::names::NameMap;
use crate::probe;
use crate::probe::{ProbeError, ProbeInstance};
use std::hash::{DefaultHasher, Hash, Hasher};
use vstd::prelude::*;
use vstd::std_specs::hash::DefaultHasherAdditionalSpecFns;

verus! {

/// Why the scheduler stopped.
#[derive(Clone, Copy, Debug, PartialEq, Eq, Structural)]
pub enum Outcome {
    /// ctrl-c / SIGTERM — shut down.
    Quit,
    /// SIGHUP — the caller should rebuild config and run again.
    Reload,
}

/// A signal.
#[derive(Clone, Copy, Debug, PartialEq, Eq, Structural)]
pub enum Signal {
    Interrupt,
    Terminate,
    /// SIGHUP; `accepted` says whether the configuration file is valid now,
    /// and is missing for an agent, which has none.
    Hangup { accepted: Option<bool> },
}

/// Quit on ctrl-c/SIGTERM. On SIGHUP, a broken file keeps the old
/// configuration running. Agents treat SIGHUP as "re-fetch the assignment".
pub fn on_signal(s: Signal) -> (r: Option<Outcome>)
    ensures
        r == (match s {
            Signal::Hangup { accepted } => if accepted == Some(false) {
                None
            } else {
                Some(Outcome::Reload)
            },
            _ => Some(Outcome::Quit),
        }),
{
    match s {
        Signal::Interrupt => Some(Outcome::Quit),
        Signal::Terminate => Some(Outcome::Quit),
        Signal::Hangup { accepted } => match accepted {
            None => Some(Outcome::Reload),
            Some(ok) => if ok {
                Some(Outcome::Reload)
            } else {
                None
            },
        },
    }
}

/// What `Hash` of `str` writes into a hasher, piece by piece.
pub uninterp spec fn hash_writes(s: Seq<char>) -> Seq<Seq<u8>>;

/// Feeds a text to a hasher by the `Hash` of `str`. What is written depends on
/// the text alone, not on what the hasher was fed before, and is named
/// `hash_writes`.
#[verifier::external_body]
fn feed(s: &str, h: &mut DefaultHasher)
    ensures
        final(h)@ == old(h)@ + hash_writes(s@),
{
    s.hash(h)
}

/// A text's hash by a new `DefaultHasher`; new ones are all alike.
pub open spec fn hash_of(s: Seq<char>) -> u64 {
    DefaultHasher::spec_finish(hash_writes(s))
}

pub fn stable_hash(s: &str) -> (r: u64)
    ensures
        r == hash_of(s@),
{
    let mut h = DefaultHasher::new();
    feed(s, &mut h);
    assert(h@ =~= hash_writes(s@));
    h.finish()
}

/// Milliseconds in a step.
pub open spec fn step_millis(step_secs: u64) -> int {
    step_secs * 1000
}

/// The delay of a hash, within the step.
pub fn spread(hash: u64, step_secs: u64) -> (r: u64)
    requires
        0 < step_secs,
        step_millis(step_secs) <= u64::MAX,
    ensures
        r == hash as int % step_millis(step_secs),
        r < step_millis(step_secs),
{
    hash % (step_secs * 1000)
}

/// Milliseconds before a target's first round. Deterministic jitter: targets
/// are spread across the step window so rounds don't all fire at once
/// (SmokePing's `offset = random`).
pub fn offset(path: &str, step_secs: u64) -> (r: u64)
    requires
        0 < step_secs,
        step_millis(step_secs) <= u64::MAX,
    ensures
        r == hash_of(path@) as int % step_millis(step_secs),
        r < step_millis(step_secs),
{
    spread(stable_hash(path), step_secs)
}

/// The leaves that the master measures itself.
pub open spec fn own(leaves: Seq<Leaf>) -> Seq<Leaf>
    decreases leaves.len(),
{
    if leaves.len() == 0 {
        Seq::empty()
    } else {
        let before = own(leaves.drop_last());
        if leaves.last().nomasterpoll {
            before
        } else {
            before.push(leaves.last())
        }
    }
}

/// The targets that the master measures itself; those marked nomasterpoll are
/// left to their agents.
pub fn own_targets(targets: Vec<FlatTarget>) -> (r: Vec<FlatTarget>)
    ensures
        config::leaves_of(r@) == own(config::leaves_of(targets@)),
{
    let ghost leaves = config::leaves_of(targets@);
    let mut rest = targets;
    let mut back: Vec<FlatTarget> = Vec::new();
    let ghost given = targets@;
    assert(leaves.take(leaves.len() as int) =~= leaves);
    while rest.len() > 0
        invariant
            leaves == config::leaves_of(given),
            rest@ == given.take(rest@.len() as int),
            rest@.len() <= given.len(),
            own(leaves) == own(leaves.take(rest@.len() as int)) + config::leaves_of(
                back@,
            ).reverse(),
        decreases rest@.len(),
    {
        let ghost n = rest@.len() as int;
        let ghost had = config::leaves_of(back@);
        let ghost part = leaves.take(n);
        proof {
            assert(part.drop_last() =~= leaves.take(n - 1));
            assert(part.last() == leaves[n - 1]);
            assert(rest@[n - 1] == given[n - 1]);
        }
        match rest.pop() {
            Some(t) => {
                assert(t@ == leaves[n - 1]);
                if !t.nomasterpoll {
                    back.push(t);
                    assert(config::leaves_of(back@) =~= had.push(leaves[n - 1]));
                    assert(own(part) + had.reverse() =~= own(leaves.take(n - 1))
                        + had.push(leaves[n - 1]).reverse());
                }
            },
            None => {},
        }
    }
    assert(leaves.take(0) =~= Seq::empty());
    let ghost reversed = config::leaves_of(back@);
    let ghost all = back@;
    let mut out: Vec<FlatTarget> = Vec::new();
    while back.len() > 0
        invariant
            back@ == all.take(back@.len() as int),
            out@.len() + back@.len() == all.len(),
            forall|j: int| 0 <= j < out@.len() ==> (#[trigger] out@[j]) == all[all.len() - 1 - j],
        decreases back@.len(),
    {
        let ghost n = back@.len() as int;
        assert(back@[n - 1] == all[n - 1]);
        match back.pop() {
            Some(t) => {
                out.push(t);
            },
            None => {},
        }
    }
    assert(config::leaves_of(out@) =~= reversed.reverse());
    assert(config::leaves_of(out@) =~= own(leaves));
    out
}

/// Instances for all the probes of a table, in the order of their names.
pub open spec fn instances_of(
    probes: Seq<(String, config::ProbeConfig)>,
    instances: Seq<(String, ProbeInstance)>,
) -> bool {
    &&& instances.len() == probes.len()
    &&& forall|i: int|
        0 <= i < probes.len() ==> {
            &&& (#[trigger] instances[i]).0@ == probes[i].0@
            &&& instances[i].1.of(probes[i].1)
        }
}

/// Whether every probe of a table can be built.
pub open spec fn all_probes_build(probes: Seq<(String, config::ProbeConfig)>) -> bool {
    forall|i: int| 0 <= i < probes.len() ==> probe::probe_error((#[trigger] probes[i]).1) is None
}

/// Whether `e` is what is wrong with the first probe that cannot be built.
pub open spec fn first_probe_error(
    probes: Seq<(String, config::ProbeConfig)>,
    e: ProbeError,
) -> bool {
    exists|i: int|
        {
            &&& 0 <= i < probes.len()
            &&& probe::probe_error((#[trigger] probes[i]).1) == Some(e)
            &&& forall|j: int|
                0 <= j < i ==> probe::probe_error((#[trigger] probes[j]).1) is None
        }
}

/// The probes, ready to run rounds; the first that cannot be built is an
/// error.
pub fn build_probes(probes: &NameMap<config::ProbeConfig>) -> (r: Result<
    NameMap<ProbeInstance>,
    ProbeError,
>)
    requires
        probes.wf(),
    ensures
        match r {
            Ok(m) => m.wf() && instances_of(probes.entries@, m.entries@),
            Err(e) => first_probe_error(probes.entries@, e),
        },
        r is Ok <==> all_probes_build(probes.entries@),
{
    let mut out: Vec<(String, ProbeInstance)> = Vec::new();
    let ghost all = probes.entries@;
    let mut i: usize = 0;
    while i < probes.entries.len()
        invariant
            all == probes.entries@,
            i <= all.len(),
            out@.len() == i,
            forall|j: int| 0 <= j < i ==> probe::probe_error((#[trigger] all[j]).1) is None,
            forall|j: int|
                0 <= j < i ==> {
                    &&& (#[trigger] out@[j]).0@ == all[j].0@
                    &&& out@[j].1.of(all[j].1)
                },
        decreases all.len() - i,
    {
        let (name, pc) = &probes.entries[i];
        match ProbeInstance::from_config(pc) {
            Err(e) => {
                assert(probe::probe_error(all[i as int].1) == Some(e));
                return Err(e);
            },
            Ok(p) => {
                out.push((name.clone(), p));
            },
        }
        i = i + 1;
    }
    let m = NameMap { entries: out };
    proof {
        assert forall|a: int, b: int| 0 <= a < b < m.entries@.len() implies crate::text::text_lt(
            (#[trigger] m.entries@[a]).0@,
            (#[trigger] m.entries@[b]).0@,
        ) by {
            assert(all[a].0@ == m.entries@[a].0@ && all[b].0@ == m.entries@[b].0@);
        }
    }
    Ok(m)
}

/// What the master runs: its targets, and the probes they name.
#[derive(Debug)]
pub struct Plan {
    pub targets: Vec<FlatTarget>,
    pub probes: NameMap<ProbeInstance>,
    pub step: u64,
    pub pings: u32,
}

/// Why there is nothing to run.
#[derive(Debug)]
pub enum PlanError {
    Probe(ProbeError),
    Target(TargetError),
}

/// The plan of a configuration.
pub fn plan(cfg: &Config) -> (r: Result<Plan, PlanError>)
    requires
        cfg.wf(),
    ensures
        match r {
            Ok(p) => {
                &&& cfg.flattened() matches Ok(leaves)
                &&& config::leaves_of(p.targets@) == own(leaves)
                &&& p.probes.wf()
                &&& instances_of(cfg.probes.entries@, p.probes.entries@)
                &&& p.step == cfg.database.step
                &&& p.pings == cfg.database.pings
            },
            Err(PlanError::Probe(e)) => first_probe_error(cfg.probes.entries@, e),
            Err(PlanError::Target(e)) => {
                &&& all_probes_build(cfg.probes.entries@)
                &&& cfg.flattened() == Err::<Seq<Leaf>, config::Refusal>(e@)
            },
        },
        r is Ok <==> cfg.flattened() is Ok && all_probes_build(cfg.probes.entries@),
{
    let probes = match build_probes(&cfg.probes) {
        Err(e) => {
            return Err(PlanError::Probe(e));
        },
        Ok(p) => p,
    };
    match cfg.flatten_targets() {
        Err(e) => Err(PlanError::Target(e)),
        Ok(flat) => Ok(
            Plan {
                targets: own_targets(flat),
                probes,
                step: cfg.database.step,
                pings: cfg.database.pings,
            },
        ),
    }
}

/// The master measures what is not left to agents, in its order: of the leaves
/// one by one those that are not marked nomasterpoll.
pub proof fn the_master_leaves_out_what_is_marked(a: Seq<Leaf>, b: Seq<Leaf>, l: Leaf)
    ensures
        own(a + b) == own(a) + own(b),
        own(seq![l]) == (if l.nomasterpoll {
            Seq::empty()
        } else {
            seq![l]
        }),
{
    lemma_own_of_both(a, b);
    let s = seq![l];
    assert(s.last() == l);
    assert(s.drop_last() =~= Seq::empty());
    reveal_with_fuel(own, 2);
    assert(own(s.drop_last()) =~= Seq::<Leaf>::empty());
}

proof fn lemma_own_of_both(a: Seq<Leaf>, b: Seq<Leaf>)
    ensures
        own(a + b) == own(a) + own(b),
    decreases b.len(),
{
    if b.len() == 0 {
        assert(a + b =~= a);
        assert(own(a) + own(b) =~= own(a));
    } else {
        lemma_own_of_both(a, b.drop_last());
        assert((a + b).drop_last() =~= a + b.drop_last());
        assert((a + b).last() == b.last());
        assert(own(a + b) =~= own(a) + own(b));
    }
}

} // verus!

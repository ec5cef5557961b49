//! What the web server answers: the target tree, stored data, rankings, and
//! what agents are told and taken from them.
pub mod page;

use crate::agent;
use crate::agent::{Assignment, WireRound, WireTarget};
use crate::config;
use crate::config::{Config, FlatTarget, Leaf, ProbeConfig, TargetError, TargetNode};
use crate::double;
use crate::double::{Double, NEG_INF_BITS, SIGN};
use crate::names::NameMap;
use crate::probe;
use crate::probe::{IpAddr, RoundResult};
use crate::store;
use crate::store::series::FetchError;
use crate::store::{Cf, Fetched, Point, Store, StoreError, path_message, validate_target_path};
use crate::text;
use crate::text::{
    contains_text, copy_list, decimal_u64, holds, parse_unsigned, quoted, same, to_lower,
    trim_leading,
};
use crate::util;
use crate::util::{RangeError, parse_range};
use vstd::prelude::*;
use vstd::string::*;

verus! {

// ---- distributed agents ----

/// What the master knows of an agent.
#[derive(Debug)]
pub struct AgentEntry {
    pub secret: String,
    pub assignment: Assignment,
    /// The paths that the agent may push rounds for.
    pub allowed: Vec<String>,
}

/// The leaves that an agent measures.
pub open spec fn given_to(leaves: Seq<Leaf>, name: Seq<char>) -> Seq<Leaf>
    decreases leaves.len(),
{
    if leaves.len() == 0 {
        Seq::empty()
    } else {
        let before = given_to(leaves.drop_last(), name);
        if leaves.last().agents.contains(name) {
            before.push(leaves.last())
        } else {
            before
        }
    }
}

/// Some of the leaves is measured with this probe.
pub open spec fn uses_probe(leaves: Seq<Leaf>, probe: Seq<char>) -> bool {
    exists|i: int| 0 <= i < leaves.len() && (#[trigger] leaves[i]).probe == probe
}

impl AgentEntry {
    /// The entry of an agent that measures these leaves.
    pub open spec fn of(self, cfg: Config, secret: Seq<char>, leaves: Seq<Leaf>) -> bool {
        let a = self.assignment;
        &&& self.secret@ == secret
        &&& a.step == cfg.database.step
        &&& a.pings == cfg.database.pings
        &&& a.probes.wf()
        &&& forall|p: Seq<char>| #[trigger]
            a.probes.lookup(p) == (if uses_probe(leaves, p) {
                cfg.probes.lookup(p)
            } else {
                None
            })
        &&& a.targets@.map_values(|w: WireTarget| w@) == leaves.map_values(
            |l: Leaf| agent::assigned(l),
        )
        &&& text::texts(self.allowed@) == leaves.map_values(|l: Leaf| l.path)
    }
}

/// Which of the targets an agent measures, by their places.
fn pick_targets(flat: &Vec<FlatTarget>, name: &str) -> (r: Vec<usize>)
    ensures
        forall|j: int| 0 <= j < r@.len() ==> (#[trigger] r@[j]) < flat@.len(),
        r@.map_values(|i: usize| flat@[i as int]@) == given_to(config::leaves_of(flat@), name@),
{
    let ghost leaves = config::leaves_of(flat@);
    let mut out: Vec<usize> = Vec::new();
    let mut i: usize = 0;
    assert(leaves.take(0) =~= Seq::empty());
    assert(out@.map_values(|i: usize| flat@[i as int]@) =~= Seq::empty());
    while i < flat.len()
        invariant
            leaves == config::leaves_of(flat@),
            i <= flat@.len(),
            forall|j: int| 0 <= j < out@.len() ==> (#[trigger] out@[j]) < flat@.len(),
            out@.map_values(|i: usize| flat@[i as int]@) == given_to(
                leaves.take(i as int),
                name@,
            ),
        decreases flat@.len() - i,
    {
        assert(leaves.take(i + 1).drop_last() == leaves.take(i as int));
        assert(leaves.take(i + 1).last() == flat@[i as int]@);
        let ghost had = out@;
        if holds(&flat[i].agents, name) {
            out.push(i);
            assert(out@.map_values(|i: usize| flat@[i as int]@) =~= had.map_values(
                |i: usize| flat@[i as int]@,
            ).push(flat@[i as int]@));
        }
        i = i + 1;
    }
    assert(leaves.take(i as int) == leaves);
    out
}

/// The probes that the targets at these places name.
fn pick_probes(cfg: &Config, flat: &Vec<FlatTarget>, places: &Vec<usize>) -> (r: NameMap<
    ProbeConfig,
>)
    requires
        cfg.wf(),
        forall|j: int| 0 <= j < places@.len() ==> (#[trigger] places@[j]) < flat@.len(),
    ensures
        r.wf(),
        forall|p: Seq<char>| #[trigger]
            r.lookup(p) == (if uses_probe(places@.map_values(|i: usize| flat@[i as int]@), p) {
                cfg.probes.lookup(p)
            } else {
                None
            }),
{
    let ghost leaves = places@.map_values(|i: usize| flat@[i as int]@);
    let mut r: NameMap<ProbeConfig> = NameMap::new();
    let mut j: usize = 0;
    while j < places.len()
        invariant
            cfg.wf(),
            forall|j: int| 0 <= j < places@.len() ==> (#[trigger] places@[j]) < flat@.len(),
            leaves == places@.map_values(|i: usize| flat@[i as int]@),
            j <= places@.len(),
            r.wf(),
            forall|p: Seq<char>| #[trigger]
                r.lookup(p) == (if uses_probe(leaves.take(j as int), p) {
                    cfg.probes.lookup(p)
                } else {
                    None
                }),
        decreases places@.len() - j,
    {
        let t = &flat[places[j]];
        let ghost before = r;
        let ghost name = t.probe@;
        match cfg.probes.get(t.probe.as_str()) {
            Some(pc) => {
                r.insert(t.probe.clone(), pc.clone());
            },
            None => {},
        }
        proof {
            let part = leaves.take(j as int);
            let next = leaves.take(j + 1);
            assert(leaves[j as int].probe == name);
            assert(next[j as int] == leaves[j as int]);
            assert forall|p: Seq<char>| #[trigger] r.lookup(p) == (if uses_probe(next, p) {
                cfg.probes.lookup(p)
            } else {
                None
            }) by {
                if uses_probe(part, p) {
                    let i = choose|i: int| 0 <= i < part.len() && (#[trigger] part[i]).probe == p;
                    assert(next[i].probe == p);
                }
                if p != name && uses_probe(next, p) {
                    let i = choose|i: int| 0 <= i < next.len() && (#[trigger] next[i]).probe == p;
                    assert(part[i].probe == p);
                }
                assert(before.lookup(p) == (if uses_probe(part, p) {
                    cfg.probes.lookup(p)
                } else {
                    None
                }));
            }
        }
        j = j + 1;
    }
    assert(leaves.take(j as int) == leaves);
    r
}

/// An agent's entry, from the flattened tree.
fn build_agent(cfg: &Config, flat: &Vec<FlatTarget>, name: &str, secret: &String) -> (r: AgentEntry)
    requires
        cfg.wf(),
    ensures
        r.of(*cfg, secret@, given_to(config::leaves_of(flat@), name@)),
{
    let places = pick_targets(flat, name);
    let ghost leaves = places@.map_values(|i: usize| flat@[i as int]@);
    let probes = pick_probes(cfg, flat, &places);
    let mut targets: Vec<WireTarget> = Vec::new();
    let mut allowed: Vec<String> = Vec::new();
    let mut j: usize = 0;
    while j < places.len()
        invariant
            forall|j: int| 0 <= j < places@.len() ==> (#[trigger] places@[j]) < flat@.len(),
            leaves == places@.map_values(|i: usize| flat@[i as int]@),
            j <= places@.len(),
            targets@.len() == j,
            allowed@.len() == j,
            forall|k: int| 0 <= k < j ==> (#[trigger] targets@[k])@ == agent::assigned(leaves[k]),
            forall|k: int| 0 <= k < j ==> (#[trigger] allowed@[k])@ == leaves[k].path,
        decreases places@.len() - j,
    {
        let t = &flat[places[j]];
        targets.push(WireTarget::from_flat(t));
        allowed.push(t.path.clone());
        j = j + 1;
    }
    assert(targets@.map_values(|w: WireTarget| w@) =~= leaves.map_values(
        |l: Leaf| agent::assigned(l),
    ));
    assert(text::texts(allowed@) =~= leaves.map_values(|l: Leaf| l.path));
    AgentEntry {
        secret: secret.clone(),
        assignment: Assignment {
            step: cfg.database.step,
            pings: cfg.database.pings,
            probes,
            targets,
        },
        allowed,
    }
}

/// The entries of all agents of a configuration.
pub open spec fn agents_of(
    cfg: Config,
    leaves: Seq<Leaf>,
    entries: Seq<(String, AgentEntry)>,
) -> bool {
    let defs = cfg.agents.entries@;
    &&& entries.len() == defs.len()
    &&& forall|i: int|
        0 <= i < defs.len() ==> {
            &&& (#[trigger] entries[i]).0@ == defs[i].0@
            &&& entries[i].1.of(cfg, defs[i].1.secret@, given_to(leaves, defs[i].0@))
        }
}

/// Per-agent assignments, computed once from the flattened config.
pub fn build_agents(cfg: &Config) -> (r: Result<NameMap<AgentEntry>, TargetError>)
    requires
        cfg.wf(),
    ensures
        match r {
            Err(e) => cfg.flattened() == Err::<Seq<Leaf>, config::Refusal>(e@),
            Ok(m) => {
                &&& cfg.flattened() matches Ok(leaves)
                &&& m.wf()
                &&& agents_of(*cfg, leaves, m.entries@)
            },
        },
{
    let flat = match cfg.flatten_targets() {
        Err(e) => {
            return Err(e);
        },
        Ok(f) => f,
    };
    let ghost leaves = config::leaves_of(flat@);
    let ghost defs = cfg.agents.entries@;
    let mut entries: Vec<(String, AgentEntry)> = Vec::new();
    let mut i: usize = 0;
    while i < cfg.agents.entries.len()
        invariant
            cfg.wf(),
            leaves == config::leaves_of(flat@),
            defs == cfg.agents.entries@,
            i <= defs.len(),
            entries@.len() == i,
            forall|k: int|
                0 <= k < i ==> {
                    &&& (#[trigger] entries@[k]).0@ == defs[k].0@
                    &&& entries@[k].1.of(*cfg, defs[k].1.secret@, given_to(leaves, defs[k].0@))
                },
        decreases defs.len() - i,
    {
        let (name, ac) = &cfg.agents.entries[i];
        let e = build_agent(cfg, &flat, name.as_str(), &ac.secret);
        entries.push((name.clone(), e));
        i = i + 1;
    }
    let m = NameMap { entries };
    proof {
        assert forall|a: int, b: int| 0 <= a < b < m.entries@.len() implies text::text_lt(
            (#[trigger] m.entries@[a]).0@,
            (#[trigger] m.entries@[b]).0@,
        ) by {
            assert(defs[a].0@ == m.entries@[a].0@ && defs[b].0@ == m.entries@[b].0@);
        }
    }
    Ok(m)
}

/// The agent's name and secret are right.
pub open spec fn authentic(
    agents: NameMap<AgentEntry>,
    name: Option<&str>,
    secret: Option<&str>,
    place: int,
) -> bool {
    &&& 0 <= place < agents.entries@.len()
    &&& name matches Some(n) && agents.entries@[place].0@ == n@
    &&& secret matches Some(s) && agents.entries@[place].1.secret@ == s@
}

/// Validates X-Dabping-Agent/-Secret; returns the agent's place. Where there
/// is none, the request is answered 401.
pub fn agent_auth(agents: &NameMap<AgentEntry>, name: Option<&str>, secret: Option<&str>) -> (r:
    Option<usize>)
    requires
        agents.wf(),
    ensures
        match r {
            Some(i) => authentic(*agents, name, secret, i as int),
            None => forall|i: int| !#[trigger] authentic(*agents, name, secret, i),
        },
{
    let n = match name {
        None => {
            return None;
        },
        Some(n) => n,
    };
    let s = match secret {
        None => {
            return None;
        },
        Some(s) => s,
    };
    match agents.index_of(n) {
        None => {
            proof {
                assert forall|i: int| !#[trigger] authentic(*agents, name, secret, i) by {
                    if authentic(*agents, name, secret, i) {
                        assert(agents.entries@[i].0@ == n@);
                        assert(agents.has(n@));
                    }
                }
            }
            None
        },
        Some(i) => {
            if same(agents.entries[i].1.secret.as_str(), s) {
                Some(i)
            } else {
                proof {
                    assert forall|j: int| !#[trigger] authentic(*agents, name, secret, j) by {
                        if authentic(*agents, name, secret, j) {
                            agents.lemma_place(i as int);
                            agents.lemma_place(j);
                        }
                    }
                }
                None
            }
        },
    }
}

/// What is taken of a push, in order, and how many rounds are rejected.
pub open spec fn taken(
    allowed: Seq<Seq<char>>,
    pushed: Seq<(WireRound, Option<IpAddr>)>,
) -> (Seq<int>, nat)
    decreases pushed.len(),
{
    if pushed.len() == 0 {
        (Seq::empty(), 0)
    } else {
        let (kept, rejected) = taken(allowed, pushed.drop_last());
        if allowed.contains(pushed.last().0.target@) {
            (kept.push(pushed.len() - 1), rejected)
        } else {
            (kept, rejected + 1)
        }
    }
}

proof fn lemma_taken(allowed: Seq<Seq<char>>, pushed: Seq<(WireRound, Option<IpAddr>)>)
    ensures
        taken(allowed, pushed).0.len() + taken(allowed, pushed).1 == pushed.len(),
        forall|j: int|
            0 <= j < taken(allowed, pushed).0.len() ==> 0 <= (#[trigger] taken(
                allowed,
                pushed,
            ).0[j]) < pushed.len(),
    decreases pushed.len(),
{
    if pushed.len() > 0 {
        lemma_taken(allowed, pushed.drop_last());
        let prior = taken(allowed, pushed.drop_last()).0;
        let all = taken(allowed, pushed).0;
        assert forall|j: int| 0 <= j < all.len() implies 0 <= (#[trigger] all[j]) < pushed.len() by {
            if j < prior.len() {
                assert(all[j] == prior[j]);
            }
        }
    }
}

/// Takes a push of an agent: rounds for its targets are rebuilt under its
/// series keys; those for other targets (stale assignment?) are rejected and
/// counted.
pub fn accept_results(
    entry: &AgentEntry,
    name: &str,
    rounds: Vec<(WireRound, Option<IpAddr>)>,
) -> (r: (Vec<RoundResult>, usize))
    requires
        forall|i: int|
            0 <= i < rounds@.len() && text::texts(entry.allowed@).contains(
                (#[trigger] rounds@[i]).0.target@,
            ) ==> rounds@[i].0.measurable(),
    ensures
        ({
            let (kept, rejected) = taken(text::texts(entry.allowed@), rounds@);
            &&& r.1 == rejected
            &&& r.0@.len() == kept.len()
            &&& forall|j: int|
                0 <= j < kept.len() ==> rounds@[kept[j]].0.rebuilt(
                    name@,
                    rounds@[kept[j]].1,
                    #[trigger] r.0@[j],
                )
        }),
{
    let ghost allowed = text::texts(entry.allowed@);
    let ghost given = rounds@;
    let mut rest = rounds;
    let mut back: Vec<(WireRound, Option<IpAddr>)> = Vec::new();
    while rest.len() > 0
        invariant
            rest@.len() + back@.len() == given.len(),
            rest@ == given.take(rest@.len() as int),
            forall|j: int|
                0 <= j < back@.len() ==> (#[trigger] back@[j]) == given[given.len() - 1 - j],
        decreases rest@.len(),
    {
        let ghost n = rest@.len() as int;
        assert(rest@[n - 1] == given[n - 1]);
        match rest.pop() {
            Some(w) => {
                back.push(w);
            },
            None => {},
        }
    }
    let mut out: Vec<RoundResult> = Vec::new();
    let mut rejected: usize = 0;
    let ghost mut done: int = 0;
    let n: usize = back.len();
    assert(given.take(0) =~= Seq::empty());
    while back.len() > 0
        invariant
            allowed == text::texts(entry.allowed@),
            forall|i: int|
                0 <= i < given.len() && allowed.contains((#[trigger] given[i]).0.target@)
                    ==> given[i].0.measurable(),
            0 <= done <= given.len(),
            given.len() == n,
            back@.len() + done == given.len(),
            forall|j: int|
                0 <= j < back@.len() ==> (#[trigger] back@[j]) == given[given.len() - 1 - j],
            rejected == taken(allowed, given.take(done)).1,
            rejected <= done,
            out@.len() == taken(allowed, given.take(done)).0.len(),
            forall|j: int|
                0 <= j < out@.len() ==> given[taken(allowed, given.take(done)).0[j]].0.rebuilt(
                    name@,
                    given[taken(allowed, given.take(done)).0[j]].1,
                    #[trigger] out@[j],
                ),
        decreases back@.len(),
    {
        proof {
            assert(back@[back@.len() - 1] == given[done]);
            assert(given.take(done + 1).drop_last() == given.take(done));
            assert(given.take(done + 1).last() == given[done]);
            lemma_taken(allowed, given.take(done));
        }
        let ghost kept = taken(allowed, given.take(done)).0;
        let ghost had = out@;
        match back.pop() {
            Some((w, addr)) => {
                if holds(&entry.allowed, w.target.as_str()) {
                    assert(given[done].0.measurable());
                    out.push(w.into_round(name, addr));
                } else {
                    rejected = rejected + 1;
                }
            },
            None => {},
        }
        proof {
            let next = taken(allowed, given.take(done + 1)).0;
            assert forall|j: int| 0 <= j < out@.len() implies given[next[j]].0.rebuilt(
                name@,
                given[next[j]].1,
                #[trigger] out@[j],
            ) by {
                if j < had.len() {
                    assert(out@[j] == had[j]);
                    assert(next[j] == kept[j]);
                }
            }
            done = done + 1;
        }
    }
    assert(given.take(done) == given);
    (out, rejected)
}

// ---- target tree ----

/// The target tree as served to the UI.
#[derive(Debug)]
pub struct TreeNode {
    pub name: String,
    /// Full slash path of this node.
    pub path: String,
    pub title: Option<String>,
    pub menu: Option<String>,
    pub host: Option<String>,
    /// Agents that also measure this target (per-agent series exist
    /// under "path@agent").
    pub agents: Vec<String>,
    pub children: Vec<TreeNode>,
}

/// The agents of the leaf with this path, the last one where several have it.
pub open spec fn agents_at(leaves: Seq<Leaf>, path: Seq<char>) -> Seq<Seq<char>>
    decreases leaves.len(),
{
    if leaves.len() == 0 {
        Seq::empty()
    } else if leaves.last().path == path {
        leaves.last().agents
    } else {
        agents_at(leaves.drop_last(), path)
    }
}

/// The tree shows a node of the configuration.
pub open spec fn shows(
    t: TreeNode,
    name: Seq<char>,
    path: Seq<char>,
    node: TargetNode,
    leaves: Seq<Leaf>,
) -> bool
    decreases node,
{
    &&& t.name@ == name
    &&& t.path@ == path
    &&& config::text_of(t.title) == config::text_of(node.title)
    &&& config::text_of(t.menu) == config::text_of(node.menu)
    &&& config::text_of(t.host) == config::text_of(node.host)
    &&& text::texts(t.agents@) == agents_at(leaves, path)
    &&& t.children@.len() == node.children@.len()
    &&& forall|i: int|
        0 <= i < node.children@.len() ==> shows(
            #[trigger] t.children@[i],
            node.children@[i].0@,
            path + "/"@ + node.children@[i].0@,
            node.children@[i].1,
            leaves,
        )
}

fn agents_for(flat: &Vec<FlatTarget>, path: &str) -> (r: Vec<String>)
    ensures
        text::texts(r@) == agents_at(config::leaves_of(flat@), path@),
{
    let ghost leaves = config::leaves_of(flat@);
    let mut i: usize = flat.len();
    assert(leaves.take(i as int) == leaves);
    while i > 0
        invariant
            leaves == config::leaves_of(flat@),
            i <= flat@.len(),
            agents_at(leaves, path@) == agents_at(leaves.take(i as int), path@),
        decreases i,
    {
        let ghost part = leaves.take(i as int);
        assert(part.last() == flat@[i - 1]@);
        assert(part.drop_last() == leaves.take(i - 1));
        if same(flat[i - 1].path.as_str(), path) {
            return copy_list(&flat[i - 1].agents);
        }
        i = i - 1;
    }
    let none: Vec<String> = Vec::new();
    assert(text::texts(none@) =~= Seq::empty());
    none
}

fn copy_option(s: &Option<String>) -> (r: Option<String>)
    ensures
        config::text_of(r) == config::text_of(*s),
{
    match s {
        Some(t) => Some(t.clone()),
        None => None,
    }
}

fn walk(name: &String, path: String, node: &TargetNode, flat: &Vec<FlatTarget>) -> (t: TreeNode)
    ensures
        shows(t, name@, path@, *node, config::leaves_of(flat@)),
    decreases node,
{
    let ghost leaves = config::leaves_of(flat@);
    let mut children: Vec<TreeNode> = Vec::new();
    let mut i: usize = 0;
    while i < node.children.len()
        invariant
            leaves == config::leaves_of(flat@),
            i <= node.children@.len(),
            children@.len() == i,
            forall|j: int|
                0 <= j < i ==> shows(
                    #[trigger] children@[j],
                    node.children@[j].0@,
                    path@ + "/"@ + node.children@[j].0@,
                    node.children@[j].1,
                    leaves,
                ),
        decreases node.children@.len() - i,
    {
        let (n, c) = &node.children[i];
        let mut below = path.clone();
        below.append("/");
        below.append(n.as_str());
        assert(below@ =~= path@ + "/"@ + n@);
        proof {
            assert(decreases_to!(*node => node.children));
            assert(decreases_to!(node.children => node.children@));
            assert(decreases_to!(node.children@ => node.children@[i as int]));
            assert(decreases_to!(node.children@[i as int] => node.children@[i as int].1));
        }
        children.push(walk(n, below, c, flat));
        i = i + 1;
    }
    let agents = agents_for(flat, path.as_str());
    TreeNode {
        name: name.clone(),
        title: copy_option(&node.title),
        menu: copy_option(&node.menu),
        host: copy_option(&node.host),
        agents,
        children,
        path,
    }
}

/// The leaves of a configuration; none where its tree is refused.
pub open spec fn known_leaves(cfg: Config) -> Seq<Leaf> {
    match cfg.flattened() {
        Ok(leaves) => leaves,
        Err(_) => Seq::empty(),
    }
}

/// The target tree. Inherited agents are only resolved in the flattened view.
pub fn build_tree(cfg: &Config) -> (r: Vec<TreeNode>)
    requires
        cfg.wf(),
    ensures
        r@.len() == cfg.targets@.len(),
        forall|i: int|
            0 <= i < r@.len() ==> shows(
                #[trigger] r@[i],
                cfg.targets@[i].0@,
                cfg.targets@[i].0@,
                cfg.targets@[i].1,
                known_leaves(*cfg),
            ),
{
    let flat: Vec<FlatTarget> = match cfg.flatten_targets() {
        Ok(f) => f,
        Err(_) => Vec::new(),
    };
    let ghost leaves = config::leaves_of(flat@);
    assert(leaves =~= known_leaves(*cfg));
    let mut out: Vec<TreeNode> = Vec::new();
    let mut i: usize = 0;
    while i < cfg.targets.len()
        invariant
            leaves == config::leaves_of(flat@),
            i <= cfg.targets@.len(),
            out@.len() == i,
            forall|j: int|
                0 <= j < i ==> shows(
                    #[trigger] out@[j],
                    cfg.targets@[j].0@,
                    cfg.targets@[j].0@,
                    cfg.targets@[j].1,
                    leaves,
                ),
        decreases cfg.targets@.len() - i,
    {
        let (n, c) = &cfg.targets[i];
        out.push(walk(n, n.clone(), c, &flat));
        i = i + 1;
    }
    out
}

// ---- live feed ----

/// A completed round, as the live feed tells it.
#[derive(Debug)]
pub struct LiveRound {
    pub target: String,
    pub host: String,
    pub ts: u64,
    pub sent: u32,
    pub recv: u32,
    pub loss: Double,
    pub median: Option<Double>,
    /// Ascending.
    pub rtts: Vec<Double>,
}

pub fn live_round(r: &RoundResult) -> (l: LiveRound)
    requires
        r.wf(),
    ensures
        l.target@ == r.target@,
        l.host@ == r.host@,
        l.ts == (match r.start_secs() {
            Some(s) => s,
            None => 0,
        }),
        l.sent == r.sent,
        l.recv == r.rtts@.len(),
        l.loss == r.loss(),
        l.median == (match r.middle() {
            Some(d) => Some(d.secs()),
            None => None,
        }),
        l.rtts@ == agent::seconds_of(probe::sorted(r.rtts@)),
{
    let sorted = r.sorted_rtts();
    let ghost want = agent::seconds_of(sorted@);
    let mut rtts: Vec<Double> = Vec::new();
    let mut i: usize = 0;
    while i < sorted.len()
        invariant
            want == agent::seconds_of(sorted@),
            i <= sorted@.len(),
            rtts@ == want.take(i as int),
        decreases sorted@.len() - i,
    {
        rtts.push(sorted[i].as_secs_f64());
        assert(want.take(i + 1) =~= want.take(i as int).push(want[i as int]));
        i = i + 1;
    }
    assert(want.take(i as int) == want);
    LiveRound {
        target: r.target.clone(),
        host: r.host.clone(),
        ts: r.started_secs() as u64,
        sent: r.sent,
        recv: r.received(),
        loss: r.loss_pct(),
        median: match r.median() {
            Some(d) => Some(d.as_secs_f64()),
            None => None,
        },
        rtts,
    }
}

// ---- stored data ----

pub fn default_range() -> (r: String)
    ensures
        r@ == "3h"@,
{
    "3h".to_owned()
}

pub fn default_cf() -> (r: String)
    ensures
        r@ == "average"@,
{
    "average".to_owned()
}

pub fn default_points() -> (r: u64)
    ensures
        r == 400,
{
    400
}

/// Why a request for data is refused.
#[derive(Clone, Copy, Debug, PartialEq, Eq, Structural)]
pub enum DataError {
    /// An unknown consolidation function.
    Cf,
    Range(RangeError),
    Store(StoreError),
}

/// Back from now by a range, else why not. A range that reaches back beyond
/// the times of 64 bits is too large.
pub open spec fn back(range: Seq<char>, now: int) -> Result<int, RangeError> {
    match util::range_of(range) {
        Err(e) => Err(e),
        Ok(n) => if now - n < i64::MIN {
            Err(RangeError::TooLarge)
        } else {
            Ok(now - n)
        },
    }
}

/// The window that a request is about. An explicit one (unix secs) overrides
/// the range when both ends are set; this is what drag-to-zoom uses.
pub open spec fn window_of(
    from: Option<i64>,
    to: Option<i64>,
    range: Seq<char>,
    now: int,
) -> Result<(int, int), RangeError> {
    match (from, to) {
        (Some(f), Some(t)) if f < t => Ok((f as int, t as int)),
        _ => match back(range, now) {
            Err(e) => Err(e),
            Ok(b) => Ok((b, now)),
        },
    }
}

pub fn window(from: Option<i64>, to: Option<i64>, range: &str, now: i64) -> (r: Result<
    (i64, i64),
    RangeError,
>)
    ensures
        match r {
            Ok((f, t)) => window_of(from, to, range@, now as int) == Ok::<(int, int), RangeError>(
                (f as int, t as int),
            ) && f <= t,
            Err(e) => window_of(from, to, range@, now as int) == Err::<(int, int), RangeError>(e),
        },
{
    match (from, to) {
        (Some(f), Some(t)) => {
            if f < t {
                return Ok((f, t));
            }
        },
        _ => {},
    }
    match parse_range(range) {
        Err(e) => Err(e),
        Ok(n) => {
            let start: i128 = now as i128 - n as i128;
            if start < i64::MIN as i128 {
                Err(RangeError::TooLarge)
            } else {
                Ok((start as i64, now))
            }
        },
    }
}

/// A request for data.
#[derive(Debug)]
pub struct DataQuery {
    pub range: String,
    pub cf: String,
    pub points: u64,
    pub from: Option<i64>,
    pub to: Option<i64>,
}

/// The series is there, and its window has more seconds than 64 bits count or
/// reaches back to where no period starts.
pub open spec fn out_of_reach(
    store: Store,
    path: Seq<char>,
    image: Option<&[u8]>,
    from: int,
    to: int,
) -> bool {
    store::path_error(path) is None && image is Some && !store.layout.spans(from, to)
}

/// Answers a request for data of a target, whose series is `image`.
pub fn data(
    store: &Store,
    path: &str,
    image: Option<&[u8]>,
    q: &DataQuery,
    now: i64,
) -> (r: Result<Fetched, DataError>)
    requires
        store.wf(),
        image matches Some(b) ==> store.layout.sized(b@),
    ensures
        match store::cf_of(q.cf@) {
            None => r == Err::<Fetched, DataError>(DataError::Cf),
            Some(cf) => match window_of(q.from, q.to, q.range@, now as int) {
                Err(e) => r == Err::<Fetched, DataError>(DataError::Range(e)),
                Ok((from, to)) if out_of_reach(*store, path@, image, from, to) => r == Err::<
                    Fetched,
                    DataError,
                >(DataError::Range(RangeError::TooLarge)),
                Ok((from, to)) => match r {
                    Ok(f) => store.result(path@, image, cf, from, to, q.points) == Some(f@),
                    Err(DataError::Store(e)) => {
                        &&& store.result(path@, image, cf, from, to, q.points) is None
                        &&& e == StoreError::NoData <==> store::path_error(path@) is None
                            && image is None
                        &&& e matches StoreError::Path(p) ==> store::path_error(path@) == Some(p)
                        &&& e matches StoreError::Fetch(f) ==> store::path_error(path@) is None
                            && (image matches Some(b) && store.layout.refuses(
                            b@,
                            cf,
                            from,
                            to,
                            q.points,
                            f,
                        ))
                        &&& e != StoreError::BeforeEpoch
                    },
                    Err(_) => false,
                },
            },
        },
{
    let cf = match Cf::from_str(q.cf.as_str()) {
        None => {
            return Err(DataError::Cf);
        },
        Some(cf) => cf,
    };
    let (from, to) = match window(q.from, q.to, q.range.as_str(), now) {
        Err(e) => {
            return Err(DataError::Range(e));
        },
        Ok(w) => w,
    };
    match (validate_target_path(path), image) {
        (Ok(()), Some(_)) => {
            if !store.layout.can_span(from, to) {
                return Err(DataError::Range(RangeError::TooLarge));
            }
            proof {
                store::series::lemma_alignable_after(store.layout, from as int, to as int);
            }
        },
        _ => {},
    }
    match store.fetch(path, image, cf, from, to, q.points) {
        Ok(f) => Ok(f),
        Err(e) => Err(DataError::Store(e)),
    }
}

pub open spec fn cf_name(cf: Option<Cf>) -> Seq<char> {
    match cf {
        Some(Cf::Average) => "Average"@,
        Some(Cf::Min) => "Min"@,
        Some(Cf::Max) => "Max"@,
        None => Seq::empty(),
    }
}

/// What is said of a refused request.
pub open spec fn refusal_text(e: DataError, path: Seq<char>, q: DataQuery) -> Seq<char> {
    match e {
        DataError::Cf => "unknown consolidation function "@ + text::debug_form(
            text::lowercased(q.cf@),
        ) + " (average|min|max)"@,
        DataError::Range(e) => util::range_text(e, q.range@),
        DataError::Store(StoreError::BeforeEpoch) => "the round started before the epoch"@,
        DataError::Store(StoreError::Path(p)) => store::path_text(path, p),
        DataError::Store(StoreError::NoData) => "no data recorded for target "@
            + text::debug_form(path),
        DataError::Store(StoreError::Fetch(FetchError::NoArchive)) => "no archive can serve "@
            + cf_name(store::cf_of(q.cf@)) + "; add a matching [[database.rra]]"@,
        DataError::Store(StoreError::Fetch(FetchError::TooMany(n))) => "fetch would return "@
            + text::decimal(n as nat) + " points; narrow the range"@,
    }
}

impl DataError {
    pub fn message(&self, path: &str, q: &DataQuery) -> (r: String)
        ensures
            r@ == refusal_text(*self, path@, *q),
    {
        match self {
            DataError::Cf => {
                let mut m = "unknown consolidation function ".to_owned();
                m.append(quoted(to_lower(q.cf.as_str()).as_str()).as_str());
                m.append(" (average|min|max)");
                m
            },
            DataError::Range(e) => e.message(q.range.as_str()),
            DataError::Store(StoreError::BeforeEpoch) => {
                "the round started before the epoch".to_owned()
            },
            DataError::Store(StoreError::Path(p)) => path_message(path, *p),
            DataError::Store(StoreError::NoData) => {
                let mut m = "no data recorded for target ".to_owned();
                m.append(quoted(path).as_str());
                m
            },
            DataError::Store(StoreError::Fetch(FetchError::NoArchive)) => {
                let mut m = "no archive can serve ".to_owned();
                m.append(
                    match Cf::from_str(q.cf.as_str()) {
                        Some(Cf::Average) => "Average",
                        Some(Cf::Min) => "Min",
                        Some(Cf::Max) => "Max",
                        None => "",
                    },
                );
                proof {
                    reveal_strlit("");
                    assert(""@ =~= Seq::empty());
                }
                m.append("; add a matching [[database.rra]]");
                m
            },
            DataError::Store(StoreError::Fetch(FetchError::TooMany(n))) => {
                let mut m = "fetch would return ".to_owned();
                m.append(decimal_u64(*n).as_str());
                m.append(" points; narrow the range");
                m
            },
        }
    }
}

/// The status that a refused request for data is answered with, by what is
/// said of it.
pub open spec fn data_code(message: Seq<char>) -> u16 {
    if text::has_text(message, "no data recorded"@) {
        404
    } else {
        400
    }
}

pub fn data_status(message: &str) -> (r: u16)
    ensures
        r == data_code(message@),
{
    if contains_text(message, "no data recorded") {
        404
    } else {
        400
    }
}

/// A target without a series is not found.
pub proof fn missing_data_is_not_found(path: Seq<char>, q: DataQuery)
    ensures
        data_code(refusal_text(DataError::Store(StoreError::NoData), path, q)) == 404,
{
    reveal_strlit("no data recorded");
    reveal_strlit("no data recorded for target ");
    let m = refusal_text(DataError::Store(StoreError::NoData), path, q);
    assert(m.skip(0).take("no data recorded"@.len() as int) =~= "no data recorded"@);
    assert(text::starts_with(m.skip(0), "no data recorded"@));
}

/// How long the window's load event is held back: what is asked for, three
/// seconds where that is nothing readable, and ten at most.
pub fn hold_millis(ms: Option<&str>) -> (r: u64)
    ensures
        r == held_for(
            match ms {
                Some(s) => Some(s@),
                None => None,
            },
        ),
{
    let n: u64 = match ms {
        None => 3000,
        Some(s) => match parse_unsigned(s, u64::MAX) {
            None => 3000,
            Some(n) => n,
        },
    };
    if n < 10_000 {
        n
    } else {
        10_000
    }
}

// ---- assets ----

/// The asset that a path names; the front page where it names none.
pub open spec fn asset_of(path: Seq<char>) -> Seq<char> {
    let rest = text::without_leading(path, '/');
    if rest.len() == 0 {
        "index.html"@
    } else {
        rest
    }
}

pub fn asset_path(path: &str) -> (r: String)
    ensures
        r@ == asset_of(path@),
{
    let rest = trim_leading(path, '/');
    if same(rest.as_str(), "") {
        proof {
            reveal_strlit("");
            assert(rest@.len() == 0);
        }
        "index.html".to_owned()
    } else {
        proof {
            reveal_strlit("");
            if rest@.len() == 0 {
                assert(rest@ =~= ""@);
            }
        }
        rest
    }
}

/// The media type that `mime_guess` has for a file name.
pub uninterp spec fn media_type(path: Seq<char>) -> Seq<char>;

/// Guesses a media type by `mime_guess::from_path` and
/// `MimeGuess::first_or_octet_stream`, from the extension alone; the guess is
/// named `media_type`.
#[verifier::external_body]
fn guess_media_type(path: &str) -> (r: String)
    ensures
        r@ == media_type(path@),
{
    mime_guess::from_path(path).first_or_octet_stream().as_ref().to_string()
}

/// The content type of an asset.
pub fn content_type(path: &str) -> (r: String)
    ensures
        r@ == media_type(path@),
{
    guess_media_type(path)
}

// ---- charts (top-N) ----

#[derive(Debug)]
pub struct TopEntry {
    pub path: String,
    pub host: String,
    pub median: Option<Double>,
    pub loss: Double,
    pub ts: i64,
}

/// A target's place in the list, and its latest round.
#[verifier::ext_equal]
pub struct Latest {
    pub target: int,
    pub median: Option<Double>,
    pub loss: Double,
    pub ts: int,
}

/// The newest point with a known loss.
pub open spec fn newest_known(points: Seq<(int, Seq<Double>)>) -> Option<(int, Seq<Double>)>
    decreases points.len(),
{
    if points.len() == 0 {
        None
    } else if !points.last().1[0].nan() {
        Some(points.last())
    } else {
        newest_known(points.drop_last())
    }
}

/// A target's latest round: the newest valid raw point of a few steps back.
pub open spec fn latest(
    store: Store,
    path: Seq<char>,
    image: Option<&[u8]>,
    now: int,
    step: u64,
    place: int,
) -> Option<Latest> {
    match store.result(path, image, Cf::Average, now - 5 * step, now, 0) {
        None => None,
        Some((_, points)) => match newest_known(points) {
            None => None,
            Some((ts, vals)) => Some(
                Latest {
                    target: place,
                    median: if vals[1].nan() {
                        None
                    } else {
                        Some(vals[1])
                    },
                    loss: vals[0],
                    ts,
                },
            ),
        },
    }
}

/// The number's place in the total order of doubles: -0 below 0, and NaNs at
/// the ends.
pub open spec fn total_key(x: Double) -> int {
    if x.bits >= SIGN {
        -(x.bits - SIGN) - 1
    } else {
        x.bits as int
    }
}

/// Without a median a target counts as faster than all others.
pub open spec fn median_key(m: Option<Double>) -> int {
    match m {
        Some(x) => total_key(x),
        None => total_key(Double { bits: NEG_INF_BITS }),
    }
}

/// `a` ranks above `b`: by its median, or by its loss and then its median.
pub open spec fn above(a: Latest, b: Latest, by_loss: bool) -> bool {
    if by_loss && total_key(a.loss) != total_key(b.loss) {
        total_key(a.loss) > total_key(b.loss)
    } else {
        median_key(a.median) > median_key(b.median)
    }
}

/// A ranking with one more entry, behind those that it does not rank above.
pub open spec fn placed(s: Seq<Latest>, e: Latest, by_loss: bool) -> Seq<Latest>
    decreases s.len(),
{
    if s.len() == 0 || !above(e, s.last(), by_loss) {
        s.push(e)
    } else {
        placed(s.drop_last(), e, by_loss).push(s.last())
    }
}

/// All targets with a recent round, ranked.
pub open spec fn ranking(
    store: Store,
    targets: Seq<(String, String)>,
    images: Seq<Option<&[u8]>>,
    now: int,
    step: u64,
    by_loss: bool,
) -> Seq<Latest>
    decreases targets.len(),
{
    if targets.len() == 0 {
        Seq::empty()
    } else {
        let before = ranking(store, targets.drop_last(), images, now, step, by_loss);
        let place = targets.len() - 1;
        match latest(store, targets[place].0@, images[place], now, step, place) {
            None => before,
            Some(e) => placed(before, e, by_loss),
        }
    }
}

impl TopEntry {
    /// The entry shows a target's latest round.
    pub open spec fn of(self, targets: Seq<(String, String)>, l: Latest) -> bool {
        &&& 0 <= l.target < targets.len()
        &&& self.path@ == targets[l.target].0@
        &&& self.host@ == targets[l.target].1@
        &&& self.median == l.median
        &&& self.loss == l.loss
        &&& self.ts == l.ts
    }
}

fn key_of(x: Double) -> (k: i128)
    ensures
        k == total_key(x),
{
    if x.bits >= SIGN {
        -((x.bits - SIGN) as i128) - 1
    } else {
        x.bits as i128
    }
}

fn median_key_of(m: Option<Double>) -> (k: i128)
    ensures
        k == median_key(m),
{
    match m {
        Some(x) => key_of(x),
        None => key_of(Double { bits: NEG_INF_BITS }),
    }
}

fn ranks_above(a: &TopEntry, b: &TopEntry, by_loss: bool) -> (r: bool)
    ensures
        forall|x: Latest, y: Latest|
            x.loss == a.loss && x.median == a.median && y.loss == b.loss && y.median == b.median
                ==> r == #[trigger] above(x, y, by_loss),
{
    let la: i128 = key_of(a.loss);
    let lb: i128 = key_of(b.loss);
    if by_loss && la != lb {
        la > lb
    } else {
        median_key_of(a.median) > median_key_of(b.median)
    }
}

proof fn lemma_placed(s: Seq<Latest>, e: Latest, by_loss: bool, i: int)
    requires
        0 <= i <= s.len(),
        forall|j: int| i <= j < s.len() ==> above(e, #[trigger] s[j], by_loss),
        i > 0 ==> !above(e, s[i - 1], by_loss),
    ensures
        placed(s, e, by_loss) == s.insert(i, e),
    decreases s.len(),
{
    if i == s.len() {
        assert(s.insert(i, e) =~= s.push(e));
    } else {
        let rest = s.drop_last();
        assert(above(e, s[s.len() - 1], by_loss));
        assert forall|j: int| i <= j < rest.len() implies above(e, #[trigger] rest[j], by_loss) by {
            assert(rest[j] == s[j]);
        }
        lemma_placed(rest, e, by_loss, i);
        assert(s.insert(i, e) =~= rest.insert(i, e).push(s.last()));
    }
}

/// The newest point with a known loss, by its place.
fn find_newest(points: &Vec<Point>) -> (r: Option<usize>)
    ensures
        match r {
            Some(i) => i < points@.len() && newest_known(points@.map_values(|p: Point| p.raw()))
                == Some(points@[i as int].raw()),
            None => newest_known(points@.map_values(|p: Point| p.raw())) is None,
        },
{
    let ghost raw = points@.map_values(|p: Point| p.raw());
    let mut i: usize = points.len();
    assert(raw.take(i as int) == raw);
    while i > 0
        invariant
            raw == points@.map_values(|p: Point| p.raw()),
            i <= points@.len(),
            newest_known(raw) == newest_known(raw.take(i as int)),
        decreases i,
    {
        let ghost part = raw.take(i as int);
        assert(part.last() == points@[i - 1].raw());
        assert(part.drop_last() == raw.take(i - 1));
        assert(points@[i - 1].raw().1[0] == points@[i - 1].loss);
        if !points[i - 1].loss.is_nan() {
            return Some(i - 1);
        }
        i = i - 1;
    }
    None
}

/// One target's entry, where it has a recent round.
fn top_entry(
    store: &Store,
    target: &(String, String),
    image: Option<&[u8]>,
    now: i64,
    step: u64,
    Ghost(targets): Ghost<Seq<(String, String)>>,
    Ghost(place): Ghost<int>,
) -> (r: Option<TopEntry>)
    requires
        store.wf(),
        image matches Some(b) ==> store.layout.sized(b@),
        store.layout.spans(now - 5 * step, now as int),
        0 <= place < targets.len(),
        targets[place] == *target,
    ensures
        match latest(*store, target.0@, image, now as int, step, place) {
            None => r is None,
            Some(l) => r matches Some(e) && e.of(targets, l),
        },
{
    proof {
        store::series::lemma_alignable_after(store.layout, now - 5 * step, now as int);
    }
    let from: i64 = (now as i128 - 5 * (step as i128)) as i64;
    match store.fetch(target.0.as_str(), image, Cf::Average, from, now, 0) {
        Err(_) => None,
        Ok(f) => {
            assert(f@.1 =~= f.points@.map_values(|p: Point| p.raw()));
            match find_newest(&f.points) {
                None => None,
                Some(i) => {
                    let p = &f.points[i];
                    assert(p.raw().1[0] == p.loss && p.raw().1[1] == p.median);
                    Some(
                        TopEntry {
                            path: target.0.clone(),
                            host: target.1.clone(),
                            median: if p.median.is_nan() {
                                None
                            } else {
                                Some(p.median)
                            },
                            loss: p.loss,
                            ts: p.ts,
                        },
                    )
                },
            }
        },
    }
}

/// The entries show these rounds, one by one.
pub open spec fn all_shown(
    entries: Seq<TopEntry>,
    targets: Seq<(String, String)>,
    rounds: Seq<Latest>,
) -> bool {
    &&& entries.len() == rounds.len()
    &&& forall|i: int|
        0 <= i < entries.len() ==> (#[trigger] entries[i]).of(targets, rounds[i])
}

/// Puts an entry in, behind those that it does not rank above.
fn rank_in(
    out: &mut Vec<TopEntry>,
    e: TopEntry,
    by_loss: bool,
    Ghost(targets): Ghost<Seq<(String, String)>>,
    Ghost(all): Ghost<Seq<Latest>>,
    Ghost(l): Ghost<Latest>,
)
    requires
        all_shown(old(out)@, targets, all),
        e.of(targets, l),
    ensures
        all_shown(final(out)@, targets, placed(all, l, by_loss)),
{
    let ghost had = out@;
    let mut i: usize = out.len();
    while i > 0 && ranks_above(&e, &out[i - 1], by_loss)
        invariant
            out@ == had,
            i <= had.len(),
            all_shown(had, targets, all),
            e.of(targets, l),
            forall|j: int| i <= j < all.len() ==> above(l, #[trigger] all[j], by_loss),
        decreases i,
    {
        assert(had[i - 1].of(targets, all[i - 1]));
        assert(above(l, all[i - 1], by_loss));
        i = i - 1;
    }
    proof {
        if i > 0 {
            assert(had[i - 1].of(targets, all[i - 1]));
            assert(!above(l, all[i - 1], by_loss));
        }
        lemma_placed(all, l, by_loss, i as int);
    }
    out.insert(i, e);
    let ghost next = all.insert(i as int, l);
    assert forall|j: int| 0 <= j < out@.len() implies (#[trigger] out@[j]).of(
        targets,
        next[j],
    ) by {
        if j < i {
            assert(out@[j] == had[j]);
        } else if j > i {
            assert(out@[j] == had[j - 1]);
            assert(next[j] == all[j - 1]);
        }
    }
}

/// Ranks targets by their latest round, and returns the first `n`. Each target
/// has its series, or none, in `images`.
#[verifier::spinoff_prover]
pub fn top_targets(
    store: &Store,
    targets: &Vec<(String, String)>,
    images: &Vec<Option<&[u8]>>,
    by: &str,
    n: usize,
    now: i64,
    step: u64,
) -> (r: Vec<TopEntry>)
    requires
        store.wf(),
        targets@.len() == images@.len(),
        forall|i: int|
            0 <= i < images@.len() ==> ((#[trigger] images@[i]) matches Some(b)
                ==> store.layout.sized(b@)),
        store.layout.spans(now - 5 * step, now as int),
    ensures
        ({
            let all = ranking(*store, targets@, images@, now as int, step, by@ == "loss"@);
            &&& r@.len() == (if n < all.len() {
                n as nat
            } else {
                all.len()
            })
            &&& forall|i: int| 0 <= i < r@.len() ==> (#[trigger] r@[i]).of(targets@, all[i])
        }),
{
    let by_loss = same(by, "loss");
    let mut out: Vec<TopEntry> = Vec::new();
    let mut t: usize = 0;
    let ghost mut all: Seq<Latest> = Seq::empty();
    assert(targets@.take(0) =~= Seq::empty());
    while t < targets.len()
        invariant
            store.wf(),
            targets@.len() == images@.len(),
            forall|i: int|
                0 <= i < images@.len() ==> ((#[trigger] images@[i]) matches Some(b)
                    ==> store.layout.sized(b@)),
            store.layout.spans(now - 5 * step, now as int),
            t <= targets@.len(),
            all == ranking(*store, targets@.take(t as int), images@, now as int, step, by_loss),
            all_shown(out@, targets@, all),
        decreases targets@.len() - t,
    {
        proof {
            assert(targets@.take(t + 1).drop_last() == targets@.take(t as int));
            assert(targets@.take(t + 1)[t as int] == targets@[t as int]);
            assert(images@[t as int] matches Some(b) ==> store.layout.sized(b@));
        }
        match top_entry(
            store,
            &targets[t],
            images[t],
            now,
            step,
            Ghost(targets@),
            Ghost(t as int),
        ) {
            None => {},
            Some(e) => {
                let ghost l = latest(
                    *store,
                    targets@[t as int].0@,
                    images@[t as int],
                    now as int,
                    step,
                    t as int,
                )->0;
                rank_in(&mut out, e, by_loss, Ghost(targets@), Ghost(all), Ghost(l));
                proof {
                    all = placed(all, l, by_loss);
                }
            },
        }
        t = t + 1;
    }
    assert(targets@.take(t as int) == targets@);
    if n < out.len() {
        out.truncate(n);
    }
    out
}

/// How many entries a ranking is asked for at most.
pub fn charts_limit(n: usize) -> (r: usize)
    ensures
        r == (if n < 100 {
            n
        } else {
            100
        }),
{
    if n < 100 {
        n
    } else {
        100
    }
}

/// Every target with a recent round is ranked, by that round, and once.
pub proof fn rankings_hold_every_target_once(
    store: Store,
    targets: Seq<(String, String)>,
    images: Seq<Option<&[u8]>>,
    now: int,
    step: u64,
    by_loss: bool,
)
    ensures
        ({
            let all = ranking(store, targets, images, now, step, by_loss);
            &&& forall|i: int|
                0 <= i < all.len() ==> {
                    let l = #[trigger] all[i];
                    &&& 0 <= l.target < targets.len()
                    &&& latest(
                        store,
                        targets[l.target].0@,
                        images[l.target],
                        now,
                        step,
                        l.target,
                    ) == Some(l)
                }
            &&& forall|i: int, j: int|
                0 <= i < j < all.len() ==> (#[trigger] all[i]).target != (#[trigger] all[j]).target
            &&& forall|t: int|
                0 <= t < targets.len() ==> (latest(
                    store,
                    (#[trigger] targets[t]).0@,
                    images[t],
                    now,
                    step,
                    t,
                ) matches Some(l) ==> all.contains(l))
        }),
{
    let rounds = Seq::new(
        targets.len(),
        |t: int| latest(store, targets[t].0@, images[t], now, step, t),
    );
    lemma_ranked(store, targets, images, now, step, by_loss, rounds);
    lemma_ranked_once(rounds, by_loss);
    let all = ranking(store, targets, images, now, step, by_loss);
    assert forall|t: int| 0 <= t < targets.len() implies (latest(
        store,
        (#[trigger] targets[t]).0@,
        images[t],
        now,
        step,
        t,
    ) matches Some(l) ==> all.contains(l)) by {
        assert(rounds[t] == latest(store, targets[t].0@, images[t], now, step, t));
    }
    assert forall|i: int| 0 <= i < all.len() implies {
        let l = #[trigger] all[i];
        &&& 0 <= l.target < targets.len()
        &&& latest(store, targets[l.target].0@, images[l.target], now, step, l.target) == Some(l)
    } by {
        assert(rounds[all[i].target] == Some(all[i]));
    }
}

/// Some of these, ranked.
spec fn ranked(rounds: Seq<Option<Latest>>, by_loss: bool) -> Seq<Latest>
    decreases rounds.len(),
{
    if rounds.len() == 0 {
        Seq::empty()
    } else {
        let before = ranked(rounds.drop_last(), by_loss);
        match rounds.last() {
            None => before,
            Some(e) => placed(before, e, by_loss),
        }
    }
}

proof fn lemma_ranked(
    store: Store,
    targets: Seq<(String, String)>,
    images: Seq<Option<&[u8]>>,
    now: int,
    step: u64,
    by_loss: bool,
    rounds: Seq<Option<Latest>>,
)
    requires
        rounds.len() == targets.len(),
        forall|t: int|
            0 <= t < targets.len() ==> (#[trigger] rounds[t]) == latest(
                store,
                targets[t].0@,
                images[t],
                now,
                step,
                t,
            ),
    ensures
        ranking(store, targets, images, now, step, by_loss) == ranked(rounds, by_loss),
        forall|t: int|
            0 <= t < targets.len() ==> ((#[trigger] rounds[t]) matches Some(l) ==> l.target == t),
    decreases targets.len(),
{
    if targets.len() > 0 {
        let place = targets.len() - 1;
        lemma_ranked(
            store,
            targets.drop_last(),
            images,
            now,
            step,
            by_loss,
            rounds.drop_last(),
        );
        assert(rounds[place] == latest(store, targets[place].0@, images[place], now, step, place));
        assert forall|t: int| 0 <= t < targets.len() implies ((#[trigger] rounds[t]) matches Some(
            l,
        ) ==> l.target == t) by {
            if t < place {
                assert(rounds.drop_last()[t] == rounds[t]);
            }
        }
    }
}

proof fn lemma_ranked_once(rounds: Seq<Option<Latest>>, by_loss: bool)
    requires
        forall|t: int|
            0 <= t < rounds.len() ==> ((#[trigger] rounds[t]) matches Some(l) ==> l.target == t),
    ensures
        ({
            let all = ranked(rounds, by_loss);
            &&& forall|i: int|
                0 <= i < all.len() ==> 0 <= (#[trigger] all[i]).target < rounds.len()
                    && rounds[all[i].target] == Some(all[i])
            &&& forall|i: int, j: int|
                0 <= i < j < all.len() ==> (#[trigger] all[i]).target != (#[trigger] all[j]).target
            &&& forall|t: int|
                0 <= t < rounds.len() ==> ((#[trigger] rounds[t]) matches Some(l)
                    ==> all.contains(l))
        }),
    decreases rounds.len(),
{
    if rounds.len() > 0 {
        let rest = rounds.drop_last();
        assert forall|t: int| 0 <= t < rest.len() implies ((#[trigger] rest[t]) matches Some(l)
            ==> l.target == t) by {
            assert(rest[t] == rounds[t]);
        }
        lemma_ranked_once(rest, by_loss);
        let before = ranked(rest, by_loss);
        let all = ranked(rounds, by_loss);
        let place = rounds.len() - 1;
        match rounds.last() {
            None => {
                assert forall|t: int| 0 <= t < rounds.len() implies ((
                #[trigger] rounds[t]) matches Some(l) ==> all.contains(l)) by {
                    if t < place {
                        assert(rest[t] == rounds[t]);
                    }
                }
            },
            Some(e) => {
                let k = lemma_put_in(before, e, by_loss);
                assert(rounds[place] == Some(e));
                assert(all[k] == e);
                assert forall|i: int| 0 <= i < all.len() implies 0 <= (#[trigger] all[i]).target
                    < rounds.len() && rounds[all[i].target] == Some(all[i]) by {
                    if i != k {
                        let l = before[if i < k { i } else { i - 1 }];
                        assert(all[i] == l);
                        assert(rest[l.target] == rounds[l.target]);
                    }
                }
                assert forall|t: int| 0 <= t < rounds.len() implies ((
                #[trigger] rounds[t]) matches Some(l) ==> all.contains(l)) by {
                    if t < place && rounds[t] is Some {
                        assert(rest[t] == rounds[t]);
                        let i = choose|i: int| 0 <= i < before.len() && before[i] == rounds[t]->0;
                        assert(all[if i < k { i } else { i + 1 }] == rounds[t]->0);
                    }
                }
            },
        }
    }
}

/// A ranking with one more entry is the ranking with the entry put in
/// somewhere.
proof fn lemma_put_in(s: Seq<Latest>, e: Latest, by_loss: bool) -> (k: int)
    ensures
        0 <= k <= s.len(),
        placed(s, e, by_loss) == s.insert(k, e),
    decreases s.len(),
{
    if s.len() == 0 || !above(e, s.last(), by_loss) {
        assert(s.push(e) =~= s.insert(s.len() as int, e));
        s.len() as int
    } else {
        let k = lemma_put_in(s.drop_last(), e, by_loss);
        assert(s.drop_last().insert(k, e).push(s.last()) =~= s.insert(k, e));
        k
    }
}

/// A ranking is in order: nobody stands behind somebody that it ranks above.
pub proof fn rankings_are_in_order(
    store: Store,
    targets: Seq<(String, String)>,
    images: Seq<Option<&[u8]>>,
    now: int,
    step: u64,
    by_loss: bool,
    i: int,
    j: int,
)
    requires
        0 <= i < j < ranking(store, targets, images, now, step, by_loss).len(),
    ensures
        ({
            let all = ranking(store, targets, images, now, step, by_loss);
            !above(all[j], all[i], by_loss)
        }),
{
    lemma_ranking_in_order(store, targets, images, now, step, by_loss);
}

spec fn in_order(s: Seq<Latest>, by_loss: bool) -> bool {
    forall|i: int, j: int|
        0 <= i < j < s.len() ==> !above(#[trigger] s[j], #[trigger] s[i], by_loss)
}

proof fn lemma_ranking_in_order(
    store: Store,
    targets: Seq<(String, String)>,
    images: Seq<Option<&[u8]>>,
    now: int,
    step: u64,
    by_loss: bool,
)
    ensures
        in_order(ranking(store, targets, images, now, step, by_loss), by_loss),
    decreases targets.len(),
{
    if targets.len() > 0 {
        let rest = targets.drop_last();
        lemma_ranking_in_order(store, rest, images, now, step, by_loss);
        let place = targets.len() - 1;
        match latest(store, targets[place].0@, images[place], now, step, place) {
            None => {},
            Some(e) => {
                lemma_placed_in_order(
                    ranking(store, rest, images, now, step, by_loss),
                    e,
                    by_loss,
                );
            },
        }
    }
}

proof fn lemma_placed_in_order(s: Seq<Latest>, e: Latest, by_loss: bool)
    requires
        in_order(s, by_loss),
    ensures
        in_order(placed(s, e, by_loss), by_loss),
        placed(s, e, by_loss).len() == s.len() + 1,
        forall|j: int|
            0 <= j < placed(s, e, by_loss).len() ==> (#[trigger] placed(s, e, by_loss)[j]) == e
                || s.contains(placed(s, e, by_loss)[j]),
    decreases s.len(),
{
    let r = placed(s, e, by_loss);
    if s.len() == 0 || !above(e, s.last(), by_loss) {
        assert forall|i: int, j: int| 0 <= i < j < r.len() implies !above(
            #[trigger] r[j],
            #[trigger] r[i],
            by_loss,
        ) by {
            if j == s.len() && i < s.len() - 1 {
                assert(!above(s[s.len() - 1], s[i], by_loss));
            }
        }
        assert forall|j: int| 0 <= j < r.len() implies (#[trigger] r[j]) == e || s.contains(
            r[j],
        ) by {
            if j < s.len() {
                assert(s[j] == r[j]);
            }
        }
    } else {
        let rest = s.drop_last();
        assert forall|i: int, j: int| 0 <= i < j < rest.len() implies !above(
            #[trigger] rest[j],
            #[trigger] rest[i],
            by_loss,
        ) by {
            assert(rest[j] == s[j] && rest[i] == s[i]);
        }
        lemma_placed_in_order(rest, e, by_loss);
        let p = placed(rest, e, by_loss);
        let last = s.last();
        assert forall|i: int, j: int| 0 <= i < j < r.len() implies !above(
            #[trigger] r[j],
            #[trigger] r[i],
            by_loss,
        ) by {
            assert(r[i] == p[i]);
            if j < p.len() {
                assert(r[j] == p[j]);
            } else if p[i] != e {
                assert(rest.contains(p[i]));
                let k = choose|k: int| 0 <= k < rest.len() && rest[k] == p[i];
                assert(!above(s[s.len() - 1], s[k], by_loss));
            }
        }
        assert forall|j: int| 0 <= j < r.len() implies (#[trigger] r[j]) == e || s.contains(
            r[j],
        ) by {
            if j < p.len() {
                assert(r[j] == p[j]);
                if p[j] != e {
                    let k = choose|k: int| 0 <= k < rest.len() && rest[k] == p[j];
                    assert(s[k] == r[j]);
                }
            } else {
                assert(s[s.len() - 1] == r[j]);
            }
        }
    }
}

/// An agent measures the leaves that name it, in their order.
pub proof fn agents_measure_what_names_them(a: Seq<Leaf>, b: Seq<Leaf>, l: Leaf, name: Seq<char>)
    ensures
        given_to(a + b, name) == given_to(a, name) + given_to(b, name),
        given_to(seq![l], name) == (if exists|i: int|
            0 <= i < l.agents.len() && #[trigger] l.agents[i] == name {
            seq![l]
        } else {
            Seq::empty()
        }),
{
    lemma_given_of_both(a, b, name);
    let s = seq![l];
    assert(s.last() == l);
    assert(s.drop_last() =~= Seq::empty());
    reveal_with_fuel(given_to, 2);
    assert(given_to(s.drop_last(), name) =~= Seq::<Leaf>::empty());
}

proof fn lemma_given_of_both(a: Seq<Leaf>, b: Seq<Leaf>, name: Seq<char>)
    ensures
        given_to(a + b, name) == given_to(a, name) + given_to(b, name),
    decreases b.len(),
{
    if b.len() == 0 {
        assert(a + b =~= a);
        assert(given_to(a, name) + given_to(b, name) =~= given_to(a, name));
    } else {
        lemma_given_of_both(a, b.drop_last(), name);
        assert((a + b).drop_last() =~= a + b.drop_last());
        assert((a + b).last() == b.last());
        assert(given_to(a + b, name) =~= given_to(a, name) + given_to(b, name));
    }
}

/// Of a push the rounds of allowed targets are taken, all of them and each
/// once, in their order; the others are counted.
pub proof fn a_push_is_taken_as_far_as_allowed(
    allowed: Seq<Seq<char>>,
    pushed: Seq<(WireRound, Option<IpAddr>)>,
)
    ensures
        ({
            let (kept, rejected) = taken(allowed, pushed);
            &&& kept.len() + rejected == pushed.len()
            &&& forall|i: int|
                0 <= i < pushed.len() ==> (kept.contains(i) <==> allowed.contains(
                    (#[trigger] pushed[i]).0.target@,
                ))
            &&& forall|i: int| #[trigger] kept.contains(i) ==> 0 <= i < pushed.len()
            &&& forall|j: int, k: int|
                0 <= j < k < kept.len() ==> #[trigger] kept[j] < #[trigger] kept[k]
        }),
    decreases pushed.len(),
{
    lemma_taken(allowed, pushed);
    let (kept, rejected) = taken(allowed, pushed);
    if pushed.len() > 0 {
        let n = pushed.len() - 1;
        let rest = pushed.drop_last();
        a_push_is_taken_as_far_as_allowed(allowed, rest);
        lemma_taken(allowed, rest);
        let prior = taken(allowed, rest).0;
        assert forall|i: int| 0 <= i < pushed.len() implies (kept.contains(i)
            <==> allowed.contains((#[trigger] pushed[i]).0.target@)) by {
            if i < n {
                assert(rest[i] == pushed[i]);
                if prior.contains(i) {
                    let j = prior.index_of(i);
                    assert(kept[j] == i);
                }
                if kept.contains(i) {
                    let j = kept.index_of(i);
                    assert(j < prior.len() ==> prior[j] == i);
                }
            } else {
                if allowed.contains(pushed[i].0.target@) {
                    assert(kept[kept.len() - 1] == i);
                } else if kept.contains(i) {
                    let j = kept.index_of(i);
                    assert(prior[j] == i);
                }
            }
        }
    }
    assert forall|i: int| #[trigger] kept.contains(i) implies 0 <= i < pushed.len() by {
        let j = kept.index_of(i);
        assert(kept[j] == i);
    }
}

/// A path shows the agents of its leaf; of several leaves with one path it is
/// the last that counts, and without one there are none.
pub proof fn a_path_shows_the_agents_of_its_leaf(leaves: Seq<Leaf>, path: Seq<char>, i: int)
    ensures
        0 <= i < leaves.len() && leaves[i].path == path && (forall|j: int|
            i < j < leaves.len() ==> (#[trigger] leaves[j]).path != path) ==> agents_at(
            leaves,
            path,
        ) == leaves[i].agents,
        (forall|j: int| 0 <= j < leaves.len() ==> (#[trigger] leaves[j]).path != path)
            ==> agents_at(leaves, path).len() == 0,
    decreases leaves.len(),
{
    if leaves.len() > 0 {
        let rest = leaves.drop_last();
        a_path_shows_the_agents_of_its_leaf(rest, path, i);
        assert(forall|j: int| 0 <= j < rest.len() ==> #[trigger] rest[j] == leaves[j]);
        assert(leaves.last() == leaves[leaves.len() - 1]);
    }
}

/// A window with both ends, in order, is the one that was asked for. Any other
/// ends now and is as long as the range; a range that cannot be read is
/// refused, and so is one that reaches back too far.
pub proof fn windows_are_as_asked_for(
    from: Option<i64>,
    to: Option<i64>,
    range: Seq<char>,
    now: i64,
)
    ensures
        ({
            let w = window_of(from, to, range, now as int);
            let explicit = from is Some && to is Some && from->0 < to->0;
            &&& explicit ==> w == Ok::<(int, int), RangeError>((from->0 as int, to->0 as int))
            &&& !explicit ==> match (w, util::range_of(range)) {
                (Ok((a, b)), Ok(n)) => b == now && b - a == n && a >= i64::MIN,
                (Err(e), Ok(n)) => e == RangeError::TooLarge && now - n < i64::MIN,
                (Err(e), Err(f)) => e == f,
                (Ok(_), Err(_)) => false,
            }
        }),
{
}

/// The newest point whose loss is known is found, and none only where no point
/// has one.
pub proof fn the_newest_known_point_is_found(points: Seq<(int, Seq<Double>)>)
    ensures
        match newest_known(points) {
            Some(p) => !p.1[0].nan() && exists|k: int|
                {
                    &&& 0 <= k < points.len()
                    &&& #[trigger] points[k] == p
                    &&& forall|j: int|
                        k < j < points.len() ==> (#[trigger] points[j]).1[0].nan()
                },
            None => forall|j: int| 0 <= j < points.len() ==> (#[trigger] points[j]).1[0].nan(),
        },
    decreases points.len(),
{
    if points.len() > 0 {
        let n = points.len() - 1;
        let rest = points.drop_last();
        assert(points[n] == points.last());
        assert(forall|j: int| 0 <= j < n ==> #[trigger] points[j] == rest[j]);
        the_newest_known_point_is_found(rest);
        if points.last().1[0].nan() && newest_known(rest) is Some {
            let p = newest_known(rest)->0;
            let k = choose|k: int|
                {
                    &&& 0 <= k < rest.len()
                    &&& #[trigger] rest[k] == p
                    &&& forall|j: int| k < j < rest.len() ==> (#[trigger] rest[j]).1[0].nan()
                };
            assert(points[k] == rest[k]);
            assert forall|j: int| k < j < points.len() implies (#[trigger] points[j]).1[0].nan() by {
                if j < n {
                    assert(points[j] == rest[j]);
                }
            }
        }
    }
}

/// A target's latest round is the newest of the last five steps, as it was
/// stored, under the target's place.
pub proof fn the_latest_round_is_recent(
    store: Store,
    path: Seq<char>,
    image: Option<&[u8]>,
    now: int,
    step: u64,
    place: int,
)
    ensures
        match store.result(path, image, Cf::Average, now - 5 * step, now, 0) {
            None => latest(store, path, image, now, step, place) is None,
            Some((_, points)) => match latest(store, path, image, now, step, place) {
                None => newest_known(points) is None,
                Some(l) => {
                    &&& newest_known(points) matches Some((ts, vals))
                    &&& l.ts == ts && l.loss == vals[0] && l.target == place
                    &&& match l.median {
                        Some(m) => m == vals[1] && !m.nan(),
                        None => vals[1].nan(),
                    }
                },
            },
        },
{
}

/// A greater number comes later in the total order.
proof fn lemma_total_key(x: Double, y: Double)
    requires
        x.less(y),
    ensures
        total_key(x) < total_key(y),
{
    if total_key(x) >= total_key(y) {
        if x.negative() {
            double::lemma_ordered(x.abs_bits(), y.abs_bits());
        } else if !y.negative() {
            double::lemma_ordered(y.abs_bits(), x.abs_bits());
        }
    }
}

/// The worst stand first: by loss, nobody with a greater loss stands behind one
/// with a smaller, and among equal losses, as in a ranking by reply times,
/// nobody with a greater median behind one with a smaller; a target without a
/// median stands behind one with a median.
pub proof fn the_worst_stand_first(
    store: Store,
    targets: Seq<(String, String)>,
    images: Seq<Option<&[u8]>>,
    now: int,
    step: u64,
    by_loss: bool,
    i: int,
    j: int,
)
    requires
        0 <= i < j < ranking(store, targets, images, now, step, by_loss).len(),
    ensures
        ({
            let all = ranking(store, targets, images, now, step, by_loss);
            let (a, b) = (all[i], all[j]);
            &&& by_loss ==> !a.loss.less(b.loss)
            &&& !by_loss || a.loss == b.loss ==> match (a.median, b.median) {
                (Some(x), Some(y)) => !x.less(y),
                (None, Some(y)) => y.negative(),
                _ => true,
            }
        }),
{
    rankings_are_in_order(store, targets, images, now, step, by_loss, i, j);
    let all = ranking(store, targets, images, now, step, by_loss);
    let (a, b) = (all[i], all[j]);
    if a.loss.less(b.loss) {
        lemma_total_key(a.loss, b.loss);
    }
    match (a.median, b.median) {
        (Some(x), Some(y)) => {
            if x.less(y) {
                lemma_total_key(x, y);
            }
        },
        _ => {},
    }
}

/// An asset is named without slashes in front; nothing names the front page.
pub proof fn assets_are_named_without_slashes(path: Seq<char>)
    ensures
        asset_of(path).len() > 0,
        asset_of(path)[0] != '/',
        asset_of(seq!['/'] + path) == asset_of(path),
        path.len() > 0 && path[0] != '/' ==> asset_of(path) == path,
        asset_of(Seq::empty()) == "index.html"@,
    decreases path.len(),
{
    reveal_strlit("index.html");
    assert((seq!['/'] + path).drop_first() =~= path);
    if path.len() > 0 && path[0] == '/' {
        assets_are_named_without_slashes(path.drop_first());
    }
}

/// The milliseconds that a text asks for, at most ten seconds; three seconds
/// where it asks for none.
pub open spec fn held_for(ms: Option<Seq<char>>) -> int {
    match ms {
        None => 3000,
        Some(s) => match text::unsigned(s, u64::MAX as nat) {
            None => 3000,
            Some(n) => if n < 10_000 {
                n as int
            } else {
                10_000
            },
        },
    }
}

/// A hold is as long as its numeral says, but never more than ten seconds.
pub proof fn holds_are_short(n: u64)
    ensures
        held_for(Some(text::decimal(n as nat))) <= n,
        n <= 10_000 ==> held_for(Some(text::decimal(n as nat))) == n,
        n >= 10_000 ==> held_for(Some(text::decimal(n as nat))) == 10_000,
        forall|ms: Option<Seq<char>>| 0 <= #[trigger] held_for(ms) <= 10_000,
        held_for(None) == 3000,
{
    text::numerals_are_read_back(n as nat, u64::MAX as nat);
}

} // verus!

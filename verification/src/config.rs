//! The configuration model and the resolution of listeners into forwarding
//! jobs.  The file format mirrors the SNI-Spoofing `config.json` layout, with
//! an optional `strategy` per listener and an optional `sni` used by `tune`;
//! reading and writing the JSON file is done by the binary.

use vstd::prelude::*;

use crate::strategy::{by_name, catalogue_entry, catalogue_names, AnyStrategy, SplitAtSni};

verus! {

#[derive(Debug)]
pub struct Listener {
    /// Local address to accept connections on, e.g. "127.0.0.1:40443".
    pub listen: String,
    /// Upstream server "ip:port".  Must be an IP, not a hostname.
    pub connect: String,
    /// SNI used when auto-tuning this listener (often the upstream's real host).
    pub sni: Option<String>,
    /// Chosen strategy name.  If absent, a safe default is used.
    pub strategy: Option<String>,
}

#[derive(Debug)]
pub struct Config {
    pub listeners: Vec<Listener>,
}

pub struct ListenerView {
    pub listen: Seq<char>,
    pub connect: Seq<char>,
    pub sni: Option<Seq<char>>,
    pub strategy: Option<Seq<char>>,
}

pub open spec fn optional_text(o: Option<String>) -> Option<Seq<char>> {
    match o {
        Some(s) => Some(s@),
        None => None,
    }
}

impl View for Listener {
    type V = ListenerView;

    open spec fn view(&self) -> ListenerView {
        ListenerView {
            listen: self.listen@,
            connect: self.connect@,
            sni: optional_text(self.sni),
            strategy: optional_text(self.strategy),
        }
    }
}

/// Why a configuration cannot be run.
#[derive(Clone, Copy, Debug, PartialEq, Eq, Structural)]
pub enum RunError {
    /// The configuration has no listeners.
    NoListeners,
}

/// One forwarding job: accept on `listen`, dial `connect`, deliver the first
/// client payload with `strategy`.
#[derive(Debug)]
pub struct ListenerPlan {
    pub listen: String,
    pub connect: String,
    pub strategy: AnyStrategy,
    /// The configured strategy name when it names no strategy and the
    /// default was used instead.
    pub unknown_strategy: Option<String>,
}

/// The name of the strategy a listener asks for: its `strategy`, or
/// `split-sni` when it has none.
pub open spec fn requested_strategy(l: ListenerView) -> Seq<char> {
    match l.strategy {
        Some(s) => s,
        None => "split-sni"@,
    }
}

/// `p` is the job for listener `l`: same addresses, the requested strategy
/// of the catalogue, or `split-sni` (catalogue entry 1) with the requested
/// name reported when the catalogue has no strategy of that name.
pub open spec fn plans_listener(l: ListenerView, p: ListenerPlan) -> bool {
    let name = requested_strategy(l);
    &&& p.listen@ == l.listen
    &&& p.connect@ == l.connect
    &&& if exists|k: int| 0 <= k < 7 && catalogue_names()[k] == name {
        &&& exists|k: int| 0 <= k < 7 && catalogue_names()[k] == name && #[trigger] catalogue_entry(k, p.strategy)
        &&& p.unknown_strategy is None
    } else {
        &&& catalogue_entry(1, p.strategy)
        &&& p.unknown_strategy matches Some(u) && u@ == name
    }
}

/// The forwarding job of one listener.
pub fn plan_listener(l: Listener) -> (plan: ListenerPlan)
    ensures
        plans_listener(l@, plan),
{
    let ghost lv = l@;
    let name = match l.strategy {
        Some(s) => s,
        None => "split-sni".to_owned(),
    };
    assert(name@ == requested_strategy(lv));
    match by_name(name.as_str()) {
        Some(strategy) => ListenerPlan {
            listen: l.listen,
            connect: l.connect,
            strategy,
            unknown_strategy: None,
        },
        // Unknown name: fall back to `split-sni`, entry 1 of the catalogue.
        None => ListenerPlan {
            listen: l.listen,
            connect: l.connect,
            strategy: AnyStrategy::SplitAtSni(SplitAtSni { id: "split-sni".to_owned(), delay_ms: 0 }),
            unknown_strategy: Some(name),
        },
    }
}

/// The forwarding jobs of a configuration, one per listener in order; a
/// configuration without listeners cannot be run.
pub fn plan_listeners(cfg: Config) -> (plans: Result<Vec<ListenerPlan>, RunError>)
    ensures
        plans is Err <==> cfg.listeners@.len() == 0,
        plans matches Ok(p) ==> p@.len() == cfg.listeners@.len() && forall|i: int|
            0 <= i < p@.len() ==> plans_listener(cfg.listeners@[i]@, #[trigger] p@[i]),
{
    if cfg.listeners.len() == 0 {
        return Err(RunError::NoListeners);
    }
    let ghost all = cfg.listeners@;
    let mut rest = cfg.listeners;
    let mut plans: Vec<ListenerPlan> = Vec::new();
    while rest.len() > 0
        invariant
            plans@.len() + rest@.len() == all.len(),
            rest@ == all.skip(plans@.len() as int),
            forall|i: int| 0 <= i < plans@.len() ==> plans_listener(all[i]@, #[trigger] plans@[i]),
        decreases rest@.len(),
    {
        let ghost done = plans@.len() as int;
        let l = rest.remove(0);
        assert(l == all[done]);
        plans.push(plan_listener(l));
        assert(rest@ =~= all.skip(done + 1));
    }
    Ok(plans)
}

} // verus!

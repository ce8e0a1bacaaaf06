//! The inner loop of the cooldown engine, as a state machine. The caller
//! performs each action it returns (list a package's versions, ask the
//! resolver to pin a release, read the graph again) and hands the result
//! back; the machine decides what comes next.
use vstd::prelude::*;

use crate::graph::{
    copy_entry, entry_of, fresh_among, prioritized, subject, CrateState, DependencyEdge, EngineError,
    FreshEntry, GraphNode, ReleaseAge, Snapshot,
};
use crate::registry::VersionMeta;
use crate::resolver::{
    blocker_views, blockers_of, filter_candidates, filtered, old_enough, parse_blockers, Blocker,
    BlockerView, Candidate, PinOutcome,
};
use crate::semver_rules::{is_older, meets_all, older_than, satisfies_requirements};
use crate::text::views;

verus! {

/// Queue steps allowed per node that takes part in the cooldown, on one
/// pass over the graph; also the number of passes allowed per such node.
pub const STEPS_PER_NODE: u64 = 8;

/// What the caller is to do next.
#[derive(Debug, Clone)]
pub enum Action {
    /// List every published version of the package.
    ListVersions { name: String },
    /// Ask the resolver to move the package from `current` to `target`.
    Pin { name: String, current: String, target: String },
    /// A pin took effect: read the graph again and start a new pass.
    Reload,
    /// Give up.
    Stop(EngineError),
}

/// What the registry answered to a request for a package's versions.
#[derive(Debug, Clone)]
pub enum VersionsEvent {
    Listed(Vec<VersionMeta>),
    Unavailable,
}

/// What came of a request to the resolver.
#[derive(Debug, Clone)]
pub enum PinEvent {
    Answered(PinOutcome),
    /// The resolver could not be run.
    Failed,
}

/// The queue of one pass. The front of the queue is its first element.
#[derive(Debug)]
pub struct Round {
    pub queue: Vec<FreshEntry>,
    /// The entry being handled, if any.
    pub current: Option<FreshEntry>,
    /// The candidates of `current` not yet tried, newest first.
    pub candidates: Vec<Candidate>,
    /// Queue steps left before the pass gives up.
    pub steps_left: u64,
    /// The instant of the pass, in microseconds since the Unix epoch.
    pub now: i64,
}

pub struct RoundView {
    pub queue: Seq<FreshEntry>,
    pub current: Option<FreshEntry>,
    pub candidates: Seq<Candidate>,
    pub steps_left: u64,
    pub now: i64,
}

impl View for Round {
    type V = RoundView;

    open spec fn view(&self) -> RoundView {
        RoundView {
            queue: self.queue@,
            current: self.current,
            candidates: self.candidates@,
            steps_left: self.steps_left,
            now: self.now,
        }
    }
}

/// Takes the front of the queue as the current entry, unless the queue is
/// empty or the step budget spent.
pub open spec fn take_next(r: RoundView) -> (RoundView, Action) {
    if r.steps_left == 0 || r.queue.len() == 0 {
        (RoundView { current: None, candidates: Seq::empty(), ..r }, Action::Stop(EngineError::NoProgress))
    } else {
        (
            RoundView {
                queue: r.queue.drop_first(),
                current: Some(r.queue[0]),
                candidates: Seq::empty(),
                steps_left: (r.steps_left - 1) as u64,
                now: r.now,
            },
            Action::ListVersions { name: r.queue[0].name },
        )
    }
}

/// Puts the current entry back at the end of the queue and takes the next.
pub open spec fn requeue(r: RoundView) -> (RoundView, Action) {
    take_next(RoundView { queue: r.queue.push(r.current->0), ..r })
}

/// `entries` pushed one by one to the front of `q`: the last ends first.
pub open spec fn push_fronts(q: Seq<FreshEntry>, entries: Seq<FreshEntry>) -> Seq<FreshEntry>
    decreases entries.len(),
{
    if entries.len() == 0 {
        q
    } else {
        seq![entries.last()] + push_fronts(q, entries.drop_last())
    }
}

/// An edge recorded for `child`: both ends exist and are from allowed
/// registries.
pub open spec fn into_node(states: Seq<Option<CrateState>>, e: DependencyEdge, child: usize) -> bool {
    crate::graph::recorded(states, e) && e.child == child
}

/// The requirements that recorded edges place on `child`, in edge order.
pub open spec fn requirements_on(states: Seq<Option<CrateState>>, edges: Seq<DependencyEdge>, child: usize) -> Seq<Seq<char>>
    decreases edges.len(),
{
    if edges.len() == 0 {
        Seq::empty()
    } else {
        let prev = requirements_on(states, edges.drop_last(), child);
        if into_node(states, edges.last(), child) {
            prev.push(edges.last().requirement@)
        } else {
            prev
        }
    }
}

/// The distinct `(parent, requirement)` pairs of the recorded edges into
/// `child`, in the order of their first edge.
pub open spec fn origins_of(states: Seq<Option<CrateState>>, edges: Seq<DependencyEdge>, child: usize) -> Seq<(usize, Seq<char>)>
    decreases edges.len(),
{
    if edges.len() == 0 {
        Seq::empty()
    } else {
        let prev = origins_of(states, edges.drop_last(), child);
        let e = edges.last();
        if into_node(states, e, child) && !prev.contains((e.parent, e.requirement@)) {
            prev.push((e.parent, e.requirement@))
        } else {
            prev
        }
    }
}

/// The entries of the parents that impose a requirement on a node and
/// that take part in the cooldown themselves, one per origin, in order.
pub open spec fn parent_entries(states: Seq<Option<CrateState>>, origins: Seq<(usize, Seq<char>)>) -> Seq<FreshEntry>
    decreases origins.len(),
{
    if origins.len() == 0 {
        Seq::empty()
    } else {
        let prev = parent_entries(states, origins.drop_last());
        let p = origins.last().0 as int;
        if subject(states[p]) {
            prev.push(entry_of(p, states[p]->0))
        } else {
            prev
        }
    }
}

/// The candidates that meet every requirement on the node and are older
/// than its current release, in order.
pub open spec fn acceptable(cands: Seq<Candidate>, reqs: Seq<Seq<char>>, current: Seq<char>) -> Seq<Candidate>
    decreases cands.len(),
{
    if cands.len() == 0 {
        Seq::empty()
    } else {
        let prev = acceptable(cands.drop_last(), reqs, current);
        let c = cands.last();
        if meets_all(c.version@, reqs) && older_than(c.version@, current) {
            prev.push(c)
        } else {
            prev
        }
    }
}

/// The first candidate whose version differs from the current one.
pub open spec fn first_other(cands: Seq<Candidate>, current: Seq<char>, i: int) -> Option<int>
    decreases cands.len() - i,
{
    if i >= cands.len() {
        None
    } else if cands[i].version@ != current {
        Some(i)
    } else {
        first_other(cands, current, i + 1)
    }
}

/// Tries the next candidate of the current entry, or gives up on it when
/// none is left.
pub open spec fn try_next_candidate(r: RoundView) -> (RoundView, Action) {
    let cur = r.current->0;
    match first_other(r.candidates, cur.current_version@, 0) {
        Some(k) => (
            RoundView { candidates: r.candidates.subrange(k + 1, r.candidates.len() as int), ..r },
            Action::Pin {
                name: cur.name,
                current: cur.current_version,
                target: r.candidates[k].version,
            },
        ),
        None => (
            RoundView { candidates: Seq::empty(), ..r },
            Action::Stop(
                EngineError::CandidatesExhausted { name: cur.name, minimum_minutes: cur.minimum_minutes },
            ),
        ),
    }
}

/// The first node with this name and version.
pub open spec fn node_named(nodes: Seq<GraphNode>, name: Seq<char>, version: Seq<char>, i: int) -> Option<int>
    decreases nodes.len() - i,
{
    if i >= nodes.len() || i < 0 {
        None
    } else if nodes[i].name@ == name && nodes[i].version@ == version {
        Some(i)
    } else {
        node_named(nodes, name, version, i + 1)
    }
}

/// The first node from an allowed registry with this name.
pub open spec fn state_named(states: Seq<Option<CrateState>>, name: Seq<char>, i: int) -> Option<int>
    decreases states.len() - i,
{
    if i >= states.len() || i < 0 {
        None
    } else if states[i] is Some && states[i]->0.name@ == name {
        Some(i)
    } else {
        state_named(states, name, i + 1)
    }
}

/// The node that a blocker names: the node of that name and version, or
/// else the first allowed node of that name.
pub open spec fn blocker_node(nodes: Seq<GraphNode>, states: Seq<Option<CrateState>>, b: BlockerView) -> Option<int> {
    match b.1 {
        Some(v) => match node_named(nodes, b.0, v, 0) {
            Some(i) => Some(i),
            None => state_named(states, b.0, 0),
        },
        None => state_named(states, b.0, 0),
    }
}

/// The entries of the blockers that name a node that takes part in the
/// cooldown, in the order of the blockers.
pub open spec fn blocker_entries(nodes: Seq<GraphNode>, states: Seq<Option<CrateState>>, bs: Seq<BlockerView>) -> Seq<FreshEntry>
    decreases bs.len(),
{
    if bs.len() == 0 {
        Seq::empty()
    } else {
        let prev = blocker_entries(nodes, states, bs.drop_last());
        match blocker_node(nodes, states, bs.last()) {
            Some(i) => if 0 <= i < states.len() && subject(states[i]) {
                prev.push(entry_of(i, states[i]->0))
            } else {
                prev
            },
            None => prev,
        }
    }
}

impl Snapshot {
    pub open spec fn spec_requirements(&self, child: usize) -> Seq<Seq<char>> {
        requirements_on(self.states@, self.graph.edges@, child)
    }

    pub open spec fn spec_parents(&self, child: usize) -> Seq<FreshEntry> {
        parent_entries(self.states@, origins_of(self.states@, self.graph.edges@, child))
    }

    /// An entry of the queue: a node that takes part in the cooldown, as
    /// its state describes it.
    pub open spec fn valid_entry(&self, e: FreshEntry) -> bool {
        e.node < self.states@.len() && subject(self.states@[e.node as int]) && e == entry_of(
            e.node as int,
            self.states@[e.node as int]->0,
        )
    }
}

/// What the machine does with a version list, as a function of the pass.
pub open spec fn after_versions(
    snap: Snapshot,
    r: RoundView,
    listed: Option<Seq<VersionMeta>>,
) -> (RoundView, Action) {
    let cur = r.current->0;
    match listed {
        None => if snap.offline_ok {
            requeue(r)
        } else {
            (
                RoundView { current: None, candidates: Seq::empty(), ..r },
                Action::Stop(EngineError::RegistryUnavailable { name: cur.name }),
            )
        },
        Some(list) => {
            let cands = acceptable(
                filtered(list, cur.minimum_minutes, r.now),
                snap.spec_requirements(cur.node),
                cur.current_version@,
            );
            if cands.len() == 0 {
                let parents = snap.spec_parents(cur.node);
                if parents.len() > 0 {
                    requeue(RoundView { queue: push_fronts(r.queue, parents), ..r })
                } else {
                    (
                        RoundView { current: None, candidates: Seq::empty(), ..r },
                        Action::Stop(
                            EngineError::NoAcceptableVersion {
                                name: cur.name,
                                minimum_minutes: cur.minimum_minutes,
                            },
                        ),
                    )
                }
            } else {
                try_next_candidate(RoundView { candidates: cands, ..r })
            }
        },
    }
}

/// What the machine does with the resolver's answer.
pub open spec fn after_pin(snap: Snapshot, r: RoundView, answer: Option<(Seq<char>, Seq<char>)>, applied: bool) -> (RoundView, Action) {
    let cur = r.current->0;
    if applied {
        (r, Action::Reload)
    } else {
        match answer {
            Some((out, err)) => {
                let bs = blockers_of(out, err);
                if bs.len() == 0 {
                    try_next_candidate(r)
                } else {
                    requeue(
                        RoundView {
                            queue: push_fronts(
                                r.queue,
                                blocker_entries(snap.graph.nodes@, snap.states@, bs),
                            ),
                            ..r
                        },
                    )
                }
            },
            None => if snap.offline_ok {
                requeue(r)
            } else {
                (
                    RoundView { current: None, candidates: Seq::empty(), ..r },
                    Action::Stop(EngineError::ResolverUnavailable { name: cur.name }),
                )
            },
        }
    }
}

fn same_origin(o: &(usize, String), parent: usize, req: &String) -> (r: bool)
    ensures
        r == ((o.0, o.1@) == (parent, req@)),
{
    o.0 == parent && o.1 == *req
}

fn has_origin(list: &Vec<(usize, String)>, parent: usize, req: &String) -> (r: bool)
    ensures
        r == origin_views(list@).contains((parent, req@)),
{
    let ghost lv = origin_views(list@);
    let mut i: usize = 0;
    while i < list.len()
        invariant
            lv == origin_views(list@),
            i <= list@.len(),
            forall|j: int| 0 <= j < i ==> lv[j] != (parent, req@),
        decreases list@.len() - i,
    {
        if same_origin(&list[i], parent, req) {
            assert(lv[i as int] == (parent, req@));
            return true;
        }
        i = i + 1;
    }
    false
}

proof fn lemma_origins_in_range(states: Seq<Option<CrateState>>, edges: Seq<DependencyEdge>, child: usize)
    ensures
        forall|m: int|
            0 <= m < origins_of(states, edges, child).len() ==> (#[trigger] origins_of(states, edges, child)[m]).0
                < states.len(),
    decreases edges.len(),
{
    if edges.len() > 0 {
        let prev = origins_of(states, edges.drop_last(), child);
        lemma_origins_in_range(states, edges.drop_last(), child);
        assert forall|m: int| 0 <= m < origins_of(states, edges, child).len() implies (
        #[trigger] origins_of(states, edges, child)[m]).0 < states.len() by {
            if m < prev.len() {
                assert(origins_of(states, edges, child)[m] == prev[m]);
            }
        }
    }
}

pub open spec fn origin_views(s: Seq<(usize, String)>) -> Seq<(usize, Seq<char>)> {
    s.map_values(|o: (usize, String)| (o.0, o.1@))
}

impl Snapshot {
    fn is_into(&self, e: &DependencyEdge, child: usize) -> (r: bool)
        ensures
            r == into_node(self.states@, *e, child),
    {
        e.child == child && e.parent < self.states.len() && e.child < self.states.len()
            && self.states[e.parent].is_some() && self.states[e.child].is_some()
    }

    /// The requirements that recorded edges place on `child`.
    pub fn requirements(&self, child: usize) -> (r: Vec<String>)
        ensures
            views(r@) == self.spec_requirements(child),
    {
        let edges = &self.graph.edges;
        let mut out: Vec<String> = Vec::new();
        let mut i: usize = 0;
        while i < edges.len()
            invariant
                edges == &self.graph.edges,
                i <= edges@.len(),
                views(out@) == requirements_on(self.states@, edges@.subrange(0, i as int), child),
            decreases edges@.len() - i,
        {
            assert(edges@.subrange(0, i + 1).drop_last() =~= edges@.subrange(0, i as int));
            if self.is_into(&edges[i], child) {
                out.push(edges[i].requirement.clone());
                assert(views(out@) =~= requirements_on(self.states@, edges@.subrange(0, i + 1), child));
            }
            i = i + 1;
        }
        assert(edges@.subrange(0, edges@.len() as int) =~= edges@);
        out
    }

    /// The entries of the parents that constrain `child` and take part in
    /// the cooldown, one per distinct `(parent, requirement)` pair.
    pub fn parents(&self, child: usize) -> (r: Vec<FreshEntry>)
        ensures
            r@ == self.spec_parents(child),
    {
        let edges = &self.graph.edges;
        let mut origins: Vec<(usize, String)> = Vec::new();
        let mut i: usize = 0;
        while i < edges.len()
            invariant
                edges == &self.graph.edges,
                i <= edges@.len(),
                origin_views(origins@) == origins_of(self.states@, edges@.subrange(0, i as int), child),
            decreases edges@.len() - i,
        {
            let e = &edges[i];
            assert(edges@.subrange(0, i + 1).drop_last() =~= edges@.subrange(0, i as int));
            if self.is_into(e, child) && !has_origin(&origins, e.parent, &e.requirement) {
                origins.push((e.parent, e.requirement.clone()));
                assert(origin_views(origins@) =~= origins_of(self.states@, edges@.subrange(0, i + 1), child));
            }
            i = i + 1;
        }
        assert(edges@.subrange(0, edges@.len() as int) =~= edges@);
        let ghost ov = origin_views(origins@);
        proof {
            lemma_origins_in_range(self.states@, self.graph.edges@, child);
        }
        let mut out: Vec<FreshEntry> = Vec::new();
        let mut k: usize = 0;
        while k < origins.len()
            invariant
                ov == origin_views(origins@),
                ov == origins_of(self.states@, self.graph.edges@, child),
                forall|m: int| 0 <= m < ov.len() ==> (#[trigger] ov[m]).0 < self.states@.len(),
                k <= origins@.len(),
                out@ == parent_entries(self.states@, ov.subrange(0, k as int)),
            decreases origins@.len() - k,
        {
            let p = origins[k].0;
            assert(ov[k as int].0 == p);
            assert(ov.subrange(0, k + 1).drop_last() =~= ov.subrange(0, k as int));
            match &self.states[p] {
                Some(st) => {
                    if !st.exact_allowed && st.minimum_minutes > 0 {
                        out.push(
                            FreshEntry {
                                node: p,
                                name: st.name.clone(),
                                current_version: st.current_version.clone(),
                                minimum_minutes: st.minimum_minutes,
                            },
                        );
                    }
                },
                None => {},
            }
            k = k + 1;
        }
        assert(ov.subrange(0, origins@.len() as int) =~= ov);
        out
    }
}

impl Snapshot {
    fn find_node(&self, name: &String, version: &String) -> (r: Option<usize>)
        ensures
            match r {
                Some(i) => node_named(self.graph.nodes@, name@, version@, 0) == Some(i as int),
                None => node_named(self.graph.nodes@, name@, version@, 0) is None,
            },
    {
        let nodes = &self.graph.nodes;
        let mut i: usize = 0;
        while i < nodes.len()
            invariant
                nodes == &self.graph.nodes,
                i <= nodes@.len(),
                node_named(nodes@, name@, version@, 0) == node_named(nodes@, name@, version@, i as int),
            decreases nodes@.len() - i,
        {
            if nodes[i].name == *name && nodes[i].version == *version {
                return Some(i);
            }
            i = i + 1;
        }
        None
    }

    fn find_state(&self, name: &String) -> (r: Option<usize>)
        ensures
            match r {
                Some(i) => state_named(self.states@, name@, 0) == Some(i as int),
                None => state_named(self.states@, name@, 0) is None,
            },
    {
        let mut i: usize = 0;
        while i < self.states.len()
            invariant
                i <= self.states@.len(),
                state_named(self.states@, name@, 0) == state_named(self.states@, name@, i as int),
            decreases self.states@.len() - i,
        {
            let hit = match &self.states[i] {
                Some(st) => st.name == *name,
                None => false,
            };
            if hit {
                return Some(i);
            }
            i = i + 1;
        }
        None
    }

    /// The node that a blocker names.
    fn blocker_target(&self, b: &Blocker) -> (r: Option<usize>)
        ensures
            match r {
                Some(i) => blocker_node(self.graph.nodes@, self.states@, crate::resolver::blocker_view(*b))
                    == Some(i as int),
                None => blocker_node(self.graph.nodes@, self.states@, crate::resolver::blocker_view(*b)) is None,
            },
    {
        match &b.version {
            Some(v) => match self.find_node(&b.name, v) {
                Some(i) => Some(i),
                None => self.find_state(&b.name),
            },
            None => self.find_state(&b.name),
        }
    }

    /// The entries of the blockers that name a node taking part in the
    /// cooldown.
    pub fn blocker_targets(&self, bs: &Vec<Blocker>) -> (r: Vec<FreshEntry>)
        ensures
            r@ == blocker_entries(self.graph.nodes@, self.states@, blocker_views(bs@)),
    {
        let ghost bv = blocker_views(bs@);
        let mut out: Vec<FreshEntry> = Vec::new();
        let mut i: usize = 0;
        while i < bs.len()
            invariant
                bv == blocker_views(bs@),
                i <= bs@.len(),
                out@ == blocker_entries(self.graph.nodes@, self.states@, bv.subrange(0, i as int)),
            decreases bs@.len() - i,
        {
            assert(bv.subrange(0, i + 1).drop_last() =~= bv.subrange(0, i as int));
            assert(bv.subrange(0, i + 1).last() == crate::resolver::blocker_view(bs@[i as int]));
            match self.blocker_target(&bs[i]) {
                Some(n) => {
                    if n < self.states.len() {
                        match &self.states[n] {
                            Some(st) => {
                                if !st.exact_allowed && st.minimum_minutes > 0 {
                                    out.push(
                                        FreshEntry {
                                            node: n,
                                            name: st.name.clone(),
                                            current_version: st.current_version.clone(),
                                            minimum_minutes: st.minimum_minutes,
                                        },
                                    );
                                }
                            },
                            None => {},
                        }
                    }
                },
                None => {},
            }
            i = i + 1;
        }
        assert(bv.subrange(0, bs@.len() as int) =~= bv);
        out
    }

    /// The releases that may replace the entry's: not yanked, old enough,
    /// meeting every requirement on the node and older than its current
    /// release; newest first.
    pub fn select_candidates(&self, list: Vec<VersionMeta>, entry: &FreshEntry, now: i64) -> (r: Vec<Candidate>)
        ensures
            r@ == acceptable(
                filtered(list@, entry.minimum_minutes, now),
                self.spec_requirements(entry.node),
                entry.current_version@,
            ),
    {
        let reqs = self.requirements(entry.node);
        let all = filter_candidates(list, entry.minimum_minutes, now);
        let ghost rv = views(reqs@);
        let mut out: Vec<Candidate> = Vec::new();
        let mut i: usize = 0;
        while i < all.len()
            invariant
                rv == views(reqs@),
                rv == self.spec_requirements(entry.node),
                i <= all@.len(),
                out@ == acceptable(all@.subrange(0, i as int), rv, entry.current_version@),
            decreases all@.len() - i,
        {
            let c = &all[i];
            assert(all@.subrange(0, i + 1).drop_last() =~= all@.subrange(0, i as int));
            if satisfies_requirements(c.version.as_str(), &reqs) && is_older(
                c.version.as_str(),
                entry.current_version.as_str(),
            ) {
                out.push(Candidate { version: c.version.clone(), created_at: c.created_at });
            }
            i = i + 1;
        }
        assert(all@.subrange(0, all@.len() as int) =~= all@);
        out
    }
}

/// The queue steps allowed on a pass over a graph with `subjects` nodes
/// that take part in the cooldown.
pub open spec fn step_budget(subjects: usize) -> u64 {
    if subjects as int + 1 > u64::MAX as int / STEPS_PER_NODE as int {
        u64::MAX
    } else {
        ((subjects as int + 1) * STEPS_PER_NODE as int) as u64
    }
}

/// The step budget of a pass over a graph with `subjects` nodes that take
/// part in the cooldown; the same bound caps the number of passes.
pub fn budget_for(subjects: usize) -> (r: u64)
    ensures
        r == step_budget(subjects),
        r >= STEPS_PER_NODE,
{
    let n = subjects as u64;
    if n >= u64::MAX / STEPS_PER_NODE {
        u64::MAX
    } else {
        (n + 1) * STEPS_PER_NODE
    }
}

impl Round {
    /// A pass over the ordered fresh entries of a graph with `subjects`
    /// nodes that take part in the cooldown, at instant `now`.
    pub fn new(entries: Vec<FreshEntry>, subjects: usize, now: i64) -> (r: Round)
        ensures
            r@ == (RoundView {
                queue: entries@,
                current: None,
                candidates: Seq::empty(),
                steps_left: step_budget(subjects),
                now,
            }),
    {
        let r = Round { queue: entries, current: None, candidates: Vec::new(), steps_left: budget_for(subjects), now };
        assert(r@.candidates =~= Seq::<Candidate>::empty());
        r
    }

    fn take(&mut self) -> (r: Action)
        ensures
            (final(self)@, r) == take_next(old(self)@),
    {
        if self.steps_left == 0 || self.queue.len() == 0 {
            self.current = None;
            self.candidates = Vec::new();
            assert(self@.candidates =~= Seq::<Candidate>::empty());
            return Action::Stop(EngineError::NoProgress);
        }
        let e = self.queue.remove(0);
        assert(old(self)@.queue.remove(0) =~= old(self)@.queue.drop_first());
        let name = e.name.clone();
        self.current = Some(e);
        self.candidates = Vec::new();
        self.steps_left = self.steps_left - 1;
        assert(self@.candidates =~= Seq::<Candidate>::empty());
        Action::ListVersions { name }
    }

    fn requeue_current(&mut self) -> (r: Action)
        requires
            old(self).current is Some,
        ensures
            (final(self)@, r) == requeue(old(self)@),
    {
        match &self.current {
            Some(e) => {
                let c = copy_entry(e);
                self.queue.push(c);
            },
            None => {},
        }
        self.take()
    }

    fn push_fronts(&mut self, entries: Vec<FreshEntry>)
        ensures
            final(self)@ == (RoundView { queue: push_fronts(old(self)@.queue, entries@), ..old(self)@ }),
    {
        let mut i: usize = 0;
        let ghost q0 = self.queue@;
        while i < entries.len()
            invariant
                i <= entries@.len(),
                self.queue@ == push_fronts(q0, entries@.subrange(0, i as int)),
                self.current == old(self).current,
                self.candidates@ == old(self).candidates@,
                self.steps_left == old(self).steps_left,
                self.now == old(self).now,
                q0 == old(self)@.queue,
            decreases entries@.len() - i,
        {
            let e = copy_entry(&entries[i]);
            assert(entries@.subrange(0, i + 1).drop_last() =~= entries@.subrange(0, i as int));
            let ghost before = self.queue@;
            self.queue.insert(0, e);
            assert(self.queue@ =~= seq![e] + before);
            i = i + 1;
        }
        assert(entries@.subrange(0, entries@.len() as int) =~= entries@);
    }

    fn next_candidate(&mut self) -> (r: Action)
        requires
            old(self).current is Some,
        ensures
            (final(self)@, r) == try_next_candidate(old(self)@),
    {
        let cur = copy_entry(self.current.as_ref().unwrap());
        let ghost cands = self.candidates@;
        let mut k: usize = 0;
        while k < self.candidates.len() && self.candidates[k].version == cur.current_version
            invariant
                cands == self.candidates@,
                k <= cands.len(),
                first_other(cands, cur.current_version@, 0) == first_other(cands, cur.current_version@, k as int),
            decreases cands.len() - k,
        {
            k = k + 1;
        }
        if k >= self.candidates.len() {
            self.candidates = Vec::new();
            assert(self@.candidates =~= Seq::<Candidate>::empty());
            return Action::Stop(
                EngineError::CandidatesExhausted { name: cur.name, minimum_minutes: cur.minimum_minutes },
            );
        }
        let target = self.candidates[k].version.clone();
        let mut rest: Vec<Candidate> = Vec::new();
        let mut j: usize = k + 1;
        while j < self.candidates.len()
            invariant
                cands == self.candidates@,
                k < j <= cands.len(),
                rest@ == cands.subrange(k + 1, j as int),
            decreases cands.len() - j,
        {
            let c = &self.candidates[j];
            rest.push(Candidate { version: c.version.clone(), created_at: c.created_at });
            assert(rest@ =~= cands.subrange(k + 1, j + 1));
            j = j + 1;
        }
        self.candidates = rest;
        Action::Pin { name: cur.name, current: cur.current_version, target }
    }

    /// Starts the pass: takes the first entry.
    pub fn start(&mut self) -> (r: Action)
        ensures
            (final(self)@, r) == take_next(old(self)@),
    {
        self.take()
    }

    /// Goes on with the version list of the current entry's package, or
    /// with the registry's failure to give one.
    pub fn on_versions(&mut self, snap: &Snapshot, event: VersionsEvent) -> (r: Action)
        requires
            old(self).current is Some,
        ensures
            (final(self)@, r) == after_versions(
                *snap,
                old(self)@,
                match event {
                    VersionsEvent::Listed(v) => Some(v@),
                    VersionsEvent::Unavailable => None,
                },
            ),
    {
        let cur = copy_entry(self.current.as_ref().unwrap());
        match event {
            VersionsEvent::Unavailable => {
                if snap.offline_ok {
                    self.requeue_current()
                } else {
                    self.current = None;
                    self.candidates = Vec::new();
                    assert(self@.candidates =~= Seq::<Candidate>::empty());
                    Action::Stop(EngineError::RegistryUnavailable { name: cur.name })
                }
            },
            VersionsEvent::Listed(list) => {
                let cands = snap.select_candidates(list, &cur, self.now);
                if cands.len() == 0 {
                    let parents = snap.parents(cur.node);
                    if parents.len() > 0 {
                        self.push_fronts(parents);
                        self.requeue_current()
                    } else {
                        self.current = None;
                        self.candidates = Vec::new();
                        assert(self@.candidates =~= Seq::<Candidate>::empty());
                        Action::Stop(
                            EngineError::NoAcceptableVersion {
                                name: cur.name,
                                minimum_minutes: cur.minimum_minutes,
                            },
                        )
                    }
                } else {
                    self.candidates = cands;
                    self.next_candidate()
                }
            },
        }
    }

    /// Goes on with the resolver's answer to the last pin request.
    pub fn on_pin(&mut self, snap: &Snapshot, event: PinEvent) -> (r: Action)
        requires
            old(self).current is Some,
        ensures
            (final(self)@, r) == after_pin(
                *snap,
                old(self)@,
                match event {
                    PinEvent::Answered(PinOutcome::Rejected { stdout, stderr }) => Some((stdout@, stderr@)),
                    _ => None,
                },
                event matches PinEvent::Answered(PinOutcome::Applied),
            ),
    {
        let cur = copy_entry(self.current.as_ref().unwrap());
        match event {
            PinEvent::Answered(PinOutcome::Applied) => Action::Reload,
            PinEvent::Answered(PinOutcome::Rejected { stdout, stderr }) => {
                let bs = parse_blockers(stdout.as_str(), stderr.as_str());
                if bs.len() == 0 {
                    self.next_candidate()
                } else {
                    let targets = snap.blocker_targets(&bs);
                    self.push_fronts(targets);
                    self.requeue_current()
                }
            },
            PinEvent::Failed => {
                if snap.offline_ok {
                    self.requeue_current()
                } else {
                    self.current = None;
                    self.candidates = Vec::new();
                    assert(self@.candidates =~= Seq::<Candidate>::empty());
                    Action::Stop(EngineError::ResolverUnavailable { name: cur.name })
                }
            },
        }
    }
}

/// Starts a pass over the ordered fresh entries, or reports, with `None`,
/// that nothing is fresh and the graph has cooled down.
pub fn plan_round(entries: Vec<FreshEntry>, subjects: usize, now: i64) -> (r: Option<Round>)
    ensures
        r is None <==> entries@.len() == 0,
        r is Some ==> r->0@ == (RoundView {
            queue: entries@,
            current: None,
            candidates: Seq::empty(),
            steps_left: step_budget(subjects),
            now,
        }),
{
    if entries.len() == 0 {
        None
    } else {
        Some(Round::new(entries, subjects, now))
    }
}

/// Whether another pass over the graph may start after `passes_done`
/// passes, on a graph with `subjects` nodes that take part in the cooldown.
pub fn pass_allowed(passes_done: u64, subjects: usize) -> (r: bool)
    ensures
        r == (passes_done < step_budget(subjects)),
{
    passes_done < budget_for(subjects)
}

/// A round whose entries all stand for nodes that take part in the
/// cooldown, and whose untried candidates all meet every requirement on
/// the current node, are old enough and are older than its release.
pub open spec fn round_valid(snap: Snapshot, r: RoundView) -> bool {
    &&& forall|i: int| 0 <= i < r.queue.len() ==> snap.valid_entry(#[trigger] r.queue[i])
    &&& (r.current is Some ==> snap.valid_entry(r.current->0))
    &&& (r.current is None ==> r.candidates.len() == 0)
    &&& forall|i: int|
        0 <= i < r.candidates.len() ==> candidate_fits(snap, r.current->0, #[trigger] r.candidates[i], r.now)
}

pub open spec fn candidate_fits(snap: Snapshot, cur: FreshEntry, c: Candidate, now: i64) -> bool {
    &&& meets_all(c.version@, snap.spec_requirements(cur.node))
    &&& old_enough(c.created_at, cur.minimum_minutes, now)
    &&& older_than(c.version@, cur.current_version@)
}

/// The pin that an action asks for is of the current entry, to one of its
/// untried candidates.
pub open spec fn pin_from(r: RoundView, a: Action) -> bool {
    match a {
        Action::Pin { name, current, target } => r.current is Some && name == r.current->0.name
            && current == r.current->0.current_version && exists|k: int|
            0 <= k < r.candidates.len() && #[trigger] r.candidates[k].version == target,
        _ => true,
    }
}

proof fn lemma_take_valid(snap: Snapshot, r: RoundView)
    requires
        forall|i: int| 0 <= i < r.queue.len() ==> snap.valid_entry(#[trigger] r.queue[i]),
    ensures
        round_valid(snap, take_next(r).0),
{
    if !(r.steps_left == 0 || r.queue.len() == 0) {
        assert(snap.valid_entry(r.queue[0]));
        assert forall|i: int| 0 <= i < r.queue.drop_first().len() implies snap.valid_entry(
            #[trigger] r.queue.drop_first()[i],
        ) by {
            assert(r.queue.drop_first()[i] == r.queue[i + 1]);
        }
    }
}

proof fn lemma_push_fronts_valid(snap: Snapshot, q: Seq<FreshEntry>, es: Seq<FreshEntry>)
    requires
        forall|i: int| 0 <= i < q.len() ==> snap.valid_entry(#[trigger] q[i]),
        forall|i: int| 0 <= i < es.len() ==> snap.valid_entry(#[trigger] es[i]),
    ensures
        forall|i: int| 0 <= i < push_fronts(q, es).len() ==> snap.valid_entry(#[trigger] push_fronts(q, es)[i]),
    decreases es.len(),
{
    if es.len() > 0 {
        let rest = push_fronts(q, es.drop_last());
        lemma_push_fronts_valid(snap, q, es.drop_last());
        assert(snap.valid_entry(es[es.len() - 1]));
        assert forall|i: int| 0 <= i < push_fronts(q, es).len() implies snap.valid_entry(
            #[trigger] push_fronts(q, es)[i],
        ) by {
            if i > 0 {
                assert(push_fronts(q, es)[i] == rest[i - 1]);
            }
        }
    }
}

proof fn lemma_requeue_valid(snap: Snapshot, r: RoundView)
    requires
        forall|i: int| 0 <= i < r.queue.len() ==> snap.valid_entry(#[trigger] r.queue[i]),
        r.current is Some,
        snap.valid_entry(r.current->0),
    ensures
        round_valid(snap, requeue(r).0),
{
    let q = r.queue.push(r.current->0);
    assert forall|i: int| 0 <= i < q.len() implies snap.valid_entry(#[trigger] q[i]) by {}
    lemma_take_valid(snap, RoundView { queue: q, ..r });
}

proof fn lemma_parents_valid(snap: Snapshot, origins: Seq<(usize, Seq<char>)>)
    requires
        forall|m: int| 0 <= m < origins.len() ==> (#[trigger] origins[m]).0 < snap.states@.len(),
    ensures
        forall|i: int|
            0 <= i < parent_entries(snap.states@, origins).len() ==> snap.valid_entry(
                #[trigger] parent_entries(snap.states@, origins)[i],
            ),
    decreases origins.len(),
{
    if origins.len() > 0 {
        let prev = parent_entries(snap.states@, origins.drop_last());
        lemma_parents_valid(snap, origins.drop_last());
        assert(origins[origins.len() - 1].0 < snap.states@.len());
        assert forall|i: int| 0 <= i < parent_entries(snap.states@, origins).len() implies snap.valid_entry(
            #[trigger] parent_entries(snap.states@, origins)[i],
        ) by {
            if i < prev.len() {
                assert(parent_entries(snap.states@, origins)[i] == prev[i]);
            }
        }
    }
}

proof fn lemma_blockers_valid(snap: Snapshot, bs: Seq<BlockerView>)
    ensures
        forall|i: int|
            0 <= i < blocker_entries(snap.graph.nodes@, snap.states@, bs).len() ==> snap.valid_entry(
                #[trigger] blocker_entries(snap.graph.nodes@, snap.states@, bs)[i],
            ),
    decreases bs.len(),
{
    if bs.len() > 0 {
        assert(snap.states.len() == snap.states@.len());
        let prev = blocker_entries(snap.graph.nodes@, snap.states@, bs.drop_last());
        lemma_blockers_valid(snap, bs.drop_last());
        assert forall|i: int|
            0 <= i < blocker_entries(snap.graph.nodes@, snap.states@, bs).len() implies snap.valid_entry(
            #[trigger] blocker_entries(snap.graph.nodes@, snap.states@, bs)[i],
        ) by {
            if i < prev.len() {
                assert(blocker_entries(snap.graph.nodes@, snap.states@, bs)[i] == prev[i]);
            }
        }
    }
}

proof fn lemma_acceptable_fits(snap: Snapshot, cur: FreshEntry, cands: Seq<Candidate>, now: i64)
    requires
        forall|i: int| 0 <= i < cands.len() ==> old_enough(#[trigger] cands[i].created_at, cur.minimum_minutes, now),
    ensures
        forall|i: int|
            0 <= i < acceptable(cands, snap.spec_requirements(cur.node), cur.current_version@).len()
                ==> candidate_fits(
                snap,
                cur,
                #[trigger] acceptable(cands, snap.spec_requirements(cur.node), cur.current_version@)[i],
                now,
            ),
    decreases cands.len(),
{
    if cands.len() > 0 {
        let reqs = snap.spec_requirements(cur.node);
        let prev = acceptable(cands.drop_last(), reqs, cur.current_version@);
        lemma_acceptable_fits(snap, cur, cands.drop_last(), now);
        assert(old_enough(cands[cands.len() - 1].created_at, cur.minimum_minutes, now));
        assert forall|i: int| 0 <= i < acceptable(cands, reqs, cur.current_version@).len() implies candidate_fits(
            snap,
            cur,
            #[trigger] acceptable(cands, reqs, cur.current_version@)[i],
            now,
        ) by {
            if i < prev.len() {
                assert(acceptable(cands, reqs, cur.current_version@)[i] == prev[i]);
            }
        }
    }
}

proof fn lemma_first_other(cands: Seq<Candidate>, current: Seq<char>, i: int)
    requires
        0 <= i,
    ensures
        match first_other(cands, current, i) {
            Some(k) => i <= k < cands.len(),
            None => true,
        },
    decreases cands.len() - i,
{
    if i < cands.len() && cands[i].version@ == current {
        lemma_first_other(cands, current, i + 1);
    }
}

proof fn lemma_try_next_valid(snap: Snapshot, r: RoundView)
    requires
        round_valid(snap, r),
        r.current is Some,
    ensures
        round_valid(snap, try_next_candidate(r).0),
        pin_from(r, try_next_candidate(r).1),
{
    let cur = r.current->0;
    lemma_first_other(r.candidates, cur.current_version@, 0);
    match first_other(r.candidates, cur.current_version@, 0) {
        Some(k) => {
            let rest = r.candidates.subrange(k + 1, r.candidates.len() as int);
            assert forall|i: int| 0 <= i < rest.len() implies candidate_fits(snap, cur, #[trigger] rest[i], r.now) by {
                assert(rest[i] == r.candidates[k + 1 + i]);
            }
        },
        None => {},
    }
}

/// Each step of a pass keeps the round valid: every queued or current entry
/// stands for a node from an allowed registry that is not exempt and has a
/// minimum age above zero, so no other node is ever asked to move; and
/// every pin requested is of the current entry, to one of its candidates,
/// each of which meets every requirement recorded on the node, is old
/// enough and is older than the node's release.
pub proof fn lemma_versions_step_valid(snap: Snapshot, r: RoundView, listed: Option<Seq<VersionMeta>>)
    requires
        round_valid(snap, r),
        r.current is Some,
    ensures
        round_valid(snap, after_versions(snap, r, listed).0),
        pin_from(
            RoundView {
                candidates: match listed {
                    Some(list) => acceptable(
                        filtered(list, r.current->0.minimum_minutes, r.now),
                        snap.spec_requirements(r.current->0.node),
                        r.current->0.current_version@,
                    ),
                    None => r.candidates,
                },
                ..r
            },
            after_versions(snap, r, listed).1,
        ),
{
    let cur = r.current->0;
    match listed {
        None => {
            if snap.offline_ok {
                lemma_requeue_valid(snap, r);
            }
        },
        Some(list) => {
            let f = filtered(list, cur.minimum_minutes, r.now);
            crate::resolver::lemma_candidates_eligible(list, cur.minimum_minutes, r.now);
            assert forall|i: int| 0 <= i < f.len() implies old_enough(#[trigger] f[i].created_at, cur.minimum_minutes, r.now) by {
                assert(crate::resolver::listed_and_eligible(list, f[i], cur.minimum_minutes, r.now));
            }
            lemma_acceptable_fits(snap, cur, f, r.now);
            let cands = acceptable(f, snap.spec_requirements(cur.node), cur.current_version@);
            if cands.len() == 0 {
                let parents = snap.spec_parents(cur.node);
                if parents.len() > 0 {
                    lemma_origins_in_range(snap.states@, snap.graph.edges@, cur.node);
                    lemma_parents_valid(snap, origins_of(snap.states@, snap.graph.edges@, cur.node));
                    lemma_push_fronts_valid(snap, r.queue, parents);
                    lemma_requeue_valid(snap, RoundView { queue: push_fronts(r.queue, parents), ..r });
                }
            } else {
                lemma_try_next_valid(snap, RoundView { candidates: cands, ..r });
            }
        },
    }
}

/// The resolver's answer keeps the round valid (see
/// `lemma_versions_step_valid`), and a new pin request is again of the
/// current entry, to one of its untried candidates.
pub proof fn lemma_pin_step_valid(snap: Snapshot, r: RoundView, answer: Option<(Seq<char>, Seq<char>)>, applied: bool)
    requires
        round_valid(snap, r),
        r.current is Some,
    ensures
        round_valid(snap, after_pin(snap, r, answer, applied).0),
        pin_from(r, after_pin(snap, r, answer, applied).1),
{
    if !applied {
        match answer {
            Some((out, err)) => {
                let bs = blockers_of(out, err);
                if bs.len() == 0 {
                    lemma_try_next_valid(snap, r);
                } else {
                    let es = blocker_entries(snap.graph.nodes@, snap.states@, bs);
                    lemma_blockers_valid(snap, bs);
                    lemma_push_fronts_valid(snap, r.queue, es);
                    lemma_requeue_valid(snap, RoundView { queue: push_fronts(r.queue, es), ..r });
                }
            },
            None => {
                if snap.offline_ok {
                    lemma_requeue_valid(snap, r);
                }
            },
        }
    }
}

/// The first round of a pass is valid: its queue holds the fresh entries,
/// in priority order, and each stands for a node that takes part in the
/// cooldown, as that node's state describes it.
pub proof fn lemma_first_round_valid(snap: Snapshot, ages: Seq<ReleaseAge>, subjects: usize, now: i64)
    requires
        ages.len() == snap.spec_subjects().len(),
    ensures
        round_valid(
            snap,
            RoundView {
                queue: prioritized(
                    snap.states@,
                    snap.graph.edges@,
                    fresh_among(snap.states@, snap.spec_subjects(), ages, now, ages.len() as int),
                ),
                current: None,
                candidates: Seq::empty(),
                steps_left: step_budget(subjects),
                now,
            },
        ),
{
    let fresh = fresh_among(snap.states@, snap.spec_subjects(), ages, now, ages.len() as int);
    crate::graph::lemma_fresh_valid(snap, ages, now, ages.len() as int);
    let p = |f: FreshEntry| snap.valid_entry(f);
    crate::graph::lemma_prioritized_keeps(snap.states@, snap.graph.edges@, fresh, p);
    let q = prioritized(snap.states@, snap.graph.edges@, fresh);
    assert forall|i: int| 0 <= i < q.len() implies snap.valid_entry(#[trigger] q[i]) by {
        assert(p(q[i]));
    }
}

/// `c` is one of `cands` that meets every requirement and is older than
/// the current release.
pub open spec fn accepted_from(cands: Seq<Candidate>, c: Candidate, reqs: Seq<Seq<char>>, current: Seq<char>) -> bool {
    exists|m: int|
        0 <= m < cands.len() && #[trigger] cands[m] == c && meets_all(c.version@, reqs) && older_than(
            c.version@,
            current,
        )
}

proof fn lemma_acceptable_members(cands: Seq<Candidate>, reqs: Seq<Seq<char>>, current: Seq<char>)
    ensures
        forall|i: int|
            0 <= i < acceptable(cands, reqs, current).len() ==> accepted_from(
                cands,
                #[trigger] acceptable(cands, reqs, current)[i],
                reqs,
                current,
            ),
    decreases cands.len(),
{
    if cands.len() > 0 {
        let d = cands.drop_last();
        let prev = acceptable(d, reqs, current);
        lemma_acceptable_members(d, reqs, current);
        assert forall|i: int| 0 <= i < acceptable(cands, reqs, current).len() implies accepted_from(
            cands,
            #[trigger] acceptable(cands, reqs, current)[i],
            reqs,
            current,
        ) by {
            if i < prev.len() {
                assert(acceptable(cands, reqs, current)[i] == prev[i]);
                assert(accepted_from(d, prev[i], reqs, current));
                let m = choose|m: int| 0 <= m < d.len() && #[trigger] d[m] == prev[i] && meets_all(
                    prev[i].version@,
                    reqs,
                ) && older_than(prev[i].version@, current);
                assert(cands[m] == d[m]);
            } else {
                assert(cands[cands.len() - 1] == cands.last());
            }
        }
    }
}

/// A pin requested right after a package's versions were listed moves the
/// node to a release of that list that is not yanked, has aged the node's
/// minimum, meets every requirement recorded on the node, and is older
/// than the node's current release.
pub proof fn lemma_listing_pins_acceptable(snap: Snapshot, r: RoundView, list: Seq<VersionMeta>)
    requires
        r.current is Some,
    ensures
        match after_versions(snap, r, Some(list)).1 {
            Action::Pin { name, current, target } => exists|j: int|
                0 <= j < list.len() && #[trigger] list[j].num == target && !list[j].yanked
                    && old_enough(list[j].created_at, r.current->0.minimum_minutes, r.now) && meets_all(
                    target@,
                    snap.spec_requirements(r.current->0.node),
                ) && older_than(target@, r.current->0.current_version@),
            _ => true,
        },
{
    let cur = r.current->0;
    let f = filtered(list, cur.minimum_minutes, r.now);
    let reqs = snap.spec_requirements(cur.node);
    let cands = acceptable(f, reqs, cur.current_version@);
    if cands.len() > 0 {
        lemma_first_other(cands, cur.current_version@, 0);
        match first_other(cands, cur.current_version@, 0) {
            Some(k) => {
                lemma_acceptable_members(f, reqs, cur.current_version@);
                assert(accepted_from(f, cands[k], reqs, cur.current_version@));
                let m = choose|m: int|
                    0 <= m < f.len() && #[trigger] f[m] == cands[k] && meets_all(cands[k].version@, reqs)
                        && older_than(cands[k].version@, cur.current_version@);
                crate::resolver::lemma_candidates_eligible(list, cur.minimum_minutes, r.now);
                assert(crate::resolver::listed_and_eligible(list, f[m], cur.minimum_minutes, r.now));
                let j = choose|j: int|
                    0 <= j < list.len() && f[m] == crate::resolver::candidate_of(#[trigger] list[j])
                        && crate::resolver::eligible(list[j], cur.minimum_minutes, r.now);
                assert(list[j].num == cands[k].version);
            },
            None => {},
        }
    }
}

/// In a valid round, a requested pin always moves a node that takes part
/// in the cooldown (from an allowed registry, not exempt, with a minimum
/// age above zero) away from its current release: every other node is
/// left as it is.
pub proof fn lemma_pins_only_subjects(snap: Snapshot, r: RoundView, a: Action)
    requires
        round_valid(snap, r),
        pin_from(r, a),
    ensures
        match a {
            Action::Pin { name, current, target } => exists|i: int|
                0 <= i < snap.states@.len() && subject(#[trigger] snap.states@[i])
                    && snap.states@[i]->0.name == name && snap.states@[i]->0.current_version == current,
            _ => true,
        },
{
    if let Action::Pin { name, current, target } = a {
        let i = r.current->0.node as int;
        assert(snap.valid_entry(r.current->0));
        assert(subject(snap.states@[i]));
    }
}

} // verus!

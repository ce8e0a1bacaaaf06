//! The resolved dependency graph, and what the engine derives from it on
//! each pass: the state of every node, the nodes whose age is checked, the
//! fresh ones, and the order in which these are handled.
use vstd::prelude::*;

use crate::allowlist::Allowlist;
use crate::config::Config;
use crate::resolver::old_enough;
use crate::semver_rules::{is_exact_requirement, is_exact_requirement_text};
use crate::text::{opt_view, same_text};

verus! {

/// A dependency as a manifest declares it.
#[derive(Debug, Clone)]
pub struct ManifestDependency {
    pub name: String,
    pub rename: Option<String>,
    pub requirement: String,
}

/// A manifest dependency stands for a resolved edge named `dep_name` to
/// package `package_name` when its rename, or its name, is `dep_name`, or
/// its name is `package_name`.
pub open spec fn declares(d: ManifestDependency, dep_name: Seq<char>, package_name: Seq<char>) -> bool {
    opt_view(d.rename) == Some(dep_name) || d.name@ == dep_name || d.name@ == package_name
}

/// The first manifest dependency that stands for the edge named `dep_name`
/// to package `package_name`.
pub fn find_manifest_dependency(deps: &Vec<ManifestDependency>, dep_name: &str, package_name: &str) -> (r: Option<usize>)
    ensures
        match r {
            Some(i) => i < deps@.len() && declares(deps@[i as int], dep_name@, package_name@)
                && forall|j: int| 0 <= j < i ==> !declares(#[trigger] deps@[j], dep_name@, package_name@),
            None => forall|j: int| 0 <= j < deps@.len() ==> !declares(#[trigger] deps@[j], dep_name@, package_name@),
        },
{
    let mut i: usize = 0;
    while i < deps.len()
        invariant
            i <= deps@.len(),
            forall|j: int| 0 <= j < i ==> !declares(#[trigger] deps@[j], dep_name@, package_name@),
        decreases deps@.len() - i,
    {
        let d = &deps[i];
        let renamed = match &d.rename {
            Some(r) => same_text(r.as_str(), dep_name),
            None => false,
        };
        if renamed || same_text(d.name.as_str(), dep_name) || same_text(d.name.as_str(), package_name) {
            return Some(i);
        }
        i = i + 1;
    }
    None
}

/// A node of the resolved graph: one selected release. `source` is the
/// registry source identifier, absent for path dependencies.
#[derive(Debug, Clone)]
pub struct GraphNode {
    pub name: String,
    pub version: String,
    pub source: Option<String>,
}

/// A resolved edge from `parent` to `child` (indexes of nodes), with the
/// requirement that the parent's manifest declares, as it prints itself.
#[derive(Debug, Clone)]
pub struct DependencyEdge {
    pub parent: usize,
    pub child: usize,
    pub requirement: String,
}

/// The resolved graph as the engine reads it on one pass.
#[derive(Debug, Clone)]
pub struct Graph {
    pub nodes: Vec<GraphNode>,
    pub edges: Vec<DependencyEdge>,
}

/// What the engine holds of a node from an allowed registry.
#[derive(Debug, Clone)]
pub struct CrateState {
    pub name: String,
    pub current_version: String,
    pub minimum_minutes: u64,
    pub exact_allowed: bool,
}

/// A node whose release is younger than its minimum age.
#[derive(Debug, Clone)]
pub struct FreshEntry {
    pub node: usize,
    pub name: String,
    pub current_version: String,
    pub minimum_minutes: u64,
}

/// The state of a node: none for a node outside the allowed registries,
/// else its name, version, effective minimum age and exemption.
pub open spec fn state_of(config: Config, allowlist: Allowlist, node: GraphNode) -> Option<CrateState> {
    match node.source {
        Some(src) => if config.spec_registry_allowed(src@) {
            Some(
                CrateState {
                    name: node.name,
                    current_version: node.version,
                    minimum_minutes: allowlist.spec_minutes_for(node.name@, config.cooldown_minutes),
                    exact_allowed: allowlist.spec_exact_allowed(node.name@, node.version@),
                },
            )
        } else {
            None
        },
        None => None,
    }
}

/// A node takes part in the cooldown: it is from an allowed registry, not
/// exempt, and its minimum age is not zero.
pub open spec fn subject(s: Option<CrateState>) -> bool {
    s is Some && !s->0.exact_allowed && s->0.minimum_minutes > 0
}

pub open spec fn entry_of(node: int, s: CrateState) -> FreshEntry {
    FreshEntry {
        node: node as usize,
        name: s.name,
        current_version: s.current_version,
        minimum_minutes: s.minimum_minutes,
    }
}

/// The nodes among the first `n` that take part in the cooldown, in order.
pub open spec fn subjects_below(states: Seq<Option<CrateState>>, n: int) -> Seq<usize>
    decreases n,
{
    if n <= 0 {
        Seq::empty()
    } else {
        let prev = subjects_below(states, n - 1);
        if subject(states[n - 1]) {
            prev.push((n - 1) as usize)
        } else {
            prev
        }
    }
}

/// What the registry said of a node's current release.
#[derive(Debug, Clone, Copy)]
pub enum ReleaseAge {
    /// Published at this instant, in microseconds since the Unix epoch.
    Published(i64),
    /// The registry could not be asked.
    Unavailable,
}

/// Why the engine stopped without cooling the graph down.
#[derive(Debug, Clone)]
pub enum EngineError {
    /// A node has no older release that is acceptable, and nothing that
    /// constrains it can move.
    NoAcceptableVersion { name: String, minimum_minutes: u64 },
    /// Every acceptable older release of a node was refused by the resolver.
    CandidatesExhausted { name: String, minimum_minutes: u64 },
    /// The registry could not be asked about a node, and offline work is
    /// not allowed.
    RegistryUnavailable { name: String },
    /// The resolver could not be run, and offline work is not allowed.
    ResolverUnavailable { name: String },
    /// The fresh nodes were all handled, or the step budget spent, without
    /// a pin taking effect.
    NoProgress,
}

/// An edge that the engine records: both ends exist and are from allowed
/// registries.
pub open spec fn recorded(states: Seq<Option<CrateState>>, e: DependencyEdge) -> bool {
    e.parent < states.len() && e.child < states.len() && states[e.parent as int] is Some
        && states[e.child as int] is Some
}

/// The graph of one pass, with the state of each node.
#[derive(Debug, Clone)]
pub struct Snapshot {
    pub graph: Graph,
    pub states: Vec<Option<CrateState>>,
    pub offline_ok: bool,
}

/// The fresh entries among the inspected nodes, given what the registry
/// said of each, in the order of inspection.
pub open spec fn fresh_among(
    states: Seq<Option<CrateState>>,
    inspected: Seq<usize>,
    ages: Seq<ReleaseAge>,
    now: i64,
    n: int,
) -> Seq<FreshEntry>
    decreases n,
{
    if n <= 0 {
        Seq::empty()
    } else {
        let prev = fresh_among(states, inspected, ages, now, n - 1);
        let i = inspected[n - 1] as int;
        match ages[n - 1] {
            ReleaseAge::Published(t) => if !old_enough(t, states[i]->0.minimum_minutes, now) {
                prev.push(entry_of(i, states[i]->0))
            } else {
                prev
            },
            ReleaseAge::Unavailable => prev,
        }
    }
}

/// The first inspected node that the registry could not be asked about.
pub open spec fn first_unavailable(ages: Seq<ReleaseAge>) -> Option<int> {
    if exists|k: int| 0 <= k < ages.len() && ages[k] is Unavailable {
        Some(choose|k: int| 0 <= k < ages.len() && ages[k] is Unavailable && forall|j: int|
            0 <= j < k ==> !(ages[j] is Unavailable))
    } else {
        None
    }
}

/// How many recorded exact-requirement edges into `child` come from one of
/// the nodes of `fresh`; an edge counts as often as it occurs.
pub open spec fn pinned_by_fresh(
    states: Seq<Option<CrateState>>,
    edges: Seq<DependencyEdge>,
    fresh: Seq<usize>,
    child: usize,
) -> nat
    decreases edges.len(),
{
    if edges.len() == 0 {
        0
    } else {
        let e = edges.last();
        let here: nat = if recorded(states, e) && e.child == child && is_exact_requirement_text(
            e.requirement@,
        ) && fresh.contains(e.parent) {
            1
        } else {
            0
        };
        pinned_by_fresh(states, edges.drop_last(), fresh, child) + here
    }
}

pub type Keyed = (nat, FreshEntry);

/// `x` placed after every element of `sorted` whose key is not larger.
pub open spec fn insert_by_key(sorted: Seq<Keyed>, x: Keyed) -> Seq<Keyed>
    decreases sorted.len(),
{
    if sorted.len() == 0 {
        seq![x]
    } else if sorted.last().0 > x.0 {
        insert_by_key(sorted.drop_last(), x).push(sorted.last())
    } else {
        sorted.push(x)
    }
}

/// A stable sort by ascending key.
pub open spec fn sort_by_key(s: Seq<Keyed>) -> Seq<Keyed>
    decreases s.len(),
{
    if s.len() == 0 {
        Seq::empty()
    } else {
        insert_by_key(sort_by_key(s.drop_last()), s.last())
    }
}

pub open spec fn fresh_nodes(fresh: Seq<FreshEntry>) -> Seq<usize> {
    fresh.map_values(|f: FreshEntry| f.node)
}

/// The fresh entries, each keyed by how many other fresh nodes pin it.
pub open spec fn keyed(states: Seq<Option<CrateState>>, edges: Seq<DependencyEdge>, fresh: Seq<FreshEntry>) -> Seq<Keyed> {
    fresh.map_values(|f: FreshEntry| (pinned_by_fresh(states, edges, fresh_nodes(fresh), f.node), f))
}

/// The order in which fresh entries are handled: by how many fresh nodes
/// pin them with an exact requirement, fewest first, in a stable order.
pub open spec fn prioritized(states: Seq<Option<CrateState>>, edges: Seq<DependencyEdge>, fresh: Seq<FreshEntry>) -> Seq<FreshEntry> {
    sort_by_key(keyed(states, edges, fresh)).map_values(|k: Keyed| k.1)
}

proof fn lemma_insert_by_key_at(s: Seq<Keyed>, x: Keyed, j: int)
    requires
        0 <= j <= s.len(),
        forall|k: int| j <= k < s.len() ==> s[k].0 > x.0,
        j == 0 || s[j - 1].0 <= x.0,
    ensures
        insert_by_key(s, x) == s.insert(j, x),
    decreases s.len(),
{
    if s.len() == 0 {
        assert(s.insert(j, x) =~= seq![x]);
    } else if j == s.len() {
        assert(s.insert(j, x) =~= s.push(x));
    } else {
        lemma_insert_by_key_at(s.drop_last(), x, j);
        assert(s.drop_last().insert(j, x).push(s.last()) =~= s.insert(j, x));
    }
}

impl Snapshot {
    /// The states that the snapshot holds are those of its graph's nodes.
    pub open spec fn wf(&self, config: Config, allowlist: Allowlist) -> bool {
        &&& self.states@.len() == self.graph.nodes@.len()
        &&& forall|i: int|
            0 <= i < self.states@.len() ==> #[trigger] self.states@[i] == state_of(
                config,
                allowlist,
                self.graph.nodes@[i],
            )
        &&& self.offline_ok == config.offline_ok
    }

    /// Reads the state of every node of the graph.
    pub fn analyze(config: &Config, allowlist: &Allowlist, graph: Graph) -> (r: Snapshot)
        ensures
            r.wf(*config, *allowlist),
            r.graph == graph,
    {
        let mut states: Vec<Option<CrateState>> = Vec::new();
        let mut i: usize = 0;
        while i < graph.nodes.len()
            invariant
                i <= graph.nodes@.len(),
                states@.len() == i,
                forall|j: int|
                    0 <= j < i ==> #[trigger] states@[j] == state_of(*config, *allowlist, graph.nodes@[j]),
            decreases graph.nodes@.len() - i,
        {
            let node = &graph.nodes[i];
            let state = match &node.source {
                Some(src) => {
                    if config.is_registry_allowed(src.as_str()) {
                        let name = node.name.clone();
                        let current_version = node.version.clone();
                        let minimum_minutes = allowlist.effective_minutes_for(
                            node.name.as_str(),
                            config.cooldown_minutes,
                        );
                        let exact_allowed = allowlist.is_exact_allowed(node.name.as_str(), node.version.as_str());
                        Some(CrateState { name, current_version, minimum_minutes, exact_allowed })
                    } else {
                        None
                    }
                },
                None => None,
            };
            states.push(state);
            i = i + 1;
        }
        Snapshot { graph, states, offline_ok: config.offline_ok }
    }

    pub open spec fn spec_subjects(&self) -> Seq<usize> {
        subjects_below(self.states@, self.states@.len() as int)
    }

    /// The nodes whose current release the registry is asked about: from
    /// an allowed registry, not exempt, with a minimum age above zero; in
    /// graph order.
    pub fn nodes_to_inspect(&self) -> (r: Vec<usize>)
        ensures
            r@ == self.spec_subjects(),
    {
        let mut out: Vec<usize> = Vec::new();
        let mut i: usize = 0;
        while i < self.states.len()
            invariant
                i <= self.states@.len(),
                out@ == subjects_below(self.states@, i as int),
            decreases self.states@.len() - i,
        {
            let is_subject = match &self.states[i] {
                Some(s) => !s.exact_allowed && s.minimum_minutes > 0,
                None => false,
            };
            if is_subject {
                out.push(i);
            }
            i = i + 1;
        }
        out
    }
}

/// A copy of a fresh entry.
pub fn copy_entry(e: &FreshEntry) -> (r: FreshEntry)
    ensures
        r == *e,
{
    FreshEntry {
        node: e.node,
        name: e.name.clone(),
        current_version: e.current_version.clone(),
        minimum_minutes: e.minimum_minutes,
    }
}

fn contains_node(nodes: &Vec<usize>, n: usize) -> (r: bool)
    ensures
        r == nodes@.contains(n),
{
    let mut i: usize = 0;
    while i < nodes.len()
        invariant
            i <= nodes@.len(),
            forall|j: int| 0 <= j < i ==> nodes@[j] != n,
        decreases nodes@.len() - i,
    {
        if nodes[i] == n {
            assert(nodes@[i as int] == n);
            return true;
        }
        i = i + 1;
    }
    false
}

fn insert_keyed(out: &mut Vec<(usize, FreshEntry)>, x: (usize, FreshEntry))
    ensures
        keyed_view(final(out)@) == insert_by_key(keyed_view(old(out)@), (x.0 as nat, x.1)),
{
    let ghost v = keyed_view(out@);
    let mut j: usize = out.len();
    while j > 0 && out[j - 1].0 > x.0
        invariant
            j <= out@.len(),
            v == keyed_view(out@),
            forall|k: int| j <= k < out@.len() ==> out@[k].0 > x.0,
        decreases j,
    {
        j = j - 1;
    }
    proof {
        lemma_insert_by_key_at(v, (x.0 as nat, x.1), j as int);
    }
    out.insert(j, x);
    assert(keyed_view(out@) =~= v.insert(j as int, (x.0 as nat, x.1)));
}

pub open spec fn keyed_view(s: Seq<(usize, FreshEntry)>) -> Seq<Keyed> {
    s.map_values(|p: (usize, FreshEntry)| (p.0 as nat, p.1))
}

impl Snapshot {
    /// The first inspected node that the registry could not be asked
    /// about stops the pass, unless offline work is allowed; otherwise the
    /// fresh entries are the inspected nodes whose release is younger than
    /// their minimum age, in graph order. `ages` holds what the registry
    /// said of each node of `nodes_to_inspect`, in that order.
    pub fn fresh_entries(&self, ages: &Vec<ReleaseAge>, now: i64) -> (r: Result<Vec<FreshEntry>, EngineError>)
        requires
            ages@.len() == self.spec_subjects().len(),
        ensures
            (first_unavailable(ages@) is Some && !self.offline_ok) ==> r == Err::<Vec<FreshEntry>, EngineError>(
                EngineError::RegistryUnavailable {
                    name: self.states@[self.spec_subjects()[first_unavailable(ages@)->0] as int]->0.name,
                },
            ),
            !(first_unavailable(ages@) is Some && !self.offline_ok) ==> r is Ok && r->Ok_0@ == fresh_among(
                self.states@,
                self.spec_subjects(),
                ages@,
                now,
                ages@.len() as int,
            ),
    {
        let inspected = self.nodes_to_inspect();
        let n_states = self.states.len();
        proof {
            lemma_subjects_are_subjects(self.states@, self.states@.len() as int);
        }
        if !self.offline_ok {
            let mut k: usize = 0;
            while k < ages.len()
                invariant
                    !self.offline_ok,
                    inspected@ == self.spec_subjects(),
                    ages@.len() == inspected@.len(),
                    forall|m: int|
                        0 <= m < inspected@.len() ==> (#[trigger] inspected@[m]) < self.states@.len()
                            && subject(self.states@[inspected@[m] as int]),
                    k <= ages@.len(),
                    forall|j: int| 0 <= j < k ==> !(ages@[j] is Unavailable),
                decreases ages@.len() - k,
            {
                if let ReleaseAge::Unavailable = ages[k] {
                    let i = inspected[k];
                    let name = match &self.states[i] {
                        Some(s) => s.name.clone(),
                        None => String::new(),
                    };
                    proof {
                        assert(ages@[k as int] is Unavailable);
                        assert(0 <= k < ages@.len() && ages@[k as int] is Unavailable && forall|j: int|
                            0 <= j < k ==> !(ages@[j] is Unavailable));
                        let c = first_unavailable(ages@)->0;
                        assert(first_unavailable(ages@) is Some);
                        if c < k {
                            assert(!(ages@[c] is Unavailable));
                        }
                        if c > k {
                            assert(!(ages@[k as int] is Unavailable));
                        }
                        assert(c == k);
                        assert(name == self.states@[self.spec_subjects()[c] as int]->0.name);
                    }
                    return Err(EngineError::RegistryUnavailable { name });
                }
                k = k + 1;
            }
        }
        let mut out: Vec<FreshEntry> = Vec::new();
        let mut k: usize = 0;
        while k < ages.len()
            invariant
                inspected@ == self.spec_subjects(),
                ages@.len() == inspected@.len(),
                k <= ages@.len(),
                out@ == fresh_among(self.states@, inspected@, ages@, now, k as int),
                forall|m: int|
                    0 <= m < inspected@.len() ==> (#[trigger] inspected@[m]) < self.states@.len()
                        && subject(self.states@[inspected@[m] as int]),
            decreases ages@.len() - k,
        {
            let i = inspected[k];
            assert(subject(self.states@[i as int]));
            if let ReleaseAge::Published(t) = ages[k] {
                match &self.states[i] {
                    Some(s) => {
                        if !((t as i128) + (s.minimum_minutes as i128) * crate::resolver::MICROS_PER_MINUTE
                            <= now as i128) {
                            out.push(
                                FreshEntry {
                                    node: i,
                                    name: s.name.clone(),
                                    current_version: s.current_version.clone(),
                                    minimum_minutes: s.minimum_minutes,
                                },
                            );
                        }
                    },
                    None => {},
                }
            }
            k = k + 1;
        }
        proof {
            if first_unavailable(ages@) is Some && !self.offline_ok {
                let c = first_unavailable(ages@)->0;
                assert(ages@[c] is Unavailable);
            }
        }
        Ok(out)
    }

    /// How many recorded exact-requirement edges into `child` come from a
    /// node of `fresh`.
    fn count_pins(&self, fresh: &Vec<usize>, child: usize) -> (r: usize)
        ensures
            r as nat == pinned_by_fresh(self.states@, self.graph.edges@, fresh@, child),
    {
        let edges = &self.graph.edges;
        let mut count: usize = 0;
        let mut i: usize = 0;
        while i < edges.len()
            invariant
                edges == &self.graph.edges,
                i <= edges@.len(),
                count as nat == pinned_by_fresh(self.states@, edges@.subrange(0, i as int), fresh@, child),
                count <= i,
            decreases edges@.len() - i,
        {
            let e = &edges[i];
            assert(edges@.subrange(0, i + 1).drop_last() =~= edges@.subrange(0, i as int));
            let is_recorded = e.parent < self.states.len() && e.child < self.states.len()
                && self.states[e.parent].is_some() && self.states[e.child].is_some();
            if is_recorded && e.child == child && is_exact_requirement(e.requirement.as_str())
                && contains_node(fresh, e.parent) {
                count = count + 1;
            }
            i = i + 1;
        }
        assert(edges@.subrange(0, edges@.len() as int) =~= edges@);
        count
    }

    /// Orders the fresh entries: those that fewer other fresh nodes pin with
    /// an exact requirement come first; the order is otherwise kept.
    pub fn prioritize(&self, fresh: &Vec<FreshEntry>) -> (r: Vec<FreshEntry>)
        ensures
            r@ == prioritized(self.states@, self.graph.edges@, fresh@),
    {
        let mut nodes: Vec<usize> = Vec::new();
        let mut i: usize = 0;
        while i < fresh.len()
            invariant
                i <= fresh@.len(),
                nodes@ == fresh_nodes(fresh@).subrange(0, i as int),
            decreases fresh@.len() - i,
        {
            nodes.push(fresh[i].node);
            i = i + 1;
        }
        assert(nodes@ =~= fresh_nodes(fresh@));
        let ghost ks = keyed(self.states@, self.graph.edges@, fresh@);
        let mut sorted: Vec<(usize, FreshEntry)> = Vec::new();
        let mut i: usize = 0;
        while i < fresh.len()
            invariant
                nodes@ == fresh_nodes(fresh@),
                ks == keyed(self.states@, self.graph.edges@, fresh@),
                i <= fresh@.len(),
                keyed_view(sorted@) == sort_by_key(ks.subrange(0, i as int)),
            decreases fresh@.len() - i,
        {
            let key = self.count_pins(&nodes, fresh[i].node);
            let e = copy_entry(&fresh[i]);
            assert(ks.subrange(0, i + 1).drop_last() =~= ks.subrange(0, i as int));
            assert(ks[i as int] == (key as nat, e));
            insert_keyed(&mut sorted, (key, e));
            i = i + 1;
        }
        assert(ks.subrange(0, fresh@.len() as int) =~= ks);
        let mut out: Vec<FreshEntry> = Vec::new();
        let mut i: usize = 0;
        while i < sorted.len()
            invariant
                i <= sorted@.len(),
                out@ == keyed_view(sorted@).map_values(|k: Keyed| k.1).subrange(0, i as int),
            decreases sorted@.len() - i,
        {
            out.push(copy_entry(&sorted[i].1));
            i = i + 1;
        }
        assert(out@ =~= keyed_view(sorted@).map_values(|k: Keyed| k.1));
        out
    }
}

proof fn lemma_insert_by_key_keeps(s: Seq<Keyed>, x: Keyed, p: spec_fn(FreshEntry) -> bool)
    requires
        forall|i: int| 0 <= i < s.len() ==> p(#[trigger] s[i].1),
        p(x.1),
    ensures
        forall|i: int| 0 <= i < insert_by_key(s, x).len() ==> p(#[trigger] insert_by_key(s, x)[i].1),
    decreases s.len(),
{
    if s.len() > 0 && s.last().0 > x.0 {
        let r = insert_by_key(s.drop_last(), x);
        lemma_insert_by_key_keeps(s.drop_last(), x, p);
        assert(p(s[s.len() - 1].1));
        assert forall|i: int| 0 <= i < insert_by_key(s, x).len() implies p(#[trigger] insert_by_key(s, x)[i].1) by {
            if i < r.len() {
                assert(insert_by_key(s, x)[i] == r[i]);
            }
        }
    } else if s.len() > 0 {
        assert forall|i: int| 0 <= i < insert_by_key(s, x).len() implies p(#[trigger] insert_by_key(s, x)[i].1) by {
            if i < s.len() {
                assert(insert_by_key(s, x)[i] == s[i]);
            }
        }
    }
}

proof fn lemma_sort_by_key_keeps(s: Seq<Keyed>, p: spec_fn(FreshEntry) -> bool)
    requires
        forall|i: int| 0 <= i < s.len() ==> p(#[trigger] s[i].1),
    ensures
        forall|i: int| 0 <= i < sort_by_key(s).len() ==> p(#[trigger] sort_by_key(s)[i].1),
    decreases s.len(),
{
    if s.len() > 0 {
        lemma_sort_by_key_keeps(s.drop_last(), p);
        assert(p(s[s.len() - 1].1));
        lemma_insert_by_key_keeps(sort_by_key(s.drop_last()), s.last(), p);
    }
}

/// Ordering the fresh entries keeps only entries that were fresh.
pub proof fn lemma_prioritized_keeps(
    states: Seq<Option<CrateState>>,
    edges: Seq<DependencyEdge>,
    fresh: Seq<FreshEntry>,
    p: spec_fn(FreshEntry) -> bool,
)
    requires
        forall|i: int| 0 <= i < fresh.len() ==> p(#[trigger] fresh[i]),
    ensures
        forall|i: int|
            0 <= i < prioritized(states, edges, fresh).len() ==> p(#[trigger] prioritized(states, edges, fresh)[i]),
{
    let ks = keyed(states, edges, fresh);
    assert forall|i: int| 0 <= i < ks.len() implies p(#[trigger] ks[i].1) by {
        assert(ks[i].1 == fresh[i]);
    }
    lemma_sort_by_key_keeps(ks, p);
    let sorted = sort_by_key(ks);
    assert forall|i: int| 0 <= i < prioritized(states, edges, fresh).len() implies p(
        #[trigger] prioritized(states, edges, fresh)[i],
    ) by {
        assert(prioritized(states, edges, fresh)[i] == sorted[i].1);
    }
}

/// Every fresh entry stands for an inspected node, as its state describes it.
pub proof fn lemma_fresh_valid(snap: Snapshot, ages: Seq<ReleaseAge>, now: i64, n: int)
    requires
        0 <= n <= ages.len() == snap.spec_subjects().len(),
    ensures
        forall|i: int|
            0 <= i < fresh_among(snap.states@, snap.spec_subjects(), ages, now, n).len() ==> snap.valid_entry(
                #[trigger] fresh_among(snap.states@, snap.spec_subjects(), ages, now, n)[i],
            ),
    decreases n,
{
    if n > 0 {
        let subj = snap.spec_subjects();
        let prev = fresh_among(snap.states@, subj, ages, now, n - 1);
        assert(snap.states.len() == snap.states@.len());
        lemma_subjects_are_subjects(snap.states@, snap.states@.len() as int);
        lemma_fresh_valid(snap, ages, now, n - 1);
        assert(subj[n - 1] < snap.states@.len() && subject(snap.states@[subj[n - 1] as int]));
        assert forall|i: int| 0 <= i < fresh_among(snap.states@, subj, ages, now, n).len() implies snap.valid_entry(
            #[trigger] fresh_among(snap.states@, subj, ages, now, n)[i],
        ) by {
            if i < prev.len() {
                assert(fresh_among(snap.states@, subj, ages, now, n)[i] == prev[i]);
            }
        }
    }
}

/// A pass finds nothing fresh exactly when every inspected node whose
/// release time the registry gave has aged at least its minimum. So a
/// graph that has cooled down stays so on a second run at the same instant.
pub proof fn lemma_cooled_down(
    states: Seq<Option<CrateState>>,
    subjects: Seq<usize>,
    ages: Seq<ReleaseAge>,
    now: i64,
    n: int,
)
    requires
        0 <= n <= ages.len(),
        n <= subjects.len(),
    ensures
        fresh_among(states, subjects, ages, now, n).len() == 0 <==> forall|k: int|
            0 <= k < n ==> match #[trigger] ages[k] {
                ReleaseAge::Published(t) => old_enough(t, states[subjects[k] as int]->0.minimum_minutes, now),
                ReleaseAge::Unavailable => true,
            },
    decreases n,
{
    if n > 0 {
        lemma_cooled_down(states, subjects, ages, now, n - 1);
        lemma_fresh_len_grows(states, subjects, ages, now, n - 1);
    }
}

proof fn lemma_fresh_len_grows(
    states: Seq<Option<CrateState>>,
    subjects: Seq<usize>,
    ages: Seq<ReleaseAge>,
    now: i64,
    n: int,
)
    requires
        0 <= n,
    ensures
        fresh_among(states, subjects, ages, now, n).len() <= fresh_among(states, subjects, ages, now, n + 1).len(),
{
}

pub proof fn lemma_subjects_are_subjects(states: Seq<Option<CrateState>>, n: int)
    requires
        0 <= n <= states.len(),
        states.len() <= usize::MAX,
    ensures
        forall|k: int|
            0 <= k < subjects_below(states, n).len() ==> (#[trigger] subjects_below(states, n)[k]) < n
                && subject(states[subjects_below(states, n)[k] as int]),
    decreases n,
{
    if n > 0 {
        lemma_subjects_are_subjects(states, n - 1);
        let prev = subjects_below(states, n - 1);
        assert forall|k: int| 0 <= k < subjects_below(states, n).len() implies (
        #[trigger] subjects_below(states, n)[k]) < n && subject(
            states[subjects_below(states, n)[k] as int],
        ) by {
            if k < prev.len() {
                assert(subjects_below(states, n)[k] == prev[k]);
            }
        }
    }
}

} // verus!

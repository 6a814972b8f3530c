//! The audit log: every interaction between agents is recorded as an edge of
//! the swarm's topology, filed under the agent the interaction starts from.

use vstd::prelude::*;
use vstd::string::StringExecFns;
use dashmap::DashMap;
use crate::clock::in_clock_range;

verus! {

/// One logged interaction: who called whom, the tokens that passed, and when
/// (nanoseconds since the Unix epoch).
#[derive(Debug, Clone)]
pub struct TopologyEdge {
    pub from: String,
    pub to: String,
    pub token_path: Vec<String>,
    pub timestamp: i128,
}

/// An edge as a mathematical value.
pub struct EdgeView {
    pub from: Seq<char>,
    pub to: Seq<char>,
    pub token_path: Seq<Seq<char>>,
    pub timestamp: int,
}

impl DeepView for TopologyEdge {
    type V = EdgeView;

    open spec fn deep_view(&self) -> EdgeView {
        EdgeView {
            from: self.from@,
            to: self.to@,
            token_path: self.token_path.deep_view(),
            timestamp: self.timestamp as int,
        }
    }
}

/// What the audit log's map holds: for each agent, the edges that start
/// from it, in the order they were logged.
pub uninterp spec fn logged_edges(m: DashMap<String, Vec<TopologyEdge>>) -> Map<Seq<char>, Seq<EdgeView>>;

/// `DashMap::new`: an empty map.
#[verifier::external_body]
fn new_edge_map() -> (r: DashMap<String, Vec<TopologyEdge>>)
    ensures
        logged_edges(r).is_empty(),
{
    DashMap::new()
}

/// `DashMap::remove`: takes the entry of `agent` out of the map and hands
/// back its edges, or `None` where the agent has no entry.
#[verifier::external_body]
fn take_edges(m: &mut DashMap<String, Vec<TopologyEdge>>, agent: &String) -> (r: Option<
    Vec<TopologyEdge>,
>)
    ensures
        logged_edges(*final(m)) == logged_edges(*old(m)).remove(agent@),
        match r {
            Some(v) => logged_edges(*old(m)).contains_key(agent@) && v.deep_view()
                == logged_edges(*old(m))[agent@],
            None => !logged_edges(*old(m)).contains_key(agent@),
        },
{
    m.remove(agent).map(|(_, v)| v)
}

/// `DashMap::insert`: stores `edges` under `agent`, replacing any earlier value.
#[verifier::external_body]
fn put_edges(m: &mut DashMap<String, Vec<TopologyEdge>>, agent: String, edges: Vec<TopologyEdge>)
    ensures
        logged_edges(*final(m)) == logged_edges(*old(m)).insert(agent@, edges.deep_view()),
{
    m.insert(agent, edges);
}

/// `DashMap::iter`: every entry of the map, each once, as a copy of its
/// agent and edges. The order is the map's own and is not stated.
#[verifier::external_body]
fn copy_edge_entries(m: &DashMap<String, Vec<TopologyEdge>>) -> (r: Vec<(String, Vec<TopologyEdge>)>)
    ensures
        r.len() == logged_edges(*m).len(),
        forall|i: int|
            0 <= i < r.len() ==> logged_edges(*m).contains_key(#[trigger] r[i].0@)
                && r[i].1.deep_view() == logged_edges(*m)[r[i].0@],
        forall|i: int, j: int| 0 <= i < j < r.len() ==> #[trigger] r[i].0@ != #[trigger] r[j].0@,
        forall|k: Seq<char>| #[trigger]
            logged_edges(*m).contains_key(k) ==> exists|i: int| 0 <= i < r.len() && r[i].0@ == k,
{
    m.iter().map(|e| (e.key().clone(), e.value().clone())).collect()
}

/// The edges logged for `agent`, empty where none are.
pub open spec fn edges_of(m: Map<Seq<char>, Seq<EdgeView>>, agent: Seq<char>) -> Seq<EdgeView> {
    if m.contains_key(agent) {
        m[agent]
    } else {
        Seq::empty()
    }
}

/// Every edge is filed under the agent it starts from.
pub open spec fn filed_by_source(m: Map<Seq<char>, Seq<EdgeView>>) -> bool {
    forall|agent: Seq<char>, i: int|
        #![trigger m[agent][i]]
        m.contains_key(agent) && 0 <= i < m[agent].len() ==> m[agent][i].from == agent
}

/// Records interactions between agents as edges of the swarm's topology.
pub struct AuditLogger {
    topology: DashMap<String, Vec<TopologyEdge>>,
}

impl AuditLogger {
    /// The logged edges of each agent.
    pub closed spec fn edges(&self) -> Map<Seq<char>, Seq<EdgeView>> {
        logged_edges(self.topology)
    }

    /// A log with no edges.
    pub fn new() -> (l: Self)
        ensures
            l.edges() == Map::<Seq<char>, Seq<EdgeView>>::empty(),
    {
        AuditLogger { topology: new_edge_map() }
    }

    /// Logs an interaction from `from` to `to` that passed `tokens`, made at
    /// `now` (nanoseconds since the Unix epoch): the edge is appended to the
    /// edges of `from`.
    pub fn log_interaction_at(&mut self, from: &str, to: &str, tokens: Vec<String>, now: i128)
        requires
            in_clock_range(now as int),
        ensures
            final(self).edges() == old(self).edges().insert(
                from@,
                edges_of(old(self).edges(), from@).push(
                    EdgeView {
                        from: from@,
                        to: to@,
                        token_path: tokens.deep_view(),
                        timestamp: now as int,
                    },
                ),
            ),
            ({
                let e = EdgeView { from: from@, to: to@, token_path: tokens.deep_view(), timestamp: now as int };
                &&& final(self).edges().contains_key(from@)
                &&& old(self).edges().contains_key(from@) ==> final(self).edges()[from@] == old(self).edges()[from@].push(e)
                &&& !old(self).edges().contains_key(from@) ==> final(self).edges()[from@] == seq![e]
                &&& forall|a: Seq<char>| a != from@ ==> (#[trigger] final(self).edges().contains_key(a)
                    == old(self).edges().contains_key(a)) && (old(self).edges().contains_key(a)
                    ==> final(self).edges()[a] == old(self).edges()[a])
            }),
    {
        let agent = String::from_str(from);
        let mut edges = match take_edges(&mut self.topology, &agent) {
            Some(v) => v,
            None => {
                let v: Vec<TopologyEdge> = Vec::new();
                assert(v.deep_view() =~= Seq::<EdgeView>::empty());
                v
            },
        };
        let ghost before = edges.deep_view();
        assert(before == edges_of(old(self).edges(), from@));
        let edge = TopologyEdge {
            from: String::from_str(from),
            to: String::from_str(to),
            token_path: tokens,
            timestamp: now,
        };
        let ghost e = edge.deep_view();
        edges.push(edge);
        proof {
            assert(edges.deep_view() =~= before.push(e));
        }
        put_edges(&mut self.topology, agent, edges);
        proof {
            assert(self.edges() =~= old(self).edges().insert(
                from@,
                edges_of(old(self).edges(), from@).push(e),
            ));
        }
    }

    /// A copy of the log: each agent with its edges, each agent once.
    pub fn snapshot(&self) -> (r: Vec<(String, Vec<TopologyEdge>)>)
        ensures
            r.len() == self.edges().len(),
            forall|i: int|
                0 <= i < r.len() ==> self.edges().contains_key(#[trigger] r[i].0@)
                    && r[i].1.deep_view() == self.edges()[r[i].0@],
            forall|i: int, j: int| 0 <= i < j < r.len() ==> #[trigger] r[i].0@ != #[trigger] r[j].0@,
            forall|k: Seq<char>| #[trigger]
                self.edges().contains_key(k) ==> exists|i: int| 0 <= i < r.len() && r[i].0@ == k,
    {
        copy_edge_entries(&self.topology)
    }
}

/// Every edge in the log is filed under the agent it starts from: true of an
/// empty log, and kept by logging an interaction.
pub proof fn lemma_log_keeps_edges_by_source(
    before: Map<Seq<char>, Seq<EdgeView>>,
    from: Seq<char>,
    to: Seq<char>,
    tokens: Seq<Seq<char>>,
    now: int,
)
    requires
        filed_by_source(before),
    ensures
        filed_by_source(Map::<Seq<char>, Seq<EdgeView>>::empty()),
        filed_by_source(
            before.insert(
                from,
                edges_of(before, from).push(
                    EdgeView { from: from, to: to, token_path: tokens, timestamp: now },
                ),
            ),
        ),
{
    let after = before.insert(
        from,
        edges_of(before, from).push(EdgeView { from: from, to: to, token_path: tokens, timestamp: now }),
    );
    assert forall|agent: Seq<char>, i: int|
        #![trigger after[agent][i]]
        after.contains_key(agent) && 0 <= i < after[agent].len() implies after[agent][i].from
        == agent by {
        if agent == from {
            if i < edges_of(before, from).len() {
                assert(before.contains_key(from));
                assert(before[from][i].from == from);
            }
        }
    }
}

/// Logging appends: the edges logged earlier for the source agent stay in
/// place, in order, and no other agent's edges change.
pub proof fn lemma_log_appends(
    before: Map<Seq<char>, Seq<EdgeView>>,
    from: Seq<char>,
    edge: EdgeView,
    other: Seq<char>,
)
    ensures
        ({
            let after = before.insert(from, edges_of(before, from).push(edge));
            &&& edges_of(after, from).len() == edges_of(before, from).len() + 1
            &&& edges_of(after, from).take(edges_of(before, from).len() as int) == edges_of(before, from)
            &&& edges_of(after, from).last() == edge
            &&& other != from ==> edges_of(after, other) == edges_of(before, other)
        }),
{
    let after = before.insert(from, edges_of(before, from).push(edge));
    assert(edges_of(after, from).take(edges_of(before, from).len() as int) =~= edges_of(before, from));
}

} // verus!

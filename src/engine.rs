//! The evaluation engine: memoised depth-first evaluation of a node's
//! dependencies, forward propagation to the terminal node, and pruning of
//! branches that were not taken.
use vstd::prelude::*;
use std::collections::HashMap;
use crate::cascade::{
    cascade, cascade_closed, contains_id, disable_node_tree, feeds, feeds_at, qualifies, reaches,
};
use crate::description::{decode_node, describes_node, parse_i64, parsed_i64, well_formed_node};
use crate::json::{parse_json_text, parsed_json, Json};
use crate::keyed::{has_key, same_text};
use crate::node::{InputData, InputDataBuilder, Node, NodeError, OutputData};
use crate::workers::{decimal, decimal_text, node_run_result, WorkerError, Workers};

verus! {

broadcast use {vstd::std_specs::hash::group_hash_axioms, vstd::seq_lib::group_seq_properties};

/// Why parsing a graph or evaluating it failed.
#[derive(Debug)]
pub enum EngineError {
    /// The engine's version and the one the description declares.
    VersionMismatch(String, String),
    WorkerError(WorkerError),
    /// A connection or the start names a node that the graph lacks.
    MissingNode(i64),
    /// The node depends on itself along connections that are live.
    Cycle(i64),
    /// The graph description is malformed.
    Other(String),
}

impl EngineError {
    pub open spec fn message_text(self) -> Seq<char> {
        match self {
            EngineError::VersionMismatch(e, n) => "Version mismatch: Engine("@ + e@ + "), Nodes("@ + n@
                + ")"@,
            EngineError::WorkerError(w) => w.message_text(),
            EngineError::MissingNode(id) => "No node with id "@ + decimal(id as int),
            EngineError::Cycle(id) => "Node["@ + decimal(id as int) + "] depends on itself"@,
            EngineError::Other(m) => m@,
        }
    }

    /// A human-readable account of the error.
    pub fn message(&self) -> (r: String)
        ensures
            r@ == self.message_text(),
    {
        match self {
            EngineError::VersionMismatch(e, n) => {
                let mut r = "Version mismatch: Engine(".to_owned();
                r.append(e.as_str());
                r.append("), Nodes(");
                r.append(n.as_str());
                r.append(")");
                r
            },
            EngineError::WorkerError(w) => w.message(),
            EngineError::MissingNode(id) => {
                let mut r = "No node with id ".to_owned();
                let n = decimal_text(*id);
                r.append(n.as_str());
                r
            },
            EngineError::Cycle(id) => {
                let mut r = "Node[".to_owned();
                let n = decimal_text(*id);
                r.append(n.as_str());
                r.append("] depends on itself");
                r
            },
            EngineError::Other(m) => m.clone(),
        }
    }
}

/// The state of one evaluation: owned by one `process` call and discarded
/// at its end.
pub struct EvalContext {
    cache: HashMap<i64, OutputData>,
    closed: Vec<i64>,
    /// Nodes whose inputs are being evaluated.
    path: Vec<i64>,
    /// Nodes whose outputs are being followed.
    route: Vec<i64>,
    /// The nodes whose worker was invoked, in order.
    dispatched: Ghost<Seq<i64>>,
    /// The input snapshot that each of them was handed.
    given: Ghost<Map<i64, InputData>>,
    /// The nodes whose outputs were followed to the end.
    driven: Ghost<Set<i64>>,
    /// Each finished drive: the node, the terminal it returned, and how many
    /// drives were in progress around it.
    drive_log: Ghost<Seq<(i64, i64, nat)>>,
    /// The nodes whose inputs began to be evaluated.
    begun: Ghost<Set<i64>>,
    /// What each invoked worker returned.
    outcomes: Ghost<Map<i64, Result<OutputData, NodeError>>>,
    /// For connection `k` of input port `p` of node `id`, keyed `(id, p, k)`:
    /// the snapshot its source returned when the connection was followed.
    visits: Ghost<Map<(i64, int, int), OutputData>>,
}

impl EvalContext {
    /// Output snapshots by node id, each stored once.
    pub closed spec fn cached(self) -> Map<i64, OutputData> {
        self.cache@
    }

    /// Nodes excluded from the rest of the evaluation.
    pub closed spec fn closed_nodes(self) -> Set<i64> {
        self.closed@.to_set()
    }

    /// The ids of the nodes whose worker was invoked, in order.
    pub closed spec fn dispatched(self) -> Seq<i64> {
        self.dispatched@
    }

    /// The input snapshot handed to each node whose worker was invoked.
    pub closed spec fn given(self) -> Map<i64, InputData> {
        self.given@
    }

    /// The nodes whose outputs were followed to the end.
    pub closed spec fn driven(self) -> Set<i64> {
        self.driven@
    }

    /// What the worker of each node returned, for the nodes whose worker ran.
    pub closed spec fn outcomes(self) -> Map<i64, Result<OutputData, NodeError>> {
        self.outcomes@
    }

    /// For connection `k` of input port `p` of node `id`, keyed `(id, p, k)`:
    /// the snapshot its source returned when the connection was followed.
    pub closed spec fn visited(self) -> Map<(i64, int, int), OutputData> {
        self.visits@
    }

    /// Every invocation but possibly the last left a stored snapshot: after
    /// a worker fails, no other runs.
    pub open spec fn settled(self) -> bool {
        forall|i: int|
            0 <= i < self.dispatched().len() - 1 ==> self.cached().contains_key(#[trigger] self.dispatched()[i])
    }

    proof fn lemma_synced_settled(self)
        requires
            self.synced(),
        ensures
            self.settled(),
    {
        assert forall|i: int| 0 <= i < self.dispatched().len() - 1 implies self.cached().contains_key(
            #[trigger] self.dispatched()[i],
        ) by {
            assert(self.dispatched@.contains(self.dispatched@[i]));
        }
    }

    /// The nodes whose inputs began to be evaluated: each was open then.
    pub closed spec fn evaluated(self) -> Set<i64> {
        self.begun@
    }

    /// How many drives are in progress.
    pub closed spec fn depth(self) -> nat {
        self.route@.len()
    }

    /// Each finished drive, in order of completion: the node, the terminal
    /// node it returned, and its depth (the drives in progress around it).
    pub closed spec fn drives(self) -> Seq<(i64, i64, nat)> {
        self.drive_log@
    }

    /// Along each port that node `id` did not produce, the targets that the
    /// port's connections disable are closed with their whole cascades.
    pub open spec fn pruned(self, g: Map<i64, Node>, id: i64) -> bool {
        forall|p: int, k: int| #[trigger]
            untaken(g, self, id, p, k) ==> cascade(
                g,
                g[id].output_ports()[p].1.connections@[k].node,
            ).subset_of(self.closed_nodes())
    }

    /// [`EvalContext::pruned`] for the ports before port `p`, and for the
    /// connections before `k` of port `p`.
    pub open spec fn pruned_before(self, g: Map<i64, Node>, id: i64, p: int, k: int) -> bool {
        forall|q: int, j: int|
            (q < p || (q == p && j < k)) && #[trigger] untaken(g, self, id, q, j) ==> cascade(
                g,
                g[id].output_ports()[q].1.connections@[j].node,
            ).subset_of(self.closed_nodes())
    }

    proof fn lemma_pruned_before_grows(self, later: EvalContext, g: Map<i64, Node>, id: i64, p: int, k: int)
        requires
            self.pruned_before(g, id, p, k),
            self.grows_to(later),
        ensures
            later.pruned_before(g, id, p, k),
    {
        assert forall|q: int, j: int|
            (q < p || (q == p && j < k)) && #[trigger] untaken(g, later, id, q, j) implies cascade(
                g,
                g[id].output_ports()[q].1.connections@[j].node,
            ).subset_of(later.closed_nodes()) by {
            assert(untaken(g, self, id, q, j));
        }
    }

    /// Every node whose outputs were followed is pruned.
    pub open spec fn all_pruned(self, g: Map<i64, Node>) -> bool {
        forall|v: i64| #[trigger] self.driven().contains(v) ==> self.pruned(g, v)
    }

    proof fn lemma_pruned_grows(self, later: EvalContext, g: Map<i64, Node>, id: i64)
        requires
            self.pruned(g, id),
            self.grows_to(later),
        ensures
            later.pruned(g, id),
    {
        assert forall|p: int, k: int| #[trigger] untaken(g, later, id, p, k) implies cascade(
            g,
            g[id].output_ports()[p].1.connections@[k].node,
        ).subset_of(later.closed_nodes()) by {
            assert(untaken(g, self, id, p, k));
        }
    }

    proof fn lemma_all_pruned_grows(self, later: EvalContext, g: Map<i64, Node>)
        requires
            self.all_pruned(g),
            self.grows_to(later),
            later.driven() == self.driven(),
        ensures
            later.all_pruned(g),
    {
        assert forall|v: i64| #[trigger] later.driven().contains(v) implies later.pruned(g, v) by {
            self.lemma_pruned_grows(later, g, v);
        }
    }

    /// Bookkeeping that holds whatever happens.
    pub closed spec fn sound(self, g: Map<i64, Node>) -> bool {
        &&& self.path@.no_duplicates()
        &&& forall|v: i64| #[trigger]
            self.path@.contains(v) ==> g.contains_key(v) && !self.cache@.contains_key(v)
        &&& self.route@.no_duplicates()
        &&& forall|v: i64| #[trigger] self.route@.contains(v) ==> g.contains_key(v)
        &&& self.dispatched@.no_duplicates()
        &&& forall|i: int| 0 <= i < self.dispatched@.len() ==> g.contains_key(#[trigger] self.dispatched@[i])
        &&& forall|v: i64| #[trigger] self.given@.contains_key(v) <==> self.dispatched@.contains(v)
        &&& cascade_closed(g, self.closed@.to_set())
        &&& forall|v: i64| #[trigger] self.cache@.contains_key(v) ==> self.dispatched@.contains(v)
        &&& forall|v: i64| #[trigger] self.closed@.contains(v) ==> qualifies(g, v)
        &&& forall|v: i64| #[trigger] self.outcomes@.contains_key(v) ==> self.dispatched@.contains(v)
        &&& forall|v: i64|
            #[trigger] self.cache@.contains_key(v) ==> self.outcomes@.contains_key(v) && self.outcomes@[v]
                == Ok::<OutputData, NodeError>(self.cache@[v])
        &&& forall|i: int| 0 <= i < self.dispatched@.len() ==> self.begun@.contains(#[trigger] self.dispatched@[i])
    }

    /// Every invoked worker's result is stored, and nothing else is.
    pub closed spec fn synced(self) -> bool {
        forall|v: i64| self.dispatched@.contains(v) <==> self.cache@.contains_key(v)
    }

    /// Nothing is in progress.
    pub closed spec fn idle(self) -> bool {
        self.path@.len() == 0 && self.route@.len() == 0
    }

    /// What `later` is may follow from `self`: stored snapshots stay, closed
    /// nodes stay closed, invocations are only appended, and no node that was
    /// closed in `self` is among them.
    pub open spec fn grows_to(self, later: EvalContext) -> bool {
        &&& forall|v: i64| #[trigger]
            self.cached().contains_key(v) ==> later.cached().contains_key(v) && later.cached()[v]
                == self.cached()[v]
        &&& self.closed_nodes().subset_of(later.closed_nodes())
        &&& later.dispatched().len() >= self.dispatched().len()
        &&& later.dispatched().subrange(0, self.dispatched().len() as int) == self.dispatched()
        &&& forall|i: int|
            self.dispatched().len() <= i < later.dispatched().len() ==> !self.closed_nodes().contains(
                #[trigger] later.dispatched()[i],
            )
        &&& forall|v: i64| #[trigger]
            self.given().contains_key(v) ==> later.given().contains_key(v) && later.given()[v]
                == self.given()[v]
        &&& self.evaluated().subset_of(later.evaluated())
        &&& forall|v: i64| #[trigger]
            self.outcomes().contains_key(v) ==> later.outcomes().contains_key(v) && later.outcomes()[v]
                == self.outcomes()[v]
    }

    pub proof fn lemma_grows_refl(self)
        ensures
            self.grows_to(self),
    {
        assert(self.dispatched().subrange(0, self.dispatched().len() as int) =~= self.dispatched());
    }

    pub proof fn lemma_grows_trans(self, b: EvalContext, c: EvalContext)
        requires
            self.grows_to(b),
            b.grows_to(c),
        ensures
            self.grows_to(c),
    {
        let n = self.dispatched().len() as int;
        assert forall|v: i64| #[trigger] self.cached().contains_key(v) implies c.cached().contains_key(v)
            && c.cached()[v] == self.cached()[v] by {
            assert(b.cached().contains_key(v));
        }
        assert forall|v: i64| #[trigger] self.given().contains_key(v) implies c.given().contains_key(v)
            && c.given()[v] == self.given()[v] by {
            assert(b.given().contains_key(v));
        }
        assert forall|v: i64| #[trigger] self.outcomes().contains_key(v) implies c.outcomes().contains_key(v)
            && c.outcomes()[v] == self.outcomes()[v] by {
            assert(b.outcomes().contains_key(v));
        }
        assert forall|i: int| n <= i < c.dispatched().len() implies !self.closed_nodes().contains(
            #[trigger] c.dispatched()[i],
        ) by {
            if i < b.dispatched().len() {
                assert(c.dispatched()[i] == c.dispatched().subrange(0, b.dispatched().len() as int)[i]);
                assert(b.dispatched()[i] == c.dispatched()[i]);
            }
        }
        assert(c.dispatched().subrange(0, n) =~= c.dispatched().subrange(0, b.dispatched().len() as int).subrange(0, n));
    }

    proof fn lemma_pop_sound(self, after: EvalContext, g: Map<i64, Node>)
        requires
            self.sound(g),
            self.path@.len() > 0,
            after.path@ == self.path@.drop_last(),
            after.cache@ == self.cache@,
            after.route@ == self.route@,
            after.dispatched@ == self.dispatched@,
            after.given@ == self.given@,
            after.closed@ == self.closed@,
            after.begun@ == self.begun@,
            after.outcomes@ == self.outcomes@,
        ensures
            after.sound(g),
    {
        assert forall|v: i64| #[trigger] after.path@.contains(v) implies self.path@.contains(v) by {
            let i = choose|i: int| 0 <= i < after.path@.len() && after.path@[i] == v;
            assert(self.path@[i] == v);
        }
        assert forall|i: int, j: int|
            0 <= i < after.path@.len() && 0 <= j < after.path@.len() && i != j implies after.path@[i]
            != after.path@[j] by {
            assert(after.path@[i] == self.path@[i] && after.path@[j] == self.path@[j]);
        }
    }

    proof fn lemma_route_pop_sound(self, after: EvalContext, g: Map<i64, Node>)
        requires
            self.sound(g),
            self.route@.len() > 0,
            after.route@ == self.route@.drop_last(),
            after.cache@ == self.cache@,
            after.path@ == self.path@,
            after.dispatched@ == self.dispatched@,
            after.given@ == self.given@,
            after.closed@ == self.closed@,
            after.begun@ == self.begun@,
            after.outcomes@ == self.outcomes@,
        ensures
            after.sound(g),
    {
        assert forall|v: i64| #[trigger] after.route@.contains(v) implies self.route@.contains(v) by {
            let i = choose|i: int| 0 <= i < after.route@.len() && after.route@[i] == v;
            assert(self.route@[i] == v);
        }
        assert forall|i: int, j: int|
            0 <= i < after.route@.len() && 0 <= j < after.route@.len() && i != j implies after.route@[i]
            != after.route@[j] by {
            assert(after.route@[i] == self.route@[i] && after.route@[j] == self.route@[j]);
        }
    }

    /// Every node whose worker was invoked had each of its sources, by then,
    /// either invoked before it or closed.
    pub open spec fn ordered(self, g: Map<i64, Node>) -> bool {
        forall|i: int, p: int, k: int, src: i64|
            0 <= i < self.dispatched().len() && #[trigger] input_at(g[self.dispatched()[i]], p, k, src)
                ==> self.closed_nodes().contains(src) || exists|j: int|
                0 <= j < i && self.dispatched()[j] == src
    }

    proof fn lemma_ordered_grows(self, later: EvalContext, g: Map<i64, Node>)
        requires
            self.ordered(g),
            self.grows_to(later),
            later.dispatched() == self.dispatched(),
        ensures
            later.ordered(g),
    {
        assert forall|i: int, p: int, k: int, src: i64|
            0 <= i < later.dispatched().len() && #[trigger] input_at(g[later.dispatched()[i]], p, k, src)
            implies later.closed_nodes().contains(src) || exists|j: int|
            0 <= j < i && later.dispatched()[j] == src by {
            if !self.closed_nodes().contains(src) {
                let j = choose|j: int| 0 <= j < i && self.dispatched()[j] == src;
                assert(later.dispatched()[j] == src);
            }
        }
    }

    /// Every entry of `entries` is, under the name of an input port of node
    /// `id`, what a source connected on that port produced: its stored
    /// snapshot, or the empty snapshot of a closed source.
    pub open spec fn from_sources(self, g: Map<i64, Node>, id: i64, entries: Seq<(String, OutputData)>) -> bool {
        forall|e: int| 0 <= e < entries.len() ==> self.from_source(g, id, #[trigger] entries[e])
    }

    pub open spec fn from_source(self, g: Map<i64, Node>, id: i64, entry: (String, OutputData)) -> bool {
        exists|p: int, k: int, src: i64|
            #[trigger] input_at(g[id], p, k, src) && g[id].input_ports()[p].0@ == entry.0@ && ((
            self.cached().contains_key(src) && self.cached()[src] == entry.1) || (
            self.closed_nodes().contains(src) && entry.1.entries().len() == 0))
    }

    /// Node `id` was handed `entries`: made of its sources' snapshots, with
    /// an entry for each input port that has a connection from a node that
    /// is not closed.
    pub open spec fn fed(self, g: Map<i64, Node>, id: i64, entries: Seq<(String, OutputData)>) -> bool {
        &&& self.from_sources(g, id, entries)
        &&& forall|p: int, k: int, src: i64| #[trigger]
            input_at(g[id], p, k, src) ==> self.closed_nodes().contains(src) || has_key(
                entries,
                g[id].input_ports()[p].0@,
            )
    }

    /// Every node with a stored snapshot was fed from its sources.
    pub open spec fn fed_all(self, g: Map<i64, Node>) -> bool {
        forall|v: i64| #[trigger]
            self.cached().contains_key(v) ==> self.given().contains_key(v) && self.fed(
                g,
                v,
                self.given()[v].entries(),
            )
    }

    proof fn lemma_from_sources_grows(self, later: EvalContext, g: Map<i64, Node>, id: i64, entries: Seq<(String, OutputData)>)
        requires
            self.from_sources(g, id, entries),
            self.grows_to(later),
        ensures
            later.from_sources(g, id, entries),
    {
        assert forall|e: int| 0 <= e < entries.len() implies later.from_source(g, id, #[trigger] entries[e]) by {
            assert(self.from_source(g, id, entries[e]));
            let (p, k, src) = choose|p: int, k: int, src: i64|
                #[trigger] input_at(g[id], p, k, src) && g[id].input_ports()[p].0@ == entries[e].0@ && ((
                self.cached().contains_key(src) && self.cached()[src] == entries[e].1) || (
                self.closed_nodes().contains(src) && entries[e].1.entries().len() == 0));
            assert(input_at(g[id], p, k, src));
            if self.cached().contains_key(src) && self.cached()[src] == entries[e].1 {
                assert(later.cached().contains_key(src));
            }
        }
    }

    proof fn lemma_fed_all_grows(self, later: EvalContext, g: Map<i64, Node>)
        requires
            self.fed_all(g),
            self.grows_to(later),
            later.cached().dom() == self.cached().dom(),
        ensures
            later.fed_all(g),
    {
        assert forall|v: i64| #[trigger] later.cached().contains_key(v) implies later.given().contains_key(v)
            && later.fed(g, v, later.given()[v].entries()) by {
            assert(self.cached().contains_key(v));
            let entries = self.given()[v].entries();
            self.lemma_from_sources_grows(later, g, v, entries);
        }
    }

    proof fn lemma_closed_qualify(self, g: Map<i64, Node>)
        requires
            self.sound(g),
        ensures
            forall|v: i64| #[trigger] self.closed_nodes().contains(v) ==> qualifies(g, v),
    {
        assert forall|v: i64| #[trigger] self.closed_nodes().contains(v) implies qualifies(g, v) by {
            assert(self.closed@.contains(v));
        }
    }

    /// The context of an evaluation that has not begun.
    pub open spec fn fresh(self) -> bool {
        &&& self.cached() == Map::<i64, OutputData>::empty()
        &&& self.closed_nodes() == Set::<i64>::empty()
        &&& self.dispatched() == Seq::<i64>::empty()
        &&& self.driven() == Set::<i64>::empty()
        &&& self.drives() == Seq::<(i64, i64, nat)>::empty()
        &&& self.evaluated() == Set::<i64>::empty()
        &&& self.outcomes() == Map::<i64, Result<OutputData, NodeError>>::empty()
        &&& self.given() == Map::<i64, InputData>::empty()
        &&& self.idle()
        &&& self.synced()
        &&& forall|g: Map<i64, Node>| #[trigger] self.sound(g) && self.ordered(g) && self.fed_all(g) && self.all_pruned(g)
    }

    pub fn new() -> (r: EvalContext)
        ensures
            r.cached() == Map::<i64, OutputData>::empty(),
            r.closed_nodes() == Set::<i64>::empty(),
            r.dispatched() == Seq::<i64>::empty(),
            r.fresh(),
            forall|g: Map<i64, Node>| r.sound(g),
            forall|g: Map<i64, Node>| r.ordered(g),
            forall|g: Map<i64, Node>| r.fed_all(g),
            forall|g: Map<i64, Node>| r.all_pruned(g),
            r.synced(),
            r.idle(),
    {
        let r = EvalContext {
            cache: HashMap::new(),
            closed: Vec::new(),
            path: Vec::new(),
            route: Vec::new(),
            dispatched: Ghost(Seq::empty()),
            given: Ghost(Map::empty()),
            driven: Ghost(Set::empty()),
            drive_log: Ghost(Seq::empty()),
            begun: Ghost(Set::empty()),
            outcomes: Ghost(Map::empty()),
            visits: Ghost(Map::empty()),
        };
        proof {
            assert(r.closed@.to_set() =~= Set::<i64>::empty());
        }
        r
    }
}

/// Connection `k` of input port `p` of `n` comes from `src`.
pub open spec fn input_at(n: Node, p: int, k: int, src: i64) -> bool {
    &&& 0 <= p < n.input_ports().len()
    &&& 0 <= k < n.input_ports()[p].1.connections@.len()
    &&& n.input_ports()[p].1.connections@[k].node == src
}

/// Output port `p` of node `id` is declared but was not produced, is not
/// the `action` port, and its connection `k` goes into an input port of
/// the same name.
pub open spec fn untaken(g: Map<i64, Node>, ctx: EvalContext, id: i64, p: int, k: int) -> bool {
    let ports = g[id].output_ports();
    &&& 0 <= p < ports.len()
    &&& 0 <= k < ports[p].1.connections@.len()
    &&& ports[p].0@ != "action"@
    &&& ports[p].1.connections@[k].input@ == ports[p].0@
    &&& !(ctx.cached().contains_key(id) && ctx.cached()[id].has_port(ports[p].0@))
}

/// Connection `j` of input port `q` of node `id` names an output port,
/// other than `action`, that its source did not produce, and the source is
/// not closed.
pub open spec fn unmet(g: Map<i64, Node>, ctx: EvalContext, id: i64, q: int, j: int) -> bool {
    let ports = g[id].input_ports();
    let c = ports[q].1.connections@[j];
    &&& 0 <= q < ports.len()
    &&& 0 <= j < ports[q].1.connections@.len()
    &&& c.output@ != "action"@
    &&& !ctx.closed_nodes().contains(c.node)
    &&& !(ctx.cached().contains_key(c.node) && ctx.cached()[c.node].has_port(c.output@))
}

/// Where a connection is unmet, node `id` and that source are closed with
/// their cascades; for the connections before `k` of port `p`, or all.
pub open spec fn unmet_closes(g: Map<i64, Node>, ctx: EvalContext, id: i64, p: int, k: int) -> bool {
    forall|q: int, j: int|
        (q < p || (q == p && j < k)) && #[trigger] unmet(g, ctx, id, q, j) ==> cascade(g, id).subset_of(
            ctx.closed_nodes(),
        ) && cascade(g, g[id].input_ports()[q].1.connections@[j].node).subset_of(ctx.closed_nodes())
}

proof fn lemma_unmet_closes_grows(a: EvalContext, b: EvalContext, g: Map<i64, Node>, id: i64, p: int, k: int)
    requires
        a.grows_to(b),
        unmet_closes(g, a, id, p, k),
    ensures
        unmet_closes(g, b, id, p, k),
{
    assert forall|q: int, j: int|
        (q < p || (q == p && j < k)) && #[trigger] unmet(g, b, id, q, j) implies cascade(g, id).subset_of(
            b.closed_nodes(),
        ) && cascade(g, g[id].input_ports()[q].1.connections@[j].node).subset_of(b.closed_nodes()) by {
        assert(unmet(g, a, id, q, j));
    }
}

/// Every entry of `entries` is named after an input port of node `id` that
/// has a connection from a node outside `closed`.
pub open spec fn from_open_sources(g: Map<i64, Node>, id: i64, entries: Seq<(String, OutputData)>, closed: Set<i64>) -> bool {
    forall|e: int|
        0 <= e < entries.len() ==> exists|p: int, k: int, src: i64|
            #[trigger] input_at(g[id], p, k, src) && g[id].input_ports()[p].0@ == (#[trigger] entries[e]).0@
                && !closed.contains(src)
}

/// Node `id` produced the output port through which a connection reaches `t`.
pub open spec fn produced_edge(g: Map<i64, Node>, ctx: EvalContext, id: i64, t: i64) -> bool {
    exists|p: int, k: int|
        #[trigger] feeds_at(g[id], p, k, t) && ctx.cached().contains_key(id) && ctx.cached()[id].has_port(
            g[id].output_ports()[p].0@,
        )
}

/// The terminal returned by the last drive of depth `depth` among entries
/// `lo` to `hi` of `log`; `default` when there is none.
pub open spec fn last_child(log: Seq<(i64, i64, nat)>, lo: int, hi: int, depth: nat, default: i64) -> i64
    decreases hi - lo,
{
    if hi <= lo {
        default
    } else if log[hi - 1].2 == depth {
        log[hi - 1].1
    } else {
        last_child(log, lo, hi - 1, depth, default)
    }
}

proof fn lemma_last_child_push(log: Seq<(i64, i64, nat)>, x: (i64, i64, nat), lo: int, hi: int, depth: nat, default: i64)
    requires
        0 <= lo,
        hi <= log.len(),
    ensures
        last_child(log.push(x), lo, hi, depth, default) == last_child(log, lo, hi, depth, default),
    decreases hi - lo,
{
    if hi > lo {
        assert(log.push(x)[hi - 1] == log[hi - 1]);
        lemma_last_child_push(log, x, lo, hi - 1, depth, default);
    }
}

/// The drive of `id` that began with `before` and ended with `after` is the
/// last entry of the log; the drives it made directly (one level deeper)
/// each went through a port `id` produced, and it returned the terminal of
/// the last of them, or `id` itself when it made none.
pub open spec fn drive_record(g: Map<i64, Node>, before: EvalContext, after: EvalContext, id: i64, t: i64) -> bool {
    let n0 = before.drives().len();
    let n1 = after.drives().len();
    let d = before.depth();
    &&& n1 > n0
    &&& after.drives().subrange(0, n0 as int) == before.drives()
    &&& after.drives()[n1 - 1] == (id, t, d as nat)
    &&& forall|i: int| n0 <= i < n1 - 1 ==> (#[trigger] after.drives()[i]).2 > d
    &&& forall|i: int|
        n0 <= i < n1 - 1 && (#[trigger] after.drives()[i]).2 == d + 1 ==> produced_edge(
            g,
            after,
            id,
            after.drives()[i].0,
        )
    &&& t == last_child(after.drives(), n0 as int, n1 - 1, (d + 1) as nat, id)
    &&& drives_cover(g, before, after, id, g[id].output_ports().len() as int, 0)
}

/// Each connection before connection `k` of port `p` of node `id`, on a
/// port that `id` produced, goes to a node that is closed or that a drive
/// one level below the drive of `id` followed.
pub open spec fn drives_cover(g: Map<i64, Node>, start: EvalContext, ctx: EvalContext, id: i64, p: int, k: int) -> bool {
    forall|q: int, j: int, t: i64|
        (q < p || (q == p && j < k)) && #[trigger] feeds_at(g[id], q, j, t) && ctx.cached().contains_key(id)
            && ctx.cached()[id].has_port(g[id].output_ports()[q].0@) ==> ctx.closed_nodes().contains(t)
            || exists|i: int|
            start.drives().len() <= i < ctx.drives().len() && (#[trigger] ctx.drives()[i]).0 == t
                && ctx.drives()[i].2 == start.depth() + 1
}

proof fn lemma_cover_grows(
    g: Map<i64, Node>,
    start: EvalContext,
    a: EvalContext,
    b: EvalContext,
    id: i64,
    p: int,
    k: int,
    out: OutputData,
)
    requires
        drives_cover(g, start, a, id, p, k),
        a.grows_to(b),
        b.drives().len() >= a.drives().len(),
        b.drives().subrange(0, a.drives().len() as int) == a.drives(),
        b.cached().contains_key(id) ==> b.cached()[id] == out,
        out.entries().len() == 0 || (a.cached().contains_key(id) && a.cached()[id] == out),
    ensures
        drives_cover(g, start, b, id, p, k),
{
    assert forall|q: int, j: int, t: i64|
        (q < p || (q == p && j < k)) && #[trigger] feeds_at(g[id], q, j, t) && b.cached().contains_key(id)
            && b.cached()[id].has_port(g[id].output_ports()[q].0@) implies b.closed_nodes().contains(t)
        || exists|i: int|
        start.drives().len() <= i < b.drives().len() && (#[trigger] b.drives()[i]).0 == t && b.drives()[i].2
            == start.depth() + 1 by {
        assert(out.has_port(g[id].output_ports()[q].0@));
        assert(out.entries().len() > 0);
        assert(feeds_at(g[id], q, j, t));
        if !a.closed_nodes().contains(t) {
            let i = choose|i: int|
                start.drives().len() <= i < a.drives().len() && (#[trigger] a.drives()[i]).0 == t
                    && a.drives()[i].2 == start.depth() + 1;
            assert(b.drives()[i] == b.drives().subrange(0, a.drives().len() as int)[i]);
        }
    }
}

proof fn lemma_stays_unstored(g: Map<i64, Node>, a: EvalContext, b: EvalContext, id: i64)
    requires
        a.synced(),
        a.grows_to(b),
        b.sound(g),
        !a.cached().contains_key(id),
        a.closed_nodes().contains(id),
    ensures
        !b.cached().contains_key(id),
{
    if b.cached().contains_key(id) {
        assert(b.dispatched@.contains(id));
        let i = choose|i: int| 0 <= i < b.dispatched@.len() && b.dispatched@[i] == id;
        if i < a.dispatched@.len() {
            assert(b.dispatched().subrange(0, a.dispatched().len() as int)[i] == id);
            assert(a.dispatched@.contains(id));
        }
    }
}

/// Partway through the drive of `id` that began with `start`: what
/// [`drive_record`] will say of the entries logged so far, with `end` the
/// terminal to return.
pub open spec fn drive_progress(g: Map<i64, Node>, start: EvalContext, ctx: EvalContext, id: i64, end: i64) -> bool {
    let n0 = start.drives().len();
    let n = ctx.drives().len();
    let d = start.depth();
    &&& n >= n0
    &&& ctx.drives().subrange(0, n0 as int) == start.drives()
    &&& forall|i: int| n0 <= i < n ==> (#[trigger] ctx.drives()[i]).2 > d
    &&& forall|i: int|
        n0 <= i < n && (#[trigger] ctx.drives()[i]).2 == d + 1 ==> produced_edge(g, ctx, id, ctx.drives()[i].0)
    &&& end == last_child(ctx.drives(), n0 as int, n as int, (d + 1) as nat, id)
}

proof fn lemma_drive_progress_grows(g: Map<i64, Node>, start: EvalContext, a: EvalContext, b: EvalContext, id: i64, end: i64)
    requires
        drive_progress(g, start, a, id, end),
        a.grows_to(b),
        b.drives() == a.drives(),
    ensures
        drive_progress(g, start, b, id, end),
{
    let n0 = start.drives().len();
    assert forall|i: int|
        n0 <= i < b.drives().len() && (#[trigger] b.drives()[i]).2 == start.depth() + 1 implies produced_edge(
        g,
        b,
        id,
        b.drives()[i].0,
    ) by {
        let t = b.drives()[i].0;
        assert(produced_edge(g, a, id, t));
        let (p, k) = choose|p: int, k: int|
            #[trigger] feeds_at(g[id], p, k, t) && a.cached().contains_key(id) && a.cached()[id].has_port(
                g[id].output_ports()[p].0@,
            );
        assert(feeds_at(g[id], p, k, t));
    }
}

proof fn lemma_drive_child(
    g: Map<i64, Node>,
    start: EvalContext,
    before: EvalContext,
    after: EvalContext,
    id: i64,
    end: i64,
    target: i64,
    t: i64,
)
    requires
        drive_progress(g, start, before, id, end),
        before.grows_to(after),
        before.depth() == start.depth() + 1,
        drive_record(g, before, after, target, t),
        produced_edge(g, after, id, target),
    ensures
        drive_progress(g, start, after, id, t),
{
    let n0 = start.drives().len() as int;
    let nb = before.drives().len() as int;
    let na = after.drives().len() as int;
    let d = start.depth();
    assert(after.drives().subrange(0, n0) =~= after.drives().subrange(0, nb).subrange(0, n0));
    assert forall|i: int| n0 <= i < na implies (#[trigger] after.drives()[i]).2 > d by {
        if i < nb {
            assert(after.drives()[i] == after.drives().subrange(0, nb)[i]);
            assert(before.drives()[i].2 > d);
        }
    }
    assert forall|i: int|
        n0 <= i < na && (#[trigger] after.drives()[i]).2 == d + 1 implies produced_edge(
        g,
        after,
        id,
        after.drives()[i].0,
    ) by {
        if i < nb {
            assert(after.drives()[i] == after.drives().subrange(0, nb)[i]);
            let x = before.drives()[i].0;
            assert(produced_edge(g, before, id, x));
            let (p, k) = choose|p: int, k: int|
                #[trigger] feeds_at(g[id], p, k, x) && before.cached().contains_key(id)
                    && before.cached()[id].has_port(g[id].output_ports()[p].0@);
            assert(feeds_at(g[id], p, k, x));
        } else if i < na - 1 {
            assert(after.drives()[i].2 > before.depth());
        }
    }
}

proof fn lemma_drive_finish(g: Map<i64, Node>, start: EvalContext, last: EvalContext, after: EvalContext, id: i64, end: i64)
    requires
        drive_progress(g, start, last, id, end),
        after.drives() == last.drives().push((id, end, start.depth())),
        last.grows_to(after),
        drives_cover(g, start, last, id, g[id].output_ports().len() as int, 0),
        after.cached() == last.cached(),
        after.closed_nodes() == last.closed_nodes(),
    ensures
        drive_record(g, start, after, id, end),
{
    let n0 = start.drives().len() as int;
    let np = g[id].output_ports().len() as int;
    assert forall|q: int, j: int, t: i64|
        (q < np || (q == np && j < 0)) && #[trigger] feeds_at(g[id], q, j, t) && after.cached().contains_key(id)
            && after.cached()[id].has_port(g[id].output_ports()[q].0@) implies after.closed_nodes().contains(t)
        || exists|i: int|
        start.drives().len() <= i < after.drives().len() && (#[trigger] after.drives()[i]).0 == t
            && after.drives()[i].2 == start.depth() + 1 by {
        assert(feeds_at(g[id], q, j, t));
        if !last.closed_nodes().contains(t) {
            let i = choose|i: int|
                start.drives().len() <= i < last.drives().len() && (#[trigger] last.drives()[i]).0 == t
                    && last.drives()[i].2 == start.depth() + 1;
            assert(after.drives()[i] == last.drives()[i]);
        }
    }
    let n = last.drives().len() as int;
    lemma_last_child_push(last.drives(), (id, end, start.depth()), n0, n, (start.depth() + 1) as nat, id);
    assert(after.drives().subrange(0, n0) =~= last.drives().subrange(0, n0));
    assert forall|i: int| n0 <= i < n implies (#[trigger] after.drives()[i]).2 > start.depth() by {
        assert(after.drives()[i] == last.drives()[i]);
    }
    assert forall|i: int|
        n0 <= i < n && (#[trigger] after.drives()[i]).2 == start.depth() + 1 implies produced_edge(
        g,
        after,
        id,
        after.drives()[i].0,
    ) by {
        assert(after.drives()[i] == last.drives()[i]);
        let x = last.drives()[i].0;
        assert(produced_edge(g, last, id, x));
        let (p, k) = choose|p: int, k: int|
            #[trigger] feeds_at(g[id], p, k, x) && last.cached().contains_key(id) && last.cached()[id].has_port(
                g[id].output_ports()[p].0@,
            );
        assert(feeds_at(g[id], p, k, x));
    }
}

/// `out` is what evaluation returns for the terminal `t`: its stored
/// snapshot, or the empty snapshot when `t` was closed instead.
pub open spec fn returns_terminal(ctx: EvalContext, t: i64, out: OutputData) -> bool {
    if ctx.cached().contains_key(t) {
        out == ctx.cached()[t]
    } else {
        ctx.closed_nodes().contains(t) && out.entries().len() == 0
    }
}

/// Every node whose evaluation began after `before` was driven, or is read
/// by another node whose evaluation began.
pub open spec fn begun_along_inputs(g: Map<i64, Node>, before: EvalContext, after: EvalContext, top: Set<i64>) -> bool {
    forall|v: i64|
        #[trigger] after.evaluated().contains(v) && !before.evaluated().contains(v) ==> top.contains(v)
            || exists|u: i64| after.evaluated().contains(u) && #[trigger] reads_from(g, u, v)
}

proof fn lemma_begun_child(
    g: Map<i64, Node>,
    start: EvalContext,
    before: EvalContext,
    after: EvalContext,
    id: i64,
    src: i64,
)
    requires
        begun_along_inputs(g, start, before, set![id]),
        begun_along_inputs(g, before, after, set![src]),
        reads_from(g, id, src),
        before.evaluated().contains(id),
        before.evaluated().subset_of(after.evaluated()),
    ensures
        begun_along_inputs(g, start, after, set![id]),
{
    assert forall|v: i64|
        #[trigger] after.evaluated().contains(v) && !start.evaluated().contains(v) implies set![id].contains(v)
        || exists|u: i64| after.evaluated().contains(u) && #[trigger] reads_from(g, u, v) by {
        if before.evaluated().contains(v) {
            if !set![id].contains(v) {
                let u = choose|u: i64| before.evaluated().contains(u) && #[trigger] reads_from(g, u, v);
                assert(after.evaluated().contains(u));
            }
        } else if set![src].contains(v) {
            assert(v == src);
            assert(after.evaluated().contains(id) && reads_from(g, id, v));
        }
    }
}

/// Every node driven after `before`, other than `id`, was reached through
/// a port that a driven node produced.
pub open spec fn driven_along_outputs(g: Map<i64, Node>, before: EvalContext, after: EvalContext, id: i64) -> bool {
    forall|v: i64|
        #[trigger] after.driven().contains(v) && !before.driven().contains(v) && v != id ==> exists|w: i64|
            after.driven().contains(w) && #[trigger] produced_edge(g, after, w, v)
}

proof fn lemma_produced_edge_grows(g: Map<i64, Node>, a: EvalContext, b: EvalContext, w: i64, v: i64)
    requires
        a.grows_to(b),
        produced_edge(g, a, w, v),
    ensures
        produced_edge(g, b, w, v),
{
    let (p, k) = choose|p: int, k: int|
        #[trigger] feeds_at(g[w], p, k, v) && a.cached().contains_key(w) && a.cached()[w].has_port(
            g[w].output_ports()[p].0@,
        );
    assert(feeds_at(g[w], p, k, v));
}

/// Partway through the drive of `id`: [`begun_along_inputs`] and
/// [`driven_along_outputs`], with `id` counted as driven.
pub open spec fn reach_progress(g: Map<i64, Node>, start: EvalContext, ctx: EvalContext, id: i64) -> bool {
    &&& begun_along_inputs(g, start, ctx, ctx.driven().insert(id))
    &&& forall|v: i64|
        #[trigger] ctx.driven().contains(v) && !start.driven().contains(v) ==> exists|w: i64|
            ctx.driven().insert(id).contains(w) && #[trigger] produced_edge(g, ctx, w, v)
    &&& start.driven().subset_of(ctx.driven())
}

proof fn lemma_reach_grows(g: Map<i64, Node>, start: EvalContext, a: EvalContext, b: EvalContext, id: i64)
    requires
        reach_progress(g, start, a, id),
        a.grows_to(b),
        b.driven() == a.driven(),
        b.evaluated() == a.evaluated(),
    ensures
        reach_progress(g, start, b, id),
{
    assert forall|v: i64|
        #[trigger] b.driven().contains(v) && !start.driven().contains(v) implies exists|w: i64|
        b.driven().insert(id).contains(w) && #[trigger] produced_edge(g, b, w, v) by {
        let w = choose|w: i64| a.driven().insert(id).contains(w) && #[trigger] produced_edge(g, a, w, v);
        lemma_produced_edge_grows(g, a, b, w, v);
    }
}

proof fn lemma_reach_child(g: Map<i64, Node>, start: EvalContext, before: EvalContext, after: EvalContext, id: i64, target: i64)
    requires
        reach_progress(g, start, before, id),
        before.grows_to(after),
        before.driven().subset_of(after.driven()),
        begun_along_inputs(g, before, after, after.driven()),
        driven_along_outputs(g, before, after, target),
        after.driven().contains(target),
        produced_edge(g, after, id, target),
    ensures
        reach_progress(g, start, after, id),
{
    assert forall|v: i64|
        #[trigger] after.evaluated().contains(v) && !start.evaluated().contains(v) implies after.driven().insert(
            id,
        ).contains(v) || exists|u: i64| after.evaluated().contains(u) && #[trigger] reads_from(g, u, v) by {
        if before.evaluated().contains(v) {
            if !before.driven().insert(id).contains(v) {
                let u = choose|u: i64| before.evaluated().contains(u) && #[trigger] reads_from(g, u, v);
                assert(after.evaluated().contains(u));
            }
        }
    }
    assert forall|v: i64|
        #[trigger] after.driven().contains(v) && !start.driven().contains(v) implies exists|w: i64|
        after.driven().insert(id).contains(w) && #[trigger] produced_edge(g, after, w, v) by {
        if before.driven().contains(v) {
            let w = choose|w: i64| before.driven().insert(id).contains(w) && #[trigger] produced_edge(g, before, w, v);
            lemma_produced_edge_grows(g, before, after, w, v);
            assert(after.driven().insert(id).contains(w));
        } else if v == target {
            assert(after.driven().insert(id).contains(id));
        } else {
            let w = choose|w: i64| after.driven().contains(w) && #[trigger] produced_edge(g, after, w, v);
            assert(after.driven().insert(id).contains(w));
        }
    }
}

/// Connection `j` of input port `q` of node `id`, as a spec value.
pub open spec fn in_conn(g: Map<i64, Node>, id: i64, q: int, j: int) -> crate::target::InputConnection {
    g[id].input_ports()[q].1.connections@[j]
}

pub open spec fn in_range(g: Map<i64, Node>, id: i64, q: int, j: int) -> bool {
    0 <= q < g[id].input_ports().len() && 0 <= j < g[id].input_ports()[q].1.connections@.len()
}

/// The connections before connection `k` of input port `p` of node `id`:
/// each was followed unless its source was closed; and where the snapshot
/// its source returned then lacked the port it names (not `action`), node
/// `id` and that source are closed with their cascades.
pub open spec fn visit_facts(g: Map<i64, Node>, ctx: EvalContext, id: i64, p: int, k: int) -> bool {
    forall|q: int, j: int|
        (q < p || (q == p && j < k)) && #[trigger] in_range(g, id, q, j) ==> (ctx.closed_nodes().contains(
            in_conn(g, id, q, j).node,
        ) || ctx.visited().contains_key((id, q, j))) && (ctx.visited().contains_key((id, q, j))
            && in_conn(g, id, q, j).output@ != "action"@ && !ctx.visited()[(id, q, j)].has_port(
            in_conn(g, id, q, j).output@,
        ) ==> cascade(g, id).subset_of(ctx.closed_nodes()) && cascade(
            g,
            in_conn(g, id, q, j).node,
        ).subset_of(ctx.closed_nodes()))
}

/// `entry` is, under the name of input port `q` of node `id`, the
/// snapshot returned when one of that port's connections before connection
/// `k` of port `p` was followed.
pub open spec fn handed_entry(g: Map<i64, Node>, ctx: EvalContext, id: i64, entry: (String, OutputData), p: int, k: int) -> bool {
    exists|q: int, j: int|
        (q < p || (q == p && j < k)) && #[trigger] in_range(g, id, q, j) && ctx.visited().contains_key((id, q, j))
            && entry.0@ == g[id].input_ports()[q].0@ && entry.1 == ctx.visited()[(id, q, j)]
}

/// Each entry of `entries` is a [`handed_entry`].
pub open spec fn handed_from_visits(
    g: Map<i64, Node>,
    ctx: EvalContext,
    id: i64,
    entries: Seq<(String, OutputData)>,
    p: int,
    k: int,
) -> bool {
    forall|e: int| 0 <= e < entries.len() ==> handed_entry(g, ctx, id, #[trigger] entries[e], p, k)
}

/// Entries of `before`'s visit record for the connections of node `id`
/// before connection `k` of port `p` are kept as they are.
pub open spec fn visits_kept_upto(before: EvalContext, after: EvalContext, id: i64, p: int, k: int) -> bool {
    forall|q: int, j: int|
        (q < p || (q == p && j < k)) ==> (#[trigger] after.visited().contains_key((id, q, j))
            == before.visited().contains_key((id, q, j))) && (before.visited().contains_key((id, q, j))
            ==> after.visited()[(id, q, j)] == before.visited()[(id, q, j)])
}

/// Entries of `before`'s visit record for nodes on `path` are kept as they are.
pub open spec fn visits_kept(before: EvalContext, after: EvalContext, path: Seq<i64>) -> bool {
    forall|key: (i64, int, int)|
        path.contains(key.0) ==> (#[trigger] after.visited().contains_key(key)
            == before.visited().contains_key(key)) && (before.visited().contains_key(key)
            ==> after.visited()[key] == before.visited()[key])
}

proof fn lemma_kept_chain(a: EvalContext, b: EvalContext, c: EvalContext, path: Seq<i64>, bigger: Seq<i64>)
    requires
        visits_kept(a, b, path),
        visits_kept(b, c, bigger),
        forall|x: i64| path.contains(x) ==> bigger.contains(x),
    ensures
        visits_kept(a, c, path),
{
    assert forall|key: (i64, int, int)| path.contains(key.0) implies (#[trigger] c.visited().contains_key(key)
        == a.visited().contains_key(key)) && (a.visited().contains_key(key) ==> c.visited()[key]
        == a.visited()[key]) by {
        assert(bigger.contains(key.0));
        assert(b.visited().contains_key(key) == a.visited().contains_key(key));
        assert(c.visited().contains_key(key) == b.visited().contains_key(key));
    }
}

proof fn lemma_kept_same(a: EvalContext, b: EvalContext, path: Seq<i64>)
    requires
        a.visited() == b.visited(),
    ensures
        visits_kept(a, b, path),
{
}

proof fn lemma_handed_entry_wider(g: Map<i64, Node>, ctx: EvalContext, id: i64, entry: (String, OutputData), p: int, k: int, p2: int, k2: int)
    requires
        handed_entry(g, ctx, id, entry, p, k),
        p < p2 || (p == p2 && k <= k2),
    ensures
        handed_entry(g, ctx, id, entry, p2, k2),
{
    let (q, j) = choose|q: int, j: int|
        (q < p || (q == p && j < k)) && #[trigger] in_range(g, id, q, j) && ctx.visited().contains_key((id, q, j))
            && entry.0@ == g[id].input_ports()[q].0@ && entry.1 == ctx.visited()[(id, q, j)];
    assert(in_range(g, id, q, j));
}

proof fn lemma_visit_facts_grows(g: Map<i64, Node>, a: EvalContext, b: EvalContext, id: i64, p: int, k: int)
    requires
        visit_facts(g, a, id, p, k),
        a.grows_to(b),
        visits_kept_upto(a, b, id, p, k),
    ensures
        visit_facts(g, b, id, p, k),
{
    assert forall|q: int, j: int|
        (q < p || (q == p && j < k)) && #[trigger] in_range(g, id, q, j) implies (b.closed_nodes().contains(
        in_conn(g, id, q, j).node,
    ) || b.visited().contains_key((id, q, j))) && (b.visited().contains_key((id, q, j))
        && in_conn(g, id, q, j).output@ != "action"@ && !b.visited()[(id, q, j)].has_port(
        in_conn(g, id, q, j).output@,
    ) ==> cascade(g, id).subset_of(b.closed_nodes()) && cascade(
        g,
        in_conn(g, id, q, j).node,
    ).subset_of(b.closed_nodes())) by {
        assert(b.visited().contains_key((id, q, j)) == a.visited().contains_key((id, q, j)));
    }
}

proof fn lemma_handed_grows(
    g: Map<i64, Node>,
    a: EvalContext,
    b: EvalContext,
    id: i64,
    entries: Seq<(String, OutputData)>,
    p: int,
    k: int,
)
    requires
        handed_from_visits(g, a, id, entries, p, k),
        visits_kept_upto(a, b, id, p, k),
    ensures
        handed_from_visits(g, b, id, entries, p, k),
{
    assert forall|e: int| 0 <= e < entries.len() implies handed_entry(g, b, id, #[trigger] entries[e], p, k) by {
        assert(handed_entry(g, a, id, entries[e], p, k));
        let (q, j) = choose|q: int, j: int|
            (q < p || (q == p && j < k)) && #[trigger] in_range(g, id, q, j) && a.visited().contains_key(
                (id, q, j),
            ) && entries[e].0@ == g[id].input_ports()[q].0@ && entries[e].1 == a.visited()[(id, q, j)];
        assert(b.visited().contains_key((id, q, j)) == a.visited().contains_key((id, q, j)));
        assert(in_range(g, id, q, j));
    }
}

/// Node `x` reads from node `y` through one of its input connections.
pub open spec fn reads_from(g: Map<i64, Node>, x: i64, y: i64) -> bool {
    exists|p: int, k: int| #[trigger] input_at(g[x], p, k, y)
}

/// Each node of `c` reads from the next.
pub open spec fn input_chain(g: Map<i64, Node>, c: Seq<i64>) -> bool {
    forall|i: int| 0 <= i < c.len() - 1 ==> #[trigger] reads_from(g, c[i], c[i + 1])
}

/// Each node of `c` feeds the next through an output connection.
pub open spec fn output_chain(g: Map<i64, Node>, c: Seq<i64>) -> bool {
    forall|i: int| 0 <= i < c.len() - 1 ==> #[trigger] feeds(g[c[i]], c[i + 1])
}

/// A chain of input connections leads from `x` back to `x`.
pub open spec fn depends_on_itself(g: Map<i64, Node>, x: i64) -> bool {
    exists|c: Seq<i64>| #[trigger] input_chain(g, c) && c.len() >= 2 && c[0] == x && c.last() == x
}

/// A chain of output connections leads from `x` back to `x`.
pub open spec fn feeds_itself(g: Map<i64, Node>, x: i64) -> bool {
    exists|c: Seq<i64>| #[trigger] output_chain(g, c) && c.len() >= 2 && c[0] == x && c.last() == x
}

/// The invocations appended from `a` to `c`, through `b`, avoid `path`
/// when those from `a` to `b` and from `b` to `c` do.
proof fn lemma_new_entries(a: EvalContext, b: EvalContext, c: EvalContext, path: Seq<i64>)
    requires
        a.grows_to(b),
        b.grows_to(c),
        forall|i: int|
            a.dispatched().len() <= i < b.dispatched().len() ==> !path.contains(#[trigger] b.dispatched()[i]),
        forall|i: int|
            b.dispatched().len() <= i < c.dispatched().len() ==> !path.contains(#[trigger] c.dispatched()[i]),
    ensures
        forall|i: int|
            a.dispatched().len() <= i < c.dispatched().len() ==> !path.contains(#[trigger] c.dispatched()[i]),
{
    assert forall|i: int| a.dispatched().len() <= i < c.dispatched().len() implies !path.contains(
        #[trigger] c.dispatched()[i],
    ) by {
        if i < b.dispatched().len() {
            assert(c.dispatched().subrange(0, b.dispatched().len() as int)[i] == c.dispatched()[i]);
            assert(b.dispatched()[i] == c.dispatched()[i]);
        }
    }
}

proof fn lemma_input_cycle(g: Map<i64, Node>, path: Seq<i64>, id: i64)
    requires
        input_chain(g, path),
        path.len() > 0 ==> reads_from(g, path.last(), id),
        path.contains(id),
    ensures
        depends_on_itself(g, id),
{
    let i = choose|i: int| 0 <= i < path.len() && path[i] == id;
    let c = path.subrange(i, path.len() as int).push(id);
    assert forall|j: int| 0 <= j < c.len() - 1 implies #[trigger] reads_from(g, c[j], c[j + 1]) by {
        if j < c.len() - 2 {
            assert(c[j] == path[i + j] && c[j + 1] == path[i + j + 1]);
            assert(reads_from(g, path[i + j], path[i + j + 1]));
        } else {
            assert(c[j] == path.last());
        }
    }
    assert(input_chain(g, c));
}

proof fn lemma_output_cycle(g: Map<i64, Node>, route: Seq<i64>, id: i64)
    requires
        output_chain(g, route),
        route.len() > 0 ==> feeds(g[route.last()], id),
        route.contains(id),
    ensures
        feeds_itself(g, id),
{
    let i = choose|i: int| 0 <= i < route.len() && route[i] == id;
    let c = route.subrange(i, route.len() as int).push(id);
    assert forall|j: int| 0 <= j < c.len() - 1 implies #[trigger] feeds(g[c[j]], c[j + 1]) by {
        if j < c.len() - 2 {
            assert(c[j] == route[i + j] && c[j + 1] == route[i + j + 1]);
            assert(feeds(g[route[i + j]], route[i + j + 1]));
        } else {
            assert(c[j] == route.last());
        }
    }
    assert(output_chain(g, c));
}

proof fn lemma_input_chain_push(g: Map<i64, Node>, path: Seq<i64>, id: i64)
    requires
        input_chain(g, path),
        path.len() > 0 ==> reads_from(g, path.last(), id),
    ensures
        input_chain(g, path.push(id)),
{
    let c = path.push(id);
    assert forall|j: int| 0 <= j < c.len() - 1 implies #[trigger] reads_from(g, c[j], c[j + 1]) by {
        if j < c.len() - 2 {
            assert(c[j] == path[j] && c[j + 1] == path[j + 1]);
        }
    }
}

proof fn lemma_output_chain_push(g: Map<i64, Node>, route: Seq<i64>, id: i64)
    requires
        output_chain(g, route),
        route.len() > 0 ==> feeds(g[route.last()], id),
    ensures
        output_chain(g, route.push(id)),
{
    let c = route.push(id);
    assert forall|j: int| 0 <= j < c.len() - 1 implies #[trigger] feeds(g[c[j]], c[j + 1]) by {
        if j < c.len() - 2 {
            assert(c[j] == route[j] && c[j + 1] == route[j + 1]);
        }
    }
}

/// The error `e` is the failure of the last worker that ran: its node's id
/// wrapped round exactly what that worker returned.
pub open spec fn failed_last(g: Map<i64, Node>, ctx: EvalContext, e: WorkerError) -> bool {
    match e {
        WorkerError::NodeRunError(n, inner) => {
            let last = ctx.dispatched().last();
            &&& ctx.dispatched().len() > 0
            &&& ctx.outcomes().contains_key(last)
            &&& ctx.outcomes()[last] == Err::<OutputData, NodeError>(inner)
            &&& g[last].id == n
        },
        WorkerError::WorkerNotFound(_) => true,
    }
}

/// What an error from dispatching node `n` says of it.
pub open spec fn blames(workers: Workers, g: Map<i64, Node>, n: i64, e: WorkerError) -> bool {
    match e {
        WorkerError::WorkerNotFound(name) => name@ == g[n].name@ && !workers.has_worker(name@),
        WorkerError::NodeRunError(id, _) => id == g[n].id,
    }
}

/// The graph `g` holds, under its decimal id, each member of the
/// description's `nodes` object, read as a node record.
pub open spec fn nodes_read(value: Json, g: HashMap<i64, Node>) -> bool {
    match value.field("nodes"@) {
        Some(Json::Object(ms)) => {
            &&& forall|k: i64|
                #[trigger] g@.contains_key(k) <==> exists|i: int|
                    0 <= i < ms@.len() && parsed_i64(ms@[i].0@) == Some(k)
            &&& forall|k: i64|
                #[trigger] g@.contains_key(k) ==> exists|i: int|
                    0 <= i < ms@.len() && parsed_i64(ms@[i].0@) == Some(k) && describes_node(
                        ms@[i].1,
                        g@[k],
                    )
        },
        _ => false,
    }
}

/// A description that reads without error: its `id` is `version`, and
/// `nodes` is an object whose every member is a node record under a
/// decimal `i64` key.
pub open spec fn well_formed_description(value: Json, version: Seq<char>) -> bool {
    &&& value.field("id"@) matches Some(Json::Str(v)) && v@ == version
    &&& value.field("nodes"@) matches Some(Json::Object(ms)) && forall|i: int|
        0 <= i < ms@.len() ==> parsed_i64((#[trigger] ms@[i]).0@) is Some && well_formed_node(ms@[i].1)
}

/// What reading the description `value` gives: the version must be the
/// engine's, and then each member of `nodes` is a node record under its id.
/// It succeeds exactly on a well-formed description.
pub open spec fn parse_outcome(version: Seq<char>, value: Json, r: Result<HashMap<i64, Node>, EngineError>) -> bool {
    (r is Ok <==> well_formed_description(value, version)) && parse_result(version, value, r)
}

pub open spec fn parse_result(version: Seq<char>, value: Json, r: Result<HashMap<i64, Node>, EngineError>) -> bool {
    match value.field("id"@) {
        Some(Json::Str(v)) => if v@ != version {
            r matches Err(EngineError::VersionMismatch(e, n)) && e@ == version && n@ == v@
        } else {
            match r {
                Ok(g) => nodes_read(value, g),
                Err(e) => e is Other,
            }
        },
        _ => r matches Err(EngineError::Other(_)),
    }
}

/// Computes the output of a designated node of a graph, using a registry of
/// workers selected by node type name.
pub struct Engine {
    id: String,
    workers: Workers,
}

impl Engine {
    pub closed spec fn version(self) -> Seq<char> {
        self.id@
    }

    pub closed spec fn registry(self) -> Workers {
        self.workers
    }

    pub fn new(id: &str, workers: Workers) -> (r: Engine)
        ensures
            r.version() == id@,
            r.registry() == workers,
    {
        Engine { id: id.to_owned(), workers }
    }

    /// Reads the graph from a description given as JSON text.
    pub fn parse_json(&self, json: &str) -> (r: Result<HashMap<i64, Node>, EngineError>)
        ensures
            parsed_json(json@) is None ==> r matches Err(EngineError::Other(_)),
            parsed_json(json@) matches Some(v) ==> exists|j: Json| j@ == v && parse_outcome(self.version(), j, r),
    {
        match parse_json_text(json) {
            Ok(value) => self.parse_value(value),
            Err(message) => Err(EngineError::Other(message)),
        }
    }

    /// Reads the graph from a description: checks the version first, then
    /// reads each node record of `nodes` under its id.
    pub fn parse_value(&self, value: Json) -> (r: Result<HashMap<i64, Node>, EngineError>)
        ensures
            parse_outcome(self.version(), value, r),
    {
        let version = match value.get("id") {
            Some(v) => match v.as_str() {
                Some(s) => s,
                None => {
                    return Err(EngineError::Other("Engine has no version".to_owned()));
                },
            },
            None => {
                return Err(EngineError::Other("Engine has no version".to_owned()));
            },
        };
        if !same_text(self.id.as_str(), version) {
            return Err(EngineError::VersionMismatch(self.id.clone(), version.to_owned()));
        }
        let members = match value.get("nodes") {
            Some(Json::Object(ms)) => ms,
            _ => {
                return Err(EngineError::Other("Graph has no nodes".to_owned()));
            },
        };
        let mut graph: HashMap<i64, Node> = HashMap::new();
        let mut i: usize = 0;
        while i < members.len()
            invariant
                i <= members@.len(),
                value.field("id"@) is Some,
                value.field("id"@)->Some_0 is Str,
                value.field("id"@)->Some_0->Str_0@ == self.id@,
                value.field("nodes"@) == Some(Json::Object(*members)),
                forall|q: int|
                    0 <= q < i ==> parsed_i64((#[trigger] members@[q]).0@) is Some && well_formed_node(
                        members@[q].1,
                    ),
                forall|k: i64|
                    #[trigger] graph@.contains_key(k) <==> exists|q: int|
                        0 <= q < i && parsed_i64(members@[q].0@) == Some(k),
                forall|k: i64|
                    #[trigger] graph@.contains_key(k) ==> exists|q: int|
                        0 <= q < i && parsed_i64(members@[q].0@) == Some(k) && describes_node(
                            members@[q].1,
                            graph@[k],
                        ),
            decreases members@.len() - i,
        {
            let key = match parse_i64(members[i].0.as_str()) {
                Some(k) => k,
                None => {
                    proof {
                        assert(!well_formed_description(value, self.id@)) by {
                            if well_formed_description(value, self.id@) {
                                let ms = value.field("nodes"@)->Some_0->Object_0;
                                assert(ms == *members);
                                assert(parsed_i64(ms@[i as int].0@) is Some);
                            }
                        }
                    }
                    return Err(EngineError::Other("Node key is not an integer".to_owned()));
                },
            };
            let node = match decode_node(&members[i].1) {
                Ok(n) => n,
                Err(e) => {
                    proof {
                        assert(!well_formed_description(value, self.id@)) by {
                            if well_formed_description(value, self.id@) {
                                let ms = value.field("nodes"@)->Some_0->Object_0;
                                assert(ms == *members);
                                assert(well_formed_node(ms@[i as int].1));
                            }
                        }
                    }
                    return Err(e);
                },
            };
            let ghost prev = graph@;
            graph.insert(key, node);
            proof {
                assert(parsed_i64(members@[i as int].0@) == Some(key));
                assert forall|k: i64|
                    #[trigger] graph@.contains_key(k) implies exists|q: int|
                        0 <= q < i + 1 && parsed_i64(members@[q].0@) == Some(k) && describes_node(
                            members@[q].1,
                            graph@[k],
                        ) by {
                    if k != key {
                        assert(prev.contains_key(k));
                    } else {
                        assert(describes_node(members@[i as int].1, graph@[k]));
                    }
                }
                assert forall|k: i64|
                    (exists|q: int| 0 <= q < i + 1 && parsed_i64(members@[q].0@) == Some(k))
                    implies #[trigger] graph@.contains_key(k) by {
                    let q = choose|q: int| 0 <= q < i + 1 && parsed_i64(members@[q].0@) == Some(k);
                    if q < i {
                        assert(prev.contains_key(k));
                    }
                }
            }
            i = i + 1;
        }
        Ok(graph)
    }

    /// Evaluates node `id`: the stored snapshot if there is one, the empty
    /// snapshot if the node is closed, else the node's worker run on the
    /// snapshots of its live sources.
    fn process_node(&self, nodes: &HashMap<i64, Node>, id: i64, ctx: &mut EvalContext) -> (r: Result<
        OutputData,
        EngineError,
    >)
        requires
            old(ctx).sound(nodes@),
            old(ctx).synced(),
            old(ctx).ordered(nodes@),
            old(ctx).fed_all(nodes@),
            input_chain(nodes@, old(ctx).path@),
            old(ctx).path@.len() > 0 ==> reads_from(nodes@, old(ctx).path@.last(), id),
        ensures
            final(ctx).sound(nodes@),
            final(ctx).ordered(nodes@),
            final(ctx).fed_all(nodes@),
            r matches Err(EngineError::Cycle(c)) ==> depends_on_itself(nodes@, c),
            forall|i: int|
                old(ctx).dispatched().len() <= i < final(ctx).dispatched().len() ==> !old(ctx).path@.contains(
                    #[trigger] final(ctx).dispatched()[i],
                ),
            r is Ok && !old(ctx).cached().contains_key(id) && final(ctx).cached().contains_key(id) ==> (
            final(ctx).dispatched().len() > old(ctx).dispatched().len() && final(ctx).dispatched().last()
                == id && self.workers.has_worker(nodes@[id].name@)),
            r is Err && !old(ctx).cached().contains_key(id) ==> !final(ctx).cached().contains_key(id),
            r is Ok && !old(ctx).cached().contains_key(id) && final(ctx).cached().contains_key(id)
                ==> from_open_sources(nodes@, id, final(ctx).given()[id].entries(), old(ctx).closed_nodes()),
            visits_kept(*old(ctx), *final(ctx), old(ctx).path@),
            r is Ok && !old(ctx).cached().contains_key(id) && !old(ctx).closed_nodes().contains(id)
                ==> visit_facts(nodes@, *final(ctx), id, nodes@[id].input_ports().len() as int, 0),
            r is Ok && !old(ctx).cached().contains_key(id) && final(ctx).cached().contains_key(id)
                ==> handed_from_visits(
                nodes@,
                *final(ctx),
                id,
                final(ctx).given()[id].entries(),
                nodes@[id].input_ports().len() as int,
                0,
            ),
            r is Ok ==> begun_along_inputs(nodes@, *old(ctx), *final(ctx), set![id]),
            r is Ok && !old(ctx).cached().contains_key(id) && !old(ctx).closed_nodes().contains(id)
                && !qualifies(nodes@, id) ==> final(ctx).cached().contains_key(id),
            r is Ok && !old(ctx).cached().contains_key(id) && !old(ctx).closed_nodes().contains(id)
                ==> unmet_closes(nodes@, *final(ctx), id, nodes@[id].input_ports().len() as int, 0),
            r is Err && !old(ctx).dispatched().contains(id) && final(ctx).dispatched().contains(id)
                ==> final(ctx).dispatched().last() == id && r matches Err(EngineError::WorkerError(_)),
            !(r matches Err(EngineError::WorkerError(_))) ==> final(ctx).synced(),
            final(ctx).settled(),
            r matches Err(EngineError::WorkerError(e)) ==> failed_last(nodes@, *final(ctx), e),
            old(ctx).grows_to(*final(ctx)),
            final(ctx).path@ == old(ctx).path@,
            final(ctx).route@ == old(ctx).route@,
            final(ctx).driven() == old(ctx).driven(),
            final(ctx).drives() == old(ctx).drives(),
            old(ctx).cached().contains_key(id) ==> r == Ok::<OutputData, EngineError>(
                old(ctx).cached()[id],
            ) && *final(ctx) == *old(ctx),
            !old(ctx).cached().contains_key(id) && old(ctx).closed_nodes().contains(id) ==> (r matches Ok(
                out,
            ) && out.entries().len() == 0) && *final(ctx) == *old(ctx),
            r matches Ok(out) ==> (final(ctx).cached().contains_key(id) && final(ctx).cached()[id] == out)
                || (final(ctx).closed_nodes().contains(id) && out.entries().len() == 0),
            r is Ok && !old(ctx).cached().contains_key(id) ==> (final(ctx).cached().contains_key(id)
                <==> !final(ctx).closed_nodes().contains(id)),
            !nodes@.contains_key(id) && !old(ctx).closed_nodes().contains(id) ==> r == Err::<
                OutputData,
                EngineError,
            >(EngineError::MissingNode(id)),
            r matches Err(EngineError::MissingNode(m)) ==> !nodes@.contains_key(m),
            r matches Err(EngineError::Cycle(c)) ==> nodes@.contains_key(c),
            r matches Err(EngineError::Cycle(c)) ==> depends_on_itself(nodes@, c) || feeds_itself(nodes@, c),
            r matches Err(EngineError::WorkerError(e)) ==> final(ctx).dispatched().len() > old(
                ctx,
            ).dispatched().len() && blames(
                self.workers,
                nodes@,
                final(ctx).dispatched().last(),
                e,
            ),
            !(r matches Err(EngineError::VersionMismatch(_, _))),
            !(r matches Err(EngineError::Other(_))),
        decreases nodes@.dom().len() - old(ctx).path@.len(),
    {
        proof {
            old(ctx).lemma_grows_refl();
            old(ctx).lemma_synced_settled();
            if !nodes@.contains_key(id) && ctx.cache@.contains_key(id) {
                assert(ctx.dispatched@.contains(id));
                let i = choose|i: int| 0 <= i < ctx.dispatched@.len() && ctx.dispatched@[i] == id;
                assert(nodes@.contains_key(ctx.dispatched@[i]));
            }
        }
        match ctx.cache.get(&id) {
            Some(out) => {
                return Ok(out.share());
            },
            None => {},
        }
        if contains_id(&ctx.closed, id) {
            return Ok(OutputData::empty());
        }
        let node = match nodes.get(&id) {
            Some(n) => n,
            None => {
                return Err(EngineError::MissingNode(id));
            },
        };
        if contains_id(&ctx.path, id) {
            proof {
                lemma_input_cycle(nodes@, ctx.path@, id);
            }
            return Err(EngineError::Cycle(id));
        }
        let ghost g = nodes@;
        let ghost start = *ctx;
        proof {
            crate::cascade::lemma_push_fits(ctx.path@, id, g.dom());
            lemma_input_chain_push(g, ctx.path@, id);
            ctx.begun@ = ctx.begun@.insert(id);
        }
        ctx.path.push(id);
        proof {
            start.lemma_grows_refl();
            assert(start.grows_to(*ctx));
            start.lemma_fed_all_grows(*ctx, g);
        }
        let mut builder = InputDataBuilder::new();
        match &node.inputs {
            Some(inputs) => {
                let ports = &inputs.0;
                let mut p: usize = 0;
                while p < ports.len()
                    invariant
                        g == nodes@,
                        ctx.sound(g),
                        ctx.synced(),
                        start.grows_to(*ctx),
                        ctx.path@ == start.path@.push(id),
                        ctx.route@ == start.route@,
                        !start.cache@.contains_key(id),
                        start == *old(ctx),
                        g.contains_key(id),
                        !start.closed_nodes().contains(id),
                        p <= ports@.len(),
                        start.path@.len() < g.dom().len(),
                        ctx.ordered(g),
                        *node == g[id],
                        node.inputs == Some(*inputs),
                        *ports == inputs.0,
                        forall|q: int, j: int, src: i64|
                            0 <= q < p && #[trigger] input_at(g[id], q, j, src) ==> ctx.closed_nodes().contains(
                                src,
                            ) || ctx.dispatched().contains(src),
                        ctx.fed_all(g),
                        ctx.driven() == start.driven(),
                        ctx.drives() == start.drives(),
                        ctx.evaluated().contains(id),
                        begun_along_inputs(g, start, *ctx, set![id]),
                        input_chain(g, start.path@.push(id)),
                        !start.path@.contains(id),
                        forall|i: int|
                            start.dispatched().len() <= i < ctx.dispatched().len() ==> !start.path@.push(
                                id,
                            ).contains(#[trigger] ctx.dispatched()[i]),
                        ctx.from_sources(g, id, builder.pending()),
                        unmet_closes(g, *ctx, id, p as int, 0),
                        visits_kept(start, *ctx, start.path@),
                        visit_facts(g, *ctx, id, p as int, 0),
                        handed_from_visits(g, *ctx, id, builder.pending(), p as int, 0),
                        from_open_sources(g, id, builder.pending(), start.closed_nodes()),
                        forall|q: int, j: int, src: i64|
                            0 <= q < p && #[trigger] input_at(g[id], q, j, src) ==> ctx.closed_nodes().contains(
                                src,
                            ) || has_key(builder.pending(), g[id].input_ports()[q].0@),
                    decreases ports@.len() - p,
                {
                    let name = &ports[p].0;
                    let conns = &ports[p].1.connections;
                    let mut k: usize = 0;
                    while k < conns.len()
                        invariant
                            g == nodes@,
                            ctx.sound(g),
                            ctx.synced(),
                            start.grows_to(*ctx),
                            ctx.path@ == start.path@.push(id),
                            ctx.route@ == start.route@,
                            !start.cache@.contains_key(id),
                            start == *old(ctx),
                            g.contains_key(id),
                            !start.closed_nodes().contains(id),
                            k <= conns@.len(),
                            start.path@.len() < g.dom().len(),
                            ctx.ordered(g),
                            *node == g[id],
                            node.inputs == Some(*inputs),
                            *ports == inputs.0,
                            p < ports@.len(),
                            *conns == ports@[p as int].1.connections,
                            forall|q: int, j: int, src: i64|
                                (0 <= q < p || (q == p && 0 <= j < k)) && #[trigger] input_at(g[id], q, j, src)
                                    ==> ctx.closed_nodes().contains(src) || ctx.dispatched().contains(src),
                            ctx.fed_all(g),
                            ctx.driven() == start.driven(),
                            ctx.drives() == start.drives(),
                            ctx.evaluated().contains(id),
                            begun_along_inputs(g, start, *ctx, set![id]),
                            input_chain(g, start.path@.push(id)),
                            !start.path@.contains(id),
                            forall|i: int|
                                start.dispatched().len() <= i < ctx.dispatched().len() ==> !start.path@.push(
                                    id,
                                ).contains(#[trigger] ctx.dispatched()[i]),
                            ctx.from_sources(g, id, builder.pending()),
                            unmet_closes(g, *ctx, id, p as int, k as int),
                            visits_kept(start, *ctx, start.path@),
                            visit_facts(g, *ctx, id, p as int, k as int),
                            handed_from_visits(g, *ctx, id, builder.pending(), p as int, k as int),
                            from_open_sources(g, id, builder.pending(), start.closed_nodes()),
                            forall|q: int, j: int, src: i64|
                                (0 <= q < p || (q == p && 0 <= j < k)) && #[trigger] input_at(g[id], q, j, src)
                                    ==> ctx.closed_nodes().contains(src) || has_key(
                                    builder.pending(),
                                    g[id].input_ports()[q].0@,
                                ),
                            *name == ports@[p as int].0,
                        decreases conns@.len() - k,
                    {
                        let conn = &conns[k];
                        let ghost at_start = *ctx;
                        proof {
                            at_start.lemma_grows_refl();
                        }
                        if !contains_id(&ctx.closed, conn.node) {
                            let ghost before = *ctx;
                            proof {
                                assert(input_at(g[id], p as int, k as int, conn.node));
                                assert(ctx.path@.last() == id);
                            }
                            let out = match self.process_node(nodes, conn.node, ctx) {
                                Ok(o) => o,
                                Err(e) => {
                                    proof {
                                        start.lemma_grows_trans(before, *ctx);
                                        lemma_new_entries(start, before, *ctx, start.path@.push(id));
                                        assert forall|x: i64| start.path@.contains(x) implies start.path@.push(id).contains(x) by {
                                            let w = choose|w: int| 0 <= w < start.path@.len() && start.path@[w] == x;
                                            assert(start.path@.push(id)[w] == x);
                                        }
                                        lemma_kept_chain(start, before, *ctx, start.path@, start.path@.push(id));
                                    }
                                    let ghost full_ctx = *ctx;
                                    ctx.path.pop();
                                    proof {
                                        assert(ctx.path@ =~= start.path@);
                                        full_ctx.lemma_pop_sound(*ctx, g);
                                        lemma_kept_same(full_ctx, *ctx, start.path@);
                                        lemma_kept_chain(start, full_ctx, *ctx, start.path@, start.path@);
                                        assert forall|i: int|
                                            start.dispatched().len() <= i < ctx.dispatched().len() implies !start.path@.contains(
                                                #[trigger] ctx.dispatched()[i],
                                            ) by {
                                            assert(!start.path@.push(id).contains(ctx.dispatched()[i]));
                                            if start.path@.contains(ctx.dispatched()[i]) {
                                                let w = choose|w: int| 0 <= w < start.path@.len() && start.path@[w] == ctx.dispatched()[i];
                                                assert(start.path@.push(id)[w] == ctx.dispatched()[i]);
                                            }
                                        }
                                        if !start.dispatched().contains(id) && ctx.dispatched().contains(id) {
                                            let w = choose|w: int| 0 <= w < ctx.dispatched().len() && ctx.dispatched()[w] == id;
                                            if w < start.dispatched().len() {
                                                assert(ctx.dispatched().subrange(0, start.dispatched().len() as int)[w] == id);
                                            } else {
                                                assert(!start.path@.push(id).contains(ctx.dispatched()[w]));
                                                assert(start.path@.push(id)[start.path@.len() as int] == id);
                                            }
                                        }
                                    }
                                    return Err(e);
                                },
                            };
                            let ghost after_call = *ctx;
                            proof {
                                assert(reads_from(g, id, conn.node));
                                lemma_begun_child(g, start, before, *ctx, id, conn.node);
                                assert(visits_kept(before, after_call, start.path@.push(id)));
                                assert(before == at_start);
                            }
                            let ghost mid = *ctx;
                            if !out.contains_key(conn.output.as_str()) && !same_text(
                                conn.output.as_str(),
                                "action",
                            ) {
                                disable_node_tree(nodes, conn.node, &mut ctx.closed);
                                disable_node_tree(nodes, id, &mut ctx.closed);
                            }
                            proof {
                                mid.lemma_grows_refl();
                                assert(mid.grows_to(*ctx));
                                start.lemma_grows_trans(before, mid);
                                start.lemma_grows_trans(mid, *ctx);
                                mid.lemma_ordered_grows(*ctx, g);
                                before.lemma_grows_trans(mid, *ctx);
                                mid.lemma_fed_all_grows(*ctx, g);
                                before.lemma_from_sources_grows(*ctx, g, id, builder.pending());
                                assert(mid.cached().contains_key(conn.node) || mid.closed_nodes().contains(conn.node));
                                if mid.cached().contains_key(conn.node) {
                                    assert(mid.dispatched().contains(conn.node));
                                }
                                assert(ctx.closed_nodes().contains(conn.node) || ctx.dispatched().contains(conn.node));
                                assert(g[id].input_ports()[p as int].1.connections@[k as int] == *conn);
                                if unmet(g, *ctx, id, p as int, k as int) {
                                    assert(!mid.closed_nodes().contains(conn.node));
                                    assert(!out.has_port(conn.output@));
                                }
                                assert(unmet(g, *ctx, id, p as int, k as int) ==> cascade(g, id).subset_of(
                                    ctx.closed_nodes(),
                                ) && cascade(g, conn.node).subset_of(ctx.closed_nodes()));
                            }
                            let ghost old_pending = builder.pending();
                            let key = name.clone();
                            proof {
                                assert(ctx.from_source(g, id, (key, out))) by {
                                    assert(input_at(g[id], p as int, k as int, conn.node));
                                }
                            }
                            builder = builder.add_data(key, out);
                            proof {
                                assert(!start.closed_nodes().contains(conn.node));
                                assert forall|e: int| 0 <= e < builder.pending().len() implies exists|
                                    q: int,
                                    j: int,
                                    src: i64,
                                |
                                    #[trigger] input_at(g[id], q, j, src) && g[id].input_ports()[q].0@ == (
                                    #[trigger] builder.pending()[e]).0@ && !start.closed_nodes().contains(src) by {
                                    if e < old_pending.len() {
                                        assert(builder.pending()[e] == old_pending[e]);
                                    } else {
                                        assert(input_at(g[id], p as int, k as int, conn.node));
                                    }
                                }
                                assert forall|e: int| 0 <= e < builder.pending().len() implies ctx.from_source(
                                    g,
                                    id,
                                    #[trigger] builder.pending()[e],
                                ) by {
                                    if e < old_pending.len() {
                                        assert(builder.pending()[e] == old_pending[e]);
                                    }
                                }
                                assert(builder.pending()[old_pending.len() as int].0@ == name@);
                                assert(has_key(builder.pending(), g[id].input_ports()[p as int].0@));
                                assert forall|q: int, j: int, src: i64|
                                    (0 <= q < p || (q == p && 0 <= j < k)) && #[trigger] input_at(g[id], q, j, src)
                                        && !ctx.closed_nodes().contains(src) implies has_key(
                                        builder.pending(),
                                        g[id].input_ports()[q].0@,
                                    ) by {
                                    let w = choose|w: int|
                                        0 <= w < old_pending.len() && old_pending[w].0@ == g[id].input_ports()[q].0@;
                                    assert(builder.pending()[w] == old_pending[w]);
                                }
                            }
                            let ghost pre_visit = *ctx;
                            proof {
                                assert(pre_visit.visited() == after_call.visited());
                                ctx.visits@ = ctx.visits@.insert((id, p as int, k as int), out);
                                assert(forall|key: (i64, int, int)|
                                    start.path@.push(id).contains(key.0) ==> (#[trigger] pre_visit.visited().contains_key(key)
                                        == at_start.visited().contains_key(key)) && (at_start.visited().contains_key(key)
                                        ==> pre_visit.visited()[key] == at_start.visited()[key]));
                                assert forall|key: (i64, int, int)|
                                    start.path@.contains(key.0) implies (#[trigger] ctx.visited().contains_key(key)
                                    == at_start.visited().contains_key(key)) && (at_start.visited().contains_key(key)
                                    ==> ctx.visited()[key] == at_start.visited()[key]) by {
                                    let w = choose|w: int| 0 <= w < start.path@.len() && start.path@[w] == key.0;
                                    assert(start.path@.push(id)[w] == key.0);
                                    assert(key.0 != id);
                                    assert(pre_visit.visited().contains_key(key) == at_start.visited().contains_key(key));
                                }
                                assert forall|q: int, j: int|
                                    (q < p || (q == p && j < k)) implies (#[trigger] ctx.visited().contains_key((id, q, j))
                                    == at_start.visited().contains_key((id, q, j))) && (at_start.visited().contains_key(
                                    (id, q, j),
                                ) ==> ctx.visited()[(id, q, j)] == at_start.visited()[(id, q, j)]) by {
                                    assert(start.path@.push(id)[start.path@.len() as int] == id);
                                    assert(start.path@.push(id).contains(id));
                                    assert(pre_visit.visited().contains_key((id, q, j)) == at_start.visited().contains_key((id, q, j)));
                                }
                                assert(visits_kept_upto(at_start, *ctx, id, p as int, k as int));
                                assert(visits_kept(at_start, *ctx, start.path@));
                                assert(ctx.visited()[(id, p as int, k as int)] == out);
                                assert(ctx.visited().contains_key((id, p as int, k as int)));
                                assert(in_conn(g, id, p as int, k as int) == *conn);
                                assert(ctx.visited().contains_key((id, p as int, k as int)) && in_conn(g, id, p as int, k as int).output@
                                    != "action"@ && !ctx.visited()[(id, p as int, k as int)].has_port(
                                    in_conn(g, id, p as int, k as int).output@,
                                ) ==> cascade(g, id).subset_of(ctx.closed_nodes()) && cascade(
                                    g,
                                    in_conn(g, id, p as int, k as int).node,
                                ).subset_of(ctx.closed_nodes()));
                                assert(handed_entry(g, *ctx, id, builder.pending().last(), p as int, k as int + 1)) by {
                                    assert(in_range(g, id, p as int, k as int));
                                }
                            }
                        } else {
                            proof {
                                ctx.visits@ = ctx.visits@.remove((id, p as int, k as int));
                                assert(visits_kept_upto(at_start, *ctx, id, p as int, k as int));
                                assert forall|key: (i64, int, int)|
                                    start.path@.contains(key.0) implies (#[trigger] ctx.visited().contains_key(key)
                                    == at_start.visited().contains_key(key)) && (at_start.visited().contains_key(key)
                                    ==> ctx.visited()[key] == at_start.visited()[key]) by {
                                    assert(key.0 != id);
                                }
                                assert(visits_kept(at_start, *ctx, start.path@));
                                assert(!ctx.visited().contains_key((id, p as int, k as int)));
                                at_start.lemma_grows_refl();
                                assert(at_start.grows_to(*ctx));
                            }
                        }
                        proof {
                            assert(at_start.grows_to(*ctx));
                            lemma_unmet_closes_grows(at_start, *ctx, g, id, p as int, k as int);
                            assert(visits_kept_upto(at_start, *ctx, id, p as int, k as int));
                            lemma_kept_chain(start, at_start, *ctx, start.path@, start.path@);
                            lemma_visit_facts_grows(g, at_start, *ctx, id, p as int, k as int);
                            assert(in_conn(g, id, p as int, k as int) == *conn);
                            assert forall|q: int, j: int|
                                (q < p || (q == p && j < k + 1)) && #[trigger] in_range(g, id, q, j) implies (
                                ctx.closed_nodes().contains(in_conn(g, id, q, j).node) || ctx.visited().contains_key(
                                    (id, q, j),
                                )) && (ctx.visited().contains_key((id, q, j)) && in_conn(g, id, q, j).output@
                                != "action"@ && !ctx.visited()[(id, q, j)].has_port(in_conn(g, id, q, j).output@)
                                ==> cascade(g, id).subset_of(ctx.closed_nodes()) && cascade(
                                g,
                                in_conn(g, id, q, j).node,
                            ).subset_of(ctx.closed_nodes())) by {
                                if q == p && j == k {
                                    assert(in_conn(g, id, q, j) == *conn);
                                    if at_start.closed_nodes().contains(conn.node) {
                                        assert(ctx.closed_nodes().contains(conn.node));
                                    } else {
                                        assert(ctx.visited().contains_key((id, q, j)));
                                    }
                                }
                            }
                            assert(g[id].input_ports()[p as int].1.connections@[k as int] == *conn);
                            assert forall|q: int, j: int|
                                (q < p || (q == p && j < k + 1)) && #[trigger] unmet(g, *ctx, id, q, j) implies cascade(
                                g,
                                id,
                            ).subset_of(ctx.closed_nodes()) && cascade(
                                g,
                                g[id].input_ports()[q].1.connections@[j].node,
                            ).subset_of(ctx.closed_nodes()) by {
                                if q == p && j == k {
                                    if at_start.closed_nodes().contains(conn.node) {
                                        assert(ctx.closed_nodes().contains(conn.node));
                                    }
                                }
                            }
                            assert forall|q: int, j: int, src: i64|
                                (0 <= q < p || (q == p && 0 <= j < k + 1)) && #[trigger] input_at(g[id], q, j, src)
                                implies ctx.closed_nodes().contains(src) || ctx.dispatched().contains(src) by {
                                if q == p && j == k {
                                    assert(src == conn.node);
                                } else if at_start.dispatched().contains(src) {
                                    let w = choose|w: int| 0 <= w < at_start.dispatched().len() && at_start.dispatched()[w] == src;
                                    assert(ctx.dispatched().subrange(0, at_start.dispatched().len() as int)[w] == src);
                                    assert(ctx.dispatched()[w] == src);
                                }
                            }
                        }
                        k = k + 1;
                    }
                    p = p + 1;
                }
            },
            None => {},
        }
        let ghost full_ctx = *ctx;
        proof {
            assert(full_ctx.path@.contains(id)) by {
                assert(full_ctx.path@[full_ctx.path@.len() - 1] == id);
            }
        }
        proof {
            if node.inputs is None {
                start.lemma_fed_all_grows(full_ctx, g);
                assert(g[id].input_ports().len() == 0);
                lemma_kept_same(start, full_ctx, start.path@);
                assert(builder.pending().len() == 0);
            }
            assert(unmet_closes(g, full_ctx, id, g[id].input_ports().len() as int, 0));
            assert(visits_kept(start, full_ctx, start.path@));
            assert(visit_facts(g, full_ctx, id, g[id].input_ports().len() as int, 0));
            assert(handed_from_visits(g, full_ctx, id, builder.pending(), g[id].input_ports().len() as int, 0));
        }
        ctx.path.pop();
        proof {
            assert(ctx.path@ =~= start.path@);
            full_ctx.lemma_pop_sound(*ctx, g);
            full_ctx.lemma_grows_refl();
            full_ctx.lemma_fed_all_grows(*ctx, g);
            lemma_unmet_closes_grows(full_ctx, *ctx, g, id, g[id].input_ports().len() as int, 0);
        }
        let ghost popped = *ctx;
        proof {
            lemma_kept_same(full_ctx, popped, start.path@);
            lemma_kept_chain(start, full_ctx, popped, start.path@, start.path@);
        }
        if contains_id(&ctx.closed, id) {
            proof {
                ctx.lemma_synced_settled();
                lemma_visit_facts_grows(g, full_ctx, *ctx, id, g[id].input_ports().len() as int, 0);
            }
            return Ok(OutputData::empty());
        }
        let input = builder.build();
        let ghost before_call = *ctx;
        proof {
            assert(before_call.fed(g, id, input.entries()));
            ctx.dispatched@ = ctx.dispatched@.push(id);
            ctx.given@ = ctx.given@.insert(id, input);
            assert(!before_call.dispatched@.contains(id));
            assert(ctx.dispatched@.no_duplicates()) by {
                let d = ctx.dispatched@;
                assert forall|i: int, j: int| 0 <= i < d.len() && 0 <= j < d.len() && i != j implies d[i]
                    != d[j] by {
                    if i < d.len() - 1 && j < d.len() - 1 {
                        assert(d[i] == before_call.dispatched@[i]);
                        assert(d[j] == before_call.dispatched@[j]);
                    } else if i < d.len() - 1 {
                        assert(before_call.dispatched@.contains(d[i]));
                    } else {
                        assert(before_call.dispatched@.contains(d[j]));
                    }
                }
            }
            assert(ctx.dispatched@.subrange(0, before_call.dispatched@.len() as int) =~= before_call.dispatched@);
            assert(before_call.grows_to(*ctx)) by {
                let n = start.dispatched@.len() as int;
                assert(ctx.dispatched@.subrange(0, n) =~= ctx.dispatched@.subrange(0, before_call.dispatched@.len() as int).subrange(0, n));
            }
            start.lemma_grows_trans(before_call, *ctx);
            assert forall|i: int| 0 <= i < ctx.dispatched@.len() implies g.contains_key(
                #[trigger] ctx.dispatched@[i],
            ) by {
                if i < ctx.dispatched@.len() - 1 {
                    assert(ctx.dispatched@[i] == before_call.dispatched@[i]);
                }
            }
            assert(ctx.sound(g));
            assert forall|i: int, p: int, k: int, src: i64|
                0 <= i < ctx.dispatched().len() && #[trigger] input_at(g[ctx.dispatched()[i]], p, k, src)
                implies ctx.closed_nodes().contains(src) || exists|j: int|
                0 <= j < i && ctx.dispatched()[j] == src by {
                let n = before_call.dispatched().len() as int;
                if i < n {
                    assert(ctx.dispatched()[i] == before_call.dispatched()[i]);
                    if !ctx.closed_nodes().contains(src) {
                        let j = choose|j: int| 0 <= j < i && before_call.dispatched()[j] == src;
                        assert(ctx.dispatched()[j] == src);
                    }
                } else {
                    assert(ctx.dispatched()[i] == id);
                    assert(input_at(g[id], p, k, src));
                    if !ctx.closed_nodes().contains(src) {
                        assert(before_call.dispatched().contains(src));
                        let j = choose|j: int| 0 <= j < n && before_call.dispatched()[j] == src;
                        assert(ctx.dispatched()[j] == src);
                    }
                }
            }
            assert forall|i: int| 0 <= i < ctx.dispatched().len() - 1 implies ctx.cached().contains_key(
                #[trigger] ctx.dispatched()[i],
            ) by {
                assert(ctx.dispatched()[i] == before_call.dispatched@[i]);
                assert(before_call.dispatched@.contains(before_call.dispatched@[i]));
            }
        }
        let worker = match self.workers.find(node.name.as_str()) {
            Some(w) => w,
            None => {
                proof {
                    before_call.lemma_fed_all_grows(*ctx, g);
                }
                proof {
                    lemma_kept_same(popped, *ctx, start.path@);
                    lemma_kept_chain(start, popped, *ctx, start.path@, start.path@);
                }
                return Err(EngineError::WorkerError(WorkerError::WorkerNotFound(node.name.clone())));
            },
        };
        let result = worker.work(node, input);
        let ghost recorded = *ctx;
        proof {
            ctx.outcomes@ = ctx.outcomes@.insert(id, result);
            assert(recorded.grows_to(*ctx)) by {
                recorded.lemma_grows_refl();
                assert(!recorded.outcomes@.contains_key(id));
            }
            before_call.lemma_grows_trans(recorded, *ctx);
            before_call.lemma_fed_all_grows(*ctx, g);
        }
        let ghost after_dispatch = *ctx;
        let out = match node_run_result(node.id, result) {
            Ok(o) => o,
            Err(e) => {
                proof {
                    lemma_kept_same(popped, *ctx, start.path@);
                    lemma_kept_chain(start, popped, *ctx, start.path@, start.path@);
                }
                return Err(EngineError::WorkerError(e));
            },
        };
        ctx.cache.insert(id, out.share());
        proof {
            assert(after_dispatch.grows_to(*ctx)) by {
                assert(ctx.dispatched@.subrange(0, after_dispatch.dispatched@.len() as int) =~= after_dispatch.dispatched@);
            }
            before_call.lemma_grows_trans(after_dispatch, *ctx);
            lemma_unmet_closes_grows(before_call, *ctx, g, id, g[id].input_ports().len() as int, 0);
            assert forall|v: i64| #[trigger] ctx.cached().contains_key(v) implies ctx.given().contains_key(v)
                && ctx.fed(g, v, ctx.given()[v].entries()) by {
                if v == id {
                    before_call.lemma_from_sources_grows(*ctx, g, id, input.entries());
                } else {
                    assert(before_call.cached().contains_key(v));
                    assert(ctx.given()[v] == before_call.given()[v]);
                    before_call.lemma_from_sources_grows(*ctx, g, v, before_call.given()[v].entries());
                }
            }
            assert forall|v: i64| ctx.dispatched@.contains(v) <==> ctx.cache@.contains_key(v) by {
                if v != id {
                    if ctx.dispatched@.contains(v) {
                        let i = choose|i: int| 0 <= i < ctx.dispatched@.len() && ctx.dispatched@[i] == v;
                        assert(before_call.dispatched@[i] == v);
                    }
                    if before_call.dispatched@.contains(v) {
                        let i = choose|i: int| 0 <= i < before_call.dispatched@.len() && before_call.dispatched@[i] == v;
                        assert(ctx.dispatched@[i] == v);
                    }
                } else {
                    assert(ctx.dispatched@[ctx.dispatched@.len() - 1] == id);
                }
            }
        }
        proof {
            lemma_kept_same(popped, *ctx, start.path@);
            lemma_kept_chain(start, popped, *ctx, start.path@, start.path@);
            lemma_visit_facts_grows(g, full_ctx, *ctx, id, g[id].input_ports().len() as int, 0);
            lemma_handed_grows(g, full_ctx, *ctx, id, input.entries(), g[id].input_ports().len() as int, 0);
        }
        Ok(out)
    }

    /// Follows node `id` forward: evaluates it, drives on along each output
    /// port it produced, and disables what hangs off each declared port it
    /// did not produce. Returns the last node reached on the path taken.
    fn process_nodes(&self, nodes: &HashMap<i64, Node>, id: i64, ctx: &mut EvalContext) -> (r: Result<
        i64,
        EngineError,
    >)
        requires
            old(ctx).sound(nodes@),
            old(ctx).synced(),
            old(ctx).ordered(nodes@),
            old(ctx).fed_all(nodes@),
            old(ctx).all_pruned(nodes@),
            old(ctx).path@.len() == 0,
            output_chain(nodes@, old(ctx).route@),
            old(ctx).route@.len() > 0 ==> feeds(nodes@[old(ctx).route@.last()], id),
        ensures
            r matches Err(EngineError::Cycle(c)) ==> depends_on_itself(nodes@, c) || feeds_itself(nodes@, c),
            final(ctx).sound(nodes@),
            final(ctx).ordered(nodes@),
            final(ctx).fed_all(nodes@),
            r is Ok ==> final(ctx).all_pruned(nodes@),
            r is Ok && !old(ctx).closed_nodes().contains(id) ==> final(ctx).driven().contains(id),
            r is Ok && !old(ctx).closed_nodes().contains(id) ==> drive_record(
                nodes@,
                *old(ctx),
                *final(ctx),
                id,
                r->Ok_0,
            ),
            r is Ok ==> old(ctx).driven().subset_of(final(ctx).driven()),
            r is Ok ==> begun_along_inputs(nodes@, *old(ctx), *final(ctx), final(ctx).driven()),
            r is Ok ==> driven_along_outputs(nodes@, *old(ctx), *final(ctx), id),
            !(r matches Err(EngineError::WorkerError(_))) ==> final(ctx).synced(),
            final(ctx).settled(),
            r matches Err(EngineError::WorkerError(e)) ==> failed_last(nodes@, *final(ctx), e),
            old(ctx).grows_to(*final(ctx)),
            final(ctx).path@.len() == 0,
            final(ctx).route@ == old(ctx).route@,
            old(ctx).closed_nodes().contains(id) ==> r == Ok::<i64, EngineError>(id) && *final(ctx)
                == *old(ctx),
            r matches Ok(t) ==> t == id || nodes@.contains_key(t),
            r matches Ok(t) ==> final(ctx).cached().contains_key(t) || final(ctx).closed_nodes().contains(t),
            !nodes@.contains_key(id) && !old(ctx).closed_nodes().contains(id) ==> r == Err::<
                i64,
                EngineError,
            >(EngineError::MissingNode(id)),
            r matches Err(EngineError::MissingNode(m)) ==> !nodes@.contains_key(m),
            r matches Err(EngineError::Cycle(c)) ==> nodes@.contains_key(c),
            r matches Err(EngineError::Cycle(c)) ==> depends_on_itself(nodes@, c) || feeds_itself(nodes@, c),
            r matches Err(EngineError::WorkerError(e)) ==> final(ctx).dispatched().len() > old(
                ctx,
            ).dispatched().len() && blames(
                self.workers,
                nodes@,
                final(ctx).dispatched().last(),
                e,
            ),
            !(r matches Err(EngineError::VersionMismatch(_, _))),
            !(r matches Err(EngineError::Other(_))),
        decreases nodes@.dom().len() - old(ctx).route@.len(),
    {
        proof {
            old(ctx).lemma_grows_refl();
            old(ctx).lemma_synced_settled();
        }
        if contains_id(&ctx.closed, id) {
            return Ok(id);
        }
        if contains_id(&ctx.route, id) {
            proof {
                lemma_output_cycle(nodes@, ctx.route@, id);
            }
            return Err(EngineError::Cycle(id));
        }
        let ghost g = nodes@;
        let ghost start = *ctx;
        let out = match self.process_node(nodes, id, ctx) {
            Ok(o) => o,
            Err(e) => {
                return Err(e);
            },
        };
        let node = match nodes.get(&id) {
            Some(n) => n,
            None => {
                return Err(EngineError::MissingNode(id));
            },
        };
        proof {
            crate::cascade::lemma_push_fits(ctx.route@, id, g.dom());
            lemma_output_chain_push(g, ctx.route@, id);
        }
        let ghost pushed = *ctx;
        ctx.route.push(id);
        proof {
            pushed.lemma_grows_refl();
            assert forall|v: i64| #[trigger] ctx.route@.contains(v) implies g.contains_key(v) by {
                if v != id {
                    let i = choose|i: int| 0 <= i < ctx.route@.len() && ctx.route@[i] == v;
                    assert(pushed.route@[i] == v);
                }
            }
            assert(ctx.route@.no_duplicates()) by {
                let d = ctx.route@;
                assert forall|i: int, j: int| 0 <= i < d.len() && 0 <= j < d.len() && i != j implies d[i]
                    != d[j] by {
                    if i < d.len() - 1 && j < d.len() - 1 {
                        assert(d[i] == pushed.route@[i] && d[j] == pushed.route@[j]);
                    } else if i < d.len() - 1 {
                        assert(pushed.route@.contains(d[i]));
                    } else {
                        assert(pushed.route@.contains(d[j]));
                    }
                }
            }
            assert(ctx.sound(g));
            assert(pushed.grows_to(*ctx));
            start.lemma_grows_trans(pushed, *ctx);
            start.lemma_all_pruned_grows(*ctx, g);
            assert(ctx.pruned_before(g, id, 0, 0));
            assert(ctx.drives().subrange(0, start.drives().len() as int) =~= start.drives());
            assert(drive_progress(g, start, *ctx, id, id));
            assert(reach_progress(g, start, *ctx, id));
        }
        let mut end = id;
        match &node.outputs {
            Some(outputs) => {
                let ports = &outputs.0;
                let mut p: usize = 0;
                while p < ports.len()
                    invariant
                        g == nodes@,
                        ctx.sound(g),
                        ctx.synced(),
                        start.grows_to(*ctx),
                        ctx.path@.len() == 0,
                        ctx.route@ == start.route@.push(id),
                        start == *old(ctx),
                        g.contains_key(id),
                        !start.closed_nodes().contains(id),
                        start.route@.len() < g.dom().len(),
                        output_chain(g, start.route@.push(id)),
                        drive_progress(g, start, *ctx, id, end),
                        reach_progress(g, start, *ctx, id),
                        end == id || g.contains_key(end),
                        ctx.cached().contains_key(end) || ctx.closed_nodes().contains(end),
                        ctx.ordered(g),
                        ctx.fed_all(g),
                        ctx.all_pruned(g),
                        *node == g[id],
                        node.outputs == Some(*outputs),
                        *ports == outputs.0,
                        out.entries().len() == 0 || (ctx.cached().contains_key(id) && ctx.cached()[id] == out),
                        ctx.cached().contains_key(id) ==> ctx.cached()[id] == out,
                        !ctx.cached().contains_key(id) ==> ctx.closed_nodes().contains(id),
                        drives_cover(g, start, *ctx, id, p as int, 0),
                        ctx.pruned_before(g, id, p as int, 0),
                        p <= ports@.len(),
                    decreases ports@.len() - p,
                {
                    let name = &ports[p].0;
                    let conns = &ports[p].1.connections;
                    if out.contains_key(name.as_str()) {
                        let mut k: usize = 0;
                        while k < conns.len()
                            invariant
                                g == nodes@,
                                ctx.sound(g),
                                ctx.synced(),
                                start.grows_to(*ctx),
                                ctx.path@.len() == 0,
                                ctx.route@ == start.route@.push(id),
                                start == *old(ctx),
                                g.contains_key(id),
                                !start.closed_nodes().contains(id),
                                start.route@.len() < g.dom().len(),
                        output_chain(g, start.route@.push(id)),
                        drive_progress(g, start, *ctx, id, end),
                        reach_progress(g, start, *ctx, id),
                                end == id || g.contains_key(end),
                                ctx.cached().contains_key(end) || ctx.closed_nodes().contains(end),
                                ctx.ordered(g),
                                ctx.fed_all(g),
                                ctx.all_pruned(g),
                                *node == g[id],
                                node.outputs == Some(*outputs),
                                *ports == outputs.0,
                                p < ports@.len(),
                                *name == ports@[p as int].0,
                                *conns == ports@[p as int].1.connections,
                                out.entries().len() == 0 || (ctx.cached().contains_key(id) && ctx.cached()[id]
                                    == out),
                                ctx.cached().contains_key(id) ==> ctx.cached()[id] == out,
                                !ctx.cached().contains_key(id) ==> ctx.closed_nodes().contains(id),
                                drives_cover(g, start, *ctx, id, p as int, k as int),
                                ctx.pruned_before(g, id, p as int, k as int),
                                out.has_port(ports@[p as int].0@),
                                k <= conns@.len(),
                            decreases conns@.len() - k,
                        {
                            let target = conns[k].node;
                            let ghost at_k = *ctx;
                            proof {
                                at_k.lemma_grows_refl();
                            }
                            if !contains_id(&ctx.closed, target) {
                                let ghost before = *ctx;
                                proof {
                                    assert(feeds_at(g[id], p as int, k as int, target));
                                    assert(ctx.route@.last() == id);
                                }
                                match self.process_nodes(nodes, target, ctx) {
                                    Ok(t) => {
                                        proof {
                                            start.lemma_grows_trans(before, *ctx);
                                            assert(ctx.cached()[id].has_port(ports@[p as int].0@));
                                            assert(feeds_at(g[id], p as int, k as int, target));
                                            assert(produced_edge(g, *ctx, id, target));
                                            lemma_drive_child(g, start, before, *ctx, id, end, target, t);
                                            lemma_reach_child(g, start, before, *ctx, id, target);
                                        }
                                        end = t;
                                    },
                                    Err(e) => {
                                        let ghost full_ctx = *ctx;
                                        ctx.route.pop();
                                        proof {
                                            start.lemma_grows_trans(before, full_ctx);
                                            full_ctx.lemma_route_pop_sound(*ctx, g);
                                            full_ctx.lemma_grows_refl();
                                            assert(ctx.route@ =~= start.route@);
                                        }
                                        return Err(e);
                                    },
                                }
                            }
                            proof {
                                at_k.lemma_pruned_before_grows(*ctx, g, id, p as int, k as int);
                                if !at_k.cached().contains_key(id) {
                                    lemma_stays_unstored(g, at_k, *ctx, id);
                                }
                                assert(ctx.drives().subrange(0, at_k.drives().len() as int) =~= at_k.drives()) by {
                                    if ctx.drives().len() > at_k.drives().len() {
                                        assert(drive_record(g, at_k, *ctx, target, end));
                                    }
                                }
                                lemma_cover_grows(g, start, at_k, *ctx, id, p as int, k as int, out);
                                assert forall|q: int, j: int, t: i64|
                                    (q < p || (q == p && j < k + 1)) && #[trigger] feeds_at(g[id], q, j, t)
                                        && ctx.cached().contains_key(id) && ctx.cached()[id].has_port(
                                        g[id].output_ports()[q].0@,
                                    ) implies ctx.closed_nodes().contains(t) || exists|i: int|
                                    start.drives().len() <= i < ctx.drives().len() && (#[trigger] ctx.drives()[i]).0
                                        == t && ctx.drives()[i].2 == start.depth() + 1 by {
                                    if q == p && j == k {
                                        assert(t == target);
                                        if !ctx.closed_nodes().contains(t) {
                                            assert(!at_k.closed_nodes().contains(t));
                                            let w = ctx.drives().len() - 1;
                                            assert(ctx.drives()[w].0 == t);
                                        }
                                    }
                                }
                                assert(ctx.cached()[id].has_port(ports@[p as int].0@));
                                assert forall|q: int, j: int|
                                    (q < p || (q == p && j < k + 1)) && #[trigger] untaken(g, *ctx, id, q, j)
                                    implies cascade(
                                    g,
                                    g[id].output_ports()[q].1.connections@[j].node,
                                ).subset_of(ctx.closed_nodes()) by {
                                    if q == p && j == k {
                                        assert(!untaken(g, *ctx, id, q, j));
                                    }
                                }
                            }
                            k = k + 1;
                        }
                    } else if !same_text(name.as_str(), "action") {
                        let mut k: usize = 0;
                        while k < conns.len()
                            invariant
                                g == nodes@,
                                ctx.sound(g),
                                ctx.synced(),
                                start.grows_to(*ctx),
                                ctx.path@.len() == 0,
                                ctx.route@ == start.route@.push(id),
                                start == *old(ctx),
                                g.contains_key(id),
                                !start.closed_nodes().contains(id),
                                start.route@.len() < g.dom().len(),
                        output_chain(g, start.route@.push(id)),
                        drive_progress(g, start, *ctx, id, end),
                        reach_progress(g, start, *ctx, id),
                                end == id || g.contains_key(end),
                                ctx.cached().contains_key(end) || ctx.closed_nodes().contains(end),
                                ctx.ordered(g),
                                ctx.fed_all(g),
                                ctx.all_pruned(g),
                                *node == g[id],
                                node.outputs == Some(*outputs),
                                *ports == outputs.0,
                                p < ports@.len(),
                                *name == ports@[p as int].0,
                                *conns == ports@[p as int].1.connections,
                                out.entries().len() == 0 || (ctx.cached().contains_key(id) && ctx.cached()[id]
                                    == out),
                                ctx.cached().contains_key(id) ==> ctx.cached()[id] == out,
                                !ctx.cached().contains_key(id) ==> ctx.closed_nodes().contains(id),
                                drives_cover(g, start, *ctx, id, p as int, k as int),
                                !out.has_port(ports@[p as int].0@),
                                ctx.pruned_before(g, id, p as int, k as int),
                                k <= conns@.len(),
                            decreases conns@.len() - k,
                        {
                            let conn = &conns[k];
                            let ghost at_k = *ctx;
                            proof {
                                at_k.lemma_grows_refl();
                            }
                            if same_text(conn.input.as_str(), name.as_str()) && !contains_id(
                                &ctx.closed,
                                conn.node,
                            ) {
                                let ghost before = *ctx;
                                disable_node_tree(nodes, conn.node, &mut ctx.closed);
                                proof {
                                    before.lemma_grows_refl();
                                    assert(before.grows_to(*ctx));
                                    start.lemma_grows_trans(before, *ctx);
                                    before.lemma_ordered_grows(*ctx, g);
                                    before.lemma_fed_all_grows(*ctx, g);
                                    before.lemma_all_pruned_grows(*ctx, g);
                                    lemma_drive_progress_grows(g, start, before, *ctx, id, end);
                                    lemma_reach_grows(g, start, before, *ctx, id);
                                }
                            }
                            proof {
                                at_k.lemma_pruned_before_grows(*ctx, g, id, p as int, k as int);
                                assert(ctx.drives() == at_k.drives());
                                assert(ctx.drives().subrange(0, at_k.drives().len() as int) =~= at_k.drives());
                                lemma_cover_grows(g, start, at_k, *ctx, id, p as int, k as int, out);
                                assert forall|q: int, j: int, t: i64|
                                    (q < p || (q == p && j < k + 1)) && #[trigger] feeds_at(g[id], q, j, t)
                                        && ctx.cached().contains_key(id) && ctx.cached()[id].has_port(
                                        g[id].output_ports()[q].0@,
                                    ) implies ctx.closed_nodes().contains(t) || exists|i: int|
                                    start.drives().len() <= i < ctx.drives().len() && (#[trigger] ctx.drives()[i]).0
                                        == t && ctx.drives()[i].2 == start.depth() + 1 by {
                                    if q == p && j == k {
                                        assert(ctx.cached()[id] == out);
                                    }
                                }
                                assert forall|q: int, j: int|
                                    (q < p || (q == p && j < k + 1)) && #[trigger] untaken(g, *ctx, id, q, j)
                                    implies cascade(
                                    g,
                                    g[id].output_ports()[q].1.connections@[j].node,
                                ).subset_of(ctx.closed_nodes()) by {
                                    if q == p && j == k {
                                        let t = conn.node;
                                        assert(g[id].output_ports()[q].1.connections@[j] == *conn);
                                        if at_k.closed_nodes().contains(t) {
                                            assert(cascade_closed(g, at_k.closed@.to_set()));
                                            assert forall|y: i64| cascade(g, t).contains(y) implies ctx.closed_nodes().contains(
                                                y,
                                            ) by {
                                                assert(reaches(g, t, y));
                                                assert(at_k.closed_nodes().contains(y));
                                            }
                                        }
                                    }
                                }
                            }
                            k = k + 1;
                        }
                    }
                    proof {
                        assert forall|q: int, j: int|
                            (q < p + 1 || (q == p + 1 && j < 0)) && #[trigger] untaken(g, *ctx, id, q, j)
                            implies cascade(
                            g,
                            g[id].output_ports()[q].1.connections@[j].node,
                        ).subset_of(ctx.closed_nodes()) by {
                            if q == p {
                                assert(untaken(g, *ctx, id, q, j));
                            }
                        }
                    }
                    p = p + 1;
                }
            },
            None => {},
        }
        let ghost full_ctx = *ctx;
        ctx.route.pop();
        proof {
            full_ctx.lemma_route_pop_sound(*ctx, g);
            full_ctx.lemma_grows_refl();
            start.lemma_grows_trans(full_ctx, *ctx);
            assert(ctx.route@ =~= start.route@);
            full_ctx.lemma_all_pruned_grows(*ctx, g);
            assert(ctx.pruned(g, id)) by {
                assert forall|q: int, j: int| #[trigger] untaken(g, *ctx, id, q, j) implies cascade(
                    g,
                    g[id].output_ports()[q].1.connections@[j].node,
                ).subset_of(ctx.closed_nodes()) by {
                    if node.outputs is Some {
                        full_ctx.lemma_pruned_before_grows(*ctx, g, id, g[id].output_ports().len() as int, 0);
                    }
                }
            }
            let ghost before_record = *ctx;
            ctx.driven@ = ctx.driven@.insert(id);
            before_record.lemma_grows_refl();
            assert forall|v: i64| #[trigger] ctx.driven().contains(v) implies ctx.pruned(g, v) by {
                if v != id {
                    assert(before_record.driven().contains(v));
                    assert(before_record.pruned(g, v));
                }
                before_record.lemma_pruned_grows(*ctx, g, v);
            }
            assert(before_record.grows_to(*ctx));
            start.lemma_grows_trans(before_record, *ctx);
            lemma_drive_progress_grows(g, start, full_ctx, *ctx, id, end);
            lemma_reach_grows(g, start, full_ctx, before_record, id);
            let ghost last = *ctx;
            assert(drives_cover(g, start, last, id, g[id].output_ports().len() as int, 0)) by {
                if node.outputs is Some {
                    assert(full_ctx.cached() == last.cached());
                    assert(full_ctx.closed_nodes() == last.closed_nodes());
                    assert(full_ctx.drives() == last.drives());
                    assert(drives_cover(g, start, full_ctx, id, g[id].output_ports().len() as int, 0));
                }
            }
            ctx.drive_log@ = ctx.drive_log@.push((id, end, start.depth()));
            last.lemma_grows_refl();
            assert(last.grows_to(*ctx));
            start.lemma_grows_trans(last, *ctx);
            lemma_drive_finish(g, start, last, *ctx, id, end);
            ctx.lemma_synced_settled();
            assert(ctx.driven() == before_record.driven().insert(id));
            assert forall|v: i64|
                #[trigger] ctx.driven().contains(v) && !start.driven().contains(v) && v != id implies exists|w: i64|
                ctx.driven().contains(w) && #[trigger] produced_edge(g, *ctx, w, v) by {
                assert(before_record.driven().contains(v));
                let w = choose|w: i64|
                    before_record.driven().insert(id).contains(w) && #[trigger] produced_edge(g, before_record, w, v);
                before_record.lemma_grows_trans(last, *ctx);
                lemma_produced_edge_grows(g, before_record, *ctx, w, v);
            }
            assert forall|v: i64| #[trigger] ctx.driven().contains(v) implies ctx.pruned(g, v) by {
                assert(last.driven().contains(v));
                last.lemma_pruned_grows(*ctx, g, v);
            }
        }
        Ok(end)
    }

    /// Computes the output of the graph from `start_node_id`: drives the
    /// start node and returns the snapshot of the terminal node reached, or
    /// the empty snapshot when that node was closed. Each call starts from a
    /// fresh evaluation context, and everything [`Engine::evaluates`] says
    /// holds of the run from it.
    pub fn process(&self, nodes: &HashMap<i64, Node>, start_node_id: i64) -> (r: Result<
        OutputData,
        EngineError,
    >)
        ensures
            exists|before: EvalContext, after: EvalContext|
                before.fresh() && #[trigger] self.evaluates(nodes@, start_node_id, before, after, r),
    {
        let mut ctx = EvalContext::new();
        let ghost before = ctx;
        let r = self.process_with(nodes, start_node_id, &mut ctx);
        proof {
            assert(before.fresh() && self.evaluates(nodes@, start_node_id, before, ctx, r));
        }
        r
    }

    /// An evaluation of the graph `g` from node `start`, from the context
    /// `before` to the context `after`, with outcome `r`.
    ///
    /// No node's worker is invoked twice; each runs after the sources it
    /// reads and is handed their snapshots; none runs for a node that was
    /// already closed, and only nodes that qualify are closed. Along each port
    /// that a followed node did not produce, what the port disables is closed
    /// with its whole cascade; every connection on a produced port reaches a
    /// closed node or is followed. Only nodes reached from the start are
    /// evaluated: a node is followed only through a port that a followed node
    /// produced, and its inputs are evaluated only if it was followed or is
    /// read by a node whose inputs were evaluated. The result is the snapshot
    /// of the terminal node that the drive of `start` returned. A worker's
    /// failure ends the evaluation: it is the last invocation, and the error
    /// wraps exactly what that worker returned, with its node's id.
    pub open spec fn evaluates(
        self,
        g: Map<i64, Node>,
        start: i64,
        before: EvalContext,
        after: EvalContext,
        r: Result<OutputData, EngineError>,
    ) -> bool {
        &&& after.sound(g)
        &&& after.ordered(g)
        &&& after.fed_all(g)
        &&& after.idle()
        &&& after.settled()
        &&& before.grows_to(after)
        &&& after.dispatched().no_duplicates()
        &&& forall|v: i64| #[trigger] after.closed_nodes().contains(v) ==> qualifies(g, v)
        &&& forall|i: int|
            0 <= i < after.dispatched().len() ==> after.evaluated().contains(#[trigger] after.dispatched()[i])
        &&& forall|v: i64| #[trigger] after.cached().contains_key(v) ==> after.dispatched().contains(v)
        &&& (!(r matches Err(EngineError::WorkerError(_))) ==> after.synced())
        &&& (r is Ok ==> after.all_pruned(g))
        &&& (r is Ok ==> begun_along_inputs(g, before, after, after.driven()))
        &&& (r is Ok ==> driven_along_outputs(g, before, after, start))
        &&& (r is Ok && !before.closed_nodes().contains(start) ==> after.driven().contains(start))
        &&& (r is Ok && !before.closed_nodes().contains(start) ==> drive_record(
            g,
            before,
            after,
            start,
            after.drives().last().1,
        ) && returns_terminal(after, after.drives().last().1, r->Ok_0))
        &&& (r is Ok ==> exists|t: i64| #[trigger] returns_terminal(after, t, r->Ok_0))
        &&& (!g.contains_key(start) && !before.closed_nodes().contains(start) ==> r == Err::<
            OutputData,
            EngineError,
        >(EngineError::MissingNode(start)))
        &&& (r is Err && r->Err_0 is MissingNode ==> !g.contains_key(r->Err_0->MissingNode_0))
        &&& (r is Err && r->Err_0 is Cycle ==> g.contains_key(r->Err_0->Cycle_0) && (depends_on_itself(
            g,
            r->Err_0->Cycle_0,
        ) || feeds_itself(g, r->Err_0->Cycle_0)))
        &&& (r is Err && r->Err_0 is WorkerError ==> after.dispatched().len() > before.dispatched().len()
            && blames(self.registry(), g, after.dispatched().last(), r->Err_0->WorkerError_0) && failed_last(
            g,
            after,
            r->Err_0->WorkerError_0,
        ))
        &&& !(r is Err && r->Err_0 is VersionMismatch)
        &&& !(r is Err && r->Err_0 is Other)
    }

    /// The evaluation of [`Engine::process`], on a context the caller owns;
    /// `process` runs it on a fresh one.
    pub fn process_with(&self, nodes: &HashMap<i64, Node>, start_node_id: i64, ctx: &mut EvalContext) -> (r:
        Result<OutputData, EngineError>)
        requires
            old(ctx).sound(nodes@),
            old(ctx).synced(),
            old(ctx).ordered(nodes@),
            old(ctx).fed_all(nodes@),
            old(ctx).all_pruned(nodes@),
            old(ctx).idle(),
        ensures
            self.evaluates(nodes@, start_node_id, *old(ctx), *final(ctx), r),
    {
        let end = match self.process_nodes(nodes, start_node_id, ctx) {
            Ok(t) => t,
            Err(e) => {
                proof {
                    ctx.lemma_closed_qualify(nodes@);
                }
                return Err(e);
            },
        };
        let out = match ctx.cache.get(&end) {
            Some(stored) => stored.share(),
            None => OutputData::empty(),
        };
        proof {
            ctx.lemma_closed_qualify(nodes@);
            assert(returns_terminal(*ctx, end, out));
            let r = Ok::<OutputData, EngineError>(out);
            assert(returns_terminal(*ctx, end, r->Ok_0));
        }
        Ok(out)
    }
}

} // verus!

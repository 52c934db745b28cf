//! A generic arena of node payloads and the edges between them. Freed slots
//! are kept on a stack and handed out again before the arena grows.
use vstd::prelude::*;

verus! {

pub type NodeIndex = usize;

/// A connection from the node at `start` to the node at `end`.
#[derive(Debug, Clone, Copy, PartialEq, Eq, Structural)]
pub struct Edge {
    pub start: NodeIndex,
    pub end: NodeIndex,
}

impl Edge {
    pub fn new(start: NodeIndex, end: NodeIndex) -> (r: Self)
        ensures
            r.start == start,
            r.end == end,
    {
        Self { start, end }
    }

    /// Whether this edge is selected by the endpoints given to
    /// `Graph::delete_edge_by`.
    fn selected_by(&self, start: Option<NodeIndex>, end: Option<NodeIndex>) -> (r: bool)
        ensures
            r == edge_selected(*self, start, end),
    {
        match (start, end) {
            (None, None) => true,
            (Some(x), None) => self.start == x || self.end == x,
            (None, Some(x)) => self.start == x || self.end == x,
            (Some(s), Some(e)) => (self.start == s && self.end == e) || (self.start == e && self.end == s),
        }
    }
}

/// The error of a structural violation, carrying a message that names the
/// missing endpoints.
#[derive(Debug, Clone, PartialEq)]
pub struct GraphError(pub String);

impl GraphError {
    pub fn to_string(&self) -> (r: String)
        ensures
            r@ == "Error in Graph: "@ + self.0@,
    {
        String::from_str("Error in Graph: ").concat(self.0.as_str())
    }
}

/// A payload that can be stored in a [`Graph`].
pub trait GraphNode {
}

/// Which edges `delete_edge_by(start, end)` removes: all of them when no
/// endpoint is given; those touching the one given endpoint at either end;
/// those joining the two given endpoints in either direction.
pub open spec fn edge_selected(e: Edge, start: Option<NodeIndex>, end: Option<NodeIndex>) -> bool {
    match (start, end) {
        (None, None) => true,
        (Some(x), None) => e.start == x || e.end == x,
        (None, Some(x)) => e.start == x || e.end == x,
        (Some(s), Some(t)) => (e.start == s && e.end == t) || (e.start == t && e.end == s),
    }
}

pub open spec fn slot_selected(slot: Option<Edge>, start: Option<NodeIndex>, end: Option<NodeIndex>) -> bool {
    match slot {
        Some(e) => edge_selected(e, start, end),
        None => false,
    }
}

/// The indices of the selected edge slots, in slot order.
pub open spec fn selected_slots(slots: Seq<Option<Edge>>, start: Option<NodeIndex>, end: Option<NodeIndex>) -> Seq<usize>
    decreases slots.len(),
{
    if slots.len() == 0 {
        Seq::empty()
    } else {
        let before = selected_slots(slots.drop_last(), start, end);
        if slot_selected(slots.last(), start, end) {
            before.push((slots.len() - 1) as usize)
        } else {
            before
        }
    }
}

/// The selected edges, in slot order.
pub open spec fn selected_edges(slots: Seq<Option<Edge>>, start: Option<NodeIndex>, end: Option<NodeIndex>) -> Seq<Edge>
    decreases slots.len(),
{
    if slots.len() == 0 {
        Seq::empty()
    } else {
        let before = selected_edges(slots.drop_last(), start, end);
        if slot_selected(slots.last(), start, end) {
            before.push(slots.last().unwrap())
        } else {
            before
        }
    }
}

/// The edges held by the occupied slots, in slot order.
pub open spec fn live_edges(slots: Seq<Option<Edge>>) -> Seq<Edge> {
    selected_edges(slots, None, None)
}

/// The slots with the selected edges emptied.
pub open spec fn cleared_slots(slots: Seq<Option<Edge>>, start: Option<NodeIndex>, end: Option<NodeIndex>) -> Seq<Option<Edge>> {
    Seq::new(slots.len(), |i: int| if slot_selected(slots[i], start, end) { None } else { slots[i] })
}

/// A free list that names exactly the empty slots, each once.
pub open spec fn free_list_ok<A>(slots: Seq<Option<A>>, free: Seq<usize>) -> bool {
    &&& forall|i: int| 0 <= i < free.len() ==> (#[trigger] free[i]) < slots.len() && slots[free[i] as int].is_none()
    &&& forall|j: int| 0 <= j < slots.len() && (#[trigger] slots[j]).is_none() ==> free.contains(j as usize)
    &&& free.no_duplicates()
}

/// The abstract state of a graph: both slot sequences and both free stacks
/// (the last element of a stack is handed out first).
pub struct GraphModel<T> {
    pub nodes: Seq<Option<T>>,
    pub free_nodes: Seq<usize>,
    pub edges: Seq<Option<Edge>>,
    pub free_edges: Seq<usize>,
}

impl<T> GraphModel<T> {
    /// Both free stacks name exactly the empty slots.
    pub open spec fn slots_ok(self) -> bool {
        free_list_ok(self.nodes, self.free_nodes) && free_list_ok(self.edges, self.free_edges)
    }

    /// Every edge joins two occupied node slots.
    pub open spec fn edges_join_nodes(self) -> bool {
        forall|i: int| 0 <= i < self.edges.len() && (#[trigger] self.edges[i]).is_some() ==> {
            &&& self.has_node(self.edges[i].unwrap().start as int)
            &&& self.has_node(self.edges[i].unwrap().end as int)
        }
    }

    pub open spec fn wf(self) -> bool {
        self.slots_ok() && self.edges_join_nodes()
    }

    /// Whether `k` names an occupied node slot.
    pub open spec fn has_node(self, k: int) -> bool {
        0 <= k < self.nodes.len() && self.nodes[k].is_some()
    }

    /// The graph after `add_node(n)`, and the index it returns: the most
    /// recently freed slot if there is one, else a new slot at the end.
    pub open spec fn add_node(self, n: T) -> (GraphModel<T>, NodeIndex) {
        if self.free_nodes.len() > 0 {
            let k = self.free_nodes.last();
            (GraphModel { nodes: self.nodes.update(k as int, Some(n)), free_nodes: self.free_nodes.drop_last(), ..self }, k)
        } else {
            (GraphModel { nodes: self.nodes.push(Some(n)), ..self }, self.nodes.len() as usize)
        }
    }

    /// The graph after a successful `add_edge` of each of `es` in turn.
    pub open spec fn insert_edges(self, es: Seq<Edge>) -> GraphModel<T>
        decreases es.len(),
    {
        if es.len() == 0 {
            self
        } else {
            self.insert_edge(es[0]).insert_edges(es.drop_first())
        }
    }

    /// The graph with the payload of slot `k` replaced by `x`.
    pub open spec fn with_payload(self, k: int, x: T) -> GraphModel<T> {
        GraphModel { nodes: self.nodes.update(k, Some(x)), ..self }
    }

    /// The graph after `delete_edge_by(start, end)`, and the edges it returns.
    pub open spec fn delete_edges(self, start: Option<NodeIndex>, end: Option<NodeIndex>) -> (GraphModel<T>, Seq<Edge>) {
        (
            GraphModel {
                edges: cleared_slots(self.edges, start, end),
                free_edges: self.free_edges + selected_slots(self.edges, start, end),
                ..self
            },
            selected_edges(self.edges, start, end),
        )
    }

    /// The graph after `delete_node(k)`, and the payload it returns. The
    /// slot is freed and every edge that touches `k` is deleted with it.
    pub open spec fn delete_node(self, k: NodeIndex) -> (GraphModel<T>, Option<T>) {
        if self.has_node(k as int) {
            let freed = GraphModel { nodes: self.nodes.update(k as int, None), free_nodes: self.free_nodes.push(k), ..self };
            (freed.delete_edges(Some(k), None).0, self.nodes[k as int])
        } else {
            (self, None)
        }
    }

    /// The graph after a successful `add_edge(e)`: the most recently freed
    /// edge slot is reused if there is one, else a slot is appended.
    pub open spec fn insert_edge(self, e: Edge) -> GraphModel<T> {
        if self.free_edges.len() > 0 {
            let k = self.free_edges.last();
            GraphModel { edges: self.edges.update(k as int, Some(e)), free_edges: self.free_edges.drop_last(), ..self }
        } else {
            GraphModel { edges: self.edges.push(Some(e)), ..self }
        }
    }
}

/// Node payloads and edges in slots, with a stack of free slots for each.
/// The fields are open so that a graph can be written down whole; the
/// operations that allocate or free slots ask for consistent free stacks
/// (`GraphModel::wf`), which `new` gives and every operation keeps.
#[derive(Debug, Clone, PartialEq)]
pub struct Graph<T: GraphNode> {
    pub nodes: Vec<Option<T>>,
    pub free_nodes: Vec<NodeIndex>,
    pub edges: Vec<Option<Edge>>,
    pub free_edges: Vec<NodeIndex>,
}

impl<T: GraphNode> View for Graph<T> {
    type V = GraphModel<T>;

    open spec fn view(&self) -> GraphModel<T> {
        GraphModel { nodes: self.nodes@, free_nodes: self.free_nodes@, edges: self.edges@, free_edges: self.free_edges@ }
    }
}

impl<T: GraphNode> Graph<T> {
    /// An empty graph.
    pub fn new() -> (r: Self)
        ensures
            r@.nodes.len() == 0,
            r@.free_nodes.len() == 0,
            r@.edges.len() == 0,
            r@.free_edges.len() == 0,
            r@.wf(),
    {
        Self { nodes: Vec::new(), free_nodes: Vec::new(), edges: Vec::new(), free_edges: Vec::new() }
    }

    /// Stores `n` and returns its index: the most recently freed slot if
    /// there is one, else a new slot at the end.
    pub fn add_node(&mut self, n: T) -> (r: NodeIndex)
        requires
            old(self)@.wf(),
        ensures
            (final(self)@, r) == old(self)@.add_node(n),
            final(self)@.wf(),
    {
        proof {
            assert(old(self).nodes.len() == old(self)@.nodes.len());
            if old(self)@.free_nodes.len() > 0 {
                lemma_fill_slot(old(self)@.nodes, old(self)@.free_nodes, n);
            } else {
                lemma_append_slot(old(self)@.nodes, old(self)@.free_nodes, n);
            }
        }
        let ghost m = old(self)@;
        let r = if let Some(id) = self.free_nodes.pop() {
            self.nodes.set(id, Some(n));
            id
        } else {
            self.nodes.push(Some(n));
            self.nodes.len() - 1
        };
        proof {
            assert forall|k: int| m.has_node(k) implies self@.has_node(k) by {
                if k != r as int {
                    assert(m.nodes[k] == self@.nodes[k]);
                }
            }
            assert forall|j: int| 0 <= j < self@.edges.len() && (#[trigger] self@.edges[j]).is_some() implies {
                &&& self@.has_node(self@.edges[j].unwrap().start as int)
                &&& self@.has_node(self@.edges[j].unwrap().end as int)
            } by {
                assert(m.edges[j] == self@.edges[j]);
            }
        }
        r
    }

    /// The payload at `id`, to be changed in place; `None` when the slot is
    /// out of range or free.
    pub fn get_node_mut(&mut self, id: NodeIndex) -> (r: Option<&mut T>)
        ensures
            r.is_some() <==> old(self)@.has_node(id as int),
            r.is_some() ==> {
                &&& old(self)@.nodes[id as int] == Some(*r.unwrap())
                &&& final(self)@ == old(self)@.with_payload(id as int, *final(r.unwrap()))
            },
            r.is_none() ==> final(self)@ == old(self)@,
            old(self)@.wf() ==> final(self)@.wf(),
    {
        if id < self.nodes.len() && self.nodes[id].is_some() {
            proof {
                if old(self)@.wf() {
                    assert forall|x: T| (#[trigger] old(self)@.with_payload(id as int, x)).wf() by {
                        lemma_replace_payload(old(self)@, id as int, x);
                    }
                }
            }
            self.nodes[id].as_mut()
        } else {
            None
        }
    }

    /// Removes the payload at `id` and returns it; the slot is freed and every
    /// edge that touches `id` is deleted with it. `None`, and no change, when
    /// the slot is out of range or already free.
    pub fn delete_node(&mut self, id: NodeIndex) -> (r: Option<T>)
        requires
            old(self)@.wf(),
        ensures
            (final(self)@, r) == old(self)@.delete_node(id),
            final(self)@.wf(),
    {
        if id < self.nodes.len() && self.nodes[id].is_some() {
            proof {
                lemma_free_slot(self.nodes@, self.free_nodes@, id as int);
            }
            let old_val = self.nodes[id].take();
            self.free_nodes.push(id);
            let ghost freed = self@;
            self.delete_edge_by(Some(id), None);
            proof {
                assert forall|j: int| 0 <= j < self@.edges.len() && (#[trigger] self@.edges[j]).is_some() implies {
                    &&& self@.has_node(self@.edges[j].unwrap().start as int)
                    &&& self@.has_node(self@.edges[j].unwrap().end as int)
                } by {
                    let e = self@.edges[j].unwrap();
                    assert(freed.edges[j] == self@.edges[j]);
                    assert(!slot_selected(freed.edges[j], Some(id), None));
                    assert(old(self)@.edges[j] == freed.edges[j]);
                    assert(old(self)@.has_node(e.start as int) && old(self)@.has_node(e.end as int));
                }
            }
            old_val
        } else {
            None
        }
    }

    /// Adds `e` when both of its endpoints are occupied node slots, reusing
    /// the most recently freed edge slot if there is one. Otherwise fails with
    /// a message that names the missing endpoint, or both.
    pub fn add_edge(&mut self, e: Edge) -> (r: Result<(), GraphError>)
        requires
            old(self)@.wf(),
        ensures
            final(self)@.wf(),
            r.is_ok() <==> old(self)@.has_node(e.start as int) && old(self)@.has_node(e.end as int),
            match r {
                Ok(()) => old(self)@.has_node(e.start as int) && old(self)@.has_node(e.end as int)
                    && final(self)@ == old(self)@.insert_edge(e),
                Err(err) => *final(self) == *old(self) && err.0@ == missing_nodes_message(
                    e,
                    old(self)@.has_node(e.start as int),
                    old(self)@.has_node(e.end as int),
                ),
            },
    {
        let start_ok = e.start < self.nodes.len() && self.nodes[e.start].is_some();
        let end_ok = e.end < self.nodes.len() && self.nodes[e.end].is_some();
        if start_ok && end_ok {
            proof {
                assert(old(self).edges.len() == old(self)@.edges.len());
                if old(self)@.free_edges.len() > 0 {
                    lemma_fill_slot(old(self)@.edges, old(self)@.free_edges, e);
                } else {
                    lemma_append_slot(old(self)@.edges, old(self)@.free_edges, e);
                }
            }
            if let Some(id) = self.free_edges.pop() {
                self.edges.set(id, Some(e));
            } else {
                self.edges.push(Some(e));
            }
            proof {
                assert forall|j: int| 0 <= j < self@.edges.len() && (#[trigger] self@.edges[j]).is_some() implies {
                    &&& self@.has_node(self@.edges[j].unwrap().start as int)
                    &&& self@.has_node(self@.edges[j].unwrap().end as int)
                } by {
                    if self@.edges[j] != Some(e) {
                        assert(old(self)@.edges[j] == self@.edges[j]);
                    }
                }
            }
            Ok(())
        } else if start_ok {
            let msg = String::from_str("Node not existing (End node not existing (");
            let msg = msg.concat(index_text(e.end).as_str());
            let msg = msg.concat("))");
            Err(GraphError(msg))
        } else if end_ok {
            let msg = String::from_str("Node not existing (Start node not existing (");
            let msg = msg.concat(index_text(e.start).as_str());
            let msg = msg.concat("))");
            Err(GraphError(msg))
        } else {
            let msg = String::from_str("Nodes not existing (start: ");
            let msg = msg.concat(index_text(e.start).as_str());
            let msg = msg.concat(", end: ");
            let msg = msg.concat(index_text(e.end).as_str());
            let msg = msg.concat(")");
            Err(GraphError(msg))
        }
    }

    /// The edges of all occupied edge slots, in slot order.
    pub fn get_edges(&self) -> (r: Vec<&Edge>)
        ensures
            r@.len() == live_edges(self@.edges).len(),
            forall|i: int| 0 <= i < r@.len() ==> *(#[trigger] r@[i]) == live_edges(self@.edges)[i],
    {
        let mut r: Vec<&Edge> = Vec::new();
        let mut i: usize = 0;
        while i < self.edges.len()
            invariant
                i <= self@.edges.len(),
                r@.len() == live_edges(self@.edges.take(i as int)).len(),
                forall|k: int| 0 <= k < r@.len() ==> *(#[trigger] r@[k]) == live_edges(self@.edges.take(i as int))[k],
            decreases self@.edges.len() - i,
        {
            proof {
                assert(self@.edges.take(i + 1).drop_last() =~= self@.edges.take(i as int));
            }
            if let Some(e) = &self.edges[i] {
                r.push(e);
            }
            i = i + 1;
        }
        proof {
            assert(self@.edges.take(i as int) =~= self@.edges);
        }
        r
    }

    /// Deletes and returns, in slot order, the edges selected by the given
    /// endpoints (see [`edge_selected`]); their slots are freed in that order.
    pub fn delete_edge_by(&mut self, start: Option<NodeIndex>, end: Option<NodeIndex>) -> (r: Vec<Edge>)
        requires
            old(self)@.slots_ok(),
        ensures
            (final(self)@, r@) == old(self)@.delete_edges(start, end),
            final(self)@.slots_ok(),
            old(self)@.edges_join_nodes() ==> final(self)@.edges_join_nodes(),
    {
        let ghost old_edges = self.edges@;
        let mut deleted: Vec<Edge> = Vec::new();
        let mut i: usize = 0;
        while i < self.edges.len()
            invariant
                self.edges@.len() == old_edges.len(),
                old_edges == old(self)@.edges,
                i <= old_edges.len(),
                self.nodes@ == old(self)@.nodes,
                self.free_nodes@ == old(self)@.free_nodes,
                forall|j: int| 0 <= j < i ==> self.edges@[j] == #[trigger] cleared_slots(old_edges, start, end)[j],
                forall|j: int| i <= j < old_edges.len() ==> #[trigger] self.edges@[j] == old_edges[j],
                deleted@ == selected_edges(old_edges.take(i as int), start, end),
                self.free_edges@ == old(self)@.free_edges + selected_slots(old_edges.take(i as int), start, end),
                free_list_ok(self.edges@, self.free_edges@),
                free_list_ok(self.nodes@, self.free_nodes@),
            decreases old_edges.len() - i,
        {
            proof {
                assert(old_edges.take(i + 1).drop_last() =~= old_edges.take(i as int));
            }
            let hit = match &self.edges[i] {
                Some(e) => e.selected_by(start, end),
                None => false,
            };
            if hit {
                proof {
                    lemma_free_slot(self.edges@, self.free_edges@, i as int);
                }
                let e = self.edges[i].unwrap();
                self.edges.set(i, None);
                deleted.push(e);
                self.free_edges.push(i);
            }
            i = i + 1;
        }
        proof {
            assert(old_edges.take(i as int) =~= old_edges);
            assert(self.edges@ =~= cleared_slots(old_edges, start, end));
            if old(self)@.edges_join_nodes() {
                assert forall|j: int| 0 <= j < self@.edges.len() && (#[trigger] self@.edges[j]).is_some() implies {
                    &&& self@.has_node(self@.edges[j].unwrap().start as int)
                    &&& self@.has_node(self@.edges[j].unwrap().end as int)
                } by {
                    assert(old_edges[j] == self@.edges[j]);
                }
            }
        }
        deleted
    }

    /// All node slots, free ones as `None`.
    pub fn get_nodes(&self) -> (r: &Vec<Option<T>>)
        ensures
            r@ == self@.nodes,
    {
        &self.nodes
    }
}

/// The message of a failed `add_edge(e)`, given which endpoints exist.
pub open spec fn missing_nodes_message(e: Edge, start_ok: bool, end_ok: bool) -> Seq<char> {
    if start_ok {
        "Node not existing (End node not existing ("@ + decimal(e.end as nat) + "))"@
    } else if end_ok {
        "Node not existing (Start node not existing ("@ + decimal(e.start as nat) + "))"@
    } else {
        "Nodes not existing (start: "@ + decimal(e.start as nat) + ", end: "@ + decimal(e.end as nat) + ")"@
    }
}

/// The decimal digits of `n`, most significant first, without leading zeros.
pub open spec fn decimal(n: nat) -> Seq<char>
    decreases n,
{
    let digit = seq!['0', '1', '2', '3', '4', '5', '6', '7', '8', '9'][(n % 10) as int];
    if n < 10 {
        seq![digit]
    } else {
        decimal(n / 10).push(digit)
    }
}

/// Relies on `usize`'s `ToString` (through `Display`): the decimal digits of
/// the number.
#[verifier::external_body]
fn index_text(n: usize) -> (r: String)
    ensures
        r@ == decimal(n as nat),
{
    n.to_string()
}

/// Every selected slot contributes its index and its edge to what
/// `delete_edge_by` returns.
pub proof fn lemma_selected_contains(slots: Seq<Option<Edge>>, start: Option<NodeIndex>, end: Option<NodeIndex>, i: int)
    requires
        0 <= i < slots.len(),
        slots.len() <= usize::MAX,
        slot_selected(slots[i], start, end),
    ensures
        selected_slots(slots, start, end).contains(i as usize),
        selected_edges(slots, start, end).contains(slots[i].unwrap()),
    decreases slots.len(),
{
    let n = slots.len() - 1;
    if i == n {
        let a = selected_slots(slots, start, end);
        let b = selected_edges(slots, start, end);
        assert(a[a.len() - 1] == i as usize);
        assert(b[b.len() - 1] == slots[i].unwrap());
    } else {
        lemma_selected_contains(slots.drop_last(), start, end, i);
        let a0 = selected_slots(slots.drop_last(), start, end);
        let b0 = selected_edges(slots.drop_last(), start, end);
        let wa = choose|w: int| 0 <= w < a0.len() && a0[w] == i as usize;
        let wb = choose|w: int| 0 <= w < b0.len() && b0[w] == slots[i].unwrap();
        assert(selected_slots(slots, start, end)[wa] == i as usize);
        assert(selected_edges(slots, start, end)[wb] == slots[i].unwrap());
    }
}

proof fn lemma_selected_slots_bounded(slots: Seq<Option<Edge>>, start: Option<NodeIndex>, end: Option<NodeIndex>)
    requires
        slots.len() <= usize::MAX,
    ensures
        forall|k: int| 0 <= k < selected_slots(slots, start, end).len()
            ==> (#[trigger] selected_slots(slots, start, end)[k]) < slots.len(),
    decreases slots.len(),
{
    if slots.len() > 0 {
        let before = selected_slots(slots.drop_last(), start, end);
        lemma_selected_slots_bounded(slots.drop_last(), start, end);
        assert forall|k: int| 0 <= k < selected_slots(slots, start, end).len()
            implies (#[trigger] selected_slots(slots, start, end)[k]) < slots.len() by {
            if k < before.len() {
                assert(selected_slots(slots, start, end)[k] == before[k]);
            }
        }
    }
}

/// Every edge that `delete_edge_by` returns comes from a slot that held it
/// and is selected by the given endpoints.
pub proof fn lemma_selected_member(slots: Seq<Option<Edge>>, start: Option<NodeIndex>, end: Option<NodeIndex>, k: int)
    requires
        0 <= k < selected_edges(slots, start, end).len(),
    ensures
        exists|i: int| 0 <= i < slots.len() && slots[i] == Some(#[trigger] selected_edges(slots, start, end)[k])
            && edge_selected(selected_edges(slots, start, end)[k], start, end),
    decreases slots.len(),
{
    let before = selected_edges(slots.drop_last(), start, end);
    let x = selected_edges(slots, start, end)[k];
    if k < before.len() {
        lemma_selected_member(slots.drop_last(), start, end, k);
        let i = choose|i: int| 0 <= i < slots.drop_last().len() && slots.drop_last()[i] == Some(#[trigger] before[k])
            && edge_selected(before[k], start, end);
        assert(slots[i] == Some(x));
    } else {
        assert(slots[slots.len() - 1] == Some(x));
    }
}

/// Slot reuse before growth: a slot freed by `delete_node` is the one the
/// next `add_node` returns.
pub proof fn lemma_slot_reuse<T>(g: GraphModel<T>, a: T, b: T)
    requires
        g.wf(),
        g.nodes.len() < usize::MAX,
    ensures
        ({
            let (g1, k) = g.add_node(a);
            let (g2, removed) = g1.delete_node(k);
            &&& removed == Some(a)
            &&& g2.add_node(b).1 == k
        }),
{
    let (g1, k) = g.add_node(a);
    if g.free_nodes.len() > 0 {
        assert(g.free_nodes[g.free_nodes.len() - 1] < g.nodes.len());
    }
    assert(g1.has_node(k as int));
}

/// Adding an edge between two existing nodes makes it one of the live edges.
pub proof fn lemma_added_edge_is_live<T>(g: GraphModel<T>, e: Edge)
    requires
        g.wf(),
        g.edges.len() < usize::MAX,
    ensures
        live_edges(g.insert_edge(e).edges).contains(e),
{
    let g1 = g.insert_edge(e);
    let i: int = if g.free_edges.len() > 0 {
        assert(g.free_edges[g.free_edges.len() - 1] < g.edges.len());
        g.free_edges.last() as int
    } else {
        g.edges.len() as int
    };
    assert(g1.edges[i] == Some(e));
    lemma_selected_contains(g1.edges, None, None, i);
}

/// After `delete_node(k)`, no live edge starts at `k` (nor ends there).
pub proof fn lemma_delete_node_drops_edges<T>(g: GraphModel<T>, k: NodeIndex)
    requires
        g.wf(),
    ensures
        forall|j: int| 0 <= j < live_edges(g.delete_node(k).0.edges).len() ==> {
            &&& (#[trigger] live_edges(g.delete_node(k).0.edges)[j]).start != k
            &&& live_edges(g.delete_node(k).0.edges)[j].end != k
        },
{
    let slots = g.delete_node(k).0.edges;
    assert forall|j: int| 0 <= j < live_edges(slots).len() implies {
        &&& (#[trigger] live_edges(slots)[j]).start != k
        &&& live_edges(slots)[j].end != k
    } by {
        lemma_selected_member(slots, None, None, j);
        let i = choose|i: int| 0 <= i < slots.len() && slots[i] == Some(#[trigger] live_edges(slots)[j])
            && edge_selected(live_edges(slots)[j], None, None);
        if g.has_node(k as int) {
            assert(!slot_selected(g.edges[i], Some(k), None));
        } else {
            assert(g.edges[i].is_some());
        }
    }
}

/// `delete_edge_by(None, None)` empties every edge slot and frees them all:
/// no live edge is left, and as many edges as there are slots can be added
/// afterwards, each into a freed slot, before the slots grow.
pub proof fn lemma_delete_all_edges<T>(g: GraphModel<T>, es: Seq<Edge>)
    requires
        g.wf(),
        g.edges.len() <= usize::MAX,
    ensures
        forall|i: int| 0 <= i < g.edges.len() ==> (#[trigger] g.delete_edges(None, None).0.edges[i]).is_none(),
        live_edges(g.delete_edges(None, None).0.edges).len() == 0,
        g.delete_edges(None, None).0.edges.len() == g.edges.len(),
        es.len() <= g.edges.len() ==> g.delete_edges(None, None).0.insert_edges(es).edges.len() == g.edges.len(),
{
    let g2 = g.delete_edges(None, None).0;
    let sel = selected_slots(g.edges, None, None);
    assert forall|i: int| 0 <= i < g2.edges.len() implies (#[trigger] g2.edges[i]).is_none() by {
        if g.edges[i].is_some() {
            assert(slot_selected(g.edges[i], None, None));
        }
    }
    if live_edges(g2.edges).len() > 0 {
        lemma_selected_member(g2.edges, None, None, 0);
        let i = choose|i: int| 0 <= i < g2.edges.len() && g2.edges[i] == Some(#[trigger] live_edges(g2.edges)[0])
            && edge_selected(live_edges(g2.edges)[0], None, None);
        assert(g2.edges[i].is_none());
    }
    lemma_selected_slots_bounded(g.edges, None, None);
    lemma_selected_slots_sorted(g.edges, None, None);
    let f = g.free_edges;
    assert(g2.free_edges == f + sel);
    // every slot index is on the free stack
    assert forall|j: usize| (j as int) < g.edges.len() implies #[trigger] g2.free_edges.contains(j) by {
        if g.edges[j as int].is_some() {
            lemma_selected_contains(g.edges, None, None, j as int);
            let w = choose|w: int| 0 <= w < sel.len() && sel[w] == j;
            assert(g2.free_edges[f.len() + w] == j);
        } else {
            assert(f.contains(j));
            let w = choose|w: int| 0 <= w < f.len() && f[w] == j;
            assert(g2.free_edges[w] == j);
        }
    }
    // and it names each once
    assert forall|x: int, y: int| 0 <= x < g2.free_edges.len() && 0 <= y < g2.free_edges.len() && x != y
        implies g2.free_edges[x] != g2.free_edges[y] by {
        if x < f.len() && y < f.len() {
        } else if x >= f.len() && y >= f.len() {
            if x < y {
                assert(sel[x - f.len()] < sel[y - f.len()]);
            } else {
                assert(sel[y - f.len()] < sel[x - f.len()]);
            }
        } else if x < f.len() {
            assert(g.edges[f[x] as int].is_none());
            assert(slot_selected(g.edges[sel[y - f.len()] as int], None, None));
        } else {
            assert(g.edges[f[y] as int].is_none());
            assert(slot_selected(g.edges[sel[x - f.len()] as int], None, None));
        }
    }
    assert(g2.free_edges.no_duplicates());
    lemma_cover(g2.free_edges, g.edges.len() as int);
    assert forall|k: int| 0 <= k < g2.free_edges.len() implies (#[trigger] g2.free_edges[k]) < g2.edges.len()
        && g2.edges[g2.free_edges[k] as int].is_none() by {
        if k >= f.len() {
            assert(g2.free_edges[k] == sel[k - f.len()]);
        } else {
            assert(g2.free_edges[k] == f[k]);
        }
    }
    assert(free_list_ok(g2.edges, g2.free_edges));
    if es.len() <= g.edges.len() {
        lemma_inserts_keep_len(g2, es);
    }
}

/// The indices of the selected slots rise strictly, and each names a
/// selected slot.
proof fn lemma_selected_slots_sorted(slots: Seq<Option<Edge>>, start: Option<NodeIndex>, end: Option<NodeIndex>)
    requires
        slots.len() <= usize::MAX,
    ensures
        forall|a: int, b: int| 0 <= a < b < selected_slots(slots, start, end).len()
            ==> selected_slots(slots, start, end)[a] < selected_slots(slots, start, end)[b],
        forall|k: int| 0 <= k < selected_slots(slots, start, end).len()
            ==> slot_selected(slots[#[trigger] selected_slots(slots, start, end)[k] as int], start, end),
    decreases slots.len(),
{
    if slots.len() > 0 {
        let pre = slots.drop_last();
        let before = selected_slots(pre, start, end);
        let all = selected_slots(slots, start, end);
        lemma_selected_slots_sorted(pre, start, end);
        lemma_selected_slots_bounded(pre, start, end);
        assert forall|k: int| 0 <= k < before.len() implies all[k] == before[k] && slots[before[k] as int] == pre[before[k] as int] by {
            assert(before[k] < pre.len());
        }
        assert forall|k: int| 0 <= k < all.len()
            implies slot_selected(slots[#[trigger] all[k] as int], start, end) by {
            if k < before.len() {
                assert(slots[before[k] as int] == pre[before[k] as int]);
            }
        }
    }
}

/// A stack without repeats that holds every index below `m` has at least
/// `m` entries.
proof fn lemma_cover(s: Seq<usize>, m: int)
    requires
        0 <= m <= usize::MAX + 1,
        s.no_duplicates(),
        forall|j: usize| (j as int) < m ==> #[trigger] s.contains(j),
    ensures
        s.len() >= m,
    decreases m,
{
    if m > 0 {
        let x = (m - 1) as usize;
        assert(s.contains(x));
        assert(x as int == m - 1);
        let idx = choose|w: int| 0 <= w < s.len() && s[w] == x;
        let t = s.remove(idx);
        s.remove_ensures(idx);
        assert forall|a: int, b: int| 0 <= a < t.len() && 0 <= b < t.len() && a != b implies t[a] != t[b] by {
            let sa = if a < idx { a } else { a + 1 };
            let sb = if b < idx { b } else { b + 1 };
            assert(t[a] == s[sa] && t[b] == s[sb]);
        }
        assert forall|j: usize| (j as int) < m - 1 implies #[trigger] t.contains(j) by {
            assert(s.contains(j));
            let w = choose|w: int| 0 <= w < s.len() && s[w] == j;
            assert(w != idx);
            if w < idx {
                assert(t[w] == j);
            } else {
                assert(t[w - 1] == j);
            }
        }
        lemma_cover(t, m - 1);
    }
}

/// Adding edges while freed slots remain fills those slots and never grows
/// the slot sequence.
proof fn lemma_inserts_keep_len<T>(h: GraphModel<T>, es: Seq<Edge>)
    requires
        free_list_ok(h.edges, h.free_edges),
        h.edges.len() <= usize::MAX,
        es.len() <= h.free_edges.len(),
    ensures
        h.insert_edges(es).edges.len() == h.edges.len(),
    decreases es.len(),
{
    if es.len() > 0 {
        let h1 = h.insert_edge(es[0]);
        assert(h.free_edges[h.free_edges.len() - 1] < h.edges.len());
        lemma_fill_slot(h.edges, h.free_edges, es[0]);
        lemma_inserts_keep_len(h1, es.drop_first());
    }
}

proof fn lemma_replace_payload<T>(g: GraphModel<T>, k: int, x: T)
    requires
        g.wf(),
        g.has_node(k),
    ensures
        g.with_payload(k, x).wf(),
{
    let h = g.with_payload(k, x);
    assert forall|i: int| 0 <= i < g.nodes.len() implies (#[trigger] h.nodes[i]).is_some() == g.nodes[i].is_some() by {
        if i != k {
            assert(h.nodes[i] == g.nodes[i]);
        }
    }
    assert forall|j: int| 0 <= j < h.edges.len() && (#[trigger] h.edges[j]).is_some() implies {
        &&& h.has_node(h.edges[j].unwrap().start as int)
        &&& h.has_node(h.edges[j].unwrap().end as int)
    } by {
        assert(g.edges[j] == h.edges[j]);
    }
    assert forall|i: int| 0 <= i < h.free_nodes.len() implies (#[trigger] h.free_nodes[i]) < h.nodes.len()
        && h.nodes[h.free_nodes[i] as int].is_none() by {
        assert(g.nodes[g.free_nodes[i] as int].is_none());
    }
    assert forall|j: int| 0 <= j < h.nodes.len() && (#[trigger] h.nodes[j]).is_none() implies h.free_nodes.contains(j as usize) by {
        assert(g.nodes[j].is_none());
    }
}

proof fn lemma_free_slot<A>(slots: Seq<Option<A>>, free: Seq<usize>, i: int)
    requires
        free_list_ok(slots, free),
        slots.len() <= usize::MAX,
        0 <= i < slots.len(),
        slots[i].is_some(),
    ensures
        free_list_ok(slots.update(i, None), free.push(i as usize)),
{
    let s2 = slots.update(i, None);
    let f2 = free.push(i as usize);
    assert forall|k: int| 0 <= k < f2.len() implies (#[trigger] f2[k]) < s2.len() && s2[f2[k] as int].is_none() by {
        if k < free.len() {
            assert(f2[k] == free[k]);
        } else {
            assert(f2[k] == i as usize);
        }
    }
    assert forall|j: int| 0 <= j < s2.len() && (#[trigger] s2[j]).is_none() implies f2.contains(j as usize) by {
        if j == i {
            assert(f2[free.len() as int] == i as usize);
        } else {
            assert(slots[j].is_none());
            let w = choose|w: int| 0 <= w < free.len() && free[w] == j as usize;
            assert(f2[w] == j as usize);
        }
    }
    assert forall|a: int, b: int| 0 <= a < f2.len() && 0 <= b < f2.len() && a != b implies f2[a] != f2[b] by {
        if a < free.len() && b < free.len() {
            assert(f2[a] == free[a] && f2[b] == free[b]);
        } else if a < free.len() {
            assert(f2[a] == free[a] && f2[b] == i as usize);
            assert(slots[free[a] as int].is_none());
        } else if b < free.len() {
            assert(f2[b] == free[b] && f2[a] == i as usize);
            assert(slots[free[b] as int].is_none());
        }
    }
}

proof fn lemma_fill_slot<A>(slots: Seq<Option<A>>, free: Seq<usize>, a: A)
    requires
        free_list_ok(slots, free),
        slots.len() <= usize::MAX,
        free.len() > 0,
    ensures
        free_list_ok(slots.update(free.last() as int, Some(a)), free.drop_last()),
{
    let k = free.last();
    let s2 = slots.update(k as int, Some(a));
    let f2 = free.drop_last();
    assert forall|i: int| 0 <= i < f2.len() implies (#[trigger] f2[i]) < s2.len() && s2[f2[i] as int].is_none() by {
        assert(f2[i] == free[i]);
        assert(free[free.len() - 1] == k);
    }
    assert forall|j: int| 0 <= j < s2.len() && (#[trigger] s2[j]).is_none() implies f2.contains(j as usize) by {
        assert(j != k as int);
        assert(slots[j].is_none());
        assert(j as usize as int == j);
        let w = choose|w: int| 0 <= w < free.len() && free[w] == j as usize;
        assert(free[free.len() - 1] == k);
        assert(w != free.len() - 1);
        assert(f2[w] == j as usize);
    }
    assert forall|x: int, y: int| 0 <= x < f2.len() && 0 <= y < f2.len() && x != y implies f2[x] != f2[y] by {
        assert(f2[x] == free[x] && f2[y] == free[y]);
    }
}

proof fn lemma_append_slot<A>(slots: Seq<Option<A>>, free: Seq<usize>, a: A)
    requires
        free_list_ok(slots, free),
        slots.len() <= usize::MAX,
        free.len() == 0,
    ensures
        free_list_ok(slots.push(Some(a)), free),
{
    let s2 = slots.push(Some(a));
    assert forall|j: int| 0 <= j < s2.len() && (#[trigger] s2[j]).is_none() implies free.contains(j as usize) by {
        assert(slots[j].is_none());
    }
}

} // verus!

use vstd::prelude::*;

verus! {

/// Identifier of a node in the message DAG (a content-derived id).
pub type NodeId = u64;

/// A node of the message DAG: an id together with the ordered ids of its
/// parents. Nodes are immutable; a node without in-scope parents is the root
/// of a thread.
pub struct Node {
    pub id: NodeId,
    pub parents: Vec<NodeId>,
}

/// In-memory model of the DAG store.
///
/// The store resolves a node id to the node's parent list; it is the single
/// source every ancestry traversal reads from. Node ids are unique.
pub struct Store {
    nodes: Vec<Node>,
}

/// The mathematical content of a store: a map from node id to parent sequence.
pub open spec fn map_of(nodes: Seq<Node>) -> Map<NodeId, Seq<NodeId>>
    decreases nodes.len(),
{
    if nodes.len() == 0 {
        Map::empty()
    } else {
        map_of(nodes.drop_last()).insert(nodes.last().id, nodes.last().parents@)
    }
}

/// A key is in the map exactly when some node carries it.
pub proof fn lemma_map_of_contains(nodes: Seq<Node>, id: NodeId)
    ensures
        map_of(nodes).contains_key(id) <==> (exists|i: int|
            0 <= i < nodes.len() && nodes[i].id == id),
    decreases nodes.len(),
{
    if nodes.len() > 0 {
        lemma_map_of_contains(nodes.drop_last(), id);
        if nodes.last().id == id {
            assert(nodes[nodes.len() - 1].id == id);
        } else if map_of(nodes).contains_key(id) {
            let i = choose|i: int| 0 <= i < nodes.drop_last().len() && nodes.drop_last()[i].id
                == id;
            assert(nodes[i].id == id);
        } else if exists|i: int| 0 <= i < nodes.len() && nodes[i].id == id {
            let i = choose|i: int| 0 <= i < nodes.len() && nodes[i].id == id;
            assert(nodes.drop_last()[i].id == id);
        }
    }
}

/// With unique ids, the map sends each node's id to that node's parents.
pub proof fn lemma_map_of_get(nodes: Seq<Node>, i: int)
    requires
        nodes.map_values(|n: Node| n.id).no_duplicates(),
        0 <= i < nodes.len(),
    ensures
        map_of(nodes).contains_key(nodes[i].id),
        map_of(nodes)[nodes[i].id] == nodes[i].parents@,
    decreases nodes.len(),
{
    let ids = nodes.map_values(|n: Node| n.id);
    if i < nodes.len() - 1 {
        assert(nodes.drop_last().map_values(|n: Node| n.id) =~= ids.drop_last());
        lemma_map_of_get(nodes.drop_last(), i);
        assert(ids[i] != ids[nodes.len() - 1]);
    }
}

/// The map of a store is finite and no larger than the node list.
pub proof fn lemma_map_of_finite(nodes: Seq<Node>)
    ensures
        map_of(nodes).dom().finite(),
        map_of(nodes).dom().len() <= nodes.len(),
    decreases nodes.len(),
{
    if nodes.len() > 0 {
        lemma_map_of_finite(nodes.drop_last());
        vstd::set_lib::lemma_set_insert_finite_iff(
            map_of(nodes.drop_last()).dom(),
            nodes.last().id,
        );
    }
}

impl View for Store {
    type V = Map<NodeId, Seq<NodeId>>;

    closed spec fn view(&self) -> Map<NodeId, Seq<NodeId>> {
        map_of(self.nodes@)
    }
}

impl Store {
    /// Unique node ids: the representation denotes its map unambiguously.
    pub closed spec fn wf(self) -> bool {
        self.nodes@.map_values(|n: Node| n.id).no_duplicates()
    }

    /// The view of every store is a finite map.
    pub proof fn lemma_finite(&self)
        ensures
            self@.dom().finite(),
    {
        lemma_map_of_finite(self.nodes@);
    }

    /// An empty store.
    pub fn new() -> (s: Store)
        ensures
            s.wf(),
            s@ == Map::<NodeId, Seq<NodeId>>::empty(),
    {
        Store { nodes: Vec::new() }
    }

    /// Whether the store can resolve `id`.
    pub fn contains_node(&self, id: NodeId) -> (r: bool)
        ensures
            r == self@.contains_key(id),
    {
        let n = self.nodes.len();
        let mut i: usize = 0;
        while i < n
            invariant
                i <= n,
                n == self.nodes@.len(),
                forall|j: int| 0 <= j < i ==> self.nodes@[j].id != id,
            decreases n - i,
        {
            if self.nodes[i].id == id {
                proof {
                    lemma_map_of_contains(self.nodes@, id);
                    assert(exists|j: int| 0 <= j < self.nodes@.len() && self.nodes@[j].id == id)
                        by {
                        assert(self.nodes@[i as int].id == id);
                    }
                }
                return true;
            }
            i += 1;
        }
        proof {
            lemma_map_of_contains(self.nodes@, id);
        }
        false
    }

    /// Add a node; refused (and the store left unchanged) if the id is taken.
    pub fn add_node(&mut self, id: NodeId, parents: Vec<NodeId>) -> (added: bool)
        requires
            old(self).wf(),
        ensures
            final(self).wf(),
            added == !old(self)@.contains_key(id),
            added ==> final(self)@ == old(self)@.insert(id, parents@),
            !added ==> final(self)@ == old(self)@,
    {
        if self.contains_node(id) {
            return false;
        }
        proof {
            lemma_map_of_contains(self.nodes@, id);
            assert(forall|j: int|
                0 <= j < self.nodes@.len() ==> self.nodes@.map_values(|n: Node| n.id)[j]
                    == self.nodes@[j].id);
        }
        self.nodes.push(Node { id, parents });
        proof {
            assert(self.nodes@.drop_last() =~= old(self).nodes@);
            assert(self.nodes@.map_values(|n: Node| n.id).drop_last() =~= old(
                self,
            ).nodes@.map_values(|n: Node| n.id));
        }
        true
    }

    /// Resolve a node id to its parent list; `None` when the id is absent.
    pub fn resolve(&self, id: NodeId) -> (r: Option<&Vec<NodeId>>)
        requires
            self.wf(),
        ensures
            match r {
                Some(parents) => self@.contains_key(id) && parents@ == self@[id],
                None => !self@.contains_key(id),
            },
    {
        let n = self.nodes.len();
        let mut i: usize = 0;
        while i < n
            invariant
                i <= n,
                n == self.nodes@.len(),
                self.wf(),
                forall|j: int| 0 <= j < i ==> self.nodes@[j].id != id,
            decreases n - i,
        {
            if self.nodes[i].id == id {
                proof {
                    lemma_map_of_get(self.nodes@, i as int);
                }
                return Some(&self.nodes[i].parents);
            }
            i += 1;
        }
        proof {
            lemma_map_of_contains(self.nodes@, id);
        }
        None
    }
}

} // verus!

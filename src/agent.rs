//! Per-agent epidemiological state and the contact-tracing record.
use vstd::prelude::*;
use std::collections::HashMap;

verus! {

broadcast use vstd::std_specs::hash::group_hash_axioms;

/// Seconds in a day.
pub const DAY: i64 = 86400;

/// Epidemiological state of an agent.
#[derive(Debug, Clone, Copy, PartialEq, Eq, Structural)]
pub enum Status {
    Susceptible,
    /// Seconds since the agent was exposed; it becomes infectious once
    /// this exceeds the incubation period.
    Exposed(i64),
    /// Seconds since the agent became infectious; it recovers once this
    /// exceeds the infectious period.
    Infectious(i64),
    Recovered,
    Dead,
}

impl Status {
    pub fn is_infectious(&self) -> (r: bool)
        ensures
            r == (*self is Infectious),
    {
        matches!(self, Status::Infectious(_))
    }

    pub fn is_susceptible(&self) -> (r: bool)
        ensures
            r == (*self is Susceptible),
    {
        matches!(self, Status::Susceptible)
    }

    pub fn is_dead(&self) -> (r: bool)
        ensures
            r == (*self is Dead),
    {
        matches!(self, Status::Dead)
    }

    /// The state after `step_size` more seconds: an exposed agent turns
    /// infectious once exposed for more than 21 days, an infectious one
    /// recovers once infectious for more than 28 days, and otherwise the
    /// clock of either advances. Other states do not change with time.
    pub open spec fn advanced_spec(self, step_size: int) -> Status {
        match self {
            Status::Exposed(t) => if t > 21 * DAY {
                Status::Infectious(0)
            } else {
                Status::Exposed((t + step_size) as i64)
            },
            Status::Infectious(t) => if t > 28 * DAY {
                Status::Recovered
            } else {
                Status::Infectious((t + step_size) as i64)
            },
            _ => self,
        }
    }

    pub fn advanced(&self, step_size: i64) -> (r: Status)
        requires
            0 <= step_size <= i64::MAX - 28 * DAY - 1,
            match *self {
                Status::Exposed(t) => t + step_size >= i64::MIN,
                Status::Infectious(t) => t + step_size >= i64::MIN,
                _ => true,
            },
        ensures
            r == self.advanced_spec(step_size as int),
    {
        match *self {
            Status::Exposed(t) => if t > 21 * DAY {
                Status::Infectious(0)
            } else {
                Status::Exposed(t + step_size)
            },
            Status::Infectious(t) => if t > 28 * DAY {
                Status::Recovered
            } else {
                Status::Infectious(t + step_size)
            },
            _ => *self,
        }
    }
}

/// What an agent is currently doing, which decides where it heads.
#[derive(Debug, Clone, Copy, PartialEq, Eq, Structural)]
pub enum Task {
    Work,
    Home,
    School,
    Idle,
}

impl Task {
    /// The task taken up on reaching the destination of this one: home
    /// and work alternate, school is followed by home.
    pub open spec fn next_spec(self) -> Task {
        match self {
            Task::Home => Task::Work,
            Task::Work => Task::Home,
            Task::Idle => Task::Idle,
            Task::School => Task::Home,
        }
    }

    pub fn next(&self) -> (r: Task)
        ensures
            r == self.next_spec(),
    {
        match self {
            Task::Home => Task::Work,
            Task::Work => Task::Home,
            Task::Idle => Task::Idle,
            Task::School => Task::Home,
        }
    }
}

/// One agent's place in the contact-tracing graph: the node of the agent
/// that infected it, if known, and the nodes of the agents it infected.
#[derive(Debug)]
pub struct ContactNode {
    index: usize,
    parent: Option<usize>,
    children: Vec<usize>,
    agent_id: usize,
}

impl ContactNode {
    pub closed spec fn index_spec(self) -> usize {
        self.index
    }

    pub closed spec fn parent_spec(self) -> Option<usize> {
        self.parent
    }

    pub closed spec fn children_spec(self) -> Seq<usize> {
        self.children@
    }

    pub closed spec fn agent_id_spec(self) -> usize {
        self.agent_id
    }

    /// Number of edges at this node: one per infected agent, plus one for
    /// the source when it is known.
    pub open spec fn degree_spec(self) -> int {
        self.children_spec().len() + if self.parent_spec() is Some {
            1int
        } else {
            0int
        }
    }

    pub fn get_degree(&self) -> (r: usize)
        requires
            self.children_spec().len() < usize::MAX,
        ensures
            r == self.degree_spec(),
    {
        self.children.len() + if self.parent.is_some() {
            1
        } else {
            0
        }
    }

    pub fn index(&self) -> (r: usize)
        ensures
            r == self.index_spec(),
    {
        self.index
    }

    pub fn parent(&self) -> (r: Option<usize>)
        ensures
            r == self.parent_spec(),
    {
        self.parent
    }

    pub fn children(&self) -> (r: &Vec<usize>)
        ensures
            r@ == self.children_spec(),
    {
        &self.children
    }

    pub fn agent_id(&self) -> (r: usize)
        ensures
            r == self.agent_id_spec(),
    {
        self.agent_id
    }
}

/// Who infected whom, as a forest of nodes in order of infection.
#[derive(Debug)]
pub struct ContactGraph {
    nodes: Vec<ContactNode>,
    /// Agent id to the index of its latest node.
    agent_table: HashMap<usize, usize>,
}

impl ContactGraph {
    /// The nodes, in order of insertion.
    pub closed spec fn nodes_spec(self) -> Seq<ContactNode> {
        self.nodes@
    }

    /// Agent id to the index of the agent's latest node.
    pub closed spec fn table(self) -> Map<usize, usize> {
        self.agent_table@
    }

    /// Each node knows its index, and the table points at existing nodes.
    /// A node's source comes before it, and its children come after it,
    /// each once, each naming it as source.
    pub closed spec fn wf(self) -> bool {
        &&& forall|i: int| 0 <= i < self.nodes@.len() ==> (#[trigger] self.nodes@[i]).index == i
        &&& forall|a: usize| #[trigger] self.agent_table@.contains_key(a) ==> self.agent_table@[a] < self.nodes@.len()
        &&& forall|i: int| 0 <= i < self.nodes@.len() ==> #[trigger] self.links_ok(i)
    }

    spec fn links_ok(self, i: int) -> bool {
        let nd = self.nodes@[i];
        &&& nd.parent is Some ==> nd.parent->Some_0 < i
        &&& nd.children@.no_duplicates()
        &&& forall|k: int|
            0 <= k < nd.children@.len() ==> {
                let c = #[trigger] nd.children@[k] as int;
                &&& i < c < self.nodes@.len()
                &&& self.nodes@[c].parent == Some(i as usize)
            }
    }

    /// The links of the graph: a node's source comes before it, and its
    /// children come after it, each once, each naming it as source.
    pub proof fn lemma_links(self)
        requires
            self.wf(),
        ensures
            forall|i: int|
                0 <= i < self.nodes_spec().len() && (#[trigger] self.nodes_spec()[i]).parent_spec() is Some
                    ==> self.nodes_spec()[i].parent_spec()->Some_0 < i,
            forall|i: int|
                0 <= i < self.nodes_spec().len() ==> (#[trigger] self.nodes_spec()[i]).children_spec().no_duplicates(),
            forall|i: int, k: int|
                0 <= i < self.nodes_spec().len() && 0 <= k < self.nodes_spec()[i].children_spec().len() ==> {
                    let c = #[trigger] self.nodes_spec()[i].children_spec()[k] as int;
                    &&& i < c < self.nodes_spec().len()
                    &&& self.nodes_spec()[c].parent_spec() == Some(i as usize)
                },
            forall|a: usize| #[trigger] self.table().contains_key(a) ==> self.table()[a] < self.nodes_spec().len(),
    {
        assert forall|i: int|
            0 <= i < self.nodes_spec().len() && (#[trigger] self.nodes_spec()[i]).parent_spec() is Some
                implies self.nodes_spec()[i].parent_spec()->Some_0 < i by {
            assert(self.links_ok(i));
        }
        assert forall|i: int|
            0 <= i < self.nodes_spec().len() implies (#[trigger] self.nodes_spec()[i]).children_spec().no_duplicates() by {
            assert(self.links_ok(i));
        }
        assert forall|i: int, k: int|
            0 <= i < self.nodes_spec().len() && 0 <= k < self.nodes_spec()[i].children_spec().len() implies {
                let c = #[trigger] self.nodes_spec()[i].children_spec()[k] as int;
                &&& i < c < self.nodes_spec().len()
                &&& self.nodes_spec()[c].parent_spec() == Some(i as usize)
            } by {
            assert(self.links_ok(i));
        }
    }

    pub fn new() -> (r: Self)
        ensures
            r.wf(),
            r.nodes_spec().len() == 0,
            r.table() == Map::<usize, usize>::empty(),
    {
        Self { nodes: Vec::new(), agent_table: HashMap::new() }
    }

    /// Records that agent `agent_id` was infected, by agent `parent` when
    /// known. The new node's parent is the latest node of `parent`, if it
    /// has one, and that node lists the new one among its children.
    pub fn add_node(&mut self, agent_id: usize, parent: Option<usize>)
        requires
            old(self).wf(),
            old(self).nodes_spec().len() < usize::MAX,
        ensures
            final(self).wf(),
            ({
                let n = old(self).nodes_spec().len();
                let gp = match parent {
                    Some(p) => if old(self).table().contains_key(p) {
                        Some(old(self).table()[p])
                    } else {
                        None
                    },
                    None => None,
                };
                &&& final(self).nodes_spec().len() == n + 1
                &&& final(self).nodes_spec()[n as int].index_spec() == n
                &&& final(self).nodes_spec()[n as int].parent_spec() == gp
                &&& final(self).nodes_spec()[n as int].children_spec().len() == 0
                &&& final(self).nodes_spec()[n as int].agent_id_spec() == agent_id
                &&& final(self).table() == old(self).table().insert(agent_id, n as usize)
                &&& forall|i: int|
                    0 <= i < n && gp != Some(i as usize) ==> #[trigger] final(self).nodes_spec()[i] == old(self).nodes_spec()[i]
                &&& gp is Some ==> {
                    let pi = gp->Some_0 as int;
                    &&& final(self).nodes_spec()[pi].children_spec() == old(self).nodes_spec()[pi].children_spec().push(n as usize)
                    &&& final(self).nodes_spec()[pi].index_spec() == old(self).nodes_spec()[pi].index_spec()
                    &&& final(self).nodes_spec()[pi].parent_spec() == old(self).nodes_spec()[pi].parent_spec()
                    &&& final(self).nodes_spec()[pi].agent_id_spec() == old(self).nodes_spec()[pi].agent_id_spec()
                }
            }),
    {
        let graph_parent = match parent {
            Some(parent_agent) => match self.agent_table.get(&parent_agent) {
                Some(parent_index) => Some(*parent_index),
                None => None,
            },
            None => None,
        };
        let index = self.nodes.len();
        let new_node = ContactNode { index, parent: graph_parent, children: Vec::new(), agent_id };
        if let Some(pi) = graph_parent {
            let mut children = Vec::new();
            std::mem::swap(&mut children, &mut self.nodes[pi].children);
            children.push(index);
            std::mem::swap(&mut children, &mut self.nodes[pi].children);
        }
        let ghost mid = self.nodes@;
        self.agent_table.insert(agent_id, index);
        self.nodes.push(new_node);
        proof {
            let n = index as int;
            assert forall|i: int| 0 <= i < self.nodes@.len() implies self.links_ok(i) by {
                if i < n {
                    assert(old(self).links_ok(i));
                    let nd = self.nodes@[i];
                    if graph_parent == Some(i as usize) {
                        assert(nd.children@ == old(self).nodes@[i].children@.push(index));
                        assert(!old(self).nodes@[i].children@.contains(index)) by {
                            if old(self).nodes@[i].children@.contains(index) {
                                let k = choose|k: int| 0 <= k < old(self).nodes@[i].children@.len()
                                    && old(self).nodes@[i].children@[k] == index;
                            }
                        }
                        let t = old(self).nodes@[i].children@;
                        assert forall|a: int, b: int| 0 <= a < nd.children@.len() && 0 <= b < nd.children@.len() && a != b
                            implies nd.children@[a] != nd.children@[b] by {
                            if a < t.len() && b < t.len() {
                                assert(t[a] != t[b]);
                            } else if a < t.len() {
                                assert(t.contains(t[a]));
                            } else if b < t.len() {
                                assert(t.contains(t[b]));
                            }
                        }
                        assert forall|k: int| 0 <= k < nd.children@.len() implies {
                            let c = #[trigger] nd.children@[k] as int;
                            &&& i < c < self.nodes@.len()
                            &&& self.nodes@[c].parent == Some(i as usize)
                        } by {
                            if k < t.len() {
                                let c = t[k] as int;
                                assert(nd.children@[k] == t[k]);
                                if c != i {
                                    assert(graph_parent != Some(c as usize));
                                }
                            }
                        }
                    } else {
                        assert(nd == old(self).nodes@[i]);
                        assert forall|k: int| 0 <= k < nd.children@.len() implies {
                            let c = #[trigger] nd.children@[k] as int;
                            &&& i < c < self.nodes@.len()
                            &&& self.nodes@[c].parent == Some(i as usize)
                        } by {
                            let c = nd.children@[k] as int;
                            assert(old(self).nodes@[c].parent == Some(i as usize));
                            if graph_parent == Some(c as usize) {
                                assert(self.nodes@[c].parent == old(self).nodes@[c].parent);
                            } else {
                                assert(self.nodes@[c] == old(self).nodes@[c]);
                            }
                        }
                    }
                } else {
                    assert(self.nodes@[i] == new_node);
                }
            }
        }
    }

    /// Number of nodes.
    pub fn len(&self) -> (r: usize)
        ensures
            r == self.nodes_spec().len(),
    {
        self.nodes.len()
    }

    /// The node with index `i`, if any.
    pub fn node(&self, i: usize) -> (r: Option<&ContactNode>)
        ensures
            r is Some <==> i < self.nodes_spec().len(),
            r is Some ==> *r->Some_0 == self.nodes_spec()[i as int],
    {
        if i < self.nodes.len() {
            Some(&self.nodes[i])
        } else {
            None
        }
    }
}

} // verus!

//! A mutable, self-rebalancing quadtree over a fixed world rectangle.
//!
//! Nodes live in a table of reusable slots; a freed slot id goes on a stack
//! and is handed to the next node created. Agents are kept behind handles
//! that are never reused. A leaf that holds more than `leaf_capacity`
//! agents and is wider than `min_leaf_width` splits into four quarters;
//! `clean_tree` merges an inner node back into a leaf once its four leaf
//! children hold at most `leaf_capacity` agents together.
use vstd::prelude::*;
use crate::geometry::{Rect, Vec2D, lemma_quarters};

verus! {

#[derive(Debug, Clone, Copy, PartialEq, Eq, Structural)]
enum NodeType {
    Inner,
    Leaf,
}

/// A slot of the node table. For a leaf, `children` holds agent handles;
/// for an inner node, the ids of its four children by quadrant number.
struct Node {
    typ: NodeType,
    parent: Option<usize>,
    children: Vec<usize>,
    bounds: Rect,
}

/// What the index keeps for one agent.
struct Entry<A> {
    agent: A,
    pos: Vec2D,
    leaf: usize,
}

pub struct Quadtree<A> {
    bounds: Rect,
    leaf_capacity: usize,
    min_leaf_width: i64,
    nodes: Vec<Option<Node>>,
    /// Indexed by handle; a removed agent leaves `None` behind, so the
    /// length is the next handle to be given out.
    agents: Vec<Option<Entry<A>>>,
    open_node_indices: Vec<usize>,
    /// For each node, the ids of its ancestors from the root down.
    paths: Ghost<Map<int, Seq<int>>>,
}

/// The node after `j` on the path `path` that ends in node `n`.
spec fn next_on_path(path: Seq<int>, n: int, j: int) -> int {
    if j + 1 < path.len() {
        path[j + 1]
    } else {
        n
    }
}


/// Every id on the free stack names an empty slot other than the root's,
/// once, and every empty slot is on the stack.
spec fn free_ok_of(nodes: Seq<Option<Node>>, open: Seq<usize>) -> bool {
    &&& open.no_duplicates()
    &&& forall|k: int|
        0 <= k < open.len() ==> 0 < #[trigger] open[k] < nodes.len() && nodes[open[k] as int] is None
    &&& forall|n: int| 0 <= n < nodes.len() && #[trigger] nodes[n] is None ==> open.contains(n as usize)
}

proof fn lemma_push_no_dups(s: Seq<usize>, x: usize)
    requires
        s.no_duplicates(),
        !s.contains(x),
    ensures
        s.push(x).no_duplicates(),
{
    let t = s.push(x);
    assert forall|i: int, j: int| 0 <= i < t.len() && 0 <= j < t.len() && i != j implies t[i] != t[j] by {
        if i < s.len() && j < s.len() {
            assert(s[i] == t[i] && s[j] == t[j]);
        } else if i < s.len() {
            assert(s[i] == t[i]);
        } else if j < s.len() {
            assert(s[j] == t[j]);
        }
    }
}

proof fn lemma_push_contains(s: Seq<usize>, x: usize)
    ensures
        forall|y: usize| #[trigger] s.push(x).contains(y) <==> s.contains(y) || y == x,
{
    assert forall|y: usize| #[trigger] s.push(x).contains(y) implies s.contains(y) || y == x by {
        let i = choose|i: int| 0 <= i < s.push(x).len() && s.push(x)[i] == y;
        if i < s.len() {
            assert(s[i] == y);
        }
    }
    assert forall|y: usize| s.contains(y) || y == x implies #[trigger] s.push(x).contains(y) by {
        if y == x {
            assert(s.push(x)[s.len() as int] == y);
        } else {
            let i = choose|i: int| 0 <= i < s.len() && s[i] == y;
            assert(s.push(x)[i] == y);
        }
    }
}

/// Places `node` in a free slot, the most recently freed one if any, else
/// at the end of the table, and returns its id.
fn add_node(nodes: &mut Vec<Option<Node>>, open: &mut Vec<usize>, node: Node) -> (id: usize)
    requires
        free_ok_of(old(nodes)@, old(open)@),
        old(nodes)@.len() >= 1,
    ensures
        free_ok_of(final(nodes)@, final(open)@),
        0 < id < final(nodes)@.len(),
        final(nodes)@[id as int] == Some(node),
        id >= old(nodes)@.len() || old(nodes)@[id as int] is None,
        old(nodes)@.len() <= final(nodes)@.len() <= old(nodes)@.len() + 1,
        forall|n: int| 0 <= n < old(nodes)@.len() && n != id ==> final(nodes)@[n] == old(nodes)@[n],
        final(nodes)@.len() == old(nodes)@.len() + 1 ==> id == old(nodes)@.len(),
        old(open)@.len() > 0 ==> id == old(open)@.last() && final(open)@ == old(open)@.drop_last(),
        old(open)@.len() == 0 ==> id == old(nodes)@.len() && final(open)@ == old(open)@,
        forall|x: usize| #[trigger] final(open)@.contains(x) ==> old(open)@.contains(x),
{
    match open.pop() {
        Some(id) => {
            proof {
                assert(old(open)@[old(open)@.len() - 1] == id);
            }
            nodes[id] = Some(node);
            proof {
                let o = final(open)@;
                assert forall|k: int| 0 <= k < o.len() implies 0 < #[trigger] o[k] < nodes@.len() && nodes@[o[k] as int] is None by {
                    assert(old(open)@[k] == o[k]);
                    assert(o[k] != id);
                }
                assert forall|n: int| 0 <= n < nodes@.len() && #[trigger] nodes@[n] is None implies o.contains(n as usize) by {
                    assert(n != id as int);
                    assert(old(nodes)@[n] is None);
                    assert(old(open)@.contains(n as usize));
                    let k = choose|k: int| 0 <= k < old(open)@.len() && old(open)@[k] == n as usize;
                    assert(nodes@.len() == nodes.len());
                    assert(n as usize != id);
                    assert(old(open)@[old(open)@.len() - 1] == id);
                    assert(k != old(open)@.len() - 1);
                    assert(o[k] == n as usize);
                }
                assert forall|x: usize| #[trigger] o.contains(x) implies old(open)@.contains(x) by {
                    let k = choose|k: int| 0 <= k < o.len() && o[k] == x;
                    assert(old(open)@[k] == x);
                }
            }
            id
        },
        None => {
            nodes.push(Some(node));
            nodes.len() - 1
        },
    }
}

/// Frees slot `id`: the table shrinks when it is the last slot, else the id
/// goes on the free stack.
fn remove_node(nodes: &mut Vec<Option<Node>>, open: &mut Vec<usize>, id: usize)
    requires
        free_ok_of(old(nodes)@, old(open)@),
        0 < id < old(nodes)@.len(),
        old(nodes)@[id as int] is Some,
    ensures
        free_ok_of(final(nodes)@, final(open)@),
        final(nodes)@.len() <= old(nodes)@.len(),
        forall|n: int|
            (0 <= n < final(nodes)@.len() && #[trigger] final(nodes)@[n] is Some) <==> (0 <= n
                < old(nodes)@.len() && old(nodes)@[n] is Some && n != id),
        forall|n: int| 0 <= n < final(nodes)@.len() && n != id ==> #[trigger] final(nodes)@[n] == old(nodes)@[n],
        id == old(nodes)@.len() - 1 ==> final(nodes)@ == old(nodes)@.drop_last() && final(open)@ == old(open)@,
        id != old(nodes)@.len() - 1 ==> final(nodes)@ == old(nodes)@.update(id as int, None) && final(open)@ == old(open)@.push(id),
{
    if id == nodes.len() - 1 {
        nodes.pop();
        proof {
            assert forall|k: int| 0 <= k < open@.len() implies 0 < #[trigger] open@[k] < nodes@.len() && nodes@[open@[k] as int] is None by {
                assert(old(nodes)@[open@[k] as int] is None);
            }
        }
    } else {
        nodes[id] = None;
        open.push(id);
        proof {
            lemma_push_contains(old(open)@, id);
            assert forall|k: int| 0 <= k < open@.len() implies 0 < #[trigger] open@[k] < nodes@.len() && nodes@[open@[k] as int] is None by {
                if k < old(open)@.len() {
                    assert(old(open)@[k] == open@[k]);
                }
            }
            assert forall|n: int| 0 <= n < nodes@.len() && #[trigger] nodes@[n] is None implies open@.contains(n as usize) by {
                if n != id {
                    assert(old(open)@.contains(n as usize));
                }
            }
        }
    }
}

/// `5` to the power `w`, for `w >= 0`.
spec fn weight(w: int) -> nat
    decreases w,
{
    if w <= 0 {
        1
    } else {
        5 * weight(w - 1)
    }
}

proof fn lemma_weight_pos(w: int)
    ensures
        weight(w) >= 1,
    decreases w,
{
    if w > 0 {
        lemma_weight_pos(w - 1);
    }
}

proof fn lemma_weight_mono(a: int, b: int)
    requires
        a <= b,
    ensures
        weight(a) <= weight(b),
    decreases b - a,
{
    if a < b {
        lemma_weight_mono(a, b - 1);
        lemma_weight_pos(b - 1);
        if b > 0 {
            assert(weight(b) == 5 * weight(b - 1));
        }
    }
}

proof fn lemma_filter_same(s: Seq<usize>, p: spec_fn(usize) -> bool, q: spec_fn(usize) -> bool)
    requires
        forall|k: int| 0 <= k < s.len() ==> p(s[k]) == q(s[k]),
    ensures
        s.filter(p) == s.filter(q),
    decreases s.len(),
{
    if s.len() == 0 {
        reveal(Seq::filter);
        assert(s.filter(p) =~= s.filter(q));
    } else {
        let t = s.drop_last();
        lemma_filter_same(t, p, q);
        assert(s =~= t.push(s.last()));
        t.lemma_filter_push(s.last(), p);
        t.lemma_filter_push(s.last(), q);
    }
}

/// `v` without the occurrences of `x`.
fn without(v: &Vec<usize>, x: usize) -> (r: Vec<usize>)
    requires
        v@.no_duplicates(),
    ensures
        r@ == v@.filter(|y: usize| y != x),
        r@.no_duplicates(),
        forall|y: usize| #[trigger] r@.contains(y) <==> v@.contains(y) && y != x,
{
    let mut r: Vec<usize> = Vec::new();
    let mut k: usize = 0;
    while k < v.len()
        invariant
            k <= v@.len(),
            v@.no_duplicates(),
            r@ == v@.take(k as int).filter(|y: usize| y != x),
            r@.no_duplicates(),
            forall|y: usize| #[trigger] r@.contains(y) <==> v@.take(k as int).contains(y) && y != x,
        decreases v@.len() - k,
    {
        let y = v[k];
        proof {
            assert(v@.take(k as int + 1) =~= v@.take(k as int).push(y));
            v@.take(k as int).lemma_filter_push(y, |z: usize| z != x);
            lemma_push_contains(v@.take(k as int), y);
            lemma_push_contains(r@, y);
            assert(!v@.take(k as int).contains(y)) by {
                if v@.take(k as int).contains(y) {
                    let j = choose|j: int| 0 <= j < k && v@.take(k as int)[j] == y;
                    assert(v@[j] == v@[k as int]);
                }
            }
            if y != x {
                lemma_push_no_dups(r@, y);
            }
        }
        if y != x {
            r.push(y);
        }
        k = k + 1;
    }
    proof {
        assert(v@.take(v@.len() as int) =~= v@);
    }
    r
}

/// Records that agent `h` is now at `pos`.
fn set_pos<A>(agents: &mut Vec<Option<Entry<A>>>, h: usize, pos: Vec2D)
    requires
        h < old(agents)@.len(),
        old(agents)@[h as int] is Some,
    ensures
        final(agents)@.len() == old(agents)@.len(),
        final(agents)@[h as int] is Some,
        final(agents)@[h as int]->Some_0.pos == pos,
        final(agents)@[h as int]->Some_0.leaf == old(agents)@[h as int]->Some_0.leaf,
        final(agents)@[h as int]->Some_0.agent == old(agents)@[h as int]->Some_0.agent,
        forall|i: int| 0 <= i < final(agents)@.len() && i != h ==> #[trigger] final(agents)@[i] == old(agents)@[i],
{
    let e = agents[h].take().unwrap();
    agents[h] = Some(Entry { agent: e.agent, pos, leaf: e.leaf });
}

proof fn lemma_add_contains(a: Seq<usize>, b: Seq<usize>)
    ensures
        forall|y: usize| #[trigger] (a + b).contains(y) <==> a.contains(y) || b.contains(y),
{
    assert forall|y: usize| #[trigger] (a + b).contains(y) implies a.contains(y) || b.contains(y) by {
        let i = choose|i: int| 0 <= i < (a + b).len() && (a + b)[i] == y;
        if i < a.len() {
            assert(a[i] == y);
        } else {
            assert(b[i - a.len()] == y);
        }
    }
    assert forall|y: usize| a.contains(y) || b.contains(y) implies #[trigger] (a + b).contains(y) by {
        if a.contains(y) {
            let i = choose|i: int| 0 <= i < a.len() && a[i] == y;
            assert((a + b)[i] == y);
        } else {
            let i = choose|i: int| 0 <= i < b.len() && b[i] == y;
            assert((a + b)[i + a.len()] == y);
        }
    }
}

proof fn lemma_add_no_dups(a: Seq<usize>, b: Seq<usize>)
    requires
        a.no_duplicates(),
        b.no_duplicates(),
        forall|y: usize| a.contains(y) ==> !b.contains(y),
    ensures
        (a + b).no_duplicates(),
{
    let t = a + b;
    assert forall|i: int, j: int| 0 <= i < t.len() && 0 <= j < t.len() && i != j implies t[i] != t[j] by {
        if i < a.len() && j >= a.len() {
            assert(a.contains(t[i]) && b.contains(t[j])) by {
                assert(a[i] == t[i]);
                assert(b[j - a.len()] == t[j]);
            }
        } else if j < a.len() && i >= a.len() {
            assert(a.contains(t[j]) && b.contains(t[i])) by {
                assert(a[j] == t[j]);
                assert(b[i - a.len()] == t[i]);
            }
        } else if i < a.len() {
            assert(a[i] == t[i] && a[j] == t[j]);
        } else {
            assert(b[i - a.len()] == t[i] && b[j - a.len()] == t[j]);
        }
    }
}

/// Appends the elements of `src` to `dst`.
fn append_all(dst: &mut Vec<usize>, src: &Vec<usize>)
    ensures
        final(dst)@ == old(dst)@ + src@,
{
    let mut k: usize = 0;
    while k < src.len()
        invariant
            k <= src@.len(),
            dst@ == old(dst)@ + src@.take(k as int),
        decreases src@.len() - k,
    {
        proof {
            assert(src@.take(k as int + 1) =~= src@.take(k as int).push(src@[k as int]));
        }
        dst.push(src[k]);
        proof {
            assert(dst@ =~= old(dst)@ + src@.take(k as int + 1));
        }
        k = k + 1;
    }
    proof {
        assert(src@.take(k as int) =~= src@);
    }
}

/// Frees the four slots `c0` to `c3`, in that order.
fn remove_four(nodes: &mut Vec<Option<Node>>, open: &mut Vec<usize>, c0: usize, c1: usize, c2: usize, c3: usize)
    requires
        free_ok_of(old(nodes)@, old(open)@),
        c0 != c1 && c0 != c2 && c0 != c3 && c1 != c2 && c1 != c3 && c2 != c3,
        old(nodes)@.len() <= usize::MAX,
        0 < c0 < old(nodes)@.len() && old(nodes)@[c0 as int] is Some,
        0 < c1 < old(nodes)@.len() && old(nodes)@[c1 as int] is Some,
        0 < c2 < old(nodes)@.len() && old(nodes)@[c2 as int] is Some,
        0 < c3 < old(nodes)@.len() && old(nodes)@[c3 as int] is Some,
    ensures
        free_ok_of(final(nodes)@, final(open)@),
        final(nodes)@.len() <= old(nodes)@.len(),
        forall|m: int|
            (0 <= m < final(nodes)@.len() && #[trigger] final(nodes)@[m] is Some) <==> (0 <= m < old(nodes)@.len()
                && old(nodes)@[m] is Some && !seq![c0, c1, c2, c3].contains(m as usize)),
        forall|m: int| 0 <= m < final(nodes)@.len() && final(nodes)@[m] is Some ==> #[trigger] final(nodes)@[m] == old(nodes)@[m],
{
    let ghost cs = seq![c0, c1, c2, c3];
    proof {
        assert(cs[0] == c0 && cs[1] == c1 && cs[2] == c2 && cs[3] == c3);
    }
    remove_node(nodes, open, c0);
    remove_node(nodes, open, c1);
    remove_node(nodes, open, c2);
    remove_node(nodes, open, c3);
    proof {
        assert forall|m: int|
            (0 <= m < nodes@.len() && #[trigger] nodes@[m] is Some) <==> (0 <= m < old(nodes)@.len()
                && old(nodes)@[m] is Some && !cs.contains(m as usize)) by {
            if cs.contains(m as usize) {
                let i = choose|i: int| 0 <= i < 4 && cs[i] == m as usize;
            }
            if 0 <= m < old(nodes)@.len() && m != c0 && m != c1 && m != c2 && m != c3 {
                assert(!cs.contains(m as usize));
            }
        }
    }
}

/// Records that agent `h` now lives in leaf `leaf`.
fn set_leaf<A>(agents: &mut Vec<Option<Entry<A>>>, h: usize, leaf: usize)
    requires
        h < old(agents)@.len(),
        old(agents)@[h as int] is Some,
    ensures
        final(agents)@.len() == old(agents)@.len(),
        final(agents)@[h as int] is Some,
        final(agents)@[h as int]->Some_0.leaf == leaf,
        final(agents)@[h as int]->Some_0.pos == old(agents)@[h as int]->Some_0.pos,
        final(agents)@[h as int]->Some_0.agent == old(agents)@[h as int]->Some_0.agent,
        forall|i: int| 0 <= i < final(agents)@.len() && i != h ==> #[trigger] final(agents)@[i] == old(agents)@[i],
{
    let e = agents[h].take().unwrap();
    agents[h] = Some(Entry { agent: e.agent, pos: e.pos, leaf });
}

impl<A> Quadtree<A> {
    // ---------------------------------------------------------------
    // The model
    // ---------------------------------------------------------------
    spec fn nd(self, n: int) -> Node {
        self.nodes@[n]->Some_0
    }

    spec fn ent(self, h: int) -> Entry<A> {
        self.agents@[h]->Some_0
    }

    /// Node `n` is in use.
    pub closed spec fn live(self, n: int) -> bool {
        0 <= n < self.nodes@.len() && self.nodes@[n] is Some
    }

    pub closed spec fn is_leaf(self, n: int) -> bool {
        self.live(n) && self.nd(n).typ == NodeType::Leaf
    }

    pub closed spec fn is_inner(self, n: int) -> bool {
        self.live(n) && self.nd(n).typ == NodeType::Inner
    }

    pub closed spec fn node_bounds(self, n: int) -> Rect {
        self.nd(n).bounds
    }

    pub closed spec fn node_parent(self, n: int) -> Option<usize> {
        self.nd(n).parent
    }

    /// For a leaf, the handles it holds in order; for an inner node, the
    /// ids of its children by quadrant number.
    pub closed spec fn node_children(self, n: int) -> Seq<usize> {
        self.nd(n).children@
    }

    pub closed spec fn has_agent(self, h: int) -> bool {
        0 <= h < self.agents@.len() && self.agents@[h] is Some
    }

    /// The handle that the next insertion gives out.
    pub closed spec fn next_handle(self) -> int {
        self.agents@.len() as int
    }

    pub closed spec fn agent_pos(self, h: int) -> Vec2D {
        self.ent(h).pos
    }

    pub closed spec fn agent(self, h: int) -> A {
        self.ent(h).agent
    }

    /// The leaf that holds agent `h`.
    pub closed spec fn owner(self, h: int) -> int {
        self.ent(h).leaf as int
    }

    pub closed spec fn world(self) -> Rect {
        self.bounds
    }

    pub closed spec fn capacity(self) -> nat {
        self.leaf_capacity as nat
    }

    pub closed spec fn min_width(self) -> int {
        self.min_leaf_width as int
    }

    /// The stored agents: handle to position and payload.
    pub open spec fn contents(self) -> Map<int, (Vec2D, A)> {
        Map::new(|h: int| self.has_agent(h), |h: int| (self.agent_pos(h), self.agent(h)))
    }

    // ---------------------------------------------------------------
    // Well-formedness
    // ---------------------------------------------------------------
    spec fn free_ok(self) -> bool {
        free_ok_of(self.nodes@, self.open_node_indices@)
    }

    spec fn inner_ok(self, n: int) -> bool {
        let nd = self.nd(n);
        &&& nd.children@.len() == 4
        &&& nd.children@.no_duplicates()
        &&& nd.bounds.width_spec() >= 2
        &&& forall|i: int|
            0 <= i < 4 ==> {
                let c = #[trigger] nd.children@[i] as int;
                &&& self.live(c)
                &&& self.nd(c).parent == Some(n as usize)
                &&& self.nd(c).bounds == nd.bounds.quarter_spec(i)
            }
    }

    spec fn leaf_ok(self, n: int) -> bool {
        let nd = self.nd(n);
        &&& nd.children@.no_duplicates()
        &&& forall|k: int|
            0 <= k < nd.children@.len() ==> {
                let h = #[trigger] nd.children@[k] as int;
                &&& self.has_agent(h)
                &&& self.ent(h).leaf == n
                &&& nd.bounds.contains_spec(self.ent(h).pos)
            }
    }

    spec fn path_ok(self, n: int) -> bool {
        let path = self.paths@[n];
        let nd = self.nd(n);
        &&& path.len() == 0 ==> n == 0
        &&& path.len() > 0 ==> path[0] == 0
        &&& forall|j: int|
            0 <= j < path.len() ==> {
                let a = #[trigger] path[j];
                &&& self.is_inner(a)
                &&& nd.bounds.within(self.nd(a).bounds)
                &&& self.nd(a).children@.contains(next_on_path(path, n, j) as usize)
            }
    }

    /// The path of a node is its parent's path followed by the parent.
    spec fn path_link(self, n: int) -> bool {
        &&& n == 0 ==> self.paths@[n].len() == 0
        &&& self.nd(n).parent is Some ==> {
            let p = self.nd(n).parent->Some_0 as int;
            self.paths@[n] == self.paths@[p].push(p)
        }
    }

    spec fn node_ok(self, n: int) -> bool {
        let nd = self.nd(n);
        &&& nd.bounds.wf()
        &&& (n == 0) == (nd.parent is None)
        &&& nd.parent is Some ==> {
            let p = nd.parent->Some_0 as int;
            self.is_inner(p) && self.nd(p).children@.contains(n as usize)
        }
        &&& nd.typ == NodeType::Leaf ==> self.leaf_ok(n)
        &&& nd.typ == NodeType::Inner ==> self.inner_ok(n)
        &&& self.path_ok(n)
    }

    spec fn agent_ok(self, h: int) -> bool {
        let l = self.ent(h).leaf as int;
        self.is_leaf(l) && self.nd(l).children@.contains(h as usize)
    }

    /// The structural invariant of the index.
    pub closed spec fn wf(self) -> bool {
        &&& self.bounds.wf()
        &&& self.min_leaf_width >= 1
        &&& self.nodes@.len() <= usize::MAX
        &&& self.agents@.len() <= usize::MAX
        &&& self.live(0)
        &&& self.nd(0).bounds == self.bounds
        &&& self.free_ok()
        &&& forall|n: int| self.live(n) ==> #[trigger] self.node_ok(n)
        &&& forall|n: int| self.live(n) ==> #[trigger] self.path_link(n)
        &&& forall|h: int| self.has_agent(h) ==> #[trigger] self.agent_ok(h)
    }

    /// The leaf reached from node `n` by following, at each inner node, the
    /// child named by the quadrant of `p`.
    spec fn descend(self, n: int, p: Vec2D) -> int
        decreases self.nd(n).bounds.width_spec(),
        when self.nd(n).bounds.width_spec() >= 0
    {
        if self.is_inner(n) && self.nd(n).children@.len() == 4 {
            let q = self.nd(n).bounds.quadrant_spec(p);
            let c = self.nd(n).children@[q] as int;
            if 0 <= q < 4 && 0 <= self.nd(c).bounds.width_spec() < self.nd(n).bounds.width_spec() {
                self.descend(c, p)
            } else {
                n
            }
        } else {
            n
        }
    }

    /// The leaf that a search for `p` from the root arrives at.
    pub closed spec fn leaf_for(self, p: Vec2D) -> int {
        self.descend(0, p)
    }

    /// Node `n` looks the same in `self` and in `other`.
    pub open spec fn same_node(self, other: Self, n: int) -> bool {
        &&& self.live(n) == other.live(n)
        &&& self.is_leaf(n) == other.is_leaf(n)
        &&& self.is_inner(n) == other.is_inner(n)
        &&& self.live(n) ==> {
            &&& self.node_bounds(n) == other.node_bounds(n)
            &&& self.node_parent(n) == other.node_parent(n)
            &&& self.node_children(n) == other.node_children(n)
        }
    }

    /// Whether a handle's position lies in quadrant `i` of `b`.
    pub open spec fn in_quadrant(self, b: Rect, i: int) -> spec_fn(usize) -> bool {
        |h: usize| b.quadrant_spec(self.agent_pos(h as int)) == i
    }

    /// Node `l` is an inner node whose four children are leaves, one per
    /// quarter of its rectangle, that share out the handles of `list` by
    /// quadrant, each handle once and in the order of `list`.
    pub open spec fn holds_split(self, l: int, list: Seq<usize>) -> bool {
        &&& self.is_inner(l)
        &&& self.node_children(l).len() == 4
        &&& forall|i: int|
            0 <= i < 4 ==> {
                let c = #[trigger] self.node_children(l)[i] as int;
                &&& self.is_leaf(c)
                &&& self.node_parent(c) == Some(l as usize)
                &&& self.node_bounds(c) == self.node_bounds(l).quarter_spec(i)
                &&& self.node_children(c).no_duplicates()
                &&& self.node_children(c) == list.filter(self.in_quadrant(self.node_bounds(l), i))
                &&& forall|h: usize|
                    #[trigger] self.node_children(c).contains(h) <==> list.contains(h)
                        && self.node_bounds(l).quadrant_spec(self.agent_pos(h as int)) == i
            }
    }

    /// The outcome of placing the handles `list` in leaf `l` of `old` and
    /// running the capacity check on it: `l` has split if `list` exceeds the
    /// capacity and `l` is wider than the minimal width, else `l` is a leaf
    /// holding `list`. The new children take freed ids first, the most
    /// recently freed one first, and otherwise ids past the table's end.
    /// No node of `old` other than `l` and `o` has changed, and a node that
    /// is new is a child of `l`.
    pub open spec fn placed(self, old: Self, l: int, list: Seq<usize>, o: int) -> bool {
        &&& if list.len() > old.capacity() && old.node_bounds(l).width_spec() > old.min_width() {
            &&& self.holds_split(l, list)
            &&& forall|i: int| 0 <= i < 4 ==> !old.live(#[trigger] self.node_children(l)[i] as int)
            &&& old.free_ids().len() > 0 ==> self.node_children(l)[0] == old.free_ids().last()
            &&& forall|i: int|
                0 <= i < 4 ==> old.free_ids().contains(#[trigger] self.node_children(l)[i]) || self.node_children(l)[i]
                    >= old.table_len()
        } else {
            &&& self.is_leaf(l)
            &&& self.node_children(l) == list
            &&& forall|n: int| #[trigger] self.live(n) <==> old.live(n)
        }
        &&& self.node_bounds(l) == old.node_bounds(l)
        &&& self.node_parent(l) == old.node_parent(l)
        &&& forall|n: int| old.live(n) && n != l && n != o ==> #[trigger] self.same_node(old, n)
        &&& forall|n: int| #[trigger] self.live(n) && !old.live(n) ==> self.node_parent(n) == Some(l as usize)
    }

    /// Node `n` is an inner node whose four children are all leaves that
    /// hold at most `leaf_capacity` agents together.
    pub open spec fn mergeable(self, n: int) -> bool {
        &&& self.is_inner(n)
        &&& self.node_children(n).len() == 4
        &&& forall|i: int| 0 <= i < 4 ==> self.is_leaf(#[trigger] self.node_children(n)[i] as int)
        &&& self.merged_list(n).len() <= self.capacity()
    }

    /// The handles of the four children of `n`, in quadrant order.
    pub open spec fn merged_list(self, n: int) -> Seq<usize> {
        let c = self.node_children(n);
        self.node_children(c[0] as int) + self.node_children(c[1] as int) + self.node_children(c[2] as int)
            + self.node_children(c[3] as int)
    }

    /// Number of handles below `k` that name a stored agent.
    pub open spec fn count_upto(self, k: int) -> nat
        decreases k,
    {
        if k <= 0 {
            0
        } else {
            self.count_upto(k - 1) + if self.has_agent(k - 1) {
                1nat
            } else {
                0nat
            }
        }
    }

    /// Number of stored agents.
    pub open spec fn agent_count(self) -> nat {
        self.count_upto(self.next_handle())
    }

    /// `self` is `old` with the payload of agent `h` replaced by `a`.
    pub closed spec fn payload_replaced(self, old: Self, h: int, a: A) -> bool {
        &&& old.has_agent(h)
        &&& self.agents@ == old.agents@.update(h, Some(Entry { agent: a, pos: old.ent(h).pos, leaf: old.ent(h).leaf }))
        &&& self.nodes == old.nodes
        &&& self.paths == old.paths
        &&& self.open_node_indices == old.open_node_indices
        &&& self.bounds == old.bounds
        &&& self.leaf_capacity == old.leaf_capacity
        &&& self.min_leaf_width == old.min_leaf_width
    }

    /// Replacing an agent's payload keeps the index well formed and changes
    /// nothing else.
    pub proof fn lemma_payload_replaced(self, old: Self, h: int, a: A)
        requires
            old.wf(),
            self.payload_replaced(old, h, a),
        ensures
            self.wf(),
            self.contents() == old.contents().insert(h, (old.agent_pos(h), a)),
            self.next_handle() == old.next_handle(),
            forall|n: int| #[trigger] self.same_node(old, n),
            forall|g: int| old.has_agent(g) ==> #[trigger] self.owner(g) == old.owner(g),
    {
        assert forall|n: int| self.live(n) implies #[trigger] self.node_ok(n) by {
            assert(old.node_ok(n));
            let nd = self.nd(n);
            self.lemma_path_kept(old, n);
            if nd.typ == NodeType::Leaf {
                assert(old.leaf_ok(n));
                assert forall|k: int| 0 <= k < nd.children@.len() implies {
                    let g = #[trigger] nd.children@[k] as int;
                    &&& self.has_agent(g)
                    &&& self.ent(g).leaf == n
                    &&& nd.bounds.contains_spec(self.ent(g).pos)
                } by {
                    assert(old.nd(n).children@[k] == nd.children@[k]);
                }
            }
        }
        assert forall|g: int| self.has_agent(g) implies #[trigger] self.agent_ok(g) by {
            assert(old.agent_ok(g));
        }
        assert(self.contents() =~= old.contents().insert(h, (old.agent_pos(h), a)));
        self.lemma_links_kept(old);
    }

    /// Payloads of the agents with a handle below `k`, in handle order.
    pub closed spec fn payloads_upto(self, k: int) -> Seq<A>
        decreases k,
    {
        if k <= 0 {
            Seq::empty()
        } else if self.has_agent(k - 1) {
            self.payloads_upto(k - 1).push(self.agent(k - 1))
        } else {
            self.payloads_upto(k - 1)
        }
    }

    /// Payloads of all stored agents, in handle order.
    pub open spec fn payloads(self) -> Seq<A> {
        self.payloads_upto(self.next_handle())
    }

    /// Rectangles `(x, y, width, height)` of the leaves with an id below
    /// `k`, in increasing order of id.
    pub open spec fn leaf_rects_upto(self, k: int) -> Seq<(int, int, int, int)>
        decreases k,
    {
        if k <= 0 {
            Seq::empty()
        } else if self.is_leaf(k - 1) {
            let b = self.node_bounds(k - 1);
            self.leaf_rects_upto(k - 1).push((b.bl.x as int, b.bl.y as int, b.width_spec(), b.height_spec()))
        } else {
            self.leaf_rects_upto(k - 1)
        }
    }

    /// Number of slots of the node table; every node in use has an id
    /// below it.
    pub closed spec fn table_len(self) -> int {
        self.nodes@.len() as int
    }

    /// The stack of freed node ids; the last one is reused first.
    pub closed spec fn free_ids(self) -> Seq<usize> {
        self.open_node_indices@
    }

    // ---------------------------------------------------------------
    // Basic lemmas
    // ---------------------------------------------------------------
    proof fn lemma_descend_step(self, n: int, p: Vec2D)
        requires
            self.wf(),
            self.is_inner(n),
        ensures
            self.descend(n, p) == self.descend(self.nd(n).children@[self.nd(n).bounds.quadrant_spec(p)] as int, p),
            0 <= self.nd(n).bounds.quadrant_spec(p) < 4,
    {
        assert(self.node_ok(n));
        let b = self.nd(n).bounds;
        lemma_quarters(b, p);
        let q = b.quadrant_spec(p);
        assert(b.quarter_spec(q).width_spec() < b.width_spec());
        let c = self.nd(n).children@[q] as int;
        assert(self.nd(c).bounds == b.quarter_spec(q));
    }


    /// Two states that store agents under the same handles below `k` count
    /// the same number of them there.
    proof fn lemma_count_frame(self, other: Self, k: int)
        requires
            forall|i: int| 0 <= i < k ==> self.has_agent(i) == other.has_agent(i),
        ensures
            self.count_upto(k) == other.count_upto(k),
        decreases k,
    {
        if k > 0 {
            self.lemma_count_frame(other, k - 1);
        }
    }

    /// Two states that differ below `k` only in that `other` stores agent
    /// `h` and `self` does not: `other` counts one more.
    proof fn lemma_count_one_less(self, other: Self, k: int, h: int)
        requires
            0 <= h < k,
            !self.has_agent(h),
            other.has_agent(h),
            forall|i: int| 0 <= i < k && i != h ==> self.has_agent(i) == other.has_agent(i),
        ensures
            other.count_upto(k) == self.count_upto(k) + 1,
        decreases k,
    {
        if k == h + 1 {
            self.lemma_count_frame(other, h);
        } else {
            self.lemma_count_one_less(other, k - 1, h);
        }
    }


    proof fn lemma_count_same_agents(self, old: Self)
        requires
            self.contents().dom() == old.contents().dom(),
            self.next_handle() == old.next_handle(),
        ensures
            self.agent_count() == old.agent_count(),
    {
        assert forall|i: int| 0 <= i < self.next_handle() implies self.has_agent(i) == old.has_agent(i) by {
            assert(self.contents().dom().contains(i) == self.has_agent(i));
            assert(old.contents().dom().contains(i) == old.has_agent(i));
            assert(self.contents().dom().contains(i) == old.contents().dom().contains(i));
        }
        self.lemma_count_frame(old, self.next_handle());
    }

    proof fn lemma_count_added(self, old: Self)
        requires
            self.contents().dom() == old.contents().dom().insert(old.next_handle()),
            self.next_handle() == old.next_handle() + 1,
        ensures
            self.agent_count() == old.agent_count() + 1,
    {
        let k = old.next_handle();
        assert forall|i: int| 0 <= i < k implies self.has_agent(i) == old.has_agent(i) by {
            assert(self.contents().dom().contains(i) == old.contents().dom().contains(i));
        }
        self.lemma_count_frame(old, k);
        assert(self.contents().dom().contains(k));
    }

    proof fn lemma_count_removed(self, old: Self, h: int)
        requires
            old.has_agent(h),
            self.contents().dom() == old.contents().dom().remove(h),
            self.next_handle() == old.next_handle(),
        ensures
            self.agent_count() + 1 == old.agent_count(),
    {
        assert forall|i: int| 0 <= i < self.next_handle() && i != h implies self.has_agent(i) == old.has_agent(i) by {
            assert(self.contents().dom().contains(i) == old.contents().dom().contains(i));
        }
        assert(!self.contents().dom().contains(h));
        self.lemma_count_one_less(old, self.next_handle(), h);
    }

    // ---------------------------------------------------------------
    // Splitting
    // ---------------------------------------------------------------
    /// The handles of leaf `l` whose position lies in quadrant `q` of the
    /// leaf's rectangle, in their order in the leaf.
    fn agents_in_quadrant(&self, l: usize, q: usize) -> (r: Vec<usize>)
        requires
            self.wf(),
            self.is_leaf(l as int),
        ensures
            r@.no_duplicates(),
            r@ == self.nd(l as int).children@.filter(self.in_quadrant(self.nd(l as int).bounds, q as int)),
            forall|h: usize|
                #[trigger] r@.contains(h) <==> self.nd(l as int).children@.contains(h)
                    && self.nd(l as int).bounds.quadrant_spec(self.ent(h as int).pos) == q,
    {
        proof {
            assert(self.node_ok(l as int));
        }
        let node = self.nodes[l].as_ref().unwrap();
        let ghost list = node.children@;
        let mut r: Vec<usize> = Vec::new();
        let mut k: usize = 0;
        while k < node.children.len()
            invariant
                self.wf(),
                self.is_leaf(l as int),
                self.node_ok(l as int),
                *node == self.nd(l as int),
                list == node.children@,
                k <= list.len(),
                r@.no_duplicates(),
                r@ == list.take(k as int).filter(self.in_quadrant(node.bounds, q as int)),
                forall|h: usize|
                    #[trigger] r@.contains(h) <==> list.take(k as int).contains(h)
                        && node.bounds.quadrant_spec(self.ent(h as int).pos) == q,
            decreases list.len() - k,
        {
            let h = node.children[k];
            proof {
                assert(list.take(k as int + 1) =~= list.take(k as int).push(h));
                list.take(k as int).lemma_filter_push(h, self.in_quadrant(node.bounds, q as int));
                lemma_push_contains(list.take(k as int), h);
                lemma_push_contains(r@, h);
                if !r@.contains(h) {
                    lemma_push_no_dups(r@, h);
                }
                assert(!list.take(k as int).contains(h)) by {
                    if list.take(k as int).contains(h) {
                        let j = choose|j: int| 0 <= j < k && list.take(k as int)[j] == h;
                        assert(list[j] == list[k as int]);
                    }
                }
                assert(self.has_agent(h as int));
            }
            let pos = self.agents[h].as_ref().unwrap().pos;
            if node.bounds.get_quadrant(pos) == q {
                r.push(h);
            }
            k = k + 1;
        }
        proof {
            assert(list.take(list.len() as int) =~= list);
        }
        r
    }

    /// Turns leaf `l` into an inner node with four new leaf children, one
    /// per quarter, and hands each agent of `l` to the child named by its
    /// quadrant. The id of `l` stays; its ancestors are untouched.
    #[verifier::rlimit(60)]
    fn split(&mut self, l: usize)
        requires
            old(self).wf(),
            old(self).is_leaf(l as int),
            old(self).nd(l as int).bounds.width_spec() > old(self).min_leaf_width,
        ensures
            final(self).wf(),
            final(self).bounds == old(self).bounds,
            final(self).leaf_capacity == old(self).leaf_capacity,
            final(self).min_leaf_width == old(self).min_leaf_width,
            final(self).agents@.len() == old(self).agents@.len(),
            forall|h: int|
                #[trigger] final(self).has_agent(h) == old(self).has_agent(h) && (old(self).has_agent(h)
                    ==> final(self).ent(h).pos == old(self).ent(h).pos && final(self).ent(h).agent
                    == old(self).ent(h).agent),
            final(self).holds_split(l as int, old(self).nd(l as int).children@),
            old(self).nodes@.len() <= final(self).nodes@.len(),
            old(self).open_node_indices@.len() > 0 ==> final(self).nd(l as int).children@[0] == old(self).open_node_indices@.last(),
            forall|i: int|
                0 <= i < 4 ==> old(self).open_node_indices@.contains(#[trigger] final(self).nd(l as int).children@[i])
                    || final(self).nd(l as int).children@[i] >= old(self).nodes@.len(),
            final(self).nd(l as int).parent == old(self).nd(l as int).parent,
            final(self).nd(l as int).bounds == old(self).nd(l as int).bounds,
            forall|n: int|
                old(self).live(n) && n != l ==> #[trigger] final(self).nodes@[n] == old(self).nodes@[n],
            forall|i: int| 0 <= i < 4 ==> !old(self).live(#[trigger] final(self).nd(l as int).children@[i] as int),
            forall|n: int|
                #[trigger] final(self).live(n) ==> old(self).live(n) || final(self).nd(l as int).children@.contains(n as usize),
    {
        let ghost s0 = *self;
        proof {
            assert(s0.node_ok(l as int));
        }
        let bounds = self.nodes[l].as_ref().unwrap().bounds;
        let parent = self.nodes[l].as_ref().unwrap().parent;
        let quarters = bounds.quarter();
        let l0 = self.agents_in_quadrant(l, 0);
        let l1 = self.agents_in_quadrant(l, 1);
        let l2 = self.agents_in_quadrant(l, 2);
        let l3 = self.agents_in_quadrant(l, 3);
        let ghost lists = seq![l0@, l1@, l2@, l3@];
        let ghost o0 = self.open_node_indices@;
        let ghost n0 = self.nodes@.len();
        let c0 = add_node(&mut self.nodes, &mut self.open_node_indices,
            Node { typ: NodeType::Leaf, parent: Some(l), children: l0, bounds: quarters[0] });
        proof {
            if c0 < n0 {
                assert(o0.contains(c0));
            }
        }
        let ghost o1 = self.open_node_indices@;
        let ghost n1 = self.nodes@.len();
        let c1 = add_node(&mut self.nodes, &mut self.open_node_indices,
            Node { typ: NodeType::Leaf, parent: Some(l), children: l1, bounds: quarters[1] });
        proof {
            if c1 < n1 {
                assert(o1.contains(c1));
            }
        }
        let ghost o2 = self.open_node_indices@;
        let ghost n2 = self.nodes@.len();
        let c2 = add_node(&mut self.nodes, &mut self.open_node_indices,
            Node { typ: NodeType::Leaf, parent: Some(l), children: l2, bounds: quarters[2] });
        proof {
            if c2 < n2 {
                assert(o2.contains(c2));
            }
        }
        let ghost o3 = self.open_node_indices@;
        let ghost n3 = self.nodes@.len();
        let c3 = add_node(&mut self.nodes, &mut self.open_node_indices,
            Node { typ: NodeType::Leaf, parent: Some(l), children: l3, bounds: quarters[3] });
        proof {
            if c3 < n3 {
                assert(o3.contains(c3));
            }
            assert(o0.len() > 0 ==> c0 == o0.last());
            assert(o0.contains(c0) || c0 >= n0);
            assert(o0.contains(c1) || c1 >= n0);
            assert(o0.contains(c2) || c2 >= n0);
            assert(o0.contains(c3) || c3 >= n0);
        }
        let ghost cs = seq![c0 as int, c1 as int, c2 as int, c3 as int];
        let ghost s1 = *self;
        proof {
            assert(forall|i: int| 0 <= i < 4 ==> !s0.live(#[trigger] cs[i]));
            assert(forall|i: int, j: int| 0 <= i < j < 4 ==> #[trigger] cs[i] != #[trigger] cs[j]);
            assert(forall|n: int| s0.live(n) ==> #[trigger] s1.nodes@[n] == s0.nodes@[n]);
            assert(s1.nodes@[l as int] == s0.nodes@[l as int]);
            assert(forall|i: int| 0 <= i < 4 ==> s1.nodes@[#[trigger] cs[i]] == Some(Node {
                typ: NodeType::Leaf, parent: Some(l), children: s1.nd(cs[i]).children, bounds: bounds.quarter_spec(i) }));
            assert(forall|i: int| 0 <= i < 4 ==> s1.nd(#[trigger] cs[i]).children@ == lists[i]);
        }
        // Hand every agent of `l` to its new leaf.
        let n_agents = self.nodes[l].as_ref().unwrap().children.len();
        let mut k: usize = 0;
        while k < n_agents
            invariant
                s0.wf(),
                s0.node_ok(l as int),
                s0.is_leaf(l as int),
                0 <= k <= n_agents,
                n_agents == s0.nd(l as int).children@.len(),
                self.nodes == s1.nodes,
                self.nodes@[l as int] == s0.nodes@[l as int],
                l < self.nodes@.len(),
                self.open_node_indices == s1.open_node_indices,
                self.bounds == s0.bounds,
                self.leaf_capacity == s0.leaf_capacity,
                self.min_leaf_width == s0.min_leaf_width,
                self.paths == s0.paths,
                bounds == s0.nd(l as int).bounds,
                cs == seq![c0 as int, c1 as int, c2 as int, c3 as int],
                self.agents@.len() == s0.agents@.len(),
                forall|h: int|
                    #[trigger] self.has_agent(h) == s0.has_agent(h) && (s0.has_agent(h) ==> self.ent(h).pos
                        == s0.ent(h).pos && self.ent(h).agent == s0.ent(h).agent),
                forall|h: int|
                    s0.has_agent(h) && !s0.nd(l as int).children@.take(k as int).contains(h as usize)
                        ==> #[trigger] self.ent(h).leaf == s0.ent(h).leaf,
                forall|h: int|
                    s0.has_agent(h) && s0.nd(l as int).children@.take(k as int).contains(h as usize)
                        ==> #[trigger] self.ent(h).leaf == cs[bounds.quadrant_spec(s0.ent(h).pos)],
            decreases n_agents - k,
        {
            let h = self.nodes[l].as_ref().unwrap().children[k];
            let ghost list = s0.nd(l as int).children@;
            proof {
                assert(list.take(k as int + 1) =~= list.take(k as int).push(h));
                lemma_push_contains(list.take(k as int), h);
                assert(list[k as int] == h);
                assert(s0.has_agent(h as int));
                assert(!list.take(k as int).contains(h)) by {
                    if list.take(k as int).contains(h) {
                        let j = choose|j: int| 0 <= j < k && list.take(k as int)[j] == h;
                        assert(list[j] == list[k as int]);
                    }
                }
            }
            proof {
                assert(self.has_agent(h as int));
            }
            let pos = self.agents[h].as_ref().unwrap().pos;
            let q = bounds.get_quadrant(pos);
            let c = if q == 0 {
                c0
            } else if q == 1 {
                c1
            } else if q == 2 {
                c2
            } else {
                c3
            };
            let ghost sb = *self;
            set_leaf(&mut self.agents, h, c);
            proof {
                assert forall|g: int| #[trigger] self.has_agent(g) == s0.has_agent(g) && (s0.has_agent(g) ==> self.ent(g).pos
                        == s0.ent(g).pos && self.ent(g).agent == s0.ent(g).agent) by {
                    assert(sb.has_agent(g) == s0.has_agent(g));
                    if g != h as int && 0 <= g < self.agents@.len() {
                        assert(self.agents@[g] == sb.agents@[g]);
                    }
                }
                assert forall|g: int|
                    s0.has_agent(g) && !list.take(k as int + 1).contains(g as usize)
                        implies #[trigger] self.ent(g).leaf == s0.ent(g).leaf by {
                    assert(g != h as int);
                    assert(self.agents@[g] == sb.agents@[g]);
                    assert(!list.take(k as int).contains(g as usize));
                    assert(sb.ent(g).leaf == s0.ent(g).leaf);
                }
                assert forall|g: int|
                    s0.has_agent(g) && list.take(k as int + 1).contains(g as usize)
                        implies #[trigger] self.ent(g).leaf == cs[bounds.quadrant_spec(s0.ent(g).pos)] by {
                    assert(sb.has_agent(g) == s0.has_agent(g));
                    if g != h as int {
                        assert(self.agents@[g] == sb.agents@[g]);
                        assert(list.take(k as int).contains(g as usize));
                        assert(sb.ent(g).leaf == cs[bounds.quadrant_spec(s0.ent(g).pos)]);
                    }
                }
            }
            k = k + 1;
        }
        let ghost s2 = *self;
        let ghost nlen = self.nodes.len();
        self.nodes[l] = Some(Node {
            typ: NodeType::Inner,
            parent,
            children: vec![c0, c1, c2, c3],
            bounds,
        });
        proof {
            let path_l = s0.paths@[l as int];
            let pc = path_l.push(l as int);
            self.paths@ = self.paths@.insert(c0 as int, pc).insert(c1 as int, pc).insert(c2 as int, pc).insert(c3 as int, pc);
            assert(s0.nd(l as int).children@.take(n_agents as int) =~= s0.nd(l as int).children@);
            assert forall|h: int| #[trigger] self.has_agent(h) == s0.has_agent(h) && (s0.has_agent(h) ==> self.ent(h).pos
                    == s0.ent(h).pos && self.ent(h).agent == s0.ent(h).agent) by {
                assert(s2.has_agent(h) == s0.has_agent(h));
            }
            assert forall|h: int| s0.has_agent(h) implies #[trigger] self.ent(h).leaf == (if s0.nd(l as int).children@.contains(h as usize) {
                    cs[s0.nd(l as int).bounds.quadrant_spec(s0.ent(h).pos)]
                } else {
                    s0.ent(h).leaf as int
                }) by {
                assert(s2.ent(h) == self.ent(h));
            }
            assert(self.nodes@.len() == nlen);
            self.lemma_split_wf(s0, l as int, cs, lists);
            assert(self.nd(l as int).children@ == seq![c0, c1, c2, c3]);
        }
    }



    /// Path links survive any change that keeps the paths, and keeps the
    /// parent of every node still in use.
    proof fn lemma_links_kept(self, s0: Self)
        requires
            s0.wf(),
            self.paths == s0.paths,
            forall|n: int| #[trigger] self.live(n) ==> s0.live(n) && self.nd(n).parent == s0.nd(n).parent,
        ensures
            forall|n: int| self.live(n) ==> #[trigger] self.path_link(n),
    {
        assert forall|n: int| self.live(n) implies #[trigger] self.path_link(n) by {
            assert(s0.path_link(n));
        }
    }

    /// A path whose nodes are all unchanged stays valid.
    proof fn lemma_path_kept(self, s0: Self, n: int)
        requires
            s0.path_ok(n),
            self.paths@[n] == s0.paths@[n],
            self.nd(n).bounds == s0.nd(n).bounds,
            forall|j: int|
                0 <= j < s0.paths@[n].len() ==> self.nodes@[#[trigger] s0.paths@[n][j]] == s0.nodes@[s0.paths@[n][j]]
                    && s0.paths@[n][j] < self.nodes@.len(),
        ensures
            self.path_ok(n),
    {
        let path = s0.paths@[n];
        assert forall|j: int| 0 <= j < path.len() implies {
            let a = #[trigger] path[j];
            &&& self.is_inner(a)
            &&& self.nd(n).bounds.within(self.nd(a).bounds)
            &&& self.nd(a).children@.contains(next_on_path(path, n, j) as usize)
        } by {
            assert(self.nodes@[path[j]] == s0.nodes@[path[j]]);
        }
    }

    /// The state left by `split` is well formed.
    proof fn lemma_split_wf(self, s0: Self, l: int, cs: Seq<int>, lists: Seq<Seq<usize>>)
        requires
            s0.wf(),
            s0.is_leaf(l),
            s0.nd(l).bounds.width_spec() > s0.min_leaf_width,
            self.bounds == s0.bounds,
            self.min_leaf_width == s0.min_leaf_width,
            self.agents@.len() == s0.agents@.len(),
            s0.nodes@.len() <= self.nodes@.len() <= usize::MAX,
            forall|h: int|
                #[trigger] self.has_agent(h) == s0.has_agent(h) && (s0.has_agent(h) ==> self.ent(h).pos
                    == s0.ent(h).pos),
            forall|h: int|
                s0.has_agent(h) ==> #[trigger] self.ent(h).leaf == (if s0.nd(l).children@.contains(h as usize) {
                    cs[s0.nd(l).bounds.quadrant_spec(s0.ent(h).pos)]
                } else {
                    s0.ent(h).leaf as int
                }),
            cs.len() == 4,
            lists.len() == 4,
            forall|i: int| 0 <= i < 4 ==> !s0.live(#[trigger] cs[i]) && cs[i] > 0,
            forall|i: int, j: int| 0 <= i < j < 4 ==> #[trigger] cs[i] != #[trigger] cs[j],
            forall|i: int|
                0 <= i < 4 ==> #[trigger] lists[i] == s0.nd(l).children@.filter(s0.in_quadrant(s0.nd(l).bounds, i)),
            forall|i: int|
                0 <= i < 4 ==> (#[trigger] lists[i]).no_duplicates() && forall|h: usize|
                    #[trigger] lists[i].contains(h) <==> s0.nd(l).children@.contains(h)
                        && s0.nd(l).bounds.quadrant_spec(s0.ent(h as int).pos) == i,
            forall|n: int| s0.live(n) && n != l ==> #[trigger] self.nodes@[n] == s0.nodes@[n],
            self.live(l),
            self.nd(l).typ == NodeType::Inner,
            self.nd(l).parent == s0.nd(l).parent,
            self.nd(l).bounds == s0.nd(l).bounds,
            self.nd(l).children@.len() == 4,
            forall|i: int| 0 <= i < 4 ==> #[trigger] self.nd(l).children@[i] as int == cs[i],
            forall|i: int|
                0 <= i < 4 ==> self.live(#[trigger] cs[i]) && self.nd(cs[i]).typ == NodeType::Leaf
                    && self.nd(cs[i]).parent == Some(l as usize) && self.nd(cs[i]).bounds
                    == s0.nd(l).bounds.quarter_spec(i) && self.nd(cs[i]).children@ == lists[i],
            forall|n: int| #[trigger] self.live(n) ==> s0.live(n) || cs.contains(n),
            self.free_ok(),
            forall|i: int| 0 <= i < 4 ==> #[trigger] self.paths@[cs[i]] == s0.paths@[l].push(l),
            forall|n: int| s0.live(n) && !cs.contains(n) ==> #[trigger] self.paths@[n] == s0.paths@[n],
        ensures
            self.wf(),
            self.holds_split(l, s0.nd(l).children@),
    {
        let b = s0.nd(l).bounds;
        let list = s0.nd(l).children@;
        assert(s0.node_ok(l));
        assert(s0.node_ok(0));
        assert forall|i: int| 0 <= i < 4 implies self.nd(l).children@.contains(#[trigger] cs[i] as usize) by {
            assert(self.nd(l).children@[i] as int == cs[i]);
        }
        assert forall|h: usize| #[trigger] list.contains(h) implies s0.has_agent(h as int)
            && s0.ent(h as int).leaf == l && b.contains_spec(s0.ent(h as int).pos) by {
            let k = choose|k: int| 0 <= k < list.len() && list[k] == h;
            assert(list[k] == h);
        }
        assert forall|n: int| self.live(n) implies #[trigger] self.node_ok(n) by {
            if cs.contains(n) {
                let i = choose|i: int| 0 <= i < 4 && cs[i] == n;
                assert(cs[i] == n);
                let nd = self.nd(n);
                lemma_quarters(b, Vec2D { x: 0, y: 0 });
                assert(nd.bounds.wf());
                assert(self.nd(l).children@.contains(n as usize));
                assert forall|k: int| 0 <= k < nd.children@.len() implies {
                    let h = #[trigger] nd.children@[k] as int;
                    &&& self.has_agent(h)
                    &&& self.ent(h).leaf == n
                    &&& nd.bounds.contains_spec(self.ent(h).pos)
                } by {
                    let h = nd.children@[k];
                    assert(nd.children@ == lists[i]);
                    assert(lists[i].contains(h)) by {
                        assert(lists[i][k] == h);
                    }
                    assert(list.contains(h));
                    assert(s0.has_agent(h as int));
                    assert(self.has_agent(h as int));
                    assert(self.ent(h as int).leaf == cs[b.quadrant_spec(s0.ent(h as int).pos)]);
                    assert(b.quadrant_spec(s0.ent(h as int).pos) == i);
                    lemma_quarters(b, s0.ent(h as int).pos);
                }
                assert(self.leaf_ok(n));
                let path = self.paths@[n];
                let pl = s0.paths@[l];
                assert(s0.path_ok(l));
                assert forall|j: int| 0 <= j < path.len() implies {
                    let a = #[trigger] path[j];
                    &&& self.is_inner(a)
                    &&& nd.bounds.within(self.nd(a).bounds)
                    &&& self.nd(a).children@.contains(next_on_path(path, n, j) as usize)
                } by {
                    if j < pl.len() {
                        let a = pl[j];
                        assert(path[j] == a);
                        assert(s0.is_inner(a));
                        assert(a != l);
                        assert(!cs.contains(a)) by {
                            if cs.contains(a) {
                                let t = choose|t: int| 0 <= t < 4 && cs[t] == a;
                                assert(!s0.live(cs[t]));
                            }
                        }
                        assert(self.nodes@[a] == s0.nodes@[a]);
                        assert(next_on_path(path, n, j) == next_on_path(pl, l, j));
                    } else {
                        assert(path[j] == l);
                    }
                }
                assert(self.path_ok(n));
            } else if n == l {
                let nd = self.nd(l);
                assert(nd.children@.no_duplicates()) by {
                    assert forall|i: int, j: int| 0 <= i < nd.children@.len() && 0 <= j < nd.children@.len() && i != j
                        implies nd.children@[i] != nd.children@[j] by {
                        if i < j {
                            assert(cs[i] != cs[j]);
                        } else {
                            assert(cs[j] != cs[i]);
                        }
                    }
                }
                assert forall|i: int| 0 <= i < 4 implies {
                    let c = #[trigger] nd.children@[i] as int;
                    &&& self.live(c)
                    &&& self.nd(c).parent == Some(l as usize)
                    &&& self.nd(c).bounds == nd.bounds.quarter_spec(i)
                } by {
                    assert(nd.children@[i] as int == cs[i]);
                }
                assert(self.inner_ok(l));
                if nd.parent is Some {
                    let p = nd.parent->Some_0 as int;
                    assert(s0.is_inner(p));
                    assert(!cs.contains(p)) by {
                        if cs.contains(p) {
                            let t = choose|t: int| 0 <= t < 4 && cs[t] == p;
                            assert(!s0.live(cs[t]));
                        }
                    }
                    assert(self.nodes@[p] == s0.nodes@[p]);
                }
                assert(s0.path_ok(l));
                assert forall|j: int| 0 <= j < s0.paths@[l].len() implies self.nodes@[#[trigger] s0.paths@[l][j]] == s0.nodes@[s0.paths@[l][j]] by {
                    let a = s0.paths@[l][j];
                    assert(s0.is_inner(a));
                    assert(a != l);
                    assert(!cs.contains(a)) by {
                        if cs.contains(a) {
                            let t = choose|t: int| 0 <= t < 4 && cs[t] == a;
                            assert(!s0.live(cs[t]));
                        }
                    }
                }
                self.lemma_path_kept(s0, l);
            } else {
                assert(s0.live(n));
                assert(s0.node_ok(n));
                let nd = self.nd(n);
                assert(self.nodes@[n] == s0.nodes@[n]);
                if nd.parent is Some {
                    let p = nd.parent->Some_0 as int;
                    assert(s0.is_inner(p));
                    assert(!cs.contains(p)) by {
                        if cs.contains(p) {
                            let t = choose|t: int| 0 <= t < 4 && cs[t] == p;
                            assert(!s0.live(cs[t]));
                        }
                    }
                    assert(self.nodes@[p] == s0.nodes@[p]);
                }
                if nd.typ == NodeType::Leaf {
                    assert forall|k: int| 0 <= k < nd.children@.len() implies {
                        let h = #[trigger] nd.children@[k] as int;
                        &&& self.has_agent(h)
                        &&& self.ent(h).leaf == n
                        &&& nd.bounds.contains_spec(self.ent(h).pos)
                    } by {
                        let h = nd.children@[k];
                        assert(s0.leaf_ok(n));
                        assert(s0.nd(n).children@[k] == h);
                        assert(s0.has_agent(h as int));
                        assert(self.has_agent(h as int));
                        assert(s0.ent(h as int).leaf == n);
                        if list.contains(h) {
                            assert(s0.ent(h as int).leaf == l);
                        }
                        assert(self.ent(h as int).leaf == s0.ent(h as int).leaf);
                    }
                    assert(self.leaf_ok(n));
                } else {
                    assert forall|i: int| 0 <= i < 4 implies {
                        let c = #[trigger] nd.children@[i] as int;
                        &&& self.live(c)
                        &&& self.nd(c).parent == Some(n as usize)
                        &&& self.nd(c).bounds == nd.bounds.quarter_spec(i)
                    } by {
                        let c = nd.children@[i] as int;
                        assert(s0.inner_ok(n));
                        assert(s0.nd(n).children@[i] == nd.children@[i]);
                        assert(s0.live(c));
                        assert(s0.nd(c).parent == Some(n as usize));
                        assert(!cs.contains(c)) by {
                            if cs.contains(c) {
                                let t = choose|t: int| 0 <= t < 4 && cs[t] == c;
                                assert(!s0.live(cs[t]));
                            }
                        }
                        if c != l {
                            assert(self.nodes@[c] == s0.nodes@[c]);
                        }
                    }
                    assert(self.inner_ok(n));
                }
                assert(s0.path_ok(n));
                assert forall|j: int| 0 <= j < s0.paths@[n].len() implies self.nodes@[#[trigger] s0.paths@[n][j]] == s0.nodes@[s0.paths@[n][j]] by {
                    let a = s0.paths@[n][j];
                    assert(s0.is_inner(a));
                    assert(a != l) by { assert(s0.is_leaf(l)); }
                    assert(!cs.contains(a)) by {
                        if cs.contains(a) {
                            let t = choose|t: int| 0 <= t < 4 && cs[t] == a;
                            assert(!s0.live(cs[t]));
                        }
                    }
                }
                self.lemma_path_kept(s0, n);
            }
        }
        assert forall|h: int| self.has_agent(h) implies #[trigger] self.agent_ok(h) by {
            assert(s0.agent_ok(h));
            if list.contains(h as usize) {
                let q = b.quadrant_spec(s0.ent(h).pos);
                lemma_quarters(b, s0.ent(h).pos);
                assert(lists[q].contains(h as usize));
            } else {
                let m = s0.ent(h).leaf as int;
                assert(m != l);
                assert(!cs.contains(m)) by {
                    if cs.contains(m) {
                        let t = choose|t: int| 0 <= t < 4 && cs[t] == m;
                        assert(!s0.live(cs[t]));
                    }
                }
                assert(self.nodes@[m] == s0.nodes@[m]);
            }
        }
        if l != 0 {
            assert(!cs.contains(0)) by {
                if cs.contains(0) {
                    let t = choose|t: int| 0 <= t < 4 && cs[t] == 0;
                    assert(cs[t] > 0);
                }
            }
            assert(self.nodes@[0] == s0.nodes@[0]);
        }
        assert forall|i: int| 0 <= i < 4 implies {
            let c = #[trigger] self.node_children(l)[i] as int;
            &&& self.is_leaf(c)
            &&& self.node_parent(c) == Some(l as usize)
            &&& self.node_bounds(c) == self.node_bounds(l).quarter_spec(i)
            &&& self.node_children(c).no_duplicates()
            &&& self.node_children(c) == list.filter(self.in_quadrant(self.node_bounds(l), i))
            &&& forall|h: usize|
                #[trigger] self.node_children(c).contains(h) <==> list.contains(h)
                    && self.node_bounds(l).quadrant_spec(self.agent_pos(h as int)) == i
        } by {
            assert(self.nd(l).children@[i] as int == cs[i]);
            assert forall|k: int| 0 <= k < list.len() implies s0.in_quadrant(b, i)(list[k]) == self.in_quadrant(b, i)(list[k]) by {
                assert(list.contains(list[k]));
                assert(s0.has_agent(list[k] as int));
                assert(self.has_agent(list[k] as int));
            }
            lemma_filter_same(list, s0.in_quadrant(b, i), self.in_quadrant(b, i));
            assert(self.node_children(cs[i]) == lists[i]);
            assert forall|h: usize| #[trigger] self.node_children(cs[i]).contains(h) <==> list.contains(h)
                && self.node_bounds(l).quadrant_spec(self.agent_pos(h as int)) == i by {
                assert(self.node_children(cs[i]) == lists[i]);
                if list.contains(h) {
                    assert(s0.has_agent(h as int));
                    assert(self.has_agent(h as int));
                    assert(self.agent_pos(h as int) == s0.ent(h as int).pos);
                }
            }
        }
        assert forall|m: int| self.live(m) implies #[trigger] self.path_link(m) by {
            if cs.contains(m) {
                let i = choose|i: int| 0 <= i < 4 && cs[i] == m;
                assert(self.paths@[cs[i]] == s0.paths@[l].push(l));
                assert(!cs.contains(l)) by {
                    if cs.contains(l) {
                        let t = choose|t: int| 0 <= t < 4 && cs[t] == l;
                        assert(!s0.live(cs[t]));
                    }
                }
                assert(self.paths@[l] == s0.paths@[l]);
            } else {
                assert(s0.path_link(m));
                assert(s0.node_ok(m));
                if m != l {
                    assert(self.nodes@[m] == s0.nodes@[m]);
                }
                if self.nd(m).parent is Some {
                    let p = self.nd(m).parent->Some_0 as int;
                    assert(s0.live(p));
                    assert(!cs.contains(p)) by {
                        if cs.contains(p) {
                            let t = choose|t: int| 0 <= t < 4 && cs[t] == p;
                            assert(!s0.live(cs[t]));
                        }
                    }
                }
            }
        }
    }


    // ---------------------------------------------------------------
    // Placing agents in leaves
    // ---------------------------------------------------------------
    /// Splits leaf `l` when it holds more than `leaf_capacity` agents and is
    /// wider than `min_leaf_width`.
    fn check_capacity(&mut self, l: usize)
        requires
            old(self).wf(),
            old(self).is_leaf(l as int),
        ensures
            final(self).wf(),
            final(self).placed(*old(self), l as int, old(self).node_children(l as int), l as int),
            final(self).contents() == old(self).contents(),
            final(self).next_handle() == old(self).next_handle(),
            final(self).bounds == old(self).bounds,
            final(self).leaf_capacity == old(self).leaf_capacity,
            final(self).min_leaf_width == old(self).min_leaf_width,
    {
        let ghost s0 = *self;
        let node = self.nodes[l].as_ref().unwrap();
        if node.children.len() > self.leaf_capacity && node.bounds.get_width() > self.min_leaf_width {
            self.split(l);
            proof {
                assert forall|n: int| s0.live(n) && n != l && n != l implies #[trigger] self.same_node(s0, n) by {
                    assert(self.nodes@[n] == s0.nodes@[n]);
                }
                assert forall|n: int| #[trigger] self.live(n) && !s0.live(n) implies self.node_parent(n) == Some(l) by {
                    assert(self.nd(l as int).children@.contains(n as usize));
                    let i = choose|i: int| 0 <= i < 4 && self.nd(l as int).children@[i] == n as usize;
                    assert(self.inner_ok(l as int)) by {
                        assert(self.node_ok(l as int));
                    }
                    assert(self.nd(l as int).children@[i] as int == n);
                }
                assert(self.contents() =~= s0.contents());
            }
        }
    }

    /// Puts the entry `e` under the free handle `h` into leaf `e.leaf`,
    /// which contains its position.
    fn attach(&mut self, h: usize, e: Entry<A>)
        requires
            old(self).wf(),
            h <= old(self).agents@.len(),
            !old(self).has_agent(h as int),
            old(self).is_leaf(e.leaf as int),
            old(self).nd(e.leaf as int).bounds.contains_spec(e.pos),
        ensures
            final(self).wf(),
            final(self).bounds == old(self).bounds,
            final(self).leaf_capacity == old(self).leaf_capacity,
            final(self).min_leaf_width == old(self).min_leaf_width,
            final(self).agents@ == (if h < old(self).agents@.len() {
                old(self).agents@.update(h as int, Some(e))
            } else {
                old(self).agents@.push(Some(e))
            }),
            final(self).open_node_indices == old(self).open_node_indices,
            final(self).nodes@.len() == old(self).nodes@.len(),
            final(self).nd(e.leaf as int).children@ == old(self).nd(e.leaf as int).children@.push(h),
            forall|n: int| 0 <= n < old(self).nodes@.len() && n != e.leaf ==> #[trigger] final(self).nodes@[n] == old(self).nodes@[n],
            final(self).nd(e.leaf as int).bounds == old(self).nd(e.leaf as int).bounds,
            final(self).nd(e.leaf as int).parent == old(self).nd(e.leaf as int).parent,
            final(self).nd(e.leaf as int).typ == old(self).nd(e.leaf as int).typ,
            final(self).live(e.leaf as int),
    {
        let ghost s0 = *self;
        let l = e.leaf;
        if h == self.agents.len() {
            self.agents.push(Some(e));
        } else {
            self.agents[h] = Some(e);
        }
        proof {
            assert(self.agents@.len() == self.agents.len());
        }
        let node = self.nodes[l].take().unwrap();
        let mut children = node.children;
        children.push(h);
        self.nodes[l] = Some(Node { typ: node.typ, parent: node.parent, children, bounds: node.bounds });
        proof {
            let list = s0.nd(l as int).children@;
            lemma_push_contains(list, h);
            assert(s0.node_ok(l as int));
            assert(forall|g: int| g != h && #[trigger] self.has_agent(g) ==> s0.has_agent(g) && self.ent(g) == s0.ent(g));
            assert(forall|g: int| g != h && #[trigger] s0.has_agent(g) ==> self.has_agent(g));
            assert(!list.contains(h)) by {
                if list.contains(h) {
                    let k = choose|k: int| 0 <= k < list.len() && list[k] == h;
                    assert(s0.leaf_ok(l as int));
                    assert(s0.has_agent(list[k] as int));
                }
            }
            lemma_push_no_dups(list, h);
            assert forall|n: int| self.live(n) implies #[trigger] self.node_ok(n) by {
                assert(s0.node_ok(n));
                let nd = self.nd(n);
                if nd.parent is Some {
                    let p = nd.parent->Some_0 as int;
                    assert(p != l);
                }
                assert forall|j: int| 0 <= j < s0.paths@[n].len() implies self.nodes@[#[trigger] s0.paths@[n][j]] == s0.nodes@[s0.paths@[n][j]]
                    && s0.paths@[n][j] < self.nodes@.len() by {
                    assert(s0.is_inner(s0.paths@[n][j]));
                }
                self.lemma_path_kept(s0, n);
                if nd.typ == NodeType::Leaf {
                    assert forall|k: int| 0 <= k < nd.children@.len() implies {
                        let g = #[trigger] nd.children@[k] as int;
                        &&& self.has_agent(g)
                        &&& self.ent(g).leaf == n
                        &&& nd.bounds.contains_spec(self.ent(g).pos)
                    } by {
                        if n == l && k == list.len() {
                        } else {
                            assert(s0.leaf_ok(n));
                            assert(s0.nd(n).children@[k] == nd.children@[k]);
                            assert(s0.has_agent(nd.children@[k] as int));
                        }
                    }
                } else {
                    assert(s0.inner_ok(n));
                    assert forall|i: int| 0 <= i < 4 implies {
                        let c = #[trigger] nd.children@[i] as int;
                        &&& self.live(c)
                        &&& self.nd(c).parent == Some(n as usize)
                        &&& self.nd(c).bounds == nd.bounds.quarter_spec(i)
                    } by {
                        assert(s0.nd(n).children@[i] == nd.children@[i]);
                    }
                }
            }
            assert forall|n: int| #[trigger] self.live(n) implies s0.live(n) && self.nd(n).parent == s0.nd(n).parent by {
                if n != l as int && 0 <= n < self.nodes@.len() {
                    assert(self.nodes@[n] == s0.nodes@[n]);
                }
            }
            self.lemma_links_kept(s0);
            assert forall|g: int| self.has_agent(g) implies #[trigger] self.agent_ok(g) by {
                if g != h as int {
                    assert(s0.agent_ok(g));
                }
            }
        }
    }

    /// Takes agent `h` out of its leaf and out of the table of agents, and
    /// returns its entry.
    fn detach(&mut self, h: usize) -> (e: Entry<A>)
        requires
            old(self).wf(),
            old(self).has_agent(h as int),
        ensures
            final(self).wf(),
            e == old(self).ent(h as int),
            final(self).bounds == old(self).bounds,
            final(self).leaf_capacity == old(self).leaf_capacity,
            final(self).min_leaf_width == old(self).min_leaf_width,
            final(self).agents@ == old(self).agents@.update(h as int, None),
            final(self).open_node_indices == old(self).open_node_indices,
            final(self).nodes@.len() == old(self).nodes@.len(),
            final(self).nd(e.leaf as int).children@ == old(self).nd(e.leaf as int).children@.filter(|y: usize| y != h),
            forall|n: int| 0 <= n < old(self).nodes@.len() && n != e.leaf ==> #[trigger] final(self).nodes@[n] == old(self).nodes@[n],
            final(self).nd(e.leaf as int).bounds == old(self).nd(e.leaf as int).bounds,
            final(self).nd(e.leaf as int).parent == old(self).nd(e.leaf as int).parent,
            final(self).nd(e.leaf as int).typ == old(self).nd(e.leaf as int).typ,
            final(self).live(e.leaf as int),
    {
        let ghost s0 = *self;
        proof {
            assert(s0.agent_ok(h as int));
        }
        let e = self.agents[h].take().unwrap();
        let l = e.leaf;
        proof {
            assert(s0.node_ok(l as int));
        }
        let node = self.nodes[l].take().unwrap();
        let rest = without(&node.children, h);
        self.nodes[l] = Some(Node { typ: node.typ, parent: node.parent, children: rest, bounds: node.bounds });
        proof {
            assert forall|n: int| self.live(n) implies #[trigger] self.node_ok(n) by {
                assert(s0.node_ok(n));
                let nd = self.nd(n);
                if nd.parent is Some {
                    let p = nd.parent->Some_0 as int;
                    assert(p != l);
                }
                assert forall|j: int| 0 <= j < s0.paths@[n].len() implies self.nodes@[#[trigger] s0.paths@[n][j]] == s0.nodes@[s0.paths@[n][j]]
                    && s0.paths@[n][j] < self.nodes@.len() by {
                    assert(s0.is_inner(s0.paths@[n][j]));
                }
                self.lemma_path_kept(s0, n);
                if nd.typ == NodeType::Leaf {
                    assert(s0.leaf_ok(n));
                    assert forall|k: int| 0 <= k < nd.children@.len() implies {
                        let g = #[trigger] nd.children@[k] as int;
                        &&& self.has_agent(g)
                        &&& self.ent(g).leaf == n
                        &&& nd.bounds.contains_spec(self.ent(g).pos)
                    } by {
                        let g = nd.children@[k];
                        if n == l {
                            assert(rest@.contains(g)) by {
                                assert(rest@[k] == g);
                            }
                            let k0 = choose|k0: int| 0 <= k0 < s0.nd(n).children@.len() && s0.nd(n).children@[k0] == g;
                            assert(s0.nd(n).children@[k0] == g);
                        } else {
                            assert(s0.nd(n).children@[k] == g);
                            assert(g != h);
                        }
                    }
                } else {
                    assert(s0.inner_ok(n));
                    assert forall|i: int| 0 <= i < 4 implies {
                        let c = #[trigger] nd.children@[i] as int;
                        &&& self.live(c)
                        &&& self.nd(c).parent == Some(n as usize)
                        &&& self.nd(c).bounds == nd.bounds.quarter_spec(i)
                    } by {
                        assert(s0.nd(n).children@[i] == nd.children@[i]);
                    }
                }
            }
            assert forall|n: int| #[trigger] self.live(n) implies s0.live(n) && self.nd(n).parent == s0.nd(n).parent by {
                if n != l as int && 0 <= n < self.nodes@.len() {
                    assert(self.nodes@[n] == s0.nodes@[n]);
                }
            }
            self.lemma_links_kept(s0);
            assert forall|g: int| self.has_agent(g) implies #[trigger] self.agent_ok(g) by {
                assert(s0.agent_ok(g));
                assert(g != h as int);
            }
        }
        e
    }


    /// Moving an agent within its own leaf keeps the index well formed.
    proof fn lemma_pos_moved(self, s0: Self, h: int)
        requires
            s0.wf(),
            s0.has_agent(h),
            self.nodes == s0.nodes,
            self.open_node_indices == s0.open_node_indices,
            self.paths == s0.paths,
            self.bounds == s0.bounds,
            self.leaf_capacity == s0.leaf_capacity,
            self.min_leaf_width == s0.min_leaf_width,
            self.agents@.len() == s0.agents@.len(),
            self.agents@[h] is Some,
            self.ent(h).leaf == s0.ent(h).leaf,
            self.ent(h).agent == s0.ent(h).agent,
            s0.nd(s0.ent(h).leaf as int).bounds.contains_spec(self.ent(h).pos),
            forall|g: int| 0 <= g < self.agents@.len() && g != h ==> #[trigger] self.agents@[g] == s0.agents@[g],
        ensures
            self.wf(),
            forall|n: int| #[trigger] self.same_node(s0, n),
            self.has_agent(h),
            self.owner(h) == s0.owner(h),
    {
        assert forall|n: int| self.live(n) implies #[trigger] self.node_ok(n) by {
            assert(s0.node_ok(n));
            let nd = self.nd(n);
            self.lemma_path_kept(s0, n);
            if nd.typ == NodeType::Leaf {
                assert(s0.leaf_ok(n));
                assert forall|k: int| 0 <= k < nd.children@.len() implies {
                    let g = #[trigger] nd.children@[k] as int;
                    &&& self.has_agent(g)
                    &&& self.ent(g).leaf == n
                    &&& nd.bounds.contains_spec(self.ent(g).pos)
                } by {
                    assert(s0.nd(n).children@[k] == nd.children@[k]);
                }
            }
        }
        assert forall|g: int| self.has_agent(g) implies #[trigger] self.agent_ok(g) by {
            assert(s0.agent_ok(g));
        }
        self.lemma_links_kept(s0);
    }


    // ---------------------------------------------------------------
    // Walking the tree
    // ---------------------------------------------------------------
    /// Some node on the path from the root to `l`, or `l` itself, is on
    /// the stack `st`.
    spec fn covered(self, st: Seq<usize>, l: int) -> bool {
        exists|j: int| 0 <= j <= self.paths@[l].len() && st.contains(#[trigger] self.paths@[l].push(l)[j] as usize)
    }

    /// Sum over the stack of `weight` of each node's width: it shrinks when
    /// a node is replaced by its four narrower children.
    spec fn stack_weight(self, st: Seq<usize>) -> nat
        decreases st.len(),
    {
        if st.len() == 0 {
            0
        } else {
            self.stack_weight(st.drop_last()) + weight(self.nd(st.last() as int).bounds.width_spec())
        }
    }

    proof fn lemma_weight_push(self, st: Seq<usize>, x: usize)
        ensures
            self.stack_weight(st.push(x)) == self.stack_weight(st) + weight(self.nd(x as int).bounds.width_spec()),
    {
        assert(st.push(x).drop_last() =~= st);
    }

    proof fn lemma_weight_children(self, st: Seq<usize>, n: int)
        requires
            self.wf(),
            self.is_inner(n),
        ensures
            ({
                let ch = self.nd(n).children@;
                self.stack_weight(st.push(ch[0]).push(ch[1]).push(ch[2]).push(ch[3])) < self.stack_weight(st)
                    + weight(self.nd(n).bounds.width_spec())
            }),
    {
        let ch = self.nd(n).children@;
        let b = self.nd(n).bounds;
        assert(self.node_ok(n));
        assert(self.inner_ok(n));
        lemma_quarters(b, Vec2D { x: 0, y: 0 });
        self.lemma_weight_push(st, ch[0]);
        self.lemma_weight_push(st.push(ch[0]), ch[1]);
        self.lemma_weight_push(st.push(ch[0]).push(ch[1]), ch[2]);
        self.lemma_weight_push(st.push(ch[0]).push(ch[1]).push(ch[2]), ch[3]);
        let w = b.width_spec();
        assert forall|i: int| 0 <= i < 4 implies weight(self.nd(#[trigger] ch[i] as int).bounds.width_spec()) <= weight(w - 1) by {
            assert(self.nd(ch[i] as int).bounds == b.quarter_spec(i));
            lemma_weight_mono(self.nd(ch[i] as int).bounds.width_spec(), w - 1);
        }
        assert(weight(w) == 5 * weight(w - 1));
        assert(weight(self.nd(ch[0] as int).bounds.width_spec()) <= weight(w - 1));
        assert(weight(self.nd(ch[1] as int).bounds.width_spec()) <= weight(w - 1));
        assert(weight(self.nd(ch[2] as int).bounds.width_spec()) <= weight(w - 1));
        assert(weight(self.nd(ch[3] as int).bounds.width_spec()) <= weight(w - 1));
        lemma_weight_pos(w - 1);
    }

    /// Along a path from the root, each node's parent is the node before it.
    proof fn lemma_path_parent(self, n: int, j: int)
        requires
            self.wf(),
            self.live(n),
            0 < j < self.paths@[n].len(),
        ensures
            self.nd(self.paths@[n][j]).parent == Some(self.paths@[n][j - 1] as usize),
        decreases self.paths@[n].len(),
    {
        assert(self.node_ok(n));
        assert(self.path_link(n));
        assert(self.node_ok(0));
        assert(self.path_link(0));
        assert(n != 0);
        let p = self.nd(n).parent->Some_0 as int;
        assert(self.paths@[n] == self.paths@[p].push(p));
        if j < self.paths@[n].len() - 1 {
            assert(self.paths@[n][j] == self.paths@[p][j]);
            assert(self.paths@[n][j - 1] == self.paths@[p][j - 1]);
            self.lemma_path_parent(p, j);
        } else {
            assert(self.paths@[n][j] == p);
            assert(self.node_ok(p));
            assert(self.path_link(p));
            assert(p != 0);
            let q = self.nd(p).parent->Some_0 as int;
            assert(self.paths@[p] == self.paths@[q].push(q));
            assert(self.paths@[n][j - 1] == self.paths@[p][j - 1]);
        }
    }

    /// A node on the path to `n` is strictly wider than `n`.
    proof fn lemma_ancestor_wider(self, n: int, j: int)
        requires
            self.wf(),
            self.live(n),
            0 <= j < self.paths@[n].len(),
        ensures
            self.nd(self.paths@[n][j]).bounds.width_spec() > self.nd(n).bounds.width_spec(),
    {
        assert(self.node_ok(n));
        let path = self.paths@[n];
        let a = path[j];
        let nx = next_on_path(path, n, j);
        assert(self.is_inner(a));
        assert(self.node_ok(a));
        assert(self.inner_ok(a));
        assert(self.nd(a).children@.contains(nx as usize));
        let i = choose|i: int| 0 <= i < self.nd(a).children@.len() && self.nd(a).children@[i] == nx as usize;
        assert(self.nd(nx).bounds == self.nd(a).bounds.quarter_spec(i));
        lemma_quarters(self.nd(a).bounds, Vec2D { x: 0, y: 0 });
        if j + 1 < path.len() {
            assert(self.nd(n).bounds.within(self.nd(path[j + 1]).bounds));
        }
    }

    /// `x` and the nodes on its path.
    spec fn ext(self, x: int) -> Seq<int> {
        self.paths@[x].push(x)
    }

    /// The walk's stack and the leaves found so far each hold an id once;
    /// no stack entry lies on the path of another, nor on the path of a
    /// leaf already found.
    spec fn dfs_ok(self, st: Seq<usize>, leaves: Seq<usize>) -> bool {
        &&& st.no_duplicates()
        &&& leaves.no_duplicates()
        &&& forall|i: int|
            0 <= i < st.len() ==> self.live(#[trigger] st[i] as int)
        &&& forall|i: int, j: int|
            0 <= i < st.len() && 0 <= j < st.len() && i != j ==> !#[trigger] self.ext(st[j] as int).contains(
                #[trigger] st[i] as int,
            )
        &&& forall|i: int, k: int|
            0 <= i < leaves.len() && 0 <= k < st.len() ==> !#[trigger] self.ext(leaves[i] as int).contains(
                #[trigger] st[k] as int,
            )
    }

    /// A child `c` of `curr` is not on the path of a node `x` whose path
    /// avoids `curr`.
    proof fn lemma_child_off_path(self, curr: int, c: int, x: int)
        requires
            self.wf(),
            self.is_inner(curr),
            self.live(c),
            self.nd(c).parent == Some(curr as usize),
            self.live(x),
            !self.ext(x).contains(curr),
        ensures
            !self.ext(x).contains(c),
    {
        assert(self.path_link(c));
        assert(self.ext(c).contains(curr)) by {
            assert(self.ext(c)[self.paths@[curr].len() as int] == curr);
        }
        if self.ext(x).contains(c) {
            let j = choose|j: int| 0 <= j < self.ext(x).len() && self.ext(x)[j] == c;
            if j == self.paths@[x].len() {
                assert(c == x);
            } else {
                assert(self.node_ok(x));
                assert(self.node_ok(c));
                assert(self.paths@[x][j] == c);
                if j == 0 {
                    assert(c == 0);
                } else {
                    self.lemma_path_parent(x, j);
                    assert(self.ext(x)[j - 1] == curr);
                }
            }
        }
    }

    proof fn lemma_dfs_leaf(self, st: Seq<usize>, leaves: Seq<usize>)
        requires
            self.wf(),
            st.len() > 0,
            self.dfs_ok(st, leaves),
        ensures
            self.dfs_ok(st.drop_last(), leaves.push(st.last())),
    {
        let curr = st.last();
        let last = st.len() - 1;
        let rest = st.drop_last();
        assert(self.ext(curr as int).contains(curr as int)) by {
            assert(self.ext(curr as int)[self.paths@[curr as int].len() as int] == curr as int);
        }
        assert(!leaves.contains(curr)) by {
            if leaves.contains(curr) {
                let i = choose|i: int| 0 <= i < leaves.len() && leaves[i] == curr;
                assert(!self.ext(leaves[i] as int).contains(st[last] as int));
            }
        }
        lemma_push_no_dups(leaves, curr);
        assert(rest.no_duplicates()) by {
            assert forall|i: int, j: int| 0 <= i < rest.len() && 0 <= j < rest.len() && i != j implies rest[i] != rest[j] by {
                assert(rest[i] == st[i] && rest[j] == st[j]);
            }
        }
        let nl = leaves.push(curr);
        assert forall|i: int, k: int| 0 <= i < nl.len() && 0 <= k < rest.len() implies !#[trigger] self.ext(nl[i] as int).contains(
            #[trigger] rest[k] as int,
        ) by {
            assert(rest[k] == st[k]);
            if i < leaves.len() {
                assert(nl[i] == leaves[i]);
            } else {
                assert(nl[i] == st[last]);
                assert(!self.ext(st[last] as int).contains(st[k] as int));
            }
        }
        assert forall|i: int, j: int| 0 <= i < rest.len() && 0 <= j < rest.len() && i != j implies !#[trigger] self.ext(
            rest[j] as int,
        ).contains(#[trigger] rest[i] as int) by {
            assert(rest[i] == st[i] && rest[j] == st[j]);
        }
        assert forall|i: int| 0 <= i < rest.len() implies self.live(#[trigger] rest[i] as int) by {
            assert(rest[i] == st[i]);
        }
    }

    proof fn lemma_dfs_skip(self, st: Seq<usize>, leaves: Seq<usize>)
        requires
            st.len() > 0,
            self.dfs_ok(st, leaves),
        ensures
            self.dfs_ok(st.drop_last(), leaves),
    {
        let rest = st.drop_last();
        assert(rest.no_duplicates()) by {
            assert forall|i: int, j: int| 0 <= i < rest.len() && 0 <= j < rest.len() && i != j implies rest[i] != rest[j] by {
                assert(rest[i] == st[i] && rest[j] == st[j]);
            }
        }
        assert forall|a: int, b: int| 0 <= a < leaves.len() && 0 <= b < rest.len() implies !#[trigger] self.ext(
            leaves[a] as int,
        ).contains(#[trigger] rest[b] as int) by {
            assert(rest[b] == st[b]);
        }
        assert forall|i: int, j: int| 0 <= i < rest.len() && 0 <= j < rest.len() && i != j implies !#[trigger] self.ext(
            rest[j] as int,
        ).contains(#[trigger] rest[i] as int) by {
            assert(rest[i] == st[i] && rest[j] == st[j]);
        }
        assert forall|i: int| 0 <= i < rest.len() implies self.live(#[trigger] rest[i] as int) by {
            assert(rest[i] == st[i]);
        }
    }

    proof fn lemma_dfs_inner(self, st: Seq<usize>, leaves: Seq<usize>)
        requires
            self.wf(),
            forall|i: int| 0 <= i < leaves.len() ==> self.live(#[trigger] leaves[i] as int),
            st.len() > 0,
            self.is_inner(st.last() as int),
            self.dfs_ok(st, leaves),
        ensures
            self.dfs_ok(st.drop_last() + self.nd(st.last() as int).children@, leaves),
    {
        let curr = st.last() as int;
        let last = st.len() - 1;
        let rest = st.drop_last();
        let ch = self.nd(curr).children@;
        let t = rest + ch;
        assert(self.node_ok(curr));
        assert(self.inner_ok(curr));
        assert(self.path_link(curr));
        // Facts about each child.
        assert forall|m: int| 0 <= m < 4 implies {
            let c = #[trigger] ch[m] as int;
            &&& self.live(c)
            &&& self.nd(c).parent == Some(curr as usize)
            &&& self.ext(c) == self.ext(curr).push(c)
            &&& !self.ext(curr).contains(c)
        } by {
            let c = ch[m] as int;
            assert(self.path_link(c));
            lemma_quarters(self.nd(curr).bounds, Vec2D { x: 0, y: 0 });
            assert(self.nd(c).bounds == self.nd(curr).bounds.quarter_spec(m));
            if self.ext(curr).contains(c) {
                let j = choose|j: int| 0 <= j < self.ext(curr).len() && self.ext(curr)[j] == c;
                if j < self.paths@[curr].len() {
                    self.lemma_ancestor_wider(curr, j);
                    assert(self.paths@[curr][j] == c);
                }
            }
        }
        // No child is already on the stack.
        assert forall|m: int, k: int| 0 <= m < 4 && 0 <= k < rest.len() implies #[trigger] ch[m] != #[trigger] rest[k] by {
            assert(rest[k] == st[k]);
            if ch[m] == rest[k] {
                assert(!self.ext(st[k] as int).contains(st[last] as int));
                assert(self.ext(ch[m] as int)[self.paths@[curr].len() as int] == curr);
            }
        }
        assert(t.no_duplicates()) by {
            assert forall|i: int, j: int| 0 <= i < t.len() && 0 <= j < t.len() && i != j implies t[i] != t[j] by {
                if i < rest.len() && j < rest.len() {
                    assert(t[i] == st[i] && t[j] == st[j]);
                } else if i < rest.len() {
                    assert(t[i] == rest[i] && t[j] == ch[j - rest.len()]);
                } else if j < rest.len() {
                    assert(t[j] == rest[j] && t[i] == ch[i - rest.len()]);
                } else {
                    assert(t[i] == ch[i - rest.len()] && t[j] == ch[j - rest.len()]);
                }
            }
        }
        assert forall|i: int| 0 <= i < t.len() implies self.live(#[trigger] t[i] as int) by {
            if i < rest.len() {
                assert(t[i] == st[i]);
            } else {
                assert(t[i] == ch[i - rest.len()]);
            }
        }
        assert forall|i: int, j: int| 0 <= i < t.len() && 0 <= j < t.len() && i != j implies !#[trigger] self.ext(
            t[j] as int,
        ).contains(#[trigger] t[i] as int) by {
            if i < rest.len() && j < rest.len() {
                assert(t[i] == st[i] && t[j] == st[j]);
            } else if i < rest.len() {
                let c = ch[j - rest.len()] as int;
                assert(t[i] == st[i] && t[j] as int == c);
                assert(!self.ext(st[last] as int).contains(st[i] as int));
                assert(self.ext(c) == self.ext(curr).push(c));
                if self.ext(c).contains(st[i] as int) {
                    let q = choose|q: int| 0 <= q < self.ext(c).len() && self.ext(c)[q] == st[i] as int;
                    if q < self.ext(curr).len() {
                        assert(self.ext(curr)[q] == st[i] as int);
                    } else {
                        assert(c == st[i] as int);
                    }
                }
            } else if j < rest.len() {
                let c = ch[i - rest.len()] as int;
                assert(t[j] == st[j] && t[i] as int == c);
                assert(!self.ext(st[j] as int).contains(st[last] as int));
                self.lemma_child_off_path(curr, c, st[j] as int);
            } else {
                let ci = ch[i - rest.len()] as int;
                let cj = ch[j - rest.len()] as int;
                assert(t[i] as int == ci && t[j] as int == cj);
                assert(ci != cj);
                assert(self.ext(cj) == self.ext(curr).push(cj));
                if self.ext(cj).contains(ci) {
                    let q = choose|q: int| 0 <= q < self.ext(cj).len() && self.ext(cj)[q] == ci;
                    if q < self.ext(curr).len() {
                        assert(self.ext(curr)[q] == ci);
                    }
                }
            }
        }
        assert forall|i: int, k: int| 0 <= i < leaves.len() && 0 <= k < t.len() implies !#[trigger] self.ext(
            leaves[i] as int,
        ).contains(#[trigger] t[k] as int) by {
            if k < rest.len() {
                assert(t[k] == st[k]);
            } else {
                let c = ch[k - rest.len()] as int;
                assert(t[k] as int == c);
                assert(!self.ext(leaves[i] as int).contains(st[last] as int));
                self.lemma_child_off_path(curr, c, leaves[i] as int);
            }
        }
    }

    /// After popping `curr` off `st`, a leaf `l` that meets `bounds` and was
    /// covered by `st` is still covered by the rest, or is `curr`, or `curr`
    /// is an ancestor of it whose rectangle meets `bounds`.
    proof fn lemma_covered_pop(self, st: Seq<usize>, curr: usize, l: int, bounds: Rect)
        requires
            self.wf(),
            st.len() > 0,
            st.last() == curr,
            self.is_leaf(l),
            self.node_bounds(l).intersects_spec(bounds),
            self.covered(st, l),
        ensures
            self.covered(st.drop_last(), l) || (l == curr as int && self.nd(curr as int).bounds.intersects_spec(bounds))
                || (exists|j: int| 0 <= j < self.paths@[l].len() && self.paths@[l][j] == curr as int)
                && self.is_inner(curr as int) && self.nd(curr as int).bounds.intersects_spec(bounds),
            self.covered(st.drop_last(), l) || (exists|j: int| 0 <= j <= self.paths@[l].len() && #[trigger] self.paths@[l].push(l)[j] == curr as int),
            !self.nd(curr as int).bounds.intersects_spec(bounds) ==> self.covered(st.drop_last(), l),
            self.is_leaf(curr as int) && l != curr as int ==> self.covered(st.drop_last(), l),
    {
        let rest = st.drop_last();
        assert(st =~= rest.push(curr));
        lemma_push_contains(rest, curr);
        assert(self.node_ok(l));
        let ext = self.paths@[l].push(l);
        let j = choose|j: int| 0 <= j <= self.paths@[l].len() && st.contains(#[trigger] ext[j] as usize);
        if !rest.contains(ext[j] as usize) {
            assert(ext[j] as usize == curr);
            if j < self.paths@[l].len() {
                assert(self.paths@[l][j] == ext[j]);
                assert(self.is_inner(ext[j]));
                assert(ext[j] == curr as int);
            } else {
                assert(ext[j] == l);
            }
        } else {
            assert(self.covered(rest, l));
        }
    }


    // ---------------------------------------------------------------
    // Merging
    // ---------------------------------------------------------------
    /// The state left by `join` is well formed.
    proof fn lemma_join_wf(self, s0: Self, n: int)
        requires
            s0.wf(),
            s0.is_inner(n),
            forall|i: int| 0 <= i < 4 ==> s0.is_leaf(#[trigger] s0.nd(n).children@[i] as int),
            self.bounds == s0.bounds,
            self.leaf_capacity == s0.leaf_capacity,
            self.min_leaf_width == s0.min_leaf_width,
            self.paths == s0.paths,
            self.free_ok(),
            self.nodes@.len() <= usize::MAX,
            self.agents@.len() == s0.agents@.len(),
            forall|h: int|
                #[trigger] self.has_agent(h) == s0.has_agent(h) && (s0.has_agent(h) ==> self.ent(h).pos
                    == s0.ent(h).pos && self.ent(h).agent == s0.ent(h).agent),
            forall|h: int|
                s0.has_agent(h) ==> #[trigger] self.ent(h).leaf == (if s0.merged_list(n).contains(h as usize) {
                    n
                } else {
                    s0.ent(h).leaf as int
                }),
            forall|m: int| #[trigger] self.live(m) <==> s0.live(m) && !s0.nd(n).children@.contains(m as usize),
            forall|m: int| self.live(m) && m != n ==> #[trigger] self.nodes@[m] == s0.nodes@[m],
            self.live(n),
            self.nd(n).typ == NodeType::Leaf,
            self.nd(n).parent == s0.nd(n).parent,
            self.nd(n).bounds == s0.nd(n).bounds,
            self.nd(n).children@ == s0.merged_list(n),
        ensures
            self.wf(),
    {
        let cs = s0.nd(n).children@;
        let b = s0.nd(n).bounds;
        assert(s0.node_ok(n));
        assert(s0.inner_ok(n));
        let a0 = s0.nd(cs[0] as int).children@;
        let a1 = s0.nd(cs[1] as int).children@;
        let a2 = s0.nd(cs[2] as int).children@;
        let a3 = s0.nd(cs[3] as int).children@;
        assert(s0.merged_list(n) == a0 + a1 + a2 + a3);
        assert forall|i: int| 0 <= i < 4 implies #[trigger] s0.node_ok(cs[i] as int) && s0.leaf_ok(cs[i] as int) by {
            assert(s0.is_leaf(cs[i] as int));
        }
        assert(s0.node_ok(cs[0] as int) && s0.node_ok(cs[1] as int) && s0.node_ok(cs[2] as int) && s0.node_ok(cs[3] as int));
        assert(s0.leaf_ok(cs[0] as int) && s0.leaf_ok(cs[1] as int) && s0.leaf_ok(cs[2] as int) && s0.leaf_ok(cs[3] as int));
        lemma_add_contains(a0, a1);
        lemma_add_contains(a0 + a1, a2);
        lemma_add_contains(a0 + a1 + a2, a3);
        // A handle of a child's list belongs to that child.
        assert forall|i: int, y: usize| 0 <= i < 4 && #[trigger] s0.nd(cs[i] as int).children@.contains(y) implies
            s0.has_agent(y as int) && s0.ent(y as int).leaf == cs[i] && s0.nd(cs[i] as int).bounds.contains_spec(s0.ent(y as int).pos) by {
            let k = choose|k: int| 0 <= k < s0.nd(cs[i] as int).children@.len() && s0.nd(cs[i] as int).children@[k] == y;
            assert(s0.node_ok(cs[i] as int));
            assert(s0.leaf_ok(cs[i] as int));
            assert(s0.nd(cs[i] as int).children@[k] == y);
        }
        // Which child a merged handle came from.
        assert forall|h: usize| #[trigger] s0.merged_list(n).contains(h) <==> s0.has_agent(h as int)
            && cs.contains(s0.ent(h as int).leaf) by {
            if s0.has_agent(h as int) && cs.contains(s0.ent(h as int).leaf) {
                assert(s0.agent_ok(h as int));
                let i = choose|i: int| 0 <= i < 4 && cs[i] == s0.ent(h as int).leaf;
                assert(s0.nd(cs[i] as int).children@.contains(h));
                if i == 0 {
                    assert(a0.contains(h));
                } else if i == 1 {
                    assert(a1.contains(h));
                } else if i == 2 {
                    assert(a2.contains(h));
                } else {
                    assert(a3.contains(h));
                }
            }
            if s0.merged_list(n).contains(h) {
                if a0.contains(h) {
                    assert(s0.nd(cs[0] as int).children@.contains(h));
                    assert(cs.contains(cs[0]));
                } else if a1.contains(h) {
                    assert(s0.nd(cs[1] as int).children@.contains(h));
                    assert(cs.contains(cs[1]));
                } else if a2.contains(h) {
                    assert(s0.nd(cs[2] as int).children@.contains(h));
                    assert(cs.contains(cs[2]));
                } else {
                    assert(s0.nd(cs[3] as int).children@.contains(h));
                    assert(cs.contains(cs[3]));
                }
            }
        }
        // The merged list holds each handle once.
        assert(s0.merged_list(n).no_duplicates()) by {
            assert(a0.contains(0usize) ==> true);
            assert forall|y: usize| a0.contains(y) implies !a1.contains(y) by {
                assert(s0.nd(cs[0] as int).children@.contains(y));
                if a1.contains(y) {
                    assert(s0.nd(cs[1] as int).children@.contains(y));
                }
            }
            assert forall|y: usize| (a0 + a1).contains(y) implies !a2.contains(y) by {
                if a2.contains(y) {
                    assert(s0.nd(cs[2] as int).children@.contains(y));
                    if a0.contains(y) {
                        assert(s0.nd(cs[0] as int).children@.contains(y));
                    } else {
                        assert(s0.nd(cs[1] as int).children@.contains(y));
                    }
                }
            }
            assert forall|y: usize| (a0 + a1 + a2).contains(y) implies !a3.contains(y) by {
                if a3.contains(y) {
                    assert(s0.nd(cs[3] as int).children@.contains(y));
                    if a0.contains(y) {
                        assert(s0.nd(cs[0] as int).children@.contains(y));
                    } else if a1.contains(y) {
                        assert(s0.nd(cs[1] as int).children@.contains(y));
                    } else {
                        assert(s0.nd(cs[2] as int).children@.contains(y));
                    }
                }
            }
            lemma_add_no_dups(a0, a1);
            lemma_add_no_dups(a0 + a1, a2);
            lemma_add_no_dups(a0 + a1 + a2, a3);
        }
        // The children were leaves, so only they had `n` on their path.
        assert forall|m: int, j: int| s0.live(m) && 0 <= j < s0.paths@[m].len() && #[trigger] s0.paths@[m][j] == n implies cs.contains(m as usize) by {
            assert(s0.node_ok(m));
            let nx = next_on_path(s0.paths@[m], m, j);
            assert(cs.contains(nx as usize));
            let i = choose|i: int| 0 <= i < 4 && cs[i] == nx as usize;
            assert(s0.is_leaf(cs[i] as int));
            if j + 1 < s0.paths@[m].len() {
                assert(s0.is_inner(s0.paths@[m][j + 1]));
            }
        }
        assert forall|m: int| self.live(m) implies #[trigger] self.node_ok(m) by {
            assert(s0.node_ok(m));
            assert(!cs.contains(m as usize));
            assert forall|j: int| 0 <= j < s0.paths@[m].len() implies self.nodes@[#[trigger] s0.paths@[m][j]] == s0.nodes@[s0.paths@[m][j]]
                && s0.paths@[m][j] < self.nodes@.len() by {
                let a = s0.paths@[m][j];
                assert(s0.is_inner(a));
                assert(a != n);
                assert(!cs.contains(a as usize)) by {
                    if cs.contains(a as usize) {
                        let i = choose|i: int| 0 <= i < 4 && cs[i] == a as usize;
                        assert(s0.is_leaf(cs[i] as int));
                    }
                }
                assert(self.live(a));
            }
            self.lemma_path_kept(s0, m);
            let nd = self.nd(m);
            if nd.parent is Some {
                let p = nd.parent->Some_0 as int;
                assert(s0.is_inner(p));
                assert(p != n);
                assert(!cs.contains(p as usize)) by {
                    if cs.contains(p as usize) {
                        let i = choose|i: int| 0 <= i < 4 && cs[i] == p as usize;
                        assert(s0.is_leaf(cs[i] as int));
                    }
                }
                assert(self.live(p));
                assert(self.nodes@[p] == s0.nodes@[p]);
            }
            if m == n {
                assert forall|k: int| 0 <= k < nd.children@.len() implies {
                    let g = #[trigger] nd.children@[k] as int;
                    &&& self.has_agent(g)
                    &&& self.ent(g).leaf == m
                    &&& nd.bounds.contains_spec(self.ent(g).pos)
                } by {
                    let g = nd.children@[k];
                    assert(s0.merged_list(n)[k] == g);
                    assert(s0.merged_list(n).contains(g));
                    assert(s0.has_agent(g as int) && cs.contains(s0.ent(g as int).leaf));
                    assert(self.has_agent(g as int));
                    assert(self.ent(g as int).leaf == n);
                    assert(self.ent(g as int).pos == s0.ent(g as int).pos);
                    assert(s0.agent_ok(g as int));
                    let c = s0.ent(g as int).leaf;
                    let i = choose|i: int| 0 <= i < 4 && cs[i] == c;
                    assert(s0.nd(c as int).bounds == b.quarter_spec(i));
                    assert(s0.nd(cs[i] as int).children@.contains(g));
                    lemma_quarters(b, Vec2D { x: 0, y: 0 });
                }
                assert(self.leaf_ok(m));
            } else {
                assert(self.nodes@[m] == s0.nodes@[m]);
                if nd.typ == NodeType::Leaf {
                    assert(s0.leaf_ok(m));
                    assert forall|k: int| 0 <= k < nd.children@.len() implies {
                        let g = #[trigger] nd.children@[k] as int;
                        &&& self.has_agent(g)
                        &&& self.ent(g).leaf == m
                        &&& nd.bounds.contains_spec(self.ent(g).pos)
                    } by {
                        let g = nd.children@[k];
                        assert(s0.nd(m).children@[k] == g);
                        assert(s0.has_agent(g as int));
                        assert(s0.ent(g as int).leaf == m);
                        assert(!s0.merged_list(n).contains(g));
                        assert(self.has_agent(g as int));
                        assert(self.ent(g as int).leaf == m);
                        assert(self.ent(g as int).pos == s0.ent(g as int).pos);
                    }
                } else {
                    assert(s0.inner_ok(m));
                    assert forall|i: int| 0 <= i < 4 implies {
                        let c = #[trigger] nd.children@[i] as int;
                        &&& self.live(c)
                        &&& self.nd(c).parent == Some(m as usize)
                        &&& self.nd(c).bounds == nd.bounds.quarter_spec(i)
                    } by {
                        let c = nd.children@[i];
                        assert(s0.nd(m).children@[i] == c);
                        assert(s0.live(c as int));
                        assert(!cs.contains(c)) by {
                            if cs.contains(c) {
                                let t = choose|t: int| 0 <= t < 4 && cs[t] == c;
                                assert(s0.nd(cs[t] as int).parent == Some(n as usize));
                            }
                        }
                        if c as int != n {
                            assert(self.nodes@[c as int] == s0.nodes@[c as int]);
                        }
                    }
                }
            }
        }
        assert forall|h: int| self.has_agent(h) implies #[trigger] self.agent_ok(h) by {
            assert(s0.agent_ok(h));
            if s0.merged_list(n).contains(h as usize) {
                assert(self.nd(n).children@.contains(h as usize));
            } else {
                let l = s0.ent(h).leaf as int;
                assert(!cs.contains(l as usize));
                assert(l != n);
                assert(self.live(l));
                assert(self.nodes@[l] == s0.nodes@[l]);
            }
        }
        assert(s0.node_ok(0));
        assert(!cs.contains(0usize)) by {
            if cs.contains(0usize) {
                let t = choose|t: int| 0 <= t < 4 && cs[t] == 0usize;
                assert(s0.node_ok(cs[t] as int));
            }
        }
        assert(self.live(0));
        if n != 0 {
            assert(self.nodes@[0] == s0.nodes@[0]);
        }
        assert forall|m: int| #[trigger] self.live(m) implies s0.live(m) && self.nd(m).parent == s0.nd(m).parent by {
            if m != n {
                assert(self.nodes@[m] == s0.nodes@[m]);
            }
        }
        self.lemma_links_kept(s0);
    }

    /// Records every agent of `list` as living in node `n`.
    fn reassign(&mut self, list: &Vec<usize>, n: usize)
        requires
            forall|i: int| 0 <= i < list@.len() ==> old(self).has_agent(#[trigger] list@[i] as int),
        ensures
            final(self).nodes == old(self).nodes,
            final(self).open_node_indices == old(self).open_node_indices,
            final(self).paths == old(self).paths,
            final(self).bounds == old(self).bounds,
            final(self).leaf_capacity == old(self).leaf_capacity,
            final(self).min_leaf_width == old(self).min_leaf_width,
            final(self).agents@.len() == old(self).agents@.len(),
            forall|h: int|
                #[trigger] final(self).has_agent(h) == old(self).has_agent(h) && (old(self).has_agent(h) ==> final(self).ent(h).pos
                    == old(self).ent(h).pos && final(self).ent(h).agent == old(self).ent(h).agent),
            forall|h: int|
                old(self).has_agent(h) ==> #[trigger] final(self).ent(h).leaf == (if list@.contains(h as usize) {
                    n as int
                } else {
                    old(self).ent(h).leaf as int
                }),
    {
        let ghost s0 = *self;
        let ghost mlist = list@;
        proof {
            assert(self.agents@.len() == self.agents.len());
        }
        let mut k: usize = 0;
        while k < list.len()
            invariant
                k <= mlist.len(),
                self.agents@.len() <= usize::MAX,
                list@ == mlist,
                self.nodes == s0.nodes,
                self.open_node_indices == s0.open_node_indices,
                self.paths == s0.paths,
                self.bounds == s0.bounds,
                self.leaf_capacity == s0.leaf_capacity,
                self.min_leaf_width == s0.min_leaf_width,
                self.agents@.len() == s0.agents@.len(),
                forall|i: int| 0 <= i < mlist.len() ==> s0.has_agent(#[trigger] mlist[i] as int),
                forall|h: int|
                    #[trigger] self.has_agent(h) == s0.has_agent(h) && (s0.has_agent(h) ==> self.ent(h).pos
                        == s0.ent(h).pos && self.ent(h).agent == s0.ent(h).agent),
                forall|h: int|
                    s0.has_agent(h) ==> #[trigger] self.ent(h).leaf == (if mlist.take(k as int).contains(h as usize) {
                        n as int
                    } else {
                        s0.ent(h).leaf as int
                    }),
            decreases mlist.len() - k,
        {
            let h = list[k];
            proof {
                assert(mlist.take(k as int + 1) =~= mlist.take(k as int).push(h));
                lemma_push_contains(mlist.take(k as int), h);
                assert(s0.has_agent(h as int));
                assert(self.has_agent(h as int));
            }
            let ghost sb = *self;
            set_leaf(&mut self.agents, h, n);
            proof {
                assert forall|g: int| #[trigger] self.has_agent(g) == s0.has_agent(g) && (s0.has_agent(g) ==> self.ent(g).pos
                        == s0.ent(g).pos && self.ent(g).agent == s0.ent(g).agent) by {
                    assert(sb.has_agent(g) == s0.has_agent(g));
                    if g != h as int && 0 <= g < self.agents@.len() {
                        assert(self.agents@[g] == sb.agents@[g]);
                    }
                }
                assert forall|g: int| s0.has_agent(g) implies #[trigger] self.ent(g).leaf == (if mlist.take(k as int + 1).contains(g as usize) {
                        n as int
                    } else {
                        s0.ent(g).leaf as int
                    }) by {
                    assert(sb.has_agent(g) == s0.has_agent(g));
                    if g != h as int {
                        assert(self.agents@[g] == sb.agents@[g]);
                        assert(sb.ent(g).leaf == (if mlist.take(k as int).contains(g as usize) { n as int } else { s0.ent(g).leaf as int }));
                    }
                }
            }
            k = k + 1;
        }
        proof {
            assert(mlist.take(mlist.len() as int) =~= mlist);
        }
    }

    /// Merges the inner node `n`, whose four children are leaves, into one
    /// leaf under the same id that holds their agents in quadrant order,
    /// and frees the children's slots.
    #[verifier::rlimit(100)]
    #[verifier::spinoff_prover]
    fn join(&mut self, n: usize)
        requires
            old(self).wf(),
            old(self).is_inner(n as int),
            forall|i: int| 0 <= i < 4 ==> old(self).is_leaf(#[trigger] old(self).nd(n as int).children@[i] as int),
        ensures
            final(self).wf(),
            final(self).bounds == old(self).bounds,
            final(self).leaf_capacity == old(self).leaf_capacity,
            final(self).min_leaf_width == old(self).min_leaf_width,
            final(self).contents() == old(self).contents(),
            final(self).next_handle() == old(self).next_handle(),
            final(self).is_leaf(n as int),
            final(self).node_children(n as int) == old(self).merged_list(n as int),
            final(self).node_bounds(n as int) == old(self).node_bounds(n as int),
            final(self).node_parent(n as int) == old(self).node_parent(n as int),
            forall|m: int| #[trigger] final(self).live(m) ==> old(self).live(m),
            forall|m: int| 0 <= m < 4 ==> !final(self).live(#[trigger] old(self).nd(n as int).children@[m] as int),
            forall|m: int|
                old(self).live(m) && m != n && !old(self).nd(n as int).children@.contains(m as usize)
                    ==> final(self).live(m) && #[trigger] final(self).nodes@[m] == old(self).nodes@[m],
    {
        let ghost s0 = *self;
        proof {
            assert(s0.node_ok(n as int));
            assert(s0.inner_ok(n as int));
        }
        let c0 = self.nodes[n].as_ref().unwrap().children[0];
        let c1 = self.nodes[n].as_ref().unwrap().children[1];
        let c2 = self.nodes[n].as_ref().unwrap().children[2];
        let c3 = self.nodes[n].as_ref().unwrap().children[3];
        let parent = self.nodes[n].as_ref().unwrap().parent;
        let bounds = self.nodes[n].as_ref().unwrap().bounds;
        let ghost cs = seq![c0, c1, c2, c3];
        proof {
            assert(cs =~= s0.nd(n as int).children@);
            assert(s0.node_ok(c0 as int) && s0.node_ok(c1 as int) && s0.node_ok(c2 as int) && s0.node_ok(c3 as int));
        }
        let mut merged: Vec<usize> = Vec::new();
        append_all(&mut merged, &self.nodes[c0].as_ref().unwrap().children);
        append_all(&mut merged, &self.nodes[c1].as_ref().unwrap().children);
        append_all(&mut merged, &self.nodes[c2].as_ref().unwrap().children);
        append_all(&mut merged, &self.nodes[c3].as_ref().unwrap().children);
        proof {
            assert(merged@ =~= s0.merged_list(n as int));
        }
        let ghost mlist = merged@;
        proof {
            assert forall|i: int| 0 <= i < mlist.len() implies s0.has_agent(#[trigger] mlist[i] as int) by {
                assert(mlist.contains(mlist[i]));
            }
        }
        self.reassign(&merged, n);
        let ghost s1 = *self;
        proof {
            assert(cs.no_duplicates());
            assert(s0.node_ok(cs[0] as int) && s0.node_ok(cs[1] as int) && s0.node_ok(cs[2] as int) && s0.node_ok(cs[3] as int));
        }
        remove_four(&mut self.nodes, &mut self.open_node_indices, c0, c1, c2, c3);
        proof {
            assert(n != c0 && n != c1 && n != c2 && n != c3);
            assert(!cs.contains(n)) by {
                if cs.contains(n) {
                    let i = choose|i: int| 0 <= i < 4 && cs[i] == n;
                }
            }
            assert(s1.nodes@[n as int] is Some);
            assert(s0.live(n as int));
            assert(s1.nodes@[n as int] is Some && 0 <= n < s1.nodes@.len());
            assert(0 <= n < self.nodes@.len() && self.nodes@[n as int] is Some);
            assert(self.nodes@[n as int] == s0.nodes@[n as int]);
        }
        let ghost s2 = *self;
        self.nodes[n] = Some(Node { typ: NodeType::Leaf, parent, children: merged, bounds });
        proof {
            assert forall|m: int| #[trigger] self.live(m) <==> s0.live(m) && !cs.contains(m as usize) by {
                if m != n as int && 0 <= m < s2.nodes@.len() {
                    assert(self.nodes@[m] == s2.nodes@[m]);
                    if s0.live(m) && !cs.contains(m as usize) {
                        assert(s1.nodes@[m] is Some);
                    }
                }
            }
            assert forall|m: int| s0.live(m) && m != n && !cs.contains(m as usize) implies self.live(m) && #[trigger] self.nodes@[m] == s0.nodes@[m] by {
                assert(s1.nodes@[m] is Some);
                assert(s2.nodes@[m] is Some);
                assert(self.nodes@[m] == s2.nodes@[m]);
            }
            assert forall|m: int| self.live(m) && m != n implies #[trigger] self.nodes@[m] == s0.nodes@[m] by {
                assert(self.nodes@[m] == s2.nodes@[m]);
            }
            assert(self.agents == s1.agents);
            assert forall|h: int| #[trigger] self.has_agent(h) == s0.has_agent(h) && (s0.has_agent(h) ==> self.ent(h).pos
                    == s0.ent(h).pos && self.ent(h).agent == s0.ent(h).agent) by {
                assert(s1.has_agent(h) == s0.has_agent(h));
            }
            assert forall|h: int| s0.has_agent(h) implies #[trigger] self.ent(h).leaf == (if s0.merged_list(n as int).contains(h as usize) {
                    n as int
                } else {
                    s0.ent(h).leaf as int
                }) by {
                assert(s1.ent(h) == self.ent(h));
            }
            assert(self.contents() =~= s0.contents());
            self.lemma_join_wf(s0, n as int);
        }
    }

    // ---------------------------------------------------------------
    // Construction and lookups
    // ---------------------------------------------------------------
    /// An empty index over `bounds` with the given tunables. A leaf is
    /// split only while it is wider than `min_leaf_width`, which must be at
    /// least one unit, since a cell one unit wide cannot be halved.
    pub fn with_config(bounds: Rect, leaf_capacity: usize, min_leaf_width: i64) -> (r: Self)
        requires
            bounds.wf(),
            min_leaf_width >= 1,
        ensures
            r.wf(),
            r.world() == bounds,
            r.capacity() == leaf_capacity,
            r.min_width() == min_leaf_width,
            r.contents() == Map::<int, (Vec2D, A)>::empty(),
            r.next_handle() == 0,
            r.is_leaf(0),
            r.node_children(0).len() == 0,
            r.node_bounds(0) == bounds,
            r.node_parent(0) is None,
            forall|n: int| r.live(n) <==> n == 0,
    {
        let root = Node { typ: NodeType::Leaf, parent: None, children: Vec::new(), bounds };
        let mut nodes: Vec<Option<Node>> = Vec::new();
        nodes.push(Some(root));
        let r = Quadtree {
            bounds,
            leaf_capacity,
            min_leaf_width,
            nodes,
            agents: Vec::new(),
            open_node_indices: Vec::new(),
            paths: Ghost(Map::empty().insert(0int, Seq::empty())),
        };
        assert(r.node_ok(0));
        assert(r.contents() =~= Map::<int, (Vec2D, A)>::empty());
        r
    }

    /// An empty index over `bounds` with a leaf capacity of 4 and a
    /// minimal splitting width of 2.
    pub fn new(bounds: Rect) -> (r: Self)
        requires
            bounds.wf(),
        ensures
            r.wf(),
            r.world() == bounds,
            r.capacity() == 4,
            r.min_width() == 2,
            r.contents() == Map::<int, (Vec2D, A)>::empty(),
            r.next_handle() == 0,
            r.is_leaf(0),
            r.node_children(0).len() == 0,
            r.node_bounds(0) == bounds,
            r.node_parent(0) is None,
            forall|n: int| r.live(n) <==> n == 0,
    {
        Self::with_config(bounds, 4, 2)
    }

    /// The leaf that holds position `pos`, found by descending from the
    /// root; `None` when `pos` lies outside the world.
    pub fn get_node_for_pos(&self, pos: Vec2D) -> (r: Option<usize>)
        requires
            self.wf(),
        ensures
            r == (if self.world().contains_spec(pos) {
                Some(self.leaf_for(pos) as usize)
            } else {
                None::<usize>
            }),
            r is Some ==> self.is_leaf(r->Some_0 as int) && self.node_bounds(r->Some_0 as int).contains_spec(pos)
                && r->Some_0 as int == self.leaf_for(pos),
    {
        if !self.bounds.contains(pos) {
            return None;
        }
        let mut curr: usize = 0;
        loop
            invariant
                self.wf(),
                self.live(curr as int),
                self.nd(curr as int).bounds.contains_spec(pos),
                self.descend(curr as int, pos) == self.descend(0, pos),
            decreases self.nd(curr as int).bounds.width_spec(),
        {
            proof {
                assert(self.node_ok(curr as int));
            }
            let node = self.nodes[curr].as_ref().unwrap();
            match node.typ {
                NodeType::Leaf => {
                    return Some(curr);
                },
                NodeType::Inner => {
                    let q = node.bounds.get_quadrant(pos);
                    proof {
                        self.lemma_descend_step(curr as int, pos);
                        lemma_quarters(node.bounds, pos);
                    }
                    curr = node.children[q];
                },
            }
        }
    }

    // ---------------------------------------------------------------
    // Adding, removing and moving agents
    // ---------------------------------------------------------------
    /// Inserts `agent` at `pos` under a fresh handle, which it returns, into
    /// the leaf that a search from the root finds for `pos`, then runs the
    /// capacity check on that leaf. `None`, with nothing changed, when `pos`
    /// lies outside the world.
    pub fn add_agent(&mut self, agent: A, pos: Vec2D) -> (r: Option<usize>)
        requires
            old(self).wf(),
        ensures
            final(self).wf(),
            final(self).world() == old(self).world(),
            final(self).capacity() == old(self).capacity(),
            final(self).min_width() == old(self).min_width(),
            r is Some <==> old(self).world().contains_spec(pos),
            r is None ==> *final(self) == *old(self),
            r is Some ==> {
                let h = r->Some_0;
                let l = old(self).leaf_for(pos);
                &&& h == old(self).next_handle()
                &&& final(self).next_handle() == h + 1
                &&& final(self).contents() == old(self).contents().insert(h as int, (pos, agent))
                &&& final(self).agent_count() == old(self).agent_count() + 1
                &&& final(self).placed(*old(self), l, old(self).node_children(l).push(h), l)
            },
    {
        let leaf = match self.get_node_for_pos(pos) {
            Some(l) => l,
            None => {
                return None;
            },
        };
        let ghost s0 = *self;
        let h = self.agents.len();
        self.attach(h, Entry { agent, pos, leaf });
        let ghost s1 = *self;
        proof {
            assert forall|n: int| s0.live(n) && n != leaf implies #[trigger] s1.same_node(s0, n) by {
                assert(s1.nodes@[n] == s0.nodes@[n]);
            }
            assert(s1.contents() =~= s0.contents().insert(h as int, (pos, agent)));
            assert forall|n: int| #[trigger] s1.live(n) == s0.live(n) by {
                if 0 <= n < s0.nodes@.len() && n != leaf as int {
                    assert(s1.nodes@[n] == s0.nodes@[n]);
                }
            }
        }
        self.check_capacity(leaf);
        proof {
            assert forall|n: int| s0.live(n) && n != leaf as int && n != leaf as int implies #[trigger] self.same_node(s0, n) by {
                assert(s1.same_node(s0, n));
                assert(self.same_node(s1, n));
            }
            assert forall|n: int| #[trigger] self.live(n) && !s0.live(n) implies self.node_parent(n) == Some(leaf) by {
                assert(s1.live(n) == s0.live(n));
            }
            let list = s0.node_children(leaf as int).push(h);
            assert(s1.node_children(leaf as int) == list);
            assert(self.contents() == s0.contents().insert(h as int, (pos, agent)));
            assert(self.next_handle() == h + 1);
            assert(self.node_bounds(leaf as int) == s0.node_bounds(leaf as int));
            assert(self.node_parent(leaf as int) == s0.node_parent(leaf as int));
            assert(s1.free_ids() == s0.free_ids() && s1.table_len() == s0.table_len());
            if list.len() > s0.capacity() && s0.node_bounds(leaf as int).width_spec() > s0.min_width() {
                assert(self.holds_split(leaf as int, list));
                assert(forall|i: int| 0 <= i < 4 ==> !s0.live(#[trigger] self.node_children(leaf as int)[i] as int));
            } else {
                assert forall|n: int| #[trigger] self.live(n) <==> s0.live(n) by {
                    assert(s1.live(n) == s0.live(n));
                }
                assert(self.is_leaf(leaf as int));
                assert(self.node_children(leaf as int) == list);
            }
            assert(self.placed(s0, leaf as int, list, leaf as int));
            assert(self.contents().dom() =~= s0.contents().dom().insert(s0.next_handle()));
            self.lemma_count_added(s0);
        }
        Some(h)
    }

    /// Removes agent `h` from its leaf and returns it; `None`, with nothing
    /// changed, when `h` names no stored agent. No merge happens here.
    pub fn remove_agent(&mut self, h: usize) -> (r: Option<A>)
        requires
            old(self).wf(),
        ensures
            final(self).wf(),
            final(self).world() == old(self).world(),
            final(self).capacity() == old(self).capacity(),
            final(self).min_width() == old(self).min_width(),
            r is Some <==> old(self).has_agent(h as int),
            r is None ==> *final(self) == *old(self),
            r is Some ==> {
                let l = old(self).owner(h as int);
                &&& r->Some_0 == old(self).agent(h as int)
                &&& final(self).next_handle() == old(self).next_handle()
                &&& final(self).contents() == old(self).contents().remove(h as int)
                &&& final(self).agent_count() + 1 == old(self).agent_count()
                &&& final(self).is_leaf(l)
                &&& final(self).node_children(l) == old(self).node_children(l).filter(|y: usize| y != h)
                &&& final(self).node_bounds(l) == old(self).node_bounds(l)
                &&& final(self).node_parent(l) == old(self).node_parent(l)
                &&& forall|n: int| n != l ==> #[trigger] final(self).same_node(*old(self), n)
                &&& forall|n: int| #[trigger] final(self).live(n) == old(self).live(n)
            },
    {
        if h >= self.agents.len() || self.agents[h].is_none() {
            return None;
        }
        let ghost s0 = *self;
        let e = self.detach(h);
        proof {
            assert(s0.agent_ok(h as int));
            assert forall|n: int| n != e.leaf as int implies #[trigger] self.same_node(s0, n) by {
                if 0 <= n < s0.nodes@.len() {
                    assert(self.nodes@[n] == s0.nodes@[n]);
                }
            }
            assert forall|n: int| #[trigger] self.live(n) == s0.live(n) by {
                if 0 <= n < s0.nodes@.len() && n != e.leaf as int {
                    assert(self.nodes@[n] == s0.nodes@[n]);
                }
            }
            assert(self.contents() =~= s0.contents().remove(h as int));
            assert(self.contents().dom() =~= s0.contents().dom().remove(h as int));
            self.lemma_count_removed(s0, h as int);
        }
        Some(e.agent)
    }

    /// Relocates agent `h` to `new_pos`, keeping its handle. When the
    /// agent's leaf still contains `new_pos`, only the position changes.
    /// Otherwise the agent goes to the leaf that a search from the root
    /// finds for `new_pos`, and that leaf gets the capacity check; the leaf
    /// it left is not merged here. `None`, with nothing changed, when `h`
    /// names no agent or `new_pos` lies outside both its leaf and the world.
    pub fn move_agent(&mut self, h: usize, new_pos: Vec2D) -> (r: Option<()>)
        requires
            old(self).wf(),
        ensures
            final(self).wf(),
            final(self).world() == old(self).world(),
            final(self).capacity() == old(self).capacity(),
            final(self).min_width() == old(self).min_width(),
            r is Some <==> old(self).has_agent(h as int) && old(self).world().contains_spec(new_pos),
            r is None ==> *final(self) == *old(self),
            r is Some ==> {
                let o = old(self).owner(h as int);
                let l = old(self).leaf_for(new_pos);
                &&& final(self).has_agent(h as int)
                &&& final(self).next_handle() == old(self).next_handle()
                &&& final(self).contents() == old(self).contents().insert(h as int, (new_pos, old(self).agent(h as int)))
                &&& final(self).agent_count() == old(self).agent_count()
                &&& if old(self).node_bounds(o).contains_spec(new_pos) {
                    &&& final(self).owner(h as int) == o
                    &&& forall|n: int| #[trigger] final(self).same_node(*old(self), n)
                } else {
                    &&& l != o
                    &&& final(self).is_leaf(o)
                    &&& final(self).node_children(o) == old(self).node_children(o).filter(|y: usize| y != h)
                    &&& final(self).node_bounds(o) == old(self).node_bounds(o)
                    &&& final(self).node_parent(o) == old(self).node_parent(o)
                    &&& final(self).placed(*old(self), l, old(self).node_children(l).push(h), o)
                }
            },
    {
        if h >= self.agents.len() || self.agents[h].is_none() {
            return None;
        }
        let ghost s0 = *self;
        proof {
            assert(s0.agent_ok(h as int));
        }
        let o = self.agents[h].as_ref().unwrap().leaf;
        proof {
            s0.lemma_bounds_within_world(o as int);
        }
        if self.nodes[o].as_ref().unwrap().bounds.contains(new_pos) {
            set_pos(&mut self.agents, h, new_pos);
            proof {
                self.lemma_pos_moved(s0, h as int);
                assert(self.contents() =~= s0.contents().insert(h as int, (new_pos, s0.agent(h as int))));
                assert(self.contents().dom() =~= s0.contents().dom());
                self.lemma_count_same_agents(s0);
            }
            return Some(());
        }
        let l = match self.get_node_for_pos(new_pos) {
            Some(l) => l,
            None => {
                return None;
            },
        };
        let e = self.detach(h);
        let ghost s1 = *self;
        self.attach(h, Entry { agent: e.agent, pos: new_pos, leaf: l });
        let ghost s2 = *self;
        proof {
            assert(s0.nodes@.len() == s2.nodes@.len());
            assert forall|n: int| s0.live(n) && n != l && n != o implies #[trigger] s2.same_node(s0, n) by {
                assert(s1.nodes@[n] == s0.nodes@[n]);
                assert(s2.nodes@[n] == s1.nodes@[n]);
            }
            assert forall|n: int| #[trigger] s2.live(n) == s0.live(n) by {
                if 0 <= n < s0.nodes@.len() && n != l as int && n != o as int {
                    assert(s1.nodes@[n] == s0.nodes@[n]);
                    assert(s2.nodes@[n] == s1.nodes@[n]);
                }
            }
            assert(s2.nodes@[o as int] == s1.nodes@[o as int]);
            assert(s2.nd(l as int).children@ == s0.nd(l as int).children@.push(h));
            assert(s2.contents() =~= s0.contents().insert(h as int, (new_pos, s0.agent(h as int))));
        }
        self.check_capacity(l);
        proof {
            let list = s0.node_children(l as int).push(h);
            assert forall|n: int| s0.live(n) && n != l as int && n != o as int implies #[trigger] self.same_node(s0, n) by {
                assert(s2.same_node(s0, n));
                assert(self.same_node(s2, n));
            }
            assert forall|n: int| #[trigger] self.live(n) && !s0.live(n) implies self.node_parent(n) == Some(l) by {
                assert(s2.live(n) == s0.live(n));
            }
            assert(self.same_node(s2, o as int));
            assert(s2.free_ids() == s0.free_ids() && s2.table_len() == s0.table_len());
            if list.len() > s0.capacity() && s0.node_bounds(l as int).width_spec() > s0.min_width() {
                assert(self.holds_split(l as int, list));
                assert(forall|i: int| 0 <= i < 4 ==> !s0.live(#[trigger] self.node_children(l as int)[i] as int));
            } else {
                assert(self.is_leaf(l as int));
                assert forall|n: int| #[trigger] self.live(n) <==> s0.live(n) by {
                    assert(s2.live(n) == s0.live(n));
                }
            }
            assert(self.placed(s0, l as int, list, o as int));
            assert(s2.has_agent(h as int));
            assert(s2.contents().dom().contains(h as int));
            assert(self.contents().dom().contains(h as int));
            assert(self.has_agent(h as int));
            assert(self.contents().dom() =~= s0.contents().dom());
            self.lemma_count_same_agents(s0);
        }
        Some(())
    }

    // ---------------------------------------------------------------
    // Range queries
    // ---------------------------------------------------------------
    /// Ids of all leaves whose rectangle meets `bounds` (touching edges
    /// count), found by an iterative walk from the root that skips every
    /// subtree whose rectangle misses `bounds`. The order is unspecified.
    pub fn find_leaves_in_bounds(&self, bounds: Rect) -> (r: Vec<usize>)
        requires
            self.wf(),
        ensures
            r@.no_duplicates(),
            forall|i: int|
                0 <= i < r@.len() ==> self.is_leaf(#[trigger] r@[i] as int) && self.node_bounds(r@[i] as int).intersects_spec(bounds),
            forall|l: int|
                #[trigger] self.is_leaf(l) && self.node_bounds(l).intersects_spec(bounds) ==> r@.contains(l as usize),
    {
        let mut leaves: Vec<usize> = Vec::new();
        let mut to_visit: Vec<usize> = vec![0];
        proof {
            assert(self.node_ok(0));
            assert(self.dfs_ok(to_visit@, leaves@));
            assert forall|l: int| #[trigger] self.is_leaf(l) && self.node_bounds(l).intersects_spec(bounds) implies
                leaves@.contains(l as usize) || self.covered(to_visit@, l) by {
                assert(self.node_ok(l));
                let ext = self.paths@[l].push(l);
                assert(ext[0] == 0);
                assert(to_visit@[0] == 0);
                assert(to_visit@.contains(ext[0] as usize));
            }
        }
        while to_visit.len() > 0
            invariant
                self.wf(),
                self.dfs_ok(to_visit@, leaves@),
                forall|k: int| 0 <= k < to_visit@.len() ==> self.live(#[trigger] to_visit@[k] as int),
                forall|i: int|
                    0 <= i < leaves@.len() ==> self.is_leaf(#[trigger] leaves@[i] as int) && self.node_bounds(leaves@[i] as int).intersects_spec(bounds),
                forall|l: int|
                    #[trigger] self.is_leaf(l) && self.node_bounds(l).intersects_spec(bounds) ==> leaves@.contains(l as usize)
                        || self.covered(to_visit@, l),
            decreases self.stack_weight(to_visit@),
        {
            let ghost st = to_visit@;
            let curr = to_visit.pop().unwrap();
            let ghost rest = to_visit@;
            let ghost old_leaves = leaves@;
            proof {
                assert(st =~= rest.push(curr));
                self.lemma_weight_push(rest, curr);
                lemma_weight_pos(self.nd(curr as int).bounds.width_spec());
                lemma_push_contains(rest, curr);
                assert(self.live(curr as int)) by {
                    assert(st[st.len() - 1] == curr);
                }
                assert(self.node_ok(curr as int));
            }
            let node = self.nodes[curr].as_ref().unwrap();
            if node.bounds.intersects(bounds) {
                match node.typ {
                    NodeType::Leaf => {
                        leaves.push(curr);
                        proof {
                            self.lemma_dfs_leaf(st, old_leaves);
                            assert(rest == st.drop_last());
                            lemma_push_contains(old_leaves, curr);
                            assert forall|l: int| #[trigger] self.is_leaf(l) && self.node_bounds(l).intersects_spec(bounds) implies
                                leaves@.contains(l as usize) || self.covered(to_visit@, l) by {
                                if !old_leaves.contains(l as usize) && l != curr as int {
                                    self.lemma_covered_pop(st, curr, l, bounds);
                                }
                            }
                        }
                    },
                    NodeType::Inner => {
                        proof {
                            assert(self.inner_ok(curr as int));
                        }
                        to_visit.push(node.children[0]);
                        to_visit.push(node.children[1]);
                        to_visit.push(node.children[2]);
                        to_visit.push(node.children[3]);
                        proof {
                            let ch = node.children@;
                            assert(to_visit@ =~= rest.push(ch[0]).push(ch[1]).push(ch[2]).push(ch[3]));
                            assert(to_visit@ =~= rest + ch);
                            assert(rest == st.drop_last());
                            self.lemma_dfs_inner(st, leaves@);
                            self.lemma_weight_children(rest, curr as int);
                            lemma_push_contains(rest, ch[0]);
                            lemma_push_contains(rest.push(ch[0]), ch[1]);
                            lemma_push_contains(rest.push(ch[0]).push(ch[1]), ch[2]);
                            lemma_push_contains(rest.push(ch[0]).push(ch[1]).push(ch[2]), ch[3]);
                            assert forall|k: int| 0 <= k < to_visit@.len() implies self.live(#[trigger] to_visit@[k] as int) by {
                                if k < rest.len() {
                                    assert(to_visit@[k] == st[k]);
                                } else {
                                    assert(to_visit@[k] == ch[k - rest.len()]);
                                }
                            }
                            assert forall|l: int| #[trigger] self.is_leaf(l) && self.node_bounds(l).intersects_spec(bounds) implies
                                leaves@.contains(l as usize) || self.covered(to_visit@, l) by {
                                if !leaves@.contains(l as usize) {
                                    self.lemma_covered_pop(st, curr, l, bounds);
                                    if !self.covered(rest, l) {
                                        let ext = self.paths@[l].push(l);
                                        let j = choose|j: int| 0 <= j <= self.paths@[l].len() && ext[j] == curr as int;
                                        assert(self.node_ok(l));
                                        assert(j < self.paths@[l].len());
                                        assert(self.paths@[l][j] == curr as int);
                                        let nx = next_on_path(self.paths@[l], l, j);
                                        assert(ext[j + 1] == nx);
                                        assert(ch.contains(nx as usize));
                                        assert(to_visit@.contains(ext[j + 1] as usize));
                                    } else {
                                        let j = choose|j: int| 0 <= j <= self.paths@[l].len() && rest.contains(self.paths@[l].push(l)[j] as usize);
                                        assert(to_visit@.contains(self.paths@[l].push(l)[j] as usize));
                                    }
                                }
                            }
                        }
                    },
                }
            } else {
                proof {
                    assert(rest == st.drop_last());
                    self.lemma_dfs_skip(st, leaves@);
                    assert forall|l: int| #[trigger] self.is_leaf(l) && self.node_bounds(l).intersects_spec(bounds) implies
                        leaves@.contains(l as usize) || self.covered(to_visit@, l) by {
                        if !leaves@.contains(l as usize) {
                            self.lemma_covered_pop(st, curr, l, bounds);
                        }
                    }
                }
            }
        }
        leaves
    }

    /// Handles of all agents held by a leaf whose rectangle meets `bounds`.
    /// This is a superset of the agents positioned inside `bounds`: an
    /// agent near `bounds` may be returned as well.
    pub fn find_agents_in_bounds(&self, bounds: Rect) -> (r: Vec<usize>)
        requires
            self.wf(),
        ensures
            r@.no_duplicates(),
            forall|h: usize|
                #[trigger] r@.contains(h) <==> self.has_agent(h as int) && self.node_bounds(self.owner(h as int)).intersects_spec(bounds),
            forall|h: int|
                #[trigger] self.has_agent(h) && bounds.contains_spec(self.agent_pos(h)) ==> r@.contains(h as usize),
    {
        let leaves = self.find_leaves_in_bounds(bounds);
        let mut r: Vec<usize> = Vec::new();
        let mut i: usize = 0;
        while i < leaves.len()
            invariant
                self.wf(),
                i <= leaves@.len(),
                leaves@.no_duplicates(),
                r@.no_duplicates(),
                forall|k: int|
                    0 <= k < leaves@.len() ==> self.is_leaf(#[trigger] leaves@[k] as int) && self.node_bounds(leaves@[k] as int).intersects_spec(bounds),
                forall|h: usize|
                    #[trigger] r@.contains(h) <==> self.has_agent(h as int) && leaves@.take(i as int).contains(self.ent(h as int).leaf),
            decreases leaves@.len() - i,
        {
            let l = leaves[i];
            proof {
                assert(leaves@.take(i as int + 1) =~= leaves@.take(i as int).push(l));
                lemma_push_contains(leaves@.take(i as int), l);
                assert(self.node_ok(l as int));
            }
            let node = self.nodes[l].as_ref().unwrap();
            proof {
                assert(!leaves@.take(i as int).contains(l)) by {
                    if leaves@.take(i as int).contains(l) {
                        let q = choose|q: int| 0 <= q < i && leaves@.take(i as int)[q] == l;
                        assert(leaves@[q] == leaves@[i as int]);
                    }
                }
            }
            let mut k: usize = 0;
            while k < node.children.len()
                invariant
                    self.wf(),
                    self.is_leaf(l as int),
                    self.node_ok(l as int),
                    *node == self.nd(l as int),
                    k <= node.children@.len(),
                    r@.no_duplicates(),
                    !leaves@.take(i as int).contains(l),
                    forall|h: usize|
                        #[trigger] r@.contains(h) <==> self.has_agent(h as int) && (leaves@.take(i as int).contains(self.ent(h as int).leaf)
                            || (self.ent(h as int).leaf == l && node.children@.take(k as int).contains(h))),
                decreases node.children@.len() - k,
            {
                let h = node.children[k];
                proof {
                    assert(node.children@.take(k as int + 1) =~= node.children@.take(k as int).push(h));
                    lemma_push_contains(node.children@.take(k as int), h);
                    lemma_push_contains(r@, h);
                    assert(self.has_agent(h as int) && self.ent(h as int).leaf == l);
                    assert(!node.children@.take(k as int).contains(h)) by {
                        if node.children@.take(k as int).contains(h) {
                            let q = choose|q: int| 0 <= q < k && node.children@.take(k as int)[q] == h;
                            assert(node.children@[q] == node.children@[k as int]);
                        }
                    }
                    assert(!r@.contains(h));
                    lemma_push_no_dups(r@, h);
                }
                r.push(h);
                k = k + 1;
            }
            proof {
                assert(node.children@.take(k as int) =~= node.children@);
                assert forall|h: usize| #[trigger] r@.contains(h) <==> self.has_agent(h as int) && leaves@.take(i as int + 1).contains(self.ent(h as int).leaf) by {
                    if self.has_agent(h as int) && self.ent(h as int).leaf == l {
                        assert(self.agent_ok(h as int));
                    }
                }
            }
            i = i + 1;
        }
        proof {
            assert(leaves@.take(leaves@.len() as int) =~= leaves@);
            assert forall|h: int| #[trigger] self.has_agent(h) && bounds.contains_spec(self.agent_pos(h)) implies r@.contains(h as usize) by {
                assert(self.agent_ok(h));
                let l = self.ent(h).leaf as int;
                assert(self.node_ok(l));
                assert(self.leaf_ok(l));
                let k = choose|k: int| 0 <= k < self.nd(l).children@.len() && self.nd(l).children@[k] == h as usize;
                assert(self.nd(l).bounds.contains_spec(self.ent(h).pos));
                assert(self.is_leaf(l));
            }
            assert forall|h: usize| #[trigger] r@.contains(h) <==> self.has_agent(h as int) && self.node_bounds(self.owner(h as int)).intersects_spec(bounds) by {
                if self.has_agent(h as int) {
                    assert(self.agent_ok(h as int));
                    let l = self.ent(h as int).leaf as int;
                    if self.node_bounds(l).intersects_spec(bounds) {
                        assert(self.is_leaf(l));
                    } else if leaves@.contains(l as usize) {
                        let k = choose|k: int| 0 <= k < leaves@.len() && leaves@[k] == l as usize;
                        assert(self.node_bounds(leaves@[k] as int).intersects_spec(bounds));
                    }
                }
            }
        }
        r
    }

    // ---------------------------------------------------------------
    // Consolidation
    // ---------------------------------------------------------------
    /// Whether node `n` is an inner node whose four leaf children hold at
    /// most `leaf_capacity` agents together.
    fn can_join(&self, n: usize) -> (r: bool)
        requires
            self.wf(),
        ensures
            r == self.mergeable(n as int),
    {
        if n >= self.nodes.len() {
            return false;
        }
        let node = match &self.nodes[n] {
            Some(node) => node,
            None => {
                return false;
            },
        };
        if node.typ != NodeType::Inner {
            return false;
        }
        proof {
            assert(self.node_ok(n as int));
            assert(self.inner_ok(n as int));
        }
        let mut total: usize = 0;
        let mut i: usize = 0;
        while i < 4
            invariant
                self.wf(),
                self.is_inner(n as int),
                self.inner_ok(n as int),
                *node == self.nd(n as int),
                i <= 4,
                total <= self.leaf_capacity,
                forall|j: int| 0 <= j < i ==> self.is_leaf(#[trigger] node.children@[j] as int),
                total == (if i == 0 {
                    0
                } else if i == 1 {
                    self.nd(node.children@[0] as int).children@.len()
                } else if i == 2 {
                    (self.nd(node.children@[0] as int).children@ + self.nd(node.children@[1] as int).children@).len()
                } else if i == 3 {
                    (self.nd(node.children@[0] as int).children@ + self.nd(node.children@[1] as int).children@
                        + self.nd(node.children@[2] as int).children@).len()
                } else {
                    self.merged_list(n as int).len()
                }),
            decreases 4 - i,
        {
            let c = node.children[i];
            let child = self.nodes[c].as_ref().unwrap();
            if child.typ != NodeType::Leaf {
                return false;
            }
            let len = child.children.len();
            if len > self.leaf_capacity - total {
                proof {
                    assert(self.merged_list(n as int).len() >= total + len);
                }
                return false;
            }
            total = total + len;
            i = i + 1;
        }
        true
    }

    /// One consolidation pass: every inner node whose four children are
    /// leaves holding at most `leaf_capacity` agents together, as found at
    /// the start of the pass, becomes a leaf with their agents under its
    /// own id, and the children's slots are freed. A node that becomes
    /// mergeable only through this pass is merged by a later one.
    pub fn clean_tree(&mut self)
        requires
            old(self).wf(),
        ensures
            final(self).wf(),
            final(self).world() == old(self).world(),
            final(self).capacity() == old(self).capacity(),
            final(self).min_width() == old(self).min_width(),
            final(self).contents() == old(self).contents(),
            final(self).agent_count() == old(self).agent_count(),
            final(self).next_handle() == old(self).next_handle(),
            forall|n: int|
                #[trigger] old(self).mergeable(n) ==> {
                    &&& final(self).is_leaf(n)
                    &&& final(self).node_children(n) == old(self).merged_list(n)
                    &&& final(self).node_bounds(n) == old(self).node_bounds(n)
                    &&& final(self).node_parent(n) == old(self).node_parent(n)
                },
            forall|n: int|
                old(self).live(n) && old(self).node_parent(n) is Some && old(self).mergeable(
                    old(self).node_parent(n)->Some_0 as int,
                ) ==> !#[trigger] final(self).live(n),
            forall|n: int|
                old(self).live(n) && !old(self).mergeable(n) && !(old(self).node_parent(n) is Some
                    && old(self).mergeable(old(self).node_parent(n)->Some_0 as int)) ==> #[trigger] final(self).same_node(*old(self), n),
            forall|n: int| #[trigger] final(self).live(n) ==> old(self).live(n),
    {
        let ghost s0 = *self;
        let mut cands: Vec<usize> = Vec::new();
        let mut id: usize = 0;
        while id < self.nodes.len()
            invariant
                self.wf(),
                *self == s0,
                id <= self.nodes@.len(),
                cands@.no_duplicates(),
                forall|x: usize| #[trigger] cands@.contains(x) <==> x < id && s0.mergeable(x as int),
            decreases self.nodes@.len() - id,
        {
            let ok = self.can_join(id);
            proof {
                lemma_push_contains(cands@, id);
            }
            if ok {
                proof {
                    lemma_push_no_dups(cands@, id);
                }
                cands.push(id);
            }
            id = id + 1;
        }
        proof {
            assert forall|x: int| #[trigger] s0.mergeable(x) implies cands@.contains(x as usize) by {
                assert(s0.live(x));
            }
        }
        let mut k: usize = 0;
        while k < cands.len()
            invariant
                s0.wf(),
                self.wf(),
                k <= cands@.len(),
                cands@.no_duplicates(),
                forall|x: usize| #[trigger] cands@.contains(x) <==> s0.mergeable(x as int),
                self.bounds == s0.bounds,
                self.leaf_capacity == s0.leaf_capacity,
                self.min_leaf_width == s0.min_leaf_width,
                self.contents() == s0.contents(),
                self.next_handle() == s0.next_handle(),
                forall|m: int| #[trigger] self.live(m) ==> s0.live(m),
                forall|j: int|
                    0 <= j < k ==> {
                        let c = #[trigger] cands@[j] as int;
                        &&& self.is_leaf(c)
                        &&& self.nd(c).children@ == s0.merged_list(c)
                        &&& self.nd(c).bounds == s0.nd(c).bounds
                        &&& self.nd(c).parent == s0.nd(c).parent
                    },
                forall|m: int|
                    s0.live(m) && s0.nd(m).parent is Some && cands@.take(k as int).contains(s0.nd(m).parent->Some_0)
                        ==> !#[trigger] self.live(m),
                forall|m: int|
                    s0.live(m) && !cands@.take(k as int).contains(m as usize) && !(s0.nd(m).parent is Some
                        && cands@.take(k as int).contains(s0.nd(m).parent->Some_0)) ==> self.live(m)
                        && #[trigger] self.nodes@[m] == s0.nodes@[m],
            decreases cands@.len() - k,
        {
            let c = cands[k];
            let ghost sb = *self;
            let ghost done = cands@.take(k as int);
            proof {
                assert(cands@.take(k as int + 1) =~= done.push(c));
                lemma_push_contains(done, c);
                assert(cands@.contains(c));
                assert(s0.mergeable(c as int));
                assert(s0.node_ok(c as int));
                assert(s0.inner_ok(c as int));
                assert(!done.contains(c)) by {
                    if done.contains(c) {
                        let j = choose|j: int| 0 <= j < k && done[j] == c;
                        assert(cands@[j] == cands@[k as int]);
                    }
                }
                // `c` and its children are as they were at the start.
                assert(s0.nd(c as int).parent is Some ==> !done.contains(s0.nd(c as int).parent->Some_0)) by {
                    if s0.nd(c as int).parent is Some && done.contains(s0.nd(c as int).parent->Some_0) {
                        let p = s0.nd(c as int).parent->Some_0;
                        let j = choose|j: int| 0 <= j < k && done[j] == p;
                        assert(cands@[j] == p);
                        assert(cands@.contains(p));
                        assert(s0.mergeable(p as int));
                        assert(s0.nd(p as int).children@.contains(c));
                        let i = choose|i: int| 0 <= i < 4 && s0.nd(p as int).children@[i] == c;
                        assert(s0.node_children(p as int)[i] == c);
                    }
                }
                assert(sb.nodes@[c as int] == s0.nodes@[c as int]);
                assert forall|i: int| 0 <= i < 4 implies #[trigger] sb.nodes@[s0.nd(c as int).children@[i] as int] == s0.nodes@[s0.nd(c as int).children@[i] as int]
                    && sb.is_leaf(s0.nd(c as int).children@[i] as int) by {
                    let e = s0.nd(c as int).children@[i];
                    assert(s0.node_children(c as int)[i] == e);
                    assert(s0.is_leaf(e as int));
                    assert(s0.nd(e as int).parent == Some(c));
                    assert(!done.contains(e)) by {
                        if done.contains(e) {
                            let j = choose|j: int| 0 <= j < k && done[j] == e;
                            assert(cands@[j] == e);
                            assert(cands@.contains(e));
                            assert(s0.mergeable(e as int));
                        }
                    }
                }
            }
            self.join(c);
            proof {
                let ch = s0.nd(c as int).children@;
                assert(sb.nd(c as int).children@ == ch);
                assert(sb.merged_list(c as int) == s0.merged_list(c as int)) by {
                    assert(sb.node_children(c as int) == ch);
                    assert(sb.nodes@[ch[0] as int] == s0.nodes@[ch[0] as int]);
                    assert(sb.nodes@[ch[1] as int] == s0.nodes@[ch[1] as int]);
                    assert(sb.nodes@[ch[2] as int] == s0.nodes@[ch[2] as int]);
                    assert(sb.nodes@[ch[3] as int] == s0.nodes@[ch[3] as int]);
                }
                assert forall|j: int| 0 <= j < k + 1 implies {
                    let d = #[trigger] cands@[j] as int;
                    &&& self.is_leaf(d)
                    &&& self.nd(d).children@ == s0.merged_list(d)
                    &&& self.nd(d).bounds == s0.nd(d).bounds
                    &&& self.nd(d).parent == s0.nd(d).parent
                } by {
                    let d = cands@[j] as int;
                    if j < k {
                        assert(sb.is_leaf(d));
                        assert(d != c as int);
                        assert(!ch.contains(d as usize)) by {
                            if ch.contains(d as usize) {
                                let i = choose|i: int| 0 <= i < 4 && ch[i] == d as usize;
                                assert(s0.node_children(c as int)[i] == d as usize);
                                assert(s0.is_leaf(d));
                                assert(cands@.contains(cands@[j]));
                                assert(s0.mergeable(d));
                            }
                        }
                        assert(self.nodes@[d] == sb.nodes@[d]);
                    }
                }
                assert forall|m: int|
                    s0.live(m) && s0.nd(m).parent is Some && cands@.take(k as int + 1).contains(s0.nd(m).parent->Some_0)
                        implies !#[trigger] self.live(m) by {
                    let p = s0.nd(m).parent->Some_0;
                    if p == c {
                        assert(s0.node_ok(m));
                        let i = choose|i: int| 0 <= i < 4 && ch[i] == m as usize;
                        assert(ch[i] as int == m);
                    } else {
                        assert(done.contains(p));
                        assert(!sb.live(m));
                    }
                }
                assert forall|m: int|
                    s0.live(m) && !cands@.take(k as int + 1).contains(m as usize) && !(s0.nd(m).parent is Some
                        && cands@.take(k as int + 1).contains(s0.nd(m).parent->Some_0)) implies self.live(m)
                        && #[trigger] self.nodes@[m] == s0.nodes@[m] by {
                    assert(sb.live(m) && sb.nodes@[m] == s0.nodes@[m]);
                    assert(m != c as int);
                    assert(!ch.contains(m as usize)) by {
                        if ch.contains(m as usize) {
                            let i = choose|i: int| 0 <= i < 4 && ch[i] == m as usize;
                            assert(s0.inner_ok(c as int));
                            assert(s0.nd(ch[i] as int).parent == Some(c));
                        }
                    }
                }
            }
            k = k + 1;
        }
        proof {
            assert(cands@.take(k as int) =~= cands@);
            assert forall|n: int| #[trigger] s0.mergeable(n) implies {
                &&& self.is_leaf(n)
                &&& self.node_children(n) == s0.merged_list(n)
                &&& self.node_bounds(n) == s0.node_bounds(n)
                &&& self.node_parent(n) == s0.node_parent(n)
            } by {
                assert(cands@.contains(n as usize));
                let j = choose|j: int| 0 <= j < cands@.len() && cands@[j] == n as usize;
                assert(cands@[j] as int == n);
            }
            assert forall|n: int|
                s0.live(n) && s0.node_parent(n) is Some && s0.mergeable(s0.node_parent(n)->Some_0 as int)
                    implies !#[trigger] self.live(n) by {
                assert(cands@.contains(s0.nd(n).parent->Some_0));
            }
            assert forall|n: int|
                s0.live(n) && !s0.mergeable(n) && !(s0.node_parent(n) is Some
                    && s0.mergeable(s0.node_parent(n)->Some_0 as int)) implies #[trigger] self.same_node(s0, n) by {
                assert(!cands@.contains(n as usize));
                assert(self.nodes@[n] == s0.nodes@[n]);
            }
            self.lemma_count_same_agents(s0);
        }
    }

    // ---------------------------------------------------------------
    // Accessors
    // ---------------------------------------------------------------
    /// Number of stored agents.
    pub fn len(&self) -> (r: usize)
        requires
            self.wf(),
        ensures
            r == self.agent_count(),
    {
        let mut n: usize = 0;
        let mut h: usize = 0;
        while h < self.agents.len()
            invariant
                h <= self.agents@.len(),
                n == self.count_upto(h as int),
                n <= h,
            decreases self.agents@.len() - h,
        {
            if self.agents[h].is_some() {
                n = n + 1;
            }
            h = h + 1;
        }
        n
    }

    /// The stored agent with handle `id`, if any.
    pub fn get_agent(&self, id: usize) -> (r: Option<&A>)
        ensures
            r is Some <==> self.has_agent(id as int),
            r is Some ==> *r->Some_0 == self.agent(id as int),
    {
        if id >= self.agents.len() {
            return None;
        }
        match &self.agents[id] {
            Some(e) => Some(&e.agent),
            None => None,
        }
    }

    /// Mutable access to the payload of agent `id`; the index itself (the
    /// agent's position and leaf) is left as it is.
    pub fn get_agent_mut(&mut self, id: usize) -> (r: Option<&mut A>)
        requires
            old(self).wf(),
        ensures
            r is Some <==> old(self).has_agent(id as int),
            r is None ==> *final(self) == *old(self),
            r is Some ==> *r->Some_0 == old(self).agent(id as int),
            r is Some ==> final(self).payload_replaced(*old(self), id as int, *final(r->Some_0)),
    {
        if id >= self.agents.len() || self.agents[id].is_none() {
            return None;
        }
        match self.agents[id].as_mut() {
            Some(e) => Some(&mut e.agent),
            None => None,
        }
    }

    /// An index over `bounds` with the default tunables, holding `agents`
    /// under the handles `0, 1, ...` in their order. Every position must
    /// lie in `bounds`.
    pub fn new_with_agents(bounds: Rect, agents: Vec<(A, Vec2D)>) -> (r: Self)
        requires
            bounds.wf(),
            forall|i: int| 0 <= i < agents@.len() ==> bounds.contains_spec(#[trigger] agents@[i].1),
        ensures
            r.wf(),
            r.world() == bounds,
            r.capacity() == 4,
            r.min_width() == 2,
            r.next_handle() == agents@.len(),
            forall|h: int| #[trigger] r.has_agent(h) <==> 0 <= h < agents@.len(),
            forall|h: int| 0 <= h < agents@.len() ==> #[trigger] r.agent_pos(h) == agents@[h].1 && r.agent(h) == agents@[h].0,
    {
        let mut t = Self::new(bounds);
        let mut rest = agents;
        let n = rest.len();
        let mut i: usize = 0;
        while i < n
            invariant
                t.wf(),
                t.world() == bounds,
                t.capacity() == 4,
                t.min_width() == 2,
                i <= n,
                n == agents@.len(),
                rest@ == agents@.skip(i as int),
                t.next_handle() == i,
                forall|i: int| 0 <= i < agents@.len() ==> bounds.contains_spec(#[trigger] agents@[i].1),
                forall|h: int| #[trigger] t.has_agent(h) <==> 0 <= h < i,
                forall|h: int| 0 <= h < i ==> #[trigger] t.agent_pos(h) == agents@[h].1 && t.agent(h) == agents@[h].0,
            decreases n - i,
        {
            let (a, p) = rest.remove(0);
            proof {
                assert(agents@[i as int] == (a, p));
                assert(rest@ =~= agents@.skip(i as int + 1));
            }
            let ghost t0 = t;
            let h = t.add_agent(a, p);
            proof {
                assert forall|g: int| #[trigger] t.has_agent(g) <==> 0 <= g < i + 1 by {
                    assert(t.contents().dom().contains(g) == t0.contents().insert(i as int, (p, a)).dom().contains(g));
                }
                assert forall|g: int| 0 <= g < i + 1 implies #[trigger] t.agent_pos(g) == agents@[g].1 && t.agent(g) == agents@[g].0 by {
                    assert(t.contents()[g] == t0.contents().insert(i as int, (p, a))[g]);
                    if g < i {
                        assert(t0.has_agent(g));
                    }
                }
            }
            i = i + 1;
        }
        t
    }

    /// Handles of all stored agents, in increasing order.
    pub fn get_agent_ids(&self) -> (r: Vec<usize>)
        ensures
            forall|i: int, j: int| 0 <= i < j < r@.len() ==> r@[i] < r@[j],
            forall|h: usize| #[trigger] r@.contains(h) <==> self.has_agent(h as int),
    {
        let mut r: Vec<usize> = Vec::new();
        let mut h: usize = 0;
        while h < self.agents.len()
            invariant
                h <= self.agents@.len(),
                forall|i: int, j: int| 0 <= i < j < r@.len() ==> r@[i] < r@[j],
                forall|i: int| 0 <= i < r@.len() ==> r@[i] < h,
                forall|g: usize| #[trigger] r@.contains(g) <==> g < h && self.has_agent(g as int),
            decreases self.agents@.len() - h,
        {
            proof {
                lemma_push_contains(r@, h);
            }
            if self.agents[h].is_some() {
                r.push(h);
            }
            h = h + 1;
        }
        r
    }

    /// Position of agent `id`, if it is stored.
    pub fn get_agent_pos(&self, id: usize) -> (r: Option<Vec2D>)
        ensures
            r is Some <==> self.has_agent(id as int),
            r is Some ==> r->Some_0 == self.agent_pos(id as int),
    {
        if id >= self.agents.len() {
            return None;
        }
        match &self.agents[id] {
            Some(e) => Some(e.pos),
            None => None,
        }
    }

    /// Id of the leaf that holds agent `id`, if it is stored.
    pub fn get_node_for_agent(&self, id: usize) -> (r: Option<usize>)
        ensures
            r is Some <==> self.has_agent(id as int),
            r is Some ==> r->Some_0 as int == self.owner(id as int),
    {
        if id >= self.agents.len() {
            return None;
        }
        match &self.agents[id] {
            Some(e) => Some(e.leaf),
            None => None,
        }
    }

    /// Rectangle of node `id`, if that node exists.
    pub fn get_node_bounds(&self, id: usize) -> (r: Option<Rect>)
        ensures
            r is Some <==> self.live(id as int),
            r is Some ==> r->Some_0 == self.node_bounds(id as int),
    {
        if id >= self.nodes.len() {
            return None;
        }
        match &self.nodes[id] {
            Some(n) => Some(n.bounds),
            None => None,
        }
    }

    /// Handles held by node `id`, if it is a leaf.
    pub fn get_leaf_agents(&self, id: usize) -> (r: Option<&Vec<usize>>)
        ensures
            r is Some <==> self.is_leaf(id as int),
            r is Some ==> r->Some_0@ == self.node_children(id as int),
    {
        if id >= self.nodes.len() {
            return None;
        }
        match &self.nodes[id] {
            Some(n) => {
                if n.typ == NodeType::Leaf {
                    Some(&n.children)
                } else {
                    None
                }
            },
            None => None,
        }
    }

    /// Ids of all nodes in use, leaves and inner nodes, in increasing order.
    pub fn get_node_ids(&self) -> (r: Vec<usize>)
        ensures
            forall|i: int, j: int| 0 <= i < j < r@.len() ==> r@[i] < r@[j],
            forall|n: usize| #[trigger] r@.contains(n) <==> self.live(n as int),
    {
        let mut r: Vec<usize> = Vec::new();
        let mut n: usize = 0;
        while n < self.nodes.len()
            invariant
                n <= self.nodes@.len(),
                forall|i: int, j: int| 0 <= i < j < r@.len() ==> r@[i] < r@[j],
                forall|i: int| 0 <= i < r@.len() ==> r@[i] < n,
                forall|g: usize| #[trigger] r@.contains(g) <==> g < n && self.live(g as int),
            decreases self.nodes@.len() - n,
        {
            proof {
                lemma_push_contains(r@, n);
            }
            if self.nodes[n].is_some() {
                r.push(n);
            }
            n = n + 1;
        }
        r
    }

    /// The stored payloads, in increasing order of handle.
    pub fn iter(&self) -> (r: Vec<&A>)
        ensures
            r@.len() == self.payloads().len(),
            forall|i: int| 0 <= i < r@.len() ==> *(#[trigger] r@[i]) == self.payloads()[i],
    {
        let mut r: Vec<&A> = Vec::new();
        let mut h: usize = 0;
        while h < self.agents.len()
            invariant
                h <= self.agents@.len(),
                r@.len() == self.payloads_upto(h as int).len(),
                forall|i: int| 0 <= i < r@.len() ==> *(#[trigger] r@[i]) == self.payloads_upto(h as int)[i],
            decreases self.agents@.len() - h,
        {
            match &self.agents[h] {
                Some(e) => {
                    r.push(&e.agent);
                },
                None => {},
            }
            h = h + 1;
        }
        r
    }

    /// The handle that the next insertion gives out; every handle ever
    /// given out lies below it.
    pub fn next_agent_id(&self) -> (r: usize)
        ensures
            r == self.next_handle(),
    {
        self.agents.len()
    }

    /// Number of slots of the node table.
    pub fn node_table_len(&self) -> (r: usize)
        ensures
            r == self.table_len(),
            forall|n: int| #[trigger] self.live(n) ==> 0 <= n < r,
    {
        self.nodes.len()
    }

    /// The world rectangle.
    pub fn bounds(&self) -> (r: Rect)
        ensures
            r == self.world(),
    {
        self.bounds
    }

    // ---------------------------------------------------------------
    // Laws
    // ---------------------------------------------------------------
    /// Owner consistency: the owner of every stored agent is a leaf whose
    /// list holds the agent, and every handle in a leaf's list is a stored
    /// agent owned by that leaf. Every operation keeps `wf`, so this holds
    /// after any sequence of them.
    pub proof fn lemma_owner_consistent(self)
        requires
            self.wf(),
        ensures
            forall|h: int|
                #[trigger] self.has_agent(h) ==> self.is_leaf(self.owner(h)) && self.node_children(self.owner(h)).contains(h as usize),
            forall|l: int, k: int|
                self.is_leaf(l) && 0 <= k < self.node_children(l).len() ==> self.has_agent(#[trigger] self.node_children(l)[k] as int)
                    && self.owner(self.node_children(l)[k] as int) == l,
            forall|l: int| #[trigger] self.is_leaf(l) ==> self.node_children(l).no_duplicates(),
    {
        assert forall|l: int| #[trigger] self.is_leaf(l) implies self.node_children(l).no_duplicates() by {
            assert(self.node_ok(l));
        }
        assert forall|h: int| #[trigger] self.has_agent(h) implies self.is_leaf(self.owner(h)) && self.node_children(self.owner(h)).contains(h as usize) by {
            assert(self.agent_ok(h));
        }
        assert forall|l: int, k: int|
            self.is_leaf(l) && 0 <= k < self.node_children(l).len() implies self.has_agent(#[trigger] self.node_children(l)[k] as int)
                && self.owner(self.node_children(l)[k] as int) == l by {
            assert(self.node_ok(l));
            assert(self.leaf_ok(l));
            assert(self.nd(l).children@[k] == self.node_children(l)[k]);
        }
    }

    /// The links between nodes, and what a leaf's rectangle holds: a leaf
    /// or inner node is in use; the root has no parent and spans the world;
    /// every other node names an inner parent that lists it; an inner node
    /// has four distinct children in use, one per quarter of its rectangle,
    /// each naming it as parent; and every agent of a leaf lies in the
    /// leaf's rectangle.
    pub proof fn lemma_links(self)
        requires
            self.wf(),
        ensures
            forall|n: int| #[trigger] self.is_leaf(n) ==> self.live(n) && !self.is_inner(n),
            forall|n: int| #[trigger] self.is_inner(n) ==> self.live(n),
            forall|n: int| #[trigger] self.live(n) ==> self.is_leaf(n) || self.is_inner(n),
            self.is_leaf(0) || self.is_inner(0),
            self.node_parent(0) is None,
            self.node_bounds(0) == self.world(),
            forall|n: int|
                #[trigger] self.live(n) && n != 0 ==> {
                    &&& self.node_parent(n) is Some
                    &&& self.is_inner(self.node_parent(n)->Some_0 as int)
                    &&& self.node_children(self.node_parent(n)->Some_0 as int).contains(n as usize)
                },
            forall|n: int, i: int|
                #[trigger] self.is_inner(n) && 0 <= i < 4 ==> {
                    let c = #[trigger] self.node_children(n)[i] as int;
                    &&& self.node_children(n).len() == 4
                    &&& self.node_children(n).no_duplicates()
                    &&& self.live(c)
                    &&& self.node_parent(c) == Some(n as usize)
                    &&& self.node_bounds(c) == self.node_bounds(n).quarter_spec(i)
                },
            forall|l: int, k: int|
                #[trigger] self.is_leaf(l) && 0 <= k < self.node_children(l).len() ==> self.node_bounds(l).contains_spec(
                    self.agent_pos(#[trigger] self.node_children(l)[k] as int),
                ),
    {
        assert(self.node_ok(0));
        assert forall|n: int| #[trigger] self.live(n) && n != 0 implies {
            &&& self.node_parent(n) is Some
            &&& self.is_inner(self.node_parent(n)->Some_0 as int)
            &&& self.node_children(self.node_parent(n)->Some_0 as int).contains(n as usize)
        } by {
            assert(self.node_ok(n));
        }
        assert forall|n: int, i: int| #[trigger] self.is_inner(n) && 0 <= i < 4 implies {
            let c = #[trigger] self.node_children(n)[i] as int;
            &&& self.node_children(n).len() == 4
            &&& self.node_children(n).no_duplicates()
            &&& self.live(c)
            &&& self.node_parent(c) == Some(n as usize)
            &&& self.node_bounds(c) == self.node_bounds(n).quarter_spec(i)
        } by {
            assert(self.node_ok(n));
            assert(self.inner_ok(n));
            assert(self.nd(n).children@[i] == self.node_children(n)[i]);
        }
        assert forall|l: int, k: int|
            #[trigger] self.is_leaf(l) && 0 <= k < self.node_children(l).len() implies self.node_bounds(l).contains_spec(
                self.agent_pos(#[trigger] self.node_children(l)[k] as int),
            ) by {
            assert(self.node_ok(l));
            assert(self.leaf_ok(l));
            assert(self.nd(l).children@[k] == self.node_children(l)[k]);
        }
    }

    /// The free stack holds, once each, exactly the unused ids below the
    /// table's length; the root's id is never among them.
    pub proof fn lemma_free_slots(self)
        requires
            self.wf(),
        ensures
            self.free_ids().no_duplicates(),
            forall|k: int|
                0 <= k < self.free_ids().len() ==> 0 < #[trigger] self.free_ids()[k] < self.table_len() && !self.live(
                    self.free_ids()[k] as int,
                ),
            forall|n: int| 0 <= n < self.table_len() && !#[trigger] self.live(n) ==> self.free_ids().contains(n as usize),
    {
        assert forall|n: int| 0 <= n < self.table_len() && !#[trigger] self.live(n) implies self.free_ids().contains(n as usize) by {
            assert(self.nodes@[n] is None);
        }
    }

    /// Handles are given out in increasing order, so every stored agent's
    /// handle lies below the next one.
    pub proof fn lemma_handle_below_next(self, h: int)
        requires
            self.has_agent(h),
        ensures
            0 <= h < self.next_handle(),
    {
    }

    /// Every node's rectangle lies inside the world.
    pub proof fn lemma_bounds_within_world(self, n: int)
        requires
            self.wf(),
            self.live(n),
        ensures
            self.node_bounds(n).within(self.world()),
    {
        assert(self.node_ok(n));
        assert(self.node_ok(0));
        if n != 0 {
            assert(self.paths@[n][0] == 0);
        }
    }

    /// A split shares the handles out without loss or repetition: a handle
    /// is in the list of exactly one of the four children iff it was in
    /// the split list.
    pub proof fn lemma_split_partition(self, l: int, list: Seq<usize>)
        requires
            self.holds_split(l, list),
        ensures
            forall|h: usize|
                #[trigger] list.contains(h) <==> exists|i: int| 0 <= i < 4 && #[trigger] self.node_children(self.node_children(l)[i] as int).contains(h),
            forall|i: int, j: int, h: usize|
                0 <= i < 4 && 0 <= j < 4 && i != j && #[trigger] self.node_children(self.node_children(l)[i] as int).contains(h)
                    ==> !#[trigger] self.node_children(self.node_children(l)[j] as int).contains(h),
            forall|i: int| 0 <= i < 4 ==> #[trigger] self.node_children(self.node_children(l)[i] as int).no_duplicates(),
    {
        assert forall|h: usize| #[trigger] list.contains(h) implies exists|i: int| 0 <= i < 4 && #[trigger] self.node_children(self.node_children(l)[i] as int).contains(h) by {
            let q = self.node_bounds(l).quadrant_spec(self.agent_pos(h as int));
            assert(0 <= q < 4);
            assert(self.node_children(self.node_children(l)[q] as int).contains(h));
        }
    }

    /// A leaf no wider than the minimal width is never split: whatever the
    /// number of handles placed in it, it stays a leaf holding them.
    pub proof fn lemma_split_floor(self, old: Self, l: int, list: Seq<usize>, o: int)
        requires
            self.placed(old, l, list, o),
            old.node_bounds(l).width_spec() <= old.min_width(),
        ensures
            self.is_leaf(l),
            self.node_children(l) == list,
    {
    }

}

} // verus!

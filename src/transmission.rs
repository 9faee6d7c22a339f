//! One round of transmission between neighbouring agents.
use vstd::prelude::*;
use vstd::set_lib::{lemma_int_range, lemma_len_subset, set_int_range};
use crate::agent::{ContactGraph, ContactNode, Status};
use crate::geometry::{Rect, Vec2D};
use crate::quadtree::Quadtree;

verus! {

/// The square of side `reach` (rounded down to even) centred on `c`, or
/// `None` when it does not fit the coordinate range.
pub open spec fn reach_box(c: Vec2D, reach: int) -> Option<Rect> {
    let half = reach / 2;
    if i32::MIN <= c.x - half && c.x + half <= i32::MAX && i32::MIN <= c.y - half && c.y + half <= i32::MAX {
        Some(
            Rect {
                bl: Vec2D { x: (c.x - half) as i32, y: (c.y - half) as i32 },
                tr: Vec2D { x: (c.x + half) as i32, y: (c.y + half) as i32 },
            },
        )
    } else {
        None
    }
}

/// Agent `g` is infectious and agent `h` sits in a leaf that meets the
/// square of side `reach` around `g`.
pub open spec fn catches<A>(tree: Quadtree<A>, statuses: Seq<Status>, reach: int, g: int, h: int) -> bool {
    &&& tree.has_agent(g)
    &&& statuses[g] is Infectious
    &&& reach_box(tree.agent_pos(g), reach) is Some
    &&& tree.has_agent(h)
    &&& tree.node_bounds(tree.owner(h)).intersects_spec(reach_box(tree.agent_pos(g), reach)->Some_0)
}

/// The statuses after one round: a susceptible agent caught by some
/// infectious agent is exposed, with its clock at zero.
pub open spec fn after_spread<A>(tree: Quadtree<A>, statuses: Seq<Status>, reach: int) -> Seq<Status> {
    Seq::new(
        statuses.len(),
        |h: int|
            if statuses[h] is Susceptible && exists|g: int| #[trigger] catches(tree, statuses, reach, g, h) {
                Status::Exposed(0)
            } else {
                statuses[h]
            },
    )
}

/// The statuses part-way through a round, once the infectious agents among
/// `sources` and, for `g`, the handles in `seen` have been dealt with.
spec fn partial_spread<A>(
    tree: Quadtree<A>,
    statuses: Seq<Status>,
    reach: int,
    sources: Seq<usize>,
    g: int,
    seen: Seq<usize>,
) -> Seq<Status> {
    Seq::new(
        statuses.len(),
        |h: int|
            if statuses[h] is Susceptible && ((exists|i: int|
                0 <= i < sources.len() && #[trigger] catches(tree, statuses, reach, sources[i] as int, h)) || (catches(
                tree,
                statuses,
                reach,
                g,
                h,
            ) && seen.contains(h as usize))) {
                Status::Exposed(0)
            } else {
                statuses[h]
            },
    )
}

/// The contact node of infecting agent `g` in a table of latest nodes, if
/// it has one.
pub open spec fn source_node(table: Map<usize, usize>, g: int) -> Option<usize> {
    if table.contains_key(g as usize) {
        Some(table[g as usize])
    } else {
        None
    }
}

/// The contact node `node`, with index `j`, records an agent that some
/// infectious agent `g` caught, with `g`'s node in `table` as its source.
pub open spec fn records_exposure<A>(
    tree: Quadtree<A>,
    statuses: Seq<Status>,
    reach: int,
    table: Map<usize, usize>,
    node: ContactNode,
    j: int,
) -> bool {
    &&& node.index_spec() == j
    &&& exists|g: int| #[trigger] catches(tree, statuses, reach, g, node.agent_id_spec() as int) && node.parent_spec() == source_node(table, g)
}

/// The handles whose status differs between `a` and `b`.
pub open spec fn changed(a: Seq<Status>, b: Seq<Status>) -> Set<int> {
    Set::new(|h: int| 0 <= h < a.len() && a[h] != b[h])
}

/// What the contact graph holds part-way through a round: the old nodes
/// keep their index, agent and source, `r` new ones each record a distinct
/// agent of `flipped`, and the table is unchanged outside `flipped`.
spec fn contacts_ok<A>(
    cn: ContactGraph,
    c0: ContactGraph,
    tree: Quadtree<A>,
    s0: Seq<Status>,
    reach: int,
    flipped: Set<int>,
    r: int,
) -> bool {
    let n0 = c0.nodes_spec().len();
    &&& cn.nodes_spec().len() == n0 + r
    &&& forall|a: usize|
        !flipped.contains(a as int) ==> (#[trigger] cn.table().contains_key(a)) == c0.table().contains_key(a) && (
        c0.table().contains_key(a) ==> cn.table()[a] == c0.table()[a])
    &&& forall|j: int|
        0 <= j < n0 ==> {
            &&& (#[trigger] cn.nodes_spec()[j]).index_spec() == c0.nodes_spec()[j].index_spec()
            &&& cn.nodes_spec()[j].agent_id_spec() == c0.nodes_spec()[j].agent_id_spec()
            &&& cn.nodes_spec()[j].parent_spec() == c0.nodes_spec()[j].parent_spec()
        }
    &&& forall|j: int|
        n0 <= j < n0 + r ==> records_exposure(tree, s0, reach, c0.table(), #[trigger] cn.nodes_spec()[j], j)
            && flipped.contains(cn.nodes_spec()[j].agent_id_spec() as int)
    &&& forall|j1: int, j2: int|
        n0 <= j1 < n0 + r && n0 <= j2 < n0 + r && j1 != j2 ==> (#[trigger] cn.nodes_spec()[j1]).agent_id_spec()
            != (#[trigger] cn.nodes_spec()[j2]).agent_id_spec()
}

/// The square of side `reach` around `c`, if it fits.
fn reach_box_of(c: Vec2D, reach: i32) -> (r: Option<Rect>)
    requires
        reach >= 0,
    ensures
        r == reach_box(c, reach as int),
{
    let half = (reach / 2) as i64;
    let (x, y) = (c.x as i64, c.y as i64);
    if x - half >= i32::MIN as i64 && x + half <= i32::MAX as i64 && y - half >= i32::MIN as i64 && y + half
        <= i32::MAX as i64 {
        Some(Rect::new_centered(c, Vec2D::new(reach, reach)))
    } else {
        None
    }
}

/// One round of transmission. `statuses[h]` is the state of agent `h`.
/// For each infectious agent, in handle order, every susceptible agent
/// held by a leaf that meets the square of side `reach` around it becomes
/// exposed, and the contact graph gets a node for it whose source is the
/// node of that infectious agent. Matching is by leaf, so an agent somewhat
/// beyond the square may be caught too. Returns the number of agents
/// exposed.
pub fn spread_infection<A>(tree: &Quadtree<A>, statuses: &mut Vec<Status>, contacts: &mut ContactGraph, reach: i32) -> (r: usize)
    requires
        tree.wf(),
        old(contacts).wf(),
        old(statuses)@.len() == tree.next_handle(),
        old(contacts).nodes_spec().len() + old(statuses)@.len() < usize::MAX,
        reach >= 0,
    ensures
        final(statuses)@ == after_spread(*tree, old(statuses)@, reach as int),
        final(contacts).wf(),
        final(contacts).nodes_spec().len() == old(contacts).nodes_spec().len() + r,
        r <= old(statuses)@.len(),
        r == changed(old(statuses)@, final(statuses)@).len(),
        forall|j: int|
            0 <= j < old(contacts).nodes_spec().len() ==> {
                &&& (#[trigger] final(contacts).nodes_spec()[j]).index_spec() == old(contacts).nodes_spec()[j].index_spec()
                &&& final(contacts).nodes_spec()[j].agent_id_spec() == old(contacts).nodes_spec()[j].agent_id_spec()
                &&& final(contacts).nodes_spec()[j].parent_spec() == old(contacts).nodes_spec()[j].parent_spec()
            },
        forall|j: int|
            old(contacts).nodes_spec().len() <= j < final(contacts).nodes_spec().len() ==> {
                let a = (#[trigger] final(contacts).nodes_spec()[j]).agent_id_spec() as int;
                &&& records_exposure(*tree, old(statuses)@, reach as int, old(contacts).table(), final(contacts).nodes_spec()[j], j)
                &&& changed(old(statuses)@, final(statuses)@).contains(a)
            },
        forall|j1: int, j2: int|
            old(contacts).nodes_spec().len() <= j1 < final(contacts).nodes_spec().len() && old(contacts).nodes_spec().len()
                <= j2 < final(contacts).nodes_spec().len() && j1 != j2 ==> (#[trigger] final(contacts).nodes_spec()[j1]).agent_id_spec()
                != (#[trigger] final(contacts).nodes_spec()[j2]).agent_id_spec(),
{
    let ghost s0 = statuses@;
    let ghost c0 = *contacts;
    let ghost n0 = contacts.nodes_spec().len();
    let ids = tree.get_agent_ids();
    let mut r: usize = 0;
    let ghost mut flipped: Set<int> = Set::empty();
    let mut k: usize = 0;
    proof {
        assert(statuses@ =~= partial_spread(*tree, s0, reach as int, ids@.take(0), -1, Seq::empty()));
    }
    while k < ids.len()
        invariant
            tree.wf(),
            contacts.wf(),
            k <= ids@.len(),
            reach >= 0,
            statuses@.len() == s0.len(),
            s0.len() == tree.next_handle(),
            forall|h: usize| #[trigger] ids@.contains(h) <==> tree.has_agent(h as int),
            statuses@ == partial_spread(*tree, s0, reach as int, ids@.take(k as int), -1, Seq::empty()),
            flipped.finite(),
            flipped.len() == r,
            forall|h: int| #[trigger] flipped.contains(h) <==> 0 <= h < s0.len() && statuses@[h] != s0[h],
            contacts.nodes_spec().len() == n0 + r,
            n0 == c0.nodes_spec().len(),
            contacts_ok(*contacts, c0, *tree, s0, reach as int, flipped, r as int),
            n0 + s0.len() < usize::MAX,
        decreases ids@.len() - k,
    {
        let g = ids[k];
        let ghost done = ids@.take(k as int);
        proof {
            assert(ids@.take(k as int + 1) =~= done.push(g));
            assert(ids@.contains(g));
            tree.lemma_handle_below_next(g as int);
        }
        let mut caught = false;
        if statuses[g].is_infectious() {
            let c = tree.get_agent_pos(g).unwrap();
            match reach_box_of(c, reach) {
                Some(b) => {
                    caught = true;
                    let found = tree.find_agents_in_bounds(b);
                    let mut j: usize = 0;
                    proof {
                        assert(s0[g as int] is Infectious) by {
                            if statuses@[g as int] != s0[g as int] {
                                assert(statuses@[g as int] == Status::Exposed(0));
                            }
                        }
                        assert(statuses@ =~= partial_spread(*tree, s0, reach as int, done, g as int, found@.take(0)));
                    }
                    while j < found.len()
                        invariant
                            tree.wf(),
                            contacts.wf(),
                            j <= found@.len(),
                            statuses@.len() == s0.len(),
                            s0.len() == tree.next_handle(),
                            tree.has_agent(g as int),
                            s0[g as int] is Infectious,
                            reach_box(tree.agent_pos(g as int), reach as int) == Some(b),
                            forall|h: usize|
                                #[trigger] found@.contains(h) <==> tree.has_agent(h as int) && tree.node_bounds(
                                    tree.owner(h as int),
                                ).intersects_spec(b),
                            statuses@ == partial_spread(*tree, s0, reach as int, done, g as int, found@.take(j as int)),
                            flipped.finite(),
                            flipped.len() == r,
                            forall|h: int| #[trigger] flipped.contains(h) <==> 0 <= h < s0.len() && statuses@[h] != s0[h],
                            contacts.nodes_spec().len() == n0 + r,
                            n0 == c0.nodes_spec().len(),
                            contacts_ok(*contacts, c0, *tree, s0, reach as int, flipped, r as int),
                            statuses@[g as int] == s0[g as int],
                            (g as int) < s0.len(),
            n0 == c0.nodes_spec().len(),
            contacts_ok(*contacts, c0, *tree, s0, reach as int, flipped, r as int),
                            n0 + s0.len() < usize::MAX,
                        decreases found@.len() - j,
                    {
                        let h = found[j];
                        let ghost seen = found@.take(j as int);
                        proof {
                            assert(found@.take(j as int + 1) =~= seen.push(h));
                            assert(found@.contains(h));
                            assert(tree.has_agent(h as int));
                            tree.lemma_handle_below_next(h as int);
                        }
                        if statuses[h].is_susceptible() {
                            let ghost before = statuses@;
                            let ghost fb = flipped;
                            statuses.set(h, Status::Exposed(0));
                            proof {
                                assert(before[g as int] == s0[g as int]);
                                assert(h != g);
                                assert(statuses@[g as int] == before[g as int]);
                                assert(!flipped.contains(h as int));
                                flipped = flipped.insert(h as int);
                                assert(flipped.subset_of(set_int_range(0, s0.len() as int)));
                                lemma_int_range(0, s0.len() as int);
                                lemma_len_subset(flipped, set_int_range(0, s0.len() as int));
                                assert forall|x: int| #[trigger] flipped.contains(x) <==> 0 <= x < s0.len() && statuses@[x] != s0[x] by {
                                    if x != h as int && 0 <= x < s0.len() {
                                        assert(statuses@[x] == before[x]);
                                    }
                                }
                            }
                            let ghost cb = *contacts;
                            let ghost rb = r as int;
                            contacts.add_node(h, Some(g));
                            r = r + 1;
                            proof {
                                assert(!flipped.contains(g as int));
                                assert(cb.table().contains_key(g) == c0.table().contains_key(g));
                                assert(catches(*tree, s0, reach as int, g as int, h as int));
                                let cn = *contacts;
                                let nn = cn.nodes_spec()[n0 + rb];
                                assert(nn.parent_spec() == source_node(c0.table(), g as int));
                                assert(records_exposure(*tree, s0, reach as int, c0.table(), nn, n0 + rb));
                                assert forall|a: usize| !flipped.contains(a as int) implies (#[trigger] cn.table().contains_key(a)) == c0.table().contains_key(a) && (
                                    c0.table().contains_key(a) ==> cn.table()[a] == c0.table()[a]) by {
                                    assert(a != h);
                                    assert(!fb.contains(a as int));
                                    assert(cb.table().contains_key(a) == c0.table().contains_key(a));
                                    assert(cn.table() == cb.table().insert(h, (n0 + rb) as usize));
                                }
                                assert forall|j: int| 0 <= j < n0 implies {
                                    &&& (#[trigger] cn.nodes_spec()[j]).index_spec() == c0.nodes_spec()[j].index_spec()
                                    &&& cn.nodes_spec()[j].agent_id_spec() == c0.nodes_spec()[j].agent_id_spec()
                                    &&& cn.nodes_spec()[j].parent_spec() == c0.nodes_spec()[j].parent_spec()
                                } by {
                                    assert(cb.nodes_spec()[j].index_spec() == c0.nodes_spec()[j].index_spec());
                                }
                                assert forall|j1: int, j2: int|
                                    n0 <= j1 < n0 + r && n0 <= j2 < n0 + r && j1 != j2 implies (#[trigger] cn.nodes_spec()[j1]).agent_id_spec()
                                        != (#[trigger] cn.nodes_spec()[j2]).agent_id_spec() by {
                                    if j1 < n0 + rb && j2 < n0 + rb {
                                        assert(cb.nodes_spec()[j1].agent_id_spec() != cb.nodes_spec()[j2].agent_id_spec());
                                    } else if j1 < n0 + rb {
                                        assert(fb.contains(cb.nodes_spec()[j1].agent_id_spec() as int));
                                    } else if j2 < n0 + rb {
                                        assert(fb.contains(cb.nodes_spec()[j2].agent_id_spec() as int));
                                    }
                                }
                                assert forall|j: int| n0 <= j < n0 + r implies records_exposure(*tree, s0, reach as int, c0.table(), #[trigger] cn.nodes_spec()[j], j)
                                    && flipped.contains(cn.nodes_spec()[j].agent_id_spec() as int) by {
                                    if j < n0 + rb {
                                        assert(cb.nodes_spec()[j].agent_id_spec() == cn.nodes_spec()[j].agent_id_spec());
                                        assert(cb.nodes_spec()[j].parent_spec() == cn.nodes_spec()[j].parent_spec());
                                        assert(cb.nodes_spec()[j].index_spec() == cn.nodes_spec()[j].index_spec());
                                        assert(records_exposure(*tree, s0, reach as int, c0.table(), cb.nodes_spec()[j], j));
                                        let gg = choose|gg: int| #[trigger] catches(*tree, s0, reach as int, gg, cb.nodes_spec()[j].agent_id_spec() as int)
                                            && cb.nodes_spec()[j].parent_spec() == source_node(c0.table(), gg);
                                        assert(catches(*tree, s0, reach as int, gg, cn.nodes_spec()[j].agent_id_spec() as int));
                                    }
                                }
                            }
                        }
                        proof {
                            let t = partial_spread(*tree, s0, reach as int, done, g as int, seen.push(h));
                            assert forall|x: int| 0 <= x < s0.len() implies statuses@[x] == t[x] by {
                                assert(seen.push(h).contains(x as usize) <==> seen.contains(x as usize) || x == h as int) by {
                                    if seen.push(h).contains(x as usize) {
                                        let i = choose|i: int| 0 <= i < seen.push(h).len() && seen.push(h)[i] == x as usize;
                                        if i < seen.len() {
                                            assert(seen[i] == x as usize);
                                        }
                                    }
                                    if seen.contains(x as usize) {
                                        let i = choose|i: int| 0 <= i < seen.len() && seen[i] == x as usize;
                                        assert(seen.push(h)[i] == x as usize);
                                    }
                                    if x == h as int {
                                        assert(seen.push(h)[seen.len() as int] == h);
                                    }
                                }
                                if x == h as int {
                                    assert(catches(*tree, s0, reach as int, g as int, x));
                                }
                            }
                            assert(statuses@ =~= t);
                        }
                        j = j + 1;
                    }
                    proof {
                        assert(found@.take(found@.len() as int) =~= found@);
                        let t = partial_spread(*tree, s0, reach as int, done.push(g), -1, Seq::empty());
                        assert forall|x: int| 0 <= x < s0.len() implies statuses@[x] == t[x] by {
                            let old_ex = exists|i: int| 0 <= i < done.len() && #[trigger] catches(*tree, s0, reach as int, done[i] as int, x);
                            let new_ex = exists|i: int| 0 <= i < done.push(g).len() && #[trigger] catches(*tree, s0, reach as int, done.push(g)[i] as int, x);
                            if old_ex {
                                let i = choose|i: int| 0 <= i < done.len() && #[trigger] catches(*tree, s0, reach as int, done[i] as int, x);
                                assert(done.push(g)[i] == done[i]);
                            }
                            if new_ex {
                                let i = choose|i: int| 0 <= i < done.push(g).len() && #[trigger] catches(*tree, s0, reach as int, done.push(g)[i] as int, x);
                                if i < done.len() {
                                    assert(done.push(g)[i] == done[i]);
                                }
                            }
                            if catches(*tree, s0, reach as int, g as int, x) {
                                assert(found@.contains(x as usize));
                                assert(catches(*tree, s0, reach as int, done.push(g)[done.len() as int] as int, x));
                            }
                        }
                        assert(statuses@ =~= t);
                    }
                },
                None => {},
            }
        }
        if !caught {
            proof {
                let t = partial_spread(*tree, s0, reach as int, done.push(g), -1, Seq::empty());
                assert(!catches(*tree, s0, reach as int, g as int, 0)) by {
                    if statuses@[g as int] != s0[g as int] {
                        assert(statuses@[g as int] == Status::Exposed(0));
                    }
                }
                assert forall|x: int| 0 <= x < s0.len() implies statuses@[x] == t[x] by {
                    let new_ex = exists|i: int| 0 <= i < done.push(g).len() && #[trigger] catches(*tree, s0, reach as int, done.push(g)[i] as int, x);
                    if new_ex {
                        let i = choose|i: int| 0 <= i < done.push(g).len() && #[trigger] catches(*tree, s0, reach as int, done.push(g)[i] as int, x);
                        if i < done.len() {
                            assert(done.push(g)[i] == done[i]);
                            assert(catches(*tree, s0, reach as int, done[i] as int, x));
                        } else {
                            assert(done.push(g)[i] == g);
                        }
                    }
                    let old_ex = exists|i: int| 0 <= i < done.len() && #[trigger] catches(*tree, s0, reach as int, done[i] as int, x);
                    if old_ex {
                        let i = choose|i: int| 0 <= i < done.len() && #[trigger] catches(*tree, s0, reach as int, done[i] as int, x);
                        assert(done.push(g)[i] == done[i]);
                    }
                }
                assert(statuses@ =~= t);
            }
        }
        k = k + 1;
    }
    proof {
        assert(flipped =~= changed(s0, statuses@));
        assert(flipped.subset_of(set_int_range(0, s0.len() as int)));
        lemma_int_range(0, s0.len() as int);
        lemma_len_subset(flipped, set_int_range(0, s0.len() as int));
        assert(ids@.take(ids@.len() as int) =~= ids@);
        let t = after_spread(*tree, s0, reach as int);
        assert forall|x: int| 0 <= x < s0.len() implies statuses@[x] == t[x] by {
            let ex = exists|g: int| #[trigger] catches(*tree, s0, reach as int, g, x);
            let ex_ids = exists|i: int| 0 <= i < ids@.len() && #[trigger] catches(*tree, s0, reach as int, ids@[i] as int, x);
            if ex {
                let g = choose|g: int| #[trigger] catches(*tree, s0, reach as int, g, x);
                assert(tree.has_agent(g));
                tree.lemma_handle_below_next(g);
                assert(g < s0.len());
                assert(ids@.contains(g as usize));
                let i = choose|i: int| 0 <= i < ids@.len() && ids@[i] == g as usize;
                assert(catches(*tree, s0, reach as int, ids@[i] as int, x));
            }
            if ex_ids {
                let i = choose|i: int| 0 <= i < ids@.len() && #[trigger] catches(*tree, s0, reach as int, ids@[i] as int, x);
                assert(catches(*tree, s0, reach as int, ids@[i] as int, x));
            }
        }
        assert(statuses@ =~= t);
    }
    r
}

} // verus!

use agent_sim::agent::{ContactGraph, Status};
use agent_sim::geometry::{Rect, Vec2D};
use agent_sim::quadtree::Quadtree;
use agent_sim::transmission::spread_infection;

fn world8() -> Rect {
    Rect::new(Vec2D::new(0, 0), Vec2D::new(8, 8))
}

#[test]
fn spread_reaches_whole_leaf() {
    let mut t: Quadtree<u32> = Quadtree::new(world8());
    t.add_agent(0, Vec2D::new(1, 1)).unwrap();
    t.add_agent(1, Vec2D::new(2, 2)).unwrap();
    t.add_agent(2, Vec2D::new(7, 7)).unwrap();
    let mut statuses = vec![Status::Infectious(0), Status::Susceptible, Status::Susceptible];
    let mut contacts = ContactGraph::new();
    let r = spread_infection(&t, &mut statuses, &mut contacts, 2);
    // One leaf holds everyone, so the far agent is caught as well.
    assert_eq!(r, 2);
    assert_eq!(statuses, vec![Status::Infectious(0), Status::Exposed(0), Status::Exposed(0)]);
    assert_eq!(contacts.len(), 2);
    assert_eq!(contacts.node(0).unwrap().agent_id(), 1);
    assert_eq!(contacts.node(1).unwrap().agent_id(), 2);
    // Agent 0 has no node of its own, so no source is recorded.
    assert_eq!(contacts.node(0).unwrap().parent(), None);
    assert_eq!(contacts.node(0).unwrap().index(), 0);
}

#[test]
fn spread_is_limited_to_meeting_leaves() {
    let mut t: Quadtree<u32> = Quadtree::new(world8());
    for (x, y) in [(1, 1), (2, 2), (7, 7), (1, 7), (7, 1)] {
        t.add_agent(0, Vec2D::new(x, y)).unwrap();
    }
    let mut statuses = vec![
        Status::Infectious(5),
        Status::Susceptible,
        Status::Susceptible,
        Status::Recovered,
        Status::Exposed(3),
    ];
    let mut contacts = ContactGraph::new();
    let r = spread_infection(&t, &mut statuses, &mut contacts, 2);
    assert_eq!(r, 1);
    assert_eq!(
        statuses,
        vec![Status::Infectious(5), Status::Exposed(0), Status::Susceptible, Status::Recovered, Status::Exposed(3)]
    );
}

#[test]
fn spread_records_source_in_contact_graph() {
    let mut t: Quadtree<u32> = Quadtree::new(world8());
    t.add_agent(0, Vec2D::new(1, 1)).unwrap();
    t.add_agent(0, Vec2D::new(1, 2)).unwrap();
    let mut contacts = ContactGraph::new();
    contacts.add_node(0, None);
    let mut statuses = vec![Status::Infectious(0), Status::Susceptible];
    assert_eq!(spread_infection(&t, &mut statuses, &mut contacts, 2), 1);
    assert_eq!(contacts.node(1).unwrap().parent(), Some(0));
    assert_eq!(contacts.node(0).unwrap().children(), &vec![1]);
    // Nobody is left to catch it.
    assert_eq!(spread_infection(&t, &mut statuses, &mut contacts, 2), 0);
}

#[test]
fn spread_skips_removed_handles() {
    let mut t: Quadtree<u32> = Quadtree::new(world8());
    t.add_agent(0, Vec2D::new(1, 1)).unwrap();
    t.add_agent(0, Vec2D::new(1, 2)).unwrap();
    t.remove_agent(1).unwrap();
    let mut statuses = vec![Status::Infectious(0), Status::Susceptible];
    let mut contacts = ContactGraph::new();
    assert_eq!(spread_infection(&t, &mut statuses, &mut contacts, 2), 0);
    assert_eq!(statuses[1], Status::Susceptible);
}

use agent_sim::agent::{ContactGraph, Status, Task};
use agent_sim::world::{StructureType, Time};

#[test]
fn status_predicates() {
    assert!(Status::Infectious(3).is_infectious());
    assert!(!Status::Exposed(3).is_infectious());
    assert!(Status::Susceptible.is_susceptible());
    assert!(!Status::Recovered.is_susceptible());
    assert!(Status::Dead.is_dead());
    assert!(!Status::Susceptible.is_dead());
}

#[test]
fn status_advances_with_time() {
    assert_eq!(Status::Exposed(10).advanced(5), Status::Exposed(15));
    assert_eq!(Status::Exposed(21 * 86400).advanced(1), Status::Exposed(21 * 86400 + 1));
    assert_eq!(Status::Exposed(21 * 86400 + 1).advanced(1), Status::Infectious(0));
    assert_eq!(Status::Infectious(28 * 86400 + 1).advanced(1), Status::Recovered);
    assert_eq!(Status::Infectious(0).advanced(86400), Status::Infectious(86400));
    assert_eq!(Status::Susceptible.advanced(86400), Status::Susceptible);
    assert_eq!(Status::Dead.advanced(86400), Status::Dead);
}

#[test]
fn task_cycle() {
    assert_eq!(Task::Home.next(), Task::Work);
    assert_eq!(Task::Work.next(), Task::Home);
    assert_eq!(Task::School.next(), Task::Home);
    assert_eq!(Task::Idle.next(), Task::Idle);
}

#[test]
fn contact_graph_links_parent() {
    let mut g = ContactGraph::new();
    assert_eq!(g.len(), 0);
    g.add_node(7, None);
    g.add_node(9, Some(7));
    g.add_node(11, Some(42));
    assert_eq!(g.len(), 3);
    let root = g.node(0).unwrap();
    assert_eq!(root.agent_id(), 7);
    assert_eq!(root.parent(), None);
    assert_eq!(root.children(), &vec![1]);
    assert_eq!(root.get_degree(), 1);
    let child = g.node(1).unwrap();
    assert_eq!(child.index(), 1);
    assert_eq!(child.parent(), Some(0));
    assert_eq!(child.get_degree(), 1);
    let orphan = g.node(2).unwrap();
    assert_eq!(orphan.parent(), None);
    assert_eq!(orphan.get_degree(), 0);
    assert!(g.node(3).is_none());
}

#[test]
fn contact_graph_uses_latest_node_of_parent() {
    let mut g = ContactGraph::new();
    g.add_node(1, None);
    g.add_node(2, Some(1));
    g.add_node(1, Some(2));
    g.add_node(3, Some(1));
    assert_eq!(g.node(3).unwrap().parent(), Some(2));
    assert_eq!(g.node(2).unwrap().children(), &vec![3]);
    assert_eq!(g.node(1).unwrap().get_degree(), 2);
}

#[test]
fn time_advances_and_wraps() {
    let mut t = Time::new();
    assert_eq!((t.day_of_week, t.abs_time, t.day_time), (0, 0, 0));
    t.advance(3600);
    assert_eq!((t.day_of_week, t.abs_time, t.day_time), (0, 3600, 3600));
    t.advance(86400);
    assert_eq!((t.day_of_week, t.abs_time, t.day_time), (1, 90000, 3600));
    for _ in 0..6 {
        t.advance(86400);
    }
    assert_eq!(t.day_of_week, 0);
    assert_eq!(t.day_time, 3600);
}

#[test]
fn structure_letters() {
    assert_eq!(StructureType::Home.letter(), 'H');
    assert_eq!(StructureType::Work.letter(), 'W');
    assert_eq!(StructureType::School.letter(), 'S');
}

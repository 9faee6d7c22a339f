use agent_sim::geometry::{Rect, Vec2D};
use agent_sim::quadtree::Quadtree;

fn world8() -> Rect {
    Rect::new(Vec2D::new(0, 0), Vec2D::new(8, 8))
}

fn rect(x0: i32, y0: i32, x1: i32, y1: i32) -> Rect {
    Rect::new(Vec2D::new(x0, y0), Vec2D::new(x1, y1))
}

fn sorted(mut v: Vec<usize>) -> Vec<usize> {
    v.sort();
    v
}

/// Every stored agent is listed by its owning leaf, and every listed handle
/// maps back to that leaf.
fn assert_owners_consistent(t: &Quadtree<u32>) {
    for h in t.get_agent_ids() {
        let leaf = t.get_node_for_agent(h).unwrap();
        let list = t.get_leaf_agents(leaf).unwrap();
        assert!(list.contains(&h));
        let b = t.get_node_bounds(leaf).unwrap();
        assert!(b.contains(t.get_agent_pos(h).unwrap()));
    }
    for leaf in t.find_leaves_in_bounds(t.get_node_bounds(0).unwrap()) {
        for &h in t.get_leaf_agents(leaf).unwrap().iter() {
            assert_eq!(t.get_node_for_agent(h), Some(leaf));
        }
    }
}

#[test]
fn scenario_a_split_along_quadrants() {
    let mut t: Quadtree<u32> = Quadtree::with_config(world8(), 4, 2);
    let mut handles = Vec::new();
    for y in 1..=5 {
        handles.push(t.add_agent(y as u32, Vec2D::new(1, y)).unwrap());
    }
    assert_eq!(handles, vec![0, 1, 2, 3, 4]);
    // The root split once into four leaves.
    assert!(t.get_leaf_agents(0).is_none());
    let leaves = t.find_leaves_in_bounds(world8());
    assert_eq!(leaves.len(), 4);
    for &l in leaves.iter() {
        assert!(t.get_leaf_agents(l).is_some());
    }
    // y <= 4 lies in the lower-left quarter, y > 4 in the upper-left one.
    let lower_left = t.get_node_for_agent(0).unwrap();
    let upper_left = t.get_node_for_agent(4).unwrap();
    assert_ne!(lower_left, upper_left);
    assert_eq!(t.get_node_bounds(lower_left), Some(rect(0, 0, 4, 4)));
    assert_eq!(t.get_node_bounds(upper_left), Some(rect(0, 4, 4, 8)));
    for h in 0..4 {
        assert_eq!(t.get_node_for_agent(h), Some(lower_left));
    }
    assert_eq!(t.get_node_for_agent(4), Some(upper_left));
    assert_eq!(t.get_leaf_agents(lower_left).unwrap(), &vec![0, 1, 2, 3]);
    assert_eq!(t.get_leaf_agents(upper_left).unwrap(), &vec![4]);
    let low = sorted(t.find_agents_in_bounds(rect(0, 0, 1, 1)));
    assert_eq!(low, vec![0, 1, 2, 3]);
    let high = t.find_agents_in_bounds(rect(0, 6, 1, 7));
    assert_eq!(high, vec![4]);
    // The other two quarters are empty leaves.
    let mut total = 0;
    for &l in leaves.iter() {
        total += t.get_leaf_agents(l).unwrap().len();
    }
    assert_eq!(total, 5);
    assert_owners_consistent(&t);
}

#[test]
fn scenario_b_range_query_over_single_leaf() {
    let mut t: Quadtree<u32> = Quadtree::new(world8());
    for (i, (x, y)) in [(0, 0), (7, 0), (0, 7), (7, 7)].iter().enumerate() {
        assert_eq!(t.add_agent(i as u32, Vec2D::new(*x, *y)), Some(i));
    }
    // Four agents fit the root leaf, so nothing split.
    assert_eq!(t.find_leaves_in_bounds(world8()), vec![0]);
    let q = rect(3, 3, 5, 5);
    let found = sorted(t.find_agents_in_bounds(q));
    // The root leaf meets the query, so all of its agents come back, though
    // none of them lies inside the query.
    assert_eq!(found, vec![0, 1, 2, 3]);
    let exact: Vec<usize> = found
        .into_iter()
        .filter(|h| q.contains(t.get_agent_pos(*h).unwrap()))
        .collect();
    assert!(exact.is_empty());
    // A query that misses every leaf finds nothing.
    assert!(t.find_agents_in_bounds(rect(10, 10, 12, 12)).is_empty());
    assert!(t.find_leaves_in_bounds(rect(10, 10, 12, 12)).is_empty());
}

#[test]
fn range_query_prunes_after_split() {
    let mut t: Quadtree<u32> = Quadtree::new(world8());
    for (i, (x, y)) in [(0, 0), (7, 0), (0, 7), (7, 7), (1, 1)].iter().enumerate() {
        t.add_agent(i as u32, Vec2D::new(*x, *y)).unwrap();
    }
    assert_eq!(t.find_leaves_in_bounds(world8()).len(), 4);
    // Only the lower-left quarter meets this query.
    let found = sorted(t.find_agents_in_bounds(rect(0, 0, 2, 2)));
    assert_eq!(found, vec![0, 4]);
    let leaves = t.find_leaves_in_bounds(rect(0, 0, 2, 2));
    assert_eq!(leaves.len(), 1);
    assert_eq!(t.get_node_bounds(leaves[0]), Some(rect(0, 0, 4, 4)));
}

#[test]
fn scenario_c_clean_joins_and_reuses_slots() {
    let mut t: Quadtree<u32> = Quadtree::new(world8());
    for y in 1..=5 {
        t.add_agent(y as u32, Vec2D::new(1, y)).unwrap();
    }
    let children = sorted(t.find_leaves_in_bounds(world8()));
    assert_eq!(children, vec![1, 2, 3, 4]);
    for h in 0..3 {
        assert_eq!(t.remove_agent(h), Some(h as u32 + 1));
    }
    // Removal alone does not merge.
    assert!(t.get_leaf_agents(0).is_none());
    t.clean_tree();
    // The children's lists, in quadrant order: upper-left, then lower-left.
    assert_eq!(t.get_leaf_agents(0).unwrap(), &vec![4, 3]);
    assert_eq!(t.find_leaves_in_bounds(world8()), vec![0]);
    assert_eq!(t.get_node_for_agent(3), Some(0));
    assert_eq!(t.get_node_for_agent(4), Some(0));
    for id in 1..5 {
        assert!(t.get_node_bounds(id).is_none());
    }
    // Splitting again hands out the freed ids instead of new ones.
    for y in 1..=3 {
        t.add_agent(10 + y as u32, Vec2D::new(6, y)).unwrap();
    }
    let again = sorted(t.find_leaves_in_bounds(world8()));
    assert_eq!(again, vec![1, 2, 3, 4]);
    // The most recently freed id goes to the first quarter (upper-left),
    // and the slot that was cut off the table's end is added back last.
    assert_eq!(t.get_node_for_pos(Vec2D::new(1, 7)), Some(3));
    assert_eq!(t.get_node_for_pos(Vec2D::new(7, 1)), Some(4));
    assert!(t.get_node_bounds(5).is_none());
    assert_owners_consistent(&t);
}

#[test]
fn clean_merges_one_level_per_pass() {
    // Seven agents near the origin split the root and then its lower-left
    // quarter.
    let mut t: Quadtree<u32> = Quadtree::with_config(rect(0, 0, 16, 16), 4, 2);
    let pts = [(1, 1), (1, 2), (2, 1), (2, 2), (3, 3), (1, 3), (3, 1)];
    for (i, (x, y)) in pts.iter().enumerate() {
        t.add_agent(i as u32, Vec2D::new(*x, *y)).unwrap();
    }
    for (i, (x, y)) in [(9, 9), (10, 10)].iter().enumerate() {
        t.add_agent(100 + i as u32, Vec2D::new(*x, *y)).unwrap();
    }
    let before = t.find_leaves_in_bounds(rect(0, 0, 16, 16)).len();
    // Remove all agents but one.
    for h in 1..9 {
        t.remove_agent(h).unwrap();
    }
    t.clean_tree();
    let after_one = t.find_leaves_in_bounds(rect(0, 0, 16, 16)).len();
    assert!(after_one < before);
    // The root only becomes mergeable once its children are merged.
    assert!(t.get_leaf_agents(0).is_none());
    t.clean_tree();
    t.clean_tree();
    assert_eq!(t.find_leaves_in_bounds(rect(0, 0, 16, 16)), vec![0]);
    assert_eq!(t.get_leaf_agents(0).unwrap(), &vec![0]);
    assert_owners_consistent(&t);
}

#[test]
fn split_floor_keeps_narrow_leaf() {
    let mut t: Quadtree<u32> = Quadtree::with_config(rect(0, 0, 2, 2), 4, 2);
    for i in 0..10 {
        t.add_agent(i, Vec2D::new(1, 1)).unwrap();
    }
    assert_eq!(t.find_leaves_in_bounds(rect(0, 0, 2, 2)), vec![0]);
    assert_eq!(t.get_leaf_agents(0).unwrap().len(), 10);
}

#[test]
fn split_happens_just_above_floor() {
    let mut t: Quadtree<u32> = Quadtree::with_config(rect(0, 0, 3, 3), 4, 2);
    for i in 0..5 {
        t.add_agent(i, Vec2D::new(0, 0)).unwrap();
    }
    assert!(t.get_leaf_agents(0).is_none());
    let l = t.get_node_for_agent(0).unwrap();
    assert_eq!(t.get_node_bounds(l), Some(rect(0, 0, 1, 1)));
    assert_eq!(t.get_leaf_agents(l).unwrap().len(), 5);
}

#[test]
fn coincident_agents_stop_at_min_width() {
    let mut t: Quadtree<u32> = Quadtree::with_config(world8(), 4, 2);
    for i in 0..20 {
        t.add_agent(i, Vec2D::new(1, 1)).unwrap();
    }
    let l = t.get_node_for_agent(0).unwrap();
    // 8 -> 4 -> 2: a leaf two units wide no longer splits.
    assert_eq!(t.get_node_bounds(l), Some(rect(0, 0, 2, 2)));
    assert_eq!(t.get_leaf_agents(l).unwrap().len(), 20);
    assert_owners_consistent(&t);
}

#[test]
fn move_keeps_handle_and_updates_owner() {
    let mut t: Quadtree<u32> = Quadtree::new(world8());
    for y in 1..=5 {
        t.add_agent(y as u32, Vec2D::new(1, y)).unwrap();
    }
    let before = t.get_node_for_agent(0).unwrap();
    // Within the same leaf: only the position changes.
    assert_eq!(t.move_agent(0, Vec2D::new(2, 2)), Some(()));
    assert_eq!(t.get_node_for_agent(0), Some(before));
    assert_eq!(t.get_agent_pos(0), Some(Vec2D::new(2, 2)));
    assert_eq!(t.get_leaf_agents(before).unwrap(), &vec![0, 1, 2, 3]);
    // Across the tree: same handle, new leaf.
    assert_eq!(t.move_agent(0, Vec2D::new(7, 7)), Some(()));
    assert_eq!(t.get_agent(0), Some(&1));
    assert_eq!(t.get_agent_pos(0), Some(Vec2D::new(7, 7)));
    let after = t.get_node_for_agent(0).unwrap();
    assert_ne!(after, before);
    assert_eq!(t.get_node_bounds(after), Some(rect(4, 4, 8, 8)));
    assert_eq!(t.get_leaf_agents(before).unwrap(), &vec![1, 2, 3]);
    assert_eq!(t.get_leaf_agents(after).unwrap(), &vec![0]);
    assert_eq!(t.len(), 5);
    assert_owners_consistent(&t);
}

#[test]
fn move_outside_world_fails_and_changes_nothing() {
    let mut t: Quadtree<u32> = Quadtree::new(world8());
    t.add_agent(7, Vec2D::new(1, 1)).unwrap();
    assert_eq!(t.move_agent(0, Vec2D::new(9, 1)), None);
    assert_eq!(t.get_agent_pos(0), Some(Vec2D::new(1, 1)));
    assert_eq!(t.move_agent(5, Vec2D::new(2, 2)), None);
}

#[test]
fn move_into_crowded_leaf_splits_it() {
    let mut t: Quadtree<u32> = Quadtree::new(world8());
    for (i, (x, y)) in [(1, 1), (1, 2), (1, 3), (2, 2)].iter().enumerate() {
        t.add_agent(i as u32, Vec2D::new(*x, *y)).unwrap();
    }
    let far = t.add_agent(9, Vec2D::new(7, 7)).unwrap();
    // Five agents split the root; the lower-left quarter holds four.
    let lower_left = t.get_node_for_agent(0).unwrap();
    assert_eq!(t.get_leaf_agents(lower_left).unwrap().len(), 4);
    // Bringing the far agent there overflows it, so it splits in turn.
    t.move_agent(far, Vec2D::new(2, 1)).unwrap();
    assert!(t.get_leaf_agents(lower_left).is_none());
    let l = t.get_node_for_agent(far).unwrap();
    assert_eq!(t.get_node_bounds(l), Some(rect(2, 0, 4, 2)));
    // (2, 2) lies on both center lines of the split quarter: right and lower.
    assert_eq!(t.get_leaf_agents(l).unwrap(), &vec![3, far]);
    assert_eq!(t.find_leaves_in_bounds(world8()).len(), 7);
    assert_owners_consistent(&t);
}

#[test]
fn add_outside_world_is_refused() {
    let mut t: Quadtree<u32> = Quadtree::new(world8());
    assert_eq!(t.add_agent(1, Vec2D::new(-1, 3)), None);
    assert_eq!(t.add_agent(1, Vec2D::new(3, 9)), None);
    assert_eq!(t.len(), 0);
    // Edges belong to the world.
    assert_eq!(t.add_agent(1, Vec2D::new(8, 8)), Some(0));
    assert_eq!(t.add_agent(2, Vec2D::new(0, 0)), Some(1));
}

#[test]
fn handles_are_never_reused() {
    let mut t: Quadtree<u32> = Quadtree::new(world8());
    assert_eq!(t.add_agent(1, Vec2D::new(1, 1)), Some(0));
    assert_eq!(t.remove_agent(0), Some(1));
    assert_eq!(t.remove_agent(0), None);
    assert_eq!(t.get_agent(0), None);
    assert_eq!(t.add_agent(2, Vec2D::new(1, 1)), Some(1));
    assert_eq!(t.len(), 1);
    assert_eq!(t.get_agent_ids(), vec![1]);
}

#[test]
fn remove_unknown_handle() {
    let mut t: Quadtree<u32> = Quadtree::new(world8());
    assert_eq!(t.remove_agent(3), None);
    assert_eq!(t.get_node_for_agent(3), None);
}

#[test]
fn range_query_is_a_superset() {
    let mut t: Quadtree<u32> = Quadtree::with_config(rect(0, 0, 64, 64), 2, 2);
    let mut x: i32 = 5;
    let mut y: i32 = 11;
    for i in 0..60 {
        x = (x * 17 + 3) % 65;
        y = (y * 29 + 7) % 65;
        t.add_agent(i, Vec2D::new(x, y)).unwrap();
    }
    for h in (0..60).step_by(7) {
        let p = t.get_agent_pos(h).unwrap();
        t.move_agent(h, Vec2D::new((p.x + 13) % 65, (p.y + 31) % 65)).unwrap();
    }
    for h in (0..60).step_by(5) {
        t.remove_agent(h).unwrap();
    }
    t.clean_tree();
    assert_owners_consistent(&t);
    for q in [rect(10, 10, 20, 30), rect(0, 0, 64, 64), rect(30, 0, 31, 64), rect(5, 50, 6, 51)] {
        let found = t.find_agents_in_bounds(q);
        for h in t.get_agent_ids() {
            if q.contains(t.get_agent_pos(h).unwrap()) {
                assert!(found.contains(&h));
            }
        }
        for &h in found.iter() {
            let leaf = t.get_node_for_agent(h).unwrap();
            assert!(t.get_node_bounds(leaf).unwrap().intersects(q));
        }
    }
}

#[test]
fn new_with_agents_numbers_in_order() {
    let t: Quadtree<u32> = Quadtree::new_with_agents(
        world8(),
        vec![(10, Vec2D::new(1, 1)), (20, Vec2D::new(2, 2)), (30, Vec2D::new(7, 7))],
    );
    assert_eq!(t.len(), 3);
    assert_eq!(t.get_agent(0), Some(&10));
    assert_eq!(t.get_agent(2), Some(&30));
    assert_eq!(t.get_agent_pos(1), Some(Vec2D::new(2, 2)));
}

#[test]
fn get_agent_mut_changes_payload_only() {
    let mut t: Quadtree<u32> = Quadtree::new(world8());
    t.add_agent(5, Vec2D::new(3, 3)).unwrap();
    *t.get_agent_mut(0).unwrap() = 6;
    assert_eq!(t.get_agent(0), Some(&6));
    assert_eq!(t.get_agent_pos(0), Some(Vec2D::new(3, 3)));
    assert!(t.get_agent_mut(1).is_none());
}

#[test]
fn node_ids_lists_inner_and_leaves() {
    let mut t: Quadtree<u32> = Quadtree::new(world8());
    assert_eq!(t.get_node_ids(), vec![0]);
    for y in 1..=5 {
        t.add_agent(0, Vec2D::new(1, y)).unwrap();
    }
    assert_eq!(t.get_node_ids(), vec![0, 1, 2, 3, 4]);
}

#[test]
fn get_node_for_pos_descends() {
    let mut t: Quadtree<u32> = Quadtree::new(world8());
    assert_eq!(t.get_node_for_pos(Vec2D::new(3, 3)), Some(0));
    assert_eq!(t.get_node_for_pos(Vec2D::new(9, 3)), None);
    for y in 1..=5 {
        t.add_agent(0, Vec2D::new(1, y)).unwrap();
    }
    let l = t.get_node_for_pos(Vec2D::new(4, 4)).unwrap();
    // A point on both center lines goes to the lower-right quarter.
    assert_eq!(t.get_node_bounds(l), Some(rect(4, 0, 8, 4)));
}

#[test]
fn render_draws_every_leaf() {
    let mut t: Quadtree<u32> = Quadtree::new(world8());
    let empty = t.render_as_svg().to_string();
    assert!(empty.contains("viewBox=\"0 0 8 8\""));
    assert_eq!(empty.matches("<rect").count(), 1);
    for y in 1..=5 {
        t.add_agent(0, Vec2D::new(1, y)).unwrap();
    }
    let drawn = t.render_as_svg().to_string();
    // Only the four leaves are drawn, not the inner root.
    assert_eq!(drawn.matches("<rect").count(), 4);
    assert!(drawn.contains("width=\"4\""));
    assert!(drawn.contains("stroke=\"black\""));
    // The view box gives the world's corner, width and height.
    let u: Quadtree<u32> = Quadtree::new(rect(2, 2, 6, 10));
    assert!(u.render_as_svg().to_string().contains("viewBox=\"2 2 4 8\""));
}

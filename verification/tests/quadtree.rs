use forcefield::{Quadtree, NIL};

/// The tree that the points (0,0), (1,1), (1,1), (3,-2) build over the
/// extent (0,-2)-(4,2): two splits deep for the first pair, the third point
/// chained behind the second, the fourth in an empty quadrant of the root.
fn sample() -> Quadtree {
    let mut t = Quadtree::new();
    t.insert_first(0);
    t.split(NIL, 0, &[2], 3, 0, 1);
    t.push_coincident(3, 3, 2);
    t.attach_leaf(2, 1, 3);
    t
}

#[test]
fn coincident_points_are_counted_once_each() {
    let t = sample();
    assert_eq!(t.size(), 4);
    assert_eq!(t.len(), 6);
    assert_eq!(t.root(), 2);
    let leaf = t.quad(4);
    assert!(leaf.is_leaf());
    assert_eq!((leaf.data, leaf.next), (2, 1));
}

#[test]
fn points_in_visit_order() {
    let t = sample();
    assert_eq!(t.points(), vec![3, 0, 2, 1]);
}

#[test]
fn walks_in_pre_and_post_order() {
    let t = sample();
    let (steps, post) = t.traversal();
    let nodes: Vec<u32> = steps.iter().map(|s| s.node).collect();
    // root 2: child 1 = leaf 5, child 2 = quad 3 (children 0 = leaf 0, 3 = leaf 4)
    assert_eq!(nodes, vec![2, 5, 3, 0, 4]);
    let skips: Vec<usize> = steps.iter().map(|s| s.skip).collect();
    assert_eq!(skips, vec![5, 2, 5, 4, 5]);
    assert_eq!(steps[0].parent, None);
    assert_eq!((steps[2].parent, steps[2].quadrant), (Some(0), 2));
    assert_eq!((steps[4].parent, steps[4].quadrant), (Some(2), 3));
    let post_nodes: Vec<u32> = post.iter().map(|&p| steps[p].node).collect();
    assert_eq!(post_nodes, vec![5, 0, 4, 3, 2]);
}

#[test]
fn grow_puts_the_old_root_below() {
    let mut t = sample();
    t.grow(3);
    assert_eq!(t.root(), 6);
    assert_eq!(t.quad(6).children, [NIL, NIL, NIL, 2]);
    assert_eq!(t.size(), 4);
}

#[test]
fn clear_empties() {
    let mut t = sample();
    t.clear();
    assert_eq!(t.len(), 0);
    assert_eq!(t.root(), NIL);
    assert_eq!(t.size(), 0);
    assert_eq!(t.traversal().0.len(), 0);
}

use super_simple::components::Position;
use super_simple::quadtree::QuadTreeNode;

#[test]
fn out_of_bounds_insert_is_refused() {
    // The world is the 800x800 rectangle centered at the origin; a box
    // poking past an edge must never be accepted silently.
    let mut root = QuadTreeNode::new(Position { x: 0, y: 0 }, 800, 800);
    let r = root.checked_add(0, &Position { x: 395, y: 0 }, 20, 20);
    assert!(r.is_none());
    let r = root.checked_add(0, &Position { x: -500, y: 0 }, 20, 20);
    assert!(r.is_none());
    let r = root.checked_add(0, &Position { x: 0, y: 381 }, 20, 20);
    assert!(r.is_none());
    // The refused insertions left the tree empty.
    assert_eq!(root.get_all_values_within(), Vec::<u64>::new());
    let r = root.checked_add(0, &Position { x: 380, y: 380 }, 20, 20);
    assert!(r.is_some());
}

#[test]
fn insertion_returns_earlier_overlapping_values() {
    let mut root = QuadTreeNode::new(Position { x: 0, y: 0 }, 800, 800);
    // Both boxes straddle the center lines, so both stay at the root.
    let first = root.add(0, &Position { x: 0, y: 0 }, 20, 20);
    assert_eq!(first, vec![0]);
    let second = root.add(1, &Position { x: 10, y: 0 }, 20, 20);
    assert_eq!(second, vec![0, 1]);
    assert_eq!(root.get_all_values_within(), vec![0, 1]);
}

#[test]
fn boxes_route_into_quadrants() {
    let mut root = QuadTreeNode::new(Position { x: 0, y: 0 }, 800, 800);
    // Wholly inside the top-left quadrant: routed into a lazily created
    // child, so the returned candidate list is just the box itself.
    let r = root.add(7, &Position { x: -300, y: -300 }, 20, 20);
    assert_eq!(r, vec![7]);
    assert_eq!(root.get_all_values_within(), vec![7]);
    // A box in the bottom-right quadrant sees nothing from the top-left.
    let r = root.add(8, &Position { x: 100, y: 100 }, 20, 20);
    assert_eq!(r, vec![8]);
    // A center-straddling box is stored at the root and sees everything.
    let r = root.add(9, &Position { x: -10, y: -10 }, 20, 20);
    assert_eq!(r, vec![9, 7, 8]);
}

#[test]
fn display_rects_walks_every_node() {
    let mut root = QuadTreeNode::new(Position { x: 0, y: 0 }, 800, 800);
    assert_eq!(root.display_rects(), vec![(0, 0, 800, 800)]);
    root.add(1, &Position { x: -300, y: -300 }, 20, 20);
    // Pre-order: the root's rectangle, then each lazily created top-left
    // descendant the box was routed through.
    assert_eq!(
        root.display_rects(),
        vec![(0, 0, 800, 800), (-200, -200, 400, 400), (-300, -300, 200, 200)]
    );
}

use rtree_rs::{Data, Node, Rect, MAX_ITEMS, MIN_ITEMS};
use std::cmp::Ordering;

fn leaf(x: i64, y: i64, id: usize) -> Node<2, usize> {
    Node { rect: Rect::new_point([x, y]), data: Data::Item(id) }
}

fn boxed(min: [i64; 2], max: [i64; 2], id: usize) -> Node<2, usize> {
    Node { rect: Rect::new(min, max), data: Data::Item(id) }
}

fn branch(kids: Vec<Node<2, usize>>) -> Node<2, usize> {
    let mut node = Node { rect: Rect::new([0, 0], [0, 0]), data: Data::Nodes(kids) };
    node.recalc();
    node
}

fn ids(node: &Node<2, usize>) -> Vec<usize> {
    let mut out = Vec::new();
    for child in node.nodes().iter() {
        out.push(*child.item());
    }
    out
}

#[test]
fn constants() {
    assert_eq!(MAX_ITEMS, 64);
    assert_eq!(MIN_ITEMS, 6);
}

#[test]
fn new_branch_is_empty() {
    let node: Node<2, usize> = Node::new(Rect::new([1, 2], [3, 4]));
    assert_eq!(node.len(), 0);
    assert_eq!(node.rect, Rect::new([1, 2], [3, 4]));
    assert!(node.nodes().is_empty());
}

#[test]
fn push_appends_and_keeps_the_rectangle() {
    let mut node: Node<2, usize> = Node::new(Rect::new([0, 0], [9, 9]));
    node.push(leaf(1, 1, 10));
    node.push(leaf(2, 2, 20));
    assert_eq!(node.len(), 2);
    assert_eq!(ids(&node), vec![10, 20]);
    assert_eq!(node.rect, Rect::new([0, 0], [9, 9]));
    assert_eq!(*node.nodes()[1].item(), 20);
}

#[test]
fn nodes_mut_changes_the_children_in_place() {
    let mut node: Node<2, usize> = Node::new(Rect::new([0, 0], [9, 9]));
    node.nodes_mut().push(leaf(1, 1, 10));
    node.nodes_mut().push(leaf(2, 2, 20));
    node.nodes_mut().swap_remove(0);
    assert_eq!(ids(&node), vec![20]);
}

#[test]
fn take_nodes_leaves_an_empty_branch() {
    let mut node = branch(vec![leaf(1, 1, 1), leaf(2, 2, 2)]);
    let taken = node.take_nodes();
    assert_eq!(taken.len(), 2);
    assert_eq!(node.len(), 0);
    assert_eq!(node.rect, Rect::new([1, 1], [2, 2]));
}

#[test]
fn recalc_gives_the_tight_bound() {
    let mut node = Node {
        rect: Rect::new([-100, -100], [100, 100]),
        data: Data::Nodes(vec![leaf(3, 4, 1), boxed([1, 6], [2, 9], 2), leaf(5, 0, 3)]),
    };
    node.recalc();
    assert_eq!(node.rect, Rect::new([1, 0], [5, 9]));
    let mut none: Node<2, usize> = Node::new(Rect::new([7, 7], [8, 8]));
    none.recalc();
    assert_eq!(none.rect, Rect::new([7, 7], [8, 8]));
}

#[test]
fn choose_least_enlargement_prefers_less_growth_then_less_area_then_first() {
    let node = branch(vec![
        boxed([0, 0], [10, 10], 0),
        boxed([20, 0], [22, 2], 1),
        boxed([20, 20], [22, 22], 2),
    ]);
    let r = Rect::new_point([15, 1]);
    // child 0 grows from 100 to 150, child 1 from 4 to 14, child 2 from 4 to 147
    assert_eq!(node.choose_least_enlargement(&r), 1);
    // equal growth (0 for both): the smaller area wins
    let two = branch(vec![boxed([0, 0], [10, 10], 0), boxed([4, 4], [6, 6], 1)]);
    assert_eq!(two.choose_least_enlargement(&Rect::new_point([5, 5])), 1);
    // equal growth and equal area: the first wins
    let same = branch(vec![boxed([0, 0], [2, 2], 0), boxed([0, 0], [2, 2], 1)]);
    assert_eq!(same.choose_least_enlargement(&Rect::new_point([1, 1])), 0);
    assert_eq!(same.choose_least_enlargement(&Rect::new_point([9, 9])), 0);
}

#[test]
fn choose_subtree_prefers_the_smallest_container() {
    let node = branch(vec![
        boxed([0, 0], [10, 10], 0),
        boxed([4, 4], [6, 6], 1),
        boxed([4, 4], [6, 6], 2),
        boxed([20, 20], [30, 30], 3),
    ]);
    assert_eq!(node.choose_subtree(&Rect::new_point([5, 5])), 1);
    assert_eq!(node.choose_subtree(&Rect::new_point([1, 1])), 0);
    assert_eq!(node.choose_subtree(&Rect::new_point([25, 25])), 3);
    // no child contains it: least enlargement decides
    assert_eq!(node.choose_subtree(&Rect::new_point([31, 31])), 3);
    assert_eq!(node.choose_subtree(&Rect::new_point([15, 5])), 1);
}

#[test]
fn sort_by_axis_orders_by_lower_bound() {
    let mut node = branch(vec![leaf(5, 0, 5), leaf(1, 9, 1), leaf(3, 3, 3), leaf(2, 7, 2)]);
    node.sort_by_axis(0);
    assert_eq!(ids(&node), vec![1, 2, 3, 5]);
    node.sort_by_axis(1);
    assert_eq!(ids(&node), vec![5, 3, 2, 1]);
    assert_eq!(node.rect, Rect::new([1, 0], [5, 9]));
}

#[test]
fn edge_of_picks_the_bound() {
    let n = boxed([1, 2], [3, 4], 0);
    assert_eq!(n.edge_of(0, false), 1);
    assert_eq!(n.edge_of(1, false), 2);
    assert_eq!(n.edge_of(0, true), 3);
    assert_eq!(n.edge_of(1, true), 4);
}

#[test]
fn order_nodes_follows_the_sort_key() {
    let a = boxed([1, 0], [3, 0], 0);
    let b = boxed([2, 0], [2, 0], 1);
    assert_eq!(Node::order_nodes(&a, &b, 0, false, false), Ordering::Less);
    assert_eq!(Node::order_nodes(&a, &b, 0, false, true), Ordering::Greater);
    assert_eq!(Node::order_nodes(&a, &b, 0, true, false), Ordering::Greater);
    assert_eq!(Node::order_nodes(&a, &b, 0, true, true), Ordering::Less);
    assert_eq!(Node::order_nodes(&a, &a, 0, true, true), Ordering::Equal);
}

#[test]
fn split_snaps_children_to_the_nearer_face() {
    let mut kids = Vec::new();
    for i in 0..64usize {
        kids.push(leaf(i as i64, (i % 3) as i64, i));
    }
    let mut left = branch(kids);
    assert_eq!(left.rect, Rect::new([0, 0], [63, 2]));
    let right = left.split_largest_axis_edge_snap();
    // along x: gap to the lower face x, to the upper face 63 - x; left keeps x < 63 - x
    let mut l = ids(&left);
    let mut r = ids(&right);
    assert_eq!(l, (0..32).collect::<Vec<usize>>());
    assert_eq!(r, (32..64).collect::<Vec<usize>>());
    assert_eq!(left.rect, Rect::new([0, 0], [31, 2]));
    assert_eq!(right.rect, Rect::new([32, 0], [63, 2]));
    l.append(&mut r);
    assert_eq!(l.len(), 64);
}

#[test]
fn split_keeps_a_child_that_is_equally_far_from_both_faces() {
    let mut kids: Vec<Node<1, usize>> = Vec::new();
    for i in 0..63usize {
        kids.push(Node { rect: Rect::new_point([i as i64]), data: Data::Item(i) });
    }
    kids.push(Node { rect: Rect::new_point([0]), data: Data::Item(63) });
    let mut left = Node { rect: Rect::new([0], [62]), data: Data::Nodes(kids) };
    let right = left.split_largest_axis_edge_snap();
    // the point 31 is 31 away from either face: it stays
    assert_eq!(left.len(), 33);
    assert_eq!(right.len(), 31);
    assert_eq!(left.rect, Rect::new([0], [31]));
    assert_eq!(right.rect, Rect::new([32], [62]));
    let mut l: Vec<usize> = left.nodes().iter().map(|n| *n.item()).collect();
    l.sort();
    let mut want: Vec<usize> = (0..32).collect();
    want.push(63);
    assert_eq!(l, want);
    let r: Vec<usize> = right.nodes().iter().map(|n| *n.item()).collect();
    assert_eq!(r, (32..63).collect::<Vec<usize>>());
}

#[test]
fn split_fills_up_a_short_left_side() {
    // two children near the lower face, the others near the upper face
    let mut kids = Vec::new();
    kids.push(leaf(0, 0, 0));
    kids.push(leaf(1, 0, 1));
    for i in 2..64usize {
        kids.push(leaf(100 + (64 - i as i64), 0, i));
    }
    let mut left = branch(kids);
    let right = left.split_largest_axis_edge_snap();
    assert_eq!(left.len(), MIN_ITEMS);
    assert_eq!(right.len(), 64 - MIN_ITEMS);
    // the far children of least lower bound came over: x = 101, 102, 103, 104
    assert_eq!(ids(&left), vec![0, 1, 63, 62, 61, 60]);
    assert_eq!(left.rect, Rect::new([0, 0], [104, 0]));
    assert_eq!(right.rect, Rect::new([105, 0], [162, 0]));
    let xs: Vec<i64> = right.nodes().iter().map(|n| n.rect.min[0]).collect();
    let mut sorted = xs.clone();
    sorted.sort();
    assert_eq!(xs, sorted);
}

#[test]
fn split_fills_up_a_short_right_side() {
    let mut kids = Vec::new();
    for i in 0..62usize {
        kids.push(leaf(i as i64, 0, i));
    }
    kids.push(leaf(1000, 0, 62));
    kids.push(leaf(999, 0, 63));
    let mut left = branch(kids);
    let right = left.split_largest_axis_edge_snap();
    assert_eq!(right.len(), MIN_ITEMS);
    assert_eq!(left.len(), 64 - MIN_ITEMS);
    // the near children of least upper bound went over: x = 0, 1, 2, 3
    assert_eq!(ids(&right), vec![0, 1, 2, 3, 63, 62]);
    assert_eq!(left.rect, Rect::new([4, 0], [61, 0]));
    assert_eq!(right.rect, Rect::new([0, 0], [1000, 0]));
}

#[test]
fn node_insert_at_the_leaves_appends_and_grows() {
    let mut node: Node<2, usize> = Node::new(Rect::new_point([5, 5]));
    node.insert(Rect::new_point([5, 5]), 1, 0);
    node.insert(Rect::new([0, 7], [1, 8]), 2, 0);
    assert_eq!(ids(&node), vec![1, 2]);
    assert_eq!(node.rect, Rect::new([0, 5], [5, 8]));
}

#[test]
fn node_insert_goes_down_into_the_chosen_child() {
    let a = branch((0..6).map(|i| leaf(i, 0, i as usize)).collect());
    let b = branch((0..6).map(|i| leaf(100 + i, 0, 100 + i as usize)).collect());
    let mut node = Node {
        rect: Rect::new([0, 0], [105, 0]),
        data: Data::Nodes(vec![a, b]),
    };
    node.insert(Rect::new_point([103, 2]), 7, 1);
    assert_eq!(node.len(), 2);
    assert_eq!(node.nodes()[0].len(), 6);
    assert_eq!(node.nodes()[1].len(), 7);
    assert_eq!(node.nodes()[1].rect, Rect::new([100, 0], [105, 2]));
    assert_eq!(node.rect, Rect::new([0, 0], [105, 2]));
}

#[test]
fn flatten_into_hands_out_the_last_child_first() {
    let a = branch(vec![leaf(0, 0, 1), leaf(1, 0, 2)]);
    let b = branch(vec![leaf(2, 0, 3), leaf(3, 0, 4)]);
    let mut node = Node { rect: Rect::new([0, 0], [3, 0]), data: Data::Nodes(vec![a, b]) };
    let mut out = vec![(Rect::new_point([9, 9]), 0usize)];
    node.flatten_into(&mut out);
    let got: Vec<usize> = out.iter().map(|e| e.1).collect();
    assert_eq!(got, vec![0, 4, 3, 2, 1]);
    assert_eq!(out[1].0, Rect::new_point([3, 0]));
    assert_eq!(node.len(), 0);
}

#[test]
fn node_remove_takes_the_first_match_and_recomputes_the_bound() {
    let mut node = branch(vec![leaf(0, 0, 1), leaf(5, 5, 2), leaf(9, 9, 3), leaf(5, 5, 2)]);
    let mut batch = Vec::new();
    let (got, recalced) = node.remove(&Rect::new_point([5, 5]), &2, &mut batch, 0);
    assert_eq!(got, Some((Rect::new_point([5, 5]), 2)));
    assert!(!recalced);
    assert_eq!(node.len(), 3);
    assert_eq!(node.rect, Rect::new([0, 0], [9, 9]));
    let (got, recalced) = node.remove(&Rect::new([8, 8], [20, 20]), &3, &mut batch, 0);
    assert_eq!(got, Some((Rect::new_point([9, 9]), 3)));
    assert!(recalced);
    assert_eq!(node.rect, Rect::new([0, 0], [5, 5]));
    assert!(batch.is_empty());
}

#[test]
fn node_remove_needs_an_intersecting_rectangle_and_an_equal_payload() {
    let mut node = branch(vec![leaf(0, 0, 1), leaf(5, 5, 2)]);
    let mut batch = Vec::new();
    assert_eq!(node.remove(&Rect::new_point([5, 5]), &1, &mut batch, 0), (None, false));
    assert_eq!(node.remove(&Rect::new_point([4, 4]), &2, &mut batch, 0), (None, false));
    assert_eq!(node.remove(&Rect::new_point([7, 7]), &9, &mut batch, 0), (None, false));
    assert_eq!(ids(&node), vec![1, 2]);
    assert_eq!(node.rect, Rect::new([0, 0], [5, 5]));
}

#[test]
fn node_remove_dissolves_a_child_that_underflows() {
    let a = branch((0..6).map(|i| leaf(i, 0, i as usize)).collect());
    let b = branch((0..7).map(|i| leaf(100 + i, 0, 100 + i as usize)).collect());
    let mut node = branch(vec![a, b]);
    let mut batch = Vec::new();
    let (got, recalced) = node.remove(&Rect::new_point([3, 0]), &3, &mut batch, 1);
    assert_eq!(got, Some((Rect::new_point([3, 0]), 3)));
    assert!(recalced);
    assert_eq!(node.len(), 1);
    assert_eq!(node.rect, Rect::new([100, 0], [106, 0]));
    let mut back: Vec<usize> = batch.iter().map(|e| e.1).collect();
    back.sort();
    assert_eq!(back, vec![0, 1, 2, 4, 5]);
}

#[test]
fn node_search_flat_collects_in_depth_first_order() {
    let a = branch(vec![leaf(0, 0, 1), leaf(1, 0, 2), leaf(9, 0, 3)]);
    let b = branch(vec![leaf(50, 0, 4), leaf(51, 0, 5)]);
    let c = branch(vec![leaf(2, 1, 6), leaf(3, 3, 7)]);
    let node = branch(vec![a, b, c]);
    let mut out = Vec::new();
    node.search_flat(&Rect::new([1, 0], [3, 2]), &mut out);
    let got: Vec<(Rect<2>, usize)> = out.iter().map(|e| (e.0, *e.1)).collect();
    assert_eq!(got, vec![(Rect::new_point([1, 0]), 2), (Rect::new_point([2, 1]), 6)]);
    node.search_flat(&Rect::new([60, 60], [70, 70]), &mut out);
    assert_eq!(out.len(), 2);
}

#[test]
fn has_hit_looks_without_changing_anything() {
    let a = branch((0..6).map(|i| leaf(i, 0, i as usize)).collect());
    let b = branch((0..7).map(|i| leaf(100 + i, 0, 100 + i as usize)).collect());
    let node = branch(vec![a, b]);
    assert!(node.has_hit(&Rect::new_point([3, 0]), &3, 1));
    assert!(node.has_hit(&Rect::new([0, 0], [200, 0]), &105, 1));
    assert!(!node.has_hit(&Rect::new_point([3, 0]), &4, 1));
    assert!(!node.has_hit(&Rect::new_point([50, 0]), &3, 1));
    assert!(node.nodes()[0].has_hit(&Rect::new_point([5, 0]), &5, 0));
    assert!(!node.nodes()[0].has_hit(&Rect::new_point([5, 1]), &5, 0));
    assert_eq!(node.len(), 2);
    assert_eq!(node.nodes()[0].len(), 6);
}

#[test]
fn node_remove_below_leaves_the_other_children_and_says_what_it_did() {
    // child 0 covers [0]..[40] and lacks the payload 35; child 1 covers [32]..[63]
    let mut a: Vec<Node<1, usize>> = Vec::new();
    for i in 0..32usize {
        a.push(Node { rect: Rect::new_point([i as i64]), data: Data::Item(i) });
    }
    a.push(Node { rect: Rect::new([20], [40]), data: Data::Item(100) });
    let mut b: Vec<Node<1, usize>> = Vec::new();
    for i in 32..64usize {
        b.push(Node { rect: Rect::new_point([i as i64]), data: Data::Item(i) });
    }
    let left = Node { rect: Rect::new([0], [40]), data: Data::Nodes(a) };
    let right = Node { rect: Rect::new([32], [63]), data: Data::Nodes(b) };
    let mut node = Node { rect: Rect::new([0], [63]), data: Data::Nodes(vec![left, right]) };
    let mut batch = Vec::new();
    let got = node.remove(&Rect::new_point([35]), &35, &mut batch, 1);
    assert_eq!(got, (Some((Rect::new_point([35]), 35)), false));
    assert!(batch.is_empty());
    assert_eq!(node.rect, Rect::new([0], [63]));
    assert_eq!(node.len(), 2);
    assert_eq!(node.nodes()[0].len(), 33);
    assert_eq!(node.nodes()[1].len(), 31);
}

#[test]
fn node_remove_hands_over_exactly_what_the_dissolved_child_stored() {
    let a = branch((0..7).map(|i| leaf(i, 0, i as usize)).collect());
    let b = branch((0..6).map(|i| leaf(50 + i, 0, 50 + i as usize)).collect());
    let c = branch((0..7).map(|i| leaf(100 + i, 0, 100 + i as usize)).collect());
    let mut node = branch(vec![a, b, c]);
    let mut batch = vec![(Rect::new_point([9, 9]), 999usize)];
    let (got, recalced) = node.remove(&Rect::new_point([52, 0]), &52, &mut batch, 1);
    assert_eq!(got, Some((Rect::new_point([52, 0]), 52)));
    // every leaf touches the lower and the upper face on the second axis
    assert!(recalced);
    assert_eq!(node.rect, Rect::new([0, 0], [106, 0]));
    // the last child stands where the dissolved one stood; the first is untouched
    assert_eq!(node.len(), 2);
    assert_eq!(ids(&node.nodes()[0]), vec![0, 1, 2, 3, 4, 5, 6]);
    assert_eq!(ids(&node.nodes()[1]), vec![100, 101, 102, 103, 104, 105, 106]);
    // what was there stays first; then the five other leaves, the last first
    let got: Vec<usize> = batch.iter().map(|e| e.1).collect();
    assert_eq!(got, vec![999, 54, 53, 55, 51, 50]);
}

use rtree_rs::{Data, Node, RTree, Rect, MAX_ITEMS, MIN_ITEMS};

struct Lcg(u64);

impl Lcg {
    fn next(&mut self) -> i64 {
        self.0 = self.0.wrapping_mul(6364136223846793005).wrapping_add(1442695040888963407);
        ((self.0 >> 33) % 20001) as i64 - 10000
    }
}

fn points(n: usize, seed: u64) -> Vec<[i64; 2]> {
    let mut g = Lcg(seed);
    let mut out = Vec::new();
    for _ in 0..n {
        out.push([g.next(), g.next()]);
    }
    out
}

fn tight(node: &Node<2, usize>) -> bool {
    let kids = node.nodes();
    if kids.is_empty() {
        return true;
    }
    let mut bound = kids[0].rect;
    for k in kids.iter() {
        bound.expand(&k.rect);
    }
    bound == node.rect
}

/// Checks occupancy, tightness and depth below `node`; gives the number of entries.
fn audit(node: &Node<2, usize>, height: usize, is_root: bool) -> usize {
    let kids = node.nodes();
    assert!(kids.len() < MAX_ITEMS);
    if is_root {
        assert!(kids.len() >= 1);
        if height > 0 {
            assert!(kids.len() >= 2);
        }
    } else {
        assert!(kids.len() >= MIN_ITEMS);
    }
    assert!(tight(node));
    let mut count = 0;
    for k in kids.iter() {
        match &k.data {
            Data::Item(_) => {
                assert_eq!(height, 0);
                count += 1;
            }
            Data::Nodes(_) => {
                assert!(height > 0);
                count += audit(k, height - 1, false);
            }
        }
    }
    count
}

fn audit_tree(tree: &RTree<2, usize>) {
    match tree.root() {
        Some(root) => {
            let n = audit(root, tree.height(), true);
            assert_eq!(n, tree.len());
            assert_eq!(tree.rect(), Some(root.rect));
        }
        None => {
            assert_eq!(tree.len(), 0);
            assert_eq!(tree.height(), 0);
            assert_eq!(tree.rect(), None);
        }
    }
}

fn all_of(tree: &RTree<2, usize>) -> Vec<(Rect<2>, usize)> {
    let mut out = Vec::new();
    let mut it = tree.scan();
    while let Some(item) = it.next() {
        out.push((item.rect, *item.data));
    }
    out
}

fn sorted(mut v: Vec<(Rect<2>, usize)>) -> Vec<([i64; 2], [i64; 2], usize)> {
    let mut out: Vec<([i64; 2], [i64; 2], usize)> = v.drain(..).map(|e| (e.0.min, e.0.max, e.1)).collect();
    out.sort();
    out
}

#[test]
fn new_tree_is_empty() {
    let tree: RTree<2, usize> = RTree::new();
    assert_eq!(tree.len(), 0);
    assert_eq!(tree.height(), 0);
    assert_eq!(tree.rect(), None);
    assert!(tree.root().is_none());
    audit_tree(&tree);
}

#[test]
fn first_insert_makes_the_root() {
    let mut tree: RTree<2, usize> = RTree::new();
    tree.insert(Rect::new([1, 2], [3, 4]), 7);
    assert_eq!(tree.len(), 1);
    assert_eq!(tree.height(), 0);
    assert_eq!(tree.rect(), Some(Rect::new([1, 2], [3, 4])));
    assert_eq!(all_of(&tree), vec![(Rect::new([1, 2], [3, 4]), 7)]);
    audit_tree(&tree);
}

#[test]
fn bounding_rectangle_is_the_union_of_what_was_inserted() {
    let mut tree: RTree<2, usize> = RTree::new();
    tree.insert(Rect::new([0, 0], [1, 1]), 0);
    tree.insert(Rect::new([5, -3], [6, 0]), 1);
    tree.insert(Rect::new_point([2, 9]), 2);
    assert_eq!(tree.rect(), Some(Rect::new([0, -3], [6, 9])));
    assert_eq!(tree.len(), 3);
}

#[test]
fn count_follows_inserts_and_successful_removes() {
    let mut tree: RTree<2, usize> = RTree::new();
    let pts = points(300, 1);
    let mut expected = 0usize;
    for (i, p) in pts.iter().enumerate() {
        tree.insert(Rect::new_point(*p), i);
        expected += 1;
        assert_eq!(tree.len(), expected);
    }
    for (i, p) in pts.iter().enumerate() {
        if i % 3 == 0 {
            assert!(tree.remove(Rect::new_point(*p), &i).is_some());
            expected -= 1;
        } else if i % 3 == 1 {
            // a payload that is not stored: nothing is removed
            assert!(tree.remove(Rect::new_point(*p), &(i + 100000)).is_none());
        }
        assert_eq!(tree.len(), expected);
    }
    assert_eq!(tree.len(), 200);
    assert_eq!(all_of(&tree).len(), 200);
}

#[test]
fn occupancy_and_bounds_hold_after_every_operation() {
    let mut tree: RTree<2, usize> = RTree::new();
    let pts = points(700, 7);
    for (i, p) in pts.iter().enumerate() {
        tree.insert(Rect::new(*p, [p[0] + (i % 5) as i64, p[1] + (i % 7) as i64]), i);
        if i % 50 == 0 {
            audit_tree(&tree);
        }
    }
    audit_tree(&tree);
    assert!(tree.height() >= 1);
    for (i, p) in pts.iter().enumerate() {
        if i % 2 == 0 {
            let r = Rect::new(*p, [p[0] + (i % 5) as i64, p[1] + (i % 7) as i64]);
            assert_eq!(tree.remove(r, &i), Some((r, i)));
            if i % 20 == 0 {
                audit_tree(&tree);
            }
        }
    }
    audit_tree(&tree);
    assert_eq!(tree.len(), 350);
}

#[test]
fn round_trip_restores_count_and_bounds() {
    let mut tree: RTree<2, usize> = RTree::new();
    for (i, p) in points(200, 3).iter().enumerate() {
        tree.insert(Rect::new_point(*p), i);
    }
    let len = tree.len();
    let bounds = tree.rect();
    let before = sorted(all_of(&tree));
    let r = Rect::new([20000, 20000], [20005, 20007]);
    tree.insert(r, 999);
    assert_eq!(tree.len(), len + 1);
    assert_ne!(tree.rect(), bounds);
    assert_eq!(tree.remove(r, &999), Some((r, 999)));
    assert_eq!(tree.len(), len);
    assert_eq!(tree.rect(), bounds);
    assert_eq!(sorted(all_of(&tree)), before);
    audit_tree(&tree);
}

#[test]
fn round_trip_on_an_empty_tree() {
    let mut tree: RTree<2, usize> = RTree::new();
    let r = Rect::new_point([4, 4]);
    tree.insert(r, 1);
    assert_eq!(tree.remove(r, &1), Some((r, 1)));
    assert_eq!(tree.len(), 0);
    assert_eq!(tree.rect(), None);
    assert!(tree.root().is_none());
    assert_eq!(tree.height(), 0);
}

#[test]
fn remove_gives_the_first_match_in_scan_order() {
    let mut tree: RTree<2, usize> = RTree::new();
    tree.insert(Rect::new([0, 0], [2, 2]), 7);
    tree.insert(Rect::new_point([1, 1]), 7);
    tree.insert(Rect::new_point([1, 1]), 8);
    // both entries with the payload 7 intersect the query; the first stored leaves
    assert_eq!(tree.remove(Rect::new_point([1, 1]), &7), Some((Rect::new([0, 0], [2, 2]), 7)));
    assert_eq!(tree.remove(Rect::new_point([1, 1]), &7), Some((Rect::new_point([1, 1]), 7)));
    assert_eq!(tree.remove(Rect::new_point([1, 1]), &7), None);
    assert_eq!(tree.len(), 1);
}

#[test]
fn remove_of_what_is_not_there_changes_nothing() {
    let mut tree: RTree<2, usize> = RTree::new();
    assert_eq!(tree.remove(Rect::new_point([0, 0]), &1), None);
    for (i, p) in points(150, 5).iter().enumerate() {
        tree.insert(Rect::new_point(*p), i);
    }
    let before = all_of(&tree);
    let bounds = tree.rect();
    let height = tree.height();
    // an equal payload whose rectangle does not intersect the query
    let p0 = points(150, 5)[0];
    assert_eq!(tree.remove(Rect::new_point([p0[0] + 1, p0[1]]), &0), None);
    // an intersecting rectangle with a payload that is not stored
    assert_eq!(tree.remove(Rect::new([-10000, -10000], [10000, 10000]), &5000), None);
    assert_eq!(all_of(&tree), before);
    assert_eq!(tree.rect(), bounds);
    assert_eq!(tree.height(), height);
    assert_eq!(tree.len(), 150);
}

#[test]
fn remove_finds_by_any_intersecting_rectangle() {
    let mut tree: RTree<2, usize> = RTree::new();
    for (i, p) in points(150, 11).iter().enumerate() {
        tree.insert(Rect::new_point(*p), i);
    }
    let p = points(150, 11)[77];
    let got = tree.remove(Rect::new([-10000, -10000], [10000, 10000]), &77);
    assert_eq!(got, Some((Rect::new_point(p), 77)));
    assert_eq!(tree.len(), 149);
}

#[test]
fn one_thousand_points() {
    let pts = points(1000, 42);
    let mut tree: RTree<2, usize> = RTree::new();
    for (i, p) in pts.iter().enumerate() {
        tree.insert(Rect::new_point(*p), i);
    }
    assert_eq!(tree.len(), 1000);
    let full = tree.rect().unwrap();
    let mut found = Vec::new();
    let mut it = tree.search(full);
    while let Some(item) = it.next() {
        found.push((item.rect, *item.data));
    }
    assert_eq!(found.len(), 1000);
    let all = sorted(found);
    let mut want: Vec<([i64; 2], [i64; 2], usize)> =
        pts.iter().enumerate().map(|(i, p)| (*p, *p, i)).collect();
    want.sort();
    assert_eq!(all, want);
    for i in 0..500 {
        let k = i * 2;
        assert_eq!(tree.remove(Rect::new_point(pts[k]), &k), Some((Rect::new_point(pts[k]), k)));
    }
    assert_eq!(tree.len(), 500);
    audit_tree(&tree);
    for i in 0..500 {
        let k = i * 2;
        tree.insert(Rect::new_point(pts[k]), k);
    }
    assert_eq!(tree.len(), 1000);
    audit_tree(&tree);
    let mut again = Vec::new();
    let mut it = tree.search(full);
    while let Some(item) = it.next() {
        again.push((item.rect, *item.data));
    }
    assert_eq!(sorted(again), want);
}

#[test]
fn one_split_after_max_items_plus_one() {
    let mut tree: RTree<2, usize> = RTree::new();
    for i in 0..(MAX_ITEMS - 1) {
        tree.insert(Rect::new_point([i as i64 * 3, (i % 4) as i64]), i);
    }
    assert_eq!(tree.height(), 0);
    assert_eq!(tree.root().unwrap().len(), MAX_ITEMS - 1);
    tree.insert(Rect::new_point([500, 1]), MAX_ITEMS - 1);
    tree.insert(Rect::new_point([501, 2]), MAX_ITEMS);
    assert_eq!(tree.len(), MAX_ITEMS + 1);
    assert_eq!(tree.height(), 1);
    let root = tree.root().unwrap();
    assert_eq!(root.len(), 2);
    let mut total = 0;
    for child in root.nodes().iter() {
        assert!(child.len() >= MIN_ITEMS);
        assert!(child.len() <= MAX_ITEMS);
        total += child.len();
    }
    assert_eq!(total, MAX_ITEMS + 1);
    audit_tree(&tree);
}

#[test]
fn height_collapses_when_all_but_one_leave() {
    let pts = points(400, 9);
    let mut tree: RTree<2, usize> = RTree::new();
    for (i, p) in pts.iter().enumerate() {
        tree.insert(Rect::new_point(*p), i);
    }
    assert!(tree.height() >= 1);
    for i in 0..399 {
        assert_eq!(tree.remove(Rect::new_point(pts[i]), &i), Some((Rect::new_point(pts[i]), i)));
        audit_tree(&tree);
    }
    assert_eq!(tree.len(), 1);
    assert_eq!(tree.height(), 0);
    let root = tree.root().unwrap();
    assert_eq!(root.len(), 1);
    assert_eq!(*root.nodes()[0].item(), 399);
    assert_eq!(root.nodes()[0].rect, Rect::new_point(pts[399]));
    assert_eq!(tree.rect(), Some(Rect::new_point(pts[399])));
}

#[test]
fn search_flat_matches_a_brute_force_scan() {
    let pts = points(500, 21);
    let mut tree: RTree<2, usize> = RTree::new();
    for (i, p) in pts.iter().enumerate() {
        tree.insert(Rect::new(*p, [p[0] + 30, p[1] + 40]), i);
    }
    let queries = [
        Rect::new([-2000, -2000], [2000, 2000]),
        Rect::new_point([0, 0]),
        Rect::new([-10000, -10000], [10100, 10100]),
        Rect::new([20000, 20000], [30000, 30000]),
        Rect::new([pts[3][0] + 30, pts[3][1] + 40], [pts[3][0] + 35, pts[3][1] + 45]),
    ];
    for q in queries.iter() {
        let mut out = Vec::new();
        tree.search_flat(*q, &mut out);
        let got = sorted(out.iter().map(|e| (e.0, *e.1)).collect());
        let want = sorted(all_of(&tree).into_iter().filter(|e| e.0.intersects(q)).collect());
        assert_eq!(got, want);
    }
    let mut out = Vec::new();
    tree.search_flat(queries[2], &mut out);
    assert_eq!(out.len(), 500);
    tree.search_flat(queries[3], &mut out);
    assert_eq!(out.len(), 500);
}

#[test]
fn three_dimensions() {
    let mut tree: RTree<3, u32> = RTree::new();
    let mut g = Lcg(77);
    let mut boxes = Vec::new();
    for i in 0..300u32 {
        let min = [g.next() / 100, g.next() / 100, g.next() / 100];
        let max = [min[0] + (i % 4) as i64, min[1] + (i % 3) as i64, min[2] + 1];
        boxes.push(Rect::new(min, max));
        tree.insert(Rect::new(min, max), i);
    }
    assert_eq!(tree.len(), 300);
    let q = Rect::new([-50, -50, -50], [50, 50, 50]);
    let mut got = Vec::new();
    let mut it = tree.search(q);
    while let Some(item) = it.next() {
        got.push(*item.data);
    }
    got.sort();
    let want: Vec<u32> = (0..300u32).filter(|i| boxes[*i as usize].intersects(&q)).collect();
    assert_eq!(got, want);
    for i in 0..300u32 {
        assert_eq!(tree.remove(boxes[i as usize], &i), Some((boxes[i as usize], i)));
    }
    assert_eq!(tree.len(), 0);
    assert_eq!(tree.rect(), None);
    assert_eq!(tree.height(), 0);
}

#[test]
fn height_grows_by_one_when_the_root_splits() {
    let mut tree: RTree<1, usize> = RTree::new();
    for i in 0..(MAX_ITEMS - 1) {
        tree.insert(Rect::new_point([i as i64]), i);
        assert_eq!(tree.height(), 0);
    }
    tree.insert(Rect::new_point([1000]), 1000);
    assert_eq!(tree.height(), 1);
    assert_eq!(tree.root().unwrap().len(), 2);
    assert_eq!(tree.len(), MAX_ITEMS);
}

#[test]
fn try_insert_hands_back_what_the_tree_does_not_admit() {
    let mut tree: RTree<2, usize> = RTree::new();
    assert_eq!(tree.try_insert(Rect::new([0, 0], [10, 10]), 1), Ok(()));
    assert_eq!(tree.len(), 1);
    // an inverted rectangle
    let bad = Rect::new([5, 5], [4, 9]);
    assert_eq!(tree.try_insert(bad, 2), Err((bad, 2)));
    // a rectangle that makes the area of the tree too large
    let far = Rect::new_point([4_000_000_000, 4_000_000_000]);
    assert_eq!(tree.try_insert(far, 3), Err((far, 3)));
    assert_eq!(tree.len(), 1);
    assert_eq!(tree.rect(), Some(Rect::new([0, 0], [10, 10])));
    let near = Rect::new_point([3_000_000_000, 3_000_000_000]);
    assert_eq!(tree.try_insert(near, 4), Ok(()));
    assert_eq!(tree.len(), 2);
    assert_eq!(tree.rect(), Some(Rect::new([0, 0], [3_000_000_000, 3_000_000_000])));
    let mut flat: RTree<0, usize> = RTree::new();
    let none: Rect<0> = Rect::new([], []);
    assert_eq!(flat.try_insert(none, 1), Err((none, 1)));
    assert_eq!(flat.len(), 0);
}

#[test]
fn the_two_halves_after_one_more_than_max_items_on_a_line() {
    let mut tree: RTree<1, usize> = RTree::new();
    for i in 0..64usize {
        tree.insert(Rect::new_point([i as i64]), i);
    }
    assert_eq!(tree.height(), 1);
    tree.insert(Rect::new_point([64]), 64);
    assert_eq!(tree.height(), 1);
    let root = tree.root().unwrap();
    assert_eq!(root.rect, Rect::new([0], [64]));
    assert_eq!(root.len(), 2);
    assert_eq!(root.nodes()[0].len(), 32);
    assert_eq!(root.nodes()[0].rect, Rect::new([0], [31]));
    assert_eq!(root.nodes()[1].len(), 33);
    assert_eq!(root.nodes()[1].rect, Rect::new([32], [64]));
}

#[test]
fn nearby_four_points_by_box_distance() {
    let mut tree: RTree<2, i32> = RTree::new();
    tree.insert(Rect::new_point([0, 0]), 0);
    tree.insert(Rect::new_point([3, 0]), 1);
    tree.insert(Rect::new_point([1, 1]), 2);
    tree.insert(Rect::new_point([10, 10]), 3);
    let origin = Rect::new_point([0, 0]);
    let mut it = tree.nearby(|r: Rect<2>, _: Option<&i32>| r.box_dist(&origin));
    let mut got = Vec::new();
    while let Some(item) = it.next() {
        got.push((*item.data, item.dist));
    }
    assert_eq!(got, vec![(0, 0), (2, 2), (1, 9), (3, 200)]);
}

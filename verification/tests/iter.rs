use rtree_rs::{IterItem, RTree, Rect};

fn grid(n: i64) -> RTree<2, i64> {
    let mut tree: RTree<2, i64> = RTree::new();
    for x in 0..n {
        for y in 0..n {
            tree.insert(Rect::new_point([x * 10, y * 10]), x * n + y);
        }
    }
    tree
}

fn key(item: &IterItem<2, i64>) -> ([i64; 2], [i64; 2], i64) {
    (item.rect.min, item.rect.max, *item.data)
}

#[test]
fn scan_of_an_empty_tree_gives_nothing() {
    let tree: RTree<2, i64> = RTree::new();
    let mut it = tree.scan();
    assert!(it.next().is_none());
    assert!(it.next().is_none());
    assert!(tree.iter().next().is_none());
    assert!(tree.search(Rect::new([-9, -9], [9, 9])).next().is_none());
}

#[test]
fn scan_gives_every_entry_once() {
    let tree = grid(20);
    let mut seen = Vec::new();
    let mut it = tree.scan();
    while let Some(item) = it.next() {
        assert_eq!(item.dist, 0);
        assert_eq!(item.rect.min, item.rect.max);
        assert_eq!(*item.data, item.rect.min[0] / 10 * 20 + item.rect.min[1] / 10);
        seen.push(key(&item));
    }
    assert!(it.next().is_none());
    assert_eq!(seen.len(), 400);
    seen.sort();
    seen.dedup();
    assert_eq!(seen.len(), 400);
}

#[test]
fn scan_follows_the_order_of_the_leaves() {
    let mut tree: RTree<2, i64> = RTree::new();
    tree.insert(Rect::new_point([5, 5]), 1);
    tree.insert(Rect::new_point([1, 1]), 2);
    tree.insert(Rect::new_point([9, 9]), 3);
    let mut it = tree.scan();
    assert_eq!(*it.next().unwrap().data, 1);
    assert_eq!(*it.next().unwrap().data, 2);
    let last = it.next().unwrap();
    assert_eq!((last.rect, *last.data, last.dist), (Rect::new_point([9, 9]), 3, 0));
    assert!(it.next().is_none());
}

#[test]
fn iter_is_scan() {
    let tree = grid(12);
    let mut a = tree.iter();
    let mut b = tree.scan();
    loop {
        match (a.next(), b.next()) {
            (Some(x), Some(y)) => assert_eq!(key(&x), key(&y)),
            (None, None) => break,
            _ => panic!("one traversal ended before the other"),
        }
    }
}

#[test]
fn search_gives_exactly_what_intersects() {
    let tree = grid(20);
    let queries = [
        Rect::new([25, 25], [61, 48]),
        Rect::new_point([30, 30]),
        Rect::new_point([31, 30]),
        Rect::new([-1000, -1000], [1000, 1000]),
        Rect::new([190, 190], [400, 400]),
        Rect::new([191, 0], [400, 400]),
    ];
    let counts = [4 * 2, 1, 0, 400, 1, 0];
    for (q, n) in queries.iter().zip(counts.iter()) {
        let mut got = Vec::new();
        let mut it = tree.search(*q);
        while let Some(item) = it.next() {
            assert!(item.rect.intersects(q));
            assert_eq!(item.dist, 0);
            got.push(key(&item));
        }
        assert!(it.next().is_none());
        assert_eq!(got.len(), *n);
        let mut want = Vec::new();
        let mut all = tree.scan();
        while let Some(item) = all.next() {
            if item.rect.intersects(q) {
                want.push(key(&item));
            }
        }
        // in the order of the scan, each once
        assert_eq!(got, want);
    }
}

#[test]
fn nearby_gives_the_nearest_first() {
    let tree = grid(15);
    let q = Rect::new_point([47, 82]);
    let mut it = tree.nearby(|r: Rect<2>, _: Option<&i64>| r.box_dist(&q));
    let mut got = Vec::new();
    let mut last = 0;
    while let Some(item) = it.next() {
        assert!(item.dist >= last);
        last = item.dist;
        assert_eq!(item.dist, item.rect.box_dist(&q));
        got.push((item.dist, *item.data));
    }
    assert!(it.next().is_none());
    assert_eq!(got.len(), 225);
    assert_eq!(got[0], (3 * 3 + 2 * 2, 5 * 15 + 8));
    let mut want = Vec::new();
    let mut all = tree.scan();
    while let Some(item) = all.next() {
        want.push((item.rect.box_dist(&q), *item.data));
    }
    let dists: Vec<i64> = got.iter().map(|e| e.0).collect();
    let mut sorted_dists: Vec<i64> = want.iter().map(|e| e.0).collect();
    sorted_dists.sort();
    assert_eq!(dists, sorted_dists);
    got.sort();
    want.sort();
    assert_eq!(got, want);
}

#[test]
fn nearby_with_distinct_distances_is_the_sorted_scan() {
    let mut tree: RTree<1, usize> = RTree::new();
    for i in 0..300usize {
        tree.insert(Rect::new_point([((i * 37) % 300) as i64 * 3]), i);
    }
    let q = Rect::new_point([151]);
    let mut it = tree.nearby(|r: Rect<1>, _: Option<&usize>| r.box_dist(&q));
    let mut got = Vec::new();
    while let Some(item) = it.next() {
        got.push((item.dist, item.rect.min[0]));
    }
    let mut want: Vec<(i64, i64)> =
        (0..300i64).map(|k| ((3 * k - 151) * (3 * k - 151), 3 * k)).collect();
    want.sort();
    assert_eq!(got, want);
}

#[test]
fn nearby_hands_the_payload_to_the_distance_function() {
    let mut tree: RTree<2, i64> = RTree::new();
    for i in 0..100 {
        tree.insert(Rect::new_point([i, 0]), 100 - i);
    }
    // branches are nearer than every entry; entries are ordered by their payload
    let mut it = tree.nearby(|_: Rect<2>, data: Option<&i64>| match data {
        Some(d) => *d,
        None => 0,
    });
    let mut got = Vec::new();
    while let Some(item) = it.next() {
        assert_eq!(item.dist, *item.data);
        got.push(*item.data);
    }
    assert_eq!(got, (1..=100).collect::<Vec<i64>>());
}

#[test]
fn nearby_of_an_empty_tree_gives_nothing() {
    let tree: RTree<2, i64> = RTree::new();
    let mut it = tree.nearby(|_: Rect<2>, _: Option<&i64>| 0);
    assert!(it.next().is_none());
}

#[test]
fn nearby_asks_for_the_distance_of_every_node_but_the_root() {
    let tree = grid(10);
    let q = Rect::new_point([0, 0]);
    let mut calls = 0usize;
    let mut branches = 0usize;
    let mut it = tree.nearby(|r: Rect<2>, data: Option<&i64>| {
        calls += 1;
        if data.is_none() {
            branches += 1;
        }
        r.box_dist(&q)
    });
    let mut n = 0;
    while it.next().is_some() {
        n += 1;
    }
    assert_eq!(n, 100);
    assert_eq!(calls, 100 + branches);
    assert_eq!(tree.height(), 1);
    assert_eq!(branches, tree.root().unwrap().len());
}

use spacegame::aabb::dynamic::DEFAULT_MARGIN;
use spacegame::aabb::{Aabb, AabbTree, DynamicAabbTree, Region, DEFAULT_MAX_DEPTH, FINE};

#[test]
fn aabb_intersect_and_contains() {
    let a = Aabb::new(0, 0, 10, 10);
    assert!(a.intersects(&Aabb::new(5, 5, 15, 15)));
    assert!(a.intersects(&Aabb::new(10, 10, 12, 12)), "touching edge counts");
    assert!(!a.intersects(&Aabb::new(11, 11, 12, 12)));
    assert!(a.contains_point(5, 5));
    assert!(!a.contains_point(11, 5));
}

#[test]
fn around_bounds_a_circle() {
    let b = Aabb::around(100, 50, 8);
    assert_eq!(b, Aabb::new(92, 42, 108, 58));
    assert!(b.contains_point(100, 50));
}

#[test]
fn empty_tree_queries_nothing() {
    let t: AabbTree<u32> = AabbTree::build(Aabb::new(0, 0, 100, 100), Vec::new());
    assert!(t.is_empty());
    assert!(t.query(&Aabb::new(0, 0, 100, 100)).is_empty());
}

#[test]
fn query_returns_only_overlapping_items() {
    let items = vec![
        (Aabb::around(10, 10, 1), 'a'),
        (Aabb::around(500, 500, 1), 'b'),
        (Aabb::around(990, 20, 1), 'c'),
    ];
    let t = AabbTree::build(Aabb::new(0, 0, 1000, 1000), items);
    assert_eq!(t.query(&Aabb::around(10, 10, 5)), vec!['a']);
    assert_eq!(t.query(&Aabb::around(500, 500, 5)), vec!['b']);
    let none = t.query(&Aabb::around(250, 250, 5));
    assert!(none.is_empty(), "a box over empty space finds nothing, got {none:?}");
}

#[test]
fn query_is_complete_against_brute_force() {
    let mut items: Vec<(Aabb, (i32, i32))> = Vec::new();
    for gx in 0..40 {
        for gy in 0..40 {
            let x = gx * 25 + 5;
            let y = gy * 25 + 5;
            items.push((Aabb::around(x, y, 6), (gx, gy)));
        }
    }
    let bounds = Aabb::new(0, 0, 1000, 1000);
    let boxes: Vec<Aabb> = items.iter().map(|(b, _)| *b).collect();
    let t = AabbTree::build(bounds, items.clone());

    for k in 0..200 {
        let qx = k * 37 % 1000;
        let qy = k * 53 % 1000;
        let qr = 5 + (k * 7) % 40;
        let q = Aabb::around(qx, qy, qr);

        let mut brute: Vec<(i32, i32)> = boxes
            .iter()
            .zip(items.iter())
            .filter(|(b, _)| b.intersects(&q))
            .map(|(_, (_, p))| *p)
            .collect();
        let mut got = t.query(&q);
        brute.sort();
        got.sort();
        assert_eq!(got, brute, "query {q:?} mismatch");
    }
}

#[test]
fn tree_actually_subdivides() {
    let items: Vec<(Aabb, u32)> = (0..500)
        .map(|i| {
            let x = i * 991 % 1000;
            let y = i * 631 % 1000;
            (Aabb::around(x, y, 2), i as u32)
        })
        .collect();
    let t = AabbTree::build(Aabb::new(0, 0, 1000, 1000), items);
    let (nodes, depth) = t.stats();
    assert!(nodes > 1, "tree should branch, got {nodes} nodes");
    assert!(depth >= 2, "tree should be several levels deep, got depth {depth}");
    assert!(depth <= DEFAULT_MAX_DEPTH, "depth is capped");
}

#[test]
fn coincident_points_do_not_overflow_depth() {
    let items: Vec<(Aabb, u32)> = (0..100).map(|i| (Aabb::around(123, 456, 1), i)).collect();
    let t = AabbTree::build(Aabb::new(0, 0, 1000, 1000), items);
    let (_, depth) = t.stats();
    assert!(depth <= DEFAULT_MAX_DEPTH);
    assert_eq!(t.query(&Aabb::around(123, 456, 2)).len(), 100);
}

#[test]
fn query_circle_is_a_superset_of_true_hits() {
    let items = vec![
        (Aabb::around(100, 100, 5), 1u32),
        (Aabb::around(118, 100, 5), 2u32),
        (Aabb::around(106, 100, 5), 3u32),
    ];
    let t = AabbTree::build(Aabb::new(0, 0, 200, 200), items);
    let got = t.query_circle(100, 100, 10);
    assert!(got.contains(&1) && got.contains(&3), "true hits present: {got:?}");
}

#[test]
fn a_box_is_made_of_corners_in_any_order() {
    let b = Aabb::new(10, -4, 2, 8);
    assert_eq!(b, Aabb { min_x: 2, min_y: -4, max_x: 10, max_y: 8 });
    assert_eq!(b.center(), (6, 2));
    assert_eq!(Aabb::new(-3, -3, 0, 0).center(), (-2, -2));
    assert_eq!(b.perimeter(), 40);
    assert_eq!(b.expanded(3), Aabb::new(-1, -7, 13, 11));
    assert_eq!(b.union(&Aabb::new(20, 0, 21, 1)), Aabb::new(2, -4, 21, 8));
    assert!(b.contains(&Aabb::new(3, 0, 9, 1)));
    assert!(!b.contains(&Aabb::new(3, 0, 11, 1)));
}

#[test]
fn node_boxes_cover_every_item_once() {
    let items: Vec<(Aabb, u32)> = (0..60).map(|i| (Aabb::around(i * 16 + 4, i * 11 + 3, 1), i as u32)).collect();
    let t = AabbTree::build_with(Aabb::new(0, 0, 1000, 1000), items, 4, 6);
    let infos = t.node_boxes();
    let (nodes, depth) = t.stats();
    assert_eq!(infos.len(), nodes);
    assert!(infos.iter().all(|n| n.depth <= depth));
    let filed: usize = infos.iter().filter(|n| n.leaf).map(|n| n.count).sum();
    assert_eq!(filed, t.len());
    assert_eq!(t.bounds(), Aabb::new(0, 0, 1000, 1000));
    assert_eq!(t.query_indices(&Aabb::around(4, 3, 1)), vec![0]);
}

#[test]
fn a_region_is_halved_between_two_units() {
    let items = vec![(Aabb::new(2, 2, 3, 3), 'b'), (Aabb::new(2, 2, 2, 2), 'a')];
    let t = AabbTree::build_with(Aabb::new(0, 0, 5, 5), items, 1, 3);
    assert_eq!(t.query(&Aabb::new(0, 0, 5, 5)), vec!['a', 'b'], "2 is west of 2.5, and 2.5 is not");
    let infos = t.node_boxes();
    assert_eq!(infos.len(), 5);
    let half = 5 * FINE / 2;
    assert_eq!(infos[0].region, Region { min_x: 0, min_y: 0, max_x: 5 * FINE, max_y: 5 * FINE });
    assert_eq!(infos[1].region, Region { min_x: 0, min_y: 0, max_x: half, max_y: half });
    assert_eq!(infos[4].region, Region { min_x: half, min_y: half, max_x: 5 * FINE, max_y: 5 * FINE });
    assert_eq!((infos[1].count, infos[4].count), (1, 1));
}

#[test]
fn dynamic_tree_finds_exactly_the_fat_overlaps() {
    let mut t: DynamicAabbTree<usize> = DynamicAabbTree::new(4);
    let mut boxes: Vec<Aabb> = Vec::new();
    let mut proxies: Vec<usize> = Vec::new();
    for i in 0..200usize {
        let x = (i * 991 % 1000) as i32;
        let y = (i * 631 % 1000) as i32;
        let b = Aabb::around(x, y, 3);
        proxies.push(t.insert(b, i));
        boxes.push(b);
    }
    assert_eq!(t.len(), 200);
    assert!(t.height() < 200 && t.height() > 0);
    for step in 0..40usize {
        // Move some leaves, take one out and put it back.
        for k in 0..10usize {
            let i = (step * 17 + k * 23) % 200;
            let b = Aabb::around((i * 37 + step * 29) as i32 % 1000, (i * 53 + step * 31) as i32 % 1000, 3);
            let inside = t.proxy_aabb(proxies[i]).contains(&b);
            assert_eq!(t.update(proxies[i], b), !inside);
            boxes[i] = b;
        }
        let gone = (step * 7) % 200;
        t.remove(proxies[gone]);
        assert_eq!(t.len(), 199);
        assert!(!t.query(&boxes[gone]).contains(&gone));
        proxies[gone] = t.insert(boxes[gone], gone);

        let q = Aabb::around((step * 83 % 1000) as i32, (step * 61 % 1000) as i32, 60);
        let mut got = t.query(&q);
        got.sort();
        let want: Vec<usize> = (0..200).filter(|i| t.proxy_aabb(proxies[*i]).intersects(&q)).collect();
        assert_eq!(got, want);
        for i in 0..200usize {
            assert!(t.proxy_aabb(proxies[i]).contains(&boxes[i]), "the fat box holds the tight one");
        }
    }
}

#[test]
fn dynamic_tree_moves_inside_the_fat_box_are_free() {
    let mut t: DynamicAabbTree<char> = DynamicAabbTree::default();
    assert_eq!(t.fat_margin, DEFAULT_MARGIN);
    assert!(t.is_empty());
    assert_eq!(t.height(), 0);
    let p = t.insert(Aabb::around(0, 0, 2), 'x');
    assert_eq!(t.proxy_aabb(p), Aabb::new(-10, -10, 10, 10));
    assert!(!t.update(p, Aabb::around(5, 5, 2)));
    assert_eq!(t.proxy_aabb(p), Aabb::new(-10, -10, 10, 10));
    assert!(t.update(p, Aabb::around(100, 0, 2)));
    assert_eq!(t.proxy_aabb(p), Aabb::new(90, -10, 110, 10));
    assert_eq!(t.query(&Aabb::around(100, 0, 1)), vec!['x']);
    assert!(t.query(&Aabb::around(0, 0, 1)).is_empty());
    t.remove(p);
    assert!(t.is_empty());
    assert!(t.query(&Aabb::around(100, 0, 1)).is_empty());
}

#[test]
fn dynamic_tree_reuses_a_handle_that_was_given_back() {
    let mut t: DynamicAabbTree<u8> = DynamicAabbTree::new(1);
    let a = t.insert(Aabb::around(0, 0, 1), 1);
    let b = t.insert(Aabb::around(50, 0, 1), 2);
    let c = t.insert(Aabb::around(0, 50, 1), 3);
    assert!(a != b && b != c && a != c);
    t.remove(b);
    let d = t.insert(Aabb::around(90, 90, 1), 4);
    assert_eq!(d, b);
    let mut all = t.query(&Aabb::new(-10, -10, 100, 100));
    all.sort();
    assert_eq!(all, vec![1, 3, 4]);
}

fn filed(boxes: &[Aabb]) -> DynamicAabbTree<usize> {
    let mut t: DynamicAabbTree<usize> = DynamicAabbTree::new(0);
    for (i, b) in boxes.iter().enumerate() {
        t.insert(*b, i);
    }
    t
}

#[test]
fn a_new_leaf_goes_down_where_it_costs_less() {
    // The first two leaves take the slots 0 and 1, their fork 2; the third takes 3, and its fork 4.
    let t = filed(&[Aabb::new(0, 0, 10, 10), Aabb::new(100, 100, 110, 110), Aabb::new(2, 2, 12, 12)]);
    assert_eq!((t.root, t.nodes[2].child1, t.nodes[2].child2), (2, 4, 1));
    assert_eq!((t.nodes[4].child1, t.nodes[4].child2), (0, 3));
    assert_eq!(t.query(&Aabb::new(0, 0, 200, 200)), vec![1, 2, 0]);

    let even = filed(&[Aabb::new(0, 0, 10, 10), Aabb::new(20, 0, 30, 10), Aabb::new(10, 0, 20, 10)]);
    assert_eq!((even.root, even.nodes[2].child1, even.nodes[2].child2), (2, 0, 4));
    assert_eq!((even.nodes[4].child1, even.nodes[4].child2), (1, 3), "the second where both cost the same");

    let far = filed(&[Aabb::new(0, 0, 10, 10), Aabb::new(20, 0, 30, 10), Aabb::new(1000, 0, 1010, 10)]);
    assert_eq!((far.root, far.nodes[4].child1, far.nodes[4].child2), (4, 2, 3), "beside the whole tree");
}

#[test]
fn slots_are_used_again_and_forks_are_balanced() {
    let row: Vec<Aabb> = (0..4).map(|i| Aabb::new(1000 * i, 0, 1000 * i + 10, 10)).collect();
    let mut t = filed(&row);
    assert_eq!(t.height(), 2);
    t.remove(3);
    assert_eq!(t.query(&Aabb::new(-9, -9, 9999, 99)).len(), 3);
    let nodes = t.nodes.len();
    assert_eq!(t.insert(Aabb::new(0, 0, 1, 1), 9), 3, "the slot that was given back last");
    assert_eq!(t.nodes.len(), nodes);
    assert!(t.update(3, Aabb::new(5000, 0, 5001, 1)));
    assert_eq!(t.nodes.len(), nodes);
    assert_eq!(t.query(&Aabb::new(4000, 0, 6000, 9)), vec![9]);
}

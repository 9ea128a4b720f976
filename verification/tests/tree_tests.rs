use nesting_tree::rect::Labeled;
use nesting_tree::rect::Rect;
use nesting_tree::shape::Point;
use nesting_tree::shape::Shape;
use nesting_tree::shape::sort_shapes_by_area;
use nesting_tree::tree::Tree;
use nesting_tree::tree::TreeNode;

fn rect(x0: i64, y0: i64, x1: i64, y1: i64) -> Rect {
    Rect { min: Point { x: x0, y: y0 }, max: Point { x: x1, y: y1 } }
}

fn collect(tree: &Tree<Rect>) -> Vec<(usize, Rect)> {
    let mut out = Vec::new();
    let mut it = tree.iter();
    while let Some((d, r)) = it.next() {
        out.push((d, *r));
    }
    out
}

#[test]
fn three_nested_squares_form_a_chain() {
    let a = rect(0, 0, 10, 10);
    let b = rect(2, 2, 8, 8);
    let c = rect(4, 4, 6, 6);
    let tree = Tree::from_polygon(vec![b, c, a]);
    assert_eq!(collect(&tree), vec![(0, a), (1, b), (2, c)]);

    let root = tree.root().as_ref().unwrap();
    let level0 = root.children();
    assert_eq!(level0.len(), 1);
    assert_eq!(*level0[0].value(), a);
    let level1 = level0[0].children();
    assert_eq!(level1.len(), 1);
    assert_eq!(*level1[0].value(), b);
    let level2 = level1[0].children();
    assert_eq!(level2.len(), 1);
    assert_eq!(*level2[0].value(), c);
    assert_eq!(level2[0].children().len(), 0);
}

#[test]
fn two_disjoint_squares_are_both_roots() {
    let a = rect(0, 0, 5, 5);
    let b = rect(10, 10, 15, 15);
    let tree = Tree::from_polygon(vec![a, b]);
    let got = collect(&tree);
    assert_eq!(got.len(), 2);
    assert!(got[0].0 == 0 && got[1].0 == 0);
    assert!(
        (got[0].1 == a && got[1].1 == b) || (got[0].1 == b && got[1].1 == a)
    );
}

#[test]
fn zero_area_shape_attaches_below_an_enclosing_shape() {
    // A degenerate rectangle still has a representative point, and the
    // area test `area(enclosing) >= 0` holds trivially, so it nests.
    let a = rect(0, 0, 10, 10);
    let c = rect(3, 3, 3, 3);
    assert_eq!(c.area(), 0);
    let tree = Tree::from_polygon(vec![c, a]);
    assert_eq!(collect(&tree), vec![(0, a), (1, c)]);
}

#[test]
fn empty_input_builds_an_empty_tree() {
    let tree = Tree::from_polygon(Vec::new());
    assert!(collect(&tree).is_empty());
    let root = tree.root().as_ref().unwrap();
    assert_eq!(root.children().len(), 0);
}

#[test]
fn equal_area_shapes_keep_input_order() {
    let x = rect(0, 0, 4, 4);
    let y = rect(10, 0, 14, 4);
    let tree = Tree::from_polygon(vec![x, y]);
    assert_eq!(collect(&tree), vec![(0, x), (0, y)]);
    let tree2 = Tree::from_polygon(vec![y, x]);
    assert_eq!(collect(&tree2), vec![(0, y), (0, x)]);
}

#[test]
fn repeated_borrowing_traversals_are_identical() {
    let shapes = vec![rect(0, 0, 9, 9), rect(1, 1, 4, 4), rect(5, 5, 8, 8), rect(2, 2, 3, 3)];
    let tree = Tree::from_polygon(shapes);
    let first = collect(&tree);
    let second = collect(&tree);
    assert_eq!(first, second);
    assert_eq!(first.len(), 4);
}

#[test]
fn consuming_traversal_matches_borrowing_traversal() {
    let shapes = vec![rect(0, 0, 9, 9), rect(1, 1, 4, 4), rect(5, 5, 8, 8)];
    let tree = Tree::from_polygon(shapes);
    let borrowed = collect(&tree);
    let mut owned = Vec::new();
    let mut it = tree.into_iter();
    while let Some((d, r)) = it.next() {
        owned.push((d, r));
    }
    assert_eq!(borrowed, owned);
}

#[test]
fn traversal_is_breadth_first() {
    // Two top-level squares, each with one nested square: both depth-0
    // reports must come before any depth-1 report.
    let a = rect(0, 0, 10, 10);
    let a_in = rect(1, 1, 3, 3);
    let b = rect(20, 0, 30, 10);
    let b_in = rect(21, 1, 23, 3);
    let tree = Tree::from_polygon(vec![a_in, b, b_in, a]);
    let got = collect(&tree);
    let depths: Vec<usize> = got.iter().map(|p| p.0).collect();
    assert_eq!(depths, vec![0, 0, 1, 1]);
}

#[test]
fn add_node_places_values_under_containing_children() {
    let mut root = TreeNode::new(rect(-100, -100, 100, 100));
    root.add_node(rect(0, 0, 10, 10));
    root.add_node(rect(2, 2, 8, 8));
    root.add_node(rect(50, 50, 60, 60));
    let children = root.children();
    assert_eq!(children.len(), 2);
    assert_eq!(*children[0].value(), rect(0, 0, 10, 10));
    assert_eq!(*children[1].value(), rect(50, 50, 60, 60));
    let nested = children[0].children();
    assert_eq!(nested.len(), 1);
    assert_eq!(*nested[0].value(), rect(2, 2, 8, 8));
}

#[test]
fn iterator_len_counts_what_is_left() {
    let tree = Tree::from_polygon(vec![rect(0, 0, 5, 5), rect(10, 10, 12, 12)]);
    let mut it = tree.iter();
    assert_eq!(it.len(), 2);
    assert!(it.next().is_some());
    assert_eq!(it.len(), 1);
    assert!(it.next().is_some());
    assert_eq!(it.len(), 0);
    assert!(it.next().is_none());
    assert_eq!(it.len(), 0);
}

#[test]
fn labeled_shapes_carry_their_identifiers_through() {
    let shapes = vec![
        Labeled { label: 7u64, shape: rect(2, 2, 8, 8) },
        Labeled { label: 1u64, shape: rect(0, 0, 10, 10) },
    ];
    let tree = Tree::from_polygon_id(shapes, 0u64);
    let mut it = tree.iter();
    let (d0, first) = it.next().unwrap();
    assert_eq!(d0, 0);
    assert_eq!(first.label, 1);
    assert_eq!(first.shape, rect(0, 0, 10, 10));
    let (d1, second) = it.next().unwrap();
    assert_eq!(d1, 1);
    assert_eq!(second.label, 7);
    assert!(it.next().is_none());
}

#[test]
fn rectangle_measures_are_exact() {
    let a = rect(0, 0, 10, 10);
    assert_eq!(a.area(), 100);
    assert_eq!(a.center_point(), Point { x: 5, y: 5 });
    assert_eq!(a.bounding_rect(), (Point { x: 0, y: 0 }, Point { x: 10, y: 10 }));
    assert!(a.contains_point(Point { x: 0, y: 10 }));
    assert!(!a.contains_point(Point { x: 11, y: 5 }));
    let b = rect(2, 2, 8, 8);
    assert!(a.contains_shape(&b));
    assert!(!b.contains_shape(&a));
}

#[test]
fn ancestors_have_larger_area_and_hold_descendant_centers() {
    let shapes = vec![rect(4, 4, 6, 6), rect(0, 0, 10, 10), rect(2, 2, 8, 8)];
    let tree = Tree::from_polygon(shapes);
    let root = tree.root().as_ref().unwrap();
    let mut stack: Vec<&TreeNode<Rect>> = root.children();
    while let Some(node) = stack.pop() {
        let ancestor = *node.value();
        for child in node.children() {
            let below = *child.value();
            assert!(ancestor.area() >= below.area());
            assert!(ancestor.contains_point(below.center_point()));
        }
        let mut children = node.children();
        stack.append(&mut children);
    }
}

#[test]
fn traversal_reports_every_input_exactly_once() {
    // Two identical squares: the later one nests inside the earlier one,
    // and both still appear exactly once in the traversal.
    let twin = rect(0, 0, 6, 6);
    let lone = rect(20, 20, 21, 21);
    let tree = Tree::from_polygon(vec![twin, lone, twin]);
    let got = collect(&tree);
    assert_eq!(got.len(), 3);
    let twins = got.iter().filter(|p| p.1 == twin).count();
    let lones = got.iter().filter(|p| p.1 == lone).count();
    assert_eq!(twins, 2);
    assert_eq!(lones, 1);
    assert_eq!(got[got.len() - 1], (1, twin));
}

#[test]
fn sorting_orders_by_descending_area_and_keeps_ties_stable() {
    let small = rect(0, 0, 2, 2);
    let big = rect(0, 0, 20, 20);
    let mid_a = rect(0, 0, 5, 5);
    let mid_b = rect(30, 30, 35, 35);
    let sorted = sort_shapes_by_area(vec![mid_a, small, mid_b, big]);
    assert_eq!(sorted, vec![big, mid_a, mid_b, small]);
}

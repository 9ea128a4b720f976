//! The containment tree: a recursive node structure built by greedy
//! insertion and flattened by breadth-first traversal.
//!
//! Every executable operation is specified against the mathematical model
//! in `crate::model`.

use vstd::prelude::*;
use vstd::multiset::Multiset;

use crate::model::SpecNode;
use crate::model::bfs;
use crate::model::depth_pairs_forest;
use crate::model::depths_monotone;
use crate::model::first_match;
use crate::model::in_forest;
use crate::model::leaf;
use crate::model::lemma_ancestor_contains;
use crate::model::lemma_bfs_level_order;
use crate::model::lemma_bfs_pairs;
use crate::model::lemma_bfs_values;
use crate::model::lemma_first_match_is;
use crate::model::lemma_place_all_snoc;
use crate::model::level_shaped;
use crate::model::lemma_place_all;
use crate::model::lemma_place_forest;
use crate::model::lemma_place_node;
use crate::model::lemma_queue_pairs_tag;
use crate::model::lemma_queue_values_tag;
use crate::model::lemma_total_size_concat;
use crate::model::lemma_total_size_tag;
use crate::model::nested_forest;
use crate::model::nested_node;
use crate::model::place_all;
use crate::model::place_forest;
use crate::model::place_node;
use crate::model::size_forest;
use crate::model::size_node;
use crate::model::strip_depths;
use crate::model::tag_children;
use crate::model::total_size;
use crate::model::traversal_forest;
use crate::model::values_forest;
use crate::shape::Point;
use crate::shape::Shape;
use crate::shape::spec_contains_shape;

verus! {

/// One node of the containment tree: a shape value, its measures cached at
/// construction, and the nodes of the shapes directly nested inside it.
pub struct TreeNode<T: Shape> {
    value: T,
    bounding_rect: (Point, Point),
    center_point: Point,
    area: u64,
    children: Vec<TreeNode<T>>,
}

/// The containment tree itself: an optional root node whose value serves
/// only as a container; the result set is the root's descendants.
pub struct Tree<T: Shape> {
    root: Option<TreeNode<T>>,
}

/// The model of a sequence of sibling nodes, in order.
pub closed spec fn model_forest<T: Shape>(s: Seq<TreeNode<T>>) -> Seq<SpecNode<T>>
    decreases s,
{
    if s.len() == 0 {
        Seq::empty()
    } else {
        seq![model_node(s[0])] + model_forest(s.drop_first())
    }
}

/// The model of one node's subtree.
pub closed spec fn model_node<T: Shape>(n: TreeNode<T>) -> SpecNode<T>
    decreases n,
{
    SpecNode { value: n.value, children: model_forest(n.children@) }
}

/// Well-formedness of sibling nodes: every node's caches agree with its
/// shape and every shape is valid for the capability's methods.
pub closed spec fn wf_forest<T: Shape>(s: Seq<TreeNode<T>>) -> bool
    decreases s,
{
    if s.len() == 0 {
        true
    } else {
        wf_node(s[0]) && wf_forest(s.drop_first())
    }
}

/// Well-formedness of one node's subtree.
pub closed spec fn wf_node<T: Shape>(n: TreeNode<T>) -> bool
    decreases n,
{
    &&& n.value.wf()
    &&& n.area as nat == n.value.spec_area()
    &&& n.center_point == n.value.spec_center()
    &&& n.bounding_rect == n.value.spec_bounding_rect()
    &&& wf_forest(n.children@)
}

/// Index form of the forest model and of forest well-formedness.
pub proof fn lemma_model_forest_index<T: Shape>(s: Seq<TreeNode<T>>)
    ensures
        model_forest(s).len() == s.len(),
        forall|i: int| 0 <= i < s.len() ==> model_forest(s)[i] == model_node(s[i]),
        wf_forest(s) ==> forall|i: int| 0 <= i < s.len() ==> wf_node(s[i]),
    decreases s,
{
    if s.len() > 0 {
        lemma_model_forest_index(s.drop_first());
        assert forall|i: int| 0 <= i < s.len() implies model_forest(s)[i] == model_node(
            s[i],
        ) by {
            if i > 0 {
                assert(model_forest(s)[i] == model_forest(s.drop_first())[i - 1]);
                assert(s.drop_first()[i - 1] == s[i]);
            }
        }
        if wf_forest(s) {
            assert forall|i: int| 0 <= i < s.len() implies wf_node(s[i]) by {
                if i > 0 {
                    assert(s.drop_first()[i - 1] == s[i]);
                }
            }
        }
    }
}

/// Rebuilding lemmas: how the forest model tracks vector edits.
pub proof fn lemma_model_forest_push<T: Shape>(s: Seq<TreeNode<T>>, x: TreeNode<T>)
    ensures
        model_forest(s.push(x)) == model_forest(s).push(model_node(x)),
        wf_forest(s) && wf_node(x) ==> wf_forest(s.push(x)),
    decreases s,
{
    assert(s.push(x)[0] == if s.len() == 0 { x } else { s[0] });
    if s.len() == 0 {
        assert(s.push(x).drop_first() =~= Seq::<TreeNode<T>>::empty());
        assert(model_forest(s.push(x)) == seq![model_node(x)] + model_forest(
            Seq::<TreeNode<T>>::empty(),
        ));
        assert(model_forest(s.push(x)) =~= model_forest(s).push(model_node(x)));
        if wf_node(x) {
            assert(wf_node(s.push(x)[0]));
            assert(wf_forest(Seq::<TreeNode<T>>::empty()));
            assert(wf_forest(s.push(x).drop_first()));
            assert(wf_forest(s.push(x)));
        }
    } else {
        assert(s.push(x).drop_first() =~= s.drop_first().push(x));
        lemma_model_forest_push(s.drop_first(), x);
        assert(model_forest(s.push(x)) == seq![model_node(s[0])] + model_forest(
            s.drop_first().push(x),
        ));
        assert(model_forest(s.push(x)) =~= model_forest(s).push(model_node(x)));
        if wf_forest(s) && wf_node(x) {
            assert(wf_node(s.push(x)[0]));
            assert(wf_forest(s.push(x).drop_first()));
            assert(wf_forest(s.push(x)));
        }
    }
}

pub proof fn lemma_model_forest_update<T: Shape>(s: Seq<TreeNode<T>>, i: int, x: TreeNode<T>)
    requires
        0 <= i < s.len(),
    ensures
        model_forest(s.update(i, x)) == model_forest(s).update(i, model_node(x)),
        wf_forest(s) && wf_node(x) ==> wf_forest(s.update(i, x)),
    decreases s,
{
    lemma_model_forest_index(s);
    lemma_model_forest_index(s.update(i, x));
    if i == 0 {
        assert(s.update(0, x).drop_first() =~= s.drop_first());
        assert(s.update(0, x)[0] == x);
        assert(model_forest(s.update(0, x)) == seq![model_node(x)] + model_forest(
            s.drop_first(),
        ));
        assert(model_forest(s.update(0, x)) =~= model_forest(s).update(0, model_node(x)));
    } else {
        assert(s.update(i, x).drop_first() =~= s.drop_first().update(i - 1, x));
        assert(s.update(i, x)[0] == s[0]);
        lemma_model_forest_update(s.drop_first(), i - 1, x);
        assert(model_forest(s.update(i, x)) == seq![model_node(s[0])] + model_forest(
            s.drop_first().update(i - 1, x),
        ));
        assert(model_forest(s.update(i, x)) =~= model_forest(s).update(i, model_node(x)));
    }
}

impl<T: Shape> TreeNode<T> {
    /// The subtree's model, the quantity all contracts speak about.
    pub closed spec fn model(self) -> SpecNode<T> {
        model_node(self)
    }

    /// Validity of the node's own caches and subtree.
    pub closed spec fn inv(self) -> bool {
        wf_node(self)
    }

    /// Validity of the node's children alone, as required of a container
    /// root whose own value is never consulted.
    pub closed spec fn children_ok(self) -> bool {
        wf_forest(self.children@) && nested_forest(model_forest(self.children@))
    }

    /// A fresh childless node for `value`, its bounding box, representative
    /// point and area computed once and cached.
    pub fn new(value: T) -> (r: Self)
        requires
            value.wf(),
        ensures
            r.inv(),
            r.children_ok(),
            r.model() == leaf(value),
    {
        let bounding_rect = value.bounding_rect();
        let center_point = value.center_point();
        let area = value.area();
        let r = TreeNode { value, bounding_rect, center_point, area, children: Vec::new() };
        proof {
            assert(model_forest(r.children@) =~= Seq::<SpecNode<T>>::empty());
            assert(r.model() =~= leaf(r.value));
        }
        r
    }

    /// Attaches `elem` below this node: it descends into the first child
    /// whose shape contains it, recursively, and becomes a direct child of
    /// the deepest node reached; if no child's shape contains it, it
    /// becomes a direct child of this node itself.  This node's own shape
    /// is never consulted, so the node may be a pure container root.
    pub fn add_node(&mut self, elem: T)
        requires
            elem.wf(),
            old(self).children_ok(),
        ensures
            final(self).children_ok(),
            final(self).model().value == old(self).model().value,
            final(self).model().children == place_forest(
                old(self).model().children,
                leaf(elem),
            ),
            old(self).inv() ==> final(self).inv(),
    {
        proof {
            lemma_place_forest(model_forest(self.children@), leaf(elem));
        }
        let node = TreeNode::new(elem);
        let idx = find_containing(&self.children, &node);
        proof {
            crate::model::lemma_first_match(model_forest(self.children@), node.model().value);
            lemma_model_forest_index(self.children@);
        }
        if idx < self.children.len() {
            proof {
                crate::model::lemma_nested_forest_index(
                    model_forest(self.children@),
                    idx as int,
                );
            }
            let ghost s0 = self.children@;
            let c = self.children.remove(idx);
            let c2 = insert_under(c, node);
            self.children.insert(idx, c2);
            proof {
                assert(self.children@ =~= s0.update(idx as int, c2));
                lemma_model_forest_update(s0, idx as int, c2);
                assert(model_forest(self.children@) =~= place_forest(
                    model_forest(s0),
                    leaf(elem),
                ));
            }
        } else {
            let ghost s0 = self.children@;
            self.children.push(node);
            proof {
                lemma_model_forest_push(s0, node);
                assert(model_forest(self.children@) =~= place_forest(
                    model_forest(s0),
                    leaf(elem),
                ));
            }
        }
    }

    /// The shape value held by this node.
    pub fn value(&self) -> (r: &T)
        ensures
            *r == self.model().value,
    {
        &self.value
    }

    /// The node's direct children, in insertion order.
    pub fn children(&self) -> (r: Vec<&TreeNode<T>>)
        ensures
            r@.len() == self.model().children.len(),
            forall|i: int|
                0 <= i < r@.len() ==> (#[trigger] r@[i]).model() == self.model().children[i],
    {
        proof {
            lemma_model_forest_index(self.children@);
        }
        let mut r: Vec<&TreeNode<T>> = Vec::new();
        let n = self.children.len();
        let mut i: usize = 0;
        while i < n
            invariant
                n == self.children@.len(),
                i <= n,
                r@.len() == i,
                forall|j: int|
                    0 <= j < i as int ==> (#[trigger] r@[j]).model() == self.model().children[
                        j
                    ],
            decreases n - i,
        {
            r.push(&self.children[i]);
            proof {
                lemma_model_forest_index(self.children@);
                assert(r@[i as int].model() == model_node(self.children@[i as int]));
            }
            i += 1;
        }
        r
    }
}

impl<T: Shape> Tree<T> {
    /// Every tree ever handed out has a nested, well-formed forest of
    /// bounded size below its root container.
    #[verifier::type_invariant]
    spec fn type_inv(self) -> bool {
        match self.root {
            Some(r) => r.children_ok() && size_forest(model_forest(r.children@))
                <= usize::MAX,
            None => true,
        }
    }

    /// The models of the root's direct children: the result set of the
    /// tree, since the root's own value is only a container.
    pub closed spec fn forest(self) -> Seq<SpecNode<T>> {
        match self.root {
            Some(r) => model_forest(r.children@),
            None => Seq::empty(),
        }
    }

    /// The multiset of all inserted shapes.
    pub open spec fn values(self) -> Multiset<T> {
        values_forest(self.forest())
    }

    /// The depth-tagged level-order flattening of the tree.
    pub open spec fn traversal(self) -> Seq<(nat, T)> {
        traversal_forest(self.forest())
    }

    /// Builds the tree by inserting the shapes in the given order, each
    /// below the most deeply nested already-placed shape that contains it.
    /// The input must come sorted by descending area: an enclosing shape
    /// has to be placed before the shapes it will contain, because
    /// insertion never re-parents an already-placed node.  The root value
    /// serves purely as a container and is never part of the result.
    pub fn from_sorted(shapes: Vec<T>, root_value: T) -> (t: Tree<T>)
        requires
            forall|i: int| 0 <= i < shapes@.len() ==> (#[trigger] shapes@[i]).wf(),
            forall|i: int, j: int|
                0 <= i <= j < shapes@.len() ==> shapes@[i].spec_area()
                    >= shapes@[j].spec_area(),
        ensures
            t.forest() == place_all(Seq::empty(), shapes@),
            t.values() == shapes@.to_multiset(),
            nested_forest(t.forest()),
            size_forest(t.forest()) == shapes@.len(),
    {
        let ghost all = shapes@;
        let mut shapes = shapes;
        let total = shapes.len();
        proof {
            assert(all.len() == total as nat);
        }
        let mut root = TreeNode {
            value: root_value,
            bounding_rect: (Point { x: 0, y: 0 }, Point { x: 0, y: 0 }),
            center_point: Point { x: 0, y: 0 },
            area: 0,
            children: Vec::new(),
        };
        proof {
            assert(model_forest(root.children@) =~= Seq::<SpecNode<T>>::empty());
            assert(wf_forest(root.children@));
            assert(nested_forest(model_forest(root.children@)));
            assert(all.take(0) =~= Seq::<T>::empty());
            assert(all.len() <= usize::MAX);
        }
        while shapes.len() > 0
            invariant
                all.len() <= usize::MAX,
                shapes@.len() <= all.len(),
                shapes@ == all.skip(all.len() - shapes@.len()),
                forall|i: int| 0 <= i < all.len() ==> (#[trigger] all[i]).wf(),
                root.children_ok(),
                model_forest(root.children@) == place_all(
                    Seq::empty(),
                    all.take(all.len() - shapes@.len()),
                ),
            decreases shapes@.len(),
        {
            let ghost k = all.len() - shapes@.len();
            let s = shapes.remove(0);
            proof {
                assert(all.skip(k as int)[0] == all[k as int]);
                assert(s == all[k as int]);
                assert(s.wf());
            }
            root.add_node(s);
            proof {
                lemma_place_all_snoc(Seq::empty(), all.take(k as int), s);
                assert(all.take(k as int).push(s) =~= all.take(k as int + 1));
                assert(shapes@ =~= all.skip(k as int + 1));
            }
        }
        proof {
            assert(all.take(all.len() as int) =~= all);
            lemma_place_all(Seq::<SpecNode<T>>::empty(), all);
            assert(Multiset::<T>::empty().add(all.to_multiset()) =~= all.to_multiset());
        }
        Tree { root: Some(root) }
    }

    /// Sorts the shapes by descending area — shapes of equal area keeping
    /// their input order — and builds their containment tree under the
    /// given container root.
    pub fn from_shapes(shapes: Vec<T>, root_value: T) -> (t: Tree<T>)
        requires
            forall|i: int| 0 <= i < shapes@.len() ==> (#[trigger] shapes@[i]).wf(),
        ensures
            t.forest() == place_all(Seq::empty(), crate::shape::sort_by_area(shapes@)),
            t.values() == shapes@.to_multiset(),
            nested_forest(t.forest()),
    {
        proof {
            crate::shape::lemma_sort_by_area::<T>(shapes@);
        }
        let sorted = crate::shape::sort_shapes_by_area(shapes);
        Tree::from_sorted(sorted, root_value)
    }

    /// The borrowing level-order traversal: all inserted shapes by
    /// reference, each tagged with its depth, all depth-0 nodes before any
    /// depth-1 node, and so on.  Reading never changes the tree, and the
    /// reported sequence is a function of the tree alone, so repeated
    /// calls on an unmodified tree yield identical sequences.
    pub fn iter<'a>(&'a self) -> (it: TreeNodeDepthIterator<'a, T>)
        ensures
            it.remaining() == self.traversal(),
    {
        proof {
            use_type_invariant(self);
        }
        let ghost forest0 = self.forest();
        let mut queue: Vec<(usize, &'a TreeNode<T>)> = Vec::new();
        let mut out: Vec<(usize, &'a T)> = Vec::new();
        match &self.root {
            None => {
                proof {
                    assert(tag_children(forest0, 0) =~= Seq::<(nat, SpecNode<T>)>::empty());
                }
            },
            Some(root) => {
                let m = root.children.len();
                let mut j: usize = 0;
                while j < m
                    invariant
                        m == root.children@.len(),
                        j <= m,
                        forest0 == model_forest(root.children@),
                        queue@.len() == j,
                        forall|i: int|
                            0 <= i < j as int ==> (#[trigger] queue@[i]).0 == 0
                                && model_node(*queue@[i].1) == forest0[i],
                    decreases m - j,
                {
                    queue.push((0usize, &root.children[j]));
                    proof {
                        lemma_model_forest_index(root.children@);
                    }
                    j += 1;
                }
                proof {
                    lemma_model_forest_index(root.children@);
                    assert(queue_model(queue@) =~= tag_children(forest0, 0));
                }
            },
        }
        proof {
            assert(queue_model(queue@) =~= tag_children(forest0, 0));
            assert(out_model(out@) =~= Seq::<(nat, T)>::empty());
            assert(queue@.skip(0) =~= queue@);
            assert forall|i: int| 0 <= i < queue@.len() implies (#[trigger] queue@[i]).0
                + size_node(model_node(*queue@[i].1)) <= usize::MAX by {
                crate::model::lemma_size_in_forest(forest0, i);
                assert(queue_model(queue@)[i] == tag_children(forest0, 0)[i]);
            }
        }
        let mut head: usize = 0;
        while head < queue.len()
            invariant
                head <= queue@.len(),
                forall|i: int|
                    0 <= i < queue@.len() ==> (#[trigger] queue@[i]).0 + size_node(
                        model_node(*queue@[i].1),
                    ) <= usize::MAX,
                out_model(out@) + bfs(queue_model(queue@.skip(head as int)))
                    == traversal_forest(forest0),
            decreases total_size(queue_model(queue@.skip(head as int))),
        {
            let ghost q0 = queue@;
            let ghost out0 = out@;
            let p = queue[head];
            let d = p.0;
            let n = p.1;
            let ghost dd = d as nat;
            let ghost nm = model_node(*n);
            proof {
                assert(queue_model(q0.skip(head as int))[0] == (dd, nm));
                assert(size_node(nm) == 1 + size_forest(model_forest(n.children@)));
                lemma_model_forest_index(n.children@);
            }
            out.push((d, &n.value));
            let d1 = d + 1;
            let m = n.children.len();
            let mut j: usize = 0;
            while j < m
                invariant
                    m == n.children@.len(),
                    j <= m,
                    d1 as nat == dd + 1,
                    dd + size_node(nm) <= usize::MAX,
                    nm == model_node(*n),
                    size_node(nm) == 1 + size_forest(model_forest(n.children@)),
                    queue@.len() == q0.len() + j,
                    forall|i: int| 0 <= i < q0.len() ==> queue@[i] == q0[i],
                    forall|i: int|
                        0 <= i < j as int ==> (#[trigger] queue@[q0.len() + i]).0 == d1
                            && model_node(*queue@[q0.len() + i].1) == model_forest(
                            n.children@,
                        )[i],
                decreases m - j,
            {
                queue.push((d1, &n.children[j]));
                proof {
                    lemma_model_forest_index(n.children@);
                }
                j += 1;
            }
            proof {
                let news = queue@.skip(q0.len() as int);
                let tagged = tag_children(model_forest(n.children@), (dd + 1) as nat);
                assert forall|i: int| 0 <= i < news.len() implies queue_model(news)[i]
                    == tagged[i] by {
                    assert(news[i] == queue@[q0.len() + i]);
                }
                assert(queue_model(news) =~= tagged);
                assert(queue@.skip(head as int + 1) =~= q0.skip(head as int + 1) + news);
                assert(queue_model(q0.skip(head as int + 1) + news) =~= queue_model(
                    q0.skip(head as int + 1),
                ) + queue_model(news));
                assert(queue_model(q0.skip(head as int)).drop_first() =~= queue_model(
                    q0.skip(head as int + 1),
                ));
                assert(bfs(queue_model(q0.skip(head as int))) == seq![(dd, nm.value)] + bfs(
                    queue_model(queue@.skip(head as int + 1)),
                ));
                assert(out_model(out@) =~= out_model(out0).push((dd, nm.value)));
                assert(out_model(out@) + bfs(queue_model(queue@.skip(head as int + 1)))
                    =~= out_model(out0) + bfs(queue_model(q0.skip(head as int))));
                lemma_total_size_concat(
                    queue_model(q0.skip(head as int + 1)),
                    queue_model(news),
                );
                lemma_total_size_tag(model_forest(n.children@), (dd + 1) as nat);
                assert(total_size(queue_model(q0.skip(head as int))) == size_node(nm)
                    + total_size(queue_model(q0.skip(head as int + 1))));
                assert forall|i: int| 0 <= i < queue@.len() implies (#[trigger] queue@[
                    i
                ]).0 + size_node(model_node(*queue@[i].1)) <= usize::MAX by {
                    if i < q0.len() {
                        assert(queue@[i] == q0[i]);
                        assert(q0[i].0 + size_node(model_node(*q0[i].1)) <= usize::MAX);
                    } else {
                        let k = i - q0.len();
                        assert((#[trigger] queue@[q0.len() + k]).0 == d1 && model_node(
                            *queue@[q0.len() + k].1,
                        ) == model_forest(n.children@)[k]);
                        crate::model::lemma_size_in_forest(model_forest(n.children@), k);
                        assert(queue@[i].0 == d1);
                        assert(model_node(*queue@[i].1) == model_forest(n.children@)[k]);
                        assert(d1 + size_node(model_forest(n.children@)[k]) <= usize::MAX);
                    }
                }
            }
            head = head + 1;
        }
        proof {
            assert(queue_model(queue@.skip(head as int)) =~= Seq::<(nat, SpecNode<T>)>::empty());
            assert(out_model(out@) + bfs(queue_model(queue@.skip(head as int))) =~= out_model(
                out@,
            ));
        }
        TreeNodeDepthIterator { order: out }
    }

    /// The consuming level-order traversal: the same order as `iter`, but
    /// the shapes are moved out and the tree is gone afterwards.
    pub fn into_iter(self) -> (it: TreeNodeDepthIntoIterator<T>)
        ensures
            it.remaining() == self.traversal(),
    {
        proof {
            use_type_invariant(&self);
        }
        let ghost forest0 = self.forest();
        let Tree { root } = self;
        let mut pending: Vec<(usize, TreeNode<T>)> = Vec::new();
        let mut done: Vec<(usize, T)> = Vec::new();
        match root {
            None => {
                proof {
                    assert(tag_children(forest0, 0) =~= Seq::<(nat, SpecNode<T>)>::empty());
                }
            },
            Some(root_node) => {
                let TreeNode { children, .. } = root_node;
                let ghost children0 = children@;
                let mut cs = children;
                while cs.len() > 0
                    invariant
                        forest0 == model_forest(children0),
                        pending@.len() + cs@.len() == children0.len(),
                        cs@ == children0.skip(pending@.len() as int),
                        forall|i: int|
                            0 <= i < pending@.len() ==> (#[trigger] pending@[i]).0 == 0
                                && model_node(pending@[i].1) == forest0[i],
                    decreases cs@.len(),
                {
                    let ghost k = pending@.len() as int;
                    let c = cs.remove(0);
                    pending.push((0usize, c));
                    proof {
                        lemma_model_forest_index(children0);
                        assert(c == children0[k]);
                        assert(cs@ =~= children0.skip(k + 1));
                    }
                }
                proof {
                    lemma_model_forest_index(children0);
                    assert(queue_model_owned(pending@) =~= tag_children(forest0, 0));
                }
            },
        }
        proof {
            assert(queue_model_owned(pending@) =~= tag_children(forest0, 0));
            assert(out_model_owned(done@) =~= Seq::<(nat, T)>::empty());
            assert forall|i: int| 0 <= i < pending@.len() implies (#[trigger] pending@[i]).0
                + size_node(model_node(pending@[i].1)) <= usize::MAX by {
                crate::model::lemma_size_in_forest(forest0, i);
                assert(queue_model_owned(pending@)[i] == tag_children(forest0, 0)[i]);
            }
        }
        while pending.len() > 0
            invariant
                forall|i: int|
                    0 <= i < pending@.len() ==> (#[trigger] pending@[i]).0 + size_node(
                        model_node(pending@[i].1),
                    ) <= usize::MAX,
                out_model_owned(done@) + bfs(queue_model_owned(pending@))
                    == traversal_forest(forest0),
            decreases total_size(queue_model_owned(pending@)),
        {
            let ghost q0 = pending@;
            let ghost out0 = done@;
            let pr = pending.remove(0);
            let ghost dd = pr.0 as nat;
            let ghost nm = model_node(pr.1);
            let (d, n) = pr;
            let TreeNode { value, children, .. } = n;
            let ghost children0 = children@;
            proof {
                assert(q0[0] == (d, n));
                assert(queue_model_owned(q0)[0] == (dd, nm));
                assert(size_node(nm) == 1 + size_forest(model_forest(children0)));
                assert(nm.value == value);
                assert(pending@ =~= q0.drop_first());
            }
            let d1 = d + 1;
            let ghost p0 = pending@;
            let mut cs = children;
            while cs.len() > 0
                invariant
                    d1 as nat == dd + 1,
                    dd + size_node(nm) <= usize::MAX,
                    size_node(nm) == 1 + size_forest(model_forest(children0)),
                    pending@.len() >= p0.len(),
                    pending@.len() - p0.len() + cs@.len() == children0.len(),
                    cs@ == children0.skip(pending@.len() - p0.len()),
                    forall|i: int| 0 <= i < p0.len() ==> pending@[i] == p0[i],
                    forall|i: int|
                        0 <= i < pending@.len() - p0.len() ==> (#[trigger] pending@[p0.len()
                            + i]).0 == d1 && model_node(pending@[p0.len() + i].1)
                            == model_forest(children0)[i],
                decreases cs@.len(),
            {
                let ghost k = pending@.len() - p0.len();
                let c = cs.remove(0);
                pending.push((d1, c));
                proof {
                    lemma_model_forest_index(children0);
                    assert(c == children0[k]);
                    assert(cs@ =~= children0.skip(k + 1));
                }
            }
            done.push((d, value));
            proof {
                lemma_model_forest_index(children0);
                let news = pending@.skip(p0.len() as int);
                let tagged = tag_children(model_forest(children0), (dd + 1) as nat);
                assert forall|i: int| 0 <= i < news.len() implies queue_model_owned(news)[i]
                    == tagged[i] by {
                    assert(news[i] == pending@[p0.len() + i]);
                }
                assert(queue_model_owned(news) =~= tagged);
                assert(pending@ =~= p0 + news);
                assert(queue_model_owned(p0 + news) =~= queue_model_owned(p0)
                    + queue_model_owned(news));
                assert(queue_model_owned(q0).drop_first() =~= queue_model_owned(p0));
                assert(bfs(queue_model_owned(q0)) == seq![(dd, nm.value)] + bfs(
                    queue_model_owned(pending@),
                ));
                assert(out_model_owned(done@) =~= out_model_owned(out0).push((dd, nm.value)));
                assert(out_model_owned(done@) + bfs(queue_model_owned(pending@))
                    =~= out_model_owned(out0) + bfs(queue_model_owned(q0)));
                lemma_total_size_concat(queue_model_owned(p0), queue_model_owned(news));
                lemma_total_size_tag(model_forest(children0), (dd + 1) as nat);
                assert(total_size(queue_model_owned(q0)) == size_node(nm) + total_size(
                    queue_model_owned(p0),
                ));
                assert forall|i: int| 0 <= i < pending@.len() implies (#[trigger] pending@[
                    i
                ]).0 + size_node(model_node(pending@[i].1)) <= usize::MAX by {
                    if i < p0.len() {
                        assert(pending@[i] == p0[i]);
                        assert(p0[i] == q0[i + 1]);
                        assert(q0[i + 1].0 + size_node(model_node(q0[i + 1].1))
                            <= usize::MAX);
                    } else {
                        let k = i - p0.len();
                        assert((#[trigger] pending@[p0.len() + k]).0 == d1 && model_node(
                            pending@[p0.len() + k].1,
                        ) == model_forest(children0)[k]);
                        crate::model::lemma_size_in_forest(model_forest(children0), k);
                        assert(d1 + size_node(model_forest(children0)[k]) <= usize::MAX);
                    }
                }
            }
        }
        proof {
            assert(queue_model_owned(pending@) =~= Seq::<(nat, SpecNode<T>)>::empty());
            assert(out_model_owned(done@) + bfs(queue_model_owned(pending@)) =~= out_model_owned(
                done@,
            ));
        }
        TreeNodeDepthIntoIterator { order: done }
    }

    /// The root node, if the tree has one; its value is the container
    /// value handed to construction, and its children are the result set.
    pub fn root(&self) -> (r: &Option<TreeNode<T>>)
        ensures
            match *r {
                Some(n) => self.forest() == n.model().children,
                None => self.forest() == Seq::<SpecNode<T>>::empty(),
            },
    {
        &self.root
    }
}

/// The model of a breadth-first work queue of owned nodes.
pub closed spec fn queue_model_owned<T: Shape>(s: Seq<(usize, TreeNode<T>)>) -> Seq<
    (nat, SpecNode<T>),
> {
    s.map_values(|p: (usize, TreeNode<T>)| ((p.0 as nat), model_node(p.1)))
}

/// The reported pairs corresponding to a queue of owned values.
pub closed spec fn out_model_owned<T: Shape>(s: Seq<(usize, T)>) -> Seq<(nat, T)> {
    s.map_values(|p: (usize, T)| ((p.0 as nat), p.1))
}

/// The model of a breadth-first work queue of borrowed nodes.
pub closed spec fn queue_model<'a, T: Shape>(s: Seq<(usize, &'a TreeNode<T>)>) -> Seq<
    (nat, SpecNode<T>),
> {
    s.map_values(|p: (usize, &'a TreeNode<T>)| ((p.0 as nat), model_node(*p.1)))
}

/// The reported pairs corresponding to a queue of borrowed values.
pub closed spec fn out_model<'a, T: Shape>(s: Seq<(usize, &'a T)>) -> Seq<(nat, T)> {
    s.map_values(|p: (usize, &'a T)| ((p.0 as nat), *p.1))
}

/// The borrowing level-order traversal: yields each inserted shape by
/// reference, tagged with its depth (direct children of the root at depth
/// 0).  Repeatable: building it never changes the tree.
pub struct TreeNodeDepthIterator<'a, T: Shape> {
    order: Vec<(usize, &'a T)>,
}

impl<'a, T: Shape> TreeNodeDepthIterator<'a, T> {
    /// The depth-tagged values still to be reported, in order.
    pub closed spec fn remaining(self) -> Seq<(nat, T)> {
        out_model(self.order@)
    }

    /// Reports the next depth-tagged shape, or nothing once exhausted.
    pub fn next(&mut self) -> (r: Option<(usize, &'a T)>)
        ensures
            match r {
                Option::None => old(self).remaining().len() == 0 && final(self).remaining()
                    == old(self).remaining(),
                Option::Some(p) => old(self).remaining().len() > 0 && ((p.0 as nat), *p.1)
                    == old(self).remaining()[0] && final(self).remaining() == old(
                    self,
                ).remaining().drop_first(),
            },
    {
        if self.order.len() == 0 {
            None
        } else {
            let p = self.order.remove(0);
            proof {
                assert(self.order@ =~= old(self).order@.drop_first());
                assert(final(self).remaining() =~= old(self).remaining().drop_first());
            }
            Some(p)
        }
    }

    /// How many reports are left.
    pub fn len(&self) -> (n: usize)
        ensures
            n as nat == self.remaining().len(),
    {
        self.order.len()
    }
}

/// The consuming level-order traversal: yields each inserted shape by
/// value, tagged with its depth; the tree is gone once it is built.
pub struct TreeNodeDepthIntoIterator<T: Shape> {
    order: Vec<(usize, T)>,
}

impl<T: Shape> TreeNodeDepthIntoIterator<T> {
    /// The depth-tagged values still to be reported, in order.
    pub closed spec fn remaining(self) -> Seq<(nat, T)> {
        out_model_owned(self.order@)
    }

    /// Reports the next depth-tagged shape, or nothing once exhausted.
    pub fn next(&mut self) -> (r: Option<(usize, T)>)
        ensures
            match r {
                Option::None => old(self).remaining().len() == 0 && final(self).remaining()
                    == old(self).remaining(),
                Option::Some(p) => old(self).remaining().len() > 0 && ((p.0 as nat), p.1)
                    == old(self).remaining()[0] && final(self).remaining() == old(
                    self,
                ).remaining().drop_first(),
            },
    {
        if self.order.len() == 0 {
            None
        } else {
            let p = self.order.remove(0);
            proof {
                assert(self.order@ =~= old(self).order@.drop_first());
                assert(final(self).remaining() =~= old(self).remaining().drop_first());
            }
            Some(p)
        }
    }

    /// How many reports are left.
    pub fn len(&self) -> (n: usize)
        ensures
            n as nat == self.remaining().len(),
    {
        self.order.len()
    }
}

/// Containment monotonicity: for every node `a` of a tree built by this
/// module and every shape `x` strictly below `a`, the ancestor `a`'s shape
/// has at least `x`'s area and holds `x`'s representative point.  The
/// premise `nested_forest(t.forest())` is guaranteed by the constructors.
pub proof fn lemma_tree_containment_monotonic<T: Shape>(t: Tree<T>, a: SpecNode<T>, x: T)
    requires
        nested_forest(t.forest()),
        in_forest(t.forest(), a),
        values_forest(a.children).contains(x),
    ensures
        a.value.spec_area() >= x.spec_area(),
        a.value.spec_contains_point(x.spec_center()),
{
    lemma_ancestor_contains(t.forest(), a, x);
}

/// Completeness: dropping the depth tags, a full traversal reports every
/// inserted shape exactly once — nothing lost, nothing duplicated.
pub proof fn lemma_tree_traversal_complete<T: Shape>(t: Tree<T>)
    ensures
        strip_depths(t.traversal()).to_multiset() == t.values(),
{
    lemma_bfs_values(tag_children(t.forest(), 0));
    lemma_queue_values_tag(t.forest(), 0);
}

/// Depth consistency: the traversal reports each shape tagged with its
/// structural depth — direct children of the root at depth 0, and each
/// node one level below its parent, so a node's tag is the number of its
/// proper ancestors.
pub proof fn lemma_tree_traversal_depths<T: Shape>(t: Tree<T>)
    ensures
        t.traversal().to_multiset() == depth_pairs_forest(t.forest(), 0),
{
    lemma_bfs_pairs(tag_children(t.forest(), 0));
    lemma_queue_pairs_tag(t.forest(), 0);
}

/// Traversal order: the traversal is breadth first — all depth-0 reports
/// come before any depth-1 report, and so on.
pub proof fn lemma_tree_traversal_level_order<T: Shape>(t: Tree<T>)
    ensures
        depths_monotone(t.traversal()),
{
    assert(level_shaped(tag_children(t.forest(), 0)));
    lemma_bfs_level_order(tag_children(t.forest(), 0));
}

/// Idempotent read: the borrowing traversal is a function of the tree
/// alone, so any two traversals of the same unmodified tree — as `iter`
/// hands them out — report identical sequences.
pub proof fn lemma_tree_iter_repeatable<'a, T: Shape>(
    t: Tree<T>,
    it1: TreeNodeDepthIterator<'a, T>,
    it2: TreeNodeDepthIterator<'a, T>,
)
    requires
        it1.remaining() == t.traversal(),
        it2.remaining() == t.traversal(),
    ensures
        it1.remaining() == it2.remaining(),
{
}

/// The index of the first child whose shape contains `elem`'s shape per
/// the approximate test, or the child count if no child's shape does.
fn find_containing<T: Shape>(children: &Vec<TreeNode<T>>, elem: &TreeNode<T>) -> (i: usize)
    requires
        wf_forest(children@),
        wf_node(*elem),
    ensures
        i as int == first_match(model_forest(children@), model_node(*elem).value),
        i <= children@.len(),
{
    proof {
        lemma_model_forest_index(children@);
    }
    let n = children.len();
    let mut j: usize = 0;
    while j < n
        invariant
            n == children@.len(),
            wf_forest(children@),
            wf_node(*elem),
            j <= n,
            forall|k: int|
                0 <= k < j as int ==> !spec_contains_shape(
                    (#[trigger] model_forest(children@)[k]).value,
                    model_node(*elem).value,
                ),
        decreases n - j,
    {
        proof {
            lemma_model_forest_index(children@);
        }
        if children[j].value.contains_shape(&elem.value) {
            proof {
                lemma_first_match_is(
                    model_forest(children@),
                    model_node(*elem).value,
                    j as int,
                );
            }
            return j;
        }
        j += 1;
    }
    proof {
        lemma_first_match_is(model_forest(children@), model_node(*elem).value, n as int);
    }
    n
}

/// Places `elem` in the subtree of `node`, whose shape is known to contain
/// it: it descends into the first child whose shape contains it, and joins
/// the children of the deepest node reached.
fn insert_under<T: Shape>(node: TreeNode<T>, elem: TreeNode<T>) -> (r: TreeNode<T>)
    requires
        wf_node(node),
        nested_node(model_node(node)),
        wf_node(elem),
        elem.model().children.len() == 0,
        spec_contains_shape(model_node(node).value, model_node(elem).value),
    ensures
        wf_node(r),
        model_node(r) == place_node(model_node(node), leaf(model_node(elem).value)),
        nested_node(model_node(r)),
    decreases node,
{
    proof {
        assert(model_node(elem) =~= leaf(model_node(elem).value));
        lemma_place_node(model_node(node), model_node(elem));
    }
    let ghost n0 = node;
    let TreeNode { value, bounding_rect, center_point, area, children } = node;
    let mut children = children;
    let idx = find_containing(&children, &elem);
    proof {
        crate::model::lemma_first_match(model_forest(children@), model_node(elem).value);
        lemma_model_forest_index(children@);
    }
    if idx < children.len() {
        proof {
            crate::model::lemma_nested_forest_index(model_forest(children@), idx as int);
        }
        let ghost s0 = children@;
        let c = children.remove(idx);
        proof {
            assert(c == n0.children@[idx as int]);
        }
        let c2 = insert_under(c, elem);
        children.insert(idx, c2);
        proof {
            assert(children@ =~= s0.update(idx as int, c2));
            lemma_model_forest_update(s0, idx as int, c2);
            assert(model_forest(children@) =~= place_forest(
                model_forest(s0),
                leaf(model_node(elem).value),
            ));
        }
    } else {
        let ghost s0 = children@;
        children.push(elem);
        proof {
            lemma_model_forest_push(s0, elem);
            assert(model_forest(children@) =~= place_forest(
                model_forest(s0),
                leaf(model_node(elem).value),
            ));
        }
    }
    let r = TreeNode { value, bounding_rect, center_point, area, children };
    proof {
        assert(model_node(r) =~= place_node(model_node(n0), leaf(model_node(elem).value)));
    }
    r
}

} // verus!

//! Mathematical model of the containment tree.
//!
//! A tree node is modelled as a value together with the sequence of its
//! direct children's models.  All contracts of the executable structures are
//! stated against this model: the greedy insertion rule (`place_forest`), the
//! breadth-first flattening (`bfs`), the contents of a forest
//! (`values_forest`), and the nesting invariant (`nested_forest`).

use vstd::prelude::*;
use vstd::multiset::Multiset;
use vstd::seq_lib::*;

use crate::shape::Shape;
use crate::shape::spec_contains_shape;

verus! {

/// The model of one tree node: its shape value and the models of the shapes
/// directly nested inside it, in insertion order.
#[verifier::ext_equal]
pub struct SpecNode<T> {
    pub value: T,
    pub children: Seq<SpecNode<T>>,
}

/// The model of a node with no children yet.
pub open spec fn leaf<T>(v: T) -> SpecNode<T> {
    SpecNode { value: v, children: Seq::empty() }
}

/// Number of nodes in a forest, children included.
pub open spec fn size_forest<T>(s: Seq<SpecNode<T>>) -> nat
    decreases s,
{
    if s.len() == 0 {
        0
    } else {
        size_node(s[0]) + size_forest(s.drop_first())
    }
}

/// Number of nodes in a subtree, the node itself included.
pub open spec fn size_node<T>(n: SpecNode<T>) -> nat
    decreases n,
{
    1 + size_forest(n.children)
}

/// All shape values held in a forest, as a multiset.
pub open spec fn values_forest<T>(s: Seq<SpecNode<T>>) -> Multiset<T>
    decreases s,
{
    if s.len() == 0 {
        Multiset::empty()
    } else {
        values_node(s[0]).add(values_forest(s.drop_first()))
    }
}

/// All shape values held in a subtree, the node's own value included.
pub open spec fn values_node<T>(n: SpecNode<T>) -> Multiset<T>
    decreases n,
{
    Multiset::singleton(n.value).add(values_forest(n.children))
}

/// Whether `v` contains, per the approximate test, every shape in `m`.
pub open spec fn encloses_all<T: Shape>(v: T, m: Multiset<T>) -> bool {
    forall|x: T| m.contains(x) ==> spec_contains_shape(v, x)
}

/// The nesting invariant of a forest: every node contains, per the
/// approximate test, every shape in its subtree below it.
pub open spec fn nested_forest<T: Shape>(s: Seq<SpecNode<T>>) -> bool
    decreases s,
{
    if s.len() == 0 {
        true
    } else {
        nested_node(s[0]) && nested_forest(s.drop_first())
    }
}

/// The nesting invariant of a subtree: the node's shape contains every
/// descendant's shape, and its children's subtrees are nested in turn.
pub open spec fn nested_node<T: Shape>(n: SpecNode<T>) -> bool
    decreases n,
{
    nested_forest(n.children) && encloses_all(n.value, values_forest(n.children))
}

/// Containment monotonicity: if a nested subtree rooted in `n` holds the
/// shape `x` strictly below `n`, then `n`'s shape has at least `x`'s area
/// and `x`'s representative point lies inside `n`'s shape.  Applied along a
/// path, this says every ancestor contains every shape below it.
pub proof fn lemma_containment_monotonic<T: Shape>(n: SpecNode<T>, x: T)
    requires
        nested_node(n),
        values_forest(n.children).contains(x),
    ensures
        n.value.spec_area() >= x.spec_area(),
        n.value.spec_contains_point(x.spec_center()),
{
    assert(spec_contains_shape(n.value, x));
}

/// Index form of `nested_forest`: each member subtree is nested.
pub proof fn lemma_nested_forest_index<T: Shape>(s: Seq<SpecNode<T>>, i: int)
    requires
        nested_forest(s),
        0 <= i < s.len(),
    ensures
        nested_node(s[i]),
    decreases s,
{
    if i > 0 {
        lemma_nested_forest_index(s.drop_first(), i - 1);
    }
}

/// A member subtree is never larger than its whole forest.
pub proof fn lemma_size_in_forest<T>(s: Seq<SpecNode<T>>, i: int)
    requires
        0 <= i < s.len(),
    ensures
        size_node(s[i]) <= size_forest(s),
    decreases s,
{
    if i > 0 {
        lemma_size_in_forest(s.drop_first(), i - 1);
    }
}

/// The index of the first subtree in `s` whose root shape contains `v`
/// per the approximate test, or `s.len()` if no root shape does.
pub open spec fn first_match<T: Shape>(s: Seq<SpecNode<T>>, v: T) -> int
    decreases s,
{
    if s.len() == 0 {
        0
    } else if spec_contains_shape(s[0].value, v) {
        0
    } else {
        1 + first_match(s.drop_first(), v)
    }
}

/// Characterization of `first_match`: it is in range, no earlier root shape
/// contains `v`, and when it is a proper index that root shape contains `v`.
pub proof fn lemma_first_match<T: Shape>(s: Seq<SpecNode<T>>, v: T)
    ensures
        0 <= first_match(s, v) <= s.len(),
        forall|j: int|
            0 <= j < first_match(s, v) ==> !spec_contains_shape(s[j].value, v),
        first_match(s, v) < s.len() ==> spec_contains_shape(
            s[first_match(s, v)].value,
            v,
        ),
    decreases s,
{
    if s.len() > 0 && !spec_contains_shape(s[0].value, v) {
        lemma_first_match(s.drop_first(), v);
        assert forall|j: int| 0 <= j < first_match(s, v) implies !spec_contains_shape(
            s[j].value,
            v,
        ) by {
            if j > 0 {
                assert(s.drop_first()[j - 1] == s[j]);
            }
        }
    }
}

/// `first_match` is pinned down by its characteristic properties.
pub proof fn lemma_first_match_is<T: Shape>(s: Seq<SpecNode<T>>, v: T, i: int)
    requires
        0 <= i <= s.len(),
        forall|j: int| 0 <= j < i ==> !spec_contains_shape(s[j].value, v),
        i < s.len() ==> spec_contains_shape(s[i].value, v),
    ensures
        first_match(s, v) == i,
    decreases s,
{
    if s.len() > 0 && i > 0 {
        assert(!spec_contains_shape(s[0].value, v));
        assert forall|j: int| 0 <= j < i - 1 implies !spec_contains_shape(
            s.drop_first()[j].value,
            v,
        ) by {
            assert(s.drop_first()[j] == s[j + 1]);
        }
        assert(i - 1 < s.drop_first().len() ==> spec_contains_shape(
            s.drop_first()[i - 1].value,
            v,
        ));
        lemma_first_match_is(s.drop_first(), v, i - 1);
    }
}

/// The greedy placement rule on a forest: the new leaf descends into the
/// first subtree whose root shape contains it; if no root shape does, it
/// becomes a new last member of the forest.
pub open spec fn place_forest<T: Shape>(s: Seq<SpecNode<T>>, e: SpecNode<T>) -> Seq<SpecNode<T>>
    decreases s,
{
    let i = first_match(s, e.value);
    if 0 <= i && i < s.len() {
        s.update(i, place_node(s[i], e))
    } else {
        s.push(e)
    }
}

/// The greedy placement rule below one node whose shape contains the new
/// leaf: the leaf is placed within the node's children by the same rule.
pub open spec fn place_node<T: Shape>(n: SpecNode<T>, e: SpecNode<T>) -> SpecNode<T>
    decreases n,
{
    SpecNode { value: n.value, children: place_forest(n.children, e) }
}

/// Placing a leaf in a nested forest keeps it nested, adds exactly that
/// value to its contents, and grows it by one node.
pub proof fn lemma_place_forest<T: Shape>(s: Seq<SpecNode<T>>, e: SpecNode<T>)
    requires
        nested_forest(s),
        e.children == Seq::<SpecNode<T>>::empty(),
    ensures
        nested_forest(place_forest(s, e)),
        values_forest(place_forest(s, e)) == values_forest(s).insert(e.value),
        size_forest(place_forest(s, e)) == size_forest(s) + 1,
    decreases s,
{
    lemma_first_match(s, e.value);
    let i = first_match(s, e.value);
    let r = place_forest(s, e);
    if s.len() == 0 {
        assert(r == seq![e]);
        assert(r.drop_first() =~= Seq::<SpecNode<T>>::empty());
        assert(values_node(e) =~= Multiset::singleton(e.value));
        assert(values_forest(r) =~= values_forest(s).insert(e.value));
        assert(nested_node(e));
        assert(size_forest(r) == size_node(e) + size_forest(r.drop_first()));
    } else if i == 0 {
        lemma_place_node(s[0], e);
        let p = place_node(s[0], e);
        assert(r == s.update(0, p));
        assert(r[0] == p);
        assert(r.drop_first() =~= s.drop_first());
        assert(values_forest(r) == values_node(p).add(values_forest(s.drop_first())));
        assert(values_forest(r) =~= values_forest(s).insert(e.value));
        assert(size_forest(r) == size_node(p) + size_forest(s.drop_first()));
        assert(size_forest(s) == size_node(s[0]) + size_forest(s.drop_first()));
    } else {
        let st = s.drop_first();
        assert(first_match(st, e.value) == i - 1);
        lemma_place_forest(st, e);
        if i < s.len() {
            let p = place_node(s[i], e);
            assert(st[i - 1] == s[i]);
            assert(place_forest(st, e) == st.update(i - 1, p));
            assert(r == s.update(i, p));
            assert(r[0] == s[0]);
            assert(r.drop_first() =~= st.update(i - 1, p));
        } else {
            assert(place_forest(st, e) == st.push(e));
            assert(r == s.push(e));
            assert(r[0] == s[0]);
            assert(r.drop_first() =~= st.push(e));
        }
        assert(values_forest(r) == values_node(r[0]).add(values_forest(r.drop_first())));
        assert(values_forest(r) =~= values_forest(s).insert(e.value));
        assert(size_forest(r) == size_node(r[0]) + size_forest(r.drop_first()));
        assert(size_forest(s) == size_node(s[0]) + size_forest(st));
    }
}

/// Placing a leaf below a node whose shape contains it keeps the subtree
/// nested, adds exactly that value, and grows the subtree by one node.
pub proof fn lemma_place_node<T: Shape>(n: SpecNode<T>, e: SpecNode<T>)
    requires
        nested_node(n),
        e.children == Seq::<SpecNode<T>>::empty(),
        spec_contains_shape(n.value, e.value),
    ensures
        place_node(n, e).value == n.value,
        nested_node(place_node(n, e)),
        values_node(place_node(n, e)) == values_node(n).insert(e.value),
        size_node(place_node(n, e)) == size_node(n) + 1,
    decreases n,
{
    lemma_place_forest(n.children, e);
    let p = place_node(n, e);
    assert(values_node(p) =~= values_node(n).insert(e.value));
    assert forall|x: T| values_forest(p.children).contains(x) implies spec_contains_shape(
        n.value,
        x,
    ) by {
        if x != e.value {
            assert(values_forest(n.children).contains(x));
        }
    }
}

/// Building a forest by placing the given values one after the other,
/// each as a fresh leaf, starting from `s`.
pub open spec fn place_all<T: Shape>(s: Seq<SpecNode<T>>, items: Seq<T>) -> Seq<SpecNode<T>>
    decreases items.len(),
{
    if items.len() == 0 {
        s
    } else {
        place_all(place_forest(s, leaf(items[0])), items.drop_first())
    }
}

/// Building from a nested forest yields a nested forest holding exactly the
/// starting contents plus the placed values.
pub proof fn lemma_place_all<T: Shape>(s: Seq<SpecNode<T>>, items: Seq<T>)
    requires
        nested_forest(s),
    ensures
        nested_forest(place_all(s, items)),
        values_forest(place_all(s, items)) == values_forest(s).add(items.to_multiset()),
        size_forest(place_all(s, items)) == size_forest(s) + items.len(),
    decreases items.len(),
{
    broadcast use vstd::seq_lib::group_to_multiset_ensures;

    if items.len() == 0 {
        assert(values_forest(s).add(items.to_multiset()) =~= values_forest(s));
    } else {
        lemma_place_forest(s, leaf(items[0]));
        let s1 = place_forest(s, leaf(items[0]));
        lemma_place_all(s1, items.drop_first());
        assert(items.drop_first().to_multiset().insert(items[0]) =~= items.to_multiset()) by {
            assert(items.drop_first().insert(0, items[0]) =~= items);
            vstd::seq_lib::to_multiset_insert(items.drop_first(), 0, items[0]);
        }
        assert(values_forest(place_all(s, items)) =~= values_forest(s).add(
            items.to_multiset(),
        ));
    }
}

/// Placing the values one by one commutes with splitting off the last one.
pub proof fn lemma_place_all_snoc<T: Shape>(s: Seq<SpecNode<T>>, items: Seq<T>, x: T)
    ensures
        place_all(s, items.push(x)) == place_forest(place_all(s, items), leaf(x)),
    decreases items.len(),
{
    if items.len() == 0 {
        assert(items.push(x).drop_first() =~= Seq::<T>::empty());
        assert(items.push(x)[0] == x);
        assert(place_all(s, items.push(x)) == place_all(
            place_forest(s, leaf(x)),
            Seq::<T>::empty(),
        ));
        assert(place_all(place_forest(s, leaf(x)), Seq::<T>::empty()) == place_forest(
            s,
            leaf(x),
        ));
        assert(place_all(s, items) == s);
    } else {
        assert(items.push(x).drop_first() =~= items.drop_first().push(x));
        assert(items.push(x)[0] == items[0]);
        let s1 = place_forest(s, leaf(items[0]));
        lemma_place_all_snoc(s1, items.drop_first(), x);
        assert(place_all(s, items.push(x)) == place_all(s1, items.drop_first().push(x)));
        assert(place_all(s, items) == place_all(s1, items.drop_first()));
    }
}

/// Whether `n` is a node of the forest `s`, at any depth.
pub open spec fn in_forest<T>(s: Seq<SpecNode<T>>, n: SpecNode<T>) -> bool
    decreases s,
{
    if s.len() == 0 {
        false
    } else {
        s[0] == n || in_forest(s[0].children, n) || in_forest(s.drop_first(), n)
    }
}

/// Every node of a nested forest heads a nested subtree.
pub proof fn lemma_in_forest_nested<T: Shape>(s: Seq<SpecNode<T>>, n: SpecNode<T>)
    requires
        nested_forest(s),
        in_forest(s, n),
    ensures
        nested_node(n),
    decreases s,
{
    if s.len() > 0 {
        assert(nested_node(s[0]));
        if s[0] == n {
        } else if in_forest(s[0].children, n) {
            assert(nested_forest(s[0].children));
            lemma_in_forest_nested(s[0].children, n);
        } else {
            lemma_in_forest_nested(s.drop_first(), n);
        }
    }
}

/// Containment monotonicity over a whole forest: whenever `a` is a node of
/// the nested forest and the shape `x` lies strictly below `a`, the
/// ancestor `a` has at least `x`'s area and holds `x`'s representative
/// point.
pub proof fn lemma_ancestor_contains<T: Shape>(s: Seq<SpecNode<T>>, a: SpecNode<T>, x: T)
    requires
        nested_forest(s),
        in_forest(s, a),
        values_forest(a.children).contains(x),
    ensures
        a.value.spec_area() >= x.spec_area(),
        a.value.spec_contains_point(x.spec_center()),
{
    lemma_in_forest_nested(s, a);
    lemma_containment_monotonic(a, x);
}

/// A queue of pending subtrees, each tagged with the depth at which its
/// root is reported.
pub open spec fn tag_children<T>(s: Seq<SpecNode<T>>, d: nat) -> Seq<(nat, SpecNode<T>)> {
    Seq::new(s.len(), |i: int| (d, s[i]))
}

/// Number of nodes left in a tagged queue.
pub open spec fn total_size<T>(q: Seq<(nat, SpecNode<T>)>) -> nat
    decreases q,
{
    if q.len() == 0 {
        0
    } else {
        size_node(q[0].1) + total_size(q.drop_first())
    }
}

pub proof fn lemma_total_size_concat<T>(a: Seq<(nat, SpecNode<T>)>, b: Seq<(nat, SpecNode<T>)>)
    ensures
        total_size(a + b) == total_size(a) + total_size(b),
    decreases a,
{
    if a.len() == 0 {
        assert(a + b =~= b);
    } else {
        assert((a + b).drop_first() =~= a.drop_first() + b);
        lemma_total_size_concat(a.drop_first(), b);
    }
}

pub proof fn lemma_total_size_tag<T>(s: Seq<SpecNode<T>>, d: nat)
    ensures
        total_size(tag_children(s, d)) == size_forest(s),
    decreases s,
{
    if s.len() > 0 {
        assert(tag_children(s, d).drop_first() =~= tag_children(s.drop_first(), d));
        lemma_total_size_tag(s.drop_first(), d);
    }
}

/// Breadth-first flattening of a tagged queue: report the front subtree's
/// value at its tag, then continue with the rest of the queue followed by
/// that subtree's children tagged one level deeper.
pub open spec fn bfs<T>(q: Seq<(nat, SpecNode<T>)>) -> Seq<(nat, T)>
    decreases total_size(q),
    via bfs_decreases::<T>
{
    if q.len() == 0 {
        Seq::empty()
    } else {
        let d = q[0].0;
        let n = q[0].1;
        seq![(d, n.value)] + bfs(q.drop_first() + tag_children(n.children, (d + 1) as nat))
    }
}

#[via_fn]
proof fn bfs_decreases<T>(q: Seq<(nat, SpecNode<T>)>) {
    if q.len() > 0 {
        let d = q[0].0;
        let n = q[0].1;
        lemma_total_size_concat(q.drop_first(), tag_children(n.children, (d + 1) as nat));
        lemma_total_size_tag(n.children, (d + 1) as nat);
    }
}

/// The level-order flattening of a forest, its roots reported at depth 0.
pub open spec fn traversal_forest<T>(s: Seq<SpecNode<T>>) -> Seq<(nat, T)> {
    bfs(tag_children(s, 0))
}

/// Every shape of a forest paired with its depth: a root of the forest is
/// at depth `d`, and each node's children lie one level below it, so a
/// node's depth is `d` plus the number of its proper ancestors within the
/// forest.
pub open spec fn depth_pairs_forest<T>(s: Seq<SpecNode<T>>, d: nat) -> Multiset<(nat, T)>
    decreases s,
{
    if s.len() == 0 {
        Multiset::empty()
    } else {
        Multiset::singleton((d, s[0].value)).add(
            depth_pairs_forest(s[0].children, (d + 1) as nat),
        ).add(depth_pairs_forest(s.drop_first(), d))
    }
}

/// The depth-tagged contents of a queue.
pub open spec fn queue_pairs<T>(q: Seq<(nat, SpecNode<T>)>) -> Multiset<(nat, T)>
    decreases q,
{
    if q.len() == 0 {
        Multiset::empty()
    } else {
        Multiset::singleton((q[0].0, q[0].1.value)).add(
            depth_pairs_forest(q[0].1.children, (q[0].0 + 1) as nat),
        ).add(queue_pairs(q.drop_first()))
    }
}

pub proof fn lemma_queue_pairs_concat<T>(a: Seq<(nat, SpecNode<T>)>, b: Seq<(nat, SpecNode<T>)>)
    ensures
        queue_pairs(a + b) == queue_pairs(a).add(queue_pairs(b)),
    decreases a,
{
    if a.len() == 0 {
        assert(a + b =~= b);
        assert(queue_pairs(a + b) =~= queue_pairs(a).add(queue_pairs(b)));
    } else {
        assert((a + b).drop_first() =~= a.drop_first() + b);
        lemma_queue_pairs_concat(a.drop_first(), b);
        assert(queue_pairs(a + b) =~= queue_pairs(a).add(queue_pairs(b)));
    }
}

pub proof fn lemma_queue_pairs_tag<T>(s: Seq<SpecNode<T>>, d: nat)
    ensures
        queue_pairs(tag_children(s, d)) == depth_pairs_forest(s, d),
    decreases s,
{
    if s.len() > 0 {
        assert(tag_children(s, d).drop_first() =~= tag_children(s.drop_first(), d));
        lemma_queue_pairs_tag(s.drop_first(), d);
        assert(queue_pairs(tag_children(s, d)) =~= depth_pairs_forest(s, d));
    }
}

/// Breadth-first flattening is complete and depth-correct: the reported
/// pairs are exactly the queue's shapes, each at its structural depth.
pub proof fn lemma_bfs_pairs<T>(q: Seq<(nat, SpecNode<T>)>)
    ensures
        bfs(q).to_multiset() == queue_pairs(q),
    decreases total_size(q),
{
    broadcast use vstd::seq_lib::group_to_multiset_ensures;

    if q.len() == 0 {
        assert(bfs(q).to_multiset() =~= queue_pairs(q));
    } else {
        let d = q[0].0;
        let n = q[0].1;
        let qq = q.drop_first() + tag_children(n.children, (d + 1) as nat);
        lemma_total_size_concat(q.drop_first(), tag_children(n.children, (d + 1) as nat));
        lemma_total_size_tag(n.children, (d + 1) as nat);
        lemma_bfs_pairs(qq);
        lemma_queue_pairs_concat(q.drop_first(), tag_children(n.children, (d + 1) as nat));
        lemma_queue_pairs_tag(n.children, (d + 1) as nat);
        lemma_multiset_commutative(seq![(d, n.value)], bfs(qq));
        assert(seq![(d, n.value)].to_multiset() =~= Multiset::empty().insert((d, n.value)))
            by {
            assert(seq![(d, n.value)] =~= Seq::empty().push((d, n.value)));
            assert(Seq::<(nat, T)>::empty().to_multiset() =~= Multiset::empty());
        }
        assert(bfs(q).to_multiset() =~= queue_pairs(q));
    }
}

/// The shape values of a flattened traversal, depth tags dropped.
pub open spec fn strip_depths<T>(out: Seq<(nat, T)>) -> Seq<T> {
    out.map_values(|p: (nat, T)| p.1)
}

/// All shape values held in a tagged queue.
pub open spec fn queue_values<T>(q: Seq<(nat, SpecNode<T>)>) -> Multiset<T>
    decreases q,
{
    if q.len() == 0 {
        Multiset::empty()
    } else {
        values_node(q[0].1).add(queue_values(q.drop_first()))
    }
}

pub proof fn lemma_queue_values_concat<T>(a: Seq<(nat, SpecNode<T>)>, b: Seq<(nat, SpecNode<T>)>)
    ensures
        queue_values(a + b) == queue_values(a).add(queue_values(b)),
    decreases a,
{
    if a.len() == 0 {
        assert(a + b =~= b);
        assert(queue_values(a + b) =~= queue_values(a).add(queue_values(b)));
    } else {
        assert((a + b).drop_first() =~= a.drop_first() + b);
        lemma_queue_values_concat(a.drop_first(), b);
        assert(queue_values(a + b) =~= queue_values(a).add(queue_values(b)));
    }
}

pub proof fn lemma_queue_values_tag<T>(s: Seq<SpecNode<T>>, d: nat)
    ensures
        queue_values(tag_children(s, d)) == values_forest(s),
    decreases s,
{
    if s.len() > 0 {
        assert(tag_children(s, d).drop_first() =~= tag_children(s.drop_first(), d));
        lemma_queue_values_tag(s.drop_first(), d);
        assert(queue_values(tag_children(s, d)) =~= values_forest(s));
    }
}

/// Completeness of the flattening: dropping the depth tags, a breadth-first
/// traversal reports every shape held in the queue's subtrees exactly once,
/// none lost and none duplicated.
pub proof fn lemma_bfs_values<T>(q: Seq<(nat, SpecNode<T>)>)
    ensures
        strip_depths(bfs(q)).to_multiset() == queue_values(q),
    decreases total_size(q),
{
    broadcast use vstd::seq_lib::group_to_multiset_ensures;

    if q.len() == 0 {
        assert(strip_depths(bfs(q)) =~= Seq::<T>::empty());
        assert(strip_depths(bfs(q)).to_multiset() =~= queue_values(q));
    } else {
        let d = q[0].0;
        let n = q[0].1;
        let qq = q.drop_first() + tag_children(n.children, (d + 1) as nat);
        lemma_total_size_concat(q.drop_first(), tag_children(n.children, (d + 1) as nat));
        lemma_total_size_tag(n.children, (d + 1) as nat);
        lemma_bfs_values(qq);
        lemma_queue_values_concat(q.drop_first(), tag_children(n.children, (d + 1) as nat));
        lemma_queue_values_tag(n.children, (d + 1) as nat);
        assert(strip_depths(bfs(q)) =~= seq![n.value] + strip_depths(bfs(qq)));
        lemma_multiset_commutative(seq![n.value], strip_depths(bfs(qq)));
        assert(seq![n.value].to_multiset() =~= Multiset::empty().insert(n.value)) by {
            assert(seq![n.value] =~= Seq::empty().push(n.value));
            assert(Seq::<T>::empty().to_multiset() =~= Multiset::empty());
        }
        assert(strip_depths(bfs(q)).to_multiset() =~= queue_values(q));
    }
}

/// Whether the reported depths never decrease along the flattening.
pub open spec fn depths_monotone<T>(out: Seq<(nat, T)>) -> bool {
    forall|i: int, j: int| 0 <= i <= j < out.len() ==> out[i].0 <= out[j].0
}

/// A queue is level-shaped when its tags never decrease and all lie within
/// one level of the front tag; a breadth-first queue stays in this shape.
pub open spec fn level_shaped<T>(q: Seq<(nat, SpecNode<T>)>) -> bool {
    &&& forall|i: int, j: int| 0 <= i <= j < q.len() ==> q[i].0 <= q[j].0
    &&& forall|i: int| 0 <= i < q.len() ==> (#[trigger] q[i]).0 <= q[0].0 + 1
}

/// Level order of the flattening: from a level-shaped queue, the reported
/// depths never decrease, so all depth-0 nodes come before any depth-1
/// node, and so on; and no report lies above the front tag.
pub proof fn lemma_bfs_level_order<T>(q: Seq<(nat, SpecNode<T>)>)
    requires
        level_shaped(q),
    ensures
        depths_monotone(bfs(q)),
        q.len() > 0 ==> forall|k: int| 0 <= k < bfs(q).len() ==> q[0].0 <= #[trigger] bfs(
            q,
        )[k].0,
    decreases total_size(q),
{
    if q.len() > 0 {
        let d = q[0].0;
        let n = q[0].1;
        let tagged = tag_children(n.children, (d + 1) as nat);
        let qq = q.drop_first() + tagged;
        lemma_total_size_concat(q.drop_first(), tagged);
        lemma_total_size_tag(n.children, (d + 1) as nat);
        assert forall|i: int, j: int| 0 <= i <= j < qq.len() implies qq[i].0 <= qq[j].0 by {
            if i < q.drop_first().len() {
                assert(qq[i] == q[i + 1]);
            }
            if j < q.drop_first().len() {
                assert(qq[j] == q[j + 1]);
            }
        }
        assert forall|i: int| 0 <= i < qq.len() implies (#[trigger] qq[i]).0 <= qq[0].0 + 1 by {
            if qq.len() > 0 && q.drop_first().len() > 0 {
                assert(qq[0] == q[1]);
                assert(d <= qq[0].0);
            }
            if i < q.drop_first().len() {
                assert(qq[i] == q[i + 1]);
            }
        }
        lemma_bfs_level_order(qq);
        assert forall|k: int| 0 <= k < bfs(q).len() implies d <= #[trigger] bfs(q)[k].0 by {
            if k > 0 {
                assert(bfs(q)[k] == bfs(qq)[k - 1]);
                if qq.len() > 0 {
                    assert(d <= qq[0].0);
                }
            }
        }
        assert forall|i: int, j: int| 0 <= i <= j < bfs(q).len() implies bfs(q)[i].0 <= bfs(
            q,
        )[j].0 by {
            if i > 0 {
                assert(bfs(q)[i] == bfs(qq)[i - 1]);
                assert(bfs(q)[j] == bfs(qq)[j - 1]);
            } else if j > 0 {
                assert(bfs(q)[j] == bfs(qq)[j - 1]);
                if qq.len() > 0 {
                    assert(d <= qq[0].0);
                }
            }
        }
    }
}

} // verus!

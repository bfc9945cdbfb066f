//! A rose tree and its breadth-first (level-order) flattening.

use std::collections::VecDeque;
use vstd::prelude::*;

verus! {

/// A node of a rose tree: a value and an ordered list of child subtrees.
#[derive(Debug)]
pub struct Node<T> {
    pub value: T,
    pub children: Vec<Node<T>>,
}

/// Number of nodes in a tree.
pub open spec fn tree_size<T>(node: Node<T>) -> nat
    decreases node,
{
    1 + forest_size(node.children@)
}

/// Number of nodes in a sequence of trees.
pub open spec fn forest_size<T>(forest: Seq<Node<T>>) -> nat
    decreases forest,
{
    if forest.len() == 0 {
        0
    } else {
        tree_size(forest[0]) + forest_size(forest.subrange(1, forest.len() as int))
    }
}


/// Sizes add up over concatenated forests.
pub proof fn lemma_forest_size_append<T>(a: Seq<Node<T>>, b: Seq<Node<T>>)
    ensures
        forest_size(a + b) == forest_size(a) + forest_size(b),
    decreases a.len(),
{
    if a.len() == 0 {
        assert(a + b =~= b);
    } else {
        assert((a + b).subrange(1, (a + b).len() as int) =~= a.subrange(1, a.len() as int) + b);
        lemma_forest_size_append(a.subrange(1, a.len() as int), b);
    }
}

/// The values of a queue of trees in breadth-first order: the value at the
/// front of the queue, then those of the rest of the queue followed by the
/// children of the front tree.
pub open spec fn level_order<T>(queue: Seq<Node<T>>) -> Seq<T>
    decreases forest_size(queue),
{
    if queue.len() == 0 {
        Seq::empty()
    } else {
        let rest = queue.subrange(1, queue.len() as int) + queue[0].children@;
        proof {
            lemma_forest_size_append(queue.subrange(1, queue.len() as int), queue[0].children@);
            assert(forest_size(queue) == tree_size(queue[0]) + forest_size(
                queue.subrange(1, queue.len() as int),
            ));
            assert(tree_size(queue[0]) == 1 + forest_size(queue[0].children@));
        }
        seq![queue[0].value] + level_order(rest)
    }
}


/// Appends `nodes`, in order, to the back of `queue`.
fn enqueue_all<T>(queue: &mut VecDeque<Node<T>>, nodes: Vec<Node<T>>)
    ensures
        final(queue)@ == old(queue)@ + nodes@,
{
    let ghost target = queue@ + nodes@;
    let mut rest = nodes;
    while rest.len() > 0
        invariant
            queue@ + rest@ == target,
        decreases rest.len(),
    {
        let node = rest.remove(0);
        queue.push_back(node);
        assert(queue@ + rest@ =~= target);
    }
    assert(rest@ =~= Seq::<Node<T>>::empty());
    assert(queue@ =~= target);
}

/// Unfolding `level_order` once on a queue holding a single tree.
pub proof fn lemma_level_order_single<T>(root: Node<T>)
    ensures
        level_order(seq![root]) == seq![root.value] + level_order(root.children@),
{
    assert(seq![root].subrange(1, 1) + root.children@ =~= root.children@);
}

/// Lists the values of every node of `root` except the root itself, in
/// breadth-first order (level by level, left to right), after the values
/// already in `children`.
pub fn flatten_tree_breadth_first<T>(root: Node<T>, children: Vec<T>) -> (result: Vec<T>)
    ensures
        result@ == children@ + level_order(root.children@),
{
    let ghost initial = children@;
    let ghost expected = children@ + level_order(root.children@);
    let mut out = children;
    let mut queue: VecDeque<Node<T>> = VecDeque::new();
    queue.push_back(root);
    let mut at_root = true;
    proof {
        lemma_level_order_single(root);
    }
    while queue.len() > 0
        invariant
            at_root ==> queue@ == seq![root] && out@ == initial,
            !at_root ==> out@ + level_order(queue@) == expected,
            expected == initial + level_order(root.children@),
            level_order(seq![root]) == seq![root.value] + level_order(root.children@),
        decreases forest_size(queue@),
    {
        let ghost before = queue@;
        let current = queue.pop_front().unwrap();
        proof {
            let rest = before.subrange(1, before.len() as int) + before[0].children@;
            lemma_forest_size_append(before.subrange(1, before.len() as int), before[0].children@);
            assert(forest_size(before) == tree_size(before[0]) + forest_size(
                before.subrange(1, before.len() as int),
            ));
            assert(tree_size(before[0]) == 1 + forest_size(before[0].children@));
            assert(level_order(before) == seq![before[0].value] + level_order(rest));
        }
        if !at_root {
            out.push(current.value);
        }
        enqueue_all(&mut queue, current.children);
        proof {
            if at_root {
                assert(queue@ =~= root.children@);
                assert(out@ + level_order(queue@) =~= expected);
            } else {
                assert(out@ + level_order(queue@) =~= expected);
            }
        }
        at_root = false;
    }
    proof {
        if at_root {
            assert(false);
        }
        assert(queue@ =~= Seq::<Node<T>>::empty());
        assert(out@ =~= expected);
    }
    out
}

/// The values held by the roots of a forest.
pub open spec fn root_values<T>(forest: Seq<Node<T>>) -> Seq<T> {
    forest.map_values(|n: Node<T>| n.value)
}

/// The children of every root of a forest, those of the first root first.
pub open spec fn all_children<T>(forest: Seq<Node<T>>) -> Seq<Node<T>>
    decreases forest.len(),
{
    if forest.len() == 0 {
        Seq::empty()
    } else {
        forest[0].children@ + all_children(forest.subrange(1, forest.len() as int))
    }
}

/// Breadth-first order visits a queue `q + r` as: the roots of `q`, then
/// `r` followed by the children of `q`.
pub proof fn lemma_level_order_split<T>(q: Seq<Node<T>>, r: Seq<Node<T>>)
    ensures
        level_order(q + r) == root_values(q) + level_order(r + all_children(q)),
    decreases q.len(),
{
    if q.len() == 0 {
        assert(q + r =~= r);
        assert(r + all_children(q) =~= r);
        assert(root_values(q) =~= Seq::<T>::empty());
    } else {
        let q1 = q.subrange(1, q.len() as int);
        let qr = q + r;
        assert(qr[0] == q[0]);
        assert(qr.subrange(1, qr.len() as int) + qr[0].children@ =~= q1 + (r + q[0].children@));
        lemma_level_order_split(q1, r + q[0].children@);
        assert(r + q[0].children@ + all_children(q1) =~= r + all_children(q));
        assert(root_values(q) =~= seq![q[0].value] + root_values(q1));
    }
}

/// Breadth-first order visits the roots of a forest, then the forest of all
/// their children.
pub proof fn lemma_level_order_by_generation<T>(q: Seq<Node<T>>)
    ensures
        level_order(q) == root_values(q) + level_order(all_children(q)),
{
    lemma_level_order_split(q, Seq::empty());
    assert(q + Seq::<Node<T>>::empty() =~= q);
    assert(Seq::<Node<T>>::empty() + all_children(q) =~= all_children(q));
}

/// Breadth-first order lists every node of a forest exactly once: as many
/// values as there are nodes.
pub proof fn lemma_level_order_len<T>(q: Seq<Node<T>>)
    ensures
        level_order(q).len() == forest_size(q),
    decreases forest_size(q),
{
    if q.len() > 0 {
        let rest = q.subrange(1, q.len() as int) + q[0].children@;
        lemma_forest_size_append(q.subrange(1, q.len() as int), q[0].children@);
        assert(forest_size(q) == tree_size(q[0]) + forest_size(q.subrange(1, q.len() as int)));
        assert(tree_size(q[0]) == 1 + forest_size(q[0].children@));
        lemma_level_order_len(rest);
    }
}

} // verus!

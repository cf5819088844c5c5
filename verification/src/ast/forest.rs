//! When a sequence of nodes encodes trees.
//!
//! Read from left to right, a node takes as many of the trees before it as its
//! arity says and leaves one tree in their place. A sequence is a forest when
//! no node asks for more trees than stand before it.

use vstd::prelude::*;

use super::expressions::ExpressionNode;

verus! {

/// The number of trees that `nodes` leaves: each node adds one and takes away
/// its operands.
pub open spec fn weight(nodes: Seq<ExpressionNode>) -> int
    decreases nodes.len(),
{
    if nodes.len() == 0 {
        0
    } else {
        weight(nodes.drop_last()) + 1 - nodes.last().kind.spec_arity()
    }
}

/// Every node finds its operands before it: whatever the place at which the
/// sequence is cut, what stands before the cut holds at least one tree.
pub open spec fn is_forest(nodes: Seq<ExpressionNode>) -> bool {
    forall|n: int| 0 < n <= nodes.len() ==> weight(#[trigger] nodes.take(n)) >= 1
}

/// A forest of exactly one tree.
pub open spec fn is_tree(nodes: Seq<ExpressionNode>) -> bool {
    is_forest(nodes) && weight(nodes) == 1
}

/// A node at the end adds one tree and takes its operands away.
pub proof fn lemma_weight_push(nodes: Seq<ExpressionNode>, node: ExpressionNode)
    ensures
        weight(nodes.push(node)) == weight(nodes) + 1 - node.kind.spec_arity(),
{
    assert(nodes.push(node).drop_last() =~= nodes);
}

/// The trees of two sequences add up.
pub proof fn lemma_weight_concat(a: Seq<ExpressionNode>, b: Seq<ExpressionNode>)
    ensures
        weight(a + b) == weight(a) + weight(b),
    decreases b.len(),
{
    if b.len() == 0 {
        assert(a + b =~= a);
    } else {
        lemma_weight_concat(a, b.drop_last());
        assert((a + b).drop_last() =~= a + b.drop_last());
    }
}

/// A forest holds no fewer trees than none, and one at least unless it is
/// empty.
pub proof fn lemma_forest_weight(nodes: Seq<ExpressionNode>)
    requires
        is_forest(nodes),
    ensures
        weight(nodes) >= 0,
        nodes.len() > 0 ==> weight(nodes) >= 1,
{
    if nodes.len() > 0 {
        assert(nodes.take(nodes.len() as int) =~= nodes);
    }
}

/// What stands before a cut through a forest is a forest.
pub proof fn lemma_forest_take(nodes: Seq<ExpressionNode>, n: int)
    requires
        is_forest(nodes),
        0 <= n <= nodes.len(),
    ensures
        is_forest(nodes.take(n)),
{
    assert forall|m: int| 0 < m <= nodes.take(n).len() implies weight(
        #[trigger] nodes.take(n).take(m),
    ) >= 1 by {
        assert(nodes.take(n).take(m) =~= nodes.take(m));
    }
}

/// A node whose operands stand before it extends a forest.
pub proof fn lemma_forest_push(nodes: Seq<ExpressionNode>, node: ExpressionNode)
    requires
        is_forest(nodes),
        weight(nodes) >= node.kind.spec_arity(),
    ensures
        is_forest(nodes.push(node)),
        weight(nodes.push(node)) == weight(nodes) + 1 - node.kind.spec_arity(),
{
    lemma_weight_push(nodes, node);
    let longer = nodes.push(node);
    assert forall|n: int| 0 < n <= longer.len() implies weight(#[trigger] longer.take(n))
        >= 1 by {
        if n == longer.len() {
            assert(longer.take(n) =~= longer);
        } else {
            assert(longer.take(n) =~= nodes.take(n));
        }
    }
}

/// A forest set into a forest, at any place, gives a forest, and the trees
/// add up.
pub proof fn lemma_forest_insert(
    a: Seq<ExpressionNode>,
    b: Seq<ExpressionNode>,
    c: Seq<ExpressionNode>,
)
    requires
        is_forest(a + c),
        is_forest(b),
    ensures
        is_forest(a + b + c),
        weight(a + b + c) == weight(a + c) + weight(b),
{
    let whole = a + b + c;
    lemma_weight_concat(a, c);
    lemma_weight_concat(a, b);
    lemma_weight_concat(a + b, c);
    assert((a + c).take(a.len() as int) =~= a);
    lemma_forest_take(a + c, a.len() as int);
    lemma_forest_weight(a);
    lemma_forest_weight(b);
    assert forall|n: int| 0 < n <= whole.len() implies weight(#[trigger] whole.take(n)) >= 1 by {
        if n <= a.len() {
            assert(whole.take(n) =~= (a + c).take(n));
        } else if n <= a.len() + b.len() {
            let m = n - a.len();
            assert(whole.take(n) =~= a + b.take(m));
            lemma_weight_concat(a, b.take(m));
        } else {
            let m = n - a.len() - b.len();
            assert(whole.take(n) =~= a + b + c.take(m));
            assert((a + c).take(a.len() + m) =~= a + c.take(m));
            lemma_weight_concat(a, c.take(m));
            lemma_weight_concat(a + b, c.take(m));
        }
    }
}

/// Two forests side by side are a forest.
pub proof fn lemma_forest_concat(a: Seq<ExpressionNode>, b: Seq<ExpressionNode>)
    requires
        is_forest(a),
        is_forest(b),
    ensures
        is_forest(a + b),
        weight(a + b) == weight(a) + weight(b),
{
    let none = Seq::<ExpressionNode>::empty();
    assert(b + none =~= b);
    assert(a + b + none =~= a + b);
    assert(none + b =~= b);
    lemma_forest_insert(none, a, b);
    assert(none + a + b =~= a + b);
    lemma_weight_concat(a, b);
}

} // verus!

//! Where the operands of a node stand: each is a tree that ends directly
//! before the node or before the operand after it.

use vstd::prelude::*;

use super::expressions::{ExpressionKind, ExpressionNode};
use super::forest::{is_forest, is_tree, lemma_forest_push, lemma_forest_take, weight};

verus! {

/// The place at which the `need` trees that end at place `i` begin. It is
/// found by going back from place `i`: a node stands for one of the trees
/// asked for, and asks for its operands in turn.
pub open spec fn reach(nodes: Seq<ExpressionNode>, i: int, need: nat) -> int
    decreases i + 1,
{
    if need == 0 || i < 0 || i >= nodes.len() {
        i + 1
    } else {
        reach(nodes, i - 1, (need - 1 + nodes[i].kind.spec_arity()) as nat)
    }
}

/// The place at which the tree begins whose root is the node at place `i`.
pub open spec fn subtree_start(nodes: Seq<ExpressionNode>, i: int) -> int {
    reach(nodes, i, 1)
}

/// Going back over `a + b` trees is going back over `a` trees and then over
/// `b` more.
pub proof fn lemma_reach_split(nodes: Seq<ExpressionNode>, i: int, a: nat, b: nat)
    requires
        -1 <= i < nodes.len(),
    ensures
        -1 <= reach(nodes, i, a) - 1 <= i,
        reach(nodes, i, a + b) == reach(nodes, reach(nodes, i, a) - 1, b),
    decreases i + 1,
{
    if a != 0 && i >= 0 {
        lemma_reach_split(nodes, i - 1, (a - 1 + nodes[i].kind.spec_arity()) as nat, b);
    }
}

/// Going back from a place looks at the nodes up to that place only.
pub proof fn lemma_reach_prefix(
    a: Seq<ExpressionNode>,
    b: Seq<ExpressionNode>,
    i: int,
    need: nat,
)
    requires
        -1 <= i < a.len(),
    ensures
        reach(a + b, i, need) == reach(a, i, need),
        0 <= reach(a, i, need) <= i + 1,
    decreases i + 1,
{
    if need != 0 && i >= 0 {
        assert((a + b)[i] == a[i]);
        lemma_reach_prefix(a, b, i - 1, (need - 1 + a[i].kind.spec_arity()) as nat);
    }
}

/// A tree of a forest begins at the same place of the forest, whatever
/// stands before the forest.
pub proof fn lemma_reach_shift(a: Seq<ExpressionNode>, b: Seq<ExpressionNode>, m: int)
    requires
        is_forest(b),
        0 <= m < b.len(),
    ensures
        subtree_start(a + b, a.len() + m) == a.len() + subtree_start(b, m),
        0 <= subtree_start(b, m) <= m,
{
    assert(weight(b.take(m + 1)) >= 1);
    lemma_reach_forest(b, m, 1);
    let start = subtree_start(b, m);
    assert((a + b).subrange(a.len() + start, a.len() + m + 1) =~= b.subrange(start, m + 1));
    lemma_reach_finds(a + b, a.len() + start, a.len() + m, 1);
    super::forest::lemma_forest_weight(b.subrange(start, m + 1));
    assert(weight(Seq::<ExpressionNode>::empty()) == 0);
    if start > m {
        assert(b.subrange(start, m + 1) =~= Seq::<ExpressionNode>::empty());
    }
}

/// In a forest, going back from place `i` over no more trees than stand
/// there ends within the sequence, and what was passed is a forest of that
/// many trees.
pub proof fn lemma_reach_forest(nodes: Seq<ExpressionNode>, i: int, need: nat)
    requires
        is_forest(nodes),
        -1 <= i < nodes.len(),
        need <= weight(nodes.take(i + 1)),
    ensures
        0 <= reach(nodes, i, need) <= i + 1,
        is_forest(nodes.subrange(reach(nodes, i, need), i + 1)),
        weight(nodes.subrange(reach(nodes, i, need), i + 1)) == need,
        weight(nodes.take(reach(nodes, i, need))) == weight(nodes.take(i + 1)) - need,
    decreases i + 1,
{
    let none = Seq::<ExpressionNode>::empty();
    if need == 0 {
        assert(nodes.subrange(i + 1, i + 1) =~= none);
    } else if i < 0 {
        assert(nodes.take(0) =~= none);
    } else {
        let node = nodes[i];
        let more = (need - 1 + node.kind.spec_arity()) as nat;
        assert(nodes.take(i + 1).drop_last() =~= nodes.take(i));
        lemma_reach_forest(nodes, i - 1, more);
        let start = reach(nodes, i - 1, more);
        lemma_forest_push(nodes.subrange(start, i), node);
        assert(nodes.subrange(start, i).push(node) =~= nodes.subrange(start, i + 1));
    }
}

/// Going back finds every forest that ends at place `i`: where the nodes from
/// place `start` up to place `i` are a forest of `need` trees, going back
/// from place `i` over `need` trees ends at place `start`.
pub proof fn lemma_reach_finds(nodes: Seq<ExpressionNode>, start: int, i: int, need: nat)
    requires
        0 <= start <= i + 1 <= nodes.len(),
        is_forest(nodes.subrange(start, i + 1)),
        weight(nodes.subrange(start, i + 1)) == need,
    ensures
        reach(nodes, i, need) == start,
    decreases i + 1 - start,
{
    let part = nodes.subrange(start, i + 1);
    super::forest::lemma_forest_weight(part);
    if start <= i {
        lemma_forest_take(part, part.len() - 1);
        assert(part.take(part.len() - 1) =~= nodes.subrange(start, i));
        assert(part.drop_last() =~= nodes.subrange(start, i));
        super::forest::lemma_forest_weight(nodes.subrange(start, i));
        lemma_reach_finds(
            nodes,
            start,
            i - 1,
            (need - 1 + nodes[i].kind.spec_arity()) as nat,
        );
    }
}

/// The place of the root of an operand of the node at place `i`. The operands
/// are counted from the node backwards: operand 0 ends directly before the
/// node, and each further operand ends directly before the one counted
/// before it.
pub open spec fn operand_root(nodes: Seq<ExpressionNode>, i: int, k: nat) -> int
    decreases k,
{
    if k == 0 {
        i - 1
    } else {
        subtree_start(nodes, operand_root(nodes, i, (k - 1) as nat)) - 1
    }
}

/// The operands of a node. In a forest, every operand of a node is one tree
/// that ends where the operand counted before it begins, or directly before
/// the node; and the tree of the node begins where its last operand begins.
pub proof fn lemma_operands(nodes: Seq<ExpressionNode>, i: int, k: nat)
    requires
        is_forest(nodes),
        0 <= i < nodes.len(),
        k < nodes[i].kind.spec_arity(),
    ensures
        ({
            let root = operand_root(nodes, i, k);
            &&& 0 <= subtree_start(nodes, root) <= root < i
            &&& is_tree(nodes.subrange(subtree_start(nodes, root), root + 1))
            &&& subtree_start(nodes, root) == reach(nodes, i - 1, k + 1)
            &&& k + 1 == nodes[i].kind.spec_arity() ==> subtree_start(nodes, i) == subtree_start(
                nodes,
                root,
            )
        }),
    decreases k,
{
    assert(nodes.take(i + 1).drop_last() =~= nodes.take(i));
    assert(weight(nodes.take(i + 1)) >= 1);
    assert(nodes.take(0) =~= Seq::<ExpressionNode>::empty());
    assert(weight(nodes.take(0)) == 0);
    if k > 0 {
        lemma_operands(nodes, i, (k - 1) as nat);
    }
    lemma_reach_forest(nodes, i - 1, k);
    lemma_reach_split(nodes, i - 1, k, 1);
    let root = operand_root(nodes, i, k);
    assert(root == reach(nodes, i - 1, k) - 1);
    lemma_reach_forest(nodes, root, 1);
}

/// The operands of a binary operator. In a forest, the node before a binary
/// operator is the root of its right operand; the node before the right
/// operand is the root of its left operand; each operand is one tree, and the
/// tree of the operator is the two operands and the operator, no more.
pub proof fn lemma_binary_operands(nodes: Seq<ExpressionNode>, i: int)
    requires
        is_forest(nodes),
        0 <= i < nodes.len(),
        nodes[i].kind == ExpressionKind::Binary,
    ensures
        ({
            let right = i - 1;
            let left = subtree_start(nodes, right) - 1;
            &&& 0 <= left < right
            &&& is_tree(nodes.subrange(left + 1, right + 1))
            &&& 0 <= subtree_start(nodes, left) <= left
            &&& is_tree(nodes.subrange(subtree_start(nodes, left), left + 1))
            &&& subtree_start(nodes, i) == subtree_start(nodes, left)
        }),
{
    let right = i - 1;
    assert(nodes.take(i + 1).drop_last() =~= nodes.take(i));
    assert(weight(nodes.take(i + 1)) >= 1);
    assert(weight(nodes.take(i)) >= 2);
    assert(nodes.take(0) =~= Seq::<ExpressionNode>::empty());
    lemma_reach_forest(nodes, right, 1);
    let left = subtree_start(nodes, right) - 1;
    lemma_reach_forest(nodes, left, 1);
    lemma_reach_split(nodes, right, 1, 1);
}

/// Left operand, right operand, operator. A binary operator set behind a
/// forest `held` and a tree `right` takes `right` as its right operand and
/// the last tree of `held` as its left operand.
pub proof fn lemma_binary_behind(
    held: Seq<ExpressionNode>,
    right: Seq<ExpressionNode>,
    node: ExpressionNode,
)
    requires
        is_forest(held),
        weight(held) >= 1,
        is_tree(right),
        node.kind == ExpressionKind::Binary,
    ensures
        ({
            let whole = (held + right).push(node);
            let operator = whole.len() - 1;
            let left = held.len() - 1;
            &&& is_forest(whole)
            &&& held.len() < operator
            &&& subtree_start(whole, operator - 1) == held.len()
            &&& whole.subrange(held.len() as int, operator) == right
            &&& 0 <= subtree_start(whole, left) <= left
            &&& is_tree(whole.subrange(subtree_start(whole, left), left + 1))
            &&& subtree_start(whole, operator) == subtree_start(whole, left)
        }),
{
    let whole = (held + right).push(node);
    let operator = whole.len() - 1;
    super::forest::lemma_forest_concat(held, right);
    lemma_forest_push(held + right, node);
    assert(whole.subrange(held.len() as int, operator) =~= right);
    super::forest::lemma_forest_weight(right);
    assert(weight(Seq::<ExpressionNode>::empty()) == 0);
    lemma_reach_finds(whole, held.len() as int, operator - 1, 1);
    lemma_binary_operands(whole, operator);
}

} // verus!

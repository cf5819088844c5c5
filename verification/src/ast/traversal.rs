//! Reading an expression back: from the last node to the first, with a stack
//! of counters that tell how many operands each open node still waits for.

use vstd::prelude::*;

use super::expressions::{Expression, ExpressionKind, ExpressionNode};
use super::forest::{is_forest, lemma_weight_concat, weight};

verus! {

/// The counters without the zeros at the top: a node whose operands have all
/// been seen is closed.
pub open spec fn trim(frames: Seq<usize>) -> Seq<usize>
    decreases frames.len(),
{
    if frames.len() > 0 && frames.last() == 0 {
        trim(frames.drop_last())
    } else {
        frames
    }
}

/// The counters after a node of kind `kind` has been visited: the node counts
/// as one operand of the innermost open node, and it is open itself as long
/// as it waits for operands.
pub open spec fn descend(frames: Seq<usize>, kind: ExpressionKind) -> Seq<usize>
    recommends
        frames.len() > 0,
        frames.last() > 0,
{
    let lowered = frames.update(frames.len() - 1, (frames.last() - 1) as usize);
    if kind.spec_arity() > 0 {
        lowered.push(kind.spec_arity() as usize)
    } else {
        trim(lowered)
    }
}

/// The counters after the nodes from place `i` on have been visited, the last
/// node first, where `roots` expressions were expected; `None` once a node
/// was met that no open node waited for.
pub open spec fn frames_after(nodes: Seq<ExpressionNode>, roots: usize, i: int) -> Option<
    Seq<usize>,
>
    decreases nodes.len() - i,
{
    if i >= nodes.len() {
        Some(trim(seq![roots]))
    } else {
        match frames_after(nodes, roots, i + 1) {
            Some(frames) => if frames.len() > 0 {
                Some(descend(frames, nodes[i].kind))
            } else {
                None
            },
            None => None,
        }
    }
}

/// The nodes can be read back as `roots` expressions: every node is visited
/// while an open node waits for it, and after the first node none waits any
/// more.
pub open spec fn traversable(nodes: Seq<ExpressionNode>, roots: usize) -> bool {
    frames_after(nodes, roots, 0) == Some(Seq::<usize>::empty())
}

/// The depth at which the node at place `i` is visited: the number of open
/// nodes around it.
pub open spec fn depth_at(nodes: Seq<ExpressionNode>, roots: usize, i: int) -> int {
    frames_after(nodes, roots, i + 1)->0.len() - 1
}

/// The stack of counters of a traversal.
pub struct Walker {
    frames: Vec<usize>,
}

impl View for Walker {
    type V = Seq<usize>;

    /// The counters, the innermost open node last.
    closed spec fn view(&self) -> Seq<usize> {
        self.frames@
    }
}

impl Walker {
    /// The innermost counter is not zero.
    pub open spec fn wf(&self) -> bool {
        self@.len() > 0 ==> self@.last() > 0
    }

    /// A walker that expects `roots` expressions.
    pub fn new(roots: usize) -> (walker: Walker)
        ensures
            walker.wf(),
            walker@ == trim(seq![roots]),
    {
        let mut frames = Vec::new();
        if roots > 0 {
            frames.push(roots);
            assert(frames@ =~= seq![roots]);
        } else {
            assert(seq![roots].drop_last() =~= Seq::<usize>::empty());
            assert(trim(Seq::<usize>::empty()) == Seq::<usize>::empty());
        }
        Walker { frames }
    }

    /// The counters, the innermost open node last.
    pub fn frames(&self) -> (frames: &Vec<usize>)
        ensures
            frames@ == self@,
    {
        &self.frames
    }

    /// Whether no node is open: nothing more is expected.
    pub fn is_done(&self) -> (done: bool)
        ensures
            done == (self@.len() == 0),
    {
        self.frames.len() == 0
    }

    /// Visits a node of kind `kind` and returns its depth; `None`, with the
    /// walker unchanged, where no open node waits for it.
    pub fn visit(&mut self, kind: ExpressionKind) -> (depth: Option<usize>)
        requires
            old(self).wf(),
        ensures
            final(self).wf(),
            old(self)@.len() == 0 ==> depth is None && final(self)@ == old(self)@,
            old(self)@.len() > 0 ==> {
                &&& depth matches Some(d)
                &&& d == old(self)@.len() - 1
                &&& final(self)@ == descend(old(self)@, kind)
            },
    {
        let open = self.frames.len();
        if open == 0 {
            return None;
        }
        let top = self.frames[open - 1];
        self.frames[open - 1] = top - 1;
        let ghost lowered = self.frames@;
        let arity = kind.arity();
        if arity > 0 {
            self.frames.push(arity);
        } else {
            while self.frames.len() > 0 && self.frames[self.frames.len() - 1] == 0
                invariant
                    trim(self.frames@) == trim(lowered),
                decreases self.frames@.len(),
            {
                self.frames.pop();
            }
        }
        Some(open - 1)
    }
}

/// One column of the margin in which a tree is drawn.
#[derive(Debug, Clone, Copy, PartialEq, Eq, Structural)]
pub enum Guide {
    /// An open node further out that waits for nothing more: the column is
    /// empty.
    Blank,
    /// An open node further out that waits for more: its line runs through.
    Rail,
    /// The node is the last operand that its parent waits for.
    Corner,
    /// The parent waits for more operands after the node.
    Tee,
}

/// The margin of a node that is visited while the counters are `frames`: a
/// column for each open node, the innermost last.
pub open spec fn spec_guides(frames: Seq<usize>) -> Seq<Guide> {
    Seq::new(
        frames.len(),
        |k: int|
            if k < frames.len() - 1 {
                if frames[k] == 0 {
                    Guide::Blank
                } else {
                    Guide::Rail
                }
            } else if frames[k] == 1 {
                Guide::Corner
            } else {
                Guide::Tee
            },
    )
}

/// The margin of a node that is visited while the counters are `frames`.
pub fn guides(frames: &Vec<usize>) -> (margin: Vec<Guide>)
    ensures
        margin@ == spec_guides(frames@),
{
    let mut margin: Vec<Guide> = Vec::new();
    let mut k: usize = 0;
    while k < frames.len()
        invariant
            k <= frames@.len(),
            margin@ == spec_guides(frames@).take(k as int),
        decreases frames@.len() - k,
    {
        let guide = if k < frames.len() - 1 {
            if frames[k] == 0 {
                Guide::Blank
            } else {
                Guide::Rail
            }
        } else if frames[k] == 1 {
            Guide::Corner
        } else {
            Guide::Tee
        };
        margin.push(guide);
        k += 1;
        assert(margin@ =~= spec_guides(frames@).take(k as int));
    }
    assert(spec_guides(frames@).take(k as int) =~= spec_guides(frames@));
    margin
}

/// A node as the traversal meets it.
#[derive(Debug, PartialEq, Eq)]
pub struct Visit {
    /// The place of the node in the expression.
    pub index: usize,
    /// The number of open nodes around it.
    pub depth: usize,
    /// The margin for drawing the node as part of a tree.
    pub guides: Vec<Guide>,
}

/// The visits are those of the nodes of `nodes` from the last to the first.
pub open spec fn visited(rows: Seq<Visit>, nodes: Seq<ExpressionNode>, roots: usize) -> bool {
    forall|j: int|
        0 <= j < rows.len() ==> {
            let index = nodes.len() - 1 - j;
            &&& (#[trigger] rows[j]).index == index
            &&& rows[j].depth == depth_at(nodes, roots, index)
            &&& rows[j].guides@ == spec_guides(frames_after(nodes, roots, index + 1)->0)
        }
}

/// Reads `expr` back as `roots` expressions: the nodes from the last to the
/// first, each with its depth and its margin. `None` where the nodes do not
/// encode `roots` expressions.
pub fn traverse(expr: &Expression, roots: usize) -> (visits: Option<Vec<Visit>>)
    requires
        expr.wf(),
    ensures
        visits is Some == traversable(expr@, roots),
        visits matches Some(rows) ==> rows@.len() == expr@.len() && visited(
            rows@,
            expr@,
            roots,
        ),
{
    let ghost nodes = expr@;
    let mut walker = Walker::new(roots);
    let mut rows: Vec<Visit> = Vec::new();
    let mut i = expr.len();

    while i > 0
        invariant
            expr.wf(),
            nodes == expr@,
            i <= nodes.len(),
            walker.wf(),
            frames_after(nodes, roots, i as int) == Some(walker@),
            rows@.len() == nodes.len() - i,
            visited(rows@, nodes, roots),
        decreases i,
    {
        i -= 1;
        let node = match expr.get(i) {
            Some(node) => node,
            None => {
                return None;
            },
        };
        let ghost seen = rows@;
        let ghost open = walker@;
        let margin = guides(walker.frames());
        match walker.visit(node.kind) {
            Some(depth) => {
                rows.push(Visit { index: i, depth, guides: margin });
                proof {
                    assert forall|j: int| 0 <= j < rows@.len() implies {
                        let index = nodes.len() - 1 - j;
                        &&& (#[trigger] rows@[j]).index == index
                        &&& rows@[j].depth == depth_at(nodes, roots, index)
                        &&& rows@[j].guides@ == spec_guides(
                            frames_after(nodes, roots, index + 1)->0,
                        )
                    } by {
                        if j < seen.len() {
                            assert(rows@[j] == seen[j]);
                        } else {
                            assert(frames_after(nodes, roots, i + 1) == Some(open));
                        }
                    }
                }
            },
            None => {
                proof {
                    lemma_stuck(nodes, roots, i as int);
                }
                return None;
            },
        }
    }
    if walker.is_done() {
        assert(walker@ =~= Seq::<usize>::empty());
        Some(rows)
    } else {
        None
    }
}

/// Once a node has found no open node, the traversal has failed for good.
proof fn lemma_stuck(nodes: Seq<ExpressionNode>, roots: usize, i: int)
    requires
        0 <= i <= nodes.len(),
        frames_after(nodes, roots, i) is None,
    ensures
        frames_after(nodes, roots, 0) is None,
    decreases i,
{
    if i > 0 {
        lemma_stuck(nodes, roots, i - 1);
    }
}

/// The number of operands that the open nodes wait for, all together.
pub open spec fn pending(frames: Seq<usize>) -> int
    decreases frames.len(),
{
    if frames.len() == 0 {
        0
    } else {
        pending(frames.drop_last()) + frames.last()
    }
}

/// Closing the nodes that wait for nothing changes nothing for the others.
proof fn lemma_trim(frames: Seq<usize>)
    ensures
        pending(trim(frames)) == pending(frames),
        trim(frames).len() > 0 ==> trim(frames).last() > 0,
        pending(frames) >= 0,
        frames.len() > 0 && frames.last() > 0 ==> pending(frames) >= 1,
    decreases frames.len(),
{
    if frames.len() > 0 {
        lemma_trim(frames.drop_last());
    }
}

/// A visit takes one operand off the count and adds those of the node.
proof fn lemma_descend(frames: Seq<usize>, kind: ExpressionKind)
    requires
        frames.len() > 0,
        frames.last() > 0,
    ensures
        pending(descend(frames, kind)) == pending(frames) - 1 + kind.spec_arity(),
        descend(frames, kind).len() > 0 ==> descend(frames, kind).last() > 0,
{
    let lowered = frames.update(frames.len() - 1, (frames.last() - 1) as usize);
    assert(lowered.drop_last() =~= frames.drop_last());
    assert(pending(lowered) == pending(lowered.drop_last()) + lowered.last());
    assert(pending(frames) == pending(frames.drop_last()) + frames.last());
    if kind.spec_arity() > 0 {
        let opened = lowered.push(kind.spec_arity() as usize);
        assert(opened.drop_last() =~= lowered);
        assert(pending(opened) == pending(opened.drop_last()) + opened.last());
    } else {
        lemma_trim(lowered);
    }
}

/// The nodes from place `i` on leave as many trees as the traversal has
/// taken off its count.
proof fn lemma_frames(nodes: Seq<ExpressionNode>, roots: usize, i: int)
    requires
        0 <= i <= nodes.len(),
    ensures
        frames_after(nodes, roots, i) matches Some(frames) ==> {
            &&& pending(frames) == roots - weight(nodes.skip(i))
            &&& frames.len() > 0 ==> frames.last() > 0
        },
    decreases nodes.len() - i,
{
    if i >= nodes.len() {
        lemma_trim(seq![roots]);
        assert(seq![roots].drop_last() =~= Seq::<usize>::empty());
        assert(pending(Seq::<usize>::empty()) == 0);
        assert(nodes.skip(i) =~= Seq::<ExpressionNode>::empty());
    } else {
        lemma_frames(nodes, roots, i + 1);
        if let Some(frames) = frames_after(nodes, roots, i + 1) {
            if frames.len() > 0 {
                lemma_descend(frames, nodes[i].kind);
                let one = seq![nodes[i]];
                assert(nodes.skip(i) =~= one + nodes.skip(i + 1));
                lemma_weight_concat(one, nodes.skip(i + 1));
                super::forest::lemma_weight_push(Seq::<ExpressionNode>::empty(), nodes[i]);
                assert(Seq::<ExpressionNode>::empty().push(nodes[i]) =~= one);
                assert(weight(Seq::<ExpressionNode>::empty()) == 0);
            }
        }
    }
}

/// A sequence of nodes can be read back as `roots` expressions exactly when
/// it is a forest of `roots` trees.
pub proof fn lemma_traversable(nodes: Seq<ExpressionNode>, roots: usize)
    ensures
        traversable(nodes, roots) <==> is_forest(nodes) && weight(nodes) == roots,
{
    assert(nodes.skip(0) =~= nodes);
    lemma_frames(nodes, roots, 0);
    if is_forest(nodes) && weight(nodes) == roots {
        lemma_never_stuck(nodes, roots, 0);
        let frames = frames_after(nodes, roots, 0)->0;
        lemma_trim(frames);
        assert(frames =~= Seq::<usize>::empty());
    }
    if traversable(nodes, roots) {
        assert(pending(Seq::<usize>::empty()) == 0);
        assert forall|n: int| 0 < n <= nodes.len() implies weight(#[trigger] nodes.take(n))
            >= 1 by {
            lemma_open(nodes, roots, n);
            lemma_frames(nodes, roots, n);
            assert(nodes =~= nodes.take(n) + nodes.skip(n));
            lemma_weight_concat(nodes.take(n), nodes.skip(n));
            lemma_trim(frames_after(nodes, roots, n)->0);
        }
    }
}

/// In a forest of `roots` trees every node is visited while an open node
/// waits for it.
proof fn lemma_never_stuck(nodes: Seq<ExpressionNode>, roots: usize, i: int)
    requires
        is_forest(nodes),
        weight(nodes) == roots,
        0 <= i <= nodes.len(),
    ensures
        frames_after(nodes, roots, i) is Some,
    decreases nodes.len() - i,
{
    if i < nodes.len() {
        lemma_never_stuck(nodes, roots, i + 1);
        lemma_frames(nodes, roots, i + 1);
        let frames = frames_after(nodes, roots, i + 1)->0;
        assert(nodes =~= nodes.take(i + 1) + nodes.skip(i + 1));
        lemma_weight_concat(nodes.take(i + 1), nodes.skip(i + 1));
        assert(pending(frames) >= 1);
        assert(pending(Seq::<usize>::empty()) == 0);
    }
}

/// Where the traversal comes through, a node was open before each visit.
proof fn lemma_open(nodes: Seq<ExpressionNode>, roots: usize, n: int)
    requires
        frames_after(nodes, roots, 0) is Some,
        0 < n <= nodes.len(),
    ensures
        frames_after(nodes, roots, n) matches Some(frames) && frames.len() > 0,
    decreases n,
{
    if n > 1 {
        lemma_open(nodes, roots, n - 1);
    }
}

} // verus!

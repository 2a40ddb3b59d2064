use vstd::prelude::*;
use crate::laws::{
    lemma_push_contains, reaches_only_below, topo_order_holds_what_root_reaches,
    topo_order_puts_operands_first, topo_order_visits_once,
};
use crate::ops::Step;
use crate::value::{Graph, Node, Scalar, ValueRef};

verus! {

/// Whether `to` is `from` itself or can be reached from it along operands.
pub open spec fn reaches(nodes: Seq<Node>, from: ValueRef, to: ValueRef) -> bool
    decreases from,
{
    from == to || (from < nodes.len() && exists|k: int|
        0 <= k < nodes[from as int].parents.len() && (#[trigger] nodes[from as int].parents[k])
            < from && reaches(nodes, nodes[from as int].parents[k], to))
}

/// The order after a depth-first visit of `node`, where `seen` is the order
/// before it: a node that `seen` holds adds nothing; any other node comes
/// after everything that the visits of its operands add.
pub open spec fn visited_from(nodes: Seq<Node>, node: ValueRef, seen: Seq<ValueRef>) -> Seq<
    ValueRef,
>
    decreases node, nodes[node as int].parents.len() + 1,
{
    if seen.contains(node) {
        seen
    } else {
        visited_operands(nodes, node, 0, seen).push(node)
    }
}

/// The order after visiting the operands of `node` from position `k` on, one
/// after the other, where `seen` is the order before.
pub open spec fn visited_operands(
    nodes: Seq<Node>,
    node: ValueRef,
    k: nat,
    seen: Seq<ValueRef>,
) -> Seq<ValueRef>
    decreases node, nodes[node as int].parents.len() - k,
{
    if k < nodes[node as int].parents.len() {
        let operand = nodes[node as int].parents[k as int];
        let next = if operand < node {
            visited_from(nodes, operand, seen)
        } else {
            seen
        };
        visited_operands(nodes, node, k + 1, next)
    } else {
        seen
    }
}

/// The topological order of what `root` reaches: the depth-first postorder
/// from `root`, operands visited in their order.
pub open spec fn topo_order(nodes: Seq<Node>, root: ValueRef) -> Seq<ValueRef> {
    visited_from(nodes, root, Seq::empty())
}

/// Whether `x` stands in `order` before position `i`.
pub open spec fn occurs_before(order: Seq<ValueRef>, x: ValueRef, i: int) -> bool {
    exists|j: int| 0 <= j < i && j < order.len() && order[j] == x
}

/// Whether every node in `order` stands after all of its operands.
pub open spec fn operands_first(nodes: Seq<Node>, order: Seq<ValueRef>) -> bool {
    forall|i: int, k: int|
        0 <= i < order.len() && 0 <= k < nodes[order[i] as int].parents.len() ==> occurs_before(
            order,
            #[trigger] nodes[order[i] as int].parents[k],
            i,
        )
}

/// Whether `visited` marks exactly the nodes that `order` holds.
pub open spec fn marks(visited: Seq<bool>, order: Seq<ValueRef>) -> bool {
    forall|x: ValueRef| x < visited.len() ==> (#[trigger] visited[x as int] <==> order.contains(x))
}

/// A node whose visit has begun, with the position of the operand that is
/// to be visited next.
#[derive(Clone, Copy)]
struct Frame {
    node: ValueRef,
    next: usize,
}

/// The order after the visits on `stack` have been brought to their end, the
/// last one first, where `seen` is the order before.
spec fn resumed(nodes: Seq<Node>, stack: Seq<Frame>, seen: Seq<ValueRef>) -> Seq<ValueRef>
    decreases stack.len(),
{
    if stack.len() == 0 {
        seen
    } else {
        let top = stack.last();
        resumed(
            nodes,
            stack.drop_last(),
            visited_operands(nodes, top.node, top.next as nat, seen).push(top.node),
        )
    }
}

/// What holds of the stack of a visit: every frame names an unmarked node of
/// the graph and one of its operand positions, and every frame stands above
/// frames of higher nodes only.
spec fn frames_ok(nodes: Seq<Node>, stack: Seq<Frame>, visited: Seq<bool>) -> bool {
    &&& forall|i: int|
        0 <= i < stack.len() ==> (#[trigger] stack[i]).node < nodes.len() && stack[i].next
            <= nodes[stack[i].node as int].parents.len() && !visited[stack[i].node as int]
    &&& forall|i: int, j: int|
        0 <= i < j < stack.len() ==> (#[trigger] stack[j]).node < (#[trigger] stack[i]).node
}

/// The number of nodes that are not marked.
spec fn unmarked(visited: Seq<bool>) -> nat
    decreases visited.len(),
{
    if visited.len() == 0 {
        0
    } else {
        unmarked(visited.drop_last()) + if visited.last() {
            0nat
        } else {
            1nat
        }
    }
}

/// The node of the last frame.
spec fn top_node(stack: Seq<Frame>) -> int {
    if stack.len() == 0 {
        0
    } else {
        stack.last().node as int
    }
}

/// The number of operands that the last frame has yet to visit.
spec fn top_left(nodes: Seq<Node>, stack: Seq<Frame>) -> int {
    if stack.len() == 0 {
        0
    } else {
        nodes[stack.last().node as int].parents.len() - stack.last().next
    }
}

/// Marking a node leaves one unmarked node fewer.
proof fn lemma_mark(visited: Seq<bool>, i: int)
    requires
        0 <= i < visited.len(),
        !visited[i],
    ensures
        unmarked(visited.update(i, true)) + 1 == unmarked(visited),
    decreases visited.len(),
{
    let after = visited.update(i, true);
    if i == visited.len() - 1 {
        assert(after.drop_last() =~= visited.drop_last());
    } else {
        assert(after.drop_last() =~= visited.drop_last().update(i, true));
        lemma_mark(visited.drop_last(), i);
    }
}

/// Visits `node` depth first: unless it is marked, visits its operands in
/// their order, then appends it to `order` and marks it. The visits that have
/// begun are kept on a stack, so that a deep graph costs no call depth.
fn visit(g: &Graph, node: ValueRef, visited: &mut Vec<bool>, order: &mut Vec<ValueRef>)
    requires
        g.wf(),
        g.contains(node),
        old(visited)@.len() == g@.len(),
        marks(old(visited)@, old(order)@),
    ensures
        final(order)@ == visited_from(g@, node, old(order)@),
        final(visited)@.len() == g@.len(),
        marks(final(visited)@, final(order)@),
{
    if visited[node] {
        return ;
    }
    let mut stack: Vec<Frame> = Vec::new();
    stack.push(Frame { node, next: 0 });
    proof {
        let first = visited_operands(g@, node, 0, order@).push(node);
        assert(stack@.drop_last() =~= Seq::<Frame>::empty());
        assert(resumed(g@, stack@.drop_last(), first) == first);
        assert(resumed(g@, stack@, order@) == first);
    }
    while stack.len() > 0
        invariant
            g.wf(),
            visited@.len() == g@.len(),
            marks(visited@, order@),
            frames_ok(g@, stack@, visited@),
            resumed(g@, stack@, order@) == visited_from(g@, node, old(order)@),
        decreases unmarked(visited@), top_node(stack@), top_left(g@, stack@),
    {
        let top = stack.len() - 1;
        let frame = stack[top];
        let v = g.node(frame.node);
        let ghost frames = stack@;
        let ghost before = order@;
        let ghost marked = visited@;
        let ghost rest = frames.drop_last();
        assert(frames.last() == frames[top as int]);
        assert(g@[frame.node as int].operands_below(frame.node as int));
        assert(resumed(g@, frames, before) == resumed(
            g@,
            rest,
            visited_operands(g@, frame.node, frame.next as nat, before).push(frame.node),
        ));
        if frame.next < v.parents.len() {
            let operand = v.parents[frame.next];
            assert(operand == g@[frame.node as int].parents[frame.next as int]);
            stack.set(top, Frame { node: frame.node, next: frame.next + 1 });
            let ghost below = stack@;
            let ghost next = visited_from(g@, operand, before);
            proof {
                assert(below.drop_last() =~= rest);
                assert(below.last() == Frame { node: frame.node, next: (frame.next + 1) as usize });
                assert(visited_operands(g@, frame.node, frame.next as nat, before)
                    == visited_operands(g@, frame.node, (frame.next + 1) as nat, next));
                assert(resumed(g@, below, next) == resumed(g@, frames, before));
            }
            if !visited[operand] {
                stack.push(Frame { node: operand, next: 0 });
                proof {
                    assert(stack@.drop_last() =~= below);
                    assert(stack@.last() == Frame { node: operand, next: 0 });
                    assert(!before.contains(operand));
                    assert(next == visited_operands(g@, operand, 0, before).push(operand));
                    assert(resumed(g@, stack@, before) == resumed(g@, below, next));
                }
            } else {
                assert(before.contains(operand));
                assert(next == before);
            }
        } else {
            order.push(frame.node);
            visited.set(frame.node, true);
            stack.pop();
            proof {
                assert(stack@ =~= rest);
                assert(visited_operands(g@, frame.node, frame.next as nat, before) == before);
                lemma_mark(marked, frame.node as int);
                lemma_push_contains(before, frame.node);
                assert forall|x: ValueRef| x < visited@.len() implies (#[trigger] visited@[x as int]
                    <==> order@.contains(x)) by {
                    if x != frame.node {
                        assert(visited@[x as int] == marked[x as int]);
                    }
                }
                assert forall|i: int| 0 <= i < stack@.len() implies !visited@[(
                #[trigger] stack@[i]).node as int] by {
                    assert(stack@[i] == frames[i]);
                    assert(frames[top as int].node < frames[i].node);
                }
            }
        }
    }
}

/// The nodes that `root` reaches, each once, every node after all of its
/// operands and `root` last.
pub fn topo_sort(g: &Graph, root: ValueRef) -> (order: Vec<ValueRef>)
    requires
        g.wf(),
        g.contains(root),
    ensures
        order@ == topo_order(g@, root),
        operands_first(g@, order@),
        order@.len() > 0 && order@.last() == root,
        order@.no_duplicates(),
        forall|x: ValueRef| order@.contains(x) <==> reaches(g@, root, x),
        forall|i: int| 0 <= i < order@.len() ==> order@[i] < g@.len(),
{
    let n = g.len();
    let mut visited: Vec<bool> = Vec::new();
    while visited.len() < n
        invariant
            n == g@.len(),
            visited@.len() <= n,
            forall|i: int| 0 <= i < visited@.len() ==> !visited@[i],
        decreases n - visited@.len(),
    {
        visited.push(false);
    }
    let mut order: Vec<ValueRef> = Vec::new();
    visit(g, root, &mut visited, &mut order);
    proof {
        topo_order_puts_operands_first(g@, root);
        topo_order_visits_once(g@, root);
        topo_order_holds_what_root_reaches(g@, root);
        assert forall|i: int| 0 <= i < order@.len() implies order@[i] < g@.len() by {
            assert(order@.contains(order@[i]));
            reaches_only_below(g@, root, order@[i]);
        }
    }
    order
}

/// The accumulations by which one node hands its gradient on: none for a
/// leaf, the backward rule of its operator for any other node.
pub open spec fn node_steps(nodes: Seq<Node>, node: ValueRef) -> Seq<Step> {
    match nodes[node as int].op {
        None => Seq::empty(),
        Some(op) => op.steps(node, nodes[node as int].parents),
    }
}

/// The accumulations of a walk through `order` from its last entry to its
/// first.
pub open spec fn steps_in_reverse(nodes: Seq<Node>, order: Seq<ValueRef>) -> Seq<Step>
    decreases order.len(),
{
    if order.len() == 0 {
        Seq::empty()
    } else {
        node_steps(nodes, order.last()) + steps_in_reverse(nodes, order.drop_last())
    }
}

/// The accumulations of a backward pass from `root`, in the order in which
/// they are to run: the topological order walked from the root down.
pub open spec fn schedule(nodes: Seq<Node>, root: ValueRef) -> Seq<Step> {
    steps_in_reverse(nodes, topo_order(nodes, root))
}

/// The graph with the gradient of `root` set to one.
pub open spec fn seeded(nodes: Seq<Node>, root: ValueRef) -> Seq<Node> {
    nodes.update(root as int, nodes[root as int].with_grad(Scalar::one()))
}

/// The graph with the gradient of every node that `root` reaches set to zero.
pub open spec fn cleared(nodes: Seq<Node>, root: ValueRef) -> Seq<Node> {
    Seq::new(
        nodes.len(),
        |i: int|
            if reaches(nodes, root, i as ValueRef) {
                nodes[i].with_grad(Scalar::zero())
            } else {
                nodes[i]
            },
    )
}

/// Begins a backward pass from `root`: sets the gradient of `root` to one and
/// returns the accumulations that make up the pass. No other gradient is
/// touched: the caller runs the steps in the order given, each against the
/// gradients as the steps before it left them.
pub fn backward(g: &mut Graph, root: ValueRef) -> (steps: Vec<Step>)
    requires
        old(g).wf(),
        old(g).contains(root),
    ensures
        final(g)@ == seeded(old(g)@, root),
        final(g).wf(),
        steps@ == schedule(old(g)@, root),
{
    let order = topo_sort(g, root);
    g.set_grad(root, Scalar::one());
    let mut steps: Vec<Step> = Vec::new();
    let mut i = order.len();
    assert(order@.take(i as int) =~= order@);
    assert(steps@ + steps_in_reverse(old(g)@, order@) =~= steps_in_reverse(old(g)@, order@));
    while i > 0
        invariant
            i <= order@.len(),
            old(g).wf(),
            g@ == seeded(old(g)@, root),
            old(g).contains(root),
            forall|j: int| 0 <= j < order@.len() ==> order@[j] < old(g)@.len(),
            steps@ + steps_in_reverse(old(g)@, order@.take(i as int)) == steps_in_reverse(
                old(g)@,
                order@,
            ),
        decreases i,
    {
        i -= 1;
        let node = order[i];
        let v = g.node(node);
        proof {
            let prefix = order@.take(i + 1);
            assert(prefix.last() == node);
            assert(prefix.drop_last() =~= order@.take(i as int));
            assert(old(g)@[node as int].arity_ok());
            assert(v@.op == old(g)@[node as int].op);
            assert(v@.parents == old(g)@[node as int].parents);
        }
        let ghost before = steps@;
        match v.op {
            Some(op) => {
                let mut more = op.apply_backward(node, &v.parents);
                steps.append(&mut more);
            },
            None => {},
        }
        assert(steps@ =~= before + node_steps(old(g)@, node));
        assert((before + node_steps(old(g)@, node)) + steps_in_reverse(
            old(g)@,
            order@.take(i as int),
        ) =~= before + (node_steps(old(g)@, node) + steps_in_reverse(
            old(g)@,
            order@.take(i as int),
        )));
    }
    assert(order@.take(0) =~= Seq::<ValueRef>::empty());
    assert(steps@ + Seq::<Step>::empty() =~= steps@);
    steps
}

/// Sets the gradient of every node that `root` reaches to zero and leaves
/// everything else as it is.
pub fn zero_grad(g: &mut Graph, root: ValueRef)
    requires
        old(g).wf(),
        old(g).contains(root),
    ensures
        final(g)@ == cleared(old(g)@, root),
        final(g).wf(),
{
    let order = topo_sort(g, root);
    let mut i: usize = 0;
    while i < order.len()
        invariant
            i <= order@.len(),
            g.wf(),
            g@.len() == old(g)@.len(),
            forall|j: int| 0 <= j < order@.len() ==> order@[j] < old(g)@.len(),
            forall|x: ValueRef| order@.contains(x) <==> reaches(old(g)@, root, x),
            forall|x: ValueRef|
                x < g@.len() ==> #[trigger] g@[x as int] == if order@.take(i as int).contains(x) {
                    old(g)@[x as int].with_grad(Scalar::zero())
                } else {
                    old(g)@[x as int]
                },
        decreases order@.len() - i,
    {
        let node = order[i];
        proof {
            assert(order@.take(i + 1) =~= order@.take(i as int).push(node));
            lemma_push_contains(order@.take(i as int), node);
        }
        g.set_grad(node, Scalar::zero());
        i += 1;
    }
    let n = g.len();
    proof {
        assert(order@.take(order@.len() as int) =~= order@);
        assert forall|i: int| 0 <= i < n implies g@[i] == cleared(old(g)@, root)[i] by {
            let x = i as ValueRef;
            assert(g@[x as int] == g@[i]);
        }
        assert(g@ =~= cleared(old(g)@, root));
    }
}

} // verus!

use vstd::prelude::*;
use crate::engine::{
    cleared, node_steps, occurs_before, operands_first, reaches, schedule, seeded,
    steps_in_reverse, topo_order, visited_from, visited_operands,
};
use crate::ops::Step;
use crate::value::{well_formed, Node, Scalar, ValueRef};

verus! {

/// A sequence with one more entry holds what it held before, and that entry.
pub(crate) proof fn lemma_push_contains(s: Seq<ValueRef>, a: ValueRef)
    ensures
        forall|x: ValueRef| #[trigger] s.push(a).contains(x) <==> (s.contains(x) || x == a),
{
    assert forall|x: ValueRef| #[trigger] s.push(a).contains(x) <==> (s.contains(x) || x == a) by {
        if s.push(a).contains(x) {
            let j = choose|j: int| 0 <= j < s.push(a).len() && s.push(a)[j] == x;
            if j < s.len() {
                assert(s[j] == x);
            }
        }
        if s.contains(x) {
            let j = choose|j: int| 0 <= j < s.len() && s[j] == x;
            assert(s.push(a)[j] == x);
        }
        if x == a {
            assert(s.push(a)[s.len() as int] == a);
        }
    }
}

/// Whether `longer` begins with `shorter`.
spec fn extends(longer: Seq<ValueRef>, shorter: Seq<ValueRef>) -> bool {
    shorter.len() <= longer.len() && forall|j: int|
        0 <= j < shorter.len() ==> longer[j] == shorter[j]
}

/// What holds of an order at every moment of a visit: it names nodes of the
/// graph, each at most once, each after its operands.
spec fn partial_order(nodes: Seq<Node>, order: Seq<ValueRef>) -> bool {
    &&& order.no_duplicates()
    &&& forall|i: int| 0 <= i < order.len() ==> order[i] < nodes.len()
    &&& operands_first(nodes, order)
}

/// Whether everything that `longer` holds from position `from` on is at most
/// `bound` and reached from `top`.
spec fn added_within(
    nodes: Seq<Node>,
    longer: Seq<ValueRef>,
    from: int,
    top: ValueRef,
    bound: int,
) -> bool {
    forall|j: int|
        from <= j < longer.len() ==> (#[trigger] longer[j]) <= bound && reaches(
            nodes,
            top,
            longer[j],
        )
}

/// A node reaches itself and nodes below it, nothing above.
pub proof fn reaches_only_below(nodes: Seq<Node>, from: ValueRef, to: ValueRef)
    requires
        reaches(nodes, from, to),
    ensures
        to <= from,
    decreases from,
{
    if from != to {
        let k = choose|k: int|
            0 <= k < nodes[from as int].parents.len() && (#[trigger] nodes[from as int].parents[k])
                < from && reaches(nodes, nodes[from as int].parents[k], to);
        reaches_only_below(nodes, nodes[from as int].parents[k], to);
    }
}

/// A node reaches what one of its operands reaches.
proof fn lemma_reaches_through(nodes: Seq<Node>, node: ValueRef, k: int, x: ValueRef)
    requires
        node < nodes.len(),
        0 <= k < nodes[node as int].parents.len(),
        nodes[node as int].parents[k] < node,
        reaches(nodes, nodes[node as int].parents[k], x),
    ensures
        reaches(nodes, node, x),
{
}

proof fn lemma_visited_from(nodes: Seq<Node>, node: ValueRef, seen: Seq<ValueRef>)
    requires
        well_formed(nodes),
        node < nodes.len(),
        partial_order(nodes, seen),
    ensures
        partial_order(nodes, visited_from(nodes, node, seen)),
        extends(visited_from(nodes, node, seen), seen),
        visited_from(nodes, node, seen).contains(node),
        added_within(nodes, visited_from(nodes, node, seen), seen.len() as int, node, node as int),
        !seen.contains(node) ==> visited_from(nodes, node, seen).last() == node,
    decreases node, nodes[node as int].parents.len() + 1,
{
    if !seen.contains(node) {
        lemma_visited_operands(nodes, node, 0, seen);
        let mid = visited_operands(nodes, node, 0, seen);
        let r = mid.push(node);
        assert(r == visited_from(nodes, node, seen));
        assert(!mid.contains(node)) by {
            if mid.contains(node) {
                let j = choose|j: int| 0 <= j < mid.len() && mid[j] == node;
                if j < seen.len() {
                    assert(seen[j] == node);
                }
            }
        }
        assert(r.no_duplicates()) by {
            assert forall|i: int, j: int| 0 <= i < r.len() && 0 <= j < r.len() && i != j implies r[i]
                != r[j] by {
                if i < mid.len() && j < mid.len() {
                    assert(mid[i] != mid[j]);
                } else if i < mid.len() {
                    assert(mid[i] == r[i]);
                } else {
                    assert(mid[j] == r[j]);
                }
            }
        }
        assert(operands_first(nodes, r)) by {
            assert forall|i: int, k: int|
                0 <= i < r.len() && 0 <= k < nodes[r[i] as int].parents.len() implies occurs_before(
                r,
                #[trigger] nodes[r[i] as int].parents[k],
                i,
            ) by {
                let operand = nodes[r[i] as int].parents[k];
                if i < mid.len() {
                    assert(r[i] == mid[i]);
                    assert(occurs_before(mid, nodes[mid[i] as int].parents[k], i));
                    let j = choose|j: int| 0 <= j < i && j < mid.len() && mid[j] == operand;
                    assert(r[j] == operand);
                } else {
                    assert(mid.contains(operand));
                    let j = choose|j: int| 0 <= j < mid.len() && mid[j] == operand;
                    assert(r[j] == operand);
                }
            }
        }
        assert(r[mid.len() as int] == node);
    }
}

proof fn lemma_visited_operands(nodes: Seq<Node>, node: ValueRef, k: nat, seen: Seq<ValueRef>)
    requires
        well_formed(nodes),
        node < nodes.len(),
        k <= nodes[node as int].parents.len(),
        partial_order(nodes, seen),
    ensures
        partial_order(nodes, visited_operands(nodes, node, k, seen)),
        extends(visited_operands(nodes, node, k, seen), seen),
        forall|m: int|
            k <= m < nodes[node as int].parents.len() ==> visited_operands(
                nodes,
                node,
                k,
                seen,
            ).contains(#[trigger] nodes[node as int].parents[m]),
        added_within(
            nodes,
            visited_operands(nodes, node, k, seen),
            seen.len() as int,
            node,
            node - 1,
        ),
    decreases node, nodes[node as int].parents.len() - k,
{
    let parents = nodes[node as int].parents;
    if k < parents.len() {
        let operand = parents[k as int];
        assert(nodes[node as int].operands_below(node as int));
        assert(operand < node);
        lemma_visited_from(nodes, operand, seen);
        let next = visited_from(nodes, operand, seen);
        lemma_visited_operands(nodes, node, k + 1, next);
        let r = visited_operands(nodes, node, k + 1, next);
        assert(r == visited_operands(nodes, node, k, seen));
        assert forall|m: int| k <= m < parents.len() implies r.contains(#[trigger] parents[m]) by {
            if m == k {
                let j = choose|j: int| 0 <= j < next.len() && next[j] == operand;
                assert(r[j] == operand);
            }
        }
        assert forall|j: int| seen.len() <= j < r.len() implies (#[trigger] r[j]) <= node - 1
            && reaches(nodes, node, r[j]) by {
            if j < next.len() {
                assert(r[j] == next[j]);
                lemma_reaches_through(nodes, node, k as int, next[j]);
            }
        }
    }
}

/// An order that puts operands first holds whatever its entries reach.
proof fn lemma_holds_what_it_reaches(
    nodes: Seq<Node>,
    order: Seq<ValueRef>,
    from: ValueRef,
    to: ValueRef,
)
    requires
        operands_first(nodes, order),
        order.contains(from),
        reaches(nodes, from, to),
    ensures
        order.contains(to),
    decreases from,
{
    if from != to {
        let k = choose|k: int|
            0 <= k < nodes[from as int].parents.len() && (#[trigger] nodes[from as int].parents[k])
                < from && reaches(nodes, nodes[from as int].parents[k], to);
        let i = choose|i: int| 0 <= i < order.len() && order[i] == from;
        assert(occurs_before(order, nodes[order[i] as int].parents[k], i));
        lemma_holds_what_it_reaches(nodes, order, nodes[from as int].parents[k], to);
    }
}

/// Topological validity: in the topological order every node stands after
/// all of its operands, and the root stands last.
pub proof fn topo_order_puts_operands_first(nodes: Seq<Node>, root: ValueRef)
    requires
        well_formed(nodes),
        root < nodes.len(),
    ensures
        operands_first(nodes, topo_order(nodes, root)),
        topo_order(nodes, root).len() > 0,
        topo_order(nodes, root).last() == root,
{
    lemma_visited_from(nodes, root, Seq::empty());
}

/// Single visit: the topological order holds no node twice, however many
/// nodes use it as an operand.
pub proof fn topo_order_visits_once(nodes: Seq<Node>, root: ValueRef)
    requires
        well_formed(nodes),
        root < nodes.len(),
    ensures
        topo_order(nodes, root).no_duplicates(),
{
    lemma_visited_from(nodes, root, Seq::empty());
}

/// The topological order holds exactly the nodes that the root reaches.
pub proof fn topo_order_holds_what_root_reaches(nodes: Seq<Node>, root: ValueRef)
    requires
        well_formed(nodes),
        root < nodes.len(),
    ensures
        forall|x: ValueRef| topo_order(nodes, root).contains(x) <==> reaches(nodes, root, x),
{
    let order = topo_order(nodes, root);
    lemma_visited_from(nodes, root, Seq::empty());
    assert forall|x: ValueRef| order.contains(x) <==> reaches(nodes, root, x) by {
        if order.contains(x) {
            let j = choose|j: int| 0 <= j < order.len() && order[j] == x;
            assert(reaches(nodes, root, order[j]));
        }
        if reaches(nodes, root, x) {
            lemma_holds_what_it_reaches(nodes, order, root, x);
        }
    }
}

/// A partial order without its last entry is a partial order.
proof fn lemma_partial_order_drop_last(nodes: Seq<Node>, order: Seq<ValueRef>)
    requires
        partial_order(nodes, order),
        order.len() > 0,
    ensures
        partial_order(nodes, order.drop_last()),
{
    let shorter = order.drop_last();
    assert forall|i: int, k: int|
        0 <= i < shorter.len() && 0 <= k < nodes[shorter[i] as int].parents.len() implies occurs_before(
        shorter,
        #[trigger] nodes[shorter[i] as int].parents[k],
        i,
    ) by {
        assert(shorter[i] == order[i]);
        assert(occurs_before(order, nodes[order[i] as int].parents[k], i));
        let j = choose|j: int|
            0 <= j < i && j < order.len() && order[j] == nodes[order[i] as int].parents[k];
        assert(shorter[j] == order[j]);
    }
}

/// Each accumulation of a node reads the gradient of that node and feeds one
/// of its operands.
proof fn lemma_node_steps(nodes: Seq<Node>, node: ValueRef, i: int)
    requires
        nodes[node as int].arity_ok(),
        0 <= i < node_steps(nodes, node).len(),
    ensures
        node_steps(nodes, node)[i].source == node,
        nodes[node as int].op is Some,
        i < nodes[node as int].parents.len(),
        node_steps(nodes, node)[i].target == nodes[node as int].parents[i],
{
}

/// Each accumulation of a walk through a partial order reads a node of the
/// order and feeds one of its operands, which the order holds too.
proof fn lemma_steps_stay_in_order(nodes: Seq<Node>, order: Seq<ValueRef>, i: int)
    requires
        well_formed(nodes),
        partial_order(nodes, order),
        0 <= i < steps_in_reverse(nodes, order).len(),
    ensures
        order.contains(steps_in_reverse(nodes, order)[i].source),
        order.contains(steps_in_reverse(nodes, order)[i].target),
        nodes[steps_in_reverse(nodes, order)[i].source as int].op is Some,
        nodes[steps_in_reverse(nodes, order)[i].source as int].parents.contains(
            steps_in_reverse(nodes, order)[i].target,
        ),
    decreases order.len(),
{
    let last = order.last();
    let head = node_steps(nodes, last);
    let shorter = order.drop_last();
    let position = order.len() - 1;
    assert(order[position] == last);
    if i < head.len() {
        lemma_node_steps(nodes, last, i);
        let target = nodes[last as int].parents[i];
        assert(occurs_before(order, nodes[order[position] as int].parents[i], position));
    } else {
        lemma_partial_order_drop_last(nodes, order);
        lemma_steps_stay_in_order(nodes, shorter, i - head.len());
        let step = steps_in_reverse(nodes, shorter)[i - head.len()];
        let a = choose|a: int| 0 <= a < shorter.len() && shorter[a] == step.source;
        assert(order[a] == step.source);
        let b = choose|b: int| 0 <= b < shorter.len() && shorter[b] == step.target;
        assert(order[b] == step.target);
    }
}

proof fn lemma_steps_feed_before_reading(nodes: Seq<Node>, order: Seq<ValueRef>, i: int, j: int)
    requires
        well_formed(nodes),
        partial_order(nodes, order),
        0 <= i <= j < steps_in_reverse(nodes, order).len(),
    ensures
        steps_in_reverse(nodes, order)[j].target != steps_in_reverse(nodes, order)[i].source,
    decreases order.len(),
{
    let last = order.last();
    let head = node_steps(nodes, last);
    let shorter = order.drop_last();
    let position = order.len() - 1;
    assert(order[position] == last);
    lemma_partial_order_drop_last(nodes, order);
    if i < head.len() {
        lemma_node_steps(nodes, last, i);
        if j < head.len() {
            lemma_node_steps(nodes, last, j);
            assert(nodes[last as int].operands_below(last as int));
        } else {
            lemma_steps_stay_in_order(nodes, shorter, j - head.len());
            let target = steps_in_reverse(nodes, shorter)[j - head.len()].target;
            let b = choose|b: int| 0 <= b < shorter.len() && shorter[b] == target;
            assert(order[b] == target);
        }
    } else {
        lemma_steps_feed_before_reading(nodes, shorter, i - head.len(), j - head.len());
    }
}

/// Every accumulation of a backward pass reads the gradient of a node that
/// the root reaches and that an operator produced, and feeds one of the
/// operands of that node.
pub proof fn schedule_follows_operands(nodes: Seq<Node>, root: ValueRef, i: int)
    requires
        well_formed(nodes),
        root < nodes.len(),
        0 <= i < schedule(nodes, root).len(),
    ensures
        reaches(nodes, root, schedule(nodes, root)[i].source),
        nodes[schedule(nodes, root)[i].source as int].op is Some,
        nodes[schedule(nodes, root)[i].source as int].parents.contains(
            schedule(nodes, root)[i].target,
        ),
{
    lemma_visited_from(nodes, root, Seq::empty());
    lemma_steps_stay_in_order(nodes, topo_order(nodes, root), i);
    topo_order_holds_what_root_reaches(nodes, root);
}

/// A backward pass hands the gradient of a node on only when it is complete:
/// once a step has read the gradient of a node, neither that step nor any
/// later one feeds that node.
pub proof fn schedule_feeds_before_reading(nodes: Seq<Node>, root: ValueRef, i: int, j: int)
    requires
        well_formed(nodes),
        root < nodes.len(),
        0 <= i <= j < schedule(nodes, root).len(),
    ensures
        schedule(nodes, root)[j].target != schedule(nodes, root)[i].source,
{
    lemma_visited_from(nodes, root, Seq::empty());
    lemma_steps_feed_before_reading(nodes, topo_order(nodes, root), i, j);
}

/// How often `x` stands in `s`.
pub open spec fn count_of(s: Seq<ValueRef>, x: ValueRef) -> nat
    decreases s.len(),
{
    if s.len() == 0 {
        0
    } else {
        count_of(s.drop_last(), x) + if s.last() == x {
            1nat
        } else {
            0nat
        }
    }
}

/// How often the nodes of `order` use `x` as an operand, a node that uses it
/// twice counted twice.
pub open spec fn uses(nodes: Seq<Node>, order: Seq<ValueRef>, x: ValueRef) -> nat
    decreases order.len(),
{
    if order.len() == 0 {
        0
    } else {
        uses(nodes, order.drop_last(), x) + count_of(nodes[order.last() as int].parents, x)
    }
}

/// How many of `steps` feed `x`.
pub open spec fn accumulations(steps: Seq<Step>, x: ValueRef) -> nat
    decreases steps.len(),
{
    if steps.len() == 0 {
        0
    } else {
        accumulations(steps.drop_last(), x) + if steps.last().target == x {
            1nat
        } else {
            0nat
        }
    }
}

proof fn lemma_accumulations_concat(a: Seq<Step>, b: Seq<Step>, x: ValueRef)
    ensures
        accumulations(a + b, x) == accumulations(a, x) + accumulations(b, x),
    decreases b.len(),
{
    if b.len() == 0 {
        assert(a + b =~= a);
    } else {
        assert((a + b).drop_last() =~= a + b.drop_last());
        lemma_accumulations_concat(a, b.drop_last(), x);
    }
}

/// A node feeds each of its operands once for each time it uses it.
proof fn lemma_node_accumulations(nodes: Seq<Node>, node: ValueRef, x: ValueRef)
    requires
        nodes[node as int].arity_ok(),
    ensures
        accumulations(node_steps(nodes, node), x) == count_of(nodes[node as int].parents, x),
{
    let steps = node_steps(nodes, node);
    let parents = nodes[node as int].parents;
    reveal_with_fuel(accumulations, 3);
    reveal_with_fuel(count_of, 3);
    if steps.len() == 2 {
        assert(steps.drop_last().drop_last() =~= Seq::<Step>::empty());
        assert(parents.drop_last().drop_last() =~= Seq::<ValueRef>::empty());
        assert(steps.drop_last().last().target == parents.drop_last().last());
    } else if steps.len() == 1 {
        assert(steps.drop_last() =~= Seq::<Step>::empty());
        assert(parents.drop_last() =~= Seq::<ValueRef>::empty());
    }
}

proof fn lemma_steps_count_uses(nodes: Seq<Node>, order: Seq<ValueRef>, x: ValueRef)
    requires
        well_formed(nodes),
        forall|i: int| 0 <= i < order.len() ==> order[i] < nodes.len(),
    ensures
        accumulations(steps_in_reverse(nodes, order), x) == uses(nodes, order, x),
    decreases order.len(),
{
    if order.len() > 0 {
        let head = node_steps(nodes, order.last());
        let shorter = order.drop_last();
        assert(order[order.len() - 1] < nodes.len());
        assert forall|i: int| 0 <= i < shorter.len() implies shorter[i] < nodes.len() by {
            assert(shorter[i] == order[i]);
        }
        lemma_steps_count_uses(nodes, shorter, x);
        lemma_node_accumulations(nodes, order.last(), x);
        lemma_accumulations_concat(head, steps_in_reverse(nodes, shorter), x);
    }
}

/// Additive accumulation: a backward pass feeds a node once for each use of
/// it as an operand by a node that the root reaches, so a node that is used
/// in two places receives two contributions.
pub proof fn schedule_feeds_once_for_each_use(nodes: Seq<Node>, root: ValueRef, x: ValueRef)
    requires
        well_formed(nodes),
        root < nodes.len(),
    ensures
        accumulations(schedule(nodes, root), x) == uses(nodes, topo_order(nodes, root), x),
{
    lemma_visited_from(nodes, root, Seq::empty());
    lemma_steps_count_uses(nodes, topo_order(nodes, root), x);
}

/// What a node reaches depends on the operands of the nodes alone.
proof fn lemma_reaches_by_operands(a: Seq<Node>, b: Seq<Node>, from: ValueRef, to: ValueRef)
    requires
        a.len() == b.len(),
        forall|i: int| 0 <= i < a.len() ==> (#[trigger] a[i]).parents == b[i].parents,
    ensures
        reaches(a, from, to) == reaches(b, from, to),
    decreases from,
{
    if from != to && from < a.len() {
        assert(a[from as int].parents == b[from as int].parents);
        if reaches(a, from, to) {
            let k = choose|k: int|
                0 <= k < a[from as int].parents.len() && (#[trigger] a[from as int].parents[k])
                    < from && reaches(a, a[from as int].parents[k], to);
            lemma_reaches_by_operands(a, b, a[from as int].parents[k], to);
            assert(b[from as int].parents[k] < from && reaches(b, b[from as int].parents[k], to));
        }
        if reaches(b, from, to) {
            let k = choose|k: int|
                0 <= k < b[from as int].parents.len() && (#[trigger] b[from as int].parents[k])
                    < from && reaches(b, b[from as int].parents[k], to);
            lemma_reaches_by_operands(a, b, b[from as int].parents[k], to);
            assert(a[from as int].parents[k] < from && reaches(a, a[from as int].parents[k], to));
        }
    }
}

/// Gradient of self: seeding sets the gradient of the root to one and
/// changes nothing else, so that no operand has received anything yet.
pub proof fn seeding_touches_the_root_alone(nodes: Seq<Node>, root: ValueRef)
    requires
        root < nodes.len(),
    ensures
        seeded(nodes, root).len() == nodes.len(),
        seeded(nodes, root)[root as int] == nodes[root as int].with_grad(Scalar::one()),
        forall|i: int| 0 <= i < nodes.len() && i != root ==> seeded(nodes, root)[i] == nodes[i],
{
}

/// Reset: whatever gradients a graph holds, after a reset from `root` every
/// node that `root` reaches has gradient zero, and every other node and
/// every other field is as before.
pub proof fn reset_zeroes_what_root_reaches(nodes: Seq<Node>, root: ValueRef, x: ValueRef)
    requires
        x < nodes.len(),
    ensures
        cleared(nodes, root).len() == nodes.len(),
        reaches(nodes, root, x) ==> cleared(nodes, root)[x as int] == nodes[x as int].with_grad(
            Scalar::zero(),
        ),
        !reaches(nodes, root, x) ==> cleared(nodes, root)[x as int] == nodes[x as int],
{
}

/// Reset idempotence: a second reset from the same root changes nothing.
pub proof fn reset_twice_is_reset_once(nodes: Seq<Node>, root: ValueRef)
    ensures
        cleared(cleared(nodes, root), root) == cleared(nodes, root),
{
    let once = cleared(nodes, root);
    let twice = cleared(once, root);
    assert forall|i: int| 0 <= i < nodes.len() implies twice[i] == once[i] by {
        lemma_reaches_by_operands(once, nodes, root, i as ValueRef);
    }
    assert(twice =~= once);
}

/// A reset wipes the seed of a backward pass along with everything else: a
/// reset after seeding gives what a reset alone gives.
pub proof fn reset_after_seeding(nodes: Seq<Node>, root: ValueRef)
    requires
        root < nodes.len(),
    ensures
        cleared(seeded(nodes, root), root) == cleared(nodes, root),
{
    let seed = seeded(nodes, root);
    assert forall|i: int| 0 <= i < nodes.len() implies cleared(seed, root)[i] == cleared(
        nodes,
        root,
    )[i] by {
        lemma_reaches_by_operands(seed, nodes, root, i as ValueRef);
    }
    assert(cleared(seed, root) =~= cleared(nodes, root));
}

/// The gradients after `steps` have run in order from the gradients `grads`.
/// The arithmetic is a parameter: `amount` is what a step makes of the
/// gradient of its source, `plus` is the addition into the target.
pub open spec fn run(
    steps: Seq<Step>,
    grads: Seq<Scalar>,
    amount: spec_fn(Step, Scalar) -> Scalar,
    plus: spec_fn(Scalar, Scalar) -> Scalar,
) -> Seq<Scalar>
    decreases steps.len(),
{
    if steps.len() == 0 {
        grads
    } else {
        let before = run(steps.drop_last(), grads, amount, plus);
        let step = steps.last();
        before.update(
            step.target as int,
            plus(before[step.target as int], amount(step, before[step.source as int])),
        )
    }
}

/// What gathers in `x` from `start` when every step of `steps` that feeds
/// `x` adds, in order, what it makes of the gradient that `settled` holds for
/// its source.
pub open spec fn gathered(
    steps: Seq<Step>,
    x: ValueRef,
    start: Scalar,
    settled: Seq<Scalar>,
    amount: spec_fn(Step, Scalar) -> Scalar,
    plus: spec_fn(Scalar, Scalar) -> Scalar,
) -> Scalar
    decreases steps.len(),
{
    if steps.len() == 0 {
        start
    } else {
        let before = gathered(steps.drop_last(), x, start, settled, amount, plus);
        let step = steps.last();
        if step.target == x {
            plus(before, amount(step, settled[step.source as int]))
        } else {
            before
        }
    }
}

/// Whether no step of `steps` feeds a node that it or an earlier step reads.
spec fn feeds_first(steps: Seq<Step>) -> bool {
    forall|i: int, j: int|
        0 <= i <= j < steps.len() ==> (#[trigger] steps[j]).target != (#[trigger] steps[i]).source
}

/// Whether every step of `steps` names nodes below `n`.
spec fn names_below(steps: Seq<Step>, n: nat) -> bool {
    forall|i: int|
        0 <= i < steps.len() ==> (#[trigger] steps[i]).target < n && steps[i].source < n
}

proof fn lemma_run_len(
    steps: Seq<Step>,
    grads: Seq<Scalar>,
    amount: spec_fn(Step, Scalar) -> Scalar,
    plus: spec_fn(Scalar, Scalar) -> Scalar,
)
    requires
        names_below(steps, grads.len()),
    ensures
        run(steps, grads, amount, plus).len() == grads.len(),
    decreases steps.len(),
{
    if steps.len() > 0 {
        let shorter = steps.drop_last();
        assert forall|i: int| 0 <= i < shorter.len() implies (#[trigger] shorter[i]).target
            < grads.len() && shorter[i].source < grads.len() by {
            assert(shorter[i] == steps[i]);
        }
        lemma_run_len(shorter, grads, amount, plus);
        assert(steps.last() == steps[steps.len() - 1]);
    }
}

/// The first steps of steps that name nodes below `n` do so too.
proof fn lemma_names_below_take(steps: Seq<Step>, n: nat, k: int)
    requires
        names_below(steps, n),
        0 <= k <= steps.len(),
    ensures
        names_below(steps.take(k), n),
{
    assert forall|i: int| 0 <= i < steps.take(k).len() implies (#[trigger] steps.take(k)[i]).target
        < n && steps.take(k)[i].source < n by {
        assert(steps.take(k)[i] == steps[i]);
    }
}

/// Steps of which none feeds `x` leave the gradient of `x` as it is.
proof fn lemma_run_keeps(
    steps: Seq<Step>,
    grads: Seq<Scalar>,
    amount: spec_fn(Step, Scalar) -> Scalar,
    plus: spec_fn(Scalar, Scalar) -> Scalar,
    from: int,
    to: int,
    x: ValueRef,
)
    requires
        0 <= from <= to <= steps.len(),
        names_below(steps, grads.len()),
        x < grads.len(),
        forall|j: int| from <= j < to ==> (#[trigger] steps[j]).target != x,
    ensures
        run(steps.take(to), grads, amount, plus)[x as int] == run(
            steps.take(from),
            grads,
            amount,
            plus,
        )[x as int],
    decreases to - from,
{
    if from < to {
        assert(steps.take(to).drop_last() =~= steps.take(to - 1));
        assert(steps.take(to).last() == steps[to - 1]);
        lemma_names_below_take(steps, grads.len(), to - 1);
        lemma_run_len(steps.take(to - 1), grads, amount, plus);
        lemma_run_keeps(steps, grads, amount, plus, from, to - 1, x);
    }
}

proof fn lemma_run_gathers(
    steps: Seq<Step>,
    grads: Seq<Scalar>,
    amount: spec_fn(Step, Scalar) -> Scalar,
    plus: spec_fn(Scalar, Scalar) -> Scalar,
    n: int,
    x: ValueRef,
)
    requires
        0 <= n <= steps.len(),
        feeds_first(steps),
        names_below(steps, grads.len()),
        x < grads.len(),
    ensures
        run(steps.take(n), grads, amount, plus)[x as int] == gathered(
            steps.take(n),
            x,
            grads[x as int],
            run(steps, grads, amount, plus),
            amount,
            plus,
        ),
    decreases n,
{
    if n > 0 {
        let step = steps[n - 1];
        assert(steps.take(n).drop_last() =~= steps.take(n - 1));
        assert(steps.take(n).last() == step);
        lemma_run_gathers(steps, grads, amount, plus, n - 1, x);
        lemma_names_below_take(steps, grads.len(), n - 1);
        lemma_run_len(steps.take(n - 1), grads, amount, plus);
        assert forall|j: int| n - 1 <= j < steps.len() implies (#[trigger] steps[j]).target
            != step.source by {
            assert(steps[j].target != steps[n - 1].source);
        }
        lemma_run_keeps(steps, grads, amount, plus, n - 1, steps.len() as int, step.source);
        assert(steps.take(steps.len() as int) =~= steps);
    }
}

/// Additive accumulation, whatever the arithmetic: after the steps of a
/// backward pass have run, the gradient of every node is what it was before
/// the pass, plus one contribution for each step that feeds it, added in the
/// order of the steps and each made of the final gradient of its source. A
/// node that is used in two places ends with the sum of the two contributions.
pub proof fn backward_gathers_contributions(
    nodes: Seq<Node>,
    root: ValueRef,
    grads: Seq<Scalar>,
    amount: spec_fn(Step, Scalar) -> Scalar,
    plus: spec_fn(Scalar, Scalar) -> Scalar,
    x: ValueRef,
)
    requires
        well_formed(nodes),
        root < nodes.len(),
        grads.len() == nodes.len(),
        x < nodes.len(),
    ensures
        run(schedule(nodes, root), grads, amount, plus).len() == grads.len(),
        run(schedule(nodes, root), grads, amount, plus)[x as int] == gathered(
            schedule(nodes, root),
            x,
            grads[x as int],
            run(schedule(nodes, root), grads, amount, plus),
            amount,
            plus,
        ),
{
    let steps = schedule(nodes, root);
    lemma_schedule_runs(nodes, root);
    lemma_run_len(steps, grads, amount, plus);
    lemma_run_gathers(steps, grads, amount, plus, steps.len() as int, x);
    assert(steps.take(steps.len() as int) =~= steps);
}

/// Gradient of self: no step of a backward pass feeds the root, so the seed
/// is still the gradient of the root when the pass is over.
pub proof fn backward_keeps_the_seed(
    nodes: Seq<Node>,
    root: ValueRef,
    grads: Seq<Scalar>,
    amount: spec_fn(Step, Scalar) -> Scalar,
    plus: spec_fn(Scalar, Scalar) -> Scalar,
)
    requires
        well_formed(nodes),
        root < nodes.len(),
        grads.len() == nodes.len(),
    ensures
        run(schedule(nodes, root), grads, amount, plus)[root as int] == grads[root as int],
{
    let steps = schedule(nodes, root);
    lemma_schedule_runs(nodes, root);
    assert forall|j: int| 0 <= j < steps.len() implies (#[trigger] steps[j]).target != root by {
        schedule_follows_operands(nodes, root, j);
        reaches_only_below(nodes, root, steps[j].source);
        let source = steps[j].source;
        let k = choose|k: int|
            0 <= k < nodes[source as int].parents.len() && nodes[source as int].parents[k]
                == steps[j].target;
        assert(nodes[source as int].operands_below(source as int));
        assert(nodes[source as int].parents[k] < source);
    }
    lemma_run_keeps(steps, grads, amount, plus, 0, steps.len() as int, root);
    assert(steps.take(steps.len() as int) =~= steps);
    assert(steps.take(0) =~= Seq::<Step>::empty());
}

/// The schedule of a backward pass names nodes of the graph and feeds every
/// node before it reads it.
proof fn lemma_schedule_runs(nodes: Seq<Node>, root: ValueRef)
    requires
        well_formed(nodes),
        root < nodes.len(),
    ensures
        feeds_first(schedule(nodes, root)),
        names_below(schedule(nodes, root), nodes.len()),
{
    let steps = schedule(nodes, root);
    assert forall|i: int, j: int| 0 <= i <= j < steps.len() implies (#[trigger] steps[j]).target
        != (#[trigger] steps[i]).source by {
        schedule_feeds_before_reading(nodes, root, i, j);
    }
    assert forall|i: int| 0 <= i < steps.len() implies (#[trigger] steps[i]).target < nodes.len()
        && steps[i].source < nodes.len() by {
        schedule_follows_operands(nodes, root, i);
        reaches_only_below(nodes, root, steps[i].source);
        let source = steps[i].source;
        let k = choose|k: int|
            0 <= k < nodes[source as int].parents.len() && nodes[source as int].parents[k]
                == steps[i].target;
        assert(nodes[source as int].operands_below(source as int));
        assert(nodes[source as int].parents[k] < source);
    }
}

} // verus!

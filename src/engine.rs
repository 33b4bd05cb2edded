use vstd::prelude::*;

verus! {

/// The number type that the graph computes with.
///
/// Each operation is named by a spec function, and each method returns what
/// its spec function gives on its arguments: an implementation defines the
/// spec functions as what its methods compute, so the only thing asked of it is
/// that every operation is a function of its arguments alone (true of IEEE
/// double-precision arithmetic, which is what the network is meant to run on).
/// Nothing is assumed of the numbers themselves: no algebraic law is used.
pub trait Scalar: Copy + Sized {
    spec fn spec_zero() -> Self;

    spec fn spec_one() -> Self;

    spec fn spec_plus(a: Self, b: Self) -> Self;

    spec fn spec_minus(a: Self, b: Self) -> Self;

    spec fn spec_times(a: Self, b: Self) -> Self;

    spec fn spec_powf(a: Self, exponent: Self) -> Self;

    spec fn spec_tanh(a: Self) -> Self;

    fn zero() -> (r: Self)
        ensures
            r == Self::spec_zero(),
    ;

    fn one() -> (r: Self)
        ensures
            r == Self::spec_one(),
    ;

    fn plus(&self, other: &Self) -> (r: Self)
        ensures
            r == Self::spec_plus(*self, *other),
    ;

    fn minus(&self, other: &Self) -> (r: Self)
        ensures
            r == Self::spec_minus(*self, *other),
    ;

    fn times(&self, other: &Self) -> (r: Self)
        ensures
            r == Self::spec_times(*self, *other),
    ;

    fn powf(&self, exponent: &Self) -> (r: Self)
        ensures
            r == Self::spec_powf(*self, *exponent),
    ;

    fn tanh(&self) -> (r: Self)
        ensures
            r == Self::spec_tanh(*self),
    ;
}

/// How a node was produced, with the indices of its operands.
#[derive(Clone, Copy)]
pub enum Op<S> {
    Leaf,
    Add(usize, usize),
    Mul(usize, usize),
    Pow(usize, S),
    Tanh(usize),
}

#[derive(Clone, Copy)]
pub struct Node<S> {
    pub value: S,
    pub grad: S,
    pub op: Op<S>,
}

/// A handle to a node of a `Graph`: its index in the arena.
#[derive(Clone, Copy, Debug, PartialEq, Eq, Structural)]
pub struct Value {
    pub index: usize,
}

/// The operand indices of an operation, in order.
pub open spec fn operands<S>(op: Op<S>) -> Seq<int> {
    match op {
        Op::Leaf => seq![],
        Op::Add(a, b) => seq![a as int, b as int],
        Op::Mul(a, b) => seq![a as int, b as int],
        Op::Pow(a, _) => seq![a as int],
        Op::Tanh(a) => seq![a as int],
    }
}

/// How many operand slots of `op` hold node `i`.
pub open spec fn uses<S>(op: Op<S>, i: int) -> nat {
    match op {
        Op::Leaf => 0,
        Op::Add(a, b) => (if a == i { 1nat } else { 0nat }) + (if b == i { 1nat } else { 0nat }),
        Op::Mul(a, b) => (if a == i { 1nat } else { 0nat }) + (if b == i { 1nat } else { 0nat }),
        Op::Pow(a, _) => if a == i { 1nat } else { 0nat },
        Op::Tanh(a) => if a == i { 1nat } else { 0nat },
    }
}

/// Every node refers only to nodes created before it, so the graph has no cycle.
pub open spec fn acyclic<S>(nodes: Seq<Node<S>>) -> bool {
    forall|i: int, k: int|
        0 <= i < nodes.len() && 0 <= k < operands(nodes[i].op).len() ==> 0 <= #[trigger] operands(
            nodes[i].op,
        )[k] < i
}

/// Minus one, as the number type computes it: zero minus one.
pub open spec fn minus_one<S: Scalar>() -> S {
    S::spec_minus(S::spec_zero(), S::spec_one())
}

/// `new` holds `old` unchanged as its first nodes.
pub open spec fn extends<S>(new: Seq<Node<S>>, old: Seq<Node<S>>) -> bool {
    new.len() >= old.len() && forall|k: int| 0 <= k < old.len() ==> #[trigger] new[k] == old[k]
}

/// Node `j` lists node `i` among its operands.
pub open spec fn feeds<S>(nodes: Seq<Node<S>>, j: int, i: int) -> bool {
    0 <= j < nodes.len() && operands(nodes[j].op).contains(i)
}

/// `p` walks from a node to one of its operands at each step.
pub open spec fn is_path<S>(nodes: Seq<Node<S>>, p: Seq<int>) -> bool {
    &&& p.len() > 0
    &&& forall|m: int| 0 <= m < p.len() ==> 0 <= #[trigger] p[m] < nodes.len()
    &&& forall|m: int| 0 <= m < p.len() - 1 ==> #[trigger] feeds(nodes, p[m], p[m + 1])
}

/// Node `t` can be reached from `root` by following operands.
pub open spec fn reaches<S>(nodes: Seq<Node<S>>, root: int, t: int) -> bool {
    exists|p: Seq<int>| #[trigger] is_path(nodes, p) && p[0] == root && p[p.len() - 1] == t
}

/// The number of operand slots, over the nodes `lo..` reachable from `root`,
/// that hold node `i`: how many gradient contributions `i` receives from a
/// backward pass over those nodes.
pub open spec fn incoming_from<S>(nodes: Seq<Node<S>>, root: int, i: int, lo: int) -> nat
    decreases nodes.len() - lo,
{
    if lo < 0 || lo >= nodes.len() {
        0
    } else {
        (if reaches(nodes, root, lo) { uses(nodes[lo].op, i) } else { 0 }) + incoming_from(
            nodes,
            root,
            i,
            lo + 1,
        )
    }
}

/// The number of gradient contributions that node `i` receives from one
/// backward pass started at `root`.
pub open spec fn incoming<S>(nodes: Seq<Node<S>>, root: int, i: int) -> nat {
    incoming_from(nodes, root, i, 0)
}

/// The value that a node with operation `op` holds, given the values of the
/// nodes in `nodes`; a leaf holds its own value `own`.
pub open spec fn eval_op<S: Scalar>(nodes: Seq<Node<S>>, op: Op<S>, own: S) -> S {
    match op {
        Op::Leaf => own,
        Op::Add(a, b) => S::spec_plus(nodes[a as int].value, nodes[b as int].value),
        Op::Mul(a, b) => S::spec_times(nodes[a as int].value, nodes[b as int].value),
        Op::Pow(a, n) => S::spec_powf(nodes[a as int].value, n),
        Op::Tanh(a) => S::spec_tanh(nodes[a as int].value),
    }
}

/// Every node holds the value that its operation gives on its operands.
pub open spec fn consistent<S: Scalar>(nodes: Seq<Node<S>>) -> bool {
    forall|i: int| 0 <= i < nodes.len() ==> #[trigger] nodes[i].value == eval_op(nodes, nodes[i].op, nodes[i].value)
}

/// Node `i` with its gradient replaced by `g`.
pub open spec fn with_grad<S>(nodes: Seq<Node<S>>, i: int, g: S) -> Seq<Node<S>> {
    nodes.update(i, Node { value: nodes[i].value, grad: g, op: nodes[i].op })
}

/// `d` added to the gradient of node `i`.
pub open spec fn add_to_grad<S: Scalar>(nodes: Seq<Node<S>>, i: int, d: S) -> Seq<Node<S>> {
    with_grad(nodes, i, S::spec_plus(nodes[i].grad, d))
}

/// The local gradient rule of node `j`: with `g` its gradient, an addition
/// adds `g` to both operands; a product adds to each operand the other's value
/// times `g`; a power `a^n` adds `n * a^(n - 1) * g`; a hyperbolic tangent
/// with output `t` adds `(1 - t * t) * g`. An operand that appears twice gets
/// both contributions.
pub open spec fn apply_rule<S: Scalar>(nodes: Seq<Node<S>>, j: int) -> Seq<Node<S>> {
    let g = nodes[j].grad;
    match nodes[j].op {
        Op::Leaf => nodes,
        Op::Add(a, b) => add_to_grad(add_to_grad(nodes, a as int, g), b as int, g),
        Op::Mul(a, b) => add_to_grad(
            add_to_grad(nodes, a as int, S::spec_times(nodes[b as int].value, g)),
            b as int,
            S::spec_times(nodes[a as int].value, g),
        ),
        Op::Pow(a, n) => add_to_grad(
            nodes,
            a as int,
            S::spec_times(S::spec_times(n, S::spec_powf(nodes[a as int].value, S::spec_minus(n, S::spec_one()))), g),
        ),
        Op::Tanh(a) => add_to_grad(
            nodes,
            a as int,
            S::spec_times(S::spec_minus(S::spec_one(), S::spec_times(nodes[j].value, nodes[j].value)), g),
        ),
    }
}

/// The nodes after seeding the gradient of `root` with one and applying the
/// rule of every node of index `j` or more that `root` reaches, from the
/// highest index down.
pub open spec fn backward_from<S: Scalar>(nodes: Seq<Node<S>>, root: int, j: int) -> Seq<Node<S>>
    decreases nodes.len() - j,
{
    if j < 0 || j >= nodes.len() {
        with_grad(nodes, root, S::spec_one())
    } else {
        let after = backward_from(nodes, root, j + 1);
        if reaches(nodes, root, j) {
            apply_rule(after, j)
        } else {
            after
        }
    }
}

/// The nodes after a backward pass from `root`: the root's gradient set to one,
/// then the rule of every reachable node applied once, consumers before their
/// operands (by descending index), each adding to the gradients present.
pub open spec fn backward_result<S: Scalar>(nodes: Seq<Node<S>>, root: int) -> Seq<Node<S>> {
    backward_from(nodes, root, 0)
}

/// Graphs with the same values and operations are equally well formed.
proof fn lemma_same_shape<S: Scalar>(new: Seq<Node<S>>, old: Seq<Node<S>>)
    requires
        new.len() == old.len(),
        forall|i: int| 0 <= i < old.len() ==> (#[trigger] new[i]).value == old[i].value && new[i].op == old[i].op,
        acyclic(old),
        consistent(old),
    ensures
        acyclic(new),
        consistent(new),
{
    assert forall|i: int, k: int| 0 <= i < new.len() && 0 <= k < operands(new[i].op).len() implies 0
        <= #[trigger] operands(new[i].op)[k] < i by {
        assert(new[i].op == old[i].op);
    }
    assert forall|i: int| 0 <= i < new.len() implies #[trigger] new[i].value == eval_op(new, new[i].op, new[i].value) by {
        assert(old[i].value == eval_op(old, old[i].op, old[i].value));
        assert(new[i].op == old[i].op);
        assert(operands(old[i].op).len() == 0 || 0 <= operands(old[i].op)[0] < i);
        assert(operands(old[i].op).len() <= 1 || 0 <= operands(old[i].op)[1] < i);
        match old[i].op {
            Op::Add(a, b) => {
                assert(new[a as int].value == old[a as int].value && new[b as int].value == old[b as int].value);
            },
            Op::Mul(a, b) => {
                assert(new[a as int].value == old[a as int].value && new[b as int].value == old[b as int].value);
            },
            Op::Pow(a, _) => {
                assert(new[a as int].value == old[a as int].value);
            },
            Op::Tanh(a) => {
                assert(new[a as int].value == old[a as int].value);
            },
            Op::Leaf => {},
        }
    }
}

/// Appending a node whose operands come before it, and whose value is what
/// its operation gives, keeps a graph well formed.
proof fn lemma_push_consistent<S: Scalar>(old: Seq<Node<S>>, node: Node<S>)
    requires
        acyclic(old),
        consistent(old),
        forall|k: int| 0 <= k < operands(node.op).len() ==> 0 <= #[trigger] operands(node.op)[k] < old.len(),
        node.value == eval_op(old, node.op, node.value),
    ensures
        acyclic(old.push(node)),
        consistent(old.push(node)),
{
    let new = old.push(node);
    assert forall|i: int, k: int| 0 <= i < new.len() && 0 <= k < operands(new[i].op).len() implies 0
        <= #[trigger] operands(new[i].op)[k] < i by {
        if i < old.len() {
            assert(new[i] == old[i]);
        }
    }
    assert forall|i: int| 0 <= i < new.len() implies #[trigger] new[i].value == eval_op(new, new[i].op, new[i].value) by {
        let op = new[i].op;
        if i < old.len() {
            assert(new[i] == old[i]);
            assert(old[i].value == eval_op(old, old[i].op, old[i].value));
        }
        assert(operands(op).len() == 0 || 0 <= operands(op)[0] < i);
        assert(operands(op).len() <= 1 || 0 <= operands(op)[1] < i);
        match op {
            Op::Add(a, b) => {
                assert(operands(op)[0] == a && operands(op)[1] == b);
                assert(new[a as int] == old[a as int] && new[b as int] == old[b as int]);
            },
            Op::Mul(a, b) => {
                assert(operands(op)[0] == a && operands(op)[1] == b);
                assert(new[a as int] == old[a as int] && new[b as int] == old[b as int]);
            },
            Op::Pow(a, _) => {
                assert(operands(op)[0] == a);
                assert(new[a as int] == old[a as int]);
            },
            Op::Tanh(a) => {
                assert(operands(op)[0] == a);
                assert(new[a as int] == old[a as int]);
            },
            Op::Leaf => {},
        }
    }
}

/// A rule changes gradients only, and only those of the node's operands.
proof fn lemma_rule_frame<S: Scalar>(nodes: Seq<Node<S>>, j: int, k: int)
    requires
        0 <= j < nodes.len(),
        0 <= k < nodes.len(),
        forall|t: int| 0 <= t < operands(nodes[j].op).len() ==> 0 <= #[trigger] operands(nodes[j].op)[t] < nodes.len(),
    ensures
        apply_rule(nodes, j).len() == nodes.len(),
        apply_rule(nodes, j)[k].value == nodes[k].value,
        apply_rule(nodes, j)[k].op == nodes[k].op,
        apply_rule(nodes, j)[k].grad == nodes[k].grad || operands(nodes[j].op).contains(k),
{
    let op = nodes[j].op;
    match op {
        Op::Add(a, b) => {
            assert(operands(op)[0] == a && operands(op)[1] == b);
        },
        Op::Mul(a, b) => {
            assert(operands(op)[0] == a && operands(op)[1] == b);
        },
        Op::Pow(a, _) => {
            assert(operands(op)[0] == a);
        },
        Op::Tanh(a) => {
            assert(operands(op)[0] == a);
        },
        Op::Leaf => {},
    }
}

/// Operands come before their consumers, so nothing after `root` is reached from it.
proof fn lemma_reaches_below<S>(nodes: Seq<Node<S>>, root: int, t: int)
    requires
        acyclic(nodes),
        0 <= root < nodes.len(),
        reaches(nodes, root, t),
    ensures
        t <= root,
{
    let marks = Seq::new(nodes.len(), |i: int| i <= root);
    assert forall|a: int, b: int| 0 <= a < nodes.len() && marks[a] && #[trigger] feeds(nodes, a, b) implies marks[b] by {
        let k = choose|k: int| 0 <= k < operands(nodes[a].op).len() && operands(nodes[a].op)[k] == b;
        assert(operands(nodes[a].op)[k] < a);
    }
    let p = choose|p: Seq<int>| #[trigger] is_path(nodes, p) && p[0] == root && p[p.len() - 1] == t;
    lemma_closed_holds_path(nodes, marks, p);
}

/// Only nodes after `i` can list it as an operand, so all of its
/// contributions come from nodes `i + 1..`.
proof fn lemma_incoming_after<S>(nodes: Seq<Node<S>>, root: int, i: int, lo: int)
    requires
        acyclic(nodes),
        0 <= lo <= i + 1,
        i < nodes.len(),
    ensures
        incoming_from(nodes, root, i, lo) == incoming_from(nodes, root, i, i + 1),
    decreases i + 1 - lo,
{
    if lo <= i {
        lemma_incoming_after(nodes, root, i, lo + 1);
        let op = nodes[lo].op;
        assert forall|k: int| 0 <= k < operands(op).len() implies #[trigger] operands(op)[k] != i by {
            assert(operands(nodes[lo].op)[k] < lo);
        }
        match op {
            Op::Add(a, b) => {
                assert(operands(op)[0] == a && operands(op)[1] == b);
            },
            Op::Mul(a, b) => {
                assert(operands(op)[0] == a && operands(op)[1] == b);
            },
            Op::Pow(a, _) => {
                assert(operands(op)[0] == a);
            },
            Op::Tanh(a) => {
                assert(operands(op)[0] == a);
            },
            Op::Leaf => {},
        }
        assert(uses(op, i) == 0);
    }
}

/// Extending a path from `root` to `j` by one operand of `j` gives a path to that operand.
proof fn lemma_reaches_operand<S>(nodes: Seq<Node<S>>, root: int, j: int, i: int)
    requires
        acyclic(nodes),
        reaches(nodes, root, j),
        feeds(nodes, j, i),
    ensures
        reaches(nodes, root, i),
{
    let p = choose|p: Seq<int>| #[trigger] is_path(nodes, p) && p[0] == root && p[p.len() - 1] == j;
    let q = p.push(i);
    let k = choose|k: int| 0 <= k < operands(nodes[j].op).len() && operands(nodes[j].op)[k] == i;
    assert(0 <= operands(nodes[j].op)[k] < j);
    assert forall|m: int| 0 <= m < q.len() - 1 implies #[trigger] feeds(nodes, q[m], q[m + 1]) by {
        if m < p.len() - 1 {
            assert(feeds(nodes, p[m], p[m + 1]));
        }
    }
    assert forall|m: int| 0 <= m < q.len() implies 0 <= #[trigger] q[m] < nodes.len() by {
        if m < p.len() {
            assert(0 <= p[m] < nodes.len());
        }
    }
    assert(is_path(nodes, q));
}

/// A set of nodes that holds the start of a path and is closed under operands
/// holds the whole path, its end in particular.
proof fn lemma_closed_holds_path<S>(nodes: Seq<Node<S>>, marks: Seq<bool>, p: Seq<int>)
    requires
        acyclic(nodes),
        is_path(nodes, p),
        marks.len() == nodes.len(),
        marks[p[0]],
        forall|a: int, b: int|
            0 <= a < nodes.len() && marks[a] && #[trigger] feeds(nodes, a, b) ==> marks[b],
    ensures
        marks[p[p.len() - 1]],
    decreases p.len(),
{
    if p.len() > 1 {
        let q = p.drop_last();
        assert forall|m: int| 0 <= m < q.len() - 1 implies #[trigger] feeds(nodes, q[m], q[m + 1]) by {
            assert(feeds(nodes, p[m], p[m + 1]));
        }
        assert forall|m: int| 0 <= m < q.len() implies 0 <= #[trigger] q[m] < nodes.len() by {
            assert(0 <= p[m] < nodes.len());
        }
        lemma_closed_holds_path(nodes, marks, q);
        let m = p.len() - 2;
        assert(feeds(nodes, p[m], p[m + 1]));
    }
}

/// An append-only arena of nodes: the computation graph.
pub struct Graph<S> {
    nodes: Vec<Node<S>>,
    received: Ghost<Seq<nat>>,
}

impl<S> View for Graph<S> {
    type V = Seq<Node<S>>;

    closed spec fn view(&self) -> Seq<Node<S>> {
        self.nodes@
    }
}

impl<S: Scalar> Graph<S> {
    /// For each node, how many gradient contributions it has received since it
    /// was created or since the last `zero_grad`.
    pub closed spec fn received(&self) -> Seq<nat> {
        self.received@
    }

    pub open spec fn wf(&self) -> bool {
        &&& acyclic(self@)
        &&& consistent(self@)
        &&& self.received().len() == self@.len()
    }

    /// The bookkeeping of one backward pass from `root`, giving `next`: values
    /// and operations stay; gradients outside the part reachable from `root`
    /// stay; each node receives one contribution per operand slot that holds
    /// it in a reachable node. (What the gradients become is
    /// `backward_result`.)
    pub open spec fn backward_counts(&self, root: Value, next: Self) -> bool {
        &&& next@.len() == self@.len()
        &&& forall|i: int| 0 <= i < self@.len() ==> #[trigger] next@[i].value == self@[i].value
        &&& forall|i: int| 0 <= i < self@.len() ==> #[trigger] next@[i].op == self@[i].op
        &&& forall|i: int|
            0 <= i < self@.len() && !reaches(self@, root.index as int, i) ==> #[trigger] next@[i].grad
                == self@[i].grad
        &&& forall|i: int|
            0 <= i < self@.len() ==> #[trigger] next.received()[i] == self.received()[i] + incoming(
                self@,
                root.index as int,
                i,
            )
    }

    pub open spec fn valid(&self, v: Value) -> bool {
        v.index < self@.len()
    }

    pub fn new() -> (g: Self)
        ensures
            g.wf(),
            g@.len() == 0,
    {
        Graph { nodes: Vec::new(), received: Ghost(Seq::empty()) }
    }

    pub fn len(&self) -> (n: usize)
        ensures
            n == self@.len(),
    {
        self.nodes.len()
    }

    /// The forward value of a node.
    pub fn value(&self, v: Value) -> (r: S)
        requires
            self.valid(v),
        ensures
            r == self@[v.index as int].value,
    {
        self.nodes[v.index].value
    }

    /// The gradient accumulated so far in a node.
    pub fn grad(&self, v: Value) -> (r: S)
        requires
            self.valid(v),
        ensures
            r == self@[v.index as int].grad,
    {
        self.nodes[v.index].grad
    }

    /// How a node was produced.
    pub fn op(&self, v: Value) -> (r: Op<S>)
        requires
            self.valid(v),
        ensures
            r == self@[v.index as int].op,
    {
        self.nodes[v.index].op
    }

    /// Appends a node with gradient zero; the graph grows by exactly that node.
    fn push_node(&mut self, value: S, op: Op<S>) -> (r: Value)
        requires
            old(self).wf(),
            forall|k: int| 0 <= k < operands(op).len() ==> 0 <= #[trigger] operands(op)[k] < old(
                self,
            )@.len(),
            old(self)@.len() < usize::MAX,
            value == eval_op(old(self)@, op, value),
        ensures
            final(self).wf(),
            r.index == old(self)@.len(),
            final(self)@ == old(self)@.push(Node { value, grad: S::spec_zero(), op }),
            final(self)@.len() == old(self)@.len() + 1,
            extends(final(self)@, old(self)@),
            final(self).received() == old(self).received().push(0),
    {
        let index = self.nodes.len();
        let grad = S::zero();
        self.nodes.push(Node { value, grad, op });
        self.received = Ghost(self.received@.push(0));
        proof {
            lemma_push_consistent(old(self)@, Node { value, grad, op });
        }
        Value { index }
    }

    /// A new node that holds `x` and has no operands.
    pub fn leaf(&mut self, x: S) -> (r: Value)
        requires
            old(self).wf(),
            old(self)@.len() < usize::MAX,
        ensures
            final(self).wf(),
            r.index == old(self)@.len(),
            final(self)@.len() == old(self)@.len() + 1,
            extends(final(self)@, old(self)@),
            final(self)@ == old(self)@.push(Node { value: x, grad: S::spec_zero(), op: Op::<S>::Leaf }),
            final(self).received() == old(self).received().push(0),
    {
        self.push_node(x, Op::Leaf)
    }

    /// A new node whose value is the sum of the values of `a` and `b`.
    pub fn add(&mut self, a: Value, b: Value) -> (r: Value)
        requires
            old(self).wf(),
            old(self).valid(a),
            old(self).valid(b),
            old(self)@.len() < usize::MAX,
        ensures
            final(self).wf(),
            r.index == old(self)@.len(),
            final(self)@.len() == old(self)@.len() + 1,
            extends(final(self)@, old(self)@),
            final(self)@ == old(self)@.push(
                Node {
                    value: S::spec_plus(old(self)@[a.index as int].value, old(self)@[b.index as int].value),
                    grad: S::spec_zero(),
                    op: Op::<S>::Add(a.index, b.index),
                },
            ),
            final(self).received() == old(self).received().push(0),
    {
        let x = self.nodes[a.index].value.plus(&self.nodes[b.index].value);
        self.push_node(x, Op::Add(a.index, b.index))
    }

    /// A new node whose value is the product of the values of `a` and `b`.
    pub fn mul(&mut self, a: Value, b: Value) -> (r: Value)
        requires
            old(self).wf(),
            old(self).valid(a),
            old(self).valid(b),
            old(self)@.len() < usize::MAX,
        ensures
            final(self).wf(),
            r.index == old(self)@.len(),
            final(self)@.len() == old(self)@.len() + 1,
            extends(final(self)@, old(self)@),
            final(self)@ == old(self)@.push(
                Node {
                    value: S::spec_times(old(self)@[a.index as int].value, old(self)@[b.index as int].value),
                    grad: S::spec_zero(),
                    op: Op::<S>::Mul(a.index, b.index),
                },
            ),
            final(self).received() == old(self).received().push(0),
    {
        let x = self.nodes[a.index].value.times(&self.nodes[b.index].value);
        self.push_node(x, Op::Mul(a.index, b.index))
    }

    /// A new node whose value is the value of `a` raised to the fixed exponent `n`.
    pub fn powf(&mut self, a: Value, n: S) -> (r: Value)
        requires
            old(self).wf(),
            old(self).valid(a),
            old(self)@.len() < usize::MAX,
        ensures
            final(self).wf(),
            r.index == old(self)@.len(),
            final(self)@.len() == old(self)@.len() + 1,
            extends(final(self)@, old(self)@),
            final(self)@ == old(self)@.push(
                Node {
                    value: S::spec_powf(old(self)@[a.index as int].value, n),
                    grad: S::spec_zero(),
                    op: Op::<S>::Pow(a.index, n),
                },
            ),
            final(self).received() == old(self).received().push(0),
    {
        let x = self.nodes[a.index].value.powf(&n);
        self.push_node(x, Op::Pow(a.index, n))
    }

    /// A new node whose value is the hyperbolic tangent of the value of `a`.
    pub fn tanh(&mut self, a: Value) -> (r: Value)
        requires
            old(self).wf(),
            old(self).valid(a),
            old(self)@.len() < usize::MAX,
        ensures
            final(self).wf(),
            r.index == old(self)@.len(),
            final(self)@.len() == old(self)@.len() + 1,
            extends(final(self)@, old(self)@),
            final(self)@ == old(self)@.push(
                Node {
                    value: S::spec_tanh(old(self)@[a.index as int].value),
                    grad: S::spec_zero(),
                    op: Op::<S>::Tanh(a.index),
                },
            ),
            final(self).received() == old(self).received().push(0),
    {
        let x = self.nodes[a.index].value.tanh();
        self.push_node(x, Op::Tanh(a.index))
    }

    /// For each node, whether it can be reached from `root` by following operands.
    ///
    /// Operands always precede their consumers in the arena, so one sweep from
    /// `root` down to the first node, passing the mark of each marked node on to
    /// its operands, visits every node once and marks exactly the reachable ones.
    pub fn reachable(&self, root: Value) -> (marks: Vec<bool>)
        requires
            self.wf(),
            self.valid(root),
        ensures
            marks@.len() == self@.len(),
            forall|i: int| 0 <= i < self@.len() ==> (marks@[i] <==> reaches(self@, root.index as int, i)),
    {
        let n = self.nodes.len();
        let ghost nodes = self@;
        let ghost r = root.index as int;
        let mut marks: Vec<bool> = Vec::new();
        let mut i: usize = 0;
        while i < n
            invariant
                n == nodes.len(),
                nodes == self@,
                r == root.index,
                i <= n,
                marks@.len() == i,
                forall|k: int| 0 <= k < i ==> marks@[k] == (k == r),
            decreases n - i,
        {
            marks.push(i == root.index);
            i += 1;
        }
        proof {
            let p = seq![r];
            assert(is_path(nodes, p));
        }
        let mut j: usize = root.index + 1;
        while j > 0
            invariant
                self.wf(),
                n == nodes.len(),
                nodes == self@,
                r == root.index,
                r < n,
                j <= r + 1,
                marks@.len() == n,
                marks@[r],
                forall|k: int| r < k < n ==> !marks@[k],
                forall|k: int| 0 <= k < n && marks@[k] ==> reaches(nodes, r, k),
                forall|a: int, b: int|
                    j <= a < n && marks@[a] && #[trigger] feeds(nodes, a, b) ==> marks@[b],
            decreases j,
        {
            j -= 1;
            if marks[j] {
                proof {
                    assert forall|k: int| 0 <= k < operands(nodes[j as int].op).len() implies
                        reaches(nodes, r, #[trigger] operands(nodes[j as int].op)[k]) by {
                        let t = operands(nodes[j as int].op)[k];
                        assert(operands(nodes[j as int].op).contains(t));
                        lemma_reaches_operand(nodes, r, j as int, t);
                    }
                    assert forall|k: int| 0 <= k < operands(nodes[j as int].op).len() implies
                        #[trigger] operands(nodes[j as int].op)[k] < j by {}
                }
                match self.nodes[j].op {
                    Op::Leaf => {},
                    Op::Add(a, b) => {
                        marks.set(a, true);
                        marks.set(b, true);
                    },
                    Op::Mul(a, b) => {
                        marks.set(a, true);
                        marks.set(b, true);
                    },
                    Op::Pow(a, _) => {
                        assert(operands(nodes[j as int].op)[0] == a);
                        marks.set(a, true);
                    },
                    Op::Tanh(a) => {
                        assert(operands(nodes[j as int].op)[0] == a);
                        marks.set(a, true);
                    },
                }
            }
        }
        proof {
            assert forall|t: int| 0 <= t < n && reaches(nodes, r, t) implies marks@[t] by {
                let p = choose|p: Seq<int>| #[trigger] is_path(nodes, p) && p[0] == r && p[p.len() - 1] == t;
                lemma_closed_holds_path(nodes, marks@, p);
            }
        }
        marks
    }

    /// Adds `d` to the gradient of node `i`, and counts the contribution.
    fn accumulate(&mut self, i: usize, d: S)
        requires
            old(self).wf(),
            i < old(self)@.len(),
        ensures
            final(self).wf(),
            final(self)@ == add_to_grad(old(self)@, i as int, d),
            final(self).received() == old(self).received().update(i as int, old(self).received()[i as int] + 1),
    {
        let mut node = self.nodes[i];
        node.grad = node.grad.plus(&d);
        self.nodes.set(i, node);
        self.received = Ghost(self.received@.update(i as int, self.received@[i as int] + 1));
        proof {
            assert(self@ =~= add_to_grad(old(self)@, i as int, d));
            lemma_same_shape(self@, old(self)@);
        }
    }

    /// Applies the local gradient rule of node `j` (see `apply_rule`): adds,
    /// never overwrites, a contribution to the gradient of each of its
    /// operands, from the gradient of `j` and the values of the nodes involved.
    fn propagate(&mut self, j: usize)
        requires
            old(self).wf(),
            j < old(self)@.len(),
        ensures
            final(self).wf(),
            final(self)@ == apply_rule(old(self)@, j as int),
            forall|k: int|
                0 <= k < old(self)@.len() ==> #[trigger] final(self).received()[k] == old(self).received()[k]
                    + uses(old(self)@[j as int].op, k),
    {
        let node = self.nodes[j];
        let g = node.grad;
        proof {
            assert forall|k: int| 0 <= k < operands(node.op).len() implies #[trigger] operands(node.op)[k] < j by {}
        }
        match node.op {
            Op::Leaf => {
                assert(self.received() =~= old(self).received());
            },
            Op::Add(a, b) => {
                assert(operands(node.op)[0] == a && operands(node.op)[1] == b);
                self.accumulate(a, g);
                self.accumulate(b, g);
            },
            Op::Mul(a, b) => {
                assert(operands(node.op)[0] == a && operands(node.op)[1] == b);
                let va = self.nodes[a].value;
                let vb = self.nodes[b].value;
                self.accumulate(a, vb.times(&g));
                self.accumulate(b, va.times(&g));
            },
            Op::Pow(a, n) => {
                assert(operands(node.op)[0] == a);
                let va = self.nodes[a].value;
                let slope = n.times(&va.powf(&n.minus(&S::one())));
                self.accumulate(a, slope.times(&g));
            },
            Op::Tanh(a) => {
                assert(operands(node.op)[0] == a);
                let t = node.value;
                let slope = S::one().minus(&t.times(&t));
                self.accumulate(a, slope.times(&g));
            },
        }
    }

    /// Reverse-mode differentiation from `root`.
    ///
    /// Seeds the gradient of `root` with one, then applies the local rule of
    /// every node reachable from `root` exactly once, consumers before their
    /// operands (descending index is a reverse topological order, since each
    /// node's operands were created before it): the result is
    /// `backward_result`. Contributions are added to the gradients already
    /// present: a second call without `zero_grad` adds every contribution again.
    pub fn backward(&mut self, root: Value)
        requires
            old(self).wf(),
            old(self).valid(root),
        ensures
            final(self).wf(),
            final(self)@ == backward_result(old(self)@, root.index as int),
            final(self)@[root.index as int].grad == S::spec_one(),
            old(self).backward_counts(root, *final(self)),
    {
        let ghost nodes = self@;
        let ghost r = root.index as int;
        let marks = self.reachable(root);
        let one = S::one();
        let mut seeded = self.nodes[root.index];
        seeded.grad = one;
        self.nodes.set(root.index, seeded);
        proof {
            assert(self@ =~= with_grad(nodes, r, S::spec_one()));
            lemma_same_shape(self@, nodes);
            let p = seq![r];
            assert(is_path(nodes, p));
        }
        let n = self.nodes.len();
        let mut j: usize = n;
        while j > 0
            invariant
                self.wf(),
                acyclic(nodes),
                n == nodes.len(),
                self@.len() == n,
                old(self).received().len() == n,
                r == root.index,
                r < n,
                j <= n,
                marks@.len() == n,
                self@ == backward_from(nodes, r, j as int),
                forall|i: int| 0 <= i < n ==> (marks@[i] <==> reaches(nodes, r, i)),
                forall|i: int| 0 <= i < n ==> #[trigger] self@[i].value == nodes[i].value,
                forall|i: int| 0 <= i < n ==> #[trigger] self@[i].op == nodes[i].op,
                forall|i: int| 0 <= i < n && !reaches(nodes, r, i) && i != r ==> #[trigger] self@[i].grad == nodes[i].grad,
                self@[r].grad == S::spec_one(),
                forall|i: int|
                    0 <= i < n ==> #[trigger] self.received()[i] == old(self).received()[i] + incoming_from(
                        nodes,
                        r,
                        i,
                        j as int,
                    ),
            decreases j,
        {
            j -= 1;
            let ghost before = self@;
            if marks[j] {
                proof {
                    // every node that lists `j` as an operand comes after it and has
                    // been processed already: the gradient of `j` is complete
                    lemma_incoming_after(nodes, r, j as int, 0);
                    assert(self.received()[j as int] == old(self).received()[j as int] + incoming(nodes, r, j as int));
                    assert forall|k: int| 0 <= k < n && operands(self@[j as int].op).contains(k) implies reaches(
                        nodes,
                        r,
                        k,
                    ) by {
                        lemma_reaches_operand(nodes, r, j as int, k);
                    }
                }
                self.propagate(j);
                proof {
                    assert forall|k: int| 0 <= k < n && k != j implies self@[k].grad == before[k].grad || operands(
                        before[j as int].op,
                    ).contains(k) by {
                        lemma_rule_frame(before, j as int, k);
                    }
                    assert forall|k: int| 0 <= k < n implies (#[trigger] self@[k]).value == nodes[k].value && self@[k].op == nodes[k].op by {
                        lemma_rule_frame(before, j as int, k);
                    }
                    assert forall|k: int| 0 <= k < n && !reaches(nodes, r, k) && k != r implies #[trigger] self@[k].grad == nodes[k].grad by {
                        lemma_rule_frame(before, j as int, k);
                        if operands(before[j as int].op).contains(k) {
                            lemma_reaches_operand(nodes, r, j as int, k);
                        }
                    }
                    lemma_rule_frame(before, j as int, r);
                    lemma_reaches_below(nodes, r, j as int);
                    if operands(before[j as int].op).contains(r) {
                        let t = choose|t: int| 0 <= t < operands(before[j as int].op).len() && operands(before[j as int].op)[t] == r;
                        assert(operands(nodes[j as int].op)[t] < j);
                    }
                }
            }
            assert forall|i: int| 0 <= i < n implies #[trigger] self.received()[i] == old(self).received()[i]
                + incoming_from(nodes, r, i, j as int) by {
                assert(incoming_from(nodes, r, i, j as int) == (if reaches(nodes, r, j as int) {
                    uses(nodes[j as int].op, i)
                } else {
                    0
                }) + incoming_from(nodes, r, i, j + 1));
            }
        }
    }

    /// Sets every gradient back to zero, ready for a fresh backward pass.
    pub fn zero_grad(&mut self)
        requires
            old(self).wf(),
        ensures
            final(self).wf(),
            final(self)@.len() == old(self)@.len(),
            forall|i: int| 0 <= i < old(self)@.len() ==> #[trigger] final(self)@[i].value == old(self)@[i].value,
            forall|i: int| 0 <= i < old(self)@.len() ==> #[trigger] final(self)@[i].op == old(self)@[i].op,
            forall|i: int| 0 <= i < old(self)@.len() ==> #[trigger] final(self)@[i].grad == S::spec_zero(),
            forall|i: int| 0 <= i < old(self)@.len() ==> #[trigger] final(self).received()[i] == 0,
    {
        let n = self.nodes.len();
        let ghost nodes = self@;
        let mut i: usize = 0;
        while i < n
            invariant
                n == nodes.len(),
                self@.len() == n,
                acyclic(nodes),
                consistent(nodes),
                i <= n,
                forall|k: int| 0 <= k < n ==> (#[trigger] self@[k]).value == nodes[k].value && self@[k].op == nodes[k].op,
                forall|k: int| 0 <= k < i ==> #[trigger] self@[k].grad == S::spec_zero(),
            decreases n - i,
        {
            let mut node = self.nodes[i];
            node.grad = S::zero();
            self.nodes.set(i, node);
            i += 1;
        }
        proof {
            lemma_same_shape(self@, nodes);
        }
        self.received = Ghost(Seq::new(n as nat, |k: int| 0nat));
    }

    /// The negation of `a`, recorded as `a` times a new leaf holding minus one.
    pub fn neg(&mut self, a: Value) -> (r: Value)
        requires
            old(self).wf(),
            old(self).valid(a),
            old(self)@.len() + 2 <= usize::MAX,
        ensures
            final(self).wf(),
            r.index == old(self)@.len() + 1,
            final(self)@.len() == old(self)@.len() + 2,
            extends(final(self)@, old(self)@),
            final(self)@[old(self)@.len() as int].op == Op::<S>::Leaf,
            final(self)@[r.index as int].op == Op::<S>::Mul(a.index, old(self)@.len() as usize),
            final(self)@[old(self)@.len() as int].value == minus_one::<S>(),
            final(self)@[r.index as int].value == S::spec_times(old(self)@[a.index as int].value, minus_one::<S>()),
            final(self)@[old(self)@.len() as int].grad == S::spec_zero(),
            final(self)@[r.index as int].grad == S::spec_zero(),
            final(self).received() == old(self).received().push(0).push(0),
    {
        let minus_one = S::zero().minus(&S::one());
        let c = self.leaf(minus_one);
        let r = self.mul(a, c);
        r
    }

    /// The difference `a - b`, recorded as `a` plus the negation of `b`.
    pub fn sub(&mut self, a: Value, b: Value) -> (r: Value)
        requires
            old(self).wf(),
            old(self).valid(a),
            old(self).valid(b),
            old(self)@.len() + 3 <= usize::MAX,
        ensures
            final(self).wf(),
            r.index == old(self)@.len() + 2,
            final(self)@.len() == old(self)@.len() + 3,
            extends(final(self)@, old(self)@),
            final(self)@[old(self)@.len() as int].op == Op::<S>::Leaf,
            final(self)@[old(self)@.len() + 1int].op == Op::<S>::Mul(b.index, old(self)@.len() as usize),
            final(self)@[r.index as int].op == Op::<S>::Add(a.index, (old(self)@.len() + 1) as usize),
            final(self)@[old(self)@.len() as int].value == minus_one::<S>(),
            final(self)@[old(self)@.len() + 1int].value == S::spec_times(old(self)@[b.index as int].value, minus_one::<S>()),
            final(self)@[r.index as int].value == S::spec_plus(
                old(self)@[a.index as int].value,
                S::spec_times(old(self)@[b.index as int].value, minus_one::<S>()),
            ),
            forall|k: int| old(self)@.len() <= k < final(self)@.len() ==> #[trigger] final(self)@[k].grad == S::spec_zero(),
            final(self).received() == old(self).received().push(0).push(0).push(0),
    {
        let nb = self.neg(b);
        let r = self.add(a, nb);
        r
    }
}


/// Reachability depends on the operations alone.
proof fn lemma_same_ops_reaches<S>(a: Seq<Node<S>>, b: Seq<Node<S>>, root: int, t: int)
    requires
        a.len() == b.len(),
        forall|i: int| 0 <= i < a.len() ==> #[trigger] a[i].op == b[i].op,
        reaches(a, root, t),
    ensures
        reaches(b, root, t),
{
    let p = choose|p: Seq<int>| #[trigger] is_path(a, p) && p[0] == root && p[p.len() - 1] == t;
    assert forall|m: int| 0 <= m < p.len() - 1 implies #[trigger] feeds(b, p[m], p[m + 1]) by {
        assert(feeds(a, p[m], p[m + 1]));
        assert(a[p[m]].op == b[p[m]].op);
    }
    assert(is_path(b, p));
}

/// The contribution counts depend on the operations alone.
proof fn lemma_same_ops_incoming<S>(a: Seq<Node<S>>, b: Seq<Node<S>>, root: int, i: int, lo: int)
    requires
        a.len() == b.len(),
        forall|k: int| 0 <= k < a.len() ==> #[trigger] a[k].op == b[k].op,
    ensures
        incoming_from(a, root, i, lo) == incoming_from(b, root, i, lo),
    decreases a.len() - lo,
{
    if 0 <= lo < a.len() {
        if reaches(a, root, lo) {
            lemma_same_ops_reaches(a, b, root, lo);
        }
        if reaches(b, root, lo) {
            lemma_same_ops_reaches(b, a, root, lo);
        }
        lemma_same_ops_incoming(a, b, root, i, lo + 1);
    }
}

/// Two backward passes from the same root, with no `zero_grad` between them,
/// deliver every gradient contribution twice: each node receives twice as many
/// contributions as one pass from zeroed gradients gives it. The gradients are
/// then wrong: those of the root's operands are doubled, and the inflated
/// gradients are passed on further down.
pub proof fn lemma_backward_twice_doubles<S: Scalar>(
    g0: Graph<S>,
    g1: Graph<S>,
    g2: Graph<S>,
    root: Value,
)
    requires
        g0.wf(),
        g0.valid(root),
        forall|i: int| 0 <= i < g0@.len() ==> #[trigger] g0.received()[i] == 0,
        g0.backward_counts(root, g1),
        g1.backward_counts(root, g2),
    ensures
        forall|i: int|
            0 <= i < g0@.len() ==> #[trigger] g1.received()[i] == incoming(g0@, root.index as int, i),
        forall|i: int|
            0 <= i < g0@.len() ==> #[trigger] g2.received()[i] == 2 * incoming(
                g0@,
                root.index as int,
                i,
            ),
{
    assert forall|i: int| 0 <= i < g0@.len() implies #[trigger] g2.received()[i] == 2 * incoming(
        g0@,
        root.index as int,
        i,
    ) by {
        assert(g1.received()[i] == g0.received()[i] + incoming(g0@, root.index as int, i));
        assert(g2.received()[i] == g1.received()[i] + incoming(g1@, root.index as int, i));
        lemma_same_ops_incoming(g1@, g0@, root.index as int, i, 0);
    }
    assert forall|i: int| 0 <= i < g0@.len() implies #[trigger] g1.received()[i] == incoming(
        g0@,
        root.index as int,
        i,
    ) by {
        assert(g1.received()[i] == g0.received()[i] + incoming(g0@, root.index as int, i));
    }
}


/// A backward pass changes gradients only.
proof fn lemma_backward_frame<S: Scalar>(nodes: Seq<Node<S>>, root: int, j: int)
    requires
        0 <= root < nodes.len(),
        0 <= j,
        acyclic(nodes),
    ensures
        backward_from(nodes, root, j).len() == nodes.len(),
        forall|k: int|
            0 <= k < nodes.len() ==> (#[trigger] backward_from(nodes, root, j)[k]).value == nodes[k].value
                && backward_from(nodes, root, j)[k].op == nodes[k].op,
    decreases nodes.len() - j,
{
    if j < nodes.len() {
        lemma_backward_frame(nodes, root, j + 1);
        let after = backward_from(nodes, root, j + 1);
        if reaches(nodes, root, j) {
            assert forall|t: int| 0 <= t < operands(after[j].op).len() implies 0 <= #[trigger] operands(
                after[j].op,
            )[t] < after.len() by {
                assert(after[j].op == nodes[j].op);
            }
            lemma_rule_frame(after, j, root);
            assert forall|k: int| 0 <= k < nodes.len() implies (#[trigger] backward_from(nodes, root, j)[k]).value
                == nodes[k].value && backward_from(nodes, root, j)[k].op == nodes[k].op by {
                lemma_rule_frame(after, j, k);
            }
        }
    }
}

/// Where no reachable node but `root` lists `n` as an operand, a backward
/// pass leaves in `n` what the rule of `root` puts there, and nothing else.
proof fn lemma_only_consumer<S: Scalar>(nodes: Seq<Node<S>>, root: int, n: int, j: int)
    requires
        acyclic(nodes),
        0 <= root < nodes.len(),
        0 <= n < nodes.len(),
        n != root,
        0 <= j,
        forall|k: int|
            0 <= k < nodes.len() && k != root && reaches(nodes, root, k) ==> !operands(
                nodes[k].op,
            ).contains(n),
    ensures
        j > root ==> backward_from(nodes, root, j) == with_grad(nodes, root, S::spec_one()),
        j <= root ==> backward_from(nodes, root, j)[n].grad == apply_rule(
            with_grad(nodes, root, S::spec_one()),
            root,
        )[n].grad,
    decreases nodes.len() - j,
{
    if j < nodes.len() {
        lemma_only_consumer(nodes, root, n, j + 1);
        lemma_backward_frame(nodes, root, j + 1);
        let after = backward_from(nodes, root, j + 1);
        if j > root {
            if reaches(nodes, root, j) {
                lemma_reaches_below(nodes, root, j);
            }
        } else if j == root {
            assert(is_path(nodes, seq![root]));
        } else if reaches(nodes, root, j) {
            assert forall|t: int| 0 <= t < operands(after[j].op).len() implies 0 <= #[trigger] operands(
                after[j].op,
            )[t] < after.len() by {
                assert(after[j].op == nodes[j].op);
            }
            lemma_rule_frame(after, j, n);
        }
    }
}

/// The rule of `root` reads only the root's gradient, the values and the
/// gradient of the node it writes: what it leaves in `n` is the same for any
/// two graphs that agree on those.
proof fn lemma_rule_local<S: Scalar>(a: Seq<Node<S>>, b: Seq<Node<S>>, root: int, n: int)
    requires
        a.len() == b.len(),
        0 <= root < a.len(),
        0 <= n < a.len(),
        forall|k: int| 0 <= k < a.len() ==> (#[trigger] a[k]).value == b[k].value && a[k].op == b[k].op,
        a[root].grad == b[root].grad,
        a[n].grad == b[n].grad,
        forall|t: int| 0 <= t < operands(a[root].op).len() ==> 0 <= #[trigger] operands(a[root].op)[t] < a.len(),
    ensures
        apply_rule(a, root)[n].grad == apply_rule(b, root)[n].grad,
{
    let op = a[root].op;
    assert(b[root].op == op && a[root].value == b[root].value);
    match op {
        Op::Add(x, y) => {
            assert(operands(op)[0] == x && operands(op)[1] == y);
        },
        Op::Mul(x, y) => {
            assert(operands(op)[0] == x && operands(op)[1] == y);
            assert(a[x as int].value == b[x as int].value && a[y as int].value == b[y as int].value);
        },
        Op::Pow(x, _) => {
            assert(operands(op)[0] == x);
            assert(a[x as int].value == b[x as int].value);
        },
        Op::Tanh(x) => {
            assert(operands(op)[0] == x);
        },
        Op::Leaf => {},
    }
}

/// What the rule of `root`, with the root's gradient one, leaves in the
/// gradient of `n` when that gradient is `x` beforehand.
pub open spec fn root_rule_effect<S: Scalar>(nodes: Seq<Node<S>>, root: int, n: int, x: S) -> S {
    apply_rule(with_grad(with_grad(nodes, root, S::spec_one()), n, x), root)[n].grad
}

/// Backward is not idempotent. Take a node `n` that, among the nodes `root`
/// reaches, only `root` lists as an operand. One pass turns its gradient `x`
/// into `root_rule_effect(.., x)`: `x` plus the root's contribution. A second
/// pass without `zero_grad` does the same again, starting from what the first
/// pass left, so the contribution is added twice (from zero: `c`, then
/// `c + c`).
pub proof fn lemma_backward_twice_adds_again<S: Scalar>(g: Graph<S>, root: Value, n: int)
    requires
        g.wf(),
        g.valid(root),
        0 <= n < g@.len(),
        n != root.index,
        forall|k: int|
            0 <= k < g@.len() && k != root.index && reaches(g@, root.index as int, k) ==> !operands(
                g@[k].op,
            ).contains(n),
    ensures
        backward_result(g@, root.index as int)[n].grad == root_rule_effect(
            g@,
            root.index as int,
            n,
            g@[n].grad,
        ),
        backward_result(backward_result(g@, root.index as int), root.index as int)[n].grad
            == root_rule_effect(g@, root.index as int, n, backward_result(g@, root.index as int)[n].grad),
{
    let r = root.index as int;
    let g0 = g@;
    let g1 = backward_result(g0, r);
    let one = S::spec_one();
    lemma_only_consumer(g0, r, n, 0);
    lemma_backward_frame(g0, r, 0);
    assert forall|t: int| 0 <= t < operands(g0[r].op).len() implies 0 <= #[trigger] operands(g0[r].op)[t] < g0.len() by {}
    lemma_rule_local(with_grad(g0, r, one), with_grad(with_grad(g0, r, one), n, g0[n].grad), r, n);
    // the second pass
    assert forall|i: int| 0 <= i < g0.len() implies #[trigger] g0[i].op == g1[i].op by {
        assert(g1[i].op == g0[i].op);
    }
    assert forall|i: int| 0 <= i < g1.len() implies #[trigger] g1[i].op == g0[i].op by {}
    assert(acyclic(g1)) by {
        assert forall|i: int, k: int| 0 <= i < g1.len() && 0 <= k < operands(g1[i].op).len() implies 0
            <= #[trigger] operands(g1[i].op)[k] < i by {
            assert(g1[i].op == g0[i].op);
        }
    }
    assert forall|k: int| 0 <= k < g1.len() && k != r && reaches(g1, r, k) implies !operands(g1[k].op).contains(n) by {
        lemma_same_ops_reaches(g1, g0, r, k);
        assert(g1[k].op == g0[k].op);
    }
    lemma_only_consumer(g1, r, n, 0);
    assert forall|t: int| 0 <= t < operands(with_grad(g1, r, one)[r].op).len() implies 0 <= #[trigger] operands(
        with_grad(g1, r, one)[r].op,
    )[t] < g0.len() by {
        assert(with_grad(g1, r, one)[r].op == g0[r].op);
    }
    lemma_rule_local(with_grad(g1, r, one), with_grad(with_grad(g0, r, one), n, g1[n].grad), r, n);
}

/// Gradients accumulate over shared uses: where the root adds a node to
/// itself and nothing else the root reaches uses that node, a backward pass
/// adds the root's gradient (one) to it twice, once per use.
pub proof fn lemma_shared_operand_accumulates<S: Scalar>(g: Graph<S>, root: Value, n: usize)
    requires
        g.wf(),
        g.valid(root),
        g@[root.index as int].op == Op::<S>::Add(n, n),
        forall|k: int|
            0 <= k < g@.len() && k != root.index && reaches(g@, root.index as int, k) ==> !operands(
                g@[k].op,
            ).contains(n as int),
    ensures
        backward_result(g@, root.index as int)[n as int].grad == S::spec_plus(
            S::spec_plus(g@[n as int].grad, S::spec_one()),
            S::spec_one(),
        ),
{
    let r = root.index as int;
    assert(operands(g@[r].op)[0] == n);
    assert(0 <= operands(g@[r].op)[0] < r);
    lemma_only_consumer(g@, r, n as int, 0);
}

} // verus!

use vstd::prelude::*;
use crate::scalar::Scalar;

verus! {

/// A reference to a node: its slot in the graph's store.
pub type NodeRef = usize;

/// The operation of a node. Operands are references to earlier nodes.
pub enum NodeType<T> {
    Const(T),
    Var(String),
    Neg(NodeRef),
    Add(NodeRef, NodeRef),
    Sub(NodeRef, NodeRef),
    Mul(NodeRef, NodeRef),
    Div(NodeRef, NodeRef),
    Pow(NodeRef, T),
    Sin(NodeRef),
    Cos(NodeRef),
}

/// One slot of the store: the node's operation and its two mutable caches.
pub struct NodeData<T> {
    /// What the node computes; fixed once the node is made.
    pub type_: NodeType<T>,
    /// The value set by the caller, read by the differentiator.
    pub value: T,
    /// The gradients of the last pass that reached the node, by variable name;
    /// `None` when no pass has reached it since it was last cleared.
    pub grads: Option<Vec<(String, T)>>,
    /// How many times the current pass computed this node's gradients.
    pub evals: usize,
}

/// The store that owns every node of one expression graph.
pub struct Graph<T> {
    pub nodes: Vec<NodeData<T>>,
}

/// The first operand of a node, if it has one.
pub open spec fn first_operand<T>(k: NodeType<T>) -> Option<NodeRef> {
    match k {
        NodeType::Const(_) => None,
        NodeType::Var(_) => None,
        NodeType::Neg(a) => Some(a),
        NodeType::Add(a, _) => Some(a),
        NodeType::Sub(a, _) => Some(a),
        NodeType::Mul(a, _) => Some(a),
        NodeType::Div(a, _) => Some(a),
        NodeType::Pow(a, _) => Some(a),
        NodeType::Sin(a) => Some(a),
        NodeType::Cos(a) => Some(a),
    }
}

/// The second operand of a binary node.
pub open spec fn second_operand<T>(k: NodeType<T>) -> Option<NodeRef> {
    match k {
        NodeType::Add(_, b) => Some(b),
        NodeType::Sub(_, b) => Some(b),
        NodeType::Mul(_, b) => Some(b),
        NodeType::Div(_, b) => Some(b),
        _ => None,
    }
}

/// Whether `r` is an operand of node `i`.
pub open spec fn is_operand<T>(nodes: Seq<NodeData<T>>, i: int, r: int) -> bool {
    0 <= i < nodes.len() && ((first_operand(nodes[i].type_) is Some && first_operand(
        nodes[i].type_,
    )->0 == r) || (second_operand(nodes[i].type_) is Some && second_operand(nodes[i].type_)->0
        == r))
}

/// Every node refers only to nodes made strictly before it.
pub open spec fn well_formed<T>(nodes: Seq<NodeData<T>>) -> bool {
    forall|i: int, r: int| #[trigger] is_operand(nodes, i, r) ==> r < i
}

/// Whether node `j` is `i` or lies below it through operand links.
pub open spec fn reachable<T>(nodes: Seq<NodeData<T>>, i: int, j: int) -> bool
    decreases i,
{
    if i == j {
        true
    } else if 0 <= i < nodes.len() {
        (match first_operand(nodes[i].type_) {
            Some(a) => a < i && reachable(nodes, a as int, j),
            None => false,
        }) || (match second_operand(nodes[i].type_) {
            Some(b) => b < i && reachable(nodes, b as int, j),
            None => false,
        })
    } else {
        false
    }
}

/// The structure (operations) of two node sequences agree.
pub open spec fn same_structure<T>(a: Seq<NodeData<T>>, b: Seq<NodeData<T>>) -> bool {
    a.len() == b.len() && forall|i: int| 0 <= i < a.len() ==> #[trigger] a[i].type_ == b[i].type_
}

/// Everything reachable from a node was made no later than it.
pub proof fn lemma_reachable_earlier<T>(nodes: Seq<NodeData<T>>, i: int, j: int)
    requires
        reachable(nodes, i, j),
    ensures
        j <= i,
    decreases i,
{
    if i != j {
        match first_operand(nodes[i].type_) {
            Some(a) => {
                if a < i && reachable(nodes, a as int, j) {
                    lemma_reachable_earlier(nodes, a as int, j);
                }
            },
            None => {},
        }
        match second_operand(nodes[i].type_) {
            Some(b) => {
                if b < i && reachable(nodes, b as int, j) {
                    lemma_reachable_earlier(nodes, b as int, j);
                }
            },
            None => {},
        }
    }
}

/// No node of a well-formed graph lies below itself: following operand links
/// from a node never leads back to it, so no traversal can meet a cycle.
pub proof fn lemma_acyclic<T>(nodes: Seq<NodeData<T>>, i: int, r: int)
    requires
        well_formed(nodes),
        is_operand(nodes, i, r),
    ensures
        !reachable(nodes, r, i),
{
    if reachable(nodes, r, i) {
        lemma_reachable_earlier(nodes, r, i);
    }
}

/// Reachability depends on the operations alone.
pub proof fn lemma_reachable_structure<T>(a: Seq<NodeData<T>>, b: Seq<NodeData<T>>, i: int, j: int)
    requires
        same_structure(a, b),
    ensures
        reachable(a, i, j) == reachable(b, i, j),
    decreases i,
{
    if i != j && 0 <= i < a.len() {
        assert(a[i].type_ == b[i].type_);
        match first_operand(a[i].type_) {
            Some(x) => {
                if x < i {
                    lemma_reachable_structure(a, b, x as int, j);
                }
            },
            None => {},
        }
        match second_operand(a[i].type_) {
            Some(y) => {
                if y < i {
                    lemma_reachable_structure(a, b, y as int, j);
                }
            },
            None => {},
        }
    }
}

/// The first operand of an operation.
pub(crate) fn first_operand_of<T>(k: &NodeType<T>) -> (r: Option<NodeRef>)
    ensures
        r == first_operand(*k),
{
    match k {
        NodeType::Const(_) => None,
        NodeType::Var(_) => None,
        NodeType::Neg(a) => Some(*a),
        NodeType::Add(a, _) => Some(*a),
        NodeType::Sub(a, _) => Some(*a),
        NodeType::Mul(a, _) => Some(*a),
        NodeType::Div(a, _) => Some(*a),
        NodeType::Pow(a, _) => Some(*a),
        NodeType::Sin(a) => Some(*a),
        NodeType::Cos(a) => Some(*a),
    }
}

/// The second operand of a binary operation.
pub(crate) fn second_operand_of<T>(k: &NodeType<T>) -> (r: Option<NodeRef>)
    ensures
        r == second_operand(*k),
{
    match k {
        NodeType::Add(_, b) => Some(*b),
        NodeType::Sub(_, b) => Some(*b),
        NodeType::Mul(_, b) => Some(*b),
        NodeType::Div(_, b) => Some(*b),
        _ => None,
    }
}

/// Every operand of an operation refers to a slot below `n`.
pub open spec fn operands_before<T>(k: NodeType<T>, n: nat) -> bool {
    (first_operand(k) is Some ==> first_operand(k)->0 < n)
        && (second_operand(k) is Some ==> second_operand(k)->0 < n)
}

impl<T> Graph<T> {
    pub open spec fn view(&self) -> Seq<NodeData<T>> {
        self.nodes@
    }

    /// A graph is valid when its nodes refer only to earlier nodes.
    pub open spec fn wf(&self) -> bool {
        well_formed(self@)
    }

    /// An empty store.
    pub fn new() -> (r: Graph<T>)
        ensures
            r@.len() == 0,
            r.wf(),
    {
        Graph { nodes: Vec::new() }
    }

    /// Number of nodes made so far.
    pub fn len(&self) -> (r: usize)
        ensures
            r == self@.len(),
    {
        self.nodes.len()
    }

    /// Whether every node refers only to nodes made before it. Graphs built
    /// through this module's constructors always are.
    pub fn is_well_formed(&self) -> (r: bool)
        ensures
            r == self.wf(),
    {
        let mut i: usize = 0;
        while i < self.nodes.len()
            invariant
                i <= self@.len(),
                forall|j: int, o: int| #[trigger] is_operand(self@, j, o) && j < i ==> o < j,
            decreases self@.len() - i,
        {
            match first_operand_of(&self.nodes[i].type_) {
                Some(a) => {
                    if a >= i {
                        assert(is_operand(self@, i as int, a as int));
                        return false;
                    }
                },
                None => {},
            }
            match second_operand_of(&self.nodes[i].type_) {
                Some(b) => {
                    if b >= i {
                        assert(is_operand(self@, i as int, b as int));
                        return false;
                    }
                },
                None => {},
            }
            i = i + 1;
        }
        true
    }

    /// Sets the value that the differentiator reads for `node`.
    pub fn set_value(&mut self, node: NodeRef, value: T)
        requires
            node < old(self)@.len(),
        ensures
            final(self)@ == old(self)@.update(
                node as int,
                NodeData { value, ..old(self)@[node as int] },
            ),
            final(self).wf() == old(self).wf(),
    {
        self.nodes[node].value = value;
        assert(same_structure(old(self)@, self@));
        assert forall|i: int, o: int| is_operand(self@, i, o) == is_operand(old(self)@, i, o) by {
            if 0 <= i < self@.len() {
                assert(self@[i].type_ == old(self)@[i].type_);
            }
        }
    }

    /// Adds a node whose operands are already in the store, with `value` as
    /// its value and no gradients; it gets the next slot.
    pub fn push_node(&mut self, type_: NodeType<T>, value: T) -> (r: NodeRef)
        requires
            old(self).wf(),
            old(self)@.len() < usize::MAX,
            operands_before(type_, old(self)@.len()),
        ensures
            final(self).wf(),
            r == old(self)@.len(),
            final(self)@ == old(self)@.push(NodeData { type_, value, grads: None, evals: 0 }),
    {
        let ghost before = self@;
        let r = self.nodes.len();
        self.nodes.push(NodeData { type_, value, grads: None, evals: 0 });
        assert forall|i: int, o: int| #[trigger] is_operand(self@, i, o) implies o < i by {
            if i < before.len() {
                assert(is_operand(before, i, o));
            } else {
                assert(self@[i].type_ == type_);
            }
        }
        r
    }
}

/// `after` is `before` with one new node of operation `k` in slot `r`, whose
/// value is zero and which has no gradients yet.
pub open spec fn made<T: Scalar>(before: Graph<T>, after: Graph<T>, r: NodeRef, k: NodeType<T>) -> bool {
    &&& after.wf()
    &&& r == before@.len()
    &&& after@ == before@.push(NodeData { type_: k, value: T::spec_zero(), grads: None, evals: 0 })
}

/// A leaf holding a fixed value.
pub fn constant<T: Scalar>(arena: &mut Graph<T>, value: T) -> (r: NodeRef)
    requires
        old(arena).wf(),
        old(arena)@.len() < usize::MAX,
    ensures
        made(*old(arena), *final(arena), r, NodeType::Const(value)),
{
    let zero = T::zero();
    arena.push_node(NodeType::Const(value), zero)
}

/// A leaf naming an input variable.
pub fn var<T: Scalar>(arena: &mut Graph<T>, name: String) -> (r: NodeRef)
    requires
        old(arena).wf(),
        old(arena)@.len() < usize::MAX,
    ensures
        made(*old(arena), *final(arena), r, NodeType::Var(name)),
{
    let zero = T::zero();
    arena.push_node(NodeType::Var(name), zero)
}

/// The negation of a node.
pub fn neg<T: Scalar>(arena: &mut Graph<T>, value: NodeRef) -> (r: NodeRef)
    requires
        old(arena).wf(),
        old(arena)@.len() < usize::MAX,
        value < old(arena)@.len(),
    ensures
        made(*old(arena), *final(arena), r, NodeType::Neg(value)),
{
    let zero = T::zero();
    arena.push_node(NodeType::Neg(value), zero)
}

/// The sum of two nodes.
pub fn add<T: Scalar>(arena: &mut Graph<T>, lhs: NodeRef, rhs: NodeRef) -> (r: NodeRef)
    requires
        old(arena).wf(),
        old(arena)@.len() < usize::MAX,
        lhs < old(arena)@.len(),
        rhs < old(arena)@.len(),
    ensures
        made(*old(arena), *final(arena), r, NodeType::Add(lhs, rhs)),
{
    let zero = T::zero();
    arena.push_node(NodeType::Add(lhs, rhs), zero)
}

/// The difference of two nodes.
pub fn sub<T: Scalar>(arena: &mut Graph<T>, lhs: NodeRef, rhs: NodeRef) -> (r: NodeRef)
    requires
        old(arena).wf(),
        old(arena)@.len() < usize::MAX,
        lhs < old(arena)@.len(),
        rhs < old(arena)@.len(),
    ensures
        made(*old(arena), *final(arena), r, NodeType::Sub(lhs, rhs)),
{
    let zero = T::zero();
    arena.push_node(NodeType::Sub(lhs, rhs), zero)
}

/// The product of two nodes.
pub fn mul<T: Scalar>(arena: &mut Graph<T>, lhs: NodeRef, rhs: NodeRef) -> (r: NodeRef)
    requires
        old(arena).wf(),
        old(arena)@.len() < usize::MAX,
        lhs < old(arena)@.len(),
        rhs < old(arena)@.len(),
    ensures
        made(*old(arena), *final(arena), r, NodeType::Mul(lhs, rhs)),
{
    let zero = T::zero();
    arena.push_node(NodeType::Mul(lhs, rhs), zero)
}

/// The quotient of two nodes.
pub fn div<T: Scalar>(arena: &mut Graph<T>, lhs: NodeRef, rhs: NodeRef) -> (r: NodeRef)
    requires
        old(arena).wf(),
        old(arena)@.len() < usize::MAX,
        lhs < old(arena)@.len(),
        rhs < old(arena)@.len(),
    ensures
        made(*old(arena), *final(arena), r, NodeType::Div(lhs, rhs)),
{
    let zero = T::zero();
    arena.push_node(NodeType::Div(lhs, rhs), zero)
}

/// A node raised to a fixed exponent.
pub fn pow<T: Scalar>(arena: &mut Graph<T>, lhs: NodeRef, rhs: T) -> (r: NodeRef)
    requires
        old(arena).wf(),
        old(arena)@.len() < usize::MAX,
        lhs < old(arena)@.len(),
    ensures
        made(*old(arena), *final(arena), r, NodeType::Pow(lhs, rhs)),
{
    let zero = T::zero();
    arena.push_node(NodeType::Pow(lhs, rhs), zero)
}

/// The sine of a node.
pub fn sin<T: Scalar>(arena: &mut Graph<T>, value: NodeRef) -> (r: NodeRef)
    requires
        old(arena).wf(),
        old(arena)@.len() < usize::MAX,
        value < old(arena)@.len(),
    ensures
        made(*old(arena), *final(arena), r, NodeType::Sin(value)),
{
    let zero = T::zero();
    arena.push_node(NodeType::Sin(value), zero)
}

/// The cosine of a node.
pub fn cos<T: Scalar>(arena: &mut Graph<T>, value: NodeRef) -> (r: NodeRef)
    requires
        old(arena).wf(),
        old(arena)@.len() < usize::MAX,
        value < old(arena)@.len(),
    ensures
        made(*old(arena), *final(arena), r, NodeType::Cos(value)),
{
    let zero = T::zero();
    arena.push_node(NodeType::Cos(value), zero)
}

} // verus!

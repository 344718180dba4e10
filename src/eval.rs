use vstd::prelude::*;
use crate::graph::{Graph, NodeData, NodeRef, NodeType, is_operand, reachable, well_formed};
use crate::scalar::Scalar;

verus! {

/// The value bound to `name` in `a`, searching from position `i`: the first
/// binding wins.
pub open spec fn lookup_from<T>(a: Seq<(String, T)>, name: Seq<char>, i: int) -> Option<T>
    decreases a.len() - i,
{
    if i < 0 || i >= a.len() {
        None
    } else if a[i].0@ == name {
        Some(a[i].1)
    } else {
        lookup_from(a, name, i + 1)
    }
}

/// The value bound to `name` in the assignment `a`.
pub open spec fn lookup<T>(a: Seq<(String, T)>, name: Seq<char>) -> Option<T> {
    lookup_from(a, name, 0)
}

/// The value of node `i` under assignment `a`: `None` when a variable it
/// depends on is unbound.
pub open spec fn evaluate<T: Scalar>(nodes: Seq<NodeData<T>>, i: int, a: Seq<(String, T)>) -> Option<T>
    decreases i,
{
    if 0 <= i < nodes.len() {
        match nodes[i].type_ {
            NodeType::Const(c) => Some(c),
            NodeType::Var(n) => lookup(a, n@),
            NodeType::Neg(x) => if x < i {
                match evaluate(nodes, x as int, a) {
                    Some(p) => Some(T::spec_neg(p)),
                    None => None,
                }
            } else {
                None
            },
            NodeType::Add(x, y) => if x < i && y < i {
                match (evaluate(nodes, x as int, a), evaluate(nodes, y as int, a)) {
                    (Some(p), Some(q)) => Some(T::spec_plus(p, q)),
                    _ => None,
                }
            } else {
                None
            },
            NodeType::Sub(x, y) => if x < i && y < i {
                match (evaluate(nodes, x as int, a), evaluate(nodes, y as int, a)) {
                    (Some(p), Some(q)) => Some(T::spec_minus(p, q)),
                    _ => None,
                }
            } else {
                None
            },
            NodeType::Mul(x, y) => if x < i && y < i {
                match (evaluate(nodes, x as int, a), evaluate(nodes, y as int, a)) {
                    (Some(p), Some(q)) => Some(T::spec_times(p, q)),
                    _ => None,
                }
            } else {
                None
            },
            NodeType::Div(x, y) => if x < i && y < i {
                match (evaluate(nodes, x as int, a), evaluate(nodes, y as int, a)) {
                    (Some(p), Some(q)) => Some(T::spec_divide(p, q)),
                    _ => None,
                }
            } else {
                None
            },
            NodeType::Pow(x, e) => if x < i {
                match evaluate(nodes, x as int, a) {
                    Some(p) => Some(T::spec_powf(p, e)),
                    None => None,
                }
            } else {
                None
            },
            NodeType::Sin(x) => if x < i {
                match evaluate(nodes, x as int, a) {
                    Some(p) => Some(T::spec_sin(p)),
                    None => None,
                }
            } else {
                None
            },
            NodeType::Cos(x) => if x < i {
                match evaluate(nodes, x as int, a) {
                    Some(p) => Some(T::spec_cos(p)),
                    None => None,
                }
            } else {
                None
            },
        }
    } else {
        None
    }
}

/// Node `i` depends on a variable called `name`.
pub open spec fn mentions<T>(nodes: Seq<NodeData<T>>, i: int, name: Seq<char>) -> bool {
    exists|j: int| #[trigger] reachable(nodes, i, j) && 0 <= j < nodes.len()
        && nodes[j].type_ is Var && nodes[j].type_->Var_0@ == name
}

/// The value bound to `name` in `assignment`; the first binding wins.
pub fn lookup_value<T: Scalar>(assignment: &[(String, T)], name: &String) -> (r: Option<T>)
    ensures
        r == lookup(assignment@, name@),
{
    let mut i: usize = 0;
    while i < assignment.len()
        invariant
            i <= assignment@.len(),
            lookup(assignment@, name@) == lookup_from(assignment@, name@, i as int),
        decreases assignment@.len() - i,
    {
        if assignment[i].0 == *name {
            return Some(assignment[i].1.duplicate());
        }
        i = i + 1;
    }
    None
}

/// Evaluates `node` under `assignment`, reading neither the values set on the
/// nodes nor their gradients. `None` when a variable it depends on is unbound.
pub fn forward<T: Scalar>(arena: &Graph<T>, node: NodeRef, assignment: &[(String, T)]) -> (r: Option<T>)
    requires
        arena.wf(),
        node < arena@.len(),
    ensures
        r == evaluate(arena@, node as int, assignment@),
    decreases node,
{
    match &arena.nodes[node].type_ {
        NodeType::Const(c) => Some(c.duplicate()),
        NodeType::Var(name) => lookup_value(assignment, name),
        NodeType::Neg(x) => {
            assert(is_operand(arena@, node as int, *x as int));
            match forward(arena, *x, assignment) {
                Some(p) => Some(p.neg()),
                None => None,
            }
        },
        NodeType::Add(x, y) => {
            assert(is_operand(arena@, node as int, *x as int));
            assert(is_operand(arena@, node as int, *y as int));
            match forward(arena, *x, assignment) {
                Some(p) => match forward(arena, *y, assignment) {
                    Some(q) => Some(p.plus(&q)),
                    None => None,
                },
                None => None,
            }
        },
        NodeType::Sub(x, y) => {
            assert(is_operand(arena@, node as int, *x as int));
            assert(is_operand(arena@, node as int, *y as int));
            match forward(arena, *x, assignment) {
                Some(p) => match forward(arena, *y, assignment) {
                    Some(q) => Some(p.minus(&q)),
                    None => None,
                },
                None => None,
            }
        },
        NodeType::Mul(x, y) => {
            assert(is_operand(arena@, node as int, *x as int));
            assert(is_operand(arena@, node as int, *y as int));
            match forward(arena, *x, assignment) {
                Some(p) => match forward(arena, *y, assignment) {
                    Some(q) => Some(p.times(&q)),
                    None => None,
                },
                None => None,
            }
        },
        NodeType::Div(x, y) => {
            assert(is_operand(arena@, node as int, *x as int));
            assert(is_operand(arena@, node as int, *y as int));
            match forward(arena, *x, assignment) {
                Some(p) => match forward(arena, *y, assignment) {
                    Some(q) => Some(p.divide(&q)),
                    None => None,
                },
                None => None,
            }
        },
        NodeType::Pow(x, e) => {
            assert(is_operand(arena@, node as int, *x as int));
            match forward(arena, *x, assignment) {
                Some(p) => Some(p.powf(e)),
                None => None,
            }
        },
        NodeType::Sin(x) => {
            assert(is_operand(arena@, node as int, *x as int));
            match forward(arena, *x, assignment) {
                Some(p) => Some(p.sin()),
                None => None,
            }
        },
        NodeType::Cos(x) => {
            assert(is_operand(arena@, node as int, *x as int));
            match forward(arena, *x, assignment) {
                Some(p) => Some(p.cos()),
                None => None,
            }
        },
    }
}

/// An expression that depends on a variable missing from the assignment has
/// no value, whatever the other operands evaluate to.
pub proof fn lemma_missing_variable<T: Scalar>(
    nodes: Seq<NodeData<T>>,
    root: int,
    name: Seq<char>,
    a: Seq<(String, T)>,
)
    requires
        well_formed(nodes),
        mentions(nodes, root, name),
        lookup(a, name) is None,
    ensures
        evaluate(nodes, root, a) is None,
    decreases root,
{
    let j = choose|j: int| #[trigger] reachable(nodes, root, j) && 0 <= j < nodes.len()
        && nodes[j].type_ is Var && nodes[j].type_->Var_0@ == name;
    if root != j {
        let k = nodes[root].type_;
        match crate::graph::first_operand(k) {
            Some(x) => {
                if x < root && reachable(nodes, x as int, j) {
                    lemma_missing_variable(nodes, x as int, name, a);
                }
            },
            None => {},
        }
        match crate::graph::second_operand(k) {
            Some(y) => {
                if y < root && reachable(nodes, y as int, j) {
                    lemma_missing_variable(nodes, y as int, name, a);
                }
            },
            None => {},
        }
    }
}

/// Evaluation is a function of the graph, the root and the assignment: two
/// evaluations of the same root under the same assignment agree.
pub proof fn lemma_forward_pure<T: Scalar>(
    g1: Seq<NodeData<T>>,
    g2: Seq<NodeData<T>>,
    root: int,
    a: Seq<(String, T)>,
)
    requires
        g1 == g2,
    ensures
        evaluate(g1, root, a) == evaluate(g2, root, a),
{
}

} // verus!

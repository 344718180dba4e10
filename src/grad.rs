use vstd::prelude::*;
use crate::eval::{lookup, lookup_value};
use crate::graph::{
    Graph, NodeData, NodeRef, NodeType, first_operand, first_operand_of, is_operand, reachable,
    second_operand, second_operand_of, well_formed,
};
use crate::scalar::Scalar;

verus! {

/// The gradient of node `i` with respect to the variable called `v`, at the
/// values set on the nodes.
///
/// Every rule reads the values of the node's operands, never the node's own:
/// `Mul` and `Div` those of both operands, `Pow`, `Sin` and `Cos` that of their
/// base.
pub open spec fn grad_of<T: Scalar>(nodes: Seq<NodeData<T>>, i: int, v: Seq<char>) -> T
    decreases i,
{
    if 0 <= i < nodes.len() {
        match nodes[i].type_ {
            NodeType::Const(_) => T::spec_zero(),
            NodeType::Var(n) => if n@ == v {
                T::spec_one()
            } else {
                T::spec_zero()
            },
            NodeType::Neg(a) => if a < i {
                T::spec_neg(grad_of(nodes, a as int, v))
            } else {
                T::spec_zero()
            },
            NodeType::Add(a, b) => if a < i && b < i {
                T::spec_plus(grad_of(nodes, a as int, v), grad_of(nodes, b as int, v))
            } else {
                T::spec_zero()
            },
            NodeType::Sub(a, b) => if a < i && b < i {
                T::spec_minus(grad_of(nodes, a as int, v), grad_of(nodes, b as int, v))
            } else {
                T::spec_zero()
            },
            NodeType::Mul(a, b) => if a < i && b < i {
                T::spec_plus(
                    T::spec_times(grad_of(nodes, a as int, v), nodes[b as int].value),
                    T::spec_times(nodes[a as int].value, grad_of(nodes, b as int, v)),
                )
            } else {
                T::spec_zero()
            },
            NodeType::Div(a, b) => if a < i && b < i {
                T::spec_divide(
                    T::spec_minus(
                        T::spec_times(grad_of(nodes, a as int, v), nodes[b as int].value),
                        T::spec_times(nodes[a as int].value, grad_of(nodes, b as int, v)),
                    ),
                    T::spec_times(nodes[b as int].value, nodes[b as int].value),
                )
            } else {
                T::spec_zero()
            },
            NodeType::Pow(a, k) => if a < i {
                T::spec_times(
                    T::spec_times(
                        k,
                        T::spec_powf(nodes[a as int].value, T::spec_minus(k, T::spec_one())),
                    ),
                    grad_of(nodes, a as int, v),
                )
            } else {
                T::spec_zero()
            },
            NodeType::Sin(a) => if a < i {
                T::spec_times(T::spec_cos(nodes[a as int].value), grad_of(nodes, a as int, v))
            } else {
                T::spec_zero()
            },
            NodeType::Cos(a) => if a < i {
                T::spec_times(
                    T::spec_neg(T::spec_sin(nodes[a as int].value)),
                    grad_of(nodes, a as int, v),
                )
            } else {
                T::spec_zero()
            },
        }
    } else {
        T::spec_zero()
    }
}

/// Two node sequences have the same operations and values; only the
/// gradient caches may differ.
pub open spec fn same_values<T>(a: Seq<NodeData<T>>, b: Seq<NodeData<T>>) -> bool {
    a.len() == b.len() && forall|i: int|
        0 <= i < a.len() ==> #[trigger] a[i].type_ == b[i].type_ && a[i].value == b[i].value
}

/// Some name of `s` reads `n`.
pub open spec fn name_in(s: Seq<String>, n: Seq<char>) -> bool
    decreases s.len(),
{
    s.len() > 0 && (s.last()@ == n || name_in(s.drop_last(), n))
}

/// The names of `s` with repeats dropped: each name at its first occurrence.
pub open spec fn first_names(s: Seq<String>) -> Seq<String>
    decreases s.len(),
{
    if s.len() == 0 {
        Seq::empty()
    } else {
        let p = first_names(s.drop_last());
        if name_in(p, s.last()@) {
            p
        } else {
            p.push(s.last())
        }
    }
}

/// Node `j` holds one entry per requested name, in the order the names were
/// first requested: the name and the gradient of `j` with respect to it,
/// computed once in the current pass.
pub open spec fn holds_gradients<T: Scalar>(
    base: Seq<NodeData<T>>,
    nd: NodeData<T>,
    j: int,
    vars: Seq<String>,
) -> bool {
    let names = first_names(vars);
    &&& nd.grads is Some
    &&& nd.grads->0@.len() == names.len()
    &&& forall|k: int|
        0 <= k < names.len() ==> #[trigger] nd.grads->0@[k] == (
            names[k],
            grad_of(base, j, names[k]@),
        )
    &&& nd.evals == 1
}

/// A name is in a sequence exactly when some element reads it.
proof fn lemma_name_in(s: Seq<String>, n: Seq<char>)
    ensures
        name_in(s, n) <==> exists|i: int| 0 <= i < s.len() && #[trigger] s[i]@ == n,
    decreases s.len(),
{
    if s.len() > 0 {
        let p = s.drop_last();
        lemma_name_in(p, n);
        if name_in(p, n) {
            let i = choose|i: int| 0 <= i < p.len() && #[trigger] p[i]@ == n;
            assert(s[i] == p[i]);
        }
        if exists|i: int| 0 <= i < s.len() && #[trigger] s[i]@ == n {
            let i = choose|i: int| 0 <= i < s.len() && #[trigger] s[i]@ == n;
            if i < s.len() - 1 {
                assert(p[i] == s[i]);
            }
        }
    }
}

/// Whether some entry of `out` is for the variable `name`.
fn has_entry<T>(out: &Vec<(String, T)>, name: &String) -> (r: bool)
    ensures
        r <==> exists|i: int| 0 <= i < out@.len() && #[trigger] out@[i].0@ == name@,
{
    let mut p: usize = 0;
    while p < out.len()
        invariant
            p <= out@.len(),
            forall|i: int| 0 <= i < p ==> #[trigger] out@[i].0@ != name@,
        decreases out@.len() - p,
    {
        if out[p].0 == *name {
            return true;
        }
        p = p + 1;
    }
    false
}

/// Node `j` has been cleared and not yet computed in the current pass.
pub open spec fn fresh<T>(nd: NodeData<T>) -> bool {
    nd.grads is None && nd.evals == 0
}

/// Every node below `j` (and `j` itself) holds its gradients in state `s`.
pub open spec fn done<T: Scalar>(
    base: Seq<NodeData<T>>,
    s: Seq<NodeData<T>>,
    j: int,
    vars: Seq<String>,
) -> bool {
    forall|l: int| #[trigger] reachable(base, j, l) ==> holds_gradients(base, s[l], l, vars)
}

/// Within a pass, each node below `i` is either still fresh or done.
pub open spec fn pass_state<T: Scalar>(
    base: Seq<NodeData<T>>,
    s: Seq<NodeData<T>>,
    i: int,
    vars: Seq<String>,
) -> bool {
    forall|j: int| #[trigger] reachable(base, i, j) ==> fresh(s[j]) || done(base, s, j, vars)
}

/// Reachability is transitive.
pub proof fn lemma_reachable_trans<T>(nodes: Seq<NodeData<T>>, i: int, j: int, l: int)
    requires
        reachable(nodes, i, j),
        reachable(nodes, j, l),
    ensures
        reachable(nodes, i, l),
    decreases i,
{
    if i != j {
        match first_operand(nodes[i].type_) {
            Some(a) => {
                if a < i && reachable(nodes, a as int, j) {
                    lemma_reachable_trans(nodes, a as int, j, l);
                }
            },
            None => {},
        }
        match second_operand(nodes[i].type_) {
            Some(b) => {
                if b < i && reachable(nodes, b as int, j) {
                    lemma_reachable_trans(nodes, b as int, j, l);
                }
            },
            None => {},
        }
    }
}

/// Nodes with the same operations are well formed together.
pub proof fn lemma_wf_values<T>(a: Seq<NodeData<T>>, b: Seq<NodeData<T>>)
    requires
        same_values(a, b),
    ensures
        well_formed(a) == well_formed(b),
{
    assert forall|i: int, r: int| is_operand(a, i, r) == is_operand(b, i, r) by {
        if 0 <= i < a.len() {
            assert(a[i].type_ == b[i].type_);
        }
    }
}

/// Every requested name is among the names kept at their first occurrence.
proof fn lemma_first_names_cover(s: Seq<String>, k: int)
    requires
        0 <= k < s.len(),
    ensures
        name_in(first_names(s), s[k]@),
    decreases s.len(),
{
    let p = first_names(s.drop_last());
    if k < s.len() - 1 {
        lemma_first_names_cover(s.drop_last(), k);
        assert(s.drop_last()[k] == s[k]);
        if !name_in(p, s.last()@) {
            assert(p.push(s.last()).drop_last() =~= p);
        }
    } else if !name_in(p, s.last()@) {
        assert(p.push(s.last()).last() == s.last());
    }
}

/// The gradient that node `x`, holding its gradients for `vars`, has for the
/// requested variable `name`.
fn grad_for<T: Scalar>(
    nd: &NodeData<T>,
    name: &String,
    Ghost(base): Ghost<Seq<NodeData<T>>>,
    Ghost(x): Ghost<int>,
    Ghost(vars): Ghost<Seq<String>>,
) -> (r: T)
    requires
        holds_gradients(base, *nd, x, vars),
        name_in(first_names(vars), name@),
    ensures
        r == grad_of(base, x, name@),
{
    let ghost names = first_names(vars);
    proof {
        lemma_name_in(names, name@);
    }
    match &nd.grads {
        Some(v) => {
            let mut p: usize = 0;
            while p < v.len()
                invariant
                    v@ == nd.grads->0@,
                    holds_gradients(base, *nd, x, vars),
                    names == first_names(vars),
                    exists|i: int| 0 <= i < names.len() && #[trigger] names[i]@ == name@,
                    p <= v@.len(),
                    forall|i: int| 0 <= i < p ==> #[trigger] v@[i].0@ != name@,
                decreases v@.len() - p,
            {
                assert(v@[p as int] == (names[p as int], grad_of(base, x, names[p as int]@)));
                if v[p].0 == *name {
                    let r = v[p].1.duplicate();
                    assert(names[p as int]@ == name@);
                    assert(r == grad_of(base, x, name@));
                    return r;
                }
                p = p + 1;
            }
            proof {
                let i = choose|i: int| 0 <= i < names.len() && #[trigger] names[i]@ == name@;
                assert(v@[i] == (names[i], grad_of(base, x, names[i]@)));
                assert(v@[i].0@ == name@);
                assert(false);
            }
            T::zero()
        },
        None => T::zero(),
    }
}

/// The gradient of node `i` with respect to `vars[k]`, from the gradients its
/// operands hold.
fn local_gradient<T: Scalar>(
    arena: &Graph<T>,
    i: NodeRef,
    variables: &[String],
    k: usize,
    Ghost(base): Ghost<Seq<NodeData<T>>>,
) -> (r: T)
    requires
        well_formed(base),
        same_values(base, arena@),
        i < base.len(),
        k < variables@.len(),
        forall|x: int|
            #[trigger] is_operand(base, i as int, x) ==> holds_gradients(
                base,
                arena@[x],
                x,
                variables@,
            ),
    ensures
        r == grad_of(base, i as int, variables@[k as int]@),
{
    let ghost v = variables@[k as int]@;
    proof {
        lemma_first_names_cover(variables@, k as int);
    }
    assert(arena@[i as int].type_ == base[i as int].type_);
    match &arena.nodes[i].type_ {
        NodeType::Const(_) => T::zero(),
        NodeType::Var(n) => {
            if *n == variables[k] {
                T::one()
            } else {
                T::zero()
            }
        },
        NodeType::Neg(a) => {
            assert(is_operand(base, i as int, *a as int));
            let ga = grad_for(&arena.nodes[*a], &variables[k], Ghost(base), Ghost(*a as int), Ghost(variables@));
            ga.neg()
        },
        NodeType::Add(a, b) => {
            assert(is_operand(base, i as int, *a as int));
            assert(is_operand(base, i as int, *b as int));
            let ga = grad_for(&arena.nodes[*a], &variables[k], Ghost(base), Ghost(*a as int), Ghost(variables@));
            let gb = grad_for(&arena.nodes[*b], &variables[k], Ghost(base), Ghost(*b as int), Ghost(variables@));
            ga.plus(&gb)
        },
        NodeType::Sub(a, b) => {
            assert(is_operand(base, i as int, *a as int));
            assert(is_operand(base, i as int, *b as int));
            let ga = grad_for(&arena.nodes[*a], &variables[k], Ghost(base), Ghost(*a as int), Ghost(variables@));
            let gb = grad_for(&arena.nodes[*b], &variables[k], Ghost(base), Ghost(*b as int), Ghost(variables@));
            ga.minus(&gb)
        },
        NodeType::Mul(a, b) => {
            assert(is_operand(base, i as int, *a as int));
            assert(is_operand(base, i as int, *b as int));
            let ga = grad_for(&arena.nodes[*a], &variables[k], Ghost(base), Ghost(*a as int), Ghost(variables@));
            let gb = grad_for(&arena.nodes[*b], &variables[k], Ghost(base), Ghost(*b as int), Ghost(variables@));
            let va = &arena.nodes[*a].value;
            let vb = &arena.nodes[*b].value;
            assert(arena@[*a as int].value == base[*a as int].value);
            assert(arena@[*b as int].value == base[*b as int].value);
            ga.times(vb).plus(&va.times(&gb))
        },
        NodeType::Div(a, b) => {
            assert(is_operand(base, i as int, *a as int));
            assert(is_operand(base, i as int, *b as int));
            let ga = grad_for(&arena.nodes[*a], &variables[k], Ghost(base), Ghost(*a as int), Ghost(variables@));
            let gb = grad_for(&arena.nodes[*b], &variables[k], Ghost(base), Ghost(*b as int), Ghost(variables@));
            let va = &arena.nodes[*a].value;
            let vb = &arena.nodes[*b].value;
            assert(arena@[*a as int].value == base[*a as int].value);
            assert(arena@[*b as int].value == base[*b as int].value);
            ga.times(vb).minus(&va.times(&gb)).divide(&vb.times(vb))
        },
        NodeType::Pow(a, e) => {
            assert(is_operand(base, i as int, *a as int));
            let ga = grad_for(&arena.nodes[*a], &variables[k], Ghost(base), Ghost(*a as int), Ghost(variables@));
            assert(arena@[*a as int].value == base[*a as int].value);
            let p = arena.nodes[*a].value.powf(&e.minus(&T::one()));
            e.times(&p).times(&ga)
        },
        NodeType::Sin(a) => {
            assert(is_operand(base, i as int, *a as int));
            let ga = grad_for(&arena.nodes[*a], &variables[k], Ghost(base), Ghost(*a as int), Ghost(variables@));
            assert(arena@[*a as int].value == base[*a as int].value);
            arena.nodes[*a].value.cos().times(&ga)
        },
        NodeType::Cos(a) => {
            assert(is_operand(base, i as int, *a as int));
            let ga = grad_for(&arena.nodes[*a], &variables[k], Ghost(base), Ghost(*a as int), Ghost(variables@));
            assert(arena@[*a as int].value == base[*a as int].value);
            arena.nodes[*a].value.sin().neg().times(&ga)
        },
    }
}

/// Clears the gradients of every node below `i` in `base`, leaving the rest.
fn clear_from<T: Scalar>(arena: &mut Graph<T>, i: NodeRef, Ghost(base): Ghost<Seq<NodeData<T>>>)
    requires
        well_formed(base),
        same_values(base, old(arena)@),
        i < base.len(),
    ensures
        same_values(base, final(arena)@),
        forall|j: int|
            0 <= j < base.len() && #[trigger] reachable(base, i as int, j) ==> fresh(
                final(arena)@[j],
            ),
        forall|j: int|
            0 <= j < base.len() && !#[trigger] reachable(base, i as int, j) ==> final(arena)@[j]
                == old(arena)@[j],
    decreases i,
{
    arena.nodes[i].grads = None;
    arena.nodes[i].evals = 0;
    assert(arena@[i as int].type_ == base[i as int].type_);
    let ghost mid = arena@;
    match first_operand_of(&arena.nodes[i].type_) {
        Some(a) => {
            assert(is_operand(base, i as int, a as int));
            clear_from(arena, a, Ghost(base));
            proof {
                crate::graph::lemma_acyclic(base, i as int, a as int);
            }
        },
        None => {},
    }
    let ghost mid2 = arena@;
    assert(arena@[i as int].type_ == base[i as int].type_);
    match second_operand_of(&arena.nodes[i].type_) {
        Some(b) => {
            assert(is_operand(base, i as int, b as int));
            clear_from(arena, b, Ghost(base));
            proof {
                crate::graph::lemma_acyclic(base, i as int, b as int);
            }
        },
        None => {},
    }
    assert(fresh(mid[i as int]));
    assert forall|j: int| 0 <= j < base.len() && #[trigger] reachable(base, i as int, j) implies fresh(
        arena@[j],
    ) by {
        if j != i {
            let fa = first_operand(base[i as int].type_);
            let sb = second_operand(base[i as int].type_);
            if sb is Some && reachable(base, sb->0 as int, j) {
                assert(fresh(arena@[j]));
            } else {
                assert(fa is Some && reachable(base, fa->0 as int, j));
                assert(fresh(mid2[j]));
                assert(arena@[j] == mid2[j]);
            }
        }
    }
    assert forall|j: int|
        0 <= j < base.len() && !#[trigger] reachable(base, i as int, j) implies arena@[j]
            == old(arena)@[j] by {
        assert(j != i);
        let fa = first_operand(base[i as int].type_);
        let sb = second_operand(base[i as int].type_);
        assert(mid[j] == old(arena)@[j]);
        if fa is Some {
            assert(fa->0 < i);
            assert(!reachable(base, fa->0 as int, j));
        }
        assert(mid2[j] == mid[j]);
        if sb is Some {
            assert(!reachable(base, sb->0 as int, j));
        }
        assert(arena@[j] == mid2[j]);
    }
}

/// Going from `s0` to `s1`, only nodes below `c` that were fresh changed.
pub open spec fn untouched_outside<T>(
    base: Seq<NodeData<T>>,
    s0: Seq<NodeData<T>>,
    s1: Seq<NodeData<T>>,
    c: int,
) -> bool {
    s0.len() == s1.len() && forall|j: int|
        0 <= j < s0.len() && !(reachable(base, c, j) && fresh(s0[j])) ==> #[trigger] s1[j] == s0[j]
}

/// A node whose whole subgraph is done stays done while only fresh nodes change.
proof fn lemma_done_kept<T: Scalar>(
    base: Seq<NodeData<T>>,
    s0: Seq<NodeData<T>>,
    s1: Seq<NodeData<T>>,
    j: int,
    c: int,
    vars: Seq<String>,
)
    requires
        s0.len() == base.len(),
        0 <= j < base.len(),
        done(base, s0, j, vars),
        untouched_outside(base, s0, s1, c),
    ensures
        done(base, s1, j, vars),
{
    assert forall|l: int| #[trigger] reachable(base, j, l) implies holds_gradients(
        base,
        s1[l],
        l,
        vars,
    ) by {
        assert(holds_gradients(base, s0[l], l, vars));
        crate::graph::lemma_reachable_earlier(base, j, l);
        lemma_reachable_nonneg(base, j, l);
        assert(s1[l] == s0[l]);
    }
}

/// Finishing the subgraph of `c`, a node below `i`, keeps the pass state of `i`.
proof fn lemma_pass_step<T: Scalar>(
    base: Seq<NodeData<T>>,
    s0: Seq<NodeData<T>>,
    s1: Seq<NodeData<T>>,
    i: int,
    c: int,
    vars: Seq<String>,
)
    requires
        s0.len() == base.len(),
        0 <= i < base.len(),
        pass_state(base, s0, i, vars),
        reachable(base, i, c),
        done(base, s1, c, vars),
        untouched_outside(base, s0, s1, c),
    ensures
        pass_state(base, s1, i, vars),
{
    assert forall|j: int| #[trigger] reachable(base, i, j) implies fresh(s1[j]) || done(
        base,
        s1,
        j,
        vars,
    ) by {
        if reachable(base, c, j) && fresh(s0[j]) {
            assert forall|l: int| #[trigger] reachable(base, j, l) implies holds_gradients(
                base,
                s1[l],
                l,
                vars,
            ) by {
                lemma_reachable_trans(base, c, j, l);
            }
        } else {
            crate::graph::lemma_reachable_earlier(base, i, j);
            if j < 0 {
                assert(false) by {
                    lemma_reachable_nonneg(base, i, j);
                }
            }
            assert(s1[j] == s0[j]);
            lemma_reachable_nonneg(base, i, j);
            if !fresh(s0[j]) {
                lemma_done_kept(base, s0, s1, j, c, vars);
            }
        }
    }
}

/// Nothing below a node lies at a negative slot.
proof fn lemma_reachable_nonneg<T>(nodes: Seq<NodeData<T>>, i: int, j: int)
    requires
        0 <= i,
        reachable(nodes, i, j),
    ensures
        0 <= j,
    decreases i,
{
    if i != j {
        match first_operand(nodes[i].type_) {
            Some(a) => {
                if a < i && reachable(nodes, a as int, j) {
                    lemma_reachable_nonneg(nodes, a as int, j);
                }
            },
            None => {},
        }
        match second_operand(nodes[i].type_) {
            Some(b) => {
                if b < i && reachable(nodes, b as int, j) {
                    lemma_reachable_nonneg(nodes, b as int, j);
                }
            },
            None => {},
        }
    }
}

/// The gradients of node `i` with respect to each of `variables`, in order.
fn node_gradients<T: Scalar>(
    arena: &Graph<T>,
    i: NodeRef,
    variables: &[String],
    Ghost(base): Ghost<Seq<NodeData<T>>>,
) -> (r: Vec<(String, T)>)
    requires
        well_formed(base),
        same_values(base, arena@),
        i < base.len(),
        forall|x: int|
            #[trigger] is_operand(base, i as int, x) ==> holds_gradients(
                base,
                arena@[x],
                x,
                variables@,
            ),
    ensures
        r@.len() == first_names(variables@).len(),
        forall|q: int|
            0 <= q < first_names(variables@).len() ==> #[trigger] r@[q] == (
                first_names(variables@)[q],
                grad_of(base, i as int, first_names(variables@)[q]@),
            ),
{
    let mut out: Vec<(String, T)> = Vec::new();
    let mut k: usize = 0;
    assert(variables@.take(0) =~= Seq::<String>::empty());
    while k < variables.len()
        invariant
            well_formed(base),
            same_values(base, arena@),
            i < base.len(),
            forall|x: int|
                #[trigger] is_operand(base, i as int, x) ==> holds_gradients(
                    base,
                    arena@[x],
                    x,
                    variables@,
                ),
            k <= variables@.len(),
            out@.len() == first_names(variables@.take(k as int)).len(),
            forall|q: int|
                0 <= q < out@.len() ==> #[trigger] out@[q] == (
                    first_names(variables@.take(k as int))[q],
                    grad_of(base, i as int, first_names(variables@.take(k as int))[q]@),
                ),
        decreases variables@.len() - k,
    {
        let ghost before = first_names(variables@.take(k as int));
        assert(variables@.take(k + 1).drop_last() =~= variables@.take(k as int));
        assert(variables@.take(k + 1).last() == variables@[k as int]);
        proof {
            lemma_name_in(before, variables@[k as int]@);
            assert forall|q: int| 0 <= q < out@.len() implies #[trigger] out@[q].0@ == before[q]@ by {
                assert(out@[q] == (before[q], grad_of(base, i as int, before[q]@)));
            }
        }
        if !has_entry(&out, &variables[k]) {
            let d = local_gradient(arena, i, variables, k, Ghost(base));
            out.push((variables[k].clone(), d));
            proof {
                if name_in(before, variables@[k as int]@) {
                    let q = choose|q: int| 0 <= q < before.len() && #[trigger] before[q]@
                        == variables@[k as int]@;
                    assert(out@[q].0@ == before[q]@);
                }
            }
        } else {
            proof {
                let q = choose|q: int| 0 <= q < out@.len() && #[trigger] out@[q].0@
                    == variables@[k as int]@;
                assert(out@[q] == (before[q], grad_of(base, i as int, before[q]@)));
            }
        }
        k = k + 1;
    }
    assert(variables@.take(k as int) =~= variables@);
    out
}

/// Computes the gradients of every fresh node below `i`, each exactly once,
/// operands first; a node that already holds its gradients is not revisited.
fn compute<T: Scalar>(
    arena: &mut Graph<T>,
    i: NodeRef,
    variables: &[String],
    Ghost(base): Ghost<Seq<NodeData<T>>>,
)
    requires
        well_formed(base),
        same_values(base, old(arena)@),
        i < base.len(),
        pass_state(base, old(arena)@, i as int, variables@),
    ensures
        same_values(base, final(arena)@),
        done(base, final(arena)@, i as int, variables@),
        untouched_outside(base, old(arena)@, final(arena)@, i as int),
    decreases i,
{
    let ghost s0 = arena@;
    assert(reachable(base, i as int, i as int));
    if arena.nodes[i].grads.is_some() {
        return;
    }
    assert(fresh(s0[i as int]));
    assert(arena@[i as int].type_ == base[i as int].type_);
    let fa = first_operand_of(&arena.nodes[i].type_);
    let sb = second_operand_of(&arena.nodes[i].type_);
    let ghost s1 = arena@;
    match fa {
        Some(a) => {
            assert(is_operand(base, i as int, a as int));
            assert(reachable(base, a as int, a as int));
            assert(reachable(base, i as int, a as int));
            assert forall|j: int| #[trigger] reachable(base, a as int, j) implies reachable(
                base,
                i as int,
                j,
            ) by {
                lemma_reachable_trans(base, i as int, a as int, j);
            }
            compute(arena, a, variables, Ghost(base));
            proof {
                crate::graph::lemma_acyclic(base, i as int, a as int);
                lemma_pass_step(base, s0, arena@, i as int, a as int, variables@);
            }
        },
        None => {},
    }
    let ghost s2 = arena@;
    match sb {
        Some(b) => {
            assert(is_operand(base, i as int, b as int));
            assert(reachable(base, b as int, b as int));
            assert(reachable(base, i as int, b as int));
            assert forall|j: int| #[trigger] reachable(base, b as int, j) implies reachable(
                base,
                i as int,
                j,
            ) by {
                lemma_reachable_trans(base, i as int, b as int, j);
            }
            compute(arena, b, variables, Ghost(base));
            proof {
                crate::graph::lemma_acyclic(base, i as int, b as int);
                lemma_pass_step(base, s2, arena@, i as int, b as int, variables@);
                if fa is Some {
                    lemma_done_kept(base, s2, arena@, fa->0 as int, b as int, variables@);
                }
            }
        },
        None => {},
    }
    let ghost s3 = arena@;
    assert forall|x: int| #[trigger] is_operand(base, i as int, x) implies holds_gradients(
        base,
        s3[x],
        x,
        variables@,
    ) by {
        assert(reachable(base, x, x));
    }
    let out = node_gradients(arena, i, variables, Ghost(base));
    arena.nodes[i].grads = Some(out);
    arena.nodes[i].evals = arena.nodes[i].evals + 1;
    assert forall|l: int| #[trigger] reachable(base, i as int, l) implies holds_gradients(
        base,
        arena@[l],
        l,
        variables@,
    ) by {
        if l != i {
            crate::graph::lemma_reachable_earlier(base, i as int, l);
            lemma_reachable_nonneg(base, i as int, l);
            if fa is Some && reachable(base, fa->0 as int, l) {
                assert(reachable(base, fa->0 as int, fa->0 as int));
            } else {
                assert(sb is Some && reachable(base, sb->0 as int, l));
            }
            assert(arena@[l] == s3[l]);
        }
    }
}

/// `after` is `before` once a pass from `root` over `vars` has run: operations
/// and values are kept, every node below `root` holds its gradients computed
/// exactly once, and every other node is left as it was.
pub open spec fn differentiated<T: Scalar>(
    before: Seq<NodeData<T>>,
    after: Seq<NodeData<T>>,
    root: int,
    vars: Seq<String>,
) -> bool {
    &&& same_values(before, after)
    &&& forall|j: int|
        0 <= j < before.len() && #[trigger] reachable(before, root, j) ==> holds_gradients(
            before,
            after[j],
            j,
            vars,
        )
    &&& forall|j: int|
        0 <= j < before.len() && !#[trigger] reachable(before, root, j) ==> after[j] == before[j]
}

impl<T: Scalar> NodeData<T> {
    /// Clears the gradients of `node` and of every node below it.
    pub fn reset_grads(arena: &mut Graph<T>, node: NodeRef)
        requires
            old(arena).wf(),
            node < old(arena)@.len(),
        ensures
            final(arena).wf(),
            same_values(old(arena)@, final(arena)@),
            forall|j: int|
                0 <= j < old(arena)@.len() && #[trigger] reachable(old(arena)@, node as int, j)
                    ==> fresh(final(arena)@[j]),
            forall|j: int|
                0 <= j < old(arena)@.len() && !#[trigger] reachable(old(arena)@, node as int, j)
                    ==> final(arena)@[j] == old(arena)@[j],
    {
        let ghost base = arena@;
        clear_from(arena, node, Ghost(base));
        proof {
            lemma_wf_values(base, arena@);
        }
    }

    /// Computes, for every node below `node`, its gradient with respect to each
    /// of `variables`, at the values set on the nodes. The gradients of the
    /// nodes below are cleared first; each is then computed once, however many
    /// parents it has. Nodes not below `node` are left as they were.
    pub fn backward_ad(arena: &mut Graph<T>, node: NodeRef, variables: &[String])
        requires
            old(arena).wf(),
            node < old(arena)@.len(),
        ensures
            final(arena).wf(),
            differentiated(old(arena)@, final(arena)@, node as int, variables@),
    {
        let ghost base = arena@;
        clear_from(arena, node, Ghost(base));
        let ghost cleared = arena@;
        assert forall|j: int| #[trigger] reachable(base, node as int, j) implies fresh(cleared[j])
            || done(base, cleared, j, variables@) by {
            crate::graph::lemma_reachable_earlier(base, node as int, j);
            lemma_reachable_nonneg(base, node as int, j);
        }
        compute(arena, node, variables, Ghost(base));
        assert forall|j: int|
            0 <= j < base.len() && !#[trigger] reachable(base, node as int, j) implies arena@[j]
                == base[j] by {
            assert(arena@[j] == cleared[j]);
        }
        proof {
            lemma_wf_values(base, arena@);
        }
    }
}

impl<T: Scalar> Graph<T> {
    /// The gradient of `node` with respect to the variable `name`, as the last
    /// pass that reached the node computed it; `None` when no pass has reached
    /// it or the pass did not ask for `name`.
    pub fn gradient_of(&self, node: NodeRef, name: &String) -> (r: Option<T>)
        requires
            node < self@.len(),
        ensures
            r == match self@[node as int].grads {
                Some(v) => lookup(v@, name@),
                None => None,
            },
    {
        match &self.nodes[node].grads {
            Some(v) => lookup_value(v.as_slice(), name),
            None => None,
        }
    }
}

/// Gradients depend on the operations and values of the nodes alone.
pub proof fn lemma_grad_values<T: Scalar>(
    a: Seq<NodeData<T>>,
    b: Seq<NodeData<T>>,
    i: int,
    v: Seq<char>,
)
    requires
        same_values(a, b),
    ensures
        grad_of(a, i, v) == grad_of(b, i, v),
    decreases i,
{
    if 0 <= i < a.len() {
        assert(a[i].type_ == b[i].type_ && a[i].value == b[i].value);
        match first_operand(a[i].type_) {
            Some(x) => {
                if x < i {
                    lemma_grad_values(a, b, x as int, v);
                    assert(a[x as int].value == b[x as int].value);
                }
            },
            None => {},
        }
        match second_operand(a[i].type_) {
            Some(y) => {
                if y < i {
                    lemma_grad_values(a, b, y as int, v);
                    assert(a[y as int].value == b[y as int].value);
                }
            },
            None => {},
        }
    }
}

/// Running the same pass twice in a row, with the values left alone, leaves
/// every node with the gradients that the first pass gave it.
pub proof fn lemma_backward_ad_idempotent<T: Scalar>(
    g0: Seq<NodeData<T>>,
    g1: Seq<NodeData<T>>,
    g2: Seq<NodeData<T>>,
    root: int,
    vars: Seq<String>,
)
    requires
        well_formed(g0),
        differentiated(g0, g1, root, vars),
        differentiated(g1, g2, root, vars),
    ensures
        forall|j: int|
            0 <= j < g0.len() ==> (#[trigger] g2[j]).grads is Some == g1[j].grads is Some,
        forall|j: int|
            0 <= j < g0.len() && g1[j].grads is Some ==> (#[trigger] g2[j]).grads->0@
                == g1[j].grads->0@,
{
    assert forall|j: int| 0 <= j < g0.len() implies (#[trigger] g2[j]).grads is Some
        == g1[j].grads is Some && (g1[j].grads is Some ==> g2[j].grads->0@ == g1[j].grads->0@) by {
        crate::graph::lemma_reachable_structure(g0, g1, root, j);
        if reachable(g0, root, j) {
            let s1 = g1[j].grads->0@;
            let s2 = g2[j].grads->0@;
            let names = first_names(vars);
            assert forall|k: int| 0 <= k < names.len() implies s2[k] == s1[k] by {
                lemma_grad_values(g0, g1, j, names[k]@);
            }
            assert(s2 =~= s1);
        }
    }
}

/// In a pass from `root`, a node `s` that is an operand of two parents below
/// the root is computed exactly once, and both parents read from it the same
/// gradients: those of `s` itself.
pub proof fn lemma_shared_operand_once<T: Scalar>(
    g0: Seq<NodeData<T>>,
    g1: Seq<NodeData<T>>,
    root: int,
    p1: int,
    p2: int,
    s: int,
    vars: Seq<String>,
)
    requires
        well_formed(g0),
        differentiated(g0, g1, root, vars),
        0 <= root < g0.len(),
        reachable(g0, root, p1),
        reachable(g0, root, p2),
        is_operand(g0, p1, s),
        is_operand(g0, p2, s),
    ensures
        g1[s].evals == 1,
        g1[s].grads is Some,
        g1[s].grads->0@.len() == first_names(vars).len(),
        forall|k: int|
            0 <= k < first_names(vars).len() ==> #[trigger] g1[s].grads->0@[k].1 == grad_of(
                g0,
                s,
                first_names(vars)[k]@,
            ),
{
    assert(s < p1);
    assert(reachable(g0, s, s));
    assert(reachable(g0, p1, s));
    lemma_reachable_trans(g0, root, p1, s);
    lemma_reachable_nonneg(g0, root, s);
    crate::graph::lemma_reachable_earlier(g0, root, s);
    assert(holds_gradients(g0, g1[s], s, vars));
    let names = first_names(vars);
    assert forall|k: int| 0 <= k < names.len() implies #[trigger] g1[s].grads->0@[k].1 == grad_of(
        g0,
        s,
        names[k]@,
    ) by {
        assert(g1[s].grads->0@[k] == (names[k], grad_of(g0, s, names[k]@)));
    }
}

/// Why a graph is refused.
#[derive(PartialEq, Eq, Structural, Debug)]
pub enum GraphError {
    /// Some node refers to itself or to a node made after it, so following
    /// operands may lead back to where they started.
    StructuralCycle,
}

impl<T: Scalar> Graph<T> {
    /// Differentiates `node` as `NodeData::backward_ad` does, once the graph is
    /// checked to refer only backwards; a graph that does not is refused with
    /// `StructuralCycle` and left as it was.
    pub fn differentiate(&mut self, node: NodeRef, variables: &[String]) -> (r: Result<(), GraphError>)
        requires
            node < old(self)@.len(),
        ensures
            r is Err <==> !old(self).wf(),
            r is Err ==> r == Err::<(), GraphError>(GraphError::StructuralCycle) && final(self)@
                == old(self)@,
            r is Ok ==> final(self).wf() && differentiated(
                old(self)@,
                final(self)@,
                node as int,
                variables@,
            ),
    {
        if !self.is_well_formed() {
            return Err(GraphError::StructuralCycle);
        }
        NodeData::backward_ad(self, node, variables);
        Ok(())
    }
}

/// A graph in which following operands from some node leads back to it is
/// never well formed, so `differentiate` refuses it with `StructuralCycle`.
pub proof fn lemma_cycle_refused<T>(nodes: Seq<NodeData<T>>, i: int, r: int)
    requires
        is_operand(nodes, i, r),
        reachable(nodes, r, i),
    ensures
        !well_formed(nodes),
{
    if well_formed(nodes) {
        crate::graph::lemma_acyclic(nodes, i, r);
    }
}

} // verus!

use autodiff::{forward, lookup_value, Graph, GraphError, NodeData, NodeRef, NodeType, Scalar, Term};

#[derive(Debug, PartialEq, Clone, Copy)]
struct F(f32);

impl Scalar for F {
    fn spec_zero() -> F {
        F(0.0)
    }

    fn spec_one() -> F {
        F(1.0)
    }

    fn spec_neg(a: F) -> F {
        F(-a.0)
    }

    fn spec_plus(a: F, b: F) -> F {
        F(a.0 + b.0)
    }

    fn spec_minus(a: F, b: F) -> F {
        F(a.0 - b.0)
    }

    fn spec_times(a: F, b: F) -> F {
        F(a.0 * b.0)
    }

    fn spec_divide(a: F, b: F) -> F {
        F(a.0 / b.0)
    }

    fn spec_powf(a: F, e: F) -> F {
        F(a.0.powf(e.0))
    }

    fn spec_sin(a: F) -> F {
        F(a.0.sin())
    }

    fn spec_cos(a: F) -> F {
        F(a.0.cos())
    }

    fn zero() -> F {
        F::spec_zero()
    }

    fn one() -> F {
        F::spec_one()
    }

    fn duplicate(&self) -> F {
        *self
    }

    fn neg(&self) -> F {
        F::spec_neg(*self)
    }

    fn plus(&self, o: &F) -> F {
        F::spec_plus(*self, *o)
    }

    fn minus(&self, o: &F) -> F {
        F::spec_minus(*self, *o)
    }

    fn times(&self, o: &F) -> F {
        F::spec_times(*self, *o)
    }

    fn divide(&self, o: &F) -> F {
        F::spec_divide(*self, *o)
    }

    fn powf(&self, e: &F) -> F {
        F::spec_powf(*self, *e)
    }

    fn sin(&self) -> F {
        F::spec_sin(*self)
    }

    fn cos(&self) -> F {
        F::spec_cos(*self)
    }
}

fn names(vs: &[&str]) -> Vec<String> {
    vs.iter().map(|v| v.to_string()).collect()
}

fn grad(arena: &Graph<F>, node: NodeRef, name: &str) -> F {
    arena.gradient_of(node, &name.to_string()).unwrap()
}

struct Scenario {
    arena: Graph<F>,
    x: NodeRef,
    y: NodeRef,
    mul: NodeRef,
    div: NodeRef,
    add: NodeRef,
    sub: NodeRef,
}

fn scenario() -> Scenario {
    let mut arena = Graph::new();
    let x = autodiff::var(&mut arena, "x".to_string());
    let y = autodiff::var(&mut arena, "y".to_string());
    let mul = autodiff::mul(&mut arena, x, y);
    let div = autodiff::div(&mut arena, x, y);
    let add = autodiff::add(&mut arena, mul, div);
    let sub = autodiff::sub(&mut arena, mul, div);
    Scenario { arena, x, y, mul, div, add, sub }
}

fn assignment() -> Vec<(String, F)> {
    vec![("x".to_string(), F(8.0)), ("y".to_string(), F(4.0))]
}

#[test]
fn basic_forward() {
    let s = scenario();
    let a = assignment();
    assert_eq!(forward(&s.arena, s.add, &a), Some(F(34.0)));
    assert_eq!(forward(&s.arena, s.sub, &a), Some(F(30.0)));
}

#[test]
fn basic_backward_ad() {
    let mut s = scenario();
    s.arena.set_value(s.x, F(8.0));
    s.arena.set_value(s.y, F(4.0));
    let vars = names(&["x", "y"]);
    NodeData::backward_ad(&mut s.arena, s.add, &vars);
    NodeData::backward_ad(&mut s.arena, s.sub, &vars);
    assert_eq!(grad(&s.arena, s.add, "x"), F(4.25));
    assert_eq!(grad(&s.arena, s.add, "y"), F(7.5));
    assert_eq!(grad(&s.arena, s.sub, "x"), F(3.75));
    assert_eq!(grad(&s.arena, s.sub, "y"), F(8.5));
}

#[test]
fn forward_twice_agrees() {
    let s = scenario();
    let a = assignment();
    let first = forward(&s.arena, s.sub, &a);
    let second = forward(&s.arena, s.sub, &a);
    assert_eq!(first, second);
    assert_eq!(first, Some(F(30.0)));
}

#[test]
fn forward_reads_no_node_values() {
    let mut s = scenario();
    s.arena.set_value(s.x, F(100.0));
    s.arena.set_value(s.add, F(-1.0));
    assert_eq!(forward(&s.arena, s.add, &assignment()), Some(F(34.0)));
}

#[test]
fn missing_variable_is_absent() {
    let mut s = scenario();
    let z = autodiff::var(&mut s.arena, "z".to_string());
    let c = autodiff::constant(&mut s.arena, F(1.0));
    let sum = autodiff::add(&mut s.arena, s.add, z);
    let scaled = autodiff::mul(&mut s.arena, c, sum);
    let a = assignment();
    assert_eq!(forward(&s.arena, z, &a), None);
    assert_eq!(forward(&s.arena, sum, &a), None);
    assert_eq!(forward(&s.arena, scaled, &a), None);
    assert_eq!(forward(&s.arena, s.add, &vec![("x".to_string(), F(8.0))]), None);
}

#[test]
fn shared_operand_computed_once() {
    let mut arena = Graph::new();
    let x = autodiff::var(&mut arena, "x".to_string());
    let shared = autodiff::mul(&mut arena, x, x);
    let p1 = autodiff::sin(&mut arena, shared);
    let p2 = autodiff::add(&mut arena, shared, x);
    let root = autodiff::add(&mut arena, p1, p2);
    arena.set_value(x, F(3.0));
    arena.set_value(shared, F(9.0));
    NodeData::backward_ad(&mut arena, root, &names(&["x"]));
    assert_eq!(arena.nodes[shared].evals, 1);
    assert_eq!(arena.nodes[x].evals, 1);
    assert_eq!(arena.nodes[root].evals, 1);
    assert_eq!(grad(&arena, shared, "x"), F(6.0));
    assert_eq!(grad(&arena, p2, "x"), F(7.0));
    assert_eq!(grad(&arena, p1, "x"), F(9.0f32.cos() * 6.0));
    assert_eq!(grad(&arena, root, "x"), F(9.0f32.cos() * 6.0 + 7.0));
}

#[test]
fn operands_always_precede_their_node() {
    let s = scenario();
    for (i, n) in s.arena.nodes.iter().enumerate() {
        match n.type_ {
            NodeType::Add(a, b) | NodeType::Sub(a, b) | NodeType::Mul(a, b) | NodeType::Div(a, b) => {
                assert!(a < i && b < i)
            },
            _ => {},
        }
    }
    assert!(s.mul < s.add && s.div < s.sub);
}

#[test]
fn reference_scenario() {
    let mut s = scenario();
    let a = assignment();
    assert_eq!(forward(&s.arena, s.add, &a), Some(F(34.0)));
    assert_eq!(forward(&s.arena, s.sub, &a), Some(F(30.0)));
    s.arena.set_value(s.x, F(8.0));
    s.arena.set_value(s.y, F(4.0));
    let vars = names(&["x", "y"]);
    NodeData::backward_ad(&mut s.arena, s.add, &vars);
    assert_eq!(grad(&s.arena, s.add, "x"), F(4.25));
    assert_eq!(grad(&s.arena, s.add, "y"), F(7.5));
    NodeData::backward_ad(&mut s.arena, s.sub, &vars);
    assert_eq!(grad(&s.arena, s.sub, "x"), F(3.75));
    assert_eq!(grad(&s.arena, s.sub, "y"), F(8.5));
    assert_eq!(grad(&s.arena, s.mul, "x"), F(4.0));
    assert_eq!(grad(&s.arena, s.div, "y"), F(-0.5));
}

#[test]
fn backward_ad_twice_agrees() {
    let mut s = scenario();
    s.arena.set_value(s.x, F(8.0));
    s.arena.set_value(s.y, F(4.0));
    let vars = names(&["x", "y"]);
    NodeData::backward_ad(&mut s.arena, s.add, &vars);
    let first: Vec<Option<F>> = (0..6).map(|n| s.arena.gradient_of(n, &"y".to_string())).collect();
    NodeData::backward_ad(&mut s.arena, s.add, &vars);
    let second: Vec<Option<F>> = (0..6).map(|n| s.arena.gradient_of(n, &"y".to_string())).collect();
    assert_eq!(first, second);
    assert_eq!(s.arena.nodes[s.mul].evals, 1);
}

#[test]
fn pow_boundary() {
    let mut arena = Graph::new();
    let x = autodiff::var(&mut arena, "x".to_string());
    let p = autodiff::pow(&mut arena, x, F(2.0));
    arena.set_value(x, F(3.0));
    NodeData::backward_ad(&mut arena, p, &names(&["x"]));
    assert_eq!(grad(&arena, p, "x"), F(6.0));
}

#[test]
fn pow_reads_its_base_value() {
    let mut arena = Graph::new();
    let x = autodiff::var(&mut arena, "x".to_string());
    let p = autodiff::pow(&mut arena, x, F(2.0));
    arena.set_value(x, F(3.0));
    arena.set_value(p, F(9.0));
    NodeData::backward_ad(&mut arena, p, &names(&["x"]));
    assert_eq!(grad(&arena, p, "x"), F(6.0));
    assert_eq!(forward(&arena, p, &vec![("x".to_string(), F(3.0))]), Some(F(9.0)));
}

#[test]
fn sin_and_cos_read_their_operand() {
    let mut arena = Graph::new();
    let x = autodiff::var(&mut arena, "x".to_string());
    let s = autodiff::sin(&mut arena, x);
    let c = autodiff::cos(&mut arena, x);
    arena.set_value(x, F(0.0));
    arena.set_value(s, F(5.0));
    arena.set_value(c, F(5.0));
    NodeData::backward_ad(&mut arena, s, &names(&["x"]));
    NodeData::backward_ad(&mut arena, c, &names(&["x"]));
    assert_eq!(grad(&arena, s, "x"), F(1.0));
    assert_eq!(grad(&arena, c, "x"), F(0.0));
}

#[test]
fn neg_const_and_other_variables() {
    let mut arena = Graph::new();
    let x = autodiff::var(&mut arena, "x".to_string());
    let y = autodiff::var(&mut arena, "y".to_string());
    let k = autodiff::constant(&mut arena, F(7.0));
    let n = autodiff::neg(&mut arena, x);
    let sum = autodiff::add(&mut arena, n, k);
    let total = autodiff::sub(&mut arena, sum, y);
    NodeData::backward_ad(&mut arena, total, &names(&["x", "y", "w"]));
    assert_eq!(grad(&arena, total, "x"), F(-1.0));
    assert_eq!(grad(&arena, total, "y"), F(-1.0));
    assert_eq!(grad(&arena, total, "w"), F(0.0));
    assert_eq!(grad(&arena, k, "x"), F(0.0));
    assert_eq!(arena.gradient_of(total, &"v".to_string()), None);
    let a = vec![("x".to_string(), F(2.0)), ("y".to_string(), F(1.0))];
    assert_eq!(forward(&arena, total, &a), Some(F(4.0)));
}

#[test]
fn division_by_zero_is_not_an_error() {
    let mut arena = Graph::new();
    let x = autodiff::var(&mut arena, "x".to_string());
    let z = autodiff::constant(&mut arena, F(0.0));
    let q = autodiff::div(&mut arena, x, z);
    let v = forward(&arena, q, &vec![("x".to_string(), F(1.0))]).unwrap();
    assert!(v.0.is_infinite());
    arena.set_value(x, F(1.0));
    NodeData::backward_ad(&mut arena, q, &names(&["x"]));
    assert!(grad(&arena, q, "x").0.is_nan());
}

#[test]
fn reset_clears_only_the_subgraph() {
    let mut s = scenario();
    let vars = names(&["x"]);
    NodeData::backward_ad(&mut s.arena, s.add, &vars);
    NodeData::backward_ad(&mut s.arena, s.sub, &vars);
    NodeData::reset_grads(&mut s.arena, s.add);
    assert_eq!(s.arena.gradient_of(s.add, &"x".to_string()), None);
    assert_eq!(s.arena.gradient_of(s.mul, &"x".to_string()), None);
    assert_eq!(s.arena.nodes[s.mul].evals, 0);
    assert!(s.arena.gradient_of(s.sub, &"x".to_string()).is_some());
}

#[test]
fn unreached_nodes_keep_their_gradients() {
    let mut s = scenario();
    s.arena.set_value(s.x, F(8.0));
    s.arena.set_value(s.y, F(4.0));
    NodeData::backward_ad(&mut s.arena, s.add, &names(&["x"]));
    NodeData::backward_ad(&mut s.arena, s.sub, &names(&["y"]));
    assert_eq!(grad(&s.arena, s.add, "x"), F(4.25));
    assert_eq!(s.arena.gradient_of(s.add, &"y".to_string()), None);
    assert_eq!(s.arena.gradient_of(s.mul, &"x".to_string()), None);
    assert_eq!(grad(&s.arena, s.mul, "y"), F(8.0));
}

#[test]
fn first_binding_wins() {
    let a = vec![("x".to_string(), F(1.0)), ("x".to_string(), F(2.0))];
    assert_eq!(lookup_value(&a, &"x".to_string()), Some(F(1.0)));
    assert_eq!(lookup_value(&a, &"y".to_string()), None);
    assert_eq!(lookup_value::<F>(&[], &"x".to_string()), None);
}

#[test]
fn symbolic_forward_and_gradient() {
    let mut arena: Graph<Term> = Graph::new();
    let x = autodiff::var(&mut arena, "x".to_string());
    let c = autodiff::constant(&mut arena, Term::Leaf(2));
    let m = autodiff::mul(&mut arena, x, c);
    let a = vec![("x".to_string(), Term::Leaf(1))];
    assert_eq!(
        forward(&arena, m, &a),
        Some(Term::Times(Box::new(Term::Leaf(1)), Box::new(Term::Leaf(2))))
    );
    arena.set_value(x, Term::Leaf(1));
    arena.set_value(c, Term::Leaf(2));
    NodeData::backward_ad(&mut arena, m, &names(&["x"]));
    let expected = Term::Plus(
        Box::new(Term::Times(Box::new(Term::One), Box::new(Term::Leaf(2)))),
        Box::new(Term::Times(Box::new(Term::Leaf(1)), Box::new(Term::Zero))),
    );
    assert_eq!(arena.gradient_of(m, &"x".to_string()), Some(expected));
}

#[test]
fn term_copy_is_equal() {
    let t = Term::Cos(Box::new(Term::Powf(Box::new(Term::Leaf(3)), Box::new(Term::One))));
    assert_eq!(t.copy_term(), t);
    assert_eq!(t.duplicate(), t);
    assert_eq!(Term::Leaf(4).neg(), Term::Neg(Box::new(Term::Leaf(4))));
}

#[test]
fn back_patched_operand_is_detected() {
    let mut s = scenario();
    assert!(s.arena.is_well_formed());
    s.arena.nodes[s.mul].type_ = NodeType::Mul(s.x, s.add);
    assert!(!s.arena.is_well_formed());
    s.arena.nodes[s.mul].type_ = NodeType::Mul(s.x, s.mul);
    assert!(!s.arena.is_well_formed());
    s.arena.nodes[s.mul].type_ = NodeType::Mul(s.x, s.y);
    assert!(s.arena.is_well_formed());
    assert_eq!(s.arena.len(), 6);
}

#[test]
fn repeated_names_give_one_entry() {
    let mut s = scenario();
    s.arena.set_value(s.x, F(8.0));
    s.arena.set_value(s.y, F(4.0));
    NodeData::backward_ad(&mut s.arena, s.add, &names(&["y", "x", "y", "x"]));
    let entries = s.arena.nodes[s.add].grads.as_ref().unwrap();
    assert_eq!(entries.len(), 2);
    assert_eq!(entries[0], ("y".to_string(), F(7.5)));
    assert_eq!(entries[1], ("x".to_string(), F(4.25)));
    assert_eq!(s.arena.nodes[s.x].grads.as_ref().unwrap().len(), 2);
}

#[test]
fn cycle_is_refused() {
    let mut s = scenario();
    s.arena.nodes[s.mul].type_ = NodeType::Mul(s.x, s.add);
    let before = s.arena.gradient_of(s.add, &"x".to_string());
    assert_eq!(
        s.arena.differentiate(s.add, &names(&["x"])),
        Err(GraphError::StructuralCycle)
    );
    assert_eq!(s.arena.gradient_of(s.add, &"x".to_string()), before);
    assert_eq!(s.arena.nodes[s.add].evals, 0);
}

#[test]
fn checked_differentiate_on_valid_graph() {
    let mut s = scenario();
    s.arena.set_value(s.x, F(8.0));
    s.arena.set_value(s.y, F(4.0));
    assert_eq!(s.arena.differentiate(s.sub, &names(&["x", "y"])), Ok(()));
    assert_eq!(grad(&s.arena, s.sub, "x"), F(3.75));
    assert_eq!(grad(&s.arena, s.sub, "y"), F(8.5));
}

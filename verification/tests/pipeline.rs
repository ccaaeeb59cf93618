use std::collections::HashMap;

use simply_typed_lambda_calculus_compiler::alpha::AlphaConvEnv;
use simply_typed_lambda_calculus_compiler::anf::{ANFConverter, ANFs, HoistedANFs, Value, ANF};
use simply_typed_lambda_calculus_compiler::ast::{Expr, Operator, Variable};
use simply_typed_lambda_calculus_compiler::typeinfer::{Type, TypeInfer};

fn var(name: &str) -> Variable {
    Variable { name: name.to_owned(), id: None }
}

fn vref(name: &str) -> Expr {
    Expr::Var(var(name))
}

fn lam(name: &str, body: Expr) -> Expr {
    Expr::Abs(var(name), Box::new(body))
}

fn app(f: Expr, x: Expr) -> Expr {
    Expr::App(Box::new(f), Box::new(x))
}

fn add(l: Expr, r: Expr) -> Expr {
    Expr::BOp(Operator::Add, Box::new(l), Box::new(r))
}

fn num(n: i64) -> Expr {
    Expr::Number(n)
}

fn vid_of(v: &Variable) -> usize {
    v.id.expect("variable should be resolved")
}

/// `(\x. \y. x + y) 2 3`
fn example_one() -> Expr {
    app(app(lam("x", lam("y", add(vref("x"), vref("y")))), num(2)), num(3))
}

/// `(\f. \x. f x) ((\x. \y. x + y) 2) 3`
fn example_two() -> Expr {
    let adder = lam("x", lam("y", add(vref("x"), vref("y"))));
    let twice = lam("f", lam("x", app(vref("f"), vref("x"))));
    app(app(twice, app(adder, num(2))), num(3))
}

fn run_front(expr: Expr) -> (Expr, usize) {
    let mut env = AlphaConvEnv::new();
    let scoped = env.alpha_conversion(expr).expect("program should be closed");
    (scoped, env.id())
}

fn run_pipeline(expr: Expr) -> HoistedANFs {
    let (scoped, count) = run_front(expr);
    let mut inferencer = TypeInfer::new(count);
    inferencer.type_infer(&scoped).expect("program should be well typed");
    let mut converter = ANFConverter::new(count);
    let mut anfs = ANFs { anfs: Vec::new(), value: None, level: 0 };
    converter.convert(scoped, &mut anfs);
    let closed = converter.closure_conversion(anfs);
    let mut hoisted = HoistedANFs {
        fun_defs: Vec::new(),
        main: ANFs { anfs: Vec::new(), value: None, level: 1 },
    };
    converter.hoisting(closed, &mut hoisted);
    hoisted
}

// --- a tiny conforming evaluator for hoisted programs -----------------------

struct Machine<'a> {
    prog: &'a HoistedANFs,
    heap: Vec<Vec<i64>>,
}

impl<'a> Machine<'a> {
    fn value(&self, v: &Value, env: &HashMap<usize, i64>) -> i64 {
        match v {
            Value::Number(n) => *n,
            Value::Var(x) => *env.get(&vid_of(x)).expect("local should be bound"),
            Value::Global(x) => {
                let id = vid_of(x);
                let idx = self
                    .prog
                    .fun_defs
                    .iter()
                    .position(|(name, _, _)| vid_of(name) == id)
                    .expect("global should be defined");
                idx as i64
            }
        }
    }

    fn body(&mut self, body: &ANFs, env: &mut HashMap<usize, i64>) -> i64 {
        let prog = self.prog;
        for stmt in &body.anfs {
            match stmt {
                ANF::Fun(_, _, _) => panic!("hoisted body should hold no function literal"),
                ANF::App(res, f, args) => {
                    let fptr = *env.get(&vid_of(f)).expect("callee should be bound");
                    let vals: Vec<i64> = args.iter().map(|a| self.value(a, env)).collect();
                    let (_, params, fun_body) = &prog.fun_defs[fptr as usize];
                    let mut inner: HashMap<usize, i64> = HashMap::new();
                    for (p, v) in params.iter().zip(vals.iter()) {
                        inner.insert(vid_of(p), *v);
                    }
                    let r = self.body(fun_body, &mut inner);
                    env.insert(vid_of(res), r);
                }
                ANF::BOp(res, op, l, r) => {
                    let lv = self.value(l, env);
                    let rv = self.value(r, env);
                    let v = match op {
                        Operator::Add => lv + rv,
                        Operator::Sub => lv - rv,
                        Operator::Mul => lv * rv,
                        Operator::Div => lv / rv,
                    };
                    env.insert(vid_of(res), v);
                }
                ANF::Tuple(res, vals) => {
                    let cells: Vec<i64> = vals.iter().map(|v| self.value(v, env)).collect();
                    self.heap.push(cells);
                    env.insert(vid_of(res), (self.heap.len() - 1) as i64);
                }
                ANF::Project(res, tuple, index) => {
                    let ptr = *env.get(&vid_of(tuple)).expect("record should be bound");
                    let v = self.heap[ptr as usize][*index];
                    env.insert(vid_of(res), v);
                }
            }
        }
        let tail = body.value.as_ref().expect("body should end in a value");
        self.value(tail, env)
    }
}

fn evaluate(prog: &HoistedANFs) -> i64 {
    let mut machine = Machine { prog, heap: Vec::new() };
    let mut env = HashMap::new();
    machine.body(&prog.main, &mut env)
}

// --- scope resolution -------------------------------------------------------

#[test]
fn alpha_assigns_every_identity() {
    let (scoped, count) = run_front(example_one());
    assert_eq!(count, 2);
    fn all_resolved(e: &Expr) -> bool {
        match e {
            Expr::Var(v) => v.id.is_some(),
            Expr::Abs(v, b) => v.id.is_some() && all_resolved(b),
            Expr::App(a, b) => all_resolved(a) && all_resolved(b),
            Expr::Number(_) => true,
            Expr::BOp(_, a, b) => all_resolved(a) && all_resolved(b),
        }
    }
    fn binders(e: &Expr, out: &mut Vec<usize>) {
        match e {
            Expr::Var(_) | Expr::Number(_) => {}
            Expr::Abs(v, b) => {
                out.push(v.id.unwrap());
                binders(b, out);
            }
            Expr::App(a, b) | Expr::BOp(_, a, b) => {
                binders(a, out);
                binders(b, out);
            }
        }
    }
    assert!(all_resolved(&scoped));
    let mut ids = Vec::new();
    binders(&scoped, &mut ids);
    ids.sort();
    ids.dedup();
    assert_eq!(ids.len(), 2);
}

#[test]
fn alpha_shadowing_resolves_to_innermost() {
    // \x. \x. x
    let expr = lam("x", lam("x", vref("x")));
    let (scoped, count) = run_front(expr);
    assert_eq!(count, 2);
    match scoped {
        Expr::Abs(outer, body) => {
            assert_eq!(outer.id, Some(0));
            match *body {
                Expr::Abs(inner, innermost) => {
                    assert_eq!(inner.id, Some(1));
                    match *innermost {
                        Expr::Var(r) => assert_eq!(r.id, Some(1)),
                        _ => panic!("expected a reference"),
                    }
                }
                _ => panic!("expected the inner abstraction"),
            }
        }
        _ => panic!("expected the outer abstraction"),
    }
}

#[test]
fn alpha_rejects_unbound_reference() {
    let mut env = AlphaConvEnv::new();
    assert_eq!(env.alpha_conversion(vref("z")), None);
    let mut env2 = AlphaConvEnv::new();
    assert_eq!(env2.alpha_conversion(lam("x", vref("z"))), None);
}

// --- unification and inference ----------------------------------------------

#[test]
fn unify_int_with_int_succeeds() {
    let mut ti = TypeInfer::new(0);
    assert!(ti.unify(&Type::Int, &Type::Int));
    // and writes nothing: a fresh table stays fully unresolved
    let mut ti2 = TypeInfer::new(3);
    assert!(ti2.unify(&Type::Int, &Type::Int));
    assert_eq!(ti2.slots, vec![None, None, None]);
}

#[test]
fn unify_binds_a_type_variable_inside_an_arrow() {
    let mut ti = TypeInfer::new(1);
    let lhs = Type::Arrow(Box::new(Type::Int), Box::new(Type::Int));
    let rhs = Type::Arrow(Box::new(Type::TVar(0)), Box::new(Type::Int));
    assert!(ti.unify(&lhs, &rhs));
    assert_eq!(Type::TVar(0).simplify(&ti), Type::Int);
    assert_eq!(ti.slots, vec![Some(Type::Int)]);
}

#[test]
fn unify_rejects_a_self_referential_binding() {
    // t against t -> Int would need the infinite type t = t -> Int
    let mut ti = TypeInfer::new(1);
    let recursive = Type::Arrow(Box::new(Type::TVar(0)), Box::new(Type::Int));
    assert!(!ti.unify(&Type::TVar(0), &recursive));
}

#[test]
fn unify_int_with_arrow_fails() {
    let mut ti = TypeInfer::new(0);
    let arrow = Type::Arrow(Box::new(Type::Int), Box::new(Type::Int));
    assert!(!ti.unify(&Type::Int, &arrow));
}

#[test]
fn identity_function_infers_arrow_on_one_variable() {
    let (scoped, count) = run_front(lam("x", vref("x")));
    let mut ti = TypeInfer::new(count);
    let t = ti.type_infer(&scoped).expect("the identity function is well typed");
    match t {
        Type::Arrow(d, c) => {
            match (*d, *c) {
                (Type::TVar(a), Type::TVar(b)) => assert_eq!(a, b),
                other => panic!("expected the same type variable on both sides, got {:?}", other),
            }
        }
        other => panic!("expected an arrow, got {:?}", other),
    }
}

#[test]
fn example_one_infers_int() {
    let (scoped, count) = run_front(example_one());
    let mut ti = TypeInfer::new(count);
    let t = ti.type_infer(&scoped).expect("example one is well typed");
    assert_eq!(t.simplify(&ti), Type::Int);
}

#[test]
fn example_two_infers_int() {
    let (scoped, count) = run_front(example_two());
    let mut ti = TypeInfer::new(count);
    let t = ti.type_infer(&scoped).expect("example two is well typed");
    assert_eq!(t.simplify(&ti), Type::Int);
}

#[test]
fn self_application_is_rejected_by_the_occurs_check() {
    // \x. x x would need the infinite type t = t -> r
    let (scoped, count) = run_front(lam("x", app(vref("x"), vref("x"))));
    let mut ti = TypeInfer::new(count);
    assert_eq!(ti.type_infer(&scoped), None);
}

#[test]
fn applying_a_literal_is_a_type_mismatch() {
    let (scoped, count) = run_front(app(lam("x", vref("x")), num(1)));
    let mut ti = TypeInfer::new(count);
    assert!(ti.type_infer(&scoped).is_some());
    let (scoped2, count2) = run_front(add(num(1), lam("x", vref("x"))));
    let mut ti2 = TypeInfer::new(count2);
    assert_eq!(ti2.type_infer(&scoped2), None);
}

// --- linearization ----------------------------------------------------------

#[test]
fn convert_emits_one_function_for_a_lambda() {
    let (scoped, count) = run_front(lam("x", vref("x")));
    let mut converter = ANFConverter::new(count);
    let mut anfs = ANFs { anfs: Vec::new(), value: None, level: 0 };
    converter.convert(scoped, &mut anfs);
    assert_eq!(anfs.anfs.len(), 1);
    match &anfs.anfs[0] {
        ANF::Fun(name, params, body) => {
            assert_eq!(name.id, Some(1));
            assert_eq!(params.len(), 1);
            assert_eq!(params[0].id, Some(0));
            assert_eq!(body.value, Some(Value::Var(Variable { name: "x".to_owned(), id: Some(0) })));
            assert_eq!(body.level, 1);
        }
        other => panic!("expected a function literal, got {:?}", other),
    }
    match &anfs.value {
        Some(Value::Var(v)) => assert_eq!(v.id, Some(1)),
        other => panic!("expected the function's name as tail, got {:?}", other),
    }
}

fn collect_targets(body: &ANFs, out: &mut Vec<usize>) {
    for stmt in &body.anfs {
        match stmt {
            ANF::Fun(v, _, inner) => {
                out.push(vid_of(v));
                collect_targets(inner, out);
            }
            ANF::App(v, _, _)
            | ANF::BOp(v, _, _, _)
            | ANF::Tuple(v, _)
            | ANF::Project(v, _, _) => out.push(vid_of(v)),
        }
    }
}

#[test]
fn convert_binds_every_name_exactly_once() {
    let (scoped, count) = run_front(example_two());
    let mut converter = ANFConverter::new(count);
    let mut anfs = ANFs { anfs: Vec::new(), value: None, level: 0 };
    converter.convert(scoped, &mut anfs);
    let mut targets = Vec::new();
    collect_targets(&anfs, &mut targets);
    let total = targets.len();
    targets.sort();
    targets.dedup();
    assert_eq!(targets.len(), total, "some name was bound twice");
}

// --- closure conversion and hoisting ----------------------------------------

/// The free variables of a statement list: references to anything neither
/// bound before them in the list nor handed in from outside.
fn check_closed(body: &ANFs, mut bound: Vec<usize>) {
    fn check_value(v: &Value, bound: &[usize]) {
        if let Value::Var(x) = v {
            assert!(bound.contains(&vid_of(x)), "free reference to identity {}", vid_of(x));
        }
    }
    for stmt in &body.anfs {
        match stmt {
            ANF::Fun(v, params, inner) => {
                bound.push(vid_of(v));
                let mut inner_bound: Vec<usize> = params.iter().map(vid_of).collect();
                inner_bound.push(vid_of(v));
                check_closed(inner, inner_bound);
            }
            ANF::App(v, f, args) => {
                bound.push(vid_of(v));
                assert!(bound.contains(&vid_of(f)));
                for a in args {
                    check_value(a, &bound);
                }
            }
            ANF::BOp(v, _, a, b) => {
                bound.push(vid_of(v));
                check_value(a, &bound);
                check_value(b, &bound);
            }
            ANF::Tuple(v, vs) => {
                bound.push(vid_of(v));
                for a in vs {
                    check_value(a, &bound);
                }
            }
            ANF::Project(v, t, _) => {
                bound.push(vid_of(v));
                assert!(bound.contains(&vid_of(t)));
            }
        }
    }
    if let Some(v) = &body.value {
        check_value(v, &bound);
    }
}

#[test]
fn hoisted_functions_are_closed() {
    let hoisted = run_pipeline(example_two());
    for (_, params, body) in &hoisted.fun_defs {
        check_closed(body, params.iter().map(vid_of).collect());
    }
    check_closed(&hoisted.main, Vec::new());
}

#[test]
fn hoisted_program_holds_no_function_literal() {
    let hoisted = run_pipeline(example_two());
    fn flat(body: &ANFs) -> bool {
        body.anfs.iter().all(|s| !matches!(s, ANF::Fun(_, _, _)))
    }
    assert!(flat(&hoisted.main));
    for (_, _, body) in &hoisted.fun_defs {
        assert!(flat(body));
    }
    assert!(!hoisted.fun_defs.is_empty());
}

#[test]
fn closure_captures_only_the_outer_variable() {
    // \x. \y. x + y: the inner function captures x and nothing else.
    let (scoped, count) = run_front(lam("x", lam("y", add(vref("x"), vref("y")))));
    let mut converter = ANFConverter::new(count);
    let mut anfs = ANFs { anfs: Vec::new(), value: None, level: 0 };
    converter.convert(scoped, &mut anfs);
    let closed = converter.closure_conversion(anfs);
    // the outer lifted function ends in a closure record holding exactly
    // one captured value: x
    match &closed.anfs[0] {
        ANF::Fun(_, _, outer_body) => {
            let tuple = outer_body
                .anfs
                .iter()
                .find_map(|s| match s {
                    ANF::Tuple(_, vs) => Some(vs),
                    _ => None,
                })
                .expect("the inner lambda should leave a closure record");
            assert_eq!(tuple.len(), 2, "one code pointer and one captured variable");
            assert!(matches!(tuple[0], Value::Global(_)));
            match &tuple[1] {
                Value::Var(x) => assert_eq!(x.id, Some(0), "the captured variable is x"),
                other => panic!("expected a captured variable, got {:?}", other),
            }
        }
        other => panic!("expected the outer lifted function first, got {:?}", other),
    }
}

#[test]
fn hoisting_below_top_level_feeds_no_main() {
    let mut converter = ANFConverter::new(10);
    let not_top = ANFs {
        anfs: vec![ANF::BOp(
            Variable { name: "z".to_owned(), id: Some(3) },
            Operator::Add,
            Value::Number(1),
            Value::Number(2),
        )],
        value: Some(Value::Number(0)),
        level: 2,
    };
    let mut hoisted = HoistedANFs {
        fun_defs: Vec::new(),
        main: ANFs { anfs: Vec::new(), value: None, level: 1 },
    };
    converter.hoisting(not_top, &mut hoisted);
    assert!(hoisted.fun_defs.is_empty());
    assert!(hoisted.main.anfs.is_empty());
    assert_eq!(hoisted.main.value, None);
}

// --- end to end ---------------------------------------------------------------

#[test]
fn example_one_evaluates_to_five() {
    let hoisted = run_pipeline(example_one());
    assert_eq!(evaluate(&hoisted), 5);
}

#[test]
fn example_two_evaluates_to_five() {
    let hoisted = run_pipeline(example_two());
    assert_eq!(evaluate(&hoisted), 5);
}

#[test]
fn subtraction_and_division_evaluate() {
    // (\x. x - 1) 10 => 9 and (\x. x / 3) 9 => 3
    let minus = app(
        lam("x", Expr::BOp(Operator::Sub, Box::new(vref("x")), Box::new(num(1)))),
        num(10),
    );
    assert_eq!(evaluate(&run_pipeline(minus)), 9);
    let divide = app(
        lam("x", Expr::BOp(Operator::Div, Box::new(vref("x")), Box::new(num(3)))),
        num(9),
    );
    assert_eq!(evaluate(&run_pipeline(divide)), 3);
    let times = app(
        lam("x", Expr::BOp(Operator::Mul, Box::new(vref("x")), Box::new(num(7)))),
        num(6),
    );
    assert_eq!(evaluate(&run_pipeline(times)), 42);
}

#[test]
fn get_type_reads_back_resolved_types() {
    let (scoped, count) = run_front(example_one());
    let mut ti = TypeInfer::new(count);
    ti.type_infer(&scoped).expect("well typed");
    assert_eq!(Type::get_type(&ti, &scoped), Some(Type::Int));

    let (identity, count2) = run_front(lam("x", vref("x")));
    let mut ti2 = TypeInfer::new(count2);
    ti2.type_infer(&identity).expect("well typed");
    match Type::get_type(&ti2, &identity) {
        Some(Type::Arrow(d, c)) => assert_eq!(*d, *c),
        other => panic!("expected an arrow type, got {:?}", other),
    }
    // an unresolved tree reads back nothing
    assert_eq!(Type::get_type(&ti2, &vref("x")), None);
}

#[test]
fn repeated_capture_is_recorded_once() {
    // \x. \y. x + x: the inner body reads x twice; the closure record still
    // captures it once and the lifted body projects it once.
    let (scoped, count) = run_front(lam("x", lam("y", add(vref("x"), vref("x")))));
    let mut converter = ANFConverter::new(count);
    let mut anfs = ANFs { anfs: Vec::new(), value: None, level: 0 };
    converter.convert(scoped, &mut anfs);
    let closed = converter.closure_conversion(anfs);
    match &closed.anfs[0] {
        ANF::Fun(_, _, outer_body) => {
            let tuple = outer_body
                .anfs
                .iter()
                .find_map(|s| match s {
                    ANF::Tuple(_, vs) => Some(vs),
                    _ => None,
                })
                .expect("the inner lambda should leave a closure record");
            assert_eq!(tuple.len(), 2, "one code pointer and one capture slot for x");
            let inner = outer_body
                .anfs
                .iter()
                .find_map(|s| match s {
                    ANF::Fun(_, _, b) => Some(b),
                    _ => None,
                })
                .expect("the lifted inner function");
            let projections =
                inner.anfs.iter().filter(|s| matches!(s, ANF::Project(_, _, _))).count();
            assert_eq!(projections, 1, "x is re-bound exactly once");
        }
        other => panic!("expected the outer lifted function first, got {:?}", other),
    }
    // and the rewritten program still computes x + x
    let doubled = app(app(lam("x", lam("y", add(vref("x"), vref("x")))), num(4)), num(9));
    assert_eq!(evaluate(&run_pipeline(doubled)), 8);
}

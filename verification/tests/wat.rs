use simply_typed_lambda_calculus_compiler::alpha::AlphaConvEnv;
use simply_typed_lambda_calculus_compiler::anf::{ANFConverter, ANFs, HoistedANFs, Value, ANF};
use simply_typed_lambda_calculus_compiler::ast::{
    i64_to_string, usize_to_string, Expr, Operator, Variable,
};
use simply_typed_lambda_calculus_compiler::typeinfer::TypeInfer;
use simply_typed_lambda_calculus_compiler::wasm_compile::WasmCompiler;

#[test]
fn numbers_render_in_decimal() {
    assert_eq!(usize_to_string(0).as_str(), "0");
    assert_eq!(usize_to_string(7).as_str(), "7");
    assert_eq!(usize_to_string(12345).as_str(), "12345");
    assert_eq!(usize_to_string(1080).as_str(), "1080");
    assert_eq!(i64_to_string(0).as_str(), "0");
    assert_eq!(i64_to_string(-17).as_str(), "-17");
    assert_eq!(i64_to_string(9000).as_str(), "9000");
    assert_eq!(i64_to_string(i64::MIN).as_str(), "-9223372036854775808");
}

#[test]
fn variables_render_with_their_identity() {
    let resolved = Variable { name: "x".to_owned(), id: Some(3) };
    assert_eq!(resolved.to_text().as_str(), "x_3");
    let bare = Variable { name: "y".to_owned(), id: None };
    assert_eq!(bare.to_text().as_str(), "y");
}

#[test]
fn empty_program_compiles_to_the_bare_module() {
    let hoisted = HoistedANFs {
        fun_defs: Vec::new(),
        main: ANFs { anfs: Vec::new(), value: Some(Value::Number(42)), level: 1 },
    };
    let mut compiler = WasmCompiler::new();
    compiler.compile(hoisted);
    let expected = "(module\n\
                    (memory 1)\n\
                    (global $stack_pointer (mut i32) (i32.const 0))\n\
                    (table 0 funcref)\n\
                    (elem (i32.const 0))\n\
                    (type $t (func (param i32 i32) (result i32)))\n\
                    (func $_start (result i32)\n\
                    \n\
                    i32.const 42\n\
                    )\n\
                    (export \"_start\" (func $_start))\n\
                    )\n";
    assert_eq!(compiler.program.as_str(), expected);
}

#[test]
fn one_function_compiles_with_params_locals_and_table() {
    // one top-level function: f_7(a_1) = let z_2 = a_1 + 1 in z_2,
    // and a main calling nothing.
    let f = Variable { name: "f".to_owned(), id: Some(7) };
    let a = Variable { name: "a".to_owned(), id: Some(1) };
    let z = Variable { name: "z".to_owned(), id: Some(2) };
    let body = ANFs {
        anfs: vec![ANF::BOp(
            z.clone(),
            Operator::Add,
            Value::Var(a.clone()),
            Value::Number(1),
        )],
        value: Some(Value::Var(z.clone())),
        level: 1,
    };
    let hoisted = HoistedANFs {
        fun_defs: vec![(f.clone(), vec![a.clone()], body)],
        main: ANFs { anfs: Vec::new(), value: Some(Value::Global(f.clone())), level: 1 },
    };
    let mut compiler = WasmCompiler::new();
    compiler.compile(hoisted);
    let text = compiler.program.as_str();
    assert!(text.contains("(table 1 funcref)\n"));
    assert!(text.contains("(elem (i32.const 0) $f_7)\n"));
    assert!(text.contains("(func $f_7 (param $a_1 i32) (result i32)\n"));
    assert!(text.contains("(local $z_2 i32) \n"));
    assert!(text.contains("local.get $a_1\ni32.const 1\ni32.add\nlocal.set $z_2\n"));
    // the main body refers to f through its table index
    assert!(text.contains("(func $_start (result i32)\n\ni32.const 0\n)\n"));
    assert_eq!(compiler.fun_table.len(), 1);
    assert_eq!(compiler.fun_table[0], (7, 0));
}

#[test]
fn a_whole_pipeline_program_compiles_to_text() {
    // (\x. \y. x + y) 2 3
    let expr = Expr::App(
        Box::new(Expr::App(
            Box::new(Expr::Abs(
                Variable { name: "x".to_owned(), id: None },
                Box::new(Expr::Abs(
                    Variable { name: "y".to_owned(), id: None },
                    Box::new(Expr::BOp(
                        Operator::Add,
                        Box::new(Expr::Var(Variable { name: "x".to_owned(), id: None })),
                        Box::new(Expr::Var(Variable { name: "y".to_owned(), id: None })),
                    )),
                )),
            )),
            Box::new(Expr::Number(2)),
        )),
        Box::new(Expr::Number(3)),
    );
    let mut env = AlphaConvEnv::new();
    let scoped = env.alpha_conversion(expr).expect("closed");
    let mut ti = TypeInfer::new(env.id());
    ti.type_infer(&scoped).expect("well typed");
    let mut converter = ANFConverter::new(env.id());
    let mut anfs = ANFs { anfs: Vec::new(), value: None, level: 0 };
    converter.convert(scoped, &mut anfs);
    let closed = converter.closure_conversion(anfs);
    let mut hoisted = HoistedANFs {
        fun_defs: Vec::new(),
        main: ANFs { anfs: Vec::new(), value: None, level: 1 },
    };
    converter.hoisting(closed, &mut hoisted);
    let defs = hoisted.fun_defs.len();
    assert_eq!(defs, 2, "two lifted functions");
    let mut compiler = WasmCompiler::new();
    compiler.compile(hoisted);
    let text = compiler.program.as_str();
    assert!(text.starts_with("(module\n"));
    assert!(text.ends_with("(export \"_start\" (func $_start))\n)\n"));
    assert!(text.contains("(table 2 funcref)\n"));
    assert!(text.contains("call_indirect"));
    assert!(text.contains("i32.store offset=0\n"));
    assert_eq!(compiler.fun_table.len(), defs);
}

#[test]
fn bodies_render_in_the_let_form() {
    let a = Variable { name: "a".to_owned(), id: Some(1) };
    let z = Variable { name: "z".to_owned(), id: Some(2) };
    let body = ANFs {
        anfs: vec![ANF::BOp(
            z.clone(),
            Operator::Add,
            Value::Var(a.clone()),
            Value::Number(1),
        )],
        value: Some(Value::Var(z.clone())),
        level: 1,
    };
    assert_eq!(body.to_text().as_str(), "\n  let z_2 = a_1 + 1 in\n  z_2");

    let empty_main = ANFs { anfs: Vec::new(), value: None, level: 1 };
    assert_eq!(empty_main.to_text().as_str(), "  return ()");

    let f = Variable { name: "f".to_owned(), id: Some(7) };
    let prog = HoistedANFs {
        fun_defs: vec![(f.clone(), vec![a.clone()], body)],
        main: ANFs {
            anfs: vec![ANF::Tuple(
                z.clone(),
                vec![Value::Global(f.clone()), Value::Number(3)],
            )],
            value: Some(Value::Var(z.clone())),
            level: 1,
        },
    };
    assert_eq!(
        prog.to_text().as_str(),
        "let f_7(a_1) =\n  let z_2 = a_1 + 1 in\n  z_2\n\n\
         let main() =\n  let z_2 = (@f_7, 3) in\n  z_2"
    );
}

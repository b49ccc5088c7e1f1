use compilation_project::minifun::ast::{BinOp, Term};
use compilation_project::minifun::eval::{eval, EvalError};
use compilation_project::minifun::inference::{
    apply_subst_mono, gener, inst, typecheck as infer_type, unify, InferError, MonoType, PolyType, Substitution,
    TypeEnvironment, TypeVarGenerator,
};
use compilation_project::minifun::lexer::lex as lex_fun;
use compilation_project::minifun::parser::{parse_term, Expected, SyntaxError};
use compilation_project::minifun::runtime::{empty_env, Value};
use compilation_project::minifun::typecheck::{typecheck, TypeError};
use compilation_project::minifun::types::{empty_type_env, Type};
use compilation_project::miniimp::ast::{AExpr, BExpr, Command, Program};
use compilation_project::miniimp::cfg::{program_to_cfg, ControlFlowGraph, SimpleStatement};
use compilation_project::miniimp::dataflow::{
    live_variables_analysis, reaching_definitions_analysis, Definition,
};
use compilation_project::miniimp::pretty::{aexpr_to_string, statement_to_string};
use compilation_project::miniimp::eval::eval_program;
use compilation_project::miniimp::lexer::lex;
use compilation_project::miniimp::optimizations::{
    check_undefined_variables, constant_folding, constant_propagation, dead_store_elimination, OptimizationPass,
    OptimizationPipeline, UndefinedVariable,
};
use compilation_project::miniimp::parser::parse_program;
use compilation_project::miniimp::runtime::{Memory, RuntimeError};
use compilation_project::text::LexError;

fn lit(value: i32) -> Box<AExpr> {
    Box::new(AExpr::Int(value))
}

fn var(name: &str) -> Box<AExpr> {
    Box::new(AExpr::Var(name.to_string()))
}

fn tvar(name: &str) -> MonoType {
    MonoType::Var(name.to_string())
}

#[test]
fn folding_leaves_an_overflowing_sum_alone() {
    let program = Program {
        input: "x".to_string(),
        output: "y".to_string(),
        body: Command::Assign("y".to_string(), AExpr::Add(lit(i32::MAX), lit(1))),
    };
    let mut cfg = program_to_cfg(&program);
    assert!(!constant_folding(&mut cfg));
    assert!(matches!(
        &cfg.blocks()[cfg.entry].statement,
        SimpleStatement::Assign(_, AExpr::Add(_, _))
    ));
    assert_eq!(eval_program(&program, 0), Err(RuntimeError::ArithmeticOverflow));
}

#[test]
fn folding_keeps_the_value_of_an_expression() {
    let body = Command::Assign(
        "y".to_string(),
        AExpr::Sub(Box::new(AExpr::Mul(lit(6), lit(7))), Box::new(AExpr::Add(var("x"), lit(0)))),
    );
    let program = Program { input: "x".to_string(), output: "y".to_string(), body };
    let mut cfg = program_to_cfg(&program);
    assert!(constant_folding(&mut cfg));
    match &cfg.blocks()[cfg.entry].statement {
        SimpleStatement::Assign(_, AExpr::Sub(left, _)) => assert!(matches!(left.as_ref(), AExpr::Int(42))),
        other => panic!("unexpected statement {:?}", other),
    }
    assert_eq!(eval_program(&program, 2).unwrap(), 40);
}

#[test]
fn folding_a_false_conjunct_drops_the_other_one() {
    let program = Program {
        input: "x".to_string(),
        output: "x".to_string(),
        body: Command::While(
            BExpr::And(Box::new(BExpr::Less(var("y"), lit(0))), Box::new(BExpr::False)),
            Box::new(Command::Skip),
        ),
    };
    let mut cfg = program_to_cfg(&program);
    assert!(constant_folding(&mut cfg));
    assert!(matches!(&cfg.blocks()[cfg.entry].statement, SimpleStatement::Guard(BExpr::False)));
}

#[test]
fn unassigned_output_is_reported_at_the_exit() {
    let program = Program {
        input: "x".to_string(),
        output: "z".to_string(),
        body: Command::Assign("y".to_string(), AExpr::Var("x".to_string())),
    };
    let cfg = program_to_cfg(&program);
    let errors = check_undefined_variables(&cfg).unwrap_err();
    assert_eq!(errors.len(), 1);
    assert_eq!(errors[0].variable, "z");
    assert_eq!(errors[0].block, cfg.exit);
}

#[test]
fn default_pipeline_counts_rounds_and_changes() {
    let program = Program {
        input: "input".to_string(),
        output: "out".to_string(),
        body: Command::Sequence(
            Box::new(Command::Assign("x".to_string(), AExpr::Int(2))),
            Box::new(Command::Sequence(
                Box::new(Command::Assign("y".to_string(), AExpr::Add(var("x"), lit(3)))),
                Box::new(Command::Assign("out".to_string(), AExpr::Var("y".to_string()))),
            )),
        ),
    };
    let mut cfg = program_to_cfg(&program);
    let pipeline = OptimizationPipeline::default();
    assert_eq!(pipeline.maximum_rounds, 20);
    assert_eq!(
        pipeline.passes,
        vec![
            OptimizationPass::ConstantPropagation,
            OptimizationPass::ConstantFolding,
            OptimizationPass::DeadStoreElimination,
        ]
    );
    let result = pipeline.run(&mut cfg);
    assert_eq!(result.rounds, 3);
    assert_eq!(result.changed_passes, 5);
    assert!(result.reached_fixed_point);
}

#[test]
fn pipeline_without_rounds_does_nothing() {
    let program = Program {
        input: "x".to_string(),
        output: "x".to_string(),
        body: Command::Assign("x".to_string(), AExpr::Add(lit(1), lit(2))),
    };
    let mut cfg = program_to_cfg(&program);
    let pipeline = OptimizationPipeline { passes: vec![OptimizationPass::ConstantFolding], maximum_rounds: 0 };
    let result = pipeline.run(&mut cfg);
    assert_eq!(result.rounds, 0);
    assert_eq!(result.changed_passes, 0);
    assert!(!result.reached_fixed_point);
}

#[test]
fn pass_names() {
    assert_eq!(OptimizationPass::ConstantPropagation.name(), "constant propagation");
    assert_eq!(OptimizationPass::ConstantFolding.name(), "constant folding");
    assert_eq!(OptimizationPass::DeadStoreElimination.name(), "dead-store elimination");
}

#[test]
fn lexer_errors() {
    assert_eq!(lex("x & y"), Err(LexError::ExpectedCharacter { position: 2, expected: '&' }));
    assert_eq!(lex("x := 1 # 2"), Err(LexError::UnexpectedCharacter { position: 7, character: '#' }));
    assert_eq!(lex("x := 99999999999"), Err(LexError::IntegerOutOfRange { position: 5 }));
    assert_eq!(lex("x : y"), Err(LexError::ExpectedCharacter { position: 2, expected: '=' }));
    assert_eq!(lex_fun("1 & 2"), Err(LexError::ExpectedCharacter { position: 2, expected: '&' }));
}

#[test]
fn comments_and_largest_integer() {
    let tokens = lex("// nothing here\n2147483647").unwrap();
    assert_eq!(tokens.len(), 2);
    assert_eq!(tokens[0], compilation_project::miniimp::lexer::Token::Integer(i32::MAX));
}

#[test]
fn memory_keeps_the_last_value() {
    let mut memory = Memory::new();
    memory.set("x".to_string(), 1);
    memory.set("x".to_string(), 2);
    assert_eq!(memory.get("x"), Ok(2));
    assert_eq!(memory.get("y"), Err(RuntimeError::UndefinedVariable("y".to_string())));
    assert_eq!(memory.all().len(), 1);
}

#[test]
fn program_reads_undefined_variable() {
    let program = parse_program("input x; output y; y := z;").unwrap();
    assert_eq!(eval_program(&program, 1), Err(RuntimeError::UndefinedVariable("z".to_string())));
}

#[test]
fn minifun_parse_error_names_what_was_expected() {
    match parse_term("let = 1 in 2") {
        Err(SyntaxError::Parse(error)) => assert_eq!(error.expected, Expected::Identifier),
        other => panic!("unexpected result {:?}", other),
    }
}

#[test]
fn minifun_evaluation_errors() {
    let overflow = parse_term("2147483647 + 1").unwrap();
    assert_eq!(eval(&overflow, &mut empty_env()).err(), Some(EvalError::ArithmeticOverflow));
    let not_function = parse_term("1 2").unwrap();
    assert_eq!(eval(&not_function, &mut empty_env()).err(), Some(EvalError::NotAFunction));
    let bad_operands = Term::BinOp(Box::new(Term::Int(1)), BinOp::And, Box::new(Term::Bool(true)));
    assert_eq!(eval(&bad_operands, &mut empty_env()).err(), Some(EvalError::InvalidOperands));
    let unknown = parse_term("q").unwrap();
    assert_eq!(eval(&unknown, &mut empty_env()).err(), Some(EvalError::UndefinedVariable("q".to_string())));
}

#[test]
fn minifun_closure_captures_its_environment() {
    let term = parse_term("let k = 3 in let add = fun (x: Int) -> x + k in let k = 100 in add 4").unwrap();
    assert!(matches!(eval(&term, &mut empty_env()), Ok(Value::Int(7))));
}

#[test]
fn annotated_typecheck_errors() {
    let term = parse_term("1 + true").unwrap();
    assert_eq!(
        typecheck(&term, &mut empty_type_env()),
        Err(TypeError::OperandMismatch { op: BinOp::Add, left: Type::Int, right: Type::Bool })
    );
    let branches = parse_term("if true then 1 else false").unwrap();
    assert_eq!(
        typecheck(&branches, &mut empty_type_env()),
        Err(TypeError::BranchMismatch { then_type: Type::Int, else_type: Type::Bool })
    );
    let function = parse_term("fun (f: Int -> Bool) -> f 3").unwrap();
    assert_eq!(
        typecheck(&function, &mut empty_type_env()),
        Ok(Type::Fun(
            Box::new(Type::Fun(Box::new(Type::Int), Box::new(Type::Bool))),
            Box::new(Type::Bool)
        ))
    );
}

#[test]
fn identity_gets_a_type_variable() {
    let term = parse_term("fun (x: Int) -> x").unwrap();
    assert_eq!(infer_type(&term), Ok(MonoType::Fun(Box::new(tvar("a0")), Box::new(tvar("a0")))));
}

#[test]
fn inference_errors() {
    assert_eq!(infer_type(&parse_term("q").unwrap()), Err(InferError::UnboundVariable("q".to_string())));
    assert_eq!(
        infer_type(&parse_term("1 + true").unwrap()),
        Err(InferError::Mismatch { left: MonoType::Bool, right: MonoType::Int })
    );
    assert!(matches!(
        infer_type(&parse_term("fun (x: Int) -> x x").unwrap()),
        Err(InferError::OccursCheck { .. })
    ));
}

#[test]
fn unify_binds_and_checks_occurrence() {
    let s = unify(&tvar("a"), &MonoType::Int).unwrap();
    assert_eq!(s.get("a"), Some(&MonoType::Int));
    let same = unify(&tvar("a"), &tvar("a")).unwrap();
    assert!(same.get("a").is_none());
    let looped = unify(&tvar("a"), &MonoType::Fun(Box::new(tvar("a")), Box::new(MonoType::Int)));
    assert!(matches!(looped, Err(InferError::OccursCheck { .. })));
    assert!(matches!(unify(&MonoType::Int, &MonoType::Bool), Err(InferError::Mismatch { .. })));
}

#[test]
fn fresh_variables_are_numbered() {
    let mut generator = TypeVarGenerator::new();
    for _ in 0..10 {
        generator.fresh();
    }
    assert_eq!(generator.fresh(), tvar("a10"));
    assert_eq!(generator.fresh(), tvar("a11"));
}

#[test]
fn generalization_binds_variables_in_order_of_occurrence() {
    let env = TypeEnvironment::new();
    let ty = MonoType::Fun(Box::new(tvar("b")), Box::new(MonoType::Fun(Box::new(tvar("a")), Box::new(tvar("b")))));
    let scheme = gener(&env, &ty);
    assert_eq!(scheme.vars, vec!["b".to_string(), "a".to_string()]);
}

#[test]
fn dot_and_listing_of_a_small_graph() {
    let program = parse_program("input x; output y; y := x;").unwrap();
    let cfg = ControlFlowGraph::from_program(&program);
    assert_eq!(
        cfg.to_dot(),
        "digraph CFG {\n  node [shape=box];\n  B0 [label=\"B0: skip\\n(exit)\"];\n  B1 [label=\"B1: y := x\\n(entry)\"];\n  B1 -> B0;\n}\n"
    );
    assert_eq!(cfg.listing(), "CFG(input: x, output: y, entry: B1, exit: B0)\nB0: skip -> end\nB1: y := x -> B0\n");
}

#[test]
fn dot_of_a_branch_with_annotations() {
    let program = parse_program("input x; output x; if x < 1 then x := 2 else skip").unwrap();
    let cfg = program_to_cfg(&program);
    let live = live_variables_analysis(&cfg);
    let texts: Vec<String> = (0..live.blocks().len()).map(|i| format!("say \"{}\"", i)).collect();
    let dot = live.to_dot_with(&texts);
    assert!(dot.contains("[label=\"true\"]"));
    assert!(dot.contains("[label=\"false\"]"));
    assert!(dot.contains("\\nsay \\\"0\\\"\\n(exit)"));
}

#[test]
fn statements_and_reports_as_text() {
    let guard = SimpleStatement::Guard(BExpr::Not(Box::new(BExpr::Less(lit(-5), var("x")))));
    assert_eq!(statement_to_string(&guard), "guard !((-5 < x))");
    assert_eq!(aexpr_to_string(&AExpr::Int(i32::MIN)), "-2147483648");
    let report = UndefinedVariable { variable: "z".to_string(), block: 12 };
    assert_eq!(report.message(), "variable 'z' may be undefined before block B12");
    assert_eq!(Definition::Input("x".to_string()).text(), "x@input");
    assert_eq!(Definition::Assignment { variable: "y".to_string(), block: 3 }.text(), "y@B3");
}

#[test]
fn well_typed_terms_evaluate_to_values_of_their_type() {
    let term = parse_term(
        "let twice = fun (f: Int -> Int) -> fun (x: Int) -> f (f x) in twice (fun (y: Int) -> y * 3) 2",
    )
    .unwrap();
    assert_eq!(typecheck(&term, &mut empty_type_env()), Ok(Type::Int));
    assert!(matches!(eval(&term, &mut empty_env()), Ok(Value::Int(18))));
    let negation = parse_term("fun (b: Bool) -> not b").unwrap();
    assert_eq!(
        typecheck(&negation, &mut empty_type_env()),
        Ok(Type::Fun(Box::new(Type::Bool), Box::new(Type::Bool)))
    );
    assert!(matches!(eval(&negation, &mut empty_env()), Ok(Value::Closure { .. })));
}

#[test]
fn unification_result_is_absorbed_by_another_unifier() {
    let left = MonoType::Fun(Box::new(tvar("a")), Box::new(MonoType::Int));
    let right = MonoType::Fun(Box::new(MonoType::Bool), Box::new(tvar("b")));
    let s = unify(&left, &right).unwrap();
    assert_eq!(s.get("a"), Some(&MonoType::Bool));
    assert_eq!(s.get("b"), Some(&MonoType::Int));
    let both = MonoType::Fun(Box::new(MonoType::Bool), Box::new(MonoType::Int));
    assert_eq!(apply_subst_mono(&s, &left), both);
    assert_eq!(apply_subst_mono(&s, &right), both);
    let mut other = Substitution::new();
    other.insert("a".to_string(), MonoType::Bool);
    other.insert("b".to_string(), MonoType::Int);
    other.insert("c".to_string(), MonoType::Bool);
    let probe = MonoType::Fun(Box::new(tvar("a")), Box::new(tvar("c")));
    assert_eq!(
        apply_subst_mono(&other, &apply_subst_mono(&s, &probe)),
        apply_subst_mono(&other, &probe)
    );
    assert!(unify(&MonoType::Fun(Box::new(tvar("a")), Box::new(tvar("a"))), &right).is_ok());
    assert!(unify(&MonoType::Int, &right).is_err());
}

#[test]
fn undefined_variables_of_a_block_are_reported_in_order() {
    let program = Program {
        input: "x".to_string(),
        output: "z".to_string(),
        body: Command::Assign(
            "z".to_string(),
            AExpr::Add(var("zeta"), Box::new(AExpr::Add(var("beta"), var("alpha")))),
        ),
    };
    let cfg = program_to_cfg(&program);
    let errors = check_undefined_variables(&cfg).unwrap_err();
    let names: Vec<&str> = errors.iter().map(|e| e.variable.as_str()).collect();
    assert_eq!(names, vec!["alpha", "beta", "zeta"]);
    assert!(errors.iter().all(|e| e.block == errors[0].block));
}

#[test]
fn errors_read_as_sentences() {
    let mismatch = TypeError::ArgumentMismatch { expected: Type::Int, found: Type::Bool };
    assert_eq!(mismatch.message(), "Type error: function expected argument of type Int, but got Bool");
    let operands = TypeError::OperandMismatch {
        op: BinOp::Less,
        left: Type::Fun(Box::new(Type::Int), Box::new(Type::Bool)),
        right: Type::Int,
    };
    assert_eq!(operands.message(), "Type error: < expects Int and Int, but got Fun(Int, Bool) and Int");
    let cannot = InferError::Mismatch {
        left: MonoType::Fun(Box::new(tvar("a0")), Box::new(MonoType::Int)),
        right: MonoType::Bool,
    };
    assert_eq!(cannot.message(), "Cannot unify Fun(Var(\"a0\"), Int) with Bool");
    assert_eq!(EvalError::NotABoolean.message(), "Runtime error: not operator expects a boolean");
    assert_eq!(
        RuntimeError::UndefinedVariable("q".to_string()).message(),
        "Runtime error: variable 'q' is undefined"
    );
    let source = "input x; output y; y := 99999999999";
    match parse_program(source) {
        Err(e) => assert_eq!(
            e.message(source),
            "Lexer error at character 24: integer '99999999999' is outside the i32 range"
        ),
        Ok(_) => panic!("the literal is out of range"),
    }
    let missing = "input x; output y; if x < 1 y := 1 else y := 2";
    match parse_program(missing) {
        Err(e) => assert_eq!(
            e.message(missing),
            "Parser error at token 10: expected 'then' after the if condition, but found Identifier(\"y\")"
        ),
        Ok(_) => panic!("'then' is missing"),
    }
    match parse_term("let = 1 in 2") {
        Err(e) => assert_eq!(
            e.message("let = 1 in 2"),
            "Parser error at token 2: expected an identifier, but found Equal"
        ),
        Ok(_) => panic!("the name is missing"),
    }
}

#[test]
fn annotations_and_annotated_listing_as_text() {
    let program = parse_program("input x; output y; y := x + b; b := y").unwrap();
    let cfg = program_to_cfg(&program);
    let live = live_variables_analysis(&cfg);
    let entry = live.entry;
    let entry_text = live.blocks()[entry].annotation.text();
    assert_eq!(entry_text, "IN = {\"b\", \"x\"}\nOUT = {\"y\"}");
    let reaching = reaching_definitions_analysis(&cfg);
    let exit_text = reaching.blocks()[reaching.exit].annotation.text();
    assert_eq!(
        exit_text,
        "IN = {Input(\"x\"), Assignment { variable: \"b\", block: 1 }, Assignment { variable: \"y\", block: 2 }}\n\
         OUT = {Input(\"x\"), Assignment { variable: \"b\", block: 1 }, Assignment { variable: \"y\", block: 2 }}"
    );
    let texts: Vec<String> = live.blocks().iter().map(|b| b.annotation.text()).collect();
    let listing = live.listing_with(&texts);
    assert_eq!(live.listing(), listing);
    assert!(listing.starts_with("CFG(input: x, output: y, entry: B2, exit: B0)\nB0: skip\n    IN = {\"y\"}\n    OUT = {\"y\"}\n    -> end\n"));
    let plain = vec!["one\r\ntwo\n".to_string(), String::new(), String::new()];
    let short = live.listing_with(&plain);
    assert!(short.contains("B0: skip\n    one\n    two\n    -> end\nB1: "));
}

#[test]
fn printed_expressions_parse_back() {
    let e = AExpr::Mul(
        Box::new(AExpr::Add(var("x"), lit(3))),
        Box::new(AExpr::Sub(var("y_1"), Box::new(AExpr::Int(0)))),
    );
    let text = aexpr_to_string(&e);
    assert_eq!(text, "((x + 3) * (y_1 - 0))");
    let back = compilation_project::miniimp::parser::parse_aexpr(&text).unwrap();
    assert_eq!(format!("{:?}", back), format!("{:?}", e));
}

#[test]
fn lexing_ends_with_a_single_eof() {
    use_lexer_eof_checks();
}

fn use_lexer_eof_checks() {
    let blank = lex("  // only a comment\n\t ").unwrap();
    assert_eq!(blank.len(), 1);
    assert!(matches!(blank[0], compilation_project::miniimp::lexer::Token::Eof));
    let tokens = lex("x := y; skip").unwrap();
    assert!(matches!(tokens[tokens.len() - 1], compilation_project::miniimp::lexer::Token::Eof));
    assert!(tokens[..tokens.len() - 1]
        .iter()
        .all(|t| !matches!(t, compilation_project::miniimp::lexer::Token::Eof)));
}

#[test]
fn program_graph_branches_only_at_guards() {
    let program = parse_program("input x; output y; y := 0; while y < x do y := y + 1").unwrap();
    let cfg = program_to_cfg(&program);
    assert_ne!(cfg.entry, cfg.exit);
    for block in cfg.blocks() {
        let branches = cfg.successors(block.id).len() == 2;
        assert_eq!(branches, matches!(block.statement, SimpleStatement::Guard(_)));
    }
}

#[test]
fn passes_do_nothing_at_the_fixed_point() {
    let program = parse_program("input x; output out; a := 2 * 3; b := a + x; out := b * 1").unwrap();
    let mut cfg = program_to_cfg(&program);
    let result = OptimizationPipeline::default().run(&mut cfg);
    assert!(result.reached_fixed_point);
    assert!(!constant_propagation(&mut cfg));
    assert!(!constant_folding(&mut cfg));
    assert!(!dead_store_elimination(&mut cfg));
}

#[test]
fn instantiation_renames_bound_variables_in_order() {
    let mut generator = TypeVarGenerator::new();
    for _ in 0..5 {
        generator.fresh();
    }
    let scheme = PolyType {
        vars: vec!["b".to_string(), "a".to_string()],
        ty: MonoType::Fun(Box::new(tvar("a")), Box::new(MonoType::Fun(Box::new(tvar("b")), Box::new(tvar("c"))))),
    };
    let ty = inst(&scheme, &mut generator);
    assert_eq!(
        ty,
        MonoType::Fun(Box::new(tvar("a6")), Box::new(MonoType::Fun(Box::new(tvar("a5")), Box::new(tvar("c")))))
    );
    assert_eq!(generator.fresh(), tvar("a7"));
}

#[test]
fn propagation_reports_a_change_only_where_the_text_changed() {
    // A variable named `5` with the constant 5 prints as its replacement.
    let program = Program {
        input: "x".to_string(),
        output: "y".to_string(),
        body: Command::Sequence(
            Box::new(Command::Assign("5".to_string(), AExpr::Int(5))),
            Box::new(Command::Assign("y".to_string(), AExpr::Var("5".to_string()))),
        ),
    };
    let mut cfg = program_to_cfg(&program);
    assert!(!constant_propagation(&mut cfg));
    let texts: Vec<String> = cfg.blocks().iter().map(|b| statement_to_string(&b.statement)).collect();
    assert!(texts.contains(&"y := 5".to_string()));
    assert!(cfg
        .blocks()
        .iter()
        .any(|b| matches!(&b.statement, SimpleStatement::Assign(v, AExpr::Int(5)) if v == "y")));
}

#[test]
fn inference_message_quotes_control_characters() {
    let error = InferError::Mismatch { left: MonoType::Var("a\u{1}".to_string()), right: MonoType::Int };
    assert_eq!(error.message(), "Cannot unify Var(\"a\\u{1}\") with Int");
}

#[test]
fn annotated_dot_labels_show_the_analysis_sets() {
    let program = parse_program("input x; output y; y := x + 1").unwrap();
    let cfg = program_to_cfg(&program);
    let live = live_variables_analysis(&cfg);
    let dot = live.to_dot();
    assert!(dot.contains("y := (x + 1)\\nIN = {\\\"x\\\"}\\nOUT = {\\\"y\\\"}"));
    let texts: Vec<String> = live.blocks().iter().map(|b| b.annotation.text()).collect();
    assert_eq!(dot, live.to_dot_with(&texts));
    let reaching = reaching_definitions_analysis(&cfg);
    let listing = reaching.listing();
    assert!(listing.contains("B0: skip\n    IN = {Input(\"x\"), Assignment { variable: \"y\", block: 1 }}\n"));
    let texts: Vec<String> = reaching.blocks().iter().map(|b| b.annotation.text()).collect();
    assert_eq!(reaching.to_dot(), reaching.to_dot_with(&texts));
}

#[test]
fn predecessors_come_in_increasing_order() {
    let program =
        parse_program("input x; output y; y := 0; while y < x do if y < 3 then y := y + 1 else y := y + 2").unwrap();
    let cfg = program_to_cfg(&program);
    let mut joined = 0;
    for block in cfg.blocks() {
        let preds = cfg.predecessors(block.id);
        assert!(preds.windows(2).all(|w| w[0] < w[1]));
        if preds.len() >= 2 {
            joined += 1;
        }
    }
    assert!(joined >= 1);
}

#[test]
fn changed_passes_stay_within_rounds_times_passes() {
    let program =
        parse_program("input x; output out; a := 1; b := a + 2; c := b * 3; d := c - 4; out := d + x").unwrap();
    let mut cfg = program_to_cfg(&program);
    let pipeline = OptimizationPipeline::default();
    let result = pipeline.run(&mut cfg);
    assert!(result.reached_fixed_point);
    assert!(result.changed_passes >= 1);
    assert!(result.changed_passes <= result.rounds * pipeline.passes.len());
}

#[test]
fn every_block_lies_on_a_path_from_entry_to_exit() {
    let program = parse_program("input x; output y; y := 1; while 0 < x do { x := x - 1; y := y * 2 }").unwrap();
    let cfg = program_to_cfg(&program);
    let n = cfg.blocks().len();
    let mut from_entry = vec![false; n];
    let mut stack = vec![cfg.entry];
    while let Some(b) = stack.pop() {
        if !from_entry[b] {
            from_entry[b] = true;
            stack.extend(cfg.successors(b));
        }
    }
    assert!(from_entry.iter().all(|&r| r));
    let mut to_exit = vec![false; n];
    let mut stack = vec![cfg.exit];
    while let Some(b) = stack.pop() {
        if !to_exit[b] {
            to_exit[b] = true;
            stack.extend(cfg.predecessors(b));
        }
    }
    assert!(to_exit.iter().all(|&r| r));
}

#[test]
fn a_name_that_prints_as_a_number_hides_a_propagation() {
    let program = Program {
        input: "x".to_string(),
        output: "y".to_string(),
        body: Command::Sequence(
            Box::new(Command::Assign("5".to_string(), AExpr::Int(5))),
            Box::new(Command::Assign(
                "y".to_string(),
                AExpr::Add(Box::new(AExpr::Var("5".to_string())), Box::new(AExpr::Int(1))),
            )),
        ),
    };
    let mut cfg = program_to_cfg(&program);
    let pipeline = OptimizationPipeline {
        passes: vec![OptimizationPass::ConstantFolding, OptimizationPass::ConstantPropagation],
        maximum_rounds: 5,
    };
    let result = pipeline.run(&mut cfg);
    assert!(result.reached_fixed_point);
    assert_eq!(result.rounds, 1);
    assert_eq!(result.changed_passes, 0);
    assert!(constant_folding(&mut cfg));
}

use compilation_project::miniimp::ast::{AExpr, BExpr, Command, Program};
use compilation_project::miniimp::cfg::{program_to_cfg, BlockId, ControlFlowGraph, SimpleStatement};
use compilation_project::miniimp::dataflow::{
    defined_variables_analysis, live_variables_analysis, reaching_definitions_analysis,
    variables_in_bexpr, Definition,
};
use compilation_project::miniimp::eval::{eval_aexpr, eval_bexpr, eval_program};
use compilation_project::miniimp::lexer::{lex, Token};
use compilation_project::miniimp::optimizations::{
    check_undefined_variables, constant_folding, constant_propagation, dead_store_elimination,
    OptimizationPipeline,
};
use compilation_project::miniimp::parser::{parse_aexpr, parse_bexpr, parse_program};
use compilation_project::miniimp::runtime::Memory;
use compilation_project::miniimp::sets::{ItemSet, VariableSet};

fn var(name: &str) -> Box<AExpr> {
    Box::new(AExpr::Var(name.to_string()))
}

fn lit(value: i32) -> Box<AExpr> {
    Box::new(AExpr::Int(value))
}

fn assign(name: &str, expression: AExpr) -> Box<Command> {
    Box::new(Command::Assign(name.to_string(), expression))
}

fn names(list: &[&str]) -> VariableSet {
    ItemSet::from_names(list.iter().map(|s| s.to_string()).collect())
}

fn find_assignment<'a>(cfg: &'a ControlFlowGraph, variable: &str) -> &'a SimpleStatement {
    &cfg.blocks()
        .iter()
        .find(|block| matches!(&block.statement, SimpleStatement::Assign(name, _) if name == variable))
        .expect("assignment should exist")
        .statement
}

fn assignment_block(cfg: &ControlFlowGraph, variable: &str, integer: i32) -> BlockId {
    cfg.blocks()
        .iter()
        .find_map(|block| match &block.statement {
            SimpleStatement::Assign(name, AExpr::Int(value)) if name == variable && *value == integer => {
                Some(block.id)
            }
            _ => None,
        })
        .expect("assignment block should exist")
}

#[test]
fn sequence_is_connected_in_order() {
    let program = Program {
        input: "x".to_string(),
        output: "z".to_string(),
        body: Command::Sequence(assign("y", AExpr::Int(1)), assign("z", AExpr::Int(2))),
    };
    let cfg = program_to_cfg(&program);
    let first_successor = cfg.successors(cfg.entry);
    assert_eq!(first_successor.len(), 1);
    let second = first_successor[0];
    assert_eq!(cfg.successors(second), vec![cfg.exit]);
}

#[test]
fn while_body_has_back_edge_to_guard() {
    let program = Program {
        input: "x".to_string(),
        output: "x".to_string(),
        body: Command::While(
            BExpr::Less(var("x"), lit(10)),
            assign("x", AExpr::Add(var("x"), lit(1))),
        ),
    };
    let cfg = program_to_cfg(&program);
    let guard = cfg.entry;
    let successors = cfg.successors(guard);
    let body = successors[0];
    assert_eq!(cfg.successors(body), vec![guard]);
    assert_eq!(successors[1], cfg.exit);
}

#[test]
fn support_functions_visit_nested_expressions() {
    let expression = BExpr::And(
        Box::new(BExpr::Less(Box::new(AExpr::Add(var("x"), var("y"))), var("z"))),
        Box::new(BExpr::Not(Box::new(BExpr::Less(var("w"), lit(0))))),
    );
    assert_eq!(variables_in_bexpr(&expression), names(&["w", "x", "y", "z"]));
}

#[test]
fn defined_variables_uses_intersection_at_join_points() {
    let program = Program {
        input: "x".to_string(),
        output: "z".to_string(),
        body: Command::Sequence(
            Box::new(Command::If(
                BExpr::Less(var("x"), lit(0)),
                assign("y", AExpr::Int(1)),
                Box::new(Command::Skip),
            )),
            assign("z", AExpr::Var("y".to_string())),
        ),
    };
    let cfg = program_to_cfg(&program);
    let analysis = defined_variables_analysis(&cfg);
    let z_block = cfg
        .blocks()
        .iter()
        .find(|block| matches!(&block.statement, SimpleStatement::Assign(name, _) if name == "z"))
        .expect("z assignment should exist")
        .id;
    let annotation = &analysis.block(z_block).expect("annotated block should exist").annotation;
    assert!(annotation.in_set.contains(&"x".to_string()));
    assert!(!annotation.in_set.contains(&"y".to_string()));
}

#[test]
fn live_variables_use_rhs_before_killing_lhs() {
    let program = Program {
        input: "y".to_string(),
        output: "x".to_string(),
        body: Command::Assign("x".to_string(), AExpr::Add(var("y"), lit(1))),
    };
    let cfg = program_to_cfg(&program);
    let analysis = live_variables_analysis(&cfg);
    let annotation = &analysis.block(cfg.entry).expect("entry block should exist").annotation;
    assert_eq!(annotation.in_set, names(&["y"]));
    assert_eq!(annotation.out_set, names(&["x"]));
}

#[test]
fn reaching_definitions_kills_previous_definition_of_same_variable() {
    let program = Program {
        input: "x".to_string(),
        output: "x".to_string(),
        body: Command::Sequence(assign("x", AExpr::Int(1)), assign("x", AExpr::Int(2))),
    };
    let cfg = program_to_cfg(&program);
    let analysis = reaching_definitions_analysis(&cfg);
    let first = assignment_block(&cfg, "x", 1);
    let second = assignment_block(&cfg, "x", 2);
    let second_annotation = &analysis.block(second).expect("second assignment should exist").annotation;
    assert!(second_annotation
        .in_set
        .contains(&Definition::Assignment { variable: "x".to_string(), block: first }));
    assert_eq!(
        second_annotation.out_set,
        ItemSet::from_names(vec![Definition::Assignment { variable: "x".to_string(), block: second }])
    );
}

#[test]
fn reaching_definitions_handles_loop_back_edges() {
    let program = Program {
        input: "x".to_string(),
        output: "x".to_string(),
        body: Command::While(
            BExpr::Less(var("x"), lit(3)),
            assign("x", AExpr::Add(var("x"), lit(1))),
        ),
    };
    let cfg = program_to_cfg(&program);
    let analysis = reaching_definitions_analysis(&cfg);
    let body = cfg.successors(cfg.entry)[0];
    let guard_annotation = &analysis.block(cfg.entry).expect("guard should exist").annotation;
    assert!(guard_annotation.in_set.contains(&Definition::Input("x".to_string())));
    assert!(guard_annotation
        .in_set
        .contains(&Definition::Assignment { variable: "x".to_string(), block: body }));
}

#[test]
fn tokenizes_assignment_and_expression() {
    let tokens = lex("x := 2 + 3 * 4;").expect("lexing should succeed");
    assert_eq!(
        tokens,
        vec![
            Token::Identifier("x".to_string()),
            Token::Assign,
            Token::Integer(2),
            Token::Plus,
            Token::Integer(3),
            Token::Star,
            Token::Integer(4),
            Token::Semicolon,
            Token::Eof,
        ]
    );
}

#[test]
fn accepts_keyword_aliases_for_boolean_operators() {
    let tokens = lex("not true and false").expect("lexing should succeed");
    assert_eq!(tokens, vec![Token::Bang, Token::True, Token::AndAnd, Token::False, Token::Eof]);
}

#[test]
fn reports_possibly_undefined_variable() {
    let program = Program {
        input: "x".to_string(),
        output: "z".to_string(),
        body: Command::Sequence(
            Box::new(Command::If(
                BExpr::Less(var("x"), lit(0)),
                assign("y", AExpr::Int(1)),
                Box::new(Command::Skip),
            )),
            assign("z", AExpr::Var("y".to_string())),
        ),
    };
    let cfg = program_to_cfg(&program);
    let errors = check_undefined_variables(&cfg).expect_err("y should be possibly undefined");
    assert!(errors.iter().any(|error| error.variable == "y"));
}

#[test]
fn accepts_defined_variables() {
    let program = Program {
        input: "x".to_string(),
        output: "z".to_string(),
        body: Command::Sequence(
            assign("y", AExpr::Var("x".to_string())),
            assign("z", AExpr::Var("y".to_string())),
        ),
    };
    let cfg = program_to_cfg(&program);
    assert!(check_undefined_variables(&cfg).is_ok());
}

#[test]
fn folds_nested_constant_expression() {
    let program = Program {
        input: "input".to_string(),
        output: "out".to_string(),
        body: Command::Assign("out".to_string(), AExpr::Mul(Box::new(AExpr::Add(lit(2), lit(3))), lit(4))),
    };
    let mut cfg = program_to_cfg(&program);
    assert!(constant_folding(&mut cfg));
    assert!(matches!(find_assignment(&cfg, "out"), SimpleStatement::Assign(_, AExpr::Int(20))));
}

#[test]
fn propagates_constant_to_later_assignment() {
    let program = Program {
        input: "input".to_string(),
        output: "out".to_string(),
        body: Command::Sequence(assign("x", AExpr::Int(5)), assign("out", AExpr::Add(var("x"), lit(1)))),
    };
    let mut cfg = program_to_cfg(&program);
    assert!(constant_propagation(&mut cfg));
    assert!(matches!(
        find_assignment(&cfg, "out"),
        SimpleStatement::Assign(_, AExpr::Add(left, _)) if matches!(left.as_ref(), AExpr::Int(5))
    ));
}

#[test]
fn does_not_propagate_different_constants_at_join() {
    let program = Program {
        input: "input".to_string(),
        output: "out".to_string(),
        body: Command::Sequence(
            Box::new(Command::If(
                BExpr::Less(var("input"), lit(0)),
                assign("x", AExpr::Int(1)),
                assign("x", AExpr::Int(2)),
            )),
            assign("out", AExpr::Var("x".to_string())),
        ),
    };
    let mut cfg = program_to_cfg(&program);
    constant_propagation(&mut cfg);
    assert!(matches!(
        find_assignment(&cfg, "out"),
        SimpleStatement::Assign(_, AExpr::Var(variable)) if variable == "x"
    ));
}

#[test]
fn removes_assignment_whose_value_is_never_used() {
    let program = Program {
        input: "input".to_string(),
        output: "out".to_string(),
        body: Command::Sequence(assign("unused", AExpr::Int(10)), assign("out", AExpr::Int(1))),
    };
    let mut cfg = program_to_cfg(&program);
    assert!(dead_store_elimination(&mut cfg));
    assert!(cfg
        .blocks()
        .iter()
        .any(|block| block.id != cfg.exit && matches!(&block.statement, SimpleStatement::Skip)));
}

#[test]
fn keeps_assignment_to_program_output() {
    let program = Program {
        input: "input".to_string(),
        output: "out".to_string(),
        body: Command::Assign("out".to_string(), AExpr::Int(10)),
    };
    let mut cfg = program_to_cfg(&program);
    dead_store_elimination(&mut cfg);
    assert!(matches!(find_assignment(&cfg, "out"), SimpleStatement::Assign(_, AExpr::Int(10))));
}

#[test]
fn default_pipeline_reaches_fixed_point() {
    let program = Program {
        input: "input".to_string(),
        output: "out".to_string(),
        body: Command::Sequence(
            assign("x", AExpr::Int(2)),
            Box::new(Command::Sequence(
                assign("y", AExpr::Add(var("x"), lit(3))),
                assign("out", AExpr::Var("y".to_string())),
            )),
        ),
    };
    let mut cfg = program_to_cfg(&program);
    let result = OptimizationPipeline::default().run(&mut cfg);
    assert!(result.reached_fixed_point);
    assert!(matches!(find_assignment(&cfg, "out"), SimpleStatement::Assign(_, AExpr::Int(5))));
}

#[test]
fn multiplication_has_higher_precedence_than_addition() {
    let expression = parse_aexpr("2 + 3 * 4").expect("parsing should succeed");
    let value = eval_aexpr(&expression, &Memory::new()).expect("evaluation should succeed");
    assert_eq!(value, 14);
}

#[test]
fn parentheses_override_arithmetic_precedence() {
    let expression = parse_aexpr("(2 + 3) * 4").expect("parsing should succeed");
    let value = eval_aexpr(&expression, &Memory::new()).expect("evaluation should succeed");
    assert_eq!(value, 20);
}

#[test]
fn parses_and_executes_if_program() {
    let source = r#"
        input x;
        output y;

        y := x;

        if y < 10 then {
            y := y + 8;
        } else {
            y := y - 2;
        }
    "#;
    let program = parse_program(source).expect("parsing should succeed");
    assert_eq!(eval_program(&program, 6).unwrap(), 14);
    assert_eq!(eval_program(&program, 12).unwrap(), 10);
}

#[test]
fn parses_parenthesized_arithmetic_inside_comparison() {
    let expression = parse_bexpr("(x + 1) < 10").expect("parsing should succeed");
    let mut memory = Memory::new();
    memory.set("x".to_string(), 8);
    assert!(eval_bexpr(&expression, &memory).unwrap());
}

#[test]
fn parses_and_executes_while_program() {
    let source = r#"
        input x;
        output x;

        while x < 3 do {
            x := x + 1;
        }
    "#;
    let program = parse_program(source).expect("parsing should succeed");
    assert_eq!(eval_program(&program, 0).unwrap(), 3);
}

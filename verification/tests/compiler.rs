use planout::compile::{compile, compile_op, compile_pairs, number_from_parts, number_of_literal, CompileError};
use planout::ir::{bool_true, Conditional, Get, Node, NodeError, Op};
use planout::json::{Number, Value};
use planout::parse::{parse, Error, PlanoutParser};
use planout::tree::{Pair, Rule};
use planout::Plan;

fn get(name: &str) -> Op {
    Op::Get(Get { var: name.to_string() })
}

fn set(name: &str, value: Node) -> Op {
    Op::SetVar { var: name.to_string(), value: Box::new(value) }
}

fn integer(i: u64) -> Node {
    Node::Json(Value::Number(Number::PosInt(i)))
}

fn decimal(f: f64) -> Node {
    Node::Json(Value::Number(Number::Float(f.to_bits())))
}

fn leaf(rule: Rule, text: &str) -> Pair {
    Pair::leaf(rule, text)
}

fn node(rule: Rule, text: &str, inner: Vec<Pair>) -> Pair {
    Pair::node(rule, text, inner)
}

#[test]
fn a_number_literal_keeps_its_kind() {
    assert_eq!(number_of_literal("3"), Some(Number::PosInt(3)));
    assert_eq!(number_of_literal("-3"), Some(Number::NegInt(-3)));
    assert_eq!(number_of_literal("3.0"), Some(Number::Float(3.0f64.to_bits())));
    assert_eq!(number_of_literal("0.25"), Some(Number::Float(0.25f64.to_bits())));
    assert_eq!(number_of_literal("18446744073709551615"), Some(Number::PosInt(u64::MAX)));
    assert_eq!(number_of_literal("x"), None);
    assert_eq!(number_of_literal(""), None);
}

#[test]
fn the_first_reading_of_a_number_counts() {
    assert_eq!(number_from_parts(Some((Some(3), Some(3), Some(3.0f64.to_bits())))), Some(Number::PosInt(3)));
    assert_eq!(number_from_parts(Some((None, Some(-3), Some((-3.0f64).to_bits())))), Some(Number::NegInt(-3)));
    assert_eq!(number_from_parts(Some((None, None, Some(0.5f64.to_bits())))), Some(Number::Float(0.5f64.to_bits())));
    assert_eq!(number_from_parts(Some((None, None, None))), None);
    assert_eq!(number_from_parts(None), None);
}

#[test]
fn an_assignment_compiles_to_a_set() {
    let plan = compile("x = 3;").unwrap();
    assert_eq!(plan, Plan { ops: vec![set("x", integer(3))], params: vec!["x".to_string()] });
}

#[test]
fn the_text_and_the_tree_built_by_hand_compile_alike() {
    let by_hand = vec![
        node(
            Rule::Assignment,
            "x = y * 2;",
            vec![
                leaf(Rule::Ident, "x"),
                leaf(Rule::OpAssign, "="),
                node(
                    Rule::Expr,
                    "y * 2",
                    vec![node(
                        Rule::DyadicExpr,
                        "y * 2",
                        vec![
                            node(Rule::Terms, "y", vec![leaf(Rule::Ident, "y")]),
                            leaf(Rule::Verb, "*"),
                            node(
                                Rule::Expr,
                                "2",
                                vec![node(
                                    Rule::Terms,
                                    "2",
                                    vec![node(Rule::Number, "2", vec![leaf(Rule::Int, "2")])],
                                )],
                            ),
                        ],
                    )],
                ),
                leaf(Rule::Semi, ";"),
            ],
        ),
        leaf(Rule::EOI, ""),
    ];
    assert_eq!(parse("x = y * 2;"), Ok(by_hand));
    let expected = vec![set("x", Node::Op(Op::Product { values: vec![Node::Op(get("y")), integer(2)] }))];
    assert_eq!(compile("x = y * 2;").unwrap().ops, expected);
    assert_eq!(compile_pairs(&parse("x = y * 2;").unwrap()).unwrap().ops, expected);
}

#[test]
fn the_source_and_the_operations_built_by_hand_agree() {
    let source = r#"
        # a comment
        a = 1.5;
        if (c) {
            b = [a, "s"];
        } else if (d) {
            b = 'single';
            e = a * 2;
        } else {
        }
    "#;
    let expected = vec![
        set("a", decimal(1.5)),
        Op::Cond {
            cond: vec![
                Conditional {
                    when: Node::Op(get("c")),
                    then_op: set(
                        "b",
                        Node::Op(Op::Array {
                            values: vec![Node::Op(get("a")), Node::Json(Value::String("s".to_string()))],
                        }),
                    ),
                },
                Conditional {
                    when: Node::Op(get("d")),
                    then_op: Op::Sequence {
                        seq: vec![
                            set("b", Node::Json(Value::String("single".to_string()))),
                            set("e", Node::Op(Op::Product { values: vec![Node::Op(get("a")), integer(2)] })),
                        ],
                    },
                },
                Conditional { when: bool_true(), then_op: Op::Sequence { seq: vec![] } },
            ],
        },
    ];
    let plan = compile(source).unwrap();
    assert_eq!(plan.ops, expected);
    assert_eq!(plan.params, vec!["a".to_string(), "b".to_string(), "e".to_string()]);
}

#[test]
fn a_name_assigned_twice_is_one_parameter() {
    let plan = compile("x = 1; y = 2; x = 3;").unwrap();
    assert_eq!(plan.params, vec!["x".to_string(), "y".to_string()]);
    assert_eq!(plan.ops.len(), 3);
}

#[test]
fn nothing_behind_a_return_is_compiled() {
    let plan = compile("x = 1; return x; z = 5.0;").unwrap();
    assert_eq!(plan, Plan { ops: vec![set("x", integer(1))], params: vec!["x".to_string()] });
    let empty = compile("return 3; z = 5.0;").unwrap();
    assert_eq!(empty, Plan { ops: vec![], params: vec![] });
}

#[test]
fn an_empty_text_is_an_empty_plan() {
    assert_eq!(compile("").unwrap(), Plan { ops: vec![], params: vec![] });
    assert_eq!(compile("  # nothing\n").unwrap(), Plan { ops: vec![], params: vec![] });
    assert_eq!(parse(""), Ok(vec![leaf(Rule::EOI, "")]));
}

#[test]
fn an_operator_other_than_times_is_unsupported() {
    assert_eq!(
        compile("x = y + 2;"),
        Err(CompileError::Unsupported { rule: Rule::Verb, text: "+".to_string() })
    );
    assert_eq!(
        compile("if (country == 'US') { p = 0.2; }"),
        Err(CompileError::Unsupported { rule: Rule::Verb, text: "==".to_string() })
    );
}

#[test]
fn a_rule_that_is_no_expression_is_unsupported() {
    let mut params = Vec::new();
    assert_eq!(
        compile_op(&leaf(Rule::Semi, ";"), &mut params),
        Err(CompileError::Unsupported { rule: Rule::Semi, text: ";".to_string() })
    );
    assert_eq!(
        compile_pairs(&vec![leaf(Rule::BlockStart, "{")]),
        Err(CompileError::Unsupported { rule: Rule::BlockStart, text: "{".to_string() })
    );
}

#[test]
fn a_constant_is_no_statement() {
    let constant = node(Rule::Number, "3", vec![leaf(Rule::Int, "3")]);
    assert_eq!(compile_pairs(&vec![constant, leaf(Rule::EOI, "")]), Err(CompileError::UselessConstant));
    let in_block = node(
        Rule::Conditional,
        "if (c) { 3 }",
        vec![
            leaf(Rule::OpIf, "if"),
            leaf(Rule::Ident, "c"),
            leaf(Rule::BlockStart, "{"),
            node(Rule::Number, "3", vec![leaf(Rule::Int, "3")]),
            leaf(Rule::BlockEnd, "}"),
        ],
    );
    assert_eq!(compile_pairs(&vec![in_block]), Err(CompileError::UselessConstant));
}

#[test]
fn a_tree_that_lacks_a_node_is_malformed() {
    let no_semi = node(
        Rule::Assignment,
        "x = y",
        vec![leaf(Rule::Ident, "x"), leaf(Rule::OpAssign, "="), leaf(Rule::Ident, "y")],
    );
    assert_eq!(
        compile_pairs(&vec![no_semi]),
        Err(CompileError::Malformed { expected: Rule::Semi, found: Some(Rule::Ident) })
    );
    let no_value = node(
        Rule::Assignment,
        "x = ;",
        vec![leaf(Rule::Ident, "x"), leaf(Rule::OpAssign, "="), leaf(Rule::Semi, ";")],
    );
    assert_eq!(
        compile_pairs(&vec![no_value]),
        Err(CompileError::Malformed { expected: Rule::Expr, found: None })
    );
    let nothing = node(Rule::Assignment, "", vec![]);
    assert_eq!(
        compile_pairs(&vec![nothing]),
        Err(CompileError::Malformed { expected: Rule::Ident, found: None })
    );
    let no_ident = node(Rule::Assignment, "3", vec![leaf(Rule::Int, "3")]);
    assert_eq!(
        compile_pairs(&vec![no_ident]),
        Err(CompileError::Malformed { expected: Rule::Ident, found: Some(Rule::Int) })
    );
    let no_block = node(Rule::Conditional, "if (c)", vec![leaf(Rule::OpIf, "if"), leaf(Rule::Ident, "c")]);
    assert_eq!(
        compile_pairs(&vec![no_block]),
        Err(CompileError::Malformed { expected: Rule::BlockStart, found: None })
    );
    let off_track = node(Rule::Conditional, "x", vec![leaf(Rule::Ident, "x")]);
    assert_eq!(
        compile_pairs(&vec![off_track]),
        Err(CompileError::Malformed { expected: Rule::OpIf, found: Some(Rule::Ident) })
    );
    let bad_number = node(Rule::Number, "x", vec![leaf(Rule::Ident, "x")]);
    assert_eq!(
        compile_pairs(&vec![bad_number]),
        Err(CompileError::Malformed { expected: Rule::Number, found: Some(Rule::Ident) })
    );
    let empty_expr = node(Rule::Expr, "", vec![]);
    assert_eq!(
        compile_pairs(&vec![empty_expr]),
        Err(CompileError::Malformed { expected: Rule::Terms, found: None })
    );
}

#[test]
fn a_text_that_is_no_program_is_malformed() {
    assert_eq!(parse("x = ;"), Err(Error::ParseError));
    assert_eq!(PlanoutParser::parse("x = 3"), Err(Error::ParseError));
    assert_eq!(parse("3;"), Err(Error::ParseError));
    assert_eq!(parse("x = [1,];"), Err(Error::ParseError));
    assert_eq!(parse("x = \"open;"), Err(Error::ParseError));
    assert_eq!(parse("if (c) { x = 1;"), Err(Error::ParseError));
    assert_eq!(
        compile("x = ;"),
        Err(CompileError::Malformed { expected: Rule::Program, found: None })
    );
}

#[test]
fn an_array_may_be_empty_and_may_nest() {
    let plan = compile("x = []; y = [[1], 2.5];").unwrap();
    assert_eq!(
        plan.ops,
        vec![
            set("x", Node::Op(Op::Array { values: vec![] })),
            set(
                "y",
                Node::Op(Op::Array {
                    values: vec![Node::Op(Op::Array { values: vec![integer(1)] }), decimal(2.5)],
                }),
            ),
        ]
    );
}

#[test]
fn a_product_groups_to_the_right() {
    let plan = compile("y = x * 2.0 * 2.0;").unwrap();
    assert_eq!(
        plan.ops,
        vec![set(
            "y",
            Node::Op(Op::Product {
                values: vec![
                    Node::Op(get("x")),
                    Node::Op(Op::Product { values: vec![decimal(2.0), decimal(2.0)] }),
                ],
            }),
        )]
    );
}

#[test]
fn a_node_is_an_operation_or_a_constant() {
    assert_eq!(Op::try_from(Node::Op(get("x"))), Ok(get("x")));
    assert_eq!(Op::try_from(integer(1)), Err(NodeError::FoundJson));
    assert_eq!(bool_true(), Node::Json(Value::Bool(true)));
}

#[test]
fn a_conditional_chain_is_one_flat_node() {
    let pairs = parse("if (a) { x = 1; } else if (b) { } else { y = 'q'; }  # end").unwrap();
    assert_eq!(pairs.len(), 2);
    assert_eq!(pairs[0].rule, Rule::Conditional);
    assert_eq!(pairs[0].text, "if (a) { x = 1; } else if (b) { } else { y = 'q'; }");
    let rules: Vec<Rule> = pairs[0].inner.iter().map(|p| p.rule).collect();
    assert_eq!(
        rules,
        vec![
            Rule::OpIf,
            Rule::Expr,
            Rule::BlockStart,
            Rule::Assignment,
            Rule::BlockEnd,
            Rule::OpElseIf,
            Rule::Expr,
            Rule::BlockStart,
            Rule::BlockEnd,
            Rule::OpElse,
            Rule::BlockStart,
            Rule::Assignment,
            Rule::BlockEnd,
        ]
    );
    assert_eq!(pairs[0].inner[5].text, "else if");
    assert_eq!(pairs[1], leaf(Rule::EOI, ""));
    let string = &pairs[0].inner[11].inner[2].inner[0].inner[0];
    assert_eq!(string.rule, Rule::String);
    assert_eq!(string.text, "'q'");
    assert_eq!(string.inner, vec![leaf(Rule::StringInner, "q")]);
}

#[test]
fn a_chain_ends_where_no_further_arm_can_be_read() {
    let pairs = parse("if (a) { } else = 3;").unwrap();
    let rules: Vec<Rule> = pairs.iter().map(|p| p.rule).collect();
    assert_eq!(rules, vec![Rule::Conditional, Rule::Assignment, Rule::EOI]);
    assert_eq!(pairs[1].inner[0], leaf(Rule::Ident, "else"));
}

#[test]
fn numbers_are_integers_or_decimals() {
    let pairs = parse("a = -12; b = 0.50; c = 7.;").err();
    assert_eq!(pairs, Some(Error::ParseError));
    let pairs = parse("a = -12; b = 0.50;").unwrap();
    let number = |i: usize| pairs[i].inner[2].inner[0].inner[0].clone_shape();
    assert_eq!(number(0), (Rule::Number, "-12".to_string(), vec![(Rule::Int, "-12".to_string())]));
    assert_eq!(number(1), (Rule::Number, "0.50".to_string(), vec![(Rule::Decimal, "0.50".to_string())]));
}

trait Shape {
    fn clone_shape(&self) -> (Rule, String, Vec<(Rule, String)>);
}

impl Shape for Pair {
    fn clone_shape(&self) -> (Rule, String, Vec<(Rule, String)>) {
        (self.rule, self.text.clone(), self.inner.iter().map(|p| (p.rule, p.text.clone())).collect())
    }
}

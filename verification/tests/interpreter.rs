use miniforth::classify::{parse_i64, parse_token, parser};
use miniforth::context::Context;
use miniforth::eval::{eval, eval_program, interpret};
use miniforth::lexer::lexer;
use miniforth::loader::load_program;
use miniforth::nodes::{EvalError, Node, Prim};

const FUEL: u64 = 1_000_000;

fn ready_context() -> Context {
    let mut ctx = Context::new();
    ctx.install_primitives();
    ctx
}

fn run(source: &str) -> (Context, Result<(), EvalError>) {
    let mut ctx = ready_context();
    let r = interpret(&mut ctx, source, FUEL);
    (ctx, r)
}

#[test]
fn lexer_splits_on_whitespace() {
    assert_eq!(lexer("1 2  3"), vec!["1", "2", "3"]);
    assert_eq!(lexer("  a\tb\nc\r"), vec!["a", "b", "c"]);
    assert_eq!(lexer(""), Vec::<&str>::new());
    assert_eq!(lexer("   \t\n"), Vec::<&str>::new());
    assert_eq!(lexer(": square dup * ;"), vec![":", "square", "dup", "*", ";"]);
}

#[test]
fn parse_i64_reads_whole_token() {
    assert_eq!(parse_i64("42"), Some(42));
    assert_eq!(parse_i64("-7"), Some(-7));
    assert_eq!(parse_i64("+5"), Some(5));
    assert_eq!(parse_i64("0"), Some(0));
    assert_eq!(parse_i64("9223372036854775807"), Some(i64::MAX));
    assert_eq!(parse_i64("-9223372036854775808"), Some(i64::MIN));
    assert_eq!(parse_i64("9223372036854775808"), None);
    assert_eq!(parse_i64("-9223372036854775809"), None);
    assert_eq!(parse_i64("99999999999999999999999"), None);
    assert_eq!(parse_i64("a1"), None);
    assert_eq!(parse_i64("1a"), None);
    assert_eq!(parse_i64(""), None);
    assert_eq!(parse_i64("-"), None);
    assert_eq!(parse_i64("+"), None);
    assert_eq!(parse_i64("1-2"), None);
}

#[test]
fn classifier_literal_round_trip() {
    for n in [0i64, 1, -1, 42, -42, 1000, i64::MAX, i64::MIN] {
        let text = format!("{}", n);
        assert_eq!(parse_token(&text), Ok(Node::Number(n)));
    }
}

#[test]
fn classifier_precedence() {
    assert_eq!(parse_token("12"), Ok(Node::Number(12)));
    assert_eq!(parse_token(":"), Ok(Node::StartDefinition));
    assert_eq!(parse_token(";"), Ok(Node::EndDefinition));
    assert_eq!(parse_token("dup"), Ok(Node::Word("dup".to_string())));
    assert_eq!(parse_token("+"), Ok(Node::Word("+".to_string())));
    // A colon or semicolon anywhere in the token decides, not only alone.
    assert_eq!(parse_token("a:b"), Ok(Node::StartDefinition));
    assert_eq!(parse_token("x;y"), Ok(Node::EndDefinition));
    // A digit anywhere forces the numeric reading; a colon after it loses.
    assert_eq!(parse_token("1:"), Err(EvalError::MalformedNumber("1:".to_string())));
}

#[test]
fn classifier_rejects_digit_bearing_words() {
    assert_eq!(parse_token("abc1"), Err(EvalError::MalformedNumber("abc1".to_string())));
    assert_eq!(parse_token("x1"), Err(EvalError::MalformedNumber("x1".to_string())));
}

#[test]
fn parser_classifies_in_order() {
    let nodes = parser(vec!["1", "dup", ":", ";"]).unwrap();
    assert_eq!(
        nodes,
        vec![
            Node::Number(1),
            Node::Word("dup".to_string()),
            Node::StartDefinition,
            Node::EndDefinition,
        ]
    );
    assert_eq!(
        parser(vec!["1", "abc1", "oops2"]),
        Err(EvalError::MalformedNumber("abc1".to_string()))
    );
}

#[test]
fn node_getters() {
    assert_eq!(Node::Number(9).get_number(), Some(9));
    assert_eq!(Node::Word("w".to_string()).get_number(), None);
    assert_eq!(Node::Word("w".to_string()).get_word(), Some("w".to_string()));
    assert_eq!(Node::Number(9).get_word(), None);
    assert_eq!(Node::Function(Prim::Dup).get_function(), Some(Prim::Dup));
    assert_eq!(Node::Number(9).get_function(), None);
}

#[test]
fn dictionary_lookup_and_shadowing() {
    let mut ctx = Context::new();
    assert!(ctx.lookup("dup").is_none());
    ctx.install_primitives();
    assert_eq!(ctx.lookup("dup"), Some(Node::Function(Prim::Dup)));
    assert_eq!(ctx.lookup("+"), Some(Node::Function(Prim::Add)));
    // A later binding shadows an earlier one.
    ctx.define("f".to_string(), Node::Proc(vec![Node::Number(1)]));
    ctx.define("f".to_string(), Node::Proc(vec![Node::Number(2)]));
    assert_eq!(ctx.lookup("f"), Some(Node::Proc(vec![Node::Number(2)])));
    assert!(ctx.lookup("missing").is_none());
}

#[test]
fn number_literal_pushes() {
    let mut ctx = ready_context();
    ctx.stack.push(Node::Number(7));
    let dict_before = ctx.dict.len();
    assert_eq!(eval(&mut ctx, &Node::Number(3), FUEL), Ok(()));
    assert_eq!(ctx.stack, vec![Node::Number(7), Node::Number(3)]);
    assert_eq!(ctx.dict.len(), dict_before);
}

#[test]
fn add_two_literals_on_empty_stack() {
    let mut ctx = ready_context();
    let program = vec![
        Node::Number(2),
        Node::Number(3),
        Node::Function(Prim::Add),
    ];
    assert_eq!(eval_program(&mut ctx, &program, FUEL), Ok(()));
    assert_eq!(ctx.stack, vec![Node::Number(5)]);
}

#[test]
fn dup_twice_triples_the_top() {
    let mut ctx = ready_context();
    ctx.stack.push(Node::Number(8));
    let program = vec![Node::Function(Prim::Dup), Node::Function(Prim::Dup)];
    assert_eq!(eval_program(&mut ctx, &program, FUEL), Ok(()));
    assert_eq!(
        ctx.stack,
        vec![Node::Number(8), Node::Number(8), Node::Number(8)]
    );
}

#[test]
fn definition_round_trip_matches_direct_body() {
    // Running the defined word leaves the same stack as running its body
    // directly on the same initial stack.
    let mut via_word = ready_context();
    let nodes = parser(lexer(": twice dup + ;")).unwrap();
    let top = load_program(&mut via_word, nodes).unwrap();
    assert_eq!(top, Vec::<Node>::new());
    via_word.stack.push(Node::Number(21));
    assert_eq!(eval(&mut via_word, &Node::Word("twice".to_string()), FUEL), Ok(()));

    let mut direct = ready_context();
    direct.stack.push(Node::Number(21));
    let body = parser(lexer("dup +")).unwrap();
    assert_eq!(eval_program(&mut direct, &body, FUEL), Ok(()));

    assert_eq!(via_word.stack, direct.stack);
    assert_eq!(via_word.stack, vec![Node::Number(42)]);
}

#[test]
fn reference_program_squares_and_emits() {
    let (ctx, r) = run(": square dup * ; 2 square .");
    assert_eq!(r, Ok(()));
    assert_eq!(ctx.stack, vec![Node::Number(4)]);
    assert_eq!(ctx.output, vec!["4".to_string()]);
}

#[test]
fn empty_bodied_procedure_is_noop() {
    let (ctx, r) = run(": f ; f");
    assert_eq!(r, Ok(()));
    assert_eq!(ctx.stack, Vec::<Node>::new());
    assert_eq!(ctx.output, Vec::<String>::new());
}

#[test]
fn deep_stack_survives_dup_chain() {
    let (ctx, r) = run("1 2 3 dup dup dup +");
    assert_eq!(r, Ok(()));
    assert_eq!(
        ctx.stack,
        vec![
            Node::Number(1),
            Node::Number(2),
            Node::Number(3),
            Node::Number(3),
            Node::Number(6),
        ]
    );
}

#[test]
fn add_on_empty_stack_underflows() {
    let (_, r) = run("+");
    assert_eq!(r, Err(EvalError::StackUnderflow));
}

#[test]
fn emit_on_empty_stack_underflows() {
    let (_, r) = run(".");
    assert_eq!(r, Err(EvalError::StackUnderflow));
}

#[test]
fn digit_bearing_word_is_malformed_number() {
    let (_, r) = run("abc1 .");
    assert_eq!(r, Err(EvalError::MalformedNumber("abc1".to_string())));
}

#[test]
fn unknown_word_is_reported_with_its_name() {
    let (_, r) = run("2 nope");
    assert_eq!(r, Err(EvalError::UnknownWord("nope".to_string())));
}

#[test]
fn unterminated_definition_is_fatal() {
    let (_, r) = run(": f 1 2");
    assert_eq!(r, Err(EvalError::UnterminatedDefinition));
}

#[test]
fn definition_needs_a_word_as_its_name() {
    let (_, r) = run(": 5 ;");
    assert_eq!(r, Err(EvalError::MissingDefinitionName));
    let (_, r2) = run(":");
    assert_eq!(r2, Err(EvalError::MissingDefinitionName));
}

#[test]
fn nested_definition_is_rejected_at_load_time() {
    // An opening marker inside a body is a nested definition: the loader
    // refuses it outright, whether or not the procedure would ever run,
    // and binds nothing for the malformed bracket.
    let (ctx, r) = run(": a : ;");
    assert_eq!(r, Err(EvalError::InvariantViolation));
    assert!(ctx.lookup("a").is_none());
    let (_, r2) = run(": a : ; a");
    assert_eq!(r2, Err(EvalError::InvariantViolation));
}

#[test]
fn redefinition_uses_latest_binding() {
    let (ctx, r) = run(": f 1 ; : f 2 ; f .");
    assert_eq!(r, Ok(()));
    assert_eq!(ctx.stack, vec![Node::Number(2)]);
    assert_eq!(ctx.output, vec!["2".to_string()]);
}

#[test]
fn words_bind_late_so_definition_order_is_free() {
    let (ctx, r) = run(": f g ; : g 7 ; f");
    assert_eq!(r, Ok(()));
    assert_eq!(ctx.stack, vec![Node::Number(7)]);
}

#[test]
fn self_recursion_exhausts_the_step_budget() {
    let mut ctx = ready_context();
    let r = interpret(&mut ctx, ": f f ; f", 10_000);
    assert_eq!(r, Err(EvalError::StepLimitExceeded));
}

#[test]
fn addition_wraps_at_the_i64_boundary() {
    let (ctx, r) = run("9223372036854775807 1 +");
    assert_eq!(r, Ok(()));
    assert_eq!(ctx.stack, vec![Node::Number(i64::MIN)]);
}

#[test]
fn multiplication_of_small_values_is_exact() {
    let (ctx, r) = run("-3 4 * .");
    assert_eq!(r, Ok(()));
    assert_eq!(ctx.stack, vec![Node::Number(-12)]);
    assert_eq!(ctx.output, vec!["-12".to_string()]);
}

#[test]
fn emit_keeps_the_stack_intact() {
    let (ctx, r) = run("5 . . .");
    assert_eq!(r, Ok(()));
    assert_eq!(ctx.stack, vec![Node::Number(5)]);
    assert_eq!(
        ctx.output,
        vec!["5".to_string(), "5".to_string(), "5".to_string()]
    );
}

#[test]
fn failure_keeps_the_state_already_reached() {
    // The contract fixes the stack and the output at the moment of failure:
    // the emission made before the unknown word stays recorded.
    let (ctx, r) = run("5 . nope");
    assert_eq!(r, Err(EvalError::UnknownWord("nope".to_string())));
    assert_eq!(ctx.stack, vec![Node::Number(5)]);
    assert_eq!(ctx.output, vec!["5".to_string()]);
}

#[test]
fn underflow_pushes_nothing() {
    let (ctx, r) = run("+");
    assert_eq!(r, Err(EvalError::StackUnderflow));
    assert_eq!(ctx.stack, Vec::<Node>::new());
    assert_eq!(ctx.output, Vec::<String>::new());
}

#[test]
fn malformed_definition_binds_nothing() {
    let (ctx, r) = run(": f 1 2");
    assert_eq!(r, Err(EvalError::UnterminatedDefinition));
    assert!(ctx.lookup("f").is_none());
    let (ctx2, r2) = run(": 5 ;");
    assert_eq!(r2, Err(EvalError::MissingDefinitionName));
    assert_eq!(ctx2.dict.len(), ready_context().dict.len());
}

#[test]
fn completed_definitions_survive_a_later_failure() {
    let (ctx, r) = run(": g 1 ; : f 2");
    assert_eq!(r, Err(EvalError::UnterminatedDefinition));
    assert_eq!(ctx.lookup("g"), Some(Node::Proc(vec![Node::Number(1)])));
    assert!(ctx.lookup("f").is_none());
}

#[test]
fn emit_renders_negative_numbers() {
    let (ctx, r) = run("-7 .");
    assert_eq!(r, Ok(()));
    assert_eq!(ctx.output, vec!["-7".to_string()]);
    let (ctx2, r2) = run("-9223372036854775808 .");
    assert_eq!(r2, Ok(()));
    assert_eq!(ctx2.output, vec!["-9223372036854775808".to_string()]);
}

#[test]
fn emit_renders_any_stack_value() {
    // The emission is a non-destructive peek of whatever is on top, a word
    // or a procedure included.
    let mut ctx = ready_context();
    ctx.stack.push(Node::Word("hello".to_string()));
    assert_eq!(eval(&mut ctx, &Node::Function(Prim::Print), FUEL), Ok(()));
    assert_eq!(ctx.output, vec!["hello".to_string()]);
    assert_eq!(ctx.stack, vec![Node::Word("hello".to_string())]);

    let mut ctx2 = ready_context();
    ctx2.stack.push(Node::Proc(vec![]));
    assert_eq!(eval(&mut ctx2, &Node::Function(Prim::Print), FUEL), Ok(()));
    assert_eq!(ctx2.output, vec!["<procedure>".to_string()]);
}

use vstd::prelude::*;
use crate::nodes::{lemma_deep_seq, ErrorSpec, EvalError, Node, NodeSpec, Prim};
use crate::context::{Context, CtxSpec};
use crate::classify::{classify_all, parser};
use crate::lexer::{lexer, tokenize_spec};
use crate::loader::{load_program, load_spec, LoadOutcome};
use crate::render::{render_node, render_spec};

verus! {

/// The sum of two stack values, folded into the `i64` range the way
/// two's-complement addition of in-range operands folds it.
pub open spec fn wrap_add_i64(a: int, b: int) -> int {
    if a + b > i64::MAX {
        a + b - 0x1_0000_0000_0000_0000
    } else if a + b < i64::MIN {
        a + b + 0x1_0000_0000_0000_0000
    } else {
        a + b
    }
}

/// The product of two stack values, folded into the `i64` range as
/// two's-complement multiplication folds it.
pub open spec fn wrap_mul_i64(a: int, b: int) -> int {
    vstd::wrapping::i64_specs::signed_crop(a * b) as int
}

/// What one built-in operation does to a stack and an output record.
/// `+` and `*` pop the top two numbers and push the combination; `dup`
/// pushes a copy of the top value; `.` emits the textual representation of
/// the value on top without removing it.  A missing operand is a stack
/// underflow; a popped value that is not a number is a type mismatch.
pub open spec fn apply_prim_spec(
    p: Prim,
    stack: Seq<NodeSpec>,
    output: Seq<Seq<char>>,
) -> Result<(Seq<NodeSpec>, Seq<Seq<char>>), ErrorSpec> {
    match p {
        Prim::Add | Prim::Mul => {
            if stack.len() == 0 {
                Err(ErrorSpec::StackUnderflow)
            } else {
                match stack.last() {
                    NodeSpec::Number(a) => {
                        let s1 = stack.drop_last();
                        if s1.len() == 0 {
                            Err(ErrorSpec::StackUnderflow)
                        } else {
                            match s1.last() {
                                NodeSpec::Number(b) => {
                                    let v = if p is Add {
                                        wrap_add_i64(a, b)
                                    } else {
                                        wrap_mul_i64(a, b)
                                    };
                                    Ok((s1.drop_last().push(NodeSpec::Number(v)), output))
                                },
                                _ => Err(ErrorSpec::TypeMismatch),
                            }
                        }
                    },
                    _ => Err(ErrorSpec::TypeMismatch),
                }
            }
        },
        Prim::Dup => {
            if stack.len() == 0 {
                Err(ErrorSpec::StackUnderflow)
            } else {
                Ok((stack.push(stack.last()), output))
            }
        },
        Prim::Print => {
            if stack.len() == 0 {
                Err(ErrorSpec::StackUnderflow)
            } else {
                Ok((stack, output.push(render_spec(stack.last()))))
            }
        },
    }
}

/// Runs one built-in operation against the live context.  The dictionary is
/// never touched; on an error the stack and the output are left as they
/// were.
pub fn apply_prim(ctx: &mut Context, p: Prim) -> (r: Result<(), EvalError>)
    ensures
        final(ctx)@.dict == old(ctx)@.dict,
        match r {
            Ok(()) => apply_prim_spec(p, old(ctx)@.stack, old(ctx)@.output) == Ok::<
                (Seq<NodeSpec>, Seq<Seq<char>>),
                ErrorSpec,
            >((final(ctx)@.stack, final(ctx)@.output)),
            Err(e) => apply_prim_spec(p, old(ctx)@.stack, old(ctx)@.output) == Err::<
                (Seq<NodeSpec>, Seq<Seq<char>>),
                ErrorSpec,
            >(e@) && final(ctx)@ == old(ctx)@,
        },
{
    proof {
        lemma_deep_seq(ctx.stack@);
    }
    let n = ctx.stack.len();
    match p {
        Prim::Add | Prim::Mul => {
            if n == 0 {
                return Err(EvalError::StackUnderflow);
            }
            let a = match ctx.stack[n - 1].get_number() {
                Some(a) => a,
                None => {
                    proof {
                        assert(ctx@.stack.last() == ctx.stack@[n - 1]@);
                    }
                    return Err(EvalError::TypeMismatch);
                },
            };
            if n == 1 {
                proof {
                    assert(ctx@.stack.last() == ctx.stack@[n - 1]@);
                }
                return Err(EvalError::StackUnderflow);
            }
            let b = match ctx.stack[n - 2].get_number() {
                Some(b) => b,
                None => {
                    proof {
                        assert(ctx@.stack.last() == ctx.stack@[n - 1]@);
                        assert(ctx@.stack.drop_last().last() == ctx.stack@[n - 2]@);
                    }
                    return Err(EvalError::TypeMismatch);
                },
            };
            let v = if matches!(p, Prim::Add) {
                a.wrapping_add(b)
            } else {
                a.wrapping_mul(b)
            };
            let ghost stack0 = ctx.stack@;
            ctx.stack.pop();
            ctx.stack.pop();
            ctx.stack.push(Node::Number(v));
            proof {
                lemma_deep_seq(ctx.stack@);
                lemma_deep_seq(stack0);
                assert(Node::deep_seq(stack0).last() == stack0[n - 1]@);
                assert(Node::deep_seq(stack0).drop_last().last() == stack0[n - 2]@);
                assert(Node::deep_seq(ctx.stack@) =~= Node::deep_seq(
                    stack0,
                ).drop_last().drop_last().push(NodeSpec::Number(v as int)));
            }
            Ok(())
        },
        Prim::Dup => {
            if n == 0 {
                return Err(EvalError::StackUnderflow);
            }
            let top = ctx.stack[n - 1].clone();
            let ghost stack0 = ctx.stack@;
            ctx.stack.push(top);
            proof {
                lemma_deep_seq(ctx.stack@);
                lemma_deep_seq(stack0);
                assert(Node::deep_seq(ctx.stack@) =~= Node::deep_seq(stack0).push(
                    Node::deep_seq(stack0).last(),
                ));
            }
            Ok(())
        },
        Prim::Print => {
            if n == 0 {
                return Err(EvalError::StackUnderflow);
            }
            let rendered = render_node(&ctx.stack[n - 1]);
            let ghost out0 = ctx.output.deep_view();
            ctx.output.push(rendered);
            proof {
                assert(ctx@.stack.last() == ctx.stack@[n - 1]@);
                assert(ctx.output.deep_view() =~= out0.push(render_spec(ctx@.stack.last())));
            }
            Ok(())
        },
    }
}

/// What one full run of the evaluator leaves behind: the state on
/// completion, the state and the error at the first failure, or the state
/// reached when the step budget ran out first.
pub enum RunOutcome {
    Done { stack: Seq<NodeSpec>, output: Seq<Seq<char>> },
    Failed { error: ErrorSpec, stack: Seq<NodeSpec>, output: Seq<Seq<char>> },
    OutOfSteps { stack: Seq<NodeSpec>, output: Seq<Seq<char>> },
}

/// The evaluator's small-step semantics, folded into one function: `work`
/// is the list of instructions still to run, front first.  A number is
/// pushed; a word is replaced by what the dictionary binds it to, found
/// anew at each use; a built-in runs; a procedure's body is queued ahead of
/// the rest; a structural marker is an invariant violation.  Each step
/// burns one unit of fuel.  Every outcome carries the exact stack and
/// output it was reached with.
pub open spec fn run_spec(
    fuel: nat,
    dict: Map<Seq<char>, NodeSpec>,
    stack: Seq<NodeSpec>,
    output: Seq<Seq<char>>,
    work: Seq<NodeSpec>,
) -> RunOutcome
    decreases fuel,
{
    if work.len() == 0 {
        RunOutcome::Done { stack, output }
    } else if fuel == 0 {
        RunOutcome::OutOfSteps { stack, output }
    } else {
        let rest = work.drop_first();
        match work[0] {
            NodeSpec::Number(v) => run_spec(
                (fuel - 1) as nat,
                dict,
                stack.push(NodeSpec::Number(v)),
                output,
                rest,
            ),
            NodeSpec::Word(w) => {
                if dict.contains_key(w) {
                    run_spec((fuel - 1) as nat, dict, stack, output, seq![dict[w]] + rest)
                } else {
                    RunOutcome::Failed { error: ErrorSpec::UnknownWord(w), stack, output }
                }
            },
            NodeSpec::Function(p) => match apply_prim_spec(p, stack, output) {
                Ok((s2, o2)) => run_spec((fuel - 1) as nat, dict, s2, o2, rest),
                Err(e) => RunOutcome::Failed { error: e, stack, output },
            },
            NodeSpec::Proc(body) => run_spec((fuel - 1) as nat, dict, stack, output, body + rest),
            NodeSpec::StartDefinition => RunOutcome::Failed {
                error: ErrorSpec::InvariantViolation,
                stack,
                output,
            },
            NodeSpec::EndDefinition => RunOutcome::Failed {
                error: ErrorSpec::InvariantViolation,
                stack,
                output,
            },
        }
    }
}

/// More fuel never changes an outcome that was already reached: only a run
/// that ran out of steps can go further.
pub proof fn lemma_run_spec_monotone(
    fuel1: nat,
    fuel2: nat,
    dict: Map<Seq<char>, NodeSpec>,
    stack: Seq<NodeSpec>,
    output: Seq<Seq<char>>,
    work: Seq<NodeSpec>,
)
    requires
        fuel1 <= fuel2,
        !(run_spec(fuel1, dict, stack, output, work) is OutOfSteps),
    ensures
        run_spec(fuel2, dict, stack, output, work) == run_spec(fuel1, dict, stack, output, work),
    decreases fuel1,
{
    if work.len() == 0 {
    } else {
        let rest = work.drop_first();
        match work[0] {
            NodeSpec::Number(v) => {
                lemma_run_spec_monotone(
                    (fuel1 - 1) as nat,
                    (fuel2 - 1) as nat,
                    dict,
                    stack.push(NodeSpec::Number(v)),
                    output,
                    rest,
                );
            },
            NodeSpec::Word(w) => {
                if dict.contains_key(w) {
                    lemma_run_spec_monotone(
                        (fuel1 - 1) as nat,
                        (fuel2 - 1) as nat,
                        dict,
                        stack,
                        output,
                        seq![dict[w]] + rest,
                    );
                }
            },
            NodeSpec::Function(p) => {
                match apply_prim_spec(p, stack, output) {
                    Ok(so) => {
                        lemma_run_spec_monotone(
                            (fuel1 - 1) as nat,
                            (fuel2 - 1) as nat,
                            dict,
                            so.0,
                            so.1,
                            rest,
                        );
                    },
                    Err(_) => {},
                }
            },
            NodeSpec::Proc(body) => {
                lemma_run_spec_monotone(
                    (fuel1 - 1) as nat,
                    (fuel2 - 1) as nat,
                    dict,
                    stack,
                    output,
                    body + rest,
                );
            },
            NodeSpec::StartDefinition => {},
            NodeSpec::EndDefinition => {},
        }
    }
}

/// Copies a program node for node.
pub fn clone_nodes(v: &Vec<Node>) -> (r: Vec<Node>)
    ensures
        Node::deep_seq(r@) == Node::deep_seq(v@),
{
    let mut r: Vec<Node> = Vec::new();
    let n = v.len();
    for i in 0..n
        invariant
            n == v.len(),
            r.len() == i,
            forall|j: int| 0 <= j < i ==> r@[j]@ == v@[j]@,
    {
        let c = v[i].clone();
        r.push(c);
    }
    proof {
        lemma_deep_seq(r@);
        lemma_deep_seq(v@);
        assert(Node::deep_seq(r@) =~= Node::deep_seq(v@));
    }
    r
}

/// Evaluates the instructions of `program` in order against the live
/// context, spending at most `fuel` evaluation steps.  The dictionary is
/// read, never written: definitions are the loader's business.  The result
/// and the final stack and output — on success and on failure alike — are
/// exactly what the step semantics says for that much fuel.
#[verifier::loop_isolation(false)]
pub fn eval_program(ctx: &mut Context, program: &Vec<Node>, fuel: u64) -> (r: Result<
    (),
    EvalError,
>)
    ensures
        final(ctx)@.dict == old(ctx)@.dict,
        match run_spec(
            fuel as nat,
            old(ctx)@.dict,
            old(ctx)@.stack,
            old(ctx)@.output,
            Node::deep_seq(program@),
        ) {
            RunOutcome::Done { stack, output } => r == Ok::<(), EvalError>(()) && final(ctx)@.stack
                == stack && final(ctx)@.output == output,
            RunOutcome::Failed { error, stack, output } => (r matches Err(er) && er@ == error)
                && final(ctx)@.stack == stack && final(ctx)@.output == output,
            RunOutcome::OutOfSteps { stack, output } => (r matches Err(er) && er@
                == ErrorSpec::StepLimitExceeded) && final(ctx)@.stack == stack && final(ctx)@.output == output,
        },
{
    let ghost d = old(ctx)@.dict;
    let mut work: Vec<Node> = clone_nodes(program);
    let mut fuel_left: u64 = fuel;
    loop
        invariant
            ctx@.dict == d,
            fuel_left <= fuel,
            run_spec(fuel_left as nat, d, ctx@.stack, ctx@.output, Node::deep_seq(work@))
                == run_spec(
                fuel as nat,
                d,
                old(ctx)@.stack,
                old(ctx)@.output,
                Node::deep_seq(program@),
            ),
        decreases fuel_left,
    {
        proof {
            lemma_deep_seq(work@);
        }
        if work.len() == 0 {
            return Ok(());
        }
        if fuel_left == 0 {
            return Err(EvalError::StepLimitExceeded);
        }
        fuel_left = fuel_left - 1;
        let ghost work0 = Node::deep_seq(work@);
        let node = work.remove(0);
        proof {
            assert(Node::deep_seq(work@) =~= work0.drop_first());
            lemma_deep_seq(work@);
        }
        match node {
            Node::Number(v) => {
                let ghost stack0 = ctx.stack@;
                ctx.stack.push(Node::Number(v));
                proof {
                    lemma_deep_seq(stack0);
                    lemma_deep_seq(ctx.stack@);
                    assert(Node::deep_seq(ctx.stack@) =~= Node::deep_seq(stack0).push(
                        NodeSpec::Number(v as int),
                    ));
                }
            },
            Node::Word(w) => {
                match ctx.lookup(w.as_str()) {
                    Some(bound) => {
                        let ghost rest0 = Node::deep_seq(work@);
                        work.insert(0, bound);
                        proof {
                            lemma_deep_seq(work@);
                            assert(Node::deep_seq(work@) =~= seq![d[w@]] + rest0);
                        }
                    },
                    None => {
                        return Err(EvalError::UnknownWord(w));
                    },
                }
            },
            Node::Function(p) => {
                match apply_prim(ctx, p) {
                    Ok(()) => {
                    },
                    Err(e) => {
                        return Err(e);
                    },
                }
            },
            Node::Proc(mut body) => {
                let ghost rest_nodes = work@;
                let ghost body_nodes = body@;
                body.append(&mut work);
                work = body;
                proof {
                    lemma_deep_seq(work@);
                    lemma_deep_seq(rest_nodes);
                    lemma_deep_seq(body_nodes);
                    assert(Node::deep_seq(work@) =~= Node::deep_seq(body_nodes) + Node::deep_seq(
                        rest_nodes,
                    ));
                }
            },
            Node::StartDefinition => {
                return Err(EvalError::InvariantViolation);
            },
            Node::EndDefinition => {
                return Err(EvalError::InvariantViolation);
            },
        }
    }
}

/// Evaluates one instruction node against the live context, spending at
/// most `fuel` evaluation steps.
pub fn eval(ctx: &mut Context, word: &Node, fuel: u64) -> (r: Result<(), EvalError>)
    ensures
        final(ctx)@.dict == old(ctx)@.dict,
        match run_spec(fuel as nat, old(ctx)@.dict, old(ctx)@.stack, old(ctx)@.output, seq![word@]) {
            RunOutcome::Done { stack, output } => r == Ok::<(), EvalError>(()) && final(ctx)@.stack
                == stack && final(ctx)@.output == output,
            RunOutcome::Failed { error, stack, output } => (r matches Err(er) && er@ == error)
                && final(ctx)@.stack == stack && final(ctx)@.output == output,
            RunOutcome::OutOfSteps { stack, output } => (r matches Err(er) && er@
                == ErrorSpec::StepLimitExceeded) && final(ctx)@.stack == stack && final(ctx)@.output == output,
        },
{
    let mut single: Vec<Node> = Vec::new();
    single.push(word.clone());
    proof {
        lemma_deep_seq(single@);
        assert(Node::deep_seq(single@) =~= seq![word@]);
    }
    eval_program(ctx, &single, fuel)
}

/// What a whole run of a source program leaves behind: the final state on
/// success, or the first error of any stage together with the exact state
/// the run had reached when it stopped.
pub enum SourceOutcome {
    Finished { state: CtxSpec },
    Stopped { error: ErrorSpec, state: CtxSpec },
}

/// The pipeline end to end: the tokens are classified, the definitions are
/// folded into the dictionary, and the remaining top-level program runs
/// under `fuel` steps.  A run that exceeds the budget stops with
/// `StepLimitExceeded`.
pub open spec fn interpret_spec(c: CtxSpec, src: Seq<char>, fuel: nat) -> SourceOutcome {
    match classify_all(tokenize_spec(src)) {
        Err(e) => SourceOutcome::Stopped { error: e, state: c },
        Ok(nodes) => match load_spec(c.dict, nodes) {
            LoadOutcome::Rejected { error, dict } => SourceOutcome::Stopped {
                error,
                state: CtxSpec { stack: c.stack, dict, output: c.output },
            },
            LoadOutcome::Loaded { dict, top } => match run_spec(fuel, dict, c.stack, c.output, top) {
                RunOutcome::Done { stack, output } => SourceOutcome::Finished {
                    state: CtxSpec { stack, dict, output },
                },
                RunOutcome::Failed { error, stack, output } => SourceOutcome::Stopped {
                    error,
                    state: CtxSpec { stack, dict, output },
                },
                RunOutcome::OutOfSteps { stack, output } => SourceOutcome::Stopped {
                    error: ErrorSpec::StepLimitExceeded,
                    state: CtxSpec { stack, dict, output },
                },
            },
        },
    }
}

/// Runs a source program from start to finish against the live context:
/// tokenize, classify, fold definitions into the dictionary, then evaluate
/// the top-level instructions under a budget of `fuel` steps.  The final
/// state is fixed exactly, whether the run finishes or stops on an error.
pub fn interpret(ctx: &mut Context, source: &str, fuel: u64) -> (r: Result<(), EvalError>)
    ensures
        match interpret_spec(old(ctx)@, source@, fuel as nat) {
            SourceOutcome::Finished { state } => r == Ok::<(), EvalError>(()) && final(ctx)@.stack
                == state.stack && final(ctx)@.dict == state.dict && final(ctx)@.output
                == state.output,
            SourceOutcome::Stopped { error, state } => (r matches Err(er) && er@ == error)
                && final(ctx)@.stack == state.stack && final(ctx)@.dict == state.dict
                && final(ctx)@.output == state.output,
        },
{
    let toks = lexer(source);
    let nodes = match parser(toks) {
        Ok(ns) => ns,
        Err(e) => {
            return Err(e);
        },
    };
    proof {
        lemma_deep_seq(nodes@);
        assert(nodes.deep_view() =~= Node::deep_seq(nodes@));
    }
    let top = match load_program(ctx, nodes) {
        Ok(t) => t,
        Err(e) => {
            return Err(e);
        },
    };
    eval_program(ctx, &top, fuel)
}

} // verus!

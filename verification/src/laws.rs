use vstd::prelude::*;
use crate::nodes::{ErrorSpec, NodeSpec, Prim};
use crate::classify::{
    classify_spec, digits_of, int_literal, is_digit_char, lemma_digits_of_props, parse_int_spec,
};
use crate::lexer::{is_space_char, lemma_token_end, token_end, tokenize_spec};
use crate::eval::{apply_prim_spec, run_spec, wrap_add_i64, RunOutcome};
use crate::loader::{is_marker, lemma_find_marker_at, load_spec, LoadOutcome};

verus! {

/// The literal textual form of any `i64` is one token, and the classifier
/// reads it back as exactly that number.
pub proof fn lemma_literal_classifies(n: int)
    requires
        i64::MIN <= n <= i64::MAX,
    ensures
        tokenize_spec(int_literal(n)) == seq![int_literal(n)],
        classify_spec(int_literal(n)) == Ok::<NodeSpec, ErrorSpec>(NodeSpec::Number(n)),
{
    let s = int_literal(n);
    let m = if n < 0 {
        -n
    } else {
        n
    };
    lemma_digits_of_props(m);
    if n < 0 {
        assert(s.subrange(1, s.len() as int) =~= digits_of(m));
        assert(s[0] == '-');
    } else {
        assert(s =~= digits_of(m));
    }
    // Some character of the literal is a digit: its last one.
    assert(s.len() >= 1);
    assert(s[s.len() - 1] == digits_of(m)[digits_of(m).len() - 1]);
    assert(is_digit_char(s[s.len() - 1]));
    // No character of the literal is whitespace, so it is a single token.
    assert forall|i: int| 0 <= i < s.len() implies !is_space_char(s[i]) by {
        if n < 0 && i == 0 {
            assert(s[i] == '-');
        } else {
            let j = if n < 0 {
                i - 1
            } else {
                i
            };
            assert(s[i] == digits_of(m)[j]);
            assert(is_digit_char(s[i]));
        }
    }
    lemma_token_end(s);
    assert(token_end(s) == s.len());
    assert(s.subrange(0, token_end(s)) =~= s);
    assert(s.subrange(token_end(s), s.len() as int) =~= Seq::<char>::empty());
    assert(!is_space_char(s[0]));
    assert(tokenize_spec(Seq::<char>::empty()) =~= Seq::<Seq<char>>::empty());
    assert(seq![s] + Seq::<Seq<char>>::empty() =~= seq![s]);
    assert(tokenize_spec(s) =~= seq![s]);
    // The whole literal reads back as the number it was made from.
    if n < 0 {
        assert(parse_int_spec(s) == Some(n));
    } else {
        assert(!(s[0] == '-' || s[0] == '+'));
        assert(parse_int_spec(s) == Some(n));
    }
}

/// Evaluating a number literal on any stack appends that number at the
/// top and leaves the output alone; the dictionary is never written by
/// evaluation at all.
pub proof fn lemma_number_pushes(
    dict: Map<Seq<char>, NodeSpec>,
    stack: Seq<NodeSpec>,
    output: Seq<Seq<char>>,
    n: int,
    fuel: nat,
)
    requires
        fuel >= 1,
    ensures
        run_spec(fuel, dict, stack, output, seq![NodeSpec::Number(n)]) == (RunOutcome::Done {
            stack: stack.push(NodeSpec::Number(n)),
            output,
        }),
{
    let work = seq![NodeSpec::Number(n)];
    assert(work.drop_first() =~= Seq::<NodeSpec>::empty());
    assert(run_spec(fuel, dict, stack, output, work) == run_spec(
        (fuel - 1) as nat,
        dict,
        stack.push(NodeSpec::Number(n)),
        output,
        work.drop_first(),
    ));
}

/// Two number literals followed by the `+` operation, run on an empty
/// stack, leave exactly their sum.
pub proof fn lemma_add_on_empty_stack(
    dict: Map<Seq<char>, NodeSpec>,
    output: Seq<Seq<char>>,
    a: int,
    b: int,
    fuel: nat,
)
    requires
        fuel >= 3,
        i64::MIN <= a <= i64::MAX,
        i64::MIN <= b <= i64::MAX,
        i64::MIN <= a + b <= i64::MAX,
    ensures
        run_spec(
            fuel,
            dict,
            Seq::<NodeSpec>::empty(),
            output,
            seq![NodeSpec::Number(a), NodeSpec::Number(b), NodeSpec::Function(Prim::Add)],
        ) == (RunOutcome::Done { stack: seq![NodeSpec::Number(a + b)], output }),
{
    let w0 = seq![NodeSpec::Number(a), NodeSpec::Number(b), NodeSpec::Function(Prim::Add)];
    let w1 = seq![NodeSpec::Number(b), NodeSpec::Function(Prim::Add)];
    let w2 = seq![NodeSpec::Function(Prim::Add)];
    let s0 = Seq::<NodeSpec>::empty();
    let s1 = s0.push(NodeSpec::Number(a));
    let s2 = s1.push(NodeSpec::Number(b));
    assert(w0.drop_first() =~= w1);
    assert(w1.drop_first() =~= w2);
    assert(w2.drop_first() =~= Seq::<NodeSpec>::empty());
    assert(run_spec(fuel, dict, s0, output, w0) == run_spec(
        (fuel - 1) as nat,
        dict,
        s1,
        output,
        w1,
    ));
    assert(run_spec((fuel - 1) as nat, dict, s1, output, w1) == run_spec(
        (fuel - 2) as nat,
        dict,
        s2,
        output,
        w2,
    ));
    assert(s2.last() == NodeSpec::Number(b));
    assert(s2.drop_last() =~= s1);
    assert(s1.last() == NodeSpec::Number(a));
    assert(s1.drop_last() =~= s0);
    assert(wrap_add_i64(b, a) == a + b);
    assert(apply_prim_spec(Prim::Add, s2, output) == Ok::<
        (Seq<NodeSpec>, Seq<Seq<char>>),
        ErrorSpec,
    >((s0.push(NodeSpec::Number(a + b)), output)));
    assert(s0.push(NodeSpec::Number(a + b)) =~= seq![NodeSpec::Number(a + b)]);
    assert(run_spec((fuel - 2) as nat, dict, s2, output, w2) == run_spec(
        (fuel - 3) as nat,
        dict,
        s0.push(NodeSpec::Number(a + b)),
        output,
        Seq::<NodeSpec>::empty(),
    ));
}

/// The definition round trip.  Loading `: name <body> ;` binds `name` to
/// the captured body and leaves nothing to run at top level; evaluating
/// the word `name` under that dictionary then reaches whatever outcome
/// evaluating the body directly reaches, on the same stack and output.
pub proof fn lemma_definition_round_trip(
    dict: Map<Seq<char>, NodeSpec>,
    stack: Seq<NodeSpec>,
    output: Seq<Seq<char>>,
    name: Seq<char>,
    body: Seq<NodeSpec>,
    fuel: nat,
)
    requires
        forall|j: int| 0 <= j < body.len() ==> !is_marker(body[j]),
    ensures
        load_spec(
            dict,
            seq![NodeSpec::StartDefinition, NodeSpec::Word(name)] + body
                + seq![NodeSpec::EndDefinition],
        ) == (LoadOutcome::Loaded {
            dict: dict.insert(name, NodeSpec::Proc(body)),
            top: Seq::<NodeSpec>::empty(),
        }),
        run_spec(
            fuel + 2,
            dict.insert(name, NodeSpec::Proc(body)),
            stack,
            output,
            seq![NodeSpec::Word(name)],
        ) == run_spec(fuel, dict.insert(name, NodeSpec::Proc(body)), stack, output, body),
{
    let d2 = dict.insert(name, NodeSpec::Proc(body));
    let nodes = seq![NodeSpec::StartDefinition, NodeSpec::Word(name)] + body
        + seq![NodeSpec::EndDefinition];
    // The loader's side.
    assert(nodes.len() == body.len() + 3);
    assert(nodes[0] is StartDefinition);
    assert(nodes[1] == NodeSpec::Word(name));
    let rest = nodes.subrange(2, nodes.len() as int);
    assert(rest =~= body + seq![NodeSpec::EndDefinition]);
    assert forall|j: int| 0 <= j < body.len() implies !is_marker(rest[j]) by {
        assert(rest[j] == body[j]);
    }
    assert(rest[body.len() as int] is EndDefinition);
    lemma_find_marker_at(rest, body.len() as int);
    assert(rest.subrange(0, body.len() as int) =~= body);
    assert(rest.subrange(body.len() as int + 1, rest.len() as int) =~= Seq::<NodeSpec>::empty());
    assert(load_spec(d2, Seq::<NodeSpec>::empty()) == (LoadOutcome::Loaded {
        dict: d2,
        top: Seq::<NodeSpec>::empty(),
    }));
    // The evaluator's side: the word resolves to the procedure, whose body
    // is queued as-is.
    let w0 = seq![NodeSpec::Word(name)];
    assert(d2.contains_key(name) && d2[name] == NodeSpec::Proc(body));
    assert(seq![d2[name]] + w0.drop_first() =~= seq![NodeSpec::Proc(body)]);
    assert(run_spec(fuel + 2, d2, stack, output, w0) == run_spec(
        fuel + 1,
        d2,
        stack,
        output,
        seq![NodeSpec::Proc(body)],
    ));
    assert(body + seq![NodeSpec::Proc(body)].drop_first() =~= body);
    assert(run_spec(fuel + 1, d2, stack, output, seq![NodeSpec::Proc(body)]) == run_spec(
        fuel,
        d2,
        stack,
        output,
        body,
    ));
}

/// Duplicating the single value on a stack twice leaves three copies of it.
pub proof fn lemma_dup_twice(
    dict: Map<Seq<char>, NodeSpec>,
    output: Seq<Seq<char>>,
    x: NodeSpec,
    fuel: nat,
)
    requires
        fuel >= 2,
    ensures
        run_spec(
            fuel,
            dict,
            seq![x],
            output,
            seq![NodeSpec::Function(Prim::Dup), NodeSpec::Function(Prim::Dup)],
        ) == (RunOutcome::Done { stack: seq![x, x, x], output }),
{
    let w0 = seq![NodeSpec::Function(Prim::Dup), NodeSpec::Function(Prim::Dup)];
    let w1 = seq![NodeSpec::Function(Prim::Dup)];
    let s0 = seq![x];
    let s1 = seq![x, x];
    let s2 = seq![x, x, x];
    assert(w0.drop_first() =~= w1);
    assert(w1.drop_first() =~= Seq::<NodeSpec>::empty());
    assert(s0.push(s0.last()) =~= s1);
    assert(s1.push(s1.last()) =~= s2);
    assert(run_spec(fuel, dict, s0, output, w0) == run_spec((fuel - 1) as nat, dict, s1, output, w1));
    assert(run_spec((fuel - 1) as nat, dict, s1, output, w1) == run_spec(
        (fuel - 2) as nat,
        dict,
        s2,
        output,
        Seq::<NodeSpec>::empty(),
    ));
}

/// Redefinition.  Binding a name again replaces what every later lookup
/// of that name sees: the dictionary is the same as if only the second
/// binding had ever been made, evaluating the word steps into the second
/// binding, and every other name's binding is untouched.
pub proof fn lemma_redefinition(
    dict: Map<Seq<char>, NodeSpec>,
    name: Seq<char>,
    first: NodeSpec,
    second: NodeSpec,
    stack: Seq<NodeSpec>,
    output: Seq<Seq<char>>,
    fuel: nat,
)
    requires
        fuel >= 1,
    ensures
        dict.insert(name, first).insert(name, second) == dict.insert(name, second),
        forall|w: Seq<char>|
            w != name && dict.contains_key(w) ==> dict.insert(name, first).insert(
                name,
                second,
            ).contains_key(w) && dict.insert(name, first).insert(name, second)[w] == dict[w],
        run_spec(
            fuel,
            dict.insert(name, first).insert(name, second),
            stack,
            output,
            seq![NodeSpec::Word(name)],
        ) == run_spec(
            (fuel - 1) as nat,
            dict.insert(name, first).insert(name, second),
            stack,
            output,
            seq![second],
        ),
{
    let d2 = dict.insert(name, first).insert(name, second);
    assert(d2 =~= dict.insert(name, second));
    assert(d2.contains_key(name) && d2[name] == second);
    assert(seq![d2[name]] + seq![NodeSpec::Word(name)].drop_first() =~= seq![second]);
}

/// Evaluating a procedure with an empty body changes nothing: the stack,
/// the dictionary and the output all come through untouched.
pub proof fn lemma_empty_proc_is_noop(
    dict: Map<Seq<char>, NodeSpec>,
    stack: Seq<NodeSpec>,
    output: Seq<Seq<char>>,
    fuel: nat,
)
    requires
        fuel >= 1,
    ensures
        run_spec(fuel, dict, stack, output, seq![NodeSpec::Proc(Seq::<NodeSpec>::empty())])
            == (RunOutcome::Done { stack, output }),
{
    let w0 = seq![NodeSpec::Proc(Seq::<NodeSpec>::empty())];
    assert(Seq::<NodeSpec>::empty() + w0.drop_first() =~= Seq::<NodeSpec>::empty());
    assert(run_spec(fuel, dict, stack, output, w0) == run_spec(
        (fuel - 1) as nat,
        dict,
        stack,
        output,
        Seq::<NodeSpec>::empty(),
    ));
}

/// The `+` operation on an empty stack is a stack underflow, not a crash:
/// the run stops with that error and pushes nothing.
pub proof fn lemma_add_underflows_empty(
    dict: Map<Seq<char>, NodeSpec>,
    output: Seq<Seq<char>>,
    fuel: nat,
)
    requires
        fuel >= 1,
    ensures
        run_spec(
            fuel,
            dict,
            Seq::<NodeSpec>::empty(),
            output,
            seq![NodeSpec::Function(Prim::Add)],
        ) == (RunOutcome::Failed {
            error: ErrorSpec::StackUnderflow,
            stack: Seq::<NodeSpec>::empty(),
            output,
        }),
{
    assert(apply_prim_spec(Prim::Add, Seq::<NodeSpec>::empty(), output) == Err::<
        (Seq<NodeSpec>, Seq<Seq<char>>),
        ErrorSpec,
    >(ErrorSpec::StackUnderflow));
}

} // verus!

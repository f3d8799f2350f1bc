use vstd::prelude::*;
use crate::nodes::{lemma_deep_seq, ErrorSpec, EvalError, Node, NodeSpec};
use crate::context::Context;

verus! {

/// A structural marker: either bracket of a definition.
pub open spec fn is_marker(n: NodeSpec) -> bool {
    n is StartDefinition || n is EndDefinition
}

/// The index of the first structural marker in `s`, if any.
pub open spec fn find_marker(s: Seq<NodeSpec>) -> Option<int>
    decreases s.len(),
{
    if s.len() == 0 {
        None
    } else if is_marker(s[0]) {
        Some(0)
    } else {
        match find_marker(s.drop_first()) {
            Some(i) => Some(i + 1),
            None => None,
        }
    }
}

pub proof fn lemma_find_marker(s: Seq<NodeSpec>)
    ensures
        match find_marker(s) {
            Some(i) => 0 <= i < s.len() && is_marker(s[i]) && forall|j: int|
                0 <= j < i ==> !is_marker(s[j]),
            None => forall|j: int| 0 <= j < s.len() ==> !is_marker(s[j]),
        },
    decreases s.len(),
{
    if s.len() > 0 && !is_marker(s[0]) {
        lemma_find_marker(s.drop_first());
        match find_marker(s) {
            Some(i) => {
                assert(s.drop_first()[i - 1] == s[i]);
                assert forall|j: int| 0 <= j < i implies !is_marker(s[j]) by {
                    if j > 0 {
                        assert(s.drop_first()[j - 1] == s[j]);
                    }
                }
            },
            None => {
                assert forall|j: int| 0 <= j < s.len() implies !is_marker(s[j]) by {
                    if j > 0 {
                        assert(s.drop_first()[j - 1] == s[j]);
                    }
                }
            },
        }
    }
}

/// If the first structural marker of `s` sits at `i`, `find_marker` says
/// so.
pub proof fn lemma_find_marker_at(s: Seq<NodeSpec>, i: int)
    requires
        0 <= i < s.len(),
        is_marker(s[i]),
        forall|j: int| 0 <= j < i ==> !is_marker(s[j]),
    ensures
        find_marker(s) == Some(i),
    decreases i,
{
    if i > 0 {
        assert forall|j: int| 0 <= j < i - 1 implies !is_marker(s.drop_first()[j]) by {
            assert(s.drop_first()[j] == s[j + 1]);
        }
        assert(s.drop_first()[i - 1] == s[i]);
        lemma_find_marker_at(s.drop_first(), i - 1);
    }
}

/// What the loader leaves behind: the dictionary after every definition and
/// the top-level program that remains, or the first error together with the
/// dictionary as it stood when the error was found — definitions completed
/// before a failing bracket stay bound.
pub enum LoadOutcome {
    Loaded { dict: Map<Seq<char>, NodeSpec>, top: Seq<NodeSpec> },
    Rejected { error: ErrorSpec, dict: Map<Seq<char>, NodeSpec> },
}

/// The loader's contract, node by node: a definition-opening marker must be
/// followed by a word naming the new procedure; everything up to the next
/// structural marker is captured, verbatim, as the procedure's body, and
/// that marker must be the closing one — an opening marker inside a body is
/// a nested definition, which is rejected outright, so no stored body ever
/// holds a marker.  Every other node passes through into the top-level
/// program.
pub open spec fn load_spec(
    dict: Map<Seq<char>, NodeSpec>,
    nodes: Seq<NodeSpec>,
) -> LoadOutcome
    decreases nodes.len(),
    when nodes.len() >= 0
    via load_spec_decreases
{
    if nodes.len() == 0 {
        LoadOutcome::Loaded { dict, top: Seq::empty() }
    } else if nodes[0] is StartDefinition {
        if nodes.len() == 1 {
            LoadOutcome::Rejected { error: ErrorSpec::MissingDefinitionName, dict }
        } else {
            match nodes[1] {
                NodeSpec::Word(name) => {
                    let rest = nodes.subrange(2, nodes.len() as int);
                    match find_marker(rest) {
                        Some(i) => {
                            if rest[i] is EndDefinition {
                                load_spec(
                                    dict.insert(name, NodeSpec::Proc(rest.subrange(0, i))),
                                    rest.subrange(i + 1, rest.len() as int),
                                )
                            } else {
                                LoadOutcome::Rejected {
                                    error: ErrorSpec::InvariantViolation,
                                    dict,
                                }
                            }
                        },
                        None => LoadOutcome::Rejected {
                            error: ErrorSpec::UnterminatedDefinition,
                            dict,
                        },
                    }
                },
                _ => LoadOutcome::Rejected { error: ErrorSpec::MissingDefinitionName, dict },
            }
        }
    } else {
        match load_spec(dict, nodes.drop_first()) {
            LoadOutcome::Loaded { dict: d2, top } => LoadOutcome::Loaded {
                dict: d2,
                top: seq![nodes[0]] + top,
            },
            LoadOutcome::Rejected { error, dict: d2 } => LoadOutcome::Rejected {
                error,
                dict: d2,
            },
        }
    }
}

#[via_fn]
proof fn load_spec_decreases(dict: Map<Seq<char>, NodeSpec>, nodes: Seq<NodeSpec>) {
    if nodes.len() > 1 && nodes[0] is StartDefinition && nodes[1] is Word {
        lemma_find_marker(nodes.subrange(2, nodes.len() as int));
    }
}

/// Consumes a classified program, binding each definition bracket's body in
/// the dictionary under its name, and returns the top-level instructions
/// that remain to be evaluated.  The stack and the output are untouched;
/// the dictionary — on success and on failure alike — is exactly what the
/// loading contract says.
#[verifier::loop_isolation(false)]
pub fn load_program(ctx: &mut Context, nodes: Vec<Node>) -> (r: Result<Vec<Node>, EvalError>)
    ensures
        final(ctx)@.stack == old(ctx)@.stack,
        final(ctx)@.output == old(ctx)@.output,
        match r {
            Ok(top) => load_spec(old(ctx)@.dict, Node::deep_seq(nodes@)) == (LoadOutcome::Loaded {
                dict: final(ctx)@.dict,
                top: Node::deep_seq(top@),
            }),
            Err(e) => load_spec(old(ctx)@.dict, Node::deep_seq(nodes@)) == (LoadOutcome::Rejected {
                error: e@,
                dict: final(ctx)@.dict,
            }),
        },
{
    let ghost nodes0 = Node::deep_seq(nodes@);
    let mut rest = nodes;
    let mut top: Vec<Node> = Vec::new();
    loop
        invariant
            ctx@.stack == old(ctx)@.stack,
            ctx@.output == old(ctx)@.output,
            forall|d2: Map<Seq<char>, NodeSpec>, t: Seq<NodeSpec>|
                load_spec(ctx@.dict, Node::deep_seq(rest@)) == (LoadOutcome::Loaded {
                    dict: d2,
                    top: t,
                }) ==> load_spec(old(ctx)@.dict, nodes0) == (LoadOutcome::Loaded {
                    dict: d2,
                    top: Node::deep_seq(top@) + t,
                }),
            forall|e: ErrorSpec, d2: Map<Seq<char>, NodeSpec>|
                load_spec(ctx@.dict, Node::deep_seq(rest@)) == (LoadOutcome::Rejected {
                    error: e,
                    dict: d2,
                }) ==> load_spec(old(ctx)@.dict, nodes0) == (LoadOutcome::Rejected {
                    error: e,
                    dict: d2,
                }),
        decreases rest.len(),
    {
        proof {
            lemma_deep_seq(rest@);
        }
        if rest.len() == 0 {
            proof {
                assert(Node::deep_seq(top@) + Seq::<NodeSpec>::empty() =~= Node::deep_seq(top@));
            }
            return Ok(top);
        }
        let ghost rest_v = Node::deep_seq(rest@);
        let node = rest.remove(0);
        proof {
            assert(Node::deep_seq(rest@) =~= rest_v.drop_first());
            lemma_deep_seq(rest@);
        }
        match node {
            Node::StartDefinition => {
                if rest.len() == 0 {
                    return Err(EvalError::MissingDefinitionName);
                }
                let name_node = rest.remove(0);
                let ghost after_name = Node::deep_seq(rest@);
                proof {
                    assert(after_name =~= rest_v.subrange(2, rest_v.len() as int));
                    lemma_deep_seq(rest@);
                }
                match name_node {
                    Node::Word(name) => {
                        let mut body: Vec<Node> = Vec::new();
                        let mut found = false;
                        while !found && rest.len() > 0
                            invariant
                                forall|j: int|
                                    0 <= j < body@.len() ==> !is_marker(
                                        #[trigger] Node::deep_seq(body@)[j],
                                    ),
                                !found ==> Node::deep_seq(body@) + Node::deep_seq(rest@)
                                    =~= after_name,
                                found ==> find_marker(after_name) == Some(
                                    Node::deep_seq(body@).len() as int,
                                ),
                                found ==> after_name[Node::deep_seq(body@).len() as int]
                                    is EndDefinition,
                                found ==> Node::deep_seq(rest@) =~= after_name.subrange(
                                    Node::deep_seq(body@).len() as int + 1,
                                    after_name.len() as int,
                                ),
                                found ==> Node::deep_seq(body@) =~= after_name.subrange(
                                    0,
                                    Node::deep_seq(body@).len() as int,
                                ),
                            decreases rest.len(),
                        {
                            proof {
                                lemma_deep_seq(rest@);
                                lemma_deep_seq(body@);
                            }
                            let ghost rest_v2 = Node::deep_seq(rest@);
                            let ghost body_v2 = Node::deep_seq(body@);
                            let n2 = rest.remove(0);
                            proof {
                                assert(Node::deep_seq(rest@) =~= rest_v2.drop_first());
                                lemma_deep_seq(rest@);
                            }
                            match n2 {
                                Node::EndDefinition => {
                                    found = true;
                                    proof {
                                        assert(after_name[body_v2.len() as int] is EndDefinition);
                                        lemma_find_marker_at(after_name, body_v2.len() as int);
                                        assert(Node::deep_seq(rest@) =~= after_name.subrange(
                                            body_v2.len() as int + 1,
                                            after_name.len() as int,
                                        ));
                                        assert(Node::deep_seq(body@) =~= after_name.subrange(
                                            0,
                                            body_v2.len() as int,
                                        ));
                                    }
                                },
                                Node::StartDefinition => {
                                    // A nested definition: rejected outright,
                                    // so no marker ever reaches a stored body.
                                    proof {
                                        assert(after_name[body_v2.len() as int]
                                            is StartDefinition);
                                        lemma_find_marker_at(after_name, body_v2.len() as int);
                                    }
                                    return Err(EvalError::InvariantViolation);
                                },
                                other => {
                                    let ghost other_v = other@;
                                    body.push(other);
                                    proof {
                                        lemma_deep_seq(body@);
                                        assert(Node::deep_seq(body@) =~= body_v2 + seq![other_v]);
                                        assert(Node::deep_seq(body@) + Node::deep_seq(rest@)
                                            =~= after_name);
                                    }
                                },
                            }
                        }
                        if !found {
                            proof {
                                lemma_find_marker(after_name);
                                lemma_deep_seq(rest@);
                                lemma_deep_seq(body@);
                                assert(Node::deep_seq(body@) =~= after_name);
                                match find_marker(after_name) {
                                    Some(i) => {
                                        assert(is_marker(after_name[i]));
                                        assert(!is_marker(Node::deep_seq(body@)[i]));
                                        assert(false);
                                    },
                                    None => {},
                                }
                            }
                            return Err(EvalError::UnterminatedDefinition);
                        }
                        proof {
                            lemma_deep_seq(rest@);
                            lemma_deep_seq(body@);
                            lemma_find_marker(after_name);
                            assert(Node::deep_seq(rest@).len() == after_name.len()
                                - Node::deep_seq(body@).len() - 1);
                            assert(rest@.len() < rest_v.len());
                        }
                        ctx.define(name, Node::Proc(body));
                    },
                    _ => {
                        return Err(EvalError::MissingDefinitionName);
                    },
                }
            },
            other => {
                let ghost top_nodes = top@;
                let ghost top_v = Node::deep_seq(top@);
                let ghost other_v = other@;
                top.push(other);
                proof {
                    lemma_deep_seq(top@);
                    lemma_deep_seq(top_nodes);
                    assert(Node::deep_seq(top@) =~= top_v + seq![other_v]);
                    assert forall|d2: Map<Seq<char>, NodeSpec>, t: Seq<NodeSpec>|
                        load_spec(ctx@.dict, Node::deep_seq(rest@)) == (LoadOutcome::Loaded {
                            dict: d2,
                            top: t,
                        }) implies load_spec(old(ctx)@.dict, nodes0) == (LoadOutcome::Loaded {
                        dict: d2,
                        top: Node::deep_seq(top@) + t,
                    }) by {
                        assert(load_spec(ctx@.dict, rest_v) == (LoadOutcome::Loaded {
                            dict: d2,
                            top: seq![rest_v[0]] + t,
                        }));
                        assert(top_v + (seq![rest_v[0]] + t) =~= Node::deep_seq(top@) + t);
                    }
                }
            },
        }
    }
}

} // verus!

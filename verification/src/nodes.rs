use vstd::prelude::*;

verus! {

/// The built-in operations that the dictionary is seeded with.  Each one
/// works on the execution context's stack alone; `Print` also appends to
/// the context's output record.
#[derive(Clone, Copy, PartialEq, Eq, Structural, Debug)]
pub enum Prim {
    Add,
    Mul,
    Dup,
    Print,
}

/// One instruction node.  A program is a flat sequence of these; the parser
/// folds definition brackets into `Proc` nodes, so `StartDefinition` and
/// `EndDefinition` never reach the evaluator from a well-formed program.
#[derive(Debug, PartialEq, Eq)]
pub enum Node {
    Number(i64),
    Word(String),
    Function(Prim),
    Proc(Vec<Node>),
    StartDefinition,
    EndDefinition,
}

/// The mathematical shape of a `Node`: integers instead of machine words,
/// character sequences instead of heap strings.
pub enum NodeSpec {
    Number(int),
    Word(Seq<char>),
    Function(Prim),
    Proc(Seq<NodeSpec>),
    StartDefinition,
    EndDefinition,
}

impl Node {
    pub open spec fn deep(self) -> NodeSpec
        decreases self,
    {
        match self {
            Node::Number(n) => NodeSpec::Number(n as int),
            Node::Word(w) => NodeSpec::Word(w@),
            Node::Function(p) => NodeSpec::Function(p),
            Node::Proc(body) => NodeSpec::Proc(Node::deep_seq(body@)),
            Node::StartDefinition => NodeSpec::StartDefinition,
            Node::EndDefinition => NodeSpec::EndDefinition,
        }
    }

    pub open spec fn deep_seq(s: Seq<Node>) -> Seq<NodeSpec>
        decreases s,
    {
        if s.len() == 0 {
            Seq::empty()
        } else {
            seq![s[0].deep()] + Node::deep_seq(s.subrange(1, s.len() as int))
        }
    }
}

impl View for Node {
    type V = NodeSpec;

    open spec fn view(&self) -> NodeSpec {
        self.deep()
    }
}

impl DeepView for Node {
    type V = NodeSpec;

    open spec fn deep_view(&self) -> NodeSpec {
        self.deep()
    }
}

/// `deep_seq` is the element-wise view of a node sequence.
pub broadcast proof fn lemma_deep_seq(s: Seq<Node>)
    ensures
        (#[trigger] Node::deep_seq(s)).len() == s.len(),
        forall|i: int| 0 <= i < s.len() ==> Node::deep_seq(s)[i] == s[i].deep(),
    decreases s.len(),
{
    if s.len() > 0 {
        lemma_deep_seq(s.subrange(1, s.len() as int));
    }
}

impl Clone for Node {
    #[verifier::loop_isolation(false)]
    fn clone(&self) -> (r: Node)
        ensures
            r@ == self@,
        decreases self,
    {
        match self {
            Node::Number(n) => Node::Number(*n),
            Node::Word(w) => Node::Word(w.clone()),
            Node::Function(p) => Node::Function(*p),
            Node::Proc(body) => {
                let mut copy: Vec<Node> = Vec::new();
                let n = body.len();
                for i in 0..n
                    invariant
                        n == body.len(),
                        copy.len() == i,
                        forall|j: int| 0 <= j < i ==> copy@[j]@ == body@[j]@,
                {
                    proof {
                        assert(decreases_to!(*self => body@[i as int]));
                    }
                    let c = body[i].clone();
                    copy.push(c);
                }
                proof {
                    lemma_deep_seq(copy@);
                    lemma_deep_seq(body@);
                    assert(Node::deep_seq(copy@) =~= Node::deep_seq(body@));
                }
                Node::Proc(copy)
            },
            Node::StartDefinition => Node::StartDefinition,
            Node::EndDefinition => Node::EndDefinition,
        }
    }
}

impl Node {
    /// The payload of a `Number` node, if that is what this node is.
    pub fn get_number(&self) -> (r: Option<i64>)
        ensures
            match self@ {
                NodeSpec::Number(n) => r matches Some(v) && v as int == n,
                _ => r is None,
            },
    {
        match self {
            Node::Number(i) => Some(*i),
            _ => None,
        }
    }

    /// The built-in operation held by a `Function` node, if that is what this node is.
    pub fn get_function(&self) -> (r: Option<Prim>)
        ensures
            match self@ {
                NodeSpec::Function(p) => r == Some(p),
                _ => r is None,
            },
    {
        match self {
            Node::Function(f) => Some(*f),
            _ => None,
        }
    }

    /// The name held by a `Word` node, if that is what this node is.
    pub fn get_word(&self) -> (r: Option<String>)
        ensures
            match self@ {
                NodeSpec::Word(w) => r matches Some(s) && s@ == w,
                _ => r is None,
            },
    {
        match self {
            Node::Word(word) => Some(word.clone()),
            _ => None,
        }
    }
}

/// Why a run stopped.  Every condition is fatal: the interpreter never
/// recovers, retries, or continues past the first failure.
#[derive(Debug, PartialEq, Eq)]
pub enum EvalError {
    /// A token with a digit in it was not a well-formed `i64` literal.
    MalformedNumber(String),
    /// A definition bracket was opened but its closing marker never came.
    UnterminatedDefinition,
    /// A definition bracket was not immediately followed by a word naming it.
    MissingDefinitionName,
    /// A word was evaluated that the dictionary does not bind.
    UnknownWord(String),
    /// A built-in operation needed more values than the stack held.
    StackUnderflow,
    /// A built-in operation popped a value of the wrong kind.
    TypeMismatch,
    /// A structural marker stood where none may: opening a definition
    /// inside another definition's body, or reaching the evaluator
    /// directly.
    InvariantViolation,
    /// The step budget handed to the evaluator ran out before the program
    /// finished; a run that would recurse without bound ends here.
    StepLimitExceeded,
}

/// The mathematical shape of an `EvalError`.
pub enum ErrorSpec {
    MalformedNumber(Seq<char>),
    UnterminatedDefinition,
    MissingDefinitionName,
    UnknownWord(Seq<char>),
    StackUnderflow,
    TypeMismatch,
    InvariantViolation,
    StepLimitExceeded,
}

impl View for EvalError {
    type V = ErrorSpec;

    open spec fn view(&self) -> ErrorSpec {
        match self {
            EvalError::MalformedNumber(t) => ErrorSpec::MalformedNumber(t@),
            EvalError::UnterminatedDefinition => ErrorSpec::UnterminatedDefinition,
            EvalError::MissingDefinitionName => ErrorSpec::MissingDefinitionName,
            EvalError::UnknownWord(w) => ErrorSpec::UnknownWord(w@),
            EvalError::StackUnderflow => ErrorSpec::StackUnderflow,
            EvalError::TypeMismatch => ErrorSpec::TypeMismatch,
            EvalError::InvariantViolation => ErrorSpec::InvariantViolation,
            EvalError::StepLimitExceeded => ErrorSpec::StepLimitExceeded,
        }
    }
}

} // verus!

use vstd::prelude::*;
use crate::nodes::{Node, NodeSpec, Prim};

verus! {

/// The binding that a run of entries gives each name: a later entry for the
/// same name shadows an earlier one, so redefinition replaces the binding
/// for every later lookup.
pub open spec fn entries_map(s: Seq<(String, Node)>) -> Map<Seq<char>, NodeSpec>
    decreases s.len(),
{
    if s.len() == 0 {
        Map::empty()
    } else {
        entries_map(s.drop_last()).insert(s.last().0@, s.last().1@)
    }
}

/// The mutable state that evaluation works on: a value stack, the word
/// dictionary, and the record of what the `.` operation has emitted.
pub struct Context {
    pub stack: Vec<Node>,
    pub dict: Vec<(String, Node)>,
    pub output: Vec<String>,
}

/// The mathematical shape of a `Context`.
pub struct CtxSpec {
    pub stack: Seq<NodeSpec>,
    pub dict: Map<Seq<char>, NodeSpec>,
    pub output: Seq<Seq<char>>,
}

impl View for Context {
    type V = CtxSpec;

    open spec fn view(&self) -> CtxSpec {
        CtxSpec {
            stack: Node::deep_seq(self.stack@),
            dict: entries_map(self.dict@),
            output: self.output.deep_view(),
        }
    }
}

impl Context {
    /// A fresh context: empty stack, empty dictionary, nothing emitted.
    pub fn new() -> (r: Context)
        ensures
            r@.stack == Seq::<NodeSpec>::empty(),
            r@.dict == Map::<Seq<char>, NodeSpec>::empty(),
            r@.output == Seq::<Seq<char>>::empty(),
    {
        let c = Context { stack: Vec::new(), dict: Vec::new(), output: Vec::new() };
        proof {
            assert(c@.stack =~= Seq::<NodeSpec>::empty());
            assert(c@.output =~= Seq::<Seq<char>>::empty());
        }
        c
    }

    /// Binds `name` to the node `node`, shadowing any earlier binding.
    pub fn define(&mut self, name: String, node: Node)
        ensures
            final(self)@.dict == old(self)@.dict.insert(name@, node@),
            final(self)@.stack == old(self)@.stack,
            final(self)@.output == old(self)@.output,
    {
        let ghost prev = self.dict@;
        self.dict.push((name, node));
        proof {
            assert(self.dict@.drop_last() =~= prev);
        }
    }

    /// Installs one built-in operation under `name`.
    pub fn register_function(&mut self, name: &str, f: Prim)
        ensures
            final(self)@.dict == old(self)@.dict.insert(name@, NodeSpec::Function(f)),
            final(self)@.stack == old(self)@.stack,
            final(self)@.output == old(self)@.output,
    {
        self.define(name.to_owned(), Node::Function(f));
    }

    /// The node that `name` currently resolves to, if any: the most recent
    /// binding wins.
    #[verifier::loop_isolation(false)]
    pub fn lookup(&self, name: &str) -> (r: Option<Node>)
        ensures
            match r {
                Some(node) => self@.dict.contains_key(name@) && node@ == self@.dict[name@],
                None => !self@.dict.contains_key(name@),
            },
    {
        let ghost s = self.dict@;
        let ghost k = name@;
        let key: String = name.to_owned();
        let mut j = self.dict.len();
        proof {
            assert(s.subrange(0, j as int) =~= s);
        }
        while j > 0
            invariant
                j <= s.len(),
                entries_map(s).contains_key(k) == entries_map(
                    s.subrange(0, j as int),
                ).contains_key(k),
                entries_map(s).contains_key(k) ==> entries_map(s.subrange(0, j as int))[k]
                    == entries_map(s)[k],
            decreases j,
        {
            j = j - 1;
            proof {
                assert(s.subrange(0, j + 1).drop_last() =~= s.subrange(0, j as int));
                assert(s.subrange(0, j + 1).last() == s[j as int]);
            }
            let entry = &self.dict[j];
            if entry.0 == key {
                let node = entry.1.clone();
                return Some(node);
            }
        }
        proof {
            assert(s.subrange(0, 0) =~= Seq::<(String, Node)>::empty());
        }
        None
    }

    /// Seeds the dictionary with the fixed table of built-in operations:
    /// `+`, `*`, `dup` and `.`.
    pub fn install_primitives(&mut self)
        ensures
            final(self)@.dict == old(self)@.dict.insert("+"@, NodeSpec::Function(Prim::Add)).insert(
                "*"@,
                NodeSpec::Function(Prim::Mul),
            ).insert("dup"@, NodeSpec::Function(Prim::Dup)).insert(
                "."@,
                NodeSpec::Function(Prim::Print),
            ),
            final(self)@.stack == old(self)@.stack,
            final(self)@.output == old(self)@.output,
    {
        self.register_function("+", Prim::Add);
        self.register_function("*", Prim::Mul);
        self.register_function("dup", Prim::Dup);
        self.register_function(".", Prim::Print);
    }
}

} // verus!

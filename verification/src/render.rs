use vstd::prelude::*;
use vstd::string::StringExecFns;
use crate::classify::{digit_val, digits_val, int_literal, is_digit_char, digit_char, digits_of};
use crate::nodes::{Node, NodeSpec};

verus! {

/// The textual representation that the `.` operation emits for one stack
/// value: a number as its decimal literal, a word as its name, and a fixed
/// tag for anything that has no textual value of its own.
pub open spec fn render_spec(n: NodeSpec) -> Seq<char> {
    match n {
        NodeSpec::Number(v) => int_literal(v),
        NodeSpec::Word(w) => w,
        NodeSpec::Function(_) => "<primitive>"@,
        NodeSpec::Proc(_) => "<procedure>"@,
        NodeSpec::StartDefinition => "<definition-start>"@,
        NodeSpec::EndDefinition => "<definition-end>"@,
    }
}

/// Appends the character of one digit value.
fn append_digit(out: &mut String, d: u64)
    requires
        d < 10,
    ensures
        final(out)@ == old(out)@ + seq![digit_char(d as int)],
{
    proof {
        reveal_strlit("0");
        reveal_strlit("1");
        reveal_strlit("2");
        reveal_strlit("3");
        reveal_strlit("4");
        reveal_strlit("5");
        reveal_strlit("6");
        reveal_strlit("7");
        reveal_strlit("8");
        reveal_strlit("9");
    }
    if d == 0 {
        out.append("0");
        proof {
            assert(final(out)@ =~= old(out)@ + seq![digit_char(d as int)]);
        }
    } else if d == 1 {
        out.append("1");
        proof {
            assert(final(out)@ =~= old(out)@ + seq![digit_char(d as int)]);
        }
    } else if d == 2 {
        out.append("2");
        proof {
            assert(final(out)@ =~= old(out)@ + seq![digit_char(d as int)]);
        }
    } else if d == 3 {
        out.append("3");
        proof {
            assert(final(out)@ =~= old(out)@ + seq![digit_char(d as int)]);
        }
    } else if d == 4 {
        out.append("4");
        proof {
            assert(final(out)@ =~= old(out)@ + seq![digit_char(d as int)]);
        }
    } else if d == 5 {
        out.append("5");
        proof {
            assert(final(out)@ =~= old(out)@ + seq![digit_char(d as int)]);
        }
    } else if d == 6 {
        out.append("6");
        proof {
            assert(final(out)@ =~= old(out)@ + seq![digit_char(d as int)]);
        }
    } else if d == 7 {
        out.append("7");
        proof {
            assert(final(out)@ =~= old(out)@ + seq![digit_char(d as int)]);
        }
    } else if d == 8 {
        out.append("8");
        proof {
            assert(final(out)@ =~= old(out)@ + seq![digit_char(d as int)]);
        }
    } else {
        out.append("9");
        proof {
            assert(final(out)@ =~= old(out)@ + seq![digit_char(d as int)]);
        }
    }
}

/// Appends the decimal digit run of a magnitude, most significant first.
fn append_digits(out: &mut String, m: u64)
    ensures
        final(out)@ == old(out)@ + digits_of(m as int),
    decreases m,
{
    if m < 10 {
        append_digit(out, m);
    } else {
        append_digits(out, m / 10);
        append_digit(out, m % 10);
        proof {
            assert(final(out)@ =~= old(out)@ + digits_of(m as int));
        }
    }
}

/// The decimal literal of an `i64`, exactly as the classifier reads one
/// back.
pub fn render_i64(n: i64) -> (r: String)
    ensures
        r@ == int_literal(n as int),
{
    let mut out = String::new();
    if n < 0 {
        proof {
            reveal_strlit("-");
        }
        out.append("-");
        let m: u64 = if n == i64::MIN {
            9223372036854775808u64
        } else {
            (-n) as u64
        };
        proof {
            assert(m as int == -(n as int));
        }
        append_digits(&mut out, m);
        proof {
            assert(out@ =~= seq!['-'] + digits_of(-(n as int)));
        }
    } else {
        append_digits(&mut out, n as u64);
        proof {
            assert(out@ =~= digits_of(n as int));
        }
    }
    out
}

/// The textual representation of one stack value.
pub fn render_node(node: &Node) -> (r: String)
    ensures
        r@ == render_spec(node@),
{
    match node {
        Node::Number(n) => render_i64(*n),
        Node::Word(w) => w.clone(),
        Node::Function(_) => String::from_str("<primitive>"),
        Node::Proc(_) => String::from_str("<procedure>"),
        Node::StartDefinition => String::from_str("<definition-start>"),
        Node::EndDefinition => String::from_str("<definition-end>"),
    }
}

} // verus!

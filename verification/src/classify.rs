use vstd::prelude::*;
use vstd::string::StrSliceExecFns;
use crate::nodes::{ErrorSpec, EvalError, Node, NodeSpec};

verus! {

/// An ASCII decimal digit.
pub open spec fn is_digit_char(c: char) -> bool {
    48 <= c as u32 <= 57
}

pub open spec fn digit_val(c: char) -> int {
    c as u32 - 48
}

pub open spec fn contains_char(s: Seq<char>, c: char) -> bool {
    exists|i: int| 0 <= i < s.len() && s[i] == c
}

pub open spec fn contains_digit(s: Seq<char>) -> bool {
    exists|i: int| 0 <= i < s.len() && is_digit_char(s[i])
}

/// Relies on `regex::Regex::new` and `regex::Regex::is_match`: the pattern
/// `[0-9]` matches a text exactly when some character of it is an ASCII
/// decimal digit.
#[verifier::external_body]
fn matches_digit(token: &str) -> (r: bool)
    ensures
        r == contains_digit(token@),
{
    regex::Regex::new("[0-9]").unwrap().is_match(token)
}

/// Relies on `regex::Regex::new` and `regex::Regex::is_match`: the pattern
/// `:` matches a text exactly when some character of it is a colon.
#[verifier::external_body]
fn matches_colon(token: &str) -> (r: bool)
    ensures
        r == contains_char(token@, ':'),
{
    regex::Regex::new(":").unwrap().is_match(token)
}

/// Relies on `regex::Regex::new` and `regex::Regex::is_match`: the pattern
/// `;` matches a text exactly when some character of it is a semicolon.
#[verifier::external_body]
fn matches_semicolon(token: &str) -> (r: bool)
    ensures
        r == contains_char(token@, ';'),
{
    regex::Regex::new(";").unwrap().is_match(token)
}

/// A non-empty run of ASCII decimal digits.
pub open spec fn is_digit_seq(s: Seq<char>) -> bool {
    s.len() > 0 && forall|i: int| 0 <= i < s.len() ==> is_digit_char(s[i])
}

/// The value of a digit run, most significant digit first.
pub open spec fn digits_val(s: Seq<char>) -> int
    decreases s.len(),
{
    if s.len() == 0 {
        0
    } else {
        digits_val(s.drop_last()) * 10 + digit_val(s.last())
    }
}

/// The signed integer denoted by `s`: an optional leading `+` or `-`
/// followed by one or more ASCII decimal digits, with a value that fits in
/// an `i64`.  Anything else denotes no integer at all.
pub open spec fn parse_int_spec(s: Seq<char>) -> Option<int> {
    let body = if s.len() > 0 && (s[0] == '-' || s[0] == '+') {
        s.subrange(1, s.len() as int)
    } else {
        s
    };
    let negative = s.len() > 0 && s[0] == '-';
    if is_digit_seq(body) {
        let v = if negative {
            -digits_val(body)
        } else {
            digits_val(body)
        };
        if i64::MIN <= v <= i64::MAX {
            Some(v)
        } else {
            None
        }
    } else {
        None
    }
}

pub proof fn lemma_digits_val_nonneg(s: Seq<char>)
    requires
        forall|i: int| 0 <= i < s.len() ==> is_digit_char(s[i]),
    ensures
        digits_val(s) >= 0,
    decreases s.len(),
{
    if s.len() > 0 {
        assert(forall|i: int|
            0 <= i < s.drop_last().len() ==> is_digit_char(s.drop_last()[i]));
        lemma_digits_val_nonneg(s.drop_last());
    }
}

pub proof fn lemma_digits_val_monotone(s: Seq<char>, k: int)
    requires
        0 <= k <= s.len(),
        forall|i: int| 0 <= i < s.len() ==> is_digit_char(s[i]),
    ensures
        digits_val(s.subrange(0, k)) <= digits_val(s),
    decreases s.len() - k,
{
    if k == s.len() {
        assert(s.subrange(0, k) =~= s);
    } else {
        lemma_digits_val_monotone(s, k + 1);
        let t = s.subrange(0, k + 1);
        assert(t.drop_last() =~= s.subrange(0, k));
        assert(forall|i: int| 0 <= i < s.subrange(0, k).len() ==> is_digit_char(s.subrange(0, k)[i]));
        lemma_digits_val_nonneg(s.subrange(0, k));
        assert(digits_val(t) == digits_val(s.subrange(0, k)) * 10 + digit_val(t.last()));
    }
}

/// Reads a signed decimal `i64` from the whole of `s`, exactly when `s`
/// denotes one.
#[verifier::loop_isolation(false)]
pub fn parse_i64(s: &str) -> (r: Option<i64>)
    ensures
        match r {
            Some(v) => parse_int_spec(s@) == Some(v as int),
            None => parse_int_spec(s@) is None,
        },
{
    let n = s.unicode_len();
    if n == 0 {
        return None;
    }
    let c0 = s.get_char(0);
    let mut i: usize = 1;
    let mut negative = false;
    if c0 == '-' {
        negative = true;
    } else if c0 == '+' {
    } else {
        i = 0;
    }
    let start = i;
    let ghost body = if s@[0] == '-' || s@[0] == '+' {
        s@.subrange(1, n as int)
    } else {
        s@
    };
    proof {
        if start == 0 {
            assert(body =~= s@.subrange(0, n as int));
        }
        assert(body =~= s@.subrange(start as int, n as int));
    }
    if i == n {
        return None;
    }
    let mut acc: i64 = 0;
    while i < n
        invariant
            start <= i <= n,
            forall|j: int| 0 <= j < i - start ==> is_digit_char(body[j]),
            acc as int == -digits_val(body.subrange(0, i - start)),
        decreases n - i,
    {
        let ghost k = i - start;
        let c = s.get_char(i);
        let cu = c as u32;
        if cu < 48 || 57 < cu {
            proof {
                assert(body[k] == s@[i as int]);
                assert(!is_digit_seq(body));
            }
            return None;
        }
        let d = cu - 48;
        proof {
            assert(body.subrange(0, k + 1).drop_last() =~= body.subrange(0, k));
            assert(body.subrange(0, k + 1).last() == body[k]);
            assert(body[k] == s@[i as int]);
            assert(forall|j: int|
                0 <= j < body.subrange(0, k).len() ==> is_digit_char(body.subrange(0, k)[j]));
            lemma_digits_val_nonneg(body.subrange(0, k));
        }
        let ghost val_next = digits_val(body.subrange(0, k + 1));
        let step = match acc.checked_mul(10) {
            Some(m) => m.checked_sub(d as i64),
            None => None,
        };
        match step {
            Some(a2) => {
                acc = a2;
            },
            None => {
                proof {
                    // The running value has outgrown the `i64` range, so the
                    // full digit run (of which it is a prefix) has too.
                    if is_digit_seq(body) {
                        lemma_digits_val_monotone(body, k + 1);
                        assert(digits_val(body) >= val_next);
                    }
                }
                return None;
            },
        }
        i = i + 1;
        proof {
            assert(i - start == k + 1);
        }
    }
    proof {
        assert(body.subrange(0, n - start) =~= body);
        assert(is_digit_seq(body));
    }
    if negative {
        Some(acc)
    } else {
        if acc == i64::MIN {
            proof {
                assert(digits_val(body) == ((-(i64::MIN as int)) as int));
            }
            None
        } else {
            Some(-acc)
        }
    }
}

/// The character of one decimal digit value.
pub open spec fn digit_char(d: int) -> char {
    if d == 0 {
        '0'
    } else if d == 1 {
        '1'
    } else if d == 2 {
        '2'
    } else if d == 3 {
        '3'
    } else if d == 4 {
        '4'
    } else if d == 5 {
        '5'
    } else if d == 6 {
        '6'
    } else if d == 7 {
        '7'
    } else if d == 8 {
        '8'
    } else {
        '9'
    }
}

/// The decimal digit run of a non-negative integer, most significant first.
pub open spec fn digits_of(m: int) -> Seq<char>
    decreases m,
    when m >= 0
{
    if m < 10 {
        seq![digit_char(m)]
    } else {
        digits_of(m / 10) + seq![digit_char(m % 10)]
    }
}

/// The literal textual form of an integer: a minus sign for a negative
/// value, then its decimal digits.
pub open spec fn int_literal(n: int) -> Seq<char> {
    if n < 0 {
        seq!['-'] + digits_of(-n)
    } else {
        digits_of(n)
    }
}

pub proof fn lemma_digits_of_props(m: int)
    requires
        m >= 0,
    ensures
        digits_of(m).len() >= 1,
        forall|i: int| 0 <= i < digits_of(m).len() ==> is_digit_char(#[trigger] digits_of(m)[i]),
        digits_val(digits_of(m)) == m,
    decreases m,
{
    if m < 10 {
        assert(digits_of(m) =~= seq![digit_char(m)]);
        assert(digits_of(m).drop_last() =~= Seq::<char>::empty());
        assert(digits_of(m).last() == digit_char(m));
        assert(is_digit_char(digit_char(m)));
        assert(digit_val(digit_char(m)) == m);
        assert(digits_val(Seq::<char>::empty()) == 0);
        assert(digits_val(digits_of(m)) == digits_val(digits_of(m).drop_last()) * 10 + digit_val(
            digits_of(m).last(),
        ));
    } else {
        lemma_digits_of_props(m / 10);
        assert(digits_of(m).drop_last() =~= digits_of(m / 10));
        assert(digits_of(m).last() == digit_char(m % 10));
        assert(is_digit_char(digit_char(m % 10)));
        assert(digit_val(digit_char(m % 10)) == m % 10);
        assert(digits_val(digits_of(m)) == digits_val(digits_of(m / 10)) * 10 + (m % 10));
    }
}

/// The instruction node that one token denotes, by the classifier's
/// precedence: a token with any digit in it must read as an integer
/// literal; otherwise a colon anywhere opens a definition, a semicolon
/// anywhere closes one, and anything else is a word.
pub open spec fn classify_spec(t: Seq<char>) -> Result<NodeSpec, ErrorSpec> {
    if contains_digit(t) {
        match parse_int_spec(t) {
            Some(n) => Ok(NodeSpec::Number(n)),
            None => Err(ErrorSpec::MalformedNumber(t)),
        }
    } else if contains_char(t, ':') {
        Ok(NodeSpec::StartDefinition)
    } else if contains_char(t, ';') {
        Ok(NodeSpec::EndDefinition)
    } else {
        Ok(NodeSpec::Word(t))
    }
}

/// Classifies one token into an instruction node.
pub fn parse_token(token: &str) -> (r: Result<Node, EvalError>)
    ensures
        match r {
            Ok(node) => classify_spec(token@) == Ok::<NodeSpec, ErrorSpec>(node@),
            Err(e) => classify_spec(token@) == Err::<NodeSpec, ErrorSpec>(e@),
        },
{
    if matches_digit(token) {
        match parse_i64(token) {
            Some(v) => Ok(Node::Number(v)),
            None => Err(EvalError::MalformedNumber(token.to_owned())),
        }
    } else if matches_colon(token) {
        Ok(Node::StartDefinition)
    } else if matches_semicolon(token) {
        Ok(Node::EndDefinition)
    } else {
        Ok(Node::Word(token.to_owned()))
    }
}

/// The classification of a whole token list: its nodes in order, or the
/// first token's error.
pub open spec fn classify_all(ts: Seq<Seq<char>>) -> Result<Seq<NodeSpec>, ErrorSpec>
    decreases ts.len(),
{
    if ts.len() == 0 {
        Ok(Seq::empty())
    } else {
        match classify_spec(ts[0]) {
            Ok(node) => match classify_all(ts.drop_first()) {
                Ok(rest) => Ok(seq![node] + rest),
                Err(e) => Err(e),
            },
            Err(e) => Err(e),
        }
    }
}

/// Classifies every token of a program, left to right, stopping at the
/// first malformed one.
#[verifier::loop_isolation(false)]
pub fn parser(tokens: Vec<&str>) -> (r: Result<Vec<Node>, EvalError>)
    ensures
        match r {
            Ok(nodes) => classify_all(tokens.deep_view()) == Ok::<Seq<NodeSpec>, ErrorSpec>(
                nodes.deep_view(),
            ),
            Err(e) => classify_all(tokens.deep_view()) == Err::<Seq<NodeSpec>, ErrorSpec>(e@),
        },
{
    let ghost tv = tokens.deep_view();
    let mut nodes: Vec<Node> = Vec::new();
    let mut i: usize = 0;
    proof {
        assert(tv.subrange(0, tv.len() as int) =~= tv);
    }
    while i < tokens.len()
        invariant
            i <= tokens.len(),
            forall|e: ErrorSpec|
                classify_all(tv.subrange(i as int, tv.len() as int)) == Err::<
                    Seq<NodeSpec>,
                    ErrorSpec,
                >(e) ==> classify_all(tv) == Err::<Seq<NodeSpec>, ErrorSpec>(e),
            forall|rest: Seq<NodeSpec>|
                classify_all(tv.subrange(i as int, tv.len() as int)) == Ok::<
                    Seq<NodeSpec>,
                    ErrorSpec,
                >(rest) ==> classify_all(tv) == Ok::<Seq<NodeSpec>, ErrorSpec>(
                    nodes.deep_view() + rest,
                ),
        decreases tokens.len() - i,
    {
        let ghost suffix = tv.subrange(i as int, tv.len() as int);
        proof {
            assert(suffix[0] == tv[i as int]);
            assert(suffix.drop_first() =~= tv.subrange(i + 1, tv.len() as int));
        }
        match parse_token(tokens[i]) {
            Ok(node) => {
                let ghost prev = nodes.deep_view();
                nodes.push(node);
                proof {
                    assert(nodes.deep_view() =~= prev + seq![node@]);
                    assert forall|rest: Seq<NodeSpec>|
                        classify_all(tv.subrange(i + 1, tv.len() as int)) == Ok::<
                            Seq<NodeSpec>,
                            ErrorSpec,
                        >(rest) implies classify_all(tv) == Ok::<Seq<NodeSpec>, ErrorSpec>(
                        nodes.deep_view() + rest,
                    ) by {
                        assert(classify_all(suffix) == Ok::<Seq<NodeSpec>, ErrorSpec>(
                            seq![node@] + rest,
                        ));
                        assert(prev + (seq![node@] + rest) =~= nodes.deep_view() + rest);
                    }
                }
                i = i + 1;
            },
            Err(e) => {
                return Err(e);
            },
        }
    }
    proof {
        assert(tv.subrange(tv.len() as int, tv.len() as int) =~= Seq::<Seq<char>>::empty());
        assert(nodes.deep_view() + Seq::<NodeSpec>::empty() =~= nodes.deep_view());
    }
    Ok(nodes)
}

} // verus!

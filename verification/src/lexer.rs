use vstd::prelude::*;
use vstd::string::StrSliceExecFns;

verus! {

/// The characters on which source text is split: space, tab and the two
/// newline characters, treated uniformly.
pub open spec fn is_space_char(c: char) -> bool {
    c == ' ' || c == '\t' || c == '\n' || c == '\r'
}

/// The length of the maximal non-space prefix of `s`.
pub open spec fn token_end(s: Seq<char>) -> int
    decreases s.len(),
{
    if s.len() == 0 {
        0
    } else if is_space_char(s[0]) {
        0
    } else {
        1 + token_end(s.subrange(1, s.len() as int))
    }
}

pub proof fn lemma_token_end(s: Seq<char>)
    ensures
        0 <= token_end(s) <= s.len(),
        forall|i: int| 0 <= i < token_end(s) ==> !is_space_char(s[i]),
        token_end(s) < s.len() ==> is_space_char(s[token_end(s)]),
        s.len() > 0 && !is_space_char(s[0]) ==> token_end(s) >= 1,
    decreases s.len(),
{
    if s.len() > 0 && !is_space_char(s[0]) {
        lemma_token_end(s.subrange(1, s.len() as int));
        assert forall|i: int| 0 <= i < token_end(s) implies !is_space_char(s[i]) by {
            if i > 0 {
                assert(s.subrange(1, s.len() as int)[i - 1] == s[i]);
            }
        }
    }
}

/// The whitespace-delimited tokens of `s`, in order.  Empty input, or input
/// that is all whitespace, has no tokens; no token is empty.
pub open spec fn tokenize_spec(s: Seq<char>) -> Seq<Seq<char>>
    decreases s.len(),
    when s.len() >= 0
    via tokenize_spec_decreases
{
    if s.len() == 0 {
        Seq::empty()
    } else if is_space_char(s[0]) {
        tokenize_spec(s.subrange(1, s.len() as int))
    } else {
        seq![s.subrange(0, token_end(s))] + tokenize_spec(
            s.subrange(token_end(s), s.len() as int),
        )
    }
}

#[via_fn]
proof fn tokenize_spec_decreases(s: Seq<char>) {
    lemma_token_end(s);
}

/// Splits source text into its whitespace-delimited tokens.
#[verifier::loop_isolation(false)]
pub fn lexer<'a>(input: &'a str) -> (r: Vec<&'a str>)
    ensures
        r.deep_view() == tokenize_spec(input@),
{
    let ghost s = input@;
    let n = input.unicode_len();
    let mut toks: Vec<&'a str> = Vec::new();
    let mut i: usize = 0;
    proof {
        assert(s.subrange(0, n as int) =~= s);
        assert(toks.deep_view() =~= Seq::<Seq<char>>::empty());
        assert(toks.deep_view() + tokenize_spec(s) =~= tokenize_spec(s));
    }
    while i < n
        invariant
            i <= n,
            tokenize_spec(s) == toks.deep_view() + tokenize_spec(s.subrange(i as int, n as int)),
        decreases n - i,
    {
        let c = input.get_char(i);
        if c == ' ' || c == '\t' || c == '\n' || c == '\r' {
            proof {
                assert(s.subrange(i as int, n as int).subrange(1, (n - i) as int) =~= s.subrange(
                    i + 1,
                    n as int,
                ));
            }
            i = i + 1;
        } else {
            let ghost rest = s.subrange(i as int, n as int);
            let start = i;
            i = i + 1;
            #[verifier::loop_isolation(true)]
            loop
                invariant_except_break
                    n == s.len(),
                    s == input@,
                    start < i <= n,
                    forall|j: int| start <= j < i ==> !is_space_char(s[j]),
                ensures
                    start < i <= n,
                    forall|j: int| start <= j < i ==> !is_space_char(s[j]),
                    i < n ==> is_space_char(s[i as int]),
                decreases n - i,
            {
                if i == n {
                    break ;
                }
                let d = input.get_char(i);
                if d == ' ' || d == '\t' || d == '\n' || d == '\r' {
                    break ;
                }
                i = i + 1;
            }
            proof {
                lemma_token_end(rest);
                assert forall|j: int| 0 <= j < i - start implies !is_space_char(rest[j]) by {
                    assert(rest[j] == s[start + j]);
                }
                if (i as int) - (start as int) < rest.len() {
                    assert(rest[i - start] == s[i as int]);
                }
                assert(token_end(rest) == i - start);
            }
            let tok = input.substring_char(start, i);
            let ghost prev = toks.deep_view();
            toks.push(tok);
            proof {
                assert(toks.deep_view() =~= prev + seq![tok@]);
                assert(tok@ =~= rest.subrange(0, token_end(rest)));
                assert(rest.subrange(token_end(rest), rest.len() as int) =~= s.subrange(
                    i as int,
                    n as int,
                ));
                assert(toks.deep_view() + tokenize_spec(s.subrange(i as int, n as int)) =~=
                    tokenize_spec(s));
            }
        }
    }
    proof {
        assert(s.subrange(n as int, n as int) =~= Seq::<char>::empty());
        assert(toks.deep_view() =~= tokenize_spec(s));
    }
    toks
}

} // verus!

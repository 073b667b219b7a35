use vstd::prelude::*;

use crate::token::{char_token, Token};

verus! {

/// A structural defect of the source text, detected before any execution.
#[derive(Debug, PartialEq, Eq)]
pub enum ParseError {
    /// A `]` with no open `[`; carries the operation-sequence position the
    /// stray closer would have occupied (comments are invisible to it).
    UnexpectedClosingBracket(usize),
    /// Open `[`s left at end of input; carries how many are still unmatched.
    ExpectedClosingBracket(usize),
}

/// Number of `[` minus number of `]` in `s`.
pub open spec fn bracket_balance(s: Seq<char>) -> int
    decreases s.len(),
{
    if s.len() == 0 {
        0
    } else {
        bracket_balance(s.drop_last()) + if s.last() == '[' {
            1int
        } else if s.last() == ']' {
            -1int
        } else {
            0int
        }
    }
}

/// Brackets close only what is open, and everything open is closed.
pub open spec fn well_bracketed(s: Seq<char>) -> bool {
    &&& forall|i: int| 0 <= i <= s.len() ==> bracket_balance(#[trigger] s.take(i)) >= 0
    &&& bracket_balance(s) == 0
}

/// Number of recognized (non-comment) characters in `s`.
pub open spec fn cmd_count(s: Seq<char>) -> nat
    decreases s.len(),
{
    if s.len() == 0 {
        0
    } else {
        cmd_count(s.drop_last()) + if char_token(s.last()) is Some {
            1nat
        } else {
            0nat
        }
    }
}

/// The single left-to-right parsing pass, from character `i` on, with the
/// operations emitted so far and the stack of pending loop-start positions.
pub open spec fn parse_from(
    s: Seq<char>,
    i: int,
    toks: Seq<Token>,
    stack: Seq<usize>,
) -> Result<Seq<Token>, ParseError>
    decreases s.len() - i,
{
    if i < 0 || i >= s.len() {
        if stack.len() == 0 {
            Ok(toks)
        } else {
            Err(ParseError::ExpectedClosingBracket(stack.len() as usize))
        }
    } else if s[i] == '[' {
        parse_from(s, i + 1, toks.push(Token::LoopStart(0)), stack.push(toks.len() as usize))
    } else if s[i] == ']' {
        if stack.len() == 0 {
            Err(ParseError::UnexpectedClosingBracket(toks.len() as usize))
        } else {
            parse_from(
                s,
                i + 1,
                toks.update(stack.last() as int, Token::LoopStart(toks.len() as usize)).push(
                    Token::LoopEnd(stack.last()),
                ),
                stack.drop_last(),
            )
        }
    } else {
        match char_token(s[i]) {
            Some(t) => parse_from(s, i + 1, toks.push(t), stack),
            None => parse_from(s, i + 1, toks, stack),
        }
    }
}

/// What `parse` returns on source text `s`.
pub open spec fn parse_result(s: Seq<char>) -> Result<Seq<Token>, ParseError> {
    parse_from(s, 0, Seq::empty(), Seq::empty())
}

/// The operation-sequence invariant: every loop-start's target is the
/// position of a loop-end whose own target points back at it, and vice
/// versa — the pairing is an involution.
pub open spec fn targets_resolved(toks: Seq<Token>) -> bool {
    forall|i: int|
        0 <= i < toks.len() ==> match #[trigger] toks[i] {
            Token::LoopStart(j) => i < j < toks.len() && toks[j as int] == Token::LoopEnd(
                i as usize,
            ),
            Token::LoopEnd(j) => (j as int) < i && toks[j as int] == Token::LoopStart(i as usize),
            _ => true,
        }
}

/// Splitting one character off a prefix.
proof fn lemma_take_step(s: Seq<char>, i: int)
    requires
        0 <= i < s.len(),
    ensures
        s.take(i + 1).drop_last() == s.take(i),
        s.take(i + 1).last() == s[i],
{
    assert(s.take(i + 1).drop_last() =~= s.take(i));
}

/// Convert source text into an operation sequence with fully resolved loop
/// targets, or report the first structural defect. Unrecognized characters
/// are comments: they emit nothing and are invisible to positions.
pub fn parse(str: &str) -> (r: Result<Vec<Token>, ParseError>)
    ensures
        match r {
            Ok(toks) => parse_result(str@) == Ok::<Seq<Token>, ParseError>(toks@),
            Err(e) => parse_result(str@) == Err::<Seq<Token>, ParseError>(e),
        },
        r is Ok <==> well_bracketed(str@),
        r matches Ok(toks) ==> targets_resolved(toks@) && toks@.len() == cmd_count(str@),
        // a stray closer is reported at the operation count before it
        r matches Err(ParseError::UnexpectedClosingBracket(p)) ==> exists|i: int|
            0 <= i < str@.len() && str@[i] == ']' && bracket_balance(#[trigger] str@.take(i)) == 0
                && p == cmd_count(str@.take(i)),
        // unclosed openers are reported as how many are still unmatched
        r matches Err(ParseError::ExpectedClosingBracket(n)) ==> n == bracket_balance(str@),
{
    let mut tokens: Vec<Token> = Vec::new();
    // stack of pending loop-start positions (in the output sequence)
    let mut stack: Vec<usize> = Vec::new();

    let n = str.unicode_len();
    let mut idx: usize = 0;

    proof {
        assert(str@.take(0) =~= Seq::<char>::empty());
    }

    while idx < n
        invariant
            n == str@.len(),
            idx <= n,
            parse_from(str@, idx as int, tokens@, stack@) == parse_result(str@),
            forall|k: int|
                0 <= k < stack@.len() ==> (#[trigger] stack@[k] as int) < tokens@.len()
                    && tokens@[stack@[k] as int] is LoopStart,
            forall|k1: int, k2: int|
                0 <= k1 < k2 < stack@.len() ==> stack@[k1] < stack@[k2],
            forall|i: int|
                0 <= i < tokens@.len() ==> match #[trigger] tokens@[i] {
                    Token::LoopStart(j) => stack@.contains(i as usize) || (i < j < tokens@.len()
                        && tokens@[j as int] == Token::LoopEnd(i as usize)),
                    Token::LoopEnd(j) => (j as int) < i && tokens@[j as int] == Token::LoopStart(
                        i as usize,
                    ) && !stack@.contains(j),
                    _ => true,
                },
            tokens@.len() == cmd_count(str@.take(idx as int)),
            stack@.len() == bracket_balance(str@.take(idx as int)),
            forall|i: int| 0 <= i <= idx ==> bracket_balance(#[trigger] str@.take(i)) >= 0,
        decreases n - idx,
    {
        let c = str.get_char(idx);
        let token = Token::from_char(c);

        proof {
            lemma_take_step(str@, idx as int);
        }

        match token {
            // '[' -> push the pending position, emit a placeholder loop-start
            Some(Token::LoopStart(_)) => {
                let ghost old_stack = stack@;
                let ghost old_tokens = tokens@;
                stack.push(tokens.len());
                tokens.push(Token::LoopStart(0));
                proof {
                    assert forall|k: int| 0 <= k < stack@.len() implies (
                    #[trigger] stack@[k] as int) < tokens@.len()
                        && tokens@[stack@[k] as int] is LoopStart by {
                        if k < old_stack.len() {
                            assert(stack@[k] == old_stack[k]);
                        }
                    }
                    assert forall|i: int|
                        0 <= i < tokens@.len() implies match #[trigger] tokens@[i] {
                        Token::LoopStart(j) => stack@.contains(i as usize) || (i < j
                            < tokens@.len() && tokens@[j as int] == Token::LoopEnd(i as usize)),
                        Token::LoopEnd(j) => (j as int) < i && tokens@[j as int]
                            == Token::LoopStart(i as usize) && !stack@.contains(j),
                        _ => true,
                    } by {
                        if i < old_tokens.len() {
                            assert(tokens@[i] == old_tokens[i]);
                            match old_tokens[i] {
                                Token::LoopStart(j) => {
                                    if old_stack.contains(i as usize) {
                                        let k = choose|k: int|
                                            0 <= k < old_stack.len() && old_stack[k] == i as usize;
                                        assert(stack@[k] == i as usize);
                                    }
                                },
                                Token::LoopEnd(j) => {
                                    assert(!old_stack.contains(j));
                                    assert forall|k: int|
                                        0 <= k < stack@.len() implies stack@[k] != j by {
                                        if k < old_stack.len() {
                                            assert(old_stack[k] == stack@[k]);
                                        } else {
                                            assert(stack@[k] == old_tokens.len() as usize);
                                            assert((j as int) < old_tokens.len());
                                        }
                                    }
                                },
                                _ => {},
                            }
                        } else {
                            // the new placeholder loop-start is on the stack
                            assert(stack@[stack@.len() - 1] == i as usize);
                        }
                    }
                }
            },
            // ']' -> pop the matching loop-start and resolve both targets
            Some(Token::LoopEnd(_)) => {
                let ghost old_stack = stack@;
                let opening = if let Some(pos) = stack.pop() {
                    pos
                } else {
                    proof {
                        assert(str@[idx as int] == ']');
                        assert(bracket_balance(str@.take(idx as int)) == 0);
                        assert(cmd_count(str@.take(idx as int)) == tokens@.len());
                    }
                    return Err(ParseError::UnexpectedClosingBracket(tokens.len()));
                };
                let ghost old_tokens = tokens@;
                let here = tokens.len();
                proof {
                    assert(old_stack.last() == opening);
                    assert(stack@ =~= old_stack.drop_last());
                    assert((opening as int) < old_tokens.len());
                }
                tokens[opening] = Token::LoopStart(here);
                tokens.push(Token::LoopEnd(opening));
                proof {
                    let new_tokens = tokens@;
                    // `opening` was the greatest pending position and is now gone
                    assert forall|k: int| 0 <= k < stack@.len() implies stack@[k] != opening by {
                        assert(old_stack[k] == stack@[k]);
                        assert(old_stack[old_stack.len() - 1] == opening);
                    }
                    assert forall|k: int| 0 <= k < stack@.len() implies (
                    #[trigger] stack@[k] as int) < new_tokens.len()
                        && new_tokens[stack@[k] as int] is LoopStart by {
                        assert(old_stack[k] == stack@[k]);
                        if stack@[k] == opening {
                        } else {
                            assert(new_tokens[stack@[k] as int] == old_tokens[stack@[k] as int]);
                        }
                    }
                    assert forall|i: int|
                        0 <= i < new_tokens.len() implies match #[trigger] new_tokens[i] {
                        Token::LoopStart(j) => stack@.contains(i as usize) || (i < j
                            < new_tokens.len() && new_tokens[j as int] == Token::LoopEnd(
                            i as usize,
                        )),
                        Token::LoopEnd(j) => (j as int) < i && new_tokens[j as int]
                            == Token::LoopStart(i as usize) && !stack@.contains(j),
                        _ => true,
                    } by {
                        if i == opening as int {
                            assert(new_tokens[i] == Token::LoopStart(here));
                            assert(new_tokens[here as int] == Token::LoopEnd(opening));
                        } else if i == here as int {
                            assert(new_tokens[i] == Token::LoopEnd(opening));
                            assert(new_tokens[opening as int] == Token::LoopStart(here));
                            assert(!stack@.contains(opening));
                        } else {
                            assert(new_tokens[i] == old_tokens[i]);
                            match old_tokens[i] {
                                Token::LoopStart(j) => {
                                    if old_stack.contains(i as usize) {
                                        let k = choose|k: int|
                                            0 <= k < old_stack.len() && old_stack[k] == i as usize;
                                        assert(k < old_stack.len() - 1);
                                        assert(stack@[k] == i as usize);
                                    } else {
                                        // the partner is a loop-end, hence not `opening`
                                        assert(old_tokens[j as int] == Token::LoopEnd(i as usize));
                                        assert(old_tokens[opening as int] is LoopStart);
                                        assert(j != opening);
                                        assert(new_tokens[j as int] == old_tokens[j as int]);
                                    }
                                },
                                Token::LoopEnd(j) => {
                                    assert(!old_stack.contains(j));
                                    assert(j != opening);
                                    assert(new_tokens[j as int] == old_tokens[j as int]);
                                    assert forall|k: int|
                                        0 <= k < stack@.len() implies stack@[k] != j by {
                                        assert(old_stack[k] == stack@[k]);
                                        assert(old_stack.contains(old_stack[k]));
                                    }
                                },
                                _ => {},
                            }
                        }
                    }
                }
            },
            // any other recognized character is emitted as-is
            Some(token) => {
                let ghost old_stack = stack@;
                let ghost old_tokens = tokens@;
                tokens.push(token);
                proof {
                    assert(char_token(str@[idx as int]) == Some(token));
                    assert(!(token is LoopStart) && !(token is LoopEnd));
                    assert forall|i: int|
                        0 <= i < tokens@.len() implies match #[trigger] tokens@[i] {
                        Token::LoopStart(j) => stack@.contains(i as usize) || (i < j
                            < tokens@.len() && tokens@[j as int] == Token::LoopEnd(i as usize)),
                        Token::LoopEnd(j) => (j as int) < i && tokens@[j as int]
                            == Token::LoopStart(i as usize) && !stack@.contains(j),
                        _ => true,
                    } by {
                        if i < old_tokens.len() {
                            assert(tokens@[i] == old_tokens[i]);
                        }
                    }
                }
            },
            // comment characters emit nothing
            None => (),
        }

        idx += 1;
    }

    proof {
        assert(str@.take(idx as int) =~= str@);
    }

    if !stack.is_empty() {
        return Err(ParseError::ExpectedClosingBracket(stack.len()));
    }

    proof {
        // an empty stack leaves every emitted loop-start resolved
        assert(targets_resolved(tokens@));
    }

    Ok(tokens)
}

} // verus!

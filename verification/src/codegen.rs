use vstd::prelude::*;

use crate::token::Token;

verus! {

/// The decimal digit character for `d < 10`.
pub open spec fn digit_char(d: nat) -> char {
    if d == 0 {
        '0'
    } else if d == 1 {
        '1'
    } else if d == 2 {
        '2'
    } else if d == 3 {
        '3'
    } else if d == 4 {
        '4'
    } else if d == 5 {
        '5'
    } else if d == 6 {
        '6'
    } else if d == 7 {
        '7'
    } else if d == 8 {
        '8'
    } else {
        '9'
    }
}

/// The decimal digits of `n`, most significant first, no leading zeros.
pub open spec fn dec_digits(n: nat) -> Seq<char>
    decreases n,
{
    if n < 10 {
        seq![digit_char(n)]
    } else {
        dec_digits(n / 10) + seq![digit_char(n % 10)]
    }
}

/// The fixed prologue: tape storage, single-byte read/write helpers over the
/// cursor register `r12`, and a process-exit helper. A read that finds the
/// input exhausted stores a zero byte.
pub open spec fn prologue_text() -> Seq<char> {
    "global _start\n\nsection .bss\ntape: resb 30000\n\nsection .text\nwritec:\n\tmov rax, 1\n\tmov rdi, 1\n\tmov rsi, r12\n\tmov rdx, 1\n\tsyscall\n\tret\n\nreadc:\n\txor rax, rax\n\txor rdi, rdi\n\tmov rsi, r12\n\tmov rdx, 1\n\tsyscall\n\ttest rax, rax\n\tjnz readc_done\n\tmov byte [r12], 0\nreadc_done:\n\tret\n\nexit:\n\tmov rax, 60\n\txor rdi, rdi\n\tsyscall\n\n_start:\n\tmov r12, tape\n"@
}

/// The instructions one operation at sequence position `idx` lowers to.
pub open spec fn token_text(t: Token, idx: int) -> Seq<char> {
    match t {
        Token::IncPtr => "\tadd qword r12, 1\n"@,
        Token::DecPtr => "\tsub qword r12, 1\n"@,
        Token::IncByte => "\tadd byte [r12], 1\n"@,
        Token::DecByte => "\tsub byte [r12], 1\n"@,
        Token::WriteByte => "\tcall writec\n"@,
        Token::ReadByte => "\tcall readc\n"@,
        Token::LoopStart(end) => "\tcmp byte [r12], 0\n\tje LOOP_END_"@ + dec_digits(end as nat)
            + "\nLOOP_START_"@ + dec_digits(idx as nat) + ":\n"@,
        Token::LoopEnd(start) => "\tcmp byte [r12], 0\n\tjne LOOP_START_"@ + dec_digits(
            start as nat,
        ) + "\nLOOP_END_"@ + dec_digits(idx as nat) + ":\n"@,
    }
}

/// The lowering of the first `i` operations, in order.
pub open spec fn body_text(tokens: Seq<Token>, i: int) -> Seq<char>
    decreases i,
{
    if i <= 0 {
        Seq::empty()
    } else {
        body_text(tokens, i - 1) + token_text(tokens[i - 1], i - 1)
    }
}

/// The whole emitted program: prologue, lowered operations, exit call.
pub open spec fn compile_text(tokens: Seq<Token>) -> Seq<char> {
    prologue_text() + body_text(tokens, tokens.len() as int) + "\tcall exit\n"@
}

/// Append one decimal digit.
fn push_digit(out: &mut String, d: usize)
    requires
        d < 10,
    ensures
        final(out)@ == old(out)@ + seq![digit_char(d as nat)],
{
    match d {
        0 => {
            out.append("0");
            proof {
                reveal_strlit("0");
                assert(final(out)@ =~= old(out)@ + seq![digit_char(d as nat)]);
            }
        },
        1 => {
            out.append("1");
            proof {
                reveal_strlit("1");
                assert(final(out)@ =~= old(out)@ + seq![digit_char(d as nat)]);
            }
        },
        2 => {
            out.append("2");
            proof {
                reveal_strlit("2");
                assert(final(out)@ =~= old(out)@ + seq![digit_char(d as nat)]);
            }
        },
        3 => {
            out.append("3");
            proof {
                reveal_strlit("3");
                assert(final(out)@ =~= old(out)@ + seq![digit_char(d as nat)]);
            }
        },
        4 => {
            out.append("4");
            proof {
                reveal_strlit("4");
                assert(final(out)@ =~= old(out)@ + seq![digit_char(d as nat)]);
            }
        },
        5 => {
            out.append("5");
            proof {
                reveal_strlit("5");
                assert(final(out)@ =~= old(out)@ + seq![digit_char(d as nat)]);
            }
        },
        6 => {
            out.append("6");
            proof {
                reveal_strlit("6");
                assert(final(out)@ =~= old(out)@ + seq![digit_char(d as nat)]);
            }
        },
        7 => {
            out.append("7");
            proof {
                reveal_strlit("7");
                assert(final(out)@ =~= old(out)@ + seq![digit_char(d as nat)]);
            }
        },
        8 => {
            out.append("8");
            proof {
                reveal_strlit("8");
                assert(final(out)@ =~= old(out)@ + seq![digit_char(d as nat)]);
            }
        },
        _ => {
            out.append("9");
            proof {
                reveal_strlit("9");
                assert(final(out)@ =~= old(out)@ + seq![digit_char(d as nat)]);
            }
        },
    }
}

/// Append the decimal digits of `n`.
fn push_number(out: &mut String, n: usize)
    ensures
        final(out)@ == old(out)@ + dec_digits(n as nat),
    decreases n,
{
    if n < 10 {
        push_digit(out, n);
    } else {
        push_number(out, n / 10);
        push_digit(out, n % 10);
        proof {
            assert(final(out)@ =~= old(out)@ + dec_digits(n as nat));
        }
    }
}

/// Lower an operation sequence to assembly text for an external assembler.
/// The input is trusted to be an operation sequence the parser produced;
/// nothing is validated here.
pub fn compile(tokens: &[Token]) -> (r: String)
    ensures
        r@ == compile_text(tokens@),
{
    let ghost t = tokens@;
    let mut output = String::from_str(
        "global _start\n\nsection .bss\ntape: resb 30000\n\nsection .text\nwritec:\n\tmov rax, 1\n\tmov rdi, 1\n\tmov rsi, r12\n\tmov rdx, 1\n\tsyscall\n\tret\n\nreadc:\n\txor rax, rax\n\txor rdi, rdi\n\tmov rsi, r12\n\tmov rdx, 1\n\tsyscall\n\ttest rax, rax\n\tjnz readc_done\n\tmov byte [r12], 0\nreadc_done:\n\tret\n\nexit:\n\tmov rax, 60\n\txor rdi, rdi\n\tsyscall\n\n_start:\n\tmov r12, tape\n",
    );

    let mut idx: usize = 0;
    while idx < tokens.len()
        invariant
            t == tokens@,
            idx <= t.len(),
            output@ == prologue_text() + body_text(t, idx as int),
        decreases t.len() - idx,
    {
        let ghost prefix = output@;
        let token = &tokens[idx];
        match token {
            Token::IncPtr => output.append("\tadd qword r12, 1\n"),
            Token::DecPtr => output.append("\tsub qword r12, 1\n"),
            Token::IncByte => output.append("\tadd byte [r12], 1\n"),
            Token::DecByte => output.append("\tsub byte [r12], 1\n"),
            Token::WriteByte => output.append("\tcall writec\n"),
            Token::ReadByte => output.append("\tcall readc\n"),
            Token::LoopStart(end) => {
                // jump past the loop when the addressed cell is zero
                output.append("\tcmp byte [r12], 0\n\tje LOOP_END_");
                push_number(&mut output, *end);
                output.append("\nLOOP_START_");
                push_number(&mut output, idx);
                output.append(":\n");
            },
            Token::LoopEnd(start) => {
                // jump back to the loop body while the cell is nonzero
                output.append("\tcmp byte [r12], 0\n\tjne LOOP_START_");
                push_number(&mut output, *start);
                output.append("\nLOOP_END_");
                push_number(&mut output, idx);
                output.append(":\n");
            },
        }
        proof {
            assert(output@ =~= prefix + token_text(t[idx as int], idx as int));
            assert(output@ =~= prologue_text() + body_text(t, idx as int + 1));
        }
        idx += 1;
    }

    output.append("\tcall exit\n");

    proof {
        assert(output@ =~= compile_text(t));
    }

    output
}

} // verus!

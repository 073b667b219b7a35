use vstd::prelude::*;

verus! {

/// One decoded instruction of the eight-kind vocabulary. `LoopStart` and
/// `LoopEnd` carry the position of their matching counterpart in the
/// operation sequence (a placeholder `0` until the parser resolves it).
#[derive(Debug, PartialEq, Eq)]
pub enum Token {
    /// `>`
    IncPtr,
    /// `<`
    DecPtr,
    /// `+`
    IncByte,
    /// `-`
    DecByte,
    /// `.`
    WriteByte,
    /// `,`
    ReadByte,
    /// `[`, carrying the position of the matching `]`
    LoopStart(usize),
    /// `]`, carrying the position of the matching `[`
    LoopEnd(usize),
}

/// The fixed, total character-to-operation mapping. Characters with no
/// mapping are comments and yield `None`.
pub open spec fn char_token(c: char) -> Option<Token> {
    if c == '>' {
        Some(Token::IncPtr)
    } else if c == '<' {
        Some(Token::DecPtr)
    } else if c == '+' {
        Some(Token::IncByte)
    } else if c == '-' {
        Some(Token::DecByte)
    } else if c == '.' {
        Some(Token::WriteByte)
    } else if c == ',' {
        Some(Token::ReadByte)
    } else if c == '[' {
        Some(Token::LoopStart(0))
    } else if c == ']' {
        Some(Token::LoopEnd(0))
    } else {
        None
    }
}

impl Token {
    /// Decode one source character, or `None` for a comment character.
    pub fn from_char(c: char) -> (r: Option<Self>)
        ensures
            r == char_token(c),
    {
        match c {
            '>' => Some(Self::IncPtr),
            '<' => Some(Self::DecPtr),
            '+' => Some(Self::IncByte),
            '-' => Some(Self::DecByte),
            '.' => Some(Self::WriteByte),
            ',' => Some(Self::ReadByte),
            '[' => Some(Self::LoopStart(0)),
            ']' => Some(Self::LoopEnd(0)),
            _ => None,
        }
    }
}

} // verus!

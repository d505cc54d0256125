//! Instructions: a symbol together with a repeat count or a jump target.

use vstd::prelude::*;
use vstd::std_specs::convert::FromSpecImpl;
use crate::token::Token;

verus! {

/// One instruction of a program.
///
/// For the six plain operations the payload is a repeat count. For the two
/// loop brackets it is the index of the partner bracket in the program.
#[derive(PartialEq, Eq, Clone, Copy, Debug, Structural)]
pub enum Ir {
    ShiftL(usize),
    ShiftR(usize),
    Incr(usize),
    Decr(usize),
    Write(usize),
    Read(usize),
    Jez(usize),
    Jnez(usize),
}

impl Ir {
    /// The instruction of symbol `t` with payload `n`.
    pub open spec fn make(t: Token, n: usize) -> Ir {
        match t {
            Token::ShiftL => Ir::ShiftL(n),
            Token::ShiftR => Ir::ShiftR(n),
            Token::Incr => Ir::Incr(n),
            Token::Decr => Ir::Decr(n),
            Token::Write => Ir::Write(n),
            Token::Read => Ir::Read(n),
            Token::Jez => Ir::Jez(n),
            Token::Jnez => Ir::Jnez(n),
        }
    }

    /// The symbol this instruction was made from.
    pub open spec fn kind(self) -> Token {
        match self {
            Ir::ShiftL(_) => Token::ShiftL,
            Ir::ShiftR(_) => Token::ShiftR,
            Ir::Incr(_) => Token::Incr,
            Ir::Decr(_) => Token::Decr,
            Ir::Write(_) => Token::Write,
            Ir::Read(_) => Token::Read,
            Ir::Jez(_) => Token::Jez,
            Ir::Jnez(_) => Token::Jnez,
        }
    }

    /// The repeat count or jump target carried by this instruction.
    pub open spec fn payload(self) -> usize {
        match self {
            Ir::ShiftL(n) => n,
            Ir::ShiftR(n) => n,
            Ir::Incr(n) => n,
            Ir::Decr(n) => n,
            Ir::Write(n) => n,
            Ir::Read(n) => n,
            Ir::Jez(n) => n,
            Ir::Jnez(n) => n,
        }
    }

    /// Whether this is one of the two loop brackets.
    pub open spec fn is_jump(self) -> bool {
        self.kind().is_jump()
    }

    /// How many source symbols this instruction stands for: one for a loop
    /// bracket, the repeat count otherwise.
    pub open spec fn width(self) -> nat {
        if self.is_jump() {
            1
        } else {
            self.payload() as nat
        }
    }

    /// The symbol this instruction was made from.
    pub fn token(&self) -> (t: Token)
        ensures
            t == self.kind(),
    {
        match self {
            Ir::ShiftL(_) => Token::ShiftL,
            Ir::ShiftR(_) => Token::ShiftR,
            Ir::Incr(_) => Token::Incr,
            Ir::Decr(_) => Token::Decr,
            Ir::Write(_) => Token::Write,
            Ir::Read(_) => Token::Read,
            Ir::Jez(_) => Token::Jez,
            Ir::Jnez(_) => Token::Jnez,
        }
    }

    /// The repeat count or jump target carried by this instruction.
    pub fn arg(&self) -> (n: usize)
        ensures
            n == self.payload(),
    {
        match self {
            Ir::ShiftL(n) => *n,
            Ir::ShiftR(n) => *n,
            Ir::Incr(n) => *n,
            Ir::Decr(n) => *n,
            Ir::Write(n) => *n,
            Ir::Read(n) => *n,
            Ir::Jez(n) => *n,
            Ir::Jnez(n) => *n,
        }
    }
}

impl From<(Token, usize)> for Ir {
    fn from(pair: (Token, usize)) -> (ir: Ir) {
        let (token, rle) = pair;
        match token {
            Token::ShiftL => Ir::ShiftL(rle),
            Token::ShiftR => Ir::ShiftR(rle),
            Token::Incr => Ir::Incr(rle),
            Token::Decr => Ir::Decr(rle),
            Token::Write => Ir::Write(rle),
            Token::Read => Ir::Read(rle),
            Token::Jez => Ir::Jez(rle),
            Token::Jnez => Ir::Jnez(rle),
        }
    }
}

impl FromSpecImpl<(Token, usize)> for Ir {
    open spec fn obeys_from_spec() -> bool {
        true
    }

    open spec fn from_spec(pair: (Token, usize)) -> Ir {
        Ir::make(pair.0, pair.1)
    }
}

} // verus!

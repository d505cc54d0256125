//! The tokenizer: source characters to symbols.

use vstd::prelude::*;
use crate::vm::Vm;

verus! {

/// One of the eight symbols of the language.
#[derive(PartialEq, Eq, Clone, Copy, Debug, Structural)]
pub enum Token {
    ShiftL,
    ShiftR,
    Incr,
    Decr,
    Write,
    Read,
    Jez,
    Jnez,
}

/// The symbol a character stands for, if it stands for one.
pub open spec fn token_of(c: char) -> Option<Token> {
    if c == '>' {
        Some(Token::ShiftR)
    } else if c == '<' {
        Some(Token::ShiftL)
    } else if c == '+' {
        Some(Token::Incr)
    } else if c == '-' {
        Some(Token::Decr)
    } else if c == '.' {
        Some(Token::Write)
    } else if c == ',' {
        Some(Token::Read)
    } else if c == '[' {
        Some(Token::Jez)
    } else if c == ']' {
        Some(Token::Jnez)
    } else {
        None
    }
}

/// Whether a character is one of the eight symbols.
pub open spec fn is_symbol(c: char) -> bool {
    token_of(c) is Some
}

/// The token sequence of a source text: one token per symbol, in source
/// order, every other character dropped.
pub open spec fn tokens_of(src: Seq<char>) -> Seq<Token> {
    src.filter_map(|c: char| token_of(c))
}

/// A source text with every character that is not a symbol removed.
pub open spec fn strip(src: Seq<char>) -> Seq<char> {
    src.filter(|c: char| is_symbol(c))
}

impl Token {
    /// Classifies one character.
    pub fn from_char(c: char) -> (t: Option<Token>)
        ensures
            t == token_of(c),
    {
        match c {
            '>' => Some(Token::ShiftR),
            '<' => Some(Token::ShiftL),
            '+' => Some(Token::Incr),
            '-' => Some(Token::Decr),
            '.' => Some(Token::Write),
            ',' => Some(Token::Read),
            '[' => Some(Token::Jez),
            ']' => Some(Token::Jnez),
            _ => None,
        }
    }

    /// Whether this is one of the two loop brackets.
    pub open spec fn is_jump(self) -> bool {
        self == Token::Jez || self == Token::Jnez
    }
}

impl Vm {
    /// Tokenizes a source text.
    pub fn parse(input: &str) -> (tokens: Vec<Token>)
        ensures
            tokens@ == tokens_of(input@),
    {
        let mut tokens: Vec<Token> = Vec::new();
        let chars = input.chars();
        for c in it: chars
            invariant
                it.seq() == input@,
                tokens@ == tokens_of(input@.take(it.index() as int)),
        {
            proof {
                let k = it.index() as int;
                assert(input@.take(k + 1).drop_last() =~= input@.take(k));
            }
            match Token::from_char(c) {
                Some(t) => {
                    tokens.push(t);
                },
                None => {},
            }
        }
        proof {
            assert(input@.take(input@.len() as int) =~= input@);
        }
        tokens
    }
}

/// Tokenizing and stripping agree one step at a time: appending a character
/// appends its token, if it has one, and appends the character to the
/// stripped text under the same condition.
pub proof fn lemma_tokens_push(src: Seq<char>, c: char)
    ensures
        tokens_of(src.push(c)) == match token_of(c) {
            Some(t) => tokens_of(src).push(t),
            None => tokens_of(src),
        },
        strip(src.push(c)) == if is_symbol(c) {
            strip(src).push(c)
        } else {
            strip(src)
        },
{
    reveal(Seq::filter);
    assert(src.push(c).drop_last() =~= src);
    match token_of(c) {
        Some(t) => {
            assert(tokens_of(src) + seq![t] =~= tokens_of(src).push(t));
        },
        None => {},
    }
}

/// Stripping is idempotent and invisible to the tokenizer: a text that has
/// already lost its unrecognized characters loses nothing more, and it
/// tokenizes to the same sequence as the text it came from.
pub proof fn lemma_strip_idempotent(src: Seq<char>)
    ensures
        strip(strip(src)) == strip(src),
        tokens_of(strip(src)) == tokens_of(src),
        strip(src).len() == tokens_of(src).len(),
    decreases src.len(),
{
    reveal(Seq::filter);
    if src.len() > 0 {
        let head = src.drop_last();
        let c = src.last();
        lemma_strip_idempotent(head);
        assert(head.push(c) =~= src);
        lemma_tokens_push(head, c);
        if is_symbol(c) {
            lemma_tokens_push(strip(head), c);
        }
    }
}

} // verus!

//! Tokens of the tape language and the tokenizer.
use vstd::prelude::*;

use vstd::std_specs::iter::IteratorSpec;

use crate::error::Error;

verus! {

broadcast use vstd::string::group_string_axioms;

/// One command of the tape language.
#[derive(Debug, Clone, Copy, PartialEq, Eq, Structural, Hash)]
pub enum Token {
    Next,
    Prev,
    Increment,
    Decrement,
    Output,
    Input,
    JumpForwards,
    JumpBackwards,
}

/// The token a character stands for; every other character is a comment.
pub open spec fn token_of(c: char) -> Option<Token> {
    if c == '>' {
        Some(Token::Next)
    } else if c == '<' {
        Some(Token::Prev)
    } else if c == '+' {
        Some(Token::Increment)
    } else if c == '-' {
        Some(Token::Decrement)
    } else if c == '.' {
        Some(Token::Output)
    } else if c == ',' {
        Some(Token::Input)
    } else if c == '[' {
        Some(Token::JumpForwards)
    } else if c == ']' {
        Some(Token::JumpBackwards)
    } else {
        None
    }
}

/// The tokens of a source text, in order, comments dropped.
pub open spec fn tokens_of(s: Seq<char>) -> Seq<Token>
    decreases s.len(),
{
    if s.len() == 0 {
        seq![]
    } else {
        let rest = tokens_of(s.drop_last());
        match token_of(s.last()) {
            Some(t) => rest.push(t),
            None => rest,
        }
    }
}

/// Open brackets minus closed brackets.
pub open spec fn depth(t: Seq<Token>) -> int
    decreases t.len(),
{
    if t.len() == 0 {
        0
    } else {
        depth(t.drop_last()) + if t.last() == Token::JumpForwards {
            1int
        } else if t.last() == Token::JumpBackwards {
            -1int
        } else {
            0int
        }
    }
}

/// Every `]` closes an earlier `[` and every `[` is closed.
pub open spec fn balanced(t: Seq<Token>) -> bool {
    &&& forall|k: int| 0 <= k <= t.len() ==> depth(#[trigger] t.take(k)) >= 0
    &&& depth(t) == 0
}

impl Token {
    /// The token a character stands for, if any.
    pub fn parse(c: char) -> (r: Option<Self>)
        ensures
            r == token_of(c),
    {
        match c {
            '>' => Some(Token::Next),
            '<' => Some(Token::Prev),
            '+' => Some(Token::Increment),
            '-' => Some(Token::Decrement),
            '.' => Some(Token::Output),
            ',' => Some(Token::Input),
            '[' => Some(Token::JumpForwards),
            ']' => Some(Token::JumpBackwards),
            _ => None,
        }
    }

    /// The character of the token.
    pub fn to_char(&self) -> (c: char)
        ensures
            token_of(c) == Some(*self),
    {
        match self {
            Token::Next => '>',
            Token::Prev => '<',
            Token::Increment => '+',
            Token::Decrement => '-',
            Token::Output => '.',
            Token::Input => ',',
            Token::JumpForwards => '[',
            Token::JumpBackwards => ']',
        }
    }
}

/// The tokens of `s`, brackets not checked.
pub fn tokenize(s: &str) -> (r: Vec<Token>)
    ensures
        r@ == tokens_of(s@),
{
    let mut result: Vec<Token> = Vec::new();
    let mut it = s.chars();
    let ghost all = s@;
    let ghost mut seen: Seq<char> = seq![];
    loop
        invariant
            all == s@,
            seen + it.remaining() == all,
            result@ == tokens_of(seen),
            it.decrease() is Some,
        ensures
            result@ == tokens_of(all),
        decreases it.decrease()->0,
    {
        match it.next() {
            Some(c) => {
                proof {
                    assert(seen.push(c) + it.remaining() =~= all);
                    assert(seen.push(c).drop_last() =~= seen);
                    seen = seen.push(c);
                }
                if let Some(t) = Token::parse(c) {
                    result.push(t);
                }
            },
            None => {
                assert(seen =~= all);
                break ;
            },
        }
    }
    result
}

/// Whether the brackets of `tokens` are balanced.
pub fn brackets_balanced(tokens: &Vec<Token>) -> (r: bool)
    ensures
        r == balanced(tokens@),
{
    let mut level: usize = 0;
    let mut index: usize = 0;
    assert(tokens@.take(0) =~= seq![]);
    while index < tokens.len()
        invariant
            index <= tokens.len(),
            level <= index,
            level == depth(tokens@.take(index as int)),
            forall|k: int| 0 <= k <= index ==> depth(#[trigger] tokens@.take(k)) >= 0,
        decreases tokens.len() - index,
    {
        assert(tokens@.take(index + 1).drop_last() =~= tokens@.take(index as int));
        if tokens[index] == Token::JumpForwards {
            level = level + 1;
        } else if tokens[index] == Token::JumpBackwards {
            if level == 0 {
                assert(depth(tokens@.take(index + 1)) < 0);
                return false;
            }
            level = level - 1;
        }
        index += 1;
    }
    assert(tokens@.take(index as int) =~= tokens@);
    level == 0
}

/// The tokens of `s`, whose brackets are balanced.
pub fn parse(s: &str) -> (r: Vec<Token>)
    requires
        balanced(tokens_of(s@)),
    ensures
        r@ == tokens_of(s@),
{
    tokenize(s)
}

/// The tokens of `s`, or an error when its brackets are not balanced.
pub fn try_parse(s: &str) -> (r: Result<Vec<Token>, Error>)
    ensures
        r matches Ok(t) ==> t@ == tokens_of(s@) && balanced(t@),
        r is Err <==> !balanced(tokens_of(s@)),
        r matches Err(e) ==> e is UnbalancedBrackets,
{
    let tokens = tokenize(s);
    if brackets_balanced(&tokens) {
        Ok(tokens)
    } else {
        Err(Error::UnbalancedBrackets)
    }
}

} // verus!

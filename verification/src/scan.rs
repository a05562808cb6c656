//! The tokens of an expression's text: numbers, names, operators and
//! brackets, with any white space between them.
use vstd::prelude::*;
use crate::atom::Operator;
use crate::natural::{decimal_value, is_digit};

verus! {

/// `b` is a space, a tab, a line feed, a vertical tab, a form feed or a
/// carriage return.
pub open spec fn is_space(b: u8) -> bool {
    b == 0x20 || 0x09 <= b <= 0x0d
}

/// `b` is one of the letters `A` to `Z` and `a` to `z`.
pub open spec fn is_letter(b: u8) -> bool {
    0x41 <= b <= 0x5a || 0x61 <= b <= 0x7a
}

/// The kinds of characters that stand in runs.
#[derive(Clone, Copy, Debug, PartialEq, Eq, Structural)]
pub enum Class {
    /// White space.
    Space,
    /// The decimal digits.
    Digit,
    /// What a name is made of: letters, digits and the underscore.
    Name,
}

impl Class {
    /// `b` is of this kind.
    pub open spec fn holds(self, b: u8) -> bool {
        match self {
            Class::Space => is_space(b),
            Class::Digit => is_digit(b),
            Class::Name => is_letter(b) || is_digit(b) || b == 0x5f,
        }
    }

    /// Whether `b` is of this kind.
    pub fn test(&self, b: u8) -> (held: bool)
        ensures
            held == self.holds(b),
    {
        match self {
            Class::Space => b == 0x20 || (0x09 <= b && b <= 0x0d),
            Class::Digit => 0x30 <= b && b <= 0x39,
            Class::Name => (0x41 <= b && b <= 0x5a) || (0x61 <= b && b <= 0x7a) || (0x30 <= b && b
                <= 0x39) || b == 0x5f,
        }
    }
}

/// The length of the longest run of characters of one kind that starts at
/// `from`.
pub open spec fn run_length(text: Seq<u8>, from: int, class: Class) -> nat
    decreases text.len() - from,
{
    if 0 <= from < text.len() && class.holds(text[from]) {
        1 + run_length(text, from + 1, class)
    } else {
        0
    }
}

/// One token of the text. The opening bracket is the operator
/// `LeftBracket`.
pub enum Token {
    Number(nat),
    Symbol(Seq<u8>),
    Operator(Operator),
    Close,
}

/// The operator or bracket that the character `b` is.
pub open spec fn sign_of(b: u8) -> Option<Token> {
    if b == 0x2b {
        Some(Token::Operator(Operator::Plus))
    } else if b == 0x2d {
        Some(Token::Operator(Operator::Minus))
    } else if b == 0x2a {
        Some(Token::Operator(Operator::Times))
    } else if b == 0x2f {
        Some(Token::Operator(Operator::Divided))
    } else if b == 0x5e {
        Some(Token::Operator(Operator::Power))
    } else if b == 0x28 {
        Some(Token::Operator(Operator::LeftBracket))
    } else if b == 0x29 {
        Some(Token::Close)
    } else {
        None
    }
}

/// The token that starts at `at`: the longest run of digits is a number, a
/// letter with the longest run of name characters behind it is a symbol, and
/// an operator or a bracket is one character. `None` where no token starts
/// with the character at `at`.
pub open spec fn token_at(text: Seq<u8>, at: int) -> Option<Token> {
    let b = text[at];
    if is_digit(b) {
        Some(Token::Number(decimal_value(text.subrange(at, token_end(text, at)))))
    } else if is_letter(b) {
        Some(Token::Symbol(text.subrange(at, token_end(text, at))))
    } else {
        sign_of(b)
    }
}

/// The place where the token that starts at `at` ends.
pub open spec fn token_end(text: Seq<u8>, at: int) -> int {
    let b = text[at];
    if is_digit(b) {
        at + 1 + run_length(text, at + 1, Class::Digit)
    } else if is_letter(b) {
        at + 1 + run_length(text, at + 1, Class::Name)
    } else {
        at + 1
    }
}

/// The tokens of a text, and the place of the first character that starts
/// no token, if there is one. The tokens end there.
pub struct Scan {
    pub tokens: Seq<Token>,
    pub stopped: Option<int>,
}

/// The tokens of `text` from the place `from` on.
pub open spec fn scan_from(text: Seq<u8>, from: int) -> Scan
    decreases
            (if from < text.len() {
                text.len() - from
            } else {
                0
            }),
{
    let at = from + run_length(text, from, Class::Space);
    if from < 0 || at >= text.len() {
        Scan { tokens: Seq::empty(), stopped: None }
    } else {
        match token_at(text, at) {
            Some(token) => {
                let rest = scan_from(text, token_end(text, at));
                Scan { tokens: seq![token] + rest.tokens, stopped: rest.stopped }
            },
            None => Scan { tokens: Seq::empty(), stopped: Some(at) },
        }
    }
}

/// The tokens of `text`.
pub open spec fn scan(text: Seq<u8>) -> Scan {
    scan_from(text, 0)
}

/// The end of the longest run of characters of one kind that starts at
/// `from`.
pub fn run_end(text: &[u8], from: usize, class: Class) -> (end: usize)
    requires
        from <= text@.len(),
    ensures
        end == from + run_length(text@, from as int, class),
        from <= end <= text@.len(),
        forall|k: int| from <= k < end ==> class.holds(#[trigger] text@[k]),
{
    let n = text.len();
    let mut end: usize = from;
    while end < n && class.test(text[end])
        invariant
            n == text@.len(),
            from <= end <= n,
            from + run_length(text@, from as int, class) == end + run_length(
                text@,
                end as int,
                class,
            ),
            forall|k: int| from <= k < end ==> class.holds(#[trigger] text@[k]),
        decreases n - end,
    {
        end += 1;
    }
    end
}

} // verus!

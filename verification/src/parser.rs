//! The parser: from the tokens of an infix expression to a postfix program,
//! with a stack of operators that wait for their right operand.
use vstd::prelude::*;
use vstd::slice::slice_subrange;
use vstd::string::StringSliceAdditionalSpecFns;
use crate::atom::{atoms_view, bracket_free, Atom, AtomModel, Operator, Symbol};
use crate::expression::{Expression, ExpressionModel};
use crate::names::{insert_symbol, names_of, symbols_view};
use crate::natural::Natural;
use crate::scan::{run_end, scan, scan_from, token_at, token_end, Class, Token};

verus! {

/// Why a text is no expression.
#[derive(Clone, Copy, Debug, PartialEq, Eq, Structural, Hash)]
pub enum ParseError {
    /// A character that starts no token: the character, and its place in
    /// the text. The text from that place on has not been read.
    UnexpectedToken(u8, usize),
    /// A closing bracket without an opening bracket before it.
    UnmatchedCloseBracket,
    /// An opening bracket that is not closed.
    UnclosedBracket,
    /// A run of digits that is no number.
    MalformedInteger,
    /// The text holds `found` symbols, not the `expected` ones.
    SymbolCount { expected: usize, found: usize },
}

/// The program `output` with the operators `operators` behind it, the last
/// one first.
pub open spec fn pour(output: Seq<AtomModel>, operators: Seq<Operator>) -> Seq<AtomModel>
    decreases operators.len(),
{
    if operators.len() == 0 {
        output
    } else {
        pour(output.push(AtomModel::Operator(operators.last())), operators.drop_last())
    }
}

/// Pouring two stacks, one on top of the other, pours the upper one first.
pub proof fn lemma_pour_concat(output: Seq<AtomModel>, lower: Seq<Operator>, upper: Seq<Operator>)
    ensures
        pour(output, lower + upper) == pour(pour(output, upper), lower),
    decreases upper.len(),
{
    if upper.len() == 0 {
        assert(lower + upper =~= lower);
    } else {
        assert((lower + upper).drop_last() =~= lower + upper.drop_last());
        assert((lower + upper).last() == upper.last());
        lemma_pour_concat(
            output.push(AtomModel::Operator(upper.last())),
            lower,
            upper.drop_last(),
        );
    }
}

/// The state of the parser: the program written so far, and the operators
/// that wait, the last one on top.
pub struct Shunt {
    pub output: Seq<AtomModel>,
    pub operators: Seq<Operator>,
}

impl Shunt {
    /// The state before any token.
    pub open spec fn empty() -> Shunt {
        Shunt { output: Seq::empty(), operators: Seq::empty() }
    }

    /// The state after the top operator has moved to the program.
    pub open spec fn pop(self) -> Shunt {
        Shunt {
            output: self.output.push(AtomModel::Operator(self.operators.last())),
            operators: self.operators.drop_last(),
        }
    }

    /// How tightly the top operator binds; 0 where no operator waits.
    pub open spec fn top_precedence(self) -> nat {
        if self.operators.len() > 0 {
            self.operators.last().spec_precedence()
        } else {
            0
        }
    }

    /// The state after every waiting operator that binds at least as tightly
    /// as `strength` has moved to the program, the top one first.
    pub open spec fn flush(self, strength: nat) -> Shunt
        decreases self.operators.len(),
    {
        if self.operators.len() > 0 && self.top_precedence() >= strength {
            self.pop().flush(strength)
        } else {
            self
        }
    }

    /// The state after an operator: the operators that bind at least as
    /// tightly move to the program, then the new one waits. So operators of
    /// one strength are applied from left to right.
    pub open spec fn push_operator(self, operator: Operator) -> Shunt {
        let flushed = self.flush(operator.spec_precedence());
        Shunt { output: flushed.output, operators: flushed.operators.push(operator) }
    }

    /// The state after a closing bracket: the operators above the last
    /// opening bracket move to the program, and that bracket goes.
    pub open spec fn close(self) -> Result<Shunt, ParseError>
        decreases self.operators.len(),
    {
        if self.operators.len() == 0 {
            Err(ParseError::UnmatchedCloseBracket)
        } else if self.operators.last() == Operator::LeftBracket {
            Ok(Shunt { output: self.output, operators: self.operators.drop_last() })
        } else {
            self.pop().close()
        }
    }

    /// The state after one token.
    pub open spec fn feed(self, token: Token) -> Result<Shunt, ParseError> {
        match token {
            Token::Number(n) => Ok(
                Shunt { output: self.output.push(AtomModel::Number(n)), operators: self.operators },
            ),
            Token::Symbol(name) => Ok(
                Shunt {
                    output: self.output.push(AtomModel::Symbol(name)),
                    operators: self.operators,
                },
            ),
            Token::Operator(Operator::LeftBracket) => Ok(
                Shunt {
                    output: self.output,
                    operators: self.operators.push(Operator::LeftBracket),
                },
            ),
            Token::Operator(operator) => Ok(self.push_operator(operator)),
            Token::Close => self.close(),
        }
    }

    /// The state after a sequence of tokens, or the error of the first token
    /// that fails.
    pub open spec fn feed_all(self, tokens: Seq<Token>) -> Result<Shunt, ParseError>
        decreases tokens.len(),
    {
        if tokens.len() == 0 {
            Ok(self)
        } else {
            match self.feed_all(tokens.drop_last()) {
                Ok(state) => state.feed(tokens.last()),
                Err(error) => Err(error),
            }
        }
    }

    /// The state after the text `text`. The text fails at its first token
    /// that fails, or at its first character that starts no token,
    /// whichever comes first.
    pub open spec fn parse(self, text: Seq<u8>) -> Result<Shunt, ParseError> {
        let scanned = scan(text);
        match self.feed_all(scanned.tokens) {
            Ok(state) => match scanned.stopped {
                Some(at) => Err(ParseError::UnexpectedToken(text[at], at as usize)),
                None => Ok(state),
            },
            Err(error) => Err(error),
        }
    }

    /// The state with all the operators moved to the program, the top one
    /// first. A closing bracket that fails leaves the parser so.
    pub open spec fn drained(self) -> Shunt {
        Shunt { output: pour(self.output, self.operators), operators: Seq::empty() }
    }

    /// The state in which the parser stops: after the last token, or in the
    /// state that the first token that fails leaves.
    pub open spec fn stopped_state(self, tokens: Seq<Token>) -> Shunt
        decreases tokens.len(),
    {
        if tokens.len() == 0 {
            self
        } else {
            match self.feed_all(tokens.drop_last()) {
                Ok(state) => match state.feed(tokens.last()) {
                    Ok(next) => next,
                    Err(_) => state.drained(),
                },
                Err(_) => self.stopped_state(tokens.drop_last()),
            }
        }
    }

    /// The finished program: the waiting operators move to the program, the
    /// top one first. An opening bracket among them is an error.
    pub open spec fn finish(self) -> Result<Seq<AtomModel>, ParseError>
        decreases self.operators.len(),
    {
        if self.operators.len() == 0 {
            Ok(self.output)
        } else if self.operators.last() == Operator::LeftBracket {
            Err(ParseError::UnclosedBracket)
        } else {
            self.pop().finish()
        }
    }
}

/// A token that fails makes every longer sequence of tokens fail with the
/// same error.
pub proof fn lemma_feed_all_concat(state: Shunt, first: Seq<Token>, second: Seq<Token>)
    ensures
        state.feed_all(first + second) == match state.feed_all(first) {
            Ok(middle) => middle.feed_all(second),
            Err(error) => Err(error),
        },
    decreases second.len(),
{
    if second.len() == 0 {
        assert(first + second =~= first);
    } else {
        assert((first + second).drop_last() =~= first + second.drop_last());
        lemma_feed_all_concat(state, first, second.drop_last());
    }
}

/// After a token that fails the parser reads no further.
pub proof fn lemma_stopped_state_concat(state: Shunt, first: Seq<Token>, second: Seq<Token>)
    requires
        state.feed_all(first) is Err,
    ensures
        state.stopped_state(first + second) == state.stopped_state(first),
    decreases second.len(),
{
    if second.len() == 0 {
        assert(first + second =~= first);
    } else {
        assert((first + second).drop_last() =~= first + second.drop_last());
        lemma_feed_all_concat(state, first, second.drop_last());
        lemma_stopped_state_concat(state, first, second.drop_last());
    }
}

/// The expression in `n` symbols that the state `state` finishes to: its
/// program, with the names of the program's symbols in the order of names.
/// An unclosed bracket is the first error; a number of symbols other than
/// `n` the second.
pub open spec fn bind(state: Shunt, n: usize) -> Result<ExpressionModel, ParseError> {
    match state.finish() {
        Ok(atoms) => {
            let symbols = names_of(atoms);
            if symbols.len() == n {
                Ok(ExpressionModel { symbols, atoms })
            } else {
                Err(ParseError::SymbolCount { expected: n, found: symbols.len() as usize })
            }
        },
        Err(error) => Err(error),
    }
}

/// The expression in `n` symbols that the text `text` stands for.
pub open spec fn construct(text: Seq<u8>, n: usize) -> Result<ExpressionModel, ParseError> {
    match Shunt::empty().parse(text) {
        Ok(state) => bind(state, n),
        Err(error) => Err(error),
    }
}

/// No opening bracket is among the operators.
pub open spec fn without_bracket(operators: Seq<Operator>) -> bool {
    forall|i: int| 0 <= i < operators.len() ==> operators[i] != Operator::LeftBracket
}

/// Where no opening bracket waits, none waits after an operator has come.
pub proof fn lemma_flush_without_bracket(state: Shunt, strength: nat)
    requires
        without_bracket(state.operators),
    ensures
        without_bracket(state.flush(strength).operators),
    decreases state.operators.len(),
{
    if state.operators.len() > 0 && state.top_precedence() >= strength {
        lemma_flush_without_bracket(state.pop(), strength);
    }
}

/// Where no opening bracket waits, a closing bracket is an error.
pub proof fn lemma_close_without_bracket(state: Shunt)
    requires
        without_bracket(state.operators),
    ensures
        state.close() == Err::<Shunt, ParseError>(ParseError::UnmatchedCloseBracket),
    decreases state.operators.len(),
{
    if state.operators.len() > 0 {
        lemma_close_without_bracket(state.pop());
    }
}

/// Tokens without an opening bracket leave no opening bracket waiting, and
/// fail only at a closing bracket.
pub proof fn lemma_feed_without_bracket(state: Shunt, tokens: Seq<Token>)
    requires
        without_bracket(state.operators),
        forall|i: int|
            0 <= i < tokens.len() ==> tokens[i] != Token::Operator(Operator::LeftBracket),
    ensures
        match state.feed_all(tokens) {
            Ok(after) => without_bracket(after.operators),
            Err(error) => error == ParseError::UnmatchedCloseBracket,
        },
    decreases tokens.len(),
{
    if tokens.len() > 0 {
        lemma_feed_without_bracket(state, tokens.drop_last());
        match state.feed_all(tokens.drop_last()) {
            Ok(middle) => {
                match tokens.last() {
                    Token::Operator(operator) => {
                        assert(tokens[tokens.len() - 1] == tokens.last());
                        lemma_flush_without_bracket(middle, operator.spec_precedence());
                    },
                    Token::Close => {
                        lemma_close_without_bracket(middle);
                    },
                    _ => {},
                }
            },
            Err(error) => {},
        }
    }
}

/// A closing bracket with no opening bracket before it is an error.
///
/// Where the token at the place `k` of a text is a closing bracket, and no
/// token before it is an opening bracket, the text is no expression: it
/// fails with `UnmatchedCloseBracket`.
pub proof fn law_unmatched_close_bracket(text: Seq<u8>, n: usize, k: int)
    requires
        0 <= k < scan(text).tokens.len(),
        scan(text).tokens[k] == Token::Close,
        forall|i: int|
            0 <= i < k ==> scan(text).tokens[i] != Token::Operator(Operator::LeftBracket),
    ensures
        construct(text, n) == Err::<ExpressionModel, ParseError>(
            ParseError::UnmatchedCloseBracket,
        ),
{
    let tokens = scan(text).tokens;
    let before = tokens.take(k);
    let upto = tokens.take(k + 1);
    lemma_feed_without_bracket(Shunt::empty(), before);
    assert(upto.drop_last() =~= before);
    match Shunt::empty().feed_all(before) {
        Ok(middle) => {
            lemma_close_without_bracket(middle);
        },
        Err(error) => {},
    }
    assert(tokens =~= upto + tokens.skip(k + 1));
    lemma_feed_all_concat(Shunt::empty(), upto, tokens.skip(k + 1));
}

/// An operator leaves an opening bracket that waits where it is.
pub proof fn lemma_flush_keeps_bracket(state: Shunt, strength: nat, k: int)
    requires
        strength > 0,
        0 <= k < state.operators.len(),
        state.operators[k] == Operator::LeftBracket,
    ensures
        k < state.flush(strength).operators.len(),
        state.flush(strength).operators[k] == Operator::LeftBracket,
    decreases state.operators.len(),
{
    if state.operators.len() > 0 && state.top_precedence() >= strength {
        lemma_flush_keeps_bracket(state.pop(), strength, k);
    }
}

/// Tokens without a closing bracket do not fail, and leave an opening
/// bracket that waits where it is.
pub proof fn lemma_feed_keeps_bracket(state: Shunt, tokens: Seq<Token>, k: int)
    requires
        0 <= k < state.operators.len(),
        state.operators[k] == Operator::LeftBracket,
        forall|i: int| 0 <= i < tokens.len() ==> tokens[i] != Token::Close,
    ensures
        state.feed_all(tokens) is Ok,
        k < state.feed_all(tokens).unwrap().operators.len(),
        state.feed_all(tokens).unwrap().operators[k] == Operator::LeftBracket,
    decreases tokens.len(),
{
    if tokens.len() > 0 {
        lemma_feed_keeps_bracket(state, tokens.drop_last(), k);
        let middle = state.feed_all(tokens.drop_last()).unwrap();
        assert(tokens[tokens.len() - 1] == tokens.last());
        match tokens.last() {
            Token::Operator(operator) => {
                if operator != Operator::LeftBracket {
                    lemma_flush_keeps_bracket(middle, operator.spec_precedence(), k);
                }
            },
            _ => {},
        }
    }
}

/// An opening bracket that waits at the end of the text is an error.
pub proof fn lemma_finish_with_bracket(state: Shunt, k: int)
    requires
        0 <= k < state.operators.len(),
        state.operators[k] == Operator::LeftBracket,
    ensures
        state.finish() == Err::<Seq<AtomModel>, ParseError>(ParseError::UnclosedBracket),
    decreases state.operators.len(),
{
    if state.operators.last() != Operator::LeftBracket {
        lemma_finish_with_bracket(state.pop(), k);
    }
}

/// An opening bracket with no closing bracket behind it is an error.
///
/// Where the token at the place `k` of a text is an opening bracket, no
/// token behind it is a closing bracket, and the text has no error up to
/// that bracket nor a character that starts no token, the text is no
/// expression: it fails with `UnclosedBracket`.
pub proof fn law_unclosed_bracket(text: Seq<u8>, n: usize, k: int)
    requires
        scan(text).stopped is None,
        0 <= k < scan(text).tokens.len(),
        scan(text).tokens[k] == Token::Operator(Operator::LeftBracket),
        forall|i: int| k < i < scan(text).tokens.len() ==> scan(text).tokens[i] != Token::Close,
        Shunt::empty().feed_all(scan(text).tokens.take(k)) is Ok,
    ensures
        construct(text, n) == Err::<ExpressionModel, ParseError>(ParseError::UnclosedBracket),
{
    let tokens = scan(text).tokens;
    let upto = tokens.take(k + 1);
    let behind = tokens.skip(k + 1);
    assert(upto.drop_last() =~= tokens.take(k));
    let before = Shunt::empty().feed_all(tokens.take(k)).unwrap();
    let opened = Shunt::empty().feed_all(upto).unwrap();
    assert(opened.operators == before.operators.push(Operator::LeftBracket));
    let place = before.operators.len() as int;
    lemma_feed_keeps_bracket(opened, behind, place);
    assert(tokens =~= upto + behind);
    lemma_feed_all_concat(Shunt::empty(), upto, behind);
    lemma_finish_with_bracket(opened.feed_all(behind).unwrap(), place);
}

/// A text with another number of symbols than asked for is an error.
///
/// Where a text is an expression in `m` symbols, it is no expression in any
/// other number `n` of symbols: it fails with `SymbolCount`.
pub proof fn law_symbol_count(text: Seq<u8>, m: usize, n: usize)
    requires
        construct(text, m) is Ok,
        m != n,
    ensures
        construct(text, n) == Err::<ExpressionModel, ParseError>(
            ParseError::SymbolCount { expected: n, found: m },
        ),
{
}

/// The parser at work: the program written so far, the operators that wait,
/// and the symbols met so far.
#[derive(Debug)]
pub struct Parser {
    output: Vec<Atom>,
    operators: Vec<Operator>,
    symbols: Vec<Symbol>,
}

impl View for Parser {
    type V = Shunt;

    closed spec fn view(&self) -> Shunt {
        Shunt { output: atoms_view(self.output@), operators: self.operators@ }
    }
}

impl Default for Parser {
    fn default() -> (parser: Self)
        ensures
            parser.wf(),
            parser@ == Shunt::empty(),
    {
        Parser::new()
    }
}

impl Parser {
    /// The parser holds the symbols of the program written so far, and no
    /// opening bracket stands in that program.
    pub closed spec fn wf(&self) -> bool {
        &&& symbols_view(self.symbols@) == names_of(atoms_view(self.output@))
        &&& bracket_free(atoms_view(self.output@))
    }

    /// A parser that has read nothing.
    pub fn new() -> (parser: Parser)
        ensures
            parser.wf(),
            parser@ == Shunt::empty(),
    {
        let parser = Parser { output: Vec::new(), operators: Vec::new(), symbols: Vec::new() };
        proof {
            assert(atoms_view(parser.output@) =~= Seq::<AtomModel>::empty());
            assert(symbols_view(parser.symbols@) =~= Seq::<Seq<u8>>::empty());
        }
        parser
    }

    /// Writes an atom that is no symbol to the program.
    fn emit(&mut self, atom: Atom)
        requires
            old(self).wf(),
            !(atom@ is Symbol),
            atom@ != AtomModel::Operator(Operator::LeftBracket),
        ensures
            final(self).wf(),
            final(self)@.output == old(self)@.output.push(atom@),
            final(self)@.operators == old(self)@.operators,
    {
        let ghost before = atoms_view(self.output@);
        self.output.push(atom);
        proof {
            let after = atoms_view(self.output@);
            assert(after =~= before.push(atom@));
            assert(after.drop_last() =~= before);
        }
    }

    /// Writes a symbol to the program, and notes it among the symbols.
    fn emit_symbol(&mut self, symbol: Symbol)
        requires
            old(self).wf(),
        ensures
            final(self).wf(),
            final(self)@.output == old(self)@.output.push(AtomModel::Symbol(symbol@)),
            final(self)@.operators == old(self)@.operators,
    {
        let ghost before = atoms_view(self.output@);
        insert_symbol(&mut self.symbols, symbol.clone());
        self.output.push(Atom::Symbol(symbol));
        proof {
            let after = atoms_view(self.output@);
            assert(after =~= before.push(AtomModel::Symbol(symbol@)));
            assert(after.drop_last() =~= before);
        }
    }

    /// How tightly the top operator binds; 0 where no operator waits.
    pub fn last_op_precedence(&self) -> (strength: u32)
        ensures
            strength == self@.top_precedence(),
    {
        let n = self.operators.len();
        if n == 0 {
            0
        } else {
            self.operators[n - 1].precedence()
        }
    }

    /// Takes in an operator: the operators that bind at least as tightly
    /// move to the program, then the new one waits.
    pub fn push_op(&mut self, op: Operator)
        requires
            old(self).wf(),
            op != Operator::LeftBracket,
        ensures
            final(self).wf(),
            final(self)@ == old(self)@.push_operator(op),
    {
        let prec = op.precedence();
        while self.last_op_precedence() >= prec
            invariant
                self.wf(),
                prec == op.spec_precedence(),
                prec >= 10,
                old(self)@.flush(prec as nat) == self@.flush(prec as nat),
            decreases self.operators@.len(),
        {
            let ghost before = self@;
            match self.operators.pop() {
                Some(top) => {
                    self.emit(Atom::Operator(top));
                    proof {
                        assert(self@.operators =~= before.operators.drop_last());
                        assert(self@ == before.pop());
                    }
                },
                None => {},
            }
        }
        self.operators.push(op);
    }

    /// Takes in a closing bracket: the operators above the last opening
    /// bracket move to the program, and that bracket goes.
    pub fn close_bracket(&mut self) -> (result: Result<(), ParseError>)
        requires
            old(self).wf(),
        ensures
            final(self).wf(),
            match result {
                Ok(()) => old(self)@.close() == Ok::<Shunt, ParseError>(final(self)@),
                Err(error) => {
                    &&& old(self)@.close() == Err::<Shunt, ParseError>(error)
                    &&& final(self)@ == old(self)@.drained()
                },
            },
    {
        loop
            invariant
                self.wf(),
                old(self)@.close() == self@.close(),
                old(self)@.drained() == self@.drained(),
            decreases self.operators@.len(),
        {
            let ghost before = self@;
            match self.operators.pop() {
                None => {
                    proof {
                        assert(self@.operators =~= Seq::<Operator>::empty());
                    }
                    return Err(ParseError::UnmatchedCloseBracket);
                },
                Some(op) => {
                    proof {
                        assert(self@.operators =~= before.operators.drop_last());
                    }
                    match op {
                        Operator::LeftBracket => {
                            return Ok(());
                        },
                        _ => {
                            self.emit(Atom::Operator(op));
                            proof {
                                assert(self@ == before.pop());
                            }
                        },
                    }
                },
            }
        }
    }

    /// Reads the text of an expression: each number and each symbol goes to
    /// the program as it is met, each operator and bracket by way of the
    /// stack of operators.
    pub fn parse(&mut self, source: &str) -> (result: Result<(), ParseError>)
        requires
            old(self).wf(),
        ensures
            final(self).wf(),
            match result {
                Ok(()) => old(self)@.parse(source.spec_bytes()) == Ok::<Shunt, ParseError>(
                    final(self)@,
                ),
                Err(error) => old(self)@.parse(source.spec_bytes()) == Err::<Shunt, ParseError>(
                    error,
                ),
            },
            final(self)@ == old(self)@.stopped_state(scan(source.spec_bytes()).tokens),
    {
        let text = source.as_bytes();
        let ghost bytes = text@;
        let ghost start = self@;
        let ghost done = Seq::<Token>::empty();
        let n = text.len();
        let mut i: usize = 0;
        proof {
            assert(done + scan_from(bytes, 0).tokens =~= scan(bytes).tokens);
        }
        loop
            invariant
                self.wf(),
                bytes == text@,
                bytes == source.spec_bytes(),
                start == old(self)@,
                n == bytes.len(),
                i <= n,
                start.feed_all(done) == Ok::<Shunt, ParseError>(self@),
                done + scan_from(bytes, i as int).tokens == scan(bytes).tokens,
                scan_from(bytes, i as int).stopped == scan(bytes).stopped,
            decreases n - i,
        {
            let at = run_end(text, i, Class::Space);
            if at >= n {
                proof {
                    assert(done + Seq::<Token>::empty() =~= done);
                }
                return Ok(());
            }
            let b = text[at];
            let ghost state = self@;
            let ghost rest = scan_from(bytes, token_end(bytes, at as int));
            let end: usize;
            if 0x30 <= b && b <= 0x39 {
                end = run_end(text, at + 1, Class::Digit);
                match Natural::from_decimal(slice_subrange(text, at, end)) {
                    Some(number) => {
                        self.emit(Atom::Number(number));
                    },
                    None => {
                        proof {
                            let digits = bytes.subrange(at as int, end as int);
                            assert forall|k: int| 0 <= k < digits.len() implies Class::Digit.holds(
                                #[trigger] digits[k],
                            ) by {
                                assert(digits[k] == bytes[at + k]);
                            }
                        }
                        return Err(ParseError::MalformedInteger);
                    },
                }
            } else if (0x41 <= b && b <= 0x5a) || (0x61 <= b && b <= 0x7a) {
                end = run_end(text, at + 1, Class::Name);
                self.emit_symbol(Symbol::from_bytes(slice_subrange(text, at, end)));
            } else {
                end = at + 1;
                if b == 0x2b {
                    self.push_op(Operator::Plus);
                } else if b == 0x2d {
                    self.push_op(Operator::Minus);
                } else if b == 0x2a {
                    self.push_op(Operator::Times);
                } else if b == 0x2f {
                    self.push_op(Operator::Divided);
                } else if b == 0x5e {
                    self.push_op(Operator::Power);
                } else if b == 0x28 {
                    self.operators.push(Operator::LeftBracket);
                } else if b == 0x29 {
                    match self.close_bracket() {
                        Ok(()) => {},
                        Err(error) => {
                            proof {
                                let token = token_at(bytes, at as int).unwrap();
                                assert(start.feed_all(done.push(token)) == Err::<
                                    Shunt,
                                    ParseError,
                                >(error)) by {
                                    assert(done.push(token).drop_last() =~= done);
                                }
                                assert(start.stopped_state(done.push(token)) == state.drained())
                                    by {
                                    assert(done.push(token).drop_last() =~= done);
                                }
                                assert(scan(bytes).tokens =~= done.push(token) + rest.tokens);
                                lemma_feed_all_concat(start, done.push(token), rest.tokens);
                                lemma_stopped_state_concat(start, done.push(token), rest.tokens);
                            }
                            return Err(error);
                        },
                    }
                } else {
                    proof {
                        assert(done + Seq::<Token>::empty() =~= done);
                    }
                    return Err(ParseError::UnexpectedToken(b, at));
                }
            }
            proof {
                let token = token_at(bytes, at as int).unwrap();
                assert(state.feed(token) == Ok::<Shunt, ParseError>(self@));
                assert(done.push(token).drop_last() =~= done);
                assert(done.push(token) + rest.tokens =~= done + (seq![token] + rest.tokens));
                done = done.push(token);
            }
            i = end;
        }
    }
}

impl<const N: usize> Expression<N> {
    /// The expression that a parser has read: the operators that still wait
    /// move to the program, and the symbols are bound to the `N`
    /// coordinates of a point, in the order of names.
    pub fn from_parser(parser: Parser) -> (result: Result<Self, ParseError>)
        requires
            parser.wf(),
        ensures
            match result {
                Ok(expression) => bind(parser@, N) == Ok::<ExpressionModel, ParseError>(
                    expression@,
                ),
                Err(error) => bind(parser@, N) == Err::<ExpressionModel, ParseError>(error),
            },
    {
        let ghost start = parser@;
        let mut state = parser;
        loop
            invariant
                state.wf(),
                start == parser@,
                start.finish() == state@.finish(),
            ensures
                state.wf(),
                state@.operators.len() == 0,
                start.finish() == state@.finish(),
            decreases state.operators@.len(),
        {
            let ghost before = state@;
            match state.operators.pop() {
                None => {
                    break ;
                },
                Some(op) => {
                    proof {
                        assert(state@.operators =~= before.operators.drop_last());
                    }
                    match op {
                        Operator::LeftBracket => {
                            return Err(ParseError::UnclosedBracket);
                        },
                        _ => {
                            state.emit(Atom::Operator(op));
                            proof {
                                assert(state@ == before.pop());
                            }
                        },
                    }
                },
            }
        }
        let found = state.symbols.len();
        if found != N {
            return Err(ParseError::SymbolCount { expected: N, found });
        }
        Ok(Expression::assemble(state.symbols, state.output))
    }

    /// The expression that the text `source` stands for.
    pub fn try_from(source: &str) -> (result: Result<Self, ParseError>)
        ensures
            match result {
                Ok(expression) => construct(source.spec_bytes(), N) == Ok::<
                    ExpressionModel,
                    ParseError,
                >(expression@),
                Err(error) => construct(source.spec_bytes(), N) == Err::<
                    ExpressionModel,
                    ParseError,
                >(error),
            },
    {
        let mut parser = Parser::new();
        match parser.parse(source) {
            Ok(()) => Expression::from_parser(parser),
            Err(error) => Err(error),
        }
    }
}

} // verus!

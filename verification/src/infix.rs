//! Infix expressions as trees, and the laws that tie the parser and the
//! stack machine to them.
use vstd::prelude::*;
use crate::atom::{AtomModel, Operator};
use crate::expression::ExpressionModel;
use crate::machine::{
    apply,
    first_index,
    lemma_first_index,
    lemma_run_concat,
    outcome,
    run_from,
    step,
    Halt,
    Outcome,
};
use crate::names::{lemma_names_of, names_of};
use crate::parser::{construct, lemma_feed_all_concat, lemma_pour_concat, pour, ParseError, Shunt};
use crate::scan::{scan, Scan, Token};

verus! {

/// An infix expression, read with the usual precedence: a number, a symbol,
/// an expression in brackets, or two expressions with an operator between
/// them.
pub enum Infix {
    Number(nat),
    Symbol(Seq<u8>),
    Group(Box<Infix>),
    Binary(Box<Infix>, Operator, Box<Infix>),
}

impl Infix {
    /// How tightly the expression holds together: as its operator binds,
    /// where it has one outside brackets, and tighter than any operator
    /// where it has none.
    pub open spec fn strength(self) -> nat {
        match self {
            Infix::Binary(_, operator, _) => operator.spec_precedence(),
            _ => 40,
        }
    }

    /// The tree is the reading of its tokens with `^` before `*` and `/`
    /// before `+` and `-`, and operators of one strength from left to
    /// right: the left operand of an operator holds together at least as
    /// tightly as the operator binds, the right operand more tightly.
    pub open spec fn well_formed(self) -> bool
        decreases self,
    {
        match self {
            Infix::Number(_) => true,
            Infix::Symbol(_) => true,
            Infix::Group(inner) => inner.well_formed(),
            Infix::Binary(lhs, operator, rhs) => {
                &&& operator != Operator::LeftBracket
                &&& lhs.well_formed()
                &&& rhs.well_formed()
                &&& lhs.strength() >= operator.spec_precedence()
                &&& rhs.strength() > operator.spec_precedence()
            },
        }
    }

    /// The tokens of the expression as it is written.
    pub open spec fn tokens(self) -> Seq<Token>
        decreases self,
    {
        match self {
            Infix::Number(n) => seq![Token::Number(n)],
            Infix::Symbol(name) => seq![Token::Symbol(name)],
            Infix::Group(inner) => seq![Token::Operator(Operator::LeftBracket)] + inner.tokens()
                + seq![Token::Close],
            Infix::Binary(lhs, operator, rhs) => lhs.tokens() + seq![Token::Operator(operator)]
                + rhs.tokens(),
        }
    }

    /// The postfix program of the expression: each operator after its two
    /// operands.
    pub open spec fn postfix(self) -> Seq<AtomModel>
        decreases self,
    {
        match self {
            Infix::Number(n) => seq![AtomModel::Number(n)],
            Infix::Symbol(name) => seq![AtomModel::Symbol(name)],
            Infix::Group(inner) => inner.postfix(),
            Infix::Binary(lhs, operator, rhs) => lhs.postfix() + rhs.postfix()
                + seq![AtomModel::Operator(operator)],
        }
    }

    /// The value of the expression at `point`, computed along the tree, the
    /// left operand before the right one.
    pub open spec fn value(self, symbols: Seq<Seq<u8>>, point: Seq<nat>, p: nat) -> Result<
        nat,
        Halt,
    >
        decreases self,
    {
        match self {
            Infix::Number(n) => Ok(n % p),
            Infix::Symbol(name) => match first_index(symbols, name) {
                Some(i) => Ok(point[i]),
                None => Err(Halt::Defect(crate::machine::Defect::UnknownSymbol)),
            },
            Infix::Group(inner) => inner.value(symbols, point, p),
            Infix::Binary(lhs, operator, rhs) => match lhs.value(symbols, point, p) {
                Ok(left) => match rhs.value(symbols, point, p) {
                    Ok(right) => apply(operator, left, right, p),
                    Err(halt) => Err(halt),
                },
                Err(halt) => Err(halt),
            },
        }
    }

    /// The value of the expression at `point`, as the outcome of a run.
    pub open spec fn outcome(self, symbols: Seq<Seq<u8>>, point: Seq<nat>, p: nat) -> Outcome {
        match self.value(symbols, point, p) {
            Ok(value) => Outcome::Value(value),
            Err(Halt::Undefined) => Outcome::Undefined,
            Err(Halt::Defect(defect)) => Outcome::Defect(defect),
        }
    }

    /// The expression starts with the number 0 and a sign, `+` or `-`,
    /// whose left operand that 0 is.
    pub open spec fn signed_zero_first(self) -> bool
        decreases self,
    {
        match self {
            Infix::Binary(lhs, operator, rhs) => {
                ||| (*lhs == Infix::Number(0) && (operator == Operator::Plus || operator
                    == Operator::Minus))
                ||| lhs.signed_zero_first()
            },
            _ => false,
        }
    }
}

/// A tree holds together more tightly than an opening bracket binds.
pub proof fn lemma_strength_positive(tree: Infix)
    requires
        tree.well_formed(),
    ensures
        tree.strength() >= 10,
{
}

/// An operator moves to the program all the operators above it that bind at
/// least as tightly, where those below bind less tightly.
pub proof fn lemma_flush_pending(
    state: Shunt,
    base: Seq<Operator>,
    pending: Seq<Operator>,
    strength: nat,
)
    requires
        strength > 0,
        state.operators == base + pending,
        forall|i: int| 0 <= i < pending.len() ==> pending[i].spec_precedence() >= strength,
        base.len() > 0 ==> base.last().spec_precedence() < strength,
    ensures
        state.flush(strength) == (Shunt { output: pour(state.output, pending), operators: base }),
    decreases pending.len(),
{
    if pending.len() == 0 {
        assert(state.operators =~= base);
    } else {
        assert(state.operators.last() == pending.last());
        assert(state.operators.drop_last() =~= base + pending.drop_last());
        lemma_flush_pending(state.pop(), base, pending.drop_last(), strength);
    }
}

/// A closing bracket moves to the program all the operators above the last
/// opening bracket, and takes that bracket away.
pub proof fn lemma_close_pending(state: Shunt, base: Seq<Operator>, pending: Seq<Operator>)
    requires
        state.operators == base.push(Operator::LeftBracket) + pending,
        forall|i: int| 0 <= i < pending.len() ==> pending[i] != Operator::LeftBracket,
    ensures
        state.close() == Ok::<Shunt, ParseError>(
            Shunt { output: pour(state.output, pending), operators: base },
        ),
    decreases pending.len(),
{
    if pending.len() == 0 {
        assert(state.operators =~= base.push(Operator::LeftBracket));
        assert(state.operators.drop_last() =~= base);
    } else {
        assert(state.operators.last() == pending.last());
        assert(state.operators.drop_last() =~= base.push(Operator::LeftBracket)
            + pending.drop_last());
        lemma_close_pending(state.pop(), base, pending.drop_last());
    }
}

/// At the end of the text the operators that wait move to the program,
/// where no opening bracket is among them.
pub proof fn lemma_finish_pending(state: Shunt)
    requires
        forall|i: int|
            0 <= i < state.operators.len() ==> state.operators[i] != Operator::LeftBracket,
    ensures
        state.finish() == Ok::<Seq<AtomModel>, ParseError>(pour(state.output, state.operators)),
    decreases state.operators.len(),
{
    if state.operators.len() > 0 {
        lemma_finish_pending(state.pop());
    }
}

/// The parser on the tokens of a tree, from any state whose top operator
/// binds less tightly than the tree holds together: the operators of the
/// state stay, and the program grows by the postfix program of the tree, but
/// for the operators of the tree that still wait. These bind at least as
/// tightly as the tree holds together.
pub proof fn lemma_shunt_tree(tree: Infix, state: Shunt) -> (pending: Seq<Operator>)
    requires
        tree.well_formed(),
        state.top_precedence() < tree.strength(),
    ensures
        state.feed_all(tree.tokens()) is Ok,
        state.feed_all(tree.tokens()).unwrap().operators == state.operators + pending,
        pour(state.feed_all(tree.tokens()).unwrap().output, pending) == state.output
            + tree.postfix(),
        forall|i: int| 0 <= i < pending.len() ==> pending[i].spec_precedence() >= tree.strength(),
    decreases tree,
{
    match tree {
        Infix::Number(n) => {
            let tokens = tree.tokens();
            assert(tokens.drop_last() =~= Seq::<Token>::empty());
            assert(state.feed_all(tokens.drop_last()) == Ok::<Shunt, ParseError>(state));
            let after = state.feed_all(tokens).unwrap();
            assert(after.operators + Seq::<Operator>::empty() =~= after.operators);
            assert(after.output =~= state.output + tree.postfix());
            Seq::empty()
        },
        Infix::Symbol(name) => {
            let tokens = tree.tokens();
            assert(tokens.drop_last() =~= Seq::<Token>::empty());
            assert(state.feed_all(tokens.drop_last()) == Ok::<Shunt, ParseError>(state));
            let after = state.feed_all(tokens).unwrap();
            assert(after.operators + Seq::<Operator>::empty() =~= after.operators);
            assert(after.output =~= state.output + tree.postfix());
            Seq::empty()
        },
        Infix::Group(inner) => {
            let open = seq![Token::Operator(Operator::LeftBracket)];
            let close = seq![Token::Close];
            // the opening bracket
            let opened = Shunt {
                output: state.output,
                operators: state.operators.push(Operator::LeftBracket),
            };
            assert(state.feed_all(open) == Ok::<Shunt, ParseError>(opened)) by {
                assert(open.drop_last() =~= Seq::<Token>::empty());
                assert(state.feed_all(open.drop_last()) == Ok::<Shunt, ParseError>(state));
            }
            // what stands in the brackets
            lemma_strength_positive(*inner);
            let inside = lemma_shunt_tree(*inner, opened);
            assert forall|i: int| 0 <= i < inside.len() implies inside[i]
                != Operator::LeftBracket by {
                assert(inside[i].spec_precedence() >= 10);
            }
            let filled = opened.feed_all(inner.tokens()).unwrap();
            lemma_feed_all_concat(state, open, inner.tokens());
            // the closing bracket
            lemma_close_pending(filled, state.operators, inside);
            let closed = Shunt { output: state.output + inner.postfix(), operators: state.operators };
            assert(filled.feed_all(close) == Ok::<Shunt, ParseError>(closed)) by {
                assert(close.drop_last() =~= Seq::<Token>::empty());
                assert(filled.feed_all(close.drop_last()) == Ok::<Shunt, ParseError>(filled));
            }
            lemma_feed_all_concat(state, open + inner.tokens(), close);
            assert(closed.operators + Seq::<Operator>::empty() =~= closed.operators);
            Seq::empty()
        },
        Infix::Binary(lhs, operator, rhs) => {
            let strength = operator.spec_precedence();
            let sign = seq![Token::Operator(operator)];
            // the left operand
            let left = lemma_shunt_tree(*lhs, state);
            let first = state.feed_all(lhs.tokens()).unwrap();
            // the operator
            lemma_flush_pending(first, state.operators, left, strength);
            let second = Shunt {
                output: state.output + lhs.postfix(),
                operators: state.operators.push(operator),
            };
            assert(first.feed_all(sign) == Ok::<Shunt, ParseError>(second)) by {
                assert(sign.drop_last() =~= Seq::<Token>::empty());
                assert(first.feed_all(sign.drop_last()) == Ok::<Shunt, ParseError>(first));
                assert(first.feed(sign.last()) == Ok::<Shunt, ParseError>(
                    first.push_operator(operator),
                ));
            }
            lemma_feed_all_concat(state, lhs.tokens(), sign);
            // the right operand
            let right = lemma_shunt_tree(*rhs, second);
            let third = second.feed_all(rhs.tokens()).unwrap();
            lemma_feed_all_concat(state, lhs.tokens() + sign, rhs.tokens());
            let pending = seq![operator] + right;
            assert(third.operators =~= state.operators + pending);
            lemma_pour_concat(third.output, seq![operator], right);
            let poured = pour(third.output, right);
            assert(pour(poured, seq![operator]) == poured.push(AtomModel::Operator(operator))) by {
                assert(seq![operator].drop_last() =~= Seq::<Operator>::empty());
                assert(pour(poured.push(AtomModel::Operator(operator)), Seq::empty())
                    == poured.push(AtomModel::Operator(operator)));
            }
            assert(poured.push(AtomModel::Operator(operator)) =~= state.output + tree.postfix());
            pending
        },
    }
}

/// The parser reads the tokens of a tree into the postfix program of the
/// tree.
pub proof fn lemma_parse_tree(tree: Infix)
    requires
        tree.well_formed(),
    ensures
        Shunt::empty().feed_all(tree.tokens()) is Ok,
        Shunt::empty().feed_all(tree.tokens()).unwrap().finish() == Ok::<
            Seq<AtomModel>,
            ParseError,
        >(tree.postfix()),
{
    lemma_strength_positive(tree);
    let pending = lemma_shunt_tree(tree, Shunt::empty());
    let state = Shunt::empty().feed_all(tree.tokens()).unwrap();
    assert(state.operators =~= pending);
    assert forall|i: int| 0 <= i < pending.len() implies pending[i] != Operator::LeftBracket by {
        assert(pending[i].spec_precedence() >= 10);
    }
    lemma_finish_pending(state);
    assert(Seq::<AtomModel>::empty() + tree.postfix() =~= tree.postfix());
}

/// The stack machine on the postfix program of a tree pushes the value of
/// the tree, or stops as the tree's value does.
pub proof fn lemma_run_tree(
    tree: Infix,
    stack: Seq<nat>,
    symbols: Seq<Seq<u8>>,
    point: Seq<nat>,
    p: nat,
)
    requires
        p > 0,
    ensures
        run_from(stack, tree.postfix(), symbols, point, p) == match tree.value(symbols, point, p) {
            Ok(value) => Ok::<Seq<nat>, Halt>(stack.push(value)),
            Err(halt) => Err::<Seq<nat>, Halt>(halt),
        },
    decreases tree,
{
    let program = tree.postfix();
    match tree {
        Infix::Number(n) => {
            assert(program.drop_last() =~= Seq::<AtomModel>::empty());
            assert(run_from(stack, program.drop_last(), symbols, point, p) == Ok::<Seq<nat>, Halt>(
                stack,
            ));
        },
        Infix::Symbol(name) => {
            assert(program.drop_last() =~= Seq::<AtomModel>::empty());
            assert(run_from(stack, program.drop_last(), symbols, point, p) == Ok::<Seq<nat>, Halt>(
                stack,
            ));
        },
        Infix::Group(inner) => {
            lemma_run_tree(*inner, stack, symbols, point, p);
        },
        Infix::Binary(lhs, operator, rhs) => {
            let last = seq![AtomModel::Operator(operator)];
            lemma_run_tree(*lhs, stack, symbols, point, p);
            lemma_run_concat(stack, lhs.postfix(), rhs.postfix(), symbols, point, p);
            lemma_run_concat(stack, lhs.postfix() + rhs.postfix(), last, symbols, point, p);
            match lhs.value(symbols, point, p) {
                Ok(left) => {
                    lemma_run_tree(*rhs, stack.push(left), symbols, point, p);
                    match rhs.value(symbols, point, p) {
                        Ok(right) => {
                            let full = stack.push(left).push(right);
                            assert(last.drop_last() =~= Seq::<AtomModel>::empty());
                            assert(run_from(full, last.drop_last(), symbols, point, p) == Ok::<
                                Seq<nat>,
                                Halt,
                            >(full));
                            assert(run_from(full, last, symbols, point, p) == step(
                                full,
                                last.last(),
                                symbols,
                                point,
                                p,
                            ));
                            assert(full.take(full.len() - 2) =~= stack);
                        },
                        Err(halt) => {},
                    }
                },
                Err(halt) => {},
            }
        },
    }
}

/// The value of a well-formed tree whose symbols are all among `symbols` is
/// a number, or undefined: the tree has no defect.
pub proof fn lemma_tree_without_defect(
    tree: Infix,
    symbols: Seq<Seq<u8>>,
    point: Seq<nat>,
    p: nat,
)
    requires
        tree.well_formed(),
        forall|name: Seq<u8>| #[trigger]
            tree.postfix().contains(AtomModel::Symbol(name)) ==> symbols.contains(name),
    ensures
        !(tree.outcome(symbols, point, p) is Defect),
    decreases tree,
{
    let program = tree.postfix();
    match tree {
        Infix::Number(n) => {},
        Infix::Symbol(name) => {
            assert(program[0] == AtomModel::Symbol(name));
            assert(program.contains(AtomModel::Symbol(name)));
            let k = choose|k: int| 0 <= k < symbols.len() && symbols[k] == name;
            assert(symbols[k] == name);
            lemma_first_index(symbols, name);
        },
        Infix::Group(inner) => {
            lemma_tree_without_defect(*inner, symbols, point, p);
        },
        Infix::Binary(lhs, operator, rhs) => {
            assert forall|name: Seq<u8>| #[trigger]
                lhs.postfix().contains(AtomModel::Symbol(name)) implies symbols.contains(name) by {
                let i = choose|i: int|
                    0 <= i < lhs.postfix().len() && lhs.postfix()[i] == AtomModel::Symbol(name);
                assert(program[i] == AtomModel::Symbol(name));
                assert(program.contains(AtomModel::Symbol(name)));
            }
            assert forall|name: Seq<u8>| #[trigger]
                rhs.postfix().contains(AtomModel::Symbol(name)) implies symbols.contains(name) by {
                let i = choose|i: int|
                    0 <= i < rhs.postfix().len() && rhs.postfix()[i] == AtomModel::Symbol(name);
                assert(program[lhs.postfix().len() + i] == AtomModel::Symbol(name));
                assert(program.contains(AtomModel::Symbol(name)));
            }
            lemma_tree_without_defect(*lhs, symbols, point, p);
            lemma_tree_without_defect(*rhs, symbols, point, p);
        },
    }
}

/// Parsing a valid infix expression and evaluating it gives the value of
/// the expression read with the usual precedence.
///
/// Let `text` be an expression whose tokens are those of the tree `tree`,
/// where `tree` puts `^` before `*` and `/` before `+` and `-`, takes
/// operators of one strength from left to right (`^` too), and holds `n`
/// symbols. Then `text` is read without error into the postfix program of
/// `tree`; and at every point, that program gives what `tree` gives when it
/// is computed along its branches: its value, or nothing where a divisor has
/// no inverse, and never a defect.
pub proof fn law_parse_then_evaluate(text: Seq<u8>, tree: Infix, n: usize, point: Seq<nat>, p: nat)
    requires
        tree.well_formed(),
        scan(text) == (Scan { tokens: tree.tokens(), stopped: None }),
        names_of(tree.postfix()).len() == n,
        p > 0,
    ensures
        construct(text, n) == Ok::<ExpressionModel, ParseError>(
            ExpressionModel { symbols: names_of(tree.postfix()), atoms: tree.postfix() },
        ),
        outcome(tree.postfix(), names_of(tree.postfix()), point, p) == tree.outcome(
            names_of(tree.postfix()),
            point,
            p,
        ),
        !(tree.outcome(names_of(tree.postfix()), point, p) is Defect),
{
    let symbols = names_of(tree.postfix());
    lemma_parse_tree(tree);
    lemma_run_tree(tree, Seq::empty(), symbols, point, p);
    lemma_names_of(tree.postfix());
    lemma_tree_without_defect(tree, symbols, point, p);
    match tree.value(symbols, point, p) {
        Ok(value) => {
            assert(Seq::<nat>::empty().push(value).len() == 1);
        },
        Err(halt) => {},
    }
}

impl Shunt {
    /// The state with `atom` in front of the program.
    pub open spec fn behind(self, atom: AtomModel) -> Shunt {
        Shunt { output: seq![atom] + self.output, operators: self.operators }
    }
}

/// What the parser does with an operator does not depend on the program
/// written so far.
pub proof fn lemma_flush_behind(state: Shunt, atom: AtomModel, strength: nat)
    ensures
        state.behind(atom).flush(strength) == state.flush(strength).behind(atom),
    decreases state.operators.len(),
{
    if state.operators.len() > 0 && state.top_precedence() >= strength {
        assert(state.behind(atom).pop().output =~= state.pop().behind(atom).output);
        lemma_flush_behind(state.pop(), atom, strength);
    }
}

/// What the parser does with a closing bracket does not depend on the
/// program written so far.
pub proof fn lemma_close_behind(state: Shunt, atom: AtomModel)
    ensures
        state.behind(atom).close() == match state.close() {
            Ok(after) => Ok::<Shunt, ParseError>(after.behind(atom)),
            Err(error) => Err::<Shunt, ParseError>(error),
        },
    decreases state.operators.len(),
{
    if state.operators.len() > 0 && state.operators.last() != Operator::LeftBracket {
        assert(state.behind(atom).pop().output =~= state.pop().behind(atom).output);
        lemma_close_behind(state.pop(), atom);
    }
}

/// What the parser does with a sequence of tokens does not depend on the
/// program written so far.
pub proof fn lemma_feed_all_behind(state: Shunt, atom: AtomModel, tokens: Seq<Token>)
    ensures
        state.behind(atom).feed_all(tokens) == match state.feed_all(tokens) {
            Ok(after) => Ok::<Shunt, ParseError>(after.behind(atom)),
            Err(error) => Err::<Shunt, ParseError>(error),
        },
    decreases tokens.len(),
{
    if tokens.len() > 0 {
        lemma_feed_all_behind(state, atom, tokens.drop_last());
        match state.feed_all(tokens.drop_last()) {
            Ok(middle) => {
                match tokens.last() {
                    Token::Number(n) => {
                        assert(middle.behind(atom).output.push(AtomModel::Number(n)) =~= seq![atom]
                            + middle.output.push(AtomModel::Number(n)));
                    },
                    Token::Symbol(name) => {
                        assert(middle.behind(atom).output.push(AtomModel::Symbol(name))
                            =~= seq![atom] + middle.output.push(AtomModel::Symbol(name)));
                    },
                    Token::Operator(operator) => {
                        lemma_flush_behind(middle, atom, operator.spec_precedence());
                    },
                    Token::Close => {
                        lemma_close_behind(middle, atom);
                    },
                }
            },
            Err(error) => {},
        }
    }
}

/// What the end of the text does to the operators does not depend on the
/// program written so far.
pub proof fn lemma_finish_behind(state: Shunt, atom: AtomModel)
    ensures
        state.behind(atom).finish() == match state.finish() {
            Ok(program) => Ok::<Seq<AtomModel>, ParseError>(seq![atom] + program),
            Err(error) => Err::<Seq<AtomModel>, ParseError>(error),
        },
    decreases state.operators.len(),
{
    if state.operators.len() > 0 && state.operators.last() != Operator::LeftBracket {
        assert(state.behind(atom).pop().output =~= state.pop().behind(atom).output);
        lemma_finish_behind(state.pop(), atom);
    }
}

/// An atom in front of a program that is no symbol adds no name.
pub proof fn lemma_names_of_behind(atom: AtomModel, atoms: Seq<AtomModel>)
    requires
        !(atom is Symbol),
    ensures
        names_of(seq![atom] + atoms) == names_of(atoms),
    decreases atoms.len(),
{
    let longer = seq![atom] + atoms;
    if atoms.len() == 0 {
        assert(longer.drop_last() =~= Seq::<AtomModel>::empty());
        assert(names_of(longer.drop_last()) =~= Seq::<Seq<u8>>::empty());
    } else {
        assert(longer.drop_last() =~= seq![atom] + atoms.drop_last());
        lemma_names_of_behind(atom, atoms.drop_last());
    }
}

/// A tree that starts with 0 and a sign has the token 0 first, and the
/// atom 0 first in its postfix program.
pub proof fn lemma_signed_zero_first(tree: Infix)
    requires
        tree.signed_zero_first(),
    ensures
        tree.tokens().len() > 0,
        tree.tokens()[0] == Token::Number(0),
        tree.postfix().len() > 0,
        tree.postfix()[0] == AtomModel::Number(0),
    decreases tree,
{
    match tree {
        Infix::Binary(lhs, operator, rhs) => {
            if lhs.signed_zero_first() {
                lemma_signed_zero_first(*lhs);
            }
        },
        _ => {},
    }
}

/// The postfix program of a tree that starts with 0 and a sign runs as well
/// without that 0: the sign finds no left operand, and takes 0 for it.
pub proof fn lemma_run_signed_zero(tree: Infix, symbols: Seq<Seq<u8>>, point: Seq<nat>, p: nat)
    requires
        tree.signed_zero_first(),
        p > 0,
    ensures
        run_from(Seq::empty(), tree.postfix().drop_first(), symbols, point, p) == run_from(
            Seq::empty(),
            tree.postfix(),
            symbols,
            point,
            p,
        ),
    decreases tree,
{
    let none = Seq::<nat>::empty();
    match tree {
        Infix::Binary(lhs, operator, rhs) => {
            let last = seq![AtomModel::Operator(operator)];
            let left = lhs.postfix();
            let right = rhs.postfix();
            lemma_signed_zero_first(tree);
            if lhs.signed_zero_first() {
                lemma_signed_zero_first(*lhs);
                lemma_run_signed_zero(*lhs, symbols, point, p);
                assert(tree.postfix().drop_first() =~= left.drop_first() + (right + last));
                assert(tree.postfix() =~= left + (right + last));
                lemma_run_concat(none, left.drop_first(), right + last, symbols, point, p);
                lemma_run_concat(none, left, right + last, symbols, point, p);
            } else {
                assert(left =~= seq![AtomModel::Number(0)]);
                assert(tree.postfix().drop_first() =~= right + last);
                assert(tree.postfix() =~= left + (right + last));
                let zero = seq![0nat];
                // with the 0
                lemma_run_tree(*lhs, none, symbols, point, p);
                assert(none.push(0nat % p) =~= zero);
                lemma_run_concat(none, left, right + last, symbols, point, p);
                lemma_run_concat(zero, right, last, symbols, point, p);
                lemma_run_tree(*rhs, zero, symbols, point, p);
                // without it
                lemma_run_concat(none, right, last, symbols, point, p);
                lemma_run_tree(*rhs, none, symbols, point, p);
                match rhs.value(symbols, point, p) {
                    Ok(value) => {
                        let with = zero.push(value);
                        let without = none.push(value);
                        assert(last.drop_last() =~= Seq::<AtomModel>::empty());
                        assert(run_from(with, last.drop_last(), symbols, point, p) == Ok::<
                            Seq<nat>,
                            Halt,
                        >(with));
                        assert(run_from(without, last.drop_last(), symbols, point, p) == Ok::<
                            Seq<nat>,
                            Halt,
                        >(without));
                        assert(run_from(with, last, symbols, point, p) == step(
                            with,
                            last.last(),
                            symbols,
                            point,
                            p,
                        ));
                        assert(run_from(without, last, symbols, point, p) == step(
                            without,
                            last.last(),
                            symbols,
                            point,
                            p,
                        ));
                        match apply(operator, 0, value, p) {
                            Ok(result) => {
                                assert(with.take(with.len() - 2).push(result) =~= seq![result]);
                            },
                            Err(halt) => {},
                        }
                    },
                    Err(halt) => {},
                }
            }
        },
        _ => {},
    }
}

/// A sign at the start of an expression is read and evaluated as if 0 stood
/// before it.
///
/// Let `tree` be a valid expression in `n` symbols that starts with 0 and a
/// sign, and `text` an expression whose tokens are those of `tree` without
/// that 0. Then `text` is read without error, into the postfix program of
/// `tree` without its first atom, with the symbols of `tree`; and at every
/// point that program gives what `tree` gives.
pub proof fn law_leading_sign(text: Seq<u8>, tree: Infix, n: usize, point: Seq<nat>, p: nat)
    requires
        tree.well_formed(),
        tree.signed_zero_first(),
        scan(text) == (Scan { tokens: tree.tokens().drop_first(), stopped: None }),
        names_of(tree.postfix()).len() == n,
        p > 0,
    ensures
        construct(text, n) == Ok::<ExpressionModel, ParseError>(
            ExpressionModel {
                symbols: names_of(tree.postfix()),
                atoms: tree.postfix().drop_first(),
            },
        ),
        outcome(tree.postfix().drop_first(), names_of(tree.postfix()), point, p) == tree.outcome(
            names_of(tree.postfix()),
            point,
            p,
        ),
{
    let zero = AtomModel::Number(0);
    let tokens = tree.tokens();
    let rest = tokens.drop_first();
    let program = tree.postfix();
    let symbols = names_of(program);
    lemma_signed_zero_first(tree);
    // the parser
    lemma_parse_tree(tree);
    let first = seq![Token::Number(0)];
    assert(tokens =~= first + rest);
    assert(Shunt::empty().feed_all(first) == Ok::<Shunt, ParseError>(
        Shunt::empty().behind(zero),
    )) by {
        assert(first.drop_last() =~= Seq::<Token>::empty());
        assert(Shunt::empty().feed_all(first.drop_last()) == Ok::<Shunt, ParseError>(
            Shunt::empty(),
        ));
        assert(Shunt::empty().output.push(zero) =~= seq![zero] + Shunt::empty().output);
    }
    lemma_feed_all_concat(Shunt::empty(), first, rest);
    lemma_feed_all_behind(Shunt::empty(), zero, rest);
    let state = Shunt::empty().feed_all(rest).unwrap();
    lemma_finish_behind(state, zero);
    let stripped = state.finish().unwrap();
    assert(stripped =~= program.drop_first()) by {
        assert((seq![zero] + stripped).drop_first() =~= stripped);
    }
    assert(program =~= seq![zero] + program.drop_first());
    lemma_names_of_behind(zero, program.drop_first());
    // the machine
    lemma_run_signed_zero(tree, symbols, point, p);
    lemma_run_tree(tree, Seq::empty(), symbols, point, p);
    match tree.value(symbols, point, p) {
        Ok(value) => {
            assert(Seq::<nat>::empty().push(value).len() == 1);
        },
        Err(halt) => {},
    }
}

} // verus!

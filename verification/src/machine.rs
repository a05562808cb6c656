//! What a postfix program computes: the stack machine, stated over natural
//! numbers below the modulus.
use vstd::prelude::*;
use crate::atom::{AtomModel, Operator};
use crate::field::{add_mod, div_mod, invertible, mul_mod, pow_mod, sub_mod};

verus! {

/// A fault of the program itself, whatever the point it is run at.
#[derive(Clone, Copy, Debug, PartialEq, Eq, Structural, Hash)]
pub enum Defect {
    /// The operator found too few operands on the stack.
    MissingOperand(Operator),
    /// An opening bracket stands in the program.
    OpeningBracket,
    /// A symbol of the program is not among the symbols it was bound to.
    UnknownSymbol,
    /// The stack held this many values at the end, not one.
    StackDepth(usize),
}

/// Why a run ends before the last atom.
pub enum Halt {
    /// A division by an element without inverse.
    Undefined,
    Defect(Defect),
}

/// What a run of a program gives.
pub enum Outcome {
    Value(nat),
    /// A division by an element without inverse.
    Undefined,
    Defect(Defect),
}

/// The place of the first symbol named `name`.
pub open spec fn first_index(symbols: Seq<Seq<u8>>, name: Seq<u8>) -> Option<int>
    decreases symbols.len(),
{
    if symbols.len() == 0 {
        None
    } else {
        match first_index(symbols.drop_last(), name) {
            Some(i) => Some(i),
            None => if symbols.last() == name {
                Some(symbols.len() - 1)
            } else {
                None
            },
        }
    }
}

/// The result of a binary operator. A division by an element without
/// inverse has none: it is undefined. An opening bracket is no operator: it
/// is a defect.
pub open spec fn apply(operator: Operator, lhs: nat, rhs: nat, p: nat) -> Result<nat, Halt> {
    match operator {
        Operator::Plus => Ok(add_mod(lhs, rhs, p)),
        Operator::Minus => Ok(sub_mod(lhs, rhs, p)),
        Operator::Times => Ok(mul_mod(lhs, rhs, p)),
        Operator::Divided => if invertible(rhs, p) {
            Ok(div_mod(lhs, rhs, p))
        } else {
            Err(Halt::Undefined)
        },
        Operator::Power => Ok(pow_mod(lhs, rhs, p)),
        Operator::LeftBracket => Err(Halt::Defect(Defect::OpeningBracket)),
    }
}

/// One step of the machine: the stack after `atom`.
///
/// A symbol pushes its coordinate of the point, a number its remainder
/// modulo `p`. An operator takes its right operand from the top of the stack
/// and its left operand from below it, and pushes the result; a sign that
/// finds no left operand takes 0 for it.
pub open spec fn step(
    stack: Seq<nat>,
    atom: AtomModel,
    symbols: Seq<Seq<u8>>,
    point: Seq<nat>,
    p: nat,
) -> Result<Seq<nat>, Halt> {
    match atom {
        AtomModel::Symbol(name) => match first_index(symbols, name) {
            Some(i) => Ok(stack.push(point[i])),
            None => Err(Halt::Defect(Defect::UnknownSymbol)),
        },
        AtomModel::Number(n) => Ok(stack.push(n % p)),
        AtomModel::Operator(operator) => {
            if stack.len() == 0 {
                Err(Halt::Defect(Defect::MissingOperand(operator)))
            } else if stack.len() == 1 {
                if operator == Operator::Plus || operator == Operator::Minus {
                    match apply(operator, 0, stack[0], p) {
                        Ok(value) => Ok(seq![value]),
                        Err(halt) => Err(halt),
                    }
                } else {
                    Err(Halt::Defect(Defect::MissingOperand(operator)))
                }
            } else {
                let rhs = stack[stack.len() - 1];
                let lhs = stack[stack.len() - 2];
                match apply(operator, lhs, rhs, p) {
                    Ok(value) => Ok(stack.take(stack.len() - 2).push(value)),
                    Err(halt) => Err(halt),
                }
            }
        },
    }
}

/// The stack after the program `atoms`, started on the stack `start`.
pub open spec fn run_from(
    start: Seq<nat>,
    atoms: Seq<AtomModel>,
    symbols: Seq<Seq<u8>>,
    point: Seq<nat>,
    p: nat,
) -> Result<Seq<nat>, Halt>
    decreases atoms.len(),
{
    if atoms.len() == 0 {
        Ok(start)
    } else {
        match run_from(start, atoms.drop_last(), symbols, point, p) {
            Ok(stack) => step(stack, atoms.last(), symbols, point, p),
            Err(halt) => Err(halt),
        }
    }
}

/// What the program `atoms` gives at `point`: the one value left on the
/// stack.
pub open spec fn outcome(
    atoms: Seq<AtomModel>,
    symbols: Seq<Seq<u8>>,
    point: Seq<nat>,
    p: nat,
) -> Outcome {
    match run_from(Seq::empty(), atoms, symbols, point, p) {
        Ok(stack) => if stack.len() == 1 {
            Outcome::Value(stack[0])
        } else {
            Outcome::Defect(Defect::StackDepth(stack.len() as usize))
        },
        Err(Halt::Undefined) => Outcome::Undefined,
        Err(Halt::Defect(defect)) => Outcome::Defect(defect),
    }
}

/// A run of two programs, one after the other, is the run of the second on
/// the stack that the first leaves.
pub proof fn lemma_run_concat(
    start: Seq<nat>,
    first: Seq<AtomModel>,
    second: Seq<AtomModel>,
    symbols: Seq<Seq<u8>>,
    point: Seq<nat>,
    p: nat,
)
    ensures
        run_from(start, first + second, symbols, point, p) == match run_from(
            start,
            first,
            symbols,
            point,
            p,
        ) {
            Ok(stack) => run_from(stack, second, symbols, point, p),
            Err(halt) => Err(halt),
        },
    decreases second.len(),
{
    if second.len() == 0 {
        assert(first + second =~= first);
    } else {
        assert((first + second).drop_last() =~= first + second.drop_last());
        assert((first + second).last() == second.last());
        lemma_run_concat(start, first, second.drop_last(), symbols, point, p);
    }
}

/// The first index of a name does not change when the list grows.
pub proof fn lemma_first_index_stays(symbols: Seq<Seq<u8>>, name: Seq<u8>, k: int)
    requires
        0 <= k <= symbols.len(),
        first_index(symbols.take(k), name) is Some,
    ensures
        first_index(symbols, name) == first_index(symbols.take(k), name),
    decreases symbols.len() - k,
{
    if k == symbols.len() {
        assert(symbols.take(k) =~= symbols);
    } else {
        assert(symbols.take(k + 1).drop_last() =~= symbols.take(k));
        lemma_first_index_stays(symbols, name, k + 1);
    }
}

/// Where a name has a first index, it stands there and the index is within
/// the list; where it has none, it stands nowhere.
pub proof fn lemma_first_index(symbols: Seq<Seq<u8>>, name: Seq<u8>)
    ensures
        match first_index(symbols, name) {
            Some(i) => 0 <= i < symbols.len() && symbols[i] == name && forall|j: int|
                0 <= j < i ==> symbols[j] != name,
            None => forall|j: int| 0 <= j < symbols.len() ==> symbols[j] != name,
        },
    decreases symbols.len(),
{
    if symbols.len() > 0 {
        let shorter = symbols.drop_last();
        lemma_first_index(shorter, name);
        assert forall|j: int| 0 <= j < shorter.len() implies shorter[j] == symbols[j] by {}
        match first_index(shorter, name) {
            Some(i) => {
                assert forall|j: int| 0 <= j < i implies symbols[j] != name by {
                    assert(shorter[j] != name);
                }
            },
            None => {
                assert forall|j: int| 0 <= j < shorter.len() implies symbols[j] != name by {
                    assert(shorter[j] != name);
                }
            },
        }
    }
}

/// The number of values on the stack after `atom`, where `d` values were on
/// it before; `None` where the atom is an operator that finds too few
/// operands, or an opening bracket.
pub open spec fn depth_step(d: nat, atom: AtomModel) -> Option<nat> {
    match atom {
        AtomModel::Operator(operator) => {
            if operator == Operator::LeftBracket {
                None
            } else if d >= 2 {
                Some((d - 1) as nat)
            } else if d == 1 && (operator == Operator::Plus || operator == Operator::Minus) {
                Some(1)
            } else {
                None
            }
        },
        _ => Some(d + 1),
    }
}

/// The number of values that the program leaves on the stack, whatever the
/// point; `None` where an operator of the program finds too few operands,
/// or the program holds an opening bracket.
pub open spec fn depth(atoms: Seq<AtomModel>) -> Option<nat>
    decreases atoms.len(),
{
    if atoms.len() == 0 {
        Some(0)
    } else {
        match depth(atoms.drop_last()) {
            Some(d) => depth_step(d, atoms.last()),
            None => None,
        }
    }
}

/// The program keeps the discipline of the stack: every operator finds its
/// operands, and one value is left at the end.
pub open spec fn well_formed(atoms: Seq<AtomModel>) -> bool {
    depth(atoms) == Some(1nat)
}

/// Every symbol of the program is among `symbols`.
pub open spec fn symbols_known(atoms: Seq<AtomModel>, symbols: Seq<Seq<u8>>) -> bool {
    forall|i: int|
        0 <= i < atoms.len() ==> (#[trigger] atoms[i] matches AtomModel::Symbol(name)
            ==> symbols.contains(name))
}

/// A step that keeps the discipline of the stack has no defect, and leaves
/// the number of values that `depth_step` gives.
pub proof fn lemma_depth_step(
    stack: Seq<nat>,
    atom: AtomModel,
    symbols: Seq<Seq<u8>>,
    point: Seq<nat>,
    p: nat,
)
    requires
        p > 0,
        depth_step(stack.len(), atom) is Some,
        atom matches AtomModel::Symbol(name) ==> symbols.contains(name),
    ensures
        match step(stack, atom, symbols, point, p) {
            Ok(after) => Some(after.len()) == depth_step(stack.len(), atom),
            Err(halt) => halt == Halt::Undefined,
        },
{
    match atom {
        AtomModel::Symbol(name) => {
            lemma_first_index(symbols, name);
            let k = choose|k: int| 0 <= k < symbols.len() && symbols[k] == name;
            assert(symbols[k] == name);
        },
        _ => {},
    }
}

/// A program that keeps the discipline of the stack runs without defect: it
/// stops early only at a division by an element without inverse, and
/// otherwise leaves the number of values that `depth` gives.
pub proof fn lemma_depth_run(
    atoms: Seq<AtomModel>,
    symbols: Seq<Seq<u8>>,
    point: Seq<nat>,
    p: nat,
)
    requires
        p > 0,
        depth(atoms) is Some,
        symbols_known(atoms, symbols),
    ensures
        match run_from(Seq::empty(), atoms, symbols, point, p) {
            Ok(stack) => Some(stack.len()) == depth(atoms),
            Err(halt) => halt == Halt::Undefined,
        },
    decreases atoms.len(),
{
    if atoms.len() > 0 {
        let shorter = atoms.drop_last();
        assert(symbols_known(shorter, symbols)) by {
            assert forall|i: int| 0 <= i < shorter.len() implies (#[trigger] shorter[i] matches AtomModel::Symbol(
                name,
            ) ==> symbols.contains(name)) by {
                assert(shorter[i] == atoms[i]);
            }
        }
        lemma_depth_run(shorter, symbols, point, p);
        match run_from(Seq::empty(), shorter, symbols, point, p) {
            Ok(stack) => {
                assert(atoms[atoms.len() - 1] == atoms.last());
                lemma_depth_step(stack, atoms.last(), symbols, point, p);
            },
            Err(halt) => {},
        }
    }
}

/// A program that keeps the discipline of the stack, with all its symbols
/// known, gives a value or is undefined at every point: it has no defect.
pub proof fn lemma_well_formed_outcome(
    atoms: Seq<AtomModel>,
    symbols: Seq<Seq<u8>>,
    point: Seq<nat>,
    p: nat,
)
    requires
        p > 0,
        well_formed(atoms),
        symbols_known(atoms, symbols),
    ensures
        !(outcome(atoms, symbols, point, p) is Defect),
{
    lemma_depth_run(atoms, symbols, point, p);
}

/// A division by an element without inverse gives no value, and is no
/// defect.
///
/// Where a program has run up to a division, with the divisor on top of at
/// least two values, and the divisor has no inverse, the outcome of the
/// whole program is `Undefined`, whatever follows the division.
pub proof fn law_division_undefined(
    before: Seq<AtomModel>,
    after: Seq<AtomModel>,
    stack: Seq<nat>,
    symbols: Seq<Seq<u8>>,
    point: Seq<nat>,
    p: nat,
)
    requires
        run_from(Seq::empty(), before, symbols, point, p) == Ok::<Seq<nat>, Halt>(stack),
        stack.len() >= 2,
        !invertible(stack.last(), p),
    ensures
        outcome(
            before + seq![AtomModel::Operator(Operator::Divided)] + after,
            symbols,
            point,
            p,
        ) == Outcome::Undefined,
{
    let division = seq![AtomModel::Operator(Operator::Divided)];
    assert((before + division).drop_last() =~= before);
    assert(run_from(Seq::empty(), before + division, symbols, point, p) == Err::<Seq<nat>, Halt>(
        Halt::Undefined,
    ));
    lemma_run_concat(Seq::empty(), before + division, after, symbols, point, p);
}

} // verus!

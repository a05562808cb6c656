//! A postfix program bound to its symbols, and its evaluation at a point of
//! a finite field.
use vstd::prelude::*;
use crate::atom::{atoms_view, bracket_free, Atom, AtomModel, Operator, Symbol};
use crate::field::{lemma_same_residue, FieldElement};
use crate::machine::{
    depth,
    first_index,
    lemma_first_index,
    lemma_first_index_stays,
    lemma_run_concat,
    lemma_well_formed_outcome,
    outcome,
    run_from,
    step,
    symbols_known,
    well_formed,
    Defect,
    Halt,
    Outcome,
};
use crate::names::{lemma_names_of, names_of, symbols_view};
use crate::parser::{construct, ParseError};

verus! {

/// What an expression stands for: the names of its symbols, in the order of
/// the coordinates of a point, and its postfix program.
pub struct ExpressionModel {
    pub symbols: Seq<Seq<u8>>,
    pub atoms: Seq<AtomModel>,
}

/// The representatives of a sequence of field elements.
pub open spec fn residues<const P: u64>(elements: Seq<FieldElement<P>>) -> Seq<nat> {
    elements.map_values(|element: FieldElement<P>| element@)
}

/// `result` is the result of an evaluation with the outcome `outcome`.
pub open spec fn tells<const P: u64>(
    result: Result<Option<FieldElement<P>>, Defect>,
    outcome: Outcome,
) -> bool {
    match result {
        Ok(Some(value)) => outcome == Outcome::Value(value@),
        Ok(None) => outcome == Outcome::Undefined,
        Err(defect) => outcome == Outcome::Defect(defect),
    }
}

/// Construction and evaluation are deterministic.
///
/// Two expressions made from one text stand for the same program and
/// symbols, and two evaluations of them at one point under one modulus give
/// the same result: what an expression gives depends on the text, the point
/// and the modulus, and on nothing else.
pub proof fn law_evaluation_deterministic<const P: u64>(
    text: Seq<u8>,
    n: usize,
    first_model: ExpressionModel,
    second_model: ExpressionModel,
    point: Seq<nat>,
    first: Result<Option<FieldElement<P>>, Defect>,
    second: Result<Option<FieldElement<P>>, Defect>,
)
    requires
        construct(text, n) == Ok::<ExpressionModel, ParseError>(first_model),
        construct(text, n) == Ok::<ExpressionModel, ParseError>(second_model),
        tells(first, outcome(first_model.atoms, first_model.symbols, point, P as nat)),
        tells(second, outcome(second_model.atoms, second_model.symbols, point, P as nat)),
    ensures
        first_model == second_model,
        first == second,
{
    match (first, second) {
        (Ok(Some(a)), Ok(Some(b))) => {
            lemma_same_residue(a, b);
        },
        _ => {},
    }
}

/// An arithmetic expression in `N` symbols: a postfix program and the names
/// of its symbols, each once, in the order of names. The place of a name in
/// that list is the coordinate of a point that the symbol stands for.
#[derive(Debug, PartialEq, Eq, Hash)]
pub struct Expression<const N: usize> {
    symbols: Vec<Symbol>,
    atoms: Vec<Atom>,
}

impl<const N: usize> View for Expression<N> {
    type V = ExpressionModel;

    closed spec fn view(&self) -> ExpressionModel {
        ExpressionModel {
            symbols: symbols_view(self.symbols@),
            atoms: atoms_view(self.atoms@),
        }
    }
}

impl<const N: usize> Clone for Expression<N> {
    fn clone(&self) -> (copy: Self)
        ensures
            copy@ == self@,
    {
        proof {
            use_type_invariant(self);
        }
        let mut symbols: Vec<Symbol> = Vec::new();
        let mut i: usize = 0;
        while i < self.symbols.len()
            invariant
                i <= self.symbols@.len(),
                symbols_view(symbols@) == symbols_view(self.symbols@).take(i as int),
            decreases self.symbols@.len() - i,
        {
            let ghost before = symbols_view(symbols@);
            let symbol = self.symbols[i].clone();
            symbols.push(symbol);
            i += 1;
            proof {
                assert(symbols_view(symbols@) =~= before.push(symbol@));
                assert(before.push(symbol@) =~= symbols_view(self.symbols@).take(i as int));
            }
        }
        let mut atoms: Vec<Atom> = Vec::new();
        let mut j: usize = 0;
        while j < self.atoms.len()
            invariant
                j <= self.atoms@.len(),
                atoms_view(atoms@) == atoms_view(self.atoms@).take(j as int),
            decreases self.atoms@.len() - j,
        {
            let ghost before = atoms_view(atoms@);
            let atom = self.atoms[j].clone();
            atoms.push(atom);
            j += 1;
            proof {
                assert(atoms_view(atoms@) =~= before.push(atom@));
                assert(before.push(atom@) =~= atoms_view(self.atoms@).take(j as int));
            }
        }
        proof {
            assert(symbols_view(symbols@) =~= symbols_view(self.symbols@));
            assert(atoms_view(atoms@) =~= atoms_view(self.atoms@));
        }
        Expression { symbols, atoms }
    }
}

impl<const N: usize> Expression<N> {
    #[verifier::type_invariant]
    spec fn bound(self) -> bool {
        &&& self.symbols@.len() == N
        &&& symbols_view(self.symbols@) == names_of(atoms_view(self.atoms@))
        &&& bracket_free(atoms_view(self.atoms@))
    }

    /// The expression with the program `atoms`, whose symbols are `symbols`.
    pub(crate) fn assemble(symbols: Vec<Symbol>, atoms: Vec<Atom>) -> (expression: Self)
        requires
            symbols@.len() == N,
            symbols_view(symbols@) == names_of(atoms_view(atoms@)),
            bracket_free(atoms_view(atoms@)),
        ensures
            expression@.symbols == symbols_view(symbols@),
            expression@.atoms == atoms_view(atoms@),
    {
        Expression { symbols, atoms }
    }

    /// The symbols, in the order of the coordinates of a point: the order
    /// of names.
    pub fn symbols(&self) -> (symbols: &Vec<Symbol>)
        ensures
            symbols_view(symbols@) == self@.symbols,
            symbols@.len() == N,
            self@.symbols == names_of(self@.atoms),
    {
        proof {
            use_type_invariant(self);
        }
        &self.symbols
    }

    /// The postfix program. No opening bracket stands in it.
    pub fn atoms(&self) -> (atoms: &Vec<Atom>)
        ensures
            atoms_view(atoms@) == self@.atoms,
            bracket_free(self@.atoms),
    {
        proof {
            use_type_invariant(self);
        }
        &self.atoms
    }

    /// The coordinate that `symbol` stands for.
    fn position(&self, symbol: &Symbol) -> (place: Option<usize>)
        ensures
            match place {
                Some(i) => first_index(self@.symbols, symbol@) == Some(i as int) && i < N,
                None => first_index(self@.symbols, symbol@) is None,
            },
    {
        proof {
            use_type_invariant(self);
        }
        let ghost names = symbols_view(self.symbols@);
        let n = self.symbols.len();
        let mut i: usize = 0;
        while i < n
            invariant
                n == self.symbols@.len(),
                n == N,
                names == symbols_view(self.symbols@),
                i <= n,
                first_index(names.take(i as int), symbol@) is None,
            decreases n - i,
        {
            proof {
                assert(names.take(i + 1).drop_last() =~= names.take(i as int));
                assert(names.take(i + 1).last() == self.symbols@[i as int]@);
            }
            if self.symbols[i].same_as(symbol) {
                proof {
                    lemma_first_index_stays(names, symbol@, i + 1);
                }
                return Some(i);
            }
            i += 1;
        }
        proof {
            assert(names.take(n as int) =~= names);
        }
        None
    }

    /// Runs the program at `point`. Gives the value; `None` where the
    /// program divides by an element without inverse; or the defect that
    /// stops the machine.
    pub fn evaluate<const P: u64>(&self, point: &[FieldElement<P>; N]) -> (result: Result<
        Option<FieldElement<P>>,
        Defect,
    >)
        requires
            P > 0,
        ensures
            tells(result, outcome(self@.atoms, self@.symbols, residues(point@), P as nat)),
            result != Err::<Option<FieldElement<P>>, Defect>(Defect::UnknownSymbol),
            result != Err::<Option<FieldElement<P>>, Defect>(Defect::OpeningBracket),
    {
        proof {
            use_type_invariant(self);
        }
        let ghost atoms = atoms_view(self.atoms@);
        let ghost symbols = symbols_view(self.symbols@);
        let ghost coordinates = residues(point@);
        let ghost p = P as nat;
        let n = self.atoms.len();
        let mut stack: Vec<FieldElement<P>> = Vec::new();
        let mut i: usize = 0;
        proof {
            assert(atoms.take(0) =~= Seq::<AtomModel>::empty());
            assert(residues(stack@) =~= Seq::<nat>::empty());
        }
        while i < n
            invariant
                P > 0,
                p == P as nat,
                n == self.atoms@.len(),
                atoms == atoms_view(self.atoms@),
                symbols == symbols_view(self.symbols@),
                symbols == self@.symbols,
                symbols == names_of(atoms),
                bracket_free(atoms),
                coordinates == residues(point@),
                i <= n,
                run_from(Seq::empty(), atoms.take(i as int), symbols, coordinates, p) == Ok::<
                    Seq<nat>,
                    Halt,
                >(residues(stack@)),
            decreases n - i,
        {
            let ghost before = residues(stack@);
            proof {
                assert(atoms.take(i + 1).drop_last() =~= atoms.take(i as int));
                assert(atoms.take(i + 1).last() == self.atoms@[i as int]@);
                assert(atoms =~= atoms.take(i + 1) + atoms.skip(i + 1));
                lemma_run_concat(
                    Seq::empty(),
                    atoms.take(i + 1),
                    atoms.skip(i + 1),
                    symbols,
                    coordinates,
                    p,
                );
                assert(run_from(Seq::empty(), atoms.take(i + 1), symbols, coordinates, p) == step(
                    before,
                    atoms[i as int],
                    symbols,
                    coordinates,
                    p,
                ));
            }
            match &self.atoms[i] {
                Atom::Symbol(symbol) => {
                    match self.position(symbol) {
                        Some(place) => {
                            let coordinate = point[place];
                            stack.push(coordinate);
                            proof {
                                assert(residues(stack@) =~= before.push(coordinates[place as int]));
                            }
                        },
                        None => {
                            proof {
                                // every symbol of the program is among the symbols
                                lemma_names_of(atoms);
                                assert(atoms.contains(AtomModel::Symbol(symbol@)));
                                let k = choose|k: int|
                                    0 <= k < symbols.len() && symbols[k] == symbol@;
                                assert(symbols[k] == symbol@);
                                lemma_first_index(symbols, symbol@);
                            }
                            return Err(Defect::UnknownSymbol);
                        },
                    }
                },
                Atom::Number(number) => {
                    let element = number.reduce::<P>();
                    stack.push(element);
                    proof {
                        assert(residues(stack@) =~= before.push(number@ % p));
                    }
                },
                Atom::Operator(operator) => {
                    let operator = *operator;
                    let depth = stack.len();
                    let rhs = match stack.pop() {
                        Some(rhs) => rhs,
                        None => {
                            return Err(Defect::MissingOperand(operator));
                        },
                    };
                    let lhs = match stack.pop() {
                        Some(lhs) => lhs,
                        None => {
                            match operator {
                                Operator::Plus | Operator::Minus => FieldElement::<P>::zero(),
                                _ => {
                                    return Err(Defect::MissingOperand(operator));
                                },
                            }
                        },
                    };
                    let value = match operator {
                        Operator::Plus => lhs.add(rhs),
                        Operator::Minus => lhs.sub(rhs),
                        Operator::Times => lhs.mul(rhs),
                        Operator::Divided => {
                            match rhs.try_inv() {
                                Some(inverse) => lhs.mul(inverse),
                                None => {
                                    return Ok(None);
                                },
                            }
                        },
                        Operator::Power => lhs.powu(rhs.value()),
                        Operator::LeftBracket => {
                            return Err(Defect::OpeningBracket);
                        },
                    };
                    stack.push(value);
                    proof {
                        if depth == 1 {
                            assert(residues(stack@) =~= seq![value@]);
                        } else {
                            assert(residues(stack@) =~= before.take(before.len() - 2).push(
                                value@,
                            ));
                        }
                    }
                },
            }
            i += 1;
        }
        proof {
            assert(atoms.take(n as int) =~= atoms);
        }
        if stack.len() == 1 {
            Ok(Some(stack[0]))
        } else {
            Err(Defect::StackDepth(stack.len()))
        }
    }

    /// Runs the program at `point`, where the program has no defect there.
    /// Gives the value, or `None` where the program divides by an element
    /// without inverse.
    pub fn try_eval<const P: u64>(&self, point: &[FieldElement<P>; N]) -> (value: Option<
        FieldElement<P>,
    >)
        requires
            P > 0,
            !(outcome(self@.atoms, self@.symbols, residues(point@), P as nat) is Defect),
        ensures
            match value {
                Some(value) => outcome(self@.atoms, self@.symbols, residues(point@), P as nat)
                    == Outcome::Value(value@),
                None => outcome(self@.atoms, self@.symbols, residues(point@), P as nat)
                    == Outcome::Undefined,
            },
    {
        match self.evaluate(point) {
            Ok(value) => value,
            Err(_) => None,
        }
    }

    /// Whether the program keeps the discipline of the stack. Where it does,
    /// it has no defect at any point.
    pub fn is_well_formed(&self) -> (kept: bool)
        ensures
            kept == well_formed(self@.atoms),
            kept ==> forall|point: Seq<nat>, p: nat|
                p > 0 ==> !(#[trigger] outcome(self@.atoms, self@.symbols, point, p) is Defect),
    {
        proof {
            use_type_invariant(self);
        }
        let ghost atoms = atoms_view(self.atoms@);
        let n = self.atoms.len();
        let mut d: usize = 0;
        let mut i: usize = 0;
        proof {
            assert(atoms.take(0) =~= Seq::<AtomModel>::empty());
        }
        while i < n
            invariant
                n == self.atoms@.len(),
                atoms == atoms_view(self.atoms@),
                atoms == self@.atoms,
                i <= n,
                d <= i,
                depth(atoms.take(i as int)) == Some(d as nat),
            decreases n - i,
        {
            proof {
                assert(atoms.take(i + 1).drop_last() =~= atoms.take(i as int));
                assert(atoms.take(i + 1).last() == self.atoms@[i as int]@);
                assert(atoms =~= atoms.take(i + 1) + atoms.skip(i + 1));
                if depth(atoms.take(i + 1)) is None {
                    lemma_depth_concat(atoms.take(i + 1), atoms.skip(i + 1));
                }
            }
            match &self.atoms[i] {
                Atom::Operator(operator) => {
                    match operator {
                        Operator::LeftBracket => {
                            return false;
                        },
                        Operator::Plus | Operator::Minus => {
                            if d >= 2 {
                                d -= 1;
                            } else if d == 0 {
                                return false;
                            }
                        },
                        _ => {
                            if d >= 2 {
                                d -= 1;
                            } else {
                                return false;
                            }
                        },
                    }
                },
                _ => {
                    d += 1;
                },
            }
            i += 1;
        }
        proof {
            assert(atoms.take(n as int) =~= atoms);
            if d == 1 {
                let symbols = symbols_view(self.symbols@);
                lemma_names_of(atoms);
                assert(symbols_known(atoms, symbols)) by {
                    assert forall|k: int| 0 <= k < atoms.len() implies (#[trigger] atoms[k] matches AtomModel::Symbol(
                        name,
                    ) ==> symbols.contains(name)) by {
                        if let AtomModel::Symbol(name) = atoms[k] {
                            assert(atoms.contains(AtomModel::Symbol(name)));
                        }
                    }
                }
                assert forall|point: Seq<nat>, p: nat| p > 0 implies !(#[trigger] outcome(
                    self@.atoms,
                    self@.symbols,
                    point,
                    p,
                ) is Defect) by {
                    lemma_well_formed_outcome(atoms, symbols, point, p);
                }
            }
        }
        d == 1
    }
}

/// A program that breaks the discipline of the stack stays broken however it
/// goes on.
pub proof fn lemma_depth_concat(first: Seq<AtomModel>, second: Seq<AtomModel>)
    requires
        depth(first) is None,
    ensures
        depth(first + second) is None,
    decreases second.len(),
{
    if second.len() == 0 {
        assert(first + second =~= first);
    } else {
        assert((first + second).drop_last() =~= first + second.drop_last());
        lemma_depth_concat(first, second.drop_last());
    }
}

} // verus!

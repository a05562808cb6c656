//! The atoms that a postfix program is made of: symbols, numbers and
//! operators.
use vstd::prelude::*;
use vstd::slice::slice_to_vec;
use vstd::string::StringSliceAdditionalSpecFns;
use crate::natural::Natural;

verus! {

/// The binary operators of the grammar, and the opening bracket that the
/// parser keeps on its operator stack.
#[derive(Clone, Copy, Debug, PartialEq, Eq, Structural, PartialOrd, Ord, Hash)]
pub enum Operator {
    Plus,
    Minus,
    Times,
    Divided,
    Power,
    LeftBracket,
}

impl Operator {
    /// How tightly the operator binds; an opening bracket binds weakest.
    pub open spec fn spec_precedence(self) -> nat {
        match self {
            Operator::Plus | Operator::Minus => 10,
            Operator::Times | Operator::Divided => 20,
            Operator::Power => 30,
            Operator::LeftBracket => 0,
        }
    }

    pub fn precedence(&self) -> (strength: u32)
        ensures
            strength == self.spec_precedence(),
    {
        match self {
            Operator::Plus => 10,
            Operator::Minus => 10,
            Operator::Times => 20,
            Operator::Divided => 20,
            Operator::Power => 30,
            Operator::LeftBracket => 0,
        }
    }
}

/// `a` comes before `b` in the order of names: the order of a dictionary,
/// character by character.
pub open spec fn name_before(a: Seq<u8>, b: Seq<u8>) -> bool
    decreases a.len(),
{
    if b.len() == 0 {
        false
    } else if a.len() == 0 {
        true
    } else if a[0] != b[0] {
        a[0] < b[0]
    } else {
        name_before(a.drop_first(), b.drop_first())
    }
}

/// A variable of an expression, known by its name.
#[derive(Debug, PartialEq, Eq, Hash)]
pub struct Symbol {
    name: Vec<u8>,
}

impl View for Symbol {
    type V = Seq<u8>;

    /// The name, as its bytes.
    closed spec fn view(&self) -> Seq<u8> {
        self.name@
    }
}

impl Clone for Symbol {
    fn clone(&self) -> (copy: Self)
        ensures
            copy@ == self@,
    {
        let name = self.name.clone();
        assert(name@ =~= self.name@);
        Symbol { name }
    }
}

impl Symbol {
    /// The symbol named `name`.
    pub fn new(name: &str) -> (symbol: Symbol)
        ensures
            symbol@ == name.spec_bytes(),
    {
        Symbol { name: slice_to_vec(name.as_bytes()) }
    }

    /// The symbol whose name is the bytes `name`.
    pub fn from_bytes(name: &[u8]) -> (symbol: Symbol)
        ensures
            symbol@ == name@,
    {
        Symbol { name: slice_to_vec(name) }
    }

    /// The bytes of the name.
    pub fn name(&self) -> (name: &Vec<u8>)
        ensures
            name@ == self@,
    {
        &self.name
    }

    /// Whether both symbols have the same name.
    pub fn same_as(&self, other: &Symbol) -> (same: bool)
        ensures
            same == (self@ == other@),
    {
        let n = self.name.len();
        if n != other.name.len() {
            return false;
        }
        let mut i: usize = 0;
        while i < n
            invariant
                n == self.name@.len(),
                n == other.name@.len(),
                i <= n,
                forall|j: int| 0 <= j < i ==> self.name@[j] == other.name@[j],
            decreases n - i,
        {
            if self.name[i] != other.name[i] {
                return false;
            }
            i += 1;
        }
        assert(self.name@ =~= other.name@);
        true
    }

    /// Whether this symbol's name comes before the name of `other`.
    pub fn precedes(&self, other: &Symbol) -> (before: bool)
        ensures
            before == name_before(self@, other@),
    {
        let n = self.name.len();
        let m = other.name.len();
        let mut i: usize = 0;
        proof {
            assert(self.name@.skip(0) =~= self.name@);
            assert(other.name@.skip(0) =~= other.name@);
        }
        while i < n && i < m && self.name[i] == other.name[i]
            invariant
                n == self.name@.len(),
                m == other.name@.len(),
                i <= n,
                i <= m,
                name_before(self.name@, other.name@) == name_before(
                    self.name@.skip(i as int),
                    other.name@.skip(i as int),
                ),
            decreases n - i,
        {
            proof {
                assert(self.name@.skip(i as int).drop_first() =~= self.name@.skip(i + 1));
                assert(other.name@.skip(i as int).drop_first() =~= other.name@.skip(i + 1));
            }
            i += 1;
        }
        if i == m {
            false
        } else if i == n {
            true
        } else {
            self.name[i] < other.name[i]
        }
    }
}

/// No name comes before itself.
pub proof fn lemma_name_before_irreflexive(a: Seq<u8>)
    ensures
        !name_before(a, a),
    decreases a.len(),
{
    if a.len() > 0 {
        lemma_name_before_irreflexive(a.drop_first());
    }
}

/// Of two different names, one comes before the other.
pub proof fn lemma_name_before_total(a: Seq<u8>, b: Seq<u8>)
    ensures
        a == b || name_before(a, b) || name_before(b, a),
    decreases a.len(),
{
    if a.len() == 0 || b.len() == 0 {
        if a.len() == 0 && b.len() == 0 {
            assert(a =~= b);
        }
    } else if a[0] == b[0] {
        lemma_name_before_total(a.drop_first(), b.drop_first());
        if a.drop_first() == b.drop_first() {
            assert(a =~= seq![a[0]] + a.drop_first());
            assert(b =~= seq![b[0]] + b.drop_first());
        }
    }
}

/// The order of names is transitive.
pub proof fn lemma_name_before_transitive(a: Seq<u8>, b: Seq<u8>, c: Seq<u8>)
    requires
        name_before(a, b),
        name_before(b, c),
    ensures
        name_before(a, c),
    decreases a.len(),
{
    if a.len() > 0 && a[0] == b[0] && b[0] == c[0] {
        lemma_name_before_transitive(a.drop_first(), b.drop_first(), c.drop_first());
    }
}

/// One atom of a postfix program.
#[derive(Debug, PartialEq, Eq, Hash)]
pub enum Atom {
    Symbol(Symbol),
    Number(Natural),
    Operator(Operator),
}

/// What an atom stands for: the name of a symbol, the value of a number, or
/// an operator.
pub enum AtomModel {
    Symbol(Seq<u8>),
    Number(nat),
    Operator(Operator),
}

impl View for Atom {
    type V = AtomModel;

    open spec fn view(&self) -> AtomModel {
        match *self {
            Atom::Symbol(symbol) => AtomModel::Symbol(symbol@),
            Atom::Number(number) => AtomModel::Number(number@),
            Atom::Operator(operator) => AtomModel::Operator(operator),
        }
    }
}

impl Clone for Atom {
    fn clone(&self) -> (copy: Self)
        ensures
            copy@ == self@,
    {
        match self {
            Atom::Symbol(symbol) => Atom::Symbol(symbol.clone()),
            Atom::Number(number) => Atom::Number(number.clone()),
            Atom::Operator(operator) => Atom::Operator(*operator),
        }
    }
}

impl From<Operator> for Atom {
    fn from(operator: Operator) -> (atom: Self) {
        Atom::Operator(operator)
    }
}

impl vstd::std_specs::convert::FromSpecImpl<Operator> for Atom {
    open spec fn obeys_from_spec() -> bool {
        true
    }

    open spec fn from_spec(operator: Operator) -> Self {
        Atom::Operator(operator)
    }
}

impl From<Natural> for Atom {
    fn from(number: Natural) -> (atom: Self) {
        Atom::Number(number)
    }
}

impl vstd::std_specs::convert::FromSpecImpl<Natural> for Atom {
    open spec fn obeys_from_spec() -> bool {
        true
    }

    open spec fn from_spec(number: Natural) -> Self {
        Atom::Number(number)
    }
}

impl From<Symbol> for Atom {
    fn from(symbol: Symbol) -> (atom: Self) {
        Atom::Symbol(symbol)
    }
}

impl vstd::std_specs::convert::FromSpecImpl<Symbol> for Atom {
    open spec fn obeys_from_spec() -> bool {
        true
    }

    open spec fn from_spec(symbol: Symbol) -> Self {
        Atom::Symbol(symbol)
    }
}

/// No atom of the sequence is an opening bracket.
pub open spec fn bracket_free(atoms: Seq<AtomModel>) -> bool {
    forall|i: int|
        0 <= i < atoms.len() ==> #[trigger] atoms[i] != AtomModel::Operator(Operator::LeftBracket)
}

/// What a sequence of atoms stands for, atom by atom.
pub open spec fn atoms_view(atoms: Seq<Atom>) -> Seq<AtomModel> {
    atoms.map_values(|atom: Atom| atom@)
}

} // verus!

//! The symbols of a program as a list: each name once, in the order of
//! names.
use vstd::prelude::*;
use crate::atom::{
    lemma_name_before_irreflexive,
    lemma_name_before_total,
    lemma_name_before_transitive,
    name_before,
    AtomModel,
    Symbol,
};

verus! {

/// Each name comes before every later one; so no name occurs twice.
pub open spec fn strictly_sorted(names: Seq<Seq<u8>>) -> bool {
    forall|i: int, j: int| 0 <= i < j < names.len() ==> name_before(names[i], names[j])
}

/// The list `names` with `name` put in at its place, unless it is there
/// already.
pub open spec fn insert_name(names: Seq<Seq<u8>>, name: Seq<u8>) -> Seq<Seq<u8>>
    decreases names.len(),
{
    if names.len() == 0 {
        seq![name]
    } else if names.last() == name {
        names
    } else if name_before(names.last(), name) {
        names.push(name)
    } else {
        insert_name(names.drop_last(), name).push(names.last())
    }
}

/// The names of the symbols that occur in `atoms`, each once, in the order
/// of names.
pub open spec fn names_of(atoms: Seq<AtomModel>) -> Seq<Seq<u8>>
    decreases atoms.len(),
{
    if atoms.len() == 0 {
        Seq::empty()
    } else {
        match atoms.last() {
            AtomModel::Symbol(name) => insert_name(names_of(atoms.drop_last()), name),
            _ => names_of(atoms.drop_last()),
        }
    }
}

/// The names of a list of symbols.
pub open spec fn symbols_view(symbols: Seq<Symbol>) -> Seq<Seq<u8>> {
    symbols.map_values(|symbol: Symbol| symbol@)
}

/// Puts `symbol` into the list at its place, unless a symbol of that name is
/// there already.
pub fn insert_symbol(symbols: &mut Vec<Symbol>, symbol: Symbol)
    ensures
        symbols_view(final(symbols)@) == insert_name(symbols_view(old(symbols)@), symbol@),
{
    let ghost names = symbols_view(symbols@);
    let ghost name = symbol@;
    let mut k: usize = symbols.len();
    proof {
        assert(names.take(k as int) =~= names);
        assert(insert_name(names, name) =~= insert_name(names.take(k as int), name) + names.skip(
            k as int,
        ));
    }
    let mut placed = false;
    while k > 0 && !placed
        invariant
            k <= symbols@.len(),
            names == symbols_view(symbols@),
            name == symbol@,
            insert_name(names, name) == insert_name(names.take(k as int), name) + names.skip(
                k as int,
            ),
            placed ==> k > 0 && names[k - 1] != name && name_before(names[k - 1], name),
        decreases k, (if placed { 0int } else { 1int }),
    {
        let ghost shorter = names.take(k as int);
        proof {
            assert(shorter.last() == symbols@[k - 1]@);
            assert(shorter.drop_last() =~= names.take(k - 1));
        }
        if symbols[k - 1].same_as(&symbol) {
            proof {
                assert(shorter + names.skip(k as int) =~= names);
            }
            return ;
        }
        if symbols[k - 1].precedes(&symbol) {
            placed = true;
        } else {
            proof {
                assert(insert_name(shorter, name) + names.skip(k as int) =~= insert_name(
                    names.take(k - 1),
                    name,
                ) + names.skip(k - 1));
            }
            k -= 1;
        }
    }
    proof {
        let shorter = names.take(k as int);
        if k > 0 {
            assert(shorter.last() == names[k - 1]);
        }
        assert(insert_name(shorter, name) =~= shorter.push(name));
        assert(shorter.push(name) + names.skip(k as int) =~= names.insert(k as int, name));
        assert(symbols_view(symbols@.insert(k as int, symbol)) =~= names.insert(k as int, name));
    }
    symbols.insert(k, symbol);
}

/// A list in the order of names stays so when a name is put in, and holds
/// that name beside those it held.
pub proof fn lemma_insert_name(names: Seq<Seq<u8>>, name: Seq<u8>)
    requires
        strictly_sorted(names),
    ensures
        strictly_sorted(insert_name(names, name)),
        forall|other: Seq<u8>|
            #![trigger insert_name(names, name).contains(other)]
            #![trigger names.contains(other)]
            insert_name(names, name).contains(other) <==> (other == name || names.contains(other)),
    decreases names.len(),
{
    let longer = insert_name(names, name);
    if names.len() == 0 {
        assert(longer[0] == name);
        assert forall|other: Seq<u8>| longer.contains(other) <==> (other == name
            || names.contains(other)) by {}
    } else if names.last() == name {
        assert(names[names.len() - 1] == name);
    } else if name_before(names.last(), name) {
        assert forall|i: int, j: int| 0 <= i < j < longer.len() implies name_before(
            longer[i],
            longer[j],
        ) by {
            if j == names.len() && i < names.len() - 1 {
                lemma_name_before_transitive(names[i], names.last(), name);
            }
        }
        assert forall|other: Seq<u8>| longer.contains(other) <==> (other == name
            || names.contains(other)) by {
            if longer.contains(other) {
                let i = choose|i: int| 0 <= i < longer.len() && longer[i] == other;
                if i < names.len() {
                    assert(names[i] == other);
                }
            }
            if names.contains(other) {
                let i = choose|i: int| 0 <= i < names.len() && names[i] == other;
                assert(longer[i] == other);
            }
            if other == name {
                assert(longer[names.len() as int] == other);
            }
        }
    } else {
        let shorter = names.drop_last();
        let last = names.last();
        assert forall|i: int, j: int| 0 <= i < j < shorter.len() implies name_before(
            shorter[i],
            shorter[j],
        ) by {
            assert(shorter[i] == names[i] && shorter[j] == names[j]);
        }
        lemma_insert_name(shorter, name);
        let inner = insert_name(shorter, name);
        lemma_name_before_total(last, name);
        assert(name_before(name, last));
        assert forall|i: int| 0 <= i < inner.len() implies name_before(inner[i], last) by {
            assert(inner.contains(inner[i]));
            if inner[i] != name {
                let k = choose|k: int| 0 <= k < shorter.len() && shorter[k] == inner[i];
                assert(names[k] == inner[i]);
            }
        }
        assert forall|i: int, j: int| 0 <= i < j < longer.len() implies name_before(
            longer[i],
            longer[j],
        ) by {
            if j < inner.len() {
                assert(longer[i] == inner[i] && longer[j] == inner[j]);
            } else {
                assert(longer[i] == inner[i]);
            }
        }
        assert forall|other: Seq<u8>| longer.contains(other) <==> (other == name
            || names.contains(other)) by {
            if longer.contains(other) {
                let i = choose|i: int| 0 <= i < longer.len() && longer[i] == other;
                if i < inner.len() {
                    assert(inner.contains(inner[i]));
                    if other != name {
                        let k = choose|k: int| 0 <= k < shorter.len() && shorter[k] == other;
                        assert(names[k] == other);
                    }
                } else {
                    assert(names[names.len() - 1] == other);
                }
            }
            if names.contains(other) {
                let i = choose|i: int| 0 <= i < names.len() && names[i] == other;
                if i < shorter.len() {
                    assert(shorter[i] == other);
                    assert(shorter.contains(other));
                    let k = choose|k: int| 0 <= k < inner.len() && inner[k] == other;
                    assert(longer[k] == other);
                } else {
                    assert(longer[inner.len() as int] == other);
                }
            }
            if other == name {
                assert(inner.contains(name));
                let k = choose|k: int| 0 <= k < inner.len() && inner[k] == name;
                assert(longer[k] == name);
            }
        }
    }
}

/// The list of a program's names is in the order of names, and holds the
/// names of the symbols in the program and no others.
pub proof fn lemma_names_of(atoms: Seq<AtomModel>)
    ensures
        strictly_sorted(names_of(atoms)),
        forall|name: Seq<u8>|
            #![trigger names_of(atoms).contains(name)]
            #![trigger atoms.contains(AtomModel::Symbol(name))]
            names_of(atoms).contains(name) <==> atoms.contains(AtomModel::Symbol(name)),
    decreases atoms.len(),
{
    if atoms.len() == 0 {
        assert forall|name: Seq<u8>|
            names_of(atoms).contains(name) <==> atoms.contains(AtomModel::Symbol(name)) by {}
    } else {
        let shorter = atoms.drop_last();
        lemma_names_of(shorter);
        assert forall|i: int| 0 <= i < shorter.len() implies shorter[i] == atoms[i] by {}
        match atoms.last() {
            AtomModel::Symbol(last) => {
                lemma_insert_name(names_of(shorter), last);
            },
            _ => {},
        }
        assert forall|name: Seq<u8>|
            names_of(atoms).contains(name) <==> atoms.contains(AtomModel::Symbol(name)) by {
            let wanted = AtomModel::Symbol(name);
            assert(names_of(shorter).contains(name) <==> shorter.contains(wanted));
            if atoms.contains(wanted) {
                let i = choose|i: int| 0 <= i < atoms.len() && atoms[i] == wanted;
                if i < shorter.len() {
                    assert(shorter[i] == wanted);
                    assert(shorter.contains(wanted));
                }
            }
            if shorter.contains(wanted) {
                let i = choose|i: int| 0 <= i < shorter.len() && shorter[i] == wanted;
                assert(atoms[i] == wanted);
            }
            if atoms.last() == wanted {
                assert(atoms[atoms.len() - 1] == wanted);
            }
        }
    }
}

/// Two lists in the order of names that hold the same names are the same
/// list: the order of a program's symbols does not depend on where each
/// first occurs.
pub proof fn law_symbol_order_unique(a: Seq<Seq<u8>>, b: Seq<Seq<u8>>)
    requires
        strictly_sorted(a),
        strictly_sorted(b),
        forall|name: Seq<u8>| a.contains(name) <==> b.contains(name),
    ensures
        a == b,
    decreases a.len(),
{
    if a.len() == 0 {
        if b.len() > 0 {
            assert(b.contains(b[0]));
        }
        assert(a =~= b);
    } else if b.len() == 0 {
        assert(a.contains(a[0]));
    } else {
        // the last name of each list is the greatest name of both
        let x = a.last();
        let y = b.last();
        assert(a.contains(x)) by {
            assert(a[a.len() - 1] == x);
        }
        assert(b.contains(y)) by {
            assert(b[b.len() - 1] == y);
        }
        let i = choose|i: int| 0 <= i < b.len() && b[i] == x;
        let j = choose|j: int| 0 <= j < a.len() && a[j] == y;
        lemma_name_before_irreflexive(x);
        if x != y {
            assert(name_before(x, y));
            assert(name_before(y, x));
            lemma_name_before_transitive(x, y, x);
        }
        let a0 = a.drop_last();
        let b0 = b.drop_last();
        assert forall|name: Seq<u8>| a0.contains(name) <==> b0.contains(name) by {
            lemma_name_before_irreflexive(name);
            if a0.contains(name) {
                let k = choose|k: int| 0 <= k < a0.len() && a0[k] == name;
                assert(a[k] == name);
                assert(a.contains(name));
                let m = choose|m: int| 0 <= m < b.len() && b[m] == name;
                assert(name_before(a[k], a[a.len() - 1]));
                assert(b0[m] == name);
            }
            if b0.contains(name) {
                let k = choose|k: int| 0 <= k < b0.len() && b0[k] == name;
                assert(b[k] == name);
                assert(b.contains(name));
                let m = choose|m: int| 0 <= m < a.len() && a[m] == name;
                assert(name_before(b[k], b[b.len() - 1]));
                assert(a0[m] == name);
            }
        }
        assert(strictly_sorted(a0)) by {
            assert forall|i: int, j: int| 0 <= i < j < a0.len() implies name_before(
                a0[i],
                a0[j],
            ) by {
                assert(a0[i] == a[i] && a0[j] == a[j]);
            }
        }
        assert(strictly_sorted(b0)) by {
            assert forall|i: int, j: int| 0 <= i < j < b0.len() implies name_before(
                b0[i],
                b0[j],
            ) by {
                assert(b0[i] == b[i] && b0[j] == b[j]);
            }
        }
        law_symbol_order_unique(a0, b0);
        assert(a =~= a0.push(x));
        assert(b =~= b0.push(y));
    }
}

} // verus!

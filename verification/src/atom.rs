//! The mathematical model of terms.
//!
//! A heap-resident term denotes a sequence of leaves: the leaves of its
//! concatenation spine, in left-to-right order. `Atom::Nil` stands for an
//! `Empty` leaf; a quotation leaf carries the leaves of its body. The
//! reduction machine and all term-building contracts are stated over these
//! sequences.

use vstd::prelude::*;

verus! {

/// A primitive instruction of the canonical basis. `Prop` and `Forall` are
/// reserved names that never execute a rewrite rule: they always defer to the
/// thunk list.
#[derive(Debug, Copy, Clone, PartialEq, Eq, Structural)]
pub enum Opcode {
    App,
    Box,
    Cat,
    Copy,
    Drop,
    Swap,
    Fix,
    Prop,
    Forall,
}

/// One leaf of a term's concatenation spine.
pub ghost enum Atom {
    /// An `Empty` leaf: the identity element of composition.
    Nil,
    /// A numeric literal.
    Lit(int),
    /// A symbolic name, looked up lazily at execution time.
    Sym(Seq<char>),
    /// An annotation: a no-op leaf carrying a name.
    Ann(Seq<char>),
    /// A primitive instruction.
    Op(Opcode),
    /// A quotation: an inert program fragment, carried as the leaves of its
    /// body.
    Quo(Seq<Atom>),
}

/// The leaf sequence of the `Empty` term.
pub open spec fn nil_leaves() -> Seq<Atom> {
    seq![Atom::Nil]
}

/// Sequential composition of two leaf sequences, normalized: composing with
/// the leaves of `Empty` on either side is the identity.
pub open spec fn njoin(x: Seq<Atom>, y: Seq<Atom>) -> Seq<Atom> {
    if x == nil_leaves() {
        y
    } else if y == nil_leaves() {
        x
    } else {
        x + y
    }
}

/// The leaf sequences that normalized terms denote: either the single
/// `Empty` leaf, or a nonempty sequence with no `Empty` leaf in it.
pub open spec fn clean(s: Seq<Atom>) -> bool {
    ||| s == nil_leaves()
    ||| (s.len() >= 1 && forall|i: int| 0 <= i < s.len() ==> s[i] != Atom::Nil)
}

/// Composition with `Empty` leaves on the left is the identity.
pub proof fn lemma_njoin_nil_left(x: Seq<Atom>)
    ensures
        njoin(nil_leaves(), x) == x,
{
}

/// Composition with `Empty` leaves on the right is the identity.
pub proof fn lemma_njoin_nil_right(x: Seq<Atom>)
    ensures
        njoin(x, nil_leaves()) == x,
{
}

/// Composition of clean leaf sequences is associative.
pub proof fn lemma_njoin_assoc(x: Seq<Atom>, y: Seq<Atom>, z: Seq<Atom>)
    requires
        clean(x),
        clean(y),
        clean(z),
    ensures
        njoin(njoin(x, y), z) == njoin(x, njoin(y, z)),
{
    if x == nil_leaves() || y == nil_leaves() || z == nil_leaves() {
    } else {
        assert(x.len() >= 1 && y.len() >= 1);
        assert((x + y).len() >= 2);
        assert(x + y != nil_leaves()) by {
            assert((x + y).len() != nil_leaves().len());
        }
        assert(y + z != nil_leaves()) by {
            assert((y + z).len() != nil_leaves().len());
        }
        assert((x + y) + z == x + (y + z)) by {
            assert((x + y) + z =~= x + (y + z));
        }
    }
}

/// A composition of clean leaf sequences is itself clean.
pub proof fn lemma_njoin_clean(x: Seq<Atom>, y: Seq<Atom>)
    requires
        clean(x),
        clean(y),
    ensures
        clean(njoin(x, y)),
{
    if x == nil_leaves() || y == nil_leaves() {
    } else {
        assert(forall|i: int|
            0 <= i < (x + y).len() ==> (x + y)[i] != Atom::Nil) by {
            assert(forall|i: int| 0 <= i < x.len() ==> (x + y)[i] == x[i]);
            assert(forall|i: int|
                x.len() <= i < (x + y).len() ==> (x + y)[i] == y[i - x.len()]);
        }
    }
}

} // verus!

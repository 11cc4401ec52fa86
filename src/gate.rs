//! Catalog of gates: arity of each, and transforms of the permutation gates.
//! Bit `j` of a sub-index is the value of the `j`-th addressed qubit.
use vstd::prelude::*;

verus! {

/// A gate of the catalog.
#[derive(Clone, Copy, Debug, PartialEq, Eq, Structural)]
pub enum Gate {
    /// Hadamard, on one qubit.
    H,
    /// Exchange of two qubits.
    SWAP,
    /// Exchange of the first two of three qubits when the third is 1.
    CSWAP,
}

impl Gate {
    /// Number of qubits it acts on.
    pub open spec fn arity(self) -> nat {
        match self {
            Gate::H => 1,
            Gate::SWAP => 2,
            Gate::CSWAP => 3,
        }
    }

    pub fn parameter_length(&self) -> (r: usize)
        ensures
            r == self.arity(),
    {
        match *self {
            Gate::H => 1,
            Gate::SWAP => 2,
            Gate::CSWAP => 3,
        }
    }
}

/// `v` with the entries at `i` and `j` exchanged.
pub open spec fn exchanged<A>(v: Seq<A>, i: int, j: int) -> Seq<A> {
    v.update(i, v[j]).update(j, v[i])
}

/// The swap gate on a vector of four amplitudes: sub-indices 1 and 2 trade places.
pub fn swap<A: Copy>(v: Vec<A>) -> (r: Vec<A>)
    requires
        v.len() == 4,
    ensures
        r@ == exchanged(v@, 1, 2),
{
    exchange(v, 1, 2)
}

/// The controlled swap on a vector of eight amplitudes: sub-indices 5 and 6
/// trade places, every other one stays.
pub fn cswap<A: Copy>(v: Vec<A>) -> (r: Vec<A>)
    requires
        v.len() == 8,
    ensures
        r@ == exchanged(v@, 5, 6),
{
    exchange(v, 5, 6)
}

fn exchange<A: Copy>(v: Vec<A>, i: usize, j: usize) -> (r: Vec<A>)
    requires
        i < v.len(),
        j < v.len(),
    ensures
        r@ == exchanged(v@, i as int, j as int),
{
    let mut v = v;
    let tmp = v[i];
    let other = v[j];
    v.set(i, other);
    v.set(j, tmp);
    v
}

/// Exchanging two entries of a vector keeps the multiset of its entries: the
/// permutation gates move amplitude mass around and neither create nor lose any.
pub proof fn lemma_exchange_permutes<A>(v: Seq<A>, i: int, j: int)
    requires
        0 <= i < v.len(),
        0 <= j < v.len(),
    ensures
        exchanged(v, i, j).to_multiset() =~= v.to_multiset(),
        exchanged(v, i, j).len() == v.len(),
{
    broadcast use vstd::multiset::group_multiset_properties, vstd::multiset::group_multiset_axioms;

    let u = v.update(i, v[j]);
    vstd::seq_lib::to_multiset_update(v, i, v[j]);
    vstd::seq_lib::to_multiset_update(u, j, v[i]);
    vstd::seq_lib::to_multiset_contains(v, v[i]);
    if i == j {
        assert(u =~= v);
        assert(exchanged(v, i, j) =~= v);
    } else {
        assert(u[j] == v[j]);
    }
}

} // verus!

//! The orbits that a gate on `m` addressed qubits splits the register into:
//! for each free-bit counter `k`, the `2^m` indices that agree outside the
//! addressed positions, numbered by the corner `c` whose bit `j` is the value
//! of addressed position `j`.
use vstd::prelude::*;

use crate::address_decoder::{addresses_valid, pin_lookup, table_of, AddressedBit};
use crate::layout::{
    bit_of, decode, encode, free_count, lemma_decode_bound, lemma_decode_encode, lemma_decode_flip,
    lemma_decode_matches, lemma_decode_strict_mono, lemma_pow2_pos, matches_table, pow2,
    table_bits_ok, PinTable,
};

verus! {

/// Position `p` is one of `addrs`.
pub open spec fn names(addrs: Seq<usize>, p: int) -> bool {
    exists|j: int| 0 <= j < addrs.len() && addrs[j] as int == p
}

/// `t` with each position `addrs[j]` pinned to bit `j` of `c`.
pub open spec fn corner(t: PinTable, addrs: Seq<usize>, c: nat) -> PinTable
    decreases addrs.len(),
{
    if addrs.len() == 0 {
        t
    } else {
        corner(t, addrs.drop_last(), c).update(
            addrs.last() as int,
            Some(bit_of(c, (addrs.len() - 1) as nat) as u8),
        )
    }
}

/// The table of a width-`n` register with every position of `addrs` pinned to 0.
pub open spec fn zero_table(n: nat, addrs: Seq<usize>) -> PinTable {
    corner(Seq::new(n, |p: int| None::<u8>), addrs, 0)
}

/// The table pinning the positions of `addrs` to the bits of the corner `c`.
pub open spec fn corner_table(n: nat, addrs: Seq<usize>, c: nat) -> PinTable {
    corner(zero_table(n, addrs), addrs, c)
}

/// The index at corner `c` of orbit `k`.
pub open spec fn orbit_index(n: nat, addrs: Seq<usize>, c: nat, k: nat) -> nat {
    decode(corner_table(n, addrs, c), k)
}

/// The amplitudes of orbit `k`, at its corners in order.
pub open spec fn sub_vector<A>(amps: Seq<A>, n: nat, addrs: Seq<usize>, k: nat) -> Seq<A> {
    Seq::new(pow2(addrs.len()), |c: int| amps[orbit_index(n, addrs, c as nat, k) as int])
}

/// The constraints pinning each position of `addrs` to 0.
pub open spec fn zero_pins(addrs: Seq<usize>) -> Seq<AddressedBit> {
    addrs.map_values(|a: usize| AddressedBit { address: a, bit: 0 })
}

/// What remains of `c` after dropping its `j` lowest bits.
pub open spec fn shr(c: nat, j: nat) -> nat
    decreases j,
{
    if j == 0 {
        c
    } else {
        shr(c / 2, (j - 1) as nat)
    }
}

pub proof fn lemma_shr(c: nat, j: nat)
    ensures
        shr(c, j + 1) == shr(c, j) / 2,
        bit_of(c, j) == shr(c, j) % 2,
    decreases j,
{
    assert(shr(c, j + 1) == shr(c / 2, j));
    if j > 0 {
        lemma_shr(c / 2, (j - 1) as nat);
    }
}

pub proof fn lemma_bit_le1(c: nat, j: nat)
    ensures
        bit_of(c, j) <= 1,
    decreases j,
{
    if j > 0 {
        lemma_bit_le1(c / 2, (j - 1) as nat);
    }
}

pub proof fn lemma_bit_of_zero(j: nat)
    ensures
        bit_of(0, j) == 0,
    decreases j,
{
    if j > 0 {
        lemma_bit_of_zero((j - 1) as nat);
    }
}

/// Two different numbers below `2^m` differ in one of their `m` low bits.
pub proof fn lemma_bits_differ(c1: nat, c2: nat, m: nat) -> (j: nat)
    requires
        c1 != c2,
        c1 < pow2(m),
        c2 < pow2(m),
    ensures
        j < m,
        bit_of(c1, j) != bit_of(c2, j),
    decreases m,
{
    if m == 0 {
        assert(false);
        0
    } else if c1 % 2 != c2 % 2 {
        0
    } else {
        let j = lemma_bits_differ(c1 / 2, c2 / 2, (m - 1) as nat);
        j + 1
    }
}

/// Where a corner pins, and what it leaves as it was.
pub proof fn lemma_corner_at(t: PinTable, addrs: Seq<usize>, c: nat)
    requires
        addresses_valid(t.len(), addrs),
    ensures
        corner(t, addrs, c).len() == t.len(),
        forall|j: int| 0 <= j < addrs.len() ==>
            #[trigger] corner(t, addrs, c)[addrs[j] as int] == Some(bit_of(c, j as nat) as u8),
        forall|p: int| 0 <= p < t.len() && !names(addrs, p) ==>
            #[trigger] corner(t, addrs, c)[p] == t[p],
    decreases addrs.len(),
{
    if addrs.len() > 0 {
        let d = addrs.drop_last();
        assert(addresses_valid(t.len(), d)) by {
            assert forall|i: int, j: int| 0 <= i < j < d.len() implies #[trigger] d[i] != #[trigger] d[j] by {
                assert(addrs[i] != addrs[j]);
            }
            assert forall|i: int| 0 <= i < d.len() implies #[trigger] d[i] < t.len() by {
                assert(addrs[i] < t.len());
            }
        }
        lemma_corner_at(t, d, c);
        let l = addrs.len() - 1;
        assert(addrs[l] < t.len());
        assert forall|j: int| 0 <= j < addrs.len() implies
            #[trigger] corner(t, addrs, c)[addrs[j] as int] == Some(bit_of(c, j as nat) as u8) by {
            if j < l {
                assert(addrs[j] != addrs[l]);
                assert(d[j] == addrs[j]);
            }
        }
        assert forall|p: int| 0 <= p < t.len() && !names(addrs, p) implies
            #[trigger] corner(t, addrs, c)[p] == t[p] by {
            if names(d, p) {
                let i = choose|i: int| 0 <= i < d.len() && d[i] as int == p;
                assert(addrs[i] as int == p);
            }
            assert(addrs[l] as int != p);
        }
    }
}

proof fn lemma_zero_table_len(n: nat, addrs: Seq<usize>)
    requires
        forall|j: int| 0 <= j < addrs.len() ==> #[trigger] addrs[j] < n,
    ensures
        zero_table(n, addrs).len() == n,
        corner_table(n, addrs, 0).len() == n,
    decreases addrs.len(),
{
    lemma_corner_len(Seq::new(n, |p: int| None::<u8>), addrs, 0);
    lemma_corner_len(zero_table(n, addrs), addrs, 0);
}

proof fn lemma_corner_len(t: PinTable, addrs: Seq<usize>, c: nat)
    requires
        forall|j: int| 0 <= j < addrs.len() ==> #[trigger] addrs[j] < t.len(),
    ensures
        corner(t, addrs, c).len() == t.len(),
    decreases addrs.len(),
{
    if addrs.len() > 0 {
        let d = addrs.drop_last();
        assert forall|j: int| 0 <= j < d.len() implies #[trigger] d[j] < t.len() by {
            assert(d[j] == addrs[j]);
        }
        assert(addrs[addrs.len() - 1] < t.len());
        lemma_corner_len(t, addrs.drop_last(), c);
    }
}

/// The facts about corner tables that the orbit enumeration rests on.
pub proof fn lemma_corner_table(n: nat, addrs: Seq<usize>, c: nat)
    requires
        addresses_valid(n, addrs),
    ensures
        corner_table(n, addrs, c).len() == n,
        zero_table(n, addrs).len() == n,
        table_bits_ok(corner_table(n, addrs, c)),
        table_bits_ok(zero_table(n, addrs)),
        free_count(corner_table(n, addrs, c)) == free_count(zero_table(n, addrs)),
        forall|j: int| 0 <= j < addrs.len() ==>
            #[trigger] corner_table(n, addrs, c)[addrs[j] as int] == Some(bit_of(c, j as nat) as u8),
        forall|j: int| 0 <= j < addrs.len() ==> #[trigger] zero_table(n, addrs)[addrs[j] as int] == Some(0u8),
{
    let none = Seq::new(n, |p: int| None::<u8>);
    lemma_corner_at(none, addrs, 0);
    assert forall|j: int| 0 <= j < addrs.len() implies #[trigger] addrs[j] < n by {}
    lemma_zero_table_len(n, addrs);
    let z = zero_table(n, addrs);
    assert forall|j: int| 0 <= j < addrs.len() implies #[trigger] z[addrs[j] as int] == Some(0u8) by {
        lemma_bit_of_zero(j as nat);
    }
    assert forall|i: int| 0 <= i < z.len() && #[trigger] z[i] is Some implies z[i]->0 <= 1 by {
        if names(addrs, i) {
            let j = choose|j: int| 0 <= j < addrs.len() && addrs[j] as int == i;
            assert(z[addrs[j] as int] == Some(0u8));
        } else {
            assert(z[i] == none[i]);
        }
    }
    lemma_corner_at(z, addrs, c);
    let t = corner_table(n, addrs, c);
    assert forall|i: int| 0 <= i < t.len() && #[trigger] t[i] is Some implies t[i]->0 <= 1 by {
        if names(addrs, i) {
            let j = choose|j: int| 0 <= j < addrs.len() && addrs[j] as int == i;
            lemma_bit_le1(c, j as nat);
            assert(t[addrs[j] as int] == Some(bit_of(c, j as nat) as u8));
        } else {
            assert(z[i] == none[i]);
        }
    }
    lemma_corner_free(z, addrs, c);
}

/// Re-pinning positions that are already pinned keeps the free positions.
pub proof fn lemma_corner_free(t: PinTable, addrs: Seq<usize>, c: nat)
    requires
        forall|j: int| 0 <= j < addrs.len() ==> 0 <= addrs[j] < t.len() && (#[trigger] t[addrs[j] as int]) is Some,
    ensures
        free_count(corner(t, addrs, c)) == free_count(t),
        corner(t, addrs, c).len() == t.len(),
        forall|p: int| 0 <= p < t.len() ==> (#[trigger] corner(t, addrs, c)[p] is Some) == (t[p] is Some),
    decreases addrs.len(),
{
    if addrs.len() > 0 {
        let d = addrs.drop_last();
        assert forall|j: int| 0 <= j < d.len() implies 0 <= d[j] < t.len() && (#[trigger] t[d[j] as int]) is Some by {
            assert(d[j] == addrs[j]);
        }
        lemma_corner_free(t, d, c);
        let l = addrs.len() - 1;
        assert(t[addrs[l] as int] is Some);
        lemma_free_update_pinned(corner(t, d, c), addrs[l] as int, bit_of(c, l as nat) as u8);
    }
}

proof fn lemma_free_update_pinned(t: PinTable, a: int, b: u8)
    requires
        0 <= a < t.len(),
        t[a] is Some,
    ensures
        free_count(t.update(a, Some(b))) == free_count(t),
    decreases t.len(),
{
    let u = t.update(a, Some(b));
    if a == 0 {
        assert(u.drop_first() =~= t.drop_first());
    } else {
        assert(u.drop_first() =~= t.drop_first().update(a - 1, Some(b)));
        lemma_free_update_pinned(t.drop_first(), a - 1, b);
    }
}

/// The constraints that pin `addrs` to 0 lay out the zero table.
pub proof fn lemma_zero_pins(n: nat, addrs: Seq<usize>)
    requires
        forall|j: int| 0 <= j < addrs.len() ==> #[trigger] addrs[j] < n,
    ensures
        table_of(zero_pins(addrs), n) =~= zero_table(n, addrs),
    decreases addrs.len(),
{
    lemma_zero_table_len(n, addrs);
    if addrs.len() > 0 {
        let d = addrs.drop_last();
        assert forall|j: int| 0 <= j < d.len() implies #[trigger] d[j] < n by {
            assert(d[j] == addrs[j]);
        }
        lemma_zero_pins(n, d);
        lemma_zero_table_len(n, d);
        assert(zero_pins(addrs).drop_last() =~= zero_pins(d));
        assert(zero_pins(addrs).last() == AddressedBit { address: addrs.last(), bit: 0 });
        assert(addrs.last() < n);
        lemma_bit_of_zero((addrs.len() - 1) as nat);
        assert forall|i: int| 0 <= i < n implies #[trigger] table_of(zero_pins(addrs), n)[i] == zero_table(n, addrs)[i] by {
            assert(table_of(zero_pins(d), n)[i] == zero_table(n, d)[i]);
        }
    }
}

/// Adding the corner bit of position `addrs[j]` moves the index up by
/// `2^addrs[j]` when that bit is 1.
pub proof fn lemma_corner_step(n: nat, addrs: Seq<usize>, c: nat, j: int, k: nat)
    requires
        addresses_valid(n, addrs),
        0 <= j < addrs.len(),
    ensures
        decode(corner(zero_table(n, addrs), addrs.take(j + 1), c), k)
            == decode(corner(zero_table(n, addrs), addrs.take(j), c), k)
               + bit_of(c, j as nat) * pow2(addrs[j] as nat),
{
    let z = zero_table(n, addrs);
    lemma_corner_table(n, addrs, c);
    let tj = addrs.take(j);
    assert(addrs.take(j + 1).drop_last() =~= tj);
    assert(addresses_valid(n, tj)) by {
        assert forall|i: int, q: int| 0 <= i < q < tj.len() implies #[trigger] tj[i] != #[trigger] tj[q] by {
            assert(addrs[i] != addrs[q]);
        }
        assert forall|i: int| 0 <= i < tj.len() implies #[trigger] tj[i] < n by {
            assert(addrs[i] < n);
        }
    }
    lemma_zero_table_len(n, addrs);
    lemma_corner_at(z, tj, c);
    let a = addrs[j] as int;
    assert(!names(tj, addrs[j] as int)) by {
        if names(tj, addrs[j] as int) {
            let i = choose|i: int| 0 <= i < tj.len() && tj[i] as int == addrs[j] as int;
            assert(addrs[i] != addrs[j]);
        }
    }
    let before = corner(z, tj, c);
    lemma_corner_len(z, tj, c);
    assert(before[a] == Some(0u8));
    assert(addrs.take(j + 1).last() == addrs[j]);
    assert(addrs.take(j + 1).len() - 1 == j);
    assert(corner(z, addrs.take(j + 1), c) == before.update(a, Some(bit_of(c, j as nat) as u8)));
    let after = before.update(a, Some(bit_of(c, j as nat) as u8));
    lemma_bit_le1(c, j as nat);
    if bit_of(c, j as nat) == 0 {
        assert(after =~= before);
        assert(bit_of(c, j as nat) * pow2(addrs[j] as nat) == 0);
    } else {
        lemma_decode_flip(before, after, a, k);
        assert(bit_of(c, j as nat) * pow2(addrs[j] as nat) == pow2(addrs[j] as nat));
    }
}

/// Distinct (orbit, corner) pairs name distinct indices, all in range.
pub proof fn lemma_orbit_index_injective(n: nat, addrs: Seq<usize>, c1: nat, k1: nat, c2: nat, k2: nat)
    requires
        addresses_valid(n, addrs),
        c1 < pow2(addrs.len()),
        c2 < pow2(addrs.len()),
        k1 < pow2(free_count(zero_table(n, addrs))),
        k2 < pow2(free_count(zero_table(n, addrs))),
        c1 != c2 || k1 != k2,
    ensures
        orbit_index(n, addrs, c1, k1) != orbit_index(n, addrs, c2, k2),
{
    lemma_corner_table(n, addrs, c1);
    lemma_corner_table(n, addrs, c2);
    if c1 != c2 {
        let j = lemma_bits_differ(c1, c2, addrs.len());
        let t1 = corner_table(n, addrs, c1);
        let t2 = corner_table(n, addrs, c2);
        lemma_decode_matches(t1, k1);
        lemma_decode_matches(t2, k2);
        lemma_bit_le1(c1, j);
        lemma_bit_le1(c2, j);
        assert(t1[addrs[j as int] as int] is Some);
        assert(t2[addrs[j as int] as int] is Some);
        assert(addrs[j as int] < n);
    } else if k1 < k2 {
        lemma_decode_strict_mono(corner_table(n, addrs, c1), k1, k2);
    } else {
        lemma_decode_strict_mono(corner_table(n, addrs, c1), k2, k1);
    }
}

pub proof fn lemma_orbit_index_bound(n: nat, addrs: Seq<usize>, c: nat, k: nat)
    requires
        addresses_valid(n, addrs),
        k < pow2(free_count(zero_table(n, addrs))),
    ensures
        orbit_index(n, addrs, c, k) < pow2(n),
{
    lemma_corner_table(n, addrs, c);
    lemma_decode_bound(corner_table(n, addrs, c), k);
}

/// The corner of index `i`: its bit `j` is the bit of `i` at `addrs[j]`.
pub open spec fn corner_of(addrs: Seq<usize>, i: nat) -> nat
    decreases addrs.len(),
{
    if addrs.len() == 0 {
        0
    } else {
        corner_of(addrs.drop_last(), i) + bit_of(i, addrs.last() as nat) * pow2((addrs.len() - 1) as nat)
    }
}

/// Adding a bit above the `m` low bits of `x` leaves those bits and sets bit `m`.
proof fn lemma_bit_of_add_high(x: nat, b: nat, m: nat, j: nat)
    requires
        x < pow2(m),
        b <= 1,
        j <= m,
    ensures
        bit_of(x + b * pow2(m), j) == if j < m { bit_of(x, j) } else { b },
    decreases m,
{
    if m == 0 {
        assert(x == 0);
        assert(b * pow2(0) == b);
    } else {
        let p = pow2((m - 1) as nat);
        assert(b * pow2(m) == 2 * (b * p)) by (nonlinear_arith)
            requires pow2(m) == 2 * p;
        let y = x + b * pow2(m);
        assert(y / 2 == x / 2 + b * p && y % 2 == x % 2);
        if j > 0 {
            lemma_bit_of_add_high(x / 2, b, (m - 1) as nat, (j - 1) as nat);
        }
    }
}

proof fn lemma_corner_of(addrs: Seq<usize>, i: nat)
    ensures
        corner_of(addrs, i) < pow2(addrs.len()),
        forall|j: int| 0 <= j < addrs.len() ==> #[trigger] bit_of(corner_of(addrs, i), j as nat) == bit_of(i, addrs[j] as nat),
    decreases addrs.len(),
{
    if addrs.len() > 0 {
        let d = addrs.drop_last();
        let l = (addrs.len() - 1) as nat;
        lemma_corner_of(d, i);
        let x = corner_of(d, i);
        let b = bit_of(i, addrs.last() as nat);
        lemma_bit_le1(i, addrs.last() as nat);
        lemma_pow2_pos(l);
        assert(x + b * pow2(l) < pow2(addrs.len())) by (nonlinear_arith)
            requires x < pow2(l), b <= 1, pow2(addrs.len()) == 2 * pow2(l);
        assert forall|j: int| 0 <= j < addrs.len() implies #[trigger] bit_of(corner_of(addrs, i), j as nat) == bit_of(i, addrs[j] as nat) by {
            lemma_bit_of_add_high(x, b, l, j as nat);
            if j < l {
                assert(d[j] == addrs[j]);
            }
        }
    }
}

/// The free-bit counter of an index depends only on which positions are pinned.
proof fn lemma_encode_shape(t1: PinTable, t2: PinTable, x: nat)
    requires
        t1.len() == t2.len(),
        forall|p: int| 0 <= p < t1.len() ==> (#[trigger] t1[p] is Some) == (t2[p] is Some),
    ensures
        encode(t1, x) == encode(t2, x),
    decreases t1.len(),
{
    if t1.len() > 0 {
        let r1 = t1.drop_first();
        let r2 = t2.drop_first();
        assert forall|p: int| 0 <= p < r1.len() implies (#[trigger] r1[p] is Some) == (r2[p] is Some) by {
            assert(r1[p] == t1[p + 1] && r2[p] == t2[p + 1]);
        }
        assert((t1[0] is Some) == (t2[0] is Some));
        lemma_encode_shape(r1, r2, x / 2);
    }
}

/// The orbits cover the register: every index below `2^n` is the index at
/// its own corner of the orbit numbered by its free bits. With
/// `lemma_orbit_index_injective`, the orbits of a gate's addressed positions
/// partition the register, each index standing at exactly one corner of
/// exactly one orbit.
pub proof fn lemma_orbits_cover(n: nat, addrs: Seq<usize>, i: nat)
    requires
        addresses_valid(n, addrs),
        i < pow2(n),
    ensures
        corner_of(addrs, i) < pow2(addrs.len()),
        encode(zero_table(n, addrs), i) < pow2(free_count(zero_table(n, addrs))),
        orbit_index(n, addrs, corner_of(addrs, i), encode(zero_table(n, addrs), i)) == i,
{
    let c = corner_of(addrs, i);
    let z = zero_table(n, addrs);
    let t = corner_table(n, addrs, c);
    let none = Seq::new(n, |p: int| None::<u8>);
    lemma_corner_of(addrs, i);
    lemma_corner_table(n, addrs, c);
    lemma_corner_at(none, addrs, 0);
    lemma_corner_at(z, addrs, c);
    assert(matches_table(t, i)) by {
        assert forall|p: int| 0 <= p < t.len() && #[trigger] t[p] is Some implies bit_of(i, p as nat) == t[p]->0 as nat by {
            if names(addrs, p) {
                let j = choose|j: int| 0 <= j < addrs.len() && addrs[j] as int == p;
                lemma_bit_le1(c, j as nat);
                assert(t[addrs[j] as int] == Some(bit_of(c, j as nat) as u8));
                assert(bit_of(c, j as nat) == bit_of(i, addrs[j] as nat));
            } else {
                assert(z[p] == none[p]);
            }
        }
    }
    lemma_decode_encode(t, i);
    assert forall|j: int| 0 <= j < addrs.len() implies 0 <= addrs[j] < z.len() && (#[trigger] z[addrs[j] as int]) is Some by {
        assert(addrs[j] < n);
    }
    lemma_corner_free(z, addrs, c);
    lemma_encode_shape(t, z, i);
}

} // verus!

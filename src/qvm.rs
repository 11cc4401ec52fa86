//! The register engine: one amplitude per basis state of an `n`-qubit
//! register, one state tag per qubit, and the operations that move, transform
//! and collapse amplitudes.
//!
//! The engine is generic in the amplitude type `A`. It decides which indices
//! each operation reads and writes; the arithmetic on amplitudes (a gate's
//! linear map, the renormalisation after a measurement) is supplied by the
//! caller as a function.
use vstd::prelude::*;

use crate::address_decoder::{
    AddressDecoder, AddressedBit, addresses_of, addresses_valid, is_valid_addresses, lemma_single_free,
    pin_lookup, pins_valid, table_of,
};
use crate::gate::Gate;
use crate::layout::{
    bit_of, decode, encode, flip, free_count, lemma_bit_of_div, lemma_decode_bit_same_shape,
    lemma_decode_bound, lemma_decode_encode, lemma_decode_flip, lemma_decode_matches,
    lemma_encode_decode, lemma_pow2_mono, lemma_pow2_pos, matches_table, pow2, pow2_exec, single,
    table_bits_ok,
};
use crate::orbit::{
    corner, corner_of, corner_table, lemma_bit_le1, lemma_bit_of_zero, lemma_corner_at,
    lemma_corner_free, lemma_corner_step, lemma_corner_table, lemma_orbit_index_bound,
    lemma_orbit_index_injective, lemma_orbits_cover, lemma_shr, lemma_zero_pins, names,
    orbit_index, shr, sub_vector, zero_pins, zero_table,
};
use crate::state::State;

verus! {

/// What a register stands for.
pub ghost struct QvmView<A> {
    /// Number of qubits.
    pub width: nat,
    /// State tag of each qubit.
    pub states: Seq<State>,
    /// Amplitude of each basis state; bit `j` of an index is the value of qubit `j`.
    pub amps: Seq<A>,
    /// The amplitude that stands for no probability at all.
    pub zero: A,
}

/// The amplitudes after the mass of the half where qubit `a` is not `v` has
/// been moved onto the half where it is `v`.
pub open spec fn promoted_amps<A>(amps: Seq<A>, a: nat, v: nat, zero: A) -> Seq<A> {
    Seq::new(amps.len(), |i: int| if bit_of(i as nat, a) == v { amps[flip(i as nat, a) as int] } else { zero })
}

/// What promoting qubit `a` to superposition at value `v` makes of a register,
/// with the result reported: `None` for an invalid argument, `Some(false)`
/// when the qubit is already superposed, `Some(true)` otherwise.
///
/// A qubit already collapsed at `v` keeps its amplitudes and is tagged
/// superposed all the same.
pub open spec fn promote_model<A>(s: QvmView<A>, a: nat, v: nat) -> (QvmView<A>, Option<bool>) {
    if v > 1 || a >= s.width {
        (s, None)
    } else if s.states[a as int] == State::SUPERPOSITION {
        (s, Some(false))
    } else if s.states[a as int].collapsed_to(v as int) {
        (QvmView { states: s.states.update(a as int, State::SUPERPOSITION), ..s }, Some(true))
    } else {
        (
            QvmView {
                states: s.states.update(a as int, State::SUPERPOSITION),
                amps: promoted_amps(s.amps, a, v, s.zero),
                ..s
            },
            Some(true),
        )
    }
}

/// Promoting a qubit twice in a row with the same value: a qubit already
/// collapsed at that value keeps its amplitudes on the first call, and the
/// second call finds it superposed and changes nothing.
pub proof fn lemma_promote_idempotent<A>(s: QvmView<A>, a: nat, v: nat)
    requires
        a < s.width,
        v <= 1,
        s.states.len() == s.width,
    ensures
        s.states[a as int].collapsed_to(v as int) ==> promote_model(s, a, v).0.amps == s.amps,
        promote_model(promote_model(s, a, v).0, a, v).0 == promote_model(s, a, v).0,
        promote_model(promote_model(s, a, v).0, a, v).1 == Some(false),
{
}

/// Every amplitude at an index that disagrees with a collapsed qubit's value is `zero`.
pub open spec fn collapse_consistent<A>(v: QvmView<A>) -> bool {
    forall|q: int, i: int|
        #![trigger v.states[q], v.amps[i]]
        0 <= q < v.states.len() && 0 <= i < v.amps.len() && v.states[q] != State::SUPERPOSITION
            && !v.states[q].collapsed_to(bit_of(i as nat, q as nat) as int) ==> v.amps[i] == v.zero
}

/// The tag of a qubit collapsed at `v`.
pub open spec fn collapsed_state(v: nat) -> State {
    if v == 0 {
        State::ZERO
    } else {
        State::ONE
    }
}

/// Orbit `k` of the old amplitudes went through `f`: some output of `f` on
/// the orbit's sub-vector stands, corner by corner, in the new amplitudes.
pub open spec fn orbit_transformed<A, F: Fn(Vec<A>) -> Vec<A>>(
    f: F,
    before: Seq<A>,
    after: Seq<A>,
    n: nat,
    addrs: Seq<usize>,
    k: nat,
) -> bool {
    exists|v: Vec<A>, w: Vec<A>|
        {
            &&& v@ == sub_vector(before, n, addrs, k)
            &&& #[trigger] f.ensures((v,), w)
            &&& w@.len() == pow2(addrs.len())
            &&& forall|c: nat| c < pow2(addrs.len()) ==> after[orbit_index(n, addrs, c, k) as int] == w@[c as int]
        }
}

/// Every position of `addrs` holds a superposed qubit.
pub open spec fn all_superposed(states: Seq<State>, addrs: Seq<usize>) -> bool {
    forall|j: int| 0 <= j < addrs.len() ==> states[#[trigger] addrs[j] as int] == State::SUPERPOSITION
}

/// All corners of an orbit have the same bit at a position that is not addressed.
proof fn lemma_same_bit_in_orbit(n: nat, addrs: Seq<usize>, c1: nat, c2: nat, k: nat, q: nat)
    requires
        addresses_valid(n, addrs),
        q < n,
        !names(addrs, q as int),
    ensures
        bit_of(orbit_index(n, addrs, c1, k), q) == bit_of(orbit_index(n, addrs, c2, k), q),
{
    let none = Seq::new(n, |p: int| None::<u8>);
    let z = zero_table(n, addrs);
    lemma_corner_table(n, addrs, c1);
    lemma_corner_table(n, addrs, c2);
    lemma_corner_at(none, addrs, 0);
    lemma_corner_at(z, addrs, c1);
    lemma_corner_at(z, addrs, c2);
    assert forall|j: int| 0 <= j < addrs.len() implies 0 <= addrs[j] < z.len() && (#[trigger] z[addrs[j] as int]) is Some by {
        assert(addrs[j] < n);
    }
    lemma_corner_free(z, addrs, c1);
    lemma_corner_free(z, addrs, c2);
    let t1 = corner_table(n, addrs, c1);
    let t2 = corner_table(n, addrs, c2);
    assert forall|p: int| 0 <= p < t1.len() implies (#[trigger] t1[p] is Some) == (t2[p] is Some) by {
        assert((t1[p] is Some) == (z[p] is Some));
    }
    lemma_decode_bit_same_shape(t1, t2, k, q);
}

/// Going through the corner bits one position at a time never decreases the index.
proof fn lemma_corner_prefix_le(n: nat, addrs: Seq<usize>, c: nat, j: int, k: nat)
    requires
        addresses_valid(n, addrs),
        0 <= j <= addrs.len(),
    ensures
        decode(corner(zero_table(n, addrs), addrs.take(j), c), k) <= orbit_index(n, addrs, c, k),
    decreases addrs.len() - j,
{
    if j == addrs.len() {
        assert(addrs.take(j) =~= addrs);
    } else {
        lemma_corner_step(n, addrs, c, j, k);
        lemma_corner_prefix_le(n, addrs, c, j + 1, k);
    }
}

/// A register of `n` qubits holding one amplitude per basis state.
pub struct QVM<A> {
    bits: usize,
    states: Vec<State>,
    register: Vec<A>,
    zero: A,
}

impl<A> View for QVM<A> {
    type V = QvmView<A>;

    closed spec fn view(&self) -> QvmView<A> {
        QvmView { width: self.bits as nat, states: self.states@, amps: self.register@, zero: self.zero }
    }
}

/// Flipping bit `a` of an index keeps it in range and keeps its other bits.
proof fn lemma_flip_keeps_other_bits(n: nat, a: nat, i: nat, q: nat)
    requires
        a < n,
        q < n,
        q != a,
        i < pow2(n),
    ensures
        flip(i, a) < pow2(n),
        bit_of(flip(i, a), q) == bit_of(i, q),
{
    lemma_single_cover(n, a, i);
    let s = bit_of(i, a);
    let k = encode(single(n, a, s as u8), i);
    lemma_single_pair(n, a, k);
    lemma_single_free(n, a, s as u8);
    lemma_single_free(n, a, (1 - s) as u8);
    lemma_table_single(n, a, s as u8);
    lemma_table_single(n, a, (1 - s) as u8);
    lemma_decode_bound(single(n, a, (1 - s) as u8), k);
    lemma_decode_bit_same_shape(single(n, a, s as u8), single(n, a, (1 - s) as u8), k, q);
}

/// Every index below `2^n` is, for the table pinning its own bit `a`, the
/// decoding of its encoding.
proof fn lemma_single_cover(n: nat, a: nat, i: nat)
    requires
        a < n,
        i < pow2(n),
    ensures
        bit_of(i, a) <= 1,
        matches_table(single(n, a, bit_of(i, a) as u8), i),
        encode(single(n, a, bit_of(i, a) as u8), i) < pow2(free_count(single(n, a, bit_of(i, a) as u8))),
        decode(single(n, a, bit_of(i, a) as u8), encode(single(n, a, bit_of(i, a) as u8), i)) == i,
{
    lemma_bit_of_div(i, a);
    let t = single(n, a, bit_of(i, a) as u8);
    assert(matches_table(t, i));
    lemma_decode_encode(t, i);
}

proof fn lemma_single_table(n: nat, a: usize, v: u8)
    ensures
        table_of(seq![AddressedBit { address: a, bit: v }], n) =~= single(n, a as nat, v),
{
    let s = seq![AddressedBit { address: a, bit: v }];
    assert(s.drop_last() =~= Seq::<AddressedBit>::empty());
    assert forall|i: int| 0 <= i < n implies #[trigger] table_of(s, n)[i] == single(n, a as nat, v)[i] by {
        reveal_with_fuel(pin_lookup, 2);
    }
}

proof fn lemma_single_pins_valid(n: nat, a: usize, v: u8)
    requires
        a < n,
        v <= 1,
    ensures
        pins_valid(n, seq![AddressedBit { address: a, bit: v }]),
{
    let s = seq![AddressedBit { address: a, bit: v }];
    assert(addresses_of(s)[0] == a);
}

/// The two single-position tables at `a` decode a counter to indices that
/// are each other's flip at `a`.
proof fn lemma_single_pair(n: nat, a: nat, c: nat)
    requires
        a < n,
    ensures
        decode(single(n, a, 1), c) == decode(single(n, a, 0), c) + pow2(a),
        bit_of(decode(single(n, a, 0), c), a) == 0,
        bit_of(decode(single(n, a, 1), c), a) == 1,
        flip(decode(single(n, a, 0), c), a) == decode(single(n, a, 1), c),
        flip(decode(single(n, a, 1), c), a) == decode(single(n, a, 0), c),
{
    lemma_decode_flip(single(n, a, 0), single(n, a, 1), a as int, c);
    lemma_decode_matches(single(n, a, 0), c);
    lemma_decode_matches(single(n, a, 1), c);
    assert(single(n, a, 0)[a as int] is Some);
    assert(single(n, a, 1)[a as int] is Some);
}

impl<A: Copy> QVM<A> {
    /// The register is well formed: sized as its width says, and consistent
    /// with its tags.
    pub closed spec fn wf(&self) -> bool {
        &&& self.sized()
        &&& collapse_consistent(self@)
    }

    closed spec fn sized(&self) -> bool {
        &&& 1 <= self.bits
        &&& pow2(self.bits as nat) <= usize::MAX
        &&& self.states@.len() == self.bits
        &&& self.register@.len() == pow2(self.bits as nat)
    }

    /// A register of `n` qubits, all collapsed at 0: amplitude `one` at index 0
    /// and `zero` everywhere else.
    pub fn new(n: usize, zero: A, one: A) -> (r: QVM<A>)
        requires
            1 <= n,
            pow2(n as nat) <= usize::MAX,
        ensures
            r.wf(),
            collapse_consistent(r@),
            r@.width == n,
            r@.zero == zero,
            r@.states =~= Seq::new(n as nat, |j: int| State::ZERO),
            r@.amps =~= Seq::new(pow2(n as nat), |i: int| if i == 0 { one } else { zero }),
    {
        let mut states: Vec<State> = Vec::new();
        let mut j: usize = 0;
        while j < n
            invariant
                j <= n,
                states@ =~= Seq::new(j as nat, |q: int| State::ZERO),
            decreases n - j,
        {
            states.push(State::ZERO);
            j = j + 1;
        }
        let len = pow2_exec(n);
        let mut register: Vec<A> = Vec::new();
        register.push(one);
        let mut i: usize = 1;
        proof {
            lemma_pow2_pos(n as nat);
        }
        while i < len
            invariant
                1 <= i <= len,
                register@ =~= Seq::new(i as nat, |k: int| if k == 0 { one } else { zero }),
            decreases len - i,
        {
            register.push(zero);
            i = i + 1;
        }
        let r = QVM { bits: n, states, register, zero };
        proof {
            assert forall|q: int, i: int|
                #![trigger r@.states[q], r@.amps[i]]
                0 <= q < r@.states.len() && 0 <= i < r@.amps.len() && r@.states[q] != State::SUPERPOSITION
                    && !r@.states[q].collapsed_to(bit_of(i as nat, q as nat) as int) implies r@.amps[i] == r@.zero by {
                if i == 0 {
                    lemma_bit_of_zero(q as nat);
                }
            }
        }
        r
    }

    /// Number of qubits.
    pub fn get_bits(&self) -> (r: usize)
        ensures
            r == self@.width,
    {
        self.bits
    }

    /// Whether qubit `n` is superposed; a position past the register counts as superposed.
    pub fn is_superposition(&self, n: usize) -> (r: bool)
        requires
            self.wf(),
        ensures
            r == (n >= self@.width || self@.states[n as int] == State::SUPERPOSITION),
    {
        if n < self.bits {
            self.states[n].is_superposition()
        } else {
            true
        }
    }

    /// The amplitude of basis state `i`.
    pub fn amplitude(&self, i: usize) -> (r: A)
        requires
            self.wf(),
            i < self@.amps.len(),
        ensures
            r == self@.amps[i as int],
    {
        self.register[i]
    }

    /// All amplitudes, in index order.
    pub fn amplitudes(&self) -> (r: &Vec<A>)
        ensures
            r@ == self@.amps,
    {
        &self.register
    }

    /// Puts qubit `address` into superposition, moving the amplitude mass of
    /// the half where it is not `value` onto the half where it is.
    pub fn set_superposition(&mut self, address: usize, value: u8) -> (r: Option<bool>)
        requires
            old(self).wf(),
        ensures
            final(self).wf(),
            collapse_consistent(final(self)@),
            (final(self)@, r) == promote_model(old(self)@, address as nat, value as nat),
    {
        if (value != 0 && value != 1) || address >= self.bits {
            None
        } else if self.states[address].is_superposition() {
            Some(false)
        } else if self.states[address].is_collapsed_to(value) {
            self.states.set(address, State::SUPERPOSITION);
            proof {
                let v = self@;
                assert forall|q: int, i: int|
                    #![trigger v.states[q], v.amps[i]]
                    0 <= q < v.states.len() && 0 <= i < v.amps.len() && v.states[q] != State::SUPERPOSITION
                        && !v.states[q].collapsed_to(bit_of(i as nat, q as nat) as int) implies v.amps[i] == v.zero by {
                    assert(old(self)@.states[q] == v.states[q]);
                    assert(old(self)@.amps[i] == v.amps[i]);
                }
            }
            Some(true)
        } else {
            self.move_onto(address, value);
            self.states.set(address, State::SUPERPOSITION);
            proof {
                let n = self.bits as nat;
                let a = address as nat;
                let o = old(self)@;
                assert(self@.amps =~= promoted_amps(o.amps, a, value as nat, self.zero));
                let v = self@;
                assert forall|q: int, i: int|
                    #![trigger v.states[q], v.amps[i]]
                    0 <= q < v.states.len() && 0 <= i < v.amps.len() && v.states[q] != State::SUPERPOSITION
                        && !v.states[q].collapsed_to(bit_of(i as nat, q as nat) as int) implies v.amps[i] == v.zero by {
                    assert(q != a);
                    assert(o.states[q] == v.states[q]);
                    if bit_of(i as nat, a) == value as nat {
                        lemma_flip_keeps_other_bits(n, a, i as nat, q as nat);
                        let f = flip(i as nat, a) as int;
                        assert(v.amps[i] == o.amps[f]);
                        assert(o.states[q] != State::SUPERPOSITION && !o.states[q].collapsed_to(bit_of(f as nat, q as nat) as int));
                    }
                }
            }
            Some(true)
        }
    }

    /// For each index whose bit `address` is `value`, takes the amplitude of
    /// its pair across `address` and leaves `zero` in the pair.
    fn move_onto(&mut self, address: usize, value: u8)
        requires
            old(self).sized(),
            address < old(self).bits,
            value <= 1,
        ensures
            final(self).sized(),
            final(self).bits == old(self).bits,
            final(self).states == old(self).states,
            final(self).zero == old(self).zero,
            final(self)@.amps =~= promoted_amps(old(self)@.amps, address as nat, value as nat, old(self).zero),
    {
        let ghost n = self.bits as nat;
        let ghost a = address as nat;
        let ghost old_amps = self.register@;
        let ghost tv = single(n, a, value);
        let ghost to = single(n, a, (1 - value) as u8);
        proof {
            lemma_pow2_mono(a, n);
            lemma_single_pins_valid(n, address, value);
            lemma_single_table(n, address, value);
        }
        let mask = pow2_exec(address);
        let mut pins: Vec<AddressedBit> = Vec::new();
        pins.push(AddressedBit { address, bit: value });
        proof {
            assert(pins@ =~= seq![AddressedBit { address, bit: value }]);
        }
        let mut decoder = AddressDecoder::new(self.bits, pins);
        let ghost limit = pow2(free_count(tv));
        loop
            invariant
                self.sized(),
                self.bits == n,
                n == old(self).bits,
                a < n,
                value <= 1,
                mask == pow2(a),
                decoder.wf(),
                decoder@.width == n,
                decoder@.table == tv,
                decoder@.counter <= limit,
                limit == pow2(free_count(tv)),
                tv == single(n, a, value),
                to == single(n, a, (1 - value) as u8),
                self.states == old(self).states,
                self.zero == old(self).zero,
                old_amps == old(self)@.amps,
                old_amps.len() == pow2(n),
                forall|i: int| 0 <= i < pow2(n) ==> {
                    let s = bit_of(i as nat, a);
                    let k = encode(single(n, a, s as u8), i as nat);
                    #[trigger] self.register@[i] == if k >= decoder@.counter {
                        old_amps[i]
                    } else if s == value {
                        old_amps[flip(i as nat, a) as int]
                    } else {
                        old(self).zero
                    }
                },
            ensures
                self.sized(),
                self.bits == n,
                self.states == old(self).states,
                self.zero == old(self).zero,
                self.register@ =~= promoted_amps(old_amps, a, value as nat, old(self).zero),
            decreases limit - decoder@.counter,
        {
            let ghost k = decoder@.counter;
            match decoder.next() {
                Some(c) => {
                    let ghost ci = decode(tv, k);
                    let ghost pi = decode(to, k);
                    proof {
                        assert(free_count(to) == free_count(tv)) by {
                            lemma_single_free(n, a, value);
                            lemma_single_free(n, a, (1 - value) as u8);
                        }
                        lemma_table_single(n, a, value);
                        lemma_table_single(n, a, (1 - value) as u8);
                        lemma_decode_bound(tv, k);
                        lemma_decode_bound(to, k);
                        lemma_single_pair(n, a, k);
                        lemma_encode_decode(tv, k);
                        lemma_encode_decode(to, k);
                        vstd::arithmetic::div_mod::lemma_small_mod(k, limit);
                    }
                    let paired = if value == 1 { c - mask } else { c + mask };
                    let moved = self.register[paired];
                    self.register.set(c, moved);
                    let zero = self.zero;
                    self.register.set(paired, zero);
                    proof {
                        assert forall|i: int| 0 <= i < pow2(n) implies {
                            let s = bit_of(i as nat, a);
                            let kk = encode(single(n, a, s as u8), i as nat);
                            #[trigger] self.register@[i] == if kk >= decoder@.counter {
                                old_amps[i]
                            } else if s == value {
                                old_amps[flip(i as nat, a) as int]
                            } else {
                                old(self).zero
                            }
                        } by {
                            lemma_single_cover(n, a, i as nat);
                            let s = bit_of(i as nat, a);
                            let kk = encode(single(n, a, s as u8), i as nat);
                            if kk == k {
                                if s == value {
                                    assert(i == ci);
                                } else {
                                    assert(s == 1 - value);
                                    assert(i == pi);
                                }
                            } else {
                                assert(i != ci && i != pi);
                            }
                        }
                    }
                },
                None => {
                    proof {
                        assert forall|i: int| 0 <= i < pow2(n) implies
                            #[trigger] self.register@[i] == promoted_amps(old_amps, a, value as nat, old(self).zero)[i] by {
                            lemma_single_cover(n, a, i as nat);
                            let s = bit_of(i as nat, a);
                            assert(free_count(single(n, a, s as u8)) == free_count(tv)) by {
                                lemma_single_free(n, a, value);
                                lemma_single_free(n, a, s as u8);
                            }
                            let kk = encode(single(n, a, s as u8), i as nat);
                            assert(kk < decoder@.counter);
                            if s == value {
                                assert(self.register@[i] == old_amps[flip(i as nat, a) as int]);
                            } else {
                                assert(self.register@[i] == old(self).zero);
                            }
                        }
                    }
                    break;
                },
            }
        }
    }

    /// Measures qubit `address` on the basis state `sampled_index`, drawn by
    /// the caller with probability its squared magnitude: the outcome is that
    /// state's bit `address`. The half of the register that disagrees with the
    /// outcome is set to `zero`, every amplitude of the other half goes through
    /// `rescale` (the caller's renormalisation), and the qubit is tagged
    /// collapsed at the outcome, which is returned. `None`, with nothing
    /// changed, when `address` is out of range or the qubit is not superposed.
    pub fn measure<F: Fn(A) -> A>(&mut self, address: usize, sampled_index: usize, rescale: F) -> (r: Option<u8>)
        requires
            old(self).wf(),
            sampled_index < old(self)@.amps.len(),
            forall|x: A| #[trigger] rescale.requires((x,)),
            forall|y: A| #[trigger] rescale.ensures((old(self)@.zero,), y) ==> y == old(self)@.zero,
        ensures
            final(self).wf(),
            collapse_consistent(final(self)@),
            address >= old(self)@.width || old(self)@.states[address as int] != State::SUPERPOSITION ==> {
                &&& r is None
                &&& final(self)@ == old(self)@
            },
            address < old(self)@.width && old(self)@.states[address as int] == State::SUPERPOSITION ==> {
                let m = bit_of(sampled_index as nat, address as nat);
                &&& r == Some(m as u8)
                &&& m <= 1
                &&& final(self)@.width == old(self)@.width
                &&& final(self)@.zero == old(self)@.zero
                &&& final(self)@.states == old(self)@.states.update(address as int, collapsed_state(m))
                &&& final(self)@.amps.len() == old(self)@.amps.len()
                &&& forall|i: int| 0 <= i < old(self)@.amps.len() && bit_of(i as nat, address as nat) == m
                    ==> rescale.ensures((old(self)@.amps[i],), #[trigger] final(self)@.amps[i])
                &&& forall|i: int| 0 <= i < old(self)@.amps.len() && bit_of(i as nat, address as nat) != m
                    ==> #[trigger] final(self)@.amps[i] == old(self)@.zero
            },
    {
        if address >= self.bits {
            return None;
        } else if !self.states[address].is_superposition() {
            return None;
        }
        let ghost n = self.bits as nat;
        let ghost a = address as nat;
        let ghost old_amps = self.register@;
        proof {
            lemma_pow2_mono(a, n);
        }
        let mask = pow2_exec(address);
        proof {
            lemma_bit_of_div(sampled_index as nat, a);
            lemma_pow2_pos(a);
        }
        let measured: u8 = ((sampled_index / mask) % 2) as u8;
        let ghost tm = single(n, a, measured);
        let ghost to = single(n, a, (1 - measured) as u8);
        proof {
            lemma_single_pins_valid(n, address, measured);
            lemma_single_table(n, address, measured);
        }
        let mut pins: Vec<AddressedBit> = Vec::new();
        pins.push(AddressedBit { address, bit: measured });
        proof {
            assert(pins@ =~= seq![AddressedBit { address, bit: measured }]);
        }
        let mut decoder = AddressDecoder::new(self.bits, pins);
        let ghost limit = pow2(free_count(tm));
        loop
            invariant
                self.sized(),
                self.bits == n,
                n == old(self).bits,
                a < n,
                measured <= 1,
                mask == pow2(a),
                decoder.wf(),
                decoder@.width == n,
                decoder@.table == tm,
                decoder@.counter <= limit,
                limit == pow2(free_count(tm)),
                tm == single(n, a, measured),
                to == single(n, a, (1 - measured) as u8),
                self.states == old(self).states,
                self.zero == old(self).zero,
                old_amps == old(self)@.amps,
                old_amps.len() == pow2(n),
                forall|x: A| #[trigger] rescale.requires((x,)),
                forall|i: int| 0 <= i < pow2(n) ==> {
                    let s = bit_of(i as nat, a);
                    let k = encode(single(n, a, s as u8), i as nat);
                    if k >= decoder@.counter {
                        #[trigger] self.register@[i] == old_amps[i]
                    } else if s == measured {
                        rescale.ensures((old_amps[i],), self.register@[i])
                    } else {
                        self.register@[i] == old(self).zero
                    }
                },
            ensures
                self.sized(),
                self.bits == n,
                self.states == old(self).states,
                self.zero == old(self).zero,
                forall|i: int| 0 <= i < pow2(n) && bit_of(i as nat, a) == measured
                    ==> rescale.ensures((old_amps[i],), #[trigger] self.register@[i]),
                forall|i: int| 0 <= i < pow2(n) && bit_of(i as nat, a) != measured
                    ==> #[trigger] self.register@[i] == old(self).zero,
            decreases limit - decoder@.counter,
        {
            let ghost k = decoder@.counter;
            match decoder.next() {
                Some(c) => {
                    let ghost ci = decode(tm, k);
                    let ghost pi = decode(to, k);
                    proof {
                        assert(free_count(to) == free_count(tm)) by {
                            lemma_single_free(n, a, measured);
                            lemma_single_free(n, a, (1 - measured) as u8);
                        }
                        lemma_table_single(n, a, measured);
                        lemma_table_single(n, a, (1 - measured) as u8);
                        lemma_decode_bound(tm, k);
                        lemma_decode_bound(to, k);
                        lemma_single_pair(n, a, k);
                        lemma_encode_decode(tm, k);
                        lemma_encode_decode(to, k);
                        vstd::arithmetic::div_mod::lemma_small_mod(k, limit);
                    }
                    let paired = if measured == 1 { c - mask } else { c + mask };
                    let zero = self.zero;
                    self.register.set(paired, zero);
                    let kept = self.register[c];
                    let scaled = rescale(kept);
                    self.register.set(c, scaled);
                    proof {
                        assert forall|i: int| 0 <= i < pow2(n) implies {
                            let s = bit_of(i as nat, a);
                            let kk = encode(single(n, a, s as u8), i as nat);
                            if kk >= decoder@.counter {
                                #[trigger] self.register@[i] == old_amps[i]
                            } else if s == measured {
                                rescale.ensures((old_amps[i],), self.register@[i])
                            } else {
                                self.register@[i] == old(self).zero
                            }
                        } by {
                            lemma_single_cover(n, a, i as nat);
                            let s = bit_of(i as nat, a);
                            let kk = encode(single(n, a, s as u8), i as nat);
                            if kk == k {
                                if s == measured {
                                    assert(i == ci);
                                } else {
                                    assert(s == 1 - measured);
                                    assert(i == pi);
                                }
                            } else {
                                assert(i != ci && i != pi);
                            }
                        }
                    }
                },
                None => {
                    proof {
                        assert forall|i: int| 0 <= i < pow2(n) implies
                            (bit_of(i as nat, a) == measured ==> rescale.ensures((old_amps[i],), #[trigger] self.register@[i]))
                            && (bit_of(i as nat, a) != measured ==> self.register@[i] == old(self).zero) by {
                            lemma_single_cover(n, a, i as nat);
                            let s = bit_of(i as nat, a);
                            assert(free_count(single(n, a, s as u8)) == free_count(tm)) by {
                                lemma_single_free(n, a, measured);
                                lemma_single_free(n, a, s as u8);
                            }
                            let kk = encode(single(n, a, s as u8), i as nat);
                            assert(kk < decoder@.counter);
                        }
                    }
                    break;
                },
            }
        }
        if measured == 0 {
            self.states.set(address, State::ZERO);
        } else {
            self.states.set(address, State::ONE);
        }
        proof {
            let o = old(self)@;
            let v = self@;
            assert forall|q: int, i: int|
                #![trigger v.states[q], v.amps[i]]
                0 <= q < v.states.len() && 0 <= i < v.amps.len() && v.states[q] != State::SUPERPOSITION
                    && !v.states[q].collapsed_to(bit_of(i as nat, q as nat) as int) implies v.amps[i] == v.zero by {
                lemma_bit_le1(i as nat, a);
                if q != a {
                    assert(o.states[q] == v.states[q]);
                    assert(o.amps[i] == o.zero);
                }
            }
        }
        Some(measured)
    }

    /// The index of corner `c` of orbit `k`, from the orbit's base index.
    fn corner_index(base: usize, addresses: &Vec<usize>, c: usize, Ghost(n): Ghost<nat>, Ghost(k): Ghost<nat>) -> (r: usize)
        requires
            addresses_valid(n, addresses@),
            pow2(n) <= usize::MAX,
            base == decode(zero_table(n, addresses@), k),
            k < pow2(free_count(zero_table(n, addresses@))),
            c < pow2(addresses@.len()),
        ensures
            r == orbit_index(n, addresses@, c as nat, k),
    {
        let ghost addrs = addresses@;
        let ghost z = zero_table(n, addrs);
        let mut index: usize = base;
        let mut rest: usize = c;
        let mut j: usize = 0;
        proof {
            assert(addrs.take(0) =~= Seq::<usize>::empty());
            lemma_orbit_index_bound(n, addrs, c as nat, k);
        }
        while j < addresses.len()
            invariant
                addresses_valid(n, addrs),
                addrs == addresses@,
                z == zero_table(n, addrs),
                pow2(n) <= usize::MAX,
                orbit_index(n, addrs, c as nat, k) < pow2(n),
                j <= addrs.len(),
                rest == shr(c as nat, j as nat),
                index == decode(corner(z, addrs.take(j as int), c as nat), k),
            decreases addrs.len() - j,
        {
            proof {
                lemma_shr(c as nat, j as nat);
                lemma_corner_step(n, addrs, c as nat, j as int, k);
                lemma_corner_prefix_le(n, addrs, c as nat, j + 1, k);
                assert(addrs[j as int] < n);
                lemma_pow2_mono(addrs[j as int] as nat, n);
            }
            if rest % 2 == 1 {
                proof {
                    let b = bit_of(c as nat, j as nat);
                    let p = pow2(addrs[j as int] as nat);
                    assert(b == 1);
                    assert(b * p == p) by (nonlinear_arith)
                        requires b == 1;
                }
                let step = pow2_exec(addresses[j]);
                index = index + step;
            } else {
                proof {
                    let b = bit_of(c as nat, j as nat);
                    let p = pow2(addrs[j as int] as nat);
                    assert(b == 0);
                    assert(b * p == 0) by (nonlinear_arith)
                        requires b == 0;
                }
            }
            rest = rest / 2;
            j = j + 1;
        }
        proof {
            assert(addrs.take(addrs.len() as int) =~= addrs);
        }
        index
    }

    /// The sub-register of orbit `k`: the amplitudes at its corners, in corner order.
    fn read_subregister(&self, subaddress: usize, pinned_addresses: &Vec<usize>, Ghost(k): Ghost<nat>) -> (r: Vec<A>)
        requires
            self.sized(),
            addresses_valid(self@.width, pinned_addresses@),
            subaddress == decode(zero_table(self@.width, pinned_addresses@), k),
            k < pow2(free_count(zero_table(self@.width, pinned_addresses@))),
        ensures
            r@ == sub_vector(self@.amps, self@.width, pinned_addresses@, k),
    {
        let ghost n = self.bits as nat;
        let ghost addrs = pinned_addresses@;
        proof {
            lemma_pow2_mono(addrs.len(), n);
        }
        let len = pow2_exec(pinned_addresses.len());
        let mut ret: Vec<A> = Vec::new();
        let mut c: usize = 0;
        while c < len
            invariant
                self.sized(),
                n == self.bits,
                addrs == pinned_addresses@,
                addresses_valid(n, addrs),
                subaddress == decode(zero_table(n, addrs), k),
                k < pow2(free_count(zero_table(n, addrs))),
                len == pow2(addrs.len()),
                c <= len,
                ret@ =~= sub_vector(self@.amps, n, addrs, k).take(c as int),
            decreases len - c,
        {
            let index = Self::corner_index(subaddress, pinned_addresses, c, Ghost(n), Ghost(k));
            proof {
                lemma_orbit_index_bound(n, addrs, c as nat, k);
            }
            ret.push(self.register[index]);
            c = c + 1;
        }
        ret
    }

    /// Writes `input` back onto the corners of orbit `k`; every other orbit is left as it was.
    fn write_subregister(&mut self, subaddress: usize, pinned_addresses: &Vec<usize>, input: Vec<A>, Ghost(k): Ghost<nat>)
        requires
            old(self).sized(),
            addresses_valid(old(self)@.width, pinned_addresses@),
            subaddress == decode(zero_table(old(self)@.width, pinned_addresses@), k),
            k < pow2(free_count(zero_table(old(self)@.width, pinned_addresses@))),
            input@.len() == pow2(pinned_addresses@.len()),
        ensures
            final(self).sized(),
            final(self).bits == old(self).bits,
            final(self).states == old(self).states,
            final(self).zero == old(self).zero,
            forall|c: nat| c < pow2(pinned_addresses@.len()) ==>
                final(self)@.amps[#[trigger] orbit_index(old(self)@.width, pinned_addresses@, c, k) as int] == input@[c as int],
            forall|c: nat, kk: nat| c < pow2(pinned_addresses@.len()) && kk < pow2(free_count(zero_table(old(self)@.width, pinned_addresses@))) && kk != k ==>
                final(self)@.amps[#[trigger] orbit_index(old(self)@.width, pinned_addresses@, c, kk) as int]
                    == old(self)@.amps[orbit_index(old(self)@.width, pinned_addresses@, c, kk) as int],
    {
        let ghost n = self.bits as nat;
        let ghost addrs = pinned_addresses@;
        let ghost before = self.register@;
        let ghost lim = pow2(free_count(zero_table(n, addrs)));
        proof {
            lemma_pow2_mono(addrs.len(), n);
        }
        let len = pow2_exec(pinned_addresses.len());
        let mut c: usize = 0;
        while c < len
            invariant
                self.sized(),
                n == self.bits,
                n == old(self).bits,
                self.states == old(self).states,
                self.zero == old(self).zero,
                before == old(self)@.amps,
                addrs == pinned_addresses@,
                addresses_valid(n, addrs),
                subaddress == decode(zero_table(n, addrs), k),
                lim == pow2(free_count(zero_table(n, addrs))),
                k < lim,
                len == pow2(addrs.len()),
                input@.len() == len,
                c <= len,
                forall|cc: nat| cc < c ==>
                    self.register@[#[trigger] orbit_index(n, addrs, cc, k) as int] == input@[cc as int],
                forall|cc: nat, kk: nat| cc < len && kk < lim && (kk != k || cc >= c) ==>
                    self.register@[#[trigger] orbit_index(n, addrs, cc, kk) as int] == before[orbit_index(n, addrs, cc, kk) as int],
            decreases len - c,
        {
            let index = Self::corner_index(subaddress, pinned_addresses, c, Ghost(n), Ghost(k));
            proof {
                lemma_orbit_index_bound(n, addrs, c as nat, k);
            }
            self.register.set(index, input[c]);
            proof {
                assert forall|cc: nat| cc < c + 1 implies
                    self.register@[#[trigger] orbit_index(n, addrs, cc, k) as int] == input@[cc as int] by {
                    lemma_orbit_index_bound(n, addrs, cc, k);
                    if cc != c {
                        lemma_orbit_index_injective(n, addrs, cc, k, c as nat, k);
                    }
                }
                assert forall|cc: nat, kk: nat| cc < len && kk < lim && (kk != k || cc >= c + 1) implies
                    self.register@[#[trigger] orbit_index(n, addrs, cc, kk) as int] == before[orbit_index(n, addrs, cc, kk) as int] by {
                    lemma_orbit_index_bound(n, addrs, cc, kk);
                    lemma_orbit_index_injective(n, addrs, cc, kk, c as nat, k);
                }
            }
            c = c + 1;
        }
    }

    /// Applies a gate to the qubits `addresses`, with `transform` its
    /// linear map on sub-registers (bit `j` of a sub-index is the value of
    /// qubit `addresses[j]`): each orbit of the register over the addressed
    /// positions is read, transformed and written back.
    ///
    /// `None`, with nothing changed, for invalid addresses or a count other
    /// than its arity; `Some(false)`, with nothing changed, when an
    /// addressed qubit is not superposed; `Some(true)` once applied.
    pub fn pass_gate<F: Fn(Vec<A>) -> Vec<A>>(&mut self, gate: Gate, addresses: Vec<usize>, transform: F) -> (r: Option<bool>)
        requires
            old(self).wf(),
            forall|v: Vec<A>| v@.len() == pow2(gate.arity()) ==> #[trigger] transform.requires((v,)),
            forall|v: Vec<A>, w: Vec<A>| #[trigger] transform.ensures((v,), w) ==> w@.len() == v@.len(),
            forall|v: Vec<A>, w: Vec<A>|
                #[trigger] transform.ensures((v,), w) && (forall|c: int| 0 <= c < v@.len() ==> v@[c] == old(self)@.zero)
                    ==> (forall|c: int| 0 <= c < w@.len() ==> w@[c] == old(self)@.zero),
        ensures
            final(self).wf(),
            collapse_consistent(final(self)@),
            !addresses_valid(old(self)@.width, addresses@) || addresses@.len() != gate.arity() ==> {
                &&& r is None
                &&& final(self)@ == old(self)@
            },
            addresses_valid(old(self)@.width, addresses@) && addresses@.len() == gate.arity()
                && !all_superposed(old(self)@.states, addresses@) ==> {
                &&& r == Some(false)
                &&& final(self)@ == old(self)@
            },
            addresses_valid(old(self)@.width, addresses@) && addresses@.len() == gate.arity()
                && all_superposed(old(self)@.states, addresses@) ==> {
                &&& r == Some(true)
                &&& final(self)@.width == old(self)@.width
                &&& final(self)@.states == old(self)@.states
                &&& final(self)@.zero == old(self)@.zero
                &&& final(self)@.amps.len() == old(self)@.amps.len()
                &&& forall|k: nat| k < pow2((old(self)@.width - addresses@.len()) as nat) ==>
                    #[trigger] orbit_transformed(transform, old(self)@.amps, final(self)@.amps, old(self)@.width, addresses@, k)
            },
    {
        if !is_valid_addresses(self.bits, &addresses) {
            return None;
        }
        if gate.parameter_length() != addresses.len() {
            return None;
        }
        let mut j: usize = 0;
        while j < addresses.len()
            invariant
                self.wf(),
                self == old(self),
                j <= addresses.len(),
                addresses@.len() == gate.arity(),
                addresses_valid(self@.width, addresses@),
                forall|q: int| 0 <= q < j ==> self@.states[#[trigger] addresses@[q] as int] == State::SUPERPOSITION,
            decreases addresses.len() - j,
        {
            if !self.is_superposition(addresses[j]) {
                return Some(false);
            }
            j = j + 1;
        }
        let ghost n = self.bits as nat;
        let ghost addrs = addresses@;
        let ghost before = self.register@;
        let mut pins: Vec<AddressedBit> = Vec::new();
        let mut q: usize = 0;
        while q < addresses.len()
            invariant
                q <= addresses.len(),
                addrs == addresses@,
                pins@ =~= zero_pins(addrs.take(q as int)),
            decreases addresses.len() - q,
        {
            pins.push(AddressedBit { address: addresses[q], bit: 0 });
            q = q + 1;
        }
        proof {
            assert(addrs.take(addrs.len() as int) =~= addrs);
            assert(addresses_of(zero_pins(addrs)) =~= addrs);
            assert(pins_valid(n, zero_pins(addrs)));
            assert forall|q: int| 0 <= q < addrs.len() implies #[trigger] addrs[q] < n by {}
            lemma_zero_pins(n, addrs);
        }
        let mut decoder = AddressDecoder::new(self.bits, pins);
        let ghost lim = pow2(free_count(zero_table(n, addrs)));
        let ghost m = addrs.len();
        loop
            invariant
                self.sized(),
                self.bits == n,
                n == old(self).bits,
                self.states == old(self).states,
                self.zero == old(self).zero,
                before == old(self)@.amps,
                addrs == addresses@,
                m == addrs.len(),
                m == gate.arity(),
                addresses_valid(n, addrs),
                decoder.wf(),
                decoder@.table == zero_table(n, addrs),
                decoder@.counter <= lim,
                lim == pow2(free_count(zero_table(n, addrs))),
                free_count(zero_table(n, addrs)) == n - m,
                forall|v: Vec<A>| v@.len() == pow2(gate.arity()) ==> #[trigger] transform.requires((v,)),
                forall|v: Vec<A>, w: Vec<A>| #[trigger] transform.ensures((v,), w) ==> w@.len() == v@.len(),
                forall|kk: nat| kk < decoder@.counter ==>
                    #[trigger] orbit_transformed(transform, before, self.register@, n, addrs, kk),
                forall|cc: nat, kk: nat| cc < pow2(m) && kk < lim && kk >= decoder@.counter ==>
                    self.register@[#[trigger] orbit_index(n, addrs, cc, kk) as int] == before[orbit_index(n, addrs, cc, kk) as int],
            ensures
                self.sized(),
                self.bits == n,
                self.states == old(self).states,
                self.zero == old(self).zero,
                forall|kk: nat| kk < lim ==>
                    #[trigger] orbit_transformed(transform, before, self.register@, n, addrs, kk),
            decreases lim - decoder@.counter,
        {
            let ghost k = decoder@.counter;
            match decoder.next() {
                Some(subaddress) => {
                    let ghost mid = self.register@;
                    proof {
                        lemma_corner_table(n, addrs, 0);
                        assert(k < lim);
                        lemma_decode_bound(zero_table(n, addrs), k);
                        assert(subaddress == decode(zero_table(n, addrs), k));
                    }
                    let input = self.read_subregister(subaddress, &addresses, Ghost(k));
                    proof {
                        assert(input@ =~= sub_vector(before, n, addrs, k)) by {
                            assert forall|c: int| 0 <= c < pow2(m) implies
                                #[trigger] input@[c] == sub_vector(before, n, addrs, k)[c] by {
                                assert(mid[orbit_index(n, addrs, c as nat, k) as int] == before[orbit_index(n, addrs, c as nat, k) as int]);
                            }
                        }
                    }
                    let output = transform(input);
                    self.write_subregister(subaddress, &addresses, output, Ghost(k));
                    proof {
                        assert(orbit_transformed(transform, before, self.register@, n, addrs, k));
                        assert forall|kk: nat| kk < decoder@.counter implies
                            #[trigger] orbit_transformed(transform, before, self.register@, n, addrs, kk) by {
                            if kk < k {
                                assert(orbit_transformed(transform, before, mid, n, addrs, kk));
                                let (v, w) = choose|v: Vec<A>, w: Vec<A>| {
                                    &&& v@ == sub_vector(before, n, addrs, kk)
                                    &&& #[trigger] transform.ensures((v,), w)
                                    &&& w@.len() == pow2(addrs.len())
                                    &&& forall|c: nat| c < pow2(addrs.len()) ==> mid[orbit_index(n, addrs, c, kk) as int] == w@[c as int]
                                };
                                assert forall|c: nat| c < pow2(addrs.len()) implies
                                    self.register@[orbit_index(n, addrs, c, kk) as int] == w@[c as int] by {
                                    assert(self.register@[orbit_index(n, addrs, c, kk) as int] == mid[orbit_index(n, addrs, c, kk) as int]);
                                }
                            }
                        }
                    }
                },
                None => {
                    break;
                },
            }
        }
        proof {
            let o = old(self)@;
            let v = self@;
            assert forall|q: int, i: int|
                #![trigger v.states[q], v.amps[i]]
                0 <= q < v.states.len() && 0 <= i < v.amps.len() && v.states[q] != State::SUPERPOSITION
                    && !v.states[q].collapsed_to(bit_of(i as nat, q as nat) as int) implies v.amps[i] == v.zero by {
                assert(o.states[q] == v.states[q]);
                assert(!names(addrs, q)) by {
                    if names(addrs, q) {
                        let j = choose|j: int| 0 <= j < addrs.len() && addrs[j] as int == q;
                        assert(o.states[addrs[j] as int] == State::SUPERPOSITION);
                    }
                }
                lemma_orbits_cover(n, addrs, i as nat);
                let c = corner_of(addrs, i as nat);
                let k = encode(zero_table(n, addrs), i as nat);
                assert(orbit_transformed(transform, before, self.register@, n, addrs, k));
                let (vv, ww) = choose|vv: Vec<A>, ww: Vec<A>| {
                    &&& vv@ == sub_vector(before, n, addrs, k)
                    &&& #[trigger] transform.ensures((vv,), ww)
                    &&& ww@.len() == pow2(addrs.len())
                    &&& forall|cc: nat| cc < pow2(addrs.len()) ==> self.register@[orbit_index(n, addrs, cc, k) as int] == ww@[cc as int]
                };
                assert forall|cc: int| 0 <= cc < vv@.len() implies vv@[cc] == o.zero by {
                    lemma_same_bit_in_orbit(n, addrs, cc as nat, c, k, q as nat);
                    lemma_orbit_index_bound(n, addrs, cc as nat, k);
                    let x = orbit_index(n, addrs, cc as nat, k) as int;
                    assert(vv@[cc] == o.amps[x]);
                    assert(o.states[q] != State::SUPERPOSITION && !o.states[q].collapsed_to(bit_of(x as nat, q as nat) as int));
                }
                assert(ww@[c as int] == o.zero);
            }
        }
        Some(true)
    }
}

proof fn lemma_table_single(n: nat, a: nat, v: u8)
    requires
        v <= 1,
    ensures
        table_bits_ok(single(n, a, v)),
{
}

} // verus!

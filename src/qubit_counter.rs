//! Enumeration of the full register indices that agree with a set of pinned
//! (position, bit) constraints, by scanning the positions from 0 upward.
use vstd::prelude::*;

pub use crate::address_decoder::{AddressedBit, is_valid_addresses};
use crate::address_decoder::{build_table, pins_valid, table_of, DecoderView};
use crate::layout::{
    decode, free_count, lemma_pow2_mono, pow2, pow2_exec, table_bits_ok,
};

verus! {

/// Hands out, in ascending order, the `2^(n-m)` indices of a width-`n`
/// register that carry `m` pinned bits.
pub struct QubitCounter {
    bits: usize,
    pinned: Vec<Option<u8>>,
    counter: usize,
    len_counter: usize,
    limit: usize,
}

impl View for QubitCounter {
    type V = DecoderView;

    closed spec fn view(&self) -> DecoderView {
        DecoderView { width: self.bits as nat, table: self.pinned@, counter: self.counter as nat }
    }
}

impl QubitCounter {
    pub closed spec fn wf(&self) -> bool {
        &&& self.pinned@.len() == self.bits
        &&& table_bits_ok(self.pinned@)
        &&& pow2(self.bits as nat) <= usize::MAX
        &&& self.len_counter == free_count(self.pinned@)
        &&& self.limit == pow2(self.len_counter as nat)
        &&& self.counter <= self.limit
    }

    /// Starts the enumeration of the indices that carry the constraints `pinned_bits`.
    pub fn new(bits: usize, pinned_bits: Vec<AddressedBit>) -> (r: QubitCounter)
        requires
            pins_valid(bits as nat, pinned_bits@),
            pow2(bits as nat) <= usize::MAX,
        ensures
            r.wf(),
            r@ == (DecoderView { width: bits as nat, table: table_of(pinned_bits@, bits as nat), counter: 0 }),
            free_count(r@.table) == bits - pinned_bits.len(),
            table_bits_ok(r@.table),
    {
        let pinned = build_table(bits, &pinned_bits);
        let len_counter = bits - pinned_bits.len();
        proof {
            lemma_pow2_mono(len_counter as nat, bits as nat);
        }
        let limit = pow2_exec(len_counter);
        QubitCounter { bits, pinned, counter: 0, len_counter, limit }
    }

    /// The next index, or `None` once all `2^(n-m)` have been handed out.
    pub fn next(&mut self) -> (r: Option<usize>)
        requires
            old(self).wf(),
        ensures
            final(self).wf(),
            final(self)@.counter <= pow2(free_count(final(self)@.table)),
            final(self)@.width == old(self)@.width,
            final(self)@.table == old(self)@.table,
            old(self)@.counter < pow2(free_count(old(self)@.table)) ==> {
                &&& r == Some(decode(old(self)@.table, old(self)@.counter) as usize)
                &&& final(self)@.counter == old(self)@.counter + 1
            },
            old(self)@.counter >= pow2(free_count(old(self)@.table)) ==> {
                &&& r is None
                &&& final(self)@ == old(self)@
            },
    {
        if self.counter >= self.limit {
            return None;
        }
        let prev_counter = self.counter;
        self.counter = self.counter + 1;
        Some(scan_positions(self.bits, &self.pinned, prev_counter))
    }
}

/// Builds the index position by position: a pinned position takes its pinned
/// bit, a free one the next bit of the counter `c`.
fn scan_positions(bits: usize, pinned: &Vec<Option<u8>>, c: usize) -> (r: usize)
    requires
        pinned@.len() == bits,
        table_bits_ok(pinned@),
        pow2(bits as nat) <= usize::MAX,
        c < pow2(free_count(pinned@)),
    ensures
        r == decode(pinned@, c as nat),
{
    let ghost t = pinned@;
    let mut basis: usize = 0;
    let mut rest: usize = c;
    let mut pow: usize = 1;
    let mut i: usize = 0;
    proof {
        assert(t.subrange(0, bits as int) =~= t);
    }
    while i < bits
        invariant
            t == pinned@,
            t.len() == bits,
            table_bits_ok(t),
            pow2(bits as nat) <= usize::MAX,
            i <= bits,
            pow == pow2(i as nat),
            basis < pow,
            rest < pow2(free_count(t.subrange(i as int, bits as int))),
            decode(t, c as nat) == basis + pow * decode(t.subrange(i as int, bits as int), rest as nat),
        decreases bits - i,
    {
        let ghost s = t.subrange(i as int, bits as int);
        proof {
            assert(s.drop_first() =~= t.subrange(i + 1, bits as int));
            assert(s[0] == t[i as int]);
            lemma_pow2_mono((i + 1) as nat, bits as nat);
        }
        match pinned[i] {
            Some(b) => {
                proof {
                    assert(t[i as int] is Some);
                    assert(b <= 1);
                    assert(basis + b as nat * pow < 2 * pow) by (nonlinear_arith)
                        requires basis < pow, b <= 1;
                    assert(pow * decode(s, rest as nat) == b as nat * pow + (2 * pow) * decode(s.drop_first(), rest as nat)) by (nonlinear_arith)
                        requires decode(s, rest as nat) == b as nat + 2 * decode(s.drop_first(), rest as nat);
                }
                basis = basis + (b as usize) * pow;
            },
            None => {
                proof {
                    assert(basis + (rest % 2) as nat * pow < 2 * pow) by (nonlinear_arith)
                        requires basis < pow, rest % 2 <= 1;
                    assert(pow * decode(s, rest as nat) == (rest % 2) as nat * pow + (2 * pow) * decode(s.drop_first(), (rest / 2) as nat)) by (nonlinear_arith)
                        requires decode(s, rest as nat) == rest % 2 + 2 * decode(s.drop_first(), (rest / 2) as nat);
                }
                basis = basis + (rest % 2) * pow;
                rest = rest / 2;
            },
        }
        pow = pow * 2;
        i = i + 1;
    }
    proof {
        assert(t.subrange(bits as int, bits as int).len() == 0);
        assert(decode(t.subrange(bits as int, bits as int), rest as nat) == 0);
        assert(pow * 0 == 0);
    }
    basis
}

} // verus!

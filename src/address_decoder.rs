//! Enumeration of the full register indices that agree with a set of pinned
//! (position, bit) constraints, by inserting the pinned bits into a counter.
use vstd::prelude::*;

use crate::layout::{
    bit_of, decode, encode, free_count, lemma_counts, lemma_decode_bound, lemma_decode_encode,
    lemma_decode_matches, lemma_decode_strict_mono, matches_table, single, lemma_mixed_bound, lemma_pinned_count_update, lemma_pow2_add,
    lemma_pow2_mono, pinned_count,
    pow2, pow2_exec, table_bits_ok, PinTable,
};

verus! {

/// A register position held at a fixed bit value.
#[derive(Clone, Copy, Debug)]
pub struct AddressedBit {
    pub address: usize,
    pub bit: u8,
}

/// The positions of a width-`bits` register given by `addresses` are usable
/// together: the width is positive, there are at most `bits` of them, each
/// is in range and no two are equal.
pub open spec fn addresses_valid(bits: nat, addresses: Seq<usize>) -> bool {
    &&& bits > 0
    &&& addresses.len() <= bits
    &&& forall|i: int| 0 <= i < addresses.len() ==> #[trigger] addresses[i] < bits
    &&& forall|i: int, j: int|
        0 <= i < j < addresses.len() ==> #[trigger] addresses[i] != #[trigger] addresses[j]
}

/// The positions of a list of constraints.
pub open spec fn addresses_of(pins: Seq<AddressedBit>) -> Seq<usize> {
    pins.map_values(|p: AddressedBit| p.address)
}

/// A constraint set for a width-`bits` register: valid positions, bit values 0 or 1.
pub open spec fn pins_valid(bits: nat, pins: Seq<AddressedBit>) -> bool {
    &&& addresses_valid(bits, addresses_of(pins))
    &&& forall|k: int| 0 <= k < pins.len() ==> #[trigger] pins[k].bit <= 1
}

/// The value pinned at position `i` by the last constraint that names it.
pub open spec fn pin_lookup(pins: Seq<AddressedBit>, i: int) -> Option<u8>
    decreases pins.len(),
{
    if pins.len() == 0 {
        None
    } else if pins.last().address == i {
        Some(pins.last().bit)
    } else {
        pin_lookup(pins.drop_last(), i)
    }
}

/// The pin table of a width-`bits` register under the constraints `pins`.
pub open spec fn table_of(pins: Seq<AddressedBit>, bits: nat) -> PinTable {
    Seq::new(bits, |i: int| pin_lookup(pins, i))
}

proof fn lemma_lookup_absent(pins: Seq<AddressedBit>, i: int)
    requires
        forall|k: int| 0 <= k < pins.len() ==> #[trigger] pins[k].address != i,
    ensures
        pin_lookup(pins, i) is None,
    decreases pins.len(),
{
    if pins.len() > 0 {
        assert(pins[pins.len() - 1].address != i);
        lemma_lookup_absent(pins.drop_last(), i);
    }
}

/// Each constraint of a valid set is what the table holds at its position.
pub proof fn lemma_lookup_present(bits: nat, pins: Seq<AddressedBit>, k: int)
    requires
        pins_valid(bits, pins),
        0 <= k < pins.len(),
    ensures
        table_of(pins, bits)[pins[k].address as int] == Some(pins[k].bit),
        pins[k].address < bits,
    decreases pins.len(),
{
    let a = addresses_of(pins);
    assert(a[k] == pins[k].address);
    if k < pins.len() - 1 {
        assert(a[k] != a[pins.len() - 1]);
        let d = pins.drop_last();
        assert(addresses_of(d) =~= a.drop_last());
        lemma_lookup_present(bits, d, k);
    }
}

proof fn lemma_none_table(n: nat)
    ensures
        pinned_count(Seq::new(n, |i: int| None::<u8>)) == 0,
    decreases n,
{
    if n > 0 {
        assert(Seq::new(n, |i: int| None::<u8>).drop_first() =~= Seq::new((n - 1) as nat, |i: int| None::<u8>));
        lemma_none_table((n - 1) as nat);
    }
}

/// `x` has, at the position of each constraint, the constraint's bit.
pub open spec fn carries_pins(pins: Seq<AddressedBit>, x: nat) -> bool {
    forall|k: int| 0 <= k < pins.len() ==> bit_of(x, #[trigger] pins[k].address as nat) == pins[k].bit
}

/// The table of a constraint set pins exactly as many positions as it has constraints.
pub proof fn lemma_table_of_free(bits: nat, pins: Seq<AddressedBit>)
    requires
        pins_valid(bits, pins),
    ensures
        free_count(table_of(pins, bits)) == bits - pins.len(),
        table_bits_ok(table_of(pins, bits)),
    decreases pins.len(),
{
    let t = table_of(pins, bits);
    assert forall|i: int| 0 <= i < t.len() && #[trigger] t[i] is Some implies t[i]->0 <= 1 by {
        lemma_table_bits(pins, bits, i);
    }
    if pins.len() == 0 {
        assert(t =~= Seq::new(bits, |i: int| None::<u8>));
        lemma_none_table(bits);
        lemma_counts(t);
    } else {
        let d = pins.drop_last();
        let l = pins.len() - 1;
        let a = addresses_of(pins);
        assert(addresses_of(d) =~= a.drop_last());
        assert(pins_valid(bits, d)) by {
            assert forall|k: int| 0 <= k < d.len() implies #[trigger] d[k].bit <= 1 by {
                assert(d[k] == pins[k]);
            }
        }
        lemma_table_of_free(bits, d);
        assert(a[l] == pins[l].address);
        assert forall|q: int| 0 <= q < d.len() implies #[trigger] d[q].address != pins[l].address by {
            assert(a[q] == d[q].address);
            assert(a[q] != a[l]);
        }
        lemma_lookup_absent(d, pins[l].address as int);
        let td = table_of(d, bits);
        assert(t =~= td.update(pins[l].address as int, Some(pins[l].bit)));
        lemma_counts(td);
        lemma_counts(t);
        lemma_pinned_count_update(td, pins[l].address as int, pins[l].bit);
    }
}

/// The decoder enumerates exactly the indices that carry the constraints:
/// for a valid set of `m` constraints on `n` positions there are `2^(n-m)`
/// counters, each decodes to an index below `2^n` that carries every pinned
/// value, the decoded indices ascend strictly with the counter, and every
/// index below `2^n` that carries the pinned values is decoded from one of them.
pub proof fn lemma_decoder_enumeration(bits: nat, pins: Seq<AddressedBit>)
    requires
        pins_valid(bits, pins),
    ensures
        free_count(table_of(pins, bits)) == bits - pins.len(),
        forall|c: nat| c < pow2((bits - pins.len()) as nat) ==> #[trigger] decode(table_of(pins, bits), c) < pow2(bits),
        forall|c: nat, k: int| c < pow2((bits - pins.len()) as nat) && 0 <= k < pins.len()
            ==> bit_of(#[trigger] decode(table_of(pins, bits), c), pins[k].address as nat) == #[trigger] pins[k].bit,
        forall|c1: nat, c2: nat| c1 < c2 < pow2((bits - pins.len()) as nat)
            ==> #[trigger] decode(table_of(pins, bits), c1) < #[trigger] decode(table_of(pins, bits), c2),
        forall|x: nat| x < pow2(bits) && #[trigger] carries_pins(pins, x)
            ==> exists|c: nat| c < pow2((bits - pins.len()) as nat) && #[trigger] decode(table_of(pins, bits), c) == x,
{
    let t = table_of(pins, bits);
    lemma_table_of_free(bits, pins);
    assert forall|c: nat| c < pow2((bits - pins.len()) as nat) implies #[trigger] decode(t, c) < pow2(bits) by {
        lemma_decode_bound(t, c);
    }
    assert forall|c: nat, k: int| c < pow2((bits - pins.len()) as nat) && 0 <= k < pins.len()
        implies bit_of(#[trigger] decode(t, c), pins[k].address as nat) == #[trigger] pins[k].bit by {
        lemma_lookup_present(bits, pins, k);
        lemma_decode_matches(t, c);
        assert(t[pins[k].address as int] is Some);
    }
    assert forall|c1: nat, c2: nat| c1 < c2 < pow2((bits - pins.len()) as nat)
        implies #[trigger] decode(t, c1) < #[trigger] decode(t, c2) by {
        lemma_decode_strict_mono(t, c1, c2);
    }
    assert forall|x: nat| x < pow2(bits) && #[trigger] carries_pins(pins, x)
        implies exists|c: nat| c < pow2((bits - pins.len()) as nat) && #[trigger] decode(t, c) == x by {
        assert(matches_table(t, x)) by {
            assert forall|i: int| 0 <= i < t.len() && #[trigger] t[i] is Some implies bit_of(x, i as nat) == t[i]->0 as nat by {
                lemma_lookup_some(pins, i);
                let k = choose|k: int| 0 <= k < pins.len() && pins[k].address == i && pins[k].bit == t[i]->0;
                assert(bit_of(x, pins[k].address as nat) == pins[k].bit);
            }
        }
        lemma_decode_encode(t, x);
        assert(decode(t, encode(t, x)) == x);
    }
}

proof fn lemma_lookup_some(pins: Seq<AddressedBit>, i: int)
    requires
        pin_lookup(pins, i) is Some,
    ensures
        exists|k: int| 0 <= k < pins.len() && pins[k].address == i && pins[k].bit == pin_lookup(pins, i)->0,
    decreases pins.len(),
{
    let l = pins.len() - 1;
    if pins.last().address != i {
        lemma_lookup_some(pins.drop_last(), i);
        let k = choose|k: int| 0 <= k < pins.drop_last().len() && pins.drop_last()[k].address == i
            && pins.drop_last()[k].bit == pin_lookup(pins.drop_last(), i)->0;
        assert(pins[k] == pins.drop_last()[k]);
    } else {
        assert(pins[l].address == i);
    }
}

/// The two values of a single constraint at position `a` split the register:
/// every index below `2^n` is decoded, under the constraint its own bit `a`
/// gives, from a counter below `2^(n-1)`, and no index is decoded under both
/// values.
pub proof fn lemma_decoder_partition(n: nat, a: nat)
    requires
        a < n,
    ensures
        forall|x: nat| x < pow2(n) ==> #[trigger] bit_of(x, a) <= 1 && exists|c: nat| c < pow2((n - 1) as nat)
            && #[trigger] decode(single(n, a, bit_of(x, a) as u8), c) == x,
        forall|c0: nat, c1: nat| #[trigger] decode(single(n, a, 0), c0) != #[trigger] decode(single(n, a, 1), c1),
{
    assert forall|x: nat| x < pow2(n) implies #[trigger] bit_of(x, a) <= 1 && exists|c: nat| c < pow2((n - 1) as nat)
        && #[trigger] decode(single(n, a, bit_of(x, a) as u8), c) == x by {
        crate::layout::lemma_bit_of_div(x, a);
        let t = single(n, a, bit_of(x, a) as u8);
        assert(matches_table(t, x));
        lemma_decode_encode(t, x);
        lemma_single_free(n, a, bit_of(x, a) as u8);
        assert(decode(t, encode(t, x)) == x);
    }
    assert forall|c0: nat, c1: nat| #[trigger] decode(single(n, a, 0), c0) != #[trigger] decode(single(n, a, 1), c1) by {
        lemma_decode_matches(single(n, a, 0), c0);
        lemma_decode_matches(single(n, a, 1), c1);
        assert(single(n, a, 0)[a as int] is Some);
        assert(single(n, a, 1)[a as int] is Some);
    }
}

/// A single constraint leaves every other position free.
pub proof fn lemma_single_free(n: nat, a: nat, v: u8)
    requires
        a < n,
    ensures
        free_count(single(n, a, v)) == n - 1,
    decreases n,
{
    let t = single(n, a, v);
    if a == 0 {
        assert(t.drop_first() =~= Seq::new((n - 1) as nat, |p: int| None::<u8>));
        lemma_none_table((n - 1) as nat);
        lemma_counts(t.drop_first());
    } else {
        assert(t.drop_first() =~= single((n - 1) as nat, (a - 1) as nat, v));
        lemma_single_free((n - 1) as nat, (a - 1) as nat, v);
    }
}

/// Whether `addresses` are valid positions of a width-`bits` register.
pub fn is_valid_addresses(bits: usize, addresses: &Vec<usize>) -> (r: bool)
    ensures
        r == addresses_valid(bits as nat, addresses@),
{
    if bits == 0 {
        return false;
    } else if addresses.len() > bits {
        return false;
    }
    let n = addresses.len();
    let mut i: usize = 0;
    while i < n
        invariant
            n == addresses.len(),
            bits > 0,
            n <= bits,
            i <= n,
            forall|p: int| 0 <= p < i ==> #[trigger] addresses@[p] < bits,
            forall|p: int, q: int| 0 <= p < i && p < q < n ==> #[trigger] addresses@[p] != #[trigger] addresses@[q],
        decreases n - i,
    {
        if addresses[i] >= bits {
            return false;
        }
        let mut j: usize = i + 1;
        while j < n
            invariant
                n == addresses.len(),
                i < j <= n,
                forall|q: int| i < q < j ==> addresses@[i as int] != #[trigger] addresses@[q],
            decreases n - j,
        {
            if addresses[i] == addresses[j] {
                return false;
            }
            j = j + 1;
        }
        i = i + 1;
    }
    true
}

/// Lays out the pin table of a valid constraint set.
pub(crate) fn build_table(bits: usize, pins: &Vec<AddressedBit>) -> (r: Vec<Option<u8>>)
    requires
        pins_valid(bits as nat, pins@),
    ensures
        r@ == table_of(pins@, bits as nat),
        table_bits_ok(r@),
        free_count(r@) == bits - pins.len(),
{
    let mut table: Vec<Option<u8>> = Vec::new();
    let mut i: usize = 0;
    while i < bits
        invariant
            i <= bits,
            table@ =~= Seq::new(i as nat, |j: int| None::<u8>),
        decreases bits - i,
    {
        table.push(None);
        i = i + 1;
    }
    proof {
        lemma_none_table(bits as nat);
    }
    let mut k: usize = 0;
    while k < pins.len()
        invariant
            pins_valid(bits as nat, pins@),
            k <= pins.len(),
            table@ =~= table_of(pins@.take(k as int), bits as nat),
            pinned_count(table@) == k,
        decreases pins.len() - k,
    {
        let p = pins[k];
        let ghost a = addresses_of(pins@);
        proof {
            assert(a[k as int] == p.address);
            assert(p.address < bits);
            assert forall|q: int| 0 <= q < k implies #[trigger] pins@.take(k as int)[q].address != p.address by {
                assert(a[q] == pins@[q].address);
                assert(a[q] != a[k as int]);
            }
            lemma_lookup_absent(pins@.take(k as int), p.address as int);
            lemma_pinned_count_update(table@, p.address as int, p.bit);
            assert(pins@.take(k as int + 1).drop_last() =~= pins@.take(k as int));
        }
        table.set(p.address, Some(p.bit));
        k = k + 1;
    }
    proof {
        assert(pins@.take(pins.len() as int) =~= pins@);
        lemma_counts(table@);
        assert forall|i: int| 0 <= i < table@.len() && #[trigger] table@[i] is Some implies table@[i]->0 <= 1 by {
            lemma_table_bits(pins@, bits as nat, i);
        }
    }
    table
}

proof fn lemma_table_bits(pins: Seq<AddressedBit>, bits: nat, i: int)
    requires
        forall|k: int| 0 <= k < pins.len() ==> #[trigger] pins[k].bit <= 1,
    ensures
        pin_lookup(pins, i) is Some ==> pin_lookup(pins, i)->0 <= 1,
    decreases pins.len(),
{
    if pins.len() > 0 {
        assert(pins[pins.len() - 1].bit <= 1);
        lemma_table_bits(pins.drop_last(), bits, i);
    }
}

/// What a decoder stands for: the register width, the pin table and the
/// number of indices handed out so far.
pub ghost struct DecoderView {
    pub width: nat,
    pub table: PinTable,
    pub counter: nat,
}

/// Hands out, in ascending order, the `2^(n-m)` indices of a width-`n`
/// register that carry `m` pinned bits.
pub struct AddressDecoder {
    bits: usize,
    pinned: Vec<Option<u8>>,
    counter: usize,
    len_counter: usize,
    limit: usize,
}

impl View for AddressDecoder {
    type V = DecoderView;

    closed spec fn view(&self) -> DecoderView {
        DecoderView { width: self.bits as nat, table: self.pinned@, counter: self.counter as nat }
    }
}

impl AddressDecoder {
    pub closed spec fn wf(&self) -> bool {
        &&& self.pinned@.len() == self.bits
        &&& table_bits_ok(self.pinned@)
        &&& pow2(self.bits as nat) <= usize::MAX
        &&& self.len_counter == free_count(self.pinned@)
        &&& self.limit == pow2(self.len_counter as nat)
        &&& self.counter <= self.limit
    }

    /// Starts the enumeration of the indices that carry the constraints `pinned_bits`.
    pub fn new(bits: usize, pinned_bits: Vec<AddressedBit>) -> (r: AddressDecoder)
        requires
            pins_valid(bits as nat, pinned_bits@),
            pow2(bits as nat) <= usize::MAX,
        ensures
            r.wf(),
            r@ == (DecoderView { width: bits as nat, table: table_of(pinned_bits@, bits as nat), counter: 0 }),
            free_count(r@.table) == bits - pinned_bits.len(),
            table_bits_ok(r@.table),
    {
        let pinned = build_table(bits, &pinned_bits);
        let len_counter = bits - pinned_bits.len();
        proof {
            lemma_pow2_mono(len_counter as nat, bits as nat);
        }
        let limit = pow2_exec(len_counter);
        AddressDecoder { bits, pinned, counter: 0, len_counter, limit }
    }

    /// The next index, or `None` once all `2^(n-m)` have been handed out.
    pub fn next(&mut self) -> (r: Option<usize>)
        requires
            old(self).wf(),
        ensures
            final(self).wf(),
            final(self)@.counter <= pow2(free_count(final(self)@.table)),
            final(self)@.width == old(self)@.width,
            final(self)@.table == old(self)@.table,
            old(self)@.counter < pow2(free_count(old(self)@.table)) ==> {
                &&& r == Some(decode(old(self)@.table, old(self)@.counter) as usize)
                &&& final(self)@.counter == old(self)@.counter + 1
            },
            old(self)@.counter >= pow2(free_count(old(self)@.table)) ==> {
                &&& r is None
                &&& final(self)@ == old(self)@
            },
    {
        if self.counter >= self.limit {
            return None;
        }
        let decoded = insert_pinned_bits(self.bits, &self.pinned, self.counter);
        self.counter = self.counter + 1;
        Some(decoded)
    }
}

/// Inserts the pinned bits into the counter `c`, position by position in
/// ascending order: each pinned position shifts the bits above it up by one.
fn insert_pinned_bits(bits: usize, pinned: &Vec<Option<u8>>, c: usize) -> (r: usize)
    requires
        pinned@.len() == bits,
        table_bits_ok(pinned@),
        pow2(bits as nat) <= usize::MAX,
        c < pow2(free_count(pinned@)),
    ensures
        r == decode(pinned@, c as nat),
{
    let ghost t = pinned@;
    let mut d: usize = c;
    let mut pow: usize = 1;
    let mut a: usize = 0;
    // `low` is the decoded index below position `a`; `high` what remains of the counter
    let ghost mut low: nat = 0;
    let ghost mut high: nat = c as nat;
    proof {
        lemma_counts(t);
        lemma_pow2_mono(free_count(t), bits as nat);
        assert(t.subrange(0, bits as int) =~= t);
    }
    while a < bits
        invariant
            t == pinned@,
            t.len() == bits,
            table_bits_ok(t),
            pow2(bits as nat) <= usize::MAX,
            a <= bits,
            pow == pow2(a as nat),
            low < pow,
            high < pow2(free_count(t.subrange(a as int, bits as int))),
            d == low + pow * high,
            decode(t, c as nat) == low + pow * decode(t.subrange(a as int, bits as int), high),
        decreases bits - a,
    {
        let ghost s = t.subrange(a as int, bits as int);
        proof {
            assert(s.drop_first() =~= t.subrange(a + 1, bits as int));
            assert(s[0] == t[a as int]);
            lemma_counts(s.drop_first());
            lemma_pow2_mono((a + 1) as nat, bits as nat);
            lemma_pow2_mono(free_count(s.drop_first()), (bits - a - 1) as nat);
            lemma_pow2_mono((bits - a - 1) as nat, (bits - a - 1) as nat);
        }
        match pinned[a] {
            Some(b) => {
                proof {
                    assert(t[a as int] is Some);
                    assert(b <= 1);
                    assert(pow * high == high * pow) by (nonlinear_arith);
                    vstd::arithmetic::div_mod::lemma_fundamental_div_mod_converse(
                        d as int, pow as int, high as int, low as int);
                    let f = free_count(s.drop_first());
                    assert(free_count(s) == f);
                    assert(pow2(a as nat + 1) == 2 * pow);
                    lemma_pow2_mono(f, (bits - a - 1) as nat);
                    lemma_pow2_add((a + 1) as nat, (bits - a - 1) as nat);
                    assert(low + b as nat * pow < 2 * pow) by (nonlinear_arith)
                        requires low < pow, b <= 1;
                    lemma_mixed_bound((low + b as nat * pow) as nat, (2 * pow) as nat, high, pow2(f));
                    assert((2 * pow) * pow2(f) <= (2 * pow) * pow2((bits - a - 1) as nat)) by (nonlinear_arith)
                        requires pow2(f) <= pow2((bits - a - 1) as nat);
                    assert(high * (2 * pow) == (2 * pow) * high) by (nonlinear_arith);
                }
                d = (d / pow) * (2 * pow) + (b as usize) * pow + d % pow;
                proof {
                    low = (low + b as nat * pow) as nat;
                    assert(decode(s, high) == b as nat + 2 * decode(s.drop_first(), high));
                    assert(pow * (b as nat + 2 * decode(s.drop_first(), high)) == b as nat * pow + (2 * pow) * decode(s.drop_first(), high)) by (nonlinear_arith);
                    assert(pow * high == high * pow) by (nonlinear_arith);
                    assert((2 * pow) * high == high * (2 * pow)) by (nonlinear_arith);
                }
            },
            None => {
                proof {
                    assert(decode(s, high) == high % 2 + 2 * decode(s.drop_first(), high / 2));
                    assert(high == high % 2 + 2 * (high / 2));
                    assert(pow * (high % 2 + 2 * decode(s.drop_first(), high / 2)) == (high % 2) * pow + (2 * pow) * decode(s.drop_first(), high / 2)) by (nonlinear_arith);
                    assert(pow * high == (high % 2) * pow + (2 * pow) * (high / 2)) by (nonlinear_arith)
                        requires high == high % 2 + 2 * (high / 2);
                    assert(high / 2 < pow2(free_count(s.drop_first())));
                    assert(low + (high % 2) * pow < 2 * pow) by (nonlinear_arith)
                        requires low < pow, high % 2 <= 1;
                    low = (low + (high % 2) * pow) as nat;
                    high = high / 2;
                }
            },
        }
        pow = pow * 2;
        a = a + 1;
    }
    proof {
        assert(t.subrange(bits as int, bits as int).len() == 0);
        assert(high < 1);
    }
    d
}

} // verus!

//! Mathematical model of register indices: powers of two, the bits of an
//! index, and the index obtained by interleaving the bits of a counter with a
//! table of pinned positions.
use vstd::prelude::*;

verus! {

/// Two to the power `e`.
pub open spec fn pow2(e: nat) -> nat
    decreases e,
{
    if e == 0 {
        1
    } else {
        2 * pow2((e - 1) as nat)
    }
}

/// Bit `i` of `x` (bit 0 is the least significant).
pub open spec fn bit_of(x: nat, i: nat) -> nat
    decreases i,
{
    if i == 0 {
        x % 2
    } else {
        bit_of(x / 2, (i - 1) as nat)
    }
}

/// The pinned value of each position of the register, or `None` where the
/// position is free. Position 0 comes first.
pub type PinTable = Seq<Option<u8>>;

/// Number of free (unpinned) positions of a table.
pub open spec fn free_count(t: PinTable) -> nat
    decreases t.len(),
{
    if t.len() == 0 {
        0
    } else {
        let rest = free_count(t.drop_first());
        if t[0] is None {
            rest + 1
        } else {
            rest
        }
    }
}

/// Number of pinned positions of a table.
pub open spec fn pinned_count(t: PinTable) -> nat
    decreases t.len(),
{
    if t.len() == 0 {
        0
    } else {
        let rest = pinned_count(t.drop_first());
        if t[0] is None {
            rest
        } else {
            rest + 1
        }
    }
}

/// The full index that a free-bit counter `c` stands for: positions are
/// scanned from 0 upward, a pinned position takes its pinned value and a free
/// one takes the next unused bit of `c`.
pub open spec fn decode(t: PinTable, c: nat) -> nat
    decreases t.len(),
{
    if t.len() == 0 {
        0
    } else {
        match t[0] {
            Some(b) => b as nat + 2 * decode(t.drop_first(), c),
            None => c % 2 + 2 * decode(t.drop_first(), c / 2),
        }
    }
}

/// The counter whose decoding is `x`: the bits of `x` at the free positions,
/// in ascending position order.
pub open spec fn encode(t: PinTable, x: nat) -> nat
    decreases t.len(),
{
    if t.len() == 0 {
        0
    } else {
        match t[0] {
            Some(_) => encode(t.drop_first(), x / 2),
            None => x % 2 + 2 * encode(t.drop_first(), x / 2),
        }
    }
}

/// Every value of `t` is a bit.
pub open spec fn table_bits_ok(t: PinTable) -> bool {
    forall|i: int| 0 <= i < t.len() && #[trigger] t[i] is Some ==> t[i]->0 <= 1
}

/// `x` has, at every pinned position of `t`, the pinned value.
pub open spec fn matches_table(t: PinTable, x: nat) -> bool {
    forall|i: int| 0 <= i < t.len() && #[trigger] t[i] is Some ==> bit_of(x, i as nat) == t[i]->0 as nat
}

pub proof fn lemma_pow2_pos(e: nat)
    ensures
        pow2(e) >= 1,
    decreases e,
{
    if e > 0 {
        lemma_pow2_pos((e - 1) as nat);
    }
}

pub proof fn lemma_pow2_mono(a: nat, b: nat)
    requires
        a <= b,
    ensures
        pow2(a) <= pow2(b),
    decreases b,
{
    if a < b {
        lemma_pow2_mono(a, (b - 1) as nat);
    }
}

pub proof fn lemma_counts(t: PinTable)
    ensures
        free_count(t) + pinned_count(t) == t.len(),
    decreases t.len(),
{
    if t.len() > 0 {
        lemma_counts(t.drop_first());
    }
}

/// Pinning one more free position takes one position from the free ones.
pub proof fn lemma_pinned_count_update(t: PinTable, a: int, b: u8)
    requires
        0 <= a < t.len(),
        t[a] is None,
    ensures
        pinned_count(t.update(a, Some(b))) == pinned_count(t) + 1,
    decreases t.len(),
{
    let u = t.update(a, Some(b));
    if a == 0 {
        assert(u.drop_first() =~= t.drop_first());
    } else {
        assert(u.drop_first() =~= t.drop_first().update(a - 1, Some(b)));
        lemma_pinned_count_update(t.drop_first(), a - 1, b);
    }
}

/// A decoded counter fits in the width of the table.
pub proof fn lemma_decode_bound(t: PinTable, c: nat)
    requires
        table_bits_ok(t),
        c < pow2(free_count(t)),
    ensures
        decode(t, c) < pow2(t.len()),
    decreases t.len(),
{
    if t.len() > 0 {
        let r = t.drop_first();
        assert(table_bits_ok(r)) by {
            assert forall|i: int| 0 <= i < r.len() && #[trigger] r[i] is Some implies r[i]->0 <= 1 by {
                assert(r[i] == t[i + 1]);
            }
        }
        match t[0] {
            Some(b) => {
                assert(t[0] is Some);
                lemma_decode_bound(r, c);
            },
            None => {
                lemma_decode_bound(r, c / 2);
            },
        }
    }
}

/// A decoded counter carries every pinned value.
pub proof fn lemma_decode_matches(t: PinTable, c: nat)
    requires
        table_bits_ok(t),
    ensures
        matches_table(t, decode(t, c)),
    decreases t.len(),
{
    if t.len() > 0 {
        let r = t.drop_first();
        let x = decode(t, c);
        let cr = if t[0] is None { c / 2 } else { c };
        assert(table_bits_ok(r)) by {
            assert forall|i: int| 0 <= i < r.len() && #[trigger] r[i] is Some implies r[i]->0 <= 1 by {
                assert(r[i] == t[i + 1]);
            }
        }
        if t[0] is Some {
            assert(t[0]->0 <= 1);
        }
        lemma_decode_matches(r, cr);
        assert(x / 2 == decode(r, cr));
        assert forall|i: int| 0 <= i < t.len() && #[trigger] t[i] is Some implies bit_of(x, i as nat) == t[i]->0 as nat by {
            if i > 0 {
                assert(r[i - 1] == t[i]);
            }
        }
    }
}

/// Decoding is strictly increasing in the counter.
pub proof fn lemma_decode_strict_mono(t: PinTable, c1: nat, c2: nat)
    requires
        table_bits_ok(t),
        c1 < c2 < pow2(free_count(t)),
    ensures
        decode(t, c1) < decode(t, c2),
    decreases t.len(),
{
    let r = t.drop_first();
    assert(table_bits_ok(r)) by {
        assert forall|i: int| 0 <= i < r.len() && #[trigger] r[i] is Some implies r[i]->0 <= 1 by {
            assert(r[i] == t[i + 1]);
        }
    }
    if t.len() == 0 {
        assert(false);
    } else if t[0] is None {
        if c1 / 2 < c2 / 2 {
            lemma_decode_strict_mono(r, c1 / 2, c2 / 2);
        } else {
        }
    } else {
        lemma_decode_strict_mono(r, c1, c2);
    }
}

/// Every index of the width of `t` that carries the pinned values is the
/// decoding of its own free bits, which form a counter in range.
pub proof fn lemma_decode_encode(t: PinTable, x: nat)
    requires
        x < pow2(t.len()),
        matches_table(t, x),
    ensures
        encode(t, x) < pow2(free_count(t)),
        decode(t, encode(t, x)) == x,
    decreases t.len(),
{
    if t.len() > 0 {
        let r = t.drop_first();
        assert(matches_table(r, x / 2)) by {
            assert forall|i: int| 0 <= i < r.len() && #[trigger] r[i] is Some implies bit_of(x / 2, i as nat) == r[i]->0 as nat by {
                assert(r[i] == t[i + 1]);
                assert(bit_of(x, (i + 1) as nat) == bit_of(x / 2, i as nat));
            }
        }
        lemma_decode_encode(r, x / 2);
        if t[0] is Some {
            assert(bit_of(x, 0) == t[0]->0 as nat);
        }
    }
}

/// Bit `i` is the remainder of dividing by `2^i`.
pub proof fn lemma_bit_of_div(x: nat, i: nat)
    ensures
        bit_of(x, i) == (x / pow2(i)) % 2,
    decreases i,
{
    if i > 0 {
        lemma_bit_of_div(x / 2, (i - 1) as nat);
        lemma_pow2_pos((i - 1) as nat);
        let p = pow2((i - 1) as nat);
        vstd::arithmetic::div_mod::lemma_div_denominator(x as int, 2, p as int);
        assert(pow2(i) == 2 * p);
        assert((x / 2) / p == x / (2 * p));
    } else {
        assert(x / 1 == x);
    }
}

/// Flipping bit `a` of `x`: `x + 2^a` where the bit is 0, `x - 2^a` where it is 1.
pub open spec fn flip(x: nat, a: nat) -> nat {
    if bit_of(x, a) == 0 {
        x + pow2(a)
    } else {
        (x - pow2(a)) as nat
    }
}

pub proof fn lemma_pow2_add(x: nat, y: nat)
    ensures
        pow2(x) * pow2(y) == pow2(x + y),
    decreases x,
{
    if x > 0 {
        lemma_pow2_add((x - 1) as nat, y);
        assert(pow2(x) * pow2(y) == 2 * (pow2((x - 1) as nat) * pow2(y))) by (nonlinear_arith)
            requires pow2(x) == 2 * pow2((x - 1) as nat);
        assert(pow2(x + y) == 2 * pow2((x - 1 + y) as nat));
    } else {
        assert(1 * pow2(y) == pow2(y));
    }
}

/// A number below `p` plus `p` times a number below `hb` stays below `p * hb`.
pub proof fn lemma_mixed_bound(lo: nat, p: nat, h: nat, hb: nat)
    requires
        lo < p,
        h < hb,
    ensures
        lo + p * h < p * hb,
{
    assert(lo + p * h < p * hb) by (nonlinear_arith)
        requires lo < p, h < hb;
}

/// The table of a width-`n` register whose only pinned position is `a`, at `v`.
pub open spec fn single(n: nat, a: nat, v: u8) -> PinTable {
    Seq::new(n, |p: int| if p == a { Some(v) } else { None })
}

/// Decoding undoes encoding.
pub proof fn lemma_encode_decode(t: PinTable, c: nat)
    requires
        table_bits_ok(t),
    ensures
        encode(t, decode(t, c)) == c % pow2(free_count(t)),
    decreases t.len(),
{
    if t.len() == 0 {
        assert(c % 1 == 0);
    } else {
        let r = t.drop_first();
        assert(table_bits_ok(r)) by {
            assert forall|i: int| 0 <= i < r.len() && #[trigger] r[i] is Some implies r[i]->0 <= 1 by {
                assert(r[i] == t[i + 1]);
            }
        }
        lemma_pow2_pos(free_count(r));
        match t[0] {
            Some(b) => {
                assert(t[0] is Some);
                assert(b <= 1);
                lemma_encode_decode(r, c);
                assert((b as nat + 2 * decode(r, c)) / 2 == decode(r, c));
            },
            None => {
                lemma_encode_decode(r, c / 2);
                let x = decode(t, c);
                assert(x % 2 == c % 2 && x / 2 == decode(r, c / 2));
                let p = pow2(free_count(r));
                vstd::arithmetic::div_mod::lemma_mod_mod(c as int, 2, p as int);
                vstd::arithmetic::div_mod::lemma_breakdown(c as int, 2, p as int);
                assert(pow2(free_count(t)) == 2 * p);
            },
        }
    }
}

/// Two tables that differ only at position `a`, pinned to 0 in one and 1 in
/// the other, decode every counter to indices `2^a` apart.
pub proof fn lemma_decode_flip(t0: PinTable, t1: PinTable, a: int, c: nat)
    requires
        t0.len() == t1.len(),
        0 <= a < t0.len(),
        t0[a] == Some(0u8),
        t1[a] == Some(1u8),
        forall|p: int| 0 <= p < t0.len() && p != a ==> t0[p] == t1[p],
    ensures
        decode(t1, c) == decode(t0, c) + pow2(a as nat),
    decreases t0.len(),
{
    let r0 = t0.drop_first();
    let r1 = t1.drop_first();
    if a == 0 {
        assert(r0 =~= r1);
    } else {
        assert(t0[0] == t1[0]);
        let cr = if t0[0] is None { c / 2 } else { c };
        lemma_decode_flip(r0, r1, a - 1, cr);
    }
}

/// At a position where two tables with the same free positions agree, the
/// decodings of a counter under each have the same bit.
pub proof fn lemma_decode_bit_same_shape(t1: PinTable, t2: PinTable, k: nat, q: nat)
    requires
        t1.len() == t2.len(),
        table_bits_ok(t1),
        table_bits_ok(t2),
        forall|p: int| 0 <= p < t1.len() ==> (#[trigger] t1[p] is Some) == (t2[p] is Some),
        q < t1.len(),
        t1[q as int] == t2[q as int],
    ensures
        bit_of(decode(t1, k), q) == bit_of(decode(t2, k), q),
    decreases t1.len(),
{
    let r1 = t1.drop_first();
    let r2 = t2.drop_first();
    assert(table_bits_ok(r1)) by {
        assert forall|i: int| 0 <= i < r1.len() && #[trigger] r1[i] is Some implies r1[i]->0 <= 1 by {
            assert(r1[i] == t1[i + 1]);
        }
    }
    assert(table_bits_ok(r2)) by {
        assert forall|i: int| 0 <= i < r2.len() && #[trigger] r2[i] is Some implies r2[i]->0 <= 1 by {
            assert(r2[i] == t2[i + 1]);
        }
    }
    assert forall|p: int| 0 <= p < r1.len() implies (#[trigger] r1[p] is Some) == (r2[p] is Some) by {
        assert(r1[p] == t1[p + 1] && r2[p] == t2[p + 1]);
    }
    assert((t1[0] is Some) == (t2[0] is Some));
    if t1[0] is Some {
        assert(t1[0]->0 <= 1);
        assert(t2[0]->0 <= 1);
    }
    let kr = if t1[0] is None { k / 2 } else { k };
    if q > 0 {
        assert(r1[q - 1] == t1[q as int] && r2[q - 1] == t2[q as int]);
        lemma_decode_bit_same_shape(r1, r2, kr, (q - 1) as nat);
    }
}

/// Computes `2^e`.
pub fn pow2_exec(e: usize) -> (r: usize)
    requires
        pow2(e as nat) <= usize::MAX,
    ensures
        r == pow2(e as nat),
{
    let mut r: usize = 1;
    let mut i: usize = 0;
    while i < e
        invariant
            i <= e,
            r == pow2(i as nat),
            pow2(e as nat) <= usize::MAX,
        decreases e - i,
    {
        proof {
            lemma_pow2_mono((i + 1) as nat, e as nat);
        }
        r = r * 2;
        i = i + 1;
    }
    r
}

} // verus!

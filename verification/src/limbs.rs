//! Little-endian limb sequences and the numbers they stand for.
//!
//! A nonnegative integer is represented by a sequence of 64-bit limbs,
//! least significant limb first.  [`value`] maps such a sequence to the
//! number it denotes, [`limbs_of`] maps a number back to a sequence of a
//! given length.  The lemmas here show that, for a fixed length, the two
//! are inverse to each other, so a limb sequence is pinned down completely
//! by its length and its value.

use vstd::prelude::*;
use vstd::arithmetic::div_mod::{
    lemma_div_denominator, lemma_div_multiples_vanish, lemma_fundamental_div_mod,
    lemma_fundamental_div_mod_converse, lemma_mod_bound, lemma_mod_multiples_basic,
};
use vstd::arithmetic::mul::lemma_mul_is_associative;

verus! {

/// Number of distinct values a single limb can hold: 2^64.
pub open spec fn base() -> nat {
    0x1_0000_0000_0000_0000
}

/// The weight of limb position `n`, that is, `base()` to the power `n`.
pub open spec fn place(n: nat) -> nat
    decreases n,
{
    if n == 0 {
        1
    } else {
        base() * place((n - 1) as nat)
    }
}

/// The number a little-endian limb sequence stands for:
/// `s[0] + s[1]*base() + s[2]*base()^2 + ...`.
pub open spec fn value(s: Seq<u64>) -> nat
    decreases s.len(),
{
    if s.len() == 0 {
        0
    } else {
        s[0] as nat + base() * value(s.drop_first())
    }
}

/// The little-endian limb sequence of length `n` denoting `v`
/// (or `v % place(n)` if `v` does not fit in `n` limbs).
pub open spec fn limbs_of(v: nat, n: nat) -> Seq<u64>
    decreases n,
{
    if n == 0 {
        Seq::empty()
    } else {
        seq![(v % base()) as u64] + limbs_of(v / base(), (n - 1) as nat)
    }
}

/// Every place is at least 1.
pub proof fn lemma_place_pos(n: nat)
    ensures
        place(n) >= 1,
    decreases n,
{
    if n > 0 {
        lemma_place_pos((n - 1) as nat);
    }
}

/// Places multiply: the weight of position `m + n` is the product of the
/// weights of positions `m` and `n`.
pub proof fn lemma_place_adds(m: nat, n: nat)
    ensures
        place(m + n) == place(m) * place(n),
    decreases m,
{
    if m == 0 {
        assert(place(0 + n) == place(n));
        assert(place(0) * place(n) == 1 * place(n));
    } else {
        lemma_place_adds((m - 1) as nat, n);
        assert((m + n - 1) as nat == (m - 1) as nat + n);
        assert(place(m + n) == base() * place((m - 1) as nat + n));
        assert(place(m) == base() * place((m - 1) as nat));
        lemma_mul_is_associative(base() as int, place((m - 1) as nat) as int, place(n) as int);
    }
}

/// A sequence of `n` limbs denotes a number below `place(n)`.
pub proof fn lemma_value_bound(s: Seq<u64>)
    ensures
        value(s) < place(s.len()),
    decreases s.len(),
{
    if s.len() > 0 {
        lemma_value_bound(s.drop_first());
    }
}

/// A single limb denotes itself.
pub proof fn lemma_value_singleton(x: u64)
    ensures
        value(seq![x]) == x,
{
    let s = seq![x];
    assert(s.len() == 1);
    assert(s[0] == x);
    assert(value(s.drop_first()) == 0);
    assert(value(s) == s[0] as nat + base() * value(s.drop_first()));
}

/// Concatenation: the tail is shifted up by the weight of the head's length.
pub proof fn lemma_value_append(a: Seq<u64>, b: Seq<u64>)
    ensures
        value(a + b) == value(a) + place(a.len()) * value(b),
    decreases a.len(),
{
    if a.len() == 0 {
        assert(a + b =~= b);
        assert(value(a) == 0);
        assert(place(0) * value(b) == 1 * value(b));
    } else {
        assert((a + b).drop_first() =~= a.drop_first() + b);
        assert((a + b)[0] == a[0]);
        assert((a + b).len() > 0);
        lemma_value_append(a.drop_first(), b);
        let p = place(a.drop_first().len());
        assert(value(a + b) == a[0] as nat + base() * (value(a.drop_first()) + p * value(b)));
        assert(value(a) == a[0] as nat + base() * value(a.drop_first()));
        assert(place(a.len()) == base() * p);
        lemma_mul_is_associative(base() as int, p as int, value(b) as int);
        assert(base() * (value(a.drop_first()) + p * value(b)) == base() * value(a.drop_first())
            + base() * (p * value(b)));
    }
}

/// Taking one more limb adds that limb at its weight.
pub proof fn lemma_value_take_succ(s: Seq<u64>, i: int)
    requires
        0 <= i < s.len(),
    ensures
        value(s.take(i + 1)) == value(s.take(i)) + s[i] * place(i as nat),
{
    assert(s.take(i + 1) =~= s.take(i) + seq![s[i]]);
    lemma_value_append(s.take(i), seq![s[i]]);
    lemma_value_singleton(s[i]);
    assert(place(i as nat) * s[i] == s[i] * place(i as nat)) by (nonlinear_arith);
}

/// A sequence splits at any point into a prefix and a weighted suffix.
pub proof fn lemma_value_split(s: Seq<u64>, i: int)
    requires
        0 <= i <= s.len(),
    ensures
        value(s) == value(s.take(i)) + place(i as nat) * value(s.skip(i)),
{
    assert(s =~= s.take(i) + s.skip(i));
    lemma_value_append(s.take(i), s.skip(i));
}

/// `limbs_of` yields the requested number of limbs.
pub proof fn lemma_limbs_of_len(v: nat, n: nat)
    ensures
        limbs_of(v, n).len() == n,
    decreases n,
{
    if n > 0 {
        lemma_limbs_of_len(v / base(), (n - 1) as nat);
    }
}

/// Round trip from number to limbs: expanding a number that fits in `n`
/// limbs and reading the result back gives the number again.
pub proof fn lemma_limbs_of_value(v: nat, n: nat)
    requires
        v < place(n),
    ensures
        value(limbs_of(v, n)) == v,
    decreases n,
{
    if n == 0 {
    } else {
        lemma_mod_bound(v as int, base() as int);
        assert(v / base() < place((n - 1) as nat)) by (nonlinear_arith)
            requires
                v < 0x1_0000_0000_0000_0000 * place((n - 1) as nat),
        ;
        lemma_limbs_of_value(v / base(), (n - 1) as nat);
        let s = limbs_of(v, n);
        assert(s.drop_first() =~= limbs_of(v / base(), (n - 1) as nat));
        lemma_fundamental_div_mod(v as int, base() as int);
    }
}

/// Round trip from limbs to number: expanding the value of a sequence at
/// its own length gives the sequence again.
pub proof fn lemma_value_limbs_of(s: Seq<u64>)
    ensures
        limbs_of(value(s), s.len()) == s,
    decreases s.len(),
{
    if s.len() == 0 {
        assert(limbs_of(value(s), 0) =~= s);
    } else {
        let v = value(s);
        let rest = value(s.drop_first());
        assert(v as int == rest as int * base() as int + s[0] as int);
        lemma_fundamental_div_mod_converse(v as int, base() as int, rest as int, s[0] as int);
        lemma_value_limbs_of(s.drop_first());
        assert(limbs_of(v, s.len()) =~= s);
    }
}

/// Two limb sequences of the same length denoting the same number are equal.
pub proof fn lemma_value_injective(s: Seq<u64>, t: Seq<u64>)
    requires
        s.len() == t.len(),
        value(s) == value(t),
    ensures
        s == t,
{
    lemma_value_limbs_of(s);
    lemma_value_limbs_of(t);
}

/// The limb of `limbs_of(v, n)` at position `i` is digit `i` of `v` in
/// base `base()`.
pub proof fn lemma_limbs_of_index(v: nat, n: nat, i: int)
    requires
        0 <= i < n,
    ensures
        limbs_of(v, n)[i] == (v / place(i as nat)) % base(),
    decreases i,
{
    lemma_mod_bound(v as int, base() as int);
    lemma_limbs_of_len(v / base(), (n - 1) as nat);
    let rest = limbs_of(v / base(), (n - 1) as nat);
    assert(limbs_of(v, n) == seq![(v % base()) as u64] + rest);
    if i == 0 {
        assert(limbs_of(v, n)[0] == (v % base()) as u64);
        lemma_div_multiples_vanish(v as int, 1);
        assert(1 * v == v);
        assert(place(0) == 1);
    } else {
        assert(limbs_of(v, n)[i] == rest[i - 1]);
        lemma_limbs_of_index(v / base(), (n - 1) as nat, i - 1);
        lemma_place_pos((i - 1) as nat);
        lemma_div_denominator(v as int, base() as int, place((i - 1) as nat) as int);
        assert(place(i as nat) == base() * place((i as nat - 1) as nat));
        lemma_mod_bound((v / base()) as int, base() as int);
    }
}

/// A sequence of limbs that all hold the maximum limb value denotes
/// exactly one less than the next place.
pub proof fn lemma_all_max_value(n: nat)
    ensures
        value(Seq::new(n, |i: int| u64::MAX)) == place(n) - 1,
    decreases n,
{
    if n > 0 {
        lemma_all_max_value((n - 1) as nat);
        assert(Seq::new(n, |i: int| u64::MAX).drop_first() =~= Seq::new(
            (n - 1) as nat,
            |i: int| u64::MAX,
        ));
    }
}

/// Multiplication by a place distributes over addition.
pub proof fn lemma_distribute_place(a: nat, b: nat, i: nat)
    ensures
        (a + b) * place(i) == a * place(i) + b * place(i),
{
    let p = place(i);
    assert((a + b) * p == a * p + b * p) by (nonlinear_arith);
}

/// A factor of the base raises a term by one place.
pub proof fn lemma_shift_place(a: nat, i: nat)
    ensures
        (a * base()) * place(i) == a * place(i + 1),
{
    assert(place(i + 1) == base() * place(i));
    let p = place(i);
    let b = base();
    assert((a * b) * p == a * (b * p)) by (nonlinear_arith);
}

/// One step of limbwise carry arithmetic, lifted to weighted values: if a
/// limb operation splits a quantity `t` into a limb `s` plus a carry
/// `cout`, the same holds after weighting everything by position `i`.
pub proof fn lemma_limb_step(s: u64, cout: nat, t: nat, i: nat)
    requires
        s + cout * base() == t,
    ensures
        s * place(i) + cout * place(i + 1) == t * place(i),
{
    lemma_distribute_place(s as nat, cout * base(), i);
    lemma_shift_place(cout, i);
}

/// Numbers below two places multiply to a number below the places' product.
pub proof fn lemma_prod_fits(a: nat, b: nat, i: nat, j: nat)
    requires
        a < place(i),
        b < place(j),
    ensures
        a * b < place(i + j),
{
    lemma_place_adds(i, j);
    let p = place(i);
    let q = place(j);
    assert(a * b < p * q) by (nonlinear_arith)
        requires
            0 <= a < p,
            0 <= b < q,
    ;
}

/// Extending a weighted prefix product by one limb: the new limb's
/// contribution lands at the combined position `i + j`.
pub proof fn lemma_scaled_step(v: nat, xi: u64, yj: u64, i: nat, j: nat)
    ensures
        ((v + xi * place(i)) * yj) * place(j) == (v * yj) * place(j) + (xi as nat * yj) * place(
            i + j,
        ),
{
    lemma_place_adds(i, j);
    let p = place(i);
    let q = place(j);
    assert(((v + xi * p) * yj) * q == (v * yj) * q + (xi as nat * yj) * (p * q))
        by (nonlinear_arith);
}

/// A sequence of zero limbs denotes zero.
pub proof fn lemma_value_zero(s: Seq<u64>)
    requires
        forall|k: int| 0 <= k < s.len() ==> s[k] == 0u64,
    ensures
        value(s) == 0,
    decreases s.len(),
{
    if s.len() > 0 {
        lemma_value_zero(s.drop_first());
    }
}

/// A place other than the first is a multiple of the base, so its digit in
/// the lowest position is 0; used when a carry ripples off the top.
pub proof fn lemma_place_mod_base(n: nat)
    requires
        n >= 1,
    ensures
        place(n) % base() == 0,
{
    lemma_mod_multiples_basic(place((n - 1) as nat) as int, base() as int);
}

} // verus!

//! Algebraic laws of the arithmetic engine, proved once and for all over
//! the limb model that the operations' contracts speak of.
//!
//! [`sum_limbs`]/[`sum_is_large`] and [`prod_limbs`]/[`prod_is_large`]
//! determine the result of [`Natural::add`] and [`Natural::mul`]
//! completely (limbs and shape), so a law about these spec functions is a
//! law about the operations themselves.
//!
//! [`Natural::add`]: crate::natural::Natural::add
//! [`Natural::mul`]: crate::natural::Natural::mul

use vstd::prelude::*;
use vstd::arithmetic::div_mod::{
    lemma_div_multiples_vanish, lemma_fundamental_div_mod_converse, lemma_mod_bound,
    lemma_small_mod,
};
use vstd::arithmetic::mul::lemma_mul_is_distributive_add;
use crate::limbs::{
    base, lemma_all_max_value, lemma_limbs_of_index, lemma_limbs_of_len, lemma_limbs_of_value,
    lemma_place_adds, lemma_place_mod_base, lemma_place_pos, lemma_value_bound,
    lemma_value_injective, lemma_value_limbs_of, lemma_value_singleton, limbs_of, place, value,
};
use crate::natural::{
    is_small_value, lemma_prod_fits_len, prod_is_large, prod_len, prod_limbs, sum_is_large,
    sum_len, sum_limbs, Natural,
};

verus! {

/// Addition is commutative: both the limbs and the shape of the result do
/// not depend on the order of the operands.
pub proof fn lemma_add_commutative(a: Natural, b: Natural)
    ensures
        sum_limbs(a, b) == sum_limbs(b, a),
        sum_is_large(a, b) == sum_is_large(b, a),
{
}

/// Adding the small zero returns the other operand unchanged, limbs and
/// shape included.
pub proof fn lemma_add_identity(a: Natural, z: Natural)
    requires
        a.wf(),
        is_small_value(z, 0),
    ensures
        sum_limbs(a, z) == a.limbs(),
        sum_is_large(a, z) == a.is_large(),
{
    lemma_value_singleton(0u64);
    assert(z@ == 0);
    lemma_value_bound(a.limbs());
    assert(place(1) == base() * place(0));
    assert(sum_len(a, z) == a.limbs().len());
    lemma_value_limbs_of(a.limbs());
}

/// Closure under representation switching: two small operands whose sum
/// overflows one limb produce exactly the two limbs `[sum mod base, 1]`.
pub proof fn lemma_add_small_overflow(a: Natural, b: Natural)
    requires
        a.wf(),
        b.wf(),
        !a.is_large(),
        !b.is_large(),
        a@ + b@ > u64::MAX,
    ensures
        sum_is_large(a, b),
        sum_limbs(a, b) == seq![((a@ + b@) % base()) as u64, 1u64],
{
    let v = a@ + b@;
    lemma_value_bound(a.limbs());
    lemma_value_bound(b.limbs());
    assert(place(1) == base() * place(0));
    assert(sum_len(a, b) == 2);
    lemma_limbs_of_len(v, 2);
    lemma_limbs_of_index(v, 2, 0);
    lemma_limbs_of_index(v, 2, 1);
    lemma_div_multiples_vanish(v as int, 1);
    assert(1 * v == v);
    assert(v / place(0) == v);
    lemma_mod_bound(v as int, base() as int);
    lemma_fundamental_div_mod_converse(v as int, base() as int, 1, v - base());
    lemma_small_mod(1nat, base());
    assert(sum_limbs(a, b) =~= seq![((a@ + b@) % base()) as u64, 1u64]);
}

/// Carry ripple: adding the small one to a large number whose limbs all
/// hold the maximum word grows the sequence by exactly one limb, zeroing
/// every original limb and setting the new top limb to 1.
pub proof fn lemma_add_carry_ripple(a: Natural, o: Natural)
    requires
        a.wf(),
        a.is_large(),
        is_small_value(o, 1),
        forall|i: int| 0 <= i < a.limbs().len() ==> a.limbs()[i] == u64::MAX,
    ensures
        sum_limbs(a, o).len() == a.limbs().len() + 1,
        forall|i: int| 0 <= i < a.limbs().len() ==> sum_limbs(a, o)[i] == 0u64,
        sum_limbs(a, o)[a.limbs().len() as int] == 1u64,
        sum_is_large(a, o),
{
    let n = a.limbs().len();
    let v = a@ + o@;
    lemma_value_singleton(1u64);
    assert(o@ == 1);
    assert(a.limbs() =~= Seq::new(n, |i: int| u64::MAX));
    lemma_all_max_value(n);
    assert(v == place(n));
    lemma_place_pos(n);
    assert(sum_len(a, o) == n + 1);
    lemma_limbs_of_len(v, n + 1);
    assert forall|i: int| 0 <= i < n implies sum_limbs(a, o)[i] == 0u64 by {
        lemma_limbs_of_index(v, n + 1, i);
        lemma_place_adds(i as nat, (n - i) as nat);
        lemma_place_pos(i as nat);
        lemma_div_multiples_vanish(place((n - i) as nat) as int, place(i as nat) as int);
        assert(v / place(i as nat) == place((n - i) as nat));
        lemma_place_mod_base((n - i) as nat);
    }
    lemma_limbs_of_index(v, n + 1, n as int);
    lemma_div_multiples_vanish(1, place(n) as int);
    assert(place(n) * 1 == place(n));
    assert(v / place(n) == 1);
    lemma_small_mod(1nat, base());
}

/// Multiplication is commutative: both the limbs and the shape of the
/// result do not depend on the order of the operands.
pub proof fn lemma_mul_commutative(a: Natural, b: Natural)
    ensures
        prod_limbs(a, b) == prod_limbs(b, a),
        prod_is_large(a, b) == prod_is_large(b, a),
{
    assert(a@ * b@ == b@ * a@) by (nonlinear_arith);
}

/// Swap-reduction symmetry: a small times a large operand gives the same
/// result as the large times the small one.
pub proof fn lemma_mul_swap_reduction(s: Natural, l: Natural)
    requires
        !s.is_large(),
        l.is_large(),
    ensures
        prod_limbs(s, l) == prod_limbs(l, s),
        prod_is_large(s, l) == prod_is_large(l, s),
{
    lemma_mul_commutative(s, l);
}

/// Multiplying by the small one returns the other operand unchanged,
/// limbs and shape included.
pub proof fn lemma_mul_identity(a: Natural, o: Natural)
    requires
        a.wf(),
        is_small_value(o, 1),
    ensures
        prod_limbs(a, o) == a.limbs(),
        prod_is_large(a, o) == a.is_large(),
{
    lemma_value_singleton(1u64);
    assert(o@ == 1);
    assert(a@ * o@ == a@) by (nonlinear_arith)
        requires
            o@ == 1,
    ;
    assert(prod_len(a, o) == a.limbs().len());
    lemma_value_limbs_of(a.limbs());
}

/// Multiplying by the small zero gives the small zero, whatever the other
/// operand is.
pub proof fn lemma_mul_absorbing(a: Natural, z: Natural)
    requires
        a.wf(),
        is_small_value(z, 0),
    ensures
        prod_limbs(a, z) == seq![0u64],
        !prod_is_large(a, z),
{
    lemma_value_singleton(0u64);
    assert(z@ == 0);
    assert(a@ * z@ == 0) by (nonlinear_arith)
        requires
            z@ == 0,
    ;
    assert(prod_len(a, z) == 1);
    lemma_place_pos(1);
    lemma_limbs_of_len(0, 1);
    lemma_limbs_of_value(0, 1);
    lemma_value_injective(seq![0u64], limbs_of(0, 1));
}

/// The sum, over the second operand's limbs, of the first operand times
/// that limb, each shifted to the limb's position.
pub open spec fn shifted_products(x: nat, y: Seq<u64>) -> nat
    decreases y.len(),
{
    if y.len() == 0 {
        0
    } else {
        x * (y[0] as nat) + base() * shifted_products(x, y.drop_first())
    }
}

/// The sum of the shifted partial products is the full product.
pub proof fn lemma_shifted_products_value(x: nat, y: Seq<u64>)
    ensures
        shifted_products(x, y) == x * value(y),
    decreases y.len(),
{
    if y.len() == 0 {
        assert(x * value(y) == 0) by (nonlinear_arith)
            requires
                value(y) == 0,
        ;
    } else {
        lemma_shifted_products_value(x, y.drop_first());
        lemma_mul_is_distributive_add(
            x as int,
            y[0] as int,
            (base() * value(y.drop_first())) as int,
        );
        assert(x * (base() * value(y.drop_first())) == base() * (x * value(y.drop_first())))
            by (nonlinear_arith);
    }
}

/// Long multiplication correctness: for two large operands the product's
/// value is the sum over `j` of `a` times limb `j` of `b`, shifted left by
/// `j` limb positions.
pub proof fn lemma_mul_partial_products(a: Natural, b: Natural)
    requires
        a.wf(),
        b.wf(),
        a.is_large(),
        b.is_large(),
    ensures
        value(prod_limbs(a, b)) == shifted_products(a@, b.limbs()),
{
    lemma_prod_fits_len(a, b);
    lemma_limbs_of_value(a@ * b@, prod_len(a, b));
    lemma_shifted_products_value(a@, b.limbs());
}

} // verus!

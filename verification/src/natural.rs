//! An arbitrary-precision nonnegative integer with a small/large
//! representation split.

use vstd::prelude::*;
use vstd::arithmetic::div_mod::{lemma_fundamental_div_mod, lemma_mod_bound};
use vstd::arithmetic::mul::{
    lemma_mul_is_distributive_add, lemma_mul_is_distributive_add_other_way,
};
use vstd::slice::slice_to_vec;
use crate::limbs::{
    base, lemma_distribute_place, lemma_limb_step, lemma_limbs_of_len, lemma_limbs_of_value,
    lemma_place_pos, lemma_prod_fits, lemma_scaled_step, lemma_value_append, lemma_value_bound,
    lemma_value_injective, lemma_value_singleton, lemma_value_split, lemma_value_take_succ,
    lemma_value_zero, limbs_of, place, value,
};

verus! {

/// An arbitrary-precision nonnegative integer.
///
/// A number that fits in one machine word is stored inline
/// ([`Repr::Small`]); anything bigger is stored as a heap-allocated
/// little-endian sequence of at least two limbs ([`Repr::Large`]).
#[derive(Debug, Clone)]
pub struct Natural(pub Repr);

/// The storage shape behind a [`Natural`].
#[derive(Debug, Clone)]
pub enum Repr {
    /// A natural number which fits within a single limb.
    Small(u64),
    /// A natural number spread over two or more limbs, stored in
    /// little-endian order: the limb at index `i` carries weight
    /// `base()` to the power `i`.
    Large(Vec<u64>),
}

impl Natural {
    /// The limb sequence of this number, least significant limb first.
    /// A small number is the one-limb sequence of its word.
    pub open spec fn limbs(self) -> Seq<u64> {
        match self.0 {
            Repr::Small(x) => seq![x],
            Repr::Large(v) => v@,
        }
    }

    /// Whether this number is in the large (heap-allocated) shape.
    pub open spec fn is_large(self) -> bool {
        self.0 is Large
    }

    /// Well-formed: the large shape always carries at least two limbs, so
    /// the two shapes never overlap on limb count.
    pub open spec fn wf(self) -> bool {
        self.is_large() ==> self.limbs().len() >= 2
    }
}

impl View for Natural {
    type V = nat;

    /// The number this value stands for.
    open spec fn view(&self) -> nat {
        value(self.limbs())
    }
}

/// The number of limbs that addition produces: the longer operand's count,
/// plus one when a carry leaves its top limb.
pub open spec fn sum_len(a: Natural, b: Natural) -> nat {
    let m = if a.limbs().len() >= b.limbs().len() {
        a.limbs().len()
    } else {
        b.limbs().len()
    };
    if a@ + b@ >= place(m) {
        m + 1
    } else {
        m
    }
}

/// The exact limb sequence that addition produces.
pub open spec fn sum_limbs(a: Natural, b: Natural) -> Seq<u64> {
    limbs_of(a@ + b@, sum_len(a, b))
}

/// Whether addition produces the large shape: it does exactly when an
/// operand already is large or the sum no longer fits in one limb.
pub open spec fn sum_is_large(a: Natural, b: Natural) -> bool {
    a.is_large() || b.is_large() || a@ + b@ > u64::MAX
}

/// A limb sequence with the sum's value and the sum's length is the sum's
/// limb sequence: length and value pin the limbs down.
proof fn lemma_sum_limbs_characterization(a: Natural, b: Natural, s: Seq<u64>)
    requires
        value(s) == a@ + b@,
        s.len() == sum_len(a, b),
    ensures
        s == sum_limbs(a, b),
{
    let v = a@ + b@;
    let n = sum_len(a, b);
    lemma_value_bound(s);
    lemma_limbs_of_len(v, n);
    lemma_limbs_of_value(v, n);
    lemma_value_injective(s, limbs_of(v, n));
}

/// True when `n` is stored small and holds exactly the word `c`.
pub open spec fn is_small_value(n: Natural, c: u64) -> bool {
    n.0 == Repr::Small(c)
}

/// The number of limbs that multiplication produces, following the same
/// case split the algorithm makes: fast paths for 0 and 1, a widening
/// multiply for two small operands, a scalar pass over a large operand,
/// and a full `len(a) + len(b)` buffer for two large operands.
pub open spec fn prod_len(a: Natural, b: Natural) -> nat {
    if is_small_value(a, 0) || is_small_value(b, 0) {
        1
    } else if is_small_value(a, 1) {
        b.limbs().len()
    } else if is_small_value(b, 1) {
        a.limbs().len()
    } else if !a.is_large() && !b.is_large() {
        if a@ * b@ > u64::MAX {
            2
        } else {
            1
        }
    } else if !a.is_large() {
        if a@ * b@ >= place(b.limbs().len()) {
            b.limbs().len() + 1
        } else {
            b.limbs().len()
        }
    } else if !b.is_large() {
        if a@ * b@ >= place(a.limbs().len()) {
            a.limbs().len() + 1
        } else {
            a.limbs().len()
        }
    } else {
        a.limbs().len() + b.limbs().len()
    }
}

/// The exact limb sequence that multiplication produces.
pub open spec fn prod_limbs(a: Natural, b: Natural) -> Seq<u64> {
    limbs_of(a@ * b@, prod_len(a, b))
}

/// Whether multiplication produces the large shape: never when an operand
/// is the small 0; for the small 1 the other operand is kept as it is; two
/// small operands grow exactly when the product no longer fits in one
/// limb; a large operand always stays large.
pub open spec fn prod_is_large(a: Natural, b: Natural) -> bool {
    if is_small_value(a, 0) || is_small_value(b, 0) {
        false
    } else if is_small_value(a, 1) {
        b.is_large()
    } else if is_small_value(b, 1) {
        a.is_large()
    } else if !a.is_large() && !b.is_large() {
        a@ * b@ > u64::MAX
    } else {
        true
    }
}

/// The product fits in the limb count that the case split chooses.
pub proof fn lemma_prod_fits_len(a: Natural, b: Natural)
    requires
        a.wf(),
        b.wf(),
    ensures
        a@ * b@ < place(prod_len(a, b)),
{
    lemma_value_bound(a.limbs());
    lemma_value_bound(b.limbs());
    assert(place(1) == base() * place(0));
    if is_small_value(a, 0) {
        lemma_value_singleton(0u64);
        assert(a@ == 0);
        assert(a@ * b@ == 0) by (nonlinear_arith)
            requires
                a@ == 0,
        ;
    } else if is_small_value(b, 0) {
        lemma_value_singleton(0u64);
        assert(b@ == 0);
        assert(a@ * b@ == 0) by (nonlinear_arith)
            requires
                b@ == 0,
        ;
    } else if is_small_value(a, 1) {
        lemma_value_singleton(1u64);
        assert(a@ == 1);
        assert(a@ * b@ == b@) by (nonlinear_arith)
            requires
                a@ == 1,
        ;
    } else if is_small_value(b, 1) {
        lemma_value_singleton(1u64);
        assert(b@ == 1);
        assert(a@ * b@ == a@) by (nonlinear_arith)
            requires
                b@ == 1,
        ;
    } else if !a.is_large() && !b.is_large() {
        if a@ * b@ > u64::MAX {
            lemma_prod_fits(a@, b@, 1, 1);
            assert(place(2) == base() * place(1));
        }
    } else if !a.is_large() {
        if a@ * b@ >= place(b.limbs().len()) {
            lemma_prod_fits(a@, b@, 1, b.limbs().len());
        }
    } else if !b.is_large() {
        if a@ * b@ >= place(a.limbs().len()) {
            lemma_prod_fits(a@, b@, a.limbs().len(), 1);
        }
    } else {
        lemma_prod_fits(a@, b@, a.limbs().len(), b.limbs().len());
    }
}

/// A limb sequence with the product's value and the product's length is
/// the product's limb sequence.
proof fn lemma_prod_limbs_characterization(a: Natural, b: Natural, s: Seq<u64>)
    requires
        a.wf(),
        b.wf(),
        value(s) == a@ * b@,
        s.len() == prod_len(a, b),
    ensures
        s == prod_limbs(a, b),
{
    let v = a@ * b@;
    let n = prod_len(a, b);
    lemma_prod_fits_len(a, b);
    lemma_limbs_of_len(v, n);
    lemma_limbs_of_value(v, n);
    lemma_value_injective(s, limbs_of(v, n));
}

/// Adds two limbs and a carry bit; returns the low limb of the sum and the
/// carry out.  The carry out can never exceed one.
fn add_with_carry(x: u64, y: u64, carry: bool) -> (r: (u64, bool))
    ensures
        r.0 as nat + (if r.1 {
            base()
        } else {
            0nat
        }) == x as nat + y as nat + (if carry {
            1nat
        } else {
            0nat
        }),
{
    let s: u128 = x as u128 + y as u128 + (if carry {
        1u128
    } else {
        0u128
    });
    let lo: u64 = (s % 0x1_0000_0000_0000_0000u128) as u64;
    let hi: bool = s >= 0x1_0000_0000_0000_0000u128;
    proof {
        lemma_fundamental_div_mod(s as int, base() as int);
        lemma_mod_bound(s as int, base() as int);
    }
    (lo, hi)
}

/// Adds `carry` at limb position `start` into `x`, rippling the carry
/// upward limb by limb and appending a final limb holding 1 if the carry
/// leaves the top.
fn ripple_carry(x: Vec<u64>, start: usize, carry: bool) -> (r: Vec<u64>)
    requires
        start <= x@.len(),
    ensures
        value(r@) == value(x@) + (if carry {
            place(start as nat)
        } else {
            0nat
        }),
        r@.len() == (if value(x@) + (if carry {
            place(start as nat)
        } else {
            0nat
        }) >= place(x@.len()) {
            x@.len() + 1nat
        } else {
            x@.len()
        }),
{
    let mut x = x;
    let ghost orig = x@;
    let ghost cin: nat = if carry {
        1nat
    } else {
        0nat
    };
    let n = x.len();
    let mut carry = carry;
    let mut i = start;
    while carry && i < n
        invariant
            x@.len() == n,
            orig.len() == n,
            start <= i <= n,
            forall|k: int| i <= k < n ==> x@[k] == orig[k],
            value(x@.take(i as int)) + (if carry {
                place(i as nat)
            } else {
                0nat
            }) == value(orig.take(i as int)) + cin * place(start as nat),
        decreases n - i,
    {
        let ghost prev = x@;
        let xi = x[i];
        let (s, c) = add_with_carry(xi, 1, false);
        x.set(i, s);
        proof {
            let cn: nat = if c {
                1nat
            } else {
                0nat
            };
            assert(x@.take(i as int) =~= prev.take(i as int));
            lemma_value_take_succ(x@, i as int);
            lemma_value_take_succ(orig, i as int);
            lemma_limb_step(s, cn, xi as nat + 1, i as nat);
            lemma_distribute_place(xi as nat, 1nat, i as nat);
        }
        carry = c;
        i = i + 1;
    }
    if carry {
        let ghost before = x@;
        x.push(1);
        proof {
            assert(i == n);
            assert(before.take(i as int) =~= before);
            assert(orig.take(i as int) =~= orig);
            assert(value(before) + place(n as nat) == value(orig) + cin * place(start as nat));
            assert(x@ =~= before + seq![1u64]);
            lemma_value_append(before, seq![1u64]);
            lemma_value_singleton(1u64);
            assert(value(x@) == value(before) + place(n as nat) * 1);
            assert(value(x@) == value(orig) + cin * place(start as nat));
        }
    } else {
        proof {
            lemma_value_split(x@, i as int);
            lemma_value_split(orig, i as int);
            assert(x@.skip(i as int) =~= orig.skip(i as int));
            lemma_value_bound(x@);
        }
    }
    x
}

/// Adds a single limb into the bottom of a limb vector, rippling the carry.
fn add_into_limbs(x: Vec<u64>, y: u64) -> (r: Vec<u64>)
    requires
        x@.len() >= 1,
    ensures
        value(r@) == value(x@) + y,
        r@.len() == (if value(x@) + y >= place(x@.len()) {
            x@.len() + 1nat
        } else {
            x@.len()
        }),
{
    let mut x = x;
    let ghost orig = x@;
    let x0 = x[0];
    let (s, c) = add_with_carry(x0, y, false);
    x.set(0, s);
    proof {
        lemma_value_split(x@, 1);
        lemma_value_split(orig, 1);
        assert(x@.skip(1) =~= orig.skip(1));
        assert(x@.take(1) =~= seq![s]);
        assert(orig.take(1) =~= seq![x0]);
        lemma_value_singleton(s);
        lemma_value_singleton(x0);
        assert(place(1) == base() * place(0));
    }
    ripple_carry(x, 1, c)
}

/// Adds two limb vectors, the second no longer than the first: a carrying
/// add across the shared prefix, then a ripple through the rest.
fn add_vec_limbs(x: Vec<u64>, y: Vec<u64>) -> (r: Vec<u64>)
    requires
        y@.len() <= x@.len(),
    ensures
        value(r@) == value(x@) + value(y@),
        r@.len() == (if value(x@) + value(y@) >= place(x@.len()) {
            x@.len() + 1nat
        } else {
            x@.len()
        }),
{
    let mut x = x;
    let ghost orig = x@;
    let n = x.len();
    let m = y.len();
    let mut carry = false;
    let mut i: usize = 0;
    while i < m
        invariant
            x@.len() == n,
            orig.len() == n,
            y@.len() == m,
            m <= n,
            i <= m,
            forall|k: int| i <= k < n ==> x@[k] == orig[k],
            value(x@.take(i as int)) + (if carry {
                place(i as nat)
            } else {
                0nat
            }) == value(orig.take(i as int)) + value(y@.take(i as int)),
        decreases m - i,
    {
        let ghost prev = x@;
        let ghost cold: nat = if carry {
            1nat
        } else {
            0nat
        };
        let xi = x[i];
        let yi = y[i];
        let (s, c) = add_with_carry(xi, yi, carry);
        x.set(i, s);
        proof {
            let cn: nat = if c {
                1nat
            } else {
                0nat
            };
            assert(x@.take(i as int) =~= prev.take(i as int));
            lemma_value_take_succ(x@, i as int);
            lemma_value_take_succ(orig, i as int);
            lemma_value_take_succ(y@, i as int);
            lemma_limb_step(s, cn, xi as nat + yi as nat + cold, i as nat);
            lemma_distribute_place(xi as nat, yi as nat + cold, i as nat);
            lemma_distribute_place(yi as nat, cold, i as nat);
        }
        carry = c;
        i = i + 1;
    }
    proof {
        assert(y@.take(m as int) =~= y@);
        lemma_value_split(x@, m as int);
        lemma_value_split(orig, m as int);
        assert(x@.skip(m as int) =~= orig.skip(m as int));
    }
    ripple_carry(x, m, carry)
}

/// One step of long multiplication: multiplies two limbs and adds two more
/// limbs into the double-width result, which cannot overflow it; returns
/// the low and high limbs.
fn mul_add_limbs(x: u64, y: u64, a: u64, c: u64) -> (r: (u64, u64))
    ensures
        r.0 as nat + base() * (r.1 as nat) == x as nat * (y as nat) + a + c,
{
    proof {
        assert((x as nat) * (y as nat) <= 0xFFFF_FFFF_FFFF_FFFFnat * 0xFFFF_FFFF_FFFF_FFFFnat)
            by (nonlinear_arith)
            requires
                x as nat <= 0xFFFF_FFFF_FFFF_FFFFnat,
                y as nat <= 0xFFFF_FFFF_FFFF_FFFFnat,
        ;
    }
    let p: u128 = (x as u128) * (y as u128) + (a as u128) + (c as u128);
    let lo: u64 = (p % 0x1_0000_0000_0000_0000u128) as u64;
    let hi: u64 = (p / 0x1_0000_0000_0000_0000u128) as u64;
    proof {
        lemma_fundamental_div_mod(p as int, base() as int);
        lemma_mod_bound(p as int, base() as int);
    }
    (lo, hi)
}

/// A vector of `n` zero limbs.
fn zero_vec(n: usize) -> (r: Vec<u64>)
    ensures
        r@.len() == n,
        forall|k: int| 0 <= k < n ==> r@[k] == 0u64,
{
    let mut v: Vec<u64> = Vec::new();
    let mut i: usize = 0;
    while i < n
        invariant
            v@.len() == i,
            i <= n,
            forall|k: int| 0 <= k < i ==> v@[k] == 0u64,
        decreases n - i,
    {
        v.push(0);
        i = i + 1;
    }
    v
}

/// Multiplies a limb vector by a single limb in place, appending the final
/// carry as a new top limb when it is nonzero.
fn mul_limbs_by_limb(x: Vec<u64>, y: u64) -> (r: Vec<u64>)
    requires
        x@.len() >= 1,
    ensures
        value(r@) == value(x@) * y,
        r@.len() == (if value(x@) * y >= place(x@.len()) {
            x@.len() + 1nat
        } else {
            x@.len()
        }),
{
    let mut x = x;
    let ghost orig = x@;
    let n = x.len();
    let mut carry: u64 = 0;
    let mut i: usize = 0;
    proof {
        assert(orig.take(0) =~= Seq::<u64>::empty());
        assert(value(orig.take(0)) * (y as nat) == 0) by (nonlinear_arith)
            requires
                value(orig.take(0)) == 0,
        ;
    }
    while i < n
        invariant
            x@.len() == n,
            orig.len() == n,
            i <= n,
            forall|k: int| i <= k < n ==> x@[k] == orig[k],
            value(x@.take(i as int)) + (carry as nat) * place(i as nat) == value(
                orig.take(i as int),
            ) * y,
        decreases n - i,
    {
        let ghost prev = x@;
        let ghost cold = carry;
        let xi = x[i];
        let (lo, hi) = mul_add_limbs(xi, y, carry, 0);
        x.set(i, lo);
        carry = hi;
        proof {
            assert(x@.take(i as int) =~= prev.take(i as int));
            lemma_value_take_succ(x@, i as int);
            lemma_value_take_succ(orig, i as int);
            lemma_limb_step(lo, hi as nat, xi as nat * (y as nat) + cold as nat, i as nat);
            lemma_distribute_place(xi as nat * (y as nat), cold as nat, i as nat);
            lemma_mul_is_distributive_add_other_way(
                y as int,
                value(orig.take(i as int)) as int,
                (xi as nat * place(i as nat)) as int,
            );
            assert((xi as nat * place(i as nat)) * y == (xi as nat * (y as nat)) * place(i as nat))
                by (nonlinear_arith);
        }
        i = i + 1;
    }
    proof {
        assert(x@.take(n as int) =~= x@);
        assert(orig.take(n as int) =~= orig);
    }
    if carry > 0 {
        let ghost before = x@;
        x.push(carry);
        proof {
            assert(x@ =~= before + seq![x@[n as int]]);
            lemma_value_append(before, seq![x@[n as int]]);
            lemma_value_singleton(x@[n as int]);
            lemma_place_pos(n as nat);
            assert((carry as nat) * place(n as nat) >= place(n as nat)) by (nonlinear_arith)
                requires
                    carry >= 1,
                    place(n as nat) >= 0,
            ;
            assert(x@[n as int] == carry);
            assert(value(x@) == value(before) + place(n as nat) * (carry as nat));
            assert(place(n as nat) * (carry as nat) == (carry as nat) * place(n as nat))
                by (nonlinear_arith);
            assert(value(before) + (carry as nat) * place(n as nat) == value(orig) * y);
            assert(value(x@) == value(orig) * y);
        }
    } else {
        proof {
            lemma_value_bound(x@);
        }
    }
    x
}

/// Schoolbook long multiplication of two limb vectors into a fresh buffer
/// of exactly `len(x) + len(y)` limbs.
fn mul_vec_limbs(x: &Vec<u64>, y: &Vec<u64>) -> (r: Vec<u64>)
    requires
        x@.len() >= 1,
        y@.len() >= 1,
        x@.len() + y@.len() <= usize::MAX,
    ensures
        value(r@) == value(x@) * value(y@),
        r@.len() == x@.len() + y@.len(),
{
    let n = x.len();
    let m = y.len();
    let mut acc = zero_vec(n + m);
    proof {
        lemma_value_zero(acc@);
        assert(y@.take(0) =~= Seq::<u64>::empty());
        assert(value(x@) * value(y@.take(0)) == 0) by (nonlinear_arith)
            requires
                value(y@.take(0)) == 0,
        ;
    }
    let mut j: usize = 0;
    while j < m
        invariant
            acc@.len() == n + m,
            x@.len() == n,
            y@.len() == m,
            j <= m,
            n >= 1,
            n + m <= usize::MAX,
            value(acc@) == value(x@) * value(y@.take(j as int)),
            forall|k: int| j + n <= k < n + m ==> acc@[k] == 0u64,
        decreases m - j,
    {
        let yj = y[j];
        let ghost accj = acc@;
        let mut carry: u64 = 0;
        let mut i: usize = 0;
        proof {
            assert(x@.take(0) =~= Seq::<u64>::empty());
            assert(acc@.take(j as int) =~= accj.take(j as int));
            assert((value(x@.take(0)) * yj) * place(j as nat) == 0) by (nonlinear_arith)
                requires
                    value(x@.take(0)) == 0,
            ;
        }
        while i < n
            invariant
                acc@.len() == n + m,
                x@.len() == n,
                y@.len() == m,
                accj.len() == n + m,
                i <= n,
                j < m,
                n + m <= usize::MAX,
                yj == y@[j as int],
                forall|k: int| i + j <= k < n + m ==> acc@[k] == accj[k],
                forall|k: int| j + n <= k < n + m ==> accj[k] == 0u64,
                value(acc@.take((i + j) as int)) + (carry as nat) * place((i + j) as nat) == value(
                    accj.take((i + j) as int),
                ) + (value(x@.take(i as int)) * yj) * place(j as nat),
            decreases n - i,
        {
            let ghost prev = acc@;
            let ghost cold = carry;
            let xi = x[i];
            let aij = acc[i + j];
            let (lo, hi) = mul_add_limbs(xi, yj, aij, carry);
            acc.set(i + j, lo);
            carry = hi;
            proof {
                assert(aij == accj[(i + j) as int]);
                assert(acc@.take((i + j) as int) =~= prev.take((i + j) as int));
                lemma_value_take_succ(acc@, (i + j) as int);
                lemma_value_take_succ(accj, (i + j) as int);
                lemma_value_take_succ(x@, i as int);
                lemma_limb_step(
                    lo,
                    hi as nat,
                    xi as nat * (yj as nat) + aij as nat + cold as nat,
                    (i + j) as nat,
                );
                lemma_distribute_place(
                    xi as nat * (yj as nat) + aij as nat,
                    cold as nat,
                    (i + j) as nat,
                );
                lemma_distribute_place(xi as nat * (yj as nat), aij as nat, (i + j) as nat);
                lemma_scaled_step(value(x@.take(i as int)), xi, yj, i as nat, j as nat);
            }
            i = i + 1;
        }
        let ghost prev = acc@;
        proof {
            assert(acc@[(n + j) as int] == accj[(n + j) as int]);
            assert(accj[(n + j) as int] == 0u64);
        }
        acc.set(n + j, carry);
        proof {
            let nj = (n + j) as int;
            assert(acc@.take(nj) =~= prev.take(nj));
            assert(x@.take(n as int) =~= x@);
            lemma_value_take_succ(acc@, nj);
            assert(acc@[nj] == carry);
            assert(value(acc@.take(nj + 1)) == value(accj.take(nj)) + (value(x@) * yj) * place(
                j as nat,
            ));
            assert forall|k: int| nj < k < n + m implies acc@[k] == 0u64 by {
                assert(acc@[k] == prev[k]);
                assert(prev[k] == accj[k]);
            }
            lemma_value_split(accj, nj);
            assert forall|k: int|
                0 <= k < accj.skip(nj).len() implies #[trigger] accj.skip(nj)[k] == 0u64 by {
                assert(accj.skip(nj)[k] == accj[nj + k]);
            }
            lemma_value_zero(accj.skip(nj));
            assert(place(nj as nat) * value(accj.skip(nj)) == 0) by (nonlinear_arith)
                requires
                    value(accj.skip(nj)) == 0,
            ;
            assert(value(accj) == value(accj.take(nj)));
            lemma_value_split(acc@, nj + 1);
            assert forall|k: int|
                0 <= k < acc@.skip(nj + 1).len() implies #[trigger] acc@.skip(nj + 1)[k]
                    == 0u64 by {
                assert(acc@.skip(nj + 1)[k] == acc@[nj + 1 + k]);
            }
            lemma_value_zero(acc@.skip(nj + 1));
            assert(place((nj + 1) as nat) * value(acc@.skip(nj + 1)) == 0) by (nonlinear_arith)
                requires
                    value(acc@.skip(nj + 1)) == 0,
            ;
            assert(value(acc@) == value(acc@.take(nj + 1)));
            lemma_value_take_succ(y@, j as int);
            lemma_mul_is_distributive_add(
                value(x@) as int,
                value(y@.take(j as int)) as int,
                (yj as nat * place(j as nat)) as int,
            );
            assert((value(x@) * (yj as nat)) * place(j as nat) == value(x@) * (yj as nat * place(
                j as nat,
            ))) by (nonlinear_arith);
            assert(value(acc@) == value(x@) * value(y@.take(j as int + 1)));
            assert(forall|k: int| (j + 1) + n <= k < n + m ==> acc@[k] == 0u64);
        }
        j = j + 1;
    }
    proof {
        assert(y@.take(m as int) =~= y@);
    }
    acc
}

impl Natural {
    /// The natural number 0, in the small shape.
    pub open spec fn zero_spec() -> Natural {
        Natural(Repr::Small(0))
    }

    /// The natural number 0.
    #[verifier::when_used_as_spec(zero_spec)]
    pub fn zero() -> (r: Natural)
        ensures
            r == Natural::zero_spec(),
    {
        Natural(Repr::Small(0))
    }

    /// The natural number 1, in the small shape.
    pub open spec fn one_spec() -> Natural {
        Natural(Repr::Small(1))
    }

    /// The natural number 1.
    #[verifier::when_used_as_spec(one_spec)]
    pub fn one() -> (r: Natural)
        ensures
            r == Natural::one_spec(),
    {
        Natural(Repr::Small(1))
    }

    /// Builds a natural number from an explicit little-endian limb
    /// sequence, choosing the small shape whenever at most one limb is
    /// given.
    pub fn from_limbs(limbs: &[u64]) -> (r: Natural)
        ensures
            r.wf(),
            r.limbs() == (if limbs@.len() == 0 {
                seq![0u64]
            } else {
                limbs@
            }),
            r.is_large() == (limbs@.len() >= 2),
            r@ == value(limbs@),
    {
        if limbs.len() == 0 {
            proof {
                lemma_value_singleton(0u64);
            }
            Natural(Repr::Small(0))
        } else if limbs.len() == 1 {
            let r = Natural(Repr::Small(limbs[0]));
            proof {
                assert(limbs@ =~= seq![limbs@[0]]);
                lemma_value_singleton(limbs@[0]);
            }
            r
        } else {
            Natural(Repr::Large(slice_to_vec(limbs)))
        }
    }

    /// Adds two natural numbers, consuming both; one operand's storage is
    /// reused for the result whenever it is already heap-allocated.
    pub fn add(self, other: Natural) -> (r: Natural)
        requires
            self.wf(),
            other.wf(),
        ensures
            r.wf(),
            r@ == self@ + other@,
            r.limbs() == sum_limbs(self, other),
            r.is_large() == sum_is_large(self, other),
    {
        let ghost ga = self;
        let ghost gb = other;
        match (self.0, other.0) {
            (Repr::Small(x), Repr::Small(y)) => {
                let (s, c) = add_with_carry(x, y, false);
                proof {
                    lemma_value_singleton(x);
                    lemma_value_singleton(y);
                    assert(place(1) == base() * place(0));
                }
                if c {
                    let mut v: Vec<u64> = Vec::new();
                    v.push(s);
                    v.push(1);
                    let r = Natural(Repr::Large(v));
                    proof {
                        assert(r.limbs() =~= seq![s] + seq![1u64]);
                        lemma_value_append(seq![s], seq![1u64]);
                        lemma_value_singleton(s);
                        lemma_value_singleton(1u64);
                        lemma_sum_limbs_characterization(ga, gb, r.limbs());
                    }
                    r
                } else {
                    let r = Natural(Repr::Small(s));
                    proof {
                        lemma_value_singleton(s);
                        lemma_sum_limbs_characterization(ga, gb, r.limbs());
                    }
                    r
                }
            },
            (Repr::Small(x), Repr::Large(v)) => {
                proof {
                    lemma_value_singleton(x);
                }
                let r = Natural(Repr::Large(add_into_limbs(v, x)));
                proof {
                    lemma_sum_limbs_characterization(ga, gb, r.limbs());
                }
                r
            },
            (Repr::Large(v), Repr::Small(y)) => {
                proof {
                    lemma_value_singleton(y);
                }
                let r = Natural(Repr::Large(add_into_limbs(v, y)));
                proof {
                    lemma_sum_limbs_characterization(ga, gb, r.limbs());
                }
                r
            },
            (Repr::Large(u), Repr::Large(w)) => {
                let rv = if u.len() < w.len() {
                    add_vec_limbs(w, u)
                } else {
                    add_vec_limbs(u, w)
                };
                let r = Natural(Repr::Large(rv));
                proof {
                    lemma_sum_limbs_characterization(ga, gb, r.limbs());
                }
                r
            },
        }
    }

    /// Compound-assignment form of [`Natural::add`].
    pub fn add_assign(&mut self, other: Natural)
        requires
            old(self).wf(),
            other.wf(),
        ensures
            final(self).wf(),
            final(self)@ == old(self)@ + other@,
            final(self).limbs() == sum_limbs(*old(self), other),
            final(self).is_large() == sum_is_large(*old(self), other),
    {
        let mut tmp = Natural(Repr::Small(0));
        core::mem::swap(&mut tmp, self);
        *self = tmp.add(other);
    }

    /// True at run time exactly when this number is the small shape
    /// holding the word `c`.
    fn is_small_const(&self, c: u64) -> (r: bool)
        ensures
            r == is_small_value(*self, c),
    {
        match &self.0 {
            Repr::Small(x) => *x == c,
            Repr::Large(_) => false,
        }
    }

    /// Multiplies two natural numbers, consuming both.  The limb-count
    /// bound is a machine limit: the product of two large operands needs a
    /// buffer of `len(a) + len(b)` limbs.
    pub fn mul(self, other: Natural) -> (r: Natural)
        requires
            self.wf(),
            other.wf(),
            self.limbs().len() + other.limbs().len() <= usize::MAX,
        ensures
            r.wf(),
            r@ == self@ * other@,
            r.limbs() == prod_limbs(self, other),
            r.is_large() == prod_is_large(self, other),
    {
        let ghost ga = self;
        let ghost gb = other;
        if self.is_small_const(0) {
            proof {
                lemma_value_singleton(0u64);
                assert(ga@ * gb@ == 0) by (nonlinear_arith)
                    requires
                        ga@ == 0,
                ;
                lemma_prod_limbs_characterization(ga, gb, self.limbs());
            }
            self
        } else if other.is_small_const(0) {
            proof {
                lemma_value_singleton(0u64);
                assert(ga@ * gb@ == 0) by (nonlinear_arith)
                    requires
                        gb@ == 0,
                ;
                lemma_prod_limbs_characterization(ga, gb, other.limbs());
            }
            other
        } else if self.is_small_const(1) {
            proof {
                lemma_value_singleton(1u64);
                assert(ga@ * gb@ == gb@) by (nonlinear_arith)
                    requires
                        ga@ == 1,
                ;
                lemma_prod_limbs_characterization(ga, gb, other.limbs());
            }
            other
        } else if other.is_small_const(1) {
            proof {
                lemma_value_singleton(1u64);
                assert(ga@ * gb@ == ga@) by (nonlinear_arith)
                    requires
                        gb@ == 1,
                ;
                lemma_prod_limbs_characterization(ga, gb, self.limbs());
            }
            self
        } else {
            match (self.0, other.0) {
                (Repr::Small(x), Repr::Small(y)) => {
                    let (lo, hi) = mul_add_limbs(x, y, 0, 0);
                    proof {
                        lemma_value_singleton(x);
                        lemma_value_singleton(y);
                        assert(place(1) == base() * place(0));
                    }
                    if hi == 0 {
                        let r = Natural(Repr::Small(lo));
                        proof {
                            lemma_value_singleton(lo);
                            lemma_prod_limbs_characterization(ga, gb, r.limbs());
                        }
                        r
                    } else {
                        let mut v: Vec<u64> = Vec::new();
                        v.push(lo);
                        v.push(hi);
                        let r = Natural(Repr::Large(v));
                        proof {
                            assert(r.limbs() =~= seq![lo] + seq![hi]);
                            lemma_value_append(seq![lo], seq![hi]);
                            lemma_value_singleton(lo);
                            lemma_value_singleton(hi);
                            lemma_prod_limbs_characterization(ga, gb, r.limbs());
                        }
                        r
                    }
                },
                (Repr::Small(x), Repr::Large(v)) => {
                    proof {
                        lemma_value_singleton(x);
                    }
                    let r = Natural(Repr::Large(mul_limbs_by_limb(v, x)));
                    proof {
                        assert(value(v@) * (x as nat) == ga@ * gb@) by (nonlinear_arith)
                            requires
                                ga@ == x as nat,
                                gb@ == value(v@),
                        ;
                        lemma_prod_limbs_characterization(ga, gb, r.limbs());
                    }
                    r
                },
                (Repr::Large(v), Repr::Small(y)) => {
                    proof {
                        lemma_value_singleton(y);
                    }
                    let r = Natural(Repr::Large(mul_limbs_by_limb(v, y)));
                    proof {
                        assert(value(v@) * (y as nat) == ga@ * gb@) by (nonlinear_arith)
                            requires
                                gb@ == y as nat,
                                ga@ == value(v@),
                        ;
                        lemma_prod_limbs_characterization(ga, gb, r.limbs());
                    }
                    r
                },
                (Repr::Large(u), Repr::Large(w)) => {
                    let rv = mul_vec_limbs(&u, &w);
                    let r = Natural(Repr::Large(rv));
                    proof {
                        lemma_prod_limbs_characterization(ga, gb, r.limbs());
                    }
                    r
                },
            }
        }
    }

    /// Compound-assignment form of [`Natural::mul`].
    pub fn mul_assign(&mut self, other: Natural)
        requires
            old(self).wf(),
            other.wf(),
            old(self).limbs().len() + other.limbs().len() <= usize::MAX,
        ensures
            final(self).wf(),
            final(self)@ == old(self)@ * other@,
            final(self).limbs() == prod_limbs(*old(self), other),
            final(self).is_large() == prod_is_large(*old(self), other),
    {
        let mut tmp = Natural(Repr::Small(0));
        core::mem::swap(&mut tmp, self);
        *self = tmp.mul(other);
    }
}

/// Compares two limb vectors element by element.
fn eq_limb_vecs(a: &Vec<u64>, b: &Vec<u64>) -> (r: bool)
    ensures
        r == (a@ == b@),
{
    if a.len() != b.len() {
        return false;
    }
    let n = a.len();
    let mut i: usize = 0;
    while i < n
        invariant
            a@.len() == n,
            b@.len() == n,
            i <= n,
            forall|k: int| 0 <= k < i ==> a@[k] == b@[k],
        decreases n - i,
    {
        if a[i] != b[i] {
            return false;
        }
        i = i + 1;
    }
    proof {
        assert(a@ =~= b@);
    }
    true
}

impl PartialEq for Natural {
    /// Structural equality: the storage shape and the limb sequence both
    /// have to agree, as the operations produce them; no numeric
    /// canonicalization is applied.
    fn eq(&self, other: &Natural) -> (r: bool) {
        match (&self.0, &other.0) {
            (Repr::Small(x), Repr::Small(y)) => {
                proof {
                    if *x == *y {
                        assert(seq![*x] =~= seq![*y]);
                    } else {
                        assert(seq![*x][0] == *x);
                        assert(seq![*y][0] == *y);
                    }
                }
                *x == *y
            },
            (Repr::Large(v), Repr::Large(w)) => eq_limb_vecs(v, w),
            _ => false,
        }
    }
}

impl vstd::std_specs::cmp::PartialEqSpecImpl for Natural {
    open spec fn obeys_eq_spec() -> bool {
        true
    }

    open spec fn eq_spec(&self, other: &Natural) -> bool {
        self.is_large() == other.is_large() && self.limbs() == other.limbs()
    }
}

impl From<u64> for Natural {
    /// Wraps a machine word as a small natural number.
    fn from(v: u64) -> (r: Natural) {
        Natural(Repr::Small(v))
    }
}

impl vstd::std_specs::convert::FromSpecImpl<u64> for Natural {
    open spec fn obeys_from_spec() -> bool {
        true
    }

    open spec fn from_spec(v: u64) -> Natural {
        Natural(Repr::Small(v))
    }
}

} // verus!

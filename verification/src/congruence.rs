//! Congruence modulo the order of the scalar field, and how the operations
//! of the field relate to the operations of the integers.

use crate::field::{add_mod, modulus, mul_mod, neg_mod, sub_mod};
use vstd::arithmetic::div_mod::{
    lemma_add_mod_noop,
    lemma_mod_twice,
    lemma_mul_mod_noop,
    lemma_small_mod,
};
use vstd::prelude::*;

verus! {

/// `x` and `y` leave the same remainder modulo the order of the field.
pub open spec fn congruent(x: int, y: int) -> bool {
    x % (modulus() as int) == y % (modulus() as int)
}

/// An integer is congruent to its remainder.
pub proof fn lemma_congruent_reduce(x: int)
    ensures
        congruent(x % (modulus() as int), x),
        0 <= x % (modulus() as int) < modulus(),
{
    lemma_mod_twice(x, modulus() as int);
}

/// Sums of congruent integers are congruent.
pub proof fn lemma_congruent_add(x1: int, y1: int, x2: int, y2: int)
    requires
        congruent(x1, y1),
        congruent(x2, y2),
    ensures
        congruent(x1 + x2, y1 + y2),
{
    lemma_add_mod_noop(x1, x2, modulus() as int);
    lemma_add_mod_noop(y1, y2, modulus() as int);
}

/// Products of congruent integers are congruent.
pub proof fn lemma_congruent_mul(x1: int, y1: int, x2: int, y2: int)
    requires
        congruent(x1, y1),
        congruent(x2, y2),
    ensures
        congruent(x1 * x2, y1 * y2),
{
    lemma_mul_mod_noop(x1, x2, modulus() as int);
    lemma_mul_mod_noop(y1, y2, modulus() as int);
}

/// Negations of congruent integers are congruent.
pub proof fn lemma_congruent_neg(x: int, y: int)
    requires
        congruent(x, y),
    ensures
        congruent(-x, -y),
{
    lemma_congruent_mul(-1, -1, x, y);
    assert(-1 * x == -x);
    assert(-1 * y == -y);
}

/// Two congruent integers that both lie below the order of the field are
/// equal.
pub proof fn lemma_congruent_unique(x: int, y: int)
    requires
        0 <= x < modulus(),
        0 <= y < modulus(),
        congruent(x, y),
    ensures
        x == y,
{
    lemma_small_mod(x as nat, modulus());
    lemma_small_mod(y as nat, modulus());
}

/// The sum in the field is congruent to the sum of the integers.
pub proof fn lemma_add_mod(a: nat, b: nat)
    ensures
        congruent(add_mod(a, b) as int, (a + b) as int),
        add_mod(a, b) < modulus(),
{
    lemma_congruent_reduce((a + b) as int);
}

/// The difference in the field is congruent to the difference of the
/// integers.
pub proof fn lemma_sub_mod(a: nat, b: nat)
    ensures
        congruent(sub_mod(a, b) as int, a - b),
        sub_mod(a, b) < modulus(),
{
    lemma_congruent_reduce(a - b);
}

/// The product in the field is congruent to the product of the integers.
pub proof fn lemma_mul_mod(a: nat, b: nat)
    ensures
        congruent(mul_mod(a, b) as int, (a * b) as int),
        mul_mod(a, b) < modulus(),
{
    lemma_congruent_reduce((a * b) as int);
}

/// The additive inverse in the field is congruent to the negated integer.
pub proof fn lemma_neg_mod(a: nat)
    ensures
        congruent(neg_mod(a) as int, -(a as int)),
        neg_mod(a) < modulus(),
{
    lemma_congruent_reduce(-(a as int));
}

/// Solving `rest + q * x = 0` for `x`: where `minus_q` is the negation of
/// `q` and `inverse` its inverse, `rest * inverse` solves the equation, and
/// every solution is congruent to it.
pub proof fn lemma_solve_linear(q: int, rest: int, minus_q: int, inverse: int, solution: int)
    requires
        congruent(minus_q, -q),
        congruent(minus_q * inverse, 1),
        congruent(solution, rest * inverse),
    ensures
        congruent(rest + q * solution, 0),
        forall|x: int| #[trigger] congruent(rest + q * x, 0) ==> congruent(x, solution),
{
    // q * inverse is congruent to -1
    lemma_congruent_mul(minus_q, -q, inverse, inverse);
    assert(congruent((-q) * inverse, 1));
    lemma_congruent_neg((-q) * inverse, 1);
    assert(-((-q) * inverse) == q * inverse) by (nonlinear_arith);
    assert(congruent(q * inverse, -1));
    // q * solution is congruent to -rest
    lemma_congruent_mul(q, q, solution, rest * inverse);
    assert(q * (rest * inverse) == (q * inverse) * rest) by (nonlinear_arith);
    lemma_congruent_mul(q * inverse, -1, rest, rest);
    assert(-1 * rest == -rest);
    assert(congruent(q * solution, -rest));
    lemma_congruent_add(rest, rest, q * solution, -rest);
    assert forall|x: int| #[trigger] congruent(rest + q * x, 0) implies congruent(x, solution) by {
        // q * x is congruent to -rest
        lemma_congruent_add(rest + q * x, 0, -rest, -rest);
        assert(rest + q * x + (-rest) == q * x);
        assert(congruent(q * x, -rest));
        // multiply by inverse
        lemma_congruent_mul(q * x, -rest, inverse, inverse);
        assert((q * x) * inverse == (q * inverse) * x) by (nonlinear_arith);
        assert((-rest) * inverse == -(rest * inverse)) by (nonlinear_arith);
        lemma_congruent_mul(q * inverse, -1, x, x);
        assert(-1 * x == -x);
        assert(congruent(-x, -(rest * inverse)));
        lemma_congruent_neg(-x, -(rest * inverse));
        assert(-(-x) == x);
        assert(-(-(rest * inverse)) == rest * inverse);
    }
}

/// An element whose negation in the field is zero is zero.
pub proof fn lemma_neg_mod_zero(a: nat)
    requires
        a < modulus(),
        neg_mod(a) == 0,
    ensures
        a == 0,
{
    lemma_neg_mod(a);
    lemma_congruent_neg(0, -(a as int));
    assert(-(-(a as int)) == a);
    lemma_congruent_unique(a as int, 0);
}

} // verus!

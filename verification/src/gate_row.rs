//! The rows of a circuit: one gate by its wires, its selectors and its
//! public input, the equation that a row stands for, and what a run of
//! rows adds to the record of the permutation and to the public inputs.

use crate::arithmetic_gate::ArithmeticGate;
use crate::congruence::{
    congruent,
    lemma_add_mod,
    lemma_congruent_add,
    lemma_congruent_mul,
    lemma_congruent_reduce,
    lemma_congruent_unique,
    lemma_mul_mod,
    lemma_neg_mod,
    lemma_solve_linear,
};
use crate::field::{modulus, mul_mod, neg_mod, scalar_views, Scalar};
use crate::permutation::record_gate;
use crate::variable::{Variable, WireData};
use vstd::prelude::*;

verus! {

/// One gate by the variables on its wires, the views of its selectors and
/// its public input.
pub struct GateRow {
    /// Variable on the left wire.
    pub a: Variable,
    /// Variable on the right wire.
    pub b: Variable,
    /// Variable on the output wire.
    pub c: Variable,
    /// Variable on the fourth wire.
    pub d: Variable,
    /// Selector of the product of left and right wire.
    pub q_m: nat,
    /// Selector of the left wire.
    pub q_l: nat,
    /// Selector of the right wire.
    pub q_r: nat,
    /// Selector of the output wire.
    pub q_o: nat,
    /// Selector of the fourth wire.
    pub q_4: nat,
    /// The constant term.
    pub q_c: nat,
    /// Selector of the lookup argument.
    pub q_lookup: nat,
    /// The public input of this gate.
    pub pi: Option<nat>,
}

/// The left-hand side of a gate's equation, over the integers.
pub open spec fn gate_sum(
    q_m: nat,
    q_l: nat,
    q_r: nat,
    q_o: nat,
    q_4: nat,
    q_c: nat,
    pi: nat,
    a: nat,
    b: nat,
    c: nat,
    d: nat,
) -> nat {
    q_m * (a * b) + q_l * a + q_r * b + q_4 * d + q_o * c + q_c + pi
}

/// The positions that variable `v` takes in gate `g` with the given row, in
/// the order left, right, output, fourth.
pub open spec fn row_positions(row: GateRow, v: int, g: usize) -> Seq<WireData> {
    (if row.a.0 == v {
        seq![WireData::Left(g)]
    } else {
        Seq::empty()
    }) + (if row.b.0 == v {
        seq![WireData::Right(g)]
    } else {
        Seq::empty()
    }) + (if row.c.0 == v {
        seq![WireData::Output(g)]
    } else {
        Seq::empty()
    }) + (if row.d.0 == v {
        seq![WireData::Fourth(g)]
    } else {
        Seq::empty()
    })
}

/// The positions that variable `v` takes in the gates `base`, `base + 1`,
/// ... with the given rows, in the order of the gates.
pub open spec fn rows_positions(rows: Seq<GateRow>, v: int, base: int) -> Seq<WireData>
    decreases rows.len(),
{
    if rows.len() == 0 {
        Seq::empty()
    } else {
        rows_positions(rows.drop_last(), v, base) + row_positions(
            rows.last(),
            v,
            (base + rows.len() - 1) as usize,
        )
    }
}

/// The public inputs after those of the gates `base`, `base + 1`, ... with
/// the given rows have been bound to the indices of their gates.
pub open spec fn with_row_inputs(map: Map<usize, nat>, rows: Seq<GateRow>, base: int) -> Map<
    usize,
    nat,
>
    decreases rows.len(),
{
    if rows.len() == 0 {
        map
    } else {
        let earlier = with_row_inputs(map, rows.drop_last(), base);
        match rows.last().pi {
            Some(value) => earlier.insert((base + rows.len() - 1) as usize, value),
            None => earlier,
        }
    }
}

/// The indices of those of the gates `base`, `base + 1`, ... with the given
/// rows that have a public input, in ascending order.
pub open spec fn row_input_positions(rows: Seq<GateRow>, base: int) -> Seq<usize>
    decreases rows.len(),
{
    if rows.len() == 0 {
        Seq::empty()
    } else {
        let earlier = row_input_positions(rows.drop_last(), base);
        match rows.last().pi {
            Some(_) => earlier.push((base + rows.len() - 1) as usize),
            None => earlier,
        }
    }
}

/// The row of a gate with the given wires, selectors and public input.
pub open spec fn gate_row(
    a: Variable,
    b: Variable,
    c: Variable,
    d: Variable,
    q_m: Scalar,
    q_l: Scalar,
    q_r: Scalar,
    q_o: Scalar,
    q_4: Scalar,
    q_c: Scalar,
    q_lookup: Scalar,
    pi: Option<Scalar>,
) -> GateRow {
    GateRow {
        a,
        b,
        c,
        d,
        q_m: q_m@,
        q_l: q_l@,
        q_r: q_r@,
        q_o: q_o@,
        q_4: q_4@,
        q_c: q_c@,
        q_lookup: q_lookup@,
        pi: match pi {
            Some(value) => Some(value@),
            None => None,
        },
    }
}

/// Recording the wires of a gate appends to the positions of every
/// variable the positions that the variable takes in that gate.
pub proof fn lemma_record_gate_positions(
    occ: Seq<Seq<WireData>>,
    row: GateRow,
    g: usize,
    v: int,
)
    requires
        row.a.0 < occ.len(),
        row.b.0 < occ.len(),
        row.c.0 < occ.len(),
        row.d.0 < occ.len(),
        0 <= v < occ.len(),
    ensures
        record_gate(occ, row.a.0 as int, row.b.0 as int, row.c.0 as int, row.d.0 as int, g)[v]
            == occ[v] + row_positions(row, v, g),
{
    assert(record_gate(occ, row.a.0 as int, row.b.0 as int, row.c.0 as int, row.d.0 as int, g)[v]
        =~= occ[v] + row_positions(row, v, g));
}

/// Public inputs of new gates leave the public inputs of earlier positions
/// as they were.
pub proof fn lemma_row_inputs_keep(map: Map<usize, nat>, rows: Seq<GateRow>, base: int, pos: usize)
    requires
        0 <= base,
        base + rows.len() <= usize::MAX,
        pos < base,
    ensures
        with_row_inputs(map, rows, base).contains_key(pos) == map.contains_key(pos),
        map.contains_key(pos) ==> with_row_inputs(map, rows, base)[pos] == map[pos],
    decreases rows.len(),
{
    if rows.len() > 0 {
        lemma_row_inputs_keep(map, rows.drop_last(), base, pos);
    }
}

/// The positions that a variable takes in the gates of two runs of rows are
/// those that it takes in the first run followed by those that it takes in
/// the second.
pub proof fn lemma_rows_positions_concat(
    first: Seq<GateRow>,
    second: Seq<GateRow>,
    v: int,
    base: int,
)
    ensures
        rows_positions(first + second, v, base) == rows_positions(first, v, base)
            + rows_positions(second, v, base + first.len()),
    decreases second.len(),
{
    if second.len() == 0 {
        assert(first + second =~= first);
        assert(rows_positions(first + second, v, base) =~= rows_positions(first, v, base)
            + rows_positions(second, v, base + first.len()));
    } else {
        assert((first + second).drop_last() =~= first + second.drop_last());
        assert((first + second).last() == second.last());
        lemma_rows_positions_concat(first, second.drop_last(), v, base);
        assert(rows_positions(first + second, v, base) =~= rows_positions(first, v, base)
            + rows_positions(second, v, base + first.len()));
    }
}

/// A variable that is on no wire of the rows takes no position in their
/// gates.
pub proof fn lemma_rows_positions_absent(rows: Seq<GateRow>, v: int, base: int)
    requires
        forall|k: int|
            0 <= k < rows.len() ==> (#[trigger] rows[k]).a.0 != v && rows[k].b.0 != v
                && rows[k].c.0 != v && rows[k].d.0 != v,
    ensures
        rows_positions(rows, v, base) == Seq::<WireData>::empty(),
    decreases rows.len(),
{
    if rows.len() > 0 {
        let front = rows.drop_last();
        assert forall|k: int| 0 <= k < front.len() implies (#[trigger] front[k]).a.0 != v
            && front[k].b.0 != v && front[k].c.0 != v && front[k].d.0 != v by {
            assert(front[k] == rows[k]);
        }
        lemma_rows_positions_absent(front, v, base);
        assert(rows.last() == rows[rows.len() - 1]);
        assert(rows_positions(rows, v, base) =~= Seq::<WireData>::empty());
    }
}

/// Binding the public inputs of two runs of rows is binding those of the
/// first run and then those of the second.
pub proof fn lemma_row_inputs_concat(
    map: Map<usize, nat>,
    first: Seq<GateRow>,
    second: Seq<GateRow>,
    base: int,
)
    ensures
        with_row_inputs(map, first + second, base) == with_row_inputs(
            with_row_inputs(map, first, base),
            second,
            base + first.len(),
        ),
        row_input_positions(first + second, base) == row_input_positions(first, base)
            + row_input_positions(second, base + first.len()),
    decreases second.len(),
{
    if second.len() == 0 {
        assert(first + second =~= first);
        assert(row_input_positions(first + second, base) =~= row_input_positions(first, base)
            + row_input_positions(second, base + first.len()));
    } else {
        assert((first + second).drop_last() =~= first + second.drop_last());
        assert((first + second).last() == second.last());
        lemma_row_inputs_concat(map, first, second.drop_last(), base);
        assert(row_input_positions(first + second, base) =~= row_input_positions(first, base)
            + row_input_positions(second, base + first.len()));
    }
}

/// The public input that gate `base + k` has after the public inputs of
/// the rows have been bound: that of row `k`, and where the row has none,
/// what the position held before.
pub proof fn lemma_row_inputs_new(map: Map<usize, nat>, rows: Seq<GateRow>, base: int, k: int)
    requires
        0 <= base,
        base + rows.len() - 1 <= usize::MAX,
        0 <= k < rows.len(),
    ensures
        rows[k].pi is Some ==> with_row_inputs(map, rows, base).contains_key((base + k) as usize)
            && with_row_inputs(map, rows, base)[(base + k) as usize] == rows[k].pi->0,
        rows[k].pi is None ==> with_row_inputs(map, rows, base).contains_key((base + k) as usize)
            == map.contains_key((base + k) as usize),
        rows[k].pi is None && map.contains_key((base + k) as usize) ==> with_row_inputs(
            map,
            rows,
            base,
        )[(base + k) as usize] == map[(base + k) as usize],
    decreases rows.len(),
{
    if k < rows.len() - 1 {
        lemma_row_inputs_new(map, rows.drop_last(), base, k);
        assert(rows.drop_last()[k] == rows[k]);
    } else {
        lemma_row_inputs_above(map, rows.drop_last(), base, (base + k) as usize);
    }
}

/// Public inputs of rows leave the positions after their gates as they
/// were.
pub proof fn lemma_row_inputs_above(map: Map<usize, nat>, rows: Seq<GateRow>, base: int, pos: usize)
    requires
        0 <= base,
        base + rows.len() <= pos,
    ensures
        with_row_inputs(map, rows, base).contains_key(pos) == map.contains_key(pos),
        map.contains_key(pos) ==> with_row_inputs(map, rows, base)[pos] == map[pos],
    decreases rows.len(),
{
    if rows.len() > 0 {
        lemma_row_inputs_above(map, rows.drop_last(), base, pos);
    }
}

/// A gate's equation without the term of the output wire, over the
/// integers.
pub open spec fn rest_sum(
    q_m: nat,
    q_l: nat,
    q_r: nat,
    q_4: nat,
    q_c: nat,
    pi: nat,
    a: nat,
    b: nat,
    d: nat,
) -> nat {
    q_m * (a * b) + q_l * a + q_r * b + q_4 * d + q_c + pi
}

/// The row of a gate that a descriptor with left and right wire
/// describes, with `c` on the output wire. Without a fourth wire, `zero`
/// is on that wire.
pub open spec fn descriptor_row(gate: ArithmeticGate, c: Variable, zero: Variable) -> GateRow {
    GateRow {
        a: (gate.witness->0).0,
        b: (gate.witness->0).1,
        c,
        d: match gate.fan_in_3 {
            Some(pair) => pair.1,
            None => zero,
        },
        q_m: gate.mul_selector@,
        q_l: gate.add_selectors.0@,
        q_r: gate.add_selectors.1@,
        q_o: gate.out_selector@,
        q_4: match gate.fan_in_3 {
            Some(pair) => pair.0@,
            None => 0,
        },
        q_c: gate.const_selector@,
        q_lookup: 0,
        pi: match gate.pi {
            Some(value) => Some(value@),
            None => None,
        },
    }
}

/// Evaluates a gate's equation without the term of the output wire in the
/// field.
pub(crate) fn rest_value(
    q_m: &Scalar,
    q_l: &Scalar,
    q_r: &Scalar,
    q_4: &Scalar,
    q_c: &Scalar,
    pi: &Scalar,
    a: &Scalar,
    b: &Scalar,
    d: &Scalar,
) -> (r: Scalar)
    ensures
        r@ == rest_sum(q_m@, q_l@, q_r@, q_4@, q_c@, pi@, a@, b@, d@) % modulus(),
{
    let ab = a.mul(b);
    let t_m = q_m.mul(&ab);
    let t_l = q_l.mul(a);
    let t_r = q_r.mul(b);
    let t_4 = q_4.mul(d);
    let s_1 = t_m.add(&t_l);
    let s_2 = s_1.add(&t_r);
    let s_3 = s_2.add(&t_4);
    let s_4 = s_3.add(q_c);
    let s_5 = s_4.add(pi);
    proof {
        lemma_mul_mod(a@, b@);
        lemma_mul_mod(q_m@, ab@);
        lemma_congruent_mul(q_m@ as int, q_m@ as int, ab@ as int, (a@ * b@) as int);
        lemma_mul_mod(q_l@, a@);
        lemma_mul_mod(q_r@, b@);
        lemma_mul_mod(q_4@, d@);
        lemma_add_mod(t_m@, t_l@);
        lemma_congruent_add(
            t_m@ as int,
            (q_m@ * (a@ * b@)) as int,
            t_l@ as int,
            (q_l@ * a@) as int,
        );
        lemma_add_mod(s_1@, t_r@);
        lemma_congruent_add(
            s_1@ as int,
            (q_m@ * (a@ * b@) + q_l@ * a@) as int,
            t_r@ as int,
            (q_r@ * b@) as int,
        );
        lemma_add_mod(s_2@, t_4@);
        lemma_congruent_add(
            s_2@ as int,
            (q_m@ * (a@ * b@) + q_l@ * a@ + q_r@ * b@) as int,
            t_4@ as int,
            (q_4@ * d@) as int,
        );
        lemma_add_mod(s_3@, q_c@);
        lemma_congruent_add(
            s_3@ as int,
            (q_m@ * (a@ * b@) + q_l@ * a@ + q_r@ * b@ + q_4@ * d@) as int,
            q_c@ as int,
            q_c@ as int,
        );
        lemma_add_mod(s_4@, pi@);
        lemma_congruent_add(
            s_4@ as int,
            (q_m@ * (a@ * b@) + q_l@ * a@ + q_r@ * b@ + q_4@ * d@ + q_c@) as int,
            pi@ as int,
            pi@ as int,
        );
        lemma_congruent_reduce(rest_sum(q_m@, q_l@, q_r@, q_4@, q_c@, pi@, a@, b@, d@) as int);
        lemma_congruent_unique(
            s_5@ as int,
            (rest_sum(q_m@, q_l@, q_r@, q_4@, q_c@, pi@, a@, b@, d@) % modulus()) as int,
        );
    }
    s_5
}

/// `x` on the output wire satisfies the equation of a gate with the given
/// row whose other wires hold `a`, `b` and `d`.
pub open spec fn solves_row(row: GateRow, a: nat, b: nat, d: nat, x: nat) -> bool {
    gate_sum(
        row.q_m,
        row.q_l,
        row.q_r,
        row.q_o,
        row.q_4,
        row.q_c,
        match row.pi {
            Some(value) => value,
            None => 0,
        },
        a,
        b,
        x,
        d,
    ) % modulus() == 0
}

/// The value below the order of the field that satisfies a gate on its
/// output wire. Where the selector of the output wire is not zero, there is
/// exactly one.
pub open spec fn solved_output(row: GateRow, a: nat, b: nat, d: nat) -> nat {
    choose|x: nat| x < modulus() && solves_row(row, a, b, d, x)
}

/// What is computed for the output wire is the value that satisfies the
/// gate, and no other value below the order of the field satisfies it.
pub proof fn lemma_solved_output(
    row: GateRow,
    a: nat,
    b: nat,
    d: nat,
    minus_q: nat,
    inverse: nat,
    value: nat,
)
    requires
        minus_q == neg_mod(row.q_o),
        mul_mod(minus_q, inverse) == 1,
        value == mul_mod(
            rest_sum(
                row.q_m,
                row.q_l,
                row.q_r,
                row.q_4,
                row.q_c,
                match row.pi {
                    Some(v) => v,
                    None => 0,
                },
                a,
                b,
                d,
            ) % modulus(),
            inverse,
        ),
    ensures
        value < modulus(),
        solves_row(row, a, b, d, value),
        forall|x: nat| x < modulus() && #[trigger] solves_row(row, a, b, d, x) ==> x == value,
        solved_output(row, a, b, d) == value,
{
    let pi = match row.pi {
        Some(v) => v,
        None => 0,
    };
    let rest = rest_sum(row.q_m, row.q_l, row.q_r, row.q_4, row.q_c, pi, a, b, d);
    let reduced = rest % modulus();
    let q = row.q_o as int;
    lemma_neg_mod(row.q_o);
    lemma_mul_mod(minus_q, inverse);
    lemma_mul_mod(reduced, inverse);
    lemma_congruent_reduce(rest as int);
    lemma_congruent_mul(reduced as int, rest as int, inverse as int, inverse as int);
    lemma_solve_linear(q, rest as int, minus_q as int, inverse as int, value as int);
    assert forall|x: nat| #![trigger solves_row(row, a, b, d, x)]
        gate_sum(row.q_m, row.q_l, row.q_r, row.q_o, row.q_4, row.q_c, pi, a, b, x, d) == rest + q
            * x by {
    }
    assert(solves_row(row, a, b, d, value)) by {
        assert(congruent(rest + q * value, 0));
    }
    assert forall|x: nat| x < modulus() && #[trigger] solves_row(row, a, b, d, x) implies x
        == value by {
        assert(congruent(rest + q * (x as int), 0));
        lemma_congruent_unique(x as int, value as int);
    }
}

/// Entry `i` of a vector of field elements whose views are those of `pre`
/// followed by `added`.
pub proof fn lemma_extended_column(post: Seq<Scalar>, pre: Seq<Scalar>, added: Seq<nat>, i: int)
    requires
        scalar_views(post) == scalar_views(pre) + added,
        0 <= i < pre.len() + added.len(),
    ensures
        post.len() == pre.len() + added.len(),
        post[i]@ == (if i < pre.len() {
            pre[i]@
        } else {
            added[i - pre.len()]
        }),
{
    assert(scalar_views(post).len() == post.len());
    assert(scalar_views(pre).len() == pre.len());
    assert(scalar_views(post)[i] == post[i]@);
    if i < pre.len() {
        assert(scalar_views(pre)[i] == pre[i]@);
    }
}

/// With the selector -1 on the output wire, the value that satisfies the
/// gate is what the other terms add up to.
pub proof fn lemma_default_output(row: GateRow, a: nat, b: nat, d: nat)
    requires
        row.q_o == neg_mod(1),
    ensures
        solved_output(row, a, b, d) == rest_sum(
            row.q_m,
            row.q_l,
            row.q_r,
            row.q_4,
            row.q_c,
            match row.pi {
                Some(v) => v,
                None => 0,
            },
            a,
            b,
            d,
        ) % modulus(),
{
    let pi = match row.pi {
        Some(v) => v,
        None => 0,
    };
    let reduced = rest_sum(row.q_m, row.q_l, row.q_r, row.q_4, row.q_c, pi, a, b, d) % modulus();
    assert(neg_mod(neg_mod(1)) == 1);
    assert(mul_mod(1, 1) == 1);
    assert(mul_mod(reduced, 1) == reduced) by {
        assert(reduced * 1 == reduced);
    }
    lemma_solved_output(row, a, b, d, 1, 1, reduced);
}

} // verus!

//! The circuit builder. It owns the selector vectors, the wire vectors, the
//! lookup table, the permutation engine, the public inputs and the value of
//! every variable, and turns gates into rows of these vectors.
//!
//! Gate `i` of a builder enforces, over the scalar field,
//!
//! ```text
//! q_m[i] * (a * b) + q_l[i] * a + q_r[i] * b + q_4[i] * d + q_o[i] * c + q_c[i] + pi[i] = 0
//! ```
//!
//! where `a`, `b`, `c` and `d` are the values of the variables on the four
//! wires of that gate and `pi[i]` is the public input at position `i`, or
//! zero where there is none.

use crate::arithmetic_gate::ArithmeticGate;
use crate::congruence::lemma_neg_mod_zero;
use crate::error::Error;
use crate::field::{modulus, scalar_views, Scalar};
use crate::gate_row::{
    descriptor_row,
    gate_row,
    gate_sum,
    lemma_extended_column,
    lemma_record_gate_positions,
    lemma_row_inputs_concat,
    lemma_row_inputs_keep,
    lemma_row_inputs_new,
    lemma_rows_positions_absent,
    lemma_rows_positions_concat,
    lemma_solved_output,
    rest_value,
    row_input_positions,
    row_positions,
    rows_positions,
    solved_output,
    with_row_inputs,
    GateRow,
};
use crate::lookup_table::LookupTable;
use crate::permutation::{
    gates_below,
    in_record,
    iterate_sigma,
    lemma_sigma_cycle,
    lemma_new_variable_keeps,
    lemma_record_gate_keeps,
    lemma_total_new_variable,
    positions_distinct,
    record_gate,
    total_positions,
    Permutation,
};
use crate::public_inputs::{extend_map, lemma_extend_domain, lemma_extend_values, PublicInputs};
use crate::variable::{Variable, WireData};
use core::marker::PhantomData;
use vstd::prelude::*;

verus! {

/// The composer of a circuit. `P` tags the curve that gadgets built on top
/// of the composer work with; the composer itself makes no use of it.
pub struct CircuitBuilder<P> {
    /// Number of gates.
    pub n: usize,
    /// Selectors of the product of left and right wire.
    pub q_m: Vec<Scalar>,
    /// Selectors of the left wire.
    pub q_l: Vec<Scalar>,
    /// Selectors of the right wire.
    pub q_r: Vec<Scalar>,
    /// Selectors of the output wire.
    pub q_o: Vec<Scalar>,
    /// Selectors of the fourth wire.
    pub q_4: Vec<Scalar>,
    /// Constant terms.
    pub q_c: Vec<Scalar>,
    /// Selectors of the lookup argument.
    pub q_lookup: Vec<Scalar>,
    /// Variables on the left wires.
    pub w_l: Vec<Variable>,
    /// Variables on the right wires.
    pub w_r: Vec<Variable>,
    /// Variables on the output wires.
    pub w_o: Vec<Variable>,
    /// Variables on the fourth wires.
    pub w_4: Vec<Variable>,
    /// The lookup table.
    pub lookup_table: LookupTable,
    /// The record of the wire positions of every variable.
    pub perm: Permutation,
    /// The public inputs by gate index.
    pub public_inputs: PublicInputs,
    /// Indices of gates that were given a public input, in the order in
    /// which they were given.
    pub intended_pi_pos: Vec<usize>,
    /// The value of every variable: entry `k` is the value of the variable
    /// with index `k`.
    pub variables: Vec<Scalar>,
    /// The variable that is bound to zero and fills unused wires.
    pub zero_var: Variable,
    /// The tag of the curve.
    pub curve: PhantomData<P>,
}

impl<P> CircuitBuilder<P> {
    /// The value that the variable is bound to.
    pub open spec fn value(&self, v: Variable) -> nat {
        self.variables@[v.0 as int]@
    }

    /// The variable on the wire at the given position.
    pub open spec fn wire(&self, w: WireData) -> Variable {
        match w {
            WireData::Left(i) => self.w_l@[i as int],
            WireData::Right(i) => self.w_r@[i as int],
            WireData::Output(i) => self.w_o@[i as int],
            WireData::Fourth(i) => self.w_4@[i as int],
        }
    }

    /// The public input of gate `i`; zero where it has none.
    pub open spec fn public_input(&self, i: int) -> nat {
        if self.public_inputs@.contains_key(i as usize) {
            self.public_inputs@[i as usize]
        } else {
            0
        }
    }

    /// The left-hand side of the equation of gate `i` under the values of
    /// the variables, over the integers.
    pub open spec fn gate_total(&self, i: int) -> nat {
        gate_sum(
            self.q_m@[i]@,
            self.q_l@[i]@,
            self.q_r@[i]@,
            self.q_o@[i]@,
            self.q_4@[i]@,
            self.q_c@[i]@,
            self.public_input(i),
            self.value(self.w_l@[i]),
            self.value(self.w_r@[i]),
            self.value(self.w_o@[i]),
            self.value(self.w_4@[i]),
        )
    }

    /// The values of the variables satisfy the equation of gate `i`.
    pub open spec fn gate_satisfied(&self, i: int) -> bool {
        self.gate_total(i) % modulus() == 0
    }

    /// The values of the variables satisfy the equation of every gate.
    pub open spec fn all_satisfied(&self) -> bool {
        forall|i: int| 0 <= i < self.n ==> self.gate_satisfied(i)
    }

    /// The variable has been allocated by this builder.
    pub open spec fn allocated(&self, v: Variable) -> bool {
        v.0 < self.variables@.len()
    }

    /// The invariant of the builder.
    ///
    /// - Every selector vector and every wire vector has one entry per gate.
    /// - Every allocated variable has one value, which is below the order of
    ///   the field, and one entry in the permutation's record.
    /// - The zero variable is allocated and bound to zero.
    /// - Every wire holds an allocated variable.
    /// - The record of the permutation holds each of the `4 * n` wire
    ///   positions once, under the variable that is on that wire.
    /// - Public inputs are bound to indices of gates, no index holds two of
    ///   them, and every index that was given one holds one.
    #[verifier::opaque]
    pub open spec fn wf(&self) -> bool {
        &&& self.q_m@.len() == self.n
        &&& self.q_l@.len() == self.n
        &&& self.q_r@.len() == self.n
        &&& self.q_o@.len() == self.n
        &&& self.q_4@.len() == self.n
        &&& self.q_c@.len() == self.n
        &&& self.q_lookup@.len() == self.n
        &&& self.w_l@.len() == self.n
        &&& self.w_r@.len() == self.n
        &&& self.w_o@.len() == self.n
        &&& self.w_4@.len() == self.n
        &&& self.perm@.len() == self.variables@.len()
        &&& self.allocated(self.zero_var)
        &&& self.value(self.zero_var) == 0
        &&& forall|k: int|
            0 <= k < self.variables@.len() ==> (#[trigger] self.variables@[k])@ < modulus()
        &&& forall|i: int| 0 <= i < self.n ==> self.allocated(#[trigger] self.w_l@[i])
        &&& forall|i: int| 0 <= i < self.n ==> self.allocated(#[trigger] self.w_r@[i])
        &&& forall|i: int| 0 <= i < self.n ==> self.allocated(#[trigger] self.w_o@[i])
        &&& forall|i: int| 0 <= i < self.n ==> self.allocated(#[trigger] self.w_4@[i])
        &&& gates_below(self.perm@, self.n as int)
        &&& positions_distinct(self.perm@)
        &&& total_positions(self.perm@) == 4 * self.n
        &&& forall|v: int, j: int|
            in_record(self.perm@, v, j) ==> self.wire(#[trigger] self.perm@[v][j]) == Variable(
                v as usize,
            )
        &&& self.public_inputs.wf()
        &&& forall|pos: usize| #[trigger] self.public_inputs@.contains_key(pos) ==> pos < self.n
        &&& forall|k: int|
            0 <= k < self.intended_pi_pos@.len() ==> self.public_inputs@.contains_key(
                #[trigger] self.intended_pi_pos@[k],
            )
    }

    /// This builder is `pre` with new variables and new gates: the
    /// variables are bound to the values `fresh`, in their order, and the
    /// gates have the given rows, in their order. Nothing else differs.
    #[verifier::opaque]
    pub open spec fn extends(&self, pre: &Self, fresh: Seq<nat>, rows: Seq<GateRow>) -> bool {
        &&& self.n == pre.n + rows.len()
        &&& scalar_views(self.variables@) == scalar_views(pre.variables@) + fresh
        &&& self.zero_var == pre.zero_var
        &&& self.lookup_table@ == pre.lookup_table@
        &&& scalar_views(self.q_m@) == scalar_views(pre.q_m@) + Seq::new(
            rows.len(),
            |k: int| rows[k].q_m,
        )
        &&& scalar_views(self.q_l@) == scalar_views(pre.q_l@) + Seq::new(
            rows.len(),
            |k: int| rows[k].q_l,
        )
        &&& scalar_views(self.q_r@) == scalar_views(pre.q_r@) + Seq::new(
            rows.len(),
            |k: int| rows[k].q_r,
        )
        &&& scalar_views(self.q_o@) == scalar_views(pre.q_o@) + Seq::new(
            rows.len(),
            |k: int| rows[k].q_o,
        )
        &&& scalar_views(self.q_4@) == scalar_views(pre.q_4@) + Seq::new(
            rows.len(),
            |k: int| rows[k].q_4,
        )
        &&& scalar_views(self.q_c@) == scalar_views(pre.q_c@) + Seq::new(
            rows.len(),
            |k: int| rows[k].q_c,
        )
        &&& scalar_views(self.q_lookup@) == scalar_views(pre.q_lookup@) + Seq::new(
            rows.len(),
            |k: int| rows[k].q_lookup,
        )
        &&& self.w_l@ == pre.w_l@ + Seq::new(rows.len(), |k: int| rows[k].a)
        &&& self.w_r@ == pre.w_r@ + Seq::new(rows.len(), |k: int| rows[k].b)
        &&& self.w_o@ == pre.w_o@ + Seq::new(rows.len(), |k: int| rows[k].c)
        &&& self.w_4@ == pre.w_4@ + Seq::new(rows.len(), |k: int| rows[k].d)
        &&& self.perm@.len() == pre.perm@.len() + fresh.len()
        &&& forall|v: int|
            0 <= v < self.perm@.len() ==> #[trigger] self.perm@[v] == (if v < pre.perm@.len() {
                pre.perm@[v]
            } else {
                Seq::empty()
            }) + rows_positions(rows, v, pre.n as int)
        &&& self.public_inputs@ == with_row_inputs(pre.public_inputs@, rows, pre.n as int)
        &&& self.intended_pi_pos@ == pre.intended_pi_pos@ + row_input_positions(
            rows,
            pre.n as int,
        )
    }

    /// A builder without gates. Every vector has room for `circuit_size`
    /// entries; the zero variable is the only variable.
    pub fn new(circuit_size: usize) -> (builder: Self)
        ensures
            builder.wf(),
            builder.n == 0,
            builder.zero_var == Variable(0),
            scalar_views(builder.variables@) == seq![0nat],
            builder.lookup_table@.len() == 0,
            builder.public_inputs@ == Map::<usize, nat>::empty(),
            builder.intended_pi_pos@.len() == 0,
    {
        let mut perm = Permutation::new();
        let zero_var = perm.new_variable();
        let mut variables: Vec<Scalar> = Vec::with_capacity(circuit_size);
        variables.push(Scalar::zero());
        let builder = CircuitBuilder {
            n: 0,
            q_m: Vec::with_capacity(circuit_size),
            q_l: Vec::with_capacity(circuit_size),
            q_r: Vec::with_capacity(circuit_size),
            q_o: Vec::with_capacity(circuit_size),
            q_4: Vec::with_capacity(circuit_size),
            q_c: Vec::with_capacity(circuit_size),
            q_lookup: Vec::with_capacity(circuit_size),
            w_l: Vec::with_capacity(circuit_size),
            w_r: Vec::with_capacity(circuit_size),
            w_o: Vec::with_capacity(circuit_size),
            w_4: Vec::with_capacity(circuit_size),
            lookup_table: LookupTable::new(),
            perm,
            public_inputs: PublicInputs::new(),
            intended_pi_pos: Vec::new(),
            variables,
            zero_var,
            curve: PhantomData,
        };
        proof {
            reveal(CircuitBuilder::wf);
            assert(scalar_views(builder.variables@) =~= seq![0nat]);
            lemma_total_new_variable(Seq::<Seq<WireData>>::empty());
        }
        builder
    }

    /// The variable that is bound to zero.
    pub fn zero_var(&self) -> (v: Variable)
        ensures
            v == self.zero_var,
    {
        self.zero_var
    }

    /// Allocates a variable and binds it to `s`.
    pub fn add_input(&mut self, s: Scalar) -> (var: Variable)
        requires
            old(self).wf(),
        ensures
            final(self).wf(),
            var.0 == old(self).variables@.len(),
            final(self).extends(old(self), seq![s@], Seq::empty()),
            final(self).allocated(var),
            final(self).value(var) == s@,
            final(self).keeps_values(old(self)),
            final(self).n == old(self).n,
            final(self).variables@.len() == old(self).variables@.len() + 1,
            final(self).all_satisfied() <==> old(self).all_satisfied(),
    {
        let var = self.perm.new_variable();
        s.reduced();
        self.variables.push(s);
        proof {
            reveal(CircuitBuilder::wf);
            lemma_new_variable_keeps(old(self).perm@, self.n as int);
            lemma_total_new_variable(old(self).perm@);
            assert(scalar_views(self.variables@) =~= scalar_views(old(self).variables@) + seq![
                s@,
            ]);
            assert forall|v: int, j: int| in_record(self.perm@, v, j) implies self.wire(
                #[trigger] self.perm@[v][j],
            ) == Variable(v as usize) by {
                assert(in_record(old(self).perm@, v, j));
                assert(old(self).perm@[v][j] == self.perm@[v][j]);
            }
            assert(self.perm@ =~= old(self).perm@ + Seq::new(
                1,
                |k: int| Seq::<WireData>::empty(),
            ));
            self.lemma_extends_without_rows(old(self), seq![s@]);
            self.lemma_extends_gates(old(self), seq![s@], Seq::empty());
            self.lemma_extends_keeps_values(old(self), seq![s@], Seq::empty());
            self.lemma_extends_all_satisfied(old(self), seq![s@], Seq::empty());
        }
        var
    }

    /// Appends one gate: its selectors and wires to the vectors, its
    /// public input to the public inputs, and its wire positions to the
    /// record of the permutation.
    pub(crate) fn push_gate(
        &mut self,
        a: Variable,
        b: Variable,
        c: Variable,
        d: Variable,
        q_m: Scalar,
        q_l: Scalar,
        q_r: Scalar,
        q_o: Scalar,
        q_4: Scalar,
        q_c: Scalar,
        q_lookup: Scalar,
        pi: Option<Scalar>,
    )
        requires
            old(self).wf(),
            old(self).allocated(a),
            old(self).allocated(b),
            old(self).allocated(c),
            old(self).allocated(d),
        ensures
            final(self).wf(),
            final(self).extends(
                old(self),
                Seq::empty(),
                seq![gate_row(a, b, c, d, q_m, q_l, q_r, q_o, q_4, q_c, q_lookup, pi)],
            ),
    {
        let ghost row = gate_row(a, b, c, d, q_m, q_l, q_r, q_o, q_4, q_c, q_lookup, pi);
        proof {
            old(self).lemma_wf_public_inputs();
            old(self).lemma_wf_basics();
            old(self).lemma_wf_lengths();
        }
        self.w_l.push(a);
        self.w_r.push(b);
        self.w_o.push(c);
        self.w_4.push(d);
        self.q_m.push(q_m);
        self.q_l.push(q_l);
        self.q_r.push(q_r);
        self.q_o.push(q_o);
        self.q_4.push(q_4);
        self.q_c.push(q_c);
        self.q_lookup.push(q_lookup);
        if let Some(value) = pi {
            let inserted = self.public_inputs.insert(self.n, value);
            assert(inserted is Ok);
            self.intended_pi_pos.push(self.n);
        }
        self.perm.add_variables_to_map(a, b, c, d, self.n);
        self.n = self.q_m.len();
        proof {
            let pre = old(self);
            assert(scalar_views(self.q_m@) =~= scalar_views(pre.q_m@).push(row.q_m));
            assert(scalar_views(self.q_l@) =~= scalar_views(pre.q_l@).push(row.q_l));
            assert(scalar_views(self.q_r@) =~= scalar_views(pre.q_r@).push(row.q_r));
            assert(scalar_views(self.q_o@) =~= scalar_views(pre.q_o@).push(row.q_o));
            assert(scalar_views(self.q_4@) =~= scalar_views(pre.q_4@).push(row.q_4));
            assert(scalar_views(self.q_c@) =~= scalar_views(pre.q_c@).push(row.q_c));
            assert(scalar_views(self.q_lookup@) =~= scalar_views(pre.q_lookup@).push(
                row.q_lookup,
            ));
            pre.lemma_wf_basics();
            assert(self.appends_row(pre, row));
            self.lemma_appended_wf(pre, row);
            self.lemma_appended_extends(pre, row);
        }
    }

    /// This builder is `pre` with one more gate, which has the given row.
    pub open spec fn appends_row(&self, pre: &Self, row: GateRow) -> bool {
        &&& self.n == pre.n + 1
        &&& self.variables@ == pre.variables@
        &&& self.zero_var == pre.zero_var
        &&& self.lookup_table@ == pre.lookup_table@
        &&& scalar_views(self.q_m@) == scalar_views(pre.q_m@).push(row.q_m)
        &&& scalar_views(self.q_l@) == scalar_views(pre.q_l@).push(row.q_l)
        &&& scalar_views(self.q_r@) == scalar_views(pre.q_r@).push(row.q_r)
        &&& scalar_views(self.q_o@) == scalar_views(pre.q_o@).push(row.q_o)
        &&& scalar_views(self.q_4@) == scalar_views(pre.q_4@).push(row.q_4)
        &&& scalar_views(self.q_c@) == scalar_views(pre.q_c@).push(row.q_c)
        &&& scalar_views(self.q_lookup@) == scalar_views(pre.q_lookup@).push(row.q_lookup)
        &&& self.w_l@ == pre.w_l@.push(row.a)
        &&& self.w_r@ == pre.w_r@.push(row.b)
        &&& self.w_o@ == pre.w_o@.push(row.c)
        &&& self.w_4@ == pre.w_4@.push(row.d)
        &&& self.perm@ == record_gate(
            pre.perm@,
            row.a.0 as int,
            row.b.0 as int,
            row.c.0 as int,
            row.d.0 as int,
            pre.n,
        )
        &&& self.public_inputs.wf()
        &&& self.public_inputs@ == (match row.pi {
            Some(value) => pre.public_inputs@.insert(pre.n, value),
            None => pre.public_inputs@,
        })
        &&& self.intended_pi_pos@ == (match row.pi {
            Some(_) => pre.intended_pi_pos@.push(pre.n),
            None => pre.intended_pi_pos@,
        })
    }

    /// A well-formed builder with one more gate on allocated variables is
    /// well formed.
    proof fn lemma_appended_wf(&self, pre: &Self, row: GateRow)
        requires
            pre.wf(),
            pre.allocated(row.a),
            pre.allocated(row.b),
            pre.allocated(row.c),
            pre.allocated(row.d),
            self.appends_row(pre, row),
        ensures
            self.wf(),
    {
        reveal(CircuitBuilder::wf);
        lemma_record_gate_keeps(
            pre.perm@,
            row.a.0 as int,
            row.b.0 as int,
            row.c.0 as int,
            row.d.0 as int,
            pre.n,
        );
        assert(scalar_views(self.q_m@).len() == self.q_m@.len());
        assert(scalar_views(self.q_l@).len() == self.q_l@.len());
        assert(scalar_views(self.q_r@).len() == self.q_r@.len());
        assert(scalar_views(self.q_o@).len() == self.q_o@.len());
        assert(scalar_views(self.q_4@).len() == self.q_4@.len());
        assert(scalar_views(self.q_c@).len() == self.q_c@.len());
        assert(scalar_views(self.q_lookup@).len() == self.q_lookup@.len());
        assert(scalar_views(pre.q_m@).len() == pre.q_m@.len());
        assert(scalar_views(pre.q_l@).len() == pre.q_l@.len());
        assert(scalar_views(pre.q_r@).len() == pre.q_r@.len());
        assert(scalar_views(pre.q_o@).len() == pre.q_o@.len());
        assert(scalar_views(pre.q_4@).len() == pre.q_4@.len());
        assert(scalar_views(pre.q_c@).len() == pre.q_c@.len());
        assert(scalar_views(pre.q_lookup@).len() == pre.q_lookup@.len());
        assert forall|v: int, j: int| in_record(self.perm@, v, j) implies self.wire(
            #[trigger] self.perm@[v][j],
        ) == Variable(v as usize) by {
            lemma_record_gate_positions(pre.perm@, row, pre.n, v);
            if j < pre.perm@[v].len() {
                assert(in_record(pre.perm@, v, j));
                assert(self.perm@[v][j] == pre.perm@[v][j]);
                assert(pre.perm@[v][j].gate() < pre.n);
                assert(pre.wire(pre.perm@[v][j]) == Variable(v as usize));
            } else {
                let k = j - pre.perm@[v].len();
                assert(self.perm@[v][j] == row_positions(row, v, pre.n)[k]);
            }
        }
        assert forall|k: int|
            0 <= k < self.intended_pi_pos@.len() implies self.public_inputs@.contains_key(
        #[trigger] self.intended_pi_pos@[k]) by {
            if k < pre.intended_pi_pos@.len() {
                assert(pre.public_inputs@.contains_key(pre.intended_pi_pos@[k]));
            }
        }
        assert forall|i: int| 0 <= i < self.n implies self.allocated(#[trigger] self.w_l@[i]) by {
            if i < pre.n {
                assert(pre.allocated(pre.w_l@[i]));
            }
        }
        assert forall|i: int| 0 <= i < self.n implies self.allocated(#[trigger] self.w_r@[i]) by {
            if i < pre.n {
                assert(pre.allocated(pre.w_r@[i]));
            }
        }
        assert forall|i: int| 0 <= i < self.n implies self.allocated(#[trigger] self.w_o@[i]) by {
            if i < pre.n {
                assert(pre.allocated(pre.w_o@[i]));
            }
        }
        assert forall|i: int| 0 <= i < self.n implies self.allocated(#[trigger] self.w_4@[i]) by {
            if i < pre.n {
                assert(pre.allocated(pre.w_4@[i]));
            }
        }
    }

    /// A builder with one more gate extends the builder before by that
    /// gate.
    proof fn lemma_appended_extends(&self, pre: &Self, row: GateRow)
        requires
            row.a.0 < pre.perm@.len(),
            row.b.0 < pre.perm@.len(),
            row.c.0 < pre.perm@.len(),
            row.d.0 < pre.perm@.len(),
            self.appends_row(pre, row),
        ensures
            self.extends(pre, Seq::empty(), seq![row]),
    {
        reveal(CircuitBuilder::extends);
        let rows = seq![row];
        let fresh = Seq::<nat>::empty();
        assert(rows.drop_last() =~= Seq::<GateRow>::empty());
        assert(rows.last() == row);
        assert(scalar_views(self.variables@) =~= scalar_views(pre.variables@) + fresh);
        assert(scalar_views(self.q_m@) =~= scalar_views(pre.q_m@) + Seq::new(
            rows.len(),
            |k: int| rows[k].q_m,
        ));
        assert(scalar_views(self.q_l@) =~= scalar_views(pre.q_l@) + Seq::new(
            rows.len(),
            |k: int| rows[k].q_l,
        ));
        assert(scalar_views(self.q_r@) =~= scalar_views(pre.q_r@) + Seq::new(
            rows.len(),
            |k: int| rows[k].q_r,
        ));
        assert(scalar_views(self.q_o@) =~= scalar_views(pre.q_o@) + Seq::new(
            rows.len(),
            |k: int| rows[k].q_o,
        ));
        assert(scalar_views(self.q_4@) =~= scalar_views(pre.q_4@) + Seq::new(
            rows.len(),
            |k: int| rows[k].q_4,
        ));
        assert(scalar_views(self.q_c@) =~= scalar_views(pre.q_c@) + Seq::new(
            rows.len(),
            |k: int| rows[k].q_c,
        ));
        assert(scalar_views(self.q_lookup@) =~= scalar_views(pre.q_lookup@) + Seq::new(
            rows.len(),
            |k: int| rows[k].q_lookup,
        ));
        assert(self.w_l@ =~= pre.w_l@ + Seq::new(rows.len(), |k: int| rows[k].a));
        assert(self.w_r@ =~= pre.w_r@ + Seq::new(rows.len(), |k: int| rows[k].b));
        assert(self.w_o@ =~= pre.w_o@ + Seq::new(rows.len(), |k: int| rows[k].c));
        assert(self.w_4@ =~= pre.w_4@ + Seq::new(rows.len(), |k: int| rows[k].d));
        assert(with_row_inputs(pre.public_inputs@, rows.drop_last(), pre.n as int)
            == pre.public_inputs@);
        assert(row_input_positions(rows.drop_last(), pre.n as int) == Seq::<usize>::empty());
        assert(self.intended_pi_pos@ =~= pre.intended_pi_pos@ + row_input_positions(
            rows,
            pre.n as int,
        ));
        assert forall|v: int| 0 <= v < self.perm@.len() implies #[trigger] self.perm@[v] == (if v
            < pre.perm@.len() {
            pre.perm@[v]
        } else {
            Seq::empty()
        }) + rows_positions(rows, v, pre.n as int) by {
            lemma_record_gate_positions(pre.perm@, row, pre.n, v);
            assert(rows_positions(rows.drop_last(), v, pre.n as int) == Seq::<WireData>::empty());
            assert(rows_positions(rows, v, pre.n as int) =~= row_positions(row, v, pre.n));
        }
    }

    /// Appends a gate with the wires `a`, `b`, `c`, the given selectors
    /// and, if one is given, the public input `pi`. The fourth wire holds
    /// the zero variable, and this gate takes no part in the lookup
    /// argument. Returns the three wires.
    pub fn poly_gate(
        &mut self,
        a: Variable,
        b: Variable,
        c: Variable,
        q_m: Scalar,
        q_l: Scalar,
        q_r: Scalar,
        q_o: Scalar,
        q_c: Scalar,
        pi: Option<Scalar>,
    ) -> (wires: (Variable, Variable, Variable))
        requires
            old(self).wf(),
            old(self).allocated(a),
            old(self).allocated(b),
            old(self).allocated(c),
        ensures
            wires == (a, b, c),
            final(self).wf(),
            final(self).extends(
                old(self),
                Seq::empty(),
                seq![
                    GateRow {
                        a,
                        b,
                        c,
                        d: old(self).zero_var,
                        q_m: q_m@,
                        q_l: q_l@,
                        q_r: q_r@,
                        q_o: q_o@,
                        q_4: 0,
                        q_c: q_c@,
                        q_lookup: 0,
                        pi: match pi {
                            Some(value) => Some(value@),
                            None => None,
                        },
                    },
                ],
            ),
            final(self).gate_total(old(self).n as int) == gate_sum(
                q_m@,
                q_l@,
                q_r@,
                q_o@,
                0,
                q_c@,
                match pi {
                    Some(value) => value@,
                    None => 0,
                },
                old(self).value(a),
                old(self).value(b),
                old(self).value(c),
                0,
            ),
            final(self).all_satisfied() <==> old(self).all_satisfied()
                && final(self).gate_satisfied(old(self).n as int),
            final(self).keeps_values(old(self)),
            final(self).n == old(self).n + 1,
            final(self).variables@.len() == old(self).variables@.len(),
    {
        let zero = self.zero_var;
        proof {
            self.lemma_wf_basics();
        }
        self.push_gate(
            a,
            b,
            c,
            zero,
            q_m,
            q_l,
            q_r,
            q_o,
            Scalar::zero(),
            q_c,
            Scalar::zero(),
            pi,
        );
        proof {
            let row = GateRow {
                a,
                b,
                c,
                d: zero,
                q_m: q_m@,
                q_l: q_l@,
                q_r: q_r@,
                q_o: q_o@,
                q_4: 0,
                q_c: q_c@,
                q_lookup: 0,
                pi: match pi {
                    Some(value) => Some(value@),
                    None => None,
                },
            };
            self.lemma_extends_gates(old(self), Seq::empty(), seq![row]);
            self.lemma_extends_all_satisfied(old(self), Seq::empty(), seq![row]);
            self.lemma_extends_keeps_values(old(self), Seq::empty(), seq![row]);
            assert(self.gate_total(old(self).n as int) == self.row_total(seq![row][0]));
        }
        (a, b, c)
    }

    /// Binds the gates `pos`, `pos + 1`, ... to the given public inputs, in
    /// their order, and notes these positions as given. Fails with
    /// `PositionAlreadyTaken`, and changes nothing, where one of the
    /// positions already holds a public input.
    pub fn add_pi(&mut self, pos: usize, items: &Vec<Scalar>) -> (r: Result<(), Error>)
        requires
            old(self).wf(),
            pos + items@.len() <= old(self).n,
        ensures
            final(self).wf(),
            match r {
                Ok(_) => {
                    &&& old(self).public_inputs.range_free(pos, items@.len())
                    &&& final(self).public_inputs@ == extend_map(
                        old(self).public_inputs@,
                        pos,
                        items@,
                        items@.len(),
                    )
                    &&& final(self).intended_pi_pos@ == old(self).intended_pi_pos@ + Seq::new(
                        items@.len(),
                        |k: int| (pos + k) as usize,
                    )
                    &&& final(self).same_gates(old(self))
                    &&& final(self).lookup_table@ == old(self).lookup_table@
                    &&& forall|i: int|
                        0 <= i < old(self).n ==> #[trigger] final(self).gate_total(i)
                            == old(self).gate_total(i) + (if pos <= i < pos + items@.len() {
                            items@[i - pos]@
                        } else {
                            0
                        })
                },
                Err(e) => {
                    &&& e == Error::PositionAlreadyTaken
                    &&& !old(self).public_inputs.range_free(pos, items@.len())
                    &&& *final(self) == *old(self)
                },
            },
    {
        proof {
            reveal(CircuitBuilder::wf);
        }
        let added = self.public_inputs.add_input(pos, items);
        match added {
            Ok(n_positions) => {
                proof {
                    lemma_extend_domain(old(self).public_inputs@, pos, items@, items@.len());
                }
                let mut k: usize = 0;
                while k < n_positions
                    invariant
                        n_positions == items@.len(),
                        pos + items@.len() <= self.n,
                        k <= n_positions,
                        self.same_gates(old(self)),
                        self.lookup_table == old(self).lookup_table,
                        self.public_inputs.wf(),
                        self.public_inputs@ == extend_map(
                            old(self).public_inputs@,
                            pos,
                            items@,
                            items@.len(),
                        ),
                        self.intended_pi_pos@ == old(self).intended_pi_pos@ + Seq::new(
                            k as nat,
                            |i: int| (pos + i) as usize,
                        ),
                    decreases n_positions - k,
                {
                    self.intended_pi_pos.push(pos + k);
                    assert(self.intended_pi_pos@ =~= old(self).intended_pi_pos@ + Seq::new(
                        (k + 1) as nat,
                        |i: int| (pos + i) as usize,
                    ));
                    k += 1;
                }
                proof {
                    assert forall|k: int|
                        0 <= k
                            < self.intended_pi_pos@.len() implies self.public_inputs@.contains_key(
                    #[trigger] self.intended_pi_pos@[k]) by {
                        if k < old(self).intended_pi_pos@.len() {
                            assert(old(self).public_inputs@.contains_key(
                                old(self).intended_pi_pos@[k],
                            ));
                        }
                    }
                    assert forall|v: int, j: int| in_record(self.perm@, v, j) implies self.wire(
                        #[trigger] self.perm@[v][j],
                    ) == Variable(v as usize) by {
                        assert(old(self).wire(old(self).perm@[v][j]) == Variable(v as usize));
                    }
                    assert forall|i: int| 0 <= i < old(self).n implies #[trigger] self.gate_total(
                        i,
                    ) == old(self).gate_total(i) + (if pos <= i < pos + items@.len() {
                        items@[i - pos]@
                    } else {
                        0
                    }) by {
                        lemma_extend_values(
                            old(self).public_inputs@,
                            pos,
                            items@,
                            items@.len(),
                            i as usize,
                        );
                    }
                }
                Ok(())
            },
            Err(e) => Err(e),
        }
    }

    /// This builder has the gates, the variables and the permutation record
    /// of `pre`.
    pub open spec fn same_gates(&self, pre: &Self) -> bool {
        &&& self.n == pre.n
        &&& self.variables@ == pre.variables@
        &&& self.zero_var == pre.zero_var
        &&& self.q_m@ == pre.q_m@
        &&& self.q_l@ == pre.q_l@
        &&& self.q_r@ == pre.q_r@
        &&& self.q_o@ == pre.q_o@
        &&& self.q_4@ == pre.q_4@
        &&& self.q_c@ == pre.q_c@
        &&& self.q_lookup@ == pre.q_lookup@
        &&& self.w_l@ == pre.w_l@
        &&& self.w_r@ == pre.w_r@
        &&& self.w_o@ == pre.w_o@
        &&& self.w_4@ == pre.w_4@
        &&& self.perm@ == pre.perm@
    }

    /// The left-hand side of the equation of a gate with the given row
    /// under the values of the variables, over the integers.
    pub open spec fn row_total(&self, row: GateRow) -> nat {
        gate_sum(
            row.q_m,
            row.q_l,
            row.q_r,
            row.q_o,
            row.q_4,
            row.q_c,
            match row.pi {
                Some(value) => value,
                None => 0,
            },
            self.value(row.a),
            self.value(row.b),
            self.value(row.c),
            self.value(row.d),
        )
    }

    /// What an extension means for values and gate equations: the old
    /// variables keep their values, the new ones have the new values, the
    /// old gates keep their equations, and each new gate has the equation
    /// of its row.
    pub proof fn lemma_extends_gates(&self, pre: &Self, fresh: Seq<nat>, rows: Seq<GateRow>)
        requires
            pre.wf(),
            self.extends(pre, fresh, rows),
        ensures
            self.n == pre.n + rows.len(),
            self.variables@.len() == pre.variables@.len() + fresh.len(),
            self.zero_var == pre.zero_var,
            forall|v: Variable| pre.allocated(v) ==> #[trigger] self.value(v) == pre.value(v),
            forall|v: Variable|
                pre.variables@.len() <= v.0 < pre.variables@.len() + fresh.len()
                    ==> #[trigger] self.value(v) == fresh[v.0 - pre.variables@.len()],
            forall|i: int| 0 <= i < pre.n ==> #[trigger] self.gate_total(i) == pre.gate_total(i),
            forall|i: int|
                pre.n <= i < self.n ==> #[trigger] self.gate_total(i) == self.row_total(
                    rows[i - pre.n],
                ),
    {
        reveal(CircuitBuilder::wf);
        reveal(CircuitBuilder::extends);
        assert(scalar_views(self.variables@).len() == self.variables@.len());
        assert(scalar_views(pre.variables@).len() == pre.variables@.len());
        assert forall|v: Variable| pre.allocated(v) implies #[trigger] self.value(v) == pre.value(
            v,
        ) by {
            assert(scalar_views(self.variables@).len() == self.variables@.len());
            assert(scalar_views(pre.variables@).len() == pre.variables@.len());
            assert(scalar_views(self.variables@)[v.0 as int] == scalar_views(
                pre.variables@,
            )[v.0 as int]);
            assert(scalar_views(self.variables@)[v.0 as int] == self.variables@[v.0 as int]@);
        }
        assert forall|v: Variable|
            pre.variables@.len() <= v.0 < pre.variables@.len()
                + fresh.len() implies #[trigger] self.value(v) == fresh[v.0
            - pre.variables@.len()] by {
            assert(scalar_views(self.variables@).len() == self.variables@.len());
            assert(scalar_views(pre.variables@).len() == pre.variables@.len());
            assert(scalar_views(self.variables@)[v.0 as int] == fresh[v.0
                - pre.variables@.len()]);
            assert(scalar_views(self.variables@)[v.0 as int] == self.variables@[v.0 as int]@);
        }
        assert forall|i: int| 0 <= i < pre.n implies #[trigger] self.gate_total(i)
            == pre.gate_total(i) by {
            let count = rows.len();
            lemma_extended_column(self.q_m@, pre.q_m@, Seq::new(count, |k: int| rows[k].q_m), i);
            lemma_extended_column(self.q_l@, pre.q_l@, Seq::new(count, |k: int| rows[k].q_l), i);
            lemma_extended_column(self.q_r@, pre.q_r@, Seq::new(count, |k: int| rows[k].q_r), i);
            lemma_extended_column(self.q_o@, pre.q_o@, Seq::new(count, |k: int| rows[k].q_o), i);
            lemma_extended_column(self.q_4@, pre.q_4@, Seq::new(count, |k: int| rows[k].q_4), i);
            lemma_extended_column(self.q_c@, pre.q_c@, Seq::new(count, |k: int| rows[k].q_c), i);
            assert(self.w_l@[i] == pre.w_l@[i]);
            assert(self.w_r@[i] == pre.w_r@[i]);
            assert(self.w_o@[i] == pre.w_o@[i]);
            assert(self.w_4@[i] == pre.w_4@[i]);
            assert(pre.allocated(pre.w_l@[i]));
            assert(pre.allocated(pre.w_r@[i]));
            assert(pre.allocated(pre.w_o@[i]));
            assert(pre.allocated(pre.w_4@[i]));
            lemma_row_inputs_keep(pre.public_inputs@, rows, pre.n as int, i as usize);
        }
        assert forall|i: int| pre.n <= i < self.n implies #[trigger] self.gate_total(i)
            == self.row_total(rows[i - pre.n]) by {
            let k = i - pre.n;
            let count = rows.len();
            lemma_extended_column(self.q_m@, pre.q_m@, Seq::new(count, |k: int| rows[k].q_m), i);
            lemma_extended_column(self.q_l@, pre.q_l@, Seq::new(count, |k: int| rows[k].q_l), i);
            lemma_extended_column(self.q_r@, pre.q_r@, Seq::new(count, |k: int| rows[k].q_r), i);
            lemma_extended_column(self.q_o@, pre.q_o@, Seq::new(count, |k: int| rows[k].q_o), i);
            lemma_extended_column(self.q_4@, pre.q_4@, Seq::new(count, |k: int| rows[k].q_4), i);
            lemma_extended_column(self.q_c@, pre.q_c@, Seq::new(count, |k: int| rows[k].q_c), i);
            assert(self.w_l@[i] == rows[k].a);
            assert(self.w_r@[i] == rows[k].b);
            assert(self.w_o@[i] == rows[k].c);
            assert(self.w_4@[i] == rows[k].d);
            lemma_row_inputs_new(pre.public_inputs@, rows, pre.n as int, k);
            assert(!pre.public_inputs@.contains_key(i as usize));
        }
    }

    /// An extension of an extension is an extension: by the new variables
    /// of the first followed by those of the second, and by the new gates
    /// of the first followed by those of the second.
    pub proof fn lemma_extends_compose(
        &self,
        mid: &Self,
        pre: &Self,
        fresh_1: Seq<nat>,
        rows_1: Seq<GateRow>,
        fresh_2: Seq<nat>,
        rows_2: Seq<GateRow>,
    )
        requires
            pre.wf(),
            mid.wf(),
            mid.extends(pre, fresh_1, rows_1),
            self.extends(mid, fresh_2, rows_2),
        ensures
            self.extends(pre, fresh_1 + fresh_2, rows_1 + rows_2),
    {
        reveal(CircuitBuilder::wf);
        reveal(CircuitBuilder::extends);
        let fresh = fresh_1 + fresh_2;
        let rows = rows_1 + rows_2;
        assert(scalar_views(self.variables@) =~= scalar_views(pre.variables@) + fresh);
        assert(scalar_views(self.q_m@) =~= scalar_views(pre.q_m@) + Seq::new(
            rows.len(),
            |k: int| rows[k].q_m,
        ));
        assert(scalar_views(self.q_l@) =~= scalar_views(pre.q_l@) + Seq::new(
            rows.len(),
            |k: int| rows[k].q_l,
        ));
        assert(scalar_views(self.q_r@) =~= scalar_views(pre.q_r@) + Seq::new(
            rows.len(),
            |k: int| rows[k].q_r,
        ));
        assert(scalar_views(self.q_o@) =~= scalar_views(pre.q_o@) + Seq::new(
            rows.len(),
            |k: int| rows[k].q_o,
        ));
        assert(scalar_views(self.q_4@) =~= scalar_views(pre.q_4@) + Seq::new(
            rows.len(),
            |k: int| rows[k].q_4,
        ));
        assert(scalar_views(self.q_c@) =~= scalar_views(pre.q_c@) + Seq::new(
            rows.len(),
            |k: int| rows[k].q_c,
        ));
        assert(scalar_views(self.q_lookup@) =~= scalar_views(pre.q_lookup@) + Seq::new(
            rows.len(),
            |k: int| rows[k].q_lookup,
        ));
        assert(self.w_l@ =~= pre.w_l@ + Seq::new(rows.len(), |k: int| rows[k].a));
        assert(self.w_r@ =~= pre.w_r@ + Seq::new(rows.len(), |k: int| rows[k].b));
        assert(self.w_o@ =~= pre.w_o@ + Seq::new(rows.len(), |k: int| rows[k].c));
        assert(self.w_4@ =~= pre.w_4@ + Seq::new(rows.len(), |k: int| rows[k].d));
        lemma_row_inputs_concat(pre.public_inputs@, rows_1, rows_2, pre.n as int);
        assert(self.intended_pi_pos@ =~= pre.intended_pi_pos@ + row_input_positions(
            rows,
            pre.n as int,
        ));
        assert forall|v: int| 0 <= v < self.perm@.len() implies #[trigger] self.perm@[v] == (if v
            < pre.perm@.len() {
            pre.perm@[v]
        } else {
            Seq::empty()
        }) + rows_positions(rows, v, pre.n as int) by {
            lemma_rows_positions_concat(rows_1, rows_2, v, pre.n as int);
            if v >= mid.perm@.len() {
                assert forall|k: int| 0 <= k < rows_1.len() implies (#[trigger] rows_1[k]).a.0 != v
                    && rows_1[k].b.0 != v && rows_1[k].c.0 != v && rows_1[k].d.0 != v by {
                    assert(mid.w_l@[pre.n + k] == rows_1[k].a);
                    assert(mid.w_r@[pre.n + k] == rows_1[k].b);
                    assert(mid.w_o@[pre.n + k] == rows_1[k].c);
                    assert(mid.w_4@[pre.n + k] == rows_1[k].d);
                    assert(mid.allocated(mid.w_l@[pre.n + k]));
                    assert(mid.allocated(mid.w_r@[pre.n + k]));
                    assert(mid.allocated(mid.w_o@[pre.n + k]));
                    assert(mid.allocated(mid.w_4@[pre.n + k]));
                }
                lemma_rows_positions_absent(rows_1, v, pre.n as int);
            }
            assert(self.perm@[v] =~= (if v < pre.perm@.len() {
                pre.perm@[v]
            } else {
                Seq::empty()
            }) + rows_positions(rows, v, pre.n as int));
        }
    }

    /// Appends a gate as the descriptor describes it and returns the
    /// variable on its output wire. Where the descriptor names no output
    /// wire, a new variable is allocated for it and bound to the one value
    /// that satisfies this gate.
    pub fn arithmetic_gate(&mut self, gate: ArithmeticGate) -> (out: Variable)
        requires
            old(self).wf(),
            gate.witness is Some,
            old(self).allocated((gate.witness->0).0),
            old(self).allocated((gate.witness->0).1),
            (gate.witness->0).2 is Some ==> old(self).allocated((gate.witness->0).2->0),
            (gate.witness->0).2 is None ==> gate.out_selector@ != 0,
            gate.fan_in_3 is Some ==> old(self).allocated((gate.fan_in_3->0).1),
        ensures
            final(self).wf(),
            (gate.witness->0).2 is Some ==> out == (gate.witness->0).2->0 && final(self).extends(
                old(self),
                Seq::empty(),
                seq![descriptor_row(gate, out, old(self).zero_var)],
            ),
            (gate.witness->0).2 is None ==> out.0 == old(self).variables@.len()
                && final(self).extends(
                old(self),
                seq![final(self).value(out)],
                seq![descriptor_row(gate, out, old(self).zero_var)],
            ),
            (gate.witness->0).2 is None ==> final(self).gate_satisfied(old(self).n as int),
            final(self).gate_total(old(self).n as int) == final(self).row_total(
                descriptor_row(gate, out, old(self).zero_var),
            ),
            final(self).all_satisfied() <==> old(self).all_satisfied()
                && final(self).gate_satisfied(old(self).n as int),
            final(self).keeps_values(old(self)),
            final(self).allocated(out),
            final(self).n == old(self).n + 1,
            (gate.witness->0).2 is None ==> final(self).value(out) == solved_output(
                descriptor_row(gate, out, old(self).zero_var),
                old(self).value((gate.witness->0).0),
                old(self).value((gate.witness->0).1),
                old(self).value(descriptor_row(gate, out, old(self).zero_var).d),
            ),
    {
        proof {
            self.lemma_wf_basics();
        }
        let (w_l, w_r, w_o) = gate.witness.unwrap();
        let (q_4, w_4) = match gate.fan_in_3 {
            Some(pair) => pair,
            None => (Scalar::zero(), self.zero_var),
        };
        match w_o {
            Some(c) => {
                self.push_gate(
                    w_l,
                    w_r,
                    c,
                    w_4,
                    gate.mul_selector,
                    gate.add_selectors.0,
                    gate.add_selectors.1,
                    gate.out_selector,
                    q_4,
                    gate.const_selector,
                    Scalar::zero(),
                    gate.pi,
                );
                proof {
                    let row = descriptor_row(gate, c, old(self).zero_var);
                    self.lemma_extends_gates(old(self), Seq::empty(), seq![row]);
                    self.lemma_extends_all_satisfied(old(self), Seq::empty(), seq![row]);
                    self.lemma_extends_keeps_values(old(self), Seq::empty(), seq![row]);
                    assert(self.gate_total(old(self).n as int) == self.row_total(seq![row][0]));
                }
                c
            },
            None => {
                let pi = match gate.pi {
                    Some(value) => value,
                    None => Scalar::zero(),
                };
                let a = self.variables[w_l.0];
                let b = self.variables[w_r.0];
                let d = self.variables[w_4.0];
                let rest = rest_value(
                    &gate.mul_selector,
                    &gate.add_selectors.0,
                    &gate.add_selectors.1,
                    &q_4,
                    &gate.const_selector,
                    &pi,
                    &a,
                    &b,
                    &d,
                );
                gate.out_selector.reduced();
                let minus_q = gate.out_selector.neg();
                proof {
                    if minus_q@ == 0 {
                        lemma_neg_mod_zero(gate.out_selector@);
                    }
                }
                let inverse = minus_q.inverse().unwrap();
                let value = rest.mul(&inverse);
                let c = self.add_input(value);
                let ghost mid = *self;
                self.push_gate(
                    w_l,
                    w_r,
                    c,
                    w_4,
                    gate.mul_selector,
                    gate.add_selectors.0,
                    gate.add_selectors.1,
                    gate.out_selector,
                    q_4,
                    gate.const_selector,
                    Scalar::zero(),
                    gate.pi,
                );
                proof {
                    let pre = old(self);
                    let row = descriptor_row(gate, c, pre.zero_var);
                    let fresh = seq![value@];
                    let rows = seq![row];
                    self.lemma_extends_compose(
                        &mid,
                        pre,
                        fresh,
                        Seq::empty(),
                        Seq::empty(),
                        rows,
                    );
                    assert(fresh + Seq::<nat>::empty() =~= fresh);
                    assert(Seq::<GateRow>::empty() + rows =~= rows);
                    self.lemma_extends_gates(pre, fresh, rows);
                    self.lemma_extends_all_satisfied(pre, fresh, rows);
                    self.lemma_extends_keeps_values(pre, fresh, rows);
                    self.lemma_extends_new_values(pre, fresh, rows);
                    assert(self.value(c) == value@);
                    assert(self.value(w_l) == a@);
                    assert(self.value(w_r) == b@);
                    assert(self.value(w_4) == d@);
                    assert(self.gate_total(pre.n as int) == self.row_total(rows[0]));
                    lemma_solved_output(row, a@, b@, d@, minus_q@, inverse@, value@);
                }
                c
            },
        }
    }

    /// After an extension every gate is satisfied exactly when every old
    /// gate was satisfied and every new gate is.
    pub proof fn lemma_extends_all_satisfied(
        &self,
        pre: &Self,
        fresh: Seq<nat>,
        rows: Seq<GateRow>,
    )
        requires
            pre.wf(),
            self.extends(pre, fresh, rows),
        ensures
            self.all_satisfied() <==> pre.all_satisfied() && forall|i: int|
                pre.n <= i < self.n ==> self.gate_satisfied(i),
    {
        self.lemma_extends_gates(pre, fresh, rows);
        self.lemma_extends_new_values(pre, fresh, rows);
        if self.all_satisfied() {
            assert forall|i: int| 0 <= i < pre.n implies pre.gate_satisfied(i) by {
                assert(self.gate_satisfied(i));
                assert(self.gate_total(i) == pre.gate_total(i));
            }
        }
        if pre.all_satisfied() && forall|i: int| pre.n <= i < self.n ==> self.gate_satisfied(i) {
            assert forall|i: int| 0 <= i < self.n implies self.gate_satisfied(i) by {
                if i < pre.n {
                    assert(pre.gate_satisfied(i));
                    assert(self.gate_total(i) == pre.gate_total(i));
                }
            }
        }
    }

    /// The values of the variables that this builder has allocated after
    /// `pre`, in the order of their allocation.
    pub open spec fn new_values(&self, pre: &Self) -> Seq<nat> {
        scalar_views(self.variables@).skip(pre.variables@.len() as int)
    }

    /// The new values of an extension are the values of the variables
    /// allocated after `pre`.
    pub proof fn lemma_extends_new_values(&self, pre: &Self, fresh: Seq<nat>, rows: Seq<GateRow>)
        requires
            self.extends(pre, fresh, rows),
        ensures
            self.new_values(pre) == fresh,
            self.variables@.len() == pre.variables@.len() + fresh.len(),
            self.n == pre.n + rows.len(),
            self.zero_var == pre.zero_var,
            self.lookup_table@ == pre.lookup_table@,
    {
        reveal(CircuitBuilder::extends);
        assert(scalar_views(self.variables@).len() == self.variables@.len());
        assert(scalar_views(pre.variables@).len() == pre.variables@.len());
        assert(self.new_values(pre) =~= fresh);
    }

    /// A builder extends itself by no variable and no gate.
    pub proof fn lemma_extends_itself(&self)
        ensures
            self.extends(self, Seq::empty(), Seq::empty()),
    {
        assert(scalar_views(self.variables@) =~= scalar_views(self.variables@) + Seq::<
            nat,
        >::empty());
        assert(self.perm@ =~= self.perm@ + Seq::new(0, |k: int| Seq::<WireData>::empty()));
        self.lemma_extends_without_rows(self, Seq::empty());
    }

    /// What the invariant says of the variables and of the record: the zero
    /// variable is allocated and bound to zero, every value is an element of
    /// the field, and the record has an entry for every variable, holds no
    /// position twice and holds only positions of gates of the builder.
    pub proof fn lemma_wf_basics(&self)
        requires
            self.wf(),
        ensures
            self.allocated(self.zero_var),
            self.value(self.zero_var) == 0,
            forall|v: Variable| self.allocated(v) ==> #[trigger] self.value(v) < modulus(),
            self.perm@.len() == self.variables@.len(),
            positions_distinct(self.perm@),
            gates_below(self.perm@, self.n as int),
    {
        reveal(CircuitBuilder::wf);
    }

    /// What the invariant says of the public inputs: they are bound to
    /// indices of gates, one to an index.
    pub proof fn lemma_wf_public_inputs(&self)
        requires
            self.wf(),
        ensures
            self.public_inputs.wf(),
            forall|pos: usize| #[trigger] self.public_inputs@.contains_key(pos) ==> pos < self.n,
    {
        reveal(CircuitBuilder::wf);
    }

    /// What the invariant says of the vectors: each has one entry for each
    /// gate.
    pub proof fn lemma_wf_lengths(&self)
        requires
            self.wf(),
        ensures
            self.q_m@.len() == self.n,
            self.q_l@.len() == self.n,
            self.q_r@.len() == self.n,
            self.q_o@.len() == self.n,
            self.q_4@.len() == self.n,
            self.q_c@.len() == self.n,
            self.q_lookup@.len() == self.n,
            self.w_l@.len() == self.n,
            self.w_r@.len() == self.n,
            self.w_o@.len() == self.n,
            self.w_4@.len() == self.n,
    {
        reveal(CircuitBuilder::wf);
    }

    /// The cycle law for the wires of a builder: applying the permutation
    /// of its record as many times as a variable has positions leads from
    /// each position of the variable back to that position.
    pub proof fn lemma_wires_cycle(&self, v: Variable, j: int)
        requires
            self.wf(),
            self.allocated(v),
            0 <= j < self.perm@[v.0 as int].len(),
        ensures
            iterate_sigma(
                self.perm@,
                self.perm@[v.0 as int][j],
                self.perm@[v.0 as int].len(),
            ) == self.perm@[v.0 as int][j],
    {
        self.lemma_wf_basics();
        lemma_sigma_cycle(self.perm@, v.0 as int, j);
    }

    /// Every variable of `pre` is a variable of this builder, with the
    /// value that it has in `pre`.
    pub open spec fn keeps_values(&self, pre: &Self) -> bool {
        forall|v: Variable|
            #![trigger self.value(v)]
            #![trigger self.allocated(v)]
            pre.allocated(v) ==> self.allocated(v) && self.value(v) == pre.value(v)
    }

    /// An extension keeps the variables and their values.
    pub proof fn lemma_extends_keeps_values(
        &self,
        pre: &Self,
        fresh: Seq<nat>,
        rows: Seq<GateRow>,
    )
        requires
            pre.wf(),
            self.extends(pre, fresh, rows),
        ensures
            self.keeps_values(pre),
    {
        self.lemma_extends_gates(pre, fresh, rows);
        self.lemma_extends_new_values(pre, fresh, rows);
    }

    /// A builder with the gates, the variables, the public inputs and the
    /// record of a well-formed builder is well formed.
    pub proof fn lemma_same_gates_wf(&self, pre: &Self)
        requires
            pre.wf(),
            self.same_gates(pre),
            self.public_inputs == pre.public_inputs,
            self.intended_pi_pos@ == pre.intended_pi_pos@,
        ensures
            self.wf(),
    {
        reveal(CircuitBuilder::wf);
        assert forall|v: int, j: int| in_record(self.perm@, v, j) implies self.wire(
            #[trigger] self.perm@[v][j],
        ) == Variable(v as usize) by {
            assert(pre.wire(pre.perm@[v][j]) == Variable(v as usize));
        }
    }

    /// The row of gate `i`, as the vectors and the public inputs hold it.
    pub open spec fn row_at(&self, i: int) -> GateRow {
        GateRow {
            a: self.w_l@[i],
            b: self.w_r@[i],
            c: self.w_o@[i],
            d: self.w_4@[i],
            q_m: self.q_m@[i]@,
            q_l: self.q_l@[i]@,
            q_r: self.q_r@[i]@,
            q_o: self.q_o@[i]@,
            q_4: self.q_4@[i]@,
            q_c: self.q_c@[i]@,
            q_lookup: self.q_lookup@[i]@,
            pi: if self.public_inputs@.contains_key(i as usize) {
                Some(self.public_inputs@[i as usize])
            } else {
                None
            },
        }
    }

    /// What an extension means for the vectors: the old gates keep their
    /// rows, and the new gates have the new rows.
    pub proof fn lemma_extends_rows(&self, pre: &Self, fresh: Seq<nat>, rows: Seq<GateRow>)
        requires
            pre.wf(),
            self.extends(pre, fresh, rows),
        ensures
            self.n == pre.n + rows.len(),
            forall|i: int| 0 <= i < pre.n ==> #[trigger] self.row_at(i) == pre.row_at(i),
            forall|i: int| pre.n <= i < self.n ==> #[trigger] self.row_at(i) == rows[i - pre.n],
    {
        reveal(CircuitBuilder::wf);
        reveal(CircuitBuilder::extends);
        let count = rows.len();
        assert forall|i: int| 0 <= i < pre.n + count implies (i < pre.n ==> self.row_at(i)
            == pre.row_at(i)) && (pre.n <= i ==> #[trigger] self.row_at(i) == rows[i
            - pre.n]) by {
            lemma_extended_column(self.q_m@, pre.q_m@, Seq::new(count, |k: int| rows[k].q_m), i);
            lemma_extended_column(self.q_l@, pre.q_l@, Seq::new(count, |k: int| rows[k].q_l), i);
            lemma_extended_column(self.q_r@, pre.q_r@, Seq::new(count, |k: int| rows[k].q_r), i);
            lemma_extended_column(self.q_o@, pre.q_o@, Seq::new(count, |k: int| rows[k].q_o), i);
            lemma_extended_column(self.q_4@, pre.q_4@, Seq::new(count, |k: int| rows[k].q_4), i);
            lemma_extended_column(self.q_c@, pre.q_c@, Seq::new(count, |k: int| rows[k].q_c), i);
            lemma_extended_column(
                self.q_lookup@,
                pre.q_lookup@,
                Seq::new(count, |k: int| rows[k].q_lookup),
                i,
            );
            if i < pre.n {
                lemma_row_inputs_keep(pre.public_inputs@, rows, pre.n as int, i as usize);
            } else {
                lemma_row_inputs_new(pre.public_inputs@, rows, pre.n as int, i - pre.n);
                assert(!pre.public_inputs@.contains_key(i as usize));
            }
        }
    }

    /// What `extends` asks of selectors, wires and public inputs holds
    /// where they are unchanged and no gate is added.
    proof fn lemma_extends_without_rows(&self, pre: &Self, fresh: Seq<nat>)
        requires
            self.n == pre.n,
            scalar_views(self.variables@) == scalar_views(pre.variables@) + fresh,
            self.zero_var == pre.zero_var,
            self.lookup_table@ == pre.lookup_table@,
            self.q_m@ == pre.q_m@,
            self.q_l@ == pre.q_l@,
            self.q_r@ == pre.q_r@,
            self.q_o@ == pre.q_o@,
            self.q_4@ == pre.q_4@,
            self.q_c@ == pre.q_c@,
            self.q_lookup@ == pre.q_lookup@,
            self.w_l@ == pre.w_l@,
            self.w_r@ == pre.w_r@,
            self.w_o@ == pre.w_o@,
            self.w_4@ == pre.w_4@,
            self.perm@ == pre.perm@ + Seq::new(fresh.len(), |k: int| Seq::<WireData>::empty()),
            self.public_inputs@ == pre.public_inputs@,
            self.intended_pi_pos@ == pre.intended_pi_pos@,
        ensures
            self.extends(pre, fresh, Seq::empty()),
    {
        reveal(CircuitBuilder::extends);
        let rows = Seq::<GateRow>::empty();
        assert(scalar_views(self.q_m@) =~= scalar_views(pre.q_m@) + Seq::new(
            rows.len(),
            |k: int| rows[k].q_m,
        ));
        assert(scalar_views(self.q_l@) =~= scalar_views(pre.q_l@) + Seq::new(
            rows.len(),
            |k: int| rows[k].q_l,
        ));
        assert(scalar_views(self.q_r@) =~= scalar_views(pre.q_r@) + Seq::new(
            rows.len(),
            |k: int| rows[k].q_r,
        ));
        assert(scalar_views(self.q_o@) =~= scalar_views(pre.q_o@) + Seq::new(
            rows.len(),
            |k: int| rows[k].q_o,
        ));
        assert(scalar_views(self.q_4@) =~= scalar_views(pre.q_4@) + Seq::new(
            rows.len(),
            |k: int| rows[k].q_4,
        ));
        assert(scalar_views(self.q_c@) =~= scalar_views(pre.q_c@) + Seq::new(
            rows.len(),
            |k: int| rows[k].q_c,
        ));
        assert(scalar_views(self.q_lookup@) =~= scalar_views(pre.q_lookup@) + Seq::new(
            rows.len(),
            |k: int| rows[k].q_lookup,
        ));
        assert(self.w_l@ =~= pre.w_l@ + Seq::new(rows.len(), |k: int| rows[k].a));
        assert(self.w_r@ =~= pre.w_r@ + Seq::new(rows.len(), |k: int| rows[k].b));
        assert(self.w_o@ =~= pre.w_o@ + Seq::new(rows.len(), |k: int| rows[k].c));
        assert(self.w_4@ =~= pre.w_4@ + Seq::new(rows.len(), |k: int| rows[k].d));
        assert(self.intended_pi_pos@ =~= pre.intended_pi_pos@ + row_input_positions(
            rows,
            pre.n as int,
        ));
        assert forall|v: int| 0 <= v < self.perm@.len() implies #[trigger] self.perm@[v] == (if v
            < pre.perm@.len() {
            pre.perm@[v]
        } else {
            Seq::empty()
        }) + rows_positions(rows, v, pre.n as int) by {
            assert(self.perm@[v] =~= (if v < pre.perm@.len() {
                pre.perm@[v]
            } else {
                Seq::empty()
            }) + rows_positions(rows, v, pre.n as int));
        }
    }
}

} // verus!

//! Gadgets of the circuit builder: operations that emit one or several
//! gates for a relation between variables.

use crate::arithmetic_gate::ArithmeticGate;
use crate::circuit_builder::CircuitBuilder;
use crate::congruence::{
    congruent,
    lemma_add_mod,
    lemma_congruent_add,
    lemma_congruent_mul,
    lemma_congruent_reduce,
    lemma_congruent_unique,
    lemma_mul_mod,
    lemma_neg_mod,
    lemma_sub_mod,
};
use crate::field::{
    add_mod,
    inverse_mod,
    modulus,
    mul_mod,
    neg_mod,
    scalar_views,
    sub_mod,
    Scalar,
};
use crate::gate_row::{
    descriptor_row,
    gate_row,
    gate_sum,
    lemma_default_output,
    rest_sum,
    solved_output,
    GateRow,
};
use crate::variable::Variable;
use ark_std::rand::rngs::StdRng;
use vstd::prelude::*;

verus! {

impl<P> CircuitBuilder<P> {
    /// Constrains the variable `a` to the constant: appends a gate for
    /// `a - constant + pi = 0`, with `a` on its left, right and output
    /// wire.
    pub fn constrain_to_constant(&mut self, a: Variable, constant: Scalar, pi: Option<Scalar>)
        requires
            old(self).wf(),
            old(self).allocated(a),
        ensures
            final(self).wf(),
            final(self).keeps_values(old(self)),
            final(self).n == old(self).n + 1,
            final(self).variables@.len() == old(self).variables@.len(),
            final(self).extends(
                old(self),
                Seq::empty(),
                seq![
                    GateRow {
                        a,
                        b: a,
                        c: a,
                        d: old(self).zero_var,
                        q_m: 0,
                        q_l: 1,
                        q_r: 0,
                        q_o: 0,
                        q_4: 0,
                        q_c: neg_mod(constant@),
                        q_lookup: 0,
                        pi: match pi {
                            Some(value) => Some(value@),
                            None => None,
                        },
                    },
                ],
            ),
            final(self).gate_satisfied(old(self).n as int) <==> (old(self).value(a) + (match pi {
                Some(value) => value@,
                None => 0,
            })) % modulus() == constant@,
            final(self).all_satisfied() <==> old(self).all_satisfied()
                && final(self).gate_satisfied(old(self).n as int),
    {
        constant.reduced();
        self.poly_gate(
            a,
            a,
            a,
            Scalar::zero(),
            Scalar::one(),
            Scalar::zero(),
            Scalar::zero(),
            constant.neg(),
            pi,
        );
        proof {
            let input: nat = match pi {
                Some(value) => value@,
                None => 0,
            };
            lemma_constant_gate(old(self).value(a), input, constant@);
        }
    }

    /// Constrains the variables `a` and `b` to be equal: appends a gate for
    /// `a - b = 0`.
    pub fn assert_equal(&mut self, a: Variable, b: Variable)
        requires
            old(self).wf(),
            old(self).allocated(a),
            old(self).allocated(b),
        ensures
            final(self).wf(),
            final(self).keeps_values(old(self)),
            final(self).n == old(self).n + 1,
            final(self).variables@.len() == old(self).variables@.len(),
            final(self).extends(
                old(self),
                Seq::empty(),
                seq![
                    GateRow {
                        a,
                        b,
                        c: old(self).zero_var,
                        d: old(self).zero_var,
                        q_m: 0,
                        q_l: 1,
                        q_r: neg_mod(1),
                        q_o: 0,
                        q_4: 0,
                        q_c: 0,
                        q_lookup: 0,
                        pi: None,
                    },
                ],
            ),
            final(self).gate_satisfied(old(self).n as int) <==> old(self).value(a)
                == old(self).value(b),
            final(self).all_satisfied() <==> old(self).all_satisfied()
                && final(self).gate_satisfied(old(self).n as int),
    {
        let zero = self.zero_var;
        proof {
            self.lemma_wf_basics();
        }
        self.poly_gate(
            a,
            b,
            zero,
            Scalar::zero(),
            Scalar::one(),
            Scalar::one().neg(),
            Scalar::zero(),
            Scalar::zero(),
            None,
        );
        proof {
            lemma_equality_gate(old(self).value(a), old(self).value(b));
        }
    }

    /// Tests `a` for zero: returns a new variable that is bound to 1 where
    /// `a` is bound to zero and to 0 where it is not. With `y` bound to
    /// the inverse of `a`, or to 1 where `a` is zero, and `b` the variable
    /// that is returned, two gates are appended: `a * b = 0` and
    /// `a * y + b - 1 = 0`.
    pub fn is_zero_with_output(&mut self, a: Variable) -> (out: Variable)
        requires
            old(self).wf(),
            old(self).allocated(a),
        ensures
            final(self).wf(),
            final(self).keeps_values(old(self)),
            final(self).n == old(self).n + 2,
            final(self).variables@.len() == old(self).variables@.len() + 2,
            out.0 == old(self).variables@.len() + 1,
            final(self).allocated(out),
            final(self).value(out) == (if old(self).value(a) == 0 {
                1nat
            } else {
                0nat
            }),
            final(self).extends(
                old(self),
                seq![zero_test_witness(old(self).value(a)), final(self).value(out)],
                zero_test_rows(a, old(self).variables@.len(), old(self).zero_var),
            ),
            final(self).gate_satisfied(old(self).n as int),
            final(self).gate_satisfied(old(self).n + 1),
            final(self).all_satisfied() <==> old(self).all_satisfied(),
    {
        let a_value = self.variables[a.0];
        let y_value = match a_value.inverse() {
            Some(inverse) => inverse,
            None => Scalar::one(),
        };
        let b_value = Scalar::one().sub(&a_value.mul(&y_value));
        y_value.reduced();
        let ghost s0 = *self;
        let ghost rows = zero_test_rows(a, s0.variables@.len(), s0.zero_var);
        let ghost f0 = Seq::<nat>::empty();
        let ghost r0 = Seq::<GateRow>::empty();
        proof {
            s0.lemma_wf_basics();
            s0.lemma_grown_itself();
            lemma_zero_test(a_value@, y_value@, b_value@);
        }
        let y = self.chained_input(y_value, Ghost(s0), Ghost(f0), Ghost(r0));
        let ghost f1 = seq![y_value@];
        assert(f0.push(y_value@) =~= f1);
        let b = self.chained_input(b_value, Ghost(s0), Ghost(f1), Ghost(r0));
        let ghost f2 = seq![y_value@, b_value@];
        assert(f1.push(b_value@) =~= f2);
        let zero = self.zero_var();

        // Enforce constraints. The constraint system being used here is
        // a * y + b - 1 = 0
        // a * b = 0
        // where y is auxiliary and b is the boolean (a == 0).
        let mut gate_1 = ArithmeticGate::new();
        gate_1.witness(a, b, Some(zero)).mul(Scalar::one());
        assert(descriptor_row(gate_1, zero, self.zero_var) == rows[0]);
        self.chained_gate(gate_1, Ghost(s0), Ghost(f2), Ghost(r0));
        let ghost r1 = seq![rows[0]];
        assert(r0.push(rows[0]) =~= r1);
        let mut gate_2 = ArithmeticGate::new();
        gate_2.witness(a, y, Some(zero)).mul(Scalar::one()).fan_in_3(Scalar::one(), b).constant(
            Scalar::one().neg(),
        );
        assert(descriptor_row(gate_2, zero, self.zero_var) == rows[1]);
        self.chained_gate(gate_2, Ghost(s0), Ghost(f2), Ghost(r1));
        proof {
            assert(r1.push(rows[1]) =~= rows);
            self.lemma_grown(&s0, f2, rows);
        }
        b
    }

    /// Tests `a` and `b` for equality: returns a new variable that is
    /// bound to 1 where `a` and `b` are bound to the same value and to 0
    /// where they are not. A gate binds a new variable to `a - b`, and the
    /// two gates of the zero test of that variable follow.
    pub fn is_eq_with_output(&mut self, a: Variable, b: Variable) -> (out: Variable)
        requires
            old(self).wf(),
            old(self).allocated(a),
            old(self).allocated(b),
        ensures
            final(self).wf(),
            final(self).keeps_values(old(self)),
            final(self).n == old(self).n + 3,
            final(self).variables@.len() == old(self).variables@.len() + 3,
            out.0 == old(self).variables@.len() + 2,
            final(self).allocated(out),
            final(self).value(out) == (if old(self).value(a) == old(self).value(b) {
                1nat
            } else {
                0nat
            }),
            final(self).extends(
                old(self),
                seq![
                    sub_mod(old(self).value(a), old(self).value(b)),
                    zero_test_witness(sub_mod(old(self).value(a), old(self).value(b))),
                    final(self).value(out),
                ],
                seq![difference_row(a, b, old(self).variables@.len(), old(self).zero_var)]
                    + zero_test_rows(
                    Variable(old(self).variables@.len() as usize),
                    old(self).variables@.len() + 1,
                    old(self).zero_var,
                ),
            ),
            forall|i: int| old(self).n <= i < old(self).n + 3 ==> final(self).gate_satisfied(i),
            final(self).all_satisfied() <==> old(self).all_satisfied(),
    {
        let ghost s0 = *self;
        let ghost left = s0.value(a);
        let ghost right = s0.value(b);
        let ghost row = difference_row(a, b, s0.variables@.len(), s0.zero_var);
        let ghost f0 = Seq::<nat>::empty();
        let ghost r0 = Seq::<GateRow>::empty();
        proof {
            s0.lemma_wf_basics();
            s0.lemma_grown_itself();
            lemma_default_output(row, left, right, 0);
            lemma_difference(left, right);
        }
        let mut gate = ArithmeticGate::new();
        gate.witness(a, b, None).add(Scalar::one(), Scalar::one().neg());
        let difference = self.chained_gate(gate, Ghost(s0), Ghost(f0), Ghost(r0));
        let ghost s1 = *self;
        let ghost f1 = seq![sub_mod(left, right)];
        let ghost r1 = seq![row];
        proof {
            assert(descriptor_row(gate, difference, s0.zero_var) == row);
            assert(f0.push(sub_mod(left, right)) =~= f1);
            assert(r0.push(row) =~= r1);
            s1.lemma_grown(&s0, f1, r1);
        }
        let out = self.is_zero_with_output(difference);
        proof {
            let f2 = seq![zero_test_witness(sub_mod(left, right)), self.value(out)];
            let r2 = zero_test_rows(difference, s1.variables@.len(), s1.zero_var);
            self.lemma_extends_compose(&s1, &s0, f1, r1, f2, r2);
            assert(f1 + f2 =~= seq![
                sub_mod(left, right),
                zero_test_witness(sub_mod(left, right)),
                self.value(out),
            ]);
            self.lemma_extends_gates(&s1, f2, r2);
            self.lemma_extends_gates(&s0, f1 + f2, r1 + r2);
            self.lemma_extends_all_satisfied(&s0, f1 + f2, r1 + r2);
            self.lemma_extends_keeps_values(&s0, f1 + f2, r1 + r2);
            assert forall|i: int| s0.n <= i < s0.n + 3 implies self.gate_satisfied(i) by {
                if i == s0.n {
                    assert(s1.gate_satisfied(i));
                    assert(self.gate_total(i) == s1.gate_total(i));
                }
            }
        }
        out
    }

    /// Selects between two variables by a bit: returns a new variable that
    /// is bound to `bit * a + (1 - bit) * b`, which is the value of
    /// `choice_a` where the bit is 1 and the value of `choice_b` where it
    /// is 0. Four gates are appended, for `t1 = bit * a`, `t2 = 1 - bit`,
    /// `t3 = t2 * b` and `result = t3 + t1`. That `bit` is 0 or 1 is for
    /// the caller to constrain.
    pub fn conditional_select(
        &mut self,
        bit: Variable,
        choice_a: Variable,
        choice_b: Variable,
    ) -> (out: Variable)
        requires
            old(self).wf(),
            old(self).allocated(bit),
            old(self).allocated(choice_a),
            old(self).allocated(choice_b),
        ensures
            final(self).wf(),
            final(self).keeps_values(old(self)),
            final(self).n == old(self).n + 4,
            final(self).variables@.len() == old(self).variables@.len() + 4,
            out.0 == old(self).variables@.len() + 3,
            final(self).allocated(out),
            final(self).value(out) == select_value(
                old(self).value(bit),
                old(self).value(choice_a),
                old(self).value(choice_b),
            ),
            old(self).value(bit) == 1 ==> final(self).value(out) == old(self).value(choice_a),
            old(self).value(bit) == 0 ==> final(self).value(out) == old(self).value(choice_b),
            final(self).extends(
                old(self),
                select_witnesses(
                    old(self).value(bit),
                    old(self).value(choice_a),
                    old(self).value(choice_b),
                ),
                select_rows(
                    bit,
                    choice_a,
                    choice_b,
                    old(self).variables@.len(),
                    old(self).zero_var,
                ),
            ),
            forall|i: int| old(self).n <= i < old(self).n + 4 ==> final(self).gate_satisfied(i),
            final(self).all_satisfied() <==> old(self).all_satisfied(),
    {
        let zero = self.zero_var;
        let ghost s0 = *self;
        let ghost vbit = s0.value(bit);
        let ghost va = s0.value(choice_a);
        let ghost vb = s0.value(choice_b);
        let ghost rows = select_rows(bit, choice_a, choice_b, s0.variables@.len(), s0.zero_var);
        let ghost values = select_witnesses(vbit, va, vb);
        let ghost f0 = Seq::<nat>::empty();
        let ghost r0 = Seq::<GateRow>::empty();
        proof {
            s0.lemma_wf_basics();
            s0.lemma_grown_itself();
            lemma_select(vbit, va, vb);
            lemma_default_output(rows[0], vbit, va, 0);
            lemma_default_output(rows[1], vbit, 0, 0);
            lemma_default_output(rows[2], values[1], vb, 0);
            lemma_default_output(rows[3], values[2], values[0], 0);
        }
        // bit * choice_a
        let mut gate_1 = ArithmeticGate::new();
        gate_1.witness(bit, choice_a, None).mul(Scalar::one());
        let bit_times_a = self.chained_gate(gate_1, Ghost(s0), Ghost(f0), Ghost(r0));
        let ghost f1 = seq![values[0]];
        let ghost r1 = seq![rows[0]];
        proof {
            assert(descriptor_row(gate_1, bit_times_a, s0.zero_var) == rows[0]);
            assert(f0.push(values[0]) =~= f1);
            assert(r0.push(rows[0]) =~= r1);
        }
        // 1 - bit
        let mut gate_2 = ArithmeticGate::new();
        gate_2.witness(bit, zero, None).add(Scalar::one().neg(), Scalar::zero()).constant(
            Scalar::one(),
        );
        let one_min_bit = self.chained_gate(gate_2, Ghost(s0), Ghost(f1), Ghost(r1));
        let ghost f2 = seq![values[0], values[1]];
        let ghost r2 = seq![rows[0], rows[1]];
        proof {
            assert(descriptor_row(gate_2, one_min_bit, s0.zero_var) == rows[1]);
            assert(f1.push(values[1]) =~= f2);
            assert(r1.push(rows[1]) =~= r2);
        }
        // (1 - bit) * choice_b
        let mut gate_3 = ArithmeticGate::new();
        gate_3.witness(one_min_bit, choice_b, None).mul(Scalar::one());
        let one_min_bit_choice_b = self.chained_gate(gate_3, Ghost(s0), Ghost(f2), Ghost(r2));
        let ghost f3 = seq![values[0], values[1], values[2]];
        let ghost r3 = seq![rows[0], rows[1], rows[2]];
        proof {
            assert(descriptor_row(gate_3, one_min_bit_choice_b, s0.zero_var) == rows[2]);
            assert(f2.push(values[2]) =~= f3);
            assert(r2.push(rows[2]) =~= r3);
        }
        // [ (1 - bit) * choice_b ] + [ bit * choice_a ]
        let mut gate_4 = ArithmeticGate::new();
        gate_4.witness(one_min_bit_choice_b, bit_times_a, None).add(Scalar::one(), Scalar::one());
        let out = self.chained_gate(gate_4, Ghost(s0), Ghost(f3), Ghost(r3));
        proof {
            assert(descriptor_row(gate_4, out, s0.zero_var) == rows[3]);
            assert(f3.push(values[3]) =~= values);
            assert(r3.push(rows[3]) =~= rows);
            self.lemma_grown(&s0, values, rows);
        }
        out
    }

    /// Appends two gates that are satisfied and take part in the lookup
    /// argument, on four new variables bound to 6, 1, 7 and -20. They keep
    /// the wire polynomials of a small circuit from being zero.
    pub fn add_dummy_constraints(&mut self)
        requires
            old(self).wf(),
        ensures
            final(self).wf(),
            final(self).keeps_values(old(self)),
            final(self).n == old(self).n + 2,
            final(self).variables@.len() == old(self).variables@.len() + 4,
            final(self).extends(
                old(self),
                seq![6nat, 1nat, 7nat, neg_mod(20)],
                dummy_rows(old(self).variables@.len(), old(self).zero_var),
            ),
            final(self).gate_satisfied(old(self).n as int),
            final(self).gate_satisfied(old(self).n + 1),
            final(self).all_satisfied() <==> old(self).all_satisfied(),
    {
        let ghost s0 = *self;
        let ghost rows = dummy_rows(s0.variables@.len(), s0.zero_var);
        let ghost f0 = Seq::<nat>::empty();
        let ghost r0 = Seq::<GateRow>::empty();
        proof {
            s0.lemma_wf_basics();
            s0.lemma_grown_itself();
            lemma_dummy_gates();
        }
        let var_six = self.chained_input(Scalar::from_u64(6u64), Ghost(s0), Ghost(f0), Ghost(r0));
        let ghost f1 = seq![6nat];
        assert(f0.push(6nat) =~= f1);
        let var_one = self.chained_input(Scalar::one(), Ghost(s0), Ghost(f1), Ghost(r0));
        let ghost f2 = seq![6nat, 1nat];
        assert(f1.push(1nat) =~= f2);
        let var_seven = self.chained_input(Scalar::from_u64(7u64), Ghost(s0), Ghost(f2), Ghost(r0));
        let ghost f3 = seq![6nat, 1nat, 7nat];
        assert(f2.push(7nat) =~= f3);
        let var_min_twenty = self.chained_input(
            Scalar::from_u64(20u64).neg(),
            Ghost(s0),
            Ghost(f3),
            Ghost(r0),
        );
        let ghost f4 = seq![6nat, 1nat, 7nat, neg_mod(20)];
        assert(f3.push(neg_mod(20)) =~= f4);
        self.chained_row(
            var_six,
            var_seven,
            var_min_twenty,
            var_one,
            Scalar::from_u64(1u64),
            Scalar::from_u64(2u64),
            Scalar::from_u64(3u64),
            Scalar::from_u64(4u64),
            Scalar::one(),
            Scalar::from_u64(4u64),
            Scalar::one(),
            Ghost(s0),
            Ghost(f4),
            Ghost(r0),
        );
        let ghost r1 = seq![rows[0]];
        assert(r0.push(rows[0]) =~= r1);
        let zero = self.zero_var;
        self.chained_row(
            var_min_twenty,
            var_six,
            var_seven,
            zero,
            Scalar::one(),
            Scalar::one(),
            Scalar::one(),
            Scalar::one(),
            Scalar::zero(),
            Scalar::from_u64(127u64),
            Scalar::one(),
            Ghost(s0),
            Ghost(f4),
            Ghost(r1),
        );
        proof {
            assert(r1.push(rows[1]) =~= rows);
            self.lemma_grown(&s0, f4, rows);
        }
    }

    /// Appends three rows to the lookup table that go with the wires of
    /// the dummy constraints: `[6, 7, -20, 1]`, `[-20, 6, 7, 0]` and
    /// `[3, 1, 4, 9]`.
    pub fn add_dummy_lookup_table(&mut self)
        requires
            old(self).wf(),
        ensures
            final(self).wf(),
            final(self).same_gates(old(self)),
            final(self).public_inputs@ == old(self).public_inputs@,
            final(self).intended_pi_pos@ == old(self).intended_pi_pos@,
            final(self).lookup_table@ == old(self).lookup_table@ + seq![
                (6nat, 7nat, neg_mod(20), 1nat),
                (neg_mod(20), 6nat, 7nat, 0nat),
                (3nat, 1nat, 4nat, 9nat),
            ],
    {
        self.lookup_table.insert_row(
            Scalar::from_u64(6u64),
            Scalar::from_u64(7u64),
            Scalar::from_u64(20u64).neg(),
            Scalar::one(),
        );
        self.lookup_table.insert_row(
            Scalar::from_u64(20u64).neg(),
            Scalar::from_u64(6u64),
            Scalar::from_u64(7u64),
            Scalar::zero(),
        );
        self.lookup_table.insert_row(
            Scalar::from_u64(3u64),
            Scalar::one(),
            Scalar::from_u64(4u64),
            Scalar::from_u64(9u64),
        );
        proof {
            assert(self.lookup_table@ =~= old(self).lookup_table@ + seq![
                (6nat, 7nat, neg_mod(20), 1nat),
                (neg_mod(20), 6nat, 7nat, 0nat),
                (3nat, 1nat, 4nat, 9nat),
            ]);
            self.lemma_same_gates_wf(old(self));
        }
    }

    /// Blinds the wire polynomials and the permutation polynomial with
    /// eight elements drawn from the generator: see
    /// [`CircuitBuilder::add_blinding_gates`].
    pub fn add_blinding_factors(&mut self, rng: &mut StdRng)
        requires
            old(self).wf(),
        ensures
            final(self).wf(),
            final(self).keeps_values(old(self)),
            final(self).n == old(self).n + 3,
            final(self).variables@.len() == old(self).variables@.len() + 8,
            final(self).new_values(old(self)).len() == 8,
            final(self).extends(
                old(self),
                final(self).new_values(old(self)),
                blinding_rows(old(self).variables@.len(), old(self).zero_var),
            ),
            forall|i: int| old(self).n <= i < old(self).n + 3 ==> final(self).gate_satisfied(i),
            final(self).all_satisfied() <==> old(self).all_satisfied(),
    {
        let r_1 = Scalar::rand(rng);
        let r_2 = Scalar::rand(rng);
        let r_3 = Scalar::rand(rng);
        let r_4 = Scalar::rand(rng);
        let r_5 = Scalar::rand(rng);
        let r_6 = Scalar::rand(rng);
        let r_7 = Scalar::rand(rng);
        let r_8 = Scalar::rand(rng);
        let randoms = [r_1, r_2, r_3, r_4, r_5, r_6, r_7, r_8];
        self.add_blinding_gates(randoms);
        proof {
            self.lemma_extends_new_values(
                old(self),
                scalar_views(randoms@),
                blinding_rows(old(self).variables@.len(), old(self).zero_var),
            );
        }
    }

    /// Blinds the wire polynomials and the permutation polynomial with
    /// the given elements. Eight new variables are bound to them. Two
    /// gates, with every selector zero, take four of them each on their
    /// wires; a third gate with every selector zero takes the fifth and
    /// the sixth once more on its left and right wire, and the zero
    /// variable on the other two.
    pub fn add_blinding_gates(&mut self, randoms: [Scalar; 8])
        requires
            old(self).wf(),
        ensures
            final(self).wf(),
            final(self).keeps_values(old(self)),
            final(self).n == old(self).n + 3,
            final(self).variables@.len() == old(self).variables@.len() + 8,
            final(self).extends(
                old(self),
                scalar_views(randoms@),
                blinding_rows(old(self).variables@.len(), old(self).zero_var),
            ),
            forall|i: int| old(self).n <= i < old(self).n + 3 ==> final(self).gate_satisfied(i),
            final(self).all_satisfied() <==> old(self).all_satisfied(),
    {
        let ghost s0 = *self;
        let ghost rows = blinding_rows(s0.variables@.len(), s0.zero_var);
        let ghost values = scalar_views(randoms@);
        let ghost f0 = Seq::<nat>::empty();
        let ghost r0 = Seq::<GateRow>::empty();
        proof {
            s0.lemma_wf_basics();
            s0.lemma_grown_itself();
            assert(values.take(0) =~= f0);
        }
        // Blinding wires
        self.blinding_round(&randoms, 0, Ghost(s0), Ghost(r0));
        let ghost r1 = seq![rows[0]];
        assert(r0.push(rows[0]) =~= r1);
        let (rand_var_1, rand_var_2) = self.blinding_round(&randoms, 4, Ghost(s0), Ghost(r1));
        let ghost r2 = seq![rows[0], rows[1]];
        proof {
            assert(r1.push(rows[1]) =~= r2);
            assert(values.take(8) =~= values);
            lemma_zero_selectors(self.value(rand_var_1), self.value(rand_var_2), 0, 0);
        }
        // Blinding Z
        let zero = self.zero_var;
        self.chained_row(
            rand_var_1,
            rand_var_2,
            zero,
            zero,
            Scalar::zero(),
            Scalar::zero(),
            Scalar::zero(),
            Scalar::zero(),
            Scalar::zero(),
            Scalar::zero(),
            Scalar::zero(),
            Ghost(s0),
            Ghost(values),
            Ghost(r2),
        );
        proof {
            assert(r2.push(rows[2]) =~= rows);
            self.lemma_grown(&s0, values, rows);
        }
    }

    /// One round of blinding: binds four new variables to the elements
    /// `offset`, ..., `offset + 3` of `randoms` and appends a gate with
    /// every selector zero that has them on its wires. Returns the first
    /// two of the variables.
    fn blinding_round(
        &mut self,
        randoms: &[Scalar; 8],
        offset: usize,
        Ghost(start): Ghost<Self>,
        Ghost(rows): Ghost<Seq<GateRow>>,
    ) -> (pair: (Variable, Variable))
        requires
            offset + 4 <= 8,
            old(self).grown(&start, scalar_views(randoms@).take(offset as int), rows),
        ensures
            final(self).grown(
                &start,
                scalar_views(randoms@).take(offset + 4),
                rows.push(zero_row(start.variables@.len() + offset as nat)),
            ),
            final(self).zero_var == old(self).zero_var,
            final(self).allocated(final(self).zero_var),
            final(self).value(final(self).zero_var) == 0,
            pair.0.0 == start.variables@.len() + offset,
            pair.1.0 == start.variables@.len() + offset + 1,
            final(self).allocated(pair.0),
            final(self).allocated(pair.1),
    {
        let ghost values = scalar_views(randoms@);
        let ghost f0 = values.take(offset as int);
        proof {
            self.lemma_wf_basics();
        }
        let v_0 = self.chained_input(randoms[offset], Ghost(start), Ghost(f0), Ghost(rows));
        let ghost f1 = values.take(offset + 1);
        assert(f0.push(randoms[offset as int]@) =~= f1);
        let v_1 = self.chained_input(randoms[offset + 1], Ghost(start), Ghost(f1), Ghost(rows));
        let ghost f2 = values.take(offset + 2);
        assert(f1.push(randoms[offset + 1]@) =~= f2);
        let v_2 = self.chained_input(randoms[offset + 2], Ghost(start), Ghost(f2), Ghost(rows));
        let ghost f3 = values.take(offset + 3);
        assert(f2.push(randoms[offset + 2]@) =~= f3);
        let v_3 = self.chained_input(randoms[offset + 3], Ghost(start), Ghost(f3), Ghost(rows));
        let ghost f4 = values.take(offset + 4);
        proof {
            assert(f3.push(randoms[offset + 3]@) =~= f4);
            lemma_zero_selectors(
                self.value(v_0),
                self.value(v_1),
                self.value(v_2),
                self.value(v_3),
            );
        }
        self.chained_row(
            v_0,
            v_1,
            v_2,
            v_3,
            Scalar::zero(),
            Scalar::zero(),
            Scalar::zero(),
            Scalar::zero(),
            Scalar::zero(),
            Scalar::zero(),
            Scalar::zero(),
            Ghost(start),
            Ghost(f4),
            Ghost(rows),
        );
        (v_0, v_1)
    }

    /// This builder has grown out of the builder `start` by the variables
    /// `fresh` and the gates `rows`, and the values of the variables
    /// satisfy every one of these gates.
    pub open spec fn grown(&self, start: &Self, fresh: Seq<nat>, rows: Seq<GateRow>) -> bool {
        &&& start.wf()
        &&& self.wf()
        &&& self.extends(start, fresh, rows)
        &&& forall|i: int| start.n <= i < self.n ==> self.gate_satisfied(i)
    }

    /// A builder has grown out of itself by nothing.
    pub proof fn lemma_grown_itself(&self)
        requires
            self.wf(),
        ensures
            self.grown(self, Seq::empty(), Seq::empty()),
    {
        self.lemma_extends_itself();
    }

    /// What follows for a builder that has grown out of another: it keeps
    /// the values of the variables, every new gate is satisfied, and so
    /// every gate is satisfied exactly where every gate was.
    pub proof fn lemma_grown(&self, start: &Self, fresh: Seq<nat>, rows: Seq<GateRow>)
        requires
            self.grown(start, fresh, rows),
        ensures
            self.wf(),
            self.extends(start, fresh, rows),
            self.keeps_values(start),
            self.n == start.n + rows.len(),
            self.variables@.len() == start.variables@.len() + fresh.len(),
            forall|i: int| start.n <= i < start.n + rows.len() ==> self.gate_satisfied(i),
            self.all_satisfied() <==> start.all_satisfied(),
            forall|v: Variable|
                start.variables@.len() <= v.0 < start.variables@.len() + fresh.len()
                    ==> self.allocated(v) && #[trigger] self.value(v) == fresh[v.0
                    - start.variables@.len()],
    {
        self.lemma_extends_gates(start, fresh, rows);
        self.lemma_extends_keeps_values(start, fresh, rows);
        self.lemma_extends_all_satisfied(start, fresh, rows);
    }

    /// Allocates a variable in a builder that has grown out of `start`.
    fn chained_input(
        &mut self,
        s: Scalar,
        Ghost(start): Ghost<Self>,
        Ghost(fresh): Ghost<Seq<nat>>,
        Ghost(rows): Ghost<Seq<GateRow>>,
    ) -> (var: Variable)
        requires
            old(self).grown(&start, fresh, rows),
        ensures
            final(self).grown(&start, fresh.push(s@), rows),
            var.0 == start.variables@.len() + fresh.len(),
            final(self).allocated(var),
            final(self).value(var) == s@,
            final(self).keeps_values(old(self)),
            final(self).zero_var == old(self).zero_var,
    {
        let var = self.add_input(s);
        proof {
            let mid = old(self);
            self.lemma_extends_gates(mid, seq![s@], Seq::empty());
            mid.lemma_extends_gates(&start, fresh, rows);
            self.lemma_extends_compose(mid, &start, fresh, rows, seq![s@], Seq::empty());
            assert(fresh + seq![s@] =~= fresh.push(s@));
            assert(rows + Seq::<GateRow>::empty() =~= rows);
            assert forall|i: int| start.n <= i < self.n implies self.gate_satisfied(i) by {
                assert(mid.gate_satisfied(i));
                assert(self.gate_total(i) == mid.gate_total(i));
            }
        }
        var
    }

    /// Appends a gate by its descriptor to a builder that has grown out of
    /// `start`. Where the descriptor names the output wire, the values of
    /// the wires have to satisfy its equation.
    fn chained_gate(
        &mut self,
        gate: ArithmeticGate,
        Ghost(start): Ghost<Self>,
        Ghost(fresh): Ghost<Seq<nat>>,
        Ghost(rows): Ghost<Seq<GateRow>>,
    ) -> (out: Variable)
        requires
            old(self).grown(&start, fresh, rows),
            gate.witness is Some,
            old(self).allocated((gate.witness->0).0),
            old(self).allocated((gate.witness->0).1),
            gate.fan_in_3 is Some ==> old(self).allocated((gate.fan_in_3->0).1),
            (gate.witness->0).2 is None ==> gate.out_selector@ != 0,
            (gate.witness->0).2 is Some ==> old(self).allocated((gate.witness->0).2->0),
            (gate.witness->0).2 is Some ==> old(self).row_total(
                descriptor_row(gate, (gate.witness->0).2->0, old(self).zero_var),
            ) % modulus() == 0,
        ensures
            (gate.witness->0).2 is Some ==> out == (gate.witness->0).2->0 && final(self).grown(
                &start,
                fresh,
                rows.push(descriptor_row(gate, out, old(self).zero_var)),
            ),
            (gate.witness->0).2 is None ==> out.0 == start.variables@.len() + fresh.len()
                && final(self).grown(
                &start,
                fresh.push(final(self).value(out)),
                rows.push(descriptor_row(gate, out, old(self).zero_var)),
            ),
            (gate.witness->0).2 is None ==> final(self).value(out) == solved_output(
                descriptor_row(gate, out, old(self).zero_var),
                old(self).value((gate.witness->0).0),
                old(self).value((gate.witness->0).1),
                old(self).value(descriptor_row(gate, out, old(self).zero_var).d),
            ),
            final(self).allocated(out),
            final(self).keeps_values(old(self)),
            final(self).zero_var == old(self).zero_var,
    {
        let out = self.arithmetic_gate(gate);
        proof {
            let mid = old(self);
            let row = descriptor_row(gate, out, mid.zero_var);
            mid.lemma_wf_basics();
            mid.lemma_extends_gates(&start, fresh, rows);
            let added: Seq<nat> = if (gate.witness->0).2 is None {
                seq![self.value(out)]
            } else {
                Seq::empty()
            };
            self.lemma_extends_gates(mid, added, seq![row]);
            self.lemma_extends_compose(mid, &start, fresh, rows, added, seq![row]);
            assert(rows + seq![row] =~= rows.push(row));
            if (gate.witness->0).2 is None {
                assert(fresh + added =~= fresh.push(self.value(out)));
            } else {
                assert(fresh + added =~= fresh);
                assert(self.row_total(row) == mid.row_total(row));
            }
            assert forall|i: int| start.n <= i < self.n implies self.gate_satisfied(i) by {
                if i < mid.n {
                    assert(mid.gate_satisfied(i));
                    assert(self.gate_total(i) == mid.gate_total(i));
                }
            }
        }
        out
    }

    /// Appends a gate that the values of its wires satisfy to a builder
    /// that has grown out of `start`.
    fn chained_row(
        &mut self,
        a: Variable,
        b: Variable,
        c: Variable,
        d: Variable,
        q_m: Scalar,
        q_l: Scalar,
        q_r: Scalar,
        q_o: Scalar,
        q_4: Scalar,
        q_c: Scalar,
        q_lookup: Scalar,
        Ghost(start): Ghost<Self>,
        Ghost(fresh): Ghost<Seq<nat>>,
        Ghost(rows): Ghost<Seq<GateRow>>,
    )
        requires
            old(self).grown(&start, fresh, rows),
            old(self).allocated(a),
            old(self).allocated(b),
            old(self).allocated(c),
            old(self).allocated(d),
            gate_sum(
                q_m@,
                q_l@,
                q_r@,
                q_o@,
                q_4@,
                q_c@,
                0,
                old(self).value(a),
                old(self).value(b),
                old(self).value(c),
                old(self).value(d),
            ) % modulus() == 0,
        ensures
            final(self).grown(
                &start,
                fresh,
                rows.push(gate_row(a, b, c, d, q_m, q_l, q_r, q_o, q_4, q_c, q_lookup, None)),
            ),
            final(self).keeps_values(old(self)),
            final(self).zero_var == old(self).zero_var,
    {
        self.push_gate(a, b, c, d, q_m, q_l, q_r, q_o, q_4, q_c, q_lookup, None);
        proof {
            let mid = old(self);
            let row = gate_row(a, b, c, d, q_m, q_l, q_r, q_o, q_4, q_c, q_lookup, None);
            self.lemma_extends_gates(mid, Seq::empty(), seq![row]);
            self.lemma_extends_keeps_values(mid, Seq::empty(), seq![row]);
            mid.lemma_extends_gates(&start, fresh, rows);
            self.lemma_extends_compose(mid, &start, fresh, rows, Seq::empty(), seq![row]);
            assert(fresh + Seq::<nat>::empty() =~= fresh);
            assert(rows + seq![row] =~= rows.push(row));
            assert(self.gate_total(mid.n as int) == self.row_total(seq![row][0]));
            assert forall|i: int| start.n <= i < self.n implies self.gate_satisfied(i) by {
                if i < mid.n {
                    assert(mid.gate_satisfied(i));
                    assert(self.gate_total(i) == mid.gate_total(i));
                }
            }
        }
    }
}

/// A gate for `a - constant + pi = 0` is satisfied exactly when `a + pi`
/// is the constant in the field.
pub proof fn lemma_constant_gate(value: nat, input: nat, constant: nat)
    requires
        constant < modulus(),
    ensures
        gate_sum(0, 1, 0, 0, 0, neg_mod(constant), input, value, value, value, 0) % modulus() == 0
            <==> (value + input) % modulus() == constant,
{
    let total = gate_sum(0, 1, 0, 0, 0, neg_mod(constant), input, value, value, value, 0);
    assert(0 * (value * value) == 0);
    assert(total == value + neg_mod(constant) + input);
    lemma_neg_mod(constant);
    lemma_congruent_add(
        (value + input) as int,
        (value + input) as int,
        neg_mod(constant) as int,
        -(constant as int),
    );
    assert(congruent(total as int, value + input - constant));
    lemma_congruent_reduce((value + input) as int);
    if total % modulus() == 0 {
        lemma_congruent_add(value + input - constant, 0, constant as int, constant as int);
        lemma_congruent_unique(((value + input) % modulus()) as int, constant as int);
    }
    if (value + input) % modulus() == constant {
        lemma_congruent_add(
            (value + input) as int,
            constant as int,
            -(constant as int),
            -(constant as int),
        );
    }
}

/// A gate for `a - b = 0` is satisfied exactly when `a` and `b` are the same
/// element of the field.
pub proof fn lemma_equality_gate(left: nat, right: nat)
    requires
        left < modulus(),
        right < modulus(),
    ensures
        gate_sum(0, 1, neg_mod(1), 0, 0, 0, 0, left, right, 0, 0) % modulus() == 0 <==> left
            == right,
{
    let total = gate_sum(0, 1, neg_mod(1), 0, 0, 0, 0, left, right, 0, 0);
    assert(0 * (left * right) == 0);
    assert(total == left + neg_mod(1) * right);
    lemma_neg_mod(1);
    lemma_congruent_mul(neg_mod(1) as int, -1, right as int, right as int);
    assert(-1 * (right as int) == -(right as int));
    lemma_congruent_add(left as int, left as int, (neg_mod(1) * right) as int, -(right as int));
    assert(congruent(total as int, left - right));
    if total % modulus() == 0 {
        lemma_congruent_add(left - right, 0, right as int, right as int);
        lemma_congruent_unique(left as int, right as int);
    }
}

/// The row of a gate that binds the variable with the index `first` to
/// `a - b`.
pub open spec fn difference_row(a: Variable, b: Variable, first: nat, zero: Variable) -> GateRow {
    GateRow {
        a,
        b,
        c: Variable(first as usize),
        d: zero,
        q_m: 0,
        q_l: 1,
        q_r: neg_mod(1),
        q_o: neg_mod(1),
        q_4: 0,
        q_c: 0,
        q_lookup: 0,
        pi: None,
    }
}

/// What `a + (-1) * b` comes to in the field is the difference of `a` and
/// `b`, which is zero exactly when `a` and `b` are the same element.
pub proof fn lemma_difference(left: nat, right: nat)
    requires
        left < modulus(),
        right < modulus(),
    ensures
        rest_sum(0, 1, neg_mod(1), 0, 0, 0, left, right, 0) % modulus() == sub_mod(left, right),
        sub_mod(left, right) == 0 <==> left == right,
{
    let total = rest_sum(0, 1, neg_mod(1), 0, 0, 0, left, right, 0);
    assert(0 * (left * right) == 0);
    assert(total == left + neg_mod(1) * right);
    lemma_neg_mod(1);
    lemma_congruent_mul(neg_mod(1) as int, -1, right as int, right as int);
    assert(-1 * (right as int) == -(right as int));
    lemma_congruent_add(left as int, left as int, (neg_mod(1) * right) as int, -(right as int));
    lemma_congruent_reduce(total as int);
    lemma_sub_mod(left, right);
    lemma_congruent_unique((total % modulus()) as int, sub_mod(left, right) as int);
    if sub_mod(left, right) == 0 {
        lemma_congruent_add(left - right, 0, right as int, right as int);
        lemma_congruent_unique(left as int, right as int);
    }
}

/// The value `bit * a + (1 - bit) * b` in the field.
pub open spec fn select_value(bit: nat, a: nat, b: nat) -> nat {
    ((bit * a + (1 - bit) * b) % (modulus() as int)) as nat
}

/// The values of the four variables that a selection allocates:
/// `bit * a`, `1 - bit`, `(1 - bit) * b` and their sum.
pub open spec fn select_witnesses(bit: nat, a: nat, b: nat) -> Seq<nat> {
    seq![
        mul_mod(bit, a),
        sub_mod(1, bit),
        mul_mod(sub_mod(1, bit), b),
        add_mod(mul_mod(sub_mod(1, bit), b), mul_mod(bit, a)),
    ]
}

/// The rows of the four gates of a selection, where the first of the four
/// new variables has the index `first`.
pub open spec fn select_rows(
    bit: Variable,
    choice_a: Variable,
    choice_b: Variable,
    first: nat,
    zero: Variable,
) -> Seq<GateRow> {
    seq![
        GateRow {
            a: bit,
            b: choice_a,
            c: Variable(first as usize),
            d: zero,
            q_m: 1,
            q_l: 0,
            q_r: 0,
            q_o: neg_mod(1),
            q_4: 0,
            q_c: 0,
            q_lookup: 0,
            pi: None,
        },
        GateRow {
            a: bit,
            b: zero,
            c: Variable((first + 1) as usize),
            d: zero,
            q_m: 0,
            q_l: neg_mod(1),
            q_r: 0,
            q_o: neg_mod(1),
            q_4: 0,
            q_c: 1,
            q_lookup: 0,
            pi: None,
        },
        GateRow {
            a: Variable((first + 1) as usize),
            b: choice_b,
            c: Variable((first + 2) as usize),
            d: zero,
            q_m: 1,
            q_l: 0,
            q_r: 0,
            q_o: neg_mod(1),
            q_4: 0,
            q_c: 0,
            q_lookup: 0,
            pi: None,
        },
        GateRow {
            a: Variable((first + 2) as usize),
            b: Variable(first as usize),
            c: Variable((first + 3) as usize),
            d: zero,
            q_m: 0,
            q_l: 1,
            q_r: 1,
            q_o: neg_mod(1),
            q_4: 0,
            q_c: 0,
            q_lookup: 0,
            pi: None,
        },
    ]
}

/// The arithmetic of a selection: what the four gates bind their output
/// wires to, and that the last of these values is `bit * a + (1 - bit) * b`
/// in the field.
pub proof fn lemma_select(bit: nat, a: nat, b: nat)
    requires
        bit < modulus(),
        a < modulus(),
        b < modulus(),
    ensures
        rest_sum(1, 0, 0, 0, 0, 0, bit, a, 0) % modulus() == mul_mod(bit, a),
        rest_sum(0, neg_mod(1), 0, 0, 1, 0, bit, 0, 0) % modulus() == sub_mod(1, bit),
        rest_sum(1, 0, 0, 0, 0, 0, sub_mod(1, bit), b, 0) % modulus() == mul_mod(
            sub_mod(1, bit),
            b,
        ),
        rest_sum(0, 1, 1, 0, 0, 0, mul_mod(sub_mod(1, bit), b), mul_mod(bit, a), 0) % modulus()
            == add_mod(mul_mod(sub_mod(1, bit), b), mul_mod(bit, a)),
        add_mod(mul_mod(sub_mod(1, bit), b), mul_mod(bit, a)) == select_value(bit, a, b),
        bit == 1 ==> select_value(bit, a, b) == a,
        bit == 0 ==> select_value(bit, a, b) == b,
{
    let t1 = mul_mod(bit, a);
    let t2 = sub_mod(1, bit);
    let t3 = mul_mod(t2, b);
    let t4 = add_mod(t3, t1);
    assert(1 * (bit * a) == bit * a);
    assert(1 * (t2 * b) == t2 * b);
    assert(0 * (bit * 0) == 0);
    assert(0 * (t3 * t1) == 0);
    assert(rest_sum(1, 0, 0, 0, 0, 0, bit, a, 0) == bit * a);
    assert(rest_sum(1, 0, 0, 0, 0, 0, t2, b, 0) == t2 * b);
    assert(rest_sum(0, 1, 1, 0, 0, 0, t3, t1, 0) == t3 + t1);
    assert(rest_sum(0, neg_mod(1), 0, 0, 1, 0, bit, 0, 0) == neg_mod(1) * bit + 1);
    // 1 - bit
    lemma_neg_mod(1);
    lemma_congruent_mul(neg_mod(1) as int, -1, bit as int, bit as int);
    assert(-1 * (bit as int) == -(bit as int));
    lemma_congruent_add((neg_mod(1) * bit) as int, -(bit as int), 1, 1);
    lemma_congruent_reduce((neg_mod(1) * bit + 1) as int);
    lemma_sub_mod(1, bit);
    lemma_congruent_unique(((neg_mod(1) * bit + 1) % modulus()) as int, t2 as int);
    // the sum
    lemma_mul_mod(bit, a);
    lemma_mul_mod(t2, b);
    lemma_add_mod(t3, t1);
    lemma_congruent_mul(t2 as int, 1 - bit, b as int, b as int);
    lemma_congruent_add((t2 * b) as int, (1 - bit) * b, (bit * a) as int, (bit * a) as int);
    lemma_congruent_add(t3 as int, (t2 * b) as int, t1 as int, (bit * a) as int);
    assert(congruent(t4 as int, (1 - bit) * b + bit * a));
    lemma_congruent_reduce(bit * a + (1 - bit) * b);
    lemma_congruent_unique(t4 as int, select_value(bit, a, b) as int);
    if bit == 1 {
        assert(bit * a + (1 - bit) * b == a) by (nonlinear_arith)
            requires
                bit == 1,
        ;
    }
    if bit == 0 {
        assert(bit * a + (1 - bit) * b == b) by (nonlinear_arith)
            requires
                bit == 0,
        ;
    }
}

/// The rows of the two dummy gates, where the first of their four new
/// variables has the index `first`.
pub open spec fn dummy_rows(first: nat, zero: Variable) -> Seq<GateRow> {
    seq![
        GateRow {
            a: Variable(first as usize),
            b: Variable((first + 2) as usize),
            c: Variable((first + 3) as usize),
            d: Variable((first + 1) as usize),
            q_m: 1,
            q_l: 2,
            q_r: 3,
            q_o: 4,
            q_4: 1,
            q_c: 4,
            q_lookup: 1,
            pi: None,
        },
        GateRow {
            a: Variable((first + 3) as usize),
            b: Variable(first as usize),
            c: Variable((first + 2) as usize),
            d: zero,
            q_m: 1,
            q_l: 1,
            q_r: 1,
            q_o: 1,
            q_4: 0,
            q_c: 127,
            q_lookup: 1,
            pi: None,
        },
    ]
}

/// The two dummy gates are satisfied: `6 * 7 + 2 * 6 + 3 * 7 + 1 - 4 * 20
/// + 4 = 0` and `-20 * 6 - 20 + 6 + 7 + 127 = 0`.
pub proof fn lemma_dummy_gates()
    ensures
        gate_sum(1, 2, 3, 4, 1, 4, 0, 6, 7, neg_mod(20), 1) % modulus() == 0,
        gate_sum(1, 1, 1, 1, 0, 127, 0, neg_mod(20), 6, 7, 0) % modulus() == 0,
{
    assert(neg_mod(20) == modulus() - 20);
    assert(gate_sum(1, 2, 3, 4, 1, 4, 0, 6, 7, neg_mod(20), 1) == 4 * modulus());
    assert(gate_sum(1, 1, 1, 1, 0, 127, 0, neg_mod(20), 6, 7, 0) == 7 * modulus());
}

/// The row of a gate with every selector zero that has the variables with
/// the indices `first`, `first + 1`, `first + 2` and `first + 3` on its
/// wires.
pub open spec fn zero_row(first: nat) -> GateRow {
    GateRow {
        a: Variable(first as usize),
        b: Variable((first + 1) as usize),
        c: Variable((first + 2) as usize),
        d: Variable((first + 3) as usize),
        q_m: 0,
        q_l: 0,
        q_r: 0,
        q_o: 0,
        q_4: 0,
        q_c: 0,
        q_lookup: 0,
        pi: None,
    }
}

/// The rows of the three blinding gates, where the first of their eight
/// new variables has the index `first`.
pub open spec fn blinding_rows(first: nat, zero: Variable) -> Seq<GateRow> {
    seq![
        zero_row(first),
        zero_row(first + 4),
        GateRow {
            a: Variable((first + 4) as usize),
            b: Variable((first + 5) as usize),
            c: zero,
            d: zero,
            q_m: 0,
            q_l: 0,
            q_r: 0,
            q_o: 0,
            q_4: 0,
            q_c: 0,
            q_lookup: 0,
            pi: None,
        },
    ]
}

/// A gate with every selector zero is satisfied by any values.
pub proof fn lemma_zero_selectors(a: nat, b: nat, c: nat, d: nat)
    ensures
        gate_sum(0, 0, 0, 0, 0, 0, 0, a, b, c, d) % modulus() == 0,
{
    assert(0 * (a * b) == 0);
    assert(gate_sum(0, 0, 0, 0, 0, 0, 0, a, b, c, d) == 0);
}

/// The value of the auxiliary variable of the zero test of a variable with
/// the value `a`: the inverse of `a`, and 1 where `a` is zero.
pub open spec fn zero_test_witness(a: nat) -> nat {
    if a == 0 {
        1
    } else {
        inverse_mod(a)
    }
}

/// The rows of the two gates of the zero test of the variable `a`, where
/// the auxiliary variable has the index `first` and the result the index
/// `first + 1`.
pub open spec fn zero_test_rows(a: Variable, first: nat, zero: Variable) -> Seq<GateRow> {
    seq![
        GateRow {
            a,
            b: Variable((first + 1) as usize),
            c: zero,
            d: zero,
            q_m: 1,
            q_l: 0,
            q_r: 0,
            q_o: neg_mod(1),
            q_4: 0,
            q_c: 0,
            q_lookup: 0,
            pi: None,
        },
        GateRow {
            a,
            b: Variable(first as usize),
            c: zero,
            d: Variable((first + 1) as usize),
            q_m: 1,
            q_l: 0,
            q_r: 0,
            q_o: neg_mod(1),
            q_4: 1,
            q_c: neg_mod(1),
            q_lookup: 0,
            pi: None,
        },
    ]
}

/// The arithmetic of the zero test: with `y` the inverse of `a`, or 1
/// where `a` is zero, and `b = 1 - a * y`, `b` is 1 where `a` is zero and 0
/// where it is not, and both gates of the test are satisfied.
pub proof fn lemma_zero_test(a: nat, y: nat, b: nat)
    requires
        y < modulus(),
        a == 0 ==> y == 1,
        a != 0 ==> y == inverse_mod(a) && mul_mod(a, y) == 1,
        b == sub_mod(1, mul_mod(a, y)),
    ensures
        b == (if a == 0 {
            1nat
        } else {
            0nat
        }),
        y == zero_test_witness(a),
        gate_sum(1, 0, 0, neg_mod(1), 0, 0, 0, a, b, 0, 0) % modulus() == 0,
        gate_sum(1, 0, 0, neg_mod(1), 1, neg_mod(1), 0, a, y, 0, b) % modulus() == 0,
{
    assert(neg_mod(1) * 0 == 0);
    if a == 0 {
        assert(a * y == 0);
        assert(a * b == 0);
        assert(mul_mod(a, y) == 0);
        assert(b == 1);
    } else {
        assert(b == 0);
        assert(a * b == 0);
        lemma_mul_mod(a, y);
        lemma_congruent_add((a * y) as int, 1, neg_mod(1) as int, neg_mod(1) as int);
        assert(neg_mod(1) == modulus() - 1);
    }
}

} // verus!

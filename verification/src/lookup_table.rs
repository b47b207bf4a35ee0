//! The lookup table: rows of four field elements, of which the first two are
//! the inputs of a relation, the third its output and the fourth a tag for
//! the family of the relation.

use crate::error::Error;
use crate::field::{modulus, scalar_views, Scalar};
use vstd::arithmetic::power2::pow2;
use vstd::prelude::*;

verus! {

/// A row of the table, by the views of its four elements.
pub type Row = (nat, nat, nat, nat);

/// The family of relations that a row belongs to.
#[derive(Clone, Copy, Debug, PartialEq, Eq, Structural)]
pub enum Operation {
    /// Addition of the inputs, tagged with 0.
    Add,
    /// Multiplication of the inputs, tagged with 1.
    Mul,
    /// Bitwise exclusive or of the inputs, tagged with -1.
    Xor,
    /// Bitwise and of the inputs, tagged with 2.
    And,
}

impl Operation {
    /// The result of the operation on `a` and `b`, reduced modulo `bound`.
    /// The operation is done on the integers, so nothing wraps before the
    /// reduction.
    pub open spec fn result(self, a: u64, b: u64, bound: u64) -> nat {
        match self {
            Operation::Add => ((a + b) % (bound as int)) as nat,
            Operation::Mul => ((a * b) % (bound as int)) as nat,
            Operation::Xor => ((a ^ b) % bound) as nat,
            Operation::And => ((a & b) % bound) as nat,
        }
    }

    /// The tag in the fourth column of the rows of the operation.
    pub open spec fn tag(self) -> nat {
        match self {
            Operation::Add => 0,
            Operation::Mul => 1,
            Operation::Xor => (modulus() - 1) as nat,
            Operation::And => 2,
        }
    }

    /// The row of the operation for the inputs `a` and `b`.
    pub open spec fn row(self, a: u64, b: u64, bound: u64) -> Row {
        (a as nat, b as nat, self.result(a, b, bound), self.tag())
    }

    /// The rows of the operation for the input `a` and every `b` from
    /// `lower` up to, but not including, `b_end`, in ascending order.
    pub open spec fn rows_for(self, a: u64, lower: u64, b_end: u64, bound: u64) -> Seq<Row> {
        Seq::new(
            if b_end >= lower {
                (b_end - lower) as nat
            } else {
                0
            },
            |k: int| self.row(a, (lower + k) as u64, bound),
        )
    }

    /// The rows of the operation for every `a` from `lower` up to, but not
    /// including, `a_end`, and for each of them every `b` from `lower` up
    /// to, but not including, `upper`; ordered by `a`, then by `b`.
    pub open spec fn rows_upto(self, lower: u64, a_end: u64, upper: u64) -> Seq<Row>
        decreases a_end,
    {
        if a_end <= lower {
            Seq::empty()
        } else {
            self.rows_upto(lower, (a_end - 1) as u64, upper) + self.rows_for(
                (a_end - 1) as u64,
                lower,
                upper,
                upper,
            )
        }
    }

    /// All rows of the operation for inputs from `lower` up to, but not
    /// including, `upper`, reduced modulo `upper`.
    pub open spec fn table(self, lower: u64, upper: u64) -> Seq<Row> {
        self.rows_upto(lower, upper, upper)
    }
}

/// The row that four field elements form.
pub open spec fn row_view(row: [Scalar; 4]) -> Row {
    (row[0]@, row[1]@, row[2]@, row[3]@)
}

/// The row has the inputs `a` and `b` and the tag `d`.
pub open spec fn row_matches(row: Row, a: nat, b: nat, d: nat) -> bool {
    row.0 == a && row.1 == b && row.3 == d
}

/// Some row of `rows` has the inputs `a` and `b` and the tag `d`.
pub open spec fn has_match(rows: Seq<Row>, a: nat, b: nat, d: nat) -> bool {
    exists|i: int| 0 <= i < rows.len() && row_matches(#[trigger] rows[i], a, b, d)
}

/// Row `i` is the first row of `rows` with the inputs `a` and `b` and the
/// tag `d`.
pub open spec fn is_first_match(rows: Seq<Row>, i: int, a: nat, b: nat, d: nat) -> bool {
    &&& 0 <= i < rows.len()
    &&& row_matches(rows[i], a, b, d)
    &&& forall|k: int| 0 <= k < i ==> !row_matches(#[trigger] rows[k], a, b, d)
}

/// What a query for the inputs `a` and `b` and the tag `d` finds in `rows`:
/// the output of the first row that matches.
pub open spec fn lookup_result(rows: Seq<Row>, a: nat, b: nat, d: nat) -> Option<nat>
    decreases rows.len(),
{
    if rows.len() == 0 {
        None
    } else if row_matches(rows[0], a, b, d) {
        Some(rows[0].2)
    } else {
        lookup_result(rows.drop_first(), a, b, d)
    }
}

/// A query finds the output of the first matching row, and nothing where no
/// row matches.
pub proof fn lemma_lookup_result(rows: Seq<Row>, a: nat, b: nat, d: nat)
    ensures
        lookup_result(rows, a, b, d) is Some <==> has_match(rows, a, b, d),
        forall|i: int| #[trigger]
            is_first_match(rows, i, a, b, d) ==> lookup_result(rows, a, b, d) == Some(rows[i].2),
    decreases rows.len(),
{
    if rows.len() == 0 {
    } else if row_matches(rows[0], a, b, d) {
        assert(has_match(rows, a, b, d));
        assert forall|i: int| #[trigger] is_first_match(rows, i, a, b, d) implies lookup_result(
            rows,
            a,
            b,
            d,
        ) == Some(rows[i].2) by {
            if i > 0 {
                assert(!row_matches(rows[0], a, b, d));
            }
        }
    } else {
        let rest = rows.drop_first();
        lemma_lookup_result(rest, a, b, d);
        if has_match(rest, a, b, d) {
            let i = choose|i: int| 0 <= i < rest.len() && row_matches(#[trigger] rest[i], a, b, d);
            assert(row_matches(rows[i + 1], a, b, d));
        }
        if has_match(rows, a, b, d) {
            let i = choose|i: int| 0 <= i < rows.len() && row_matches(#[trigger] rows[i], a, b, d);
            assert(row_matches(rest[i - 1], a, b, d));
        }
        assert forall|i: int| #[trigger] is_first_match(rows, i, a, b, d) implies lookup_result(
            rows,
            a,
            b,
            d,
        ) == Some(rows[i].2) by {
            assert(is_first_match(rest, i - 1, a, b, d)) by {
                assert forall|k: int| 0 <= k < i - 1 implies !row_matches(
                    #[trigger] rest[k],
                    a,
                    b,
                    d,
                ) by {
                    assert(rest[k] == rows[k + 1]);
                }
            }
        }
    }
}

/// The round trip of the table: after a row has been appended, a query for
/// its inputs and tag finds its output, unless an earlier row with these
/// inputs and this tag holds another output; the query then still finds the
/// output of that earlier row.
pub proof fn lemma_lookup_after_insert(rows: Seq<Row>, row: Row)
    ensures
        lookup_result(rows, row.0, row.1, row.3) is None ==> lookup_result(
            rows.push(row),
            row.0,
            row.1,
            row.3,
        ) == Some(row.2),
        lookup_result(rows, row.0, row.1, row.3) is Some ==> lookup_result(
            rows.push(row),
            row.0,
            row.1,
            row.3,
        ) == lookup_result(rows, row.0, row.1, row.3),
    decreases rows.len(),
{
    let after = rows.push(row);
    if rows.len() == 0 {
        assert(after.drop_first() =~= Seq::<Row>::empty());
    } else if row_matches(rows[0], row.0, row.1, row.3) {
    } else {
        assert(after.drop_first() =~= rows.drop_first().push(row));
        lemma_lookup_after_insert(rows.drop_first(), row);
    }
}

/// Column `k` of the rows, in row order; `k` is 0, 1, 2 or 3.
pub open spec fn column(rows: Seq<Row>, k: int) -> Seq<nat> {
    Seq::new(
        rows.len(),
        |i: int|
            if k == 0 {
                rows[i].0
            } else if k == 1 {
                rows[i].1
            } else if k == 2 {
                rows[i].2
            } else {
                rows[i].3
            },
    )
}

/// A sequence of field elements in which an element may occur several times.
#[derive(Clone, Debug)]
pub struct MultiSet(pub Vec<Scalar>);

impl View for MultiSet {
    type V = Seq<nat>;

    open spec fn view(&self) -> Seq<nat> {
        scalar_views(self.0@)
    }
}

impl MultiSet {
    /// The empty sequence.
    pub fn new() -> (set: MultiSet)
        ensures
            set@ == Seq::<nat>::empty(),
    {
        let set = MultiSet(Vec::new());
        assert(set@ =~= Seq::<nat>::empty());
        set
    }

    /// Appends an element.
    pub fn push(&mut self, value: Scalar)
        ensures
            final(self)@ == old(self)@.push(value@),
    {
        self.0.push(value);
        assert(self@ =~= old(self)@.push(value@));
    }

    /// The number of elements, counted with repetition.
    pub fn len(&self) -> (n: usize)
        ensures
            n == self@.len(),
    {
        self.0.len()
    }
}

/// A table of rows of four field elements each.
#[derive(Clone, Debug)]
pub struct LookupTable(pub Vec<[Scalar; 4]>);

impl View for LookupTable {
    type V = Seq<Row>;

    open spec fn view(&self) -> Seq<Row> {
        Seq::new(self.0@.len(), |i: int| row_view(self.0@[i]))
    }
}

impl Default for LookupTable {
    fn default() -> (table: LookupTable)
        ensures
            table@ == Seq::<Row>::empty(),
    {
        LookupTable::new()
    }
}

impl LookupTable {
    /// The empty table.
    pub fn new() -> (table: LookupTable)
        ensures
            table@ == Seq::<Row>::empty(),
    {
        let table = LookupTable(Vec::new());
        assert(table@ =~= Seq::<Row>::empty());
        table
    }

    /// The number of rows.
    pub fn size(&self) -> (n: usize)
        ensures
            n == self@.len(),
    {
        self.0.len()
    }

    fn push(&mut self, row: [Scalar; 4])
        ensures
            final(self)@ == old(self)@.push(row_view(row)),
    {
        self.0.push(row);
        assert(self@ =~= old(self)@.push(row_view(row)));
    }

    /// Appends the row `[a, b, c, d]`. Rows are kept in the order of their
    /// insertion, and a row that is already there is stored again.
    pub fn insert_row(&mut self, a: Scalar, b: Scalar, c: Scalar, d: Scalar)
        ensures
            final(self)@ == old(self)@.push((a@, b@, c@, d@)),
    {
        self.push([a, b, c, d]);
    }

    /// Appends the row `[a, b, (a + b) mod upper_bound, 0]`.
    pub fn insert_add_row(&mut self, a: u64, b: u64, upper_bound: u64)
        requires
            upper_bound > 0,
        ensures
            final(self)@ == old(self)@.push(Operation::Add.row(a, b, upper_bound)),
    {
        let c = ((a as u128 + b as u128) % (upper_bound as u128)) as u64;
        self.insert_row(
            Scalar::from_u64(a),
            Scalar::from_u64(b),
            Scalar::from_u64(c),
            Scalar::zero(),
        );
    }

    /// Appends the row `[a, b, (a * b) mod upper_bound, 1]`.
    pub fn insert_mul_row(&mut self, a: u64, b: u64, upper_bound: u64)
        requires
            upper_bound > 0,
        ensures
            final(self)@ == old(self)@.push(Operation::Mul.row(a, b, upper_bound)),
    {
        assert(a * b <= 0xffff_ffff_ffff_ffff * 0xffff_ffff_ffff_ffff) by (nonlinear_arith)
            requires
                a <= 0xffff_ffff_ffff_ffff,
                b <= 0xffff_ffff_ffff_ffff,
        ;
        let c = ((a as u128 * b as u128) % (upper_bound as u128)) as u64;
        self.insert_row(
            Scalar::from_u64(a),
            Scalar::from_u64(b),
            Scalar::from_u64(c),
            Scalar::one(),
        );
    }

    /// Appends the row `[a, b, (a xor b) mod upper_bound, -1]`.
    pub fn insert_xor_row(&mut self, a: u64, b: u64, upper_bound: u64)
        requires
            upper_bound > 0,
        ensures
            final(self)@ == old(self)@.push(Operation::Xor.row(a, b, upper_bound)),
    {
        let c = (a ^ b) % upper_bound;
        self.insert_row(
            Scalar::from_u64(a),
            Scalar::from_u64(b),
            Scalar::from_u64(c),
            Scalar::one().neg(),
        );
    }

    /// Appends the row `[a, b, (a and b) mod upper_bound, 2]`.
    pub fn insert_and_row(&mut self, a: u64, b: u64, upper_bound: u64)
        requires
            upper_bound > 0,
        ensures
            final(self)@ == old(self)@.push(Operation::And.row(a, b, upper_bound)),
    {
        let c = (a & b) % upper_bound;
        self.insert_row(
            Scalar::from_u64(a),
            Scalar::from_u64(b),
            Scalar::from_u64(c),
            Scalar::from_u64(2u64),
        );
    }

    fn insert_op_row(&mut self, op: Operation, a: u64, b: u64, upper_bound: u64)
        requires
            upper_bound > 0,
        ensures
            final(self)@ == old(self)@.push(op.row(a, b, upper_bound)),
    {
        match op {
            Operation::Add => self.insert_add_row(a, b, upper_bound),
            Operation::Mul => self.insert_mul_row(a, b, upper_bound),
            Operation::Xor => self.insert_xor_row(a, b, upper_bound),
            Operation::And => self.insert_and_row(a, b, upper_bound),
        }
    }

    fn insert_multi(&mut self, op: Operation, lower_bound: u64, n: u32)
        requires
            n < 64,
        ensures
            final(self)@ == old(self)@ + op.table(lower_bound, pow2(n as nat) as u64),
    {
        let upper_bound: u64 = 1u64 << n;
        proof {
            vstd::bits::lemma_u64_pow2_no_overflow(n as nat);
            vstd::bits::lemma_u64_shl_is_mul(1u64, n as u64);
            vstd::arithmetic::power2::lemma_pow2_pos(n as nat);
        }
        assert(upper_bound == pow2(n as nat));
        if lower_bound >= upper_bound {
            assert(self@ =~= old(self)@ + op.table(lower_bound, upper_bound));
            return ;
        }
        let mut a: u64 = lower_bound;
        assert(self@ =~= old(self)@ + op.rows_upto(lower_bound, a, upper_bound));
        while a < upper_bound
            invariant
                0 < upper_bound,
                lower_bound <= a <= upper_bound,
                self@ == old(self)@ + op.rows_upto(lower_bound, a, upper_bound),
            decreases upper_bound - a,
        {
            let ghost done = self@;
            let mut b: u64 = lower_bound;
            assert(self@ =~= done + op.rows_for(a, lower_bound, b, upper_bound));
            while b < upper_bound
                invariant
                    0 < upper_bound,
                    lower_bound <= b <= upper_bound,
                    self@ == done + op.rows_for(a, lower_bound, b, upper_bound),
                decreases upper_bound - b,
            {
                self.insert_op_row(op, a, b, upper_bound);
                assert(op.rows_for(a, lower_bound, (b + 1) as u64, upper_bound) =~= op.rows_for(
                    a,
                    lower_bound,
                    b,
                    upper_bound,
                ).push(op.row(a, b, upper_bound)));
                assert(self@ =~= done + op.rows_for(
                    a,
                    lower_bound,
                    (b + 1) as u64,
                    upper_bound,
                ));
                b += 1;
            }
            assert(self@ =~= old(self)@ + op.rows_upto(
                lower_bound,
                (a + 1) as u64,
                upper_bound,
            ));
            a += 1;
        }
    }

    /// Appends the addition rows for all `a` and `b` from `lower_bound` up
    /// to, but not including, `2^n`, sums reduced modulo `2^n`; ordered by
    /// `a`, then by `b`.
    pub fn insert_multi_add(&mut self, lower_bound: u64, n: u32)
        requires
            n < 64,
        ensures
            final(self)@ == old(self)@ + Operation::Add.table(
                lower_bound,
                pow2(n as nat) as u64,
            ),
    {
        self.insert_multi(Operation::Add, lower_bound, n);
    }

    /// Appends the multiplication rows for all `a` and `b` from
    /// `lower_bound` up to, but not including, `2^n`, products reduced
    /// modulo `2^n`; ordered by `a`, then by `b`.
    pub fn insert_multi_mul(&mut self, lower_bound: u64, n: u32)
        requires
            n < 64,
        ensures
            final(self)@ == old(self)@ + Operation::Mul.table(
                lower_bound,
                pow2(n as nat) as u64,
            ),
    {
        self.insert_multi(Operation::Mul, lower_bound, n);
    }

    /// Appends the exclusive-or rows for all `a` and `b` from `lower_bound`
    /// up to, but not including, `2^n`; ordered by `a`, then by `b`.
    pub fn insert_multi_xor(&mut self, lower_bound: u64, n: u32)
        requires
            n < 64,
        ensures
            final(self)@ == old(self)@ + Operation::Xor.table(
                lower_bound,
                pow2(n as nat) as u64,
            ),
    {
        self.insert_multi(Operation::Xor, lower_bound, n);
    }

    /// Appends the bitwise-and rows for all `a` and `b` from `lower_bound`
    /// up to, but not including, `2^n`; ordered by `a`, then by `b`.
    pub fn insert_multi_and(&mut self, lower_bound: u64, n: u32)
        requires
            n < 64,
        ensures
            final(self)@ == old(self)@ + Operation::And.table(
                lower_bound,
                pow2(n as nat) as u64,
            ),
    {
        self.insert_multi(Operation::And, lower_bound, n);
    }

    /// The four columns of the table, each in row order.
    pub fn vec_to_multiset(&self) -> (result: Vec<MultiSet>)
        ensures
            result@.len() == 4,
            forall|k: int| 0 <= k < 4 ==> (#[trigger] result@[k])@ == column(self@, k),
    {
        let mut first = MultiSet::new();
        let mut second = MultiSet::new();
        let mut third = MultiSet::new();
        let mut fourth = MultiSet::new();
        let mut i: usize = 0;
        while i < self.0.len()
            invariant
                i <= self@.len(),
                first@ == column(self@, 0).take(i as int),
                second@ == column(self@, 1).take(i as int),
                third@ == column(self@, 2).take(i as int),
                fourth@ == column(self@, 3).take(i as int),
            decreases self@.len() - i,
        {
            let row = self.0[i];
            first.push(row[0]);
            second.push(row[1]);
            third.push(row[2]);
            fourth.push(row[3]);
            assert(first@ =~= column(self@, 0).take(i + 1));
            assert(second@ =~= column(self@, 1).take(i + 1));
            assert(third@ =~= column(self@, 2).take(i + 1));
            assert(fourth@ =~= column(self@, 3).take(i + 1));
            i += 1;
        }
        assert(first@ =~= column(self@, 0));
        assert(second@ =~= column(self@, 1));
        assert(third@ =~= column(self@, 2));
        assert(fourth@ =~= column(self@, 3));
        let mut result: Vec<MultiSet> = Vec::with_capacity(4);
        result.push(first);
        result.push(second);
        result.push(third);
        result.push(fourth);
        result
    }

    /// Looks for the first row with the inputs `a` and `b` and the tag `d`,
    /// and returns its output. Fails with `ElementNotIndexed` where no row
    /// matches.
    pub fn lookup(&self, a: Scalar, b: Scalar, d: Scalar) -> (r: Result<Scalar, Error>)
        ensures
            match r {
                Ok(c) => lookup_result(self@, a@, b@, d@) == Some(c@),
                Err(e) => e == Error::ElementNotIndexed && lookup_result(self@, a@, b@, d@)
                    is None,
            },
    {
        let mut i: usize = 0;
        while i < self.0.len()
            invariant
                i <= self@.len(),
                forall|k: int| 0 <= k < i ==> !row_matches(#[trigger] self@[k], a@, b@, d@),
            decreases self@.len() - i,
        {
            let row = self.0[i];
            if row[0] == a && row[1] == b && row[3] == d {
                proof {
                    assert(is_first_match(self@, i as int, a@, b@, d@));
                    lemma_lookup_result(self@, a@, b@, d@);
                }
                return Ok(row[2]);
            }
            proof {
                Scalar::lemma_view_injective(row[0], a);
                Scalar::lemma_view_injective(row[1], b);
                Scalar::lemma_view_injective(row[3], d);
            }
            i += 1;
        }
        proof {
            lemma_lookup_result(self@, a@, b@, d@);
        }
        Err(Error::ElementNotIndexed)
    }

    /// The table of all additions of inputs from `lower_bound` up to, but
    /// not including, `2^n`.
    pub fn add_table(lower_bound: u64, n: u32) -> (table: LookupTable)
        requires
            n < 64,
        ensures
            table@ == Operation::Add.table(lower_bound, pow2(n as nat) as u64),
    {
        let mut table = LookupTable::new();
        table.insert_multi_add(lower_bound, n);
        assert(table@ =~= Operation::Add.table(lower_bound, pow2(n as nat) as u64));
        table
    }

    /// The table of all exclusive-ors of inputs from `lower_bound` up to,
    /// but not including, `2^n`.
    pub fn xor_table(lower_bound: u64, n: u32) -> (table: LookupTable)
        requires
            n < 64,
        ensures
            table@ == Operation::Xor.table(lower_bound, pow2(n as nat) as u64),
    {
        let mut table = LookupTable::new();
        table.insert_multi_xor(lower_bound, n);
        assert(table@ =~= Operation::Xor.table(lower_bound, pow2(n as nat) as u64));
        table
    }

    /// The table of all multiplications of inputs from `lower_bound` up to,
    /// but not including, `2^n`.
    pub fn mul_table(lower_bound: u64, n: u32) -> (table: LookupTable)
        requires
            n < 64,
        ensures
            table@ == Operation::Mul.table(lower_bound, pow2(n as nat) as u64),
    {
        let mut table = LookupTable::new();
        table.insert_multi_mul(lower_bound, n);
        assert(table@ =~= Operation::Mul.table(lower_bound, pow2(n as nat) as u64));
        table
    }
}

} // verus!

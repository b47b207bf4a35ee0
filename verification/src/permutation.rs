//! The permutation engine: it records, for every variable, the wire
//! positions that the variable occupies, and derives from that record the
//! four permutations that send each position of a variable to the next one.

use crate::domain::{ifft_coeffs, pow_mod, powers, EvaluationDomain};
use crate::field::{mul_mod, scalar_views, Scalar};
use crate::polynomial::{trimmed, Polynomial};
use crate::variable::{Variable, WireData};
use vstd::prelude::*;

verus! {

/// The record of a permutation: for each variable index, the positions that
/// the variable occupies, in the order in which they were added.
pub type Occurrences = Seq<Seq<WireData>>;

/// Position `j` of variable `v` exists in the record.
pub open spec fn in_record(occ: Occurrences, v: int, j: int) -> bool {
    0 <= v < occ.len() && 0 <= j < occ[v].len()
}

/// Position `j` of variable `v` exists and holds the wire `w`.
pub open spec fn occurs_at(occ: Occurrences, v: int, j: int, w: WireData) -> bool {
    in_record(occ, v, j) && occ[v][j] == w
}

/// Entry `(v1, j1)` is visited before entry `(v2, j2)` when the record is
/// walked variable by variable.
pub open spec fn precedes(v1: int, j1: int, v2: int, j2: int) -> bool {
    v1 < v2 || (v1 == v2 && j1 < j2)
}

/// The occurrence that follows entry `j` of variable `v`, cyclically.
pub open spec fn successor(occ: Occurrences, v: int, j: int) -> WireData {
    if j + 1 == occ[v].len() {
        occ[v][0]
    } else {
        occ[v][j + 1]
    }
}

/// Entry `(v, j)` is the last one before `(bv, bj)` that holds `w`.
pub open spec fn last_before(
    occ: Occurrences,
    bv: int,
    bj: int,
    v: int,
    j: int,
    w: WireData,
) -> bool {
    &&& occurs_at(occ, v, j, w)
    &&& precedes(v, j, bv, bj)
    &&& forall|v2: int, j2: int|
        #[trigger] occurs_at(occ, v2, j2, w) && precedes(v2, j2, bv, bj) ==> !precedes(
            v,
            j,
            v2,
            j2,
        )
}

/// The image of `w` once all entries before `(bv, bj)` have been linked to
/// their successors: the successor of the last such entry that holds `w`,
/// and `w` itself where there is none.
pub open spec fn image_before(occ: Occurrences, bv: int, bj: int, w: WireData) -> WireData {
    if exists|v: int, j: int| last_before(occ, bv, bj, v, j, w) {
        let (v, j) = choose|v: int, j: int| last_before(occ, bv, bj, v, j, w);
        successor(occ, v, j)
    } else {
        w
    }
}

/// The image of the wire position `w` under the permutation that the record
/// defines.
pub open spec fn sigma_image(occ: Occurrences, w: WireData) -> WireData {
    image_before(occ, occ.len() as int, 0, w)
}

/// The position reached from `w` after `k` applications of the permutation.
pub open spec fn iterate_sigma(occ: Occurrences, w: WireData, k: nat) -> WireData
    decreases k,
{
    if k == 0 {
        w
    } else {
        iterate_sigma(occ, sigma_image(occ, w), (k - 1) as nat)
    }
}

/// Every recorded position belongs to a gate with index below `n`.
pub open spec fn gates_below(occ: Occurrences, n: int) -> bool {
    forall|v: int, j: int| in_record(occ, v, j) ==> (#[trigger] occ[v][j]).gate() < n
}

/// No wire position is recorded twice.
pub open spec fn positions_distinct(occ: Occurrences) -> bool {
    forall|v1: int, j1: int, v2: int, j2: int|
        in_record(occ, v1, j1) && in_record(occ, v2, j2) && #[trigger] occ[v1][j1]
            == #[trigger] occ[v2][j2] ==> v1 == v2 && j1 == j2
}

/// The record after `w` has been appended to the positions of variable `v`.
pub open spec fn record_push(occ: Occurrences, v: int, w: WireData) -> Occurrences {
    occ.update(v, occ[v].push(w))
}

/// The record after the four wires of gate `g` have been assigned to the
/// variables `a`, `b`, `c` and `d`.
pub open spec fn record_gate(
    occ: Occurrences,
    a: int,
    b: int,
    c: int,
    d: int,
    g: usize,
) -> Occurrences {
    record_push(
        record_push(
            record_push(record_push(occ, a, WireData::Left(g)), b, WireData::Right(g)),
            c,
            WireData::Output(g),
        ),
        d,
        WireData::Fourth(g),
    )
}

/// The last entry before a bound that holds `w` determines the image of `w`.
pub proof fn lemma_image_of_last(occ: Occurrences, bv: int, bj: int, v: int, j: int, w: WireData)
    requires
        last_before(occ, bv, bj, v, j, w),
    ensures
        image_before(occ, bv, bj, w) == successor(occ, v, j),
{
    let (v2, j2) = choose|v2: int, j2: int| last_before(occ, bv, bj, v2, j2, w);
    assert(occurs_at(occ, v2, j2, w));
    assert(occurs_at(occ, v, j, w));
}

/// A wire that no entry before a bound holds is its own image.
pub proof fn lemma_image_of_absent(occ: Occurrences, bv: int, bj: int, w: WireData)
    requires
        forall|v: int, j: int| #[trigger] occurs_at(occ, v, j, w) ==> !precedes(v, j, bv, bj),
    ensures
        image_before(occ, bv, bj, w) == w,
{
}

/// Moving the bound over an entry that does not hold `w` leaves the image of
/// `w` as it was.
pub proof fn lemma_image_step_other(occ: Occurrences, bv: int, bj: int, w: WireData)
    requires
        in_record(occ, bv, bj),
        occ[bv][bj] != w,
    ensures
        image_before(occ, bv, bj + 1, w) == image_before(occ, bv, bj, w),
{
    let b1 = bj + 1;
    if exists|v: int, j: int| last_before(occ, bv, bj, v, j, w) {
        let (v, j) = choose|v: int, j: int| last_before(occ, bv, bj, v, j, w);
        assert(last_before(occ, bv, b1, v, j, w)) by {
            assert forall|v2: int, j2: int|
                #[trigger] occurs_at(occ, v2, j2, w) && precedes(v2, j2, bv, b1) implies !precedes(
                v,
                j,
                v2,
                j2,
            ) by {
                assert(precedes(v2, j2, bv, bj));
            }
        }
        lemma_image_of_last(occ, bv, b1, v, j, w);
    } else {
        if exists|v: int, j: int| last_before(occ, bv, b1, v, j, w) {
            let (v, j) = choose|v: int, j: int| last_before(occ, bv, b1, v, j, w);
            assert(precedes(v, j, bv, bj));
            assert(last_before(occ, bv, bj, v, j, w));
            assert(false);
        }
    }
}

/// Moving the bound over an entry that holds `w` makes the successor of that
/// entry the image of `w`.
pub proof fn lemma_image_step_same(occ: Occurrences, bv: int, bj: int)
    requires
        in_record(occ, bv, bj),
    ensures
        image_before(occ, bv, bj + 1, occ[bv][bj]) == successor(occ, bv, bj),
{
    let w = occ[bv][bj];
    assert(occurs_at(occ, bv, bj, w));
    assert(last_before(occ, bv, bj + 1, bv, bj, w));
    lemma_image_of_last(occ, bv, bj + 1, bv, bj, w);
}

/// The bound at the end of one variable's positions and the bound at the
/// start of the next variable's positions have the same entries before them.
pub proof fn lemma_image_next_variable(occ: Occurrences, bv: int, w: WireData)
    requires
        0 <= bv < occ.len(),
    ensures
        image_before(occ, bv + 1, 0, w) == image_before(occ, bv, occ[bv].len() as int, w),
{
    let end = occ[bv].len() as int;
    let next = bv + 1;
    if exists|v: int, j: int| last_before(occ, bv, end, v, j, w) {
        let (v, j) = choose|v: int, j: int| last_before(occ, bv, end, v, j, w);
        assert(last_before(occ, next, 0, v, j, w)) by {
            assert forall|v2: int, j2: int|
                #[trigger] occurs_at(occ, v2, j2, w) && precedes(v2, j2, next, 0) implies !precedes(
                v,
                j,
                v2,
                j2,
            ) by {
                assert(precedes(v2, j2, bv, end));
            }
        }
        lemma_image_of_last(occ, next, 0, v, j, w);
    } else {
        if exists|v: int, j: int| last_before(occ, next, 0, v, j, w) {
            let (v, j) = choose|v: int, j: int| last_before(occ, next, 0, v, j, w);
            assert(precedes(v, j, bv, end));
            assert(last_before(occ, bv, end, v, j, w));
            assert(false);
        }
    }
}

/// Where no position is recorded twice, the permutation sends every recorded
/// position to the next position of the same variable.
pub proof fn lemma_sigma_of_occurrence(occ: Occurrences, v: int, j: int)
    requires
        positions_distinct(occ),
        in_record(occ, v, j),
    ensures
        sigma_image(occ, occ[v][j]) == successor(occ, v, j),
{
    let w = occ[v][j];
    assert(occurs_at(occ, v, j, w));
    assert(last_before(occ, occ.len() as int, 0, v, j, w));
    lemma_image_of_last(occ, occ.len() as int, 0, v, j, w);
}

/// The permutation leaves every position that is not recorded where it is.
pub proof fn lemma_sigma_of_unused(occ: Occurrences, w: WireData)
    requires
        forall|v: int, j: int| in_record(occ, v, j) ==> #[trigger] occ[v][j] != w,
    ensures
        sigma_image(occ, w) == w,
{
    assert forall|v: int, j: int| #[trigger] occurs_at(occ, v, j, w) implies !precedes(
        v,
        j,
        occ.len() as int,
        0,
    ) by {
        assert(occ[v][j] != w);
    }
    lemma_image_of_absent(occ, occ.len() as int, 0, w);
}

/// Where no position is recorded twice, `m` applications of the permutation
/// move entry `j` of a variable with `k` positions to entry `(j + m) mod k`.
pub proof fn lemma_sigma_steps(occ: Occurrences, v: int, j: int, m: nat)
    requires
        positions_distinct(occ),
        in_record(occ, v, j),
    ensures
        iterate_sigma(occ, occ[v][j], m) == occ[v][(j + m) % (occ[v].len() as int)],
    decreases m,
{
    let k = occ[v].len() as int;
    if m == 0 {
        assert((j + 0) % k == j) by {
            vstd::arithmetic::div_mod::lemma_small_mod(j as nat, k as nat);
        }
    } else {
        lemma_sigma_of_occurrence(occ, v, j);
        let j1 = if j + 1 == k {
            0
        } else {
            j + 1
        };
        assert(sigma_image(occ, occ[v][j]) == occ[v][j1]);
        lemma_sigma_steps(occ, v, j1, (m - 1) as nat);
        assert((j1 + (m - 1)) % k == (j + m) % k) by {
            if j + 1 == k {
                vstd::arithmetic::div_mod::lemma_mod_add_multiples_vanish(m - 1, k);
            }
        }
    }
}

/// The cycle law of the permutation argument: where no position is recorded
/// twice, applying the permutation as many times as a variable has positions
/// leads from each of these positions back to itself.
pub proof fn lemma_sigma_cycle(occ: Occurrences, v: int, j: int)
    requires
        positions_distinct(occ),
        in_record(occ, v, j),
    ensures
        iterate_sigma(occ, occ[v][j], occ[v].len()) == occ[v][j],
{
    let k = occ[v].len() as int;
    lemma_sigma_steps(occ, v, j, occ[v].len());
    assert((j + k) % k == j) by {
        vstd::arithmetic::div_mod::lemma_mod_add_multiples_vanish(j, k);
        vstd::arithmetic::div_mod::lemma_small_mod(j as nat, k as nat);
    }
}

/// The number of positions in the record.
pub open spec fn total_positions(occ: Occurrences) -> nat
    decreases occ.len(),
{
    if occ.len() == 0 {
        0
    } else {
        total_positions(occ.drop_last()) + occ.last().len()
    }
}

/// The wire position `w` is not in the record.
pub open spec fn unused(occ: Occurrences, w: WireData) -> bool {
    forall|v: int, j: int| in_record(occ, v, j) ==> #[trigger] occ[v][j] != w
}

/// A new variable adds no position.
pub proof fn lemma_total_new_variable(occ: Occurrences)
    ensures
        total_positions(occ.push(Seq::empty())) == total_positions(occ),
{
    assert(occ.push(Seq::empty()).drop_last() =~= occ);
}

/// Appending a position to a variable adds one position.
pub proof fn lemma_total_record_push(occ: Occurrences, v: int, w: WireData)
    requires
        0 <= v < occ.len(),
    ensures
        total_positions(record_push(occ, v, w)) == total_positions(occ) + 1,
    decreases occ.len(),
{
    let after = record_push(occ, v, w);
    if v == occ.len() - 1 {
        assert(after.drop_last() =~= occ.drop_last());
    } else {
        assert(after.drop_last() =~= record_push(occ.drop_last(), v, w));
        lemma_total_record_push(occ.drop_last(), v, w);
    }
}

/// Appending an unused position of a gate below `n` keeps the positions
/// distinct and below `n`; positions that differ from it stay unused.
pub proof fn lemma_record_push_keeps(occ: Occurrences, v: int, w: WireData, n: int)
    requires
        0 <= v < occ.len(),
        positions_distinct(occ),
        unused(occ, w),
        w.gate() < n,
        gates_below(occ, n),
    ensures
        positions_distinct(record_push(occ, v, w)),
        gates_below(record_push(occ, v, w), n),
        forall|w2: WireData| w2 != w && unused(occ, w2) ==> #[trigger] unused(
            record_push(occ, v, w),
            w2,
        ),
{
    let after = record_push(occ, v, w);
    assert forall|v1: int, j1: int, v2: int, j2: int|
        in_record(after, v1, j1) && in_record(after, v2, j2) && #[trigger] after[v1][j1]
            == #[trigger] after[v2][j2] implies v1 == v2 && j1 == j2 by {
        if in_record(occ, v1, j1) {
            assert(occ[v1][j1] == after[v1][j1]);
        }
        if in_record(occ, v2, j2) {
            assert(occ[v2][j2] == after[v2][j2]);
        }
    }
    assert forall|v2: int, j2: int| in_record(after, v2, j2) implies (
    #[trigger] after[v2][j2]).gate() < n by {
        if in_record(occ, v2, j2) {
            assert(occ[v2][j2] == after[v2][j2]);
        }
    }
    assert forall|w2: WireData| w2 != w && unused(occ, w2) implies #[trigger] unused(after, w2) by {
        assert forall|v2: int, j2: int| in_record(after, v2, j2) implies #[trigger] after[v2][j2]
            != w2 by {
            if in_record(occ, v2, j2) {
                assert(occ[v2][j2] == after[v2][j2]);
            }
        }
    }
}

/// Recording the wires of gate `g` in a record whose positions are distinct
/// and belong to gates below `g` gives a record whose positions are distinct
/// and belong to gates up to `g`, with four positions more.
pub proof fn lemma_record_gate_keeps(occ: Occurrences, a: int, b: int, c: int, d: int, g: usize)
    requires
        0 <= a < occ.len(),
        0 <= b < occ.len(),
        0 <= c < occ.len(),
        0 <= d < occ.len(),
        positions_distinct(occ),
        gates_below(occ, g as int),
    ensures
        record_gate(occ, a, b, c, d, g).len() == occ.len(),
        positions_distinct(record_gate(occ, a, b, c, d, g)),
        gates_below(record_gate(occ, a, b, c, d, g), g + 1),
        total_positions(record_gate(occ, a, b, c, d, g)) == total_positions(occ) + 4,
{
    let n = g + 1;
    let left = WireData::Left(g);
    let right = WireData::Right(g);
    let output = WireData::Output(g);
    let fourth = WireData::Fourth(g);
    let occ1 = record_push(occ, a, left);
    let occ2 = record_push(occ1, b, right);
    let occ3 = record_push(occ2, c, output);
    assert(unused(occ, left) && unused(occ, right) && unused(occ, output) && unused(occ, fourth));
    lemma_record_push_keeps(occ, a, left, n);
    lemma_total_record_push(occ, a, left);
    assert(unused(occ1, right) && unused(occ1, output) && unused(occ1, fourth));
    lemma_record_push_keeps(occ1, b, right, n);
    lemma_total_record_push(occ1, b, right);
    assert(unused(occ2, output) && unused(occ2, fourth));
    lemma_record_push_keeps(occ2, c, output, n);
    lemma_total_record_push(occ2, c, output);
    assert(unused(occ3, fourth));
    lemma_record_push_keeps(occ3, d, fourth, n);
    lemma_total_record_push(occ3, d, fourth);
}

/// A new variable leaves the positions of the record distinct and below
/// the same bound.
pub proof fn lemma_new_variable_keeps(occ: Occurrences, n: int)
    requires
        positions_distinct(occ),
        gates_below(occ, n),
    ensures
        positions_distinct(occ.push(Seq::empty())),
        gates_below(occ.push(Seq::empty()), n),
{
    let after = occ.push(Seq::<WireData>::empty());
    assert forall|v1: int, j1: int, v2: int, j2: int|
        in_record(after, v1, j1) && in_record(after, v2, j2) && #[trigger] after[v1][j1]
            == #[trigger] after[v2][j2] implies v1 == v2 && j1 == j2 by {
        assert(in_record(occ, v1, j1) && occ[v1][j1] == after[v1][j1]);
        assert(in_record(occ, v2, j2) && occ[v2][j2] == after[v2][j2]);
    }
    assert forall|v2: int, j2: int| in_record(after, v2, j2) implies (
    #[trigger] after[v2][j2]).gate() < n by {
        assert(in_record(occ, v2, j2) && occ[v2][j2] == after[v2][j2]);
    }
}

/// The number of the wire column that a position lies in: 0 for left, 1 for
/// right, 2 for output and 3 for fourth.
pub open spec fn column_of(w: WireData) -> int {
    match w {
        WireData::Left(_) => 0,
        WireData::Right(_) => 1,
        WireData::Output(_) => 2,
        WireData::Fourth(_) => 3,
    }
}

/// The position of gate `i` in the wire column with the given number.
pub open spec fn wire_at(column: int, i: usize) -> WireData {
    if column == 0 {
        WireData::Left(i)
    } else if column == 1 {
        WireData::Right(i)
    } else if column == 2 {
        WireData::Output(i)
    } else {
        WireData::Fourth(i)
    }
}

/// Entry `i` of `col` is the image of the position of gate `i` in the given
/// column once all entries before `(bv, bj)` have been linked.
pub open spec fn linked_before(
    col: Seq<WireData>,
    occ: Occurrences,
    bv: int,
    bj: int,
    column: int,
) -> bool {
    forall|i: int|
        0 <= i < col.len() ==> #[trigger] col[i] == image_before(
            occ,
            bv,
            bj,
            wire_at(column, i as usize),
        )
}

/// `col` is the permutation of the record on the wire column with the given
/// number, for gates `0` to `n - 1`.
pub open spec fn is_sigma_column(
    col: Seq<WireData>,
    occ: Occurrences,
    n: int,
    column: int,
) -> bool {
    &&& col.len() == n
    &&& forall|i: int|
        0 <= i < n ==> #[trigger] col[i] == sigma_image(occ, wire_at(column, i as usize))
}

/// The permutation of a wire column is a function of the record and the
/// number of gates: any two columns that are the permutation of the same
/// record on the same wire column are equal.
pub proof fn lemma_sigma_column_unique(
    first: Seq<WireData>,
    second: Seq<WireData>,
    occ: Occurrences,
    n: int,
    column: int,
)
    requires
        is_sigma_column(first, occ, n, column),
        is_sigma_column(second, occ, n, column),
    ensures
        first == second,
{
    assert(first =~= second);
}

/// Linking entry `(bv, bj)` updates the column that the entry lies in at the
/// gate of the entry, and no other column.
proof fn lemma_link_step(
    before: Seq<WireData>,
    after: Seq<WireData>,
    occ: Occurrences,
    bv: int,
    bj: int,
    column: int,
)
    requires
        0 <= column < 4,
        before.len() <= usize::MAX,
        in_record(occ, bv, bj),
        linked_before(before, occ, bv, bj, column),
        column_of(occ[bv][bj]) == column ==> occ[bv][bj].gate() < before.len() && after
            == before.update(occ[bv][bj].gate() as int, successor(occ, bv, bj)),
        column_of(occ[bv][bj]) != column ==> after == before,
    ensures
        linked_before(after, occ, bv, bj + 1, column),
{
    let b1 = bj + 1;
    let current = occ[bv][bj];
    assert forall|i: int| 0 <= i < after.len() implies #[trigger] after[i] == image_before(
        occ,
        bv,
        b1,
        wire_at(column, i as usize),
    ) by {
        let w = wire_at(column, i as usize);
        if current == w {
            lemma_image_step_same(occ, bv, bj);
        } else {
            lemma_image_step_other(occ, bv, bj, w);
            assert(before[i] == image_before(occ, bv, bj, w));
        }
    }
}

/// A column that is linked up to the end of one variable is linked up to the
/// start of the next.
proof fn lemma_link_next_variable(col: Seq<WireData>, occ: Occurrences, bv: int, column: int)
    requires
        0 <= bv < occ.len(),
        linked_before(col, occ, bv, occ[bv].len() as int, column),
    ensures
        linked_before(col, occ, bv + 1, 0, column),
{
    let next = bv + 1;
    assert forall|i: int| 0 <= i < col.len() implies #[trigger] col[i] == image_before(
        occ,
        next,
        0,
        wire_at(column, i as usize),
    ) by {
        lemma_image_next_variable(occ, bv, wire_at(column, i as usize));
    }
}

/// The identity column is linked before the first entry.
proof fn lemma_link_start(col: Seq<WireData>, occ: Occurrences, column: int)
    requires
        forall|i: int| 0 <= i < col.len() ==> #[trigger] col[i] == wire_at(column, i as usize),
    ensures
        linked_before(col, occ, 0, 0, column),
{
    assert forall|i: int| 0 <= i < col.len() implies #[trigger] col[i] == image_before(
        occ,
        0,
        0,
        wire_at(column, i as usize),
    ) by {
        lemma_image_of_absent(occ, 0, 0, wire_at(column, i as usize));
    }
}

/// The multiplier of the coset of the right wires.
pub const K1: u64 = 7;

/// The multiplier of the coset of the output wires.
pub const K2: u64 = 13;

/// The multiplier of the coset of the fourth wires.
pub const K3: u64 = 17;

/// The field element that stands for a wire position in the sigma
/// polynomials: the power of the generator `g` by the index of its gate,
/// multiplied by the multiplier of the coset of its column.
pub open spec fn encode(w: WireData, g: nat) -> nat {
    match w {
        WireData::Left(i) => pow_mod(g, i as nat),
        WireData::Right(i) => mul_mod(K1 as nat, pow_mod(g, i as nat)),
        WireData::Output(i) => mul_mod(K2 as nat, pow_mod(g, i as nat)),
        WireData::Fourth(i) => mul_mod(K3 as nat, pow_mod(g, i as nat)),
    }
}

/// The field elements that stand for the wire positions of a mapping.
pub open spec fn encoded(mapping: Seq<WireData>, g: nat) -> Seq<nat> {
    Seq::new(mapping.len(), |k: int| encode(mapping[k], g))
}

/// The permutation of the record on the wire column with the given number,
/// for gates `0` to `n - 1`.
pub open spec fn sigma_column(occ: Occurrences, n: nat, column: int) -> Seq<WireData> {
    Seq::new(n, |i: int| sigma_image(occ, wire_at(column, i as usize)))
}

/// The image of a position of a gate below `n` belongs to a gate below `n`
/// where all recorded positions do.
pub proof fn lemma_sigma_image_below(occ: Occurrences, n: int, w: WireData)
    requires
        gates_below(occ, n),
        w.gate() < n,
    ensures
        sigma_image(occ, w).gate() < n,
{
    let bound = occ.len() as int;
    if exists|v: int, j: int| last_before(occ, bound, 0, v, j, w) {
        let (v, j) = choose|v: int, j: int| last_before(occ, bound, 0, v, j, w);
        assert(in_record(occ, v, j));
        if j + 1 == occ[v].len() {
            assert(in_record(occ, v, 0));
        } else {
            assert(in_record(occ, v, j + 1));
        }
    }
}

/// Records which wire positions each variable occupies.
#[derive(Debug)]
pub struct Permutation {
    /// For the variable with index `v`, entry `v` holds the positions that
    /// the variable occupies, in the order in which they were added.
    pub variable_map: Vec<Vec<WireData>>,
}

impl View for Permutation {
    type V = Occurrences;

    open spec fn view(&self) -> Occurrences {
        Seq::new(self.variable_map@.len(), |v: int| self.variable_map@[v]@)
    }
}

impl Permutation {
    /// An empty record.
    pub fn new() -> (perm: Permutation)
        ensures
            perm@ == Seq::<Seq<WireData>>::empty(),
    {
        Permutation::with_capacity(0)
    }

    /// An empty record with room for `expected_size` variables.
    pub fn with_capacity(expected_size: usize) -> (perm: Permutation)
        ensures
            perm@ == Seq::<Seq<WireData>>::empty(),
    {
        let perm = Permutation { variable_map: Vec::with_capacity(expected_size) };
        assert(perm@ =~= Seq::<Seq<WireData>>::empty());
        perm
    }

    /// Allocates the next variable, with no positions yet.
    pub fn new_variable(&mut self) -> (var: Variable)
        ensures
            var.0 == old(self)@.len(),
            final(self)@ == old(self)@.push(Seq::<WireData>::empty()),
    {
        let var = Variable(self.variable_map.len());
        self.variable_map.push(Vec::with_capacity(16usize));
        assert(self@ =~= old(self)@.push(Seq::<WireData>::empty()));
        var
    }

    /// Whether every one of the given variables has been allocated here.
    pub fn valid_variables(&self, variables: &[Variable]) -> (valid: bool)
        ensures
            valid == forall|i: int|
                0 <= i < variables@.len() ==> (#[trigger] variables@[i]).0 < self@.len(),
    {
        let mut i: usize = 0;
        while i < variables.len()
            invariant
                i <= variables@.len(),
                forall|k: int| 0 <= k < i ==> (#[trigger] variables@[k]).0 < self@.len(),
            decreases variables@.len() - i,
        {
            if variables[i].0 >= self.variable_map.len() {
                return false;
            }
            i += 1;
        }
        true
    }

    /// Records that gate `gate_index` has `a` on its left wire, `b` on its
    /// right wire, `c` on its output wire and `d` on its fourth wire.
    pub fn add_variables_to_map(
        &mut self,
        a: Variable,
        b: Variable,
        c: Variable,
        d: Variable,
        gate_index: usize,
    )
        requires
            a.0 < old(self)@.len(),
            b.0 < old(self)@.len(),
            c.0 < old(self)@.len(),
            d.0 < old(self)@.len(),
        ensures
            final(self)@ == record_gate(
                old(self)@,
                a.0 as int,
                b.0 as int,
                c.0 as int,
                d.0 as int,
                gate_index,
            ),
    {
        let left: WireData = WireData::Left(gate_index);
        let right: WireData = WireData::Right(gate_index);
        let output: WireData = WireData::Output(gate_index);
        let fourth: WireData = WireData::Fourth(gate_index);
        self.add_variable_to_map(a, left);
        self.add_variable_to_map(b, right);
        self.add_variable_to_map(c, output);
        self.add_variable_to_map(d, fourth);
    }

    /// Appends one position to the positions of an allocated variable.
    pub fn add_variable_to_map(&mut self, var: Variable, wire_data: WireData)
        requires
            var.0 < old(self)@.len(),
        ensures
            final(self)@ == record_push(old(self)@, var.0 as int, wire_data),
    {
        self.variable_map[var.0].push(wire_data);
        assert(self@ =~= record_push(old(self)@, var.0 as int, wire_data));
    }

    /// Computes the four permutations of the record for a circuit of `n`
    /// gates, one per wire column. Each starts as the identity; then every
    /// recorded position is sent to the next position of the same variable,
    /// the last position of a variable to its first. Where a position is
    /// recorded more than once, its last entry in the record decides.
    pub fn compute_sigma_permutations(&mut self, n: usize) -> (sigmas: [Vec<WireData>; 4])
        requires
            gates_below(old(self)@, n as int),
        ensures
            *final(self) == *old(self),
            forall|column: int|
                0 <= column < 4 ==> is_sigma_column(
                    (#[trigger] sigmas[column])@,
                    old(self)@,
                    n as int,
                    column,
                ),
    {
        let mut sigma_1: Vec<WireData> = Vec::new();
        let mut sigma_2: Vec<WireData> = Vec::new();
        let mut sigma_3: Vec<WireData> = Vec::new();
        let mut sigma_4: Vec<WireData> = Vec::new();
        let mut i: usize = 0;
        while i < n
            invariant
                i <= n,
                sigma_1@.len() == i,
                sigma_2@.len() == i,
                sigma_3@.len() == i,
                sigma_4@.len() == i,
                forall|k: int| 0 <= k < i ==> #[trigger] sigma_1@[k] == wire_at(0, k as usize),
                forall|k: int| 0 <= k < i ==> #[trigger] sigma_2@[k] == wire_at(1, k as usize),
                forall|k: int| 0 <= k < i ==> #[trigger] sigma_3@[k] == wire_at(2, k as usize),
                forall|k: int| 0 <= k < i ==> #[trigger] sigma_4@[k] == wire_at(3, k as usize),
            decreases n - i,
        {
            sigma_1.push(WireData::Left(i));
            sigma_2.push(WireData::Right(i));
            sigma_3.push(WireData::Output(i));
            sigma_4.push(WireData::Fourth(i));
            i += 1;
        }
        let ghost occ = self@;
        proof {
            lemma_link_start(sigma_1@, occ, 0);
            lemma_link_start(sigma_2@, occ, 1);
            lemma_link_start(sigma_3@, occ, 2);
            lemma_link_start(sigma_4@, occ, 3);
        }
        let mut v: usize = 0;
        while v < self.variable_map.len()
            invariant
                *self == *old(self),
                occ == self@,
                gates_below(occ, n as int),
                v <= occ.len(),
                sigma_1@.len() == n,
                sigma_2@.len() == n,
                sigma_3@.len() == n,
                sigma_4@.len() == n,
                linked_before(sigma_1@, occ, v as int, 0, 0),
                linked_before(sigma_2@, occ, v as int, 0, 1),
                linked_before(sigma_3@, occ, v as int, 0, 2),
                linked_before(sigma_4@, occ, v as int, 0, 3),
            decreases occ.len() - v,
        {
            let count = self.variable_map[v].len();
            let mut j: usize = 0;
            while j < count
                invariant
                    *self == *old(self),
                    occ == self@,
                    gates_below(occ, n as int),
                    v < occ.len(),
                    count == occ[v as int].len(),
                    j <= count,
                    sigma_1@.len() == n,
                    sigma_2@.len() == n,
                    sigma_3@.len() == n,
                    sigma_4@.len() == n,
                    linked_before(sigma_1@, occ, v as int, j as int, 0),
                    linked_before(sigma_2@, occ, v as int, j as int, 1),
                    linked_before(sigma_3@, occ, v as int, j as int, 2),
                    linked_before(sigma_4@, occ, v as int, j as int, 3),
                decreases count - j,
            {
                let current = self.variable_map[v][j];
                let next_index = if j == count - 1 {
                    0
                } else {
                    j + 1
                };
                let next = self.variable_map[v][next_index];
                let ghost before_1 = sigma_1@;
                let ghost before_2 = sigma_2@;
                let ghost before_3 = sigma_3@;
                let ghost before_4 = sigma_4@;
                assert(in_record(occ, v as int, j as int));
                assert(current == occ[v as int][j as int]);
                assert(next == successor(occ, v as int, j as int));
                match current {
                    WireData::Left(index) => {
                        sigma_1.set(index, next);
                    },
                    WireData::Right(index) => {
                        sigma_2.set(index, next);
                    },
                    WireData::Output(index) => {
                        sigma_3.set(index, next);
                    },
                    WireData::Fourth(index) => {
                        sigma_4.set(index, next);
                    },
                }
                proof {
                    lemma_link_step(before_1, sigma_1@, occ, v as int, j as int, 0);
                    lemma_link_step(before_2, sigma_2@, occ, v as int, j as int, 1);
                    lemma_link_step(before_3, sigma_3@, occ, v as int, j as int, 2);
                    lemma_link_step(before_4, sigma_4@, occ, v as int, j as int, 3);
                }
                j += 1;
            }
            proof {
                lemma_link_next_variable(sigma_1@, occ, v as int, 0);
                lemma_link_next_variable(sigma_2@, occ, v as int, 1);
                lemma_link_next_variable(sigma_3@, occ, v as int, 2);
                lemma_link_next_variable(sigma_4@, occ, v as int, 3);
            }
            v += 1;
        }
        [sigma_1, sigma_2, sigma_3, sigma_4]
    }

    /// Encodes a mapping of wire positions as field elements: the position
    /// of gate `i` becomes the `i`-th element of the domain, multiplied by
    /// 1, `K1`, `K2` or `K3` for the left, right, output or fourth column.
    pub fn compute_permutation_lagrange(
        &self,
        sigma_mapping: &[WireData],
        domain: &EvaluationDomain,
    ) -> (lagrange: Vec<Scalar>)
        requires
            forall|k: int|
                0 <= k < sigma_mapping@.len() ==> (#[trigger] sigma_mapping@[k]).gate()
                    < domain.order(),
        ensures
            scalar_views(lagrange@) == encoded(sigma_mapping@, domain.generator()),
    {
        let roots = domain.elements();
        let ghost g = domain.generator();
        let mut lagrange: Vec<Scalar> = Vec::with_capacity(sigma_mapping.len());
        let mut k: usize = 0;
        assert(scalar_views(lagrange@) =~= encoded(sigma_mapping@.take(0), g));
        while k < sigma_mapping.len()
            invariant
                k <= sigma_mapping@.len(),
                lagrange@.len() == k,
                scalar_views(roots@) == powers(g, domain.order()),
                scalar_views(lagrange@) == encoded(sigma_mapping@.take(k as int), g),
                forall|i: int|
                    0 <= i < sigma_mapping@.len() ==> (#[trigger] sigma_mapping@[i]).gate()
                        < domain.order(),
            decreases sigma_mapping@.len() - k,
        {
            let ghost before = scalar_views(lagrange@);
            assert(scalar_views(roots@).len() == roots@.len());
            let value = match sigma_mapping[k] {
                WireData::Left(index) => {
                    assert(scalar_views(roots@)[index as int] == roots@[index as int]@);
                    roots[index]
                },
                WireData::Right(index) => {
                    assert(scalar_views(roots@)[index as int] == roots@[index as int]@);
                    Scalar::from_u64(K1).mul(&roots[index])
                },
                WireData::Output(index) => {
                    assert(scalar_views(roots@)[index as int] == roots@[index as int]@);
                    Scalar::from_u64(K2).mul(&roots[index])
                },
                WireData::Fourth(index) => {
                    assert(scalar_views(roots@)[index as int] == roots@[index as int]@);
                    Scalar::from_u64(K3).mul(&roots[index])
                },
            };
            assert(value@ == encode(sigma_mapping@[k as int], g));
            lagrange.push(value);
            proof {
                let after = encoded(sigma_mapping@.take(k + 1), g);
                assert forall|i: int| 0 <= i < k + 1 implies scalar_views(lagrange@)[i]
                    == after[i] by {
                    if i < k {
                        assert(before[i] == encoded(sigma_mapping@.take(k as int), g)[i]);
                        assert(sigma_mapping@.take(k as int)[i] == sigma_mapping@[i]);
                    }
                    assert(sigma_mapping@.take(k + 1)[i] == sigma_mapping@[i]);
                }
                assert(scalar_views(lagrange@) =~= after);
            }
            k += 1;
        }
        assert(sigma_mapping@.take(k as int) =~= sigma_mapping@);
        lagrange
    }

    /// Computes the four sigma polynomials of the record for a circuit of
    /// `n` gates over the domain: the permutation of each wire column is
    /// encoded as field elements, and the polynomial is interpolated
    /// through them by the inverse FFT.
    pub fn compute_sigma_polynomials(&mut self, n: usize, domain: &EvaluationDomain) -> (polys: (
        Polynomial,
        Polynomial,
        Polynomial,
        Polynomial,
    ))
        requires
            gates_below(old(self)@, n as int),
            n <= domain.order(),
        ensures
            *final(self) == *old(self),
            polys.0@ == sigma_polynomial(old(self)@, n as nat, 0, domain),
            polys.1@ == sigma_polynomial(old(self)@, n as nat, 1, domain),
            polys.2@ == sigma_polynomial(old(self)@, n as nat, 2, domain),
            polys.3@ == sigma_polynomial(old(self)@, n as nat, 3, domain),
    {
        let sigmas = self.compute_sigma_permutations(n);
        let ghost occ = self@;
        proof {
            assert forall|column: int| 0 <= column < 4 implies (#[trigger] sigmas[column])@
                == sigma_column(occ, n as nat, column) && forall|k: int|
                0 <= k < n ==> (#[trigger] sigmas[column]@[k]).gate() < domain.order() by {
                assert(is_sigma_column(sigmas[column]@, occ, n as int, column));
                assert(sigmas[column]@ =~= sigma_column(occ, n as nat, column));
                assert forall|k: int| 0 <= k < n implies (#[trigger] sigmas[column]@[k]).gate()
                    < domain.order() by {
                    lemma_sigma_image_below(occ, n as int, wire_at(column, k as usize));
                }
            }
        }
        let left_sigma = self.compute_permutation_lagrange(sigmas[0].as_slice(), domain);
        let right_sigma = self.compute_permutation_lagrange(sigmas[1].as_slice(), domain);
        let out_sigma = self.compute_permutation_lagrange(sigmas[2].as_slice(), domain);
        let fourth_sigma = self.compute_permutation_lagrange(sigmas[3].as_slice(), domain);
        let left_sigma_poly = Polynomial::from_coefficients_vec(domain.ifft(&left_sigma));
        let right_sigma_poly = Polynomial::from_coefficients_vec(domain.ifft(&right_sigma));
        let out_sigma_poly = Polynomial::from_coefficients_vec(domain.ifft(&out_sigma));
        let fourth_sigma_poly = Polynomial::from_coefficients_vec(domain.ifft(&fourth_sigma));
        (left_sigma_poly, right_sigma_poly, out_sigma_poly, fourth_sigma_poly)
    }
}

/// The coefficients of the sigma polynomial of a wire column: those that
/// the inverse FFT over the domain finds for the encoded permutation of
/// the column, without the zeros at their end.
pub open spec fn sigma_polynomial(
    occ: Occurrences,
    n: nat,
    column: int,
    domain: &EvaluationDomain,
) -> Seq<nat> {
    trimmed(
        ifft_coeffs(domain.order(), encoded(sigma_column(occ, n, column), domain.generator())),
    )
}

} // verus!

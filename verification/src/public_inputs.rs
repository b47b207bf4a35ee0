//! The public inputs of a circuit: field elements bound to gate indices.

use crate::error::Error;
use crate::field::Scalar;
use vstd::prelude::*;

verus! {

/// Public inputs by position. Entry `i` of `values` is the public input of
/// that gate whose index is entry `i` of `positions`.
#[derive(Debug)]
pub struct PublicInputs {
    /// Indices of gates that hold a public input, in the order of insertion.
    pub positions: Vec<usize>,
    /// The public inputs, in the same order.
    pub values: Vec<Scalar>,
}

/// The map that pairs of positions and values stand for.
pub open spec fn pairs_to_map(positions: Seq<usize>, values: Seq<Scalar>) -> Map<usize, nat>
    decreases positions.len(),
{
    if positions.len() == 0 || values.len() == 0 {
        Map::empty()
    } else {
        pairs_to_map(positions.drop_last(), values.drop_last()).insert(
            positions.last(),
            values.last()@,
        )
    }
}

/// The domain of the map of pairs is the set of their positions.
pub proof fn lemma_pairs_domain(positions: Seq<usize>, values: Seq<Scalar>)
    requires
        positions.len() == values.len(),
    ensures
        forall|pos: usize| #[trigger]
            pairs_to_map(positions, values).contains_key(pos) <==> positions.contains(pos),
    decreases positions.len(),
{
    if positions.len() > 0 {
        let front = positions.drop_last();
        let earlier = pairs_to_map(front, values.drop_last());
        lemma_pairs_domain(front, values.drop_last());
        assert forall|pos: usize| #[trigger]
            pairs_to_map(positions, values).contains_key(pos) <==> positions.contains(pos) by {
            assert(pairs_to_map(positions, values).contains_key(pos) <==> pos == positions.last()
                || earlier.contains_key(pos));
            assert(earlier.contains_key(pos) <==> front.contains(pos));
            if positions.contains(pos) {
                let i = choose|i: int| 0 <= i < positions.len() && positions[i] == pos;
                if i < positions.len() - 1 {
                    assert(front[i] == pos);
                }
            }
            if front.contains(pos) {
                let i = choose|i: int| 0 <= i < front.len() && front[i] == pos;
                assert(positions[i] == pos);
            }
            if pos == positions.last() {
                assert(positions[positions.len() - 1] == pos);
            }
        }
    }
}

impl View for PublicInputs {
    type V = Map<usize, nat>;

    open spec fn view(&self) -> Map<usize, nat> {
        pairs_to_map(self.positions@, self.values@)
    }
}

impl PublicInputs {
    /// Every position has one value, and no position occurs twice.
    pub open spec fn wf(&self) -> bool {
        &&& self.positions@.len() == self.values@.len()
        &&& self.positions@.no_duplicates()
    }

    /// No position in `pos`, `pos + 1`, ..., `pos + count - 1` holds a
    /// public input.
    pub open spec fn range_free(&self, pos: usize, count: nat) -> bool {
        forall|p: usize| pos <= p < pos + count ==> !self@.contains_key(p)
    }

    /// No public inputs.
    pub fn new() -> (inputs: PublicInputs)
        ensures
            inputs.wf(),
            inputs@ == Map::<usize, nat>::empty(),
    {
        PublicInputs { positions: Vec::new(), values: Vec::new() }
    }

    /// Whether the position holds a public input.
    pub fn contains(&self, pos: usize) -> (found: bool)
        requires
            self.wf(),
        ensures
            found == self@.contains_key(pos),
    {
        proof {
            lemma_pairs_domain(self.positions@, self.values@);
        }
        let mut i: usize = 0;
        while i < self.positions.len()
            invariant
                self.wf(),
                i <= self.positions@.len(),
                forall|k: int| 0 <= k < i ==> self.positions@[k] != pos,
            decreases self.positions@.len() - i,
        {
            if self.positions[i] == pos {
                proof {
                    assert(self.positions@[i as int] == pos);
                    lemma_pairs_domain(self.positions@, self.values@);
                }
                return true;
            }
            i += 1;
        }
        false
    }

    /// The public input at the position, if there is one.
    pub fn get(&self, pos: usize) -> (value: Option<Scalar>)
        requires
            self.wf(),
        ensures
            value is Some <==> self@.contains_key(pos),
            value is Some ==> value->0@ == self@[pos],
    {
        proof {
            lemma_pairs_domain(self.positions@, self.values@);
        }
        let mut i: usize = 0;
        while i < self.positions.len()
            invariant
                self.wf(),
                i <= self.positions@.len(),
                forall|k: int| 0 <= k < i ==> self.positions@[k] != pos,
            decreases self.positions@.len() - i,
        {
            if self.positions[i] == pos {
                proof {
                    assert(self.positions@[i as int] == pos);
                    lemma_pairs_value(self.positions@, self.values@, i as int);
                }
                return Some(self.values[i]);
            }
            i += 1;
        }
        None
    }

    /// Binds the position to the value. Fails with `PositionAlreadyTaken`,
    /// and changes nothing, where the position already holds a public input.
    pub fn insert(&mut self, pos: usize, value: Scalar) -> (r: Result<(), Error>)
        requires
            old(self).wf(),
        ensures
            final(self).wf(),
            match r {
                Ok(_) => !old(self)@.contains_key(pos) && final(self)@ == old(self)@.insert(
                    pos,
                    value@,
                ),
                Err(e) => e == Error::PositionAlreadyTaken && old(self)@.contains_key(pos)
                    && *final(self) == *old(self),
            },
    {
        if self.contains(pos) {
            return Err(Error::PositionAlreadyTaken);
        }
        proof {
            lemma_pairs_domain(self.positions@, self.values@);
        }
        self.positions.push(pos);
        self.values.push(value);
        proof {
            assert(self.positions@.drop_last() =~= old(self).positions@);
            assert(self.values@.drop_last() =~= old(self).values@);
        }
        Ok(())
    }

    /// Binds the positions `pos`, `pos + 1`, ... to the given values, in
    /// their order, and returns the number of values. Fails with
    /// `PositionAlreadyTaken`, and changes nothing, where one of these
    /// positions already holds a public input.
    pub fn add_input(&mut self, pos: usize, items: &Vec<Scalar>) -> (r: Result<usize, Error>)
        requires
            old(self).wf(),
            pos + items@.len() <= usize::MAX,
        ensures
            final(self).wf(),
            match r {
                Ok(count) => {
                    &&& count == items@.len()
                    &&& old(self).range_free(pos, items@.len())
                    &&& final(self)@ == extend_map(old(self)@, pos, items@, items@.len())
                },
                Err(e) => {
                    &&& e == Error::PositionAlreadyTaken
                    &&& !old(self).range_free(pos, items@.len())
                    &&& *final(self) == *old(self)
                },
            },
    {
        let mut i: usize = 0;
        while i < items.len()
            invariant
                *self == *old(self),
                self.wf(),
                i <= items@.len(),
                pos + items@.len() <= usize::MAX,
                self.range_free(pos, i as nat),
            decreases items@.len() - i,
        {
            if self.contains(pos + i) {
                return Err(Error::PositionAlreadyTaken);
            }
            i += 1;
        }
        let mut i: usize = 0;
        while i < items.len()
            invariant
                self.wf(),
                i <= items@.len(),
                pos + items@.len() <= usize::MAX,
                old(self).range_free(pos, items@.len()),
                self@ == extend_map(old(self)@, pos, items@, i as nat),
            decreases items@.len() - i,
        {
            let inserted = self.insert(pos + i, items[i]);
            proof {
                assert(!old(self)@.contains_key((pos + i) as usize));
                lemma_extend_domain(old(self)@, pos, items@, i as nat);
            }
            assert(inserted is Ok);
            i += 1;
        }
        Ok(items.len())
    }
}

/// The map after the first `count` of the `items` have been bound to the
/// positions `pos`, `pos + 1`, ..., `pos + count - 1`.
pub open spec fn extend_map(
    map: Map<usize, nat>,
    pos: usize,
    items: Seq<Scalar>,
    count: nat,
) -> Map<usize, nat>
    decreases count,
{
    if count == 0 {
        map
    } else {
        extend_map(map, pos, items, (count - 1) as nat).insert(
            (pos + count - 1) as usize,
            items[count - 1]@,
        )
    }
}

/// Binding the first `count` items adds the positions from `pos` up to, but
/// not including, `pos + count` to the domain.
pub proof fn lemma_extend_domain(map: Map<usize, nat>, pos: usize, items: Seq<Scalar>, count: nat)
    requires
        pos + count <= usize::MAX,
    ensures
        forall|p: usize| #[trigger]
            extend_map(map, pos, items, count).contains_key(p) <==> map.contains_key(p) || pos
                <= p < pos + count,
    decreases count,
{
    if count > 0 {
        let earlier = extend_map(map, pos, items, (count - 1) as nat);
        let last = (pos + count - 1) as usize;
        lemma_extend_domain(map, pos, items, (count - 1) as nat);
        assert forall|p: usize| #[trigger]
            extend_map(map, pos, items, count).contains_key(p) <==> map.contains_key(p) || pos
                <= p < pos + count by {
            assert(extend_map(map, pos, items, count).contains_key(p) <==> p == last
                || earlier.contains_key(p));
        }
    }
}

/// Binding the first `count` items binds position `pos + k` to item `k`
/// and leaves the other positions as they were.
pub proof fn lemma_extend_values(
    map: Map<usize, nat>,
    pos: usize,
    items: Seq<Scalar>,
    count: nat,
    p: usize,
)
    requires
        pos + count <= usize::MAX,
        count <= items.len(),
    ensures
        pos <= p < pos + count ==> extend_map(map, pos, items, count)[p] == items[p - pos]@,
        !(pos <= p < pos + count) ==> extend_map(map, pos, items, count)[p] == map[p],
    decreases count,
{
    if count > 0 {
        lemma_extend_values(map, pos, items, (count - 1) as nat, p);
    }
}

/// Where no position occurs twice, the map of pairs sends each position to
/// the view of its value.
pub proof fn lemma_pairs_value(positions: Seq<usize>, values: Seq<Scalar>, i: int)
    requires
        positions.len() == values.len(),
        positions.no_duplicates(),
        0 <= i < positions.len(),
    ensures
        pairs_to_map(positions, values).contains_key(positions[i]),
        pairs_to_map(positions, values)[positions[i]] == values[i]@,
    decreases positions.len(),
{
    if i < positions.len() - 1 {
        lemma_pairs_value(positions.drop_last(), values.drop_last(), i);
        assert(positions.drop_last()[i] == positions[i]);
        assert(positions[i] != positions.last());
    }
}

} // verus!

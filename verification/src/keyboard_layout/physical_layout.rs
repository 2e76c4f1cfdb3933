//! The key grid, the cost of its keys and the penalties that its geometry
//! implies.
//!
//! Slots are numbered row by row.  The left hand presses the left half of each
//! row, the right hand the right half.  The cost of a single key is a value of
//! a type `C` that the caller chooses; the layout hands it out and never
//! calculates with it.  The cost of a stroke is therefore returned as a
//! formula over the costs of single keys, which the caller evaluates in the
//! arithmetic of `C`.

use vstd::prelude::*;
use super::hand_model::{Finger, Hand};
use crate::n_gram::PhysicalNGram;

verus! {

pub const NUM_ROWS: usize = 3;

pub const NUM_COLS: usize = 10;

/// The number of key slots.
pub const NUM_KEYS: usize = 30;

/// The number of ordered triples of key slots.
pub const NUM_TRI_GRAMS: usize = 27000;

/// What a pair or a triple costs when one of its slots lies outside the grid.
pub const OFF_GRID_PENALTY: u32 = 5;

/// The penalty for each ergonomic fault: a finger used twice in a row, a
/// column repeated, a triple that changes direction.
pub const FAULT_PENALTY: u32 = 8;

/// The row and column of a slot, and `None` for a slot outside the grid.
pub open spec fn spec_coord(slot: int) -> Option<(int, int)> {
    if 0 <= slot < NUM_KEYS as int {
        Some((slot / (NUM_COLS as int), slot % (NUM_COLS as int)))
    } else {
        None
    }
}

/// The hand that presses a slot.
pub open spec fn spec_hand(slot: int) -> Hand {
    match spec_coord(slot) {
        Some((_, col)) => if col < (NUM_COLS as int) / 2 {
            Hand::Left
        } else {
            Hand::Right
        },
        None => Hand::Other,
    }
}

/// The distance between two rows or two columns.
pub open spec fn spec_distance(a: int, b: int) -> int {
    if a <= b {
        b - a
    } else {
        a - b
    }
}

/// The part of `d` that exceeds the `free` distance.
pub open spec fn spec_excess(d: int, free: int) -> int {
    if d > free {
        d - free
    } else {
        0
    }
}

/// True when two neighbours in the sequence share a finger group.
pub open spec fn spec_has_overlap(fingers: Seq<Finger>) -> bool {
    exists|i: int| 0 <= i < fingers.len() - 1 && (#[trigger] fingers[i]).intersects(fingers[i + 1])
}

/// True when the three columns never change direction.
pub open spec fn spec_is_roll(col1: int, col2: int, col3: int) -> bool {
    (col1 <= col2 && col2 <= col3) || (col1 >= col2 && col2 >= col3)
}

fn distance(a: usize, b: usize) -> (r: usize)
    ensures
        r == spec_distance(a as int, b as int),
{
    if a <= b {
        b - a
    } else {
        a - b
    }
}

fn excess(d: usize, free: usize) -> (r: usize)
    ensures
        r == spec_excess(d as int, free as int),
{
    if d > free {
        d - free
    } else {
        0
    }
}

/// True when two neighbours in the slice share a finger group.
pub fn has_overlap(fingers: &[Finger]) -> (r: bool)
    requires
        fingers@.len() > 0,
    ensures
        r == spec_has_overlap(fingers@),
{
    let mut i: usize = 0;
    while i < fingers.len() - 1
        invariant
            fingers@.len() > 0,
            i <= fingers@.len() - 1,
            forall|k: int| 0 <= k < i ==> !(#[trigger] fingers@[k]).intersects(fingers@[k + 1]),
        decreases fingers@.len() - i,
    {
        if fingers[i].intersects(fingers[i + 1]) {
            return true;
        }
        i += 1;
    }
    false
}

/// The cost of a stroke as a formula over the costs of single keys: the cost of
/// `base` times `factor`, plus the cost of `extra` where there is one.
#[derive(Debug, Clone, Copy, PartialEq, Eq)]
pub struct StrokeCost {
    pub base: usize,
    pub factor: u32,
    pub extra: Option<usize>,
}

/// The slot of the table of triples that holds a given triple.
spec fn spec_table_index(k1: int, k2: int, k3: int) -> int {
    (k1 * (NUM_KEYS as int) + k2) * (NUM_KEYS as int) + k3
}

/// The triple that a slot of the table holds.
spec fn spec_table_keys(index: int) -> Seq<usize> {
    seq![
        (index / (NUM_KEYS as int * NUM_KEYS as int)) as usize,
        ((index / (NUM_KEYS as int)) % (NUM_KEYS as int)) as usize,
        (index % (NUM_KEYS as int)) as usize,
    ]
}

/// The table holds each triple of grid slots in the slot that belongs to it.
proof fn lemma_table_keys(k1: int, k2: int, k3: int)
    requires
        0 <= k1 < NUM_KEYS as int,
        0 <= k2 < NUM_KEYS as int,
        0 <= k3 < NUM_KEYS as int,
    ensures
        0 <= spec_table_index(k1, k2, k3) < NUM_TRI_GRAMS as int,
        spec_table_keys(spec_table_index(k1, k2, k3)) == seq![
            k1 as usize,
            k2 as usize,
            k3 as usize,
        ],
{
    let index = spec_table_index(k1, k2, k3);
    assert(index == k1 * 900 + k2 * 30 + k3);
    assert(index / 900 == k1);
    assert(index / 30 == k1 * 30 + k2);
    assert((index / 30) % 30 == k2);
    assert(index % 30 == k3);
    assert(spec_table_keys(index) =~= seq![k1 as usize, k2 as usize, k3 as usize]);
}

/// The slot of the table of triples that holds a triple of slots of the grid.
fn table_index(key1: usize, key2: usize, key3: usize) -> (index: usize)
    requires
        key1 < NUM_KEYS,
        key2 < NUM_KEYS,
        key3 < NUM_KEYS,
    ensures
        index < NUM_TRI_GRAMS,
        index == spec_table_index(key1 as int, key2 as int, key3 as int),
        spec_table_keys(index as int) == seq![key1, key2, key3],
{
    proof {
        lemma_table_keys(key1 as int, key2 as int, key3 as int);
    }
    (key1 * NUM_KEYS + key2) * NUM_KEYS + key3
}

/// What two keys cost in a row does not depend on which is pressed first.
pub proof fn lemma_relative_cost_symmetric<C>(layout: PhysicalLayout<C>, key1: int, key2: int)
    ensures
        layout.spec_relative_cost(key1, key2) == layout.spec_relative_cost(key2, key1),
{
    let a = layout.spec_finger(key1)@;
    let b = layout.spec_finger(key2)@;
    assert(a & b == b & a) by (bit_vector);
}

/// Two neighbours in one row cost less in a row than two keys of one column
/// that one finger presses.
pub proof fn lemma_neighbours_cheaper_than_column_repeat<C>(
    layout: PhysicalLayout<C>,
    key1: int,
    key2: int,
    key3: int,
    key4: int,
)
    requires
        spec_coord(key1) is Some,
        spec_coord(key2) is Some,
        spec_coord(key3) is Some,
        spec_coord(key4) is Some,
        key1 / (NUM_COLS as int) == key2 / (NUM_COLS as int),
        spec_distance(key1 % (NUM_COLS as int), key2 % (NUM_COLS as int)) == 1,
        key3 % (NUM_COLS as int) == key4 % (NUM_COLS as int),
        layout.spec_finger(key3).intersects(layout.spec_finger(key4)),
    ensures
        layout.spec_relative_cost(key1, key2) <= FAULT_PENALTY,
        layout.spec_relative_cost(key3, key4) >= 2 * FAULT_PENALTY,
        layout.spec_relative_cost(key1, key2) < layout.spec_relative_cost(key3, key4),
{
}

#[derive(Debug)]
pub struct PhysicalLayout<C> {
    cost_matrix: [[C; NUM_COLS]; NUM_ROWS],
    unknown_cost: C,
    finger_matrix: [[Finger; NUM_COLS]; NUM_ROWS],
    mapping: [(usize, usize); NUM_KEYS],
    tri_gram_cost: Vec<StrokeCost>,
}

impl<C> PhysicalLayout<C> {
    #[verifier::type_invariant]
    spec fn inv(&self) -> bool {
        &&& forall|i: int|
            0 <= i < NUM_KEYS as int ==> (#[trigger] self.mapping[i]) == ((i / (NUM_COLS as int))
                as usize, (i % (NUM_COLS as int)) as usize)
        &&& self.tri_gram_cost.len() == 0 || self.tri_gram_cost.len() == NUM_TRI_GRAMS
        &&& forall|index: int|
            0 <= index < self.tri_gram_cost.len() ==> (#[trigger] self.tri_gram_cost[index])
                == self.spec_stroke_cost(spec_table_keys(index))
    }

    /// The cost of the key at a slot, and the cost of an unknown key for a
    /// slot outside the grid.
    pub closed spec fn spec_position_cost(&self, slot: int) -> C {
        if 0 <= slot < NUM_KEYS as int {
            self.cost_matrix[slot / (NUM_COLS as int)][slot % (NUM_COLS as int)]
        } else {
            self.unknown_cost
        }
    }

    /// The finger groups of a slot of the grid.
    pub closed spec fn spec_finger(&self, slot: int) -> Finger {
        self.finger_matrix[slot / (NUM_COLS as int)][slot % (NUM_COLS as int)]
    }

    /// True once the table of all triples has been filled.
    pub closed spec fn is_calculated(&self) -> bool {
        self.tri_gram_cost.len() == NUM_TRI_GRAMS
    }

    /// The penalty for pressing `key2` after `key1` with one hand: a row
    /// distance beyond one, a column repeated, a column distance beyond two,
    /// and a finger used twice.
    pub open spec fn spec_relative_cost(&self, key1: int, key2: int) -> int {
        match (spec_coord(key1), spec_coord(key2)) {
            (Some((row1, col1)), Some((row2, col2))) => {
                let same_finger: int = if self.spec_finger(key1).intersects(
                    self.spec_finger(key2),
                ) {
                    FAULT_PENALTY as int
                } else {
                    0
                };
                let same_column: int = if col1 == col2 {
                    FAULT_PENALTY as int
                } else {
                    0
                };
                let col_diff = spec_excess(spec_distance(col1, col2), 2);
                let row_diff = spec_excess(spec_distance(row1, row2), 1);
                row_diff + same_column + col_diff + same_finger
            },
            _ => OFF_GRID_PENALTY as int,
        }
    }

    /// The penalty for pressing three keys in a row with one hand: a finger
    /// used twice in a row, one column for all three, a change of direction,
    /// and the row distances beyond one.
    pub open spec fn spec_roll_cost(&self, key1: int, key2: int, key3: int) -> int {
        match (spec_coord(key1), spec_coord(key2), spec_coord(key3)) {
            (Some((row1, col1)), Some((row2, col2)), Some((row3, col3))) => {
                let same_finger: int = if spec_has_overlap(
                    seq![self.spec_finger(key1), self.spec_finger(key2), self.spec_finger(key3)],
                ) {
                    FAULT_PENALTY as int
                } else {
                    0
                };
                let same_column: int = if col1 == col2 && col2 == col3 {
                    FAULT_PENALTY as int
                } else {
                    0
                };
                let not_roll: int = if spec_is_roll(col1, col2, col3) {
                    0
                } else {
                    FAULT_PENALTY as int
                };
                let row_diff = spec_excess(spec_distance(row1, row2), 1) + spec_excess(
                    spec_distance(row2, row3),
                    1,
                );
                same_column + not_roll + row_diff + same_finger
            },
            _ => OFF_GRID_PENALTY as int,
        }
    }

    /// The cost of a triple of slots.  Which formula applies depends on which
    /// of the second and third key are pressed by the hand of the first.
    pub open spec fn spec_stroke_cost(&self, keys: Seq<usize>) -> StrokeCost
        recommends
            keys.len() == 3,
    {
        let key1 = keys[0];
        let key2 = keys[1];
        let key3 = keys[2];
        let first_hand = spec_hand(key1 as int);
        if first_hand == spec_hand(key2 as int) {
            if first_hand == spec_hand(key3 as int) {
                StrokeCost {
                    base: key1,
                    factor: self.spec_roll_cost(key1 as int, key2 as int, key3 as int) as u32,
                    extra: None,
                }
            } else {
                StrokeCost {
                    base: key1,
                    factor: self.spec_relative_cost(key1 as int, key2 as int) as u32,
                    extra: Some(key3),
                }
            }
        } else if first_hand == spec_hand(key3 as int) {
            StrokeCost {
                base: key1,
                factor: self.spec_relative_cost(key1 as int, key3 as int) as u32,
                extra: Some(key2),
            }
        } else {
            StrokeCost {
                base: key2,
                factor: self.spec_relative_cost(key2 as int, key3 as int) as u32,
                extra: Some(key1),
            }
        }
    }

    /// A layout with the given cost and finger groups for each key, and with
    /// `unknown_cost` as the cost of a key that is not on the grid.  The
    /// table of triples is still to be calculated.
    pub fn new(
        cost_matrix: [[C; NUM_COLS]; NUM_ROWS],
        finger_matrix: [[Finger; NUM_COLS]; NUM_ROWS],
        unknown_cost: C,
    ) -> (r: Result<Self, &'static str>)
        ensures
            r is Ok,
            !r->Ok_0.is_calculated(),
            forall|slot: int|
                0 <= slot < NUM_KEYS as int ==> #[trigger] r->Ok_0.spec_position_cost(slot)
                    == cost_matrix[slot / (NUM_COLS as int)][slot % (NUM_COLS as int)],
            forall|slot: int|
                !(0 <= slot < NUM_KEYS as int) ==> #[trigger] r->Ok_0.spec_position_cost(slot)
                    == unknown_cost,
            forall|slot: int|
                0 <= slot < NUM_KEYS as int ==> #[trigger] r->Ok_0.spec_finger(slot)
                    == finger_matrix[slot / (NUM_COLS as int)][slot % (NUM_COLS as int)],
    {
        let mut mapping: [(usize, usize); NUM_KEYS] = [(0, 0);NUM_KEYS];
        let mut i: usize = 0;
        while i < NUM_ROWS
            invariant
                i <= NUM_ROWS,
                forall|k: int|
                    0 <= k < i * NUM_COLS ==> (#[trigger] mapping[k]) == ((k / (NUM_COLS as int))
                        as usize, (k % (NUM_COLS as int)) as usize),
            decreases NUM_ROWS - i,
        {
            let mut j: usize = 0;
            while j < NUM_COLS
                invariant
                    i < NUM_ROWS,
                    j <= NUM_COLS,
                    forall|k: int|
                        0 <= k < i * NUM_COLS + j ==> (#[trigger] mapping[k]) == ((k / (
                        NUM_COLS as int)) as usize, (k % (NUM_COLS as int)) as usize),
                decreases NUM_COLS - j,
            {
                mapping[i * NUM_COLS + j] = (i, j);
                j += 1;
            }
            i += 1;
        }
        let tri_gram_cost: Vec<StrokeCost> = Vec::new();
        Ok(PhysicalLayout { cost_matrix, unknown_cost, finger_matrix, mapping, tri_gram_cost })
    }

    /// The number of key slots.
    pub fn len(&self) -> (r: usize)
        ensures
            r == NUM_KEYS,
    {
        NUM_KEYS
    }

    /// The row and column of a slot, and `None` for a slot outside the grid.
    pub fn coord(&self, index: usize) -> (r: Option<(usize, usize)>)
        ensures
            r == match spec_coord(index as int) {
                Some((row, col)) => Some((row as usize, col as usize)),
                None => None,
            },
    {
        proof {
            use_type_invariant(self);
        }
        if index < NUM_KEYS {
            Some(self.mapping[index])
        } else {
            None
        }
    }

    /// The cost of the key at a slot, and the cost of an unknown key for a
    /// slot outside the grid.
    pub fn position_cost(&self, idx: usize) -> (r: C) where C: Copy
        ensures
            r == self.spec_position_cost(idx as int),
    {
        match self.coord(idx) {
            Some((row, col)) => self.cost_matrix[row][col],
            None => self.unknown_cost,
        }
    }

    /// The hand that presses a slot; `Hand::Other` outside the grid.
    pub fn hand(&self, index: usize) -> (r: Hand)
        ensures
            r == spec_hand(index as int),
    {
        match self.coord(index) {
            Some((_, col)) => {
                if col < NUM_COLS / 2 {
                    Hand::Left
                } else {
                    Hand::Right
                }
            },
            None => Hand::Other,
        }
    }

    /// Fills the table of all ordered triples of slots, so that later lookups
    /// need not work the formula out again.
    pub fn calculate_tri_gram_cost(&mut self)
        ensures
            final(self).is_calculated(),
            forall|slot: int| final(self).spec_finger(slot) == old(self).spec_finger(slot),
            forall|slot: int|
                final(self).spec_position_cost(slot) == old(self).spec_position_cost(slot),
    {
        proof {
            use_type_invariant(&*self);
        }
        let mut table: Vec<StrokeCost> = Vec::new();
        let mut k1: usize = 0;
        while k1 < NUM_KEYS
            invariant
                k1 <= NUM_KEYS,
                table.len() == spec_table_index(k1 as int, 0, 0),
                forall|index: int|
                    0 <= index < table.len() ==> (#[trigger] table[index])
                        == self.spec_stroke_cost(spec_table_keys(index)),
            decreases NUM_KEYS - k1,
        {
            let mut k2: usize = 0;
            while k2 < NUM_KEYS
                invariant
                    k1 < NUM_KEYS,
                    k2 <= NUM_KEYS,
                    table.len() == spec_table_index(k1 as int, k2 as int, 0),
                    forall|index: int|
                        0 <= index < table.len() ==> (#[trigger] table[index])
                            == self.spec_stroke_cost(spec_table_keys(index)),
                decreases NUM_KEYS - k2,
            {
                let mut k3: usize = 0;
                while k3 < NUM_KEYS
                    invariant
                        k1 < NUM_KEYS,
                        k2 < NUM_KEYS,
                        k3 <= NUM_KEYS,
                        table.len() == spec_table_index(k1 as int, k2 as int, k3 as int),
                        forall|index: int|
                            0 <= index < table.len() ==> (#[trigger] table[index])
                                == self.spec_stroke_cost(spec_table_keys(index)),
                    decreases NUM_KEYS - k3,
                {
                    let n_gram = PhysicalNGram::new([k1, k2, k3]);
                    let cost = self.stroke_cost(&n_gram);
                    proof {
                        lemma_table_keys(k1 as int, k2 as int, k3 as int);
                        assert(n_gram@ =~= seq![k1, k2, k3]);
                    }
                    table.push(cost);
                    k3 += 1;
                }
                k2 += 1;
            }
            k1 += 1;
        }
        self.tri_gram_cost = table;
    }

    /// The cost of a triple of slots, read from the table where the triple
    /// lies on the grid.  The table must have been calculated.
    pub fn get_tri_gram_cost(&self, n_gram: &PhysicalNGram<3>) -> (r: StrokeCost)
        requires
            self.is_calculated(),
        ensures
            r == self.spec_stroke_cost(n_gram@),
    {
        let key1 = n_gram.get(0);
        let key2 = n_gram.get(1);
        let key3 = n_gram.get(2);
        if key1 < NUM_KEYS && key2 < NUM_KEYS && key3 < NUM_KEYS {
            assert(n_gram@ =~= seq![key1, key2, key3]);
            self.table_entry(key1, key2, key3)
        } else {
            self.stroke_cost(n_gram)
        }
    }

    /// The entry of the table for a triple of slots of the grid.
    fn table_entry(&self, key1: usize, key2: usize, key3: usize) -> (r: StrokeCost)
        requires
            self.is_calculated(),
            key1 < NUM_KEYS,
            key2 < NUM_KEYS,
            key3 < NUM_KEYS,
        ensures
            r == self.spec_stroke_cost(seq![key1, key2, key3]),
    {
        let index = table_index(key1, key2, key3);
        proof {
            use_type_invariant(self);
            assert(self.tri_gram_cost[index as int] == self.spec_stroke_cost(
                spec_table_keys(index as int),
            ));
        }
        self.tri_gram_cost[index]
    }

    fn finger(&self, slot: usize) -> (r: Finger)
        requires
            slot < NUM_KEYS,
        ensures
            r == self.spec_finger(slot as int),
    {
        self.finger_matrix[slot / NUM_COLS][slot % NUM_COLS]
    }

    /// The penalty for pressing `key2` after `key1` with one hand.
    pub fn relative_cost(&self, key1: usize, key2: usize) -> (r: u32)
        ensures
            r == self.spec_relative_cost(key1 as int, key2 as int),
            r <= 3 * FAULT_PENALTY,
    {
        let (row1, col1) = match self.coord(key1) {
            Some(coord) => coord,
            None => return OFF_GRID_PENALTY,
        };
        let (row2, col2) = match self.coord(key2) {
            Some(coord) => coord,
            None => return OFF_GRID_PENALTY,
        };
        let overlap = self.finger(key1).intersects(self.finger(key2));
        let same_finger: u32 = if overlap {
            FAULT_PENALTY
        } else {
            0
        };
        let same_column: u32 = if col1 == col2 {
            FAULT_PENALTY
        } else {
            0
        };
        let col_diff = excess(distance(col1, col2), 2) as u32;
        let row_diff = excess(distance(row1, row2), 1) as u32;
        row_diff + same_column + col_diff + same_finger
    }

    /// The penalty for pressing three keys in a row with one hand.
    #[verifier::rlimit(50)]
    pub fn roll_cost(&self, key1: usize, key2: usize, key3: usize) -> (r: u32)
        ensures
            r == self.spec_roll_cost(key1 as int, key2 as int, key3 as int),
            r <= 4 * FAULT_PENALTY,
    {
        let (row1, col1) = match self.coord(key1) {
            Some(coord) => coord,
            None => return OFF_GRID_PENALTY,
        };
        let (row2, col2) = match self.coord(key2) {
            Some(coord) => coord,
            None => return OFF_GRID_PENALTY,
        };
        let (row3, col3) = match self.coord(key3) {
            Some(coord) => coord,
            None => return OFF_GRID_PENALTY,
        };
        let fingers = [self.finger(key1), self.finger(key2), self.finger(key3)];
        let overlap = has_overlap(fingers.as_slice());
        assert(fingers@ =~= seq![
            self.spec_finger(key1 as int),
            self.spec_finger(key2 as int),
            self.spec_finger(key3 as int),
        ]);
        let same_finger: u32 = if overlap {
            FAULT_PENALTY
        } else {
            0
        };
        let same_column: u32 = if col1 == col2 && col2 == col3 {
            FAULT_PENALTY
        } else {
            0
        };
        let is_roll = (col1 <= col2 && col2 <= col3) || (col1 >= col2 && col2 >= col3);
        let not_roll_penalty: u32 = if is_roll {
            0
        } else {
            FAULT_PENALTY
        };
        let row_diff = excess(distance(row1, row2), 1) as u32 + excess(distance(row2, row3), 1) as u32;
        same_column + not_roll_penalty + row_diff + same_finger
    }

    /// The cost of a triple of slots, as a formula over the costs of single
    /// keys.
    pub fn stroke_cost(&self, n_gram: &PhysicalNGram<3>) -> (r: StrokeCost)
        ensures
            r == self.spec_stroke_cost(n_gram@),
    {
        let key1 = n_gram.get(0);
        let key2 = n_gram.get(1);
        let key3 = n_gram.get(2);
        let first_hand = self.hand(key1);
        let pattern = (first_hand == self.hand(key2), first_hand == self.hand(key3));
        match pattern {
            (true, true) => StrokeCost {
                base: key1,
                factor: self.roll_cost(key1, key2, key3),
                extra: None,
            },
            (true, false) => StrokeCost {
                base: key1,
                factor: self.relative_cost(key1, key2),
                extra: Some(key3),
            },
            (false, true) => StrokeCost {
                base: key1,
                factor: self.relative_cost(key1, key3),
                extra: Some(key2),
            },
            (false, false) => StrokeCost {
                base: key2,
                factor: self.relative_cost(key2, key3),
                extra: Some(key1),
            },
        }
    }
}

/// The number of slots that one hand presses.
pub const HAND_KEYS: usize = 15;

/// The number of ordered triples of slots of one hand.
pub const HAND_TRI_GRAMS: usize = 3375;

/// The slots of one hand, row by row.  `first_col` is the hand's leftmost
/// column.
pub open spec fn spec_hand_keys(first_col: int) -> Seq<usize> {
    Seq::new(
        HAND_KEYS as nat,
        |k: int| ((k / 5) * (NUM_COLS as int) + first_col + k % 5) as usize,
    )
}

/// All ordered triples over `keys`, the first key varying slowest.
pub open spec fn spec_grams_over(keys: Seq<usize>) -> Seq<Seq<usize>> {
    Seq::new(
        keys.len() * keys.len() * keys.len(),
        |k: int|
            seq![
                keys[k / (keys.len() * keys.len()) as int],
                keys[(k / keys.len() as int) % keys.len() as int],
                keys[k % keys.len() as int],
            ],
    )
}

fn hand_keys(first_col: usize) -> (keys: Vec<usize>)
    requires
        first_col + NUM_COLS / 2 <= NUM_COLS,
    ensures
        keys@ == spec_hand_keys(first_col as int),
{
    let mut keys: Vec<usize> = Vec::new();
    let mut i: usize = 0;
    while i < NUM_ROWS
        invariant
            i <= NUM_ROWS,
            first_col + NUM_COLS / 2 <= NUM_COLS,
            keys.len() == i * 5,
            forall|k: int|
                0 <= k < keys.len() ==> #[trigger] keys[k] == spec_hand_keys(first_col as int)[k],
        decreases NUM_ROWS - i,
    {
        let mut j: usize = first_col;
        while j < first_col + NUM_COLS / 2
            invariant
                i < NUM_ROWS,
                first_col <= j <= first_col + NUM_COLS / 2,
                first_col + NUM_COLS / 2 <= NUM_COLS,
                keys.len() == i * 5 + (j - first_col),
                forall|k: int|
                    0 <= k < keys.len() ==> #[trigger] keys[k] == spec_hand_keys(
                        first_col as int,
                    )[k],
            decreases first_col + NUM_COLS / 2 - j,
        {
            keys.push(i * NUM_COLS + j);
            j += 1;
        }
        i += 1;
    }
    assert(keys@ =~= spec_hand_keys(first_col as int));
    keys
}

fn grams_over(keys: &Vec<usize>) -> (grams: Vec<PhysicalNGram<3>>)
    requires
        keys.len() == HAND_KEYS,
    ensures
        grams.len() == HAND_TRI_GRAMS,
        forall|k: int| 0 <= k < grams.len() ==> (#[trigger] grams[k])@ == spec_grams_over(keys@)[k],
{
    let n = keys.len();
    let mut grams: Vec<PhysicalNGram<3>> = Vec::new();
    let mut a: usize = 0;
    while a < n
        invariant
            n == HAND_KEYS,
            n == keys.len(),
            a <= n,
            grams.len() == a * 225,
            forall|k: int|
                0 <= k < grams.len() ==> (#[trigger] grams[k])@ == spec_grams_over(keys@)[k],
        decreases n - a,
    {
        let mut b: usize = 0;
        while b < n
            invariant
                n == HAND_KEYS,
                n == keys.len(),
                a < n,
                b <= n,
                grams.len() == a * 225 + b * 15,
                forall|k: int|
                    0 <= k < grams.len() ==> (#[trigger] grams[k])@ == spec_grams_over(keys@)[k],
            decreases n - b,
        {
            let mut c: usize = 0;
            while c < n
                invariant
                    n == HAND_KEYS,
                    n == keys.len(),
                    a < n,
                    b < n,
                    c <= n,
                    grams.len() == a * 225 + b * 15 + c,
                    forall|k: int|
                        0 <= k < grams.len() ==> (#[trigger] grams[k])@ == spec_grams_over(
                            keys@,
                        )[k],
                decreases n - c,
            {
                let gram = PhysicalNGram::new([keys[a], keys[b], keys[c]]);
                proof {
                    let k = (a * 225 + b * 15 + c) as int;
                    assert(k / 225 == a);
                    assert(k / 15 == a * 15 + b);
                    assert((k / 15) % 15 == b);
                    assert(k % 15 == c);
                    assert(gram@ =~= spec_grams_over(keys@)[k]);
                }
                grams.push(gram);
                c += 1;
            }
            b += 1;
        }
        a += 1;
    }
    grams
}

/// The slots that the left hand presses, row by row.
pub fn get_left_keys() -> (keys: Vec<usize>)
    ensures
        keys@ == spec_hand_keys(0),
{
    hand_keys(0)
}

/// The slots that the right hand presses, row by row.
pub fn get_right_keys() -> (keys: Vec<usize>)
    ensures
        keys@ == spec_hand_keys((NUM_COLS / 2) as int),
{
    hand_keys(NUM_COLS / 2)
}

/// All ordered triples of slots of the left hand.
pub fn get_left_grams() -> (grams: Vec<PhysicalNGram<3>>)
    ensures
        grams.len() == HAND_TRI_GRAMS,
        forall|k: int|
            0 <= k < grams.len() ==> (#[trigger] grams[k])@ == spec_grams_over(spec_hand_keys(0))[k],
{
    let keys = get_left_keys();
    grams_over(&keys)
}

/// All ordered triples of slots of the right hand.
pub fn get_right_grams() -> (grams: Vec<PhysicalNGram<3>>)
    ensures
        grams.len() == HAND_TRI_GRAMS,
        forall|k: int|
            0 <= k < grams.len() ==> (#[trigger] grams[k])@ == spec_grams_over(
                spec_hand_keys((NUM_COLS / 2) as int),
            )[k],
{
    let keys = get_right_keys();
    grams_over(&keys)
}

} // verus!

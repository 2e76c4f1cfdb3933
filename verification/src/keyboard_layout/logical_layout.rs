//! The assignment of characters to key slots.
//!
//! A layout holds the characters slot by slot and, beside them, an inverse
//! index from each character to the slot where it sits.  Swapping two slots
//! and setting a character into a slot keep the assignment one-to-one and
//! the index exact: the index leads from the character of every slot back to
//! that slot, and knows no character that sits in no slot.

use vstd::prelude::*;
use vstd::set_lib::{lemma_int_range, lemma_len_subset, set_int_range};
use std::collections::HashMap;
use super::physical_layout::{PhysicalLayout, StrokeCost, NUM_KEYS};
use crate::n_gram::{LogicalNGram, PhysicalNGram};

verus! {

/// Distinct characters have distinct code points.
pub proof fn lemma_code_injective(a: char, b: char)
    ensures
        a as u32 == b as u32 ==> a == b,
{
}

/// A map keyed by code point, read as a map keyed by character.
spec fn by_char(codes: Map<u32, usize>) -> Map<char, usize> {
    Map::new(|c: char| codes.contains_key(c as u32), |c: char| codes[c as u32])
}

/// An entry made under a character's code point is an entry made under the
/// character.
proof fn lemma_by_char_insert(codes: Map<u32, usize>, c: char, slot: usize)
    ensures
        by_char(codes.insert(c as u32, slot)) == by_char(codes).insert(c, slot),
{
    let a = by_char(codes.insert(c as u32, slot));
    let b = by_char(codes).insert(c, slot);
    assert forall|k: char| a.contains_key(k) <==> b.contains_key(k) by {
        lemma_code_injective(k, c);
    }
    assert forall|k: char| a.contains_key(k) implies a[k] == b[k] by {
        lemma_code_injective(k, c);
    }
    assert(a =~= b);
}

/// An entry taken out under a character's code point is taken out under the
/// character.
proof fn lemma_by_char_remove(codes: Map<u32, usize>, c: char)
    ensures
        by_char(codes.remove(c as u32)) == by_char(codes).remove(c),
{
    let a = by_char(codes.remove(c as u32));
    let b = by_char(codes).remove(c);
    assert forall|k: char| a.contains_key(k) <==> b.contains_key(k) by {
        lemma_code_injective(k, c);
    }
    assert forall|k: char| a.contains_key(k) implies a[k] == b[k] by {
        lemma_code_injective(k, c);
    }
    assert(a =~= b);
}

/// The characters of `s` with those of the slots `a` and `b` exchanged.
pub open spec fn spec_swapped(s: Seq<char>, a: int, b: int) -> Seq<char> {
    s.update(a, s[b]).update(b, s[a])
}

/// What a layout holds, as plain values: the characters slot by slot, and the
/// index from characters to slots.
pub struct LayoutModel {
    pub slots: Seq<char>,
    pub index: Map<char, usize>,
}

/// A change of one layout.
pub enum Edit {
    /// The characters of two slots are exchanged.
    Swap { a: usize, b: usize },
    /// A character is set into a slot.
    Put { index: usize, c: char },
}

impl LayoutModel {
    /// The index leads from the character of every slot back to that slot.
    pub open spec fn is_bijection(self) -> bool {
        forall|i: int|
            0 <= i < self.slots.len() ==> self.index.contains_key(#[trigger] self.slots[i])
                && self.index[self.slots[i]] == i
    }

    /// The layout after the characters of two slots were exchanged.
    pub open spec fn after_swap(self, a: usize, b: usize) -> LayoutModel {
        LayoutModel {
            slots: spec_swapped(self.slots, a as int, b as int),
            index: self.index.insert(self.slots[a as int], b).insert(self.slots[b as int], a),
        }
    }

    /// Every character that the index knows sits in the slot recorded for it.
    pub open spec fn is_exact(self) -> bool {
        forall|c: char| #[trigger]
            self.index.contains_key(c) ==> self.index[c] < self.slots.len() && self.slots[self.index[c] as int]
                == c
    }

    /// The layout after a character was written into a slot and the slot
    /// recorded for it, whatever the slot held and wherever else the
    /// character sits.
    pub open spec fn after_put(self, index: usize, c: char) -> LayoutModel {
        LayoutModel { slots: self.slots.update(index as int, c), index: self.index.insert(c, index) }
    }

    /// The index records for `c` a slot other than `index` that holds `c`.
    pub open spec fn holds_elsewhere(self, index: usize, c: char) -> bool {
        &&& self.index.contains_key(c)
        &&& self.index[c] < self.slots.len()
        &&& self.index[c] != index
        &&& self.slots[self.index[c] as int] == c
    }

    /// The index records the slot `index` for the character that the slot
    /// holds, and that character is not `c`.
    pub open spec fn displaces(self, index: usize, c: char) -> bool {
        &&& self.slots[index as int] != c
        &&& self.index.contains_key(self.slots[index as int])
        &&& self.index[self.slots[index as int]] == index
    }

    /// The layout after a character was set into a slot.  Where the
    /// character sits in another slot, the two slots are exchanged.
    /// Otherwise the character is written into the slot, and the character
    /// that it displaces leaves the index.
    pub open spec fn after_set(self, index: usize, c: char) -> LayoutModel {
        if self.holds_elsewhere(index, c) {
            self.after_swap(index, self.index[c])
        } else if self.displaces(index, c) {
            LayoutModel {
                slots: self.slots.update(index as int, c),
                index: self.index.remove(self.slots[index as int]).insert(c, index),
            }
        } else {
            self.after_put(index, c)
        }
    }

    /// The layout after a change.
    pub open spec fn after(self, edit: Edit) -> LayoutModel {
        match edit {
            Edit::Swap { a, b } => self.after_swap(a, b),
            Edit::Put { index, c } => self.after_set(index, c),
        }
    }

    /// The change names slots of the layout.
    pub open spec fn admits(self, edit: Edit) -> bool {
        match edit {
            Edit::Swap { a, b } => a < self.slots.len() && b < self.slots.len(),
            Edit::Put { index, c } => index < self.slots.len(),
        }
    }

    /// The layout after a run of changes, made one after the other.
    pub open spec fn after_all(self, edits: Seq<Edit>) -> LayoutModel
        decreases edits.len(),
    {
        if edits.len() == 0 {
            self
        } else {
            self.after_all(edits.drop_last()).after(edits.last())
        }
    }

    /// The layout admits each change of the run at the time it is made.
    pub open spec fn admits_all(self, edits: Seq<Edit>) -> bool
        decreases edits.len(),
    {
        edits.len() == 0 || (self.admits_all(edits.drop_last()) && self.after_all(
            edits.drop_last(),
        ).admits(edits.last()))
    }
}

/// A set keeps a one-to-one layout one-to-one and an exact index exact,
/// whatever the character.
pub proof fn lemma_set_keeps(layout: LayoutModel, index: usize, c: char)
    requires
        index < layout.slots.len(),
    ensures
        layout.after_set(index, c).slots.len() == layout.slots.len(),
        layout.is_bijection() ==> layout.after_set(index, c).is_bijection(),
        layout.is_exact() ==> layout.after_set(index, c).is_exact(),
{
    let after = layout.after_set(index, c);
    let displaced = layout.slots[index as int];
    if layout.is_bijection() {
        assert(layout.index[displaced] == index);
        assert forall|i: int| 0 <= i < after.slots.len() implies after.index.contains_key(
            #[trigger] after.slots[i],
        ) && after.index[after.slots[i]] == i by {
            assert(layout.index[layout.slots[i]] == i);
            if layout.holds_elsewhere(index, c) {
                assert(layout.index[layout.slots[layout.index[c] as int]] == layout.index[c]);
            } else if i != index {
                if layout.slots[i] == c {
                    assert(layout.index[c] == i);
                }
            }
        }
    }
    if layout.is_exact() {
        assert forall|k: char| #[trigger] after.index.contains_key(k) implies after.index[k]
            < after.slots.len() && after.slots[after.index[k] as int] == k by {
            if k != c && k != displaced {
                assert(layout.index.contains_key(k));
            }
            if layout.holds_elsewhere(index, c) {
                if k == displaced && k != c {
                    assert(after.index[k] == layout.index[c]);
                }
            } else if k != c {
                assert(layout.index.contains_key(k));
            }
        }
    }
}

/// Whatever run of swaps and sets is made on a layout whose index leads from
/// every slot back to that slot, the index still does so afterwards, and no
/// two slots hold the same character.  An index that was exact is exact
/// afterwards.
pub proof fn lemma_edits_keep_bijection(layout: LayoutModel, edits: Seq<Edit>)
    requires
        layout.is_bijection(),
        layout.admits_all(edits),
    ensures
        layout.after_all(edits).is_bijection(),
        layout.after_all(edits).slots.len() == layout.slots.len(),
        layout.after_all(edits).slots.no_duplicates(),
        layout.is_exact() ==> layout.after_all(edits).is_exact(),
    decreases edits.len(),
{
    if edits.len() > 0 {
        lemma_edits_keep_bijection(layout, edits.drop_last());
        let mid = layout.after_all(edits.drop_last());
        match edits.last() {
            Edit::Swap { a, b } => {
                lemma_swap_keeps(mid, a, b);
            },
            Edit::Put { index, c } => {
                lemma_set_keeps(mid, index, c);
            },
        }
    }
    let end = layout.after_all(edits);
    assert forall|i: int, j: int|
        0 <= i < end.slots.len() && 0 <= j < end.slots.len() && i != j implies end.slots[i]
        != end.slots[j] by {
        assert(end.index[end.slots[i]] == i);
        assert(end.index[end.slots[j]] == j);
    }
}

/// A swap leaves the set of the characters in the slots as it was.
pub proof fn lemma_swapped_content(s: Seq<char>, a: int, b: int)
    requires
        0 <= a < s.len(),
        0 <= b < s.len(),
    ensures
        spec_swapped(s, a, b).to_set() == s.to_set(),
{
    let t = spec_swapped(s, a, b);
    assert forall|c: char| t.to_set().contains(c) <==> s.to_set().contains(c) by {
        if t.contains(c) {
            let i = choose|i: int| 0 <= i < t.len() && t[i] == c;
            let j = if i == a {
                b
            } else if i == b {
                a
            } else {
                i
            };
            assert(s[j] == c);
        }
        if s.contains(c) {
            let i = choose|i: int| 0 <= i < s.len() && s[i] == c;
            let j = if i == a {
                b
            } else if i == b {
                a
            } else {
                i
            };
            assert(t[j] == c);
        }
    }
    assert(t.to_set() =~= s.to_set());
}

/// The number of distinct characters in a sequence.
pub open spec fn spec_count_distinct(s: Seq<char>) -> nat
    decreases s.len(),
{
    if s.len() == 0 {
        0
    } else if s.drop_last().contains(s.last()) {
        spec_count_distinct(s.drop_last())
    } else {
        spec_count_distinct(s.drop_last()) + 1
    }
}

/// The first code point that a padding character may have.
pub const FIRST_PLACEHOLDER: u8 = 0x20;

/// One of the first `n` slots holds the character with the given code point.
pub open spec fn holds_code(s: Seq<char>, n: int, code: u32) -> bool {
    exists|j: int| 0 <= j < n && #[trigger] s[j] as u32 == code
}

/// Slot `i` holds the padding character that belongs there: the first
/// character from the space upwards that no earlier slot holds.
pub open spec fn is_placeholder(s: Seq<char>, i: int) -> bool {
    &&& s[i] as u32 >= FIRST_PLACEHOLDER as u32
    &&& forall|j: int| 0 <= j < i ==> s[j] != s[i]
    &&& forall|code: u32|
        FIRST_PLACEHOLDER as u32 <= code < s[i] as u32 ==> #[trigger] holds_code(s, i, code)
}

/// `s` is `given` filled up to `slots` slots with the placeholders that belong
/// there; where `given` is at least that long, `s` is `given`.
pub open spec fn is_padding_of(s: Seq<char>, given: Seq<char>, slots: nat) -> bool {
    &&& s.len() == if given.len() >= slots {
        given.len()
    } else {
        slots
    }
    &&& s.subrange(0, given.len() as int) == given
    &&& forall|i: int| given.len() <= i < s.len() ==> is_placeholder(s, i)
}

/// A sequence without duplicates whose items all lie in `0..bound` is no
/// longer than `bound`.
pub proof fn lemma_pigeonhole(items: Seq<int>, bound: int)
    requires
        0 <= bound,
        items.no_duplicates(),
        forall|k: int| 0 <= k < items.len() ==> 0 <= #[trigger] items[k] < bound,
    ensures
        items.len() <= bound,
{
    if items.len() > 0 {
        let range = set_int_range(0, bound);
        assert(0 <= items[0] < bound);
        items.unique_seq_to_set();
        lemma_int_range(0, bound);
        assert(items.to_set().subset_of(range)) by {
            assert forall|x: int| items.to_set().contains(x) implies range.contains(x) by {
                let k = choose|k: int| 0 <= k < items.len() && items[k] == x;
                assert(0 <= items[k] < bound);
            }
        }
        lemma_len_subset(items.to_set(), range);
    }
}

/// Every code point in the map is recorded at a slot that holds its character.
spec fn codes_exact(codes: Map<u32, usize>, s: Seq<char>) -> bool {
    forall|k: u32| #[trigger]
        codes.contains_key(k) ==> codes[k] < s.len() && s[codes[k] as int] as u32 == k
}

/// The character of every slot is in the map, recorded at that slot or at a
/// later one.
spec fn codes_cover(codes: Map<u32, usize>, s: Seq<char>) -> bool {
    forall|i: int|
        0 <= i < s.len() ==> codes.contains_key((#[trigger] s[i]) as u32) && codes[s[i] as u32] >= i
}

/// The map leads from the character of every slot back to that slot.
spec fn codes_invert(codes: Map<u32, usize>, s: Seq<char>) -> bool {
    forall|i: int|
        0 <= i < s.len() ==> codes.contains_key((#[trigger] s[i]) as u32) && codes[s[i] as u32] == i
}

/// Every code point from the first placeholder up to `next` is in the map.
spec fn codes_fill(codes: Map<u32, usize>, next: int) -> bool {
    forall|k: u32| FIRST_PLACEHOLDER as int <= k < next ==> #[trigger] codes.contains_key(k)
}

/// A map that is exact for `slots` slots cannot hold more than `slots`
/// consecutive code points.
proof fn lemma_fill_bound(codes: Map<u32, usize>, s: Seq<char>, next: int)
    requires
        codes_exact(codes, s),
        codes_fill(codes, next),
        FIRST_PLACEHOLDER as int <= next <= u32::MAX,
    ensures
        next - FIRST_PLACEHOLDER as int <= s.len(),
{
    let first = FIRST_PLACEHOLDER as int;
    let items = Seq::new((next - first) as nat, |k: int| codes[(first + k) as u32] as int);
    assert forall|k: int| 0 <= k < items.len() implies 0 <= #[trigger] items[k] < s.len() by {
        assert(codes.contains_key((first + k) as u32));
    }
    assert forall|a: int, b: int|
        0 <= a < items.len() && 0 <= b < items.len() && a != b implies items[a] != items[b] by {
        assert(codes.contains_key((first + a) as u32));
        assert(codes.contains_key((first + b) as u32));
    }
    lemma_pigeonhole(items, s.len() as int);
}

#[derive(Debug)]
pub struct LogicalLayout {
    layout: Vec<char>,
    usable_chars: HashMap<u32, usize>,
    char_nums: usize,
}

impl View for LogicalLayout {
    type V = Seq<char>;

    /// The characters, slot by slot.
    closed spec fn view(&self) -> Seq<char> {
        self.layout@
    }
}

impl LogicalLayout {
    /// The inverse index: the slot that each known character is recorded at.
    pub closed spec fn index(&self) -> Map<char, usize> {
        by_char(self.usable_chars@)
    }

    /// The characters and the index together.
    pub open spec fn model(&self) -> LayoutModel {
        LayoutModel { slots: self@, index: self.index() }
    }

    /// The number of distinct characters that the layout was made from.
    pub closed spec fn spec_char_nums(&self) -> usize {
        self.char_nums
    }

    /// The slot that the index records for `c`, and the number of slots for a
    /// character that it does not know.
    pub open spec fn spec_char_index(&self, c: char) -> usize {
        if self.index().contains_key(c) {
            self.index()[c]
        } else {
            self@.len() as usize
        }
    }

    /// The index leads from the character of every slot back to that slot.
    /// It follows that no character sits in two slots.
    pub open spec fn is_bijection(&self) -> bool {
        forall|i: int|
            0 <= i < self@.len() ==> self.index().contains_key(#[trigger] self@[i])
                && self.index()[self@[i]] == i
    }

    /// Every character that the index knows sits in the slot recorded for it.
    pub open spec fn is_exact(&self) -> bool {
        forall|c: char| #[trigger]
            self.index().contains_key(c) ==> self.index()[c] < self@.len() && self@[self.index()[c] as int]
                == c
    }

    /// A layout that starts with the given characters.  Where they do not
    /// fill the slots of the physical layout, the rest is padded with
    /// placeholders, each the first character from the space upwards that the
    /// layout does not yet hold.
    pub fn from_usable_chars<C>(physical_layout: &PhysicalLayout<C>, usable_chars: Vec<char>) -> (r:
        Self)
        ensures
            is_padding_of(r@, usable_chars@, NUM_KEYS as nat),
            r.is_exact(),
            forall|i: int|
                0 <= i < r@.len() ==> r.index().contains_key(#[trigger] r@[i]) && r.index()[r@[i]]
                    >= i,
            usable_chars@.no_duplicates() ==> r.is_bijection(),
            r.spec_char_nums() == spec_count_distinct(usable_chars@),
    {
        let ghost given = usable_chars@;
        let mut layout = usable_chars;
        let mut codes: HashMap<u32, usize> = HashMap::new();
        let mut char_nums: usize = 0;
        let mut i: usize = 0;
        while i < layout.len()
            invariant
                layout@ == given,
                i <= layout.len(),
                char_nums <= i,
                char_nums == spec_count_distinct(given.subrange(0, i as int)),
                codes_exact(codes@, given.subrange(0, i as int)),
                codes_cover(codes@, given.subrange(0, i as int)),
                given.no_duplicates() ==> codes_invert(codes@, given.subrange(0, i as int)),
            decreases layout.len() - i,
        {
            let c = layout[i];
            let known = codes.contains_key(&(c as u32));
            proof {
                let before = given.subrange(0, i as int);
                let after = given.subrange(0, i + 1);
                assert(after.drop_last() =~= before);
                assert(after.last() == c);
                if known {
                    let j = codes@[c as u32] as int;
                    lemma_code_injective(before[j], c);
                    assert(before.contains(c));
                } else if before.contains(c) {
                    let j = choose|j: int| 0 <= j < before.len() && before[j] == c;
                    assert(codes@.contains_key(before[j] as u32));
                }
                assert forall|j: int| 0 <= j < i implies (after[j] as u32 == c as u32) == (after[j]
                    == c) by {
                    lemma_code_injective(after[j], c);
                }
            }
            if !known {
                char_nums += 1;
            }
            codes.insert(c as u32, i);
            i += 1;
            proof {
                let before = given.subrange(0, i - 1);
                let after = given.subrange(0, i as int);
                assert forall|j: int| 0 <= j < after.len() implies after[j] == given[j] by {}
                assert forall|j: int| 0 <= j < before.len() implies before[j] == after[j] by {}
                assert(codes_exact(codes@, after)) by {
                    assert forall|k: u32| #[trigger] codes@.contains_key(k) implies codes@[k]
                        < after.len() && after[codes@[k] as int] as u32 == k by {
                        if k != c as u32 {
                            assert(before[codes@[k] as int] == after[codes@[k] as int]);
                        }
                    }
                }
                assert(codes_cover(codes@, after)) by {
                    assert forall|j: int| 0 <= j < after.len() implies codes@.contains_key(
                        (#[trigger] after[j]) as u32,
                    ) && codes@[after[j] as u32] >= j by {
                        if j < i - 1 {
                            assert(before[j] == after[j]);
                        }
                    }
                }
                if given.no_duplicates() {
                    assert(codes_invert(codes@, after)) by {
                        assert forall|j: int| 0 <= j < after.len() implies codes@.contains_key(
                            (#[trigger] after[j]) as u32,
                        ) && codes@[after[j] as u32] == j by {
                            if j < i - 1 {
                                assert(before[j] == after[j]);
                                assert(given[j] != given[i - 1]);
                            }
                        }
                    }
                }
            }
        }
        assert(given.subrange(0, i as int) =~= given);
        let mut next_code: u8 = FIRST_PLACEHOLDER;
        while layout.len() < physical_layout.len()
            invariant
                given.len() <= layout@.len(),
                layout@.subrange(0, given.len() as int) == given,
                given.len() < layout@.len() ==> layout@.len() <= NUM_KEYS,
                forall|i: int| given.len() <= i < layout@.len() ==> is_placeholder(layout@, i),
                codes_exact(codes@, layout@),
                codes_cover(codes@, layout@),
                given.no_duplicates() ==> codes_invert(codes@, layout@),
                codes_fill(codes@, next_code as int),
                FIRST_PLACEHOLDER <= next_code,
            decreases NUM_KEYS - layout.len(),
        {
            while codes.contains_key(&(next_code as u32))
                invariant
                    layout@.len() < NUM_KEYS,
                    codes_exact(codes@, layout@),
                    codes_fill(codes@, next_code as int),
                    FIRST_PLACEHOLDER <= next_code,
                decreases u8::MAX - next_code,
            {
                proof {
                    assert(codes_fill(codes@, next_code + 1));
                    lemma_fill_bound(codes@, layout@, next_code + 1);
                }
                next_code = next_code + 1;
            }
            let c = next_code as char;
            let ghost before = layout@;
            let ghost codes_before = codes@;
            layout.push(c);
            codes.insert(c as u32, layout.len() - 1);
            proof {
                let after = layout@;
                let slot = before.len() as int;
                assert(c as u32 == next_code as u32);
                assert forall|j: int| 0 <= j < before.len() implies before[j] == after[j] by {}
                assert(after.subrange(0, given.len() as int) =~= given);
                assert forall|k: u32| #[trigger] codes@.contains_key(k) implies codes@[k]
                    < after.len() && after[codes@[k] as int] as u32 == k by {
                    if k != c as u32 {
                        assert(codes_before.contains_key(k));
                        assert(before[codes_before[k] as int] == after[codes_before[k] as int]);
                    }
                }
                assert forall|j: int| 0 <= j < after.len() implies codes@.contains_key(
                    (#[trigger] after[j]) as u32,
                ) && codes@[after[j] as u32] >= j by {
                    if j < slot {
                        assert(before[j] == after[j]);
                        assert(codes_before.contains_key(before[j] as u32));
                    }
                }
                if given.no_duplicates() {
                    assert forall|j: int| 0 <= j < after.len() implies codes@.contains_key(
                        (#[trigger] after[j]) as u32,
                    ) && codes@[after[j] as u32] == j by {
                        if j < slot {
                            assert(before[j] == after[j]);
                            assert(codes_before.contains_key(before[j] as u32));
                        }
                    }
                }
                assert forall|i: int| given.len() <= i < after.len() implies is_placeholder(
                    after,
                    i,
                ) by {
                    if i < slot {
                        assert(is_placeholder(before, i));
                        assert(before[i] == after[i]);
                        assert forall|code: u32|
                            FIRST_PLACEHOLDER as u32 <= code < after[i] as u32 implies #[trigger] holds_code(
                            after,
                            i,
                            code,
                        ) by {
                            assert(holds_code(before, i, code));
                            let j = choose|j: int| 0 <= j < i && #[trigger] before[j] as u32 == code;
                            assert(after[j] as u32 == code);
                        }
                    } else {
                        assert forall|j: int| 0 <= j < i implies after[j] != after[i] by {
                            assert(before[j] == after[j]);
                            assert(codes_before.contains_key(before[j] as u32));
                        }
                        assert forall|code: u32|
                            FIRST_PLACEHOLDER as u32 <= code < after[i] as u32 implies #[trigger] holds_code(
                            after,
                            i,
                            code,
                        ) by {
                            assert(codes_before.contains_key(code));
                            let j = codes_before[code] as int;
                            assert(before[j] == after[j]);
                            assert(after[j] as u32 == code);
                        }
                    }
                }
            }
        }
        let r = LogicalLayout { layout, usable_chars: codes, char_nums };
        proof {
            assert forall|c: char| #[trigger] r.index().contains_key(c) implies r.index()[c]
                < r@.len() && r@[r.index()[c] as int] == c by {
                assert(codes@.contains_key(c as u32));
                lemma_code_injective(r@[codes@[c as u32] as int], c);
            }
            assert forall|i: int| 0 <= i < r@.len() implies r.index().contains_key(
                #[trigger] r@[i],
            ) && r.index()[r@[i]] >= i by {
                assert(codes@.contains_key(r@[i] as u32));
            }
            if given.no_duplicates() {
                assert forall|i: int| 0 <= i < r@.len() implies r.index().contains_key(
                    #[trigger] r@[i],
                ) && r.index()[r@[i]] == i by {
                    assert(codes@.contains_key(r@[i] as u32));
                }
            }
        }
        r
    }

    /// The characters that sit in the slots.
    pub open spec fn alphabet(&self) -> Set<char> {
        self@.to_set()
    }

    /// Both layouts hold the same characters in the same slots, with the
    /// same index.
    pub open spec fn same_as(&self, other: LogicalLayout) -> bool {
        &&& self@ == other@
        &&& self.index() == other.index()
        &&& self.spec_char_nums() == other.spec_char_nums()
    }

    pub fn len(&self) -> (r: usize)
        ensures
            r == self@.len(),
    {
        self.layout.len()
    }

    pub fn char_nums(&self) -> (r: usize)
        ensures
            r == self.spec_char_nums(),
    {
        self.char_nums
    }

    pub fn get(&self, index: usize) -> (r: char)
        requires
            index < self@.len(),
        ensures
            r == self@[index as int],
    {
        self.layout[index]
    }

    /// The slot that the index records for `c`, and the number of slots for
    /// a character that it does not know.  In a one-to-one layout with an
    /// exact index that is the slot that holds `c`, and the number of slots
    /// for a character that no slot holds.
    pub fn get_char_index(&self, c: char) -> (r: usize)
        ensures
            r == self.spec_char_index(c),
            self.is_bijection() && self.is_exact() ==> if self@.contains(c) {
                r < self@.len() && self@[r as int] == c
            } else {
                r == self@.len()
            },
    {
        proof {
            if self.is_bijection() && self.is_exact() && self@.contains(c) {
                let i = choose|i: int| 0 <= i < self@.len() && self@[i] == c;
                assert(self.index()[self@[i]] == i);
            }
            if self.is_exact() && self.index().contains_key(c) {
                assert(self@[self.index()[c] as int] == c);
                assert(self@.contains(c));
            }
        }
        match self.usable_chars.get(&(c as u32)) {
            Some(index) => *index,
            None => self.layout.len(),
        }
    }

    /// True when the index leads from the character of every slot back to
    /// that slot.
    pub fn check_bijection(&self) -> (r: bool)
        ensures
            r == self.is_bijection(),
    {
        let mut i: usize = 0;
        while i < self.layout.len()
            invariant
                i <= self@.len(),
                forall|k: int|
                    0 <= k < i ==> self.index().contains_key(#[trigger] self@[k]) && self.index()[self@[k]]
                        == k,
            decreases self@.len() - i,
        {
            if self.get_char_index(self.layout[i]) != i {
                return false;
            }
            i += 1;
        }
        true
    }

    /// Writes `c` into a slot and records the slot for `c`, whatever the slot
    /// held and wherever else `c` sits.
    pub(crate) fn put(&mut self, index: usize, c: char)
        requires
            index < old(self)@.len(),
        ensures
            final(self).model() == old(self).model().after_put(index, c),
            final(self).spec_char_nums() == old(self).spec_char_nums(),
    {
        self.usable_chars.insert(c as u32, index);
        self.layout[index] = c;
        proof {
            lemma_by_char_insert(old(self).usable_chars@, c, index);
        }
    }

    /// Sets `c` into a slot.  Where `c` sits in another slot, the characters
    /// of the two slots are exchanged.  Otherwise `c` is written into the
    /// slot, and the character that it displaces leaves the index.
    pub fn set(&mut self, index: usize, c: char)
        requires
            index < old(self)@.len(),
        ensures
            final(self).model() == old(self).model().after_set(index, c),
            final(self)@.len() == old(self)@.len(),
            final(self)@[index as int] == c,
            final(self).spec_char_nums() == old(self).spec_char_nums(),
            old(self).is_bijection() ==> final(self).is_bijection(),
            old(self).is_exact() ==> final(self).is_exact(),
    {
        proof {
            lemma_set_keeps(self.model(), index, c);
        }
        let held = self.get_char_index(c);
        if held < self.layout.len() && held != index && self.layout[held] == c {
            self.swap(index, held);
        } else {
            let displaced = self.layout[index];
            if displaced != c && self.get_char_index(displaced) == index {
                self.usable_chars.remove(&(displaced as u32));
                proof {
                    lemma_by_char_remove(old(self).usable_chars@, displaced);
                }
            }
            let ghost codes = self.usable_chars@;
            self.usable_chars.insert(c as u32, index);
            self.layout[index] = c;
            proof {
                lemma_by_char_insert(codes, c, index);
            }
        }
    }

    /// Exchanges the characters of two slots.
    pub fn swap(&mut self, a: usize, b: usize)
        requires
            a < old(self)@.len(),
            b < old(self)@.len(),
        ensures
            final(self).model() == old(self).model().after_swap(a, b),
            final(self)@ == spec_swapped(old(self)@, a as int, b as int),
            final(self).index() == old(self).index().insert(old(self)@[a as int], b).insert(
                old(self)@[b as int],
                a,
            ),
            final(self).spec_char_nums() == old(self).spec_char_nums(),
            old(self).is_bijection() ==> final(self).is_bijection(),
            old(self).is_exact() ==> final(self).is_exact(),
            final(self).alphabet() == old(self).alphabet(),
    {
        let char_a = self.layout[a];
        let char_b = self.layout[b];
        self.usable_chars.insert(char_a as u32, b);
        proof {
            lemma_by_char_insert(old(self).usable_chars@, char_a, b);
            lemma_by_char_insert(self.usable_chars@, char_b, a);
        }
        self.usable_chars.insert(char_b as u32, a);
        self.layout[a] = char_b;
        self.layout[b] = char_a;
        proof {
            lemma_swapped_content(old(self)@, a as int, b as int);
            if old(self).is_exact() {
                assert forall|c: char| #[trigger] self.index().contains_key(c) implies self.index()[c]
                    < self@.len() && self@[self.index()[c] as int] == c by {
                    if c != char_a && c != char_b {
                        assert(old(self).index().contains_key(c));
                    }
                }
            }
        }
    }

    /// The slots that the characters of a tri-gram sit at.
    pub open spec fn spec_physical_n_gram(&self, n_gram: Seq<char>) -> Seq<usize> {
        seq![
            self.spec_char_index(n_gram[0]),
            self.spec_char_index(n_gram[1]),
            self.spec_char_index(n_gram[2]),
        ]
    }

    /// The slots that the characters of a tri-gram sit at.  A character that
    /// the layout does not know gets the number of slots, which lies outside
    /// every grid that the layout fills.
    pub fn physical_n_gram(&self, n_gram: &LogicalNGram<3>) -> (r: PhysicalNGram<3>)
        ensures
            r@ == self.spec_physical_n_gram(n_gram@),
    {
        let r = PhysicalNGram::new(
            [
                self.get_char_index(n_gram.get(0)),
                self.get_char_index(n_gram.get(1)),
                self.get_char_index(n_gram.get(2)),
            ],
        );
        assert(r@ =~= self.spec_physical_n_gram(n_gram@));
        r
    }

    /// The cost of typing each of the given tri-grams on this layout, as a
    /// formula over the costs of single keys.  The total cost of the layout is
    /// the sum of these, each weighted by the frequency of its tri-gram.
    pub fn evaluate<C>(
        &self,
        physical_layout: &PhysicalLayout<C>,
        tri_grams: &Vec<LogicalNGram<3>>,
    ) -> (r: Vec<StrokeCost>)
        requires
            physical_layout.is_calculated(),
        ensures
            r@.len() == tri_grams@.len(),
            forall|k: int|
                0 <= k < r@.len() ==> #[trigger] r@[k] == physical_layout.spec_stroke_cost(
                    self.spec_physical_n_gram(tri_grams@[k]@),
                ),
    {
        let mut costs: Vec<StrokeCost> = Vec::new();
        let mut k: usize = 0;
        while k < tri_grams.len()
            invariant
                physical_layout.is_calculated(),
                k <= tri_grams.len(),
                costs@.len() == k,
                forall|j: int|
                    0 <= j < k ==> #[trigger] costs@[j] == physical_layout.spec_stroke_cost(
                        self.spec_physical_n_gram(tri_grams@[j]@),
                    ),
            decreases tri_grams.len() - k,
        {
            let physical_n_gram = self.physical_n_gram(&tri_grams[k]);
            costs.push(physical_layout.get_tri_gram_cost(&physical_n_gram));
            k += 1;
        }
        costs
    }

    /// The characters, slot by slot.
    pub fn output(self) -> (r: Vec<char>)
        ensures
            r@ == self@,
    {
        self.layout
    }
}

/// `evaluate` can serve as the cost of a layout: it accepts every layout, and
/// what it may return depends on the characters in the slots and on the
/// index alone.
pub open spec fn is_cost_function<E: Fn(&LogicalLayout) -> u32>(evaluate: E) -> bool {
    &&& forall|candidate: &LogicalLayout| #[trigger] evaluate.requires((candidate,))
    &&& forall|x: &LogicalLayout, y: &LogicalLayout, cost: u32|
        #![trigger evaluate.ensures((x,), cost), evaluate.ensures((y,), cost)]
        x.same_as(*y) && evaluate.ensures((x,), cost) ==> evaluate.ensures((y,), cost)
}

/// A layout whose index leads from every slot back to that slot holds no
/// character twice.
pub proof fn lemma_bijection_no_duplicates(layout: LogicalLayout)
    requires
        layout.is_bijection(),
    ensures
        layout@.no_duplicates(),
{
    assert forall|i: int, j: int|
        0 <= i < layout@.len() && 0 <= j < layout@.len() && i != j implies layout@[i]
        != layout@[j] by {
        assert(layout.index()[layout@[i]] == i);
        assert(layout.index()[layout@[j]] == j);
    }
}

/// What a layout makes of a tri-gram depends on its index and on the number
/// of its slots alone: layouts that agree in both send every tri-gram to the
/// same slots, so that evaluating them gives the same result.
pub proof fn lemma_evaluate_depends_on_index(x: LogicalLayout, y: LogicalLayout)
    requires
        x.index() == y.index(),
        x@.len() == y@.len(),
    ensures
        forall|n_gram: Seq<char>| #[trigger]
            x.spec_physical_n_gram(n_gram) == y.spec_physical_n_gram(n_gram),
{
}

/// A layout with the given characters, index and number of distinct
/// characters may cost `cost`.
pub open spec fn may_cost<E: Fn(&LogicalLayout) -> u32>(
    evaluate: E,
    model: LayoutModel,
    char_nums: usize,
    cost: u32,
) -> bool {
    exists|layout: LogicalLayout|
        layout.model() == model && layout.spec_char_nums() == char_nums && #[trigger] evaluate.ensures(
            (&layout,),
            cost,
        )
}

/// What a layout of the same characters and index may cost, the layout may
/// cost.
pub proof fn lemma_may_cost<E: Fn(&LogicalLayout) -> u32>(evaluate: E, layout: LogicalLayout, cost: u32)
    requires
        is_cost_function(evaluate),
        may_cost(evaluate, layout.model(), layout.spec_char_nums(), cost),
    ensures
        evaluate.ensures((&layout,), cost),
{
    let other = choose|other: LogicalLayout|
        other.model() == layout.model() && other.spec_char_nums() == layout.spec_char_nums()
            && #[trigger] evaluate.ensures((&other,), cost);
    let x = &other;
    let y = &layout;
    assert(x.same_as(*y));
    assert(evaluate.ensures((x,), cost));
    assert(evaluate.ensures((y,), cost));
}

/// A swap keeps a one-to-one layout one-to-one and leaves the set of its
/// characters as it was.
pub proof fn lemma_swap_keeps(layout: LayoutModel, a: usize, b: usize)
    requires
        layout.is_bijection(),
        a < layout.slots.len(),
        b < layout.slots.len(),
    ensures
        layout.after_swap(a, b).is_bijection(),
        layout.after_swap(a, b).slots.len() == layout.slots.len(),
        layout.after_swap(a, b).slots.to_set() == layout.slots.to_set(),
        layout.is_exact() ==> layout.after_swap(a, b).is_exact(),
{
    lemma_swapped_content(layout.slots, a as int, b as int);
    let after = layout.after_swap(a, b);
    if layout.is_exact() {
        assert forall|k: char| #[trigger] after.index.contains_key(k) implies after.index[k]
            < after.slots.len() && after.slots[after.index[k] as int] == k by {
            if k != layout.slots[a as int] && k != layout.slots[b as int] {
                assert(layout.index.contains_key(k));
            }
        }
    }
}

/// A swap made twice leaves the layout as it was.
pub proof fn lemma_swap_twice(layout: LayoutModel, a: usize, b: usize)
    requires
        layout.is_bijection(),
        a < layout.slots.len(),
        b < layout.slots.len(),
    ensures
        layout.after_swap(a, b).after_swap(a, b) == layout,
{
    let twice = layout.after_swap(a, b).after_swap(a, b);
    assert(layout.index[layout.slots[a as int]] == a);
    assert(layout.index[layout.slots[b as int]] == b);
    assert(twice.slots =~= layout.slots);
    assert(twice.index =~= layout.index);
}

impl Clone for LogicalLayout {
    fn clone(&self) -> (r: Self)
        ensures
            r.same_as(*self),
    {
        let layout = self.layout.clone();
        assert(layout@ =~= self.layout@);
        LogicalLayout {
            layout,
            usable_chars: self.usable_chars.clone(),
            char_nums: self.char_nums,
        }
    }
}

} // verus!

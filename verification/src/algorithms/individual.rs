//! A candidate of the evolutionary search: a layout with its score, and the
//! operators that make new candidates from old ones.
//!
//! A score is a rank key: an integer that orders the layouts as their cost
//! does, a lower key for a cheaper layout.

use vstd::prelude::*;
use vstd::pervasive::unreached;
use std::collections::HashSet;
use rand::rngs::ThreadRng;
use crate::keyboard_layout::logical_layout::{
    is_cost_function, lemma_pigeonhole, spec_swapped, LayoutModel, LogicalLayout,
};
use crate::random::{choose_slot, fast_index, fast_u8};

verus! {

/// The number of mutation operators, doing nothing among them.
pub const MUTATION_KINDS: u8 = 4;

/// The most swaps that one random mutation makes.
pub const MAX_RANDOM_SWAPS: usize = 3;

/// The characters of `s` with those of the slots `start..end` in reverse
/// order.
pub open spec fn spec_reversed(s: Seq<char>, start: int, end: int) -> Seq<char> {
    Seq::new(
        s.len(),
        |i: int|
            if start <= i < end {
                s[start + end - 1 - i]
            } else {
                s[i]
            },
    )
}

/// The characters of `s` with those of the slots `start..end` moved down by
/// one slot, the first of them to the last slot of the range.
pub open spec fn spec_shifted(s: Seq<char>, start: int, end: int) -> Seq<char> {
    Seq::new(
        s.len(),
        |i: int|
            if start <= i < end - 1 {
                s[i + 1]
            } else if start <= i && i == end - 1 {
                s[start]
            } else {
                s[i]
            },
    )
}

/// The characters of `s` after the slots of each pair have been exchanged,
/// one pair after the other.
pub open spec fn spec_swaps(s: Seq<char>, pairs: Seq<(int, int)>) -> Seq<char>
    decreases pairs.len(),
{
    if pairs.len() == 0 {
        s
    } else {
        let (a, b) = pairs.last();
        spec_swapped(spec_swaps(s, pairs.drop_last()), a, b)
    }
}

/// `after` is `before` with a range of slots reversed.
pub open spec fn is_reversal_of(after: Seq<char>, before: Seq<char>) -> bool {
    exists|start: int, end: int|
        0 <= start <= end <= before.len() && after == #[trigger] spec_reversed(before, start, end)
}

/// `after` is `before` with a range of slots shifted by one.
pub open spec fn is_shift_of(after: Seq<char>, before: Seq<char>) -> bool {
    exists|start: int, end: int|
        0 <= start <= end <= before.len() && after == #[trigger] spec_shifted(before, start, end)
}

/// `after` is what a mutation makes of `before`: `before` itself, or
/// `before` with a range of slots reversed or shifted, or `before` after a
/// few exchanges of two slots.
pub open spec fn is_mutation_of(after: Seq<char>, before: Seq<char>) -> bool {
    after == before || is_reversal_of(after, before) || is_shift_of(after, before) || is_swaps_of(
        after,
        before,
    )
}

/// `after` is `before` after at least one and at most `MAX_RANDOM_SWAPS`
/// exchanges of two slots.
pub open spec fn is_swaps_of(after: Seq<char>, before: Seq<char>) -> bool {
    exists|pairs: Seq<(int, int)>|
        {
            &&& 1 <= pairs.len() <= MAX_RANDOM_SWAPS
            &&& forall|k: int|
                0 <= k < pairs.len() ==> 0 <= (#[trigger] pairs[k]).0 < before.len() && 0
                    <= pairs[k].1 < before.len()
            &&& after == #[trigger] spec_swaps(before, pairs)
        }
}

/// Two layouts that can be crossed: both assign the same characters to the
/// same number of slots, each character to one slot.
pub open spec fn compatible(a: LogicalLayout, b: LogicalLayout) -> bool {
    &&& a@.len() == b@.len()
    &&& a.is_bijection()
    &&& b.is_bijection()
    &&& a.alphabet() == b.alphabet()
}

/// What compatible layouts say of a character that one of them holds: both
/// hold it, each in the slot that its index records for it.
proof fn lemma_known(a: LogicalLayout, b: LogicalLayout, c: char)
    requires
        compatible(a, b),
        a@.contains(c),
    ensures
        b@.contains(c),
        a.index().contains_key(c),
        a.index()[c] < a@.len(),
        a@[a.index()[c] as int] == c,
        b.index().contains_key(c),
        b.index()[c] < a@.len(),
        b@[b.index()[c] as int] == c,
{
    let i = choose|i: int| 0 <= i < a@.len() && a@[i] == c;
    assert(a.index()[a@[i]] == i);
    assert(a.alphabet().contains(c));
    assert(b.alphabet().contains(c));
    let j = choose|j: int| 0 <= j < b@.len() && b@[j] == c;
    assert(b.index()[b@[j]] == j);
}

/// What compatible layouts say of the character of one slot: each layout
/// holds it where its index says.
proof fn lemma_compatible_slot(a: LogicalLayout, b: LogicalLayout, i: int)
    requires
        compatible(a, b),
        0 <= i < a@.len(),
    ensures
        a@.contains(a@[i]),
        a.index().contains_key(a@[i]),
        a.index()[a@[i]] == i,
        b.index().contains_key(a@[i]),
        b.index()[a@[i]] < a@.len(),
        b@[b.index()[a@[i]] as int] == a@[i],
{
    assert(a@.contains(a@[i]));
    lemma_known(a, b, a@[i]);
}

/// The slots as integers.
pub open spec fn as_ints(slots: Seq<usize>) -> Seq<int> {
    Seq::new(slots.len(), |k: int| slots[k] as int)
}

/// The walk is the cycle of slots that begins at `start`: each of its slots
/// is the one at which `a` holds the character that `b` holds at the slot
/// before, and the last one is the first at which `b` holds the character
/// that `a` holds at `start`.
pub open spec fn is_cycle(a: LogicalLayout, b: LogicalLayout, walk: Seq<usize>, start: usize) -> bool {
    &&& walk.len() > 0
    &&& walk[0] == start
    &&& forall|m: int| 0 <= m < walk.len() ==> #[trigger] walk[m] < a@.len()
    &&& forall|m: int|
        1 <= m < walk.len() ==> a@[#[trigger] walk[m] as int] == b@[walk[m - 1] as int]
    &&& forall|m: int| 0 <= m < walk.len() - 1 ==> b@[#[trigger] walk[m] as int] != a@[start as int]
    &&& b@[walk.last() as int] == a@[start as int]
}

/// The layout after each of the given slots has been set to the character
/// that `from` holds there, one slot after the other.
pub open spec fn spec_taken(child: LayoutModel, from: Seq<char>, slots: Seq<usize>) -> LayoutModel
    decreases slots.len(),
{
    if slots.len() == 0 {
        child
    } else {
        spec_taken(child, from, slots.drop_last()).after_put(
            slots.last(),
            from[slots.last() as int],
        )
    }
}

/// The child while cycles are copied: the slots in `done` and on `path` hold
/// what `b` holds there, the others what `a` holds, and the index follows
/// for every character that the parents hold.
spec fn crossed(
    child: LayoutModel,
    a: LogicalLayout,
    b: LogicalLayout,
    done: Set<int>,
    path: Seq<int>,
) -> bool {
    &&& child.slots.len() == a@.len()
    &&& forall|i: int|
        0 <= i < a@.len() ==> #[trigger] child.slots[i] == if done.contains(i) || path.contains(i) {
            b@[i]
        } else {
            a@[i]
        }
    &&& forall|c: char| #[trigger]
        a@.contains(c) ==> child.index.contains_key(c) && child.index[c] == if done.contains(
            a.index()[c] as int,
        ) || path.contains(b.index()[c] as int) {
            b.index()[c]
        } else {
            a.index()[c]
        }
}

/// The slots in `done` are whole cycles: a slot is among them exactly when
/// the slot is at which `a` holds the character that `b` holds there.  On
/// such slots `a` and `b` hold the same characters.
pub open spec fn whole_cycles(a: LogicalLayout, b: LogicalLayout, done: Set<int>) -> bool {
    forall|i: int|
        0 <= i < a@.len() ==> (done.contains(i) <==> done.contains(
            a.index()[#[trigger] b@[i]] as int,
        ))
}

/// The slots walked so far on the cycle that begins with the character
/// `start`: each is the slot at which `b` holds the character that `a` holds
/// at the slot before, and none has led back to `start` yet.
spec fn chain(a: LogicalLayout, b: LogicalLayout, path: Seq<int>, start: char) -> bool {
    &&& forall|m: int| 0 <= m < path.len() ==> 0 <= #[trigger] path[m] < a@.len()
    &&& path.len() > 0 ==> b@[path[0]] == start
    &&& forall|m: int| 1 <= m < path.len() ==> b@[#[trigger] path[m]] == a@[path[m - 1]]
    &&& forall|m: int| 0 <= m < path.len() ==> a@[#[trigger] path[m]] != start
    &&& path.no_duplicates()
}

/// The character that the walk has reached.
spec fn reached(a: LogicalLayout, path: Seq<int>, start: char) -> char {
    if path.len() == 0 {
        start
    } else {
        a@[path.last()]
    }
}

/// The next slot of a walk is a new one, so the walk is never longer than the
/// layout.
proof fn lemma_chain_next(a: LogicalLayout, b: LogicalLayout, path: Seq<int>, start: char)
    requires
        compatible(a, b),
        chain(a, b, path, start),
        a@.contains(start),
    ensures
        a@.contains(reached(a, path, start)),
        b.index().contains_key(reached(a, path, start)),
        b.index()[reached(a, path, start)] < a@.len(),
        b@[b.index()[reached(a, path, start)] as int] == reached(a, path, start),
        !path.contains(b.index()[reached(a, path, start)] as int),
        path.len() < a@.len(),
        a@[b.index()[reached(a, path, start)] as int] != start ==> chain(
            a,
            b,
            path.push(b.index()[reached(a, path, start)] as int),
            start,
        ),
{
    let cur = reached(a, path, start);
    if path.len() > 0 {
        lemma_compatible_slot(a, b, path.last());
    }
    lemma_known(a, b, cur);
    let slot = b.index()[cur] as int;
    if path.contains(slot) {
        let m = choose|m: int| 0 <= m < path.len() && path[m] == slot;
        if m == 0 {
            assert(a@[path.last()] != start);
        } else {
            assert(b@[path[m]] == a@[path[m - 1]]);
            lemma_compatible_slot(a, b, path[m - 1]);
            lemma_compatible_slot(a, b, path.last());
            assert(path[m - 1] == path.last());
        }
    }
    let longer = path.push(slot);
    assert(longer.no_duplicates());
    lemma_pigeonhole(longer, a@.len() as int);
    if a@[slot] != start {
        assert forall|m: int| 1 <= m < longer.len() implies b@[#[trigger] longer[m]] == a@[longer[m
            - 1]] by {
            if m < path.len() {
                assert(longer[m] == path[m]);
                assert(longer[m - 1] == path[m - 1]);
            }
        }
        assert forall|m: int| 0 <= m < longer.len() implies a@[#[trigger] longer[m]] != start by {
            if m < path.len() {
                assert(longer[m] == path[m]);
            }
        }
        if path.len() > 0 {
            assert(longer[0] == path[0]);
        }
    }
}

/// On the slots of a cycle `a` and `b` hold the same characters, and together
/// with whole cycles the slots of a cycle are whole cycles again.
proof fn lemma_cycle_closes(
    a: LogicalLayout,
    b: LogicalLayout,
    done: Set<int>,
    walk: Seq<usize>,
    start: usize,
)
    requires
        compatible(a, b),
        whole_cycles(a, b, done),
        is_cycle(a, b, walk, start),
    ensures
        forall|c: char| #[trigger]
            a@.contains(c) ==> (as_ints(walk).contains(a.index()[c] as int) <==> as_ints(
                walk,
            ).contains(b.index()[c] as int)),
        whole_cycles(a, b, done.union(as_ints(walk).to_set())),
{
    let full = as_ints(walk);
    let last = full.len() - 1;
    assert forall|m: int| 0 <= m < full.len() implies #[trigger] full[m] == walk[m] as int by {}
    assert forall|c: char| #[trigger] a@.contains(c) implies (full.contains(a.index()[c] as int)
        <==> full.contains(b.index()[c] as int)) by {
        lemma_known(a, b, c);
        if full.contains(a.index()[c] as int) {
            let m = choose|m: int| 0 <= m < full.len() && full[m] == a.index()[c] as int;
            assert(walk[m] == a.index()[c]);
            if m >= 1 {
                assert(a@[walk[m] as int] == b@[walk[m - 1] as int]);
                lemma_compatible_slot(b, a, walk[m - 1] as int);
                assert(full[m - 1] == b.index()[c] as int);
            } else {
                lemma_compatible_slot(b, a, walk[last] as int);
                assert(full[last] == b.index()[c] as int);
            }
        }
        if full.contains(b.index()[c] as int) {
            let m = choose|m: int| 0 <= m < full.len() && full[m] == b.index()[c] as int;
            assert(walk[m] == b.index()[c]);
            if m < last {
                assert(a@[walk[m + 1] as int] == b@[walk[m] as int]);
                lemma_compatible_slot(a, b, walk[m + 1] as int);
                assert(full[m + 1] == a.index()[c] as int);
            } else {
                lemma_compatible_slot(a, b, start as int);
                assert(full[0] == a.index()[c] as int);
            }
        }
    }
    let wider = done.union(full.to_set());
    assert forall|i: int| 0 <= i < a@.len() implies (wider.contains(i) <==> wider.contains(
        a.index()[#[trigger] b@[i]] as int,
    )) by {
        lemma_compatible_slot(b, a, i);
        let c = b@[i];
        lemma_known(b, a, c);
        assert(a@.contains(c));
        assert(full.to_set().contains(i) <==> full.contains(i));
        assert(full.to_set().contains(a.index()[c] as int) <==> full.contains(a.index()[c] as int));
    }
}

/// Copying one more slot from `b` keeps the child as described.
proof fn lemma_crossed_step(
    before: LayoutModel,
    a: LogicalLayout,
    b: LogicalLayout,
    done: Set<int>,
    path: Seq<int>,
    slot: usize,
)
    requires
        compatible(a, b),
        crossed(before, a, b, done, path),
        slot < a@.len(),
    ensures
        crossed(before.after_put(slot, b@[slot as int]), a, b, done, path.push(slot as int)),
{
    let cur = b@[slot as int];
    let after = before.after_put(slot, cur);
    lemma_compatible_slot(b, a, slot as int);
    lemma_known(b, a, cur);
    let longer = path.push(slot as int);
    assert(longer[path.len() as int] == slot);
    assert forall|i: int| longer.contains(i) <==> (path.contains(i) || i == slot) by {
        if path.contains(i) {
            let m = choose|m: int| 0 <= m < path.len() && path[m] == i;
            assert(longer[m] == i);
        }
        if longer.contains(i) {
            let m = choose|m: int| 0 <= m < longer.len() && longer[m] == i;
            if m < path.len() {
                assert(path[m] == i);
            }
        }
    }
    assert forall|c: char| #[trigger] a@.contains(c) implies after.index.contains_key(c)
        && after.index[c] == if done.contains(a.index()[c] as int) || longer.contains(
        b.index()[c] as int,
    ) {
        b.index()[c]
    } else {
        a.index()[c]
    } by {
        lemma_known(a, b, c);
    }
}

/// Copying the slots of a walk from `b`, one after the other, keeps the child
/// as described.
proof fn lemma_crossed_walk(
    child: LayoutModel,
    a: LogicalLayout,
    b: LogicalLayout,
    done: Set<int>,
    walk: Seq<usize>,
)
    requires
        compatible(a, b),
        crossed(child, a, b, done, Seq::<int>::empty()),
        forall|m: int| 0 <= m < walk.len() ==> #[trigger] walk[m] < a@.len(),
    ensures
        crossed(spec_taken(child, b@, walk), a, b, done, as_ints(walk)),
    decreases walk.len(),
{
    if walk.len() == 0 {
        assert(as_ints(walk) =~= Seq::<int>::empty());
    } else {
        let shorter = walk.drop_last();
        assert forall|m: int| 0 <= m < shorter.len() implies #[trigger] shorter[m] < a@.len() by {
            assert(shorter[m] == walk[m]);
        }
        lemma_crossed_walk(child, a, b, done, shorter);
        assert(walk[walk.len() - 1] < a@.len());
        lemma_crossed_step(spec_taken(child, b@, shorter), a, b, done, as_ints(shorter), walk.last());
        assert(as_ints(walk) =~= as_ints(shorter).push(walk.last() as int));
    }
}

/// Once the walk is a whole cycle, its slots count among those done.
proof fn lemma_crossed_closes(
    child: LayoutModel,
    a: LogicalLayout,
    b: LogicalLayout,
    done: Set<int>,
    full: Seq<int>,
)
    requires
        crossed(child, a, b, done, full),
        forall|c: char| #[trigger]
            a@.contains(c) ==> (full.contains(a.index()[c] as int) <==> full.contains(
                b.index()[c] as int,
            )),
    ensures
        crossed(child, a, b, done.union(full.to_set()), Seq::<int>::empty()),
{
    let wider = done.union(full.to_set());
    let none = Seq::<int>::empty();
    assert forall|i: int| wider.contains(i) <==> (done.contains(i) || full.contains(i)) by {
        assert(full.to_set().contains(i) <==> full.contains(i));
    }
    assert forall|i: int| !none.contains(i) by {}
}

/// A child made of whole cycles assigns each character of its parents to one
/// slot again.
proof fn lemma_crossed_is_bijection(
    child: LayoutModel,
    a: LogicalLayout,
    b: LogicalLayout,
    done: Set<int>,
)
    requires
        compatible(a, b),
        whole_cycles(a, b, done),
        crossed(child, a, b, done, Seq::<int>::empty()),
    ensures
        child.is_bijection(),
        child.slots.to_set() == a.alphabet(),
        forall|i: int|
            0 <= i < child.slots.len() ==> #[trigger] child.slots[i] == if done.contains(i) {
                b@[i]
            } else {
                a@[i]
            },
{
    let none = Seq::<int>::empty();
    assert forall|i: int| !none.contains(i) by {}
    assert forall|i: int| 0 <= i < child.slots.len() implies child.index.contains_key(
        #[trigger] child.slots[i],
    ) && child.index[child.slots[i]] == i by {
        lemma_compatible_slot(a, b, i);
        lemma_compatible_slot(b, a, i);
        if done.contains(i) {
            let c = b@[i];
            lemma_known(b, a, c);
            assert(a@.contains(c));
        } else {
            let c = a@[i];
            assert(a@.contains(c));
        }
    }
    assert forall|c: char| child.slots.contains(c) <==> a@.contains(c) by {
        if child.slots.contains(c) {
            let i = choose|i: int| 0 <= i < child.slots.len() && child.slots[i] == c;
            lemma_compatible_slot(a, b, i);
            lemma_compatible_slot(b, a, i);
            lemma_known(b, a, b@[i]);
        }
        if a@.contains(c) {
            lemma_known(a, b, c);
            let j = a.index()[c] as int;
            if done.contains(j) {
                let k = b.index()[c] as int;
                assert(b@[k] == c);
                assert(done.contains(k) <==> done.contains(a.index()[b@[k]] as int));
                assert(child.slots[k] == c);
            } else {
                assert(child.slots[j] == c);
            }
        }
    }
    assert(child.slots.to_set() =~= a.alphabet());
}

/// Where the index of the first parent is exact, so is that of a child made
/// of whole cycles that knows the same characters.
proof fn lemma_crossed_is_exact(child: LayoutModel, a: LogicalLayout, b: LogicalLayout, done: Set<int>)
    requires
        compatible(a, b),
        whole_cycles(a, b, done),
        crossed(child, a, b, done, Seq::<int>::empty()),
        child.index.dom() == a.index().dom(),
        a.is_exact(),
    ensures
        child.is_exact(),
{
    let none = Seq::<int>::empty();
    assert forall|i: int| !none.contains(i) by {}
    assert forall|c: char| #[trigger] child.index.contains_key(c) implies child.index[c]
        < child.slots.len() && child.slots[child.index[c] as int] == c by {
        assert(child.index.dom().contains(c));
        assert(a.index().contains_key(c));
        assert(a@[a.index()[c] as int] == c);
        assert(a@.contains(c));
        lemma_known(a, b, c);
        let j = a.index()[c] as int;
        if done.contains(j) {
            let k = b.index()[c] as int;
            assert(b@[k] == c);
            assert(done.contains(k) <==> done.contains(a.index()[b@[k]] as int));
            assert(child.slots[k] == c);
        } else {
            assert(child.slots[j] == c);
        }
    }
}

/// Copying slots from `b` brings no new character into the index of the
/// child.
proof fn lemma_taken_dom(child: LayoutModel, a: LogicalLayout, b: LogicalLayout, walk: Seq<usize>)
    requires
        compatible(a, b),
        child.index.dom() == a.index().dom(),
        forall|m: int| 0 <= m < walk.len() ==> #[trigger] walk[m] < a@.len(),
    ensures
        spec_taken(child, b@, walk).index.dom() == a.index().dom(),
    decreases walk.len(),
{
    if walk.len() > 0 {
        let shorter = walk.drop_last();
        assert forall|m: int| 0 <= m < shorter.len() implies #[trigger] shorter[m] < a@.len() by {
            assert(shorter[m] == walk[m]);
        }
        lemma_taken_dom(child, a, b, shorter);
        assert(walk[walk.len() - 1] < a@.len());
        lemma_compatible_slot(b, a, walk.last() as int);
        let before = spec_taken(child, b@, shorter);
        assert(before.index.contains_key(b@[walk.last() as int]));
        assert(before.after_put(walk.last(), b@[walk.last() as int]).index.dom() =~= before.index.dom());
    }
}

/// One of the walks passes the slot.
pub open spec fn on_walks(walks: Seq<Seq<usize>>, slot: usize) -> bool {
    exists|j: int| 0 <= j < walks.len() && (#[trigger] walks[j]).contains(slot)
}

/// One of the walks that are taken passes the slot.
pub open spec fn on_taken(walks: Seq<Seq<usize>>, taken: Seq<bool>, slot: int) -> bool {
    exists|j: int| 0 <= j < walks.len() && #[trigger] taken[j] && as_ints(walks[j]).contains(slot)
}

/// The number of items that are true.
pub open spec fn spec_count_true(items: Seq<bool>) -> nat
    decreases items.len(),
{
    if items.len() == 0 {
        0
    } else if items.last() {
        spec_count_true(items.drop_last()) + 1
    } else {
        spec_count_true(items.drop_last())
    }
}

/// What a crossing makes of the start slots, taken in their order.  Each has
/// its cycle.  A start slot is fresh where no cycle of a start slot before it
/// passes it; the others are passed over.  The cycle of the first fresh start
/// slot is kept, that of the second is taken, and so on in turn.
pub open spec fn crossing(
    a: LogicalLayout,
    b: LogicalLayout,
    starts: Seq<usize>,
    walks: Seq<Seq<usize>>,
    fresh: Seq<bool>,
    taken: Seq<bool>,
) -> bool {
    &&& walks.len() == starts.len()
    &&& fresh.len() == starts.len()
    &&& taken.len() == starts.len()
    &&& forall|k: int| 0 <= k < starts.len() ==> is_cycle(a, b, #[trigger] walks[k], starts[k])
    &&& forall|k: int|
        0 <= k < starts.len() ==> (#[trigger] fresh[k] <==> !on_walks(walks.take(k), starts[k]))
    &&& forall|k: int|
        0 <= k < starts.len() ==> (#[trigger] taken[k] <==> fresh[k] && spec_count_true(
            fresh.take(k),
        ) % 2 == 1)
}

/// The child is what the crossing of `a` and `b` from the given start slots
/// gives: it holds what `b` holds on the cycles that are taken, and what `a`
/// holds everywhere else.
pub open spec fn is_cross_of(child: Seq<char>, a: LogicalLayout, b: LogicalLayout, starts: Seq<usize>) -> bool {
    exists|walks: Seq<Seq<usize>>, fresh: Seq<bool>, taken: Seq<bool>|
        {
            &&& #[trigger] crossing(a, b, starts, walks, fresh, taken)
            &&& child.len() == a@.len()
            &&& forall|i: int|
                0 <= i < a@.len() ==> #[trigger] child[i] == if on_taken(walks, taken, i) {
                    b@[i]
                } else {
                    a@[i]
                }
        }
}

/// The slot is the one at which `a` holds one of the usable characters.
pub open spec fn is_usable_slot(a: LogicalLayout, usable_chars: Seq<char>, slot: usize) -> bool {
    exists|u: int| 0 <= u < usable_chars.len() && a.index()[#[trigger] usable_chars[u]] == slot
}

/// The start slots are the slots of the usable characters, each once, in
/// some order.
pub open spec fn is_order_of(starts: Seq<usize>, a: LogicalLayout, usable_chars: Seq<char>) -> bool {
    &&& starts.no_duplicates()
    &&& forall|slot: usize| starts.contains(slot) <==> is_usable_slot(a, usable_chars, slot)
}

/// The child holds what the crossing of `a` and `b` gives for the slots of
/// the usable characters in some order.
pub open spec fn is_crossover_of(
    child: Seq<char>,
    a: LogicalLayout,
    b: LogicalLayout,
    usable_chars: Seq<char>,
) -> bool {
    exists|starts: Seq<usize>|
        is_order_of(starts, a, usable_chars) && #[trigger] is_cross_of(child, a, b, starts)
}

/// One more start slot in a crossing.
proof fn lemma_crossing_push(
    a: LogicalLayout,
    b: LogicalLayout,
    starts: Seq<usize>,
    walks: Seq<Seq<usize>>,
    fresh: Seq<bool>,
    taken: Seq<bool>,
    start: usize,
    walk: Seq<usize>,
)
    requires
        crossing(a, b, starts, walks, fresh, taken),
        is_cycle(a, b, walk, start),
    ensures
        crossing(
            a,
            b,
            starts.push(start),
            walks.push(walk),
            fresh.push(!on_walks(walks, start)),
            taken.push(!on_walks(walks, start) && spec_count_true(fresh) % 2 == 1),
        ),
        spec_count_true(fresh.push(!on_walks(walks, start))) == spec_count_true(fresh) + if on_walks(
            walks,
            start,
        ) {
            0nat
        } else {
            1nat
        },
        forall|slot: usize|
            on_walks(walks.push(walk), slot) <==> on_walks(walks, slot) || walk.contains(slot),
        forall|slot: int|
            on_taken(
                walks.push(walk),
                taken.push(!on_walks(walks, start) && spec_count_true(fresh) % 2 == 1),
                slot,
            ) <==> on_taken(walks, taken, slot) || (!on_walks(walks, start) && spec_count_true(fresh)
                % 2 == 1 && as_ints(walk).contains(slot)),
{
    let is_new = !on_walks(walks, start);
    let is_taken = is_new && spec_count_true(fresh) % 2 == 1;
    let starts2 = starts.push(start);
    let walks2 = walks.push(walk);
    let fresh2 = fresh.push(is_new);
    let taken2 = taken.push(is_taken);
    let n = starts.len() as int;
    assert(fresh2.drop_last() =~= fresh);
    assert forall|k: int| 0 <= k < starts2.len() implies is_cycle(a, b, #[trigger] walks2[k], starts2[k]) by {
        if k < n {
            assert(walks2[k] == walks[k]);
        }
    }
    assert forall|k: int| 0 <= k < starts2.len() implies (#[trigger] fresh2[k] <==> !on_walks(
        walks2.take(k),
        starts2[k],
    )) by {
        if k < n {
            assert(walks2.take(k) =~= walks.take(k));
            assert(fresh2[k] == fresh[k]);
        } else {
            assert(walks2.take(k) =~= walks);
        }
    }
    assert forall|k: int| 0 <= k < starts2.len() implies (#[trigger] taken2[k] <==> fresh2[k]
        && spec_count_true(fresh2.take(k)) % 2 == 1) by {
        if k < n {
            assert(fresh2.take(k) =~= fresh.take(k));
            assert(taken2[k] == taken[k]);
            assert(fresh2[k] == fresh[k]);
        } else {
            assert(fresh2.take(k) =~= fresh);
        }
    }
    assert forall|slot: usize| on_walks(walks2, slot) <==> on_walks(walks, slot) || walk.contains(
        slot,
    ) by {
        if on_walks(walks, slot) {
            let j = choose|j: int| 0 <= j < walks.len() && (#[trigger] walks[j]).contains(slot);
            assert(walks2[j].contains(slot));
        }
        if walk.contains(slot) {
            assert(walks2[n].contains(slot));
        }
        if on_walks(walks2, slot) {
            let j = choose|j: int| 0 <= j < walks2.len() && (#[trigger] walks2[j]).contains(slot);
            if j < n {
                assert(walks[j].contains(slot));
            }
        }
    }
    assert forall|slot: int| on_taken(walks2, taken2, slot) <==> on_taken(walks, taken, slot) || (
    is_taken && as_ints(walk).contains(slot)) by {
        if on_taken(walks, taken, slot) {
            let j = choose|j: int|
                0 <= j < walks.len() && #[trigger] taken[j] && as_ints(walks[j]).contains(slot);
            assert(taken2[j] && as_ints(walks2[j]).contains(slot));
        }
        if is_taken && as_ints(walk).contains(slot) {
            assert(taken2[n] && as_ints(walks2[n]).contains(slot));
        }
        if on_taken(walks2, taken2, slot) {
            let j = choose|j: int|
                0 <= j < walks2.len() && #[trigger] taken2[j] && as_ints(walks2[j]).contains(slot);
            if j < n {
                assert(taken[j] && as_ints(walks[j]).contains(slot));
            }
        }
    }
}

/// The cycle of slots that begins at `start_slot`, in the order of the walk:
/// from each slot to the one at which `first` holds the character that
/// `second` holds there, until `second` holds the character that `first`
/// holds at `start_slot`.
pub fn cycle_slots(first: &LogicalLayout, second: &LogicalLayout, start_slot: usize) -> (walk: Vec<
    usize,
>)
    requires
        compatible(*first, *second),
        start_slot < first@.len(),
    ensures
        is_cycle(*first, *second, walk@, start_slot),
        walk@.no_duplicates(),
{
    let start_char = first.get(start_slot);
    let mut walk: Vec<usize> = Vec::new();
    let mut slot = start_slot;
    let ghost mut path: Seq<int> = Seq::empty();
    proof {
        lemma_compatible_slot(*first, *second, start_slot as int);
        lemma_known(*first, *second, start_char);
        assert(as_ints(walk@) =~= path);
    }
    loop
        invariant_except_break
            as_ints(walk@) == path,
        invariant
            compatible(*first, *second),
            start_slot < first@.len(),
            start_char == first@[start_slot as int],
            first@.contains(start_char),
            second@.contains(start_char),
            chain(*second, *first, path, start_char),
            slot == first.index()[reached(*second, path, start_char)],
        ensures
            is_cycle(*first, *second, walk@, start_slot),
            walk@.no_duplicates(),
        decreases first@.len() - path.len(),
    {
        proof {
            lemma_chain_next(*second, *first, path, start_char);
        }
        let ghost passed = walk@;
        walk.push(slot);
        let other_char = second.get(slot);
        if other_char == start_char {
            proof {
                let full = walk@;
                assert forall|m: int| 0 <= m < passed.len() implies full[m] == passed[m]
                    && passed[m] as int == path[m] by {
                    assert(as_ints(passed)[m] == passed[m] as int);
                }
                assert(full[0] == start_slot) by {
                    if path.len() > 0 {
                        lemma_compatible_slot(*first, *second, path[0]);
                    }
                }
                assert forall|m: int| 1 <= m < full.len() implies first@[#[trigger] full[m] as int]
                    == second@[full[m - 1] as int] by {
                    if m < path.len() {
                        assert(first@[path[m]] == second@[path[m - 1]]);
                    }
                }
                assert forall|m: int| 0 <= m < full.len() - 1 implies second@[#[trigger] full[m] as int]
                    != first@[start_slot as int] by {
                    assert(second@[path[m]] != start_char);
                }
                assert forall|x: int, y: int|
                    0 <= x < full.len() && 0 <= y < full.len() && x != y implies full[x]
                    != full[y] by {
                    if x < path.len() && y < path.len() {
                        assert(path[x] != path[y]);
                    } else if x < path.len() {
                        assert(path.contains(path[x]));
                    } else {
                        assert(path.contains(path[y]));
                    }
                }
            }
            break ;
        }
        proof {
            path = path.push(slot as int);
            assert(as_ints(walk@) =~= path) by {
                assert forall|m: int| 0 <= m < walk@.len() implies as_ints(walk@)[m] == path[m] by {
                    if m < passed.len() {
                        assert(as_ints(passed)[m] == passed[m] as int);
                    }
                }
            }
            lemma_chain_next(*second, *first, path, start_char);
        }
        slot = first.get_char_index(other_char);
    }
    walk
}

/// Writes into each of the given slots of the child the character that
/// `from` holds there, whatever the slot held.  Where the slots are whole
/// cycles of the two layouts, the child holds every character once as
/// before; a part of a cycle leaves a character in two slots.
pub fn take_slots(child: &mut LogicalLayout, from: &LogicalLayout, slots: &Vec<usize>)
    requires
        forall|k: int|
            0 <= k < slots@.len() ==> #[trigger] slots@[k] < old(child)@.len() && slots@[k]
                < from@.len(),
    ensures
        final(child).model() == spec_taken(old(child).model(), from@, slots@),
        final(child).spec_char_nums() == old(child).spec_char_nums(),
{
    let mut k: usize = 0;
    proof {
        assert(slots@.take(0) =~= Seq::<usize>::empty());
    }
    while k < slots.len()
        invariant
            k <= slots@.len(),
            child@.len() == old(child)@.len(),
            child.spec_char_nums() == old(child).spec_char_nums(),
            forall|j: int|
                0 <= j < slots@.len() ==> #[trigger] slots@[j] < old(child)@.len() && slots@[j]
                    < from@.len(),
            child.model() == spec_taken(old(child).model(), from@, slots@.take(k as int)),
        decreases slots@.len() - k,
    {
        let slot = slots[k];
        child.put(slot, from.get(slot));
        proof {
            let longer = slots@.take(k + 1);
            assert(longer.drop_last() =~= slots@.take(k as int));
            assert(longer.last() == slot);
        }
        k += 1;
    }
    proof {
        assert(slots@.take(k as int) =~= slots@);
    }
}

/// Takes a slot out of the set, drawn at random.
fn rand_pop(set: &mut HashSet<usize>, rng: &mut ThreadRng) -> (r: usize)
    requires
        !old(set)@.is_empty(),
    ensures
        old(set)@.contains(r),
        final(set)@ == old(set)@.remove(r),
{
    match choose_slot(set, rng) {
        Some(slot) => {
            set.remove(&slot);
            slot
        },
        None => unreached(),
    }
}

/// Puts the given slots into the set.
fn insert_all(set: &mut HashSet<usize>, slots: &Vec<usize>)
    ensures
        forall|slot: usize| #[trigger]
            final(set)@.contains(slot) <==> old(set)@.contains(slot) || slots@.contains(slot),
{
    let mut k: usize = 0;
    while k < slots.len()
        invariant
            k <= slots@.len(),
            forall|slot: usize| #[trigger]
                set@.contains(slot) <==> old(set)@.contains(slot) || slots@.take(k as int).contains(
                    slot,
                ),
        decreases slots@.len() - k,
    {
        let ghost before = set@;
        set.insert(slots[k]);
        proof {
            let shorter = slots@.take(k as int);
            let longer = slots@.take(k + 1);
            assert forall|slot: usize| longer.contains(slot) <==> shorter.contains(slot) || slot
                == slots@[k as int] by {
                if shorter.contains(slot) {
                    let m = choose|m: int| 0 <= m < shorter.len() && shorter[m] == slot;
                    assert(longer[m] == slot);
                }
                if slot == slots@[k as int] {
                    assert(longer[k as int] == slot);
                }
                if longer.contains(slot) {
                    let m = choose|m: int| 0 <= m < longer.len() && longer[m] == slot;
                    if m < k {
                        assert(shorter[m] == slot);
                    }
                }
            }
        }
        k += 1;
    }
    proof {
        assert(slots@.take(k as int) =~= slots@);
    }
}

/// The score of the individual is one that `evaluate` may return for its
/// layout.
pub open spec fn scored<E: Fn(&LogicalLayout) -> u32>(evaluate: E, individual: Individual) -> bool {
    evaluate.ensures((&individual.spec_layout(),), individual.spec_score())
}

/// A layout with the score it had when it was last evaluated.
#[derive(Debug)]
pub struct Individual {
    layout: LogicalLayout,
    score: u32,
}

impl Individual {
    /// The layout of the individual.
    pub closed spec fn spec_layout(&self) -> LogicalLayout {
        self.layout
    }

    /// The score of the individual.
    pub closed spec fn spec_score(&self) -> u32 {
        self.score
    }

    /// True when the layout assigns each of its characters to one slot.
    pub open spec fn wf(&self) -> bool {
        self.spec_layout().is_bijection()
    }

    /// Both hold the same characters in the same slots, with the same index
    /// and the same score.
    pub open spec fn same_as(&self, other: Individual) -> bool {
        &&& self.spec_layout().same_as(other.spec_layout())
        &&& self.spec_score() == other.spec_score()
    }

    /// An individual that has not been evaluated; its score is zero.
    pub fn new(layout: LogicalLayout) -> (r: Self)
        ensures
            r.spec_layout() == layout,
            r.spec_score() == 0,
    {
        Self { layout, score: 0 }
    }

    pub fn score(&self) -> (r: u32)
        ensures
            r == self.spec_score(),
    {
        self.score
    }

    /// Records the score that the caller has worked out for the layout.
    pub fn set_score(&mut self, score: u32)
        ensures
            final(self).spec_score() == score,
            final(self).spec_layout() == old(self).spec_layout(),
    {
        self.score = score;
    }

    /// Works the score of the layout out anew.
    pub fn evaluate<E: Fn(&LogicalLayout) -> u32>(&mut self, cost: &E)
        requires
            is_cost_function(*cost),
        ensures
            final(self).spec_layout() == old(self).spec_layout(),
            scored(*cost, *final(self)),
    {
        self.score = cost(&self.layout);
    }

    /// The layout of the individual.
    pub fn logical_layout(&self) -> (r: &LogicalLayout)
        ensures
            *r == self.spec_layout(),
    {
        &self.layout
    }

    /// The characters of the layout, slot by slot.
    pub fn layout(&self) -> (r: Vec<char>)
        ensures
            r@ == self.spec_layout()@,
    {
        self.layout.clone().output()
    }

    /// Reverses the characters of the slots `start..end`.
    pub fn reverse_range(&mut self, start: usize, end: usize)
        requires
            start <= end <= old(self).spec_layout()@.len(),
            old(self).wf(),
        ensures
            final(self).spec_layout()@ == spec_reversed(
                old(self).spec_layout()@,
                start as int,
                end as int,
            ),
            final(self).wf(),
            old(self).spec_layout().is_exact() ==> final(self).spec_layout().is_exact(),
            final(self).spec_layout().alphabet() == old(self).spec_layout().alphabet(),
            final(self).spec_layout().spec_char_nums() == old(self).spec_layout().spec_char_nums(),
            final(self).spec_score() == old(self).spec_score(),
    {
        let mut lo = start;
        let mut hi = end;
        while hi - lo > 1
            invariant
                start <= lo <= hi <= end <= self.layout@.len(),
                lo - start == end - hi,
                self.layout@.len() == old(self).layout@.len(),
                self.layout.is_bijection(),
                old(self).layout.is_exact() ==> self.layout.is_exact(),
                self.layout.alphabet() == old(self).layout.alphabet(),
                self.layout.spec_char_nums() == old(self).layout.spec_char_nums(),
                self.score == old(self).score,
                forall|i: int|
                    0 <= i < self.layout@.len() ==> #[trigger] self.layout@[i] == if lo <= i < hi {
                        old(self).layout@[i]
                    } else {
                        spec_reversed(old(self).layout@, start as int, end as int)[i]
                    },
            decreases hi - lo,
        {
            self.layout.swap(lo, hi - 1);
            lo += 1;
            hi -= 1;
        }
        assert(self.layout@ =~= spec_reversed(old(self).layout@, start as int, end as int));
    }

    /// Moves the characters of the slots `start..end` down by one slot, and
    /// the first of them to the last slot of the range.
    pub fn shift_range(&mut self, start: usize, end: usize)
        requires
            start <= end <= old(self).spec_layout()@.len(),
            old(self).wf(),
        ensures
            final(self).spec_layout()@ == spec_shifted(
                old(self).spec_layout()@,
                start as int,
                end as int,
            ),
            final(self).wf(),
            old(self).spec_layout().is_exact() ==> final(self).spec_layout().is_exact(),
            final(self).spec_layout().alphabet() == old(self).spec_layout().alphabet(),
            final(self).spec_layout().spec_char_nums() == old(self).spec_layout().spec_char_nums(),
            final(self).spec_score() == old(self).spec_score(),
    {
        let mut i = start;
        while end - i > 1
            invariant
                start <= i <= end <= self.layout@.len(),
                start < end ==> i < end,
                self.layout@.len() == old(self).layout@.len(),
                self.layout.is_bijection(),
                old(self).layout.is_exact() ==> self.layout.is_exact(),
                self.layout.alphabet() == old(self).layout.alphabet(),
                self.layout.spec_char_nums() == old(self).layout.spec_char_nums(),
                self.score == old(self).score,
                forall|k: int|
                    0 <= k < self.layout@.len() ==> #[trigger] self.layout@[k] == if start <= k < i {
                        old(self).layout@[k + 1]
                    } else if k == i && start < end {
                        old(self).layout@[start as int]
                    } else {
                        old(self).layout@[k]
                    },
            decreases end - i,
        {
            self.layout.swap(i, i + 1);
            i += 1;
        }
        assert(self.layout@ =~= spec_shifted(old(self).layout@, start as int, end as int));
    }

    /// A child of `self` and `other`.  The slots fall into cycles, on each of
    /// which the two parents hold the same characters.  The slots of the
    /// usable characters are taken in random order, and the child is crossed
    /// from the parents in that order: it keeps the first cycle from `self`,
    /// takes the second from `other`, and so on in turn.  Slots that no
    /// usable character leads to stay as `self` has them.
    pub fn cyclic_crossover(&self, other: &Self, usable_chars: &Vec<char>, rng: &mut ThreadRng) -> (child:
        Self)
        requires
            compatible(self.spec_layout(), other.spec_layout()),
            forall|k: int|
                0 <= k < usable_chars@.len() ==> self.spec_layout().alphabet().contains(
                    #[trigger] usable_chars@[k],
                ),
        ensures
            is_crossover_of(
                child.spec_layout()@,
                self.spec_layout(),
                other.spec_layout(),
                usable_chars@,
            ),
            child.wf(),
            child.spec_layout()@.len() == self.spec_layout()@.len(),
            child.spec_layout().alphabet() == self.spec_layout().alphabet(),
            self.spec_layout().is_exact() ==> child.spec_layout().is_exact(),
            forall|i: int|
                0 <= i < child.spec_layout()@.len() ==> #[trigger] child.spec_layout()@[i]
                    == self.spec_layout()@[i] || child.spec_layout()@[i] == other.spec_layout()@[i],
            child.spec_layout().spec_char_nums() == self.spec_layout().spec_char_nums(),
            child.spec_score() == 0,
    {
        let mut remaining: HashSet<usize> = HashSet::new();
        let mut k: usize = 0;
        while k < usable_chars.len()
            invariant
                k <= usable_chars.len(),
                compatible(self.layout, other.layout),
                forall|j: int|
                    0 <= j < usable_chars@.len() ==> self.layout.alphabet().contains(
                        #[trigger] usable_chars@[j],
                    ),
                remaining@.finite(),
                forall|slot: usize|
                    remaining@.contains(slot) <==> is_usable_slot(
                        self.layout,
                        usable_chars@.take(k as int),
                        slot,
                    ),
                forall|slot: usize| #[trigger] remaining@.contains(slot) ==> slot < self.layout@.len(),
            decreases usable_chars.len() - k,
        {
            proof {
                assert(self.layout.alphabet().contains(usable_chars@[k as int]));
                lemma_known(self.layout, other.layout, usable_chars@[k as int]);
            }
            let slot = self.layout.get_char_index(usable_chars[k]);
            remaining.insert(slot);
            proof {
                let shorter = usable_chars@.take(k as int);
                let longer = usable_chars@.take(k + 1);
                assert forall|s: usize|
                    is_usable_slot(self.layout, longer, s) <==> is_usable_slot(self.layout, shorter, s)
                        || s == slot by {
                    if is_usable_slot(self.layout, shorter, s) {
                        let u = choose|u: int|
                            0 <= u < shorter.len() && self.layout.index()[#[trigger] shorter[u]] == s;
                        assert(longer[u] == shorter[u]);
                    }
                    if s == slot {
                        assert(longer[k as int] == usable_chars@[k as int]);
                    }
                    if is_usable_slot(self.layout, longer, s) {
                        let u = choose|u: int|
                            0 <= u < longer.len() && self.layout.index()[#[trigger] longer[u]] == s;
                        if u < k {
                            assert(shorter[u] == longer[u]);
                        }
                    }
                }
            }
            k += 1;
        }
        proof {
            assert(usable_chars@.take(k as int) =~= usable_chars@);
        }
        let ghost usable_slots = remaining@;
        let mut starts: Vec<usize> = Vec::new();
        while !remaining.is_empty()
            invariant
                remaining@.finite(),
                starts@.no_duplicates(),
                forall|slot: usize|
                    usable_slots.contains(slot) <==> remaining@.contains(slot) || starts@.contains(
                        slot,
                    ),
                forall|slot: usize| starts@.contains(slot) ==> !remaining@.contains(slot),
                forall|slot: usize| #[trigger] usable_slots.contains(slot) ==> slot < self.layout@.len(),
            decreases remaining@.len(),
        {
            let ghost before = starts@;
            let start_slot = rand_pop(&mut remaining, rng);
            starts.push(start_slot);
            proof {
                assert forall|slot: usize| starts@.contains(slot) <==> before.contains(slot) || slot
                    == start_slot by {
                    if before.contains(slot) {
                        let m = choose|m: int| 0 <= m < before.len() && before[m] == slot;
                        assert(starts@[m] == slot);
                    }
                    if slot == start_slot {
                        assert(starts@[before.len() as int] == slot);
                    }
                    if starts@.contains(slot) {
                        let m = choose|m: int| 0 <= m < starts@.len() && starts@[m] == slot;
                        if m < before.len() {
                            assert(before[m] == slot);
                        }
                    }
                }
                assert(!before.contains(start_slot));
            }
        }
        proof {
            assert forall|m: int| 0 <= m < starts@.len() implies #[trigger] starts@[m]
                < self.layout@.len() by {
                assert(starts@.contains(starts@[m]));
                assert(usable_slots.contains(starts@[m]));
            }
            assert forall|slot: usize| starts@.contains(slot) <==> is_usable_slot(
                self.layout,
                usable_chars@,
                slot,
            ) by {
                assert(!remaining@.contains(slot));
                assert(usable_slots.contains(slot) <==> starts@.contains(slot));
            }
            assert(is_order_of(starts@, self.layout, usable_chars@));
        }
        self.cross_in_order(other, &starts)
    }

    /// The child of `self` and `other` that the given start slots make, taken
    /// in their order.  A start slot that lies on the cycle of a start slot
    /// before it is passed over.  Of the others, the child keeps the cycle of
    /// the first from `self`, takes the cycle of the second from `other`, and
    /// so on in turn.  Slots on no such cycle stay as `self` has them.
    pub fn cross_in_order(&self, other: &Self, starts: &Vec<usize>) -> (child: Self)
        requires
            compatible(self.spec_layout(), other.spec_layout()),
            forall|k: int| 0 <= k < starts@.len() ==> #[trigger] starts@[k] < self.spec_layout()@.len(),
        ensures
            is_cross_of(child.spec_layout()@, self.spec_layout(), other.spec_layout(), starts@),
            child.wf(),
            child.spec_layout()@.len() == self.spec_layout()@.len(),
            child.spec_layout().alphabet() == self.spec_layout().alphabet(),
            self.spec_layout().is_exact() ==> child.spec_layout().is_exact(),
            forall|i: int|
                0 <= i < child.spec_layout()@.len() ==> #[trigger] child.spec_layout()@[i]
                    == self.spec_layout()@[i] || child.spec_layout()@[i] == other.spec_layout()@[i],
            child.spec_layout().spec_char_nums() == self.spec_layout().spec_char_nums(),
            child.spec_score() == 0,
    {
        let mut new_layout = self.layout.clone();
        let mut visited: HashSet<usize> = HashSet::new();
        let mut take = false;
        let ghost mut done: Set<int> = Set::empty();
        let ghost mut walks: Seq<Seq<usize>> = Seq::empty();
        let ghost mut fresh: Seq<bool> = Seq::empty();
        let ghost mut taken: Seq<bool> = Seq::empty();
        let mut k: usize = 0;
        proof {
            assert forall|c: char| #[trigger] self.layout@.contains(c) implies new_layout.index().contains_key(
                c,
            ) by {
                lemma_known(self.layout, other.layout, c);
            }
            assert(starts@.take(0) =~= Seq::<usize>::empty());
        }
        while k < starts.len()
            invariant
                k <= starts@.len(),
                compatible(self.layout, other.layout),
                forall|j: int| 0 <= j < starts@.len() ==> #[trigger] starts@[j] < self.layout@.len(),
                crossing(self.layout, other.layout, starts@.take(k as int), walks, fresh, taken),
                take == (spec_count_true(fresh) % 2 == 1),
                forall|slot: usize| visited@.contains(slot) <==> on_walks(walks, slot),
                forall|slot: int| done.contains(slot) <==> on_taken(walks, taken, slot),
                crossed(new_layout.model(), self.layout, other.layout, done, Seq::<int>::empty()),
                whole_cycles(self.layout, other.layout, done),
                new_layout.index().dom() == self.layout.index().dom(),
                new_layout.spec_char_nums() == self.layout.spec_char_nums(),
            decreases starts@.len() - k,
        {
            let start_slot = starts[k];
            let walk = cycle_slots(&self.layout, &other.layout, start_slot);
            let is_new = !visited.contains(&start_slot);
            let ghost was_take = take;
            proof {
                lemma_crossing_push(
                    self.layout,
                    other.layout,
                    starts@.take(k as int),
                    walks,
                    fresh,
                    taken,
                    start_slot,
                    walk@,
                );
                assert(starts@.take(k + 1) =~= starts@.take(k as int).push(start_slot));
            }
            if is_new {
                if take {
                    let ghost child_before = new_layout.model();
                    take_slots(&mut new_layout, &other.layout, &walk);
                    proof {
                        lemma_crossed_walk(child_before, self.layout, other.layout, done, walk@);
                        lemma_taken_dom(child_before, self.layout, other.layout, walk@);
                        lemma_cycle_closes(self.layout, other.layout, done, walk@, start_slot);
                        lemma_crossed_closes(
                            new_layout.model(),
                            self.layout,
                            other.layout,
                            done,
                            as_ints(walk@),
                        );
                        let wider = done.union(as_ints(walk@).to_set());
                        assert forall|slot: int| wider.contains(slot) <==> done.contains(slot)
                            || as_ints(walk@).contains(slot) by {
                            assert(as_ints(walk@).to_set().contains(slot) <==> as_ints(walk@).contains(
                                slot,
                            ));
                        }
                        done = wider;
                    }
                }
                take = !take;
            }
            let ghost visited_before = visited@;
            insert_all(&mut visited, &walk);
            proof {
                assert forall|slot: usize| visited@.contains(slot) <==> on_walks(
                    walks.push(walk@),
                    slot,
                ) by {
                    assert(visited_before.contains(slot) <==> on_walks(walks, slot));
                    assert(visited@.contains(slot) <==> visited_before.contains(slot) || walk@.contains(
                        slot,
                    ));
                    assert(on_walks(walks.push(walk@), slot) <==> on_walks(walks, slot) || walk@.contains(
                        slot,
                    ));
                }
                walks = walks.push(walk@);
                fresh = fresh.push(is_new);
                taken = taken.push(is_new && was_take);
            }
            k += 1;
        }
        proof {
            assert(starts@.take(k as int) =~= starts@);
            lemma_crossed_is_bijection(new_layout.model(), self.layout, other.layout, done);
            if self.layout.is_exact() {
                lemma_crossed_is_exact(new_layout.model(), self.layout, other.layout, done);
                assert forall|c: char| #[trigger] new_layout.index().contains_key(c) implies new_layout.index()[c]
                    < new_layout@.len() && new_layout@[new_layout.index()[c] as int] == c by {
                    assert(new_layout.model().index.contains_key(c));
                }
            }
            assert(crossing(self.layout, other.layout, starts@, walks, fresh, taken));
        }
        Self::new(new_layout)
    }

    /// Draws the two ends of a range of slots.
    fn random_range(&self, rng: &mut fastrand::Rng) -> (r: (usize, usize))
        requires
            self.spec_layout()@.len() > 0,
        ensures
            r.0 < r.1 <= self.spec_layout()@.len(),
    {
        let a = fast_index(rng, self.layout.len());
        let b = fast_index(rng, self.layout.len());
        if a <= b {
            (a, b + 1)
        } else {
            (b, a + 1)
        }
    }

    /// Reverses the characters of a range of slots drawn at random.
    pub fn reverse_mutation(&mut self, rng: &mut fastrand::Rng)
        requires
            old(self).spec_layout()@.len() > 0,
            old(self).wf(),
        ensures
            is_reversal_of(final(self).spec_layout()@, old(self).spec_layout()@),
            final(self).wf(),
            old(self).spec_layout().is_exact() ==> final(self).spec_layout().is_exact(),
            final(self).spec_layout().alphabet() == old(self).spec_layout().alphabet(),
            final(self).spec_layout().spec_char_nums() == old(self).spec_layout().spec_char_nums(),
            final(self).spec_score() == old(self).spec_score(),
    {
        let (start, end) = self.random_range(rng);
        self.reverse_range(start, end);
        assert(self.layout@ == spec_reversed(old(self).layout@, start as int, end as int));
    }

    /// Moves the characters of a range of slots drawn at random down by one
    /// slot, and the first of them to the end of the range.
    pub fn shift_mutation(&mut self, rng: &mut fastrand::Rng)
        requires
            old(self).spec_layout()@.len() > 0,
            old(self).wf(),
        ensures
            is_shift_of(final(self).spec_layout()@, old(self).spec_layout()@),
            final(self).wf(),
            old(self).spec_layout().is_exact() ==> final(self).spec_layout().is_exact(),
            final(self).spec_layout().alphabet() == old(self).spec_layout().alphabet(),
            final(self).spec_layout().spec_char_nums() == old(self).spec_layout().spec_char_nums(),
            final(self).spec_score() == old(self).spec_score(),
    {
        let (start, end) = self.random_range(rng);
        self.shift_range(start, end);
        assert(self.layout@ == spec_shifted(old(self).layout@, start as int, end as int));
    }

    /// Exchanges the characters of a few pairs of slots drawn at random: at
    /// least one pair, at most `MAX_RANDOM_SWAPS`.
    pub fn random_mutation(&mut self, rng: &mut fastrand::Rng)
        requires
            old(self).spec_layout()@.len() > 0,
            old(self).wf(),
        ensures
            is_swaps_of(final(self).spec_layout()@, old(self).spec_layout()@),
            final(self).wf(),
            old(self).spec_layout().is_exact() ==> final(self).spec_layout().is_exact(),
            final(self).spec_layout()@.len() == old(self).spec_layout()@.len(),
            final(self).spec_layout().alphabet() == old(self).spec_layout().alphabet(),
            final(self).spec_layout().spec_char_nums() == old(self).spec_layout().spec_char_nums(),
            final(self).spec_score() == old(self).spec_score(),
    {
        let swaps = fast_index(rng, MAX_RANDOM_SWAPS) + 1;
        let mut done: usize = 0;
        let ghost mut pairs: Seq<(int, int)> = Seq::empty();
        while done < swaps
            invariant
                done <= swaps <= MAX_RANDOM_SWAPS,
                pairs.len() == done,
                forall|k: int|
                    0 <= k < pairs.len() ==> 0 <= (#[trigger] pairs[k]).0 < old(self).layout@.len()
                        && 0 <= pairs[k].1 < old(self).layout@.len(),
                self.layout@ == spec_swaps(old(self).layout@, pairs),
                self.layout@.len() == old(self).layout@.len(),
                self.layout@.len() > 0,
                self.layout.is_bijection(),
                old(self).layout.is_exact() ==> self.layout.is_exact(),
                self.layout.alphabet() == old(self).layout.alphabet(),
                self.layout.spec_char_nums() == old(self).layout.spec_char_nums(),
                self.score == old(self).score,
            decreases swaps - done,
        {
            let a = fast_index(rng, self.layout.len());
            let b = fast_index(rng, self.layout.len());
            self.layout.swap(a, b);
            done += 1;
            proof {
                let longer = pairs.push((a as int, b as int));
                assert(longer.drop_last() =~= pairs);
                assert(longer.last() == (a as int, b as int));
                pairs = longer;
            }
        }
    }

    /// Applies one mutation operator, drawn at random with equal chances:
    /// none, a reversal, a shift, or random swaps.  The score is left as it
    /// was and no longer belongs to the layout.
    pub fn mutate(&mut self, rng: &mut fastrand::Rng)
        requires
            old(self).spec_layout()@.len() > 0,
            old(self).wf(),
        ensures
            final(self).spec_layout()@ == old(self).spec_layout()@ || is_reversal_of(
                final(self).spec_layout()@,
                old(self).spec_layout()@,
            ) || is_shift_of(final(self).spec_layout()@, old(self).spec_layout()@) || is_swaps_of(
                final(self).spec_layout()@,
                old(self).spec_layout()@,
            ),
            final(self).wf(),
            old(self).spec_layout().is_exact() ==> final(self).spec_layout().is_exact(),
            final(self).spec_layout()@.len() == old(self).spec_layout()@.len(),
            final(self).spec_layout().alphabet() == old(self).spec_layout().alphabet(),
            final(self).spec_layout().spec_char_nums() == old(self).spec_layout().spec_char_nums(),
            final(self).spec_score() == old(self).spec_score(),
    {
        let mutation_type = fast_u8(rng, MUTATION_KINDS);
        self.apply_mutation(mutation_type, rng);
    }

    /// Applies the mutation operator of the given number: 0 leaves the
    /// individual as it is, 1 reverses a range of slots drawn at random, 2
    /// shifts a range of slots drawn at random, and any other number makes
    /// random swaps.
    pub fn apply_mutation(&mut self, mutation_type: u8, rng: &mut fastrand::Rng)
        requires
            old(self).spec_layout()@.len() > 0,
            old(self).wf(),
        ensures
            mutation_type == 0 ==> *final(self) == *old(self),
            mutation_type == 1 ==> is_reversal_of(
                final(self).spec_layout()@,
                old(self).spec_layout()@,
            ),
            mutation_type == 2 ==> is_shift_of(final(self).spec_layout()@, old(self).spec_layout()@),
            mutation_type >= 3 ==> is_swaps_of(final(self).spec_layout()@, old(self).spec_layout()@),
            final(self).wf(),
            old(self).spec_layout().is_exact() ==> final(self).spec_layout().is_exact(),
            final(self).spec_layout()@.len() == old(self).spec_layout()@.len(),
            final(self).spec_layout().alphabet() == old(self).spec_layout().alphabet(),
            final(self).spec_layout().spec_char_nums() == old(self).spec_layout().spec_char_nums(),
            final(self).spec_score() == old(self).spec_score(),
    {
        match mutation_type {
            0 => (),
            1 => self.reverse_mutation(rng),
            2 => self.shift_mutation(rng),
            _ => self.random_mutation(rng),
        }
    }
}

impl PartialEq for Individual {
    /// Individuals are equal when their scores are.
    fn eq(&self, other: &Self) -> (r: bool) {
        self.score == other.score
    }
}

impl vstd::std_specs::cmp::PartialEqSpecImpl for Individual {
    open spec fn obeys_eq_spec() -> bool {
        true
    }

    open spec fn eq_spec(&self, other: &Self) -> bool {
        self.spec_score() == other.spec_score()
    }
}

impl Clone for Individual {
    fn clone(&self) -> (r: Self)
        ensures
            r.same_as(*self),
    {
        Self { layout: self.layout.clone(), score: self.score }
    }
}

} // verus!

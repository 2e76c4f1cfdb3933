//! Local search by random swaps.
//!
//! A cost is a rank key: an integer that orders the layouts as their cost
//! does.  The search is handed a function that works the key of a layout out.

use vstd::prelude::*;
use rand::rngs::ThreadRng;
use crate::keyboard_layout::logical_layout::{
    is_cost_function, lemma_may_cost, lemma_swap_keeps, lemma_swap_twice, may_cost, LogicalLayout,
};
use crate::random::thread_index;

verus! {

pub struct HillClimbing {}

impl HillClimbing {
    /// Tries the swap of the slots `a` and `b`: where the layout costs less
    /// than `best_cost` after the swap, the swap is kept and the new cost
    /// returned; otherwise the swap is taken back and `best_cost` returned.
    pub fn step<E: Fn(&LogicalLayout) -> u32>(
        layout: &mut LogicalLayout,
        a: usize,
        b: usize,
        evaluate: &E,
        best_cost: u32,
    ) -> (r: u32)
        requires
            a < old(layout)@.len(),
            b < old(layout)@.len(),
            old(layout).is_bijection(),
            is_cost_function(*evaluate),
        ensures
            final(layout).spec_char_nums() == old(layout).spec_char_nums(),
            old(layout).is_exact() ==> final(layout).is_exact(),
            exists|new_cost: u32|
                {
                    &&& #[trigger] may_cost(
                        *evaluate,
                        old(layout).model().after_swap(a, b),
                        old(layout).spec_char_nums(),
                        new_cost,
                    )
                    &&& if new_cost < best_cost {
                        r == new_cost && final(layout).model() == old(layout).model().after_swap(
                            a,
                            b,
                        )
                    } else {
                        r == best_cost && final(layout).model() == old(layout).model()
                    }
                },
    {
        layout.swap(a, b);
        let new_cost = evaluate(&*layout);
        assert(may_cost(
            *evaluate,
            old(layout).model().after_swap(a, b),
            old(layout).spec_char_nums(),
            new_cost,
        ));
        if new_cost < best_cost {
            new_cost
        } else {
            layout.swap(a, b);
            proof {
                lemma_swap_twice(old(layout).model(), a, b);
            }
            best_cost
        }
    }

    /// Tries `iterations` swaps of two slots drawn at random and keeps each
    /// one that lowers the cost below the best so far; every other swap is
    /// taken back.  Returns the best cost, which is `initial_cost` where no
    /// swap was kept.
    ///
    /// `evaluate` works out the cost of a layout.  It has to accept every
    /// layout, and what it may return has to depend on the characters in the
    /// slots and on the index alone.
    pub fn optimize<E: Fn(&LogicalLayout) -> u32>(
        layout: &mut LogicalLayout,
        evaluate: &E,
        initial_cost: u32,
        iterations: usize,
        rng: &mut ThreadRng,
    ) -> (best_cost: u32)
        requires
            old(layout)@.len() > 0,
            old(layout).is_bijection(),
            is_cost_function(*evaluate),
        ensures
            final(layout)@.len() == old(layout)@.len(),
            final(layout).spec_char_nums() == old(layout).spec_char_nums(),
            old(layout).is_exact() ==> final(layout).is_exact(),
            final(layout).is_bijection(),
            final(layout).alphabet() == old(layout).alphabet(),
            best_cost <= initial_cost,
            best_cost < initial_cost ==> evaluate.ensures((final(layout),), best_cost),
            best_cost == initial_cost ==> final(layout).model() == old(layout).model(),
            exists|
                draws: Seq<(usize, usize)>,
                layouts: Seq<crate::keyboard_layout::logical_layout::LayoutModel>,
                costs: Seq<u32>,
            |
                {
                    &&& #[trigger] Self::climbed(
                        *evaluate,
                        old(layout).spec_char_nums(),
                        draws,
                        layouts,
                        costs,
                    )
                    &&& draws.len() == iterations
                    &&& layouts[0] == old(layout).model()
                    &&& costs[0] == initial_cost
                    &&& layouts.last() == final(layout).model()
                    &&& costs.last() == best_cost
                },
    {
        let mut best_cost = initial_cost;
        let mut i: usize = 0;
        let ghost mut draws: Seq<(usize, usize)> = Seq::empty();
        let ghost mut layouts = seq![layout.model()];
        let ghost mut costs = seq![initial_cost];
        while i < iterations
            invariant
                i <= iterations,
                draws.len() == i,
                Self::climbed(*evaluate, old(layout).spec_char_nums(), draws, layouts, costs),
                layouts[0] == old(layout).model(),
                costs[0] == initial_cost,
                layouts.last() == layout.model(),
                costs.last() == best_cost,
                layout@.len() == old(layout)@.len(),
                layout@.len() > 0,
                layout.spec_char_nums() == old(layout).spec_char_nums(),
                layout.is_bijection(),
                old(layout).is_exact() ==> layout.is_exact(),
                layout.alphabet() == old(layout).alphabet(),
                is_cost_function(*evaluate),
                best_cost <= initial_cost,
                best_cost < initial_cost ==> may_cost(
                    *evaluate,
                    layout.model(),
                    layout.spec_char_nums(),
                    best_cost,
                ),
                best_cost == initial_cost ==> layout.model() == old(layout).model(),
            decreases iterations - i,
        {
            let a = thread_index(rng, layout.len());
            let b = thread_index(rng, layout.len());
            let ghost before = layout.model();
            let ghost cost_before = best_cost;
            proof {
                lemma_swap_keeps(before, a, b);
            }
            best_cost = Self::step(layout, a, b, evaluate, best_cost);
            proof {
                assert(Self::tried(
                    *evaluate,
                    old(layout).spec_char_nums(),
                    before,
                    cost_before,
                    a,
                    b,
                    layout.model(),
                    best_cost,
                ));
                let longer = draws.push((a, b));
                let more_layouts = layouts.push(layout.model());
                let more_costs = costs.push(best_cost);
                assert forall|k: int| 0 <= k < longer.len() implies Self::tried(
                    *evaluate,
                    old(layout).spec_char_nums(),
                    more_layouts[k],
                    more_costs[k],
                    (#[trigger] longer[k]).0,
                    longer[k].1,
                    more_layouts[k + 1],
                    more_costs[k + 1],
                ) by {
                    if k < draws.len() {
                        assert(longer[k] == draws[k]);
                        assert(more_layouts[k] == layouts[k]);
                        assert(more_layouts[k + 1] == layouts[k + 1]);
                        assert(more_costs[k] == costs[k]);
                        assert(more_costs[k + 1] == costs[k + 1]);
                    }
                }
                draws = longer;
                layouts = more_layouts;
                costs = more_costs;
            }
            i += 1;
        }
        proof {
            if best_cost < initial_cost {
                lemma_may_cost(*evaluate, *layout, best_cost);
            }
        }
        best_cost
    }
}

impl HillClimbing {
    /// What becomes of a swap that led from the layout `before` to the layout
    /// `swapped` with the cost `new_cost`: it is kept where the new cost is
    /// lower than the best so far, and is taken back otherwise.  `after` is
    /// the layout and `cost` the best cost that are left.
    pub open spec fn settled(
        new_cost: u32,
        best_cost: u32,
        before: crate::keyboard_layout::logical_layout::LayoutModel,
        swapped: crate::keyboard_layout::logical_layout::LayoutModel,
        after: crate::keyboard_layout::logical_layout::LayoutModel,
        cost: u32,
    ) -> bool {
        if new_cost < best_cost {
            cost == new_cost && after == swapped
        } else {
            cost == best_cost && after == before
        }
    }

    /// The layout `end` and the best cost `end_cost` are what one try of the
    /// swap of the slots `a` and `b` leaves of the layout `mid` and the best
    /// cost `mid_cost`: the layout is evaluated after the swap, and the swap
    /// is settled by the cost.
    pub open spec fn tried<E: Fn(&LogicalLayout) -> u32>(
        evaluate: E,
        char_nums: usize,
        mid: crate::keyboard_layout::logical_layout::LayoutModel,
        mid_cost: u32,
        a: usize,
        b: usize,
        end: crate::keyboard_layout::logical_layout::LayoutModel,
        end_cost: u32,
    ) -> bool {
        &&& a < mid.slots.len()
        &&& b < mid.slots.len()
        &&& exists|new_cost: u32|
            #[trigger] may_cost(evaluate, mid.after_swap(a, b), char_nums, new_cost)
                && Self::settled(new_cost, mid_cost, mid, mid.after_swap(a, b), end, end_cost)
    }

    /// A climb that tries the swaps of `draws` one after the other: `layouts`
    /// and `costs` hold the layout and the best cost before the first try and
    /// after each try, and each try begins with what the try before it has
    /// left.
    pub open spec fn climbed<E: Fn(&LogicalLayout) -> u32>(
        evaluate: E,
        char_nums: usize,
        draws: Seq<(usize, usize)>,
        layouts: Seq<crate::keyboard_layout::logical_layout::LayoutModel>,
        costs: Seq<u32>,
    ) -> bool {
        &&& layouts.len() == draws.len() + 1
        &&& costs.len() == draws.len() + 1
        &&& forall|k: int|
            0 <= k < draws.len() ==> Self::tried(
                evaluate,
                char_nums,
                layouts[k],
                costs[k],
                (#[trigger] draws[k]).0,
                draws[k].1,
                layouts[k + 1],
                costs[k + 1],
            )
    }
}

} // verus!

//! Simulated annealing by random swaps.
//!
//! A cost is a rank key, as in the other strategies.  A swap that lowers the
//! cost is always kept.  Whether one that does not is kept is a matter of
//! chance and temperature, and is asked of the caller.

use vstd::prelude::*;
use rand::rngs::ThreadRng;
use crate::keyboard_layout::logical_layout::{
    is_cost_function, lemma_may_cost, lemma_swap_keeps, lemma_swap_twice, may_cost, LayoutModel,
    LogicalLayout,
};
use crate::random::thread_index;

verus! {

/// `accept_worse` can decide on a swap that does not lower the cost: it
/// accepts every new cost, current cost and iteration.
pub open spec fn is_acceptance<A: Fn(u32, u32, usize) -> bool>(accept_worse: A) -> bool {
    forall|new_cost: u32, current_cost: u32, iteration: usize| #[trigger]
        accept_worse.requires((new_cost, current_cost, iteration))
}

pub struct Annealing {}

impl Annealing {
    /// What becomes of a swap that led from the layout `before` to the layout
    /// `swapped` with the cost `new_cost`: it is kept where the new cost is
    /// lower than the current one, or where `accept_worse` said so, and is
    /// taken back otherwise.  `after` is the layout and `cost` the cost that
    /// are left.
    pub open spec fn settled<A: Fn(u32, u32, usize) -> bool>(
        accept_worse: A,
        new_cost: u32,
        current_cost: u32,
        iteration: usize,
        before: LayoutModel,
        swapped: LayoutModel,
        after: LayoutModel,
        cost: u32,
    ) -> bool {
        if new_cost < current_cost {
            cost == new_cost && after == swapped
        } else {
            exists|accepted: bool| #[trigger]
                accept_worse.ensures((new_cost, current_cost, iteration), accepted) && if accepted {
                    cost == new_cost && after == swapped
                } else {
                    cost == current_cost && after == before
                }
        }
    }

    /// Tries the swap of the slots `a` and `b`.  Where the layout costs less
    /// than `current_cost` after the swap, the swap is kept.  Where it does
    /// not, `accept_worse` is asked, with the new cost, the current cost and
    /// the number of the iteration, and the swap is kept or taken back as it
    /// says.  Returns the cost of the layout as it is left.
    pub fn step<E: Fn(&LogicalLayout) -> u32, A: Fn(u32, u32, usize) -> bool>(
        layout: &mut LogicalLayout,
        a: usize,
        b: usize,
        evaluate: &E,
        accept_worse: &A,
        current_cost: u32,
        iteration: usize,
    ) -> (r: u32)
        requires
            a < old(layout)@.len(),
            b < old(layout)@.len(),
            old(layout).is_bijection(),
            is_cost_function(*evaluate),
            is_acceptance(*accept_worse),
        ensures
            final(layout).spec_char_nums() == old(layout).spec_char_nums(),
            old(layout).is_exact() ==> final(layout).is_exact(),
            exists|new_cost: u32|
                {
                    &&& #[trigger] may_cost(
                        *evaluate,
                        old(layout).model().after_swap(a, b),
                        old(layout).spec_char_nums(),
                        new_cost,
                    )
                    &&& Self::settled(
                        *accept_worse,
                        new_cost,
                        current_cost,
                        iteration,
                        old(layout).model(),
                        old(layout).model().after_swap(a, b),
                        final(layout).model(),
                        r,
                    )
                },
    {
        layout.swap(a, b);
        let new_cost = evaluate(&*layout);
        assert(may_cost(
            *evaluate,
            old(layout).model().after_swap(a, b),
            old(layout).spec_char_nums(),
            new_cost,
        ));
        if new_cost < current_cost {
            return new_cost;
        }
        let accepted = accept_worse(new_cost, current_cost, iteration);
        if accepted {
            new_cost
        } else {
            layout.swap(a, b);
            proof {
                lemma_swap_twice(old(layout).model(), a, b);
            }
            current_cost
        }
    }

    /// Tries `iterations` swaps of two slots drawn at random.  A swap that
    /// lowers the cost is kept; any other is kept where `accept_worse`, given
    /// the new cost, the current cost and the number of the iteration, says
    /// so, and is taken back where it does not.  Returns the cost of the
    /// layout as it is left, which is `initial_cost` where no swap was kept.
    pub fn optimize<E: Fn(&LogicalLayout) -> u32, A: Fn(u32, u32, usize) -> bool>(
        layout: &mut LogicalLayout,
        evaluate: &E,
        accept_worse: &A,
        initial_cost: u32,
        iterations: usize,
        rng: &mut ThreadRng,
    ) -> (current_cost: u32)
        requires
            old(layout)@.len() > 0,
            old(layout).is_bijection(),
            is_cost_function(*evaluate),
            is_acceptance(*accept_worse),
        ensures
            final(layout)@.len() == old(layout)@.len(),
            final(layout).spec_char_nums() == old(layout).spec_char_nums(),
            old(layout).is_exact() ==> final(layout).is_exact(),
            final(layout).is_bijection(),
            final(layout).alphabet() == old(layout).alphabet(),
            evaluate.ensures((final(layout),), current_cost) || (current_cost == initial_cost
                && final(layout).model() == old(layout).model()),
            exists|draws: Seq<(usize, usize)>, layouts: Seq<LayoutModel>, costs: Seq<u32>|
                {
                    &&& #[trigger] Self::walked(
                        *evaluate,
                        *accept_worse,
                        old(layout).spec_char_nums(),
                        draws,
                        layouts,
                        costs,
                    )
                    &&& draws.len() == iterations
                    &&& layouts[0] == old(layout).model()
                    &&& costs[0] == initial_cost
                    &&& layouts.last() == final(layout).model()
                    &&& costs.last() == current_cost
                },
    {
        let mut current_cost = initial_cost;
        let mut i: usize = 0;
        let ghost mut draws: Seq<(usize, usize)> = Seq::empty();
        let ghost mut layouts = seq![layout.model()];
        let ghost mut costs = seq![initial_cost];
        while i < iterations
            invariant
                i <= iterations,
                draws.len() == i,
                Self::walked(
                    *evaluate,
                    *accept_worse,
                    old(layout).spec_char_nums(),
                    draws,
                    layouts,
                    costs,
                ),
                layouts[0] == old(layout).model(),
                costs[0] == initial_cost,
                layouts.last() == layout.model(),
                costs.last() == current_cost,
                layout@.len() == old(layout)@.len(),
                layout@.len() > 0,
                layout.spec_char_nums() == old(layout).spec_char_nums(),
                layout.is_bijection(),
                old(layout).is_exact() ==> layout.is_exact(),
                layout.alphabet() == old(layout).alphabet(),
                is_cost_function(*evaluate),
                is_acceptance(*accept_worse),
                may_cost(*evaluate, layout.model(), layout.spec_char_nums(), current_cost) || (
                current_cost == initial_cost && layout.model() == old(layout).model()),
            decreases iterations - i,
        {
            let a = thread_index(rng, layout.len());
            let b = thread_index(rng, layout.len());
            let ghost before = layout.model();
            let ghost cost_before = current_cost;
            proof {
                lemma_swap_keeps(before, a, b);
            }
            current_cost = Self::step(layout, a, b, evaluate, accept_worse, current_cost, i);
            proof {
                assert(Self::tried(
                    *evaluate,
                    *accept_worse,
                    old(layout).spec_char_nums(),
                    before,
                    cost_before,
                    a,
                    b,
                    i,
                    layout.model(),
                    current_cost,
                ));
                let longer = draws.push((a, b));
                let more_layouts = layouts.push(layout.model());
                let more_costs = costs.push(current_cost);
                assert forall|k: int| 0 <= k < longer.len() implies Self::tried(
                    *evaluate,
                    *accept_worse,
                    old(layout).spec_char_nums(),
                    more_layouts[k],
                    more_costs[k],
                    (#[trigger] longer[k]).0,
                    longer[k].1,
                    k as usize,
                    more_layouts[k + 1],
                    more_costs[k + 1],
                ) by {
                    if k < draws.len() {
                        assert(longer[k] == draws[k]);
                        assert(more_layouts[k] == layouts[k]);
                        assert(more_layouts[k + 1] == layouts[k + 1]);
                        assert(more_costs[k] == costs[k]);
                        assert(more_costs[k + 1] == costs[k + 1]);
                    }
                }
                draws = longer;
                layouts = more_layouts;
                costs = more_costs;
            }
            i += 1;
        }
        proof {
            if may_cost(*evaluate, layout.model(), layout.spec_char_nums(), current_cost) {
                lemma_may_cost(*evaluate, *layout, current_cost);
            }
        }
        current_cost
    }
}

impl Annealing {
    /// The layout `end` and the cost `end_cost` are what one try of the swap
    /// of the slots `a` and `b` leaves of the layout `mid` and the cost
    /// `mid_cost` in the iteration of the given number: the layout is
    /// evaluated after the swap, and the swap is settled by the cost and by
    /// what `accept_worse` says.
    pub open spec fn tried<E: Fn(&LogicalLayout) -> u32, A: Fn(u32, u32, usize) -> bool>(
        evaluate: E,
        accept_worse: A,
        char_nums: usize,
        mid: LayoutModel,
        mid_cost: u32,
        a: usize,
        b: usize,
        iteration: usize,
        end: LayoutModel,
        end_cost: u32,
    ) -> bool {
        &&& a < mid.slots.len()
        &&& b < mid.slots.len()
        &&& exists|new_cost: u32|
            #[trigger] may_cost(evaluate, mid.after_swap(a, b), char_nums, new_cost)
                && Self::settled(
                accept_worse,
                new_cost,
                mid_cost,
                iteration,
                mid,
                mid.after_swap(a, b),
                end,
                end_cost,
            )
    }

    /// A walk that tries the swaps of `draws` one after the other, the first
    /// in iteration 0: `layouts` and `costs` hold the layout and its cost
    /// before the first try and after each try, and each try begins with
    /// what the try before it has left.
    pub open spec fn walked<E: Fn(&LogicalLayout) -> u32, A: Fn(u32, u32, usize) -> bool>(
        evaluate: E,
        accept_worse: A,
        char_nums: usize,
        draws: Seq<(usize, usize)>,
        layouts: Seq<LayoutModel>,
        costs: Seq<u32>,
    ) -> bool {
        &&& layouts.len() == draws.len() + 1
        &&& costs.len() == draws.len() + 1
        &&& forall|k: int|
            0 <= k < draws.len() ==> Self::tried(
                evaluate,
                accept_worse,
                char_nums,
                layouts[k],
                costs[k],
                (#[trigger] draws[k]).0,
                draws[k].1,
                k as usize,
                layouts[k + 1],
                costs[k + 1],
            )
    }
}

} // verus!

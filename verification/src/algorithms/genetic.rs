//! Evolutionary search over islands of populations.
//!
//! The caller works the cost of a layout out and hands its rank key in;
//! everything that is decided by comparing scores is decided here.

use vstd::prelude::*;
use vstd::seq_lib::{to_multiset_insert, to_multiset_remove};
use rand::rngs::ThreadRng;
use super::individual::{
    compatible, is_crossover_of, is_mutation_of, scored, Individual,
};
use crate::keyboard_layout::logical_layout::{
    is_cost_function, is_padding_of, lemma_bijection_no_duplicates, spec_count_distinct,
    LogicalLayout,
};
use crate::keyboard_layout::physical_layout::{PhysicalLayout, NUM_KEYS};
use crate::random::shuffle_chars;

verus! {

/// The individual can live in a population around `kin`: its layout can be
/// crossed with that of `kin`, its index is exact, and its score belongs to
/// its layout.
pub open spec fn fits<E: Fn(&LogicalLayout) -> u32>(
    evaluate: E,
    individual: Individual,
    kin: LogicalLayout,
) -> bool {
    &&& compatible(individual.spec_layout(), kin)
    &&& individual.spec_layout().is_exact()
    &&& scored(evaluate, individual)
}

/// `select` can pick the parents of a child: it accepts every population
/// that is not empty, and returns two places in it.
pub open spec fn is_selection<S: Fn(&Vec<Individual>) -> (usize, usize)>(select: S) -> bool {
    &&& forall|population: &Vec<Individual>|
        population@.len() > 0 ==> #[trigger] select.requires((population,))
    &&& forall|population: &Vec<Individual>, picks: (usize, usize)| #[trigger]
        select.ensures((population,), picks) ==> picks.0 < population@.len() && picks.1
            < population@.len()
}

/// The scores rise from the first individual to the last, equal scores
/// allowed.
pub open spec fn sorted_by_score(population: Seq<Individual>) -> bool {
    forall|i: int, j: int|
        0 <= i <= j < population.len() ==> population[i].spec_score() <= population[j].spec_score()
}

/// The individual at `x` comes before the one at `y`: its score is lower,
/// or the scores are equal and its place is the lower one.
pub open spec fn in_order(population: Seq<Individual>, places: Seq<int>, x: int, y: int) -> bool {
    population[x].spec_score() < population[y].spec_score() || (population[x].spec_score()
        == population[y].spec_score() && places[x] < places[y])
}

/// `after` holds the individuals of `before`, the one at `places[k]` in
/// place `k`, ordered by rising score, and by their places in `before` where
/// the scores are equal.
pub open spec fn stably_placed(
    after: Seq<Individual>,
    before: Seq<Individual>,
    places: Seq<int>,
) -> bool {
    &&& places.len() == after.len()
    &&& before.len() == after.len()
    &&& places.no_duplicates()
    &&& forall|k: int|
        0 <= k < places.len() ==> 0 <= #[trigger] places[k] < before.len() && after[k]
            == before[places[k]]
    &&& forall|i: int, j: int| 0 <= i < j < places.len() ==> #[trigger] in_order(after, places, i, j)
}

/// Orders the individuals by rising score.  Individuals with equal scores
/// stay in the order in which they were.
pub fn sort_population(population: &mut Vec<Individual>)
    ensures
        sorted_by_score(final(population)@),
        final(population)@.to_multiset() == old(population)@.to_multiset(),
        exists|places: Seq<int>| stably_placed(final(population)@, old(population)@, places),
{
    let ghost mut places: Seq<int> = Seq::new(population@.len(), |k: int| k);
    if population.len() < 2 {
        assert(stably_placed(population@, old(population)@, places));
        return ;
    }
    let mut i: usize = 1;
    while i < population.len()
        invariant
            1 <= i <= population@.len(),
            population@.len() == old(population)@.len(),
            population@.to_multiset() == old(population)@.to_multiset(),
            places.len() == population@.len(),
            places.no_duplicates(),
            forall|k: int|
                0 <= k < places.len() ==> 0 <= #[trigger] places[k] < places.len() && population@[k]
                    == old(population)@[places[k]],
            forall|k: int| i <= k < places.len() ==> #[trigger] places[k] == k,
            forall|k: int| 0 <= k < i ==> #[trigger] places[k] < i,
            forall|x: int, y: int| 0 <= x < y < i ==> #[trigger] in_order(population@, places, x, y),
        decreases population.len() - i,
    {
        let ghost before = population@;
        let ghost places_before = places;
        let moved = population.remove(i);
        let ghost without = population@;
        let ghost places_without = places.remove(i as int);
        let mut j: usize = i;
        while j > 0 && population[j - 1].score() > moved.score()
            invariant
                j <= i,
                i <= population@.len(),
                population@ == without,
                forall|k: int| j <= k < i ==> population@[k].spec_score() > moved.spec_score(),
            decreases j,
        {
            j -= 1;
        }
        population.insert(j, moved);
        proof {
            broadcast use vstd::multiset::group_multiset_axioms;

            before.to_multiset_ensures();
            to_multiset_remove(before, i as int);
            to_multiset_insert(without, j as int, moved);
            assert(before.to_multiset().contains(before[i as int]));
            assert(before.to_multiset().remove(before[i as int]).insert(before[i as int])
                =~= before.to_multiset());
            places = places_without.insert(j as int, i as int);
            // where each place of the new order comes from in the order before
            let source = |k: int|
                if k < j {
                    k
                } else if k == j {
                    i as int
                } else if k <= i {
                    k - 1
                } else {
                    k
                };
            assert forall|k: int| 0 <= k < places.len() implies #[trigger] places[k]
                == places_before[source(k)] && population@[k] == before[source(k)] by {}
            assert forall|x: int, y: int| 0 <= x < places.len() && 0 <= y < places.len() && x
                != y implies places[x] != places[y] by {
                assert(places[x] == places_before[source(x)]);
                assert(places[y] == places_before[source(y)]);
            }
            assert forall|k: int| 0 <= k < places.len() implies 0 <= #[trigger] places[k]
                < places.len() && population@[k] == old(population)@[places[k]] by {
                assert(places[k] == places_before[source(k)]);
            }
            assert forall|k: int| i + 1 <= k < places.len() implies #[trigger] places[k] == k by {
                assert(places[k] == places_before[source(k)]);
            }
            assert forall|k: int| 0 <= k < i + 1 implies #[trigger] places[k] < i + 1 by {
                assert(places[k] == places_before[source(k)]);
            }
            assert forall|x: int, y: int| 0 <= x < y < i + 1 implies #[trigger] in_order(
                population@,
                places,
                x,
                y,
            ) by {
                assert(places[x] == places_before[source(x)]);
                assert(places[y] == places_before[source(y)]);
                assert(population@[x] == before[source(x)]);
                assert(population@[y] == before[source(y)]);
                if y == j {
                    if j > 0 {
                        assert(before[j - 1] == without[j - 1]);
                        if x < j - 1 {
                            assert(in_order(before, places_before, x, j - 1));
                        }
                    }
                } else if x == j {
                    assert(before[source(y)] == without[y - 1]);
                } else {
                    assert(in_order(before, places_before, source(x), source(y)));
                }
            }
        }
        i += 1;
    }
    proof {
        assert(stably_placed(population@, old(population)@, places));
        assert forall|x: int, y: int| 0 <= x <= y < population@.len() implies population@[x].spec_score()
            <= population@[y].spec_score() by {
            if x < y {
                assert(in_order(population@, places, x, y));
            }
        }
    }
}

/// The layout is that of a child of the two parents at the given places: a
/// copy of the parent where the two places are one, and otherwise what a
/// mutation makes of a crossover of the two over the usable characters.
pub open spec fn is_bred_from(
    population: Seq<Individual>,
    usable_chars: Seq<char>,
    parent1: int,
    parent2: int,
    child: LogicalLayout,
) -> bool {
    &&& 0 <= parent1 < population.len()
    &&& 0 <= parent2 < population.len()
    &&& if parent1 == parent2 {
        child.same_as(population[parent1].spec_layout())
    } else {
        exists|crossed: Seq<char>|
            #[trigger] is_crossover_of(
                crossed,
                population[parent1].spec_layout(),
                population[parent2].spec_layout(),
                usable_chars,
            ) && is_mutation_of(child@, crossed)
    }
}

/// The layout is that of a child of two parents that `select` may pick from
/// the population.
pub open spec fn is_child_of<S: Fn(&Vec<Individual>) -> (usize, usize)>(
    select: S,
    population: Vec<Individual>,
    usable_chars: Seq<char>,
    child: LogicalLayout,
) -> bool {
    exists|parent1: usize, parent2: usize|
        #[trigger] select.ensures((&population,), (parent1, parent2)) && is_bred_from(
            population@,
            usable_chars,
            parent1 as int,
            parent2 as int,
            child,
        )
}

/// The population `after` is what one generation makes of the population
/// `before`: children are bred from parents that `select` picks and are
/// evaluated, and the individuals of `before` with the lowest scores and the
/// children stand in `after`, ordered by rising score.
pub open spec fn evolved<E: Fn(&LogicalLayout) -> u32, S: Fn(&Vec<Individual>) -> (usize, usize)>(
    evaluate: E,
    select: S,
    usable_chars: Seq<char>,
    elite_num: int,
    before: Vec<Individual>,
    after: Vec<Individual>,
) -> bool {
    &&& after@.len() == before@.len()
    &&& forall|i: int|
        0 <= i < before@.len() ==> after@[0].spec_score() <= (#[trigger] before@[i]).spec_score()
    &&& exists|children: Seq<Individual>, ranked: Seq<Individual>, ranks: Seq<int>, places: Seq<int>|
        {
            &&& children.len() == before@.len() - elite_num
            &&& forall|k: int|
                0 <= k < children.len() ==> scored(evaluate, #[trigger] children[k]) && is_child_of(
                    select,
                    before,
                    usable_chars,
                    children[k].spec_layout(),
                )
            &&& #[trigger] stably_placed(ranked, before@, ranks)
            &&& #[trigger] stably_placed(after@, ranked.take(elite_num) + children, places)
        }
}

/// The islands `after` are the islands `before` after a copy of the best
/// individual of each island has taken the last place of the next island on
/// the ring.
pub open spec fn migrated(
    population_size: int,
    before: Seq<Vec<Individual>>,
    after: Seq<Vec<Individual>>,
) -> bool {
    &&& after.len() == before.len()
    &&& forall|j: int| 0 <= j < after.len() ==> (#[trigger] after[j])@.len() == population_size
    &&& forall|j: int, k: int|
        0 <= j < after.len() && 0 <= k < population_size - 1 ==> #[trigger] after[j]@[k]
            == before[j]@[k]
    &&& forall|j: int|
        0 <= j < after.len() ==> (#[trigger] after[j])@[population_size - 1].same_as(
            before[Genetic::spec_migration_source(j, before.len() as int)]@[0],
        )
}

/// The best individual `after` is what is kept of the best individual
/// `before` and the heads of the islands: a copy of the head with the lowest
/// score where that score is lower, and `before` otherwise.
pub open spec fn kept_best(islands: Seq<Vec<Individual>>, before: Individual, after: Individual) -> bool {
    &&& islands.len() == 0 ==> after == before
    &&& islands.len() > 0 ==> exists|j: int| Genetic::is_best_island(islands, j)
    &&& forall|j: int|
        Genetic::is_best_island(islands, j) ==> if islands[j]@[0].spec_score() < before.spec_score() {
            after.same_as(islands[j]@[0])
        } else {
            after == before
        }
}

/// The islands `after` are what one generation of the search makes of the
/// islands `before`: every island passes through one generation, and then
/// the best individuals migrate.
pub open spec fn generation<E: Fn(&LogicalLayout) -> u32, S: Fn(&Vec<Individual>) -> (usize, usize)>(
    evaluate: E,
    select: S,
    usable_chars: Seq<char>,
    elite_num: int,
    population_size: int,
    before: Seq<Vec<Individual>>,
    after: Seq<Vec<Individual>>,
) -> bool {
    exists|grown: Seq<Vec<Individual>>|
        {
            &&& grown.len() == before.len()
            &&& forall|j: int|
                0 <= j < before.len() ==> evolved(
                    evaluate,
                    select,
                    usable_chars,
                    elite_num,
                    #[trigger] before[j],
                    grown[j],
                )
            &&& #[trigger] migrated(population_size, grown, after)
        }
}

/// The lowest score of an island never rises from one generation to the
/// next: after a generation the head of each island scores no higher than
/// any individual of the island scored before it.
pub proof fn lemma_best_never_rises<
    E: Fn(&LogicalLayout) -> u32,
    S: Fn(&Vec<Individual>) -> (usize, usize),
>(
    evaluate: E,
    select: S,
    usable_chars: Seq<char>,
    elite_num: int,
    population_size: int,
    before: Seq<Vec<Individual>>,
    after: Seq<Vec<Individual>>,
    island: int,
    place: int,
)
    requires
        generation(evaluate, select, usable_chars, elite_num, population_size, before, after),
        population_size >= 2,
        0 <= island < before.len(),
        0 <= place < before[island]@.len(),
    ensures
        after[island]@[0].spec_score() <= before[island]@[place].spec_score(),
{
    let grown = choose|grown: Seq<Vec<Individual>>|
        {
            &&& grown.len() == before.len()
            &&& forall|j: int|
                0 <= j < before.len() ==> evolved(
                    evaluate,
                    select,
                    usable_chars,
                    elite_num,
                    #[trigger] before[j],
                    grown[j],
                )
            &&& #[trigger] migrated(population_size, grown, after)
        };
    assert(evolved(evaluate, select, usable_chars, elite_num, before[island], grown[island]));
    assert(grown[island]@[0].spec_score() <= before[island]@[place].spec_score());
    assert(after[island]@[0] == grown[island]@[0]);
}

/// A search through the generations: `islands` holds the islands before the
/// first generation and after each generation, `bests` the best individual
/// kept at each of these times.  Each generation begins with the islands that
/// the generation before it has left.
pub open spec fn searched<E: Fn(&LogicalLayout) -> u32, S: Fn(&Vec<Individual>) -> (usize, usize)>(
    evaluate: E,
    select: S,
    usable_chars: Seq<char>,
    elite_num: int,
    population_size: int,
    islands: Seq<Seq<Vec<Individual>>>,
    bests: Seq<Individual>,
) -> bool {
    &&& bests.len() == islands.len()
    &&& forall|g: int|
        0 <= g < islands.len() - 1 ==> generation(
            evaluate,
            select,
            usable_chars,
            elite_num,
            population_size,
            #[trigger] islands[g],
            islands[g + 1],
        ) && kept_best(islands[g + 1], bests[g], bests[g + 1])
}

/// The islands are those of a first generation and `best` is the seed: the
/// seed holds the usable characters, padded, with an exact index; every
/// individual is a rearrangement of the seed, and is the seed where nothing
/// was shuffled; all are evaluated.
pub open spec fn is_first_generation<E: Fn(&LogicalLayout) -> u32>(
    evaluate: E,
    island_size: int,
    population_size: int,
    usable_chars: Seq<char>,
    shuffle: bool,
    islands: Seq<Vec<Individual>>,
    best: Individual,
) -> bool {
    &&& islands.len() == island_size
    &&& is_padding_of(best.spec_layout()@, usable_chars, NUM_KEYS as nat)
    &&& best.spec_layout().is_exact()
    &&& best.spec_layout().spec_char_nums() == spec_count_distinct(usable_chars)
    &&& scored(evaluate, best)
    &&& forall|j: int| 0 <= j < islands.len() ==> (#[trigger] islands[j])@.len() == population_size
    &&& forall|j: int, k: int|
        0 <= j < islands.len() && 0 <= k < islands[j]@.len() ==> {
            let individual = #[trigger] islands[j]@[k];
            &&& fits(evaluate, individual, best.spec_layout())
            &&& individual.spec_layout()@.to_multiset() == best.spec_layout()@.to_multiset()
            &&& !shuffle ==> individual.spec_layout()@ == best.spec_layout()@
        }
}

/// The fewest individuals that a population may have.
pub const MIN_POPULATION: usize = 3;

/// A layout made from a rearrangement of the characters of a one-to-one
/// layout that fills the grid can be crossed with that layout.
proof fn lemma_rearranged(copy: LogicalLayout, given: Seq<char>, seed: LogicalLayout)
    requires
        seed.is_bijection(),
        given.to_multiset() == seed@.to_multiset(),
        given.len() >= NUM_KEYS,
        is_padding_of(copy@, given, NUM_KEYS as nat),
        given.no_duplicates() ==> copy.is_bijection(),
    ensures
        copy@ == given,
        compatible(copy, seed),
{
    broadcast use vstd::multiset::group_multiset_axioms;

    assert(copy@ =~= given);
    lemma_bijection_no_duplicates(seed);
    seed@.lemma_multiset_has_no_duplicates();
    given.lemma_multiset_has_no_duplicates_conv();
    given.to_multiset_ensures();
    seed@.to_multiset_ensures();
    assert forall|c: char| copy.alphabet().contains(c) <==> seed.alphabet().contains(c) by {
        assert(copy@.contains(c) <==> given.to_multiset().count(c) > 0);
        assert(seed@.contains(c) <==> seed@.to_multiset().count(c) > 0);
    }
    assert(copy.alphabet() =~= seed.alphabet());
}

/// The settings of the evolutionary search.
pub struct Genetic {
    population_size: usize,
    island_size: usize,
}

impl Genetic {
    #[verifier::type_invariant]
    spec fn inv(&self) -> bool {
        self.population_size >= MIN_POPULATION
    }

    /// The number of individuals on each island.
    pub closed spec fn spec_population_size(&self) -> usize {
        self.population_size
    }

    /// The number of islands.
    pub closed spec fn spec_island_size(&self) -> usize {
        self.island_size
    }

    /// The number of individuals that pass into the next generation as they
    /// are: two of an even population, one of an odd one.
    pub open spec fn spec_elite_num(&self) -> usize {
        if self.spec_population_size() % 2 == 0 {
            2
        } else {
            1
        }
    }

    /// The settings, where the population has at least `MIN_POPULATION`
    /// individuals, and an error where it is smaller.
    pub fn new(population_size: usize, island_size: usize) -> (r: Result<Self, &'static str>)
        ensures
            r is Ok <==> population_size >= MIN_POPULATION,
            r is Ok ==> r->Ok_0.spec_population_size() == population_size
                && r->Ok_0.spec_island_size() == island_size,
            r is Err ==> r->Err_0@ == "population_size must be greater than 2"@,
    {
        if population_size < MIN_POPULATION {
            return Err("population_size must be greater than 2");
        }
        Ok(Self { population_size, island_size })
    }

    pub fn population_size(&self) -> (r: usize)
        ensures
            r == self.spec_population_size(),
            r >= MIN_POPULATION,
    {
        proof {
            use_type_invariant(self);
        }
        self.population_size
    }

    pub fn island_size(&self) -> (r: usize)
        ensures
            r == self.spec_island_size(),
    {
        self.island_size
    }

    pub fn elite_num(&self) -> (r: usize)
        ensures
            r == self.spec_elite_num(),
            1 <= r < self.spec_population_size(),
    {
        proof {
            use_type_invariant(self);
        }
        if self.population_size % 2 == 0 {
            2
        } else {
            1
        }
    }

    /// The individual that the search starts from: the usable characters in
    /// the order given, padded to fill the grid.  It is not yet evaluated.
    pub fn seed<C>(physical_layout: &PhysicalLayout<C>, usable_chars: &Vec<char>) -> (r: Individual)
        ensures
            is_padding_of(r.spec_layout()@, usable_chars@, NUM_KEYS as nat),
            usable_chars@.no_duplicates() ==> r.wf(),
            r.spec_layout().is_exact(),
            r.spec_layout().spec_char_nums() == spec_count_distinct(usable_chars@),
            r.spec_score() == 0,
    {
        let layout = LogicalLayout::from_usable_chars(physical_layout, usable_chars.clone());
        Individual::new(layout)
    }

    /// The first generation: on each island a full population of
    /// rearrangements of the seed, reshuffled before each individual where
    /// `shuffle` is set and all equal to the seed where it is not.  None is
    /// evaluated yet.
    pub fn populate<C>(
        &self,
        physical_layout: &PhysicalLayout<C>,
        seed: &Individual,
        shuffle: bool,
    ) -> (islands: Vec<Vec<Individual>>)
        requires
            seed.wf(),
            seed.spec_layout()@.len() >= NUM_KEYS,
        ensures
            islands@.len() == self.spec_island_size(),
            forall|i: int|
                0 <= i < islands@.len() ==> (#[trigger] islands@[i])@.len()
                    == self.spec_population_size(),
            forall|i: int, k: int|
                0 <= i < islands@.len() && 0 <= k < islands@[i]@.len() ==> {
                    let individual = #[trigger] islands@[i]@[k];
                    &&& compatible(individual.spec_layout(), seed.spec_layout())
                    &&& individual.spec_layout()@.to_multiset()
                        == seed.spec_layout()@.to_multiset()
                    &&& !shuffle ==> individual.spec_layout()@ == seed.spec_layout()@
                    &&& individual.spec_layout().is_exact()
                    &&& individual.spec_score() == 0
                },
    {
        let mut layout = seed.layout();
        let mut islands: Vec<Vec<Individual>> = Vec::new();
        let mut i: usize = 0;
        while i < self.island_size
            invariant
                i <= self.island_size,
                islands@.len() == i,
                seed.wf(),
                seed.spec_layout()@.len() >= NUM_KEYS,
                layout@.to_multiset() == seed.spec_layout()@.to_multiset(),
                !shuffle ==> layout@ == seed.spec_layout()@,
                forall|a: int|
                    0 <= a < islands@.len() ==> (#[trigger] islands@[a])@.len()
                        == self.spec_population_size(),
                forall|a: int, k: int|
                    0 <= a < islands@.len() && 0 <= k < islands@[a]@.len() ==> {
                        let individual = #[trigger] islands@[a]@[k];
                        &&& compatible(individual.spec_layout(), seed.spec_layout())
                        &&& individual.spec_layout()@.to_multiset()
                            == seed.spec_layout()@.to_multiset()
                        &&& !shuffle ==> individual.spec_layout()@ == seed.spec_layout()@
                        &&& individual.spec_layout().is_exact()
                    &&& individual.spec_score() == 0
                    },
            decreases self.island_size - i,
        {
            let mut population: Vec<Individual> = Vec::new();
            let mut k: usize = 0;
            while k < self.population_size
                invariant
                    k <= self.population_size,
                    population@.len() == k,
                    seed.wf(),
                    seed.spec_layout()@.len() >= NUM_KEYS,
                    layout@.to_multiset() == seed.spec_layout()@.to_multiset(),
                    !shuffle ==> layout@ == seed.spec_layout()@,
                    forall|j: int|
                        0 <= j < population@.len() ==> {
                            let individual = #[trigger] population@[j];
                            &&& compatible(individual.spec_layout(), seed.spec_layout())
                            &&& individual.spec_layout()@.to_multiset()
                                == seed.spec_layout()@.to_multiset()
                            &&& !shuffle ==> individual.spec_layout()@ == seed.spec_layout()@
                            &&& individual.spec_layout().is_exact()
                    &&& individual.spec_score() == 0
                        },
                decreases self.population_size - k,
            {
                if shuffle {
                    shuffle_chars(&mut layout);
                }
                proof {
                    layout@.to_multiset_ensures();
                    seed.spec_layout()@.to_multiset_ensures();
                }
                let copy = LogicalLayout::from_usable_chars(physical_layout, layout.clone());
                proof {
                    lemma_rearranged(copy, layout@, seed.spec_layout());
                }
                population.push(Individual::new(copy));
                k += 1;
            }
            islands.push(population);
            i += 1;
        }
        islands
    }

    /// One child of two individuals of a population.  Where both parents are
    /// the same individual the child is a copy of it, score included;
    /// otherwise it is crossed from the two and then mutated, and is still to
    /// be evaluated.
    pub fn breed(
        population: &Vec<Individual>,
        parent1_index: usize,
        parent2_index: usize,
        usable_chars: &Vec<char>,
        rng: &mut ThreadRng,
        rng_fast: &mut fastrand::Rng,
    ) -> (child: Individual)
        requires
            parent1_index < population@.len(),
            parent2_index < population@.len(),
            compatible(
                population@[parent1_index as int].spec_layout(),
                population@[parent2_index as int].spec_layout(),
            ),
            population@[parent1_index as int].spec_layout()@.len() > 0,
            forall|k: int|
                0 <= k < usable_chars@.len() ==> population@[parent1_index as int].spec_layout().alphabet().contains(
                #[trigger] usable_chars@[k]),
        ensures
            compatible(child.spec_layout(), population@[parent1_index as int].spec_layout()),
            population@[parent1_index as int].spec_layout().is_exact()
                ==> child.spec_layout().is_exact(),
            parent1_index == parent2_index ==> child.same_as(population@[parent1_index as int]),
            parent1_index != parent2_index ==> child.spec_score() == 0,
            parent1_index != parent2_index ==> exists|crossed: Seq<char>|
                #[trigger] is_crossover_of(
                    crossed,
                    population@[parent1_index as int].spec_layout(),
                    population@[parent2_index as int].spec_layout(),
                    usable_chars@,
                ) && is_mutation_of(child.spec_layout()@, crossed),
            child.spec_layout().spec_char_nums()
                == population@[parent1_index as int].spec_layout().spec_char_nums(),
            is_bred_from(
                population@,
                usable_chars@,
                parent1_index as int,
                parent2_index as int,
                child.spec_layout(),
            ),
    {
        if parent1_index == parent2_index {
            return population[parent1_index].clone();
        }
        let parent1 = &population[parent1_index];
        let parent2 = &population[parent2_index];
        let mut child = parent1.cyclic_crossover(parent2, usable_chars, rng);
        let ghost crossed = child.spec_layout()@;
        child.mutate(rng_fast);
        proof {
            assert(is_crossover_of(
                crossed,
                population@[parent1_index as int].spec_layout(),
                population@[parent2_index as int].spec_layout(),
                usable_chars@,
            ));
            assert(is_mutation_of(child.spec_layout()@, crossed));
        }
        child
    }

    /// The next generation of one island: the elite of the old population
    /// with the children, ordered by rising score.  The elite are the
    /// individuals with the lowest scores; of equal scores the one that
    /// stood first.  The children come evaluated; the elite keep the scores
    /// they have.
    pub fn advance(&self, population: &mut Vec<Individual>, children: Vec<Individual>)
        requires
            old(population)@.len() == self.spec_population_size(),
            children@.len() == self.spec_population_size() - self.spec_elite_num(),
        ensures
            final(population)@.len() == self.spec_population_size(),
            exists|ranked: Seq<Individual>, ranks: Seq<int>, places: Seq<int>|
                #[trigger] stably_placed(ranked, old(population)@, ranks) && #[trigger] stably_placed(
                    final(population)@,
                    ranked.take(self.spec_elite_num() as int) + children@,
                    places,
                ),
            forall|k: int|
                0 <= k < final(population)@.len() ==> old(population)@.contains(
                    #[trigger] final(population)@[k],
                ) || children@.contains(final(population)@[k]),
            forall|c: int|
                0 <= c < children@.len() ==> final(population)@.contains(#[trigger] children@[c]),
            sorted_by_score(final(population)@),
            forall|i: int|
                0 <= i < old(population)@.len() ==> final(population)@[0].spec_score() <= (
                #[trigger] old(population)@[i]).spec_score(),
    {
        let elite_num = self.elite_num();
        let ghost given = children@;
        let mut children = children;
        sort_population(population);
        let ghost ranked = population@;
        population.truncate(elite_num);
        population.append(&mut children);
        let ghost merged = population@;
        sort_population(population);
        proof {
            broadcast use vstd::multiset::group_multiset_axioms;

            assert(merged =~= ranked.take(elite_num as int) + given);
            merged.to_multiset_ensures();
            ranked.to_multiset_ensures();
            old(population)@.to_multiset_ensures();
            population@.to_multiset_ensures();
            lemma_elitism_monotone(old(population)@, ranked, population@, elite_num as int, given);
            assert forall|k: int| 0 <= k < population@.len() implies old(population)@.contains(
                #[trigger] population@[k],
            ) || given.contains(population@[k]) by {
                assert(population@.to_multiset().count(population@[k]) > 0);
                assert(merged.contains(population@[k]));
                let m = choose|m: int| 0 <= m < merged.len() && merged[m] == population@[k];
                if m < elite_num {
                    assert(merged[m] == ranked[m]);
                    assert(ranked.to_multiset().count(ranked[m]) > 0);
                } else {
                    assert(merged[m] == given[m - elite_num]);
                }
            }
            assert forall|c: int| 0 <= c < given.len() implies population@.contains(
                #[trigger] given[c],
            ) by {
                assert(merged[elite_num + c] == given[c]);
                assert(merged.to_multiset().count(merged[elite_num + c]) > 0);
            }
        }
    }

    /// The island that the best individual of island `to` comes from: the
    /// one before it on the ring.
    pub open spec fn spec_migration_source(to: int, islands: int) -> int {
        if to == 0 {
            islands - 1
        } else {
            to - 1
        }
    }

    /// Sends a copy of the best individual of each island to the next island
    /// on the ring, where it takes the place of the last individual.
    pub fn migrate(&self, islands: &mut Vec<Vec<Individual>>)
        requires
            forall|j: int|
                0 <= j < old(islands)@.len() ==> (#[trigger] old(islands)@[j])@.len()
                    == self.spec_population_size(),
        ensures
            final(islands)@.len() == old(islands)@.len(),
            forall|j: int|
                0 <= j < final(islands)@.len() ==> (#[trigger] final(islands)@[j])@.len()
                    == self.spec_population_size(),
            forall|j: int, k: int|
                0 <= j < final(islands)@.len() && 0 <= k < self.spec_population_size() - 1
                    ==> #[trigger] final(islands)@[j]@[k] == old(islands)@[j]@[k],
            forall|j: int|
                0 <= j < final(islands)@.len() ==> (#[trigger] final(islands)@[j])@[self.spec_population_size()
                    - 1].same_as(
                    old(islands)@[Self::spec_migration_source(j, old(islands)@.len() as int)]@[0],
                ),
    {
        proof {
            use_type_invariant(self);
        }
        let n = islands.len();
        let last = self.population_size - 1;
        let mut idx: usize = 0;
        while idx < n
            invariant
                idx <= n,
                n == islands@.len(),
                n == old(islands)@.len(),
                last == self.population_size - 1,
                self.population_size >= MIN_POPULATION,
                forall|j: int|
                    0 <= j < n ==> (#[trigger] islands@[j])@.len() == self.population_size,
                forall|j: int|
                    0 <= j < n ==> (#[trigger] old(islands)@[j])@.len() == self.population_size,
                forall|j: int, k: int|
                    0 <= j < n && 0 <= k < last ==> #[trigger] islands@[j]@[k] == old(
                        islands,
                    )@[j]@[k],
                forall|j: int|
                    0 <= j < n && ((1 <= j <= idx) || (j == 0 && idx == n)) ==> (#[trigger] islands@[j])@[last as int].same_as(
                    old(islands)@[Self::spec_migration_source(j, n as int)]@[0]),
            decreases n - idx,
        {
            let best_individual = islands[idx][0].clone();
            let next_idx = if idx + 1 == n {
                0
            } else {
                idx + 1
            };
            let ghost before = islands@;
            islands[next_idx][last] = best_individual;
            proof {
                assert(Self::spec_migration_source(next_idx as int, n as int) == idx);
                assert forall|j: int, k: int| 0 <= j < n && 0 <= k < last implies #[trigger] islands@[j]@[k]
                    == old(islands)@[j]@[k] by {
                    assert(before[j]@[k] == old(islands)@[j]@[k]);
                }
            }
            idx += 1;
        }
    }

    /// Island `j` is the first whose best individual no other island beats.
    pub open spec fn is_best_island(islands: Seq<Vec<Individual>>, j: int) -> bool {
        &&& 0 <= j < islands.len()
        &&& forall|k: int|
            0 <= k < islands.len() ==> islands[j]@[0].spec_score() <= (#[trigger] islands[k])@[0].spec_score()
        &&& forall|k: int|
            0 <= k < j ==> (#[trigger] islands[k])@[0].spec_score() > islands[j]@[0].spec_score()
    }

    /// The first island whose best individual no other island beats, and
    /// `None` where there is no island.
    pub fn best_island(islands: &Vec<Vec<Individual>>) -> (r: Option<usize>)
        requires
            forall|j: int| 0 <= j < islands@.len() ==> (#[trigger] islands@[j])@.len() > 0,
        ensures
            r is None <==> islands@.len() == 0,
            r is Some ==> Self::is_best_island(islands@, r->0 as int),
    {
        if islands.len() == 0 {
            return None;
        }
        let mut best: usize = 0;
        let mut k: usize = 1;
        while k < islands.len()
            invariant
                1 <= k <= islands@.len(),
                best < k,
                forall|j: int| 0 <= j < islands@.len() ==> (#[trigger] islands@[j])@.len() > 0,
                forall|j: int|
                    0 <= j < k ==> islands@[best as int]@[0].spec_score() <= (#[trigger] islands@[j])@[0].spec_score(),
                forall|j: int|
                    0 <= j < best ==> (#[trigger] islands@[j])@[0].spec_score()
                        > islands@[best as int]@[0].spec_score(),
            decreases islands@.len() - k,
        {
            if islands[k][0].score() < islands[best][0].score() {
                best = k;
            }
            k += 1;
        }
        Some(best)
    }

    /// Keeps the best individual seen so far: where the best of the islands
    /// has a lower score than `best`, a copy of it takes the place of `best`.
    pub fn update_best(islands: &Vec<Vec<Individual>>, best: &mut Individual)
        requires
            forall|j: int| 0 <= j < islands@.len() ==> (#[trigger] islands@[j])@.len() > 0,
        ensures
            islands@.len() == 0 ==> *final(best) == *old(best),
            islands@.len() > 0 ==> exists|j: int| Self::is_best_island(islands@, j),
            forall|j: int|
                Self::is_best_island(islands@, j) ==> if islands@[j]@[0].spec_score() < old(
                    best,
                ).spec_score() {
                    final(best).same_as(islands@[j]@[0])
                } else {
                    *final(best) == *old(best)
                },
    {
        match Self::best_island(islands) {
            Some(current) => {
                assert forall|j: int| Self::is_best_island(islands@, j) implies j == current by {
                    if j < current {
                        assert(islands@[j]@[0].spec_score() > islands@[current as int]@[0].spec_score());
                        assert(islands@[j]@[0].spec_score() <= islands@[current as int]@[0].spec_score());
                    }
                    if j > current {
                        assert(islands@[current as int]@[0].spec_score() > islands@[j]@[0].spec_score());
                        assert(islands@[current as int]@[0].spec_score() <= islands@[j]@[0].spec_score());
                    }
                }
                if islands[current][0].score() < best.score() {
                    *best = islands[current][0].clone();
                }
            },
            None => {},
        }
    }

    /// The children of one generation of an island, each bred from two
    /// parents that `select` picks, and evaluated.
    pub fn breed_children<E: Fn(&LogicalLayout) -> u32, S: Fn(&Vec<Individual>) -> (usize, usize)>(
        &self,
        population: &Vec<Individual>,
        usable_chars: &Vec<char>,
        evaluate: &E,
        select: &S,
        rng: &mut ThreadRng,
        rng_fast: &mut fastrand::Rng,
    ) -> (children: Vec<Individual>)
        requires
            is_cost_function(*evaluate),
            is_selection(*select),
            population@.len() == self.spec_population_size(),
            population@[0].spec_layout()@.len() > 0,
            forall|k: int|
                0 <= k < population@.len() ==> compatible(
                    (#[trigger] population@[k]).spec_layout(),
                    population@[0].spec_layout(),
                ),
            forall|k: int|
                0 <= k < population@.len() ==> (#[trigger] population@[k]).spec_layout().is_exact(),
            forall|k: int|
                0 <= k < usable_chars@.len() ==> population@[0].spec_layout().alphabet().contains(
                    #[trigger] usable_chars@[k],
                ),
        ensures
            children@.len() == self.spec_population_size() - self.spec_elite_num(),
            forall|k: int|
                0 <= k < children@.len() ==> fits(
                    *evaluate,
                    #[trigger] children@[k],
                    population@[0].spec_layout(),
                ),
            forall|k: int|
                0 <= k < children@.len() ==> is_child_of(
                    *select,
                    *population,
                    usable_chars@,
                    (#[trigger] children@[k]).spec_layout(),
                ),
    {
        let count = self.population_size() - self.elite_num();
        let mut children: Vec<Individual> = Vec::new();
        while children.len() < count
            invariant
                count == self.spec_population_size() - self.spec_elite_num(),
                children@.len() <= count,
                is_cost_function(*evaluate),
                is_selection(*select),
                population@.len() == self.spec_population_size(),
                population@.len() > 0,
                population@[0].spec_layout()@.len() > 0,
                forall|k: int|
                    0 <= k < population@.len() ==> (#[trigger] population@[k]).spec_layout().is_exact(),
                forall|k: int|
                    0 <= k < population@.len() ==> compatible(
                        (#[trigger] population@[k]).spec_layout(),
                        population@[0].spec_layout(),
                    ),
                forall|k: int|
                    0 <= k < usable_chars@.len() ==> population@[0].spec_layout().alphabet().contains(
                    #[trigger] usable_chars@[k]),
                forall|k: int|
                    0 <= k < children@.len() ==> fits(
                        *evaluate,
                        #[trigger] children@[k],
                        population@[0].spec_layout(),
                    ),
                forall|k: int|
                    0 <= k < children@.len() ==> is_child_of(
                        *select,
                        *population,
                        usable_chars@,
                        (#[trigger] children@[k]).spec_layout(),
                    ),
            decreases count - children@.len(),
        {
            let (parent1_index, parent2_index) = select(population);
            proof {
                let first = population@[parent1_index as int];
                let second = population@[parent2_index as int];
                assert(compatible(first.spec_layout(), population@[0].spec_layout()));
                assert(compatible(second.spec_layout(), population@[0].spec_layout()));
            }
            let mut child = Self::breed(
                population,
                parent1_index,
                parent2_index,
                usable_chars,
                rng,
                rng_fast,
            );
            child.evaluate(evaluate);
            proof {
                assert(select.ensures((population,), (parent1_index, parent2_index)));
                assert(is_child_of(*select, *population, usable_chars@, child.spec_layout()));
            }
            let ghost before = children@;
            children.push(child);
            proof {
                assert forall|k: int| 0 <= k < children@.len() implies is_child_of(
                    *select,
                    *population,
                    usable_chars@,
                    (#[trigger] children@[k]).spec_layout(),
                ) by {
                    if k < before.len() {
                        assert(children@[k] == before[k]);
                    }
                }
            }
        }
        children
    }

    /// One generation of one island: the children are bred and evaluated,
    /// and with the elite of the old population they make the new one,
    /// ordered by rising score.
    pub fn evolve_island<E: Fn(&LogicalLayout) -> u32, S: Fn(&Vec<Individual>) -> (usize, usize)>(
        &self,
        population: &mut Vec<Individual>,
        usable_chars: &Vec<char>,
        evaluate: &E,
        select: &S,
        rng: &mut ThreadRng,
        rng_fast: &mut fastrand::Rng,
    )
        requires
            is_cost_function(*evaluate),
            is_selection(*select),
            old(population)@.len() == self.spec_population_size(),
            old(population)@[0].spec_layout()@.len() > 0,
            forall|k: int|
                0 <= k < old(population)@.len() ==> fits(
                    *evaluate,
                    #[trigger] old(population)@[k],
                    old(population)@[0].spec_layout(),
                ),
            forall|k: int|
                0 <= k < usable_chars@.len() ==> old(
                    population,
                )@[0].spec_layout().alphabet().contains(#[trigger] usable_chars@[k]),
        ensures
            final(population)@.len() == self.spec_population_size(),
            sorted_by_score(final(population)@),
            forall|i: int|
                0 <= i < old(population)@.len() ==> final(population)@[0].spec_score() <= (
                #[trigger] old(population)@[i]).spec_score(),
            forall|k: int|
                0 <= k < final(population)@.len() ==> fits(
                    *evaluate,
                    #[trigger] final(population)@[k],
                    old(population)@[0].spec_layout(),
                ),
            evolved(
                *evaluate,
                *select,
                usable_chars@,
                self.spec_elite_num() as int,
                *old(population),
                *final(population),
            ),
    {
        let children = self.breed_children(
            &*population,
            usable_chars,
            evaluate,
            select,
            rng,
            rng_fast,
        );
        let ghost given = children@;
        self.advance(population, children);
        proof {
            let (ranked, ranks, places) = choose|
                ranked: Seq<Individual>,
                ranks: Seq<int>,
                places: Seq<int>,
            |
                #[trigger] stably_placed(ranked, old(population)@, ranks) && #[trigger] stably_placed(
                    population@,
                    ranked.take(self.spec_elite_num() as int) + given,
                    places,
                );
            assert forall|k: int| 0 <= k < given.len() implies scored(*evaluate, #[trigger] given[k])
                && is_child_of(*select, *old(population), usable_chars@, given[k].spec_layout()) by {
                assert(fits(*evaluate, given[k], old(population)@[0].spec_layout()));
            }
            assert(evolved(
                *evaluate,
                *select,
                usable_chars@,
                self.spec_elite_num() as int,
                *old(population),
                *population,
            ));
            assert forall|k: int| 0 <= k < population@.len() implies fits(
                *evaluate,
                #[trigger] population@[k],
                old(population)@[0].spec_layout(),
            ) by {
                if old(population)@.contains(population@[k]) {
                    let m = choose|m: int|
                        0 <= m < old(population)@.len() && old(population)@[m] == population@[k];
                    assert(fits(*evaluate, old(population)@[m], old(population)@[0].spec_layout()));
                } else {
                    let m = choose|m: int| 0 <= m < given.len() && given[m] == population@[k];
                    assert(fits(*evaluate, given[m], old(population)@[0].spec_layout()));
                }
            }
        }
    }

    /// Evaluates every individual of a population.
    pub fn evaluate_population<E: Fn(&LogicalLayout) -> u32>(
        population: &mut Vec<Individual>,
        evaluate: &E,
    )
        requires
            is_cost_function(*evaluate),
        ensures
            final(population)@.len() == old(population)@.len(),
            forall|k: int|
                0 <= k < final(population)@.len() ==> (#[trigger] final(population)@[k]).spec_layout()
                    == old(population)@[k].spec_layout(),
            forall|k: int|
                0 <= k < final(population)@.len() ==> scored(
                    *evaluate,
                    #[trigger] final(population)@[k],
                ),
    {
        let mut k: usize = 0;
        while k < population.len()
            invariant
                is_cost_function(*evaluate),
                k <= population@.len(),
                population@.len() == old(population)@.len(),
                forall|j: int|
                    0 <= j < population@.len() ==> (#[trigger] population@[j]).spec_layout() == old(
                        population,
                    )@[j].spec_layout(),
                forall|j: int| 0 <= j < k ==> scored(*evaluate, #[trigger] population@[j]),
            decreases population@.len() - k,
        {
            population[k].evaluate(evaluate);
            k += 1;
        }
    }

    /// Searches for a cheap layout of the usable characters.  The islands
    /// are populated from the seed and evaluated; then, `iterations` times,
    /// every island passes through one generation, the best individuals
    /// migrate along the ring, and the best individual seen so far is kept.
    /// Returns that individual.
    ///
    /// `evaluate` works the score of a layout out, and `select` picks the
    /// two parents of each child from a population.
    pub fn optimize<C, E: Fn(&LogicalLayout) -> u32, S: Fn(&Vec<Individual>) -> (usize, usize)>(
        &self,
        physical_layout: &PhysicalLayout<C>,
        usable_chars: &Vec<char>,
        evaluate: &E,
        select: &S,
        iterations: usize,
        shuffle: bool,
        rng: &mut ThreadRng,
        rng_fast: &mut fastrand::Rng,
    ) -> (best: Individual)
        requires
            is_cost_function(*evaluate),
            is_selection(*select),
            usable_chars@.no_duplicates(),
        ensures
            best.wf(),
            best.spec_layout().is_exact(),
            scored(*evaluate, best),
            exists|first: LogicalLayout, first_score: u32|
                {
                    &&& #[trigger] evaluate.ensures((&first,), first_score)
                    &&& is_padding_of(first@, usable_chars@, NUM_KEYS as nat)
                    &&& first.is_exact()
                    &&& first.spec_char_nums() == spec_count_distinct(usable_chars@)
                    &&& compatible(best.spec_layout(), first)
                    &&& best.spec_score() <= first_score
                },
            exists|seed: Seq<char>|
                {
                    &&& #[trigger] is_padding_of(seed, usable_chars@, NUM_KEYS as nat)
                    &&& best.spec_layout()@.len() == seed.len()
                    &&& forall|c: char| best.spec_layout().alphabet().contains(c) <==> seed.contains(c)
                },
            exists|generations: Seq<Seq<Vec<Individual>>>, bests: Seq<Individual>|
                {
                    &&& #[trigger] searched(
                        *evaluate,
                        *select,
                        usable_chars@,
                        self.spec_elite_num() as int,
                        self.spec_population_size() as int,
                        generations,
                        bests,
                    )
                    &&& generations.len() == iterations + 1
                    &&& is_first_generation(
                        *evaluate,
                        self.spec_island_size() as int,
                        self.spec_population_size() as int,
                        usable_chars@,
                        shuffle,
                        generations[0],
                        bests[0],
                    )
                    &&& bests.last() == best
                },
    {
        proof {
            use_type_invariant(self);
        }
        let seed = Self::seed(physical_layout, usable_chars);
        proof {
            assert forall|k: int| 0 <= k < usable_chars@.len() implies seed.spec_layout().alphabet().contains(
            #[trigger] usable_chars@[k]) by {
                assert(seed.spec_layout()@.subrange(0, usable_chars@.len() as int)[k]
                    == seed.spec_layout()@[k]);
                assert(seed.spec_layout()@.contains(seed.spec_layout()@[k]));
            }
        }
        let mut best_layout = seed.clone();
        best_layout.evaluate(evaluate);
        let ghost first = best_layout.spec_layout();
        let ghost first_score = best_layout.spec_score();
        let mut islands = self.populate(physical_layout, &seed, shuffle);
        let ghost populated = islands@;
        let mut idx: usize = 0;
        while idx < islands.len()
            invariant
                is_cost_function(*evaluate),
                idx <= islands@.len(),
                islands@.len() == populated.len(),
                forall|j: int|
                    0 <= j < islands@.len() ==> (#[trigger] populated[j])@.len()
                        == self.spec_population_size(),
                forall|j: int, k: int|
                    0 <= j < islands@.len() && 0 <= k < islands@[j]@.len() ==> (
                    #[trigger] islands@[j]@[k]).spec_layout() == populated[j]@[k].spec_layout(),
                forall|j: int|
                    0 <= j < islands@.len() ==> (#[trigger] islands@[j])@.len()
                        == self.spec_population_size(),
                forall|j: int, k: int|
                    0 <= j < islands@.len() && 0 <= k < islands@[j]@.len() ==> compatible(
                        (#[trigger] islands@[j]@[k]).spec_layout(),
                        seed.spec_layout(),
                    ) && islands@[j]@[k].spec_layout().is_exact(),
                forall|j: int, k: int|
                    0 <= j < idx && 0 <= k < islands@[j]@.len() ==> scored(
                        *evaluate,
                        #[trigger] islands@[j]@[k],
                    ),
            decreases islands@.len() - idx,
        {
            let ghost before = islands@;
            Self::evaluate_population(&mut islands[idx], evaluate);
            proof {
                assert forall|j: int, k: int|
                    0 <= j < islands@.len() && 0 <= k < islands@[j]@.len() implies compatible(
                    (#[trigger] islands@[j]@[k]).spec_layout(),
                    seed.spec_layout(),
                ) && islands@[j]@[k].spec_layout().is_exact() by {
                    assert(compatible(before[j]@[k].spec_layout(), seed.spec_layout()));
                    assert(before[j]@[k].spec_layout().is_exact());
                }
                assert forall|j: int, k: int|
                    0 <= j < islands@.len() && 0 <= k < islands@[j]@.len() implies (
                #[trigger] islands@[j]@[k]).spec_layout() == populated[j]@[k].spec_layout() by {
                    assert(before[j]@[k].spec_layout() == populated[j]@[k].spec_layout());
                }
                assert forall|j: int, k: int|
                    0 <= j < idx + 1 && 0 <= k < islands@[j]@.len() implies scored(
                    *evaluate,
                    #[trigger] islands@[j]@[k],
                ) by {
                    if j < idx {
                        assert(scored(*evaluate, before[j]@[k]));
                    }
                }
            }
            idx += 1;
        }
        let ghost mut generations: Seq<Seq<Vec<Individual>>> = seq![islands@];
        let ghost mut bests: Seq<Individual> = seq![best_layout];
        proof {
            assert forall|j: int, k: int|
                0 <= j < islands@.len() && 0 <= k < islands@[j]@.len() implies {
                let individual = #[trigger] islands@[j]@[k];
                &&& fits(*evaluate, individual, best_layout.spec_layout())
                &&& individual.spec_layout()@.to_multiset() == best_layout.spec_layout()@.to_multiset()
                &&& !shuffle ==> individual.spec_layout()@ == best_layout.spec_layout()@
            } by {
                let individual = islands@[j]@[k];
                assert(individual.spec_layout() == populated[j]@[k].spec_layout());
                assert(compatible(individual.spec_layout(), seed.spec_layout()));
                assert(scored(*evaluate, individual));
            }
            assert(is_first_generation(
                *evaluate,
                self.spec_island_size() as int,
                self.spec_population_size() as int,
                usable_chars@,
                shuffle,
                generations[0],
                bests[0],
            ));
        }
        let ghost first_islands = islands@;
        let ghost first_best = best_layout;
        let mut i: usize = 0;
        while i < iterations
            invariant
                i <= iterations,
                generations.len() == i + 1,
                generations[0] == first_islands,
                bests[0] == first_best,
                generations.last() == islands@,
                bests.last() == best_layout,
                searched(
                    *evaluate,
                    *select,
                    usable_chars@,
                    self.spec_elite_num() as int,
                    self.spec_population_size() as int,
                    generations,
                    bests,
                ),
                is_cost_function(*evaluate),
                is_selection(*select),
                self.spec_population_size() >= MIN_POPULATION,
                seed.spec_layout()@.len() > 0,
                seed.wf(),
                forall|k: int|
                    0 <= k < usable_chars@.len() ==> seed.spec_layout().alphabet().contains(
                        #[trigger] usable_chars@[k],
                    ),
                fits(*evaluate, best_layout, seed.spec_layout()),
                best_layout.spec_score() <= first_score,
                forall|j: int|
                    0 <= j < islands@.len() ==> (#[trigger] islands@[j])@.len()
                        == self.spec_population_size(),
                forall|j: int, k: int|
                    0 <= j < islands@.len() && 0 <= k < islands@[j]@.len() ==> fits(
                        *evaluate,
                        #[trigger] islands@[j]@[k],
                        seed.spec_layout(),
                    ),
            decreases iterations - i,
        {
            let ghost generation_before = islands@;
            let mut idx: usize = 0;
            while idx < islands.len()
                invariant
                    islands@.len() == generation_before.len(),
                    forall|j: int|
                        0 <= j < idx ==> evolved(
                            *evaluate,
                            *select,
                            usable_chars@,
                            self.spec_elite_num() as int,
                            #[trigger] generation_before[j],
                            islands@[j],
                        ),
                    forall|j: int|
                        idx <= j < islands@.len() ==> #[trigger] islands@[j] == generation_before[j],
                    is_cost_function(*evaluate),
                    is_selection(*select),
                    self.spec_population_size() >= MIN_POPULATION,
                    seed.spec_layout()@.len() > 0,
                    seed.wf(),
                    forall|k: int|
                        0 <= k < usable_chars@.len() ==> seed.spec_layout().alphabet().contains(
                            #[trigger] usable_chars@[k],
                        ),
                    idx <= islands@.len(),
                    forall|j: int|
                        0 <= j < islands@.len() ==> (#[trigger] islands@[j])@.len()
                            == self.spec_population_size(),
                    forall|j: int, k: int|
                        0 <= j < islands@.len() && 0 <= k < islands@[j]@.len() ==> fits(
                            *evaluate,
                            #[trigger] islands@[j]@[k],
                            seed.spec_layout(),
                        ),
                decreases islands@.len() - idx,
            {
                let ghost before = islands@;
                proof {
                    let first = before[idx as int]@[0];
                    assert(fits(*evaluate, first, seed.spec_layout()));
                    assert forall|k: int| 0 <= k < before[idx as int]@.len() implies fits(
                        *evaluate,
                        #[trigger] before[idx as int]@[k],
                        first.spec_layout(),
                    ) by {
                        assert(fits(*evaluate, before[idx as int]@[k], seed.spec_layout()));
                    }
                }
                self.evolve_island(&mut islands[idx], usable_chars, evaluate, select, rng, rng_fast);
                proof {
                    assert forall|j: int| 0 <= j < idx + 1 implies evolved(
                        *evaluate,
                        *select,
                        usable_chars@,
                        self.spec_elite_num() as int,
                        #[trigger] generation_before[j],
                        islands@[j],
                    ) by {
                        if j < idx {
                            assert(islands@[j] == before[j]);
                        } else {
                            assert(before[j] == generation_before[j]);
                        }
                    }
                    assert forall|j: int| idx + 1 <= j < islands@.len() implies #[trigger] islands@[j]
                        == generation_before[j] by {
                        assert(islands@[j] == before[j]);
                    }
                    assert forall|j: int, k: int|
                        0 <= j < islands@.len() && 0 <= k < islands@[j]@.len() implies fits(
                        *evaluate,
                        #[trigger] islands@[j]@[k],
                        seed.spec_layout(),
                    ) by {
                        if j != idx {
                            assert(fits(*evaluate, before[j]@[k], seed.spec_layout()));
                        } else {
                            assert(fits(*evaluate, islands@[j]@[k], before[idx as int]@[0].spec_layout()));
                        }
                    }
                }
                idx += 1;
            }
            let ghost before = islands@;
            self.migrate(&mut islands);
            proof {
                assert(migrated(self.spec_population_size() as int, before, islands@));
                assert(generation(
                    *evaluate,
                    *select,
                    usable_chars@,
                    self.spec_elite_num() as int,
                    self.spec_population_size() as int,
                    generation_before,
                    islands@,
                ));
                let last = self.spec_population_size() - 1;
                assert forall|j: int, k: int|
                    0 <= j < islands@.len() && 0 <= k < islands@[j]@.len() implies fits(
                    *evaluate,
                    #[trigger] islands@[j]@[k],
                    seed.spec_layout(),
                ) by {
                    if k < last {
                        assert(islands@[j]@[k] == before[j]@[k]);
                        assert(fits(*evaluate, before[j]@[k], seed.spec_layout()));
                    } else {
                        let source = before[Self::spec_migration_source(j, before.len() as int)]@[0];
                        assert(fits(*evaluate, source, seed.spec_layout()));
                        assert(islands@[j]@[last].same_as(source));
                        lemma_same_fits(*evaluate, source, islands@[j]@[k], seed.spec_layout());
                    }
                }
            }
            let ghost best_before = best_layout;
            Self::update_best(&islands, &mut best_layout);
            proof {
                if islands@.len() > 0 {
                    let j = choose|j: int| Self::is_best_island(islands@, j);
                    assert(fits(*evaluate, islands@[j]@[0], seed.spec_layout()));
                    if islands@[j]@[0].spec_score() < best_before.spec_score() {
                        lemma_same_fits(*evaluate, islands@[j]@[0], best_layout, seed.spec_layout());
                    }
                }
                assert(kept_best(islands@, best_before, best_layout));
                let more_generations = generations.push(islands@);
                let more_bests = bests.push(best_layout);
                assert forall|g: int| 0 <= g < more_generations.len() - 1 implies generation(
                    *evaluate,
                    *select,
                    usable_chars@,
                    self.spec_elite_num() as int,
                    self.spec_population_size() as int,
                    #[trigger] more_generations[g],
                    more_generations[g + 1],
                ) && kept_best(more_generations[g + 1], more_bests[g], more_bests[g + 1]) by {
                    if g < generations.len() - 1 {
                        assert(more_generations[g] == generations[g]);
                        assert(more_generations[g + 1] == generations[g + 1]);
                        assert(more_bests[g] == bests[g]);
                        assert(more_bests[g + 1] == bests[g + 1]);
                    } else {
                        assert(more_generations[g] == generation_before);
                        assert(more_bests[g] == best_before);
                    }
                }
                generations = more_generations;
                bests = more_bests;
            }
            i += 1;
        }
        proof {
            assert(evaluate.ensures((&first,), first_score));
            assert(first.same_as(seed.spec_layout()));
            assert(compatible(best_layout.spec_layout(), first));
        }
        best_layout
    }
}

/// A copy of an individual fits wherever the individual fits.
proof fn lemma_same_fits<E: Fn(&LogicalLayout) -> u32>(
    evaluate: E,
    individual: Individual,
    copy: Individual,
    kin: LogicalLayout,
)
    requires
        is_cost_function(evaluate),
        fits(evaluate, individual, kin),
        copy.same_as(individual),
    ensures
        fits(evaluate, copy, kin),
{
    let x = &individual.spec_layout();
    let y = &copy.spec_layout();
    assert(x.same_as(*y));
    assert(evaluate.ensures((x,), individual.spec_score()));
    assert(evaluate.ensures((y,), individual.spec_score()));
}

/// Where the elite of a population are its individuals with the lowest
/// scores, no individual of the next generation's head scores higher than any
/// individual of the population: the best score of an island never rises from
/// one generation to the next.
pub proof fn lemma_elitism_monotone(
    before: Seq<Individual>,
    ranked: Seq<Individual>,
    after: Seq<Individual>,
    elite_num: int,
    children: Seq<Individual>,
)
    requires
        1 <= elite_num <= before.len(),
        ranked.to_multiset() == before.to_multiset(),
        sorted_by_score(ranked),
        sorted_by_score(after),
        after.to_multiset() == (ranked.take(elite_num) + children).to_multiset(),
    ensures
        after.len() > 0,
        forall|i: int|
            0 <= i < before.len() ==> after[0].spec_score() <= (#[trigger] before[i]).spec_score(),
{
    broadcast use vstd::multiset::group_multiset_axioms;

    let merged = ranked.take(elite_num) + children;
    merged.to_multiset_ensures();
    after.to_multiset_ensures();
    ranked.to_multiset_ensures();
    before.to_multiset_ensures();
    assert(ranked.len() == before.len()) by {
        vstd::seq_lib::to_multiset_len(ranked);
        vstd::seq_lib::to_multiset_len(before);
    }
    assert(merged[0] == ranked[0]);
    assert(merged.to_multiset().count(merged[0]) > 0);
    assert(after.contains(merged[0]));
    let k = choose|k: int| 0 <= k < after.len() && after[k] == merged[0];
    assert(after[0].spec_score() <= after[k].spec_score());
    assert forall|i: int| 0 <= i < before.len() implies after[0].spec_score() <= (
    #[trigger] before[i]).spec_score() by {
        assert(before.to_multiset().count(before[i]) > 0);
        assert(ranked.contains(before[i]));
        let m = choose|m: int| 0 <= m < ranked.len() && ranked[m] == before[i];
        assert(ranked[0].spec_score() <= ranked[m].spec_score());
    }
}

} // verus!

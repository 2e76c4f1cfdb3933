//! How often each tri-gram occurs in a corpus.
//!
//! The counts are whole numbers.  The frequency of a tri-gram is its count
//! divided by the total, which the caller works out where it needs it.

use vstd::prelude::*;
use vstd::string::StrSliceExecFns;
use std::collections::{HashMap, HashSet};
use crate::keyboard_layout::logical_layout::lemma_code_injective;
use crate::n_gram::LogicalNGram;

verus! {

/// The weight of the second character in the key of a tri-gram; no code
/// point reaches it.
const KEY_BASE: u64 = 0x20_0000;

/// The sum of the counts.
pub open spec fn spec_sum(counts: Seq<u64>) -> nat
    decreases counts.len(),
{
    if counts.len() == 0 {
        0
    } else {
        spec_sum(counts.drop_last()) + counts.last() as nat
    }
}

/// Every character of the sequence is one of the usable characters.
pub open spec fn all_usable(n_gram: Seq<char>, usable_chars: Seq<char>) -> bool {
    forall|i: int| 0 <= i < n_gram.len() ==> usable_chars.contains(#[trigger] n_gram[i])
}

/// The texts as sequences of characters.
pub open spec fn spec_texts(texts: Seq<&str>) -> Seq<Seq<char>> {
    Seq::new(texts.len(), |i: int| texts[i]@)
}

/// The distinct items of a sequence, in the order in which they first occur.
pub open spec fn spec_distinct(items: Seq<Seq<char>>) -> Seq<Seq<char>>
    decreases items.len(),
{
    if items.len() == 0 {
        Seq::empty()
    } else if spec_distinct(items.drop_last()).contains(items.last()) {
        spec_distinct(items.drop_last())
    } else {
        spec_distinct(items.drop_last()).push(items.last())
    }
}

/// The n-grams that are made of usable characters alone, in their order.
pub open spec fn spec_restricted(n_grams: Seq<Seq<char>>, usable_chars: Seq<char>) -> Seq<
    Seq<char>,
>
    decreases n_grams.len(),
{
    if n_grams.len() == 0 {
        Seq::empty()
    } else if all_usable(n_grams.last(), usable_chars) {
        spec_restricted(n_grams.drop_last(), usable_chars).push(n_grams.last())
    } else {
        spec_restricted(n_grams.drop_last(), usable_chars)
    }
}

/// The restricted list holds exactly the usable n-grams of the list.
proof fn lemma_restricted_contains(n_grams: Seq<Seq<char>>, usable_chars: Seq<char>, n_gram: Seq<char>)
    ensures
        spec_restricted(n_grams, usable_chars).contains(n_gram) <==> n_grams.contains(n_gram)
            && all_usable(n_gram, usable_chars),
    decreases n_grams.len(),
{
    if n_grams.len() > 0 {
        let rest = n_grams.drop_last();
        let kept = spec_restricted(rest, usable_chars);
        lemma_restricted_contains(rest, usable_chars, n_gram);
        if n_grams.contains(n_gram) {
            let i = choose|i: int| 0 <= i < n_grams.len() && n_grams[i] == n_gram;
            if i < rest.len() {
                assert(rest[i] == n_gram);
            }
        }
        if rest.contains(n_gram) {
            let i = choose|i: int| 0 <= i < rest.len() && rest[i] == n_gram;
            assert(n_grams[i] == n_gram);
        }
        assert(n_grams[n_grams.len() - 1] == n_grams.last());
        if all_usable(n_grams.last(), usable_chars) {
            let longer = kept.push(n_grams.last());
            assert(longer[kept.len() as int] == n_grams.last());
            if kept.contains(n_gram) {
                let i = choose|i: int| 0 <= i < kept.len() && kept[i] == n_gram;
                assert(longer[i] == n_gram);
            }
            if longer.contains(n_gram) {
                let i = choose|i: int| 0 <= i < longer.len() && longer[i] == n_gram;
                if i < kept.len() {
                    assert(kept[i] == n_gram);
                }
            }
        }
    }
}

/// The sum of the first counts is no more than the sum of all, and grows by
/// each count that is taken in.
proof fn lemma_sum_take(counts: Seq<u64>, i: int)
    requires
        0 <= i < counts.len(),
    ensures
        spec_sum(counts.take(i + 1)) == spec_sum(counts.take(i)) + counts[i],
        spec_sum(counts.take(i + 1)) <= spec_sum(counts),
    decreases counts.len() - i,
{
    assert(counts.take(i + 1).drop_last() =~= counts.take(i));
    if i + 1 < counts.len() {
        lemma_sum_take(counts, i + 1);
    } else {
        assert(counts.take(i + 1) =~= counts);
    }
}

/// The number that stands for a tri-gram in the index.
spec fn spec_key(n_gram: Seq<char>) -> u64 {
    (n_gram[0] as u64 + n_gram[1] as u64 * KEY_BASE + n_gram[2] as u64 * KEY_BASE * KEY_BASE) as u64
}

/// The number that stands for three characters in the index; different
/// triples have different numbers.
proof fn lemma_key_of_chars(a0: char, a1: char, a2: char, b0: char, b1: char, b2: char)
    ensures
        a0 as u64 + a1 as u64 * KEY_BASE + a2 as u64 * KEY_BASE * KEY_BASE <= u64::MAX,
        spec_key(seq![a0, a1, a2]) == spec_key(seq![b0, b1, b2]) ==> a0 == b0 && a1 == b1 && a2
            == b2,
{
}

/// Tri-grams with the same key are the same.
proof fn lemma_key_injective(g: Seq<char>, h: Seq<char>)
    requires
        g.len() == 3,
        h.len() == 3,
        spec_key(g) == spec_key(h),
    ensures
        g == h,
{
    lemma_key_of_chars(g[0], g[1], g[2], h[0], h[1], h[2]);
    assert(spec_key(seq![g[0], g[1], g[2]]) == spec_key(g));
    assert(spec_key(seq![h[0], h[1], h[2]]) == spec_key(h));
    assert(g =~= h);
}

/// Adding to one count adds as much to the sum.
proof fn lemma_sum_update(counts: Seq<u64>, i: int, value: u64)
    requires
        0 <= i < counts.len(),
    ensures
        spec_sum(counts.update(i, value)) == spec_sum(counts) - counts[i] + value,
        counts[i] <= spec_sum(counts),
    decreases counts.len(),
{
    if i == counts.len() - 1 {
        assert(counts.update(i, value).drop_last() =~= counts.drop_last());
    } else {
        lemma_sum_update(counts.drop_last(), i, value);
        assert(counts.update(i, value).drop_last() =~= counts.drop_last().update(i, value));
    }
}

/// A new count adds itself to the sum.
proof fn lemma_sum_push(counts: Seq<u64>, value: u64)
    ensures
        spec_sum(counts.push(value)) == spec_sum(counts) + value,
{
    assert(counts.push(value).drop_last() =~= counts);
}

/// The tri-gram that a text of three characters is, and `None` for any
/// other text.
pub fn tri_gram_of(text: &str) -> (r: Option<LogicalNGram<3>>)
    ensures
        r is Some <==> text@.len() == 3,
        r is Some ==> r->0@ == text@,
{
    if text.unicode_len() != 3 {
        return None;
    }
    let n_gram = LogicalNGram::new([text.get_char(0), text.get_char(1), text.get_char(2)]);
    assert(n_gram@ =~= text@);
    Some(n_gram)
}

/// The distinct tri-grams of a corpus in the order in which they first
/// occur, each with the number of its occurrences.
pub struct TriGramCounts {
    n_grams: Vec<LogicalNGram<3>>,
    counts: Vec<u64>,
    index: HashMap<u64, usize>,
    total: u64,
}

impl TriGramCounts {
    /// The distinct tri-grams, in the order in which they first occurred.
    pub closed spec fn spec_n_grams(&self) -> Seq<Seq<char>> {
        Seq::new(self.n_grams@.len(), |i: int| self.n_grams@[i]@)
    }

    /// The count of each distinct tri-gram, in the same order.
    pub closed spec fn spec_counts(&self) -> Seq<u64> {
        self.counts@
    }

    /// The sum of all counts.
    pub closed spec fn spec_total(&self) -> u64 {
        self.total
    }

    /// The count of a tri-gram, zero for one that never occurred.
    pub closed spec fn spec_count(&self, n_gram: Seq<char>) -> nat {
        if self.index@.contains_key(spec_key(n_gram)) {
            self.counts@[self.index@[spec_key(n_gram)] as int] as nat
        } else {
            0
        }
    }

    /// The tri-grams, the counts and the index belong together.
    pub closed spec fn wf(&self) -> bool {
        &&& self.n_grams@.len() == self.counts@.len()
        &&& self.total == spec_sum(self.counts@)
        &&& forall|i: int|
            0 <= i < self.n_grams@.len() ==> self.index@.contains_key(
                spec_key(#[trigger] self.n_grams@[i]@),
            ) && self.index@[spec_key(self.n_grams@[i]@)] == i
        &&& forall|key: u64| #[trigger]
            self.index@.contains_key(key) ==> self.index@[key] < self.n_grams@.len() && spec_key(
                self.n_grams@[self.index@[key] as int]@,
            ) == key
    }

    /// What the parts of well-formed counts say of each other: no tri-gram
    /// is listed twice, each is listed with its count, any other has the
    /// count zero, and the total is the sum of the counts.
    pub proof fn lemma_wf(&self)
        requires
            self.wf(),
        ensures
            self.spec_n_grams().len() == self.spec_counts().len(),
            self.spec_n_grams().no_duplicates(),
            self.spec_total() == spec_sum(self.spec_counts()),
            forall|i: int|
                0 <= i < self.spec_n_grams().len() ==> (#[trigger] self.spec_n_grams()[i]).len() == 3
                    && self.spec_count(self.spec_n_grams()[i]) == self.spec_counts()[i],
            forall|n_gram: Seq<char>|
                n_gram.len() == 3 && !self.spec_n_grams().contains(n_gram) ==> #[trigger] self.spec_count(
                    n_gram,
                ) == 0,
    {
        assert forall|i: int, j: int|
            0 <= i < self.spec_n_grams().len() && 0 <= j < self.spec_n_grams().len() && i
                != j implies self.spec_n_grams()[i] != self.spec_n_grams()[j] by {
            assert(self.index@[spec_key(self.n_grams@[i]@)] == i);
            assert(self.index@[spec_key(self.n_grams@[j]@)] == j);
        }
        assert forall|i: int| 0 <= i < self.spec_n_grams().len() implies (#[trigger] self.spec_n_grams()[i]).len()
            == 3 && self.spec_count(self.spec_n_grams()[i]) == self.spec_counts()[i] by {
            assert(self.index@[spec_key(self.n_grams@[i]@)] == i);
        }
        assert forall|n_gram: Seq<char>|
            n_gram.len() == 3 && !self.spec_n_grams().contains(
                n_gram,
            ) implies #[trigger] self.spec_count(n_gram) == 0 by {
            let key = spec_key(n_gram);
            if self.index@.contains_key(key) {
                let i = self.index@[key] as int;
                lemma_key_injective(self.n_grams@[i]@, n_gram);
                assert(self.spec_n_grams()[i] == n_gram);
            }
        }
    }

    /// Counts of nothing.
    pub fn new() -> (r: Self)
        ensures
            r.wf(),
            r.spec_n_grams().len() == 0,
            r.spec_total() == 0,
            forall|n_gram: Seq<char>| #[trigger] r.spec_count(n_gram) == 0,
    {
        Self { n_grams: Vec::new(), counts: Vec::new(), index: HashMap::new(), total: 0 }
    }

    /// The number of distinct tri-grams.
    pub fn len(&self) -> (r: usize)
        ensures
            r == self.spec_n_grams().len(),
    {
        self.n_grams.len()
    }

    /// The sum of all counts.
    pub fn total(&self) -> (r: u64)
        ensures
            r == self.spec_total(),
    {
        self.total
    }

    /// The distinct tri-grams, in the order in which they first occurred.
    pub fn n_grams(&self) -> (r: &Vec<LogicalNGram<3>>)
        ensures
            r@.len() == self.spec_n_grams().len(),
            forall|i: int| 0 <= i < r@.len() ==> (#[trigger] r@[i])@ == self.spec_n_grams()[i],
    {
        &self.n_grams
    }

    /// The count of the tri-gram at a place of the list.
    pub fn count_at(&self, i: usize) -> (r: u64)
        requires
            self.wf(),
            i < self.spec_n_grams().len(),
        ensures
            r == self.spec_counts()[i as int],
    {
        self.counts[i]
    }

    /// The count of a tri-gram, zero for one that never occurred.
    pub fn count(&self, n_gram: &LogicalNGram<3>) -> (r: u64)
        requires
            self.wf(),
        ensures
            r == self.spec_count(n_gram@),
    {
        match self.index.get(&key_of(n_gram)) {
            Some(i) => self.counts[*i],
            None => 0,
        }
    }

    /// The counts of the tri-grams of a corpus, each given as a text of
    /// three characters, and `None` where one of the texts is no tri-gram.
    pub fn from_n_grams(n_grams: &Vec<&str>) -> (r: Option<Self>)
        ensures
            r is Some <==> forall|i: int| 0 <= i < n_grams@.len() ==> (#[trigger] n_grams@[i])@.len() == 3,
            r is Some ==> {
                &&& r->0.wf()
                &&& r->0.spec_total() == n_grams@.len()
                &&& r->0.spec_n_grams() == spec_distinct(spec_texts(n_grams@))
                &&& forall|n_gram: Seq<char>|
                    n_gram.len() == 3 ==> #[trigger] r->0.spec_count(n_gram) == spec_texts(
                        n_grams@,
                    ).to_multiset().count(n_gram)
            },
    {
        let ghost texts = spec_texts(n_grams@);
        let mut counts = Self::new();
        let mut i: usize = 0;
        proof {
            assert(texts.take(0) =~= Seq::<Seq<char>>::empty());
            texts.take(0).to_multiset_ensures();
            assert forall|n_gram: Seq<char>| texts.take(0).to_multiset().count(n_gram) == 0 by {
                if texts.take(0).to_multiset().count(n_gram) > 0 {
                    assert(texts.take(0).contains(n_gram));
                }
            }
        }
        while i < n_grams.len()
            invariant
                i <= n_grams@.len(),
                texts == spec_texts(n_grams@),
                counts.wf(),
                counts.spec_total() == i,
                forall|k: int| 0 <= k < i ==> (#[trigger] n_grams@[k])@.len() == 3,
                counts.spec_n_grams() == spec_distinct(texts.take(i as int)),
                forall|n_gram: Seq<char>|
                    n_gram.len() == 3 ==> #[trigger] counts.spec_count(n_gram) == texts.take(
                        i as int,
                    ).to_multiset().count(n_gram),
            decreases n_grams@.len() - i,
        {
            match tri_gram_of(n_grams[i]) {
                Some(n_gram) => {
                    proof {
                        let shorter = texts.take(i as int);
                        let longer = texts.take(i + 1);
                        assert(longer.drop_last() =~= shorter);
                        assert(longer.last() == n_gram@);
                        assert(longer =~= shorter.push(n_gram@));
                        vstd::seq_lib::to_multiset_build(shorter, n_gram@);
                    }
                    counts.add(n_gram, 1);
                },
                None => {
                    return None;
                },
            }
            i += 1;
        }
        assert(texts.take(i as int) =~= texts);
        Some(counts)
    }

    /// The counts of the tri-grams that are made of usable characters
    /// alone.  All others are left out, and the total is that of the
    /// tri-grams that stay.
    pub fn restrict(&self, usable_chars: &Vec<char>) -> (r: Self)
        requires
            self.wf(),
        ensures
            r.wf(),
            r.spec_n_grams() == spec_restricted(self.spec_n_grams(), usable_chars@),
            forall|n_gram: Seq<char>|
                n_gram.len() == 3 ==> #[trigger] r.spec_count(n_gram) == if all_usable(
                    n_gram,
                    usable_chars@,
                ) {
                    self.spec_count(n_gram)
                } else {
                    0
                },
    {
        let codes = usable_codes(usable_chars);
        let ghost keys = self.spec_n_grams();
        let mut kept = Self::new();
        let mut i: usize = 0;
        proof {
            self.lemma_wf();
            assert(keys.take(0) =~= Seq::<Seq<char>>::empty());
        }
        while i < self.n_grams.len()
            invariant
                i <= self.n_grams@.len(),
                self.wf(),
                keys == self.spec_n_grams(),
                keys.no_duplicates(),
                keys.len() == self.counts@.len(),
                self.total == spec_sum(self.counts@),
                forall|k: int|
                    0 <= k < keys.len() ==> (#[trigger] keys[k]).len() == 3 && self.spec_count(
                        keys[k],
                    ) == self.counts@[k],
                forall|n_gram: Seq<char>|
                    n_gram.len() == 3 && !keys.contains(n_gram) ==> #[trigger] self.spec_count(
                        n_gram,
                    ) == 0,
                forall|code: u32|
                    codes@.contains(code) <==> exists|j: int|
                        0 <= j < usable_chars@.len() && (#[trigger] usable_chars@[j]) as u32
                            == code,
                kept.wf(),
                kept.spec_total() <= spec_sum(self.counts@.take(i as int)),
                kept.spec_n_grams() == spec_restricted(keys.take(i as int), usable_chars@),
                forall|n_gram: Seq<char>|
                    n_gram.len() == 3 ==> #[trigger] kept.spec_count(n_gram) == if all_usable(
                        n_gram,
                        usable_chars@,
                    ) && keys.take(i as int).contains(n_gram) {
                        self.spec_count(n_gram)
                    } else {
                        0
                    },
            decreases self.n_grams@.len() - i,
        {
            let n_gram = &self.n_grams[i];
            let ghost shorter = keys.take(i as int);
            let ghost longer = keys.take(i + 1);
            proof {
                assert(keys[i as int] == n_gram@);
                assert(longer.drop_last() =~= shorter);
                assert(longer.last() == n_gram@);
                lemma_sum_take(self.counts@, i as int);
                lemma_restricted_contains(shorter, usable_chars@, n_gram@);
                if shorter.contains(n_gram@) {
                    let k = choose|k: int| 0 <= k < shorter.len() && shorter[k] == n_gram@;
                    assert(keys[k] == keys[i as int]);
                }
                assert forall|other: Seq<char>| longer.contains(other) <==> shorter.contains(other)
                    || other == n_gram@ by {
                    if shorter.contains(other) {
                        let k = choose|k: int| 0 <= k < shorter.len() && shorter[k] == other;
                        assert(longer[k] == other);
                    }
                    if other == n_gram@ {
                        assert(longer[i as int] == other);
                    }
                    if longer.contains(other) {
                        let k = choose|k: int| 0 <= k < longer.len() && longer[k] == other;
                        if k < i {
                            assert(shorter[k] == other);
                        }
                    }
                }
            }
            if is_usable(n_gram, usable_chars, &codes) {
                let copy = LogicalNGram::new([n_gram.get(0), n_gram.get(1), n_gram.get(2)]);
                assert(copy@ =~= n_gram@);
                kept.add(copy, self.counts[i]);
            }
            i += 1;
        }
        assert(keys.take(i as int) =~= keys);
        kept
    }

    /// Counts `count` more occurrences of a tri-gram.
    pub fn add(&mut self, n_gram: LogicalNGram<3>, count: u64)
        requires
            old(self).wf(),
            old(self).spec_total() + count <= u64::MAX,
        ensures
            final(self).wf(),
            final(self).spec_total() == old(self).spec_total() + count,
            final(self).spec_n_grams() == if old(self).spec_n_grams().contains(n_gram@) {
                old(self).spec_n_grams()
            } else {
                old(self).spec_n_grams().push(n_gram@)
            },
            forall|other: Seq<char>|
                other.len() == 3 ==> #[trigger] final(self).spec_count(other) == old(
                    self,
                ).spec_count(other) + if other == n_gram@ {
                    count as nat
                } else {
                    0
                },
    {
        let key = key_of(&n_gram);
        let ghost before = *self;
        proof {
            before.lemma_wf();
        }
        match self.index.get(&key) {
            Some(found) => {
                let i = *found;
                proof {
                    lemma_sum_update(before.counts@, i as int, (before.counts@[i as int] + count) as u64);
                    lemma_key_injective(before.n_grams@[i as int]@, n_gram@);
                    assert(before.spec_n_grams()[i as int] == n_gram@);
                }
                let sum = self.counts[i] + count;
                self.counts[i] = sum;
                self.total = self.total + count;
                proof {
                    assert(self.spec_n_grams() =~= before.spec_n_grams());
                    assert forall|other: Seq<char>| other.len() == 3 implies #[trigger] self.spec_count(
                        other,
                    ) == before.spec_count(other) + if other == n_gram@ {
                        count as nat
                    } else {
                        0
                    } by {
                        if spec_key(other) == key {
                            lemma_key_injective(other, n_gram@);
                        }
                    }
                }
            },
            None => {
                proof {
                    lemma_sum_push(before.counts@, count);
                    if before.spec_n_grams().contains(n_gram@) {
                        let i = choose|i: int|
                            0 <= i < before.spec_n_grams().len() && before.spec_n_grams()[i]
                                == n_gram@;
                        assert(before.index@.contains_key(spec_key(before.n_grams@[i]@)));
                    }
                }
                let slot = self.n_grams.len();
                self.index.insert(key, slot);
                self.n_grams.push(n_gram);
                self.counts.push(count);
                self.total = self.total + count;
                proof {
                    assert(self.spec_n_grams() =~= before.spec_n_grams().push(n_gram@));
                    assert forall|i: int| 0 <= i < self.n_grams@.len() implies self.index@.contains_key(
                        spec_key(#[trigger] self.n_grams@[i]@),
                    ) && self.index@[spec_key(self.n_grams@[i]@)] == i by {
                        if i < slot {
                            assert(self.n_grams@[i] == before.n_grams@[i]);
                            assert(before.index@.contains_key(spec_key(before.n_grams@[i]@)));
                        }
                    }
                    assert forall|k: u64| #[trigger] self.index@.contains_key(k) implies self.index@[k]
                        < self.n_grams@.len() && spec_key(self.n_grams@[self.index@[k] as int]@)
                        == k by {
                        if k != key {
                            assert(before.index@.contains_key(k));
                            assert(self.n_grams@[before.index@[k] as int]
                                == before.n_grams@[before.index@[k] as int]);
                        }
                    }
                    assert forall|other: Seq<char>| other.len() == 3 implies #[trigger] self.spec_count(
                        other,
                    ) == before.spec_count(other) + if other == n_gram@ {
                        count as nat
                    } else {
                        0
                    } by {
                        if spec_key(other) == key {
                            lemma_key_injective(other, n_gram@);
                        } else if before.index@.contains_key(spec_key(other)) {
                            assert(self.counts@[before.index@[spec_key(other)] as int]
                                == before.counts@[before.index@[spec_key(other)] as int]);
                        }
                    }
                }
            },
        }
    }
}

/// The code points of the usable characters.
fn usable_codes(usable_chars: &Vec<char>) -> (codes: HashSet<u32>)
    ensures
        forall|code: u32|
            codes@.contains(code) <==> exists|j: int|
                0 <= j < usable_chars@.len() && (#[trigger] usable_chars@[j]) as u32 == code,
{
    let mut codes: HashSet<u32> = HashSet::new();
    let mut k: usize = 0;
    while k < usable_chars.len()
        invariant
            k <= usable_chars@.len(),
            forall|code: u32|
                codes@.contains(code) <==> exists|j: int|
                    0 <= j < k && (#[trigger] usable_chars@[j]) as u32 == code,
        decreases usable_chars@.len() - k,
    {
        let ghost before = codes@;
        codes.insert(usable_chars[k] as u32);
        k += 1;
        proof {
            assert forall|code: u32| codes@.contains(code) implies exists|j: int|
                0 <= j < k && (#[trigger] usable_chars@[j]) as u32 == code by {
                if before.contains(code) {
                    let j = choose|j: int|
                        0 <= j < k - 1 && (#[trigger] usable_chars@[j]) as u32 == code;
                    assert(usable_chars@[j] as u32 == code);
                } else {
                    assert(usable_chars@[k - 1] as u32 == code);
                }
            }
        }
    }
    codes
}

/// True when every character of the tri-gram is usable.
fn is_usable(n_gram: &LogicalNGram<3>, usable_chars: &Vec<char>, codes: &HashSet<u32>) -> (r: bool)
    requires
        forall|code: u32|
            codes@.contains(code) <==> exists|j: int|
                0 <= j < usable_chars@.len() && (#[trigger] usable_chars@[j]) as u32 == code,
    ensures
        r == all_usable(n_gram@, usable_chars@),
{
    let mut i: usize = 0;
    while i < 3
        invariant
            i <= 3,
            forall|code: u32|
                codes@.contains(code) <==> exists|j: int|
                    0 <= j < usable_chars@.len() && (#[trigger] usable_chars@[j]) as u32 == code,
            forall|k: int| 0 <= k < i ==> usable_chars@.contains(#[trigger] n_gram@[k]),
        decreases 3 - i,
    {
        let c = n_gram.get(i);
        let known = codes.contains(&(c as u32));
        proof {
            if known {
                let j = choose|j: int|
                    0 <= j < usable_chars@.len() && (#[trigger] usable_chars@[j]) as u32 == c as u32;
                lemma_code_injective(usable_chars@[j], c);
                assert(usable_chars@.contains(c));
            } else if usable_chars@.contains(c) {
                let j = choose|j: int| 0 <= j < usable_chars@.len() && usable_chars@[j] == c;
                assert(usable_chars@[j] as u32 == c as u32);
            }
        }
        if !known {
            assert(!usable_chars@.contains(n_gram@[i as int]));
            return false;
        }
        i += 1;
    }
    true
}

/// The number that stands for a tri-gram in the index.
fn key_of(n_gram: &LogicalNGram<3>) -> (r: u64)
    ensures
        r == spec_key(n_gram@),
{
    let c0 = n_gram.get(0);
    let c1 = n_gram.get(1);
    let c2 = n_gram.get(2);
    proof {
        lemma_key_of_chars(c0, c1, c2, c0, c1, c2);
    }
    c0 as u64 + c1 as u64 * KEY_BASE + c2 as u64 * KEY_BASE * KEY_BASE
}

/// The number that stands for a mono-gram in the index: the code point of its
/// character.
spec fn spec_mono_key(n_gram: Seq<char>) -> u64 {
    n_gram[0] as u64
}

/// Distinct characters have distinct keys.
proof fn lemma_wide_code_injective(a: char, b: char)
    ensures
        a as u64 == b as u64 ==> a == b,
{
}

/// Mono-grams with the same key are the same.
proof fn lemma_mono_key_injective(g: Seq<char>, h: Seq<char>)
    requires
        g.len() == 1,
        h.len() == 1,
        spec_mono_key(g) == spec_mono_key(h),
    ensures
        g == h,
{
    lemma_wide_code_injective(g[0], h[0]);
    assert(g =~= h);
}

/// The number that stands for a mono-gram in the index.
fn mono_key_of(n_gram: &LogicalNGram<1>) -> (r: u64)
    ensures
        r == spec_mono_key(n_gram@),
{
    n_gram.get(0) as u64
}

/// The distinct characters of a corpus, as n-grams of one character, in the
/// order in which they first
/// occur, each with the number of its occurrences.
pub struct MonoGramCounts {
    n_grams: Vec<LogicalNGram<1>>,
    counts: Vec<u64>,
    index: HashMap<u64, usize>,
    total: u64,
}

impl MonoGramCounts {
    /// The distinct mono-grams, in the order in which they first occurred.
    pub closed spec fn spec_n_grams(&self) -> Seq<Seq<char>> {
        Seq::new(self.n_grams@.len(), |i: int| self.n_grams@[i]@)
    }

    /// The count of each distinct mono-gram, in the same order.
    pub closed spec fn spec_counts(&self) -> Seq<u64> {
        self.counts@
    }

    /// The sum of all counts.
    pub closed spec fn spec_total(&self) -> u64 {
        self.total
    }

    /// The count of a mono-gram, zero for one that never occurred.
    pub closed spec fn spec_count(&self, n_gram: Seq<char>) -> nat {
        if self.index@.contains_key(spec_mono_key(n_gram)) {
            self.counts@[self.index@[spec_mono_key(n_gram)] as int] as nat
        } else {
            0
        }
    }

    /// The mono-grams, the counts and the index belong together.
    pub closed spec fn wf(&self) -> bool {
        &&& self.n_grams@.len() == self.counts@.len()
        &&& self.total == spec_sum(self.counts@)
        &&& forall|i: int|
            0 <= i < self.n_grams@.len() ==> self.index@.contains_key(
                spec_mono_key(#[trigger] self.n_grams@[i]@),
            ) && self.index@[spec_mono_key(self.n_grams@[i]@)] == i
        &&& forall|key: u64| #[trigger]
            self.index@.contains_key(key) ==> self.index@[key] < self.n_grams@.len() && spec_mono_key(
                self.n_grams@[self.index@[key] as int]@,
            ) == key
    }

    /// What the parts of well-formed counts say of each other: no mono-gram
    /// is listed twice, each is listed with its count, any other has the
    /// count zero, and the total is the sum of the counts.
    pub proof fn lemma_wf(&self)
        requires
            self.wf(),
        ensures
            self.spec_n_grams().len() == self.spec_counts().len(),
            self.spec_n_grams().no_duplicates(),
            self.spec_total() == spec_sum(self.spec_counts()),
            forall|i: int|
                0 <= i < self.spec_n_grams().len() ==> (#[trigger] self.spec_n_grams()[i]).len() == 1
                    && self.spec_count(self.spec_n_grams()[i]) == self.spec_counts()[i],
            forall|n_gram: Seq<char>|
                n_gram.len() == 1 && !self.spec_n_grams().contains(n_gram) ==> #[trigger] self.spec_count(
                    n_gram,
                ) == 0,
    {
        assert forall|i: int, j: int|
            0 <= i < self.spec_n_grams().len() && 0 <= j < self.spec_n_grams().len() && i
                != j implies self.spec_n_grams()[i] != self.spec_n_grams()[j] by {
            assert(self.index@[spec_mono_key(self.n_grams@[i]@)] == i);
            assert(self.index@[spec_mono_key(self.n_grams@[j]@)] == j);
        }
        assert forall|i: int| 0 <= i < self.spec_n_grams().len() implies (#[trigger] self.spec_n_grams()[i]).len()
            == 1 && self.spec_count(self.spec_n_grams()[i]) == self.spec_counts()[i] by {
            assert(self.index@[spec_mono_key(self.n_grams@[i]@)] == i);
        }
        assert forall|n_gram: Seq<char>|
            n_gram.len() == 1 && !self.spec_n_grams().contains(
                n_gram,
            ) implies #[trigger] self.spec_count(n_gram) == 0 by {
            let key = spec_mono_key(n_gram);
            if self.index@.contains_key(key) {
                let i = self.index@[key] as int;
                lemma_mono_key_injective(self.n_grams@[i]@, n_gram);
                assert(self.spec_n_grams()[i] == n_gram);
            }
        }
    }

    /// Counts of nothing.
    pub fn new() -> (r: Self)
        ensures
            r.wf(),
            r.spec_n_grams().len() == 0,
            r.spec_total() == 0,
            forall|n_gram: Seq<char>| #[trigger] r.spec_count(n_gram) == 0,
    {
        Self { n_grams: Vec::new(), counts: Vec::new(), index: HashMap::new(), total: 0 }
    }

    /// The number of distinct mono-grams.
    pub fn len(&self) -> (r: usize)
        ensures
            r == self.spec_n_grams().len(),
    {
        self.n_grams.len()
    }

    /// The sum of all counts.
    pub fn total(&self) -> (r: u64)
        ensures
            r == self.spec_total(),
    {
        self.total
    }

    /// The distinct mono-grams, in the order in which they first occurred.
    pub fn n_grams(&self) -> (r: &Vec<LogicalNGram<1>>)
        ensures
            r@.len() == self.spec_n_grams().len(),
            forall|i: int| 0 <= i < r@.len() ==> (#[trigger] r@[i])@ == self.spec_n_grams()[i],
    {
        &self.n_grams
    }

    /// The count of the mono-gram at a place of the list.
    pub fn count_at(&self, i: usize) -> (r: u64)
        requires
            self.wf(),
            i < self.spec_n_grams().len(),
        ensures
            r == self.spec_counts()[i as int],
    {
        self.counts[i]
    }

    /// The count of a mono-gram, zero for one that never occurred.
    pub fn count(&self, n_gram: &LogicalNGram<1>) -> (r: u64)
        requires
            self.wf(),
        ensures
            r == self.spec_count(n_gram@),
    {
        match self.index.get(&mono_key_of(n_gram)) {
            Some(i) => self.counts[*i],
            None => 0,
        }
    }

    /// Counts `count` more occurrences of a mono-gram.
    pub fn add(&mut self, n_gram: LogicalNGram<1>, count: u64)
        requires
            old(self).wf(),
            old(self).spec_total() + count <= u64::MAX,
        ensures
            final(self).wf(),
            final(self).spec_total() == old(self).spec_total() + count,
            final(self).spec_n_grams() == if old(self).spec_n_grams().contains(n_gram@) {
                old(self).spec_n_grams()
            } else {
                old(self).spec_n_grams().push(n_gram@)
            },
            forall|other: Seq<char>|
                other.len() == 1 ==> #[trigger] final(self).spec_count(other) == old(
                    self,
                ).spec_count(other) + if other == n_gram@ {
                    count as nat
                } else {
                    0
                },
    {
        let key = mono_key_of(&n_gram);
        let ghost before = *self;
        proof {
            before.lemma_wf();
        }
        match self.index.get(&key) {
            Some(found) => {
                let i = *found;
                proof {
                    lemma_sum_update(before.counts@, i as int, (before.counts@[i as int] + count) as u64);
                    lemma_mono_key_injective(before.n_grams@[i as int]@, n_gram@);
                    assert(before.spec_n_grams()[i as int] == n_gram@);
                }
                let sum = self.counts[i] + count;
                self.counts[i] = sum;
                self.total = self.total + count;
                proof {
                    assert(self.spec_n_grams() =~= before.spec_n_grams());
                    assert forall|other: Seq<char>| other.len() == 1 implies #[trigger] self.spec_count(
                        other,
                    ) == before.spec_count(other) + if other == n_gram@ {
                        count as nat
                    } else {
                        0
                    } by {
                        if spec_mono_key(other) == key {
                            lemma_mono_key_injective(other, n_gram@);
                        }
                    }
                }
            },
            None => {
                proof {
                    lemma_sum_push(before.counts@, count);
                    if before.spec_n_grams().contains(n_gram@) {
                        let i = choose|i: int|
                            0 <= i < before.spec_n_grams().len() && before.spec_n_grams()[i]
                                == n_gram@;
                        assert(before.index@.contains_key(spec_mono_key(before.n_grams@[i]@)));
                    }
                }
                let slot = self.n_grams.len();
                self.index.insert(key, slot);
                self.n_grams.push(n_gram);
                self.counts.push(count);
                self.total = self.total + count;
                proof {
                    assert(self.spec_n_grams() =~= before.spec_n_grams().push(n_gram@));
                    assert forall|i: int| 0 <= i < self.n_grams@.len() implies self.index@.contains_key(
                        spec_mono_key(#[trigger] self.n_grams@[i]@),
                    ) && self.index@[spec_mono_key(self.n_grams@[i]@)] == i by {
                        if i < slot {
                            assert(self.n_grams@[i] == before.n_grams@[i]);
                            assert(before.index@.contains_key(spec_mono_key(before.n_grams@[i]@)));
                        }
                    }
                    assert forall|k: u64| #[trigger] self.index@.contains_key(k) implies self.index@[k]
                        < self.n_grams@.len() && spec_mono_key(self.n_grams@[self.index@[k] as int]@)
                        == k by {
                        if k != key {
                            assert(before.index@.contains_key(k));
                            assert(self.n_grams@[before.index@[k] as int]
                                == before.n_grams@[before.index@[k] as int]);
                        }
                    }
                    assert forall|other: Seq<char>| other.len() == 1 implies #[trigger] self.spec_count(
                        other,
                    ) == before.spec_count(other) + if other == n_gram@ {
                        count as nat
                    } else {
                        0
                    } by {
                        if spec_mono_key(other) == key {
                            lemma_mono_key_injective(other, n_gram@);
                        } else if before.index@.contains_key(spec_mono_key(other)) {
                            assert(self.counts@[before.index@[spec_mono_key(other)] as int]
                                == before.counts@[before.index@[spec_mono_key(other)] as int]);
                        }
                    }
                }
            },
        }
    }
}

} // verus!

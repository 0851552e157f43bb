//! The solver: a registry from letter masks to words, the sorted list of
//! distinct masks, and the solutions found over that list.
use std::collections::HashMap;
use vstd::prelude::*;
use crate::mask::{
    bit_count, is_accepted_word, lemma_accepted_mask, lemma_accepted_mask_nonzero, mask_of, word_mask,
};
use crate::search::{
    all_solutions, disjoint_five_subsets, drawn_from, find_all_solutions, increasing, is_solution,
    lemma_increasing_same_members, lemma_solution_sets, views,
};

verus! {

broadcast use vstd::std_specs::hash::group_hash_axioms;

/// `w` is an accepted word whose mask is `m`.
pub open spec fn yields(w: Seq<char>, m: u32) -> bool {
    is_accepted_word(w) && mask_of(w) == m
}

/// One of the first `n` words yields the mask `m`.
pub open spec fn yields_among(words: Seq<String>, n: int, m: u32) -> bool {
    exists|i: int| 0 <= i < n && yields(#[trigger] words[i]@, m)
}

/// Position `i` holds the last of the first `n` words that yields `m`.
pub open spec fn last_yielding(words: Seq<String>, n: int, m: u32, i: int) -> bool {
    &&& 0 <= i < n
    &&& yields(words[i]@, m)
    &&& forall|k: int| i < k < n ==> !yields(#[trigger] words[k]@, m)
}

/// Finds all sets of five words with twenty-five distinct letters.
pub struct Solver {
    /// For each mask, a word that has it.
    mask_to_word: HashMap<u32, String>,
    /// The distinct masks of the accepted words, in increasing order.
    valid_masks: Vec<u32>,
    /// The solutions found by the last search.
    solutions: Vec<[u32; 5]>,
}

impl Solver {
    /// The registry: for each mask, the word kept for it.
    pub closed spec fn registry(&self) -> Map<u32, Seq<char>> {
        self.mask_to_word@.map_values(|w: String| w@)
    }

    proof fn lemma_registry(&self)
        ensures
            forall|m: u32|
                #![trigger self.registry().contains_key(m)]
                #![trigger self.mask_to_word@.contains_key(m)]
                self.registry().contains_key(m) <==> self.mask_to_word@.contains_key(m),
            forall|m: u32|
                #![trigger self.registry()[m]]
                #![trigger self.mask_to_word@[m]]
                self.mask_to_word@.contains_key(m) ==> self.registry()[m]
                    == self.mask_to_word@[m]@,
    {
    }

    /// The sorted list of distinct masks.
    pub closed spec fn masks(&self) -> Seq<u32> {
        self.valid_masks@
    }

    /// The solutions held, as sequences of masks.
    pub closed spec fn found(&self) -> Seq<Seq<u32>> {
        views(self.solutions@)
    }

    /// The registry's keys are exactly the listed masks; each maps to an
    /// accepted word with that mask; the list is sorted without repeats;
    /// every held solution is five masks of the list.
    pub open spec fn wf(&self) -> bool {
        &&& increasing(self.masks())
        &&& forall|m: u32|
            #![trigger self.registry().contains_key(m)]
            #![trigger self.masks().contains(m)]
            self.registry().contains_key(m) <==> self.masks().contains(m)
        &&& forall|m: u32| #[trigger]
            self.registry().contains_key(m) ==> yields(self.registry()[m], m)
        &&& forall|i: int|
            0 <= i < self.found().len() ==> #[trigger] self.found()[i].len() == 5 && drawn_from(
                self.masks(),
                self.found()[i],
            )
    }
}

/// Relies on `slice::sort`: the vector keeps its values and ends up in
/// non-decreasing order.
#[verifier::external_body]
fn sort_masks(v: &mut Vec<u32>)
    ensures
        final(v)@.to_multiset() == old(v)@.to_multiset(),
        forall|a: int, b: int| 0 <= a < b < final(v)@.len() ==> final(v)@[a] <= final(v)@[b],
{
    v.sort();
}

/// The distinct values of a sorted vector, in increasing order.
fn dedup_sorted(v: &Vec<u32>) -> (r: Vec<u32>)
    requires
        forall|a: int, b: int| 0 <= a < b < v@.len() ==> v@[a] <= v@[b],
    ensures
        increasing(r@),
        forall|x: u32| r@.contains(x) <==> v@.contains(x),
{
    let mut r: Vec<u32> = Vec::new();
    let mut i: usize = 0;
    while i < v.len()
        invariant
            i <= v@.len(),
            forall|a: int, b: int| 0 <= a < b < v@.len() ==> v@[a] <= v@[b],
            increasing(r@),
            forall|x: u32| r@.contains(x) <==> v@.subrange(0, i as int).contains(x),
            i > 0 ==> r@.len() > 0 && r@.last() == v@[i - 1],
            i == 0 ==> r@.len() == 0,
        decreases v@.len() - i,
    {
        let x = v[i];
        let ghost before = r@;
        if r.len() == 0 || r[r.len() - 1] != x {
            r.push(x);
            proof {
                assert forall|a: int, b: int| 0 <= a < b < r@.len() implies r@[a] < r@[b] by {
                    if b == r@.len() - 1 && a < b {
                        if a < before.len() - 1 {
                            assert(before[a] < before.last());
                        }
                    }
                }
            }
        }
        proof {
            let pre = v@.subrange(0, i as int);
            let next = v@.subrange(0, i as int + 1);
            assert(next =~= pre.push(x));
            assert(r@ == before || r@ == before.push(x));
            assert forall|y: u32| r@.contains(y) <==> next.contains(y) by {
                if next.contains(y) && y != x {
                    let k = choose|k: int| 0 <= k < next.len() && next[k] == y;
                    assert(pre[k] == y);
                    assert(before.contains(y));
                    let k2 = choose|k2: int| 0 <= k2 < before.len() && before[k2] == y;
                    assert(r@[k2] == y);
                }
                if r@.contains(y) && y != x {
                    let k = choose|k: int| 0 <= k < r@.len() && r@[k] == y;
                    if k < before.len() {
                        assert(before[k] == y);
                        assert(before.contains(y));
                        assert(pre.contains(y));
                        let k3 = choose|k3: int| 0 <= k3 < pre.len() && pre[k3] == y;
                        assert(next[k3] == y);
                    }
                }
                if y == x {
                    assert(r@[r@.len() - 1] == x);
                    assert(next[i as int] == x);
                }
            }
        }
        i = i + 1;
    }
    proof {
        assert(v@.subrange(0, i as int) =~= v@);
    }
    r
}

impl Default for Solver {
    /// A solver with no words and no solutions.
    fn default() -> (r: Self)
        ensures
            r.wf(),
            r.masks().len() == 0,
            r.registry() == Map::<u32, Seq<char>>::empty(),
            r.found().len() == 0,
    {
        let r = Solver { mask_to_word: HashMap::new(), valid_masks: Vec::new(), solutions: Vec::new() };
        proof {
            assert(r.registry() =~= Map::<u32, Seq<char>>::empty());
        }
        r
    }
}

impl Solver {
    /// Adds the accepted words of `words` (five distinct lowercase letters):
    /// each one's mask joins the sorted list of distinct masks, and the
    /// registry keeps, for each mask, the last word that has it. Other words
    /// are skipped.
    pub fn process_words(&mut self, words: &Vec<String>)
        requires
            old(self).wf(),
        ensures
            final(self).wf(),
            forall|m: u32|
                #[trigger] final(self).masks().contains(m) <==> (old(self).masks().contains(m)
                    || yields_among(words@, words@.len() as int, m)),
            forall|m: u32|
                #[trigger] final(self).masks().contains(m) ==> bit_count(m) == 5,
            forall|m: u32, i: int|
                #[trigger] last_yielding(words@, words@.len() as int, m, i)
                    ==> final(self).registry()[m] == words@[i]@,
            forall|m: u32|
                old(self).registry().contains_key(m) && !yields_among(
                    words@,
                    words@.len() as int,
                    m,
                ) ==> #[trigger] final(self).registry()[m] == old(self).registry()[m],
            final(self).found() == old(self).found(),
    {
        proof {
            self.lemma_registry();
        }
        let ghost old_map = self.mask_to_word@;
        let ghost old_masks = self.valid_masks@;
        let mut idx: usize = 0;
        while idx < words.len()
            invariant
                idx <= words@.len(),
                forall|m: u32| #[trigger] old_map.contains_key(m) <==> old_masks.contains(m),
                forall|m: u32|
                    #[trigger] self.mask_to_word@.contains_key(m) <==> (old_map.contains_key(m)
                        || yields_among(words@, idx as int, m)),
                forall|m: u32|
                    #[trigger] self.valid_masks@.contains(m) <==> (old_masks.contains(m)
                        || yields_among(words@, idx as int, m)),
                forall|m: u32| #[trigger]
                    old_map.contains_key(m) ==> yields(old_map[m]@, m),
                forall|m: u32| #[trigger]
                    self.mask_to_word@.contains_key(m) ==> yields(self.mask_to_word@[m]@, m),
                forall|m: u32, i: int|
                    #[trigger] last_yielding(words@, idx as int, m, i) ==> self.mask_to_word@[m]@
                        == words@[i]@,
                forall|m: u32|
                    old_map.contains_key(m) && !yields_among(words@, idx as int, m)
                        ==> #[trigger] self.mask_to_word@[m] == old_map[m],
                self.solutions == old(self).solutions,
            decreases words@.len() - idx,
        {
            let word = &words[idx];
            let r = word_mask(word.as_str());
            let ghost prev_map = self.mask_to_word@;
            let ghost prev_masks = self.valid_masks@;
            match r {
                Some(mask) => {
                    self.mask_to_word.insert(mask, word.clone());
                    self.valid_masks.push(mask);
                    proof {
                        assert(yields(words@[idx as int]@, mask));
                        assert(self.valid_masks@[prev_masks.len() as int] == mask);
                    }
                },
                None => {},
            }
            proof {
                let n = idx as int;
                assert forall|m: u32| yields_among(words@, n + 1, m) <==> (yields_among(words@, n, m)
                    || yields(words@[n]@, m)) by {
                    if yields_among(words@, n + 1, m) {
                        let i = choose|i: int| 0 <= i < n + 1 && yields(#[trigger] words@[i]@, m);
                        if i < n {
                            assert(yields_among(words@, n, m));
                        }
                    }
                }
                assert forall|m: u32| #[trigger] self.valid_masks@.contains(m) <==> (
                    prev_masks.contains(m) || yields(words@[n]@, m)) by {
                    if self.valid_masks@.contains(m) && !prev_masks.contains(m) {
                        let k = choose|k: int| 0 <= k < self.valid_masks@.len() && self.valid_masks@[k] == m;
                        if k < prev_masks.len() {
                            assert(prev_masks[k] == m);
                        }
                    }
                    if prev_masks.contains(m) {
                        let k = choose|k: int| 0 <= k < prev_masks.len() && prev_masks[k] == m;
                        assert(self.valid_masks@[k] == m);
                    }
                }
                assert forall|m: u32, i: int|
                    #[trigger] last_yielding(words@, n + 1, m, i) implies self.mask_to_word@[m]@
                        == words@[i]@ by {
                    if i < n {
                        assert(last_yielding(words@, n, m, i));
                    }
                }
            }
            idx = idx + 1;
        }
        let ghost unsorted = self.valid_masks@;
        proof {
            unsorted.to_multiset_ensures();
        }
        sort_masks(&mut self.valid_masks);
        let ghost sorted = self.valid_masks@;
        proof {
            sorted.to_multiset_ensures();
        }
        let deduped = dedup_sorted(&self.valid_masks);
        self.valid_masks = deduped;
        proof {
            assert forall|m: u32| #[trigger] self.valid_masks@.contains(m) <==> unsorted.contains(m) by {
                assert(sorted.contains(m) <==> sorted.to_multiset().count(m) > 0);
                assert(unsorted.contains(m) <==> unsorted.to_multiset().count(m) > 0);
            }
            self.lemma_registry();
            assert(idx == words@.len());
            assert forall|m: u32| #[trigger] self.registry().contains_key(m) <==> self.masks().contains(m) by {
                assert(self.valid_masks@.contains(m) <==> unsorted.contains(m));
            }
            assert forall|i: int| 0 <= i < self.found().len() implies #[trigger] self.found()[i].len() == 5
                && drawn_from(self.masks(), self.found()[i]) by {
                let t = self.found()[i];
                assert(t == old(self).found()[i]);
                assert forall|a: int| 0 <= a < t.len() implies self.masks().contains(#[trigger] t[a]) by {
                    assert(old(self).masks().contains(t[a]));
                    assert(old_masks.contains(t[a]));
                    assert(unsorted.contains(t[a]));
                }
            }
            assert forall|m: u32| #[trigger] self.registry().contains_key(m) implies yields(
                self.registry()[m],
                m,
            ) by {}
            assert forall|m: u32| #[trigger] self.masks().contains(m) implies bit_count(m) == 5 by {
                assert(self.mask_to_word@.contains_key(m));
                lemma_accepted_mask(self.mask_to_word@[m]@);
            }
        }
    }

    /// Searches the mask list for every set of five pairwise-disjoint masks
    /// and keeps them, each once, as increasing five-mask sequences.
    pub fn find_solutions(&mut self)
        requires
            old(self).wf(),
        ensures
            final(self).wf(),
            final(self).masks() == old(self).masks(),
            final(self).registry() == old(self).registry(),
            final(self).found() == all_solutions(final(self).masks()),
            forall|t: Seq<u32>|
                #[trigger] final(self).found().contains(t) <==> is_solution(final(self).masks(), t),
            final(self).found().no_duplicates(),
            final(self).found().map_values(|t: Seq<u32>| t.to_set()).to_set()
                == disjoint_five_subsets(final(self).masks()),
            final(self).found().len() == disjoint_five_subsets(final(self).masks()).len(),
    {
        proof {
            self.lemma_registry();
            assert forall|a: int| 0 <= a < self.valid_masks@.len() implies #[trigger] self.valid_masks@[a]
                != 0 by {
                let m = self.valid_masks@[a];
                assert(self.masks().contains(m));
                lemma_accepted_mask_nonzero(self.mask_to_word@[m]@);
            }
        }
        proof {
            lemma_solution_sets(self.valid_masks@);
        }
        self.solutions = find_all_solutions(&self.valid_masks);
        proof {
            self.lemma_registry();
            assert forall|i: int| 0 <= i < self.found().len() implies #[trigger] self.found()[i].len()
                == 5 && drawn_from(self.masks(), self.found()[i]) by {
                assert(self.found().contains(self.found()[i]));
                assert(views(self.solutions@).contains(self.found()[i]));
                assert(is_solution(self.valid_masks@, self.found()[i]));
            }
        }
    }

    /// Looks up the word kept for a mask of the list.
    fn word_of(&self, mask: u32) -> (w: String)
        requires
            self.wf(),
            self.masks().contains(mask),
        ensures
            w@ == self.registry()[mask],
    {
        proof {
            self.lemma_registry();
        }
        match self.mask_to_word.get(&mask) {
            Some(w) => w.clone(),
            None => String::new(),
        }
    }

    /// The solutions held, each turned into its five words through the
    /// registry.
    pub fn get_solutions(&self) -> (r: Vec<[String; 5]>)
        requires
            self.wf(),
        ensures
            r@.len() == self.found().len(),
            forall|i: int, k: int|
                0 <= i < r@.len() && 0 <= k < 5 ==> #[trigger] r@[i]@[k]@ == self.registry()[self.found()[i][k]],
            forall|i: int, k: int|
                0 <= i < r@.len() && 0 <= k < 5 ==> yields(#[trigger] r@[i]@[k]@, self.found()[i][k]),
    {
        let mut r: Vec<[String; 5]> = Vec::new();
        let mut i: usize = 0;
        while i < self.solutions.len()
            invariant
                self.wf(),
                i <= self.solutions@.len(),
                r@.len() == i,
                forall|q: int, k: int|
                    0 <= q < i && 0 <= k < 5 ==> #[trigger] r@[q]@[k]@ == self.registry()[self.found()[q][k]],
                forall|q: int, k: int|
                    0 <= q < i && 0 <= k < 5 ==> yields(#[trigger] r@[q]@[k]@, self.found()[q][k]),
            decreases self.solutions@.len() - i,
        {
            let sol = self.solutions[i];
            proof {
                assert(self.found()[i as int] == sol@);
                assert(self.found()[i as int].len() == 5);
                assert(forall|k: int| 0 <= k < 5 ==> self.masks().contains(#[trigger] sol@[k]));
            }
            let words: [String; 5] = [
                self.word_of(sol[0]),
                self.word_of(sol[1]),
                self.word_of(sol[2]),
                self.word_of(sol[3]),
                self.word_of(sol[4]),
            ];
            let ghost before = r@;
            r.push(words);
            proof {
                assert forall|q: int, k: int|
                    0 <= q < i + 1 && 0 <= k < 5 implies #[trigger] r@[q]@[k]@ == self.registry()[self.found()[q][k]] by {
                    if q < i {
                        assert(r@[q] == before[q]);
                    } else {
                        assert(r@[q] == words);
                        assert(sol@[k] == sol[k]);
                    }
                }
                assert forall|q: int, k: int|
                    0 <= q < i + 1 && 0 <= k < 5 implies yields(#[trigger] r@[q]@[k]@, self.found()[q][k]) by {
                    if q < i {
                        assert(r@[q] == before[q]);
                    } else {
                        let m = self.found()[q][k];
                        assert(self.masks().contains(m));
                        assert(self.registry().contains_key(m));
                    }
                }
            }
            i = i + 1;
        }
        r
    }

    /// The sorted list of distinct masks.
    pub fn valid_masks(&self) -> (r: &Vec<u32>)
        ensures
            r@ == self.masks(),
    {
        &self.valid_masks
    }

    /// The solutions held, as masks.
    pub fn solutions(&self) -> (r: &Vec<[u32; 5]>)
        ensures
            views(r@) == self.found(),
    {
        &self.solutions
    }
}

/// Two solvers that listed the masks of the same words and then searched
/// hold the same solutions: the outcome depends on the words alone, not on
/// their order, repeats or which anagram the registry kept.
pub proof fn lemma_same_words_same_solutions(a: Solver, b: Solver, words: Seq<String>)
    requires
        a.wf(),
        b.wf(),
        forall|m: u32| #[trigger] a.masks().contains(m) <==> yields_among(words, words.len() as int, m),
        forall|m: u32| #[trigger] b.masks().contains(m) <==> yields_among(words, words.len() as int, m),
        a.found() == all_solutions(a.masks()),
        b.found() == all_solutions(b.masks()),
    ensures
        a.found() == b.found(),
{
    assert forall|x: u32| a.masks().contains(x) <==> b.masks().contains(x) by {}
    lemma_increasing_same_members(a.masks(), b.masks());
}

} // verus!

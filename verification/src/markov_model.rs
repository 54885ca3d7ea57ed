//! Occurrence counters over keys and over pairs of keys.
//!
//! A model is described by the multiset of everything that was counted into
//! it: the count of a key is its multiplicity, the running total is the size
//! of the multiset.

use std::collections::HashMap;
use std::hash::Hash;
use vstd::multiset::Multiset;
use vstd::prelude::*;
use vstd::std_specs::hash::obeys_key_model;

verus! {

/// The multiset that counting the keys of `keys` one after another, into an
/// empty model, leaves behind.
pub open spec fn tally<K>(keys: Seq<K>) -> Multiset<K>
    decreases keys.len(),
{
    if keys.len() == 0 {
        Multiset::empty()
    } else {
        tally(keys.drop_last()).insert(keys.last())
    }
}

/// The pairs that start with `first`.
pub open spec fn led_by<K>(first: K) -> spec_fn((K, K)) -> bool {
    |pair: (K, K)| pair.0 == first
}

/// After any run of increments on an empty model, the total is the number of
/// increments.
pub proof fn lemma_total_is_number_of_increments<K>(keys: Seq<K>)
    ensures
        tally(keys).len() == keys.len(),
    decreases keys.len(),
{
    if keys.len() > 0 {
        lemma_total_is_number_of_increments(keys.drop_last());
    }
}

/// The total of a model is the sum of what it holds of any one key and what
/// it holds of all the others.
pub proof fn lemma_total_splits_by_key<K>(seen: Multiset<K>, key: K)
    ensures
        seen.len() == seen.count(key) + seen.filter(|k: K| k != key).len(),
{
    let same = seen.filter(|k: K| k == key);
    let rest = seen.filter(|k: K| k != key);
    assert(seen =~= same.add(rest));
    lemma_only_one_key(same, key);
}

/// A multiset that holds nothing but `key` is as large as its count of `key`.
proof fn lemma_only_one_key<K>(seen: Multiset<K>, key: K)
    requires
        forall|k: K| k != key ==> seen.count(k) == 0,
    ensures
        seen.len() == seen.count(key),
    decreases seen.len(),
{
    if seen.len() > 0 {
        let k = seen.choose();
        assert(seen.count(k) > 0);
        let less = seen.remove(key);
        lemma_only_one_key(less, key);
    } else {
        vstd::multiset::lemma_multiset_empty_len(seen);
    }
}

/// The part of a multiset that a predicate keeps is no larger than the whole.
proof fn lemma_filter_is_smaller<V>(seen: Multiset<V>, keep: spec_fn(V) -> bool)
    ensures
        seen.filter(keep).len() <= seen.len(),
{
    let kept = seen.filter(keep);
    let dropped = seen.filter(|v: V| !keep(v));
    assert(seen =~= kept.add(dropped));
}

/// Counting one more pair adds one to the pairs led by its first key and
/// leaves the pairs led by any other key as they were.
proof fn lemma_filter_insert<K>(seen: Multiset<(K, K)>, first: K, second: K, other: K)
    ensures
        seen.insert((first, second)).filter(led_by(first)) == seen.filter(led_by(first)).insert(
            (first, second),
        ),
        other != first ==> seen.insert((first, second)).filter(led_by(other)) == seen.filter(
            led_by(other),
        ),
{
    assert(seen.insert((first, second)).filter(led_by(first)) =~= seen.filter(
        led_by(first),
    ).insert((first, second)));
}

/// Counts the number of times each key has been seen.
pub struct UnigramModel<K> where K: Eq + Hash + Copy {
    /// Map from a key to the number of times it has been seen.
    unigram: HashMap<K, usize>,
    /// Number of keys seen, each counted as often as it came.
    total: usize,
    /// Everything that was counted.
    seen: Ghost<Multiset<K>>,
}

impl<K> UnigramModel<K> where K: Eq + Hash + Copy {
    /// Everything that was counted into the model.
    pub closed spec fn view(&self) -> Multiset<K> {
        self.seen@
    }

    /// The stored counts and the running total agree with what was counted.
    pub closed spec fn wf(&self) -> bool {
        &&& obeys_key_model::<K>()
        &&& self.total == self.seen@.len()
        &&& forall|k: K| #[trigger]
            self.seen@.count(k) == (if self.unigram@.contains_key(k) {
                self.unigram@[k] as nat
            } else {
                0
            })
    }

    /// Returns an empty unigram model.
    pub fn new() -> (model: Self)
        requires
            obeys_key_model::<K>(),
        ensures
            model.wf(),
            model@ == Multiset::<K>::empty(),
    {
        UnigramModel { unigram: HashMap::new(), total: 0, seen: Ghost(Multiset::empty()) }
    }

    /// Adds the given key to the model, or counts it once more if it is
    /// already there.
    pub fn increment(&mut self, key: &K)
        requires
            old(self).wf(),
            old(self)@.len() < usize::MAX,
        ensures
            final(self).wf(),
            final(self)@ == old(self)@.insert(*key),
    {
        self.total += 1;
        let slot = self.unigram.entry(*key).or_insert(0);
        assert(*slot == old(self).seen@.count(*key));
        *slot += 1;
        self.seen = Ghost(self.seen@.insert(*key));
    }

    /// Returns the number of times the given key has been seen.
    pub fn count(&self, key: &K) -> (n: usize)
        requires
            self.wf(),
        ensures
            n == self@.count(*key),
    {
        match self.unigram.get(key) {
            Some(count) => *count,
            None => 0,
        }
    }

    /// Returns the number of keys seen, each counted as often as it came.
    pub fn total(&self) -> (n: usize)
        requires
            self.wf(),
        ensures
            n == self@.len(),
    {
        self.total
    }
}

/// Counts the number of times each pair of keys has been seen.
pub struct BigramModel<K> where K: Eq + Hash + Copy {
    /// Map from the first key of a pair to the counts of the second keys.
    bigram: HashMap<K, UnigramModel<K>>,
    /// Number of pairs seen, each counted as often as it came.
    total: usize,
    /// Everything that was counted.
    seen: Ghost<Multiset<(K, K)>>,
}

impl<K> BigramModel<K> where K: Eq + Hash + Copy {
    /// Every pair that was counted into the model.
    pub closed spec fn view(&self) -> Multiset<(K, K)> {
        self.seen@
    }

    /// The stored counts and the running total agree with what was counted.
    pub closed spec fn wf(&self) -> bool {
        &&& obeys_key_model::<K>()
        &&& self.total == self.seen@.len()
        &&& forall|a: K| #[trigger]
            self.bigram@.contains_key(a) ==> self.bigram@[a].wf()
        &&& forall|a: K, b: K| #[trigger]
            self.seen@.count((a, b)) == (if self.bigram@.contains_key(a) {
                self.bigram@[a]@.count(b)
            } else {
                0
            })
        &&& forall|a: K| #[trigger]
            self.seen@.filter(led_by(a)).len() == (if self.bigram@.contains_key(a) {
                self.bigram@[a]@.len()
            } else {
                0
            })
    }

    /// Returns an empty bigram model.
    pub fn new() -> (model: Self)
        requires
            obeys_key_model::<K>(),
        ensures
            model.wf(),
            model@ == Multiset::<(K, K)>::empty(),
    {
        let model = BigramModel {
            bigram: HashMap::new(),
            total: 0,
            seen: Ghost(Multiset::empty()),
        };
        proof {
            assert forall|a: K| #[trigger] model.seen@.filter(led_by(a)).len() == 0 by {
                lemma_filter_is_smaller(model.seen@, led_by(a));
            }
        }
        model
    }

    /// Adds the given pair to the model, or counts it once more if it is
    /// already there.
    pub fn increment(&mut self, first: &K, second: &K)
        requires
            old(self).wf(),
            old(self)@.len() < usize::MAX,
        ensures
            final(self).wf(),
            final(self)@ == old(self)@.insert((*first, *second)),
    {
        proof {
            lemma_filter_is_smaller(self.seen@, led_by(*first));
        }
        self.total += 1;
        let seconds = self.bigram.entry(*first).or_insert(UnigramModel::new());
        seconds.increment(second);
        self.seen = Ghost(self.seen@.insert((*first, *second)));
        proof {
            assert forall|a: K| #[trigger]
                self.seen@.filter(led_by(a)).len() == (if self.bigram@.contains_key(a) {
                    self.bigram@[a]@.len()
                } else {
                    0
                }) by {
                lemma_filter_insert(old(self).seen@, *first, *second, a);
            }
        }
    }

    /// Returns the number of pairs seen whose first key is the given key.
    pub fn count(&self, key: &K) -> (n: usize)
        requires
            self.wf(),
        ensures
            n == self@.filter(led_by(*key)).len(),
    {
        match self.bigram.get(key) {
            Some(seconds) => seconds.total(),
            None => 0,
        }
    }

    /// Returns the number of pairs seen, each counted as often as it came.
    pub fn total(&self) -> (n: usize)
        requires
            self.wf(),
        ensures
            n == self@.len(),
    {
        self.total
    }
}

} // verus!

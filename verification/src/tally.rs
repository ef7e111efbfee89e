//! Counting how often each item of a sequence occurs.

use std::collections::HashMap;
use vstd::prelude::*;

verus! {

/// How often `x` occurs among the first `n` items of `s`.
pub open spec fn occurrences_in<T>(s: Seq<T>, x: T, n: int) -> nat
    decreases n,
{
    if n <= 0 {
        0
    } else {
        occurrences_in(s, x, n - 1) + (if s[n - 1] == x {
            1nat
        } else {
            0nat
        })
    }
}

/// How often `x` occurs in `s`.
pub open spec fn occurrences<T>(s: Seq<T>, x: T) -> nat {
    occurrences_in(s, x, s.len() as int)
}

/// Whether the item at `i` occurs there for the first time.
pub open spec fn is_first<T>(s: Seq<T>, i: int) -> bool {
    forall|j: int| 0 <= j < i ==> s[j] != s[i]
}

/// For each position of a sequence, where its item stands first and, at first
/// positions, how often it occurs.
pub struct Tally {
    /// The position at which the item of a position stands first.
    pub first: Vec<usize>,
    /// How often the item occurs, at its first position; zero elsewhere.
    pub count: Vec<usize>,
}

impl Tally {
    /// Whether this is the tally of `s`.
    pub open spec fn tallies<T>(&self, s: Seq<T>) -> bool {
        &&& self.first@.len() == s.len()
        &&& self.count@.len() == s.len()
        &&& forall|i: int|
            #![trigger self.first@[i]]
            0 <= i < s.len() ==> {
                &&& self.first@[i] <= i
                &&& s[self.first@[i] as int] == s[i]
                &&& is_first(s, self.first@[i] as int)
            }
        &&& forall|i: int|
            #![trigger self.count@[i]]
            0 <= i < s.len() ==> self.count@[i] == (if is_first(s, i) {
                occurrences(s, s[i])
            } else {
                0
            })
    }
}

/// A tally of keys is a tally of what they stand for.
pub proof fn lemma_tally_transfers<T, U>(t: Tally, keys: Seq<T>, s: Seq<U>)
    requires
        t.tallies(keys),
        keys.len() == s.len(),
        forall|i: int, j: int|
            #![trigger keys[i], keys[j]]
            0 <= i < s.len() && 0 <= j < s.len() ==> (keys[i] == keys[j] <==> s[i] == s[j]),
    ensures
        t.tallies(s),
{
    assert forall|i: int| 0 <= i < s.len() implies is_first(keys, i) == is_first(s, i) by {
        if is_first(s, i) {
            assert forall|j: int| 0 <= j < i implies keys[j] != keys[i] by {
                assert(s[j] != s[i]);
            }
        }
        if is_first(keys, i) {
            assert forall|j: int| 0 <= j < i implies s[j] != s[i] by {
                assert(keys[j] != keys[i]);
            }
        }
    }
    assert forall|i: int| 0 <= i < s.len() implies occurrences(keys, keys[i]) == occurrences(s, s[i]) by {
        lemma_occurrences_transfer(keys, s, i, s.len() as int);
    }
    assert forall|i: int|
        #![trigger t.first@[i]]
        0 <= i < s.len() implies {
            &&& t.first@[i] <= i
            &&& s[t.first@[i] as int] == s[i]
            &&& is_first(s, t.first@[i] as int)
        } by {
        let f = t.first@[i] as int;
        assert(keys[f] == keys[i]);
        assert(is_first(keys, f) == is_first(s, f));
    }
    assert forall|i: int|
        #![trigger t.count@[i]]
        0 <= i < s.len() implies t.count@[i] == (if is_first(s, i) {
            occurrences(s, s[i])
        } else {
            0
        }) by {
        assert(is_first(keys, i) == is_first(s, i));
        assert(occurrences(keys, keys[i]) == occurrences(s, s[i]));
    }
}

proof fn lemma_occurrences_transfer<T, U>(keys: Seq<T>, s: Seq<U>, i: int, n: int)
    requires
        keys.len() == s.len(),
        0 <= i < s.len(),
        0 <= n <= s.len(),
        forall|i: int, j: int|
            #![trigger keys[i], keys[j]]
            0 <= i < s.len() && 0 <= j < s.len() ==> (keys[i] == keys[j] <==> s[i] == s[j]),
    ensures
        occurrences_in(keys, keys[i], n) == occurrences_in(s, s[i], n),
    decreases n,
{
    if n > 0 {
        lemma_occurrences_transfer(keys, s, i, n - 1);
        assert(keys[n - 1] == keys[i] <==> s[n - 1] == s[i]);
    }
}

/// No item occurs more often than there are items.
pub proof fn lemma_occurrences_bound<T>(s: Seq<T>, x: T, n: int)
    requires
        0 <= n,
    ensures
        occurrences_in(s, x, n) <= n,
    decreases n,
{
    if n > 0 {
        lemma_occurrences_bound(s, x, n - 1);
    }
}

proof fn lemma_absent<T>(s: Seq<T>, x: T, n: int)
    requires
        0 <= n <= s.len(),
        forall|j: int| 0 <= j < n ==> s[j] != x,
    ensures
        occurrences_in(s, x, n) == 0,
    decreases n,
{
    if n > 0 {
        lemma_absent(s, x, n - 1);
    }
}

/// Tallies `keys`.
pub fn tally(keys: &[u128]) -> (t: Tally)
    ensures
        t.tallies(keys@),
{
    broadcast use vstd::std_specs::hash::group_hash_axioms;

    let mut seen: HashMap<u128, usize> = HashMap::new();
    let mut first: Vec<usize> = Vec::with_capacity(keys.len());
    let mut count: Vec<usize> = Vec::with_capacity(keys.len());
    let mut i: usize = 0;
    while i < keys.len()
        invariant
            i <= keys@.len(),
            first@.len() == i,
            count@.len() == i,
            forall|k: u128|
                #![trigger seen@.contains_key(k)]
                seen@.contains_key(k) ==> {
                    &&& seen@[k] < i
                    &&& keys@[seen@[k] as int] == k
                    &&& is_first(keys@, seen@[k] as int)
                },
            forall|j: int| 0 <= j < i ==> seen@.contains_key(#[trigger] keys@[j]),
            forall|j: int|
                #![trigger first@[j]]
                0 <= j < i ==> {
                    &&& first@[j] <= j
                    &&& keys@[first@[j] as int] == keys@[j]
                    &&& is_first(keys@, first@[j] as int)
                },
            forall|j: int|
                #![trigger count@[j]]
                0 <= j < i ==> count@[j] == (if is_first(keys@, j) {
                    occurrences_in(keys@, keys@[j], i as int)
                } else {
                    0
                }),
        decreases keys@.len() - i,
    {
        broadcast use vstd::std_specs::hash::group_hash_axioms;

        let key: u128 = keys[i];
        let ghost before = count@;
        match seen.get(&key) {
            Some(slot) => {
                let f: usize = *slot;
                assert(seen@.contains_key(key));
                first.push(f);
                proof {
                    lemma_occurrences_bound(keys@, key, i as int);
                    assert(before[f as int] == occurrences_in(keys@, keys@[f as int], i as int));
                }
                let c: usize = count[f];
                count.set(f, c + 1);
                count.push(0);
                assert(!is_first(keys@, i as int));
                assert forall|j: int|
                    #![trigger count@[j]]
                    0 <= j < i + 1 implies count@[j] == (if is_first(keys@, j) {
                        occurrences_in(keys@, keys@[j], i + 1)
                    } else {
                        0
                    }) by {
                    if j < i {
                        assert(count@[j] == if j == f { (c + 1) as usize } else { before[j] });
                        if is_first(keys@, j) && j != f && keys@[j] == key {
                            if j < f {
                                assert(keys@[j] != keys@[f as int]);
                            } else {
                                assert(keys@[f as int] != keys@[j]);
                            }
                        }
                    }
                }
            },
            None => {
                assert(!seen@.contains_key(key));
                seen.insert(key, i);
                first.push(i);
                count.push(1);
                assert forall|j: int| 0 <= j < i implies keys@[j] != key by {
                    assert(seen@.contains_key(keys@[j]));
                }
                proof {
                    lemma_absent(keys@, key, i as int);
                }
                assert forall|j: int|
                    #![trigger count@[j]]
                    0 <= j < i + 1 implies count@[j] == (if is_first(keys@, j) {
                        occurrences_in(keys@, keys@[j], i + 1)
                    } else {
                        0
                    }) by {
                    if j < i {
                        assert(count@[j] == before[j]);
                        assert(keys@[j] != key);
                    }
                }
            },
        }
        i += 1;
    }
    Tally { first, count }
}

proof fn lemma_occurrences_in<T>(s: Seq<T>, x: T, n: int)
    requires
        0 <= n <= s.len(),
    ensures
        occurrences_in(s, x, n) == s.take(n).to_multiset().count(x),
    decreases n,
{
    broadcast use vstd::seq_lib::group_to_multiset_ensures;

    if n == 0 {
        assert(s.take(0) =~= Seq::empty());
        assert(!s.take(0).contains(x));
    } else {
        lemma_occurrences_in(s, x, n - 1);
        assert(s.take(n) =~= s.take(n - 1).push(s[n - 1]));
    }
}

/// An item occurs as often as it is in the multiset of the items.
pub proof fn law_occurrences<T>(s: Seq<T>, x: T)
    ensures
        occurrences(s, x) == s.to_multiset().count(x),
{
    lemma_occurrences_in(s, x, s.len() as int);
    assert(s.take(s.len() as int) =~= s);
}

/// Where an item that occurs stands first.
pub proof fn lemma_first_place<T>(s: Seq<T>, x: T, n: int) -> (i: int)
    requires
        n <= s.len(),
        occurrences_in(s, x, n) > 0,
    ensures
        0 <= i < n,
        s[i] == x,
        is_first(s, i),
    decreases n,
{
    if occurrences_in(s, x, n - 1) > 0 {
        lemma_first_place(s, x, n - 1)
    } else {
        assert forall|j: int| 0 <= j < n - 1 implies #[trigger] s[j] != x by {
            lemma_counted(s, x, j, n - 1);
        }
        n - 1
    }
}

proof fn lemma_counted<T>(s: Seq<T>, x: T, j: int, n: int)
    requires
        0 <= j < n,
    ensures
        s[j] == x ==> occurrences_in(s, x, n) > 0,
    decreases n,
{
    if j < n - 1 {
        lemma_counted(s, x, j, n - 1);
    }
}

} // verus!

//! The canonical place of a field in its record and of a variant in its
//! tag union: the place of its digest among the digests of the record or
//! union in ascending order, which is the order in which they are mixed into
//! the fingerprint. Of equal digests the one that is written first comes
//! first.
//!
//! Types that differ only in the order in which fields or variants are
//! written share a fingerprint and an implementation. The implementation
//! addresses fields and variants by canonical place, and so means the same
//! for all of them.

use crate::content_hash::{ascending, at_most, lemma_at_most_is_total, lemma_map_keeps_items};
use vstd::prelude::*;
use vstd::relations::*;
use vstd::seq_lib::*;

verus! {

/// The numbers of a sequence, as natural numbers.
pub open spec fn nats(numbers: Seq<usize>) -> Seq<nat> {
    numbers.map_values(|n: usize| n as nat)
}

/// Whether the digest at `j` stands before the digest at `i` in canonical
/// order: it is smaller, or it is equal and written earlier.
pub open spec fn comes_before(digests: Seq<u64>, j: int, i: int) -> bool {
    digests[j] < digests[i] || (digests[j] == digests[i] && j < i)
}

/// How many of the first `upto` digests stand before the digest at `i`.
pub open spec fn count_before(digests: Seq<u64>, i: int, upto: int) -> nat
    decreases upto,
{
    if upto <= 0 {
        0
    } else {
        count_before(digests, i, upto - 1) + if comes_before(digests, upto - 1, i) {
            1nat
        } else {
            0nat
        }
    }
}

/// The canonical place of each digest: the number of digests that stand
/// before it.
pub open spec fn places_of(digests: Seq<u64>) -> Seq<nat> {
    Seq::new(digests.len(), |i: int| count_before(digests, i, digests.len() as int))
}

/// The canonical place of each digest.
pub fn places(digests: &Vec<u64>) -> (out: Vec<usize>)
    ensures
        nats(out@) == places_of(digests@),
{
    let n: usize = digests.len();
    let mut out: Vec<usize> = Vec::new();
    let mut i: usize = 0;
    while i < n
        invariant
            n == digests@.len(),
            i <= n,
            out@.len() == i,
            forall|k: int| 0 <= k < i ==> out@[k] == count_before(digests@, k, n as int),
        decreases n - i,
    {
        let mut count: usize = 0;
        let mut j: usize = 0;
        while j < n
            invariant
                n == digests@.len(),
                i < n,
                j <= n,
                count <= j,
                count == count_before(digests@, i as int, j as int),
            decreases n - j,
        {
            if digests[j] < digests[i] || (digests[j] == digests[i] && j < i) {
                count += 1;
            }
            j += 1;
        }
        out.push(count);
        i += 1;
    }
    assert(nats(out@) =~= places_of(digests@));
    out
}

/// How many of the words meet a condition.
pub open spec fn tally(words: Seq<u64>, holds: spec_fn(u64) -> bool) -> nat
    decreases words.len(),
{
    if words.len() == 0 {
        0
    } else {
        tally(words.drop_last(), holds) + if holds(words.last()) {
            1nat
        } else {
            0nat
        }
    }
}

/// The condition of being smaller than a word.
pub open spec fn below(word: u64) -> spec_fn(u64) -> bool {
    |other: u64| other < word
}

/// The condition of being no larger than a word.
pub open spec fn up_to(word: u64) -> spec_fn(u64) -> bool {
    |other: u64| other <= word
}

/// The tally of a condition is the number of times the condition holds
/// among the words, and no more than the number of words.
proof fn lemma_tally_is_count(words: Seq<u64>, holds: spec_fn(u64) -> bool)
    ensures
        tally(words, holds) == words.map_values(holds).to_multiset().count(true),
        tally(words, holds) <= words.len(),
    decreases words.len(),
{
    broadcast use vstd::multiset::group_multiset_axioms;

    let mapped = words.map_values(holds);
    if words.len() == 0 {
        to_multiset_len(mapped);
        assert(mapped.to_multiset() =~= vstd::multiset::Multiset::empty());
    } else {
        let front = words.drop_last();
        lemma_tally_is_count(front, holds);
        assert(mapped =~= front.map_values(holds).push(holds(words.last())));
        to_multiset_build(front.map_values(holds), holds(words.last()));
    }
}

/// The tally of a condition does not depend on the order of the words.
proof fn lemma_tally_keeps(a: Seq<u64>, b: Seq<u64>, holds: spec_fn(u64) -> bool)
    requires
        a.to_multiset() == b.to_multiset(),
    ensures
        tally(a, holds) == tally(b, holds),
{
    lemma_tally_is_count(a, holds);
    lemma_tally_is_count(b, holds);
    lemma_map_keeps_items(a, b, holds);
}

/// Where the first `count` words meet a condition, at least `count` do.
proof fn lemma_tally_front(words: Seq<u64>, holds: spec_fn(u64) -> bool, count: int)
    requires
        0 <= count <= words.len(),
        forall|k: int| 0 <= k < count ==> holds(#[trigger] words[k]),
    ensures
        tally(words, holds) >= count,
    decreases words.len(),
{
    if words.len() > 0 {
        let front = words.drop_last();
        if count == words.len() {
            assert forall|k: int| 0 <= k < count - 1 implies holds(#[trigger] front[k]) by {
                assert(front[k] == words[k]);
            }
            lemma_tally_front(front, holds, count - 1);
            assert(holds(words[words.len() - 1]));
        } else {
            assert forall|k: int| 0 <= k < count implies holds(#[trigger] front[k]) by {
                assert(front[k] == words[k]);
            }
            lemma_tally_front(front, holds, count);
        }
    }
}

/// Where no word from place `count` on meets a condition, at most `count`
/// do.
proof fn lemma_tally_back(words: Seq<u64>, holds: spec_fn(u64) -> bool, count: int)
    requires
        0 <= count <= words.len(),
        forall|k: int| count <= k < words.len() ==> !holds(#[trigger] words[k]),
    ensures
        tally(words, holds) <= count,
    decreases words.len(),
{
    if words.len() > 0 {
        let front = words.drop_last();
        if count == words.len() {
            lemma_tally_is_count(words, holds);
        } else {
            assert forall|k: int| count <= k < front.len() implies !holds(#[trigger] front[k]) by {
                assert(front[k] == words[k]);
            }
            lemma_tally_back(front, holds, count);
            assert(!holds(words[words.len() - 1]));
        }
    }
}

/// Among the first `upto` digests, those that stand before the digest at
/// `i` are at least the smaller ones, and fewer than those that are no
/// larger once the digest itself is among them.
proof fn lemma_count_between(digests: Seq<u64>, i: int, upto: int)
    requires
        0 <= i < digests.len(),
        0 <= upto <= digests.len(),
    ensures
        tally(digests.take(upto), below(digests[i])) <= count_before(digests, i, upto),
        count_before(digests, i, upto) + (if upto > i {
            1int
        } else {
            0int
        }) <= tally(digests.take(upto), up_to(digests[i])),
    decreases upto,
{
    if upto > 0 {
        lemma_count_between(digests, i, upto - 1);
        assert(digests.take(upto).drop_last() =~= digests.take(upto - 1));
        assert(digests.take(upto).last() == digests[upto - 1]);
    }
}

/// The canonical place of a digest is its place among the digests in
/// ascending order: the order in which the digests of the fields of a
/// record, or of the variants of a tag union, are mixed into the
/// fingerprint.
pub proof fn lemma_place_is_place_in_ascending_order(digests: Seq<u64>, i: int)
    requires
        0 <= i < digests.len(),
    ensures
        places_of(digests)[i] < digests.len(),
        ascending(digests).len() == digests.len(),
        ascending(digests)[places_of(digests)[i] as int] == digests[i],
{
    let sorted = ascending(digests);
    let word = digests[i];
    let place = places_of(digests)[i] as int;
    let n = digests.len() as int;
    lemma_at_most_is_total();
    digests.lemma_sort_by_ensures(at_most());
    to_multiset_len(digests);
    to_multiset_len(sorted);
    lemma_count_between(digests, i, n);
    assert(digests.take(n) =~= digests);
    lemma_tally_is_count(digests, up_to(word));
    lemma_tally_keeps(digests, sorted, below(word));
    lemma_tally_keeps(digests, sorted, up_to(word));
    if sorted[place] < word {
        assert forall|k: int| 0 <= k < place + 1 implies below(word)(#[trigger] sorted[k]) by {
            if k < place {
                assert(at_most()(sorted[k], sorted[place]));
            }
        }
        lemma_tally_front(sorted, below(word), place + 1);
    }
    if sorted[place] > word {
        assert forall|k: int| place <= k < sorted.len() implies !up_to(word)(
            #[trigger] sorted[k],
        ) by {
            if place < k {
                assert(at_most()(sorted[place], sorted[k]));
            }
        }
        lemma_tally_back(sorted, up_to(word), place);
    }
}

/// Of two equal digests, the one written later has more digests before it.
proof fn lemma_count_grows(digests: Seq<u64>, i: int, j: int, upto: int)
    requires
        0 <= i < j < digests.len(),
        digests[i] == digests[j],
        0 <= upto <= digests.len(),
    ensures
        count_before(digests, i, upto) + (if upto > i {
            1int
        } else {
            0int
        }) <= count_before(digests, j, upto),
    decreases upto,
{
    if upto > 0 {
        lemma_count_grows(digests, i, j, upto - 1);
    }
}

/// No two fields of a record, and no two variants of a tag union, have the
/// same canonical place.
pub proof fn lemma_places_are_distinct(digests: Seq<u64>, i: int, j: int)
    requires
        0 <= i < digests.len(),
        0 <= j < digests.len(),
        i != j,
    ensures
        places_of(digests)[i] != places_of(digests)[j],
{
    if digests[i] == digests[j] {
        if i < j {
            lemma_count_grows(digests, i, j, digests.len() as int);
        } else {
            lemma_count_grows(digests, j, i, digests.len() as int);
        }
    } else {
        lemma_place_is_place_in_ascending_order(digests, i);
        lemma_place_is_place_in_ascending_order(digests, j);
    }
}

/// Records that hold the same fields in another order agree on what stands
/// in each canonical place: where two runs of digests hold the same digests,
/// two digests with the same canonical place are equal. A body that
/// addresses its nested types by canonical place therefore fits every type
/// that shares its fingerprint by reordering.
pub proof fn lemma_same_place_same_digest(a: Seq<u64>, b: Seq<u64>, i: int, j: int)
    requires
        a.to_multiset() == b.to_multiset(),
        0 <= i < a.len(),
        0 <= j < b.len(),
        places_of(a)[i] == places_of(b)[j],
    ensures
        a[i] == b[j],
{
    lemma_place_is_place_in_ascending_order(a, i);
    lemma_place_is_place_in_ascending_order(b, j);
    lemma_at_most_is_total();
    a.lemma_sort_by_ensures(at_most());
    b.lemma_sort_by_ensures(at_most());
    lemma_sorted_unique(ascending(a), ascending(b), at_most());
}

} // verus!

//! Ranking of candidates by distance, and the bounded ranked list that keeps the
//! nearest ones while candidates stream past.
//!
//! Candidates are ranked by their key (a squared distance); among equal keys the one
//! seen first ranks first. The `k` nearest candidates are the first `k` in that order.
use vstd::prelude::*;

verus! {

/// Number of neighbours that vote on a query.
pub const KNN_K: usize = 5;

/// Candidate `i` ranks before candidate `j`: nearer, or as near and seen earlier.
pub open spec fn ranks_before(keys: Seq<int>, i: int, j: int) -> bool {
    keys[i] < keys[j] || (keys[i] == keys[j] && i < j)
}

/// The smaller of two naturals.
pub open spec fn min_nat(a: nat, b: nat) -> nat {
    if a <= b {
        a
    } else {
        b
    }
}

/// `chosen` lists, in ranking order, the `k` candidates that rank first among `keys`
/// (all of them when there are fewer than `k`).
pub open spec fn is_top_k(keys: Seq<int>, k: nat, chosen: Seq<int>) -> bool {
    &&& chosen.len() == min_nat(k, keys.len())
    &&& forall|a: int| 0 <= a < chosen.len() ==> 0 <= #[trigger] chosen[a] < keys.len()
    &&& forall|a: int, b: int|
        0 <= a < b < chosen.len() ==> ranks_before(keys, #[trigger] chosen[a], #[trigger] chosen[b])
    &&& forall|a: int, j: int|
        0 <= a < chosen.len() && 0 <= j < keys.len() && !chosen.contains(j) ==> #[trigger] ranks_before(
            keys,
            chosen[a],
            j,
        )
}

/// The `k` candidates that rank first, in ranking order.
pub open spec fn top_k(keys: Seq<int>, k: nat) -> Seq<int> {
    choose|chosen: Seq<int>| is_top_k(keys, k, chosen)
}

/// Sum of the labels of the chosen candidates.
pub open spec fn label_sum(labels: Seq<u8>, chosen: Seq<int>) -> int
    decreases chosen.len(),
{
    if chosen.len() == 0 {
        0
    } else {
        label_sum(labels, chosen.drop_last()) + labels[chosen.last()]
    }
}

proof fn lemma_ranks_before_asymmetric(keys: Seq<int>, i: int, j: int)
    ensures
        !(ranks_before(keys, i, j) && ranks_before(keys, j, i)),
        !ranks_before(keys, i, i),
        i != j ==> ranks_before(keys, i, j) || ranks_before(keys, j, i),
{
}

proof fn lemma_top_k_agree_at(keys: Seq<int>, k: nat, c1: Seq<int>, c2: Seq<int>, a: int)
    requires
        is_top_k(keys, k, c1),
        is_top_k(keys, k, c2),
        0 <= a < c1.len(),
        forall|b: int| 0 <= b < a ==> c1[b] == c2[b],
    ensures
        c1[a] == c2[a],
{
    let x = c1[a];
    let y = c2[a];
    if x != y {
        lemma_ranks_before_asymmetric(keys, x, y);
        if ranks_before(keys, x, y) {
            if c2.contains(x) {
                let p = choose|p: int| 0 <= p < c2.len() && c2[p] == x;
                if p < a {
                    assert(c1[p] == x);
                    assert(ranks_before(keys, c1[p], c1[a]));
                } else if p > a {
                    assert(ranks_before(keys, c2[a], c2[p]));
                }
            } else {
                assert(ranks_before(keys, c2[a], x));
            }
        } else {
            if c1.contains(y) {
                let p = choose|p: int| 0 <= p < c1.len() && c1[p] == y;
                if p < a {
                    assert(c2[p] == y);
                    assert(ranks_before(keys, c2[p], c2[a]));
                } else if p > a {
                    assert(ranks_before(keys, c1[a], c1[p]));
                }
            } else {
                assert(ranks_before(keys, c1[a], y));
            }
        }
    }
}

proof fn lemma_top_k_agree_below(keys: Seq<int>, k: nat, c1: Seq<int>, c2: Seq<int>, a: int)
    requires
        is_top_k(keys, k, c1),
        is_top_k(keys, k, c2),
        0 <= a <= c1.len(),
    ensures
        forall|b: int| 0 <= b < a ==> c1[b] == c2[b],
    decreases a,
{
    if a > 0 {
        lemma_top_k_agree_below(keys, k, c1, c2, a - 1);
        lemma_top_k_agree_at(keys, k, c1, c2, a - 1);
    }
}

/// The `k` first-ranked candidates are unique: two lists that both are them are equal.
pub proof fn lemma_top_k_unique(keys: Seq<int>, k: nat, c1: Seq<int>, c2: Seq<int>)
    requires
        is_top_k(keys, k, c1),
        is_top_k(keys, k, c2),
    ensures
        c1 == c2,
{
    lemma_top_k_agree_below(keys, k, c1, c2, c1.len() as int);
    assert(c1 =~= c2);
}

/// Any list that is the `k` first-ranked candidates is `top_k`.
pub proof fn lemma_top_k_is(keys: Seq<int>, k: nat, chosen: Seq<int>)
    requires
        is_top_k(keys, k, chosen),
    ensures
        top_k(keys, k) == chosen,
{
    lemma_top_k_unique(keys, k, top_k(keys, k), chosen);
}

/// No candidate yet: nothing is chosen.
pub proof fn lemma_top_k_empty(keys: Seq<int>, k: nat)
    ensures
        is_top_k(keys.take(0), k, Seq::<int>::empty()),
{
}

/// A candidate that ranks after a full list leaves it unchanged.
pub proof fn lemma_top_k_skip(keys: Seq<int>, k: nat, chosen: Seq<int>, n: int)
    requires
        0 <= n < keys.len(),
        is_top_k(keys.take(n), k, chosen),
        chosen.len() == k,
        k > 0,
        keys[chosen[k - 1]] <= keys[n],
    ensures
        is_top_k(keys.take(n + 1), k, chosen),
{
    let old_keys = keys.take(n);
    let new_keys = keys.take(n + 1);
    assert forall|a: int, b: int| 0 <= a < b < chosen.len() implies ranks_before(
        new_keys,
        #[trigger] chosen[a],
        #[trigger] chosen[b],
    ) by {
        assert(ranks_before(old_keys, chosen[a], chosen[b]));
    }
    assert forall|a: int, j: int|
        0 <= a < chosen.len() && 0 <= j < new_keys.len() && !chosen.contains(j) implies #[trigger] ranks_before(
        new_keys,
        chosen[a],
        j,
    ) by {
        if j < n {
            assert(ranks_before(old_keys, chosen[a], j));
        } else {
            if a < k - 1 {
                assert(ranks_before(old_keys, chosen[a], chosen[k - 1]));
            }
        }
    }
}

/// The list after inserting candidate `n` at `slot`, cut back to `k` entries.
pub open spec fn insert_at(chosen: Seq<int>, slot: int, n: int, k: nat) -> Seq<int> {
    let grown = chosen.take(slot).push(n) + chosen.skip(slot);
    if grown.len() > k {
        grown.take(k as int)
    } else {
        grown
    }
}

/// A candidate that ranks before the last of the list enters it at the place its key
/// gives; the last one falls off when the list was full.
pub proof fn lemma_top_k_insert(keys: Seq<int>, k: nat, chosen: Seq<int>, n: int, slot: int)
    requires
        0 <= n < keys.len(),
        is_top_k(keys.take(n), k, chosen),
        k > 0,
        0 <= slot <= chosen.len(),
        slot < k,
        forall|a: int| 0 <= a < slot ==> keys[#[trigger] chosen[a]] <= keys[n],
        forall|a: int| slot <= a < chosen.len() ==> keys[n] < keys[#[trigger] chosen[a]],
    ensures
        is_top_k(keys.take(n + 1), k, insert_at(chosen, slot, n, k)),
{
    let old_keys = keys.take(n);
    let new_keys = keys.take(n + 1);
    let grown = chosen.take(slot).push(n) + chosen.skip(slot);
    let result = insert_at(chosen, slot, n, k);
    assert(grown.len() == chosen.len() + 1);
    assert forall|a: int| 0 <= a < grown.len() implies #[trigger] grown[a] == (if a < slot {
        chosen[a]
    } else if a == slot {
        n
    } else {
        chosen[a - 1]
    }) by {}
    assert forall|a: int| 0 <= a < result.len() implies #[trigger] result[a] == grown[a] by {}
    assert(result.len() == min_nat(k, new_keys.len()));
    assert forall|a: int| 0 <= a < result.len() implies 0 <= #[trigger] result[a]
        < new_keys.len() by {}
    assert forall|a: int, b: int| 0 <= a < b < result.len() implies ranks_before(
        new_keys,
        #[trigger] result[a],
        #[trigger] result[b],
    ) by {
        if b < slot {
            assert(ranks_before(old_keys, chosen[a], chosen[b]));
        } else if b == slot {
            assert(keys[chosen[a]] <= keys[n]);
        } else if a < slot {
            assert(ranks_before(old_keys, chosen[a], chosen[b - 1]));
        } else if a == slot {
            assert(keys[n] < keys[chosen[b - 1]]);
        } else {
            assert(ranks_before(old_keys, chosen[a - 1], chosen[b - 1]));
        }
    }
    assert forall|a: int, j: int|
        0 <= a < result.len() && 0 <= j < new_keys.len() && !result.contains(j) implies #[trigger] ranks_before(
        new_keys,
        result[a],
        j,
    ) by {
        // j is no member of the new list: either it was no member of the old one, or it
        // was the old last entry, pushed out.
        assert(j != n) by {
            assert(result[slot] == n);
        }
        if chosen.contains(j) {
            let p = choose|p: int| 0 <= p < chosen.len() && chosen[p] == j;
            // p is the old last entry, pushed out: grown has k + 1 entries
            if p < slot {
                assert(result[p] == j);
            } else if p + 1 < result.len() {
                assert(result[p + 1] == j);
            }
            assert(p + 1 == grown.len() - 1);
            if a < slot {
                assert(ranks_before(old_keys, chosen[a], chosen[p]));
            } else if a == slot {
                assert(keys[n] < keys[chosen[p]]);
            } else {
                assert(ranks_before(old_keys, chosen[a - 1], chosen[p]));
            }
        } else {
            assert(j < n);
            // every old member ranks before j, and n ranks before an old member that
            // ranks before j, or the list was not full and held every candidate
            if chosen.len() < k {
                assert(chosen.len() == old_keys.len());
                assert(false) by {
                    lemma_all_members(old_keys, k, chosen, j);
                }
            }
            if a < slot {
                assert(ranks_before(old_keys, chosen[a], j));
            } else if a == slot {
                assert(ranks_before(old_keys, chosen[chosen.len() - 1], j));
                assert(keys[n] < keys[chosen[chosen.len() - 1]]);
            } else {
                assert(ranks_before(old_keys, chosen[a - 1], j));
            }
        }
    }
}

/// A list that holds fewer than `k` entries holds every candidate.
proof fn lemma_all_members(keys: Seq<int>, k: nat, chosen: Seq<int>, j: int)
    requires
        is_top_k(keys, k, chosen),
        chosen.len() == keys.len(),
        0 <= j < keys.len(),
    ensures
        chosen.contains(j),
{
    if !chosen.contains(j) {
        // the entries are distinct indices below keys.len(), as many as there are
        // indices: a pigeonhole argument over the set of entries
        let s = chosen.to_set();
        assert forall|a: int, b: int| 0 <= a < b < chosen.len() implies chosen[a] != chosen[b] by {
            assert(ranks_before(keys, chosen[a], chosen[b]));
        }
        chosen.unique_seq_to_set();
        assert(s.subset_of(Set::new(|i: int| 0 <= i < keys.len() && i != j)));
        vstd::set_lib::lemma_int_range(0, keys.len() as int);
        let full = vstd::set_lib::set_int_range(0, keys.len() as int);
        assert(Set::new(|i: int| 0 <= i < keys.len() && i != j) =~= full.remove(j));
        vstd::set_lib::lemma_len_subset(s, full.remove(j));
    }
}

/// The first place in `chosen`, from `a` on, whose key exceeds `x`.
pub open spec fn first_greater(keys: Seq<int>, chosen: Seq<int>, x: int, a: int) -> int
    decreases chosen.len() - a,
{
    if a >= chosen.len() || a < 0 || keys[chosen[a]] > x {
        a
    } else {
        first_greater(keys, chosen, x, a + 1)
    }
}

proof fn lemma_first_greater(keys: Seq<int>, chosen: Seq<int>, x: int, a: int)
    requires
        0 <= a <= chosen.len(),
        forall|b: int| 0 <= b < a ==> keys[#[trigger] chosen[b]] <= x,
        forall|b: int, c: int|
            0 <= b < c < chosen.len() ==> keys[#[trigger] chosen[b]] <= keys[#[trigger] chosen[c]],
    ensures
        a <= first_greater(keys, chosen, x, a) <= chosen.len(),
        forall|b: int|
            0 <= b < first_greater(keys, chosen, x, a) ==> keys[#[trigger] chosen[b]] <= x,
        forall|b: int|
            first_greater(keys, chosen, x, a) <= b < chosen.len() ==> x < keys[#[trigger] chosen[b]],
    decreases chosen.len() - a,
{
    if a < chosen.len() && keys[chosen[a]] <= x {
        lemma_first_greater(keys, chosen, x, a + 1);
    } else if a < chosen.len() {
        assert forall|b: int| a <= b < chosen.len() implies x < keys[#[trigger] chosen[b]] by {
            if b > a {
                assert(keys[chosen[a]] <= keys[chosen[b]]);
            }
        }
    }
}

proof fn lemma_top_k_prefix_exists(keys: Seq<int>, k: nat, n: int)
    requires
        0 <= n <= keys.len(),
        k > 0,
    ensures
        exists|chosen: Seq<int>| is_top_k(keys.take(n), k, chosen),
    decreases n,
{
    if n == 0 {
        lemma_top_k_empty(keys, k);
    } else {
        lemma_top_k_prefix_exists(keys, k, n - 1);
        let prefix = keys.take(n - 1);
        let chosen = choose|chosen: Seq<int>| is_top_k(prefix, k, chosen);
        assert forall|a: int| 0 <= a < chosen.len() implies #[trigger] keys[chosen[a]] == prefix[chosen[a]]
            by {}
        if chosen.len() == k && keys[chosen[k - 1]] <= keys[n - 1] {
            lemma_top_k_skip(keys, k, chosen, n - 1);
        } else {
            assert forall|b: int, c: int| 0 <= b < c < chosen.len() implies keys[#[trigger] chosen[b]]
                <= keys[#[trigger] chosen[c]] by {
                assert(ranks_before(prefix, chosen[b], chosen[c]));
            }
            lemma_first_greater(keys, chosen, keys[n - 1], 0);
            let slot = first_greater(keys, chosen, keys[n - 1], 0);
            lemma_top_k_insert(keys, k, chosen, n - 1, slot);
        }
    }
}

/// For any candidates there are `k` that rank first.
pub proof fn lemma_top_k_exists(keys: Seq<int>, k: nat)
    ensures
        is_top_k(keys, k, top_k(keys, k)),
{
    if k == 0 {
        assert(is_top_k(keys, k, Seq::<int>::empty()));
    } else {
        lemma_top_k_prefix_exists(keys, k, keys.len() as int);
        assert(keys.take(keys.len() as int) =~= keys);
    }
}

/// The first `k1` first-ranked candidates are the first `k1` of the `k2` first-ranked
/// ones, for `k1 <= k2`.
pub proof fn lemma_top_k_prefix(keys: Seq<int>, k1: nat, k2: nat)
    requires
        k1 <= k2,
    ensures
        top_k(keys, k1) == top_k(keys, k2).take(min_nat(k1, keys.len()) as int),
{
    lemma_top_k_exists(keys, k2);
    let many = top_k(keys, k2);
    let few = many.take(min_nat(k1, keys.len()) as int);
    assert forall|a: int, j: int|
        0 <= a < few.len() && 0 <= j < keys.len() && !few.contains(j) implies #[trigger] ranks_before(
        keys,
        few[a],
        j,
    ) by {
        if many.contains(j) {
            let p = choose|p: int| 0 <= p < many.len() && many[p] == j;
            if p < few.len() {
                assert(few[p] == j);
            }
            assert(ranks_before(keys, many[a], many[p]));
        } else {
            assert(ranks_before(keys, many[a], j));
        }
    }
    assert forall|a: int, b: int| 0 <= a < b < few.len() implies ranks_before(
        keys,
        #[trigger] few[a],
        #[trigger] few[b],
    ) by {
        assert(ranks_before(keys, many[a], many[b]));
    }
    assert(is_top_k(keys, k1, few));
    lemma_top_k_is(keys, k1, few);
}

/// Moving every key by the same amount keeps the ranking.
pub proof fn lemma_top_k_shift(keys: Seq<int>, shifted: Seq<int>, c: int, k: nat)
    requires
        shifted.len() == keys.len(),
        forall|i: int| 0 <= i < keys.len() ==> #[trigger] shifted[i] == keys[i] - c,
    ensures
        top_k(shifted, k) == top_k(keys, k),
{
    lemma_top_k_exists(keys, k);
    let chosen = top_k(keys, k);
    assert forall|a: int, b: int|
        0 <= a < chosen.len() && 0 <= b < chosen.len() implies ranks_before(shifted, chosen[a], chosen[b])
        == ranks_before(keys, chosen[a], chosen[b]) by {
        assert(shifted[chosen[a]] == keys[chosen[a]] - c);
        assert(shifted[chosen[b]] == keys[chosen[b]] - c);
    }
    assert forall|a: int, j: int|
        0 <= a < chosen.len() && 0 <= j < keys.len() && !chosen.contains(j) implies #[trigger] ranks_before(
        shifted,
        chosen[a],
        j,
    ) by {
        assert(ranks_before(keys, chosen[a], j));
        assert(shifted[chosen[a]] == keys[chosen[a]] - c);
        assert(shifted[j] == keys[j] - c);
    }
    assert(is_top_k(shifted, k, chosen));
    lemma_top_k_is(shifted, k, chosen);
}

/// Puts `(distance, item)` into a list kept in nondecreasing order of distance, after
/// every entry whose distance is at most `distance`; the last entry falls off.
/// Returns the place it went to.
pub fn insert_ranked<T: Copy>(best: &mut Vec<(i64, T)>, distance: i64, item: T) -> (slot: usize)
    requires
        old(best).len() > 0,
        distance < old(best)@[old(best).len() - 1].0,
        forall|a: int, b: int|
            0 <= a < b < old(best).len() ==> (#[trigger] old(best)@[a]).0 <= (
            #[trigger] old(best)@[b]).0,
    ensures
        final(best).len() == old(best).len(),
        slot < old(best).len(),
        forall|a: int|
            0 <= a < slot ==> final(best)@[a] == old(best)@[a] && (#[trigger] old(best)@[a]).0
                <= distance,
        final(best)@[slot as int] == (distance, item),
        forall|a: int| slot < a < old(best).len() ==> #[trigger] final(best)@[a] == old(best)@[a - 1],
        forall|a: int| slot <= a < old(best).len() ==> distance < (#[trigger] old(best)@[a]).0,
{
    let ghost before = best@;
    let mut slot = best.len() - 1;
    while slot > 0 && distance < best[slot - 1].0
        invariant
            best.len() == before.len(),
            0 <= slot < before.len(),
            forall|a: int| 0 <= a < slot ==> #[trigger] best@[a] == before[a],
            forall|a: int| slot < a < before.len() ==> #[trigger] best@[a] == before[a - 1],
            forall|a: int| slot <= a < before.len() ==> distance < (#[trigger] before[a]).0,
        decreases slot,
    {
        let moved = best[slot - 1];
        best.set(slot, moved);
        slot = slot - 1;
    }
    assert forall|a: int| 0 <= a < slot implies (#[trigger] before[a]).0 <= distance by {
        assert(before[a].0 <= before[slot - 1].0);
    }
    best.set(slot, (distance, item));
    slot
}

/// The ranked list `best` holds, in order, the key and item of each chosen candidate,
/// and empty entries (a key no distance reaches, with the item `empty`) after them.
pub open spec fn tracks<T>(
    best: Seq<(i64, T)>,
    keys: Seq<int>,
    items: Seq<T>,
    chosen: Seq<int>,
    k: nat,
    empty: T,
) -> bool {
    &&& best.len() == k
    &&& chosen.len() <= k
    &&& forall|a: int|
        0 <= a < chosen.len() ==> #[trigger] best[a] == (keys[chosen[a]] as i64, items[chosen[a]])
    &&& forall|a: int| chosen.len() <= a < k ==> #[trigger] best[a] == (i64::MAX, empty)
}

/// A ranked list of `k` entries with no candidate in it yet.
pub(crate) fn empty_ranking<T: Copy>(
    k: usize,
    empty: T,
    Ghost(keys): Ghost<Seq<int>>,
    Ghost(items): Ghost<Seq<T>>,
) -> (best: Vec<(i64, T)>)
    ensures
        tracks(best@, keys, items, Seq::empty(), k as nat, empty),
        is_top_k(keys.take(0), k as nat, Seq::empty()),
{
    proof {
        lemma_top_k_empty(keys, k as nat);
    }
    let mut best: Vec<(i64, T)> = Vec::new();
    let mut a: usize = 0;
    while a < k
        invariant
            a <= k,
            best.len() == a,
            forall|b: int| 0 <= b < a ==> #[trigger] best@[b] == (i64::MAX, empty),
        decreases k - a,
    {
        best.push((i64::MAX, empty));
        a = a + 1;
    }
    best
}

/// Offers candidate `n`, whose key is `keys[n]` and item `item`, to the ranked list of
/// the candidates before it. `distance` is its key, or a value that already reaches the
/// key of the last entry and does not exceed its key.
pub(crate) fn offer<T: Copy>(
    best: &mut Vec<(i64, T)>,
    distance: i64,
    item: T,
    Ghost(keys): Ghost<Seq<int>>,
    Ghost(items): Ghost<Seq<T>>,
    Ghost(n): Ghost<int>,
    Ghost(chosen): Ghost<Seq<int>>,
    Ghost(k): Ghost<nat>,
    Ghost(empty): Ghost<T>,
) -> (next: Ghost<Seq<int>>)
    requires
        0 <= n < keys.len(),
        n < items.len(),
        items[n] == item,
        k > 0,
        forall|i: int| 0 <= i < keys.len() ==> i64::MIN <= #[trigger] keys[i] < i64::MAX,
        tracks(old(best)@, keys, items, chosen, k, empty),
        is_top_k(keys.take(n), k, chosen),
        distance == keys[n] || (distance <= keys[n] && old(best)@[k - 1].0 <= distance),
    ensures
        tracks(final(best)@, keys, items, next@, k, empty),
        is_top_k(keys.take(n + 1), k, next@),
        forall|a: int| 0 <= a < next@.len() ==> 0 <= #[trigger] next@[a] <= n,
{
    let ghost prefix = keys.take(n);
    assert forall|a: int| 0 <= a < chosen.len() implies #[trigger] keys[chosen[a]] == prefix[chosen[a]]
        by {
        assert(0 <= chosen[a] < prefix.len());
    }
    let last = best.len() - 1;
    if distance >= best[last].0 {
        proof {
            if chosen.len() < k {
                assert(best@[k - 1] == (i64::MAX, empty));
            }
            lemma_top_k_skip(keys, k, chosen, n);
        }
        return Ghost(chosen);
    }
    assert forall|a: int, b: int| 0 <= a < b < best@.len() implies (#[trigger] best@[a]).0 <= (
    #[trigger] best@[b]).0 by {
        if b < chosen.len() {
            assert(ranks_before(prefix, chosen[a], chosen[b]));
        }
    }
    let ghost before = best@;
    let slot = insert_ranked(best, distance, item);
    proof {
        if slot > chosen.len() {
            assert(before[chosen.len() as int].0 <= distance);
        }
        assert forall|a: int| 0 <= a < slot implies keys[#[trigger] chosen[a]] <= keys[n] by {
            assert(before[a].0 <= distance);
        }
        assert forall|a: int| slot <= a < chosen.len() implies keys[n] < keys[#[trigger] chosen[a]]
            by {
            assert(distance < before[a].0);
        }
        lemma_top_k_insert(keys, k, chosen, n, slot as int);
        let next = insert_at(chosen, slot as int, n, k);
        let grown = chosen.take(slot as int).push(n) + chosen.skip(slot as int);
        assert forall|a: int| 0 <= a < grown.len() implies #[trigger] grown[a] == (if a
            < slot {
            chosen[a]
        } else if a == slot {
            n
        } else {
            chosen[a - 1]
        }) by {}
        assert forall|a: int| 0 <= a < next.len() implies #[trigger] next[a] == grown[a] by {}
        assert forall|a: int| 0 <= a < next.len() implies #[trigger] best@[a] == (
        keys[next[a]] as i64, items[next[a]]) by {
            if a > slot {
                assert(best@[a] == before[a - 1]);
                assert(next[a] == chosen[a - 1]);
            } else if a == slot {
                assert(distance == keys[n]);
                assert(next[a] == n);
            } else {
                assert(best@[a] == before[a]);
                assert(next[a] == chosen[a]);
            }
        }
        assert forall|a: int| next.len() <= a < k implies #[trigger] best@[a] == (
        i64::MAX, empty) by {
            assert(best@[a] == before[a - 1]);
        }
    }
    Ghost(insert_at(chosen, slot as int, n, k))
}

/// Sum of the labels in a ranked list, as a byte: modulo 256.
pub(crate) fn sum_labels(
    best: &Vec<(i64, u8)>,
    Ghost(keys): Ghost<Seq<int>>,
    Ghost(labels): Ghost<Seq<u8>>,
    Ghost(chosen): Ghost<Seq<int>>,
) -> (total: u8)
    requires
        tracks(best@, keys, labels, chosen, KNN_K as nat, 0u8),
    ensures
        total == label_sum(labels, chosen) % 256,
{
    let mut sum: u32 = 0;
    let mut a: usize = 0;
    while a < KNN_K
        invariant
            a <= KNN_K,
            tracks(best@, keys, labels, chosen, KNN_K as nat, 0u8),
            sum <= 255 * a,
            sum == label_sum(
                labels,
                chosen.take(if a <= chosen.len() {
                    a as int
                } else {
                    chosen.len() as int
                }),
            ),
        decreases KNN_K - a,
    {
        proof {
            if a < chosen.len() {
                assert(chosen.take(a + 1).drop_last() =~= chosen.take(a as int));
            } else {
                assert(best@[a as int] == (i64::MAX, 0u8));
            }
        }
        sum = sum + best[a].1 as u32;
        a = a + 1;
    }
    assert(chosen.take(chosen.len() as int) =~= chosen);
    (sum % 256) as u8
}

/// Labels of 0 or 1 sum to no more than the number of labels summed.
pub proof fn lemma_label_sum_bound(labels: Seq<u8>, chosen: Seq<int>)
    requires
        forall|a: int| 0 <= a < chosen.len() ==> labels[#[trigger] chosen[a]] <= 1,
    ensures
        0 <= label_sum(labels, chosen) <= chosen.len(),
    decreases chosen.len(),
{
    if chosen.len() > 0 {
        let front = chosen.drop_last();
        assert forall|a: int| 0 <= a < front.len() implies labels[#[trigger] front[a]] <= 1 by {
            assert(front[a] == chosen[a]);
        }
        lemma_label_sum_bound(labels, front);
        assert(labels[chosen[chosen.len() - 1]] <= 1);
    }
}

} // verus!

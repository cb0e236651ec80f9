//! Sequences without repetition and lookups by key.
use vstd::prelude::*;

verus! {

/// `order` with the items that it lacks behind it, in their own order. An item
/// that `order` already holds is not added again.
pub open spec fn with_missing<A>(order: Seq<A>, items: Seq<A>) -> Seq<A>
    decreases items.len(),
{
    if items.len() == 0 {
        order
    } else {
        let before = with_missing(order, items.drop_last());
        if before.contains(items.last()) {
            before
        } else {
            before.push(items.last())
        }
    }
}

/// What [`with_missing`] keeps and adds.
pub proof fn lemma_with_missing<A>(order: Seq<A>, items: Seq<A>)
    ensures
        order.is_prefix_of(with_missing(order, items)),
        forall|i: int|
            0 <= i < items.len() ==> with_missing(order, items).contains(#[trigger] items[i]),
        forall|i: int|
            order.len() <= i < with_missing(order, items).len() ==> items.contains(
                #[trigger] with_missing(order, items)[i],
            ),
        order.no_duplicates() ==> with_missing(order, items).no_duplicates(),
    decreases items.len(),
{
    if items.len() > 0 {
        let rest = items.drop_last();
        lemma_with_missing(order, rest);
        let before = with_missing(order, rest);
        let after = with_missing(order, items);
        assert forall|i: int| 0 <= i < items.len() implies after.contains(#[trigger] items[i]) by {
            if i < rest.len() {
                assert(before.contains(rest[i]));
                let k = choose|k: int| 0 <= k < before.len() && before[k] == rest[i];
                assert(after[k] == items[i]);
            } else if before.contains(items.last()) {
                assert(after.contains(items[i]));
            } else {
                assert(after[before.len() as int] == items[i]);
            }
        }
        assert forall|i: int| order.len() <= i < after.len() implies items.contains(
            #[trigger] after[i],
        ) by {
            if i < before.len() {
                assert(rest.contains(before[i]));
                let k = choose|k: int| 0 <= k < rest.len() && rest[k] == before[i];
                assert(items[k] == after[i]);
            } else {
                assert(items[items.len() - 1] == after[i]);
            }
        }
        assert(order =~= after.subrange(0, order.len() as int)) by {
            assert(order =~= before.subrange(0, order.len() as int));
            assert forall|i: int| 0 <= i < order.len() implies order[i] == after[i] by {
                assert(order[i] == before.subrange(0, order.len() as int)[i]);
            }
        }
        if order.no_duplicates() && !before.contains(items.last()) {
            assert(after == before.push(items.last()));
            assert forall|i: int, j: int|
                0 <= i < after.len() && 0 <= j < after.len() && i != j implies after[i]
                != after[j] by {
                if i == before.len() as int {
                    assert(before.contains(before[j]));
                } else if j == before.len() as int {
                    assert(before.contains(before[i]));
                }
            }
        }
    } else {
        assert(order =~= order.subrange(0, order.len() as int));
    }
}

/// What is left after filtering.
pub proof fn lemma_filter_membership<A>(s: Seq<A>, keep: spec_fn(A) -> bool, x: A)
    ensures
        s.filter(keep).contains(x) <==> s.contains(x) && keep(x),
    decreases s.len(),
{
    reveal(Seq::filter);
    if s.len() > 0 {
        let rest = s.drop_last();
        let kept = rest.filter(keep);
        lemma_filter_membership(rest, keep, x);
        assert(s =~= rest.push(s.last()));
        if s.contains(x) && !rest.contains(x) {
            let i = choose|i: int| 0 <= i < s.len() && s[i] == x;
            assert(i < rest.len() ==> rest[i] == x);
            assert(x == s.last());
        }
        if rest.contains(x) {
            let i = choose|i: int| 0 <= i < rest.len() && rest[i] == x;
            assert(s[i] == x);
        }
        if keep(s.last()) {
            assert(s.filter(keep) == kept.push(s.last()));
            assert(kept.push(s.last())[kept.len() as int] == s.last());
            if kept.contains(x) {
                let i = choose|i: int| 0 <= i < kept.len() && kept[i] == x;
                assert(kept.push(s.last())[i] == x);
            }
            if s.filter(keep).contains(x) && !kept.contains(x) {
                let i = choose|i: int| 0 <= i < s.filter(keep).len() && s.filter(keep)[i] == x;
                assert(i < kept.len() ==> kept[i] == x);
            }
            assert(s[s.len() - 1] == s.last());
        }
    }
}

/// Filtering makes no duplicates.
pub proof fn lemma_filter_no_duplicates<A>(s: Seq<A>, keep: spec_fn(A) -> bool)
    requires
        s.no_duplicates(),
    ensures
        s.filter(keep).no_duplicates(),
    decreases s.len(),
{
    reveal(Seq::filter);
    if s.len() > 0 {
        let rest = s.drop_last();
        let kept = rest.filter(keep);
        lemma_filter_no_duplicates(rest, keep);
        if keep(s.last()) {
            let all = kept.push(s.last());
            assert(s.filter(keep) == all);
            assert forall|i: int, j: int|
                0 <= i < all.len() && 0 <= j < all.len() && i != j implies all[i] != all[j] by {
                let k = if i == kept.len() as int {
                    j
                } else {
                    i
                };
                if i == kept.len() as int || j == kept.len() as int {
                    assert(kept.contains(kept[k]));
                    rest.lemma_filter_contains_rev(keep, kept[k]);
                    let at = choose|at: int| 0 <= at < rest.len() && rest[at] == kept[k];
                    assert(s[at] == kept[k]);
                    assert(s[at] != s[s.len() - 1]);
                }
            }
        }
    }
}

/// The set of a sequence grows with it.
pub proof fn lemma_to_set_push<A>(s: Seq<A>, x: A)
    ensures
        s.push(x).to_set() == s.to_set().insert(x),
{
    assert forall|y: A| s.push(x).to_set().contains(y) <==> s.to_set().insert(x).contains(y) by {
        if s.push(x).contains(y) {
            let i = choose|i: int| 0 <= i < s.push(x).len() && s.push(x)[i] == y;
            if i < s.len() {
                assert(s[i] == y);
            }
        }
        if s.contains(y) {
            let i = choose|i: int| 0 <= i < s.len() && s[i] == y;
            assert(s.push(x)[i] == y);
        }
        assert(s.push(x)[s.len() as int] == x);
    }
    assert(s.push(x).to_set() =~= s.to_set().insert(x));
}

proof fn lemma_filter_agrees<A>(s: Seq<A>, p: spec_fn(A) -> bool, q: spec_fn(A) -> bool)
    requires
        forall|i: int| 0 <= i < s.len() ==> p(#[trigger] s[i]) == q(s[i]),
    ensures
        s.filter(p) == s.filter(q),
    decreases s.len(),
{
    reveal(Seq::filter);
    if s.len() > 0 {
        let rest = s.drop_last();
        assert forall|i: int| 0 <= i < rest.len() implies p(#[trigger] rest[i]) == q(rest[i]) by {
            assert(rest[i] == s[i]);
        }
        lemma_filter_agrees(rest, p, q);
        assert(p(s[s.len() - 1]) == q(s[s.len() - 1]));
    }
}

/// Whether an item has the given key.
pub open spec fn has_key<A, K>(s: Seq<A>, key: spec_fn(A) -> K, k: K) -> bool {
    exists|i: int| 0 <= i < s.len() && key(#[trigger] s[i]) == k
}

/// Items with different keys are either among `keys` or left over: if every key
/// is that of an item, the two kinds together are all items.
pub proof fn lemma_count_left_over<A, K>(
    s: Seq<A>,
    key: spec_fn(A) -> K,
    keys: Seq<K>,
    left_over: spec_fn(A) -> bool,
)
    requires
        keys.no_duplicates(),
        forall|i: int, j: int| 0 <= i < j < s.len() ==> key(#[trigger] s[i]) != key(#[trigger] s[j]),
        forall|k: int| 0 <= k < keys.len() ==> has_key(s, key, #[trigger] keys[k]),
        forall|x: A| #[trigger] left_over(x) == !keys.contains(key(x)),
    ensures
        keys.len() + s.filter(left_over).len() == s.len(),
    decreases s.len(),
{
    reveal(Seq::filter);
    if s.len() == 0 {
        if keys.len() > 0 {
            assert(has_key(s, key, keys[0]));
        }
    } else {
        let rest = s.drop_last();
        let last = s.last();
        assert forall|i: int, j: int| 0 <= i < j < rest.len() implies key(#[trigger] rest[i]) != key(
            #[trigger] rest[j],
        ) by {
            assert(rest[i] == s[i] && rest[j] == s[j]);
        }
        if left_over(last) {
            assert forall|k: int| 0 <= k < keys.len() implies has_key(
                rest,
                key,
                #[trigger] keys[k],
            ) by {
                assert(has_key(s, key, keys[k]));
                let i = choose|i: int| 0 <= i < s.len() && key(#[trigger] s[i]) == keys[k];
                assert(keys.contains(keys[k]));
                assert(i < rest.len());
                assert(rest[i] == s[i]);
            }
            lemma_count_left_over(rest, key, keys, left_over);
        } else {
            let at = choose|at: int| 0 <= at < keys.len() && keys[at] == key(last);
            let others = keys.remove(at);
            let other = |x: A| !others.contains(key(x));
            assert forall|k: int| 0 <= k < others.len() implies #[trigger] others[k] == keys[if k
                < at {
                k
            } else {
                k + 1
            }] && others[k] != key(last) by {}
            assert forall|k: int| 0 <= k < others.len() implies has_key(
                rest,
                key,
                #[trigger] others[k],
            ) by {
                let from = if k < at {
                    k
                } else {
                    k + 1
                };
                assert(keys[from] == others[k]);
                assert(has_key(s, key, keys[from]));
                let i = choose|i: int| 0 <= i < s.len() && key(#[trigger] s[i]) == keys[from];
                assert(i < rest.len());
                assert(rest[i] == s[i]);
            }
            lemma_count_left_over(rest, key, others, other);
            assert forall|i: int| 0 <= i < rest.len() implies left_over(#[trigger] rest[i]) == other(
                rest[i],
            ) by {
                let x = rest[i];
                assert(s[i] == x);
                assert(key(s[i]) != key(s[s.len() - 1]));
                if keys.contains(key(x)) {
                    let k = choose|k: int| 0 <= k < keys.len() && keys[k] == key(x);
                    assert(others[if k < at {
                        k
                    } else {
                        k - 1
                    }] == key(x));
                }
                if others.contains(key(x)) {
                    let k = choose|k: int| 0 <= k < others.len() && others[k] == key(x);
                    assert(keys[if k < at {
                        k
                    } else {
                        k + 1
                    }] == key(x));
                }
            }
            lemma_filter_agrees(rest, left_over, other);
        }
    }
}

/// The value of the last entry with the given key.
pub open spec fn lookup<K, V>(entries: Seq<(K, V)>, key: K) -> Option<V>
    decreases entries.len(),
{
    if entries.len() == 0 {
        None
    } else if entries.last().0 == key {
        Some(entries.last().1)
    } else {
        lookup(entries.drop_last(), key)
    }
}

/// A value that is looked up stands in the list.
pub proof fn lemma_lookup<K, V>(entries: Seq<(K, V)>, key: K)
    ensures
        match lookup(entries, key) {
            Some(v) => entries.contains((key, v)),
            None => forall|i: int| 0 <= i < entries.len() ==> (#[trigger] entries[i]).0 != key,
        },
    decreases entries.len(),
{
    if entries.len() > 0 {
        let rest = entries.drop_last();
        lemma_lookup(rest, key);
        let last = entries.len() - 1;
        assert(entries[last] == entries.last());
        if entries.last().0 != key {
            match lookup(rest, key) {
                Some(v) => {
                    let i = choose|i: int| 0 <= i < rest.len() && rest[i] == (key, v);
                    assert(entries[i] == (key, v));
                },
                None => {
                    assert forall|i: int| 0 <= i < entries.len() implies (#[trigger] entries[i]).0
                        != key by {
                        if i < last {
                            assert(rest[i] == entries[i]);
                        }
                    }
                },
            }
        }
    }
}

/// As many different numbers below `count` as there are leave none out.
pub proof fn lemma_distinct_below_lists_all(s: Seq<int>, count: nat, x: int) -> (at: int)
    requires
        s.len() == count,
        forall|i: int| 0 <= i < s.len() ==> 0 <= #[trigger] s[i] < count,
        forall|i: int, j: int| 0 <= i < s.len() && 0 <= j < s.len() && i != j ==> s[i] != s[j],
        0 <= x < count,
    ensures
        0 <= at < s.len(),
        s[at] == x,
{
    let all = vstd::set_lib::set_int_range(0, count as int);
    vstd::set_lib::lemma_int_range(0, count as int);
    assert(s.no_duplicates());
    s.unique_seq_to_set();
    assert(s.to_set().subset_of(all)) by {
        assert forall|y: int| s.to_set().contains(y) implies all.contains(y) by {
            let i = choose|i: int| 0 <= i < s.len() && s[i] == y;
            assert(0 <= s[i] < count);
        }
    }
    vstd::set_lib::lemma_subset_equality(s.to_set(), all);
    assert(s.to_set().contains(x));
    choose|at: int| 0 <= at < s.len() && s[at] == x
}

/// Filtering keeps the order.
pub proof fn lemma_filter_keeps_order<A>(
    s: Seq<A>,
    keep: spec_fn(A) -> bool,
    i: int,
    j: int,
) -> (at: (int, int))
    requires
        0 <= i < j < s.len(),
        keep(s[i]),
        keep(s[j]),
    ensures
        0 <= at.0 < at.1 < s.filter(keep).len(),
        s.filter(keep)[at.0] == s[i],
        s.filter(keep)[at.1] == s[j],
    decreases s.len(),
{
    reveal(Seq::filter);
    let rest = s.drop_last();
    let kept = rest.filter(keep);
    if j < rest.len() {
        lemma_filter_keeps_order(rest, keep, i, j)
    } else {
        let p = lemma_filter_keeps(rest, keep, i);
        (p, kept.len() as int)
    }
}

/// What is kept by filtering is found again.
pub proof fn lemma_filter_keeps<A>(s: Seq<A>, keep: spec_fn(A) -> bool, i: int) -> (at: int)
    requires
        0 <= i < s.len(),
        keep(s[i]),
    ensures
        0 <= at < s.filter(keep).len(),
        s.filter(keep)[at] == s[i],
    decreases s.len(),
{
    reveal(Seq::filter);
    let rest = s.drop_last();
    let kept = rest.filter(keep);
    if i < rest.len() {
        lemma_filter_keeps(rest, keep, i)
    } else {
        kept.len() as int
    }
}

/// To nothing, all of a list without repetitions is added.
pub proof fn lemma_with_missing_of_distinct<A>(items: Seq<A>)
    requires
        items.no_duplicates(),
    ensures
        with_missing(Seq::empty(), items) == items,
    decreases items.len(),
{
    if items.len() > 0 {
        let rest = items.drop_last();
        let last = items.len() - 1;
        lemma_with_missing_of_distinct(rest);
        assert(!rest.contains(items[last])) by {
            if rest.contains(items[last]) {
                let k = choose|k: int| 0 <= k < rest.len() && rest[k] == items[last];
                assert(items[k] == items[last]);
            }
        }
        assert(with_missing(Seq::empty(), items) =~= items);
    } else {
        assert(with_missing(Seq::empty(), items) =~= items);
    }
}

/// Filtering that keeps everything changes nothing.
pub proof fn lemma_filter_keeps_all<A>(s: Seq<A>, keep: spec_fn(A) -> bool)
    requires
        forall|i: int| 0 <= i < s.len() ==> keep(#[trigger] s[i]),
    ensures
        s.filter(keep) == s,
    decreases s.len(),
{
    reveal(Seq::filter);
    if s.len() > 0 {
        let rest = s.drop_last();
        assert forall|i: int| 0 <= i < rest.len() implies keep(#[trigger] rest[i]) by {
            assert(rest[i] == s[i]);
        }
        lemma_filter_keeps_all(rest, keep);
        assert(keep(s[s.len() - 1]));
        assert(s =~= rest.push(s.last()));
    }
}

} // verus!

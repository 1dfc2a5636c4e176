//! Ordered walks over integer-keyed maps.
use std::collections::BTreeMap;
use vstd::prelude::*;
use vstd::std_specs::cmp::OrdSpec;
use vstd::std_specs::iter::IteratorSpec;

verus! {

broadcast use vstd::laws_cmp::group_laws_cmp;

/// A key whose order is that of an integer.
pub trait Ranked: Sized {
    /// The integer that decides the order.
    spec fn rank(self) -> int;

    /// Distinct keys have distinct ranks.
    proof fn lemma_rank_injective(a: Self, b: Self)
        requires
            a.rank() == b.rank(),
        ensures
            a == b,
    ;
}

impl Ranked for u128 {
    open spec fn rank(self) -> int {
        self as int
    }

    proof fn lemma_rank_injective(a: Self, b: Self) {
    }
}

impl Ranked for u64 {
    open spec fn rank(self) -> int {
        self as int
    }

    proof fn lemma_rank_injective(a: Self, b: Self) {
    }
}

impl Ranked for usize {
    open spec fn rank(self) -> int {
        self as int
    }

    proof fn lemma_rank_injective(a: Self, b: Self) {
    }
}

/// Whether `keys` lists exactly the members of `set`, in ascending order.
pub open spec fn lists<K: Ranked>(keys: Seq<K>, set: Set<K>) -> bool {
    &&& forall|i: int, j: int|
        0 <= i < j < keys.len() ==> (#[trigger] keys[i]).rank() < (#[trigger] keys[j]).rank()
    &&& forall|key: K| #[trigger] set.contains(key) <==> keys.contains(key)
}

/// The members of a finite set in ascending order.
pub open spec fn ascending<K: Ranked>(set: Set<K>) -> Seq<K> {
    choose|keys: Seq<K>| lists(keys, set)
}

/// Dropping the last key of a listing lists the set without it.
proof fn lemma_listing_without_last<K: Ranked>(keys: Seq<K>, set: Set<K>)
    requires
        lists(keys, set),
        keys.len() > 0,
    ensures
        lists(keys.drop_last(), set.remove(keys.last())),
{
    let rest = set.remove(keys.last());
    let front = keys.drop_last();
    assert forall|key: K| #[trigger] rest.contains(key) <==> front.contains(key) by {
        if front.contains(key) {
            let k = choose|k: int| 0 <= k < front.len() && front[k] == key;
            assert(keys[k] == key);
            assert(keys.contains(key));
            assert(keys[k].rank() < keys[keys.len() - 1].rank());
        }
        if rest.contains(key) {
            let k = choose|k: int| 0 <= k < keys.len() && keys[k] == key;
            assert(front[k] == key);
        }
    }
}

/// Two ascending listings of one set are the same sequence.
proof fn lemma_listing_unique<K: Ranked>(a: Seq<K>, b: Seq<K>, set: Set<K>)
    requires
        lists(a, set),
        lists(b, set),
    ensures
        a == b,
    decreases a.len(),
{
    if a.len() == 0 {
        if b.len() > 0 {
            assert(b.contains(b[0]));
            assert(set.contains(b[0]));
        }
        assert(a =~= b);
    } else {
        assert(a.contains(a.last()));
        assert(set.contains(a.last()));
        assert(b.contains(b.last()));
        assert(set.contains(b.last()));
        let i = choose|i: int| 0 <= i < b.len() && b[i] == a.last();
        let j = choose|j: int| 0 <= j < a.len() && a[j] == b.last();
        assert(b[i].rank() <= b[b.len() - 1].rank());
        assert(a[j].rank() <= a[a.len() - 1].rank());
        K::lemma_rank_injective(a.last(), b.last());
        lemma_listing_without_last(a, set);
        lemma_listing_without_last(b, set);
        lemma_listing_unique(a.drop_last(), b.drop_last(), set.remove(a.last()));
        assert(a =~= a.drop_last().push(a.last()));
        assert(b =~= b.drop_last().push(b.last()));
    }
}

/// Any ascending listing of a set is its [`ascending`] listing.
pub proof fn lemma_ascending<K: Ranked>(keys: Seq<K>, set: Set<K>)
    requires
        lists(keys, set),
    ensures
        ascending(set) == keys,
        lists(ascending(set), set),
{
    lemma_listing_unique(ascending(set), keys, set);
}

/// Every finite set has an ascending listing.
pub proof fn lemma_listing_exists<K: Ranked>(set: Set<K>)
    requires
        set.finite(),
    ensures
        lists(ascending(set), set),
    decreases set.len(),
{
    if set.len() == 0 {
        assert(set =~= Set::empty());
        assert(lists(Seq::<K>::empty(), set));
        lemma_ascending(Seq::<K>::empty(), set);
    } else {
        let top = lemma_largest(set);
        let rest = set.remove(top);
        lemma_listing_exists(rest);
        let front = ascending(rest);
        let all = front.push(top);
        assert forall|i: int, j: int| 0 <= i < j < all.len() implies (#[trigger] all[i]).rank() < (
        #[trigger] all[j]).rank() by {
            assert(front.contains(front[i]));
            assert(rest.contains(front[i]));
            if j == front.len() && front[i].rank() == top.rank() {
                K::lemma_rank_injective(front[i], top);
            }
        }
        assert forall|key: K| #[trigger] set.contains(key) <==> all.contains(key) by {
            if set.contains(key) {
                if key == top {
                    assert(all[front.len() as int] == key);
                } else {
                    assert(rest.contains(key));
                    let k = choose|k: int| 0 <= k < front.len() && front[k] == key;
                    assert(all[k] == key);
                }
            }
            if all.contains(key) {
                let k = choose|k: int| 0 <= k < all.len() && all[k] == key;
                if k < front.len() {
                    assert(front.contains(front[k]));
                    assert(rest.contains(key));
                }
            }
        }
        lemma_ascending(all, set);
    }
}

/// A finite, non-empty set has a largest member.
proof fn lemma_largest<K: Ranked>(set: Set<K>) -> (top: K)
    requires
        set.finite(),
        set.len() > 0,
    ensures
        set.contains(top),
        forall|other: K| #[trigger] set.contains(other) ==> other.rank() <= top.rank(),
    decreases set.len(),
{
    let any = set.choose();
    let rest = set.remove(any);
    if rest.len() == 0 {
        assert(rest =~= Set::empty());
        assert forall|other: K| #[trigger] set.contains(other) implies other.rank() <= any.rank() by {
            if other != any {
                assert(rest.contains(other));
            }
        }
        any
    } else {
        let top = lemma_largest(rest);
        assert forall|other: K| #[trigger] set.contains(other) implies other.rank() <= (if top.rank()
            < any.rank() {
            any
        } else {
            top
        }).rank() by {
            if other != any {
                assert(rest.contains(other));
            }
        }
        if top.rank() < any.rank() { any } else { top }
    }
}

/// Keys of a map in ascending order.
pub fn ordered_keys<V>(entries: &BTreeMap<u128, V>) -> (keys: Vec<u128>)
    ensures
        lists(keys@, entries@.dom()),
        keys@ == ascending(entries@.dom()),
{
    let mut keys: Vec<u128> = Vec::new();
    let walk = entries.iter();
    let ghost pairs = walk.remaining();
    let ghost all = pairs.map_values(|pair: (&u128, &V)| *pair.0);
    assert(vstd::std_specs::btree::increasing_seq(all));
    assert forall|i: int, j: int| 0 <= i < j < all.len() implies all[i] < all[j] by {
        assert(all[i].cmp_spec(&all[j]) is Less);
    }
    for pair in it: walk
        invariant
            it.seq() == pairs,
            all == pairs.map_values(|pair: (&u128, &V)| *pair.0),
            keys@ == all.take(it.index()),
    {
        keys.push(*pair.0);
        assert(keys@ =~= all.take(it.index() + 1));
    }
    proof {
        assert(keys@ =~= all);
        assert forall|key: u128| entries@.dom().contains(key) <==> keys@.contains(key) by {
            if entries@.dom().contains(key) {
                assert(entries@.contains_key(key));
                let i = choose|i: int| 0 <= i < pairs.len() && pairs[i] == (&key, &entries@[key]);
                assert(keys@[i] == key);
            }
            if keys@.contains(key) {
                let i = choose|i: int| 0 <= i < keys@.len() && keys@[i] == key;
                assert(entries@.contains_key(*pairs[i].0));
            }
        }
        lemma_ascending(keys@, entries@.dom());
    }
    keys
}

/// Positions used as keys of a map in ascending order.
pub fn ordered_indices<V>(entries: &BTreeMap<usize, V>) -> (keys: Vec<usize>)
    ensures
        lists(keys@, entries@.dom()),
        keys@ == ascending(entries@.dom()),
{
    let mut keys: Vec<usize> = Vec::new();
    let walk = entries.iter();
    let ghost pairs = walk.remaining();
    let ghost all = pairs.map_values(|pair: (&usize, &V)| *pair.0);
    assert(vstd::std_specs::btree::increasing_seq(all));
    assert forall|i: int, j: int| 0 <= i < j < all.len() implies all[i] < all[j] by {
        assert(all[i].cmp_spec(&all[j]) is Less);
    }
    for pair in it: walk
        invariant
            it.seq() == pairs,
            all == pairs.map_values(|pair: (&usize, &V)| *pair.0),
            keys@ == all.take(it.index()),
    {
        keys.push(*pair.0);
        assert(keys@ =~= all.take(it.index() + 1));
    }
    proof {
        assert(keys@ =~= all);
        assert forall|key: usize| entries@.dom().contains(key) <==> keys@.contains(key) by {
            if entries@.dom().contains(key) {
                assert(entries@.contains_key(key));
                let i = choose|i: int| 0 <= i < pairs.len() && pairs[i] == (&key, &entries@[key]);
                assert(keys@[i] == key);
            }
            if keys@.contains(key) {
                let i = choose|i: int| 0 <= i < keys@.len() && keys@[i] == key;
                assert(entries@.contains_key(*pairs[i].0));
            }
        }
        lemma_ascending(keys@, entries@.dom());
    }
    keys
}

/// Identities used as keys of a map in ascending order.
pub fn ordered_ids<V>(entries: &BTreeMap<u64, V>) -> (keys: Vec<u64>)
    ensures
        lists(keys@, entries@.dom()),
        keys@ == ascending(entries@.dom()),
{
    let mut keys: Vec<u64> = Vec::new();
    let walk = entries.iter();
    let ghost pairs = walk.remaining();
    let ghost all = pairs.map_values(|pair: (&u64, &V)| *pair.0);
    assert(vstd::std_specs::btree::increasing_seq(all));
    assert forall|i: int, j: int| 0 <= i < j < all.len() implies all[i] < all[j] by {
        assert(all[i].cmp_spec(&all[j]) is Less);
    }
    for pair in it: walk
        invariant
            it.seq() == pairs,
            all == pairs.map_values(|pair: (&u64, &V)| *pair.0),
            keys@ == all.take(it.index()),
    {
        keys.push(*pair.0);
        assert(keys@ =~= all.take(it.index() + 1));
    }
    proof {
        assert(keys@ =~= all);
        assert forall|key: u64| entries@.dom().contains(key) <==> keys@.contains(key) by {
            if entries@.dom().contains(key) {
                assert(entries@.contains_key(key));
                let i = choose|i: int| 0 <= i < pairs.len() && pairs[i] == (&key, &entries@[key]);
                assert(keys@[i] == key);
            }
            if keys@.contains(key) {
                let i = choose|i: int| 0 <= i < keys@.len() && keys@[i] == key;
                assert(entries@.contains_key(*pairs[i].0));
            }
        }
        lemma_ascending(keys@, entries@.dom());
    }
    keys
}

} // verus!

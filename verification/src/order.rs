//! The order in which the levels of a batch are written: by rising key, and
//! of two levels with one key, the one that came first stays first.

use vstd::prelude::*;

verus! {

/// The entry at position `a` of `keys` is written before the one at `b`:
/// it has the smaller key, or the same key and the earlier position.
pub open spec fn precedes(keys: Seq<i32>, a: int, b: int) -> bool {
    keys[a] < keys[b] || (keys[a] == keys[b] && a < b)
}

/// `order` lists every position of `keys` once, each before all those that
/// it precedes.
pub open spec fn is_stable_order(keys: Seq<i32>, order: Seq<usize>) -> bool {
    &&& order.len() == keys.len()
    &&& forall|k: int| 0 <= k < order.len() ==> (#[trigger] order[k]) < keys.len()
    &&& forall|i: usize| i < keys.len() ==> #[trigger] order.contains(i)
    &&& forall|a: int, b: int|
        0 <= a < b < order.len() ==> precedes(
            keys,
            #[trigger] order[a] as int,
            #[trigger] order[b] as int,
        )
}

/// The stable order of `keys`. There is exactly one: see
/// `lemma_stable_order_exists` and `lemma_stable_order_unique`.
pub open spec fn stable_order(keys: Seq<i32>) -> Seq<usize> {
    choose|order: Seq<usize>| is_stable_order(keys, order)
}

/// Two stable orders of the same keys agree at every position.
pub proof fn lemma_stable_order_unique(keys: Seq<i32>, first: Seq<usize>, second: Seq<usize>)
    requires
        is_stable_order(keys, first),
        is_stable_order(keys, second),
    ensures
        first == second,
{
    assert forall|k: int| 0 <= k < first.len() implies first[k] == second[k] by {
        lemma_orders_agree_at(keys, first, second, k);
    }
    assert(first =~= second);
}

proof fn lemma_orders_agree_at(keys: Seq<i32>, first: Seq<usize>, second: Seq<usize>, k: int)
    requires
        is_stable_order(keys, first),
        is_stable_order(keys, second),
        0 <= k < keys.len(),
    ensures
        first[k] == second[k],
    decreases k,
{
    assert forall|j: int| 0 <= j < k implies first[j] == second[j] by {
        lemma_orders_agree_at(keys, first, second, j);
    }
    if first[k] != second[k] {
        if precedes(keys, first[k] as int, second[k] as int) {
            lemma_earlier_entry_is_placed(keys, first, second, k);
        } else {
            lemma_earlier_entry_is_placed(keys, second, first, k);
        }
    }
}

/// Two orders that agree below `k` agree at `k` too: were the entries
/// different, the one that should come first of the two would have no place
/// left in the other order.
proof fn lemma_earlier_entry_is_placed(
    keys: Seq<i32>,
    first: Seq<usize>,
    second: Seq<usize>,
    k: int,
)
    requires
        is_stable_order(keys, first),
        is_stable_order(keys, second),
        0 <= k < keys.len(),
        forall|j: int| 0 <= j < k ==> first[j] == second[j],
        first[k] == second[k] || precedes(keys, first[k] as int, second[k] as int),
    ensures
        first[k] == second[k],
{
    if first[k] != second[k] {
        assert(second.contains(first[k]));
        let m = choose|m: int| 0 <= m < second.len() && second[m] == first[k];
        if m < k {
            assert(precedes(keys, first[m] as int, first[k] as int));
        } else if m > k {
            assert(precedes(keys, second[k] as int, second[m] as int));
        }
    }
}

/// A stable order stays one when the last key's position is put in after
/// all entries whose key is not larger and before all whose key is larger.
pub proof fn lemma_insert_last(keys: Seq<i32>, order: Seq<usize>, slot: int)
    requires
        keys.len() > 0,
        keys.len() <= usize::MAX,
        is_stable_order(keys.drop_last(), order),
        0 <= slot <= order.len(),
        forall|m: int| 0 <= m < slot ==> keys[(#[trigger] order[m]) as int] <= keys.last(),
        forall|m: int| slot <= m < order.len() ==> keys[(#[trigger] order[m]) as int] > keys.last(),
    ensures
        is_stable_order(keys, order.insert(slot, (keys.len() - 1) as usize)),
{
    let last = (keys.len() - 1) as usize;
    let rest = keys.drop_last();
    let longer = order.insert(slot, last);
    order.insert_ensures(slot, last);
    assert forall|k: int| 0 <= k < longer.len() implies (#[trigger] longer[k]) < keys.len() by {
        if k < slot {
            assert(longer[k] == order[k]);
        } else if k > slot {
            assert(longer[(k - 1) + 1] == order[k - 1]);
        }
    }
    assert forall|i: usize| i < keys.len() implies #[trigger] longer.contains(i) by {
        if i == last {
            assert(longer[slot] == i);
        } else {
            assert(order.contains(i));
            let m = choose|m: int| 0 <= m < order.len() && order[m] == i;
            if m < slot {
                assert(longer[m] == i);
            } else {
                assert(longer[m + 1] == i);
            }
        }
    }
    assert forall|a: int, b: int| 0 <= a < b < longer.len() implies precedes(
        keys,
        #[trigger] longer[a] as int,
        #[trigger] longer[b] as int,
    ) by {
        let from_a = if a < slot {
            a
        } else {
            a - 1
        };
        let from_b = if b < slot {
            b
        } else {
            b - 1
        };
        if a != slot {
            assert(longer[a] == order[from_a]) by {
                if a > slot {
                    assert(longer[(a - 1) + 1] == order[a - 1]);
                }
            }
            assert(rest[order[from_a] as int] == keys[order[from_a] as int]);
        }
        if b != slot {
            assert(longer[b] == order[from_b]) by {
                if b > slot {
                    assert(longer[(b - 1) + 1] == order[b - 1]);
                }
            }
            assert(rest[order[from_b] as int] == keys[order[from_b] as int]);
        }
        if a != slot && b != slot {
            assert(precedes(rest, order[from_a] as int, order[from_b] as int));
        }
    }
}

/// Every sequence of keys has a stable order.
pub proof fn lemma_stable_order_exists(keys: Seq<i32>)
    requires
        keys.len() <= usize::MAX,
    ensures
        is_stable_order(keys, stable_order(keys)),
    decreases keys.len(),
{
    if keys.len() == 0 {
        assert(is_stable_order(keys, Seq::<usize>::empty()));
    } else {
        let rest = keys.drop_last();
        lemma_stable_order_exists(rest);
        let order = stable_order(rest);
        let slot = lemma_slot_exists(keys, order, order.len() as int);
        lemma_insert_last(keys, order, slot);
    }
}

proof fn lemma_slot_exists(keys: Seq<i32>, order: Seq<usize>, upto: int) -> (slot: int)
    requires
        keys.len() > 0,
        is_stable_order(keys.drop_last(), order),
        0 <= upto <= order.len(),
        forall|m: int| upto <= m < order.len() ==> keys[(#[trigger] order[m]) as int] > keys.last(),
    ensures
        0 <= slot <= order.len(),
        forall|m: int| 0 <= m < slot ==> keys[(#[trigger] order[m]) as int] <= keys.last(),
        forall|m: int| slot <= m < order.len() ==> keys[(#[trigger] order[m]) as int] > keys.last(),
    decreases upto,
{
    if upto == 0 {
        0
    } else if keys[order[upto - 1] as int] <= keys.last() {
        lemma_keys_rise(keys, order, upto);
        upto
    } else {
        lemma_slot_exists(keys, order, upto - 1)
    }
}

/// In a stable order the keys never fall: all entries before one whose key
/// is at most the last key have a key that is at most the last key.
proof fn lemma_keys_rise(keys: Seq<i32>, order: Seq<usize>, upto: int)
    requires
        keys.len() > 0,
        is_stable_order(keys.drop_last(), order),
        0 < upto <= order.len(),
        keys[order[upto - 1] as int] <= keys.last(),
    ensures
        forall|m: int| 0 <= m < upto ==> keys[(#[trigger] order[m]) as int] <= keys.last(),
{
    let rest = keys.drop_last();
    assert forall|m: int| 0 <= m < upto implies keys[(#[trigger] order[m]) as int]
        <= keys.last() by {
        assert(rest[order[m] as int] == keys[order[m] as int]);
        assert(rest[order[upto - 1] as int] == keys[order[upto - 1] as int]);
        if m < upto - 1 {
            assert(precedes(rest, order[m] as int, order[upto - 1] as int));
        }
    }
}

/// Sorts the positions of `keys` by rising key, keeping the input order
/// among equal keys. The keys themselves stay where they are.
pub fn sort_order(keys: &Vec<i32>) -> (order: Vec<usize>)
    ensures
        is_stable_order(keys@, order@),
        order@ == stable_order(keys@),
{
    let mut order: Vec<usize> = Vec::new();
    let mut i: usize = 0;
    assert(keys@.take(0) =~= Seq::<i32>::empty());
    while i < keys.len()
        invariant
            i <= keys@.len(),
            is_stable_order(keys@.take(i as int), order@),
        decreases keys@.len() - i,
    {
        let key = keys[i];
        let ghost seen = keys@.take(i + 1);
        proof {
            assert(seen.drop_last() =~= keys@.take(i as int));
            assert(seen.last() == key);
        }
        let mut slot: usize = order.len();
        while slot > 0 && keys[order[slot - 1]] > key
            invariant
                slot <= order@.len(),
                i < keys@.len(),
                order@.len() == i,
                key == keys@[i as int],
                forall|k: int| 0 <= k < order@.len() ==> (#[trigger] order@[k]) < i,
                forall|m: int| slot <= m < order@.len() ==> keys@[(#[trigger] order@[m]) as int] > key,
            decreases slot,
        {
            slot -= 1;
        }
        proof {
            assert forall|m: int| slot <= m < order@.len() implies seen[(#[trigger] order@[m]) as int]
                > seen.last() by {
                assert(keys@[order@[m] as int] > key);
            }
            if slot > 0 {
                assert(seen[order@[slot - 1] as int] == keys@[order@[slot - 1] as int]);
                lemma_keys_rise(seen, order@, slot as int);
            }
            lemma_insert_last(seen, order@, slot as int);
        }
        order.insert(slot, i);
        i += 1;
    }
    proof {
        assert(keys@.take(i as int) =~= keys@);
        lemma_stable_order_unique(keys@, order@, stable_order(keys@));
    }
    order
}

} // verus!

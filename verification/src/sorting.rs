//! Stable ordering of candidate moves by an integer key.
use vstd::prelude::*;

verus! {

/// Entry `a` comes before entry `b`: smaller key, or equal key and earlier.
pub open spec fn key_before(keys: Seq<i32>, a: int, b: int) -> bool {
    keys[a] < keys[b] || (keys[a] == keys[b] && a < b)
}

/// Index `t` appears among the first `n` entries of `order`.
pub open spec fn listed(order: Seq<usize>, n: int, t: int) -> bool {
    exists|j: int| 0 <= j < n && #[trigger] order[j] == t
}

/// `order` lists the first `n` entry indices, each once, by ascending key and,
/// among equal keys, in input order.
pub open spec fn orders_prefix(order: Seq<usize>, keys: Seq<i32>, n: int) -> bool {
    &&& order.len() == n
    &&& forall|j: int| 0 <= j < n ==> #[trigger] order[j] < n
    &&& forall|j: int, k: int| 0 <= j < k < n ==> key_before(keys, #[trigger] order[j] as int, #[trigger] order[k] as int)
    &&& forall|t: int| 0 <= t < n ==> #[trigger] listed(order, n, t)
}

/// `order` is the stable ascending order of all of `keys`.
pub open spec fn stable_order_of(order: Seq<usize>, keys: Seq<i32>) -> bool {
    orders_prefix(order, keys, keys.len() as int)
}

/// `out` is `items` arranged by `order`, the stable ascending order of `keys`.
pub open spec fn arranged<T>(out: Seq<T>, items: Seq<T>, keys: Seq<i32>, order: Seq<usize>) -> bool {
    &&& stable_order_of(order, keys)
    &&& out == order.map_values(|i: usize| items[i as int])
}

/// `out` is `items` stably sorted by ascending `keys`.
pub open spec fn stably_sorted<T>(out: Seq<T>, items: Seq<T>, keys: Seq<i32>) -> bool {
    exists|order: Seq<usize>| #[trigger] arranged(out, items, keys, order)
}

/// Two orders agreeing before position `j` agree at `j` too.
proof fn lemma_orders_agree_at(o1: Seq<usize>, o2: Seq<usize>, keys: Seq<i32>, j: int)
    requires
        stable_order_of(o1, keys),
        stable_order_of(o2, keys),
        0 <= j < keys.len(),
        forall|i: int| 0 <= i < j ==> o1[i] == o2[i],
    ensures
        o1[j] == o2[j],
{
    let n = keys.len() as int;
    let a = o1[j] as int;
    let b = o2[j] as int;
    if a != b {
        assert(listed(o2, n, a));
        let k = choose|k: int| 0 <= k < n && #[trigger] o2[k] == a;
        if k < j {
            assert(o1[k] == a);
            assert(key_before(keys, o1[k] as int, o1[j] as int));
        }
        assert(k > j);
        assert(key_before(keys, o2[j] as int, o2[k] as int));
        assert(listed(o1, n, b));
        let m = choose|m: int| 0 <= m < n && #[trigger] o1[m] == b;
        if m < j {
            assert(o2[m] == b);
            assert(key_before(keys, o2[m] as int, o2[j] as int));
        }
        assert(m > j);
        assert(key_before(keys, o1[j] as int, o1[m] as int));
    }
}

/// Orders agreeing before position `j` agree up to `j`.
proof fn lemma_orders_agree_upto(o1: Seq<usize>, o2: Seq<usize>, keys: Seq<i32>, j: int)
    requires
        stable_order_of(o1, keys),
        stable_order_of(o2, keys),
        0 <= j <= keys.len(),
    ensures
        forall|i: int| 0 <= i < j ==> o1[i] == o2[i],
    decreases j,
{
    if j > 0 {
        lemma_orders_agree_upto(o1, o2, keys, j - 1);
        lemma_orders_agree_at(o1, o2, keys, j - 1);
    }
}

/// There is one stable order of a list of keys.
pub proof fn lemma_stable_order_unique(o1: Seq<usize>, o2: Seq<usize>, keys: Seq<i32>)
    requires
        stable_order_of(o1, keys),
        stable_order_of(o2, keys),
    ensures
        o1 == o2,
{
    lemma_orders_agree_upto(o1, o2, keys, keys.len() as int);
    assert(o1 =~= o2);
}

/// The indices of `keys` in stable ascending key order.
pub fn stable_order(keys: &Vec<i32>) -> (order: Vec<usize>)
    ensures
        stable_order_of(order@, keys@),
{
    let mut order: Vec<usize> = Vec::new();
    let n = keys.len();
    let mut i: usize = 0;
    while i < n
        invariant
            0 <= i <= n,
            n == keys.len(),
            orders_prefix(order@, keys@, i as int),
        decreases n - i,
    {
        let mut j: usize = 0;
        while j < order.len() && keys[order[j]] <= keys[i]
            invariant
                0 <= j <= order.len(),
                i < n,
                n == keys.len(),
                orders_prefix(order@, keys@, i as int),
                forall|m: int| 0 <= m < j ==> keys@[#[trigger] order@[m] as int] <= keys@[i as int],
            decreases order.len() - j,
        {
            j += 1;
        }
        let ghost old_order = order@;
        proof {
            // Everything from `j` on has a larger key than entry `i`.
            assert forall|m: int| j <= m < old_order.len() implies keys@[#[trigger] old_order[m] as int] > keys@[i as int] by {
                if m > j {
                    assert(key_before(keys@, old_order[j as int] as int, old_order[m] as int));
                }
            }
        }
        order.insert(j, i);
        proof {
            let o = order@;
            assert forall|t: int| 0 <= t < i + 1 implies #[trigger] listed(o, i + 1, t) by {
                if t == i {
                    assert(o[j as int] == t);
                } else {
                    assert(listed(old_order, i as int, t));
                    let k = choose|k: int| 0 <= k < i && #[trigger] old_order[k] == t;
                    if k < j {
                        assert(o[k] == t);
                    } else {
                        assert(o[k + 1] == t);
                    }
                }
            }
            assert forall|a: int, b: int| 0 <= a < b < i + 1 implies key_before(keys@, #[trigger] o[a] as int, #[trigger] o[b] as int) by {
                if b < j {
                    assert(o[a] == old_order[a] && o[b] == old_order[b]);
                } else if b == j {
                    assert(o[a] == old_order[a]);
                } else if a < j {
                    assert(o[a] == old_order[a] && o[b] == old_order[b - 1]);
                } else if a == j {
                    assert(o[b] == old_order[b - 1]);
                } else {
                    assert(o[a] == old_order[a - 1] && o[b] == old_order[b - 1]);
                }
            }
            assert forall|a: int| 0 <= a < i + 1 implies #[trigger] o[a] < i + 1 by {
                if a < j {
                    assert(o[a] == old_order[a]);
                } else if a > j {
                    assert(o[a] == old_order[a - 1]);
                }
            }
        }
        i += 1;
    }
    order
}

} // verus!

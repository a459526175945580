//! Stable ordering of items by a (start, end) time key.
use vstd::prelude::*;

verus! {

pub open spec fn index_seq(v: Seq<usize>) -> Seq<int> {
    v.map_values(|i: usize| i as int)
}

pub proof fn lemma_index_seq_push(v: Seq<usize>, i: usize)
    ensures
        index_seq(v.push(i)) == index_seq(v).push(i as int),
{
    assert(index_seq(v.push(i)) =~= index_seq(v).push(i as int));
}

pub open spec fn key_views(keys: Seq<(i64, i64)>) -> Seq<(int, int)> {
    keys.map_values(|k: (i64, i64)| (k.0 as int, k.1 as int))
}

/// Item `a` precedes item `b`: by start, then end, then position.
pub open spec fn key_before(keys: Seq<(int, int)>, a: int, b: int) -> bool {
    ||| keys[a].0 < keys[b].0
    ||| (keys[a].0 == keys[b].0 && keys[a].1 < keys[b].1)
    ||| (keys[a].0 == keys[b].0 && keys[a].1 == keys[b].1 && a < b)
}

/// `o` lists every position once, ordered by (start, end) with ties kept in
/// input order: a stable sort by time.
pub open spec fn is_stable_order(keys: Seq<(int, int)>, o: Seq<int>) -> bool {
    &&& o.len() == keys.len()
    &&& forall|k: int| 0 <= k < o.len() ==> 0 <= #[trigger] o[k] < keys.len()
    &&& forall|i: int| 0 <= i < keys.len() ==> #[trigger] o.contains(i)
    &&& forall|k1: int, k2: int|
        0 <= k1 < k2 < o.len() ==> key_before(keys, #[trigger] o[k1], #[trigger] o[k2])
}

/// The stable time order of a key sequence (unique, see
/// `lemma_stable_order_unique`).
pub open spec fn stable_order(keys: Seq<(int, int)>) -> Seq<int> {
    choose|o: Seq<int>| is_stable_order(keys, o)
}

/// There is exactly one stable time order of a key sequence.
pub proof fn lemma_stable_order_unique(keys: Seq<(int, int)>, o1: Seq<int>, o2: Seq<int>)
    requires
        is_stable_order(keys, o1),
        is_stable_order(keys, o2),
    ensures
        o1 == o2,
{
    assert forall|k: int| 0 <= k < o1.len() implies o1[k] == o2[k] by {
        lemma_stable_order_pointwise(keys, o1, o2, k);
    }
    assert(o1 =~= o2);
}

proof fn lemma_stable_order_pointwise(keys: Seq<(int, int)>, o1: Seq<int>, o2: Seq<int>, k: int)
    requires
        is_stable_order(keys, o1),
        is_stable_order(keys, o2),
        0 <= k < o1.len(),
    ensures
        o1[k] == o2[k],
    decreases k,
{
    let x = o1[k];
    let y = o2[k];
    assert(o2.contains(x));
    let p = choose|p: int| 0 <= p < o2.len() && o2[p] == x;
    assert(o1.contains(y));
    let q = choose|q: int| 0 <= q < o1.len() && o1[q] == y;
    if p != k {
        // Earlier positions agree, so `x` and `y` both sit after position k
        // in the other order, which orders them both ways.
        if p < k {
            lemma_stable_order_pointwise(keys, o1, o2, p);
            assert(key_before(keys, o1[p], o1[k]));
        } else if q < k {
            lemma_stable_order_pointwise(keys, o1, o2, q);
            assert(key_before(keys, o2[q], o2[k]));
        } else {
            assert(key_before(keys, o1[k], o1[q]));
            assert(key_before(keys, o2[k], o2[p]));
        }
    }
}

/// Where `x` goes in the sorted order `o`: after every item that precedes
/// it.
pub open spec fn split_point(keys: Seq<(int, int)>, o: Seq<int>, x: int) -> int
    decreases o.len(),
{
    if o.len() == 0 {
        0
    } else if key_before(keys, o.last(), x) {
        o.len() as int
    } else {
        split_point(keys, o.drop_last(), x)
    }
}

proof fn lemma_key_before_transitive(keys: Seq<(int, int)>, a: int, b: int, c: int)
    requires
        key_before(keys, a, b),
        key_before(keys, b, c),
    ensures
        key_before(keys, a, c),
{
}

proof fn lemma_split_point(keys: Seq<(int, int)>, o: Seq<int>, x: int)
    requires
        forall|k1: int, k2: int|
            0 <= k1 < k2 < o.len() ==> key_before(keys, #[trigger] o[k1], #[trigger] o[k2]),
    ensures
        0 <= split_point(keys, o, x) <= o.len(),
        forall|k: int| 0 <= k < split_point(keys, o, x) ==> key_before(keys, #[trigger] o[k], x),
        forall|k: int|
            split_point(keys, o, x) <= k < o.len() ==> !key_before(keys, #[trigger] o[k], x),
    decreases o.len(),
{
    if o.len() > 0 {
        let p = o.drop_last();
        assert forall|k1: int, k2: int| 0 <= k1 < k2 < p.len() implies key_before(
            keys,
            #[trigger] p[k1],
            #[trigger] p[k2],
        ) by {
            assert(p[k1] == o[k1] && p[k2] == o[k2]);
        }
        lemma_split_point(keys, p, x);
        if key_before(keys, o.last(), x) {
            assert forall|k: int| 0 <= k < o.len() implies key_before(keys, #[trigger] o[k], x) by {
                if k < o.len() - 1 {
                    assert(key_before(keys, o[k], o[o.len() - 1]));
                    lemma_key_before_transitive(keys, o[k], o[o.len() - 1], x);
                }
            }
        } else {
            assert forall|k: int| 0 <= k < split_point(keys, o, x) implies key_before(
                keys,
                #[trigger] o[k],
                x,
            ) by {
                assert(o[k] == p[k]);
            }
            assert forall|k: int| split_point(keys, o, x) <= k < o.len() implies !key_before(
                keys,
                #[trigger] o[k],
                x,
            ) by {
                if k < o.len() - 1 {
                    assert(o[k] == p[k]);
                }
            }
        }
    }
}

/// Every key sequence has a stable time order.
pub proof fn lemma_stable_order_exists(keys: Seq<(int, int)>)
    ensures
        is_stable_order(keys, stable_order(keys)),
    decreases keys.len(),
{
    let o = stable_order_of_len(keys, keys.len() as int);
    assert(is_stable_order(keys, o));
}

/// A stable order of the first `n` positions of `keys`.
proof fn stable_order_of_len(keys: Seq<(int, int)>, n: int) -> (o: Seq<int>)
    requires
        0 <= n <= keys.len(),
    ensures
        o.len() == n,
        forall|k: int| 0 <= k < o.len() ==> 0 <= #[trigger] o[k] < n,
        forall|i: int| 0 <= i < n ==> #[trigger] o.contains(i),
        forall|k1: int, k2: int|
            0 <= k1 < k2 < o.len() ==> key_before(keys, #[trigger] o[k1], #[trigger] o[k2]),
    decreases n,
{
    if n == 0 {
        Seq::empty()
    } else {
        let p = stable_order_of_len(keys, n - 1);
        let x = n - 1;
        lemma_split_point(keys, p, x);
        let j = split_point(keys, p, x);
        let o = p.insert(j, x);
        assert forall|k: int| 0 <= k < o.len() implies 0 <= #[trigger] o[k] < n by {
            if k < j {
                assert(o[k] == p[k]);
            } else if k > j {
                assert(o[k] == p[k - 1]);
            }
        }
        assert forall|i: int| 0 <= i < n implies #[trigger] o.contains(i) by {
            if i == x {
                assert(o[j] == x);
            } else {
                assert(p.contains(i));
                let k = choose|k: int| 0 <= k < p.len() && p[k] == i;
                if k < j {
                    assert(o[k] == i);
                } else {
                    assert(o[k + 1] == i);
                }
            }
        }
        assert forall|k1: int, k2: int| 0 <= k1 < k2 < o.len() implies key_before(
            keys,
            #[trigger] o[k1],
            #[trigger] o[k2],
        ) by {
            if k2 < j {
                assert(o[k1] == p[k1] && o[k2] == p[k2]);
            } else if k2 == j {
                assert(o[k1] == p[k1]);
            } else if k1 == j {
                assert(o[k2] == p[k2 - 1]);
                assert(!key_before(keys, p[k2 - 1], x));
                assert(p[k2 - 1] < x);
            } else if k1 < j {
                assert(o[k1] == p[k1] && o[k2] == p[k2 - 1]);
            } else {
                assert(o[k1] == p[k1 - 1] && o[k2] == p[k2 - 1]);
            }
        }
        o
    }
}

/// Positions of `keys` in stable time order (insertion sort).
pub fn stable_order_of(keys: &[(i64, i64)]) -> (o: Vec<usize>)
    ensures
        is_stable_order(key_views(keys@), index_seq(o@)),
{
    let ghost kv = key_views(keys@);
    let mut o: Vec<usize> = Vec::new();
    let mut i: usize = 0;
    while i < keys.len()
        invariant
            i <= keys.len(),
            kv == key_views(keys@),
            o@.len() == i,
            forall|k: int| 0 <= k < o@.len() ==> (#[trigger] o@[k]) < i,
            forall|x: int| 0 <= x < i ==> #[trigger] index_seq(o@).contains(x),
            forall|k1: int, k2: int|
                0 <= k1 < k2 < o@.len() ==> key_before(
                    kv,
                    #[trigger] o@[k1] as int,
                    #[trigger] o@[k2] as int,
                ),
        decreases keys.len() - i,
    {
        let mut j: usize = o.len();
        while j > 0 && (keys[i].0 < keys[o[j - 1]].0 || (keys[i].0 == keys[o[j - 1]].0 && keys[i].1
            < keys[o[j - 1]].1))
            invariant
                j <= o@.len(),
                i < keys.len(),
                o@.len() == i,
                kv == key_views(keys@),
                forall|k: int| 0 <= k < o@.len() ==> (#[trigger] o@[k]) < i,
                forall|m: int| j <= m < o@.len() ==> key_before(kv, i as int, #[trigger] o@[m] as int),
            decreases j,
        {
            j -= 1;
        }
        let ghost old_o = o@;
        proof {
            if j > 0 {
                assert(key_before(kv, old_o[j - 1] as int, i as int));
            }
        }
        o.insert(j, i);
        proof {
            assert forall|k: int| 0 <= k < o@.len() implies (#[trigger] o@[k]) < i + 1 by {
                if k < j {
                    assert(o@[k] == old_o[k]);
                } else if k > j {
                    assert(o@[k] == old_o[k - 1]);
                }
            }
            assert forall|x: int| 0 <= x < i + 1 implies #[trigger] index_seq(o@).contains(x) by {
                if x == i {
                    assert(index_seq(o@)[j as int] == x);
                } else {
                    assert(index_seq(old_o).contains(x));
                    let k = choose|k: int| 0 <= k < old_o.len() && index_seq(old_o)[k] == x;
                    if k < j {
                        assert(index_seq(o@)[k] == x);
                    } else {
                        assert(index_seq(o@)[k + 1] == x);
                    }
                }
            }
            assert forall|k1: int, k2: int| 0 <= k1 < k2 < o@.len() implies key_before(
                kv,
                #[trigger] o@[k1] as int,
                #[trigger] o@[k2] as int,
            ) by {
                if k2 < j {
                    assert(o@[k1] == old_o[k1] && o@[k2] == old_o[k2]);
                } else if k2 == j {
                    assert(o@[k1] == old_o[k1]);
                    if k1 < j - 1 {
                        assert(key_before(kv, old_o[k1] as int, old_o[j - 1] as int));
                    }
                } else if k1 == j {
                    assert(o@[k2] == old_o[k2 - 1]);
                } else if k1 < j {
                    assert(o@[k1] == old_o[k1] && o@[k2] == old_o[k2 - 1]);
                } else {
                    assert(o@[k1] == old_o[k1 - 1] && o@[k2] == old_o[k2 - 1]);
                }
            }
        }
        i += 1;
    }
    o
}

} // verus!

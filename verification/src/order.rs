//! Stable ordering of items by a pair of integer keys, largest first.
//!
//! The anonymizer, the vault and the analyzer all sort with the standard
//! library's stable sort; here each of them names its sort key as a pair of
//! `u64` and receives the positions of its items in sorted order.
use vstd::prelude::*;

verus! {

/// `a` comes before or level with `b` in the descending lexicographic order.
pub open spec fn key_ge(a: (u64, u64), b: (u64, u64)) -> bool {
    a.0 > b.0 || (a.0 == b.0 && a.1 >= b.1)
}

/// Inserts position `i` into `order` after every position whose key is
/// greater than or equal to the key of `i`.
pub open spec fn insert_by_key(order: Seq<int>, keys: Seq<(u64, u64)>, i: int) -> Seq<int>
    decreases order.len(),
{
    if order.len() == 0 {
        seq![i]
    } else if key_ge(keys[order[0]], keys[i]) {
        seq![order[0]] + insert_by_key(order.drop_first(), keys, i)
    } else {
        seq![i] + order
    }
}

/// The positions `0..n` in the order a stable sort by descending key puts them:
/// each position is inserted after those before it whose key is not smaller.
pub open spec fn stable_order(keys: Seq<(u64, u64)>, n: int) -> Seq<int>
    decreases n,
{
    if n <= 0 {
        seq![]
    } else {
        insert_by_key(stable_order(keys, n - 1), keys, n - 1)
    }
}

proof fn lemma_insert_split(order: Seq<int>, keys: Seq<(u64, u64)>, i: int, p: int)
    requires
        0 <= p <= order.len(),
        forall|j: int| 0 <= j < p ==> key_ge(keys[#[trigger] order[j]], keys[i]),
        p < order.len() ==> !key_ge(keys[order[p]], keys[i]),
    ensures
        insert_by_key(order, keys, i) == order.take(p) + seq![i] + order.skip(p),
    decreases order.len(),
{
    if order.len() == 0 {
        assert(order.take(p) + seq![i] + order.skip(p) =~= seq![i]);
    } else if p == 0 {
        assert(order.take(0) + seq![i] + order.skip(0) =~= seq![i] + order);
    } else {
        let rest = order.drop_first();
        assert forall|j: int| 0 <= j < p - 1 implies key_ge(keys[#[trigger] rest[j]], keys[i]) by {
            assert(rest[j] == order[j + 1]);
        }
        lemma_insert_split(rest, keys, i, p - 1);
        assert(order.take(p) + seq![i] + order.skip(p) =~= seq![order[0]] + (rest.take(p - 1)
            + seq![i] + rest.skip(p - 1)));
    }
}

proof fn lemma_insert_len(order: Seq<int>, keys: Seq<(u64, u64)>, i: int)
    ensures
        insert_by_key(order, keys, i).len() == order.len() + 1,
    decreases order.len(),
{
    if order.len() > 0 {
        lemma_insert_len(order.drop_first(), keys, i);
    }
}

proof fn lemma_insert_contents(order: Seq<int>, keys: Seq<(u64, u64)>, i: int)
    ensures
        insert_by_key(order, keys, i).len() == order.len() + 1,
        insert_by_key(order, keys, i).contains(i),
        forall|m: int|
            0 <= m < order.len() ==> insert_by_key(order, keys, i).contains(#[trigger] order[m]),
        forall|m: int|
            0 <= m < order.len() + 1 ==> (#[trigger] insert_by_key(order, keys, i)[m]) == i
                || order.contains(insert_by_key(order, keys, i)[m]),
        (forall|a: int, b: int| 0 <= a < b < order.len() ==> order[a] != order[b])
            && !order.contains(i) ==> forall|a: int, b: int|
            0 <= a < b < order.len() + 1 ==> insert_by_key(order, keys, i)[a] != insert_by_key(
                order,
                keys,
                i,
            )[b],
    decreases order.len(),
{
    let r = insert_by_key(order, keys, i);
    if order.len() == 0 {
        assert(r == seq![i]);
        assert(r[0] == i);
    } else if key_ge(keys[order[0]], keys[i]) {
        let rest = order.drop_first();
        lemma_insert_contents(rest, keys, i);
        let ri = insert_by_key(rest, keys, i);
        assert(r == seq![order[0]] + ri);
        let mi = choose|m: int| 0 <= m < ri.len() && ri[m] == i;
        assert(r[mi + 1] == i);
        assert forall|m: int| 0 <= m < order.len() implies r.contains(#[trigger] order[m]) by {
            if m == 0 {
                assert(r[0] == order[0]);
            } else {
                assert(order[m] == rest[m - 1]);
                assert(ri.contains(rest[m - 1]));
                let q = choose|q: int| 0 <= q < ri.len() && ri[q] == rest[m - 1];
                assert(r[q + 1] == order[m]);
            }
        }
        assert forall|m: int| 0 <= m < order.len() + 1 implies (#[trigger] r[m]) == i
            || order.contains(r[m]) by {
            if m == 0 {
                assert(r[0] == order[0]);
            } else {
                assert(r[m] == ri[m - 1]);
                if ri[m - 1] != i {
                    assert(rest.contains(ri[m - 1]));
                    let q = choose|q: int| 0 <= q < rest.len() && rest[q] == ri[m - 1];
                    assert(order[q + 1] == r[m]);
                }
            }
        }
        if (forall|a: int, b: int| 0 <= a < b < order.len() ==> order[a] != order[b])
            && !order.contains(i) {
            assert forall|a: int, b: int| 0 <= a < b < rest.len() implies rest[a] != rest[b] by {
                assert(rest[a] == order[a + 1] && rest[b] == order[b + 1]);
            }
            assert(!rest.contains(i)) by {
                if rest.contains(i) {
                    let q = choose|q: int| 0 <= q < rest.len() && rest[q] == i;
                    assert(order[q + 1] == i);
                }
            }
            assert forall|a: int, b: int| 0 <= a < b < order.len() + 1 implies r[a] != r[b] by {
                if a == 0 {
                    assert(r[b] == ri[b - 1]);
                    if ri[b - 1] != i {
                        assert(rest.contains(ri[b - 1]));
                        let q = choose|q: int| 0 <= q < rest.len() && rest[q] == ri[b - 1];
                        assert(order[q + 1] == ri[b - 1]);
                    } else {
                        assert(order[0] != i);
                    }
                } else {
                    assert(r[a] == ri[a - 1] && r[b] == ri[b - 1]);
                }
            }
        }
    } else {
        assert(r == seq![i] + order);
        assert(r[0] == i);
        assert forall|m: int| 0 <= m < order.len() implies r.contains(#[trigger] order[m]) by {
            assert(r[m + 1] == order[m]);
        }
        assert forall|m: int| 0 <= m < order.len() + 1 implies (#[trigger] r[m]) == i
            || order.contains(r[m]) by {
            if m > 0 {
                assert(r[m] == order[m - 1]);
            }
        }
        if (forall|a: int, b: int| 0 <= a < b < order.len() ==> order[a] != order[b])
            && !order.contains(i) {
            assert forall|a: int, b: int| 0 <= a < b < order.len() + 1 implies r[a] != r[b] by {
                if a == 0 {
                    assert(r[b] == order[b - 1]);
                } else {
                    assert(r[a] == order[a - 1] && r[b] == order[b - 1]);
                }
            }
        }
    }
}

/// The stable order is a permutation of `0..n`.
pub proof fn lemma_stable_order_perm(keys: Seq<(u64, u64)>, n: int)
    requires
        n >= 0,
    ensures
        stable_order(keys, n).len() == n,
        forall|m: int| 0 <= m < n ==> 0 <= #[trigger] stable_order(keys, n)[m] < n,
        forall|x: int| 0 <= x < n ==> #[trigger] stable_order(keys, n).contains(x),
        forall|a: int, b: int|
            0 <= a < b < n ==> stable_order(keys, n)[a] != stable_order(keys, n)[b],
    decreases n,
{
    if n > 0 {
        lemma_stable_order_perm(keys, n - 1);
        let prev = stable_order(keys, n - 1);
        let cur = stable_order(keys, n);
        lemma_insert_contents(prev, keys, n - 1);
        assert(!prev.contains(n - 1)) by {
            if prev.contains(n - 1) {
                let q = choose|q: int| 0 <= q < prev.len() && prev[q] == n - 1;
                assert(prev[q] < n - 1);
            }
        }
        assert forall|m: int| 0 <= m < n implies 0 <= #[trigger] cur[m] < n by {
            if cur[m] != n - 1 {
                assert(prev.contains(cur[m]));
                let q = choose|q: int| 0 <= q < prev.len() && prev[q] == cur[m];
                assert(0 <= prev[q] < n - 1);
            }
        }
        assert forall|x: int| 0 <= x < n implies #[trigger] cur.contains(x) by {
            if x < n - 1 {
                assert(prev.contains(x));
                let q = choose|q: int| 0 <= q < prev.len() && prev[q] == x;
                assert(cur.contains(prev[q]));
            }
        }
    }
}

proof fn lemma_insert_sorted(order: Seq<int>, keys: Seq<(u64, u64)>, i: int)
    requires
        forall|a: int, b: int|
            0 <= a < b < order.len() ==> key_ge(keys[#[trigger] order[a]], keys[#[trigger] order[b]]),
    ensures
        forall|a: int, b: int|
            0 <= a < b < order.len() + 1 ==> key_ge(
                keys[#[trigger] insert_by_key(order, keys, i)[a]],
                keys[#[trigger] insert_by_key(order, keys, i)[b]],
            ),
    decreases order.len(),
{
    let r = insert_by_key(order, keys, i);
    lemma_insert_contents(order, keys, i);
    if order.len() == 0 {
    } else if key_ge(keys[order[0]], keys[i]) {
        let rest = order.drop_first();
        assert forall|a: int, b: int| 0 <= a < b < rest.len() implies key_ge(
            keys[#[trigger] rest[a]],
            keys[#[trigger] rest[b]],
        ) by {
            assert(rest[a] == order[a + 1] && rest[b] == order[b + 1]);
        }
        lemma_insert_sorted(rest, keys, i);
        lemma_insert_contents(rest, keys, i);
        let ri = insert_by_key(rest, keys, i);
        assert(r == seq![order[0]] + ri);
        assert forall|a: int, b: int| 0 <= a < b < order.len() + 1 implies key_ge(
            keys[#[trigger] r[a]],
            keys[#[trigger] r[b]],
        ) by {
            if a == 0 {
                assert(r[b] == ri[b - 1]);
                if ri[b - 1] != i {
                    assert(rest.contains(ri[b - 1]));
                    let q = choose|q: int| 0 <= q < rest.len() && rest[q] == ri[b - 1];
                    assert(order[q + 1] == ri[b - 1]);
                    assert(key_ge(keys[order[0]], keys[order[q + 1]]));
                }
            } else {
                assert(r[a] == ri[a - 1] && r[b] == ri[b - 1]);
            }
        }
    } else {
        assert(r == seq![i] + order);
        assert forall|a: int, b: int| 0 <= a < b < order.len() + 1 implies key_ge(
            keys[#[trigger] r[a]],
            keys[#[trigger] r[b]],
        ) by {
            if a == 0 {
                assert(r[b] == order[b - 1]);
                assert(key_ge(keys[order[0]], keys[order[b - 1]]) || b - 1 == 0);
            } else {
                assert(r[a] == order[a - 1] && r[b] == order[b - 1]);
            }
        }
    }
}

/// The stable order puts keys in descending order.
pub proof fn lemma_stable_order_sorted(keys: Seq<(u64, u64)>, n: int)
    requires
        n >= 0,
    ensures
        forall|a: int, b: int|
            0 <= a < b < n ==> key_ge(
                keys[#[trigger] stable_order(keys, n)[a]],
                keys[#[trigger] stable_order(keys, n)[b]],
            ),
    decreases n,
{
    if n > 0 {
        lemma_stable_order_sorted(keys, n - 1);
        lemma_stable_order_perm(keys, n - 1);
        lemma_insert_sorted(stable_order(keys, n - 1), keys, n - 1);
    }
}

fn key_ge_exec(a: (u64, u64), b: (u64, u64)) -> (res: bool)
    ensures
        res == key_ge(a, b),
{
    a.0 > b.0 || (a.0 == b.0 && a.1 >= b.1)
}

/// The positions of `keys` in the order of a stable sort by descending key,
/// as `slice::sort_by` produces it.
pub fn stable_order_desc(keys: &Vec<(u64, u64)>) -> (res: Vec<usize>)
    ensures
        res@.len() == keys@.len(),
        res@.map_values(|i: usize| i as int) == stable_order(keys@, keys@.len() as int),
        forall|j: int| 0 <= j < res@.len() ==> res@[j] < keys@.len(),
{
    let mut order: Vec<usize> = Vec::new();
    let mut n: usize = 0;
    while n < keys.len()
        invariant
            n <= keys@.len(),
            order@.len() == n,
            order@.map_values(|i: usize| i as int) == stable_order(keys@, n as int),
            forall|j: int| 0 <= j < order@.len() ==> order@[j] < n,
        decreases keys@.len() - n,
    {
        let ghost old_order = order@.map_values(|i: usize| i as int);
        let mut p: usize = 0;
        while p < order.len() && key_ge_exec(keys[order[p]], keys[n])
            invariant
                p <= order@.len(),
                n < keys@.len(),
                order@.len() == n,
                forall|j: int| 0 <= j < order@.len() ==> order@[j] < n,
                old_order == order@.map_values(|i: usize| i as int),
                forall|j: int| 0 <= j < p ==> key_ge(keys@[#[trigger] old_order[j]], keys@[n as int]),
            decreases order@.len() - p,
        {
            p = p + 1;
        }
        proof {
            lemma_insert_split(old_order, keys@, n as int, p as int);
        }
        order.insert(p, n);
        assert(order@.map_values(|i: usize| i as int) =~= old_order.take(p as int) + seq![
            n as int,
        ] + old_order.skip(p as int));
        n = n + 1;
    }
    order
}

} // verus!

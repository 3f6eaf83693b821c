//! Stable ordering of items by integer keys.
//!
//! An item's key is a sequence of integers, compared the way words are compared
//! in a dictionary. Items with equal keys keep their order, so that there is
//! exactly one right answer.

use vstd::prelude::*;

verus! {

/// `a` comes before `b` in the dictionary.
pub open spec fn key_less(a: Seq<i64>, b: Seq<i64>) -> bool
    decreases a.len(),
{
    if b.len() == 0 {
        false
    } else if a.len() == 0 {
        true
    } else if a[0] != b[0] {
        a[0] < b[0]
    } else {
        key_less(a.drop_first(), b.drop_first())
    }
}

/// Item `i` is listed before item `j`: by key, then by position.
pub open spec fn before(keys: Seq<Seq<i64>>, i: int, j: int) -> bool {
    key_less(keys[i], keys[j]) || (keys[i] == keys[j] && i < j)
}

/// Item `k` is in the list.
pub open spec fn listed(perm: Seq<usize>, k: int) -> bool {
    exists|p: int| 0 <= p < perm.len() && #[trigger] perm[p] == k
}

/// `perm` lists every item once, in order.
pub open spec fn is_order(keys: Seq<Seq<i64>>, perm: Seq<usize>) -> bool {
    &&& perm.len() == keys.len()
    &&& forall|p: int| 0 <= p < perm.len() ==> (#[trigger] perm[p]) < keys.len()
    &&& forall|k: int| 0 <= k < keys.len() ==> #[trigger] listed(perm, k)
    &&& forall|p: int, q: int|
        0 <= p < q < perm.len() ==> before(keys, (#[trigger] perm[p]) as int, (#[trigger] perm[q]) as int)
}

/// The stable order.
pub open spec fn order_of(keys: Seq<Seq<i64>>) -> Seq<usize> {
    choose|perm: Seq<usize>| is_order(keys, perm)
}

/// The keys as sequences.
pub open spec fn key_views(keys: Seq<Vec<i64>>) -> Seq<Seq<i64>> {
    Seq::new(keys.len(), |i: int| keys[i]@)
}

/// No key comes before itself.
pub proof fn lemma_key_irreflexive(a: Seq<i64>)
    ensures
        !key_less(a, a),
    decreases a.len(),
{
    if a.len() > 0 {
        lemma_key_irreflexive(a.drop_first());
    }
}

proof fn lemma_key_total(a: Seq<i64>, b: Seq<i64>)
    ensures
        key_less(a, b) || key_less(b, a) || a == b,
        !(key_less(a, b) && key_less(b, a)),
    decreases a.len(),
{
    if a.len() == 0 || b.len() == 0 {
        if a.len() == 0 && b.len() == 0 {
            assert(a =~= b);
        }
    } else if a[0] == b[0] {
        lemma_key_total(a.drop_first(), b.drop_first());
        if a.drop_first() == b.drop_first() {
            assert(a =~= seq![a[0]] + a.drop_first());
            assert(b =~= seq![b[0]] + b.drop_first());
        }
    }
}

/// Of two keys, at most one comes before the other.
pub proof fn lemma_not_both(a: Seq<i64>, b: Seq<i64>)
    ensures
        !(key_less(a, b) && key_less(b, a)),
{
    lemma_key_total(a, b);
}

/// The order of keys is transitive.
pub proof fn lemma_key_transitive(a: Seq<i64>, b: Seq<i64>, c: Seq<i64>)
    requires
        key_less(a, b),
        key_less(b, c),
    ensures
        key_less(a, c),
    decreases a.len(),
{
    if a.len() > 0 && a[0] == b[0] && b[0] == c[0] {
        lemma_key_transitive(a.drop_first(), b.drop_first(), c.drop_first());
    }
}

proof fn lemma_before_transitive(keys: Seq<Seq<i64>>, i: int, j: int, k: int)
    requires
        before(keys, i, j),
        before(keys, j, k),
    ensures
        before(keys, i, k),
{
    if key_less(keys[i], keys[j]) && key_less(keys[j], keys[k]) {
        lemma_key_transitive(keys[i], keys[j], keys[k]);
    }
}

proof fn lemma_before_total(keys: Seq<Seq<i64>>, i: int, j: int)
    requires
        i != j,
    ensures
        before(keys, i, j) || before(keys, j, i),
        !(before(keys, i, j) && before(keys, j, i)),
{
    lemma_key_total(keys[i], keys[j]);
    lemma_key_irreflexive(keys[i]);
}

/// There is only one stable order.
pub proof fn lemma_order_unique(keys: Seq<Seq<i64>>, p: Seq<usize>, q: Seq<usize>)
    requires
        is_order(keys, p),
        is_order(keys, q),
    ensures
        p == q,
{
    assert forall|n: int| 0 <= n <= keys.len() implies p.take(n) == #[trigger] q.take(n) by {
        lemma_order_prefix(keys, p, q, n);
    }
    let n = keys.len() as int;
    assert(p.take(n) == q.take(n));
    assert(p =~= p.take(n));
    assert(q =~= q.take(n));
}

proof fn lemma_order_prefix(keys: Seq<Seq<i64>>, p: Seq<usize>, q: Seq<usize>, n: int)
    requires
        is_order(keys, p),
        is_order(keys, q),
        0 <= n <= keys.len(),
    ensures
        p.take(n) == q.take(n),
    decreases n,
{
    if n > 0 {
        lemma_order_prefix(keys, p, q, n - 1);
        assert forall|m: int| 0 <= m < n - 1 implies #[trigger] p[m] == q[m] by {
            assert(p.take(n - 1)[m] == p[m]);
            assert(q.take(n - 1)[m] == q[m]);
        }
        let a = p[n - 1] as int;
        let b = q[n - 1] as int;
        if a != b {
            assert(listed(q, a));
            assert(listed(p, b));
            let s = choose|s: int| 0 <= s < q.len() && q[s] == a;
            let t = choose|t: int| 0 <= t < p.len() && p[t] == b;
            lemma_before_total(keys, a, b);
            lemma_before_total(keys, b, a);
            if s < n - 1 {
                assert(p[s] == q[s]);
                assert(before(keys, p[s] as int, p[n - 1] as int));
                lemma_key_irreflexive(keys[a]);
            }
            if t < n - 1 {
                assert(p[t] == q[t]);
                assert(before(keys, q[t] as int, q[n - 1] as int));
                lemma_key_irreflexive(keys[b]);
            }
            assert(s > n - 1);
            assert(t > n - 1);
            assert(before(keys, q[n - 1] as int, q[s] as int));
            assert(before(keys, p[n - 1] as int, p[t] as int));
            assert(false);
        }
        assert(p.take(n) =~= p.take(n - 1).push(p[n - 1]));
        assert(q.take(n) =~= q.take(n - 1).push(q[n - 1]));
    }
}

/// The first place from `i` on whose item comes after item `x`, or the end.
spec fn place_for(keys: Seq<Seq<i64>>, perm: Seq<usize>, x: int, i: int) -> int
    decreases perm.len() - i,
{
    if i < 0 || i >= perm.len() || before(keys, x, perm[i] as int) {
        i
    } else {
        place_for(keys, perm, x, i + 1)
    }
}

proof fn lemma_place_for(keys: Seq<Seq<i64>>, perm: Seq<usize>, x: int, i: int)
    requires
        0 <= i <= perm.len(),
    ensures
        i <= place_for(keys, perm, x, i) <= perm.len(),
        forall|q: int|
            i <= q < place_for(keys, perm, x, i) ==> !before(keys, x, (#[trigger] perm[q]) as int),
        place_for(keys, perm, x, i) < perm.len() ==> before(
            keys,
            x,
            perm[place_for(keys, perm, x, i)] as int,
        ),
    decreases perm.len() - i,
{
    if i < perm.len() && !before(keys, x, perm[i] as int) {
        lemma_place_for(keys, perm, x, i + 1);
    }
}

/// The first `n` items can be put in order.
proof fn lemma_order_upto(keys: Seq<Seq<i64>>, n: int) -> (perm: Seq<usize>)
    requires
        0 <= n <= keys.len(),
        keys.len() <= usize::MAX,
    ensures
        perm.len() == n,
        forall|p: int| 0 <= p < n ==> (#[trigger] perm[p]) < n,
        forall|k: int| 0 <= k < n ==> #[trigger] listed(perm, k),
        forall|p: int, q: int|
            0 <= p < q < n ==> before(keys, (#[trigger] perm[p]) as int, (#[trigger] perm[q]) as int),
    decreases n,
{
    if n == 0 {
        Seq::empty()
    } else {
        let prev = lemma_order_upto(keys, n - 1);
        let x = n - 1;
        let p = place_for(keys, prev, x, 0);
        lemma_place_for(keys, prev, x, 0);
        let perm = prev.insert(p, x as usize);
        assert forall|k: int| 0 <= k < n implies #[trigger] listed(perm, k) by {
            if k == x {
                assert(perm[p] == k);
            } else {
                assert(listed(prev, k));
                let q = choose|q: int| 0 <= q < prev.len() && prev[q] == k;
                if q < p {
                    assert(perm[q] == k);
                } else {
                    assert(perm[q + 1] == k);
                }
            }
        }
        assert forall|a: int, b: int| 0 <= a < b < n implies before(
            keys,
            (#[trigger] perm[a]) as int,
            (#[trigger] perm[b]) as int,
        ) by {
            let i = if a < p {
                a
            } else {
                a - 1
            };
            let j = if b < p {
                b
            } else {
                b - 1
            };
            if a == p {
                assert(perm[b] == prev[j]);
                if j > p {
                    assert(before(keys, prev[p] as int, prev[j] as int));
                    lemma_before_transitive(keys, x, prev[p] as int, prev[j] as int);
                }
            } else if b == p {
                assert(perm[a] == prev[i]);
                assert(prev[i] < n - 1);
                lemma_before_total(keys, x, prev[i] as int);
            } else {
                assert(perm[a] == prev[i]);
                assert(perm[b] == prev[j]);
            }
        }
        perm
    }
}

/// Any items can be put in order, so that the stable order is one.
pub proof fn lemma_order_exists(keys: Seq<Seq<i64>>)
    requires
        keys.len() <= usize::MAX,
    ensures
        is_order(keys, order_of(keys)),
{
    let perm = lemma_order_upto(keys, keys.len() as int);
    assert(is_order(keys, perm));
}

/// Whether key `a` comes before key `b`.
pub fn less(a: &Vec<i64>, b: &Vec<i64>) -> (r: bool)
    ensures
        r == key_less(a@, b@),
{
    let mut i: usize = 0;
    proof {
        assert(a@.skip(0) =~= a@);
        assert(b@.skip(0) =~= b@);
    }
    while i < a.len() && i < b.len()
        invariant
            i <= a@.len(),
            i <= b@.len(),
            key_less(a@, b@) == key_less(a@.skip(i as int), b@.skip(i as int)),
        decreases a@.len() - i,
    {
        proof {
            assert(a@.skip(i as int).drop_first() =~= a@.skip(i + 1));
            assert(b@.skip(i as int).drop_first() =~= b@.skip(i + 1));
        }
        if a[i] != b[i] {
            return a[i] < b[i];
        }
        i = i + 1;
    }
    i < b.len()
}

/// The items' positions in stable order of their keys.
pub fn stable_order(keys: &Vec<Vec<i64>>) -> (perm: Vec<usize>)
    ensures
        is_order(key_views(keys@), perm@),
        perm@ == order_of(key_views(keys@)),
{
    let ghost kv = key_views(keys@);
    let mut perm: Vec<usize> = Vec::new();
    let mut i: usize = 0;
    proof {
        assert(kv.take(0).len() == 0);
    }
    while i < keys.len()
        invariant
            kv == key_views(keys@),
            i <= keys@.len(),
            is_order(kv.take(i as int), perm@),
        decreases keys@.len() - i,
    {
        let ghost head = kv.take(i as int);
        let mut at: usize = i;
        while at > 0 && less(&keys[i], &keys[perm[at - 1]])
            invariant
                kv == key_views(keys@),
                i < keys@.len(),
                at <= i,
                head == kv.take(i as int),
                is_order(head, perm@),
                forall|p: int| at <= p < i ==> key_less(kv[i as int], kv[#[trigger] perm@[p] as int]),
            decreases at,
        {
            at = at - 1;
        }
        let ghost was = perm@;
        perm.insert(at, i);
        proof {
            let next = kv.take(i + 1);
            assert forall|k: int| 0 <= k < next.len() implies #[trigger] listed(perm@, k) by {
                if k == i {
                    assert(perm@[at as int] == k);
                } else {
                    assert(listed(was, k));
                    let p = choose|p: int| 0 <= p < was.len() && was[p] == k;
                    if p < at {
                        assert(perm@[p] == k);
                    } else {
                        assert(perm@[p + 1] == k);
                    }
                }
            }
            assert forall|p: int, q: int| 0 <= p < q < perm@.len() implies before(
                next,
                (#[trigger] perm@[p]) as int,
                (#[trigger] perm@[q]) as int,
            ) by {
                if q < at {
                    assert(before(head, was[p] as int, was[q] as int));
                } else if q == at {
                    let last = was[at - 1] as int;
                    assert(!key_less(kv[i as int], kv[last]));
                    lemma_key_total(kv[i as int], kv[last]);
                    assert(before(next, last, i as int));
                    if p < at - 1 {
                        assert(before(head, was[p] as int, was[at - 1] as int));
                        assert(before(next, was[p] as int, last));
                        lemma_before_transitive(next, was[p] as int, last, i as int);
                    }
                } else if p < at {
                    assert(before(head, was[p] as int, was[q - 1] as int));
                } else if p == at {
                    assert(key_less(kv[i as int], kv[was[q - 1] as int]));
                } else {
                    assert(before(head, was[p - 1] as int, was[q - 1] as int));
                }
            }
        }
        i = i + 1;
    }
    proof {
        assert(kv.take(i as int) =~= kv);
        lemma_order_unique(kv, perm@, order_of(kv));
    }
    perm
}

/// The items' positions, largest value first; equal values keep their order.
pub fn descending_order(values: &Vec<i64>) -> (perm: Vec<usize>)
    requires
        forall|k: int| 0 <= k < values@.len() ==> (#[trigger] values@[k]) > i64::MIN,
    ensures
        is_order(descending_keys(values@), perm@),
        perm@ == order_of(descending_keys(values@)),
{
    let mut keys: Vec<Vec<i64>> = Vec::new();
    let mut i: usize = 0;
    while i < values.len()
        invariant
            i <= values@.len(),
            keys@.len() == i,
            forall|k: int| 0 <= k < values@.len() ==> (#[trigger] values@[k]) > i64::MIN,
            forall|k: int| 0 <= k < i ==> (#[trigger] keys@[k])@ == seq![(-values@[k]) as i64],
        decreases values@.len() - i,
    {
        let mut key: Vec<i64> = Vec::new();
        key.push(-values[i]);
        assert(key@ =~= seq![(-values@[i as int]) as i64]);
        keys.push(key);
        i = i + 1;
    }
    proof {
        assert(key_views(keys@) =~= descending_keys(values@));
    }
    stable_order(&keys)
}

/// The keys that list the largest value first.
pub open spec fn descending_keys(values: Seq<i64>) -> Seq<Seq<i64>> {
    Seq::new(values.len(), |i: int| seq![(-values[i]) as i64])
}

/// The keys that list the smallest value first.
pub open spec fn ascending_keys(values: Seq<i64>) -> Seq<Seq<i64>> {
    Seq::new(values.len(), |i: int| seq![values[i]])
}

/// The items' positions, smallest value first; equal values keep their order.
pub fn ascending_order(values: &Vec<i64>) -> (perm: Vec<usize>)
    ensures
        is_order(ascending_keys(values@), perm@),
        perm@ == order_of(ascending_keys(values@)),
{
    let mut keys: Vec<Vec<i64>> = Vec::new();
    let mut i: usize = 0;
    while i < values.len()
        invariant
            i <= values@.len(),
            keys@.len() == i,
            forall|k: int| 0 <= k < i ==> (#[trigger] keys@[k])@ == seq![values@[k]],
        decreases values@.len() - i,
    {
        let mut key: Vec<i64> = Vec::new();
        key.push(values[i]);
        assert(key@ =~= seq![values@[i as int]]);
        keys.push(key);
        i = i + 1;
    }
    proof {
        assert(key_views(keys@) =~= ascending_keys(values@));
    }
    stable_order(&keys)
}

/// The middle value: the one at place `len / 2` when the values are sorted.
pub open spec fn median_of(values: Seq<i64>) -> i64 {
    values[order_of(ascending_keys(values))[values.len() as int / 2] as int]
}

/// The middle value.
pub fn median(values: &Vec<i64>) -> (m: i64)
    requires
        values@.len() > 0,
    ensures
        m == median_of(values@),
        values@.contains(m),
{
    let perm: Vec<usize> = ascending_order(values);
    let mid: usize = values.len() / 2;
    assert(perm@[mid as int] < values@.len());
    values[perm[mid]]
}

/// No item is listed twice.
pub proof fn lemma_order_distinct(keys: Seq<Seq<i64>>, perm: Seq<usize>, p: int, q: int)
    requires
        is_order(keys, perm),
        0 <= p < perm.len(),
        0 <= q < perm.len(),
        perm[p] == perm[q],
    ensures
        p == q,
{
    let a = perm[p] as int;
    lemma_key_irreflexive(keys[a]);
    if p < q {
        assert(before(keys, perm[p] as int, perm[q] as int));
    } else if q < p {
        assert(before(keys, perm[q] as int, perm[p] as int));
    }
}

/// The items in the listed order.
pub fn reorder<T>(items: Vec<T>, perm: &Vec<usize>) -> (out: Vec<T>)
    requires
        perm@.len() == items@.len(),
        forall|p: int| 0 <= p < perm@.len() ==> (#[trigger] perm@[p]) < items@.len(),
        forall|p: int, q: int|
            0 <= p < q < perm@.len() ==> (#[trigger] perm@[p]) != (#[trigger] perm@[q]),
    ensures
        out@.len() == items@.len(),
        forall|k: int| 0 <= k < out@.len() ==> #[trigger] out@[k] == items@[perm@[k] as int],
{
    let n: usize = items.len();
    let ghost all = items@;
    let mut rest: Vec<T> = items;
    let mut slots: Vec<Option<T>> = Vec::new();
    let mut i: usize = n;
    while i > 0
        invariant
            i <= n,
            n == all.len(),
            rest@ == all.take(i as int),
            slots@.len() == n - i,
            forall|k: int| 0 <= k < n - i ==> #[trigger] slots@[k] == Some(all[n - 1 - k]),
        decreases i,
    {
        let x: Option<T> = rest.pop();
        assert(x == Some(all[i - 1]));
        assert(rest@ =~= all.take(i - 1));
        slots.push(x);
        i = i - 1;
    }
    let mut out: Vec<T> = Vec::new();
    let mut k: usize = 0;
    while k < n
        invariant
            k <= n,
            n == all.len(),
            n == perm@.len(),
            forall|p: int| 0 <= p < perm@.len() ==> (#[trigger] perm@[p]) < all.len(),
            forall|p: int, q: int|
                0 <= p < q < perm@.len() ==> (#[trigger] perm@[p]) != (#[trigger] perm@[q]),
            slots@.len() == n,
            forall|p: int|
                k <= p < n ==> slots@[n - 1 - (#[trigger] perm@[p])] == Some(all[perm@[p] as int]),
            out@.len() == k,
            forall|p: int| 0 <= p < k ==> #[trigger] out@[p] == all[perm@[p] as int],
        decreases n - k,
    {
        let at: usize = n - 1 - perm[k];
        let mut hole: Option<T> = None;
        let ghost was = slots@;
        std::mem::swap(&mut slots[at], &mut hole);
        assert(slots@ =~= was.update(at as int, None));
        assert(hole == Some(all[perm@[k as int] as int]));
        match hole {
            Some(x) => {
                out.push(x);
            },
            None => {},
        }
        k = k + 1;
    }
    out
}

// ---------------------------------------------------------------- ranks

/// How many values are at most `m`.
pub open spec fn at_most(values: Seq<i64>, m: int) -> int
    decreases values.len(),
{
    if values.len() == 0 {
        0
    } else {
        at_most(values.drop_last(), m) + if values.last() <= m {
            1int
        } else {
            0
        }
    }
}

/// How many values are at least `m`.
pub open spec fn at_least(values: Seq<i64>, m: int) -> int
    decreases values.len(),
{
    if values.len() == 0 {
        0
    } else {
        at_least(values.drop_last(), m) + if values.last() >= m {
            1int
        } else {
            0
        }
    }
}

proof fn lemma_counted_at_most(values: Seq<i64>, m: int, some: Set<int>)
    requires
        some.finite(),
        forall|k: int| #[trigger] some.contains(k) ==> 0 <= k < values.len() && values[k] <= m,
    ensures
        some.len() <= at_most(values, m),
    decreases values.len(),
{
    if values.len() == 0 {
        assert(some =~= Set::empty());
    } else {
        let last = values.len() - 1;
        let rest = some.remove(last);
        assert forall|k: int| #[trigger] rest.contains(k) implies 0 <= k < values.drop_last().len()
            && values.drop_last()[k] <= m by {
            assert(some.contains(k));
        }
        lemma_counted_at_most(values.drop_last(), m, rest);
        if some.contains(last) {
            assert(values[last] <= m);
        } else {
            assert(rest =~= some);
        }
    }
}

proof fn lemma_counted_at_least(values: Seq<i64>, m: int, some: Set<int>)
    requires
        some.finite(),
        forall|k: int| #[trigger] some.contains(k) ==> 0 <= k < values.len() && values[k] >= m,
    ensures
        some.len() <= at_least(values, m),
    decreases values.len(),
{
    if values.len() == 0 {
        assert(some =~= Set::empty());
    } else {
        let last = values.len() - 1;
        let rest = some.remove(last);
        assert forall|k: int| #[trigger] rest.contains(k) implies 0 <= k < values.drop_last().len()
            && values.drop_last()[k] >= m by {
            assert(some.contains(k));
        }
        lemma_counted_at_least(values.drop_last(), m, rest);
        if some.contains(last) {
            assert(values[last] >= m);
        } else {
            assert(rest =~= some);
        }
    }
}

pub(crate) proof fn lemma_ascending(values: Seq<i64>, perm: Seq<usize>, p: int, q: int)
    requires
        is_order(ascending_keys(values), perm),
        0 <= p <= q < perm.len(),
    ensures
        values[perm[p] as int] <= values[perm[q] as int],
{
    if p < q {
        let a = perm[p] as int;
        let b = perm[q] as int;
        let keys = ascending_keys(values);
        assert(before(keys, a, b));
        assert(keys[a] == seq![values[a]]);
        assert(keys[b] == seq![values[b]]);
        if keys[a] == keys[b] {
            assert(keys[a][0] == keys[b][0]);
        } else {
            assert(keys[a].drop_first() =~= Seq::<i64>::empty());
            assert(keys[b].drop_first() =~= Seq::<i64>::empty());
        }
    }
}

/// The value at a place of the sorted values has as many values at or below it, and at
/// or above it, as the place says.
pub proof fn lemma_rank(values: Seq<i64>, p: int)
    requires
        0 <= p < values.len() <= usize::MAX,
    ensures
        ({
            let m = values[order_of(ascending_keys(values))[p] as int];
            &&& values.contains(m)
            &&& at_most(values, m as int) >= p + 1
            &&& at_least(values, m as int) >= values.len() - p
        }),
{
    let keys = ascending_keys(values);
    let perm = order_of(keys);
    lemma_order_exists(keys);
    assert(perm[p] < keys.len());
    let m = values[perm[p] as int];
    let low = perm.take(p + 1);
    let high = perm.skip(p);
    assert(low.no_duplicates()) by {
        assert forall|a: int, b: int| 0 <= a < low.len() && 0 <= b < low.len() && a != b implies low[a] != low[b] by {
            if low[a] == low[b] {
                lemma_order_distinct(keys, perm, a, b);
            }
        }
    }
    assert(high.no_duplicates()) by {
        assert forall|a: int, b: int| 0 <= a < high.len() && 0 <= b < high.len() && a != b implies high[a]
            != high[b] by {
            if high[a] == high[b] {
                lemma_order_distinct(keys, perm, a + p, b + p);
            }
        }
    }
    let lows = low.map_values(|k: usize| k as int);
    let highs = high.map_values(|k: usize| k as int);
    assert(lows.no_duplicates());
    assert(highs.no_duplicates());
    lows.unique_seq_to_set();
    highs.unique_seq_to_set();
    assert forall|k: int| #[trigger] lows.to_set().contains(k) implies 0 <= k < values.len() && values[k] <= m by {
        let a = choose|a: int| 0 <= a < lows.len() && lows[a] == k;
        assert(lows[a] == perm[a]);
        lemma_ascending(values, perm, a, p);
    }
    assert forall|k: int| #[trigger] highs.to_set().contains(k) implies 0 <= k < values.len() && values[k] >= m by {
        let a = choose|a: int| 0 <= a < highs.len() && highs[a] == k;
        assert(highs[a] == perm[a + p]);
        lemma_ascending(values, perm, p, a + p);
    }
    lemma_counted_at_most(values, m as int, lows.to_set());
    lemma_counted_at_least(values, m as int, highs.to_set());
}

proof fn lemma_counts_exclude(values: Seq<i64>, x: int, y: int)
    requires
        x < y,
    ensures
        at_most(values, x) + at_least(values, y) <= values.len(),
    decreases values.len(),
{
    if values.len() > 0 {
        lemma_counts_exclude(values.drop_last(), x, y);
    }
}

/// There is only one value with the rank of a place.
pub proof fn lemma_rank_unique(values: Seq<i64>, p: int, x: int, y: int)
    requires
        at_most(values, x) >= p + 1,
        at_least(values, x) >= values.len() - p,
        at_most(values, y) >= p + 1,
        at_least(values, y) >= values.len() - p,
    ensures
        x == y,
{
    if x < y {
        lemma_counts_exclude(values, x, y);
    } else if y < x {
        lemma_counts_exclude(values, y, x);
    }
}

/// Counting does not mind the order.
pub proof fn lemma_counts_unordered(a: Seq<i64>, b: Seq<i64>, m: int)
    requires
        a.to_multiset() == b.to_multiset(),
    ensures
        at_most(a, m) == at_most(b, m),
        at_least(a, m) == at_least(b, m),
{
    lemma_counts_are_of_multiset(a, m);
    lemma_counts_are_of_multiset(b, m);
}

proof fn lemma_counts_are_of_multiset(a: Seq<i64>, m: int)
    ensures
        at_most(a, m) == a.to_multiset().filter(|x: i64| x <= m).len(),
        at_least(a, m) == a.to_multiset().filter(|x: i64| x >= m).len(),
    decreases a.len(),
{
    broadcast use vstd::seq_lib::group_to_multiset_ensures;
    broadcast use vstd::multiset::group_multiset_axioms;

    let low = |x: i64| x <= m;
    let high = |x: i64| x >= m;
    if a.len() == 0 {
        assert(a.to_multiset() =~= vstd::multiset::Multiset::empty());
        assert(a.to_multiset().filter(low) =~= vstd::multiset::Multiset::empty());
        assert(a.to_multiset().filter(high) =~= vstd::multiset::Multiset::empty());
    } else {
        let rest = a.drop_last();
        let x = a.last();
        lemma_counts_are_of_multiset(rest, m);
        assert(a =~= rest.push(x));
        let all = a.to_multiset();
        assert(all =~= rest.to_multiset().insert(x));
        if low(x) {
            assert(all.filter(low) =~= rest.to_multiset().filter(low).insert(x));
        } else {
            assert(all.filter(low) =~= rest.to_multiset().filter(low));
        }
        if high(x) {
            assert(all.filter(high) =~= rest.to_multiset().filter(high).insert(x));
        } else {
            assert(all.filter(high) =~= rest.to_multiset().filter(high));
        }
    }
}

/// The middle value is one of the values; no more than half of them are smaller, and
/// fewer than half are larger. It does not depend on the order of the values.
pub proof fn lemma_middle_is_in_the_middle(values: Seq<i64>, others: Seq<i64>)
    requires
        0 < values.len() <= usize::MAX,
        values.to_multiset() == others.to_multiset(),
    ensures
        values.contains(median_of(values)),
        2 * at_least(values, median_of(values) as int) >= values.len(),
        2 * at_most(values, median_of(values) as int) > values.len(),
        median_of(others) == median_of(values),
{
    broadcast use vstd::seq_lib::group_to_multiset_ensures;

    assert(others.to_multiset().len() == others.len());
    assert(values.to_multiset().len() == values.len());
    let p = values.len() as int / 2;
    lemma_rank(values, p);
    lemma_rank(others, p);
    lemma_counts_unordered(values, others, median_of(values) as int);
    lemma_counts_unordered(values, others, median_of(others) as int);
    lemma_rank_unique(values, p, median_of(values) as int, median_of(others) as int);
}

/// Words in a dictionary: what decides is the first place at which two keys differ;
/// where one ends before that, it comes first.
pub proof fn lemma_first_difference_decides(a: Seq<i64>, b: Seq<i64>, p: int)
    requires
        0 <= p <= a.len(),
        p <= b.len(),
        forall|k: int| 0 <= k < p ==> #[trigger] a[k] == b[k],
    ensures
        p < a.len() && p < b.len() && a[p] != b[p] ==> key_less(a, b) == (a[p] < b[p]),
        p == a.len() && p < b.len() ==> key_less(a, b),
        p == b.len() ==> !key_less(a, b),
    decreases p,
{
    if p > 0 {
        assert(a[0] == b[0]);
        let c = a.drop_first();
        let d = b.drop_first();
        assert forall|k: int| 0 <= k < p - 1 implies #[trigger] c[k] == d[k] by {
            assert(a[k + 1] == b[k + 1]);
        }
        lemma_first_difference_decides(c, d, p - 1);
    }
}

/// The stable order: every item once; no later item has a smaller key, and items with
/// equal keys stay as they were.
pub proof fn lemma_order_is_stable(keys: Seq<Seq<i64>>, p: int, q: int, k: int)
    requires
        keys.len() <= usize::MAX,
        0 <= p < q < keys.len(),
        0 <= k < keys.len(),
    ensures
        ({
            let order = order_of(keys);
            &&& order.len() == keys.len()
            &&& order[p] < keys.len() && order[p] != order[q]
            &&& !key_less(keys[order[q] as int], keys[order[p] as int])
            &&& keys[order[p] as int] == keys[order[q] as int] ==> order[p] < order[q]
            &&& exists|m: int| 0 <= m < order.len() && #[trigger] order[m] == k
        }),
{
    let order = order_of(keys);
    lemma_order_exists(keys);
    assert(before(keys, order[p] as int, order[q] as int));
    lemma_key_total(keys[order[p] as int], keys[order[q] as int]);
    lemma_key_irreflexive(keys[order[p] as int]);
    assert(listed(order, k));
    if order[p] == order[q] {
        lemma_order_distinct(keys, order, p, q);
    }
}

/// Largest first: no later value is larger, and equal ones stay as they were.
pub proof fn lemma_descending(values: Seq<i64>, p: int, q: int)
    requires
        values.len() <= usize::MAX,
        forall|k: int| 0 <= k < values.len() ==> (#[trigger] values[k]) > i64::MIN,
        0 <= p < q < values.len(),
    ensures
        ({
            let order = order_of(descending_keys(values));
            &&& order[p] < values.len() && order[q] < values.len()
            &&& values[order[p] as int] >= values[order[q] as int]
            &&& values[order[p] as int] == values[order[q] as int] ==> order[p] < order[q]
        }),
{
    let keys = descending_keys(values);
    let order = order_of(keys);
    lemma_order_exists(keys);
    lemma_order_is_stable(keys, p, q, 0);
    assert(order[q] < keys.len());
    let a = order[p] as int;
    let b = order[q] as int;
    assert(values[a] > i64::MIN && values[b] > i64::MIN);
    assert(keys[a] == seq![(-values[a]) as i64]);
    assert(keys[b] == seq![(-values[b]) as i64]);
    if values[a] != values[b] {
        lemma_first_difference_decides(keys[b], keys[a], 0);
    }
}

} // verus!

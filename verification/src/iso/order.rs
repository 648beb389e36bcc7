//! The order of identifiers and stable sorting by it.

use vstd::prelude::*;

verus! {

/// Whether `a` comes before `b` byte by byte, a prefix before what it starts.
pub open spec fn lex_lt(a: Seq<u8>, b: Seq<u8>) -> bool
    decreases a.len(),
{
    if b.len() == 0 {
        false
    } else if a.len() == 0 {
        true
    } else if a[0] != b[0] {
        a[0] < b[0]
    } else {
        lex_lt(a.drop_first(), b.drop_first())
    }
}

/// Of two different identifiers exactly one comes first.
pub proof fn lex_lt_total(a: Seq<u8>, b: Seq<u8>)
    ensures
        a == b || lex_lt(a, b) || lex_lt(b, a),
        !(lex_lt(a, b) && lex_lt(b, a)),
        !lex_lt(a, a),
    decreases a.len(),
{
    if a.len() > 0 {
        lex_lt_total(a.drop_first(), a.drop_first());
    }
    if a.len() > 0 && b.len() > 0 && a[0] == b[0] {
        lex_lt_total(a.drop_first(), b.drop_first());
        if a.drop_first() == b.drop_first() {
            assert(a =~= seq![a[0]] + a.drop_first());
            assert(b =~= seq![b[0]] + b.drop_first());
        }
    } else if a.len() == 0 && b.len() == 0 {
        assert(a =~= b);
    }
}

/// What comes before something comes before what follows it.
pub proof fn lex_lt_transitive(a: Seq<u8>, b: Seq<u8>, c: Seq<u8>)
    requires
        lex_lt(a, b),
        lex_lt(b, c),
    ensures
        lex_lt(a, c),
    decreases a.len(),
{
    if a.len() > 0 && a[0] == b[0] && b[0] == c[0] {
        lex_lt_transitive(a.drop_first(), b.drop_first(), c.drop_first());
    }
}

/// Whether `a` comes before `b`.
pub fn bytes_less(a: &[u8], b: &[u8]) -> (r: bool)
    ensures
        r == lex_lt(a@, b@),
{
    let mut i: usize = 0;
    assert(a@.skip(0) =~= a@ && b@.skip(0) =~= b@);
    loop
        invariant
            i <= a@.len(),
            i <= b@.len(),
            lex_lt(a@, b@) == lex_lt(a@.skip(i as int), b@.skip(i as int)),
        decreases a@.len() - i,
    {
        if i == b.len() {
            return false;
        }
        if i == a.len() {
            return true;
        }
        if a[i] != b[i] {
            return a[i] < b[i];
        }
        assert(a@.skip(i as int).drop_first() =~= a@.skip(i + 1));
        assert(b@.skip(i as int).drop_first() =~= b@.skip(i + 1));
        i += 1;
    }
}

/// Whether the item at `i` comes before the one at `j`: by key, and by position among
/// equal keys.
pub open spec fn before(keys: Seq<Seq<u8>>, i: int, j: int) -> bool {
    lex_lt(keys[i], keys[j]) || (keys[i] == keys[j] && i < j)
}

/// Whether `perm` lists all positions of `keys` in stable ascending order.
pub open spec fn stable_order(keys: Seq<Seq<u8>>, perm: Seq<int>) -> bool {
    &&& perm.len() == keys.len()
    &&& forall|i: int| 0 <= i < perm.len() ==> 0 <= #[trigger] perm[i] < keys.len()
    &&& forall|v: int| 0 <= v < keys.len() ==> #[trigger] perm.contains(v)
    &&& forall|i: int, j: int|
        0 <= i < j < perm.len() ==> before(keys, #[trigger] perm[i], #[trigger] perm[j])
}

proof fn before_asymmetric(keys: Seq<Seq<u8>>, i: int, j: int)
    ensures
        !(before(keys, i, j) && before(keys, j, i)),
{
    lex_lt_total(keys[i], keys[j]);
    lex_lt_total(keys[j], keys[i]);
}

proof fn before_transitive(keys: Seq<Seq<u8>>, i: int, j: int, k: int)
    requires
        before(keys, i, j),
        before(keys, j, k),
    ensures
        before(keys, i, k),
{
    if lex_lt(keys[i], keys[j]) && lex_lt(keys[j], keys[k]) {
        lex_lt_transitive(keys[i], keys[j], keys[k]);
    }
}

/// There is only one stable ascending order.
pub proof fn stable_order_is_unique(keys: Seq<Seq<u8>>, p: Seq<int>, q: Seq<int>)
    requires
        stable_order(keys, p),
        stable_order(keys, q),
    ensures
        p == q,
{
    same_prefix(keys, p, q, p.len() as int);
    assert(p =~= q);
}

proof fn same_prefix(keys: Seq<Seq<u8>>, p: Seq<int>, q: Seq<int>, n: int)
    requires
        stable_order(keys, p),
        stable_order(keys, q),
        0 <= n <= p.len(),
    ensures
        forall|i: int| 0 <= i < n ==> p[i] == q[i],
    decreases n,
{
    if n > 0 {
        same_prefix(keys, p, q, n - 1);
        let i = n - 1;
        if p[i] != q[i] {
            assert(q.contains(p[i]));
            assert(p.contains(q[i]));
            let k = choose|k: int| 0 <= k < q.len() && q[k] == p[i];
            let m = choose|m: int| 0 <= m < p.len() && p[m] == q[i];
            if k < i {
                assert(p[k] == q[k]);
                assert(before(keys, p[k], p[i]));
                before_asymmetric(keys, p[k], p[i]);
            }
            if m < i {
                assert(q[m] == p[m]);
                assert(before(keys, q[m], q[i]));
                before_asymmetric(keys, q[m], q[i]);
            }
            assert(before(keys, q[i], q[k]));
            assert(before(keys, p[i], p[m]));
            before_asymmetric(keys, p[i], q[i]);
        }
    }
}

/// There is a stable ascending order of any keys.
pub proof fn stable_order_exists(keys: Seq<Seq<u8>>)
    ensures
        exists|perm: Seq<int>| stable_order(keys, perm),
    decreases keys.len(),
{
    if keys.len() == 0 {
        assert(stable_order(keys, Seq::<int>::empty()));
    } else {
        let init = keys.drop_last();
        let n = init.len() as int;
        stable_order_exists(init);
        let p = choose|p: Seq<int>| stable_order(init, p);
        let at = insertion_point(keys, p);
        insertion_point_splits(init, keys, p, n);
        let q = p.take(at) + seq![n] + p.skip(at);
        assert forall|i: int| 0 <= i < q.len() implies 0 <= #[trigger] q[i] < keys.len() by {
            if i < at {
                assert(q[i] == p[i]);
            } else if i > at {
                assert(q[i] == p[i - 1]);
            }
        }
        assert forall|v: int| 0 <= v < keys.len() implies #[trigger] q.contains(v) by {
            if v == n {
                assert(q[at] == n);
            } else {
                assert(p.contains(v));
                let i = choose|i: int| 0 <= i < p.len() && p[i] == v;
                if i < at {
                    assert(q[i] == v);
                } else {
                    assert(q[i + 1] == v);
                }
            }
        }
        assert forall|i: int, j: int| 0 <= i < j < q.len() implies before(
            keys,
            #[trigger] q[i],
            #[trigger] q[j],
        ) by {
            let a = if i < at {
                i
            } else {
                i - 1
            };
            let b = if j < at {
                j
            } else {
                j - 1
            };
            if i == at {
                assert(q[j] == p[b]);
            } else if j == at {
                assert(q[i] == p[a]);
            } else {
                assert(q[i] == p[a] && q[j] == p[b]);
                assert(before(init, p[a], p[b]));
            }
        }
        assert(stable_order(keys, q));
    }
}

/// How many leading positions of `p` have keys that do not exceed the last key.
spec fn insertion_point(keys: Seq<Seq<u8>>, p: Seq<int>) -> int
    decreases p.len(),
{
    if p.len() == 0 {
        0
    } else if lex_lt(keys.last(), keys[p.last()]) {
        insertion_point(keys, p.drop_last())
    } else {
        p.len() as int
    }
}

proof fn insertion_point_splits(init: Seq<Seq<u8>>, keys: Seq<Seq<u8>>, p: Seq<int>, n: int)
    requires
        keys.len() == n + 1,
        init == keys.drop_last(),
        forall|i: int| 0 <= i < p.len() ==> 0 <= #[trigger] p[i] < n,
        forall|i: int, j: int|
            0 <= i < j < p.len() ==> before(init, #[trigger] p[i], #[trigger] p[j]),
    ensures
        0 <= insertion_point(keys, p) <= p.len(),
        forall|i: int|
            0 <= i < insertion_point(keys, p) ==> before(keys, #[trigger] p[i], n),
        forall|i: int|
            insertion_point(keys, p) <= i < p.len() ==> before(keys, n, #[trigger] p[i]),
    decreases p.len(),
{
    if p.len() > 0 {
        let m = p.len() - 1;
        if lex_lt(keys.last(), keys[p.last()]) {
            let q = p.drop_last();
            assert forall|i: int, j: int| 0 <= i < j < q.len() implies before(
                init,
                #[trigger] q[i],
                #[trigger] q[j],
            ) by {
                assert(before(init, p[i], p[j]));
            }
            assert forall|i: int| 0 <= i < q.len() implies 0 <= #[trigger] q[i] < n by {
                assert(q[i] == p[i]);
            }
            insertion_point_splits(init, keys, q, n);
            assert forall|i: int| 0 <= i < insertion_point(keys, p) implies before(
                keys,
                #[trigger] p[i],
                n,
            ) by {
                assert(q[i] == p[i]);
            }
            assert forall|i: int| insertion_point(keys, p) <= i < p.len() implies before(
                keys,
                n,
                #[trigger] p[i],
            ) by {
                if i < m {
                    assert(q[i] == p[i]);
                }
            }
        } else {
            lex_lt_total(keys.last(), keys[p.last()]);
            assert forall|i: int| 0 <= i < p.len() implies before(keys, #[trigger] p[i], n) by {
                if i < m {
                    assert(before(init, p[i], p[m]));
                    before_transitive(keys, p[i], p[m], n);
                }
            }
        }
    }
}

/// The views of keys.
pub open spec fn key_views(keys: Seq<Vec<u8>>) -> Seq<Seq<u8>> {
    Seq::new(keys.len(), |i: int| keys[i]@)
}

/// Positions as integers.
pub open spec fn positions(perm: Seq<usize>) -> Seq<int> {
    Seq::new(perm.len(), |i: int| perm[i] as int)
}

/// The positions of keys in stable ascending order.
pub fn sort_positions(keys: &Vec<Vec<u8>>) -> (perm: Vec<usize>)
    ensures
        stable_order(key_views(keys@), positions(perm@)),
{
    let ghost all = key_views(keys@);
    let mut perm: Vec<usize> = Vec::new();
    let mut n: usize = 0;
    while n < keys.len()
        invariant
            n <= keys@.len(),
            all == key_views(keys@),
            perm@.len() == n,
            forall|i: int| 0 <= i < n ==> (#[trigger] perm@[i]) < n,
            forall|v: usize| v < n ==> #[trigger] perm@.contains(v),
            forall|i: int, j: int|
                0 <= i < j < n ==> before(
                    all,
                    (#[trigger] perm@[i]) as int,
                    (#[trigger] perm@[j]) as int,
                ),
        decreases keys.len() - n,
    {
        let ghost was = perm@;
        let mut at: usize = perm.len();
        while at > 0 && bytes_less(keys[n].as_slice(), keys[perm[at - 1]].as_slice())
            invariant
                at <= n,
                n < keys@.len(),
                perm@ == was,
                was.len() == n,
                all == key_views(keys@),
                forall|i: int| 0 <= i < n ==> (#[trigger] was[i]) < n,
                forall|i: int| at <= i < n ==> before(all, n as int, (#[trigger] was[i]) as int),
            decreases at,
        {
            at -= 1;
        }
        proof {
            if at > 0 {
                let last = was[at - 1] as int;
                assert(!lex_lt(all[n as int], all[last]));
                lex_lt_total(all[n as int], all[last]);
                assert(before(all, last, n as int));
                assert forall|i: int| 0 <= i < at implies before(
                    all,
                    (#[trigger] was[i]) as int,
                    n as int,
                ) by {
                    if i < at - 1 {
                        before_transitive(all, was[i] as int, last, n as int);
                    }
                }
            }
        }
        perm.insert(at, n);
        proof {
            assert(perm@ =~= was.insert(at as int, n));
            assert forall|v: usize| v < n + 1 implies #[trigger] perm@.contains(v) by {
                if v == n {
                    assert(perm@[at as int] == n);
                } else {
                    assert(was.contains(v));
                    let i = choose|i: int| 0 <= i < was.len() && was[i] == v;
                    if i < at {
                        assert(perm@[i] == v);
                    } else {
                        assert(perm@[i + 1] == v);
                    }
                }
            }
        }
        n += 1;
    }
    proof {
        let p = positions(perm@);
        assert forall|v: int| 0 <= v < all.len() implies #[trigger] p.contains(v) by {
            assert(perm@.contains(v as usize));
            let i = choose|i: int| 0 <= i < perm@.len() && perm@[i] == v as usize;
            assert(p[i] == v);
        }
    }
    perm
}

} // verus!

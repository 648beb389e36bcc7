//! Sums, and what a directory lists.

#[allow(unused_imports)]
use crate::iso::order::{before, lex_lt_total, stable_order};
#[allow(unused_imports)]
use crate::iso::tree::{EntryView, KindView};
#[allow(unused_imports)]
use crate::iso::written::DirView;
use vstd::prelude::*;

verus! {

/// The sum of numbers.
pub open spec fn sum(s: Seq<int>) -> int
    decreases s.len(),
{
    if s.len() == 0 {
        0
    } else {
        sum(s.drop_last()) + s.last()
    }
}

/// The sum of numbers and further numbers.
pub proof fn sum_joins(a: Seq<int>, b: Seq<int>)
    ensures
        sum(a + b) == sum(a) + sum(b),
    decreases b.len(),
{
    if b.len() == 0 {
        assert(a + b =~= a);
    } else {
        assert((a + b).drop_last() =~= a + b.drop_last());
        sum_joins(a, b.drop_last());
    }
}

/// The sum of numbers without one of them.
pub proof fn sum_without(s: Seq<int>, i: int)
    requires
        0 <= i < s.len(),
    ensures
        sum(s) == sum(s.remove(i)) + s[i],
{
    let a = s.take(i);
    let b = s.skip(i + 1);
    assert(s =~= (a + seq![s[i]]) + b);
    assert(s.remove(i) =~= a + b);
    sum_joins(a + seq![s[i]], b);
    sum_joins(a, seq![s[i]]);
    sum_joins(a, b);
    assert(seq![s[i]].drop_last() =~= Seq::empty());
    assert(sum(seq![s[i]]) == sum(Seq::<int>::empty()) + s[i]);
}

/// Whether each number below `n` is there once.
pub open spec fn is_order(perm: Seq<int>, n: int) -> bool {
    &&& perm.len() == n
    &&& forall|i: int| 0 <= i < n ==> 0 <= #[trigger] perm[i] < n
    &&& perm.no_duplicates()
    &&& forall|v: int| 0 <= v < n ==> #[trigger] perm.contains(v)
}

/// The numbers in the given order.
pub open spec fn taken(s: Seq<int>, perm: Seq<int>) -> Seq<int> {
    Seq::new(perm.len(), |i: int| s[perm[i]])
}

/// A sum does not depend on the order.
/// A sum does not depend on the order.
pub proof fn sum_in_any_order(s: Seq<int>, perm: Seq<int>)
    requires
        is_order(perm, s.len() as int),
    ensures
        sum(taken(s, perm)) == sum(s),
    decreases s.len(),
{
    if s.len() == 0 {
        assert(taken(s, perm) =~= s);
    } else {
        let v = s.len() - 1;
        assert(perm.contains(v));
        let i = choose|i: int| 0 <= i < perm.len() && perm[i] == v;
        let rest = perm.remove(i);
        let init = s.drop_last();
        assert(is_order(rest, v)) by {
            assert forall|k: int| 0 <= k < v implies 0 <= #[trigger] rest[k] < v by {
                let o = if k < i {
                    k
                } else {
                    k + 1
                };
                assert(rest[k] == perm[o]);
                assert(perm[o] != perm[i]);
            }
            assert forall|a: int, b: int| 0 <= a < b < rest.len() implies rest[a] != rest[b] by {
                let x = if a < i {
                    a
                } else {
                    a + 1
                };
                let y = if b < i {
                    b
                } else {
                    b + 1
                };
                assert(rest[a] == perm[x] && rest[b] == perm[y]);
            }
            assert forall|w: int| 0 <= w < v implies #[trigger] rest.contains(w) by {
                assert(perm.contains(w));
                let k = choose|k: int| 0 <= k < perm.len() && perm[k] == w;
                let o = if k < i {
                    k
                } else {
                    k - 1
                };
                assert(rest[o] == w);
            }
        }
        sum_in_any_order(init, rest);
        sum_without(taken(s, perm), i);
        assert(taken(s, perm).remove(i) =~= taken(init, rest)) by {
            assert forall|k: int| 0 <= k < v implies taken(s, perm).remove(i)[k] == taken(
                init,
                rest,
            )[k] by {
                assert(0 <= rest[k] < v);
            }
        }
    }
}

/// A stable order is an order.
pub proof fn stable_is_order(keys: Seq<Seq<u8>>, perm: Seq<int>)
    requires
        stable_order(keys, perm),
    ensures
        is_order(perm, keys.len() as int),
{
    assert forall|i: int, j: int| 0 <= i < j < perm.len() implies perm[i] != perm[j] by {
        assert(before(keys, perm[i], perm[j]));
        lex_lt_total(keys[perm[i]], keys[perm[j]]);
    }
    assert(perm.no_duplicates());
}

/// The entries that a directory has records for, its directories first.
pub open spec fn listing(dir: DirView) -> Seq<EntryView> {
    Seq::new(
        dir.dirs.len(),
        |i: int|
            EntryView {
                name: dir.dirs[i].name,
                kind: KindView::Directory(Seq::empty()),
                metadata: dir.dirs[i].metadata,
            },
    ) + Seq::new(
        dir.files.len(),
        |i: int|
            EntryView {
                name: dir.files[i].name,
                kind: dir.files[i].kind,
                metadata: dir.files[i].metadata,
            },
    )
}

} // verus!

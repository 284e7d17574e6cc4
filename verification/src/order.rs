//! Stable ordering by numeric keys.
use vstd::prelude::*;

verus! {

/// Whether item `a` comes before item `b`: by the smaller key, and by position
/// where the keys are equal.
pub open spec fn before(keys: Seq<u128>, a: int, b: int) -> bool {
    keys[a] < keys[b] || (keys[a] == keys[b] && a < b)
}

/// Whether `order` lists the positions of `keys`, each once, in stable ascending
/// order of their keys.
pub open spec fn is_stable_order(keys: Seq<u128>, order: Seq<usize>) -> bool {
    &&& order.len() == keys.len()
    &&& forall|i: int| 0 <= i < order.len() ==> 0 <= #[trigger] order[i] < keys.len()
    &&& forall|i: int, j: int|
        0 <= i < j < order.len() ==> before(keys, #[trigger] order[i] as int, #[trigger] order[j] as int)
}

/// The positions of `keys` in stable ascending order.
pub fn stable_order(keys: &[u128]) -> (order: Vec<usize>)
    ensures
        is_stable_order(keys@, order@),
{
    let mut order: Vec<usize> = Vec::new();
    let mut n: usize = 0;
    while n < keys.len()
        invariant
            n <= keys@.len(),
            order@.len() == n,
            forall|i: int| 0 <= i < n ==> 0 <= #[trigger] order@[i] < n,
            forall|i: int, j: int|
                0 <= i < j < n ==> before(
                    keys@,
                    #[trigger] order@[i] as int,
                    #[trigger] order@[j] as int,
                ),
        decreases keys@.len() - n,
    {
        let mut at: usize = n;
        while at > 0 && keys[n] < keys[order[at - 1]]
            invariant
                n < keys@.len(),
                at <= n,
                order@.len() == n,
                forall|i: int| 0 <= i < n ==> 0 <= #[trigger] order@[i] < n,
                forall|i: int| at <= i < n ==> before(keys@, n as int, #[trigger] order@[i] as int),
            decreases at,
        {
            at -= 1;
        }
        let ghost was = order@;
        proof {
            assert forall|i: int| 0 <= i < at implies before(
                keys@,
                #[trigger] was[i] as int,
                n as int,
            ) by {
                if i < at - 1 {
                    assert(before(keys@, was[i] as int, was[at - 1] as int));
                }
            }
        }
        order.insert(at, n);
        proof {
            assert(order@ =~= was.insert(at as int, n));
            assert forall|i: int| 0 <= i < n + 1 implies 0 <= #[trigger] order@[i] < n + 1 by {
                if i < at {
                    assert(order@[i] == was[i]);
                } else if i > at {
                    assert(order@[i] == was[i - 1]);
                }
            }
            assert forall|i: int, j: int| 0 <= i < j < n + 1 implies before(
                keys@,
                #[trigger] order@[i] as int,
                #[trigger] order@[j] as int,
            ) by {
                if i < at {
                    assert(order@[i] == was[i]);
                } else if i > at {
                    assert(order@[i] == was[i - 1]);
                }
                if j < at {
                    assert(order@[j] == was[j]);
                } else if j > at {
                    assert(order@[j] == was[j - 1]);
                }
            }
        }
        n += 1;
    }
    order
}

/// Every position occurs in a stable order.
pub proof fn lemma_order_covers(keys: Seq<u128>, order: Seq<usize>, p: int) -> (i: int)
    requires
        is_stable_order(keys, order),
        0 <= p < keys.len(),
    ensures
        0 <= i < order.len(),
        order[i] == p,
{
    let s = order.map_values(|v: usize| v as int);
    assert(s.no_duplicates()) by {
        assert forall|i: int, j: int| 0 <= i < s.len() && 0 <= j < s.len() && i != j implies s[i]
            != s[j] by {
            if i < j {
                assert(before(keys, order[i] as int, order[j] as int));
            } else {
                assert(before(keys, order[j] as int, order[i] as int));
            }
        }
    }
    s.unique_seq_to_set();
    let all = vstd::set_lib::set_int_range(0, keys.len() as int);
    vstd::set_lib::lemma_int_range(0, keys.len() as int);
    assert(s.to_set().subset_of(all)) by {
        assert forall|v: int| s.to_set().contains(v) implies all.contains(v) by {
            let i = choose|i: int| 0 <= i < s.len() && s[i] == v;
            assert(order[i] == v);
        }
    }
    vstd::set_lib::lemma_subset_equality(s.to_set(), all);
    assert(s.to_set().contains(p));
    let i = choose|i: int| 0 <= i < s.len() && s[i] == p;
    i
}

/// In a stable order the keys rise, and what has the same key keeps its order.
pub proof fn law_stable_order(keys: Seq<u128>, order: Seq<usize>, i: int, j: int)
    requires
        is_stable_order(keys, order),
        0 <= i < j < order.len(),
    ensures
        keys[order[i] as int] <= keys[order[j] as int],
        keys[order[i] as int] == keys[order[j] as int] ==> order[i] < order[j],
        order[i] != order[j],
{
    assert(before(keys, order[i] as int, order[j] as int));
}

} // verus!

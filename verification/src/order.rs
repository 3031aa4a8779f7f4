use vstd::prelude::*;

verus! {

/// `i` comes before `j` when ordering by `keys` and breaking ties by position,
/// which is the order a stable sort by key leaves the positions in.
pub open spec fn key_before(keys: Seq<u32>, i: int, j: int) -> bool {
    keys[i] < keys[j] || (keys[i] == keys[j] && i < j)
}

/// `ord` lists the positions of `keys` in the order a stable sort by key puts them.
pub open spec fn is_stable_order(keys: Seq<u32>, ord: Seq<usize>) -> bool {
    &&& ord.len() == keys.len()
    &&& forall|k: int| 0 <= k < ord.len() ==> #[trigger] ord[k] < keys.len()
    &&& forall|a: int, b: int|
        0 <= a < b < ord.len() ==> key_before(keys, #[trigger] ord[a] as int, #[trigger] ord[b] as int)
}

/// Positions in a strictly increasing order are pairwise distinct.
pub proof fn lemma_stable_order_distinct(keys: Seq<u32>, ord: Seq<usize>, a: int, b: int)
    requires
        is_stable_order(keys, ord),
        0 <= a < ord.len(),
        0 <= b < ord.len(),
        a != b,
    ensures
        ord[a] != ord[b],
{
    if a < b {
        assert(key_before(keys, ord[a] as int, ord[b] as int));
    } else {
        assert(key_before(keys, ord[b] as int, ord[a] as int));
    }
}

/// `ord` lists every position below `n` exactly once.
pub open spec fn lists_each_once(n: int, ord: Seq<usize>) -> bool {
    &&& ord.len() == n
    &&& forall|i: usize| i < n ==> #[trigger] ord.contains(i)
    &&& forall|a: int, b: int| 0 <= a < b < n ==> #[trigger] ord[a] != #[trigger] ord[b]
}

/// `n` distinct positions below `n` are all of them.
pub proof fn lemma_distinct_positions_cover(n: int, ord: Seq<usize>)
    requires
        ord.len() == n,
        forall|k: int| 0 <= k < n ==> #[trigger] ord[k] < n,
        forall|a: int, b: int| 0 <= a < b < n ==> #[trigger] ord[a] != #[trigger] ord[b],
    ensures
        lists_each_once(n, ord),
{
    let s = ord.map_values(|x: usize| x as int);
    assert(s.no_duplicates()) by {
        assert forall|a: int, b: int| 0 <= a < s.len() && 0 <= b < s.len() && a != b implies s[a] != s[b] by {
            if a < b {
                assert(ord[a] != ord[b]);
            } else {
                assert(ord[b] != ord[a]);
            }
        }
    }
    s.unique_seq_to_set();
    vstd::set_lib::lemma_int_range(0, n);
    assert(s.to_set().subset_of(vstd::set_lib::set_int_range(0, n))) by {
        assert forall|x: int| s.to_set().contains(x) implies vstd::set_lib::set_int_range(0, n).contains(x) by {
            let k = choose|k: int| 0 <= k < s.len() && s[k] == x;
            assert(ord[k] < n);
        }
    }
    vstd::seq_lib::seq_to_set_is_finite(s);
    vstd::set_lib::lemma_subset_equality(s.to_set(), vstd::set_lib::set_int_range(0, n));
    assert forall|i: usize| i < n implies #[trigger] ord.contains(i) by {
        assert(vstd::set_lib::set_int_range(0, n).contains(i as int));
        assert(s.to_set().contains(i as int));
        let k = choose|k: int| 0 <= k < s.len() && s[k] == i as int;
        assert(ord[k] == i);
    }
}

/// A stable order lists every position exactly once.
pub proof fn lemma_stable_order_each_once(keys: Seq<u32>, ord: Seq<usize>)
    requires
        is_stable_order(keys, ord),
    ensures
        lists_each_once(keys.len() as int, ord),
{
    assert forall|a: int, b: int| 0 <= a < b < keys.len() implies #[trigger] ord[a] != #[trigger] ord[b] by {
        lemma_stable_order_distinct(keys, ord, a, b);
    }
    lemma_distinct_positions_cover(keys.len() as int, ord);
}

/// The positions of `keys` in stable sorted order (insertion sort on positions).
pub fn stable_order(keys: &Vec<u32>) -> (ord: Vec<usize>)
    ensures
        is_stable_order(keys@, ord@),
{
    let n = keys.len();
    let mut ord: Vec<usize> = Vec::new();
    let mut i: usize = 0;
    while i < n
        invariant
            n == keys.len(),
            i <= n,
            ord.len() == i,
            forall|k: int| 0 <= k < ord.len() ==> #[trigger] ord[k] < i,
            forall|a: int, b: int|
                0 <= a < b < ord.len() ==> key_before(keys@, #[trigger] ord[a] as int, #[trigger] ord[b] as int),
        decreases n - i,
    {
        let key = keys[i];
        let mut pos: usize = 0;
        while pos < ord.len() && keys[ord[pos]] <= key
            invariant
                n == keys.len(),
                i < n,
                key == keys@[i as int],
                pos <= ord.len(),
                forall|k: int| 0 <= k < ord.len() ==> #[trigger] ord[k] < i,
                forall|a: int| 0 <= a < pos ==> keys@[#[trigger] ord[a] as int] <= key,
            decreases ord.len() - pos,
        {
            pos = pos + 1;
        }
        let ghost old_ord = ord@;
        proof {
            assert forall|a: int| pos <= a < old_ord.len() implies keys@[#[trigger] old_ord[a] as int] > key by {
                if a > pos {
                    assert(key_before(keys@, old_ord[pos as int] as int, old_ord[a] as int));
                }
            }
        }
        ord.insert(pos, i);
        proof {
            assert forall|k: int| 0 <= k < ord.len() implies #[trigger] ord[k] < i + 1 by {
                if k < pos {
                    assert(ord[k] == old_ord[k]);
                } else if k > pos {
                    assert(ord[k] == old_ord[k - 1]);
                }
            }
            assert forall|a: int, b: int| 0 <= a < b < ord.len() implies key_before(
                keys@,
                #[trigger] ord[a] as int,
                #[trigger] ord[b] as int,
            ) by {
                if b < pos {
                    assert(ord[a] == old_ord[a] && ord[b] == old_ord[b]);
                } else if b == pos {
                    assert(ord[a] == old_ord[a]);
                } else if a < pos {
                    assert(ord[a] == old_ord[a] && ord[b] == old_ord[b - 1]);
                } else if a == pos {
                    assert(ord[b] == old_ord[b - 1]);
                } else {
                    assert(ord[a] == old_ord[a - 1] && ord[b] == old_ord[b - 1]);
                }
            }
        }
        i = i + 1;
    }
    ord
}

} // verus!
